//! Expression trees: operators and their precedence, the tree the parser
//! builds, how a tree grows while tokens arrive, and how it evaluates.

use vstd::prelude::*;
use vstd::string::StringExecFns;
use crate::lexer::{lex, lex_spec, LexErr, Symbol, Token};
use crate::parser::{parse, parse_spec, ParseErr};
use crate::model::{div_trunc, wrap};
use crate::number::{ArithmeticError, Number};

verus! {

/// A binary operator.
#[derive(Clone, Copy, Debug, PartialEq, Eq, Structural)]
pub enum Operator {
    Add,
    Sub,
    Mul,
    Div,
    Exp,
    Mod,
}

impl Operator {
    /// Binding strength: exponentiation binds tightest, then multiplication,
    /// division and modulo, then addition and subtraction.
    pub open spec fn rank(self) -> nat {
        match self {
            Operator::Exp => 3,
            Operator::Mul | Operator::Div | Operator::Mod => 2,
            Operator::Add | Operator::Sub => 1,
        }
    }

    /// The operator a symbol stands for, if any.
    pub open spec fn of_symbol(s: Symbol) -> Option<Operator> {
        match s {
            Symbol::Plus => Some(Operator::Add),
            Symbol::Minus => Some(Operator::Sub),
            Symbol::Asterisk => Some(Operator::Mul),
            Symbol::FwdSlash => Some(Operator::Div),
            Symbol::Caret => Some(Operator::Exp),
            Symbol::Percent => Some(Operator::Mod),
            _ => None,
        }
    }

    /// The operator a token stands for, if any.
    pub open spec fn of_token(t: Token) -> Option<Operator> {
        match t {
            Token::Sym(s) => Operator::of_symbol(s),
            Token::Num(_) => None,
        }
    }

    /// Converts an operator token to its operator; any other token is an
    /// error, with a message saying so.
    pub fn from_token(t: Token) -> (r: Result<Operator, String>)
        ensures
            Operator::of_token(t) matches Some(op) ==> r == Ok::<Operator, String>(op),
            Operator::of_token(t) is None ==> r is Err,
    {
        match t {
            Token::Sym(Symbol::Plus) => Ok(Operator::Add),
            Token::Sym(Symbol::Minus) => Ok(Operator::Sub),
            Token::Sym(Symbol::Asterisk) => Ok(Operator::Mul),
            Token::Sym(Symbol::FwdSlash) => Ok(Operator::Div),
            Token::Sym(Symbol::Caret) => Ok(Operator::Exp),
            Token::Sym(Symbol::Percent) => Ok(Operator::Mod),
            _ => Err(<String as StringExecFns>::from_str("Cannot convert token to operator")),
        }
    }

    /// The binding strength as a number.
    pub fn precedence(&self) -> (r: u8)
        ensures
            r == self.rank(),
    {
        match self {
            Operator::Exp => 3,
            Operator::Mul | Operator::Div | Operator::Mod => 2,
            Operator::Add | Operator::Sub => 1,
        }
    }

    /// Whether this operator binds strictly tighter than `other`.
    pub fn has_precedence_over(&self, other: Operator) -> (r: bool)
        ensures
            r == (self.rank() > other.rank()),
    {
        self.precedence() > other.precedence()
    }
}

/// Why an expression has no value.
#[derive(Clone, Copy, Debug, PartialEq, Eq, Structural)]
pub enum EvalError {
    /// The tree holds an unfilled operand.
    EmptyExpression,
    /// A division by zero.
    DivisionByZero,
    /// An operator the arithmetic engine does not implement.
    UnsupportedOperator(Operator),
}

/// An expression tree.
#[derive(Debug, PartialEq)]
pub enum Expression {
    /// A placeholder for an operand not read yet.
    Empty,
    /// An integer.
    Literal(Number),
    /// Unary minus.
    Negation(Box<Expression>),
    /// A parenthesized sub-expression.
    Nested(Box<Expression>),
    /// An operator applied to two operands.
    BinaryOp(Box<Expression>, Operator, Box<Expression>),
}

/// Applies a binary operator to two integers.
pub open spec fn apply(op: Operator, a: int, b: int) -> Result<int, EvalError> {
    match op {
        Operator::Add => Ok(wrap(a + b)),
        Operator::Sub => Ok(wrap(a - b)),
        Operator::Mul => Ok(wrap(a * b)),
        Operator::Div => if b == 0 {
            Err(EvalError::DivisionByZero)
        } else {
            Ok(wrap(div_trunc(a, b)))
        },
        Operator::Exp | Operator::Mod => Err(EvalError::UnsupportedOperator(op)),
    }
}

impl Expression {
    /// The tree has an operand slot still to fill at the end of its right
    /// spine: an `Empty`, or a negation of `Empty`.
    pub open spec fn is_open(self) -> bool
        decreases self,
    {
        match self {
            Expression::Empty => true,
            Expression::Negation(e) => *e is Empty,
            Expression::BinaryOp(_, _, r) => r.is_open(),
            _ => false,
        }
    }

    /// The open slot is a bare `Empty`, where a unary minus may start.
    pub open spec fn takes_negation(self) -> bool
        decreases self,
    {
        match self {
            Expression::Empty => true,
            Expression::BinaryOp(_, _, r) => r.takes_negation(),
            _ => false,
        }
    }

    /// The tree with `x` put in its open slot (unchanged where none is
    /// open).
    pub open spec fn with_operand(self, x: Expression) -> Expression
        decreases self,
    {
        match self {
            Expression::Empty => x,
            Expression::Negation(e) => if *e is Empty {
                Expression::Negation(Box::new(x))
            } else {
                self
            },
            Expression::BinaryOp(l, op, r) => Expression::BinaryOp(
                l,
                op,
                Box::new(r.with_operand(x)),
            ),
            _ => self,
        }
    }

    /// Precedence climbing: the tree with operator `op` added after it.
    /// Down the right spine, as long as `op` binds strictly tighter than the
    /// operator found, it goes one level deeper; where it does not, the
    /// subtree there becomes the left operand of `op`, whose right operand
    /// is left open.
    pub open spec fn with_operator(self, op: Operator) -> Expression
        decreases self,
    {
        match self {
            Expression::BinaryOp(l, o, r) => if op.rank() > o.rank() {
                Expression::BinaryOp(l, o, Box::new(r.with_operator(op)))
            } else {
                Expression::BinaryOp(Box::new(self), op, Box::new(Expression::Empty))
            },
            _ => Expression::BinaryOp(Box::new(self), op, Box::new(Expression::Empty)),
        }
    }

    /// The tree holds no `Empty`.
    pub open spec fn is_complete(self) -> bool
        decreases self,
    {
        match self {
            Expression::Empty => false,
            Expression::Literal(_) => true,
            Expression::Negation(e) => e.is_complete(),
            Expression::Nested(e) => e.is_complete(),
            Expression::BinaryOp(l, _, r) => l.is_complete() && r.is_complete(),
        }
    }

    /// A tree the parser may hold while reading: everything is complete
    /// but the end of the right spine, which may be an open slot.
    pub open spec fn is_partial(self) -> bool
        decreases self,
    {
        match self {
            Expression::Empty => true,
            Expression::Literal(_) => true,
            Expression::Negation(e) => *e is Empty || e.is_complete(),
            Expression::Nested(e) => e.is_complete(),
            Expression::BinaryOp(l, _, r) => l.is_complete() && r.is_partial(),
        }
    }

    /// The value of the tree, or why it has none; the left operand is
    /// evaluated before the right one.
    pub open spec fn value(self) -> Result<int, EvalError>
        decreases self,
    {
        match self {
            Expression::Empty => Err(EvalError::EmptyExpression),
            Expression::Literal(n) => Ok(n.value()),
            Expression::Negation(e) => match e.value() {
                Ok(v) => Ok(wrap(-v)),
                Err(x) => Err(x),
            },
            Expression::Nested(e) => e.value(),
            Expression::BinaryOp(l, op, r) => match l.value() {
                Err(x) => Err(x),
                Ok(a) => match r.value() {
                    Err(x) => Err(x),
                    Ok(b) => apply(op, a, b),
                },
            },
        }
    }

    /// Whether the tree has an open operand slot.
    pub fn has_open_slot(&self) -> (r: bool)
        ensures
            r == self.is_open(),
        decreases self,
    {
        match self {
            Expression::Empty => true,
            Expression::Negation(e) => matches!(**e, Expression::Empty),
            Expression::BinaryOp(_, _, r) => r.has_open_slot(),
            _ => false,
        }
    }

    /// Whether a unary minus may start in the open slot.
    pub fn accepts_negation(&self) -> (r: bool)
        ensures
            r == self.takes_negation(),
        decreases self,
    {
        match self {
            Expression::Empty => true,
            Expression::BinaryOp(_, _, r) => r.accepts_negation(),
            _ => false,
        }
    }

    /// Puts `x` in the open slot.
    pub fn attach(self, x: Expression) -> (r: Expression)
        ensures
            r == self.with_operand(x),
        decreases self,
    {
        match self {
            Expression::Empty => x,
            Expression::Negation(e) => {
                if matches!(*e, Expression::Empty) {
                    Expression::Negation(Box::new(x))
                } else {
                    Expression::Negation(e)
                }
            },
            Expression::BinaryOp(l, op, r) => {
                let inner = (*r).attach(x);
                Expression::BinaryOp(l, op, Box::new(inner))
            },
            other => other,
        }
    }

    /// Adds operator `op` after the tree by precedence climbing.
    pub fn append_operator(self, op: Operator) -> (r: Expression)
        ensures
            r == self.with_operator(op),
        decreases self,
    {
        match self {
            Expression::BinaryOp(l, o, r) => {
                if op.has_precedence_over(o) {
                    let inner = (*r).append_operator(op);
                    Expression::BinaryOp(l, o, Box::new(inner))
                } else {
                    Expression::BinaryOp(
                        Box::new(Expression::BinaryOp(l, o, r)),
                        op,
                        Box::new(Expression::Empty),
                    )
                }
            },
            other => Expression::BinaryOp(Box::new(other), op, Box::new(Expression::Empty)),
        }
    }

    /// Evaluates the tree with the arithmetic of `Number`.
    pub fn eval(&self) -> (r: Result<Number, EvalError>)
        ensures
            r matches Ok(n) ==> self.value() == Ok::<int, EvalError>(n.value()),
            r matches Err(e) ==> self.value() == Err::<int, EvalError>(e),
        decreases self,
    {
        match self {
            Expression::Empty => Err(EvalError::EmptyExpression),
            Expression::Literal(n) => Ok(*n),
            Expression::Negation(e) => match e.eval() {
                Ok(v) => Ok(v.negate()),
                Err(x) => Err(x),
            },
            Expression::Nested(e) => e.eval(),
            Expression::BinaryOp(l, op, r) => {
                let lhs = match l.eval() {
                    Ok(v) => v,
                    Err(x) => return Err(x),
                };
                let rhs = match r.eval() {
                    Ok(v) => v,
                    Err(x) => return Err(x),
                };
                match op {
                    Operator::Add => Ok(lhs.add(rhs)),
                    Operator::Sub => Ok(lhs.subtract(rhs)),
                    Operator::Mul => Ok(lhs.multiply(rhs)),
                    Operator::Div => match lhs.divide(rhs) {
                        Ok(q) => Ok(q),
                        Err(ArithmeticError::DivisionByZero) => Err(EvalError::DivisionByZero),
                    },
                    Operator::Exp | Operator::Mod => Err(EvalError::UnsupportedOperator(*op)),
                }
            },
        }
    }
}

/// Why a text is not an expression.
#[derive(Debug, PartialEq, Eq)]
pub enum SyntaxError {
    Lex(LexErr),
    Parse(ParseErr),
}

/// The expression a text stands for: its tokens, parsed.
pub open spec fn read_spec(cs: Seq<char>) -> Result<Expression, SyntaxError> {
    match lex_spec(cs) {
        Err(e) => Err(SyntaxError::Lex(e)),
        Ok(ts) => match parse_spec(ts) {
            Err(e) => Err(SyntaxError::Parse(e)),
            Ok(x) => Ok(x),
        },
    }
}

impl Expression {
    /// Reads an expression from text: lexes it, then parses the tokens.
    pub fn from_str(s: &str) -> (r: Result<Expression, SyntaxError>)
        ensures
            r == read_spec(s@),
    {
        match lex(s) {
            Err(e) => Err(SyntaxError::Lex(e)),
            Ok(tokens) => match parse(&tokens) {
                Err(e) => Err(SyntaxError::Parse(e)),
                Ok(x) => Ok(x),
            },
        }
    }
}

/// A complete tree is partial and has no open slot.
pub proof fn lemma_complete_is_partial(e: Expression)
    requires
        e.is_complete(),
    ensures
        e.is_partial(),
        !e.is_open(),
        !e.takes_negation(),
    decreases e,
{
    match e {
        Expression::BinaryOp(l, _, r) => {
            lemma_complete_is_partial(*r);
            assert(e.is_open() == r.is_open());
        },
        Expression::Negation(x) => {
            assert(x.is_complete());
            assert(!(*x is Empty));
        },
        _ => {},
    }
}

/// A partial tree with no open slot is complete.
pub proof fn lemma_closed_partial_is_complete(e: Expression)
    requires
        e.is_partial(),
        !e.is_open(),
    ensures
        e.is_complete(),
    decreases e,
{
    match e {
        Expression::BinaryOp(_, _, r) => lemma_closed_partial_is_complete(*r),
        _ => {},
    }
}

/// A slot that takes a negation is open.
pub proof fn lemma_takes_negation_is_open(e: Expression)
    requires
        e.takes_negation(),
    ensures
        e.is_open(),
    decreases e,
{
    match e {
        Expression::BinaryOp(_, _, r) => lemma_takes_negation_is_open(*r),
        _ => {},
    }
}

/// Filling the open slot of a partial tree with a complete tree, or a bare
/// empty slot with a partial one, keeps the tree partial.
pub proof fn lemma_with_operand_partial(e: Expression, x: Expression)
    requires
        e.is_partial(),
        e.is_open(),
        x.is_complete() || (e.takes_negation() && x.is_partial()),
    ensures
        e.with_operand(x).is_partial(),
    decreases e,
{
    match e {
        Expression::Empty => {
            if x.is_complete() {
                lemma_complete_is_partial(x);
            }
        },
        Expression::BinaryOp(_, _, r) => lemma_with_operand_partial(*r, x),
        _ => {},
    }
}

/// Adding an operator after a complete tree gives a partial tree.
pub proof fn lemma_with_operator_partial(e: Expression, op: Operator)
    requires
        e.is_complete(),
    ensures
        e.with_operator(op).is_partial(),
    decreases e,
{
    match e {
        Expression::BinaryOp(l, o, r) => {
            if op.rank() > o.rank() {
                lemma_with_operator_partial(*r, op);
                assert(e.with_operator(op) == Expression::BinaryOp(
                    l,
                    o,
                    Box::new(r.with_operator(op)),
                ));
                assert(l.is_complete());
                assert(r.with_operator(op).is_partial());
                assert(Expression::BinaryOp(l, o, Box::new(r.with_operator(op))).is_partial());
            } else {
                let w = Expression::BinaryOp(Box::new(e), op, Box::new(Expression::Empty));
                assert(e.with_operator(op) == w);
                assert(Expression::Empty.is_partial());
                assert(w.is_partial());
            }
        },
        _ => {
            let w = Expression::BinaryOp(Box::new(e), op, Box::new(Expression::Empty));
            assert(e.with_operator(op) == w);
            assert(Expression::Empty.is_partial());
            assert(w.is_partial());
        },
    }
}

} // verus!
