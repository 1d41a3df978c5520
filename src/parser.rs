//! The parser: a state machine that reads tokens left to right and grows an
//! expression tree, with an explicit stack of the enclosing trees for
//! parenthesized groups.

use vstd::prelude::*;
use crate::lexer::{Symbol, Token};
use crate::number::Number;
use crate::syntax::{
    lemma_closed_partial_is_complete, lemma_takes_negation_is_open, lemma_with_operand_partial,
    lemma_with_operator_partial, Expression, Operator,
};

verus! {

/// Why a token sequence is not an expression.
#[derive(Debug, PartialEq, Eq)]
pub enum ParseErr {
    /// The input ended with an operand missing or a parenthesis unclosed.
    IncompleteSequence,
    /// A token that cannot stand where it stands.
    UnexpectedToken(Token),
    /// A symbol that should have been an operator is none.
    GeneralError(String),
}

/// The trees enclosing the current parenthesized group, innermost last.
pub struct Stack(Vec<Expression>);

impl View for Stack {
    type V = Seq<Expression>;

    closed spec fn view(&self) -> Seq<Expression> {
        self.0@
    }
}

impl Stack {
    /// An empty stack.
    pub fn new() -> (r: Stack)
        ensures
            r@ == Seq::<Expression>::empty(),
    {
        Stack(Vec::new())
    }

    /// Pushes a tree.
    pub fn push(&mut self, n: Expression)
        ensures
            final(self)@ == old(self)@.push(n),
    {
        self.0.push(n);
    }

    /// Pops the innermost tree, if any.
    pub fn pop(&mut self) -> (r: Option<Expression>)
        ensures
            old(self)@.len() == 0 ==> r is None && final(self)@ == old(self)@,
            old(self)@.len() > 0 ==> r == Some(old(self)@.last()) && final(self)@
                == old(self)@.drop_last(),
    {
        self.0.pop()
    }

    /// Whether the stack is empty.
    pub fn is_empty(&self) -> (r: bool)
        ensures
            r == (self@.len() == 0),
    {
        self.0.len() == 0
    }
}

/// One step of the parser: the enclosing trees and the tree under
/// construction after token `t`, or the error it causes.
///
/// - A literal, or a parenthesis opening a group, needs an open operand
///   slot. The literal fills it; the group saves the tree on the stack and
///   starts a new one.
/// - A closing parenthesis needs an enclosing group and a finished tree; the
///   tree, marked nested, fills the slot of the enclosing one.
/// - A minus on a bare empty slot starts a negation; after a finished
///   operand it is subtraction.
/// - Any other operator needs a finished operand and is added by
///   precedence climbing.
pub open spec fn step(stack: Seq<Expression>, cur: Expression, t: Token) -> Result<
    (Seq<Expression>, Expression),
    ParseErr,
> {
    match t {
        Token::Num(n) => if cur.is_open() {
            Ok((stack, cur.with_operand(Expression::Literal(Number::encoding(n as int)))))
        } else {
            Err(ParseErr::UnexpectedToken(t))
        },
        Token::Sym(Symbol::ParenOpen) => if cur.is_open() {
            Ok((stack.push(cur), Expression::Empty))
        } else {
            Err(ParseErr::UnexpectedToken(t))
        },
        Token::Sym(Symbol::ParenClose) => if stack.len() == 0 || cur.is_open() {
            Err(ParseErr::UnexpectedToken(t))
        } else {
            Ok((stack.drop_last(), stack.last().with_operand(Expression::Nested(Box::new(cur)))))
        },
        Token::Sym(Symbol::Minus) => if cur.takes_negation() {
            Ok((stack, cur.with_operand(Expression::Negation(Box::new(Expression::Empty)))))
        } else if cur.is_open() {
            Err(ParseErr::UnexpectedToken(t))
        } else {
            Ok((stack, cur.with_operator(Operator::Sub)))
        },
        Token::Sym(s) => if cur.is_open() {
            Err(ParseErr::UnexpectedToken(t))
        } else {
            Ok((stack, cur.with_operator(Operator::of_symbol(s)->0)))
        },
    }
}

/// The parser's state after all of `ts`, or the first error.
pub open spec fn run(stack: Seq<Expression>, cur: Expression, ts: Seq<Token>) -> Result<
    (Seq<Expression>, Expression),
    ParseErr,
>
    decreases ts.len(),
{
    if ts.len() == 0 {
        Ok((stack, cur))
    } else {
        match step(stack, cur, ts[0]) {
            Err(e) => Err(e),
            Ok((s2, c2)) => run(s2, c2, ts.drop_first()),
        }
    }
}

/// The end of input: every group closed and no operand missing.
pub open spec fn finish(stack: Seq<Expression>, cur: Expression) -> Result<Expression, ParseErr> {
    if stack.len() > 0 || cur.is_open() {
        Err(ParseErr::IncompleteSequence)
    } else {
        Ok(cur)
    }
}

/// The expression a token sequence stands for: `Empty` for no tokens.
pub open spec fn parse_spec(ts: Seq<Token>) -> Result<Expression, ParseErr> {
    if ts.len() == 0 {
        Ok(Expression::Empty)
    } else {
        match run(Seq::empty(), Expression::Empty, ts) {
            Err(e) => Err(e),
            Ok((s, c)) => finish(s, c),
        }
    }
}

/// The states the parser passes through: the tree under construction is
/// partial, and every enclosing tree is partial with its slot open.
pub open spec fn state_ok(stack: Seq<Expression>, cur: Expression) -> bool {
    &&& cur.is_partial()
    &&& forall|i: int| 0 <= i < stack.len() ==> (#[trigger] stack[i]).is_partial() && stack[i].is_open()
}

/// One step keeps the parser's state well formed.
pub proof fn lemma_step_ok(stack: Seq<Expression>, cur: Expression, t: Token)
    requires
        state_ok(stack, cur),
    ensures
        step(stack, cur, t) matches Ok((s, c)) ==> state_ok(s, c),
{
    match t {
        Token::Num(n) => {
            if cur.is_open() {
                lemma_with_operand_partial(cur, Expression::Literal(Number::encoding(n as int)));
            }
        },
        Token::Sym(Symbol::ParenOpen) => {
            if cur.is_open() {
                let s = stack.push(cur);
                assert forall|i: int| 0 <= i < s.len() implies (#[trigger] s[i]).is_partial()
                    && s[i].is_open() by {
                    if i < stack.len() {
                        assert(s[i] == stack[i]);
                    }
                }
            }
        },
        Token::Sym(Symbol::ParenClose) => {
            if !(stack.len() == 0 || cur.is_open()) {
                lemma_closed_partial_is_complete(cur);
                let outer = stack[stack.len() - 1];
                lemma_with_operand_partial(outer, Expression::Nested(Box::new(cur)));
                let s = stack.drop_last();
                assert forall|i: int| 0 <= i < s.len() implies (#[trigger] s[i]).is_partial()
                    && s[i].is_open() by {
                    assert(s[i] == stack[i]);
                }
            }
        },
        Token::Sym(Symbol::Minus) => {
            if cur.takes_negation() {
                lemma_takes_negation_is_open(cur);
                lemma_with_operand_partial(
                    cur,
                    Expression::Negation(Box::new(Expression::Empty)),
                );
            } else if !cur.is_open() {
                lemma_closed_partial_is_complete(cur);
                lemma_with_operator_partial(cur, Operator::Sub);
            }
        },
        Token::Sym(s) => {
            if !cur.is_open() {
                lemma_closed_partial_is_complete(cur);
                lemma_with_operator_partial(cur, Operator::of_symbol(s)->0);
            }
        },
    }
}

/// Running over any tokens keeps the parser's state well formed.
pub proof fn lemma_run_ok(stack: Seq<Expression>, cur: Expression, ts: Seq<Token>)
    requires
        state_ok(stack, cur),
    ensures
        run(stack, cur, ts) matches Ok((s, c)) ==> state_ok(s, c),
    decreases ts.len(),
{
    if ts.len() > 0 {
        lemma_step_ok(stack, cur, ts[0]);
        match step(stack, cur, ts[0]) {
            Ok((s2, c2)) => lemma_run_ok(s2, c2, ts.drop_first()),
            Err(_) => {},
        }
    }
}

/// A tree parsed from at least one token holds no `Empty`: every operand
/// slot was filled.
pub proof fn lemma_parse_complete(ts: Seq<Token>)
    ensures
        ts.len() > 0 && parse_spec(ts) is Ok ==> parse_spec(ts)->Ok_0.is_complete(),
{
    if ts.len() > 0 {
        lemma_run_ok(Seq::empty(), Expression::Empty, ts);
        match run(Seq::empty(), Expression::Empty, ts) {
            Ok((s, c)) => {
                if s.len() == 0 && !c.is_open() {
                    lemma_closed_partial_is_complete(c);
                }
            },
            Err(_) => {},
        }
    }
}

/// The parser state machine.
pub struct Machine {
    stack: Stack,
    current: Expression,
}

impl Machine {
    /// The enclosing trees.
    pub closed spec fn stack_view(&self) -> Seq<Expression> {
        self.stack@
    }

    /// The tree under construction.
    pub closed spec fn current_view(&self) -> Expression {
        self.current
    }

    /// A machine that has read nothing.
    pub fn new() -> (r: Machine)
        ensures
            r.stack_view() == Seq::<Expression>::empty(),
            r.current_view() == Expression::Empty,
    {
        Machine { stack: Stack::new(), current: Expression::Empty }
    }

    /// Reads one token.
    pub fn receive(self, t: Token) -> (r: Result<Machine, ParseErr>)
        ensures
            step(self.stack_view(), self.current_view(), t) matches Ok((s, c)) ==> r matches Ok(m)
                && m.stack_view() == s && m.current_view() == c,
            step(self.stack_view(), self.current_view(), t) matches Err(e) ==> r == Err::<
                Machine,
                ParseErr,
            >(e),
    {
        let Machine { mut stack, current } = self;
        match t {
            Token::Num(n) => {
                if current.has_open_slot() {
                    let lit = Expression::Literal(Number::from_int(n));
                    Ok(Machine { stack, current: current.attach(lit) })
                } else {
                    Err(ParseErr::UnexpectedToken(t))
                }
            },
            Token::Sym(Symbol::ParenOpen) => {
                if current.has_open_slot() {
                    stack.push(current);
                    Ok(Machine { stack, current: Expression::Empty })
                } else {
                    Err(ParseErr::UnexpectedToken(t))
                }
            },
            Token::Sym(Symbol::ParenClose) => {
                if stack.is_empty() || current.has_open_slot() {
                    Err(ParseErr::UnexpectedToken(t))
                } else {
                    match stack.pop() {
                        Some(outer) => {
                            let nested = Expression::Nested(Box::new(current));
                            Ok(Machine { stack, current: outer.attach(nested) })
                        },
                        None => Err(ParseErr::UnexpectedToken(t)),
                    }
                }
            },
            Token::Sym(Symbol::Minus) => {
                if current.accepts_negation() {
                    let neg = Expression::Negation(Box::new(Expression::Empty));
                    Ok(Machine { stack, current: current.attach(neg) })
                } else if current.has_open_slot() {
                    Err(ParseErr::UnexpectedToken(t))
                } else {
                    Ok(Machine { stack, current: current.append_operator(Operator::Sub) })
                }
            },
            Token::Sym(_) => {
                if current.has_open_slot() {
                    Err(ParseErr::UnexpectedToken(t))
                } else {
                    match Operator::from_token(t) {
                        Ok(op) => Ok(Machine { stack, current: current.append_operator(op) }),
                        Err(msg) => Err(ParseErr::GeneralError(msg)),
                    }
                }
            },
        }
    }

    /// Reads every token, then checks that the input may end there.
    pub fn to_ast(self, tokens: &Vec<Token>) -> (r: Result<Expression, ParseErr>)
        ensures
            r == (match run(self.stack_view(), self.current_view(), tokens@) {
                Err(e) => Err(e),
                Ok((s, c)) => finish(s, c),
            }),
    {
        let ghost ts = tokens@;
        let mut m = self;
        let mut i: usize = 0;
        proof {
            assert(ts.subrange(0, ts.len() as int) =~= ts);
        }
        while i < tokens.len()
            invariant
                ts == tokens@,
                i <= ts.len(),
                run(self.stack_view(), self.current_view(), ts) == run(
                    m.stack_view(),
                    m.current_view(),
                    ts.subrange(i as int, ts.len() as int),
                ),
            decreases ts.len() - i,
        {
            proof {
                assert(ts.subrange(i as int, ts.len() as int).drop_first() =~= ts.subrange(
                    i + 1,
                    ts.len() as int,
                ));
            }
            match m.receive(tokens[i]) {
                Ok(next) => {
                    m = next;
                },
                Err(e) => {
                    return Err(e);
                },
            }
            i += 1;
        }
        proof {
            assert(ts.subrange(i as int, ts.len() as int) =~= Seq::<Token>::empty());
        }
        let Machine { stack, current } = m;
        if !stack.is_empty() || current.has_open_slot() {
            Err(ParseErr::IncompleteSequence)
        } else {
            Ok(current)
        }
    }
}

/// Parses a token sequence into an expression tree; no tokens give `Empty`.
pub fn parse(seq: &Vec<Token>) -> (r: Result<Expression, ParseErr>)
    ensures
        r == parse_spec(seq@),
        seq@.len() > 0 ==> (r matches Ok(e) ==> e.is_complete()),
{
    proof {
        lemma_parse_complete(seq@);
    }
    if seq.len() == 0 {
        return Ok(Expression::Empty);
    }
    Machine::new().to_ast(seq)
}

} // verus!
