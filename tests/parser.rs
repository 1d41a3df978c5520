use rustycalc::lexer::Symbol as Sy;
use rustycalc::lexer::Token as Tk;
use rustycalc::syntax::{Expression as Ex, Operator as Op};
use rustycalc::{lex, parse, Machine, Number, ParseErr, Stack};

fn lit(n: i64) -> Ex {
    Ex::Literal(Number::from_int(n))
}

fn bin(l: Ex, op: Op, r: Ex) -> Ex {
    Ex::BinaryOp(Box::new(l), op, Box::new(r))
}

fn nested(e: Ex) -> Ex {
    Ex::Nested(Box::new(e))
}

fn neg(e: Ex) -> Ex {
    Ex::Negation(Box::new(e))
}

fn check(tokens: Vec<Tk>, expr: Ex) {
    assert_eq!(parse(&tokens), Ok(expr));
}

const PAIRS: [(Sy, Op); 6] = [
    (Sy::Plus, Op::Add),
    (Sy::Minus, Op::Sub),
    (Sy::Asterisk, Op::Mul),
    (Sy::FwdSlash, Op::Div),
    (Sy::Caret, Op::Exp),
    (Sy::Percent, Op::Mod),
];

#[test]
fn parse_success() {
    assert_eq!(parse(&vec![]), Ok(Ex::Empty));

    assert_eq!(
        parse(&vec![Tk::Num(15), Tk::Sym(Sy::Plus), Tk::Num(20)]),
        Ok(bin(lit(15), Op::Add, lit(20))),
    );

    assert_eq!(
        parse(&vec![
            // 1 + 5 * 2 ^ (4 - 2)
            Tk::Num(1),
            Tk::Sym(Sy::Plus),
            Tk::Num(5),
            Tk::Sym(Sy::Asterisk),
            Tk::Num(2),
            Tk::Sym(Sy::Caret),
            Tk::Sym(Sy::ParenOpen),
            Tk::Num(4),
            Tk::Sym(Sy::Minus),
            Tk::Num(2),
            Tk::Sym(Sy::ParenClose),
        ]),
        Ok(bin(
            lit(1),
            Op::Add,
            bin(lit(5), Op::Mul, bin(lit(2), Op::Exp, nested(bin(lit(4), Op::Sub, lit(2))))),
        )),
    );
}

#[test]
fn test_machine() {
    let seq = vec![Tk::Num(42), Tk::Num(13)];

    assert_eq!(
        Machine::new().to_ast(&seq).err(),
        Some(ParseErr::UnexpectedToken(Tk::Num(13)))
    );

    Machine::new()
        .to_ast(&vec![Tk::Num(42)])
        .expect("Result should be an AST");

    assert_eq!(
        Machine::new().to_ast(&vec![Tk::Num(42), Tk::Sym(Sy::Plus)]).err(),
        Some(ParseErr::IncompleteSequence)
    );
}

#[test]
fn parse_empty() {
    check(vec![], Ex::Empty);
}

#[test]
fn parse_literal() {
    check(vec![Tk::Num(15)], lit(15));
}

#[test]
fn parse_parenthesized_literal() {
    check(
        vec![Tk::Sym(Sy::ParenOpen), Tk::Num(15), Tk::Sym(Sy::ParenClose)],
        nested(lit(15)),
    );
}

#[test]
fn parse_binary_op() {
    for (sym, op) in PAIRS.iter() {
        check(vec![Tk::Num(15), Tk::Sym(*sym), Tk::Num(0)], bin(lit(15), *op, lit(0)));
    }
}

#[test]
fn parse_parenthesized_binary_op() {
    for (sym, op) in PAIRS.iter() {
        check(
            vec![
                Tk::Sym(Sy::ParenOpen),
                Tk::Num(15),
                Tk::Sym(*sym),
                Tk::Num(0),
                Tk::Sym(Sy::ParenClose),
            ],
            nested(bin(lit(15), *op, lit(0))),
        );
    }
}

#[test]
fn parse_negation() {
    check(vec![Tk::Sym(Sy::Minus), Tk::Num(15)], neg(lit(15)));
}

#[test]
fn parse_negation_with_subexpr() {
    // -(4 + 2)
    check(
        vec![
            Tk::Sym(Sy::Minus),
            Tk::Sym(Sy::ParenOpen),
            Tk::Num(4),
            Tk::Sym(Sy::Plus),
            Tk::Num(2),
            Tk::Sym(Sy::ParenClose),
        ],
        neg(nested(bin(lit(4), Op::Add, lit(2)))),
    );
}

#[test]
fn parse_negation_in_subexpr() {
    // (-15)
    check(
        vec![
            Tk::Sym(Sy::ParenOpen),
            Tk::Sym(Sy::Minus),
            Tk::Num(15),
            Tk::Sym(Sy::ParenClose),
        ],
        nested(neg(lit(15))),
    );
}

#[test]
fn parse_negation_after_operator() {
    for (sym, op) in PAIRS.iter() {
        check(
            vec![Tk::Num(1), Tk::Sym(*sym), Tk::Sym(Sy::Minus), Tk::Num(5)],
            bin(lit(1), *op, neg(lit(5))),
        );
    }
}

#[test]
fn parse_multiple_identical_operations_left_associative() {
    for (sym, op) in PAIRS.iter() {
        check(
            vec![Tk::Num(1), Tk::Sym(*sym), Tk::Num(3), Tk::Sym(*sym), Tk::Num(5)],
            bin(bin(lit(1), *op, lit(3)), *op, lit(5)),
        );
    }
}

#[test]
fn parse_operator_precedence() {
    check(
        vec![
            Tk::Num(1),
            Tk::Sym(Sy::Plus),
            Tk::Num(3),
            Tk::Sym(Sy::Asterisk),
            Tk::Num(5),
        ],
        bin(lit(1), Op::Add, bin(lit(3), Op::Mul, lit(5))),
    );
}

#[test]
fn parse_parentheses_before_override_operator_precedence() {
    // (1 + 3) * 5
    check(
        vec![
            Tk::Sym(Sy::ParenOpen),
            Tk::Num(1),
            Tk::Sym(Sy::Plus),
            Tk::Num(3),
            Tk::Sym(Sy::ParenClose),
            Tk::Sym(Sy::Asterisk),
            Tk::Num(5),
        ],
        bin(nested(bin(lit(1), Op::Add, lit(3))), Op::Mul, lit(5)),
    );
}

#[test]
fn parse_parentheses_after_override_operator_precedence() {
    // 1 * (5 + 2)
    check(
        vec![
            Tk::Num(1),
            Tk::Sym(Sy::Asterisk),
            Tk::Sym(Sy::ParenOpen),
            Tk::Num(5),
            Tk::Sym(Sy::Plus),
            Tk::Num(2),
            Tk::Sym(Sy::ParenClose),
        ],
        bin(lit(1), Op::Mul, nested(bin(lit(5), Op::Add, lit(2)))),
    );
}

#[test]
fn parse_gnarly_thing_with_parens_and_no_precedence() {
    // 1 + ((5 * 2) ^ (4 - 2))
    check(
        vec![
            Tk::Num(1),
            Tk::Sym(Sy::Plus),
            Tk::Sym(Sy::ParenOpen),
            Tk::Sym(Sy::ParenOpen),
            Tk::Num(5),
            Tk::Sym(Sy::Asterisk),
            Tk::Num(2),
            Tk::Sym(Sy::ParenClose),
            Tk::Sym(Sy::Caret),
            Tk::Sym(Sy::ParenOpen),
            Tk::Num(4),
            Tk::Sym(Sy::Minus),
            Tk::Num(2),
            Tk::Sym(Sy::ParenClose),
            Tk::Sym(Sy::ParenClose),
        ],
        bin(
            lit(1),
            Op::Add,
            nested(bin(
                nested(bin(lit(5), Op::Mul, lit(2))),
                Op::Exp,
                nested(bin(lit(4), Op::Sub, lit(2))),
            )),
        ),
    );
}

#[test]
fn parse_precedence1() {
    // 1 * 2 + 5
    check(
        vec![
            Tk::Num(1),
            Tk::Sym(Sy::Asterisk),
            Tk::Num(2),
            Tk::Sym(Sy::Plus),
            Tk::Num(5),
        ],
        bin(bin(lit(1), Op::Mul, lit(2)), Op::Add, lit(5)),
    );

    // 1 + 2 * 5
    check(
        vec![
            Tk::Num(1),
            Tk::Sym(Sy::Plus),
            Tk::Num(2),
            Tk::Sym(Sy::Asterisk),
            Tk::Num(5),
        ],
        bin(lit(1), Op::Add, bin(lit(2), Op::Mul, lit(5))),
    );
}

#[test]
fn parse_precedence2() {
    // 1 * 5 + 4 - 2
    check(
        vec![
            Tk::Num(1),
            Tk::Sym(Sy::Asterisk),
            Tk::Num(5),
            Tk::Sym(Sy::Plus),
            Tk::Num(4),
            Tk::Sym(Sy::Minus),
            Tk::Num(2),
        ],
        bin(bin(bin(lit(1), Op::Mul, lit(5)), Op::Add, lit(4)), Op::Sub, lit(2)),
    );
}

#[test]
fn parse_precedence3() {
    // 1 + 5 * 2 ^ 4 - 2
    check(
        vec![
            Tk::Num(1),
            Tk::Sym(Sy::Plus),
            Tk::Num(5),
            Tk::Sym(Sy::Asterisk),
            Tk::Num(2),
            Tk::Sym(Sy::Caret),
            Tk::Num(4),
            Tk::Sym(Sy::Minus),
            Tk::Num(2),
        ],
        bin(
            bin(lit(1), Op::Add, bin(lit(5), Op::Mul, bin(lit(2), Op::Exp, lit(4)))),
            Op::Sub,
            lit(2),
        ),
    );

    // All same except precedence of last operator
    // 1 + 5 * 2 ^ 4 / 2
    check(
        vec![
            Tk::Num(1),
            Tk::Sym(Sy::Plus),
            Tk::Num(5),
            Tk::Sym(Sy::Asterisk),
            Tk::Num(2),
            Tk::Sym(Sy::Caret),
            Tk::Num(4),
            Tk::Sym(Sy::FwdSlash),
            Tk::Num(2),
        ],
        bin(
            lit(1),
            Op::Add,
            bin(bin(lit(5), Op::Mul, bin(lit(2), Op::Exp, lit(4))), Op::Div, lit(2)),
        ),
    );
}

#[test]
fn parse_precedence4() {
    // 1 * 5 + 2 ^ 4
    check(
        vec![
            Tk::Num(1),
            Tk::Sym(Sy::Asterisk),
            Tk::Num(5),
            Tk::Sym(Sy::Plus),
            Tk::Num(2),
            Tk::Sym(Sy::Caret),
            Tk::Num(4),
        ],
        bin(bin(lit(1), Op::Mul, lit(5)), Op::Add, bin(lit(2), Op::Exp, lit(4))),
    );

    // 1 * 5 ^ 2 + 4
    check(
        vec![
            Tk::Num(1),
            Tk::Sym(Sy::Asterisk),
            Tk::Num(5),
            Tk::Sym(Sy::Caret),
            Tk::Num(2),
            Tk::Sym(Sy::Plus),
            Tk::Num(4),
        ],
        bin(bin(lit(1), Op::Mul, bin(lit(5), Op::Exp, lit(2))), Op::Add, lit(4)),
    );
}

#[test]
fn parse_precedence_and_grouping() {
    check(
        lex("1 + 5 * 2").unwrap(),
        bin(lit(1), Op::Add, bin(lit(5), Op::Mul, lit(2))),
    );
    check(
        lex("(1 + 3) * 5").unwrap(),
        bin(nested(bin(lit(1), Op::Add, lit(3))), Op::Mul, lit(5)),
    );
}

#[test]
fn parse_errors() {
    let p = |s: &str| parse(&lex(s).unwrap());
    assert_eq!(p("1 +"), Err(ParseErr::IncompleteSequence));
    assert_eq!(p("(1 + 2"), Err(ParseErr::IncompleteSequence));
    assert_eq!(p("-"), Err(ParseErr::IncompleteSequence));
    assert_eq!(p("1 + 2)"), Err(ParseErr::UnexpectedToken(Tk::Sym(Sy::ParenClose))));
    assert_eq!(p("()"), Err(ParseErr::UnexpectedToken(Tk::Sym(Sy::ParenClose))));
    assert_eq!(p("* 3"), Err(ParseErr::UnexpectedToken(Tk::Sym(Sy::Asterisk))));
    assert_eq!(p("1 2"), Err(ParseErr::UnexpectedToken(Tk::Num(2))));
    assert_eq!(p("- - 2"), Err(ParseErr::UnexpectedToken(Tk::Sym(Sy::Minus))));
    assert_eq!(p("2 (3)"), Err(ParseErr::UnexpectedToken(Tk::Sym(Sy::ParenOpen))));
}

#[test]
fn stack_push_pop() {
    let mut s = Stack::new();
    assert!(s.is_empty());
    s.push(lit(1));
    s.push(lit(2));
    assert!(!s.is_empty());
    assert_eq!(s.pop(), Some(lit(2)));
    assert_eq!(s.pop(), Some(lit(1)));
    assert_eq!(s.pop(), None);
}

#[test]
fn operator_precedence_and_tokens() {
    assert!(Op::Exp.has_precedence_over(Op::Mul));
    assert!(Op::Mul.has_precedence_over(Op::Add));
    assert!(!Op::Add.has_precedence_over(Op::Sub));
    assert!(!Op::Div.has_precedence_over(Op::Mod));
    assert_eq!(Op::from_token(Tk::Sym(Sy::Percent)), Ok(Op::Mod));
    assert_eq!(Op::from_token(Tk::Sym(Sy::Caret)), Ok(Op::Exp));
    assert!(Op::from_token(Tk::Sym(Sy::ParenClose)).is_err());
    assert!(Op::from_token(Tk::Num(1)).is_err());
}
