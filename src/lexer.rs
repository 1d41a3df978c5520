//! The tokenizer: text to a sequence of integer literals and operator
//! symbols.

use vstd::prelude::*;
use vstd::string::{StrSliceExecFns, StringExecFns};

verus! {

/// The operator and grouping symbols.
#[derive(Clone, Copy, Debug, PartialEq, Eq, Structural)]
pub enum Symbol {
    Asterisk,
    Caret,
    FwdSlash,
    Minus,
    ParenClose,
    ParenOpen,
    Percent,
    Plus,
}

/// A lexical unit: an integer literal or a symbol.
#[derive(Clone, Copy, Debug, PartialEq, Eq, Structural)]
pub enum Token {
    Num(i64),
    Sym(Symbol),
}

/// Why a text could not be tokenized. Positions count characters from 1.
#[derive(Clone, Copy, Debug, PartialEq, Eq, Structural)]
pub enum LexErr {
    /// A character that starts no token.
    InvalidCharacter(char),
    /// A malformed digit-group separator: a comma right after another.
    UnexpectedCharacter { position: usize, chr: char },
    /// A literal, starting at `position`, above the largest 64-bit integer.
    LiteralTooLarge { position: usize },
}

/// The characters Unicode classes as White_Space.
pub open spec fn is_whitespace(c: char) -> bool {
    ('\u{9}' <= c && c <= '\u{d}') || c == ' ' || c == '\u{85}' || c == '\u{a0}'
        || c == '\u{1680}' || ('\u{2000}' <= c && c <= '\u{200a}') || c == '\u{2028}'
        || c == '\u{2029}' || c == '\u{202f}' || c == '\u{205f}' || c == '\u{3000}'
}

/// A decimal digit.
pub open spec fn is_digit(c: char) -> bool {
    '0' <= c && c <= '9'
}

/// The value of a decimal digit.
pub open spec fn digit_val(c: char) -> int {
    c as int - '0' as int
}

/// The symbol a character stands for, if any.
pub open spec fn symbol_of(c: char) -> Option<Symbol> {
    if c == '*' {
        Some(Symbol::Asterisk)
    } else if c == '^' {
        Some(Symbol::Caret)
    } else if c == '/' {
        Some(Symbol::FwdSlash)
    } else if c == '-' {
        Some(Symbol::Minus)
    } else if c == ')' {
        Some(Symbol::ParenClose)
    } else if c == '(' {
        Some(Symbol::ParenOpen)
    } else if c == '%' {
        Some(Symbol::Percent)
    } else if c == '+' {
        Some(Symbol::Plus)
    } else {
        None
    }
}

/// Reads the rest of a literal from index `j`: digits extend the value
/// `acc`, a comma between digits is skipped, a second comma in a row is an
/// error. Yields the value and the index just past the literal.
pub open spec fn scan_literal(cs: Seq<char>, j: int, acc: int, comma_last: bool) -> Result<
    (int, int),
    LexErr,
>
    decreases cs.len() - j,
{
    if 0 <= j < cs.len() && cs[j] == ',' {
        if comma_last {
            Err(LexErr::UnexpectedCharacter { position: (j + 1) as usize, chr: ',' })
        } else {
            scan_literal(cs, j + 1, acc, true)
        }
    } else if 0 <= j < cs.len() && is_digit(cs[j]) {
        scan_literal(cs, j + 1, acc * 10 + digit_val(cs[j]), false)
    } else {
        Ok((acc, j))
    }
}

/// Puts `t` in front of the tokens of a successful result.
pub open spec fn prepend(t: Token, r: Result<Seq<Token>, LexErr>) -> Result<Seq<Token>, LexErr> {
    match r {
        Ok(ts) => Ok(seq![t] + ts),
        Err(e) => Err(e),
    }
}

/// Puts `p` in front of the tokens of a successful result.
pub open spec fn prepend_all(p: Seq<Token>, r: Result<Seq<Token>, LexErr>) -> Result<
    Seq<Token>,
    LexErr,
> {
    match r {
        Ok(ts) => Ok(p + ts),
        Err(e) => Err(e),
    }
}

/// The tokens of the characters from index `i` on, or the first error.
pub open spec fn lex_from(cs: Seq<char>, i: int) -> Result<Seq<Token>, LexErr>
    decreases cs.len() - i,
{
    if i < 0 || i >= cs.len() {
        Ok(seq![])
    } else {
        let c = cs[i];
        if is_whitespace(c) {
            lex_from(cs, i + 1)
        } else if symbol_of(c) is Some {
            prepend(Token::Sym(symbol_of(c)->0), lex_from(cs, i + 1))
        } else if is_digit(c) {
            match scan_literal(cs, i + 1, digit_val(c), false) {
                Err(e) => Err(e),
                Ok((v, j)) => {
                    if v > i64::MAX {
                        Err(LexErr::LiteralTooLarge { position: (i + 1) as usize })
                    } else if i < j <= cs.len() {
                        prepend(Token::Num(v as i64), lex_from(cs, j))
                    } else {
                        Ok(seq![])
                    }
                },
            }
        } else {
            Err(LexErr::InvalidCharacter(c))
        }
    }
}

/// The tokens of a whole text.
pub open spec fn lex_spec(cs: Seq<char>) -> Result<Seq<Token>, LexErr> {
    lex_from(cs, 0)
}

/// Whether `c` is a White_Space character.
pub fn is_space(c: char) -> (r: bool)
    ensures
        r == is_whitespace(c),
{
    ('\u{9}' <= c && c <= '\u{d}') || c == ' ' || c == '\u{85}' || c == '\u{a0}'
        || c == '\u{1680}' || ('\u{2000}' <= c && c <= '\u{200a}') || c == '\u{2028}'
        || c == '\u{2029}' || c == '\u{202f}' || c == '\u{205f}' || c == '\u{3000}'
}

/// The symbol a character stands for, if any.
pub fn symbol_for(c: char) -> (r: Option<Symbol>)
    ensures
        r == symbol_of(c),
{
    match c {
        '*' => Some(Symbol::Asterisk),
        '^' => Some(Symbol::Caret),
        '/' => Some(Symbol::FwdSlash),
        '-' => Some(Symbol::Minus),
        ')' => Some(Symbol::ParenClose),
        '(' => Some(Symbol::ParenOpen),
        '%' => Some(Symbol::Percent),
        '+' => Some(Symbol::Plus),
        _ => None,
    }
}

/// Receives input text and produces its token stream: whitespace is skipped,
/// each symbol character is a token, and a maximal run of digits (with
/// single commas allowed between digit groups) is a literal. The first
/// character that fits none of these ends lexing with an error.
pub fn lex(s: &str) -> (r: Result<Vec<Token>, LexErr>)
    ensures
        r matches Ok(ts) ==> lex_spec(s@) == Ok::<Seq<Token>, LexErr>(ts@),
        r matches Err(e) ==> lex_spec(s@) == Err::<Seq<Token>, LexErr>(e),
{
    let n = s.unicode_len();
    let ghost cs = s@;
    let mut tokens: Vec<Token> = Vec::new();
    let mut i: usize = 0;
    proof {
        assert(tokens@ + Seq::<Token>::empty() =~= tokens@);
    }
    while i < n
        invariant
            n == cs.len(),
            cs == s@,
            i <= n,
            prepend_all(tokens@, lex_from(cs, i as int)) == lex_spec(cs),
        decreases n - i,
    {
        let c = s.get_char(i);
        if is_space(c) {
            i += 1;
            continue;
        }
        if let Some(sym) = symbol_for(c) {
            proof {
                assert(tokens@.push(Token::Sym(sym)) + Seq::empty() =~= tokens@.push(
                    Token::Sym(sym),
                ));
                match lex_from(cs, i + 1) {
                    Ok(ts) => {
                        assert(tokens@ + (seq![Token::Sym(sym)] + ts) =~= tokens@.push(
                            Token::Sym(sym),
                        ) + ts);
                    },
                    Err(_) => {},
                }
            }
            tokens.push(Token::Sym(sym));
            i += 1;
            continue;
        }
        if '0' <= c && c <= '9' {
            let start = i;
            let mut acc: i64 = (c as u32 - '0' as u32) as i64;
            let ghost mut value: int = digit_val(c);
            let mut overflow = false;
            let mut comma_last = false;
            let mut j: usize = i + 1;
            let mut done = false;
            while j < n && !done
                invariant
                    n == cs.len(),
                    cs == s@,
                    start < j <= n,
                    start == i,
                    prepend_all(tokens@, lex_from(cs, i as int)) == lex_spec(cs),
                    !is_whitespace(cs[start as int]),
                    symbol_of(cs[start as int]) is None,
                    is_digit(cs[start as int]),
                    scan_literal(cs, j as int, value, comma_last) == scan_literal(
                        cs,
                        start + 1,
                        digit_val(cs[start as int]),
                        false,
                    ),
                    value >= 0,
                    !overflow ==> acc == value,
                    overflow ==> value > i64::MAX,
                    done ==> j < n && cs[j as int] != ',' && !is_digit(cs[j as int]),
                decreases n - j, if done { 0int } else { 1int },
            {
                let c2 = s.get_char(j);
                if c2 == ',' {
                    if comma_last {
                        proof {
                            assert(lex_from(cs, i as int) == Err::<Seq<Token>, LexErr>(
                                LexErr::UnexpectedCharacter { position: (j + 1) as usize, chr: ',' },
                            ));
                        }
                        return Err(LexErr::UnexpectedCharacter { position: j + 1, chr: c2 });
                    }
                    comma_last = true;
                    j += 1;
                } else if '0' <= c2 && c2 <= '9' {
                    let d: i64 = (c2 as u32 - '0' as u32) as i64;
                    proof {
                        value = value * 10 + digit_val(c2);
                    }
                    if !overflow {
                        if acc > (i64::MAX - d) / 10 {
                            overflow = true;
                        } else {
                            acc = acc * 10 + d;
                        }
                    }
                    comma_last = false;
                    j += 1;
                } else {
                    done = true;
                }
            }
            proof {
                assert(scan_literal(cs, j as int, value, comma_last) == Ok::<(int, int), LexErr>(
                    (value, j as int),
                ));
            }
            if overflow {
                proof {
                    assert(lex_from(cs, i as int) == Err::<Seq<Token>, LexErr>(
                        LexErr::LiteralTooLarge { position: (i + 1) as usize },
                    ));
                }
                return Err(LexErr::LiteralTooLarge { position: start + 1 });
            }
            proof {
                assert(lex_from(cs, i as int) == prepend(Token::Num(acc), lex_from(cs, j as int)));
                match lex_from(cs, j as int) {
                    Ok(ts) => {
                        assert(tokens@ + (seq![Token::Num(acc)] + ts) =~= tokens@.push(
                            Token::Num(acc),
                        ) + ts);
                    },
                    Err(_) => {},
                }
            }
            tokens.push(Token::Num(acc));
            i = j;
            continue;
        }
        return Err(LexErr::InvalidCharacter(c));
    }
    proof {
        assert(tokens@ + Seq::<Token>::empty() =~= tokens@);
    }
    Ok(tokens)
}

/// The decimal digits of `n`.
pub open spec fn decimal(n: nat) -> Seq<char>
    decreases n,
{
    if n < 10 {
        seq![digit_char(n)]
    } else {
        decimal(n / 10) + seq![digit_char(n % 10)]
    }
}

/// The character of a decimal digit.
pub open spec fn digit_char(d: nat) -> char {
    if d < 10 {
        ('0' as nat + d) as char
    } else {
        '?'
    }
}

/// The text of a decimal digit.
fn digit_text(d: usize) -> (r: &'static str)
    requires
        d < 10,
    ensures
        r@ == seq![digit_char(d as nat)],
{
    let r = match d {
        0 => "0",
        1 => "1",
        2 => "2",
        3 => "3",
        4 => "4",
        5 => "5",
        6 => "6",
        7 => "7",
        8 => "8",
        _ => "9",
    };
    proof {
        reveal_strlit("0");
        reveal_strlit("1");
        reveal_strlit("2");
        reveal_strlit("3");
        reveal_strlit("4");
        reveal_strlit("5");
        reveal_strlit("6");
        reveal_strlit("7");
        reveal_strlit("8");
        reveal_strlit("9");
    }
    r
}

/// `n` written in decimal.
pub fn decimal_string(n: usize) -> (r: String)
    ensures
        r@ == decimal(n as nat),
    decreases n,
{
    if n < 10 {
        <String as StringExecFns>::from_str(digit_text(n))
    } else {
        let mut s = decimal_string(n / 10);
        s.append(digit_text(n % 10));
        s
    }
}

/// Relies on `char::to_string` (the `ToString` that `Display` gives
/// `char`): a string of that one character.
#[verifier::external_body]
fn char_string(c: char) -> (r: String)
    ensures
        r@ == seq![c],
{
    c.to_string()
}

impl LexErr {
    /// A sentence describing the error.
    pub fn message(&self) -> (r: String)
        ensures
            r@ == self.message_spec(),
    {
        match self {
            LexErr::InvalidCharacter(c) => {
                let mut s = <String as StringExecFns>::from_str("Invalid character: '");
                s.append(char_string(*c).as_str());
                s.append("'");
                s
            },
            LexErr::UnexpectedCharacter { position, chr } => {
                let mut s = <String as StringExecFns>::from_str("Unexpected character at ");
                s.append(decimal_string(*position).as_str());
                s.append(": '");
                s.append(char_string(*chr).as_str());
                s.append("'");
                s
            },
            LexErr::LiteralTooLarge { position } => {
                let mut s = <String as StringExecFns>::from_str("Literal too large at ");
                s.append(decimal_string(*position).as_str());
                s
            },
        }
    }

    /// The description of the error.
    pub open spec fn message_spec(self) -> Seq<char> {
        match self {
            LexErr::InvalidCharacter(c) => "Invalid character: '"@ + seq![c] + "'"@,
            LexErr::UnexpectedCharacter { position, chr } => "Unexpected character at "@
                + decimal(position as nat) + ": '"@ + seq![chr] + "'"@,
            LexErr::LiteralTooLarge { position } => "Literal too large at "@ + decimal(
                position as nat,
            ),
        }
    }
}

} // verus!
