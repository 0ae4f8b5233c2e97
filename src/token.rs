use vstd::prelude::*;

verus! {

/// A lexical unit of the calculator language.
#[derive(Debug, PartialEq, Clone)]
pub enum Token {
    LParen,
    RParen,
    Add,
    Sub,
    Mul,
    Div,
    /// A numeric literal, kept as the decimal text it was written with.
    Num(String),
    EOF,
    ILLEGAL,
    ASSIGN,
    IDENTIFIER(String),
    If,
    Then,
    Else,
    EQ,
    LT,
    GT,
}

/// The mathematical model of a token: payloads become character sequences.
pub enum Lexeme {
    LParen,
    RParen,
    Add,
    Sub,
    Mul,
    Div,
    Num(Seq<char>),
    EOF,
    ILLEGAL,
    ASSIGN,
    IDENTIFIER(Seq<char>),
    If,
    Then,
    Else,
    EQ,
    LT,
    GT,
}

impl View for Token {
    type V = Lexeme;

    open spec fn view(&self) -> Lexeme {
        match self {
            Token::LParen => Lexeme::LParen,
            Token::RParen => Lexeme::RParen,
            Token::Add => Lexeme::Add,
            Token::Sub => Lexeme::Sub,
            Token::Mul => Lexeme::Mul,
            Token::Div => Lexeme::Div,
            Token::Num(s) => Lexeme::Num(s@),
            Token::EOF => Lexeme::EOF,
            Token::ILLEGAL => Lexeme::ILLEGAL,
            Token::ASSIGN => Lexeme::ASSIGN,
            Token::IDENTIFIER(s) => Lexeme::IDENTIFIER(s@),
            Token::If => Lexeme::If,
            Token::Then => Lexeme::Then,
            Token::Else => Lexeme::Else,
            Token::EQ => Lexeme::EQ,
            Token::LT => Lexeme::LT,
            Token::GT => Lexeme::GT,
        }
    }
}

/// The models of a sequence of tokens.
pub open spec fn lexemes(ts: Seq<Token>) -> Seq<Lexeme> {
    ts.map_values(|t: Token| t@)
}

/// Left binding power of a token.
pub open spec fn spec_lbp(t: Token) -> nat {
    match t {
        Token::Add | Token::Sub => 10,
        Token::Mul | Token::Div => 20,
        Token::LParen => 99,
        Token::ASSIGN => 100,
        _ => 0,
    }
}

/// The decimal digit character for `d < 10`.
pub open spec fn digit_char(d: nat) -> char {
    ((d + 48) as u8) as char
}

/// The decimal text of a natural number, without leading zeros.
pub open spec fn nat_text(n: nat) -> Seq<char>
    decreases n,
{
    if n < 10 {
        seq![digit_char(n)]
    } else {
        nat_text(n / 10).push(digit_char(n % 10))
    }
}

/// The decimal text of an integer, with a leading `-` when negative.
pub open spec fn int_text(n: int) -> Seq<char> {
    if n < 0 {
        seq!['-'] + nat_text((-n) as nat)
    } else {
        nat_text(n as nat)
    }
}

/// Relies on String::push: the character is appended at the end.
pub assume_specification[ String::push ](s: &mut String, ch: char)
    ensures
        final(s)@ == old(s)@.push(ch),
;

/// Appends the decimal text of `n` to `s`.
fn push_nat_text(n: u64, s: &mut String)
    ensures
        final(s)@ == old(s)@ + nat_text(n as nat),
    decreases n,
{
    if n >= 10 {
        push_nat_text(n / 10, s);
    }
    let d: u8 = (n % 10) as u8;
    s.push((d + 48) as char);
    assert(final(s)@ =~= old(s)@ + nat_text(n as nat));
}

/// The decimal text of `n`.
pub fn int_to_text(n: i64) -> (r: String)
    ensures
        r@ == int_text(n as int),
{
    let mut s = String::new();
    if n < 0 {
        s.push('-');
        let m: u64 = if n == i64::MIN {
            9223372036854775808u64
        } else {
            (-n) as u64
        };
        push_nat_text(m, &mut s);
        assert(s@ =~= int_text(n as int));
    } else {
        push_nat_text(n as u64, &mut s);
        assert(s@ =~= int_text(n as int));
    }
    s
}

impl Token {
    /// Left binding power: how strongly the token binds as an infix operator.
    pub fn lbp(&self) -> (r: usize)
        ensures
            r == spec_lbp(*self),
    {
        match *self {
            Token::Add => 10,
            Token::Sub => 10,
            Token::Mul => 20,
            Token::Div => 20,
            Token::LParen => 99,
            Token::ASSIGN => 100,
            Token::RParen => 0,
            _ => 0,
        }
    }

    /// A numeric literal token for an integer.
    pub fn number(n: i64) -> (r: Token)
        ensures
            r@ == Lexeme::Num(int_text(n as int)),
    {
        Token::Num(int_to_text(n))
    }
}

impl From<i32> for Token {
    fn from(n: i32) -> (r: Token)
        ensures
            r@ == Lexeme::Num(int_text(n as int)),
    {
        Token::number(n as i64)
    }
}

/// A `String` payload has no spec-level constructor, so the generic `From`
/// contract is not claimed; the impl's own `ensures` states the result.
impl vstd::std_specs::convert::FromSpecImpl<i32> for Token {
    open spec fn obeys_from_spec() -> bool {
        false
    }

    open spec fn from_spec(v: i32) -> Token {
        arbitrary()
    }
}

} // verus!
