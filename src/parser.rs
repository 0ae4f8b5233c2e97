use vstd::prelude::*;

use crate::expression::Expression;
use crate::token::{spec_lbp, Token};

verus! {

/// Why a token sequence does not parse.
pub enum ParseError {
    /// The tokens ran out where one more was needed.
    NoToken,
    /// An illegal token, or a prefix sign not followed by a number.
    NotSupported,
    /// A closing parenthesis without an opening one, or the reverse.
    UnmatchedParen,
    /// A token that cannot stand where it was found.
    Unexpected(Token),
}

/// The debug name of a token.
pub open spec fn token_name(t: Token) -> Seq<char> {
    match t {
        Token::LParen => "LParen"@,
        Token::RParen => "RParen"@,
        Token::Add => "Add"@,
        Token::Sub => "Sub"@,
        Token::Mul => "Mul"@,
        Token::Div => "Div"@,
        Token::Num(s) => "Num("@ + s@ + ")"@,
        Token::EOF => "EOF"@,
        Token::ILLEGAL => "ILLEGAL"@,
        Token::ASSIGN => "ASSIGN"@,
        Token::IDENTIFIER(s) => "IDENTIFIER(\""@ + s@ + "\")"@,
        Token::If => "If"@,
        Token::Then => "Then"@,
        Token::Else => "Else"@,
        Token::EQ => "EQ"@,
        Token::LT => "LT"@,
        Token::GT => "GT"@,
    }
}

/// The message reported for a parse error.
pub open spec fn message(e: ParseError) -> Seq<char> {
    match e {
        ParseError::NoToken => "Error get next token"@,
        ParseError::NotSupported => "Input not supported"@,
        ParseError::UnmatchedParen => "Unmatched closing paren"@,
        ParseError::Unexpected(t) => "Token "@ + token_name(t) + " error"@,
    }
}

/// A parse result: the expression, or the error, with the tokens left after
/// it.
pub type Parsed = Result<(Expression, Seq<Token>), (ParseError, Seq<Token>)>;

/// Index of the parenthesis that closes an open group, scanning `ts` from `i`
/// with `depth` groups open.
pub open spec fn close_index(ts: Seq<Token>, i: int, depth: nat) -> Option<int>
    decreases ts.len() - i,
{
    if i < 0 || i >= ts.len() {
        None
    } else {
        match ts[i] {
            Token::LParen => close_index(ts, i + 1, depth + 1),
            Token::RParen => if depth <= 1 {
                Some(i)
            } else {
                close_index(ts, i + 1, (depth - 1) as nat)
            },
            _ => close_index(ts, i + 1, depth),
        }
    }
}

pub open spec fn is_infix(t: Token) -> bool {
    t is Add || t is Sub || t is Mul || t is Div || t is ASSIGN
}

/// The operators that may stand between the two operands of a condition.
pub open spec fn is_comparison(t: Token) -> bool {
    t is LT || t is GT || t is EQ
}

/// A full expression at binding floor `rbp`: a prefix form, then infix
/// operators while they bind more strongly than the floor.
///
/// Here and below, a parse never leaves more tokens than it was given (the
/// parser's methods prove it of every result); the length tests only make
/// the recursion's progress visible, and their other branches never apply.
pub open spec fn parse_expr(ts: Seq<Token>, rbp: nat) -> Parsed
    decreases ts.len(), 1nat,
{
    match parse_head(ts) {
        Err(e) => Err(e),
        Ok((left, rest)) => if rest.len() < ts.len() {
            parse_infix(left, rest, rbp)
        } else {
            Err((ParseError::NoToken, rest))
        },
    }
}

/// The prefix form that `ts` starts with.
pub open spec fn parse_head(ts: Seq<Token>) -> Parsed
    decreases ts.len(), 0nat,
{
    if ts.len() == 0 {
        Err((ParseError::NoToken, ts))
    } else {
        parse_nud(ts[0], ts.drop_first())
    }
}

/// The infix loop: folds operators into `left` while they bind more
/// strongly than `rbp`; an illegal token ahead is an error.
pub open spec fn parse_infix(left: Expression, ts: Seq<Token>, rbp: nat) -> Parsed
    decreases ts.len(), 0nat,
{
    if ts.len() == 0 {
        Ok((left, ts))
    } else if ts[0] is ILLEGAL {
        Err((ParseError::NotSupported, ts))
    } else if rbp >= spec_lbp(ts[0]) {
        Ok((left, ts))
    } else {
        match parse_led(spec_lbp(ts[0]), left, ts[0], ts.drop_first()) {
            Err(e) => Err(e),
            Ok((next, rest)) => if rest.len() < ts.len() {
                parse_infix(next, rest, rbp)
            } else {
                Err((ParseError::NoToken, rest))
            },
        }
    }
}

/// Left denotation: `op` in infix position after `left`.
pub open spec fn parse_led(bp: nat, left: Expression, op: Token, ts: Seq<Token>) -> Parsed
    decreases ts.len(), 2nat,
{
    if is_infix(op) {
        match parse_expr(ts, bp) {
            Err(e) => Err(e),
            Ok((rhs, rest)) => Ok((Expression::Binary(Box::new(left), op, Box::new(rhs)), rest)),
        }
    } else {
        Err((ParseError::Unexpected(op), ts))
    }
}

/// Null denotation: `t` at the start of an expression, followed by `ts`.
pub open spec fn parse_nud(t: Token, ts: Seq<Token>) -> Parsed
    decreases ts.len(), 2nat,
{
    match t {
        Token::ILLEGAL => Err((ParseError::NotSupported, ts)),
        Token::IDENTIFIER(i) => Ok((Expression::Variable(i), ts)),
        Token::Num(n) => Ok((Expression::Num(n), ts)),
        Token::Sub | Token::Add => if ts.len() == 0 {
            Err((ParseError::NoToken, ts))
        } else {
            match ts[0] {
                Token::Num(n) => Ok(
                    (Expression::Unary(t, Box::new(Expression::Num(n))), ts.drop_first()),
                ),
                _ => Err((ParseError::NotSupported, ts.drop_first())),
            }
        },
        Token::LParen => match close_index(ts, 0, 1) {
            None => Err((ParseError::UnmatchedParen, Seq::empty())),
            Some(k) => if 0 <= k < ts.len() {
                match parse_expr(ts.take(k), 0) {
                    Err((e, _)) => Err((e, ts.skip(k + 1))),
                    Ok((inner, _)) => Ok((Expression::Paren(Box::new(inner)), ts.skip(k + 1))),
                }
            } else {
                Err((ParseError::UnmatchedParen, Seq::empty()))
            },
        },
        Token::RParen => Err((ParseError::UnmatchedParen, ts)),
        Token::If => parse_conditional(ts),
        _ => Err((ParseError::Unexpected(t), ts)),
    }
}

/// The conditional form after `if`: `lhs cmp rhs then a else b`, where
/// `cmp` is a comparison and the two operands and the two branches are
/// each a single prefix form. A wrong token where the comparison, `then` or
/// `else` belongs is an error that names it.
pub open spec fn parse_conditional(ts: Seq<Token>) -> Parsed
    decreases ts.len(), 1nat,
{
    match parse_head(ts) {
        Err(e) => Err(e),
        Ok((l, r1)) => if r1.len() == 0 {
            Err((ParseError::NoToken, r1))
        } else if !is_comparison(r1[0]) {
            Err((ParseError::Unexpected(r1[0]), r1.drop_first()))
        } else if r1.len() > ts.len() {
            Err((ParseError::NoToken, r1))
        } else {
            match parse_head(r1.drop_first()) {
                Err(e) => Err(e),
                Ok((r, r2)) => if r2.len() == 0 {
                    Err((ParseError::NoToken, r2))
                } else if !(r2[0] is Then) {
                    Err((ParseError::Unexpected(r2[0]), r2.drop_first()))
                } else if r2.len() > r1.len() {
                    Err((ParseError::NoToken, r2))
                } else {
                    match parse_head(r2.drop_first()) {
                        Err(e) => Err(e),
                        Ok((then_e, r3)) => if r3.len() == 0 {
                            Err((ParseError::NoToken, r3))
                        } else if !(r3[0] is Else) {
                            Err((ParseError::Unexpected(r3[0]), r3.drop_first()))
                        } else if r3.len() > r2.len() {
                            Err((ParseError::NoToken, r3))
                        } else {
                            match parse_head(r3.drop_first()) {
                                Err(e) => Err(e),
                                Ok((else_e, r4)) => Ok(
                                    (
                                        Expression::Conditional(
                                            Box::new(
                                                Expression::Binary(
                                                    Box::new(l),
                                                    r1[0],
                                                    Box::new(r),
                                                ),
                                            ),
                                            Box::new(then_e),
                                            Box::new(else_e),
                                        ),
                                        r4,
                                    ),
                                ),
                            }
                        },
                    }
                },
            }
        },
    }
}

impl Token {
    /// The token's debug name, as error messages show it.
    pub fn debug_name(&self) -> (r: String)
        ensures
            r@ == token_name(*self),
    {
        match self {
            Token::LParen => "LParen".to_owned(),
            Token::RParen => "RParen".to_owned(),
            Token::Add => "Add".to_owned(),
            Token::Sub => "Sub".to_owned(),
            Token::Mul => "Mul".to_owned(),
            Token::Div => "Div".to_owned(),
            Token::Num(s) => {
                let mut r = "Num(".to_owned();
                r.append(s.as_str());
                r.append(")");
                r
            },
            Token::EOF => "EOF".to_owned(),
            Token::ILLEGAL => "ILLEGAL".to_owned(),
            Token::ASSIGN => "ASSIGN".to_owned(),
            Token::IDENTIFIER(s) => {
                let mut r = "IDENTIFIER(\"".to_owned();
                r.append(s.as_str());
                r.append("\")");
                r
            },
            Token::If => "If".to_owned(),
            Token::Then => "Then".to_owned(),
            Token::Else => "Else".to_owned(),
            Token::EQ => "EQ".to_owned(),
            Token::LT => "LT".to_owned(),
            Token::GT => "GT".to_owned(),
        }
    }
}

impl ParseError {
    /// The message reported for this error.
    pub fn describe(&self) -> (r: String)
        ensures
            r@ == message(*self),
    {
        match self {
            ParseError::NoToken => "Error get next token".to_owned(),
            ParseError::NotSupported => "Input not supported".to_owned(),
            ParseError::UnmatchedParen => "Unmatched closing paren".to_owned(),
            ParseError::Unexpected(t) => {
                let mut r = "Token ".to_owned();
                let name = t.debug_name();
                r.append(name.as_str());
                r.append(" error");
                r
            },
        }
    }
}

/// Parsing depends on the tokens alone: equal token sequences give equal
/// trees, or equal errors.
pub proof fn lemma_parse_deterministic(a: Seq<Token>, b: Seq<Token>, rbp: nat)
    requires
        a == b,
    ensures
        parse_expr(a, rbp) == parse_expr(b, rbp),
{
}

/// The binary node `l op r`.
pub open spec fn binary(l: Expression, op: Token, r: Expression) -> Expression {
    Expression::Binary(Box::new(l), op, Box::new(r))
}

/// The literals `a + b` parse as one addition of the two, and `a - b * c`
/// as a subtraction whose right operand is the product: multiplication
/// binds before subtraction.
pub proof fn lemma_sum_and_precedence(a: String, b: String, c: String)
    ensures
        parse_expr(seq![Token::Num(a), Token::Add, Token::Num(b), Token::EOF], 0) == Ok::<
            _,
            (ParseError, Seq<Token>),
        >(
            (
                binary(Expression::Num(a), Token::Add, Expression::Num(b)),
                seq![Token::EOF],
            ),
        ),
        parse_expr(
            seq![Token::Num(a), Token::Sub, Token::Num(b), Token::Mul, Token::Num(c), Token::EOF],
            0,
        ) == Ok::<_, (ParseError, Seq<Token>)>(
            (
                binary(
                    Expression::Num(a),
                    Token::Sub,
                    binary(Expression::Num(b), Token::Mul, Expression::Num(c)),
                ),
                seq![Token::EOF],
            ),
        ),
{
    let eof = seq![Token::EOF];
    let t1 = seq![Token::Num(a), Token::Add, Token::Num(b), Token::EOF];
    let r1 = seq![Token::Add, Token::Num(b), Token::EOF];
    let b1 = seq![Token::Num(b), Token::EOF];
    assert(t1.drop_first() =~= r1);
    assert(r1.drop_first() =~= b1);
    assert(b1.drop_first() =~= eof);
    assert(parse_infix(Expression::Num(b), eof, 10) == Ok::<_, (ParseError, Seq<Token>)>((Expression::Num(b), eof)));
    assert(parse_expr(b1, 10) == Ok::<_, (ParseError, Seq<Token>)>((Expression::Num(b), eof)));
    let sum = binary(Expression::Num(a), Token::Add, Expression::Num(b));
    assert(parse_led(10, Expression::Num(a), Token::Add, b1) == Ok::<_, (ParseError, Seq<Token>)>((sum, eof)));
    assert(parse_infix(sum, eof, 0) == Ok::<_, (ParseError, Seq<Token>)>((sum, eof)));
    assert(parse_infix(Expression::Num(a), r1, 0) == Ok::<_, (ParseError, Seq<Token>)>((sum, eof)));

    let t2 = seq![Token::Num(a), Token::Sub, Token::Num(b), Token::Mul, Token::Num(c), Token::EOF];
    let r2 = seq![Token::Sub, Token::Num(b), Token::Mul, Token::Num(c), Token::EOF];
    let s2 = seq![Token::Num(b), Token::Mul, Token::Num(c), Token::EOF];
    let m2 = seq![Token::Mul, Token::Num(c), Token::EOF];
    let c2 = seq![Token::Num(c), Token::EOF];
    assert(t2.drop_first() =~= r2);
    assert(r2.drop_first() =~= s2);
    assert(s2.drop_first() =~= m2);
    assert(m2.drop_first() =~= c2);
    assert(c2.drop_first() =~= eof);
    let prod = binary(Expression::Num(b), Token::Mul, Expression::Num(c));
    let diff = binary(Expression::Num(a), Token::Sub, prod);
    assert(parse_infix(Expression::Num(c), eof, 20) == Ok::<_, (ParseError, Seq<Token>)>((Expression::Num(c), eof)));
    assert(parse_expr(c2, 20) == Ok::<_, (ParseError, Seq<Token>)>((Expression::Num(c), eof)));
    assert(parse_led(20, Expression::Num(b), Token::Mul, c2) == Ok::<_, (ParseError, Seq<Token>)>((prod, eof)));
    assert(parse_infix(prod, eof, 10) == Ok::<_, (ParseError, Seq<Token>)>((prod, eof)));
    assert(parse_infix(Expression::Num(b), m2, 10) == Ok::<_, (ParseError, Seq<Token>)>((prod, eof)));
    assert(parse_expr(s2, 10) == Ok::<_, (ParseError, Seq<Token>)>((prod, eof)));
    assert(parse_led(10, Expression::Num(a), Token::Sub, s2) == Ok::<_, (ParseError, Seq<Token>)>((diff, eof)));
    assert(parse_infix(diff, eof, 0) == Ok::<_, (ParseError, Seq<Token>)>((diff, eof)));
    assert(parse_infix(Expression::Num(a), r2, 0) == Ok::<_, (ParseError, Seq<Token>)>((diff, eof)));
}

/// `r` and `rest` are what the parse result `p` describes.
pub open spec fn outcome(r: Result<Expression, String>, rest: Seq<Token>, p: Parsed) -> bool {
    match p {
        Ok((e, left_over)) => r == Ok::<Expression, String>(e) && rest == left_over,
        Err((pe, left_over)) => r is Err && r->Err_0@ == message(pe) && rest == left_over,
    }
}

/// A precedence-climbing parser over a sequence of tokens.
pub struct Parser {
    /// The tokens not yet consumed, the next one last.
    tokens: Vec<Token>,
}

impl Parser {
    /// The tokens not yet consumed, in order.
    pub closed spec fn rest(&self) -> Seq<Token> {
        Seq::new(self.tokens.len() as nat, |i: int| self.tokens@[self.tokens.len() - 1 - i])
    }

    pub fn new(tokens: Vec<Token>) -> (r: Parser)
        ensures
            r.rest() == tokens@,
    {
        let ghost orig = tokens@;
        let mut src = tokens;
        let mut stack: Vec<Token> = Vec::new();
        while src.len() > 0
            invariant
                src@ == orig.take(src.len() as int),
                stack.len() + src.len() == orig.len(),
                forall|i: int| 0 <= i < stack.len() ==> stack@[i] == orig[orig.len() - 1 - i],
            decreases src.len(),
        {
            match src.pop() {
                Some(t) => {
                    stack.push(t);
                },
                None => {},
            }
            assert(src@ =~= orig.take(src.len() as int));
        }
        let r = Parser { tokens: stack };
        assert(r.rest() =~= orig);
        r
    }

    /// Takes the next token, if any.
    fn pop_next(&mut self) -> (r: Option<Token>)
        ensures
            old(self).rest().len() == 0 ==> r is None && final(self).rest() == old(self).rest(),
            old(self).rest().len() > 0 ==> r == Some(old(self).rest()[0]) && final(self).rest()
                == old(self).rest().drop_first(),
    {
        let r = self.tokens.pop();
        assert(final(self).rest() =~= old(self).rest().drop_first() || old(self).rest().len()
            == 0);
        r
    }

    /// Takes the next token; an error once the tokens have run out.
    pub fn handle_next(&mut self) -> (r: Result<Token, String>)
        ensures
            old(self).rest().len() == 0 ==> r is Err && r->Err_0@ == message(ParseError::NoToken)
                && final(self).rest() == old(self).rest(),
            old(self).rest().len() > 0 ==> r == Ok::<Token, String>(old(self).rest()[0])
                && final(self).rest() == old(self).rest().drop_first(),
    {
        match self.pop_next() {
            Some(t) => Ok(t),
            None => Err(ParseError::NoToken.describe()),
        }
    }

    /// Null denotation: the meaning of `token` at the start of an expression.
    pub fn nud(&mut self, token: Token) -> (r: Result<Expression, String>)
        ensures
            final(self).rest().len() <= old(self).rest().len(),
            outcome(r, final(self).rest(), parse_nud(token, old(self).rest())),
        decreases self.rest().len(), 2nat,
    {
        match token {
            Token::ILLEGAL => Err(ParseError::NotSupported.describe()),
            Token::IDENTIFIER(i) => Ok(Expression::Variable(i)),
            Token::Num(n) => Ok(Expression::Num(n)),
            Token::Sub | Token::Add => {
                match self.handle_next() {
                    Err(e) => Err(e),
                    Ok(Token::Num(n)) => Ok(Expression::Unary(token, Box::new(Expression::Num(n)))),
                    Ok(_) => Err(ParseError::NotSupported.describe()),
                }
            },
            Token::LParen => self.group(),
            Token::RParen => Err(ParseError::UnmatchedParen.describe()),
            Token::If => self.conditional(),
            _ => Err(ParseError::Unexpected(token).describe()),
        }
    }

    /// The group after an opening parenthesis: the tokens up to the matching
    /// closing one are parsed on their own.
    fn group(&mut self) -> (r: Result<Expression, String>)
        ensures
            final(self).rest().len() <= old(self).rest().len(),
            outcome(r, final(self).rest(), parse_nud(Token::LParen, old(self).rest())),
        decreases self.rest().len(), 1nat,
    {
        let ghost ts = self.rest();
        let mut parenthesis: Vec<Token> = Vec::new();
        let mut open: usize = 0;
        loop
            invariant
                ts == old(self).rest(),
                parenthesis.len() <= ts.len(),
                self.rest() == ts.skip(parenthesis.len() as int),
                parenthesis@ == ts.take(parenthesis.len() as int),
                open <= parenthesis.len(),
                close_index(ts, 0, 1) == close_index(ts, parenthesis.len() as int, open as nat + 1),
            decreases ts.len() - parenthesis.len(),
        {
            let ghost i = parenthesis.len() as int;
            match self.pop_next() {
                None => {
                    assert(i == ts.len());
                    assert(self.rest() =~= Seq::<Token>::empty());
                    return Err(ParseError::UnmatchedParen.describe());
                },
                Some(token) => {
                    assert(token == ts[i]);
                    match &token {
                        Token::LParen => {
                            open = open + 1;
                        },
                        Token::RParen => {
                            if open == 0 {
                                assert(ts.skip(i + 1) =~= self.rest()) by {
                                    assert(ts.skip(i).drop_first() =~= ts.skip(i + 1));
                                }
                                let mut inner = Parser::new(parenthesis);
                                assert(inner.rest().len() < ts.len());
                                return match inner.expr(0) {
                                    Ok(e) => Ok(Expression::Paren(Box::new(e))),
                                    Err(e) => Err(e),
                                };
                            }
                            open = open - 1;
                        },
                        _ => {},
                    }
                    parenthesis.push(token);
                    assert(parenthesis@ =~= ts.take(parenthesis.len() as int));
                    assert(self.rest() =~= ts.skip(parenthesis.len() as int)) by {
                        assert(ts.skip(i).drop_first() =~= ts.skip(i + 1));
                    }
                },
            }
        }
    }

    /// The prefix form that the remaining tokens start with.
    fn prefix(&mut self) -> (r: Result<Expression, String>)
        ensures
            final(self).rest().len() <= old(self).rest().len(),
            r is Ok ==> final(self).rest().len() < old(self).rest().len(),
            outcome(r, final(self).rest(), parse_head(old(self).rest())),
        decreases self.rest().len(), 0nat,
    {
        let first = match self.handle_next() {
            Ok(t) => t,
            Err(e) => return Err(e),
        };
        self.nud(first)
    }

    /// Takes the next token, which must satisfy `expected`; an error naming
    /// the token otherwise.
    fn keyword(&mut self, expected: Token) -> (r: Result<(), String>)
        requires
            expected is Then || expected is Else,
        ensures
            old(self).rest().len() == 0 ==> r is Err && r->Err_0@ == message(ParseError::NoToken)
                && final(self).rest() == old(self).rest(),
            old(self).rest().len() > 0 ==> final(self).rest() == old(self).rest().drop_first(),
            old(self).rest().len() > 0 && (if expected is Then {
                old(self).rest()[0] is Then
            } else {
                old(self).rest()[0] is Else
            }) ==> r is Ok,
            old(self).rest().len() > 0 && !(if expected is Then {
                old(self).rest()[0] is Then
            } else {
                old(self).rest()[0] is Else
            }) ==> r is Err && r->Err_0@ == message(ParseError::Unexpected(old(self).rest()[0])),
    {
        let t = match self.handle_next() {
            Ok(t) => t,
            Err(e) => return Err(e),
        };
        let matched = match (&expected, &t) {
            (Token::Then, Token::Then) => true,
            (Token::Else, Token::Else) => true,
            _ => false,
        };
        if matched {
            Ok(())
        } else {
            Err(ParseError::Unexpected(t).describe())
        }
    }

    /// The conditional form after `if`.
    fn conditional(&mut self) -> (r: Result<Expression, String>)
        ensures
            final(self).rest().len() <= old(self).rest().len(),
            outcome(r, final(self).rest(), parse_conditional(old(self).rest())),
        decreases self.rest().len(), 1nat,
    {
        let lhs = match self.prefix() {
            Ok(e) => e,
            Err(e) => return Err(e),
        };
        let cmp = match self.handle_next() {
            Ok(t) => t,
            Err(e) => return Err(e),
        };
        let comparison = match cmp {
            Token::LT | Token::GT | Token::EQ => true,
            _ => false,
        };
        if !comparison {
            return Err(ParseError::Unexpected(cmp).describe());
        }
        let rhs = match self.prefix() {
            Ok(e) => e,
            Err(e) => return Err(e),
        };
        let left = Box::new(Expression::Binary(Box::new(lhs), cmp, Box::new(rhs)));
        match self.keyword(Token::Then) {
            Ok(()) => {},
            Err(e) => return Err(e),
        }
        let then_expression = match self.prefix() {
            Ok(e) => e,
            Err(e) => return Err(e),
        };
        match self.keyword(Token::Else) {
            Ok(()) => {},
            Err(e) => return Err(e),
        }
        let else_expression = match self.prefix() {
            Ok(e) => e,
            Err(e) => return Err(e),
        };
        Ok(Expression::Conditional(left, Box::new(then_expression), Box::new(else_expression)))
    }

    /// Left denotation: `token` as an infix operator after `left`, whose
    /// right operand is parsed at binding floor `bp`.
    pub fn led(&mut self, bp: usize, left: Expression, token: Token) -> (r: Result<
        Expression,
        String,
    >)
        ensures
            final(self).rest().len() <= old(self).rest().len(),
            outcome(r, final(self).rest(), parse_led(bp as nat, left, token, old(self).rest())),
        decreases self.rest().len(), 3nat,
    {
        match token {
            Token::Add | Token::Sub | Token::Mul | Token::Div | Token::ASSIGN => {
                match self.expr(bp) {
                    Ok(rhs) => Ok(Expression::Binary(Box::new(left), token, Box::new(rhs))),
                    Err(e) => Err(e),
                }
            },
            _ => Err(ParseError::Unexpected(token).describe()),
        }
    }

    /// Parses one expression whose infix operators bind more strongly than
    /// `rbp`, and leaves the tokens after it.
    pub fn expr(&mut self, rbp: usize) -> (r: Result<Expression, String>)
        ensures
            final(self).rest().len() <= old(self).rest().len(),
            outcome(r, final(self).rest(), parse_expr(old(self).rest(), rbp as nat)),
        decreases self.rest().len(), 1nat,
    {
        let ghost ts = self.rest();
        let mut left = match self.prefix() {
            Ok(e) => e,
            Err(e) => return Err(e),
        };
        loop
            invariant
                ts == old(self).rest(),
                self.rest().len() < ts.len(),
                parse_expr(ts, rbp as nat) == parse_infix(left, self.rest(), rbp as nat),
            decreases self.rest().len(),
        {
            let n = self.tokens.len();
            if n == 0 {
                return Ok(left);
            }
            let lbp = match &self.tokens[n - 1] {
                Token::ILLEGAL => {
                    return Err(ParseError::NotSupported.describe());
                },
                peeked => peeked.lbp(),
            };
            if rbp >= lbp {
                return Ok(left);
            }
            let op = match self.pop_next() {
                Some(t) => t,
                None => {
                    return Err(ParseError::NoToken.describe());
                },
            };
            left = match self.led(lbp, left, op) {
                Ok(e) => e,
                Err(e) => return Err(e),
            };
        }
    }
}

} // verus!
