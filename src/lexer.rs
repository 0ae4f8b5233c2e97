use vstd::prelude::*;

use crate::token::{Lexeme, Token};

verus! {

/// What `char::is_numeric` answers for a character.
pub uninterp spec fn numeric_char(c: char) -> bool;

/// What `char::is_alphabetic` answers for a character.
pub uninterp spec fn alphabetic_char(c: char) -> bool;

pub open spec fn ascii_digit(c: char) -> bool {
    '0' <= c <= '9'
}

pub open spec fn ascii_letter(c: char) -> bool {
    ('a' <= c <= 'z') || ('A' <= c <= 'Z')
}

/// Relies on char::is_numeric: Unicode's numeric categories, which among
/// ASCII characters hold exactly the digits.
pub assume_specification[ char::is_numeric ](c: char) -> (r: bool)
    ensures
        r == numeric_char(c),
        (c as u32) < 128 ==> (r <==> ascii_digit(c)),
;

/// Relies on char::is_alphabetic: Unicode's Alphabetic property, which among
/// ASCII characters holds exactly the letters.
pub assume_specification[ char::is_alphabetic ](c: char) -> (r: bool)
    ensures
        r == alphabetic_char(c),
        (c as u32) < 128 ==> (r <==> ascii_letter(c)),
;

/// Whether `c` counts as numeric: an ASCII digit among ASCII characters,
/// otherwise what `char::is_numeric` says.
pub open spec fn numeric(c: char) -> bool {
    if (c as u32) < 128 {
        ascii_digit(c)
    } else {
        numeric_char(c)
    }
}

/// Whether `c` counts as alphabetic: an ASCII letter among ASCII
/// characters, otherwise what `char::is_alphabetic` says.
pub open spec fn alphabetic(c: char) -> bool {
    if (c as u32) < 128 {
        ascii_letter(c)
    } else {
        alphabetic_char(c)
    }
}

pub open spec fn is_blank(c: char) -> bool {
    c == ' ' || c == '\t' || c == '\n'
}

pub open spec fn in_number(c: char) -> bool {
    numeric(c) || c == '.'
}

/// Length of the longest prefix of `s` whose characters are numeric or `.`.
pub open spec fn number_run(s: Seq<char>) -> nat
    decreases s.len(),
{
    if s.len() > 0 && in_number(s[0]) {
        1 + number_run(s.drop_first())
    } else {
        0
    }
}

/// Length of the longest prefix of `s` whose characters are alphabetic.
pub open spec fn word_run(s: Seq<char>) -> nat
    decreases s.len(),
{
    if s.len() > 0 && alphabetic(s[0]) {
        1 + word_run(s.drop_first())
    } else {
        0
    }
}

/// A run of digits and dots that reads as a decimal number: ASCII digits
/// with at most one decimal point.
pub open spec fn decimal_literal(lit: Seq<char>) -> bool {
    &&& forall|i: int| 0 <= i < lit.len() ==> ascii_digit(lit[i]) || lit[i] == '.'
    &&& forall|i: int, j: int| 0 <= i < j < lit.len() && lit[i] == '.' ==> lit[j] != '.'
}

/// The token for a word: a keyword, or else an identifier.
pub open spec fn word_lexeme(w: Seq<char>) -> Lexeme {
    if w == seq!['i', 'f'] {
        Lexeme::If
    } else if w == seq!['t', 'h', 'e', 'n'] {
        Lexeme::Then
    } else if w == seq!['e', 'l', 's', 'e'] {
        Lexeme::Else
    } else {
        Lexeme::IDENTIFIER(w)
    }
}

/// The next token of `s`, and the input left after it.
pub open spec fn next_lexeme(s: Seq<char>) -> (Lexeme, Seq<char>)
    decreases s.len(),
{
    if s.len() == 0 {
        (Lexeme::EOF, s)
    } else {
        let c = s[0];
        let rest = s.drop_first();
        if is_blank(c) {
            next_lexeme(rest)
        } else if numeric(c) {
            let n = number_run(s) as int;
            let lit = s.take(n);
            (if decimal_literal(lit) { Lexeme::Num(lit) } else { Lexeme::ILLEGAL }, s.skip(n))
        } else if c == '+' {
            (Lexeme::Add, rest)
        } else if c == '-' {
            (Lexeme::Sub, rest)
        } else if c == '*' {
            (Lexeme::Mul, rest)
        } else if c == '/' {
            (Lexeme::Div, rest)
        } else if c == '(' {
            (Lexeme::LParen, rest)
        } else if c == ')' {
            (Lexeme::RParen, rest)
        } else if alphabetic(c) {
            let n = word_run(s) as int;
            (word_lexeme(s.take(n)), s.skip(n))
        } else if c == '=' {
            if rest.len() == 0 {
                (Lexeme::EOF, rest)
            } else if rest[0] == '=' {
                (Lexeme::EQ, rest.drop_first())
            } else {
                (Lexeme::ASSIGN, rest.drop_first())
            }
        } else if c == '<' {
            (Lexeme::LT, rest)
        } else if c == '>' {
            (Lexeme::GT, rest)
        } else {
            (Lexeme::ILLEGAL, rest)
        }
    }
}

pub open spec fn is_sentinel(t: Lexeme) -> bool {
    t is EOF || t is ILLEGAL
}

/// The whole token sequence of `s`: tokens up to and including the first
/// end-of-input or illegal token. Every other token consumes input
/// (`lemma_next_lexeme_shrinks`), so the length test always holds.
pub open spec fn lex_spec(s: Seq<char>) -> Seq<Lexeme>
    decreases s.len(),
{
    let (t, rest) = next_lexeme(s);
    if is_sentinel(t) || rest.len() >= s.len() {
        seq![t]
    } else {
        seq![t] + lex_spec(rest)
    }
}

/// Every token but the end-of-input one consumes input.
pub proof fn lemma_next_lexeme_shrinks(s: Seq<char>)
    ensures
        next_lexeme(s).1.len() <= s.len(),
        !(next_lexeme(s).0 is EOF) ==> next_lexeme(s).1.len() < s.len(),
    decreases s.len(),
{
    if s.len() > 0 {
        let c = s[0];
        if is_blank(c) {
            lemma_next_lexeme_shrinks(s.drop_first());
        } else if numeric(c) {
            assert(number_run(s) >= 1);
            lemma_run_bound(s);
        } else if alphabetic(c) {
            assert(word_run(s) >= 1);
            lemma_run_bound(s);
        }
    }
}

proof fn lemma_run_bound(s: Seq<char>)
    ensures
        number_run(s) <= s.len(),
        word_run(s) <= s.len(),
    decreases s.len(),
{
    if s.len() > 0 {
        lemma_run_bound(s.drop_first());
    }
}

/// A character that no token starts with.
pub open spec fn unsupported(c: char) -> bool {
    &&& !is_blank(c)
    &&& !numeric(c)
    &&& !alphabetic(c)
    &&& c != '+' && c != '-' && c != '*' && c != '/'
    &&& c != '(' && c != ')' && c != '=' && c != '<' && c != '>'
}

/// A line that starts with an unsupported character lexes to one illegal
/// token: the rest of the line is dropped.
pub proof fn lemma_unsupported_start(s: Seq<char>)
    requires
        s.len() > 0,
        unsupported(s[0]),
    ensures
        lex_spec(s) == seq![Lexeme::ILLEGAL],
{
}

/// Lexing depends on the input alone: equal inputs give equal tokens.
pub proof fn lemma_lex_deterministic(a: Seq<char>, b: Seq<char>)
    requires
        a == b,
    ensures
        lex_spec(a) == lex_spec(b),
{
}

/// A cursor over the characters of one line of input.
#[derive(Debug)]
pub struct Lexer {
    input: Vec<char>,
    pos: usize,
}

impl Lexer {
    /// The characters not yet consumed.
    pub closed spec fn rest(&self) -> Seq<char> {
        self.input@.skip(self.pos as int)
    }

    pub closed spec fn wf(&self) -> bool {
        self.pos <= self.input.len()
    }

    pub fn new(input: &str) -> (r: Lexer)
        ensures
            r.wf(),
            r.rest() == input@,
    {
        let n = input.unicode_len();
        let mut chars: Vec<char> = Vec::new();
        let mut i: usize = 0;
        while i < n
            invariant
                n == input@.len(),
                i <= n,
                chars@ == input@.take(i as int),
            decreases n - i,
        {
            chars.push(input.get_char(i));
            i = i + 1;
            assert(chars@ =~= input@.take(i as int));
        }
        assert(chars@.skip(0) =~= input@);
        Lexer { input: chars, pos: 0 }
    }

    proof fn lemma_step(&self)
        requires
            self.pos < self.input.len(),
        ensures
            self.rest().len() > 0,
            self.rest()[0] == self.input@[self.pos as int],
            self.rest().drop_first() =~= self.input@.skip(self.pos + 1),
    {
    }

    /// Consumes one character.
    fn advance(&mut self)
        requires
            old(self).wf(),
            old(self).rest().len() > 0,
        ensures
            final(self).wf(),
            final(self).input == old(self).input,
            final(self).rest() == old(self).rest().drop_first(),
    {
        proof {
            self.lemma_step();
        }
        self.pos = self.pos + 1;
    }

    /// Produces the next token, skipping blanks; `EOF` once the input is used up.
    pub fn next_token(&mut self) -> (r: Token)
        requires
            old(self).wf(),
        ensures
            final(self).wf(),
            (r@, final(self).rest()) == next_lexeme(old(self).rest()),
        decreases self.rest().len(),
    {
        let ghost s = self.rest();
        if self.pos >= self.input.len() {
            assert(s.len() == 0);
            return Token::EOF;
        }
        proof {
            self.lemma_step();
        }
        let ch = self.input[self.pos];
        assert(s[0] == ch);
        if ch == ' ' || ch == '\t' || ch == '\n' {
            self.advance();
            self.next_token()
        } else if ch.is_numeric() {
            self.read_numeric()
        } else if ch == '+' {
            self.advance();
            Token::Add
        } else if ch == '-' {
            self.advance();
            Token::Sub
        } else if ch == '*' {
            self.advance();
            Token::Mul
        } else if ch == '/' {
            self.advance();
            Token::Div
        } else if ch == '(' {
            self.advance();
            Token::LParen
        } else if ch == ')' {
            self.advance();
            Token::RParen
        } else if ch.is_alphabetic() {
            self.read_identifier()
        } else if ch == '=' {
            self.advance();
            if self.pos < self.input.len() {
                proof {
                    self.lemma_step();
                }
                let c = self.input[self.pos];
                self.advance();
                if c == '=' {
                    Token::EQ
                } else {
                    Token::ASSIGN
                }
            } else {
                self.next_token()
            }
        } else if ch == '<' {
            self.advance();
            Token::LT
        } else if ch == '>' {
            self.advance();
            Token::GT
        } else {
            self.advance();
            Token::ILLEGAL
        }
    }

    /// Tokenizes the whole input: tokens up to and including the first
    /// end-of-input or illegal token.
    pub fn lex(self) -> (r: Vec<Token>)
        requires
            self.wf(),
        ensures
            crate::token::lexemes(r@) == lex_spec(self.rest()),
    {
        let ghost s0 = self.rest();
        let mut lexer = self;
        let mut tokens: Vec<Token> = Vec::new();
        assert(lex_spec(s0) =~= crate::token::lexemes(tokens@) + lex_spec(lexer.rest()));
        loop
            invariant
                lexer.wf(),
                s0 == self.rest(),
                lex_spec(s0) == crate::token::lexemes(tokens@) + lex_spec(lexer.rest()),
            decreases lexer.rest().len(),
        {
            let ghost before = lexer.rest();
            let current_token = lexer.next_token();
            let ghost after = lexer.rest();
            proof {
                lemma_next_lexeme_shrinks(before);
            }
            let stop = match current_token {
                Token::EOF => true,
                Token::ILLEGAL => true,
                _ => false,
            };
            assert(crate::token::lexemes(tokens@.push(current_token))
                =~= crate::token::lexemes(tokens@).push(current_token@));
            tokens.push(current_token);
            if stop {
                assert(lex_spec(before) == seq![current_token@]);
                assert(lex_spec(s0) =~= crate::token::lexemes(tokens@));
                return tokens;
            }
            assert(lex_spec(before) == seq![current_token@] + lex_spec(after));
            assert(lex_spec(s0) =~= crate::token::lexemes(tokens@) + lex_spec(after));
        }
    }

    /// Whether the characters `start..end` form a decimal literal.
    fn is_decimal(&self, start: usize, end: usize) -> (r: bool)
        requires
            start <= end <= self.input.len(),
        ensures
            r == decimal_literal(self.input@.subrange(start as int, end as int)),
    {
        let ghost lit = self.input@.subrange(start as int, end as int);
        let mut seen_dot = false;
        let mut i: usize = start;
        while i < end
            invariant
                start <= i <= end <= self.input.len(),
                lit == self.input@.subrange(start as int, end as int),
                decimal_literal(lit.take(i - start)),
                seen_dot <==> exists|j: int| 0 <= j < i - start && lit[j] == '.',
            decreases end - i,
        {
            let c = self.input[i];
            let ghost k = i - start;
            assert(lit[k] == c);
            if c == '.' {
                if seen_dot {
                    let ghost j = choose|j: int| 0 <= j < i - start && lit[j] == '.';
                    assert(lit[j] == '.' && lit[k] == '.' && j < k);
                    return false;
                }
                seen_dot = true;
            } else if !('0' <= c && c <= '9') {
                assert(!(ascii_digit(lit[k]) || lit[k] == '.'));
                return false;
            }
            i = i + 1;
            assert(lit.take(i - start) =~= lit.take(k).push(c));
        }
        assert(lit.take(end - start) =~= lit);
        true
    }

    /// Reads a numeric literal: the longest run of numeric characters and dots.
    fn read_numeric(&mut self) -> (r: Token)
        requires
            old(self).wf(),
        ensures
            final(self).wf(),
            final(self).input == old(self).input,
            ({
                let s = old(self).rest();
                let n = number_run(s) as int;
                &&& final(self).rest() == s.skip(n)
                &&& r@ == (if decimal_literal(s.take(n)) {
                    Lexeme::Num(s.take(n))
                } else {
                    Lexeme::ILLEGAL
                })
            }),
    {
        let ghost s = self.rest();
        let start = self.pos;
        let mut literal = String::new();
        while self.pos < self.input.len() && (self.input[self.pos].is_numeric()
            || self.input[self.pos] == '.')
            invariant
                self.wf(),
                self.input == old(self).input,
                start <= self.pos,
                s == self.input@.skip(start as int),
                literal@ == self.input@.subrange(start as int, self.pos as int),
                number_run(s) == (self.pos - start) + number_run(self.rest()),
            decreases self.input.len() - self.pos,
        {
            let c = self.input[self.pos];
            proof {
                self.lemma_step();
            }
            literal.push(c);
            self.pos = self.pos + 1;
            assert(literal@ =~= self.input@.subrange(start as int, self.pos as int));
        }
        let n = self.pos - start;
        assert(s.take(n as int) =~= self.input@.subrange(start as int, self.pos as int));
        assert(s.skip(n as int) =~= self.rest());
        if self.is_decimal(start, self.pos) {
            Token::Num(literal)
        } else {
            Token::ILLEGAL
        }
    }

    /// Reads a word: the longest run of alphabetic characters; keywords are
    /// told apart from identifiers.
    fn read_identifier(&mut self) -> (r: Token)
        requires
            old(self).wf(),
        ensures
            final(self).wf(),
            final(self).input == old(self).input,
            ({
                let s = old(self).rest();
                let n = word_run(s) as int;
                &&& final(self).rest() == s.skip(n)
                &&& r@ == word_lexeme(s.take(n))
            }),
    {
        let ghost s = self.rest();
        let start = self.pos;
        let mut literal = String::new();
        while self.pos < self.input.len() && self.input[self.pos].is_alphabetic()
            invariant
                self.wf(),
                self.input == old(self).input,
                start <= self.pos,
                s == self.input@.skip(start as int),
                literal@ == self.input@.subrange(start as int, self.pos as int),
                word_run(s) == (self.pos - start) + word_run(self.rest()),
            decreases self.input.len() - self.pos,
        {
            let c = self.input[self.pos];
            proof {
                self.lemma_step();
            }
            literal.push(c);
            self.pos = self.pos + 1;
            assert(literal@ =~= self.input@.subrange(start as int, self.pos as int));
        }
        let n = self.pos - start;
        let ghost w = s.take(n as int);
        assert(w =~= literal@);
        assert(s.skip(n as int) =~= self.rest());
        let inp = &self.input;
        if n == 2 && inp[start] == 'i' && inp[start + 1] == 'f' {
            assert(w =~= seq!['i', 'f']);
            Token::If
        } else if n == 4 && inp[start] == 't' && inp[start + 1] == 'h' && inp[start + 2] == 'e'
            && inp[start + 3] == 'n' {
            assert(w =~= seq!['t', 'h', 'e', 'n']);
            Token::Then
        } else if n == 4 && inp[start] == 'e' && inp[start + 1] == 'l' && inp[start + 2] == 's'
            && inp[start + 3] == 'e' {
            assert(w =~= seq!['e', 'l', 's', 'e']);
            Token::Else
        } else {
            assert(w != seq!['i', 'f']) by {
                if w == seq!['i', 'f'] {
                    assert(w[0] == 'i' && w[1] == 'f');
                }
            }
            assert(w != seq!['t', 'h', 'e', 'n']) by {
                if w == seq!['t', 'h', 'e', 'n'] {
                    assert(w[0] == 't' && w[1] == 'h' && w[2] == 'e' && w[3] == 'n');
                }
            }
            assert(w != seq!['e', 'l', 's', 'e']) by {
                if w == seq!['e', 'l', 's', 'e'] {
                    assert(w[0] == 'e' && w[1] == 'l' && w[2] == 's' && w[3] == 'e');
                }
            }
            Token::IDENTIFIER(literal)
        }
    }
}

} // verus!
