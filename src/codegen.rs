use vstd::prelude::*;

use crate::expression::Expression;
use crate::lexer::{lex_spec, Lexer};
use crate::parser::{message, parse_expr, Parser};
use crate::token::{lexemes, Token};

verus! {

/// One step of the program that a numeric backend runs for an expression.
///
/// The program works on a stack of 64-bit floats and on numbered storage
/// slots, one per variable, that persist from one program to the next.
pub enum Instr {
    /// Pushes the value of a decimal literal.
    Const(String),
    /// Pushes the value stored in a slot.
    Load(usize),
    /// Pops a value and writes it to a slot.
    Store(usize),
    /// Pops a value and pushes it multiplied by -1.
    Negate,
    /// Pops `b`, then `a`, and pushes `a + b`.
    Add,
    /// Pops `b`, then `a`, and pushes `a - b`.
    Sub,
    /// Pops `b`, then `a`, and pushes `a * b`.
    Mul,
    /// Pops `b`, then `a`, and pushes `a / b`.
    Div,
    /// Pops `b`, then `a`, and pushes 1 if `a < b` (ordered), else 0.
    Less,
    /// Pops `b`, then `a`, and pushes 1 if `a > b` (ordered), else 0.
    Greater,
    /// Pops the condition; runs the then-region when its integer part is
    /// nonzero, and the else-region otherwise.
    IfNonZero,
    /// Ends the then-region, whose value is on the stack, and starts the
    /// else-region.
    Else,
    /// Ends the else-region: the value of the region that ran is pushed.
    EndIf,
}

/// Whether `code` runs to its end when started with `depth` values on the
/// stack inside the open conditionals `frames`, and the depth it ends with.
/// Every instruction must find the values it pops and name a slot below
/// `slots`; a frame holds the depth its conditional started at and whether
/// its else-region has begun. `Else` and `EndIf` each need exactly one value
/// more than that depth, and at the end no conditional may be open.
pub open spec fn shape(code: Seq<Instr>, slots: nat, depth: nat, frames: Seq<(nat, bool)>) -> Option<nat>
    decreases code.len(),
{
    if code.len() == 0 {
        if frames.len() == 0 {
            Some(depth)
        } else {
            None
        }
    } else {
        let rest = code.drop_first();
        match code[0] {
            Instr::Const(_) => shape(rest, slots, depth + 1, frames),
            Instr::Load(s) => if s < slots {
                shape(rest, slots, depth + 1, frames)
            } else {
                None
            },
            Instr::Store(s) => if s < slots && depth >= 1 {
                shape(rest, slots, (depth - 1) as nat, frames)
            } else {
                None
            },
            Instr::Negate => if depth >= 1 {
                shape(rest, slots, depth, frames)
            } else {
                None
            },
            Instr::IfNonZero => if depth >= 1 {
                shape(rest, slots, (depth - 1) as nat, frames.push(((depth - 1) as nat, false)))
            } else {
                None
            },
            Instr::Else => if frames.len() > 0 && !frames.last().1 && depth == frames.last().0 + 1 {
                shape(rest, slots, frames.last().0, frames.drop_last().push((frames.last().0, true)))
            } else {
                None
            },
            Instr::EndIf => if frames.len() > 0 && frames.last().1 && depth == frames.last().0 + 1 {
                shape(rest, slots, depth, frames.drop_last())
            } else {
                None
            },
            _ => if depth >= 2 {
                shape(rest, slots, (depth - 1) as nat, frames)
            } else {
                None
            },
        }
    }
}

/// A program a backend can run: each instruction finds its operands, slots
/// stay below `slots`, the conditional regions nest, and one value is left.
pub open spec fn runnable(code: Seq<Instr>, slots: nat) -> bool {
    shape(code, slots, 0, Seq::empty()) == Some(1nat)
}

/// Why an expression cannot be lowered.
pub enum LowerError {
    NotDeclared,
    BadUnary,
    AssignTarget,
    BadOperator,
}

/// The message reported for a lowering error.
pub open spec fn lower_message(e: LowerError) -> Seq<char> {
    match e {
        LowerError::NotDeclared => "Variable not declared"@,
        LowerError::BadUnary => "Expression for Unary must be + or -"@,
        LowerError::AssignTarget => "Assignment must be a variable"@,
        LowerError::BadOperator => "Operator not supported"@,
    }
}

impl LowerError {
    /// The message reported for this error.
    pub fn describe(&self) -> (r: String)
        ensures
            r@ == lower_message(*self),
    {
        match self {
            LowerError::NotDeclared => "Variable not declared".to_owned(),
            LowerError::BadUnary => "Expression for Unary must be + or -".to_owned(),
            LowerError::AssignTarget => "Assignment must be a variable".to_owned(),
            LowerError::BadOperator => "Operator not supported".to_owned(),
        }
    }
}

/// The slot of variable `name`, when it has one: its position in `names`.
pub open spec fn slot_of(names: Seq<Seq<char>>, name: Seq<char>) -> Option<int> {
    if names.contains(name) {
        Some(names.index_of(name))
    } else {
        None
    }
}

/// Each name has one slot.
pub open spec fn distinct_names(names: Seq<Seq<char>>) -> bool {
    forall|i: int, j: int| 0 <= i < j < names.len() ==> names[i] != names[j]
}

/// The result of lowering: the code and the variable names afterwards.
pub type Lowered = Result<(Seq<Instr>, Seq<Seq<char>>), LowerError>;

/// The instruction of an arithmetic or comparison operator.
pub open spec fn binary_instr(op: Token) -> Option<Instr> {
    match op {
        Token::LT => Some(Instr::Less),
        Token::GT => Some(Instr::Greater),
        Token::Add => Some(Instr::Add),
        Token::Sub => Some(Instr::Sub),
        Token::Mul => Some(Instr::Mul),
        Token::Div => Some(Instr::Div),
        _ => None,
    }
}

/// The program for expression `e` when variables `names` have slots, and
/// the names afterwards: an assignment to a new name gives it the next slot.
pub open spec fn lower_spec(names: Seq<Seq<char>>, e: Expression) -> Lowered
    decreases e,
{
    match e {
        Expression::Num(s) => Ok((seq![Instr::Const(s)], names)),
        Expression::Variable(v) => match slot_of(names, v@) {
            Some(i) => Ok((seq![Instr::Load(i as usize)], names)),
            None => Err(LowerError::NotDeclared),
        },
        Expression::Unary(op, x) => match op {
            Token::Add => lower_spec(names, *x),
            Token::Sub => match lower_spec(names, *x) {
                Err(err) => Err(err),
                Ok((c, n)) => Ok((c.push(Instr::Negate), n)),
            },
            _ => Err(LowerError::BadUnary),
        },
        Expression::Binary(l, op, r) => match op {
            Token::ASSIGN => match *l {
                Expression::Variable(v) => match lower_spec(names, *r) {
                    Err(err) => Err(err),
                    Ok((c, n)) => {
                        let (slot, n2) = match slot_of(n, v@) {
                            Some(i) => (i, n),
                            None => (n.len() as int, n.push(v@)),
                        };
                        Ok((c.push(Instr::Store(slot as usize)).push(Instr::Load(slot as usize)), n2))
                    },
                },
                _ => Err(LowerError::AssignTarget),
            },
            _ => match lower_spec(names, *l) {
                Err(err) => Err(err),
                Ok((c1, n1)) => match lower_spec(n1, *r) {
                    Err(err) => Err(err),
                    Ok((c2, n2)) => match binary_instr(op) {
                        Some(i) => Ok((c1 + c2.push(i), n2)),
                        None => Err(LowerError::BadOperator),
                    },
                },
            },
        },
        Expression::Paren(x) => lower_spec(names, *x),
        Expression::Conditional(c, t, f) => match lower_spec(names, *c) {
            Err(err) => Err(err),
            Ok((cc, n1)) => match lower_spec(n1, *t) {
                Err(err) => Err(err),
                Ok((tc, n2)) => match lower_spec(n2, *f) {
                    Err(err) => Err(err),
                    Ok((fc, n3)) => Ok(
                        (
                            cc.push(Instr::IfNonZero) + tc.push(Instr::Else) + fc.push(
                                Instr::EndIf,
                            ),
                            n3,
                        ),
                    ),
                },
            },
        },
    }
}

/// The expression `v = x` for a numeric literal `x`.
pub open spec fn assignment(v: String, x: String) -> Expression {
    Expression::Binary(Box::new(Expression::Variable(v)), Token::ASSIGN, Box::new(Expression::Num(x)))
}

/// The slot an assignment to `v` stores to: the one `v` has, or else the next.
pub open spec fn target_slot(names: Seq<Seq<char>>, v: Seq<char>) -> int {
    match slot_of(names, v) {
        Some(i) => i,
        None => names.len() as int,
    }
}

/// Reading a variable fails exactly when it has no slot, and then with the
/// "not declared" error.
pub proof fn lemma_undeclared_read(names: Seq<Seq<char>>, v: String)
    ensures
        lower_spec(names, Expression::Variable(v)) is Err <==> !names.contains(v@),
        !names.contains(v@) ==> lower_spec(names, Expression::Variable(v)) == Err::<
            (Seq<Instr>, Seq<Seq<char>>),
            LowerError,
        >(LowerError::NotDeclared),
{
}

/// An assignment stores to one slot and reads it back; a later read of the
/// same name loads that slot, and a later assignment stores to that same
/// slot again, giving out no new one.
pub proof fn lemma_assignment_reuses_slot(
    names: Seq<Seq<char>>,
    v1: String,
    x: String,
    v2: String,
    v3: String,
    y: String,
)
    requires
        distinct_names(names),
        v2@ == v1@,
        v3@ == v1@,
    ensures
        ({
            let s = target_slot(names, v1@) as usize;
            let n1 = if names.contains(v1@) { names } else { names.push(v1@) };
            &&& lower_spec(names, assignment(v1, x)) == Ok::<_, LowerError>(
                (seq![Instr::Const(x), Instr::Store(s), Instr::Load(s)], n1),
            )
            &&& lower_spec(n1, Expression::Variable(v2)) == Ok::<_, LowerError>(
                (seq![Instr::Load(s)], n1),
            )
            &&& lower_spec(n1, assignment(v3, y)) == Ok::<_, LowerError>(
                (seq![Instr::Const(y), Instr::Store(s), Instr::Load(s)], n1),
            )
        }),
{
    let n1 = if names.contains(v1@) { names } else { names.push(v1@) };
    let s = target_slot(names, v1@);
    assert(n1.contains(v1@) && n1[s] == v1@) by {
        if !names.contains(v1@) {
            assert(n1[names.len() as int] == v1@);
        }
    }
    assert(distinct_names(n1)) by {
        if !names.contains(v1@) {
            assert forall|a: int, b: int| 0 <= a < b < n1.len() implies n1[a] != n1[b] by {
                if b == names.len() {
                    assert(names[a] != v1@);
                }
            }
        }
    }
    let k = n1.index_of(v1@);
    assert(n1[k] == v1@);
    assert(k == s) by {
        if k != s {
            if k < s {
                assert(n1[k] != n1[s]);
            } else {
                assert(n1[s] != n1[k]);
            }
        }
    }
    assert(seq![Instr::Const(x)].push(Instr::Store(s as usize)).push(Instr::Load(s as usize))
        =~= seq![Instr::Const(x), Instr::Store(s as usize), Instr::Load(s as usize)]);
    assert(seq![Instr::Const(y)].push(Instr::Store(s as usize)).push(Instr::Load(s as usize))
        =~= seq![Instr::Const(y), Instr::Store(s as usize), Instr::Load(s as usize)]);
    assert(lower_spec(names, Expression::Num(x)) == Ok::<_, LowerError>((seq![Instr::Const(x)], names)));
    assert(lower_spec(n1, Expression::Num(y)) == Ok::<_, LowerError>((seq![Instr::Const(y)], n1)));
    assert(slot_of(n1, v2@) == Some(s));
    assert(slot_of(n1, v3@) == Some(s));
    assert(lower_spec(names, assignment(v1, x)) == Ok::<_, LowerError>(
        (seq![Instr::Const(x), Instr::Store(s as usize), Instr::Load(s as usize)], n1),
    ));
    assert(lower_spec(n1, Expression::Variable(v2)) == Ok::<_, LowerError>(
        (seq![Instr::Load(s as usize)], n1),
    ));
}

/// The trees of `a + b` and `a - b * c` lower to programs that push the
/// literals in order and then apply the operators innermost first; no slot
/// is involved.
pub proof fn lemma_literal_arithmetic(names: Seq<Seq<char>>, a: String, b: String, c: String)
    ensures
        lower_spec(names, crate::parser::binary(Expression::Num(a), Token::Add, Expression::Num(b)))
            == Ok::<_, LowerError>(
            (seq![Instr::Const(a), Instr::Const(b), Instr::Add], names),
        ),
        lower_spec(
            names,
            crate::parser::binary(
                Expression::Num(a),
                Token::Sub,
                crate::parser::binary(Expression::Num(b), Token::Mul, Expression::Num(c)),
            ),
        ) == Ok::<_, LowerError>(
            (
                seq![Instr::Const(a), Instr::Const(b), Instr::Const(c), Instr::Mul, Instr::Sub],
                names,
            ),
        ),
{
    let prod = crate::parser::binary(Expression::Num(b), Token::Mul, Expression::Num(c));
    assert(lower_spec(names, Expression::Num(a)) == Ok::<_, LowerError>((seq![Instr::Const(a)], names)));
    assert(lower_spec(names, Expression::Num(b)) == Ok::<_, LowerError>((seq![Instr::Const(b)], names)));
    assert(lower_spec(names, Expression::Num(c)) == Ok::<_, LowerError>((seq![Instr::Const(c)], names)));
    assert(seq![Instr::Const(a)] + seq![Instr::Const(b)].push(Instr::Add) =~= seq![
        Instr::Const(a),
        Instr::Const(b),
        Instr::Add,
    ]);
    assert(seq![Instr::Const(b)] + seq![Instr::Const(c)].push(Instr::Mul) =~= seq![
        Instr::Const(b),
        Instr::Const(c),
        Instr::Mul,
    ]);
    assert(lower_spec(names, prod) == Ok::<_, LowerError>(
        (seq![Instr::Const(b), Instr::Const(c), Instr::Mul], names),
    ));
    assert(seq![Instr::Const(a)] + seq![Instr::Const(b), Instr::Const(c), Instr::Mul].push(
        Instr::Sub,
    ) =~= seq![Instr::Const(a), Instr::Const(b), Instr::Const(c), Instr::Mul, Instr::Sub]);
}

/// Lowering only ever adds names, after the ones there were.
pub proof fn lemma_names_grow(names: Seq<Seq<char>>, e: Expression)
    ensures
        lower_spec(names, e) is Ok ==> names.len() <= lower_spec(names, e)->Ok_0.1.len(),
    decreases e,
{
    match e {
        Expression::Unary(op, x) => lemma_names_grow(names, *x),
        Expression::Binary(l, op, r) => {
            lemma_names_grow(names, *l);
            lemma_names_grow(names, *r);
            if lower_spec(names, *l) is Ok {
                lemma_names_grow(lower_spec(names, *l)->Ok_0.1, *r);
            }
        },
        Expression::Paren(x) => lemma_names_grow(names, *x),
        Expression::Conditional(c, t, f) => {
            lemma_names_grow(names, *c);
            if lower_spec(names, *c) is Ok {
                let n1 = lower_spec(names, *c)->Ok_0.1;
                lemma_names_grow(n1, *t);
                if lower_spec(n1, *t) is Ok {
                    lemma_names_grow(lower_spec(n1, *t)->Ok_0.1, *f);
                }
            }
        },
        _ => {},
    }
}

/// One instruction in front of `rest`.
proof fn lemma_shape_step(i: Instr, rest: Seq<Instr>)
    ensures
        ({
            let code = seq![i] + rest;
            code.len() > 0 && code[0] == i && code.drop_first() == rest
        }),
{
    assert((seq![i] + rest).drop_first() =~= rest);
}

/// The code for an expression pushes exactly one value and leaves the open
/// conditionals as they were, whatever follows it.
pub proof fn lemma_lowered_shape(
    names: Seq<Seq<char>>,
    e: Expression,
    slots: nat,
    rest: Seq<Instr>,
    depth: nat,
    frames: Seq<(nat, bool)>,
)
    requires
        lower_spec(names, e) is Ok,
        lower_spec(names, e)->Ok_0.1.len() <= slots <= usize::MAX,
    ensures
        shape(lower_spec(names, e)->Ok_0.0 + rest, slots, depth, frames) == shape(
            rest,
            slots,
            depth + 1,
            frames,
        ),
    decreases e,
{
    let (c, n) = lower_spec(names, e)->Ok_0;
    lemma_names_grow(names, e);
    match e {
        Expression::Num(s) => {
            lemma_shape_step(Instr::Const(s), rest);
        },
        Expression::Variable(v) => {
            let k = names.index_of(v@);
            assert(0 <= k < names.len());
            lemma_shape_step(Instr::Load(k as usize), rest);
        },
        Expression::Unary(op, x) => {
            if op is Add {
                lemma_lowered_shape(names, *x, slots, rest, depth, frames);
            } else {
                let cx = lower_spec(names, *x)->Ok_0.0;
                assert(c + rest =~= cx + (seq![Instr::Negate] + rest));
                lemma_lowered_shape(names, *x, slots, seq![Instr::Negate] + rest, depth, frames);
                lemma_shape_step(Instr::Negate, rest);
            }
        },
        Expression::Binary(l, op, r) => {
            if op is ASSIGN {
                let (cr, nr) = lower_spec(names, *r)->Ok_0;
                let slot = match slot_of(nr, l->Variable_0@) {
                    Some(i) => i,
                    None => nr.len() as int,
                };
                if slot_of(nr, l->Variable_0@) is Some {
                    assert(0 <= nr.index_of(l->Variable_0@) < nr.len());
                }
                assert(0 <= slot < n.len());
                assert(slot as usize == slot);
                let tail = seq![Instr::Load(slot as usize)] + rest;
                assert(c + rest =~= cr + (seq![Instr::Store(slot as usize)] + tail));
                lemma_names_grow(names, *r);
                lemma_lowered_shape(names, *r, slots, seq![Instr::Store(slot as usize)] + tail, depth, frames);
                lemma_shape_step(Instr::Store(slot as usize), tail);
                lemma_shape_step(Instr::Load(slot as usize), rest);
                assert((slot as usize) < slots);
                assert(shape(tail, slots, depth, frames) == shape(rest, slots, depth + 1, frames));
                assert(shape(seq![Instr::Store(slot as usize)] + tail, slots, depth + 1, frames)
                    == shape(tail, slots, depth, frames));
            } else {
                let (c1, n1) = lower_spec(names, *l)->Ok_0;
                let (c2, n2) = lower_spec(n1, *r)->Ok_0;
                let i = binary_instr(op)->Some_0;
                lemma_names_grow(n1, *r);
                let tail = seq![i] + rest;
                assert(c + rest =~= c1 + (c2 + tail));
                lemma_lowered_shape(names, *l, slots, c2 + tail, depth, frames);
                lemma_lowered_shape(n1, *r, slots, tail, depth + 1, frames);
                lemma_shape_step(i, rest);
            }
        },
        Expression::Paren(x) => {
            lemma_lowered_shape(names, *x, slots, rest, depth, frames);
        },
        Expression::Conditional(ce, te, fe) => {
            let (cc, n1) = lower_spec(names, *ce)->Ok_0;
            let (tc, n2) = lower_spec(n1, *te)->Ok_0;
            let (fc, n3) = lower_spec(n2, *fe)->Ok_0;
            lemma_names_grow(names, *ce);
            lemma_names_grow(n1, *te);
            lemma_names_grow(n2, *fe);
            let f1 = frames.push((depth, false));
            let f2 = f1.drop_last().push((depth, true));
            assert(f2.drop_last() =~= frames);
            let t3 = seq![Instr::EndIf] + rest;
            let t2 = fc + t3;
            let t1 = seq![Instr::Else] + t2;
            let t0 = tc + t1;
            assert(c + rest =~= cc + (seq![Instr::IfNonZero] + t0));
            lemma_lowered_shape(names, *ce, slots, seq![Instr::IfNonZero] + t0, depth, frames);
            lemma_shape_step(Instr::IfNonZero, t0);
            lemma_lowered_shape(n1, *te, slots, t1, depth, f1);
            lemma_shape_step(Instr::Else, t2);
            lemma_lowered_shape(n2, *fe, slots, t3, depth, f2);
            lemma_shape_step(Instr::EndIf, rest);
        },
    }
}

/// What compiling `e` gives when the variables `n0` had slots: `r`, with
/// the variables `n1` afterwards. On failure no slot is added.
pub open spec fn compiled(e: Expression, n0: Seq<Seq<char>>, n1: Seq<Seq<char>>, r: Result<Program, String>) -> bool {
    match lower_spec(n0, e) {
        Ok((c, n)) => r is Ok && r->Ok_0.code@ == c && r->Ok_0.slots == n.len() && n1 == n
            && runnable(c, n.len()),
        Err(err) => r is Err && r->Err_0@ == lower_message(err) && n1 == n0,
    }
}

/// What compiling a line whose tokens are `ts` gives: a parse error, or the
/// result of compiling the expression that the tokens start with.
pub open spec fn compiled_tokens(ts: Seq<Token>, n0: Seq<Seq<char>>, n1: Seq<Seq<char>>, r: Result<Program, String>) -> bool {
    match parse_expr(ts, 0) {
        Err((pe, _)) => r is Err && r->Err_0@ == message(pe) && n1 == n0,
        Ok((e, _)) => compiled(e, n0, n1, r),
    }
}

/// The program for one expression, and how many variable slots the backend
/// must keep once it has run (new slots start at zero).
pub struct Program {
    pub code: Vec<Instr>,
    pub slots: usize,
}

/// Lowers expressions for a session; it owns the variable environment, which
/// gives each assigned name one slot for the rest of the session.
pub struct Compiler {
    /// The name of the variable at each slot.
    names: Vec<String>,
}

impl Compiler {
    /// The name of the variable at each slot.
    pub closed spec fn names(&self) -> Seq<Seq<char>> {
        self.names@.map_values(|s: String| s@)
    }

    pub closed spec fn wf(&self) -> bool {
        distinct_names(self.names())
    }

    /// A session with no variables.
    pub fn new() -> (r: Compiler)
        ensures
            r.wf(),
            r.names() == Seq::<Seq<char>>::empty(),
    {
        let r = Compiler { names: Vec::new() };
        assert(r.names() =~= Seq::<Seq<char>>::empty());
        r
    }

    /// How many slots the session has given out.
    pub fn slot_count(&self) -> (r: usize)
        ensures
            r == self.names().len(),
    {
        self.names.len()
    }

    /// The slot of the variable `name`, if it has one.
    pub fn find(&self, name: &String) -> (r: Option<usize>)
        requires
            self.wf(),
        ensures
            match slot_of(self.names(), name@) {
                Some(i) => r == Some(i as usize),
                None => r is None,
            },
    {
        let mut i: usize = 0;
        while i < self.names.len()
            invariant
                self.wf(),
                i <= self.names.len(),
                forall|j: int| 0 <= j < i ==> self.names()[j] != name@,
            decreases self.names.len() - i,
        {
            if self.names[i] == *name {
                proof {
                    let ns = self.names();
                    assert(ns[i as int] == name@);
                    assert(ns.contains(name@));
                    let k = ns.index_of(name@);
                    assert(ns[k] == name@);
                    if k != i as int {
                        if k < i {
                            assert(ns[k] != name@);
                        } else {
                            assert(ns[i as int] != ns[k]);
                        }
                    }
                }
                return Some(i);
            }
            i = i + 1;
        }
        None
    }

    /// The program for `expr`; an assignment to a new name gives it a slot.
    /// On failure the environment is left as it was.
    pub fn compile(&mut self, expr: Expression) -> (r: Result<Program, String>)
        requires
            old(self).wf(),
        ensures
            final(self).wf(),
            compiled(expr, old(self).names(), final(self).names(), r),
    {
        let mut code: Vec<Instr> = Vec::new();
        let saved = self.names.len();
        match self.lower(expr, &mut code) {
            Ok(()) => {
                assert(code@ =~= lower_spec(old(self).names(), expr)->Ok_0.0);
                let count = self.names.len();
                proof {
                    let c = code@;
                    assert(self.names().len() == self.names@.len());
                    lemma_lowered_shape(old(self).names(), expr, count as nat, Seq::empty(), 0, Seq::empty());
                    assert(c + Seq::<Instr>::empty() =~= c);
                }
                Ok(Program { code, slots: count })
            },
            Err(err) => {
                self.names.truncate(saved);
                assert(self.names@ =~= old(self).names@);
                Err(err.describe())
            },
        }
    }

    /// Lexes and parses one line, and compiles the expression it starts with.
    pub fn compile_source(&mut self, source: &str) -> (r: Result<Program, String>)
        requires
            old(self).wf(),
        ensures
            final(self).wf(),
            exists|ts: Seq<Token>|
                lexemes(ts) == lex_spec(source@) && compiled_tokens(
                    ts,
                    old(self).names(),
                    final(self).names(),
                    r,
                ),
    {
        let lexer = Lexer::new(source);
        let tokens = lexer.lex();
        let ghost ts = tokens@;
        let mut parser = Parser::new(tokens);
        let r = match parser.expr(0) {
            Ok(expression) => self.compile(expression),
            Err(e) => Err(e),
        };
        assert(compiled_tokens(ts, old(self).names(), self.names(), r));
        r
    }

    /// Appends the program for `e` to `code`.
    #[verifier::rlimit(60)]
    fn lower(&mut self, e: Expression, code: &mut Vec<Instr>) -> (r: Result<(), LowerError>)
        requires
            old(self).wf(),
        ensures
            final(self).wf(),
            old(self).names().len() <= final(self).names().len(),
            forall|i: int| 0 <= i < old(self).names@.len() ==> final(self).names@[i] == old(self).names@[i],
            match lower_spec(old(self).names(), e) {
                Ok((c, n)) => r is Ok && final(code)@ == old(code)@ + c && final(self).names() == n,
                Err(err) => r == Err::<(), LowerError>(err),
            },
        decreases e,
    {
        let ghost c0 = code@;
        match e {
            Expression::Num(s) => {
                code.push(Instr::Const(s));
                assert(code@ =~= c0 + seq![Instr::Const(s)]);
                Ok(())
            },
            Expression::Variable(v) => match self.find(&v) {
                Some(i) => {
                    code.push(Instr::Load(i));
                    assert(code@ =~= c0 + seq![Instr::Load(i)]);
                    Ok(())
                },
                None => Err(LowerError::NotDeclared),
            },
            Expression::Unary(op, x) => match op {
                Token::Add => self.lower(*x, code),
                Token::Sub => {
                    match self.lower(*x, code) {
                        Ok(()) => {},
                        Err(err) => return Err(err),
                    }
                    code.push(Instr::Negate);
                    proof {
                        let (c, n) = lower_spec(old(self).names(), *x)->Ok_0;
                        assert(code@ =~= c0 + c.push(Instr::Negate));
                    }
                    Ok(())
                },
                _ => Err(LowerError::BadUnary),
            },
            Expression::Binary(l, op, r) => match op {
                Token::ASSIGN => match *l {
                    Expression::Variable(v) => {
                        match self.lower(*r, code) {
                            Ok(()) => {},
                            Err(err) => return Err(err),
                        }
                        let ghost mid = self.names();
                        let ghost (c, n) = lower_spec(old(self).names(), *r)->Ok_0;
                        assert(mid == n);
                        let slot = match self.find(&v) {
                            Some(i) => i,
                            None => {
                                let k = self.names.len();
                                self.names.push(v);
                                assert(self.names() =~= mid.push(v@));
                                assert(!mid.contains(v@));
                                assert(distinct_names(self.names())) by {
                                    assert forall|a: int, b: int|
                                        0 <= a < b < self.names().len() implies self.names()[a]
                                        != self.names()[b] by {
                                        if b == mid.len() {
                                            assert(mid[a] != v@);
                                        }
                                    }
                                }
                                k
                            },
                        };
                        code.push(Instr::Store(slot));
                        code.push(Instr::Load(slot));
                        assert(code@ =~= c0 + c.push(Instr::Store(slot)).push(Instr::Load(slot)));
                        Ok(())
                    },
                    _ => Err(LowerError::AssignTarget),
                },
                _ => {
                    let last: Option<Instr> = match op {
                        Token::LT => Some(Instr::Less),
                        Token::GT => Some(Instr::Greater),
                        Token::Add => Some(Instr::Add),
                        Token::Sub => Some(Instr::Sub),
                        Token::Mul => Some(Instr::Mul),
                        Token::Div => Some(Instr::Div),
                        _ => None,
                    };
                    assert(last == binary_instr(op));
                    match self.lower(*l, code) {
                        Ok(()) => {},
                        Err(err) => return Err(err),
                    }
                    let ghost c1 = code@;
                    match self.lower(*r, code) {
                        Ok(()) => {},
                        Err(err) => return Err(err),
                    }
                    match last {
                        Some(i) => {
                            let ghost c2 = code@;
                            code.push(i);
                            assert(code@ =~= c1 + (c2.subrange(c1.len() as int, c2.len() as int)).push(i));
                            Ok(())
                        },
                        None => Err(LowerError::BadOperator),
                    }
                },
            },
            Expression::Paren(x) => self.lower(*x, code),
            Expression::Conditional(c, t, f) => {
                match self.lower(*c, code) {
                    Ok(()) => {},
                    Err(err) => return Err(err),
                }
                let ghost (cc, n1) = lower_spec(old(self).names(), *c)->Ok_0;
                assert(self.names() == n1);
                code.push(Instr::IfNonZero);
                match self.lower(*t, code) {
                    Ok(()) => {},
                    Err(err) => return Err(err),
                }
                let ghost (tc, n2) = lower_spec(n1, *t)->Ok_0;
                assert(self.names() == n2);
                code.push(Instr::Else);
                match self.lower(*f, code) {
                    Ok(()) => {},
                    Err(err) => return Err(err),
                }
                let ghost (fc, n3) = lower_spec(n2, *f)->Ok_0;
                code.push(Instr::EndIf);
                assert(code@ =~= c0 + (cc.push(Instr::IfNonZero) + tc.push(Instr::Else) + fc.push(
                    Instr::EndIf,
                )));
                Ok(())
            },
        }
    }
}

} // verus!
