use hitung::codegen::{Compiler, Instr, Program};
use hitung::expression::Expression;
use hitung::token::Token;

/// Runs a program on a float stack, with `slots` as the session's storage.
fn run(program: &Program, slots: &mut Vec<f64>) -> f64 {
    while slots.len() < program.slots {
        slots.push(0.0);
    }
    let code = &program.code;
    let mut stack: Vec<f64> = Vec::new();
    let mut pc: usize = 0;
    while pc < code.len() {
        match &code[pc] {
            Instr::Const(text) => stack.push(text.parse::<f64>().unwrap()),
            Instr::Load(s) => stack.push(slots[*s]),
            Instr::Store(s) => slots[*s] = stack.pop().unwrap(),
            Instr::Negate => {
                let v = stack.pop().unwrap();
                stack.push(v * -1.0);
            }
            Instr::IfNonZero => {
                let c = stack.pop().unwrap();
                if c as i64 == 0 {
                    pc = skip_to(code, pc, true);
                }
            }
            Instr::Else => pc = skip_to(code, pc, false),
            Instr::EndIf => {}
            op => {
                let b = stack.pop().unwrap();
                let a = stack.pop().unwrap();
                stack.push(match op {
                    Instr::Add => a + b,
                    Instr::Sub => a - b,
                    Instr::Mul => a * b,
                    Instr::Div => a / b,
                    Instr::Less => (a < b) as i32 as f64,
                    Instr::Greater => (a > b) as i32 as f64,
                    _ => unreachable!(),
                });
            }
        }
        pc += 1;
    }
    assert_eq!(stack.len(), 1);
    stack[0]
}

/// The index of the `Else` (or `EndIf`) that matches the region opened at `pc`.
fn skip_to(code: &[Instr], pc: usize, to_else: bool) -> usize {
    let mut depth = 0;
    let mut i = pc + 1;
    loop {
        match &code[i] {
            Instr::IfNonZero => depth += 1,
            Instr::Else if depth == 0 && to_else => return i,
            Instr::EndIf if depth == 0 && !to_else => return i,
            Instr::EndIf => depth -= 1,
            _ => {}
        }
        i += 1;
    }
}

fn eval(compiler: &mut Compiler, slots: &mut Vec<f64>, line: &str) -> Result<f64, String> {
    compiler.compile_source(line).map(|p| run(&p, slots))
}

fn eval_once(line: &str) -> Result<f64, String> {
    eval(&mut Compiler::new(), &mut Vec::new(), line)
}

#[test]
fn test_eval_from_source() {
    assert_eq!(eval_once("2 + 2 * 3 / 2"), Ok(5.0));
}

#[test]
fn test_eval_from_source_if_then_else() {
    assert_eq!(eval_once("if 1 < 2 then 123 else 456"), Ok(123.0));
    assert_eq!(eval_once("if 2 < 1 then 123 else 456"), Ok(456.0));
    assert_eq!(eval_once("if 2 > 1 then -1 else 1"), Ok(-1.0));
}

#[test]
fn eval_parentheses() {
    assert_eq!(eval_once("( 3 + 2 ) * 2"), Ok(10.0));
    assert_eq!(eval_once("(3 + 2"), Err("Unmatched closing paren".to_string()));
}

#[test]
fn eval_integer_sums_and_precedence() {
    for (a, b) in [(0i64, 0i64), (7, 5), (123, 456), (40, 2)] {
        let line = format!("{} + {}", a, b);
        assert_eq!(eval_once(&line), Ok((a + b) as f64));
        let line = format!("{} - {} * 3", a, b);
        assert_eq!(eval_once(&line), Ok((a - b * 3) as f64));
    }
    assert_eq!(eval_once("7 + -3"), Ok(4.0));
}

#[test]
fn assignment_then_read_reuses_the_slot() {
    let mut compiler = Compiler::new();
    let mut slots = Vec::new();
    assert_eq!(eval(&mut compiler, &mut slots, "a = 5"), Ok(5.0));
    assert_eq!(eval(&mut compiler, &mut slots, "a"), Ok(5.0));
    assert_eq!(eval(&mut compiler, &mut slots, "a = 9"), Ok(9.0));
    assert_eq!(eval(&mut compiler, &mut slots, "a"), Ok(9.0));
    assert_eq!(compiler.slot_count(), 1);
    // assignment binds tightest: this is `(b = a) * 2`
    assert_eq!(eval(&mut compiler, &mut slots, "b = a * 2"), Ok(18.0));
    assert_eq!(eval(&mut compiler, &mut slots, "b"), Ok(9.0));
    assert_eq!(compiler.slot_count(), 2);
}

#[test]
fn assignment_program_shape() {
    let mut compiler = Compiler::new();
    let p = compiler.compile_source("a = 5").unwrap();
    assert_eq!(p.slots, 1);
    assert!(matches!(
        p.code.as_slice(),
        [Instr::Const(t), Instr::Store(0), Instr::Load(0)] if t == "5"
    ));
    let q = compiler.compile_source("a = 9").unwrap();
    assert_eq!(q.slots, 1);
    assert!(matches!(q.code.as_slice(), [Instr::Const(_), Instr::Store(0), Instr::Load(0)]));
}

#[test]
fn undeclared_variable_fails() {
    assert_eq!(eval_once("x"), Err("Variable not declared".to_string()));
    assert_eq!(eval_once("x = x"), Err("Variable not declared".to_string()));
}

#[test]
fn failed_line_gives_no_slot() {
    let mut compiler = Compiler::new();
    let mut slots = Vec::new();
    assert_eq!(
        eval(&mut compiler, &mut slots, "(a = 1) + b"),
        Err("Variable not declared".to_string())
    );
    assert_eq!(compiler.slot_count(), 0);
    assert_eq!(eval(&mut compiler, &mut slots, "a"), Err("Variable not declared".to_string()));
    assert_eq!(compiler.find(&"a".to_string()), None);
}

#[test]
fn lowering_errors() {
    let mut compiler = Compiler::new();
    let bad_unary = Expression::Unary(Token::Mul, Box::new(Expression::from(1)));
    assert_eq!(
        compiler.compile(bad_unary).err(),
        Some("Expression for Unary must be + or -".to_string())
    );
    let bad_target = Expression::Binary(
        Box::new(Expression::from(3)),
        Token::ASSIGN,
        Box::new(Expression::from(4)),
    );
    assert_eq!(compiler.compile(bad_target).err(), Some("Assignment must be a variable".to_string()));
    let bad_op = Expression::Binary(
        Box::new(Expression::from(1)),
        Token::EQ,
        Box::new(Expression::from(2)),
    );
    assert_eq!(compiler.compile(bad_op).err(), Some("Operator not supported".to_string()));
    assert_eq!(eval_once("3 = 4"), Err("Assignment must be a variable".to_string()));
}

#[test]
fn conditional_branch_selector_truncates() {
    let mut compiler = Compiler::new();
    let mut slots = Vec::new();
    assert_eq!(eval(&mut compiler, &mut slots, "c = 0.5"), Ok(0.5));
    let cond = Expression::Conditional(
        Box::new(Expression::Variable("c".to_string())),
        Box::new(Expression::from(1)),
        Box::new(Expression::from(2)),
    );
    let p = compiler.compile(cond).unwrap();
    assert_eq!(run(&p, &mut slots), 2.0);
    assert_eq!(eval(&mut compiler, &mut slots, "c = 3"), Ok(3.0));
    let cond = Expression::Conditional(
        Box::new(Expression::Variable("c".to_string())),
        Box::new(Expression::from(1)),
        Box::new(Expression::from(2)),
    );
    let p = compiler.compile(cond).unwrap();
    assert_eq!(run(&p, &mut slots), 1.0);
}

#[test]
fn test_eval_from_expression() {
    let expression = Expression::Binary(
        Box::new(Expression::Binary(
            Box::new(Expression::from(3)),
            Token::Add,
            Box::new(Expression::from(2)),
        )),
        Token::Sub,
        Box::new(Expression::from(2)),
    );

    let mut compiler = Compiler::new();
    let program = compiler.compile(expression).unwrap();
    let actual = run(&program, &mut Vec::new());
    assert_eq!(3.0, actual);
}
