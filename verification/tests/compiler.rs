use lumen::compiler::{Compiler, Op, Value};
use lumen::parser::Parser;

fn compile(src: &str) -> Vec<Op> {
    let stmts = Parser::new(src).parse_program().expect("parse");
    let mut c = Compiler::new();
    c.compile_program(&stmts).expect("compile").ops
}

fn compile_expr(src: &str) -> Vec<Op> {
    // wrap in expr stmt so compile_program works
    compile(&format!("{};", src))
}

fn float(x: f64) -> Value {
    Value::Float(x.to_bits())
}

#[test]
fn int_const() {
    assert_eq!(compile_expr("1"), vec![Op::Const(Value::Int(1)), Op::Halt]);
}

#[test]
fn float_const() {
    assert_eq!(compile_expr("1.0"), vec![Op::Const(float(1.0)), Op::Halt]);
}

#[test]
fn bool_const() {
    assert_eq!(compile_expr("true"), vec![Op::Const(Value::Bool(true)), Op::Halt]);
}

#[test]
fn nil_const() {
    assert_eq!(compile_expr("nil"), vec![Op::Const(Value::Nil), Op::Halt]);
}

#[test]
fn str_const() {
    assert_eq!(compile_expr(r#""hi""#), vec![Op::Const(Value::Str("hi".into())), Op::Halt]);
}

#[test]
fn compiler_int_add() {
    assert_eq!(
        compile_expr("1 + 2"),
        vec![Op::Const(Value::Int(1)), Op::Const(Value::Int(2)), Op::AddInt, Op::Halt]
    );
}

#[test]
fn compiler_float_add() {
    assert_eq!(
        compile_expr("1.0 + 2.0"),
        vec![Op::Const(float(1.0)), Op::Const(float(2.0)), Op::AddFloat, Op::Halt]
    );
}

#[test]
fn compiler_int_sub() {
    assert_eq!(
        compile_expr("3 - 1"),
        vec![Op::Const(Value::Int(3)), Op::Const(Value::Int(1)), Op::SubInt, Op::Halt]
    );
}

#[test]
fn compiler_int_mul() {
    assert_eq!(
        compile_expr("2 * 3"),
        vec![Op::Const(Value::Int(2)), Op::Const(Value::Int(3)), Op::MulInt, Op::Halt]
    );
}

#[test]
fn compiler_int_div() {
    assert_eq!(
        compile_expr("6 / 2"),
        vec![Op::Const(Value::Int(6)), Op::Const(Value::Int(2)), Op::DivInt, Op::Halt]
    );
}

#[test]
fn compiler_int_mod() {
    assert_eq!(
        compile_expr("7 % 3"),
        vec![Op::Const(Value::Int(7)), Op::Const(Value::Int(3)), Op::ModInt, Op::Halt]
    );
}

#[test]
fn unary_neg_int() {
    assert_eq!(compile_expr("-1"), vec![Op::Const(Value::Int(1)), Op::NegInt, Op::Halt]);
}

#[test]
fn unary_neg_float() {
    assert_eq!(compile_expr("-1.0"), vec![Op::Const(float(1.0)), Op::NegFloat, Op::Halt]);
}

#[test]
fn unary_not() {
    assert_eq!(compile_expr("!true"), vec![Op::Const(Value::Bool(true)), Op::Not, Op::Halt]);
}

#[test]
fn let_stmt() {
    assert_eq!(compile("let x = 1;"), vec![Op::Const(Value::Int(1)), Op::StoreLocal(0), Op::Halt]);
}

#[test]
fn let_then_load() {
    assert_eq!(
        compile("let x = 1; let y = x;"),
        vec![
            Op::Const(Value::Int(1)),
            Op::StoreLocal(0),
            Op::LoadLocal(0),
            Op::StoreLocal(1),
            Op::Halt
        ]
    );
}

#[test]
fn return_stmt() {
    let ops = compile("fn f() { return 1; } ");
    // main chunk: just Halt (fn compiled separately)
    assert_eq!(ops, vec![Op::Halt]);
}

#[test]
fn if_no_else() {
    let ops = compile("if true { let x = 1; }");
    assert_eq!(
        ops,
        vec![
            Op::Const(Value::Bool(true)),
            Op::JumpIfFalse(4), // skip then block
            Op::Const(Value::Int(1)),
            Op::StoreLocal(0),
            Op::Halt,
        ]
    );
}

#[test]
fn if_with_else() {
    let ops = compile("if true { let x = 1; } else { let x = 2; }");
    assert_eq!(
        ops,
        vec![
            Op::Const(Value::Bool(true)),
            Op::JumpIfFalse(5),
            Op::Const(Value::Int(1)),
            Op::StoreLocal(0),
            Op::Jump(7),
            Op::Const(Value::Int(2)),
            Op::StoreLocal(0),
            Op::Halt,
        ]
    );
}

#[test]
fn while_loop() {
    let ops = compile("while true { let x = 1; }");
    assert_eq!(
        ops,
        vec![
            Op::Const(Value::Bool(true)), // idx 0 — loop head
            Op::JumpIfFalse(5),           // idx 1
            Op::Const(Value::Int(1)),     // idx 2
            Op::StoreLocal(0),            // idx 3
            Op::Jump(0),                  // idx 4 — back to head
            Op::Halt,                     // idx 5
        ]
    );
}

#[test]
fn fn_chunk_compiled() {
    let stmts = Parser::new("fn add(a: int, b: int) { return a; }").parse_program().unwrap();
    let mut c = Compiler::new();
    c.compile_program(&stmts).unwrap();
    assert!(c.fns.contains_key("add"));
    let chunk = c.fns.get("add").unwrap();
    // params a=slot0, b=slot1; body: LoadLocal(0), Return, Const(Nil), Return
    assert!(chunk.ops.contains(&Op::LoadLocal(0)));
    assert!(chunk.ops.contains(&Op::Return));
}

#[test]
fn call_emit() {
    let ops = compile("fn f() { return 1; } f();");
    assert!(ops.contains(&Op::Call("f".into(), 0)));
}

#[test]
fn assign_reuses_slot() {
    // let x=slot0, then x=2 should StoreLocal(0) again, not allocate slot1
    assert_eq!(
        compile("let x = 1; x = 2;"),
        vec![
            Op::Const(Value::Int(1)),
            Op::StoreLocal(0),
            Op::Const(Value::Int(2)),
            Op::StoreLocal(0),
            Op::Halt,
        ]
    );
}

#[test]
fn undefined_var_error() {
    let stmts = Parser::new("let y = x;").parse_program().unwrap();
    let result = Compiler::new().compile_program(&stmts);
    assert!(result.is_err());
}

#[test]
fn comparison_lt() {
    assert_eq!(
        compile_expr("1 < 2"),
        vec![Op::Const(Value::Int(1)), Op::Const(Value::Int(2)), Op::LtInt, Op::Halt]
    );
}

#[test]
fn logical_and() {
    assert_eq!(
        compile_expr("true && false"),
        vec![Op::Const(Value::Bool(true)), Op::Const(Value::Bool(false)), Op::And, Op::Halt]
    );
}

#[test]
fn string_variable_concatenation() {
    assert_eq!(
        compile(r#"let s = "a"; s + "b";"#),
        vec![
            Op::Const(Value::Str("a".into())),
            Op::StoreLocal(0),
            Op::LoadLocal(0),
            Op::Const(Value::Str("b".into())),
            Op::AddStr,
            Op::Halt,
        ]
    );
}

#[test]
fn negated_float_product() {
    assert_eq!(
        compile_expr("-(2.0 * 3.0)"),
        vec![Op::Const(float(2.0)), Op::Const(float(3.0)), Op::MulFloat, Op::NegFloat, Op::Halt]
    );
}
