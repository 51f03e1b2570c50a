use lumen::compiler::{show_text, Chunk, FnTable, Op, Value};
use lumen::lexer::lexes_cleanly;
use lumen::vm::{kind_str, load, FloatOp, Kind, Step, Vm, VmError, VmResult};

fn float_work(op: FloatOp, a: u64, b: u64) -> Value {
    let x = f64::from_bits(a);
    let y = f64::from_bits(b);
    match op {
        FloatOp::Add => Value::Float((x + y).to_bits()),
        FloatOp::Sub => Value::Float((x - y).to_bits()),
        FloatOp::Mul => Value::Float((x * y).to_bits()),
        FloatOp::Div => Value::Float((x / y).to_bits()),
        FloatOp::Neg => Value::Float((-x).to_bits()),
        FloatOp::Lt => Value::Bool(x < y),
        FloatOp::LtEq => Value::Bool(x <= y),
        FloatOp::Gt => Value::Bool(x > y),
        FloatOp::GtEq => Value::Bool(x >= y),
        FloatOp::Eq => Value::Bool(x == y),
        FloatOp::Neq => Value::Bool(x != y),
    }
}


/// The error for a float found where another kind was expected.
fn float_mismatch(kind: Kind, bits: u64) -> VmError {
    VmError(format!("expected {}, got Float({:?})", kind_str(kind), f64::from_bits(bits)))
}

fn drive(mut vm: Vm) -> VmResult<Value> {
    loop {
        assert!(vm.is_running());
        assert!(!vm.next_step_overflows(), "arithmetic overflow");
        match vm.step()? {
            Step::Continue => {}
            Step::Halted(v) => return Ok(v),
            Step::Print(_) => {}
            Step::Float(op, a, b) => vm.resume(float_work(op, a, b)),
            Step::Mismatch(kind, bits) => return Err(float_mismatch(kind, bits)),
        }
    }
}

fn eval(src: &str) -> VmResult<Value> {
    assert!(lexes_cleanly(src));
    drive(load(src)?)
}

fn machine(ops: Vec<Op>) -> Vm {
    let mut vm = Vm::new(FnTable::new());
    vm.start(Chunk { ops });
    vm
}

fn float(x: f64) -> Value {
    Value::Float(x.to_bits())
}

#[test]
fn stack_underflow_message() {
    let mut vm = machine(vec![Op::AddInt, Op::Halt]);
    assert_eq!(vm.step().unwrap_err().0, "stack underflow");
}

#[test]
fn expected_kind_message() {
    let mut vm = machine(vec![
        Op::Const(Value::Bool(true)),
        Op::Const(Value::Int(1)),
        Op::AddInt,
        Op::Halt,
    ]);
    assert_eq!(vm.step().unwrap(), Step::Continue);
    assert_eq!(vm.step().unwrap(), Step::Continue);
    assert_eq!(vm.step().unwrap_err().0, "expected int, got Bool(true)");
}

#[test]
fn local_not_set_message() {
    let mut vm = machine(vec![Op::LoadLocal(3), Op::Halt]);
    assert_eq!(vm.step().unwrap_err().0, "local slot 3 not set");
}

#[test]
fn print_request() {
    let mut vm = machine(vec![Op::Const(Value::Int(7)), Op::Print, Op::Const(Value::Nil), Op::Halt]);
    assert_eq!(vm.step().unwrap(), Step::Continue);
    assert_eq!(vm.step().unwrap(), Step::Print(Value::Int(7)));
    assert_eq!(vm.step().unwrap(), Step::Continue);
    assert_eq!(vm.step().unwrap(), Step::Halted(Value::Nil));
}

#[test]
fn print_empty_stack_message() {
    let mut vm = machine(vec![Op::Print, Op::Halt]);
    assert_eq!(vm.step().unwrap_err().0, "print: empty stack");
}

#[test]
fn float_request_and_resume() {
    let mut vm = machine(vec![Op::Const(float(1.5)), Op::Const(float(2.0)), Op::AddFloat, Op::Halt]);
    assert_eq!(vm.step().unwrap(), Step::Continue);
    assert_eq!(vm.step().unwrap(), Step::Continue);
    assert_eq!(vm.step().unwrap(), Step::Float(FloatOp::Add, 1.5f64.to_bits(), 2.0f64.to_bits()));
    vm.resume(float(3.5));
    assert_eq!(vm.step().unwrap(), Step::Halted(float(3.5)));
}

#[test]
fn negation_request() {
    let mut vm = machine(vec![Op::Const(float(2.0)), Op::NegFloat, Op::Halt]);
    assert_eq!(vm.step().unwrap(), Step::Continue);
    assert_eq!(vm.step().unwrap(), Step::Float(FloatOp::Neg, 2.0f64.to_bits(), 0));
}

#[test]
fn return_from_main_halts() {
    let mut vm = machine(vec![Op::Const(Value::Int(4)), Op::Return]);
    assert_eq!(vm.step().unwrap(), Step::Continue);
    assert_eq!(vm.step().unwrap(), Step::Halted(Value::Int(4)));
    assert!(!vm.is_running());
}

#[test]
fn halt_on_empty_stack_gives_nil() {
    let mut vm = machine(vec![Op::Halt]);
    assert_eq!(vm.step().unwrap(), Step::Halted(Value::Nil));
}

#[test]
fn store_local_grows_with_nils() {
    let vm = machine(vec![Op::Const(Value::Int(5)), Op::StoreLocal(2), Op::LoadLocal(1), Op::Halt]);
    assert_eq!(drive(vm).unwrap(), Value::Nil);
}

#[test]
fn call_binds_arguments_in_order() {
    let mut fns = FnTable::new();
    fns.insert("second".to_string(), Chunk { ops: vec![Op::LoadLocal(1), Op::Return] });
    let mut vm = Vm::new(fns);
    vm.start(Chunk {
        ops: vec![
            Op::Const(Value::Int(3)),
            Op::Const(Value::Int(4)),
            Op::Call("second".to_string(), 2),
            Op::Halt,
        ],
    });
    assert_eq!(drive(vm).unwrap(), Value::Int(4));
}

#[test]
fn overflow_is_detected_before_the_step() {
    let mut vm = load("9223372036854775807 + 1;").unwrap();
    assert!(!vm.next_step_overflows());
    vm.step().unwrap();
    assert!(!vm.next_step_overflows());
    vm.step().unwrap();
    assert!(vm.next_step_overflows());
}

#[test]
fn negating_the_minimum_is_detected() {
    let mut vm = machine(vec![Op::Const(Value::Int(i64::MIN)), Op::NegInt, Op::Halt]);
    vm.step().unwrap();
    assert!(vm.next_step_overflows());
}

#[test]
fn division_truncates_toward_zero() {
    assert_eq!(eval("-7 / 2;").unwrap(), Value::Int(-3));
    assert_eq!(eval("-7 % 2;").unwrap(), Value::Int(-1));
    assert_eq!(eval("7 % -2;").unwrap(), Value::Int(1));
    assert_eq!(eval("7 / -2;").unwrap(), Value::Int(-3));
}

#[test]
fn fibonacci_loop() {
    let src = "let a = 0; let b = 1; let i = 0; while i < 10 { let tmp = b; b = a + b; a = tmp; i = i + 1; } a;";
    assert_eq!(eval(src).unwrap(), Value::Int(55));
}

#[test]
fn recursive_function() {
    let src = "fn sum(n: int) { if n < 1 { return 0; } return n + sum(n - 1); } sum(4);";
    assert_eq!(eval(src).unwrap(), Value::Int(10));
}

#[test]
fn function_without_return_gives_nil() {
    assert_eq!(eval("fn f() { let x = 1; } f();").unwrap(), Value::Nil);
}

#[test]
fn string_comparisons() {
    assert_eq!(eval(r#""a" == "a";"#).unwrap(), Value::Bool(true));
    assert_eq!(eval(r#""a" != "b";"#).unwrap(), Value::Bool(true));
}

#[test]
fn float_comparison() {
    assert_eq!(eval("1.5 < 2.5;").unwrap(), Value::Bool(true));
    assert_eq!(eval("2.5 - 1.0;").unwrap(), float(1.5));
    assert_eq!(eval("1.0 / 4.0;").unwrap(), float(0.25));
}

#[test]
fn condition_must_be_bool() {
    assert_eq!(eval("if 1 { let x = 1; }").unwrap_err().0, "expected bool, got Int(1)");
}

#[test]
fn compile_error_message() {
    assert_eq!(eval("let y = x;").unwrap_err().0, "compile error: undefined variable 'x'");
}

#[test]
fn parse_error_prefix() {
    assert!(eval("let = 1;").unwrap_err().0.starts_with("parse error: "));
}

#[test]
fn undefined_function_message() {
    assert_eq!(eval("foo();").unwrap_err().0, "undefined function 'foo'");
}

#[test]
fn printing_program() {
    let src = r#"
        // variables
        let x: int = 42;
        let name = "lumen";

        // functions
        fn add(a: int, b: int) -> int {
            return a;
        }

        // control flow
        if x > 10 {
            print("big");
        } else {
            print("small");
        }
        print(add(x, 1));
    "#;
    assert!(lexes_cleanly(src));
    let mut vm = load(src).unwrap();
    let mut printed = Vec::new();
    let end = loop {
        assert!(vm.is_running());
        match vm.step().unwrap() {
            Step::Continue => {}
            Step::Halted(v) => break v,
            Step::Print(v) => printed.push(v),
            Step::Float(op, a, b) => vm.resume(float_work(op, a, b)),
            Step::Mismatch(kind, bits) => panic!("{:?}", float_mismatch(kind, bits)),
        }
    };
    assert_eq!(printed, vec![Value::Str("big".into()), Value::Int(42)]);
    assert_eq!(end, Value::Nil);
}

#[test]
fn mismatch_shows_the_value() {
    let cases = vec![
        (Value::Int(-3), "expected bool, got Int(-3)"),
        (Value::Nil, "expected bool, got Nil"),
        (Value::Bool(false), "expected int, got Bool(false)"),
        (Value::Str("a\"b\\c\n\t\u{1}é".into()), "expected bool, got Str(\"a\\\"b\\\\c\\n\\t\\u{1}é\")"),
    ];
    for (v, msg) in cases {
        let expect_int = matches!(v, Value::Bool(_));
        let op = if expect_int { Op::NegInt } else { Op::Not };
        let mut vm = machine(vec![Op::Const(v.clone()), op, Op::Halt]);
        vm.step().unwrap();
        assert_eq!(vm.step().unwrap_err().0, msg);
    }
}

#[test]
fn float_of_the_wrong_kind_goes_to_the_host() {
    let mut vm = machine(vec![Op::Const(float(1.5)), Op::Not, Op::Halt]);
    vm.step().unwrap();
    assert_eq!(vm.step().unwrap(), Step::Mismatch(Kind::Bool, 1.5f64.to_bits()));
    assert_eq!(eval("1.5 && true;").unwrap_err().0, "expected bool, got Float(1.5)");
}

#[test]
fn malformed_but_unreached_code_steps() {
    let mut vm = machine(vec![Op::Const(Value::Int(2)), Op::Halt, Op::Jump(99)]);
    assert_eq!(vm.step().unwrap(), Step::Continue);
    assert_eq!(vm.step().unwrap(), Step::Halted(Value::Int(2)));
}

#[test]
fn negation_of_a_float_expression() {
    assert_eq!(eval("-(2.0 * 3.0);").unwrap(), float(-6.0));
    assert_eq!(eval("let x = 2.5; -x;").unwrap(), float(-2.5));
}

#[test]
fn typed_operators_follow_variables() {
    assert_eq!(eval(r#"let s = "a"; s + "b";"#).unwrap(), Value::Str("ab".into()));
    assert_eq!(eval("let x = 1.0; x + 2.0;").unwrap(), float(3.0));
    assert_eq!(eval("let x: float = 1.0; let y = x; y < 0.5;").unwrap(), Value::Bool(false));
    assert_eq!(eval("let b = true; b == false;").unwrap(), Value::Bool(false));
    assert_eq!(eval("fn twice(x: float) { return x * 2.0; } twice(1.5);").unwrap(), float(3.0));
}

#[test]
fn parse_error_shows_the_token_kind() {
    assert_eq!(
        eval("let = 1;").unwrap_err().0,
        "parse error: expected a variable name after 'let' — got Equal"
    );
    assert_eq!(eval("1 + ;").unwrap_err().0, "parse error: expected an expression — got Semicolon");
    assert_eq!(
        eval("let x = 1 y;").unwrap_err().0,
        "parse error: expected ';' — got Ident(\"y\")"
    );
}

#[test]
fn value_texts() {
    assert_eq!(show_text(&Value::Int(-12)), Some("-12".to_string()));
    assert_eq!(show_text(&Value::Bool(true)), Some("true".to_string()));
    assert_eq!(show_text(&Value::Str("hi".into())), Some("hi".to_string()));
    assert_eq!(show_text(&Value::Nil), Some("nil".to_string()));
    assert_eq!(show_text(&float(1.5)), None);
}
