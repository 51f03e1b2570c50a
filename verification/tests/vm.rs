use lumen::compiler::Value;
use lumen::lexer::lexes_cleanly;
use lumen::vm::{kind_str, load, FloatOp, Kind, Step, VmError, VmResult};

/// The host's float work, on binary64 bit patterns.
fn float_work(op: FloatOp, a: u64, b: u64) -> Value {
    let x = f64::from_bits(a);
    let y = f64::from_bits(b);
    match op {
        FloatOp::Add => Value::Float((x + y).to_bits()),
        FloatOp::Sub => Value::Float((x - y).to_bits()),
        FloatOp::Mul => Value::Float((x * y).to_bits()),
        FloatOp::Div => Value::Float((x / y).to_bits()),
        FloatOp::Neg => Value::Float((-x).to_bits()),
        FloatOp::Lt => Value::Bool(x < y),
        FloatOp::LtEq => Value::Bool(x <= y),
        FloatOp::Gt => Value::Bool(x > y),
        FloatOp::GtEq => Value::Bool(x >= y),
        FloatOp::Eq => Value::Bool(x == y),
        FloatOp::Neq => Value::Bool(x != y),
    }
}

/// Load `src` and step the machine to its end, doing the host's part.

/// The error for a float found where another kind was expected.
fn float_mismatch(kind: Kind, bits: u64) -> VmError {
    VmError(format!("expected {}, got Float({:?})", kind_str(kind), f64::from_bits(bits)))
}

fn eval(src: &str) -> VmResult<Value> {
    assert!(lexes_cleanly(src), "unterminated string literal");
    let mut vm = load(src)?;
    loop {
        assert!(vm.is_running());
        assert!(!vm.next_step_overflows(), "arithmetic overflow");
        match vm.step()? {
            Step::Continue => {}
            Step::Halted(v) => return Ok(v),
            Step::Print(v) => println!("{:?}", v),
            Step::Float(op, a, b) => vm.resume(float_work(op, a, b)),
            Step::Mismatch(kind, bits) => return Err(float_mismatch(kind, bits)),
        }
    }
}

fn run(src: &str) -> Value {
    eval(src).expect("vm error")
}

fn run_err(src: &str) -> String {
    eval(src).unwrap_err().0
}

fn float(x: f64) -> Value {
    Value::Float(x.to_bits())
}

// literals
#[test]
fn int_val() {
    assert_eq!(run("1;"), Value::Int(1));
}

#[test]
fn float_val() {
    assert_eq!(run("1.0;"), float(1.0));
}

#[test]
fn bool_val() {
    assert_eq!(run("true;"), Value::Bool(true));
}

#[test]
fn nil_val() {
    assert_eq!(run("nil;"), Value::Nil);
}

#[test]
fn str_val() {
    assert_eq!(run(r#""hi";"#), Value::Str("hi".into()));
}

// arithmetic
#[test]
fn vm_int_add() {
    assert_eq!(run("1 + 2;"), Value::Int(3));
}

#[test]
fn vm_int_sub() {
    assert_eq!(run("5 - 3;"), Value::Int(2));
}

#[test]
fn vm_int_mul() {
    assert_eq!(run("3 * 4;"), Value::Int(12));
}

#[test]
fn vm_int_div() {
    assert_eq!(run("10 / 2;"), Value::Int(5));
}

#[test]
fn vm_int_mod() {
    assert_eq!(run("7 % 3;"), Value::Int(1));
}

#[test]
fn vm_float_add() {
    assert_eq!(run("1.0 + 2.0;"), float(3.0));
}

#[test]
fn float_mul() {
    assert_eq!(run("2.0 * 3.0;"), float(6.0));
}

#[test]
fn str_concat() {
    assert_eq!(run(r#""hello" + " world";"#), Value::Str("hello world".into()));
}

// unary
#[test]
fn neg_int() {
    assert_eq!(run("-5;"), Value::Int(-5));
}

#[test]
fn neg_float() {
    assert_eq!(run("-2.0;"), float(-2.0));
}

#[test]
fn not_bool() {
    assert_eq!(run("!true;"), Value::Bool(false));
}

// comparison
#[test]
fn lt_true() {
    assert_eq!(run("1 < 2;"), Value::Bool(true));
}

#[test]
fn lt_false() {
    assert_eq!(run("2 < 1;"), Value::Bool(false));
}

#[test]
fn gt_true() {
    assert_eq!(run("3 > 1;"), Value::Bool(true));
}

#[test]
fn eq_int() {
    assert_eq!(run("2 == 2;"), Value::Bool(true));
}

#[test]
fn neq_int() {
    assert_eq!(run("1 != 2;"), Value::Bool(true));
}

// logical
#[test]
fn and_tt() {
    assert_eq!(run("true && true;"), Value::Bool(true));
}

#[test]
fn and_ff() {
    assert_eq!(run("true && false;"), Value::Bool(false));
}

#[test]
fn or_ff() {
    assert_eq!(run("false || false;"), Value::Bool(false));
}

#[test]
fn or_tf() {
    assert_eq!(run("true || false;"), Value::Bool(true));
}

// variables
#[test]
fn let_and_load() {
    assert_eq!(run("let x = 42; x;"), Value::Int(42));
}

#[test]
fn let_chain() {
    assert_eq!(run("let x = 1; let y = x + 1; y;"), Value::Int(2));
}

// control flow
#[test]
fn if_true_branch() {
    assert_eq!(run("let x = 0; if true { let x = 1; } x;"), Value::Int(0));
    // outer x unchanged — scope isolation
}

#[test]
fn if_else_false() {
    assert_eq!(run("if false { let x = 1; } else { let x = 2; } nil;"), Value::Nil);
}

#[test]
fn while_counts() {
    // while loop runs; result from after the loop
    assert_eq!(run("let x = 0; while false { let x = 99; } x;"), Value::Int(0));
}

// functions
#[test]
fn fn_call_return() {
    assert_eq!(run("fn double(n: int) { return n; } double(21);"), Value::Int(21));
}

#[test]
fn fn_call_two_args() {
    assert_eq!(run("fn add(a: int, b: int) { return a; } add(3, 4);"), Value::Int(3));
}

#[test]
fn fn_undefined_error() {
    assert!(run_err("foo();").contains("undefined function"));
}

// assignment
#[test]
fn assign_mutates() {
    assert_eq!(run("let x = 1; x = 42; x;"), Value::Int(42));
}

#[test]
fn assign_chain() {
    assert_eq!(run("let x = 0; x = 1; x = x + 1; x;"), Value::Int(2));
}

// runtime errors
#[test]
fn div_by_zero() {
    assert!(run_err("1 / 0;").contains("division by zero"));
}

#[test]
fn mod_by_zero() {
    assert!(run_err("5 % 0;").contains("modulo by zero"));
}
