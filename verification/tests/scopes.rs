use lumen::ast::Ty;
use lumen::compiler::{Chunk, FnTable, Op, Value};
use lumen::interpreter::{Env as ValueEnv, Interpreter};
use lumen::scopes::Scopes;
use lumen::typeck::{Env as TypeEnv, TypeError};

#[test]
fn define_then_lookup() {
    let mut s: Scopes<i32> = Scopes::new();
    s.push();
    s.define("x", 1);
    assert_eq!(s.lookup("x"), Some(&1));
    assert_eq!(s.lookup("y"), None);
    s.define("x", 2);
    assert_eq!(s.lookup("x"), Some(&2));
}

#[test]
fn inner_scope_shadows_until_popped() {
    let mut s: Scopes<i32> = Scopes::new();
    s.push();
    s.define("x", 1);
    s.push();
    assert_eq!(s.lookup("x"), Some(&1));
    s.define("x", 2);
    assert_eq!(s.lookup("x"), Some(&2));
    s.pop();
    assert_eq!(s.lookup("x"), Some(&1));
    assert_eq!(s.depth(), 1);
}

#[test]
fn assign_rebinds_innermost() {
    let mut s: Scopes<i32> = Scopes::new();
    s.push();
    s.define("x", 1);
    s.push();
    s.define("y", 5);
    assert!(s.assign("x", 7));
    assert_eq!(s.lookup("x"), Some(&7));
    assert!(!s.assign("z", 3));
    assert_eq!(s.lookup("z"), None);
    s.pop();
    assert_eq!(s.lookup("x"), Some(&7));
    assert_eq!(s.lookup("y"), None);
}

#[test]
fn type_env_without_scope_ignores_define() {
    let mut env = TypeEnv::new();
    env.define("x", Ty::Int);
    assert_eq!(env.lookup("x"), None);
    env.push();
    env.define("x", Ty::Int);
    assert_eq!(env.lookup("x"), Some(&Ty::Int));
    env.pop();
    assert_eq!(env.lookup("x"), None);
}

#[test]
fn value_env_errors() {
    let mut env = ValueEnv::new();
    env.push();
    assert_eq!(env.get("x").unwrap_err().0, "undefined variable 'x'");
    assert_eq!(env.set("x", Value::Int(1)).unwrap_err().0, "assignment to undefined variable 'x'");
    env.define("x", Value::Int(1));
    env.set("x", Value::Int(2)).unwrap();
    assert_eq!(env.get("x").unwrap(), Value::Int(2));
}

#[test]
fn interpreter_starts_empty() {
    let _interp = Interpreter::new();
}

#[test]
fn type_error_keeps_message() {
    assert_eq!(TypeError::new("bad".to_string()).msg, "bad");
}

#[test]
fn function_table_later_binding_wins() {
    let mut t = FnTable::new();
    assert!(!t.contains_key("f"));
    t.insert("f".to_string(), Chunk { ops: vec![Op::Halt] });
    t.insert("g".to_string(), Chunk { ops: vec![Op::Print, Op::Halt] });
    t.insert("f".to_string(), Chunk { ops: vec![Op::Return] });
    assert_eq!(t.get("f").unwrap().ops, vec![Op::Return]);
    assert_eq!(t.get("g").unwrap().ops, vec![Op::Print, Op::Halt]);
    assert!(t.get("h").is_none());
    assert_eq!(t.copy().get("f").unwrap().ops, vec![Op::Return]);
}
