//! Stack-based VM that executes compiled chunks, one instruction per step.
//!
//! Printing and floating-point arithmetic are work for the host that drives
//! the VM: a step that needs one hands it back as a request, and the host
//! answers a float request by pushing the result with `resume`.

use vstd::prelude::*;
use crate::ast::{stmts_view, SStmt, Stmt};
use crate::compiler::{
    chunk_wf, copy_chunk, copy_op, copy_value, fns_pass, is_undefined_error, lemma_fns_pass_wf,
    lemma_main_chunk_wf, stmts_code, table_wf, undefined_message, Chunk, CompileResult, Compiler,
    FnTable, Op, Scope, Value,
};
use crate::lexer::{lexes_to, source_lexable};
use crate::parser::{parse_message, program_at, Parser};
use crate::strings::{
    concat3, debug_text, decimal_text, i64_text, int_text, str_debug, str_eq, usize_text,
};
use crate::token::Token;
use vstd::string::{StringExecFns, StringSliceAdditionalSpecFns};

verus! {

// ---------------------------------------------------------------------------
// Views

/// A value with its string as characters.
pub enum VVal {
    Int(i64),
    Float(u64),
    Bool(bool),
    Str(Seq<char>),
    Nil,
}

pub open spec fn vval(v: Value) -> VVal {
    match v {
        Value::Int(n) => VVal::Int(n),
        Value::Float(b) => VVal::Float(b),
        Value::Bool(b) => VVal::Bool(b),
        Value::Str(s) => VVal::Str(s@),
        Value::Nil => VVal::Nil,
    }
}

pub open spec fn vvals(s: Seq<Value>) -> Seq<VVal> {
    s.map_values(|v: Value| vval(v))
}

/// A call frame: its code, the index of the next instruction, and where its
/// locals start in the locals pool.
#[verifier::ext_equal]
pub struct FrameView {
    pub ops: Seq<Op>,
    pub ip: int,
    pub base: int,
}

/// The whole machine.
#[verifier::ext_equal]
pub struct VmView {
    pub stack: Seq<VVal>,
    pub locals: Seq<VVal>,
    pub fns: Map<Seq<char>, Seq<Op>>,
    pub frames: Seq<FrameView>,
}

/// The kinds of values an instruction expects.
#[derive(Debug, Clone, Copy, PartialEq, Eq)]
pub enum Kind {
    Int,
    Float,
    Bool,
    Str,
}

/// Why a step fails.
pub enum Fault {
    StackUnderflow,
    Expected(Kind, VVal),
    DivisionByZero,
    ModuloByZero,
    LocalNotSet(usize),
    UndefinedFunction(Seq<char>),
    PrintEmpty,
}

/// Floating-point work for the host.
#[derive(Debug, Clone, Copy, PartialEq, Eq)]
pub enum FloatOp {
    Add,
    Sub,
    Mul,
    Div,
    Neg,
    Lt,
    LtEq,
    Gt,
    GtEq,
    Eq,
    Neq,
}

/// What a step asks of the host next.
#[derive(Debug, PartialEq)]
pub enum Step {
    /// Step again.
    Continue,
    /// The program ended with this value.
    Halted(Value),
    /// Print this value, then step again.
    Print(Value),
    /// Apply the operation to the binary64 operands (bit patterns), push the
    /// result with `resume`, then step again. A negation's second operand is 0.
    Float(FloatOp, u64, u64),
    /// The step failed: it wanted a value of this kind and found a float,
    /// given here as its bit pattern. The host reports the error
    /// "expected <kind>, got Float(<x>)", writing the float as `{:?}` does.
    Mismatch(Kind, u64),
}

/// The outcome of a step.
pub enum Outcome {
    Continue,
    Halted(VVal),
    Print(VVal),
    Float(FloatOp, u64, u64),
    Fail(Fault),
}

pub open spec fn step_view(s: Step) -> Outcome {
    match s {
        Step::Continue => Outcome::Continue,
        Step::Halted(v) => Outcome::Halted(vval(v)),
        Step::Print(v) => Outcome::Print(vval(v)),
        Step::Float(op, a, b) => Outcome::Float(op, a, b),
        Step::Mismatch(k, b) => Outcome::Fail(Fault::Expected(k, VVal::Float(b))),
    }
}

// ---------------------------------------------------------------------------
// Stack pops

pub open spec fn pop_any(st: Seq<VVal>) -> (Seq<VVal>, Result<VVal, Fault>) {
    if st.len() == 0 {
        (st, Err(Fault::StackUnderflow))
    } else {
        (st.drop_last(), Ok(st.last()))
    }
}

pub open spec fn pop_int(st: Seq<VVal>) -> (Seq<VVal>, Result<i64, Fault>) {
    match pop_any(st) {
        (st2, Err(f)) => (st2, Err(f)),
        (st2, Ok(VVal::Int(n))) => (st2, Ok(n)),
        (st2, Ok(v)) => (st2, Err(Fault::Expected(Kind::Int, v))),
    }
}

pub open spec fn pop_float(st: Seq<VVal>) -> (Seq<VVal>, Result<u64, Fault>) {
    match pop_any(st) {
        (st2, Err(f)) => (st2, Err(f)),
        (st2, Ok(VVal::Float(b))) => (st2, Ok(b)),
        (st2, Ok(v)) => (st2, Err(Fault::Expected(Kind::Float, v))),
    }
}

pub open spec fn pop_bool(st: Seq<VVal>) -> (Seq<VVal>, Result<bool, Fault>) {
    match pop_any(st) {
        (st2, Err(f)) => (st2, Err(f)),
        (st2, Ok(VVal::Bool(b))) => (st2, Ok(b)),
        (st2, Ok(v)) => (st2, Err(Fault::Expected(Kind::Bool, v))),
    }
}

pub open spec fn pop_str(st: Seq<VVal>) -> (Seq<VVal>, Result<Seq<char>, Fault>) {
    match pop_any(st) {
        (st2, Err(f)) => (st2, Err(f)),
        (st2, Ok(VVal::Str(s))) => (st2, Ok(s)),
        (st2, Ok(v)) => (st2, Err(Fault::Expected(Kind::Str, v))),
    }
}

/// Pop the right operand, then the left one.
pub open spec fn pop2_int(st: Seq<VVal>) -> (Seq<VVal>, Result<(i64, i64), Fault>) {
    match pop_int(st) {
        (st2, Err(f)) => (st2, Err(f)),
        (st2, Ok(b)) => match pop_int(st2) {
            (st3, Err(f)) => (st3, Err(f)),
            (st3, Ok(a)) => (st3, Ok((a, b))),
        },
    }
}

pub open spec fn pop2_float(st: Seq<VVal>) -> (Seq<VVal>, Result<(u64, u64), Fault>) {
    match pop_float(st) {
        (st2, Err(f)) => (st2, Err(f)),
        (st2, Ok(b)) => match pop_float(st2) {
            (st3, Err(f)) => (st3, Err(f)),
            (st3, Ok(a)) => (st3, Ok((a, b))),
        },
    }
}

pub open spec fn pop2_bool(st: Seq<VVal>) -> (Seq<VVal>, Result<(bool, bool), Fault>) {
    match pop_bool(st) {
        (st2, Err(f)) => (st2, Err(f)),
        (st2, Ok(b)) => match pop_bool(st2) {
            (st3, Err(f)) => (st3, Err(f)),
            (st3, Ok(a)) => (st3, Ok((a, b))),
        },
    }
}

pub open spec fn pop2_str(st: Seq<VVal>) -> (Seq<VVal>, Result<(Seq<char>, Seq<char>), Fault>) {
    match pop_str(st) {
        (st2, Err(f)) => (st2, Err(f)),
        (st2, Ok(b)) => match pop_str(st2) {
            (st3, Err(f)) => (st3, Err(f)),
            (st3, Ok(a)) => (st3, Ok((a, b))),
        },
    }
}

// ---------------------------------------------------------------------------
// Instruction meanings

/// Rust's integer division and remainder: the quotient rounds toward zero.
pub open spec fn trunc_div(a: int, b: int) -> int {
    let q = abs(a) / abs(b);
    if (a < 0) != (b < 0) {
        -q
    } else {
        q
    }
}

pub open spec fn trunc_rem(a: int, b: int) -> int {
    a - b * trunc_div(a, b)
}

pub open spec fn abs(a: int) -> int {
    if a < 0 {
        -a
    } else {
        a
    }
}

pub open spec fn in_i64(x: int) -> bool {
    i64::MIN <= x <= i64::MAX
}

/// The mathematical result of an integer instruction on two operands.
pub open spec fn int_binary_value(op: Op, a: int, b: int) -> Option<VVal> {
    match op {
        Op::AddInt => Some(VVal::Int((a + b) as i64)),
        Op::SubInt => Some(VVal::Int((a - b) as i64)),
        Op::MulInt => Some(VVal::Int((a * b) as i64)),
        Op::LtInt => Some(VVal::Bool(a < b)),
        Op::LtEqInt => Some(VVal::Bool(a <= b)),
        Op::GtInt => Some(VVal::Bool(a > b)),
        Op::GtEqInt => Some(VVal::Bool(a >= b)),
        Op::EqInt => Some(VVal::Bool(a == b)),
        Op::NeqInt => Some(VVal::Bool(a != b)),
        _ => None,
    }
}

/// The integer instructions whose result can leave the `i64` range.
pub open spec fn int_result_fits(op: Op, a: int, b: int) -> bool {
    match op {
        Op::AddInt => in_i64(a + b),
        Op::SubInt => in_i64(a - b),
        Op::MulInt => in_i64(a * b),
        _ => true,
    }
}

pub open spec fn bool_binary_value(op: Op, a: bool, b: bool) -> Option<bool> {
    match op {
        Op::EqBool => Some(a == b),
        Op::NeqBool => Some(a != b),
        Op::And => Some(a && b),
        Op::Or => Some(a || b),
        _ => None,
    }
}

pub open spec fn float_binary_op(op: Op) -> Option<FloatOp> {
    match op {
        Op::AddFloat => Some(FloatOp::Add),
        Op::SubFloat => Some(FloatOp::Sub),
        Op::MulFloat => Some(FloatOp::Mul),
        Op::DivFloat => Some(FloatOp::Div),
        Op::LtFloat => Some(FloatOp::Lt),
        Op::LtEqFloat => Some(FloatOp::LtEq),
        Op::GtFloat => Some(FloatOp::Gt),
        Op::GtEqFloat => Some(FloatOp::GtEq),
        Op::EqFloat => Some(FloatOp::Eq),
        Op::NeqFloat => Some(FloatOp::Neq),
        _ => None,
    }
}

/// The locals pool after storing `v` at `idx`, growing it with nils first.
pub open spec fn store_local(locals: Seq<VVal>, idx: int, v: VVal) -> Seq<VVal> {
    let grown = if idx >= locals.len() {
        locals + Seq::new((idx + 1 - locals.len()) as nat, |i: int| VVal::Nil)
    } else {
        locals
    };
    grown.update(idx, v)
}

/// The top of the stack, or nil.
pub open spec fn top_or_nil(st: Seq<VVal>) -> VVal {
    if st.len() == 0 {
        VVal::Nil
    } else {
        st.last()
    }
}

/// Whether an instruction only works on the operand stack.
pub open spec fn is_stack_op(op: Op) -> bool {
    !(op is StoreLocal || op is LoadLocal || op is Jump || op is JumpIfFalse || op is Call || op is Return)
}

/// What an instruction that only works on the operand stack does to it.
pub open spec fn stack_effect(op: Op, stack: Seq<VVal>) -> (Seq<VVal>, Outcome) {
    match op {
        Op::Halt => (stack, Outcome::Halted(top_or_nil(stack))),
        Op::Const(v) => (stack.push(vval(v)), Outcome::Continue),
        Op::AddStr => match pop2_str(stack) {
            (st, Err(e)) => (st, Outcome::Fail(e)),
            (st, Ok((a, b))) => (st.push(VVal::Str(a + b)), Outcome::Continue),
        },
        Op::EqStr | Op::NeqStr => match pop2_str(stack) {
            (st, Err(e)) => (st, Outcome::Fail(e)),
            (st, Ok((a, b))) => (
                st.push(VVal::Bool(if op is EqStr { a == b } else { a != b })),
                Outcome::Continue,
            ),
        },
        Op::DivInt => match pop2_int(stack) {
            (st, Err(e)) => (st, Outcome::Fail(e)),
            (st, Ok((a, b))) => if b == 0 {
                (st, Outcome::Fail(Fault::DivisionByZero))
            } else {
                (st.push(VVal::Int(trunc_div(a as int, b as int) as i64)), Outcome::Continue)
            },
        },
        Op::ModInt => match pop2_int(stack) {
            (st, Err(e)) => (st, Outcome::Fail(e)),
            (st, Ok((a, b))) => if b == 0 {
                (st, Outcome::Fail(Fault::ModuloByZero))
            } else {
                (st.push(VVal::Int(trunc_rem(a as int, b as int) as i64)), Outcome::Continue)
            },
        },
        Op::NegInt => match pop_int(stack) {
            (st, Err(e)) => (st, Outcome::Fail(e)),
            (st, Ok(n)) => (st.push(VVal::Int((-n) as i64)), Outcome::Continue),
        },
        Op::NegFloat => match pop_float(stack) {
            (st, Err(e)) => (st, Outcome::Fail(e)),
            (st, Ok(x)) => (st, Outcome::Float(FloatOp::Neg, x, 0)),
        },
        Op::Not => match pop_bool(stack) {
            (st, Err(e)) => (st, Outcome::Fail(e)),
            (st, Ok(b)) => (st.push(VVal::Bool(!b)), Outcome::Continue),
        },
        Op::Print => match pop_any(stack) {
            (st, Err(_)) => (st, Outcome::Fail(Fault::PrintEmpty)),
            (st, Ok(v)) => (st, Outcome::Print(v)),
        },
        _ => if float_binary_op(op) is Some {
            match pop2_float(stack) {
                (st, Err(e)) => (st, Outcome::Fail(e)),
                (st, Ok((a, b))) => (st, Outcome::Float(float_binary_op(op).unwrap(), a, b)),
            }
        } else if int_binary_value(op, 0, 0) is Some {
            match pop2_int(stack) {
                (st, Err(e)) => (st, Outcome::Fail(e)),
                (st, Ok((a, b))) => (
                    st.push(int_binary_value(op, a as int, b as int).unwrap()),
                    Outcome::Continue,
                ),
            }
        } else {
            match pop2_bool(stack) {
                (st, Err(e)) => (st, Outcome::Fail(e)),
                (st, Ok((a, b))) => (
                    st.push(VVal::Bool(bool_binary_value(op, a, b).unwrap())),
                    Outcome::Continue,
                ),
            }
        },
    }
}

/// One step: fetch the next instruction of the top frame, advance past it,
/// and carry it out.
pub open spec fn step_spec(s: VmView) -> (VmView, Outcome) {
    let f = s.frames.last();
    let rest = s.frames.drop_last();
    let op = f.ops[f.ip];
    let f1 = FrameView { ops: f.ops, ip: f.ip + 1, base: f.base };
    let at = |stack: Seq<VVal>, locals: Seq<VVal>, top: FrameView|
        VmView { stack, locals, fns: s.fns, frames: rest.push(top) };
    match op {
        Op::StoreLocal(slot) => match pop_any(s.stack) {
            (st, Err(e)) => (at(st, s.locals, f1), Outcome::Fail(e)),
            (st, Ok(v)) => (at(st, store_local(s.locals, f.base + slot, v), f1), Outcome::Continue),
        },
        Op::LoadLocal(slot) => if f.base + slot < s.locals.len() {
            (at(s.stack.push(s.locals[f.base + slot]), s.locals, f1), Outcome::Continue)
        } else {
            (at(s.stack, s.locals, f1), Outcome::Fail(Fault::LocalNotSet(slot)))
        },
        Op::Jump(target) => (
            at(s.stack, s.locals, FrameView { ops: f.ops, ip: target as int, base: f.base }),
            Outcome::Continue,
        ),
        Op::JumpIfFalse(target) => match pop_bool(s.stack) {
            (st, Err(e)) => (at(st, s.locals, f1), Outcome::Fail(e)),
            (st, Ok(c)) => if c {
                (at(st, s.locals, f1), Outcome::Continue)
            } else {
                (
                    at(st, s.locals, FrameView { ops: f.ops, ip: target as int, base: f.base }),
                    Outcome::Continue,
                )
            },
        },
        Op::Call(name, arity) => if !s.fns.contains_key(name@) {
            (at(s.stack, s.locals, f1), Outcome::Fail(Fault::UndefinedFunction(name@)))
        } else {
            let split = if s.stack.len() >= arity {
                s.stack.len() - arity
            } else {
                0
            };
            let callee = FrameView { ops: s.fns[name@], ip: 0, base: s.locals.len() as int };
            (
                VmView {
                    stack: s.stack.subrange(0, split),
                    locals: s.locals + s.stack.subrange(split, s.stack.len() as int),
                    fns: s.fns,
                    frames: rest.push(f1).push(callee),
                },
                Outcome::Continue,
            )
        },
        Op::Return => {
            let ret = top_or_nil(s.stack);
            let st = if s.stack.len() == 0 {
                s.stack
            } else {
                s.stack.drop_last()
            };
            let locals = if f.base <= s.locals.len() {
                s.locals.subrange(0, f.base)
            } else {
                s.locals
            };
            (
                VmView { stack: st.push(ret), locals, fns: s.fns, frames: rest },
                if rest.len() == 0 {
                    Outcome::Halted(ret)
                } else {
                    Outcome::Continue
                },
            )
        },
        _ => {
            let (st, out) = stack_effect(op, s.stack);
            (at(st, s.locals, f1), out)
        },
    }
}

/// An instruction on the operand stack whose arithmetic would overflow
/// (a panic in the arithmetic itself).
pub open spec fn stack_overflows(op: Op, stack: Seq<VVal>) -> bool {
    match op {
        Op::AddInt | Op::SubInt | Op::MulInt => match pop2_int(stack) {
            (_, Ok((a, b))) => !int_result_fits(op, a as int, b as int),
            _ => false,
        },
        Op::DivInt | Op::ModInt => match pop2_int(stack) {
            (_, Ok((a, b))) => a == i64::MIN && b == -1,
            _ => false,
        },
        Op::NegInt => match pop_int(stack) {
            (_, Ok(n)) => n == i64::MIN,
            _ => false,
        },
        _ => false,
    }
}

/// The step at `s` would overflow a machine integer.
pub open spec fn step_overflows(s: VmView) -> bool {
    let f = s.frames.last();
    let op = f.ops[f.ip];
    match op {
        Op::StoreLocal(slot) => f.base + slot >= usize::MAX,
        Op::LoadLocal(slot) => f.base + slot > usize::MAX,
        _ => stack_overflows(op, s.stack),
    }
}

/// Every chunk is well formed, and every frame but the top one is inside
/// its chunk.
pub open spec fn vm_wf(s: VmView) -> bool {
    &&& table_wf(s.fns)
    &&& forall|i: int| 0 <= i < s.frames.len() ==> chunk_wf(#[trigger] s.frames[i].ops)
    &&& forall|i: int| 0 <= i < s.frames.len() ==> 0 <= #[trigger] s.frames[i].ip <= s.frames[i].ops.len()
    &&& forall|i: int| 0 <= i < s.frames.len() - 1 ==> #[trigger] s.frames[i].ip < s.frames[i].ops.len()
    &&& forall|i: int| 0 <= i < s.frames.len() ==> 0 <= #[trigger] s.frames[i].base
}

/// The machine has a next instruction to run.
pub open spec fn running(s: VmView) -> bool {
    s.frames.len() > 0 && s.frames.last().ip < s.frames.last().ops.len()
}

// ---------------------------------------------------------------------------
// Errors

#[derive(Debug, PartialEq)]
pub struct VmError(pub String);

pub type VmResult<T> = Result<T, VmError>;

pub open spec fn kind_name(k: Kind) -> Seq<char> {
    match k {
        Kind::Int => "int"@,
        Kind::Float => "float"@,
        Kind::Bool => "bool"@,
        Kind::Str => "str"@,
    }
}

/// A value as its debug text shows it, such as `Int(-3)`, `Bool(true)`,
/// `Str("a\n")` or `Nil`. A float's text is written by the host (see
/// `Step::Mismatch`); here it is only its variant's name.
pub open spec fn value_debug(v: VVal) -> Seq<char> {
    match v {
        VVal::Int(n) => "Int("@ + int_text(n as int) + ")"@,
        VVal::Float(_) => "Float"@,
        VVal::Bool(b) => if b {
            "Bool(true)"@
        } else {
            "Bool(false)"@
        },
        VVal::Str(t) => "Str("@ + (seq!['"'] + str_debug(t) + seq!['"']) + ")"@,
        VVal::Nil => "Nil"@,
    }
}

/// The message of a fault.
pub open spec fn fault_message(f: Fault) -> Seq<char> {
    match f {
        Fault::StackUnderflow => "stack underflow"@,
        Fault::Expected(k, v) => "expected "@ + kind_name(k) + ", got "@ + value_debug(v),
        Fault::DivisionByZero => "division by zero"@,
        Fault::ModuloByZero => "modulo by zero"@,
        Fault::LocalNotSet(slot) => "local slot "@ + decimal_text(slot as nat) + " not set"@,
        Fault::UndefinedFunction(name) => "undefined function '"@ + name + "'"@,
        Fault::PrintEmpty => "print: empty stack"@,
    }
}

/// The name of a kind, as error messages write it.
pub fn kind_str(k: Kind) -> (s: &'static str)
    ensures
        s@ == kind_name(k),
{
    match k {
        Kind::Int => "int",
        Kind::Float => "float",
        Kind::Bool => "bool",
        Kind::Str => "str",
    }
}

/// The debug text of a value that is not a float.
fn value_debug_text(v: &Value) -> (t: String)
    requires
        !(*v is Float),
    ensures
        t@ == value_debug(vval(*v)),
{
    match v {
        Value::Int(n) => {
            let digits = i64_text(*n);
            concat3("Int(", digits.as_str(), ")")
        },
        Value::Bool(b) => if *b {
            String::from_str("Bool(true)")
        } else {
            String::from_str("Bool(false)")
        },
        Value::Str(t) => {
            let quoted = debug_text(t.as_str());
            concat3("Str(", quoted.as_str(), ")")
        },
        _ => String::from_str("Nil"),
    }
}

/// How an instruction stops short: with an error, or on a float of the wrong
/// kind, whose text the host writes.
enum Trap {
    Error(VmError),
    Float(Kind, u64),
}

/// `t` is how the machine reports the fault `f`.
spec fn traps(t: Trap, f: Fault) -> bool {
    match f {
        Fault::Expected(k, VVal::Float(b)) => t == Trap::Float(k, b),
        _ => t matches Trap::Error(e) && e.0@ == fault_message(f),
    }
}

/// The trap for a value of the wrong kind.
fn mismatch(k: Kind, v: &Value) -> (t: Trap)
    ensures
        traps(t, Fault::Expected(k, vval(*v))),
{
    match v {
        Value::Float(b) => Trap::Float(k, *b),
        _ => {
            let mut m = concat3("expected ", kind_str(k), ", got ");
            let d = value_debug_text(v);
            m.append(d.as_str());
            Trap::Error(VmError(m))
        },
    }
}

fn fail(msg: &str) -> (t: Trap)
    ensures
        t matches Trap::Error(e) && e.0@ == msg@,
{
    Trap::Error(simple_error(msg))
}

fn simple_error(msg: &str) -> (e: VmError)
    ensures
        e.0@ == msg@,
{
    VmError(String::from_str(msg))
}

// ---------------------------------------------------------------------------
// Integer helpers

/// Rust's `a / b` on `i64`, computed on magnitudes.
fn int_div(a: i64, b: i64) -> (r: i64)
    requires
        b != 0,
        !(a == i64::MIN && b == -1),
    ensures
        r == trunc_div(a as int, b as int),
{
    let ua: u64 = if a >= 0 { a as u64 } else if a == i64::MIN { 0x8000_0000_0000_0000u64 } else { (-a) as u64 };
    let ub: u64 = if b >= 0 { b as u64 } else if b == i64::MIN { 0x8000_0000_0000_0000u64 } else { (-b) as u64 };
    assert(ua == abs(a as int) && ub == abs(b as int));
    let uq = ua / ub;
    assert(uq <= ua) by (nonlinear_arith) requires ub >= 1, uq == ua / ub;
    let q: i128 = if (a < 0) != (b < 0) { -(uq as i128) } else { uq as i128 };
    proof {
        if uq == 0x8000_0000_0000_0000u64 {
            // only |a| == 2^63 with |b| == 1
            assert(ub == 1) by (nonlinear_arith)
                requires uq == ua / ub, ua <= 0x8000_0000_0000_0000u64, ub >= 1, uq == 0x8000_0000_0000_0000u64;
        }
    }
    q as i64
}

/// Rust's `a % b` on `i64`.
fn int_rem(a: i64, b: i64) -> (r: i64)
    requires
        b != 0,
        !(a == i64::MIN && b == -1),
    ensures
        r == trunc_rem(a as int, b as int),
{
    let q = int_div(a, b);
    let ghost ua: int = abs(a as int);
    let ghost ub: int = abs(b as int);
    let ghost uq: int = ua / ub;
    assert(0 <= ua - ub * uq < ub) by (nonlinear_arith) requires ub >= 1, ua >= 0, uq == ua / ub;
    assert(abs(trunc_rem(a as int, b as int)) < ub) by (nonlinear_arith)
        requires
            ub >= 1,
            ua == abs(a as int),
            ub == abs(b as int),
            uq == ua / ub,
            0 <= ua - ub * uq < ub,
            trunc_div(a as int, b as int) == if (a < 0) != (b < 0) { -uq } else { uq },
            trunc_rem(a as int, b as int) == a - b * trunc_div(a as int, b as int);
    let r: i128 = (a as i128) - (b as i128) * (q as i128);
    r as i64
}

// ---------------------------------------------------------------------------
// The machine

struct Frame {
    chunk: Chunk,
    ip: usize,
    /// base index into `locals` for this call frame
    locals_base: usize,
}

spec fn frame_view(f: Frame) -> FrameView {
    FrameView { ops: f.chunk.ops@, ip: f.ip as int, base: f.locals_base as int }
}

spec fn frames_view(fs: Seq<Frame>) -> Seq<FrameView> {
    fs.map_values(|f: Frame| frame_view(f))
}

proof fn lemma_frames_push(fs: Seq<Frame>, f: Frame)
    ensures
        frames_view(fs.push(f)) == frames_view(fs).push(frame_view(f)),
{
    assert(frames_view(fs.push(f)) =~= frames_view(fs).push(frame_view(f)));
}

proof fn lemma_frames_pop(fs: Seq<Frame>)
    requires
        fs.len() > 0,
    ensures
        frames_view(fs.subrange(0, fs.len() - 1)) == frames_view(fs).drop_last(),
        frames_view(fs).last() == frame_view(fs[fs.len() - 1]),
{
    assert(frames_view(fs.subrange(0, fs.len() - 1)) =~= frames_view(fs).drop_last());
}

proof fn lemma_vvals_push(s: Seq<Value>, v: Value)
    ensures
        vvals(s.push(v)) == vvals(s).push(vval(v)),
{
    assert(vvals(s.push(v)) =~= vvals(s).push(vval(v)));
}

proof fn lemma_vvals_split(s: Seq<Value>, k: int)
    requires
        0 <= k <= s.len(),
    ensures
        vvals(s.subrange(0, k)) == vvals(s).subrange(0, k),
        vvals(s.subrange(k, s.len() as int)) == vvals(s).subrange(k, s.len() as int),
{
    assert(vvals(s.subrange(0, k)) =~= vvals(s).subrange(0, k));
    assert(vvals(s.subrange(k, s.len() as int)) =~= vvals(s).subrange(k, s.len() as int));
}

proof fn lemma_vvals_concat(a: Seq<Value>, b: Seq<Value>)
    ensures
        vvals(a + b) == vvals(a) + vvals(b),
{
    assert(vvals(a + b) =~= vvals(a) + vvals(b));
}

fn local_not_set(slot: usize) -> (e: VmError)
    ensures
        e.0@ == fault_message(Fault::LocalNotSet(slot)),
{
    let digits = usize_text(slot);
    VmError(concat3("local slot ", digits.as_str(), " not set"))
}

fn undefined_function(name: &String) -> (e: VmError)
    ensures
        e.0@ == fault_message(Fault::UndefinedFunction(name@)),
{
    VmError(concat3("undefined function '", name.as_str(), "'"))
}

/// What an instruction returned agrees with its outcome.
spec fn trap_result(r: Result<Step, Trap>, o: Outcome) -> bool {
    match o {
        Outcome::Fail(f) => r matches Err(t) && traps(t, f),
        _ => r matches Ok(st) && step_view(st) == o,
    }
}

/// Report a trap: an error as the step's error, a float of the wrong kind as
/// a `Mismatch` for the host.
fn settle(r: Result<Step, Trap>, Ghost(o): Ghost<Outcome>) -> (out: VmResult<Step>)
    requires
        trap_result(r, o),
    ensures
        step_result(out, o),
{
    match r {
        Ok(st) => Ok(st),
        Err(Trap::Error(e)) => Err(e),
        Err(Trap::Float(k, b)) => Ok(Step::Mismatch(k, b)),
    }
}

/// What a step returned agrees with the outcome of the step.
pub open spec fn step_result(r: VmResult<Step>, o: Outcome) -> bool {
    match o {
        Outcome::Fail(Fault::Expected(k, VVal::Float(b))) => r == Ok::<Step, VmError>(Step::Mismatch(k, b)),
        Outcome::Fail(f) => r matches Err(e) && e.0@ == fault_message(f),
        _ => r matches Ok(st) && step_view(st) == o,
    }
}

pub struct Vm {
    /// operand stack
    stack: Vec<Value>,
    /// flat locals pool: frames address it by (locals_base + slot)
    locals: Vec<Value>,
    /// compiled function chunks
    fns: FnTable,
    /// call stack
    frames: Vec<Frame>,
}

impl Vm {
    /// The machine's state.
    pub closed spec fn state(&self) -> VmView {
        VmView {
            stack: vvals(self.stack@),
            locals: vvals(self.locals@),
            fns: self.fns@,
            frames: frames_view(self.frames@),
        }
    }

    /// Everything but the operand stack is as in `other`.
    spec fn same_but_stack(self, other: Vm) -> bool {
        &&& self.locals == other.locals
        &&& self.fns == other.fns
        &&& self.frames == other.frames
    }

    pub fn new(fns: FnTable) -> (vm: Self)
        ensures
            vm.state() == (VmView {
                stack: Seq::empty(),
                locals: Seq::empty(),
                fns: fns@,
                frames: Seq::empty(),
            }),
    {
        let vm = Self { stack: Vec::new(), locals: Vec::new(), fns, frames: Vec::new() };
        assert(vm.state().stack =~= Seq::<VVal>::empty());
        assert(vm.state().locals =~= Seq::<VVal>::empty());
        assert(vm.state().frames =~= Seq::<FrameView>::empty());
        vm
    }

    /// Enter a main chunk: a frame at its first instruction, its locals from 0.
    pub fn start(&mut self, chunk: Chunk)
        ensures
            final(self).state() == (VmView {
                frames: old(self).state().frames.push(FrameView { ops: chunk.ops@, ip: 0, base: 0 }),
                ..old(self).state()
            }),
    {
        let ghost fs = self.frames@;
        let f = Frame { chunk, ip: 0, locals_base: 0 };
        self.frames.push(f);
        proof {
            lemma_frames_push(fs, f);
        }
    }

    /// Push the host's answer to a float request.
    pub fn resume(&mut self, v: Value)
        ensures
            final(self).state() == (VmView { stack: old(self).state().stack.push(vval(v)), ..old(self).state() }),
    {
        self.push_value(v);
    }

    /// Whether there is a next instruction to run.
    pub fn is_running(&self) -> (b: bool)
        ensures
            b == running(self.state()),
    {
        let n = self.frames.len();
        if n == 0 {
            return false;
        }
        let f = &self.frames[n - 1];
        proof {
            lemma_frames_pop(self.frames@);
        }
        f.ip < f.chunk.ops.len()
    }

    fn push_value(&mut self, v: Value)
        ensures
            vvals(final(self).stack@) == vvals(old(self).stack@).push(vval(v)),
            final(self).same_but_stack(*old(self)),
    {
        let ghost before = self.stack@;
        self.stack.push(v);
        proof {
            lemma_vvals_push(before, v);
        }
    }

    fn pop(&mut self) -> (r: Result<Value, Trap>)
        ensures
            vvals(final(self).stack@) == pop_any(vvals(old(self).stack@)).0,
            match pop_any(vvals(old(self).stack@)).1 {
                Ok(v) => r matches Ok(x) && vval(x) == v,
                Err(f) => r matches Err(t) && traps(t, f),
            },
            final(self).same_but_stack(*old(self)),
    {
        let ghost before = self.stack@;
        match self.stack.pop() {
            Some(v) => {
                assert(vvals(self.stack@) =~= vvals(before).drop_last());
                Ok(v)
            },
            None => Err(fail("stack underflow")),
        }
    }

    /// The popped top of the stack, or nil on an empty stack.
    fn pop_or_nil(&mut self) -> (v: Value)
        ensures
            vval(v) == top_or_nil(vvals(old(self).stack@)),
            vvals(final(self).stack@) == pop_any(vvals(old(self).stack@)).0,
            final(self).same_but_stack(*old(self)),
    {
        match self.pop() {
            Ok(v) => v,
            Err(_) => Value::Nil,
        }
    }

    fn pop_int(&mut self) -> (r: Result<i64, Trap>)
        ensures
            vvals(final(self).stack@) == pop_int(vvals(old(self).stack@)).0,
            match pop_int(vvals(old(self).stack@)).1 {
                Ok(n) => r == Ok::<i64, Trap>(n),
                Err(f) => r matches Err(t) && traps(t, f),
            },
            final(self).same_but_stack(*old(self)),
    {
        match self.pop()? {
            Value::Int(n) => Ok(n),
            v => Err(mismatch(Kind::Int, &v)),
        }
    }

    fn pop_float(&mut self) -> (r: Result<u64, Trap>)
        ensures
            vvals(final(self).stack@) == pop_float(vvals(old(self).stack@)).0,
            match pop_float(vvals(old(self).stack@)).1 {
                Ok(x) => r == Ok::<u64, Trap>(x),
                Err(f) => r matches Err(t) && traps(t, f),
            },
            final(self).same_but_stack(*old(self)),
    {
        match self.pop()? {
            Value::Float(x) => Ok(x),
            v => Err(mismatch(Kind::Float, &v)),
        }
    }

    fn pop_bool(&mut self) -> (r: Result<bool, Trap>)
        ensures
            vvals(final(self).stack@) == pop_bool(vvals(old(self).stack@)).0,
            match pop_bool(vvals(old(self).stack@)).1 {
                Ok(b) => r == Ok::<bool, Trap>(b),
                Err(f) => r matches Err(t) && traps(t, f),
            },
            final(self).same_but_stack(*old(self)),
    {
        match self.pop()? {
            Value::Bool(b) => Ok(b),
            v => Err(mismatch(Kind::Bool, &v)),
        }
    }

    fn pop_str(&mut self) -> (r: Result<String, Trap>)
        ensures
            vvals(final(self).stack@) == pop_str(vvals(old(self).stack@)).0,
            match pop_str(vvals(old(self).stack@)).1 {
                Ok(t) => r matches Ok(x) && x@ == t,
                Err(f) => r matches Err(t) && traps(t, f),
            },
            final(self).same_but_stack(*old(self)),
    {
        match self.pop()? {
            Value::Str(t) => Ok(t),
            v => Err(mismatch(Kind::Str, &v)),
        }
    }

    fn pop2_int(&mut self) -> (r: Result<(i64, i64), Trap>)
        ensures
            vvals(final(self).stack@) == pop2_int(vvals(old(self).stack@)).0,
            match pop2_int(vvals(old(self).stack@)).1 {
                Ok(p) => r == Ok::<(i64, i64), Trap>(p),
                Err(f) => r matches Err(t) && traps(t, f),
            },
            final(self).same_but_stack(*old(self)),
    {
        let b = self.pop_int()?;
        let a = self.pop_int()?;
        Ok((a, b))
    }

    fn pop2_float(&mut self) -> (r: Result<(u64, u64), Trap>)
        ensures
            vvals(final(self).stack@) == pop2_float(vvals(old(self).stack@)).0,
            match pop2_float(vvals(old(self).stack@)).1 {
                Ok(p) => r == Ok::<(u64, u64), Trap>(p),
                Err(f) => r matches Err(t) && traps(t, f),
            },
            final(self).same_but_stack(*old(self)),
    {
        let b = self.pop_float()?;
        let a = self.pop_float()?;
        Ok((a, b))
    }

    fn pop2_bool(&mut self) -> (r: Result<(bool, bool), Trap>)
        ensures
            vvals(final(self).stack@) == pop2_bool(vvals(old(self).stack@)).0,
            match pop2_bool(vvals(old(self).stack@)).1 {
                Ok(p) => r == Ok::<(bool, bool), Trap>(p),
                Err(f) => r matches Err(t) && traps(t, f),
            },
            final(self).same_but_stack(*old(self)),
    {
        let b = self.pop_bool()?;
        let a = self.pop_bool()?;
        Ok((a, b))
    }

    fn pop2_str(&mut self) -> (r: Result<(String, String), Trap>)
        ensures
            vvals(final(self).stack@) == pop2_str(vvals(old(self).stack@)).0,
            match pop2_str(vvals(old(self).stack@)).1 {
                Ok((a, b)) => r matches Ok((x, y)) && x@ == a && y@ == b,
                Err(f) => r matches Err(t) && traps(t, f),
            },
            final(self).same_but_stack(*old(self)),
    {
        let b = self.pop_str()?;
        let a = self.pop_str()?;
        Ok((a, b))
    }

    /// Pop two float operands and hand them to the host with the operation.
    fn float_request(&mut self, op: FloatOp) -> (r: Result<Step, Trap>)
        ensures
            vvals(final(self).stack@) == pop2_float(vvals(old(self).stack@)).0,
            match pop2_float(vvals(old(self).stack@)).1 {
                Ok((a, b)) => r == Ok::<Step, Trap>(Step::Float(op, a, b)),
                Err(f) => r matches Err(t) && traps(t, f),
            },
            final(self).same_but_stack(*old(self)),
    {
        let (a, b) = self.pop2_float()?;
        Ok(Step::Float(op, a, b))
    }
}

impl Vm {
    /// Carry out an instruction that works only on the operand stack.
    #[verifier::spinoff_prover]
    fn exec_stack_op(&mut self, op: &Op) -> (r: Result<Step, Trap>)
        requires
            is_stack_op(*op),
            !stack_overflows(*op, vvals(old(self).stack@)),
        ensures
            vvals(final(self).stack@) == stack_effect(*op, vvals(old(self).stack@)).0,
            trap_result(r, stack_effect(*op, vvals(old(self).stack@)).1),
            final(self).same_but_stack(*old(self)),
    {
        match op {
            Op::Halt => {
                let n = self.stack.len();
                let v = if n == 0 {
                    Value::Nil
                } else {
                    copy_value(&self.stack[n - 1])
                };
                Ok(Step::Halted(v))
            },
            Op::Const(v) => {
                self.push_value(copy_value(v));
                Ok(Step::Continue)
            },
            Op::AddStr => {
                let (a, b) = self.pop2_str()?;
                let mut joined = a;
                joined.append(b.as_str());
                self.push_value(Value::Str(joined));
                Ok(Step::Continue)
            },
            Op::EqStr => {
                let (a, b) = self.pop2_str()?;
                let eq = str_eq(a.as_str(), b.as_str());
                self.push_value(Value::Bool(eq));
                Ok(Step::Continue)
            },
            Op::NeqStr => {
                let (a, b) = self.pop2_str()?;
                let eq = str_eq(a.as_str(), b.as_str());
                self.push_value(Value::Bool(!eq));
                Ok(Step::Continue)
            },
            Op::DivInt => {
                let (a, b) = self.pop2_int()?;
                if b == 0 {
                    return Err(fail("division by zero"));
                }
                self.push_value(Value::Int(int_div(a, b)));
                Ok(Step::Continue)
            },
            Op::ModInt => {
                let (a, b) = self.pop2_int()?;
                if b == 0 {
                    return Err(fail("modulo by zero"));
                }
                self.push_value(Value::Int(int_rem(a, b)));
                Ok(Step::Continue)
            },
            Op::NegInt => {
                let n = self.pop_int()?;
                self.push_value(Value::Int(-n));
                Ok(Step::Continue)
            },
            Op::NegFloat => {
                let x = self.pop_float()?;
                Ok(Step::Float(FloatOp::Neg, x, 0))
            },
            Op::Not => {
                let b = self.pop_bool()?;
                self.push_value(Value::Bool(!b));
                Ok(Step::Continue)
            },
            Op::Print => match self.pop() {
                Ok(v) => Ok(Step::Print(v)),
                Err(_) => Err(fail("print: empty stack")),
            },
            Op::AddFloat => self.float_request(FloatOp::Add),
            Op::SubFloat => self.float_request(FloatOp::Sub),
            Op::MulFloat => self.float_request(FloatOp::Mul),
            Op::DivFloat => self.float_request(FloatOp::Div),
            Op::LtFloat => self.float_request(FloatOp::Lt),
            Op::LtEqFloat => self.float_request(FloatOp::LtEq),
            Op::GtFloat => self.float_request(FloatOp::Gt),
            Op::GtEqFloat => self.float_request(FloatOp::GtEq),
            Op::EqFloat => self.float_request(FloatOp::Eq),
            Op::NeqFloat => self.float_request(FloatOp::Neq),
            Op::AddInt => {
                let (a, b) = self.pop2_int()?;
                self.push_value(Value::Int(a + b));
                Ok(Step::Continue)
            },
            Op::SubInt => {
                let (a, b) = self.pop2_int()?;
                self.push_value(Value::Int(a - b));
                Ok(Step::Continue)
            },
            Op::MulInt => {
                let (a, b) = self.pop2_int()?;
                self.push_value(Value::Int(a * b));
                Ok(Step::Continue)
            },
            Op::LtInt => {
                let (a, b) = self.pop2_int()?;
                self.push_value(Value::Bool(a < b));
                Ok(Step::Continue)
            },
            Op::LtEqInt => {
                let (a, b) = self.pop2_int()?;
                self.push_value(Value::Bool(a <= b));
                Ok(Step::Continue)
            },
            Op::GtInt => {
                let (a, b) = self.pop2_int()?;
                self.push_value(Value::Bool(a > b));
                Ok(Step::Continue)
            },
            Op::GtEqInt => {
                let (a, b) = self.pop2_int()?;
                self.push_value(Value::Bool(a >= b));
                Ok(Step::Continue)
            },
            Op::EqInt => {
                let (a, b) = self.pop2_int()?;
                self.push_value(Value::Bool(a == b));
                Ok(Step::Continue)
            },
            Op::NeqInt => {
                let (a, b) = self.pop2_int()?;
                self.push_value(Value::Bool(a != b));
                Ok(Step::Continue)
            },
            Op::EqBool => {
                let (a, b) = self.pop2_bool()?;
                self.push_value(Value::Bool(a == b));
                Ok(Step::Continue)
            },
            Op::NeqBool => {
                let (a, b) = self.pop2_bool()?;
                self.push_value(Value::Bool(a != b));
                Ok(Step::Continue)
            },
            Op::And => {
                let (a, b) = self.pop2_bool()?;
                self.push_value(Value::Bool(a && b));
                Ok(Step::Continue)
            },
            Op::Or => {
                let (a, b) = self.pop2_bool()?;
                self.push_value(Value::Bool(a || b));
                Ok(Step::Continue)
            },
            // locals, jumps, calls and returns: `step` carries them out
            _ => Ok(Step::Continue),
        }
    }
}

impl Vm {
    /// Store `v` in local `idx`, first growing the pool with nils up to it.
    fn set_local(&mut self, idx: usize, v: Value)
        requires
            idx < usize::MAX,
        ensures
            vvals(final(self).locals@) == store_local(vvals(old(self).locals@), idx as int, vval(v)),
            final(self).stack == old(self).stack,
            final(self).fns == old(self).fns,
            final(self).frames == old(self).frames,
    {
        let ghost l0 = vvals(self.locals@);
        let ghost grown = if idx >= l0.len() {
            l0 + Seq::new((idx + 1 - l0.len()) as nat, |i: int| VVal::Nil)
        } else {
            l0
        };
        while self.locals.len() <= idx
            invariant
                idx < usize::MAX,
                l0 == vvals(old(self).locals@),
                grown == (if idx >= l0.len() {
                    l0 + Seq::new((idx + 1 - l0.len()) as nat, |i: int| VVal::Nil)
                } else {
                    l0
                }),
                l0.len() <= idx ==> self.locals@.len() <= idx + 1,
                self.locals@.len() >= l0.len(),
                l0.len() <= idx ==> vvals(self.locals@) == grown.subrange(0, self.locals@.len() as int),
                l0.len() > idx ==> self.locals@ == old(self).locals@,
                self.stack == old(self).stack,
                self.fns == old(self).fns,
                self.frames == old(self).frames,
            decreases idx + 1 - self.locals@.len(),
        {
            let ghost before = self.locals@;
            self.locals.push(Value::Nil);
            proof {
                lemma_vvals_push(before, Value::Nil);
                assert(vvals(self.locals@) =~= grown.subrange(0, self.locals@.len() as int));
            }
        }
        proof {
            if l0.len() <= idx {
                assert(grown.subrange(0, self.locals@.len() as int) =~= grown);
            }
        }
        let ghost before = self.locals@;
        self.locals.set(idx, v);
        proof {
            assert(vvals(self.locals@) =~= vvals(before).update(idx as int, vval(v)));
        }
    }

    /// Run the next instruction of the top frame.
    ///
    /// Arithmetic that would leave the range of `i64` is left out (see
    /// `next_step_overflows`), and so is a machine with no instruction left
    /// to run. Machines that `load` gives are well formed, and stepping keeps
    /// them so (`lemma_step_wf`): they always have a next instruction until
    /// they halt.
    pub fn step(&mut self) -> (r: VmResult<Step>)
        requires
            running(old(self).state()),
            !step_overflows(old(self).state()),
        ensures
            final(self).state() == step_spec(old(self).state()).0,
            step_result(r, step_spec(old(self).state()).1),
    {
        let ghost o = step_spec(self.state()).1;
        let r = self.run_instruction();
        settle(r, Ghost(o))
    }

    fn run_instruction(&mut self) -> (r: Result<Step, Trap>)
        requires
            running(old(self).state()),
            !step_overflows(old(self).state()),
        ensures
            final(self).state() == step_spec(old(self).state()).0,
            trap_result(r, step_spec(old(self).state()).1),
    {
        let ghost s = self.state();
        let ghost fs = self.frames@;
        proof {
            lemma_frames_pop(fs);
        }
        let mut f = self.frames.pop().unwrap();
        let ghost rest = self.frames@;
        let n_ops = f.chunk.ops.len();
        let op = copy_op(&f.chunk.ops[f.ip]);
        f.ip = f.ip + 1;
        let ghost f1 = frame_view(f);
        match &op {
            Op::StoreLocal(slot) => {
                let idx = f.locals_base + *slot;
                let r = match self.pop() {
                    Ok(v) => {
                        self.set_local(idx, v);
                        Ok(Step::Continue)
                    },
                    Err(e) => Err(e),
                };
                self.frames.push(f);
                proof {
                    lemma_frames_push(rest, f);
                }
                r
            },
            Op::LoadLocal(slot) => {
                let idx = f.locals_base + *slot;
                let r = if idx < self.locals.len() {
                    let v = copy_value(&self.locals[idx]);
                    self.push_value(v);
                    Ok(Step::Continue)
                } else {
                    Err(Trap::Error(local_not_set(*slot)))
                };
                self.frames.push(f);
                proof {
                    lemma_frames_push(rest, f);
                }
                r
            },
            Op::Jump(target) => {
                f.ip = *target;
                self.frames.push(f);
                proof {
                    lemma_frames_push(rest, f);
                }
                Ok(Step::Continue)
            },
            Op::JumpIfFalse(target) => {
                let r = match self.pop_bool() {
                    Ok(c) => {
                        if !c {
                            f.ip = *target;
                        }
                        Ok(Step::Continue)
                    },
                    Err(e) => Err(e),
                };
                self.frames.push(f);
                proof {
                    lemma_frames_push(rest, f);
                }
                r
            },
            Op::Call(name, arity) => {
                let callee = match self.fns.get(name.as_str()) {
                    Some(c) => Some(copy_chunk(c)),
                    None => None,
                };
                match callee {
                    None => {
                        self.frames.push(f);
                        proof {
                            lemma_frames_push(rest, f);
                        }
                        Err(Trap::Error(undefined_function(name)))
                    },
                    Some(chunk) => {
                        let n = self.stack.len();
                        let split = if n >= *arity {
                            n - *arity
                        } else {
                            0
                        };
                        let ghost st0 = self.stack@;
                        let ghost l0 = self.locals@;
                        let mut args = self.stack.split_off(split);
                        let base = self.locals.len();
                        let ghost a0 = args@;
                        self.locals.append(&mut args);
                        self.frames.push(f);
                        let g = Frame { chunk, ip: 0, locals_base: base };
                        let ghost fs1 = self.frames@;
                        self.frames.push(g);
                        proof {
                            lemma_vvals_split(st0, split as int);
                            lemma_vvals_concat(l0, a0);
                            lemma_frames_push(rest, f);
                            lemma_frames_push(fs1, g);
                        }
                        Ok(Step::Continue)
                    },
                }
            },
            Op::Return => {
                let ret = self.pop_or_nil();
                let ghost l0 = self.locals@;
                self.locals.truncate(f.locals_base);
                proof {
                    if f.locals_base <= l0.len() {
                        lemma_vvals_split(l0, f.locals_base as int);
                    }
                }
                if self.frames.len() == 0 {
                    let out = copy_value(&ret);
                    self.push_value(ret);
                    Ok(Step::Halted(out))
                } else {
                    self.push_value(ret);
                    Ok(Step::Continue)
                }
            },
            _ => {
                let r = self.exec_stack_op(&op);
                self.frames.push(f);
                proof {
                    lemma_frames_push(rest, f);
                }
                r
            },
        }
    }
}

impl Vm {
    /// Whether the next step's arithmetic would leave its machine integer:
    /// an `i64` result out of range or a local index past `usize`. The host
    /// stops there, as an arithmetic overflow would.
    pub fn next_step_overflows(&self) -> (b: bool)
        requires
            running(self.state()),
        ensures
            b == step_overflows(self.state()),
    {
        let n = self.frames.len();
        let f = &self.frames[n - 1];
        proof {
            lemma_frames_pop(self.frames@);
        }
        let m = self.stack.len();
        let ghost st = vvals(self.stack@);
        let top1: Option<i64> = if m >= 1 {
            match &self.stack[m - 1] {
                Value::Int(x) => Some(*x),
                _ => None,
            }
        } else {
            None
        };
        let top2: Option<(i64, i64)> = if m >= 2 {
            match (&self.stack[m - 2], &self.stack[m - 1]) {
                (Value::Int(a), Value::Int(b)) => Some((*a, *b)),
                _ => None,
            }
        } else {
            None
        };
        proof {
            if m >= 1 {
                assert(st.last() == vval(self.stack@[m - 1]));
            }
            if m >= 2 {
                assert(st.drop_last().last() == vval(self.stack@[m - 2]));
            }
            assert(match top1 {
                Some(x) => pop_int(st).1 == Ok::<i64, Fault>(x),
                None => pop_int(st).1 is Err,
            });
            assert(match top2 {
                Some(p) => pop2_int(st).1 == Ok::<(i64, i64), Fault>(p),
                None => pop2_int(st).1 is Err,
            });
        }
        match &f.chunk.ops[f.ip] {
            Op::StoreLocal(slot) => *slot >= usize::MAX - f.locals_base,
            Op::LoadLocal(slot) => *slot > usize::MAX - f.locals_base,
            Op::AddInt => match top2 {
                Some((a, b)) => {
                    let sum = (a as i128) + (b as i128);
                    sum < (i64::MIN as i128) || sum > (i64::MAX as i128)
                },
                None => false,
            },
            Op::SubInt => match top2 {
                Some((a, b)) => {
                    let diff = (a as i128) - (b as i128);
                    diff < (i64::MIN as i128) || diff > (i64::MAX as i128)
                },
                None => false,
            },
            Op::MulInt => match top2 {
                Some((a, b)) => {
                    assert(-0x4000_0000_0000_0000_0000_0000_0000_0000 <= (a as int) * (b as int)
                        <= 0x4000_0000_0000_0000_0000_0000_0000_0000) by (nonlinear_arith)
                        requires
                            i64::MIN <= a <= i64::MAX,
                            i64::MIN <= b <= i64::MAX,
                    {
                        assert(-0x8000_0000_0000_0000 <= a <= 0x8000_0000_0000_0000);
                    }
                    let prod = (a as i128) * (b as i128);
                    prod < (i64::MIN as i128) || prod > (i64::MAX as i128)
                },
                None => false,
            },
            Op::DivInt | Op::ModInt => match top2 {
                Some((a, b)) => a == i64::MIN && b == -1,
                None => false,
            },
            Op::NegInt => match top1 {
                Some(x) => x == i64::MIN,
                None => false,
            },
            _ => false,
        }
    }
}

/// A step keeps the machine well formed; and a step that asks to go on
/// (to continue, to print, or for float work) leaves a next instruction to
/// run, so the host can step again.
pub proof fn lemma_step_wf(s: VmView)
    requires
        vm_wf(s),
        running(s),
    ensures
        vm_wf(step_spec(s).0),
        (step_spec(s).1 is Continue || step_spec(s).1 is Print || step_spec(s).1 is Float)
            ==> running(step_spec(s).0),
{
    let n = s.frames.len();
    let f = s.frames[n - 1];
    assert(chunk_wf(f.ops));
    assert(0 <= f.base);
    let op = f.ops[f.ip];
    assert(!(op is Halt || op is Return) ==> f.ip + 1 < f.ops.len());
    let rest = s.frames.drop_last();
    let s2 = step_spec(s).0;
    match op {
        Op::Call(name, arity) => {
            if s.fns.contains_key(name@) {
                assert(chunk_wf(s.fns[name@]));
            }
        },
        Op::Jump(t) => {
            assert(t < f.ops.len());
        },
        Op::JumpIfFalse(t) => {
            assert(t < f.ops.len());
        },
        _ => {},
    }
    assert forall|i: int| 0 <= i < s2.frames.len() implies {
        &&& chunk_wf(#[trigger] s2.frames[i].ops)
        &&& 0 <= s2.frames[i].ip <= s2.frames[i].ops.len()
        &&& (i < s2.frames.len() - 1 ==> s2.frames[i].ip < s2.frames[i].ops.len())
        &&& 0 <= s2.frames[i].base
    } by {
        if i < n - 1 {
            assert(s2.frames[i] == s.frames[i]);
        }
    }
}

// ---------------------------------------------------------------------------
// Loading a program

/// The machine for a parsed program: ready at the first instruction of its
/// main chunk, with its compiled functions; or the undefined variable that
/// stops its compilation.
pub open spec fn program_machine(ss: Seq<SStmt>) -> Result<VmView, Seq<char>> {
    match fns_pass(ss, Map::empty()) {
        (_, Some(n)) => Err(n),
        (table, None) => match stmts_code(Scope { locals: Seq::empty(), next_slot: 0 }, ss, Seq::empty()) {
            Err(n) => Err(n),
            Ok((c, _)) => Ok(
                VmView {
                    stack: Seq::empty(),
                    locals: Seq::empty(),
                    fns: table,
                    frames: seq![FrameView { ops: c.push(Op::Halt), ip: 0, base: 0 }],
                },
            ),
        },
    }
}

/// Compile a parsed program and set up a machine at the first instruction
/// of its main chunk. The machine is well formed, so the host can step it.
pub fn load_program(stmts: &[Stmt]) -> (r: CompileResult<Vm>)
    ensures
        match program_machine(stmts_view(stmts@)) {
            Ok(m) => r matches Ok(vm) && vm.state() == m,
            Err(n) => r matches Err(e) && is_undefined_error(e, n),
        },
        r matches Ok(vm) ==> vm_wf(vm.state()) && running(vm.state()),
{
    let ghost ss = stmts_view(stmts@);
    let mut compiler = Compiler::new();
    let chunk = compiler.compile_program(stmts)?;
    proof {
        lemma_fns_pass_wf(ss, Map::empty());
        lemma_main_chunk_wf(Scope { locals: Seq::empty(), next_slot: 0 }, ss);
    }
    let mut vm = Vm::new(compiler.into_fns());
    vm.start(chunk);
    assert(vm.state().frames =~= seq![FrameView { ops: chunk.ops@, ip: 0, base: 0 }]);
    Ok(vm)
}

/// What loading a program with tokens `t` gives: the machine of
/// `program_machine`, or the first error, from the parser or the compiler.
pub open spec fn loaded(t: Seq<Token>, r: VmResult<Vm>) -> bool {
    match program_at(t, 0, Seq::empty()) {
        Err(f) => r matches Err(e) && e.0@ == "parse error: "@ + parse_message(f.1, t[f.0].kind),
        Ok((ss, _)) => match program_machine(ss) {
            Ok(m) => r matches Ok(vm) && vm.state() == m,
            Err(n) => r matches Err(e) && e.0@ == "compile error: "@ + undefined_message(n),
        },
    }
}

/// Parse and compile `src`, and set up a machine at the first instruction
/// of its main chunk. The machine is well formed, so the host can step it.
pub fn load(src: &str) -> (r: VmResult<Vm>)
    requires
        src.spec_bytes().len() < usize::MAX,
        source_lexable(src),
    ensures
        exists|t: Seq<Token>| #[trigger] lexes_to(src, t) && loaded(t, r),
        r matches Ok(vm) ==> vm_wf(vm.state()) && running(vm.state()),
{
    let mut parser = Parser::new(src);
    let ghost t = parser.tokens();
    let r = match parser.parse_program() {
        Err(e) => {
            let mut msg = String::from_str("parse error: ");
            msg.append(e.msg.as_str());
            Err(VmError(msg))
        },
        Ok(stmts) => match load_program(stmts.as_slice()) {
            Err(e) => {
                let mut msg = String::from_str("compile error: ");
                msg.append(e.0.as_str());
                Err(VmError(msg))
            },
            Ok(vm) => Ok(vm),
        },
    };
    assert(lexes_to(src, t) && loaded(t, r));
    r
}

} // verus!
