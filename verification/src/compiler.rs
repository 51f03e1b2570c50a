//! Bytecode compiler: walks the syntax tree and emits a flat vector of
//! instructions. The VM (vm.rs) executes these instructions on a value stack.

use vstd::prelude::*;
use crate::ast::{
    copy_ty, expr_view, exprs_view, lemma_exprs_view_index, lemma_stmts_view_index, stmt_view, stmts_view,
    BinOp, Expr, SExpr, SStmt, Stmt, Ty, UnOp,
};
use crate::strings::{concat3, i64_text, int_text, str_eq};

verus! {

// ---------------------------------------------------------------------------
// Values and instructions

/// A runtime value. A float holds the bit pattern of its binary64 value.
#[derive(Debug, Clone, PartialEq)]
pub enum Value {
    Int(i64),
    Float(u64),
    Bool(bool),
    Str(String),
    Nil,
}

#[derive(Debug, Clone, PartialEq)]
pub enum Op {
    // push a constant onto the stack
    Const(Value),
    // arithmetic
    AddInt,
    AddFloat,
    AddStr,
    SubInt,
    SubFloat,
    MulInt,
    MulFloat,
    DivInt,
    DivFloat,
    ModInt,
    // comparison (all produce Bool on stack)
    EqInt,
    EqFloat,
    EqBool,
    EqStr,
    NeqInt,
    NeqFloat,
    NeqBool,
    NeqStr,
    LtInt,
    LtFloat,
    LtEqInt,
    LtEqFloat,
    GtInt,
    GtFloat,
    GtEqInt,
    GtEqFloat,
    // logical
    And,
    Or,
    Not,
    // unary
    NegInt,
    NegFloat,
    // variables: index into the frame's locals
    LoadLocal(usize),
    StoreLocal(usize),
    // control flow: operand is an absolute instruction index
    Jump(usize),
    JumpIfFalse(usize),
    // functions: name, argument count
    Call(String, usize),
    Return,
    // built-ins
    Print,
    // marks the end of the program
    Halt,
}

/// A compiled unit.
#[derive(Debug, Clone, Default)]
pub struct Chunk {
    pub ops: Vec<Op>,
}

pub fn copy_value(v: &Value) -> (r: Value)
    ensures
        r == *v,
{
    match v {
        Value::Int(n) => Value::Int(*n),
        Value::Float(b) => Value::Float(*b),
        Value::Bool(b) => Value::Bool(*b),
        Value::Str(s) => Value::Str(s.clone()),
        Value::Nil => Value::Nil,
    }
}

pub fn copy_op(op: &Op) -> (r: Op)
    ensures
        r == *op,
{
    match op {
        Op::Const(v) => Op::Const(copy_value(v)),
        Op::AddInt => Op::AddInt,
        Op::AddFloat => Op::AddFloat,
        Op::AddStr => Op::AddStr,
        Op::SubInt => Op::SubInt,
        Op::SubFloat => Op::SubFloat,
        Op::MulInt => Op::MulInt,
        Op::MulFloat => Op::MulFloat,
        Op::DivInt => Op::DivInt,
        Op::DivFloat => Op::DivFloat,
        Op::ModInt => Op::ModInt,
        Op::EqInt => Op::EqInt,
        Op::EqFloat => Op::EqFloat,
        Op::EqBool => Op::EqBool,
        Op::EqStr => Op::EqStr,
        Op::NeqInt => Op::NeqInt,
        Op::NeqFloat => Op::NeqFloat,
        Op::NeqBool => Op::NeqBool,
        Op::NeqStr => Op::NeqStr,
        Op::LtInt => Op::LtInt,
        Op::LtFloat => Op::LtFloat,
        Op::LtEqInt => Op::LtEqInt,
        Op::LtEqFloat => Op::LtEqFloat,
        Op::GtInt => Op::GtInt,
        Op::GtFloat => Op::GtFloat,
        Op::GtEqInt => Op::GtEqInt,
        Op::GtEqFloat => Op::GtEqFloat,
        Op::And => Op::And,
        Op::Or => Op::Or,
        Op::Not => Op::Not,
        Op::NegInt => Op::NegInt,
        Op::NegFloat => Op::NegFloat,
        Op::LoadLocal(s) => Op::LoadLocal(*s),
        Op::StoreLocal(s) => Op::StoreLocal(*s),
        Op::Jump(t) => Op::Jump(*t),
        Op::JumpIfFalse(t) => Op::JumpIfFalse(*t),
        Op::Call(name, n) => Op::Call(name.clone(), *n),
        Op::Return => Op::Return,
        Op::Print => Op::Print,
        Op::Halt => Op::Halt,
    }
}

/// The text a value prints as; `None` for a float, whose text the host
/// writes as Rust prints an `f64`.
pub open spec fn display_text(v: Value) -> Option<Seq<char>> {
    match v {
        Value::Int(n) => Some(int_text(n as int)),
        Value::Float(_) => None,
        Value::Bool(b) => Some(if b { "true"@ } else { "false"@ }),
        Value::Str(s) => Some(s@),
        Value::Nil => Some("nil"@),
    }
}

/// The text a value prints as, but for a float.
pub fn show_text(v: &Value) -> (r: Option<String>)
    ensures
        match display_text(*v) {
            Some(t) => r matches Some(x) && x@ == t,
            None => r is None,
        },
{
    match v {
        Value::Int(n) => Some(i64_text(*n)),
        Value::Float(_) => None,
        Value::Bool(b) => Some(String::from_str(if *b { "true" } else { "false" })),
        Value::Str(s) => Some(s.clone()),
        Value::Nil => Some(String::from_str("nil")),
    }
}

/// A copy of a chunk.
pub fn copy_chunk(c: &Chunk) -> (r: Chunk)
    ensures
        r.ops@ == c.ops@,
{
    let mut ops: Vec<Op> = Vec::new();
    let mut i: usize = 0;
    while i < c.ops.len()
        invariant
            i <= c.ops@.len(),
            ops@ =~= c.ops@.take(i as int),
        decreases c.ops@.len() - i,
    {
        ops.push(copy_op(&c.ops[i]));
        i = i + 1;
    }
    assert(c.ops@.take(c.ops@.len() as int) =~= c.ops@);
    Chunk { ops }
}

/// A jump instruction with its target replaced; other instructions unchanged.
pub open spec fn retarget(op: Op, target: int) -> Op {
    match op {
        Op::Jump(_) => Op::Jump(target as usize),
        Op::JumpIfFalse(_) => Op::JumpIfFalse(target as usize),
        _ => op,
    }
}

/// Point the jump at `idx` to the end of the code.
pub open spec fn patch(ops: Seq<Op>, idx: int) -> Seq<Op> {
    ops.update(idx, retarget(ops[idx], ops.len() as int))
}

pub open spec fn is_jump(op: Op) -> bool {
    op is Jump || op is JumpIfFalse
}

impl Chunk {
    fn emit(&mut self, op: Op) -> (i: usize)
        ensures
            final(self).ops@ == old(self).ops@.push(op),
            i == old(self).ops@.len(),
    {
        self.ops.push(op);
        self.ops.len() - 1
    }

    /// Emit a jump whose target is patched later; its index.
    fn emit_jump(&mut self, op: Op) -> (i: usize)
        ensures
            final(self).ops@ == old(self).ops@.push(op),
            i == old(self).ops@.len(),
    {
        self.emit(op)
    }

    /// Point the jump at `idx` to the current end.
    fn patch_jump(&mut self, idx: usize)
        requires
            idx < old(self).ops@.len(),
            is_jump(old(self).ops@[idx as int]),
        ensures
            final(self).ops@ == patch(old(self).ops@, idx as int),
    {
        let target = self.ops.len();
        let new_op = match &self.ops[idx] {
            Op::Jump(_) => Op::Jump(target),
            _ => Op::JumpIfFalse(target),
        };
        self.ops.set(idx, new_op);
    }
}

// ---------------------------------------------------------------------------
// Compile errors

#[derive(Debug, PartialEq)]
pub struct CompileError(pub String);

pub type CompileResult<T> = Result<T, CompileError>;

/// The message for a use of an undefined variable.
pub open spec fn undefined_message(name: Seq<char>) -> Seq<char> {
    "undefined variable '"@ + name + "'"@
}

pub open spec fn is_undefined_error(e: CompileError, name: Seq<char>) -> bool {
    e.0@ == undefined_message(name)
}

fn undefined_error(name: &String) -> (e: CompileError)
    ensures
        is_undefined_error(e, name@),
{
    CompileError(concat3("undefined variable '", name.as_str(), "'"))
}

// ---------------------------------------------------------------------------
// The compilation scheme

/// The slot of the innermost local called `name`.
pub open spec fn resolve(locals: Seq<Local>, name: Seq<char>) -> Option<usize>
    decreases locals.len(),
{
    if locals.len() == 0 {
        None
    } else if locals.last().0@ == name {
        Some(locals.last().1)
    } else {
        resolve(locals.drop_last(), name)
    }
}

/// The static type of a name: the type of its innermost local, where known.
pub open spec fn local_type(locals: Seq<Local>, name: Seq<char>) -> Option<Ty>
    decreases locals.len(),
{
    if locals.len() == 0 {
        None
    } else if locals.last().0@ == name {
        locals.last().2
    } else {
        local_type(locals.drop_last(), name)
    }
}

/// The type of an arithmetic result: the left operand's type where known,
/// else the right one's.
pub open spec fn operand_type(lhs: Option<Ty>, rhs: Option<Ty>) -> Option<Ty> {
    if lhs is Some {
        lhs
    } else {
        rhs
    }
}

/// The static type of an expression, where the compiler can tell it: from
/// literals, from the declared or inferred types of locals, and through the
/// operators. A call's type is not known.
pub open spec fn expr_type(locals: Seq<Local>, e: SExpr) -> Option<Ty>
    decreases e,
{
    match e {
        SExpr::Int(_) => Some(Ty::Int),
        SExpr::Float(_) => Some(Ty::Float),
        SExpr::Str(_) => Some(Ty::Str),
        SExpr::Bool(_) => Some(Ty::Bool),
        SExpr::Nil => Some(Ty::Nil),
        SExpr::Var(name) => local_type(locals, name@),
        SExpr::Group(inner) => expr_type(locals, *inner),
        SExpr::Unary { op, expr } => match op {
            UnOp::Neg => expr_type(locals, *expr),
            UnOp::Not => Some(Ty::Bool),
        },
        SExpr::Binary { op, lhs, rhs } => match op {
            BinOp::Add | BinOp::Sub | BinOp::Mul | BinOp::Div | BinOp::Mod => operand_type(
                expr_type(locals, *lhs),
                expr_type(locals, *rhs),
            ),
            _ => Some(Ty::Bool),
        },
        SExpr::Call { .. } => None,
    }
}

/// The type that selects a binary operator's instruction.
pub open spec fn binop_type(locals: Seq<Local>, lhs: SExpr, rhs: SExpr) -> Option<Ty> {
    operand_type(expr_type(locals, lhs), expr_type(locals, rhs))
}

/// The typed instruction for a binary operator on operands of type `t`:
/// the float, string or bool form where `t` says so, else the int form.
pub open spec fn binop_instr(op: BinOp, t: Option<Ty>) -> Op {
    let f = t == Some(Ty::Float);
    let s = t == Some(Ty::Str);
    let b = t == Some(Ty::Bool);
    match op {
        BinOp::Add => if s { Op::AddStr } else if f { Op::AddFloat } else { Op::AddInt },
        BinOp::Sub => if f { Op::SubFloat } else { Op::SubInt },
        BinOp::Mul => if f { Op::MulFloat } else { Op::MulInt },
        BinOp::Div => if f { Op::DivFloat } else { Op::DivInt },
        BinOp::Mod => Op::ModInt,
        BinOp::Eq => if f { Op::EqFloat } else if s { Op::EqStr } else if b { Op::EqBool } else { Op::EqInt },
        BinOp::NotEq => if f { Op::NeqFloat } else if s { Op::NeqStr } else if b { Op::NeqBool } else { Op::NeqInt },
        BinOp::Lt => if f { Op::LtFloat } else { Op::LtInt },
        BinOp::LtEq => if f { Op::LtEqFloat } else { Op::LtEqInt },
        BinOp::Gt => if f { Op::GtFloat } else { Op::GtInt },
        BinOp::GtEq => if f { Op::GtEqFloat } else { Op::GtEqInt },
        BinOp::And => Op::And,
        BinOp::Or => Op::Or,
    }
}

pub open spec fn is_print(name: Seq<char>) -> bool {
    name == "print"@
}

/// The negation instruction for an operand of type `t`: `NegFloat` for a
/// float, else `NegInt`.
pub open spec fn neg_instr(t: Option<Ty>) -> Op {
    if t == Some(Ty::Float) {
        Op::NegFloat
    } else {
        Op::NegInt
    }
}

/// The type of a `let`: its declared type, else its initialiser's type.
pub open spec fn let_type(locals: Seq<Local>, ty: Option<Ty>, init: SExpr) -> Option<Ty> {
    match ty {
        Some(t) => Some(t),
        None => expr_type(locals, init),
    }
}

/// The code after compiling `e` onto `ops`, or the undefined variable met first.
pub open spec fn expr_code(locals: Seq<Local>, e: SExpr, ops: Seq<Op>) -> Result<Seq<Op>, Seq<char>>
    decreases e, 1int,
{
    match e {
        SExpr::Int(n) => Ok(ops.push(Op::Const(Value::Int(n)))),
        SExpr::Float(b) => Ok(ops.push(Op::Const(Value::Float(b)))),
        SExpr::Str(s) => Ok(ops.push(Op::Const(Value::Str(s)))),
        SExpr::Bool(b) => Ok(ops.push(Op::Const(Value::Bool(b)))),
        SExpr::Nil => Ok(ops.push(Op::Const(Value::Nil))),
        SExpr::Group(inner) => expr_code(locals, *inner, ops),
        SExpr::Var(name) => match resolve(locals, name@) {
            Some(slot) => Ok(ops.push(Op::LoadLocal(slot))),
            None => Err(name@),
        },
        SExpr::Unary { op, expr } => match expr_code(locals, *expr, ops) {
            Err(n) => Err(n),
            Ok(code) => match op {
                UnOp::Neg => Ok(code.push(neg_instr(expr_type(locals, *expr)))),
                UnOp::Not => Ok(code.push(Op::Not)),
            },
        },
        SExpr::Binary { op, lhs, rhs } => match expr_code(locals, *lhs, ops) {
            Err(n) => Err(n),
            Ok(c1) => match expr_code(locals, *rhs, c1) {
                Err(n) => Err(n),
                Ok(c2) => Ok(c2.push(binop_instr(op, binop_type(locals, *lhs, *rhs)))),
            },
        },
        SExpr::Call { callee, args } => match exprs_code(locals, args, ops) {
            Err(n) => Err(n),
            Ok(c) => if is_print(callee@) {
                Ok(c.push(Op::Print))
            } else {
                Ok(c.push(Op::Call(callee, args.len() as usize)))
            },
        },
    }
}

/// The code after compiling each expression of `es` in order.
pub open spec fn exprs_code(locals: Seq<Local>, es: Seq<SExpr>, ops: Seq<Op>) -> Result<Seq<Op>, Seq<char>>
    decreases es, 0int,
{
    if es.len() == 0 {
        Ok(ops)
    } else {
        match expr_code(locals, es[0], ops) {
            Err(n) => Err(n),
            Ok(c) => exprs_code(locals, es.drop_first(), c),
        }
    }
}

/// A local: its name, its slot, and its static type where known.
pub type Local = (String, usize, Option<Ty>);

/// The compiler's scope: its locals and the next free slot.
pub struct Scope {
    pub locals: Seq<Local>,
    pub next_slot: nat,
}

/// Code and scope after compiling a statement, or the undefined variable met first.
pub open spec fn stmt_code(sc: Scope, s: SStmt, ops: Seq<Op>) -> Result<(Seq<Op>, Scope), Seq<char>>
    decreases s, 2int,
{
    match s {
        SStmt::Let { name, ty, init } => match expr_code(sc.locals, init, ops) {
            Err(n) => Err(n),
            Ok(c) => {
                let slot = sc.next_slot as usize;
                Ok((
                    c.push(Op::StoreLocal(slot)),
                    Scope {
                        locals: sc.locals.push((name, slot, let_type(sc.locals, ty, init))),
                        next_slot: sc.next_slot + 1,
                    },
                ))
            },
        },
        SStmt::Assign { name, value } => match expr_code(sc.locals, value, ops) {
            Err(n) => Err(n),
            Ok(c) => match resolve(sc.locals, name@) {
                Some(slot) => Ok((c.push(Op::StoreLocal(slot)), sc)),
                None => Err(name@),
            },
        },
        SStmt::ExprStmt(e) => match expr_code(sc.locals, e, ops) {
            Err(n) => Err(n),
            Ok(c) => Ok((c, sc)),
        },
        SStmt::Return(e) => match expr_code(sc.locals, e, ops) {
            Err(n) => Err(n),
            Ok(c) => Ok((c.push(Op::Return), sc)),
        },
        SStmt::If { cond, then, else_ } => match expr_code(sc.locals, cond, ops) {
            Err(n) => Err(n),
            Ok(c) => {
                let jf = c.len() as int;
                match block_code(sc, then, c.push(Op::JumpIfFalse(0))) {
                    Err(n) => Err(n),
                    Ok(c2) => match else_ {
                        None => Ok((patch(c2, jf), sc)),
                        Some(els) => {
                            let jo = c2.len() as int;
                            match block_code(sc, els, patch(c2.push(Op::Jump(0)), jf)) {
                                Err(n) => Err(n),
                                Ok(c3) => Ok((patch(c3, jo), sc)),
                            }
                        },
                    },
                }
            },
        },
        SStmt::While { cond, body } => {
            let start = ops.len() as usize;
            match expr_code(sc.locals, cond, ops) {
                Err(n) => Err(n),
                Ok(c) => {
                    let jf = c.len() as int;
                    match block_code(sc, body, c.push(Op::JumpIfFalse(0))) {
                        Err(n) => Err(n),
                        Ok(c2) => Ok((patch(c2.push(Op::Jump(start)), jf), sc)),
                    }
                },
            }
        },
        SStmt::Fn { .. } => Ok((ops, sc)),
    }
}

/// Code and scope after compiling statements in order.
pub open spec fn stmts_code(sc: Scope, ss: Seq<SStmt>, ops: Seq<Op>) -> Result<(Seq<Op>, Scope), Seq<char>>
    decreases ss, 1int,
{
    if ss.len() == 0 {
        Ok((ops, sc))
    } else {
        match stmt_code(sc, ss[0], ops) {
            Err(n) => Err(n),
            Ok((c, sc2)) => stmts_code(sc2, ss.drop_first(), c),
        }
    }
}

/// Code after compiling a block: its locals go out of scope at its end.
pub open spec fn block_code(sc: Scope, ss: Seq<SStmt>, ops: Seq<Op>) -> Result<Seq<Op>, Seq<char>>
    decreases ss, 2int,
{
    match stmts_code(sc, ss, ops) {
        Err(n) => Err(n),
        Ok((c, _)) => Ok(c),
    }
}

// ---------------------------------------------------------------------------
// Function table

/// Compiled function bodies by name; a later entry for a name replaces an
/// earlier one.
pub open spec fn table_map(s: Seq<(String, Chunk)>) -> Map<Seq<char>, Seq<Op>>
    decreases s.len(),
{
    if s.len() == 0 {
        Map::empty()
    } else {
        table_map(s.drop_last()).insert(s.last().0@, s.last().1.ops@)
    }
}

proof fn lemma_table_map_no_later(s: Seq<(String, Chunk)>, i: int, name: Seq<char>)
    requires
        0 <= i <= s.len(),
        forall|k: int| i <= k < s.len() ==> (#[trigger] s[k]).0@ != name,
    ensures
        table_map(s).contains_key(name) == table_map(s.take(i)).contains_key(name),
        table_map(s).contains_key(name) ==> table_map(s)[name] == table_map(s.take(i))[name],
    decreases s.len() - i,
{
    if i < s.len() {
        lemma_table_map_no_later(s, i + 1, name);
        assert(s.take(i + 1).drop_last() =~= s.take(i));
        assert(s.take(i + 1).last() == s[i]);
    } else {
        assert(s.take(i) =~= s);
    }
}

/// The compiled functions of a program, by name.
pub struct FnTable {
    entries: Vec<(String, Chunk)>,
}

impl View for FnTable {
    type V = Map<Seq<char>, Seq<Op>>;

    closed spec fn view(&self) -> Map<Seq<char>, Seq<Op>> {
        table_map(self.entries@)
    }
}

impl FnTable {
    pub fn new() -> (t: Self)
        ensures
            t@ == Map::<Seq<char>, Seq<Op>>::empty(),
    {
        FnTable { entries: Vec::new() }
    }

    /// Bind `name` to `chunk`, replacing any earlier binding.
    pub fn insert(&mut self, name: String, chunk: Chunk)
        ensures
            final(self)@ == old(self)@.insert(name@, chunk.ops@),
    {
        let ghost before = self.entries@;
        self.entries.push((name, chunk));
        assert(self.entries@.drop_last() =~= before);
    }

    /// The entry for `name`, if any.
    fn find(&self, name: &str) -> (r: Option<usize>)
        ensures
            match r {
                Some(i) => i < self.entries@.len() && self@.contains_key(name@) && self@[name@]
                    == self.entries@[i as int].1.ops@,
                None => !self@.contains_key(name@),
            },
    {
        let mut i = self.entries.len();
        while i > 0
            invariant
                i <= self.entries@.len(),
                forall|k: int| i <= k < self.entries@.len() ==> (#[trigger] self.entries@[k]).0@ != name@,
            decreases i,
        {
            if str_eq(self.entries[i - 1].0.as_str(), name) {
                proof {
                    let s = self.entries@;
                    lemma_table_map_no_later(s, i as int, name@);
                    assert(s.take(i as int).drop_last() =~= s.take(i - 1));
                    assert(s.take(i as int).last() == s[i - 1]);
                }
                return Some(i - 1);
            }
            i = i - 1;
        }
        proof {
            lemma_table_map_no_later(self.entries@, 0, name@);
            assert(self.entries@.take(0).len() == 0);
        }
        None
    }

    /// The chunk bound to `name`, if any.
    pub fn get(&self, name: &str) -> (r: Option<&Chunk>)
        ensures
            match r {
                Some(c) => self@.contains_key(name@) && c.ops@ == self@[name@],
                None => !self@.contains_key(name@),
            },
    {
        match self.find(name) {
            Some(i) => Some(&self.entries[i].1),
            None => None,
        }
    }

    pub fn contains_key(&self, name: &str) -> (b: bool)
        ensures
            b == self@.contains_key(name@),
    {
        self.find(name).is_some()
    }

    /// A copy of the table.
    pub fn copy(&self) -> (r: FnTable)
        ensures
            r@ == self@,
    {
        let mut entries: Vec<(String, Chunk)> = Vec::new();
        let mut i: usize = 0;
        while i < self.entries.len()
            invariant
                i <= self.entries@.len(),
                entries@.len() == i,
                forall|k: int| 0 <= k < i ==> (#[trigger] entries@[k]).0 == self.entries@[k].0
                    && entries@[k].1.ops@ == self.entries@[k].1.ops@,
            decreases self.entries@.len() - i,
        {
            let e = &self.entries[i];
            entries.push((e.0.clone(), copy_chunk(&e.1)));
            i = i + 1;
        }
        proof {
            lemma_table_map_pointwise(entries@, self.entries@);
        }
        FnTable { entries }
    }
}

proof fn lemma_table_map_pointwise(a: Seq<(String, Chunk)>, b: Seq<(String, Chunk)>)
    requires
        a.len() == b.len(),
        forall|k: int| 0 <= k < a.len() ==> (#[trigger] a[k]).0 == b[k].0 && a[k].1.ops@ == b[k].1.ops@,
    ensures
        table_map(a) == table_map(b),
    decreases a.len(),
{
    if a.len() > 0 {
        lemma_table_map_pointwise(a.drop_last(), b.drop_last());
        assert(a.last().0 == b.last().0);
    }
}

// ---------------------------------------------------------------------------
// Compiler

/// The locals of a function's parameters: slot `i` for parameter `i`.
pub open spec fn param_locals(params: Seq<(String, Ty)>) -> Seq<Local> {
    Seq::new(params.len(), |i: int| (params[i].0, i as usize, Some(params[i].1)))
}

/// A function's chunk: its body, then an implicit `return nil`.
pub open spec fn fn_code(params: Seq<(String, Ty)>, body: Seq<SStmt>) -> Result<Seq<Op>, Seq<char>> {
    match stmts_code(Scope { locals: param_locals(params), next_slot: params.len() }, body, Seq::empty()) {
        Err(n) => Err(n),
        Ok((c, _)) => Ok(c.push(Op::Const(Value::Nil)).push(Op::Return)),
    }
}

/// The function table after compiling the function declarations of `ss`
/// in order, and the undefined variable that stopped it, if any.
pub open spec fn fns_pass(ss: Seq<SStmt>, table: Map<Seq<char>, Seq<Op>>) -> (Map<Seq<char>, Seq<Op>>, Option<Seq<char>>)
    decreases ss.len(),
{
    if ss.len() == 0 {
        (table, None)
    } else {
        match ss[0] {
            SStmt::Fn { name, params, ret: _, body } => match fn_code(params, body) {
                Err(n) => (table, Some(n)),
                Ok(c) => fns_pass(ss.drop_first(), table.insert(name@, c)),
            },
            _ => fns_pass(ss.drop_first(), table),
        }
    }
}

/// Slots are numbered from 0 in order.
pub open spec fn scope_wf(sc: Scope) -> bool {
    &&& sc.next_slot == sc.locals.len()
    &&& forall|i: int| 0 <= i < sc.locals.len() ==> (#[trigger] sc.locals[i]).1 == i
}

pub struct Compiler {
    /// locals stack: each entry is (name, slot_index)
    locals: Vec<Local>,
    next_slot: usize,
    /// compiled function bodies by name
    pub fns: FnTable,
}

pub open spec fn expr_res(r: CompileResult<()>, spec: Result<Seq<Op>, Seq<char>>, ops: Seq<Op>) -> bool {
    match spec {
        Ok(c) => r is Ok && ops == c,
        Err(n) => r matches Err(e) && is_undefined_error(e, n),
    }
}

impl Compiler {
    /// The compiler's current scope.
    pub closed spec fn scope(&self) -> Scope {
        Scope { locals: self.locals@, next_slot: self.next_slot as nat }
    }

    /// The compiled functions.
    pub closed spec fn functions(&self) -> Map<Seq<char>, Seq<Op>> {
        self.fns@
    }

    /// The compiled functions, taken out of the compiler.
    pub fn into_fns(self) -> (t: FnTable)
        ensures
            t@ == self.functions(),
    {
        self.fns
    }

    pub fn new() -> (c: Self)
        ensures
            c.wf(),
            c.scope() == (Scope { locals: Seq::empty(), next_slot: 0 }),
            c.functions() == Map::<Seq<char>, Seq<Op>>::empty(),
    {
        Self { locals: Vec::new(), next_slot: 0, fns: FnTable::new() }
    }

    /// The slot of the innermost local called `name`.
    fn resolve_local(&self, name: &String) -> (r: CompileResult<usize>)
        ensures
            match resolve(self.locals@, name@) {
                Some(slot) => r == Ok::<usize, CompileError>(slot),
                None => r matches Err(e) && is_undefined_error(e, name@),
            },
    {
        let mut i = self.locals.len();
        assert(self.locals@.take(i as int) =~= self.locals@);
        while i > 0
            invariant
                i <= self.locals@.len(),
                resolve(self.locals@, name@) == resolve(self.locals@.take(i as int), name@),
            decreases i,
        {
            let ghost pre = self.locals@.take(i as int);
            assert(pre.drop_last() =~= self.locals@.take(i - 1));
            if self.locals[i - 1].0 == *name {
                return Ok(self.locals[i - 1].1);
            }
            i = i - 1;
        }
        Err(undefined_error(name))
    }

    /// The static type of the innermost local called `name`.
    fn local_type_of(&self, name: &String) -> (t: Option<Ty>)
        ensures
            t == local_type(self.locals@, name@),
    {
        let mut i = self.locals.len();
        assert(self.locals@.take(i as int) =~= self.locals@);
        while i > 0
            invariant
                i <= self.locals@.len(),
                local_type(self.locals@, name@) == local_type(self.locals@.take(i as int), name@),
            decreases i,
        {
            let ghost pre = self.locals@.take(i as int);
            assert(pre.drop_last() =~= self.locals@.take(i - 1));
            if self.locals[i - 1].0 == *name {
                return match &self.locals[i - 1].2 {
                    Some(t) => Some(copy_ty(t)),
                    None => None,
                };
            }
            i = i - 1;
        }
        None
    }

    /// The static type of an expression, where it can be told.
    fn expr_type(&self, e: &Expr) -> (t: Option<Ty>)
        ensures
            t == expr_type(self.locals@, expr_view(*e)),
        decreases e,
    {
        match e {
            Expr::Int(_) => Some(Ty::Int),
            Expr::Float(_) => Some(Ty::Float),
            Expr::Str(_) => Some(Ty::Str),
            Expr::Bool(_) => Some(Ty::Bool),
            Expr::Nil => Some(Ty::Nil),
            Expr::Var(name) => self.local_type_of(name),
            Expr::Group(inner) => self.expr_type(inner),
            Expr::Unary { op, expr } => match op {
                UnOp::Neg => self.expr_type(expr),
                UnOp::Not => Some(Ty::Bool),
            },
            Expr::Binary { op, lhs, rhs } => match op {
                BinOp::Add | BinOp::Sub | BinOp::Mul | BinOp::Div | BinOp::Mod => {
                    match self.expr_type(lhs) {
                        Some(t) => Some(t),
                        None => self.expr_type(rhs),
                    }
                },
                _ => Some(Ty::Bool),
            },
            Expr::Call { .. } => None,
        }
    }

    /// Emit the typed instruction for a binary operator, chosen by the static
    /// type of its operands.
    fn compile_binop(&self, op: &BinOp, lhs: &Expr, rhs: &Expr, chunk: &mut Chunk)
        ensures
            final(chunk).ops@ == old(chunk).ops@.push(
                binop_instr(*op, binop_type(self.locals@, expr_view(*lhs), expr_view(*rhs))),
            ),
    {
        let t = match self.expr_type(lhs) {
            Some(t) => Some(t),
            None => self.expr_type(rhs),
        };
        let is_float = is_ty(&t, Ty::Float);
        let is_str = is_ty(&t, Ty::Str);
        let is_bool = is_ty(&t, Ty::Bool);
        let instr = match op {
            BinOp::Add => if is_str { Op::AddStr } else if is_float { Op::AddFloat } else { Op::AddInt },
            BinOp::Sub => if is_float { Op::SubFloat } else { Op::SubInt },
            BinOp::Mul => if is_float { Op::MulFloat } else { Op::MulInt },
            BinOp::Div => if is_float { Op::DivFloat } else { Op::DivInt },
            BinOp::Mod => Op::ModInt,
            BinOp::Eq => if is_float { Op::EqFloat } else if is_str { Op::EqStr } else if is_bool { Op::EqBool } else { Op::EqInt },
            BinOp::NotEq => if is_float { Op::NeqFloat } else if is_str { Op::NeqStr } else if is_bool { Op::NeqBool } else { Op::NeqInt },
            BinOp::Lt => if is_float { Op::LtFloat } else { Op::LtInt },
            BinOp::LtEq => if is_float { Op::LtEqFloat } else { Op::LtEqInt },
            BinOp::Gt => if is_float { Op::GtFloat } else { Op::GtInt },
            BinOp::GtEq => if is_float { Op::GtEqFloat } else { Op::GtEqInt },
            BinOp::And => Op::And,
            BinOp::Or => Op::Or,
        };
        chunk.ops.push(instr);
    }

    fn compile_expr(&self, expr: &Expr, chunk: &mut Chunk) -> (r: CompileResult<()>)
        ensures
            expr_res(r, expr_code(self.locals@, expr_view(*expr), old(chunk).ops@), final(chunk).ops@),
        decreases expr,
    {
        match expr {
            Expr::Int(n) => {
                chunk.emit(Op::Const(Value::Int(*n)));
            },
            Expr::Float(f) => {
                chunk.emit(Op::Const(Value::Float(*f)));
            },
            Expr::Str(s) => {
                chunk.emit(Op::Const(Value::Str(s.clone())));
            },
            Expr::Bool(b) => {
                chunk.emit(Op::Const(Value::Bool(*b)));
            },
            Expr::Nil => {
                chunk.emit(Op::Const(Value::Nil));
            },
            Expr::Group(inner) => {
                return self.compile_expr(inner, chunk);
            },
            Expr::Var(name) => {
                let slot = self.resolve_local(name)?;
                chunk.emit(Op::LoadLocal(slot));
            },
            Expr::Unary { op, expr: operand } => {
                self.compile_expr(operand, chunk)?;
                match op {
                    UnOp::Neg => {
                        let t = self.expr_type(operand);
                        chunk.emit(if is_ty(&t, Ty::Float) { Op::NegFloat } else { Op::NegInt });
                    },
                    UnOp::Not => {
                        chunk.emit(Op::Not);
                    },
                }
            },
            Expr::Binary { op, lhs, rhs } => {
                self.compile_expr(lhs, chunk)?;
                self.compile_expr(rhs, chunk)?;
                self.compile_binop(op, lhs, rhs, chunk);
            },
            Expr::Call { callee, args } => {
                let ghost es = exprs_view(args@);
                let ghost target = exprs_code(self.locals@, es, chunk.ops@);
                let mut i: usize = 0;
                proof {
                    crate::ast::lemma_exprs_view_len(args@);
                    assert(es.skip(0) =~= es);
                }
                while i < args.len()
                    invariant
                        *expr == (Expr::Call { callee: *callee, args: *args }),
                        i <= args@.len(),
                        es == exprs_view(args@),
                        target == exprs_code(self.locals@, es, old(chunk).ops@),
                        es.len() == args@.len(),
                        exprs_code(self.locals@, es.skip(i as int), chunk.ops@) == target,
                    decreases args@.len() - i,
                {
                    proof {
                        lemma_exprs_view_index(args@, i as int);
                        assert(es.skip(i as int)[0] == es[i as int]);
                        assert(es.skip(i as int).drop_first() =~= es.skip(i + 1));
                    }
                    let ghost before = chunk.ops@;
                    proof {
                        broadcast use vstd::std_specs::vec::group_vec_axioms;
                        assert(decreases_to!(*args => args@[i as int]));
                        assert(decreases_to!(*expr => *args));
                    }
                    let r = self.compile_expr(&args[i], chunk);
                    match r {
                        Ok(()) => {},
                        Err(e) => {
                            proof {
                                let sp = expr_code(self.locals@, es[i as int], before);
                                assert(sp is Err);
                                assert(exprs_code(self.locals@, es.skip(i as int), before) == Err::<Seq<Op>, Seq<char>>(sp->Err_0));
                            }
                            return Err(e);
                        },
                    }
                    i = i + 1;
                }
                proof {
                    assert(es.skip(args@.len() as int).len() == 0);
                }
                if str_eq(callee.as_str(), "print") {
                    chunk.emit(Op::Print);
                } else {
                    chunk.emit(Op::Call(callee.clone(), args.len()));
                }
            },
        }
        Ok(())
    }
}

/// Whether `t` is the known type `want` (one without a name).
fn is_ty(t: &Option<Ty>, want: Ty) -> (b: bool)
    requires
        !(want is Named),
    ensures
        b == (*t == Some(want)),
{
    match (t, want) {
        (Some(Ty::Int), Ty::Int) => true,
        (Some(Ty::Float), Ty::Float) => true,
        (Some(Ty::Bool), Ty::Bool) => true,
        (Some(Ty::Str), Ty::Str) => true,
        (Some(Ty::Nil), Ty::Nil) => true,
        _ => false,
    }
}

/// `a` is a prefix of `b`.
pub open spec fn ops_prefix(a: Seq<Op>, b: Seq<Op>) -> bool {
    a.len() <= b.len() && b.subrange(0, a.len() as int) == a
}

proof fn lemma_prefix_trans(a: Seq<Op>, b: Seq<Op>, c: Seq<Op>)
    requires
        ops_prefix(a, b),
        ops_prefix(b, c),
    ensures
        ops_prefix(a, c),
{
    assert(c.subrange(0, a.len() as int) =~= b.subrange(0, a.len() as int));
}

proof fn lemma_prefix_push(a: Seq<Op>, b: Seq<Op>, op: Op)
    requires
        ops_prefix(a, b),
    ensures
        ops_prefix(a, b.push(op)),
{
    assert(b.push(op).subrange(0, a.len() as int) =~= b.subrange(0, a.len() as int));
}

proof fn lemma_prefix_patch(a: Seq<Op>, b: Seq<Op>, idx: int)
    requires
        ops_prefix(a, b),
        a.len() <= idx < b.len(),
    ensures
        ops_prefix(a, patch(b, idx)),
{
    assert(patch(b, idx).subrange(0, a.len() as int) =~= b.subrange(0, a.len() as int));
}

/// Compiling an expression only appends code.
pub proof fn lemma_expr_code_extends(locals: Seq<Local>, e: SExpr, ops: Seq<Op>)
    ensures
        expr_code(locals, e, ops) matches Ok(c) ==> ops_prefix(ops, c),
    decreases e, 1int,
{
    assert(ops.subrange(0, ops.len() as int) =~= ops);
    match e {
        SExpr::Group(inner) => {
            lemma_expr_code_extends(locals, *inner, ops);
        },
        SExpr::Unary { op, expr } => {
            lemma_expr_code_extends(locals, *expr, ops);
            if let Ok(c) = expr_code(locals, *expr, ops) {
                lemma_prefix_push(ops, c, neg_instr(expr_type(locals, *expr)));
                lemma_prefix_push(ops, c, Op::Not);
            }
        },
        SExpr::Binary { op, lhs, rhs } => {
            lemma_expr_code_extends(locals, *lhs, ops);
            if let Ok(c1) = expr_code(locals, *lhs, ops) {
                lemma_expr_code_extends(locals, *rhs, c1);
                if let Ok(c2) = expr_code(locals, *rhs, c1) {
                    lemma_prefix_trans(ops, c1, c2);
                    lemma_prefix_push(ops, c2, binop_instr(op, binop_type(locals, *lhs, *rhs)));
                }
            }
        },
        SExpr::Call { callee, args } => {
            lemma_exprs_code_extends(locals, args, ops);
            if let Ok(c) = exprs_code(locals, args, ops) {
                lemma_prefix_push(ops, c, Op::Print);
                lemma_prefix_push(ops, c, Op::Call(callee, args.len() as usize));
            }
        },
        _ => {
            assert(ops.push(Op::Halt).subrange(0, ops.len() as int) =~= ops);
            if let Ok(c) = expr_code(locals, e, ops) {
                assert(c.subrange(0, ops.len() as int) =~= ops);
            }
        },
    }
}

pub proof fn lemma_exprs_code_extends(locals: Seq<Local>, es: Seq<SExpr>, ops: Seq<Op>)
    ensures
        exprs_code(locals, es, ops) matches Ok(c) ==> ops_prefix(ops, c),
    decreases es, 0int,
{
    assert(ops.subrange(0, ops.len() as int) =~= ops);
    if es.len() > 0 {
        lemma_expr_code_extends(locals, es[0], ops);
        if let Ok(c) = expr_code(locals, es[0], ops) {
            lemma_exprs_code_extends(locals, es.drop_first(), c);
            if let Ok(c2) = exprs_code(locals, es.drop_first(), c) {
                lemma_prefix_trans(ops, c, c2);
            }
        }
    }
}

/// Compiling a statement only appends code (its own jumps are patched in place).
pub proof fn lemma_stmt_code_extends(sc: Scope, s: SStmt, ops: Seq<Op>)
    ensures
        stmt_code(sc, s, ops) matches Ok((c, _)) ==> ops_prefix(ops, c),
    decreases s, 2int,
{
    assert(ops.subrange(0, ops.len() as int) =~= ops);
    match s {
        SStmt::Let { name, ty: _, init } => {
            lemma_expr_code_extends(sc.locals, init, ops);
            if let Ok(c) = expr_code(sc.locals, init, ops) {
                lemma_prefix_push(ops, c, Op::StoreLocal(sc.next_slot as usize));
            }
        },
        SStmt::Assign { name, value } => {
            lemma_expr_code_extends(sc.locals, value, ops);
            if let Ok(c) = expr_code(sc.locals, value, ops) {
                if let Some(slot) = resolve(sc.locals, name@) {
                    lemma_prefix_push(ops, c, Op::StoreLocal(slot));
                }
            }
        },
        SStmt::ExprStmt(e) => {
            lemma_expr_code_extends(sc.locals, e, ops);
        },
        SStmt::Return(e) => {
            lemma_expr_code_extends(sc.locals, e, ops);
            if let Ok(c) = expr_code(sc.locals, e, ops) {
                lemma_prefix_push(ops, c, Op::Return);
            }
        },
        SStmt::If { cond, then, else_ } => {
            lemma_expr_code_extends(sc.locals, cond, ops);
            if let Ok(c) = expr_code(sc.locals, cond, ops) {
                let jf = c.len() as int;
                let c1 = c.push(Op::JumpIfFalse(0));
                lemma_prefix_push(ops, c, Op::JumpIfFalse(0));
                lemma_block_code_extends(sc, then, c1);
                if let Ok(c2) = block_code(sc, then, c1) {
                    lemma_prefix_trans(ops, c1, c2);
                    match else_ {
                        None => {
                            lemma_prefix_patch(ops, c2, jf);
                        },
                        Some(els) => {
                            let jo = c2.len() as int;
                            let c3 = c2.push(Op::Jump(0));
                            lemma_prefix_push(ops, c2, Op::Jump(0));
                            lemma_prefix_patch(ops, c3, jf);
                            let c4 = patch(c3, jf);
                            lemma_block_code_extends(sc, els, c4);
                            if let Ok(c5) = block_code(sc, els, c4) {
                                lemma_prefix_trans(ops, c4, c5);
                                lemma_prefix_patch(ops, c5, jo);
                            }
                        },
                    }
                }
            }
        },
        SStmt::While { cond, body } => {
            lemma_expr_code_extends(sc.locals, cond, ops);
            if let Ok(c) = expr_code(sc.locals, cond, ops) {
                let jf = c.len() as int;
                let c1 = c.push(Op::JumpIfFalse(0));
                lemma_prefix_push(ops, c, Op::JumpIfFalse(0));
                lemma_block_code_extends(sc, body, c1);
                if let Ok(c2) = block_code(sc, body, c1) {
                    lemma_prefix_trans(ops, c1, c2);
                    let c3 = c2.push(Op::Jump(ops.len() as usize));
                    lemma_prefix_push(ops, c2, Op::Jump(ops.len() as usize));
                    lemma_prefix_patch(ops, c3, jf);
                }
            }
        },
        SStmt::Fn { .. } => {},
    }
}

pub proof fn lemma_stmts_code_extends(sc: Scope, ss: Seq<SStmt>, ops: Seq<Op>)
    ensures
        stmts_code(sc, ss, ops) matches Ok((c, _)) ==> ops_prefix(ops, c),
    decreases ss, 1int,
{
    assert(ops.subrange(0, ops.len() as int) =~= ops);
    if ss.len() > 0 {
        lemma_stmt_code_extends(sc, ss[0], ops);
        if let Ok((c, sc2)) = stmt_code(sc, ss[0], ops) {
            lemma_stmts_code_extends(sc2, ss.drop_first(), c);
            if let Ok((c2, _)) = stmts_code(sc2, ss.drop_first(), c) {
                lemma_prefix_trans(ops, c, c2);
            }
        }
    }
}

pub proof fn lemma_block_code_extends(sc: Scope, ss: Seq<SStmt>, ops: Seq<Op>)
    ensures
        block_code(sc, ss, ops) matches Ok(c) ==> ops_prefix(ops, c),
    decreases ss, 2int,
{
    lemma_stmts_code_extends(sc, ss, ops);
}

// ---------------------------------------------------------------------------
// Jumps stay inside the code

/// A jump's target is at most `n`; other instructions pass.
pub open spec fn jump_target_within(op: Op, n: int) -> bool {
    match op {
        Op::Jump(t) => t <= n,
        Op::JumpIfFalse(t) => t <= n,
        _ => true,
    }
}

/// No jump in `ops` targets an index past its end.
pub open spec fn jumps_inside(ops: Seq<Op>) -> bool {
    forall|i: int| 0 <= i < ops.len() ==> jump_target_within(#[trigger] ops[i], ops.len() as int)
}

/// A chunk that ends in `Halt` or `Return` and jumps only to its own
/// instructions.
pub open spec fn chunk_wf(ops: Seq<Op>) -> bool {
    &&& ops.len() >= 1
    &&& (ops.last() is Halt || ops.last() is Return)
    &&& forall|i: int|
        0 <= i < ops.len() ==> match #[trigger] ops[i] {
            Op::Jump(t) => t < ops.len(),
            Op::JumpIfFalse(t) => t < ops.len(),
            _ => true,
        }
}

/// Every function of the table is a well-formed chunk.
pub open spec fn table_wf(table: Map<Seq<char>, Seq<Op>>) -> bool {
    forall|k: Seq<char>| table.contains_key(k) ==> chunk_wf(#[trigger] table[k])
}

proof fn lemma_jumps_push(ops: Seq<Op>, op: Op)
    requires
        jumps_inside(ops),
        jump_target_within(op, ops.len() + 1int),
    ensures
        jumps_inside(ops.push(op)),
{
    let o2 = ops.push(op);
    assert forall|i: int| 0 <= i < o2.len() implies jump_target_within(#[trigger] o2[i], o2.len() as int) by {
        if i < ops.len() {
            assert(o2[i] == ops[i]);
            assert(jump_target_within(ops[i], ops.len() as int));
        }
    }
}

/// A target written as a `usize` that stands for `n >= 0` is at most `n`.
proof fn lemma_usize_target(n: int)
    requires
        n >= 0,
    ensures
        (n as usize) as int <= n,
{
}

proof fn lemma_jumps_patch(ops: Seq<Op>, idx: int)
    requires
        jumps_inside(ops),
        0 <= idx < ops.len(),
    ensures
        jumps_inside(patch(ops, idx)),
{
    let p = patch(ops, idx);
    lemma_usize_target(ops.len() as int);
    assert forall|i: int| 0 <= i < p.len() implies jump_target_within(#[trigger] p[i], p.len() as int) by {
        if i != idx {
            assert(p[i] == ops[i]);
            assert(jump_target_within(ops[i], ops.len() as int));
        }
    }
}

proof fn lemma_empty_jumps()
    ensures
        jumps_inside(Seq::<Op>::empty()),
{
}

pub proof fn lemma_expr_code_jumps(locals: Seq<Local>, e: SExpr, ops: Seq<Op>)
    requires
        jumps_inside(ops),
    ensures
        expr_code(locals, e, ops) matches Ok(c) ==> jumps_inside(c),
    decreases e, 1int,
{
    match e {
        SExpr::Group(inner) => {
            lemma_expr_code_jumps(locals, *inner, ops);
        },
        SExpr::Var(name) => {
            if let Some(slot) = resolve(locals, name@) {
                lemma_jumps_push(ops, Op::LoadLocal(slot));
            }
        },
        SExpr::Unary { op, expr } => {
            lemma_expr_code_jumps(locals, *expr, ops);
            if let Ok(c) = expr_code(locals, *expr, ops) {
                lemma_jumps_push(c, neg_instr(expr_type(locals, *expr)));
                lemma_jumps_push(c, Op::Not);
            }
        },
        SExpr::Binary { op, lhs, rhs } => {
            lemma_expr_code_jumps(locals, *lhs, ops);
            if let Ok(c1) = expr_code(locals, *lhs, ops) {
                lemma_expr_code_jumps(locals, *rhs, c1);
                if let Ok(c2) = expr_code(locals, *rhs, c1) {
                    lemma_jumps_push(c2, binop_instr(op, binop_type(locals, *lhs, *rhs)));
                }
            }
        },
        SExpr::Call { callee, args } => {
            lemma_exprs_code_jumps(locals, args, ops);
            if let Ok(c) = exprs_code(locals, args, ops) {
                lemma_jumps_push(c, Op::Print);
                lemma_jumps_push(c, Op::Call(callee, args.len() as usize));
            }
        },
        SExpr::Int(n) => {
            lemma_jumps_push(ops, Op::Const(Value::Int(n)));
        },
        SExpr::Float(b) => {
            lemma_jumps_push(ops, Op::Const(Value::Float(b)));
        },
        SExpr::Str(s) => {
            lemma_jumps_push(ops, Op::Const(Value::Str(s)));
        },
        SExpr::Bool(b) => {
            lemma_jumps_push(ops, Op::Const(Value::Bool(b)));
        },
        SExpr::Nil => {
            lemma_jumps_push(ops, Op::Const(Value::Nil));
        },
    }
}

pub proof fn lemma_exprs_code_jumps(locals: Seq<Local>, es: Seq<SExpr>, ops: Seq<Op>)
    requires
        jumps_inside(ops),
    ensures
        exprs_code(locals, es, ops) matches Ok(c) ==> jumps_inside(c),
    decreases es, 0int,
{
    if es.len() > 0 {
        lemma_expr_code_jumps(locals, es[0], ops);
        if let Ok(c) = expr_code(locals, es[0], ops) {
            lemma_exprs_code_jumps(locals, es.drop_first(), c);
        }
    }
}

pub proof fn lemma_stmt_code_jumps(sc: Scope, s: SStmt, ops: Seq<Op>)
    requires
        jumps_inside(ops),
    ensures
        stmt_code(sc, s, ops) matches Ok((c, _)) ==> jumps_inside(c),
    decreases s, 2int,
{
    match s {
        SStmt::Let { name, ty: _, init } => {
            lemma_expr_code_jumps(sc.locals, init, ops);
            if let Ok(c) = expr_code(sc.locals, init, ops) {
                lemma_jumps_push(c, Op::StoreLocal(sc.next_slot as usize));
            }
        },
        SStmt::Assign { name, value } => {
            lemma_expr_code_jumps(sc.locals, value, ops);
            if let Ok(c) = expr_code(sc.locals, value, ops) {
                if let Some(slot) = resolve(sc.locals, name@) {
                    lemma_jumps_push(c, Op::StoreLocal(slot));
                }
            }
        },
        SStmt::ExprStmt(e) => {
            lemma_expr_code_jumps(sc.locals, e, ops);
        },
        SStmt::Return(e) => {
            lemma_expr_code_jumps(sc.locals, e, ops);
            if let Ok(c) = expr_code(sc.locals, e, ops) {
                lemma_jumps_push(c, Op::Return);
            }
        },
        SStmt::If { cond, then, else_ } => {
            lemma_expr_code_jumps(sc.locals, cond, ops);
            if let Ok(c) = expr_code(sc.locals, cond, ops) {
                let jf = c.len() as int;
                let c1 = c.push(Op::JumpIfFalse(0));
                lemma_jumps_push(c, Op::JumpIfFalse(0));
                lemma_block_code_jumps(sc, then, c1);
                lemma_block_code_extends(sc, then, c1);
                if let Ok(c2) = block_code(sc, then, c1) {
                    match else_ {
                        None => {
                            lemma_jumps_patch(c2, jf);
                        },
                        Some(els) => {
                            let jo = c2.len() as int;
                            let c3 = c2.push(Op::Jump(0));
                            lemma_jumps_push(c2, Op::Jump(0));
                            lemma_jumps_patch(c3, jf);
                            let c4 = patch(c3, jf);
                            lemma_block_code_jumps(sc, els, c4);
                            lemma_block_code_extends(sc, els, c4);
                            if let Ok(c5) = block_code(sc, els, c4) {
                                lemma_jumps_patch(c5, jo);
                            }
                        },
                    }
                }
            }
        },
        SStmt::While { cond, body } => {
            lemma_expr_code_jumps(sc.locals, cond, ops);
            lemma_expr_code_extends(sc.locals, cond, ops);
            if let Ok(c) = expr_code(sc.locals, cond, ops) {
                let jf = c.len() as int;
                let c1 = c.push(Op::JumpIfFalse(0));
                lemma_jumps_push(c, Op::JumpIfFalse(0));
                lemma_block_code_jumps(sc, body, c1);
                lemma_block_code_extends(sc, body, c1);
                if let Ok(c2) = block_code(sc, body, c1) {
                    let start = ops.len() as usize;
                    lemma_usize_target(ops.len() as int);
                    lemma_jumps_push(c2, Op::Jump(start));
                    lemma_jumps_patch(c2.push(Op::Jump(start)), jf);
                }
            }
        },
        SStmt::Fn { .. } => {},
    }
}

pub proof fn lemma_stmts_code_jumps(sc: Scope, ss: Seq<SStmt>, ops: Seq<Op>)
    requires
        jumps_inside(ops),
    ensures
        stmts_code(sc, ss, ops) matches Ok((c, _)) ==> jumps_inside(c),
    decreases ss, 1int,
{
    if ss.len() > 0 {
        lemma_stmt_code_jumps(sc, ss[0], ops);
        if let Ok((c, sc2)) = stmt_code(sc, ss[0], ops) {
            lemma_stmts_code_jumps(sc2, ss.drop_first(), c);
        }
    }
}

pub proof fn lemma_block_code_jumps(sc: Scope, ss: Seq<SStmt>, ops: Seq<Op>)
    requires
        jumps_inside(ops),
    ensures
        block_code(sc, ss, ops) matches Ok(c) ==> jumps_inside(c),
    decreases ss, 2int,
{
    lemma_stmts_code_jumps(sc, ss, ops);
}

/// Code whose jumps stay inside it, closed by one more instruction that is
/// not a jump, is a well-formed chunk if that instruction ends it.
proof fn lemma_close_chunk(c: Seq<Op>, last: Op)
    requires
        jumps_inside(c),
        last is Halt || last is Return,
    ensures
        chunk_wf(c.push(last)),
{
    let o = c.push(last);
    assert forall|i: int| 0 <= i < o.len() implies match #[trigger] o[i] {
        Op::Jump(t) => t < o.len(),
        Op::JumpIfFalse(t) => t < o.len(),
        _ => true,
    } by {
        if i < c.len() {
            assert(o[i] == c[i]);
            assert(jump_target_within(c[i], c.len() as int));
        }
    }
}

/// The main chunk of a compiled program is well formed: it ends in `Halt`
/// and every jump lands on one of its instructions.
pub proof fn lemma_main_chunk_wf(sc: Scope, ss: Seq<SStmt>)
    ensures
        stmts_code(sc, ss, Seq::empty()) matches Ok((c, _)) ==> chunk_wf(c.push(Op::Halt)),
{
    lemma_empty_jumps();
    lemma_stmts_code_jumps(sc, ss, Seq::empty());
    if let Ok((c, _)) = stmts_code(sc, ss, Seq::empty()) {
        lemma_close_chunk(c, Op::Halt);
    }
}

/// A compiled function body is well formed: it ends in `Return` and every
/// jump lands on one of its instructions.
pub proof fn lemma_fn_chunk_wf(params: Seq<(String, Ty)>, body: Seq<SStmt>)
    ensures
        fn_code(params, body) matches Ok(c) ==> chunk_wf(c),
{
    let sc = Scope { locals: param_locals(params), next_slot: params.len() };
    lemma_empty_jumps();
    lemma_stmts_code_jumps(sc, body, Seq::empty());
    if let Ok((c, _)) = stmts_code(sc, body, Seq::empty()) {
        lemma_jumps_push(c, Op::Const(Value::Nil));
        lemma_close_chunk(c.push(Op::Const(Value::Nil)), Op::Return);
    }
}

/// A successful function pass keeps every function already in the table.
proof fn lemma_fns_pass_keeps(ss: Seq<SStmt>, table: Map<Seq<char>, Seq<Op>>, k: Seq<char>)
    requires
        table.contains_key(k),
    ensures
        fns_pass(ss, table).1 is None ==> fns_pass(ss, table).0.contains_key(k),
    decreases ss.len(),
{
    if ss.len() > 0 {
        match ss[0] {
            SStmt::Fn { name, params, ret: _, body } => {
                if let Ok(c) = fn_code(params, body) {
                    lemma_fns_pass_keeps(ss.drop_first(), table.insert(name@, c), k);
                }
            },
            _ => {
                lemma_fns_pass_keeps(ss.drop_first(), table, k);
            },
        }
    }
}

/// When the function pass succeeds, every declared function is in the table.
pub proof fn lemma_fns_pass_binds(ss: Seq<SStmt>, table: Map<Seq<char>, Seq<Op>>, i: int)
    requires
        0 <= i < ss.len(),
        fns_pass(ss, table).1 is None,
    ensures
        match ss[i] {
            SStmt::Fn { name, .. } => fns_pass(ss, table).0.contains_key(name@),
            _ => true,
        },
    decreases ss.len(),
{
    match ss[0] {
        SStmt::Fn { name, params, ret: _, body } => {
            let c = fn_code(params, body)->Ok_0;
            let t2 = table.insert(name@, c);
            if i == 0 {
                lemma_fns_pass_keeps(ss.drop_first(), t2, name@);
            } else {
                lemma_fns_pass_binds(ss.drop_first(), t2, i - 1);
                assert(ss.drop_first()[i - 1] == ss[i]);
            }
        },
        _ => {
            if i > 0 {
                lemma_fns_pass_binds(ss.drop_first(), table, i - 1);
                assert(ss.drop_first()[i - 1] == ss[i]);
            }
        },
    }
}

/// Compiling the function declarations of a program keeps every function of
/// the table well formed.
pub proof fn lemma_fns_pass_wf(ss: Seq<SStmt>, table: Map<Seq<char>, Seq<Op>>)
    requires
        table_wf(table),
    ensures
        table_wf(fns_pass(ss, table).0),
    decreases ss.len(),
{
    if ss.len() > 0 {
        match ss[0] {
            SStmt::Fn { name, params, ret: _, body } => {
                lemma_fn_chunk_wf(params, body);
                if let Ok(c) = fn_code(params, body) {
                    let t2 = table.insert(name@, c);
                    assert forall|k: Seq<char>| t2.contains_key(k) implies chunk_wf(#[trigger] t2[k]) by {
                        if k != name@ {
                            assert(table.contains_key(k));
                        }
                    }
                    lemma_fns_pass_wf(ss.drop_first(), t2);
                }
            },
            _ => {
                lemma_fns_pass_wf(ss.drop_first(), table);
            },
        }
    }
}

pub open spec fn stmt_res(r: CompileResult<()>, spec: Result<(Seq<Op>, Scope), Seq<char>>, ops: Seq<Op>, sc: Scope) -> bool {
    match spec {
        Ok((c, sc2)) => r is Ok && ops == c && sc == sc2,
        Err(n) => r matches Err(e) && is_undefined_error(e, n),
    }
}

/// `a` is a prefix of `b`.
pub open spec fn locals_prefix(a: Seq<Local>, b: Seq<Local>) -> bool {
    a.len() <= b.len() && b.subrange(0, a.len() as int) == a
}

impl Compiler {
    /// Slots are numbered from 0 in order.
    pub closed spec fn wf(&self) -> bool {
        &&& scope_wf(self.scope())
        &&& self.next_slot == self.locals@.len()
    }

    fn compile_stmt(&mut self, stmt: &Stmt, chunk: &mut Chunk) -> (r: CompileResult<()>)
        requires
            old(self).wf(),
        ensures
            final(self).wf(),
            final(self).functions() == old(self).functions(),
            stmt_res(
                r,
                stmt_code(old(self).scope(), stmt_view(*stmt), old(chunk).ops@),
                final(chunk).ops@,
                final(self).scope(),
            ),
            r is Ok ==> locals_prefix(old(self).scope().locals, final(self).scope().locals),
        decreases stmt, 1int,
    {
        match stmt {
            Stmt::Let { name, ty, init } => {
                self.compile_expr(init, chunk)?;
                let local_ty = match ty {
                    Some(t) => Some(copy_ty(t)),
                    None => self.expr_type(init),
                };
                let slot = self.next_slot;
                let ghost before = self.locals@;
                self.locals.push((name.clone(), slot, local_ty));
                self.next_slot = self.locals.len();
                chunk.emit(Op::StoreLocal(slot));
                proof {
                    assert(self.locals@.subrange(0, before.len() as int) =~= before);
                }
            },
            Stmt::Assign { name, value } => {
                self.compile_expr(value, chunk)?;
                let slot = self.resolve_local(name)?;
                chunk.emit(Op::StoreLocal(slot));
                proof {
                    assert(self.locals@.subrange(0, self.locals@.len() as int) =~= self.locals@);
                }
            },
            Stmt::ExprStmt(expr) => {
                self.compile_expr(expr, chunk)?;
                proof {
                    assert(self.locals@.subrange(0, self.locals@.len() as int) =~= self.locals@);
                }
            },
            Stmt::Return(expr) => {
                self.compile_expr(expr, chunk)?;
                chunk.emit(Op::Return);
                proof {
                    assert(self.locals@.subrange(0, self.locals@.len() as int) =~= self.locals@);
                }
            },
            Stmt::If { cond, then, else_ } => {
                self.compile_expr(cond, chunk)?;
                let jump_false = chunk.emit_jump(Op::JumpIfFalse(0));
                let ghost c1 = chunk.ops@;
                self.compile_block(then, chunk)?;
                proof {
                    lemma_block_code_extends(self.scope(), stmts_view(then@), c1);
                    assert(chunk.ops@.subrange(0, c1.len() as int)[jump_false as int] == chunk.ops@[jump_false as int]);
                }
                match else_ {
                    Some(else_stmts) => {
                        let jump_over = chunk.emit_jump(Op::Jump(0));
                        chunk.patch_jump(jump_false);
                        let ghost c4 = chunk.ops@;
                        self.compile_block(else_stmts, chunk)?;
                        proof {
                            lemma_block_code_extends(self.scope(), stmts_view(else_stmts@), c4);
                            assert(chunk.ops@.subrange(0, c4.len() as int)[jump_over as int] == chunk.ops@[jump_over as int]);
                        }
                        chunk.patch_jump(jump_over);
                    },
                    None => {
                        chunk.patch_jump(jump_false);
                    },
                }
                proof {
                    assert(self.locals@.subrange(0, self.locals@.len() as int) =~= self.locals@);
                }
            },
            Stmt::While { cond, body } => {
                let loop_start = chunk.ops.len();
                self.compile_expr(cond, chunk)?;
                let jump_false = chunk.emit_jump(Op::JumpIfFalse(0));
                let ghost c1 = chunk.ops@;
                self.compile_block(body, chunk)?;
                proof {
                    lemma_block_code_extends(self.scope(), stmts_view(body@), c1);
                    assert(chunk.ops@.subrange(0, c1.len() as int)[jump_false as int] == chunk.ops@[jump_false as int]);
                }
                chunk.emit(Op::Jump(loop_start));
                chunk.patch_jump(jump_false);
                proof {
                    assert(self.locals@.subrange(0, self.locals@.len() as int) =~= self.locals@);
                }
            },
            Stmt::Fn { .. } => {
                // function declarations are compiled in the program's first pass
                proof {
                    assert(self.locals@.subrange(0, self.locals@.len() as int) =~= self.locals@);
                }
            },
        }
        Ok(())
    }

    /// Compile statements in order from the current scope.
    fn compile_stmts(&mut self, stmts: &Vec<Stmt>, chunk: &mut Chunk) -> (r: CompileResult<()>)
        requires
            old(self).wf(),
        ensures
            final(self).wf(),
            final(self).functions() == old(self).functions(),
            stmt_res(
                r,
                stmts_code(old(self).scope(), stmts_view(stmts@), old(chunk).ops@),
                final(chunk).ops@,
                final(self).scope(),
            ),
            r is Ok ==> locals_prefix(old(self).scope().locals, final(self).scope().locals),
        decreases stmts, 0int,
    {
        let ghost ss = stmts_view(stmts@);
        let ghost target = stmts_code(self.scope(), ss, chunk.ops@);
        let ghost start_locals = self.locals@;
        let mut i: usize = 0;
        proof {
            crate::ast::lemma_stmts_view_len(stmts@);
            assert(ss.skip(0) =~= ss);
            assert(self.locals@.subrange(0, self.locals@.len() as int) =~= self.locals@);
        }
        while i < stmts.len()
            invariant
                self.wf(),
                self.functions() == old(self).functions(),
                i <= stmts@.len(),
                ss == stmts_view(stmts@),
                ss.len() == stmts@.len(),
                start_locals == old(self).scope().locals,
                target == stmts_code(old(self).scope(), ss, old(chunk).ops@),
                stmts_code(self.scope(), ss.skip(i as int), chunk.ops@) == target,
                locals_prefix(start_locals, self.locals@),
            decreases stmts@.len() - i,
        {
            proof {
                lemma_stmts_view_index(stmts@, i as int);
                assert(ss.skip(i as int)[0] == ss[i as int]);
                assert(ss.skip(i as int).drop_first() =~= ss.skip(i + 1));
                broadcast use vstd::std_specs::vec::group_vec_axioms;
                assert(decreases_to!(*stmts => stmts@[i as int]));
            }
            let ghost before_locals = self.locals@;
            let ghost before_ops = chunk.ops@;
            let ghost before_scope = self.scope();
            let r = self.compile_stmt(&stmts[i], chunk);
            match r {
                Ok(()) => {},
                Err(e) => {
                    return Err(e);
                },
            }
            proof {
                assert(self.locals@.subrange(0, start_locals.len() as int) =~= before_locals.subrange(
                    0,
                    start_locals.len() as int,
                ));
            }
            i = i + 1;
        }
        proof {
            assert(ss.skip(stmts@.len() as int).len() == 0);
        }
        Ok(())
    }

    fn compile_block(&mut self, stmts: &Vec<Stmt>, chunk: &mut Chunk) -> (r: CompileResult<()>)
        requires
            old(self).wf(),
        ensures
            final(self).wf(),
            final(self).functions() == old(self).functions(),
            match block_code(old(self).scope(), stmts_view(stmts@), old(chunk).ops@) {
                Ok(c) => r is Ok && final(chunk).ops@ == c && final(self).scope() == old(self).scope(),
                Err(n) => r matches Err(e) && is_undefined_error(e, n),
            },
        decreases stmts, 1int,
    {
        let locals_before = self.locals.len();
        let slot_before = self.next_slot;
        let ghost old_locals = self.locals@;
        self.compile_stmts(stmts, chunk)?;
        // locals introduced in the block go out of scope
        self.locals.truncate(locals_before);
        self.next_slot = slot_before;
        proof {
            assert(self.locals@ =~= old_locals);
        }
        Ok(())
    }

    /// Compile a function body with its parameters as the first locals.
    fn compile_fn(&mut self, params: &Vec<(String, Ty)>, body: &Vec<Stmt>) -> (r: CompileResult<Chunk>)
        requires
            old(self).wf(),
        ensures
            final(self).wf(),
            final(self).functions() == old(self).functions(),
            match fn_code(params@, stmts_view(body@)) {
                Ok(c) => r matches Ok(ch) && ch.ops@ == c && final(self).scope() == old(self).scope(),
                Err(n) => r matches Err(e) && is_undefined_error(e, n),
            },
    {
        // set the outer locals aside
        let mut saved_locals: Vec<Local> = Vec::new();
        std::mem::swap(&mut saved_locals, &mut self.locals);
        let saved_slot = self.next_slot;
        self.next_slot = 0;
        // bind the parameters as the first locals
        let mut i: usize = 0;
        while i < params.len()
            invariant
                i <= params@.len(),
                self.locals@ =~= param_locals(params@).take(i as int),
                self.next_slot == i,
                self.functions() == old(self).functions(),
            decreases params@.len() - i,
        {
            let slot = self.next_slot;
            self.locals.push((params[i].0.clone(), slot, Some(copy_ty(&params[i].1))));
            self.next_slot = self.locals.len();
            i = i + 1;
        }
        proof {
            assert(param_locals(params@).take(params@.len() as int) =~= param_locals(params@));
        }
        let mut chunk = Chunk { ops: Vec::new() };
        let r = self.compile_stmts(body, &mut chunk);
        match r {
            Ok(()) => {},
            Err(e) => {
                return Err(e);
            },
        }
        // implicit nil return after the body
        chunk.emit(Op::Const(Value::Nil));
        chunk.emit(Op::Return);
        // restore the outer locals
        self.locals = saved_locals;
        self.next_slot = saved_slot;
        Ok(chunk)
    }

    /// Compile a program: its function declarations into the function table,
    /// then its other statements into the main chunk, ended by `Halt`.
    pub fn compile_program(&mut self, stmts: &[Stmt]) -> (r: CompileResult<Chunk>)
        requires
            old(self).wf(),
        ensures
            final(self).wf(),
            ({
                let (table, err) = fns_pass(stmts_view(stmts@), old(self).functions());
                &&& final(self).functions() == table
                &&& match err {
                    Some(n) => r matches Err(e) && is_undefined_error(e, n),
                    None => match stmts_code(old(self).scope(), stmts_view(stmts@), Seq::empty()) {
                        Ok((c, sc)) => r matches Ok(ch) && ch.ops@ == c.push(Op::Halt)
                            && final(self).scope() == sc,
                        Err(n) => r matches Err(e) && is_undefined_error(e, n),
                    },
                }
            }),
    {
        let ghost ss = stmts_view(stmts@);
        let ghost table0 = self.functions();
        proof {
            crate::ast::lemma_stmts_view_len(stmts@);
            assert(ss.skip(0) =~= ss);
        }
        // first pass: compile every function declaration into the table
        let mut i: usize = 0;
        while i < stmts.len()
            invariant
                self.wf(),
                self.scope() == old(self).scope(),
                i <= stmts@.len(),
                ss == stmts_view(stmts@),
                ss.len() == stmts@.len(),
                table0 == old(self).functions(),
                fns_pass(ss, table0) == fns_pass(ss.skip(i as int), self.functions()),
            decreases stmts@.len() - i,
        {
            proof {
                lemma_stmts_view_index(stmts@, i as int);
                assert(ss.skip(i as int)[0] == ss[i as int]);
                assert(ss.skip(i as int).drop_first() =~= ss.skip(i + 1));
            }
            match &stmts[i] {
                Stmt::Fn { name, params, body, .. } => {
                    let chunk = self.compile_fn(params, body)?;
                    self.fns.insert(name.clone(), chunk);
                },
                _ => {},
            }
            i = i + 1;
        }
        proof {
            assert(ss.skip(stmts@.len() as int).len() == 0);
        }
        // second pass: compile the other statements into the main chunk
        let mut chunk = Chunk { ops: Vec::new() };
        let ghost target = stmts_code(self.scope(), ss, Seq::empty());
        let mut i: usize = 0;
        while i < stmts.len()
            invariant
                self.wf(),
                self.functions() == fns_pass(ss, table0).0,
                fns_pass(ss, table0).1 is None,
                table0 == old(self).functions(),
                i <= stmts@.len(),
                ss == stmts_view(stmts@),
                ss.len() == stmts@.len(),
                target == stmts_code(old(self).scope(), ss, Seq::empty()),
                stmts_code(self.scope(), ss.skip(i as int), chunk.ops@) == target,
            decreases stmts@.len() - i,
        {
            proof {
                lemma_stmts_view_index(stmts@, i as int);
                assert(ss.skip(i as int)[0] == ss[i as int]);
                assert(ss.skip(i as int).drop_first() =~= ss.skip(i + 1));
            }
            let is_fn = match &stmts[i] {
                Stmt::Fn { .. } => true,
                _ => false,
            };
            if !is_fn {
                self.compile_stmt(&stmts[i], &mut chunk)?;
            } else {
                assert(stmt_code(self.scope(), ss[i as int], chunk.ops@) == Ok::<(Seq<Op>, Scope), Seq<char>>((chunk.ops@, self.scope())));
            }
            i = i + 1;
        }
        proof {
            assert(ss.skip(stmts@.len() as int).len() == 0);
        }
        chunk.emit(Op::Halt);
        Ok(chunk)
    }
}

} // verus!
