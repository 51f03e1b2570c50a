//! What compiled programs mean: laws that tie the parser's grammar, the
//! compiler's choice of instructions and the VM's steps to the plain
//! arithmetic and comparisons that the language's operators stand for.

use vstd::prelude::*;
use crate::ast::{BinOp, SExpr, SStmt, Ty};
use crate::compiler::{
    binop_instr, binop_type, neg_instr, expr_code, fns_pass, stmt_code, stmts_code, Local, Op, Scope, Value,
};
use crate::parser::{expr_semi, binary_at, binary_rest, binop_for, kind_at, operand_at, primary_at, program_at, unary_at};
use crate::token::{Token, TokenKind};
use crate::vm::{
    running, store_local, program_machine, stack_effect, step_spec, trunc_div, trunc_rem, FloatOp, FrameView, Outcome, VVal, VmView,
};

verus! {

/// On two int operands `a` (below) and `b` (on top), the instruction that the
/// compiler picks for an operator on ints (or on operands of unknown type)
/// replaces them by what the operator means: the comparison's truth value,
/// or the sum, difference or product when it fits in `i64`.
pub proof fn lemma_int_operator_meaning(op: BinOp, t: Option<Ty>, st: Seq<VVal>, a: i64, b: i64)
    requires
        t == Some(Ty::Int) || t is None,
    ensures
        ({
            let r = stack_effect(binop_instr(op, t), st.push(VVal::Int(a)).push(VVal::Int(b)));
            &&& op == BinOp::Lt ==> r == (st.push(VVal::Bool(a < b)), Outcome::Continue)
            &&& op == BinOp::LtEq ==> r == (st.push(VVal::Bool(a <= b)), Outcome::Continue)
            &&& op == BinOp::Gt ==> r == (st.push(VVal::Bool(a > b)), Outcome::Continue)
            &&& op == BinOp::GtEq ==> r == (st.push(VVal::Bool(a >= b)), Outcome::Continue)
            &&& op == BinOp::Eq ==> r == (st.push(VVal::Bool(a == b)), Outcome::Continue)
            &&& op == BinOp::NotEq ==> r == (st.push(VVal::Bool(a != b)), Outcome::Continue)
            &&& (op == BinOp::Add && i64::MIN <= a + b <= i64::MAX) ==> r == (
                st.push(VVal::Int((a + b) as i64)),
                Outcome::Continue,
            )
            &&& (op == BinOp::Sub && i64::MIN <= a - b <= i64::MAX) ==> r == (
                st.push(VVal::Int((a - b) as i64)),
                Outcome::Continue,
            )
            &&& (op == BinOp::Mul && i64::MIN <= a * b <= i64::MAX) ==> r == (
                st.push(VVal::Int((a * b) as i64)),
                Outcome::Continue,
            )
        }),
{
    let s2 = st.push(VVal::Int(a)).push(VVal::Int(b));
    assert(s2.drop_last() =~= st.push(VVal::Int(a)));
    assert(s2.drop_last().drop_last() =~= st);
}

/// On two string operands the instruction for `+` joins them and those for
/// `==` and `!=` compare them; on two bools `&&`, `||`, `==` and `!=` mean
/// what they say.
pub proof fn lemma_str_bool_operator_meaning(op: BinOp, st: Seq<VVal>, x: Seq<char>, y: Seq<char>, p: bool, q: bool)
    ensures
        ({
            let r = stack_effect(binop_instr(op, Some(Ty::Str)), st.push(VVal::Str(x)).push(VVal::Str(y)));
            &&& op == BinOp::Add ==> r == (st.push(VVal::Str(x + y)), Outcome::Continue)
            &&& op == BinOp::Eq ==> r == (st.push(VVal::Bool(x == y)), Outcome::Continue)
            &&& op == BinOp::NotEq ==> r == (st.push(VVal::Bool(x != y)), Outcome::Continue)
        }),
        ({
            let r = stack_effect(binop_instr(op, Some(Ty::Bool)), st.push(VVal::Bool(p)).push(VVal::Bool(q)));
            &&& op == BinOp::And ==> r == (st.push(VVal::Bool(p && q)), Outcome::Continue)
            &&& op == BinOp::Or ==> r == (st.push(VVal::Bool(p || q)), Outcome::Continue)
            &&& op == BinOp::Eq ==> r == (st.push(VVal::Bool(p == q)), Outcome::Continue)
            &&& op == BinOp::NotEq ==> r == (st.push(VVal::Bool(p != q)), Outcome::Continue)
        }),
{
    let s1 = st.push(VVal::Str(x)).push(VVal::Str(y));
    assert(s1.drop_last() =~= st.push(VVal::Str(x)));
    assert(s1.drop_last().drop_last() =~= st);
    let s2 = st.push(VVal::Bool(p)).push(VVal::Bool(q));
    assert(s2.drop_last() =~= st.push(VVal::Bool(p)));
    assert(s2.drop_last().drop_last() =~= st);
}

/// On two float operands the instruction for each arithmetic operator or
/// comparison pops them and asks the host for that same operation on them.
pub proof fn lemma_float_operator_meaning(op: BinOp, st: Seq<VVal>, a: u64, b: u64)
    ensures
        ({
            let r = stack_effect(binop_instr(op, Some(Ty::Float)), st.push(VVal::Float(a)).push(VVal::Float(b)));
            &&& op == BinOp::Add ==> r == (st, Outcome::Float(FloatOp::Add, a, b))
            &&& op == BinOp::Sub ==> r == (st, Outcome::Float(FloatOp::Sub, a, b))
            &&& op == BinOp::Mul ==> r == (st, Outcome::Float(FloatOp::Mul, a, b))
            &&& op == BinOp::Div ==> r == (st, Outcome::Float(FloatOp::Div, a, b))
            &&& op == BinOp::Lt ==> r == (st, Outcome::Float(FloatOp::Lt, a, b))
            &&& op == BinOp::LtEq ==> r == (st, Outcome::Float(FloatOp::LtEq, a, b))
            &&& op == BinOp::Gt ==> r == (st, Outcome::Float(FloatOp::Gt, a, b))
            &&& op == BinOp::GtEq ==> r == (st, Outcome::Float(FloatOp::GtEq, a, b))
            &&& op == BinOp::Eq ==> r == (st, Outcome::Float(FloatOp::Eq, a, b))
            &&& op == BinOp::NotEq ==> r == (st, Outcome::Float(FloatOp::Neq, a, b))
        }),
{
    let s0 = st.push(VVal::Float(a)).push(VVal::Float(b));
    assert(s0.drop_last() =~= st.push(VVal::Float(a)));
    assert(s0.drop_last().drop_last() =~= st);
}

/// Negation and `!`: the instruction for `-` on an int replaces it by its
/// negation (when that fits), on a float asks the host to negate it; `!`
/// replaces a bool by its opposite.
pub proof fn lemma_unary_meaning(t: Option<Ty>, st: Seq<VVal>, a: i64, x: u64, p: bool)
    ensures
        (t == Some(Ty::Int) || t is None) && a != i64::MIN ==> stack_effect(neg_instr(t), st.push(VVal::Int(a)))
            == (st.push(VVal::Int((-a) as i64)), Outcome::Continue),
        t == Some(Ty::Float) ==> stack_effect(neg_instr(t), st.push(VVal::Float(x))) == (
            st,
            Outcome::Float(FloatOp::Neg, x, 0),
        ),
        stack_effect(Op::Not, st.push(VVal::Bool(p))) == (st.push(VVal::Bool(!p)), Outcome::Continue),
{
    assert(st.push(VVal::Int(a)).drop_last() =~= st);
    assert(st.push(VVal::Float(x)).drop_last() =~= st);
    assert(st.push(VVal::Bool(p)).drop_last() =~= st);
}

/// Integer division rounds toward zero: on `a` and a non-zero `b` (and not
/// `i64::MIN / -1`), the quotient `q` and remainder `r` that the division
/// and remainder instructions give satisfy `a == q * b + r`, with `r` of the
/// sign of `a` and smaller than `b` in size.
pub proof fn lemma_division_meaning(st: Seq<VVal>, a: i64, b: i64)
    requires
        b != 0,
        !(a == i64::MIN && b == -1),
    ensures
        ({
            let s0 = st.push(VVal::Int(a)).push(VVal::Int(b));
            let (s1, o1) = stack_effect(Op::DivInt, s0);
            let (s2, o2) = stack_effect(Op::ModInt, s0);
            let ub: int = if b < 0 { -b } else { b as int };
            &&& o1 is Continue && o2 is Continue
            &&& s1.drop_last() == st && s2.drop_last() == st
            &&& s1.last() is Int && s2.last() is Int
            &&& a == (s1.last()->Int_0) * b + (s2.last()->Int_0)
            &&& a >= 0 ==> 0 <= s2.last()->Int_0 < ub
            &&& a < 0 ==> -ub < s2.last()->Int_0 <= 0
        }),
{
    let s0 = st.push(VVal::Int(a)).push(VVal::Int(b));
    assert(s0.drop_last() =~= st.push(VVal::Int(a)));
    assert(s0.drop_last().drop_last() =~= st);
    let ua: int = if a < 0 { -a } else { a as int };
    let ub: int = if b < 0 { -b } else { b as int };
    let uq = ua / ub;
    assert(0 <= ua - ub * uq < ub) by (nonlinear_arith)
        requires
            ub >= 1,
            ua >= 0,
            uq == ua / ub,
    ;
    assert(uq <= ua) by (nonlinear_arith)
        requires
            ub >= 1,
            ua >= 0,
            uq == ua / ub,
    ;
    if uq == 0x8000_0000_0000_0000 {
        assert(ub == 1) by (nonlinear_arith)
            requires
                uq == ua / ub,
                ua <= 0x8000_0000_0000_0000,
                ub >= 1,
                uq == 0x8000_0000_0000_0000,
        ;
        assert(a == i64::MIN && b == 1);
    }
    let q = trunc_div(a as int, b as int);
    assert(q == if (a < 0) != (b < 0) { -uq } else { uq });
    assert(q * b == (if a < 0 { -(ub * uq) } else { ub * uq })) by (nonlinear_arith)
        requires
            q == (if (a < 0) != (b < 0) { -uq } else { uq }),
            ub == (if b < 0 { -b } else { b as int }),
            b != 0,
    ;
    assert(i64::MIN <= q <= i64::MAX) by (nonlinear_arith)
        requires
            0 <= uq <= ua,
            ua <= 0x8000_0000_0000_0000,
            q == (if (a < 0) != (b < 0) { -uq } else { uq }),
            uq == 0x8000_0000_0000_0000 ==> ((a < 0) == (b < 0)) == false,
    {
    }
    let r = trunc_rem(a as int, b as int);
    assert(r == a - b * q);
    assert(b * q == q * b) by (nonlinear_arith);
    assert(a >= 0 ==> r == ua - ub * uq);
    assert(a < 0 ==> r == -(ua - ub * uq));
    assert(ub <= 0x8000_0000_0000_0000);
    let (s1, o1) = stack_effect(Op::DivInt, s0);
    let (s2, o2) = stack_effect(Op::ModInt, s0);
    assert(s1 == st.push(VVal::Int(q as i64)));
    assert(s2 == st.push(VVal::Int(r as i64)));
    assert(s1.drop_last() =~= st);
    assert(s2.drop_last() =~= st);
}

/// Storing in a local slot: the slot then holds the value, every other
/// slot keeps its value, and slots added in between hold nil.
pub proof fn lemma_store_local(locals: Seq<VVal>, idx: int, v: VVal)
    requires
        0 <= idx,
    ensures
        store_local(locals, idx, v).len() == (if idx < locals.len() {
            locals.len() as int
        } else {
            idx + 1
        }),
        store_local(locals, idx, v)[idx] == v,
        forall|j: int|
            0 <= j < locals.len() && j != idx ==> #[trigger] store_local(locals, idx, v)[j] == locals[j],
        forall|j: int| locals.len() <= j < idx ==> #[trigger] store_local(locals, idx, v)[j] == VVal::Nil,
{
}

/// A store into a local followed by a load of the same local gives back the
/// stored value: the stack ends as it was, and the locals keep the value.
pub proof fn lemma_store_then_load(s: VmView, k: usize)
    requires
        running(s),
        s.frames.last().ip + 1 < s.frames.last().ops.len(),
        s.frames.last().ops[s.frames.last().ip] == Op::StoreLocal(k),
        s.frames.last().ops[s.frames.last().ip + 1] == Op::LoadLocal(k),
        s.frames.last().base >= 0,
        s.stack.len() > 0,
    ensures
        ({
            let (s1, o1) = step_spec(s);
            let (s2, o2) = step_spec(s1);
            &&& o1 is Continue && o2 is Continue
            &&& s2.stack == s.stack
            &&& s2.locals == s1.locals
            &&& s1.locals[s.frames.last().base + k] == s.stack.last()
            &&& s2.frames.last().ip == s.frames.last().ip + 2
        }),
{
    let f = s.frames.last();
    let idx = f.base + k;
    lemma_store_local(s.locals, idx, s.stack.last());
    let (s1, o1) = step_spec(s);
    assert(s1.frames.last() == FrameView { ops: f.ops, ip: f.ip + 1, base: f.base });
    assert(s1.frames.drop_last() == s.frames.drop_last());
    assert(s1.stack == s.stack.drop_last());
    assert(s.stack.drop_last().push(s.stack.last()) =~= s.stack);
}

/// The outcome of running the machine for at most `n` steps: the outcome of
/// the first step that does not just ask to go on, or `Continue` when all `n`
/// steps do.
pub open spec fn run_for(s: VmView, n: nat) -> Outcome
    decreases n,
{
    if n == 0 {
        Outcome::Continue
    } else {
        let (s2, o) = step_spec(s);
        if o is Continue {
            run_for(s2, (n - 1) as nat)
        } else {
            o
        }
    }
}

/// An int literal followed by a token that no operator level takes is, at
/// every level from `level` up, just that literal.
proof fn lemma_literal_operand(t: Seq<Token>, p: int, n: i64, level: int)
    requires
        0 <= p,
        p + 1 < t.len(),
        0 <= level <= 5,
        t[p].kind == TokenKind::Int(n),
        forall|l: int| level <= l <= 5 ==> (#[trigger] binop_for(l, kind_at(t, p + 1))) is None,
    ensures
        binary_at(t, p, level) == Ok::<(SExpr, int), (int, Seq<char>)>((SExpr::Int(n), p + 1)),
    decreases 5 - level,
{
    let lit = Ok::<(SExpr, int), (int, Seq<char>)>((SExpr::Int(n), p + 1));
    if level < 5 {
        lemma_literal_operand(t, p, n, level + 1);
    }
    assert(kind_at(t, p) == TokenKind::Int(n));
    assert(primary_at(t, p) == lit);
    assert(unary_at(t, p) == lit);
    assert(operand_at(t, p, level) == lit);
    assert(binop_for(level, kind_at(t, p + 1)) is None);
    assert(binary_rest(t, p + 1, level, SExpr::Int(n)) == lit);
}

/// An expression parsed at level `top`, followed by a token that no operator
/// level takes, is the same expression at every lower level.
proof fn lemma_lift_level(t: Seq<Token>, p: int, l: int, top: int, e: SExpr, q: int)
    requires
        0 <= l <= top <= 5,
        0 <= p < q < t.len(),
        binary_at(t, p, top) == Ok::<(SExpr, int), (int, Seq<char>)>((e, q)),
        forall|l2: int| l <= l2 <= top ==> (#[trigger] binop_for(l2, kind_at(t, q))) is None,
    ensures
        binary_at(t, p, l) == Ok::<(SExpr, int), (int, Seq<char>)>((e, q)),
    decreases top - l,
{
    if l < top {
        lemma_lift_level(t, p, l + 1, top, e, q);
        assert(binop_for(l, kind_at(t, q)) is None);
    }
}

/// The operator level and operator that an infix token stands for.
spec fn infix(k: TokenKind) -> (int, BinOp) {
    match k {
        TokenKind::EqualEqual => (2, BinOp::Eq),
        TokenKind::BangEqual => (2, BinOp::NotEq),
        TokenKind::Less => (3, BinOp::Lt),
        TokenKind::LessEqual => (3, BinOp::LtEq),
        TokenKind::Greater => (3, BinOp::Gt),
        TokenKind::GreaterEqual => (3, BinOp::GtEq),
        TokenKind::Plus => (4, BinOp::Add),
        TokenKind::Minus => (4, BinOp::Sub),
        TokenKind::AmpAmp => (1, BinOp::And),
        TokenKind::PipePipe => (0, BinOp::Or),
        TokenKind::Slash => (5, BinOp::Div),
        TokenKind::Percent => (5, BinOp::Mod),
        _ => (5, BinOp::Mul),
    }
}

/// The tokens that stand for binary operators.
spec fn is_infix(k: TokenKind) -> bool {
    k is EqualEqual || k is BangEqual || k is Less || k is LessEqual || k is Greater
        || k is GreaterEqual || k is Plus || k is Minus || k is Star || k is Slash || k is Percent
        || k is AmpAmp || k is PipePipe
}

/// An infix token stands at exactly one operator level, for its operator.
proof fn lemma_infix_level(k: TokenKind)
    requires
        is_infix(k),
    ensures
        binop_for(infix(k).0, k) == Some(infix(k).1),
        0 <= infix(k).0 <= 5,
        forall|l: int| 0 <= l <= 5 && l != infix(k).0 ==> (#[trigger] binop_for(l, k)) is None,
{
}

/// `x k y` at `p`, followed by a token that no level from `lo` up takes,
/// is one binary node at every level from `lo` up to that of `k`.
proof fn lemma_one_infix(t: Seq<Token>, p: int, x: i64, y: i64, lo: int)
    requires
        0 <= p,
        p + 3 < t.len(),
        t[p].kind == TokenKind::Int(x),
        is_infix(t[p + 1].kind),
        t[p + 2].kind == TokenKind::Int(y),
        0 <= lo <= infix(t[p + 1].kind).0,
        forall|l: int| lo <= l <= 5 ==> (#[trigger] binop_for(l, kind_at(t, p + 3))) is None,
    ensures
        binary_at(t, p, lo) == Ok::<(SExpr, int), (int, Seq<char>)>(
            (
                SExpr::Binary {
                    op: infix(t[p + 1].kind).1,
                    lhs: Box::new(SExpr::Int(x)),
                    rhs: Box::new(SExpr::Int(y)),
                },
                p + 3,
            ),
        ),
{
    let k = t[p + 1].kind;
    let (lv, op) = infix(k);
    lemma_infix_level(k);
    assert(kind_at(t, p + 1) == k);
    if lv < 5 {
        lemma_literal_operand(t, p, x, lv + 1);
        lemma_literal_operand(t, p + 2, y, lv + 1);
    }
    let e = SExpr::Binary { op, lhs: Box::new(SExpr::Int(x)), rhs: Box::new(SExpr::Int(y)) };
    let ok_x = Ok::<(SExpr, int), (int, Seq<char>)>((SExpr::Int(x), p + 1));
    let ok_y = Ok::<(SExpr, int), (int, Seq<char>)>((SExpr::Int(y), p + 3));
    assert(kind_at(t, p) == TokenKind::Int(x));
    assert(kind_at(t, p + 2) == TokenKind::Int(y));
    assert(primary_at(t, p) == ok_x);
    assert(unary_at(t, p) == ok_x);
    assert(primary_at(t, p + 2) == ok_y);
    assert(unary_at(t, p + 2) == ok_y);
    assert(operand_at(t, p, lv) == ok_x);
    assert(operand_at(t, p + 2, lv) == ok_y);
    assert(binop_for(lv, kind_at(t, p + 3)) is None);
    assert(binary_rest(t, p + 3, lv, e) == Ok::<(SExpr, int), (int, Seq<char>)>((e, p + 3)));
    assert(binary_rest(t, p + 1, lv, SExpr::Int(x)) == Ok::<(SExpr, int), (int, Seq<char>)>((e, p + 3)));
    assert(binary_at(t, p, lv) == Ok::<(SExpr, int), (int, Seq<char>)>((e, p + 3)));
    lemma_lift_level(t, p, lo, lv, e, p + 3);
}

/// `a k1 b k2 c` followed by a token that no level takes: the operator of
/// the higher level binds tighter, and operators of one level group to the
/// left.
proof fn lemma_two_infix(t: Seq<Token>, a: i64, b: i64, c: i64)
    requires
        t.len() > 5,
        t[0].kind == TokenKind::Int(a),
        is_infix(t[1].kind),
        t[2].kind == TokenKind::Int(b),
        is_infix(t[3].kind),
        t[4].kind == TokenKind::Int(c),
        forall|l: int| 0 <= l <= 5 ==> (#[trigger] binop_for(l, kind_at(t, 5))) is None,
    ensures
        ({
            let (l1, o1) = infix(t[1].kind);
            let (l2, o2) = infix(t[3].kind);
            let ea = Box::new(SExpr::Int(a));
            let eb = Box::new(SExpr::Int(b));
            let ec = Box::new(SExpr::Int(c));
            binary_at(t, 0, 0) == Ok::<(SExpr, int), (int, Seq<char>)>(
                (
                    if l1 < l2 {
                        SExpr::Binary { op: o1, lhs: ea, rhs: Box::new(SExpr::Binary { op: o2, lhs: eb, rhs: ec }) }
                    } else {
                        SExpr::Binary { op: o2, lhs: Box::new(SExpr::Binary { op: o1, lhs: ea, rhs: eb }), rhs: ec }
                    },
                    5,
                ),
            )
        }),
{
    let k1 = t[1].kind;
    let k2 = t[3].kind;
    let (l1, o1) = infix(k1);
    let (l2, o2) = infix(k2);
    lemma_infix_level(k1);
    lemma_infix_level(k2);
    assert(kind_at(t, 1) == k1);
    assert(kind_at(t, 3) == k2);
    assert(kind_at(t, 0) == TokenKind::Int(a));
    assert(kind_at(t, 2) == TokenKind::Int(b));
    assert(kind_at(t, 4) == TokenKind::Int(c));
    let ea = Box::new(SExpr::Int(a));
    let eb = Box::new(SExpr::Int(b));
    let ec = Box::new(SExpr::Int(c));
    let ok_a = Ok::<(SExpr, int), (int, Seq<char>)>((SExpr::Int(a), 1));
    let ok_b = Ok::<(SExpr, int), (int, Seq<char>)>((SExpr::Int(b), 3));
    let ok_c = Ok::<(SExpr, int), (int, Seq<char>)>((SExpr::Int(c), 5));
    assert(primary_at(t, 0) == ok_a);
    assert(unary_at(t, 0) == ok_a);
    assert(primary_at(t, 2) == ok_b);
    assert(unary_at(t, 2) == ok_b);
    assert(primary_at(t, 4) == ok_c);
    assert(unary_at(t, 4) == ok_c);
    if l1 < l2 {
        let inner = SExpr::Binary { op: o2, lhs: eb, rhs: ec };
        let whole = SExpr::Binary { op: o1, lhs: ea, rhs: Box::new(inner) };
        lemma_one_infix(t, 2, b, c, l1 + 1);
        lemma_literal_operand(t, 0, a, l1 + 1);
        assert(operand_at(t, 0, l1) == ok_a);
        assert(operand_at(t, 2, l1) == Ok::<(SExpr, int), (int, Seq<char>)>((inner, 5)));
        assert(binary_rest(t, 5, l1, whole) == Ok::<(SExpr, int), (int, Seq<char>)>((whole, 5)));
        assert(binary_rest(t, 1, l1, SExpr::Int(a)) == Ok::<(SExpr, int), (int, Seq<char>)>((whole, 5)));
        assert(binary_at(t, 0, l1) == Ok::<(SExpr, int), (int, Seq<char>)>((whole, 5)));
        lemma_lift_level(t, 0, 0, l1, whole, 5);
    } else if l1 == l2 {
        let left = SExpr::Binary { op: o1, lhs: ea, rhs: eb };
        let whole = SExpr::Binary { op: o2, lhs: Box::new(left), rhs: ec };
        if l1 < 5 {
            lemma_literal_operand(t, 0, a, l1 + 1);
            lemma_literal_operand(t, 2, b, l1 + 1);
            lemma_literal_operand(t, 4, c, l1 + 1);
        }
        assert(operand_at(t, 0, l1) == ok_a);
        assert(operand_at(t, 2, l1) == ok_b);
        assert(operand_at(t, 4, l1) == ok_c);
        assert(binary_rest(t, 5, l1, whole) == Ok::<(SExpr, int), (int, Seq<char>)>((whole, 5)));
        assert(binary_rest(t, 3, l1, left) == Ok::<(SExpr, int), (int, Seq<char>)>((whole, 5)));
        assert(binary_rest(t, 1, l1, SExpr::Int(a)) == Ok::<(SExpr, int), (int, Seq<char>)>((whole, 5)));
        assert(binary_at(t, 0, l1) == Ok::<(SExpr, int), (int, Seq<char>)>((whole, 5)));
        lemma_lift_level(t, 0, 0, l1, whole, 5);
    } else {
        let left = SExpr::Binary { op: o1, lhs: ea, rhs: eb };
        let whole = SExpr::Binary { op: o2, lhs: Box::new(left), rhs: ec };
        lemma_one_infix(t, 0, a, b, l2 + 1);
        lemma_literal_operand(t, 4, c, l2 + 1);
        assert(operand_at(t, 0, l2) == Ok::<(SExpr, int), (int, Seq<char>)>((left, 3)));
        assert(operand_at(t, 4, l2) == ok_c);
        assert(binary_rest(t, 5, l2, whole) == Ok::<(SExpr, int), (int, Seq<char>)>((whole, 5)));
        assert(binary_rest(t, 3, l2, left) == Ok::<(SExpr, int), (int, Seq<char>)>((whole, 5)));
        assert(binary_at(t, 0, l2) == Ok::<(SExpr, int), (int, Seq<char>)>((whole, 5)));
        lemma_lift_level(t, 0, 0, l2, whole, 5);
    }
}

/// The program `a k b;` (two int literals around a comparison or `+`, `-`,
/// `*`) parses, compiles, and when run ends within four steps with what the
/// operator means on `a` and `b`.
#[verifier::spinoff_prover]
#[verifier::rlimit(40)]
pub proof fn lemma_infix_program(t: Seq<Token>, a: i64, b: i64)
    requires
        t.len() == 5,
        t[0].kind == TokenKind::Int(a),
        t[2].kind == TokenKind::Int(b),
        t[3].kind is Semicolon,
        t[4].kind is Eof,
        t[1].kind is EqualEqual || t[1].kind is BangEqual || t[1].kind is Less || t[1].kind is LessEqual
            || t[1].kind is Greater || t[1].kind is GreaterEqual || t[1].kind is Plus
            || t[1].kind is Minus || t[1].kind is Star,
    ensures
        program_at(t, 0, Seq::empty()) matches Ok((ss, _)) && program_machine(ss) matches Ok(m) && {
            let r = run_for(m, 4);
            &&& t[1].kind is EqualEqual ==> r == Outcome::Halted(VVal::Bool(a == b))
            &&& t[1].kind is BangEqual ==> r == Outcome::Halted(VVal::Bool(a != b))
            &&& t[1].kind is Less ==> r == Outcome::Halted(VVal::Bool(a < b))
            &&& t[1].kind is LessEqual ==> r == Outcome::Halted(VVal::Bool(a <= b))
            &&& t[1].kind is Greater ==> r == Outcome::Halted(VVal::Bool(a > b))
            &&& t[1].kind is GreaterEqual ==> r == Outcome::Halted(VVal::Bool(a >= b))
            &&& (t[1].kind is Plus && i64::MIN <= a + b <= i64::MAX) ==> r == Outcome::Halted(
                VVal::Int((a + b) as i64),
            )
            &&& (t[1].kind is Minus && i64::MIN <= a - b <= i64::MAX) ==> r == Outcome::Halted(
                VVal::Int((a - b) as i64),
            )
            &&& (t[1].kind is Star && i64::MIN <= a * b <= i64::MAX) ==> r == Outcome::Halted(
                VVal::Int((a * b) as i64),
            )
        },
{
    let k = t[1].kind;
    let (lv, op) = infix(k);
    assert(kind_at(t, 1) == k);
    assert(kind_at(t, 3) is Semicolon);
    assert(binop_for(lv, k) == Some(op));
    // the operands
    if lv < 5 {
        lemma_literal_operand(t, 0, a, lv + 1);
        lemma_literal_operand(t, 2, b, lv + 1);
    }
    assert(forall|l: int| 0 <= l <= 5 ==> (#[trigger] binop_for(l, kind_at(t, 3))) is None);
    let e = SExpr::Binary { op, lhs: Box::new(SExpr::Int(a)), rhs: Box::new(SExpr::Int(b)) };
    let ok_a = Ok::<(SExpr, int), (int, Seq<char>)>((SExpr::Int(a), 1));
    let ok_b = Ok::<(SExpr, int), (int, Seq<char>)>((SExpr::Int(b), 3));
    assert(kind_at(t, 0) == TokenKind::Int(a));
    assert(kind_at(t, 2) == TokenKind::Int(b));
    assert(primary_at(t, 0) == ok_a);
    assert(unary_at(t, 0) == ok_a);
    assert(primary_at(t, 2) == ok_b);
    assert(unary_at(t, 2) == ok_b);
    assert(operand_at(t, 0, lv) == ok_a);
    assert(operand_at(t, 2, lv) == ok_b);
    assert(binop_for(lv, kind_at(t, 3)) is None);
    assert(binary_rest(t, 3, lv, e) == Ok::<(SExpr, int), (int, Seq<char>)>((e, 3)));
    assert(binary_rest(t, 1, lv, SExpr::Int(a)) == Ok::<(SExpr, int), (int, Seq<char>)>((e, 3)));
    assert(binary_at(t, 0, lv) == Ok::<(SExpr, int), (int, Seq<char>)>((e, 3)));
    lemma_lift_level(t, 0, 0, lv, e, 3);
    let ss = seq![SStmt::ExprStmt(e)];
    assert(program_at(t, 4, seq![SStmt::ExprStmt(e)]) == Ok::<(Seq<SStmt>, int), (int, Seq<char>)>((ss, 4)));
    assert(program_at(t, 0, Seq::empty()) == Ok::<(Seq<SStmt>, int), (int, Seq<char>)>((ss, 4)));
    // compiling
    let locals0 = Seq::<Local>::empty();
    let sc0 = Scope { locals: locals0, next_slot: 0 };
    assert(ss.drop_first().len() == 0);
    assert(ss[0] == SStmt::ExprStmt(e));
    assert(fns_pass(ss.drop_first(), Map::empty()) == (Map::<Seq<char>, Seq<Op>>::empty(), None::<Seq<char>>));
    assert(fns_pass(ss, Map::empty()) == (Map::<Seq<char>, Seq<Op>>::empty(), None::<Seq<char>>));
    let c1 = seq![Op::Const(Value::Int(a))];
    let c2 = c1.push(Op::Const(Value::Int(b)));
    let instr = binop_instr(op, Some(Ty::Int));
    let c = c2.push(instr);
    assert(Seq::<Op>::empty().push(Op::Const(Value::Int(a))) =~= c1);
    assert(expr_code(locals0, SExpr::Int(a), Seq::empty()) == Ok::<Seq<Op>, Seq<char>>(c1));
    assert(expr_code(locals0, SExpr::Int(b), c1) == Ok::<Seq<Op>, Seq<char>>(c2));
    assert(binop_type(locals0, SExpr::Int(a), SExpr::Int(b)) == Some(Ty::Int));
    assert(expr_code(locals0, e, Seq::empty()) == Ok::<Seq<Op>, Seq<char>>(c));
    assert(stmt_code(sc0, SStmt::ExprStmt(e), Seq::empty()) == Ok::<(Seq<Op>, Scope), Seq<char>>((c, sc0)));
    assert(stmts_code(sc0, ss.drop_first(), c) == Ok::<(Seq<Op>, Scope), Seq<char>>((c, sc0)));
    assert(stmts_code(sc0, ss, Seq::empty()) == Ok::<(Seq<Op>, Scope), Seq<char>>((c, sc0)));
    let code = c.push(Op::Halt);
    let at = |stack: Seq<VVal>, ip: int|
        VmView {
            stack,
            locals: Seq::empty(),
            fns: Map::empty(),
            frames: seq![FrameView { ops: code, ip, base: 0 }],
        };
    let m = at(Seq::empty(), 0);
    assert(program_machine(ss) == Ok::<VmView, Seq<char>>(m));
    // running
    let st1 = seq![VVal::Int(a)];
    let st2 = st1.push(VVal::Int(b));
    assert(Seq::<VVal>::empty().push(VVal::Int(a)) =~= st1);
    assert(code[0] == Op::Const(Value::Int(a)));
    assert(code[1] == Op::Const(Value::Int(b)));
    assert(code[2] == instr);
    assert(code[3] == Op::Halt);
    assert(seq![FrameView { ops: code, ip: 0, base: 0 }].drop_last().push(FrameView { ops: code, ip: 1, base: 0 })
        =~= seq![FrameView { ops: code, ip: 1, base: 0 }]);
    assert(seq![FrameView { ops: code, ip: 1, base: 0 }].drop_last().push(FrameView { ops: code, ip: 2, base: 0 })
        =~= seq![FrameView { ops: code, ip: 2, base: 0 }]);
    assert(seq![FrameView { ops: code, ip: 2, base: 0 }].drop_last().push(FrameView { ops: code, ip: 3, base: 0 })
        =~= seq![FrameView { ops: code, ip: 3, base: 0 }]);
    assert(step_spec(m) == (at(st1, 1), Outcome::Continue));
    assert(step_spec(at(st1, 1)) == (at(st2, 2), Outcome::Continue));
    lemma_int_operator_meaning(op, Some(Ty::Int), Seq::empty(), a, b);
    assert(st2 =~= Seq::<VVal>::empty().push(VVal::Int(a)).push(VVal::Int(b)));
    let (st3, o3) = stack_effect(instr, st2);
    assert(step_spec(at(st2, 2)) == (at(st3, 3), o3));
    assert(run_for(at(st3, 3), 1) == step_spec(at(st3, 3)).1);
    assert(run_for(m, 4) == run_for(at(st1, 1), 3));
    assert(run_for(at(st1, 1), 3) == run_for(at(st2, 2), 2));
    if o3 is Continue {
        assert(run_for(at(st2, 2), 2) == run_for(at(st3, 3), 1));
        assert(step_spec(at(st3, 3)).1 == Outcome::Halted(st3.last()));
    }

}

/// A binary node of the syntax tree.
pub open spec fn node(op: BinOp, lhs: SExpr, rhs: SExpr) -> SExpr {
    SExpr::Binary { op, lhs: Box::new(lhs), rhs: Box::new(rhs) }
}

/// Precedence and grouping in the expression `a k1 b k2 c;`: `*` and `/`
/// bind tighter than `+` and `-`, which bind tighter than `<`, which binds
/// tighter than `==`, which binds tighter than `&&`, which binds tighter
/// than `||`; operators of one level group to the left.
pub proof fn lemma_precedence(t: Seq<Token>, a: i64, b: i64, c: i64)
    requires
        t.len() > 5,
        t[0].kind == TokenKind::Int(a),
        t[2].kind == TokenKind::Int(b),
        t[4].kind == TokenKind::Int(c),
        t[5].kind is Semicolon,
    ensures
        ({
            let (k1, k2) = (t[1].kind, t[3].kind);
            let (x, y, z) = (SExpr::Int(a), SExpr::Int(b), SExpr::Int(c));
            let r = expr_semi(t, 0);
            &&& (k1 is Plus && k2 is Star) ==> r == Ok::<(SExpr, int), (int, Seq<char>)>(
                (node(BinOp::Add, x, node(BinOp::Mul, y, z)), 6),
            )
            &&& (k1 is Star && k2 is Plus) ==> r == Ok::<(SExpr, int), (int, Seq<char>)>(
                (node(BinOp::Add, node(BinOp::Mul, x, y), z), 6),
            )
            &&& (k1 is Minus && k2 is Slash) ==> r == Ok::<(SExpr, int), (int, Seq<char>)>(
                (node(BinOp::Sub, x, node(BinOp::Div, y, z)), 6),
            )
            &&& (k1 is Minus && k2 is Minus) ==> r == Ok::<(SExpr, int), (int, Seq<char>)>(
                (node(BinOp::Sub, node(BinOp::Sub, x, y), z), 6),
            )
            &&& (k1 is Slash && k2 is Percent) ==> r == Ok::<(SExpr, int), (int, Seq<char>)>(
                (node(BinOp::Mod, node(BinOp::Div, x, y), z), 6),
            )
            &&& (k1 is Less && k2 is Plus) ==> r == Ok::<(SExpr, int), (int, Seq<char>)>(
                (node(BinOp::Lt, x, node(BinOp::Add, y, z)), 6),
            )
            &&& (k1 is Plus && k2 is GreaterEqual) ==> r == Ok::<(SExpr, int), (int, Seq<char>)>(
                (node(BinOp::GtEq, node(BinOp::Add, x, y), z), 6),
            )
            &&& (k1 is EqualEqual && k2 is Less) ==> r == Ok::<(SExpr, int), (int, Seq<char>)>(
                (node(BinOp::Eq, x, node(BinOp::Lt, y, z)), 6),
            )
            &&& (k1 is AmpAmp && k2 is BangEqual) ==> r == Ok::<(SExpr, int), (int, Seq<char>)>(
                (node(BinOp::And, x, node(BinOp::NotEq, y, z)), 6),
            )
            &&& (k1 is PipePipe && k2 is AmpAmp) ==> r == Ok::<(SExpr, int), (int, Seq<char>)>(
                (node(BinOp::Or, x, node(BinOp::And, y, z)), 6),
            )
            &&& (k1 is AmpAmp && k2 is PipePipe) ==> r == Ok::<(SExpr, int), (int, Seq<char>)>(
                (node(BinOp::Or, node(BinOp::And, x, y), z), 6),
            )
        }),
{
    let (k1, k2) = (t[1].kind, t[3].kind);
    assert(kind_at(t, 5) is Semicolon);
    assert(forall|l: int| 0 <= l <= 5 ==> (#[trigger] binop_for(l, kind_at(t, 5))) is None);
    if is_infix(k1) && is_infix(k2) {
        lemma_two_infix(t, a, b, c);
        let e = (binary_at(t, 0, 0)->Ok_0).0;
        assert(expr_semi(t, 0) == Ok::<(SExpr, int), (int, Seq<char>)>((e, 6)));
    }
}

} // verus!
