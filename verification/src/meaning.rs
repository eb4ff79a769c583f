//! What expressions and statements mean, over stack slots that hold
//! 32-bit integers, and that the instructions an expression is lowered to
//! compute its value.

use vstd::prelude::*;
use crate::ast::{is_mutable, Expr, Stmt};
use crate::eval::{
    apply_binary, apply_intrinsic, call_value, read, read_all, run_instrs, step, with_result, Machine,
};
use crate::invariants::{
    lemma_emit_extends, lemma_lookup_bound, lemma_lower_args_extends, lemma_lower_expr_extends,
};
use crate::ir::{find_intrinsic, FunctionView, InstrView, ScalarType, Value};
use crate::lower::{lower_args, lower_expr, LowerState};
use crate::symbols::{declared, lookup, Frame, Slot};

verus! {

/// The value of an expression, and the contents of the stack slots after
/// it, where the slots hold `slots` before and names resolve through
/// `scopes`. Operands are evaluated left before right, and an assignment
/// has the value assigned. There is none where a name is not bound or not
/// assignable, where a callee is no builtin, or where an operator has no
/// result.
pub open spec fn value_of(scopes: Seq<Frame>, slots: Seq<i32>, e: Expr) -> Option<(Seq<i32>, i32)>
    decreases e,
{
    match e {
        Expr::Num(n) => Some((slots, n)),
        Expr::Ident(name) => match lookup(scopes, name@) {
            Some(slot) => if slot.index < slots.len() {
                Some((slots, slots[slot.index as int]))
            } else {
                None
            },
            None => None,
        },
        Expr::Assign { target, value } => match value_of(scopes, slots, *value) {
            Some((slots1, x)) => match lookup(scopes, target@) {
                Some(slot) => if slot.mutable && slot.index < slots1.len() {
                    Some((slots1.update(slot.index as int, x), x))
                } else {
                    None
                },
                None => None,
            },
            None => None,
        },
        Expr::Binary { op, left, right } => match value_of(scopes, slots, *left) {
            Some((slots1, a)) => match value_of(scopes, slots1, *right) {
                Some((slots2, b)) => match apply_binary(op, a, b) {
                    Some(x) => Some((slots2, x)),
                    None => None,
                },
                None => None,
            },
            None => None,
        },
        Expr::Call { callee, args } => match find_intrinsic(callee@, args@.len()) {
            Some(f) => match values_of(scopes, slots, args@, 0, Seq::empty()) {
                Some((slots1, values)) => match call_value(f, values) {
                    Some(x) => Some((slots1, x)),
                    None => None,
                },
                None => None,
            },
            None => None,
        },
        Expr::Unsupported(_) => None,
    }
}

/// The values of the arguments `args[from..]`, evaluated left to right
/// and appended to `done`, and the contents of the slots after them.
pub open spec fn values_of(
    scopes: Seq<Frame>,
    slots: Seq<i32>,
    args: Seq<Expr>,
    from: nat,
    done: Seq<i32>,
) -> Option<(Seq<i32>, Seq<i32>)>
    decreases args, args.len() - from,
{
    if from >= args.len() {
        Some((slots, done))
    } else {
        match value_of(scopes, slots, args[from as int]) {
            Some((slots1, x)) => values_of(scopes, slots1, args, from + 1, done.push(x)),
            None => None,
        }
    }
}

/// The scopes after a statement, and the number of slots in use after it,
/// where `next` are in use before: a declaration binds its name, in the
/// innermost scope, to the next slot; a block binds nothing outside
/// itself. Both arms of an `if` and the body of a loop count, whether
/// they are run or not.
pub open spec fn bind(scopes: Seq<Frame>, next: nat, s: Stmt) -> (Seq<Frame>, nat)
    decreases s,
{
    match s {
        Stmt::VarDecl { kind, name, init } => (
            declared(
                scopes,
                name@,
                Slot { index: next as usize, ty: ScalarType::I32, mutable: is_mutable(kind) },
            ),
            next + 1,
        ),
        Stmt::Block(stmts) => (scopes, bind_all(scopes.push(Map::empty()), next, stmts@, 0).1),
        Stmt::If { cond, then_branch, else_branch } => {
            let (scopes1, next1) = bind(scopes, next, *then_branch);
            match else_branch {
                None => (scopes1, next1),
                Some(alt) => bind(scopes1, next1, *alt),
            }
        },
        Stmt::While { cond, body } => bind(scopes, next, *body),
        _ => (scopes, next),
    }
}

/// As `bind`, after the statements `stmts[from..]`.
pub open spec fn bind_all(scopes: Seq<Frame>, next: nat, stmts: Seq<Stmt>, from: nat) -> (
    Seq<Frame>,
    nat,
)
    decreases stmts, stmts.len() - from,
{
    if from >= stmts.len() {
        (scopes, next)
    } else {
        let (scopes1, next1) = bind(scopes, next, stmts[from as int]);
        bind_all(scopes1, next1, stmts, from + 1)
    }
}

/// How running a statement ends.
pub enum Flow {
    /// The statement after it is next, with these contents of the slots.
    Next(Seq<i32>),
    /// The function returns this value.
    Return(i32),
    /// An expression had no value.
    Fault,
    /// A loop went round more often than allowed.
    Timeout,
}

/// Runs a statement, with `next` slots in use and the slots holding
/// `slots`. A loop may go round at most `rounds` times in a row.
pub open spec fn exec_stmt(scopes: Seq<Frame>, next: nat, slots: Seq<i32>, s: Stmt, rounds: nat) -> Flow
    decreases rounds, s,
{
    match s {
        Stmt::VarDecl { kind, name, init } => match value_of(scopes, slots, init) {
            Some((slots1, x)) => if next < slots1.len() {
                Flow::Next(slots1.update(next as int, x))
            } else {
                Flow::Fault
            },
            None => Flow::Fault,
        },
        Stmt::Expr(e) => match value_of(scopes, slots, e) {
            Some((slots1, _)) => Flow::Next(slots1),
            None => Flow::Fault,
        },
        Stmt::Block(stmts) => exec_stmts(scopes.push(Map::empty()), next, slots, stmts@, 0, rounds),
        Stmt::If { cond, then_branch, else_branch } => match value_of(scopes, slots, cond) {
            Some((slots1, c)) => if c != 0 {
                exec_stmt(scopes, next, slots1, *then_branch, rounds)
            } else {
                match else_branch {
                    None => Flow::Next(slots1),
                    Some(alt) => {
                        let (scopes1, next1) = bind(scopes, next, *then_branch);
                        exec_stmt(scopes1, next1, slots1, *alt, rounds)
                    },
                }
            },
            None => Flow::Fault,
        },
        Stmt::While { cond, body } => match value_of(scopes, slots, cond) {
            Some((slots1, c)) => if c == 0 {
                Flow::Next(slots1)
            } else {
                match exec_stmt(scopes, next, slots1, *body, rounds) {
                    Flow::Next(slots2) => if rounds == 0 {
                        Flow::Timeout
                    } else {
                        exec_stmt(scopes, next, slots2, s, (rounds - 1) as nat)
                    },
                    other => other,
                }
            },
            None => Flow::Fault,
        },
        Stmt::Return(None) => Flow::Return(0),
        Stmt::Return(Some(e)) => match value_of(scopes, slots, e) {
            Some((_, x)) => Flow::Return(x),
            None => Flow::Fault,
        },
        Stmt::Unsupported(_) => Flow::Fault,
    }
}

/// Runs the statements `stmts[from..]` in order.
pub open spec fn exec_stmts(
    scopes: Seq<Frame>,
    next: nat,
    slots: Seq<i32>,
    stmts: Seq<Stmt>,
    from: nat,
    rounds: nat,
) -> Flow
    decreases rounds, stmts, stmts.len() - from,
{
    if from >= stmts.len() {
        Flow::Next(slots)
    } else {
        match exec_stmt(scopes, next, slots, stmts[from as int], rounds) {
            Flow::Next(slots1) => {
                let (scopes1, next1) = bind(scopes, next, stmts[from as int]);
                exec_stmts(scopes1, next1, slots1, stmts, from + 1, rounds)
            },
            other => other,
        }
    }
}

/// Whether the memories `m` and `after` hold the same results but for
/// those of the instructions at positions `from..to` of block `block`.
pub open spec fn same_results_outside(m: Machine, after: Machine, block: int, from: int, to: int) -> bool {
    forall|key: (int, int)|
        !(key.0 == block && from <= key.1 < to) ==> (#[trigger] after.results.dom().contains(key))
            == m.results.dom().contains(key) && (m.results.dom().contains(key) ==> after.results[key]
            == m.results[key])
}

/// Whether `v` is a constant or the result of an instruction before
/// position `end` of block `block`.
pub open spec fn placed_before(v: Value, block: int, end: int) -> bool {
    match v {
        Value::Const(_) => true,
        Value::Inst { block: b, index } => b == block && index < end,
    }
}

/// Whether running the instructions that the step from `st` to `after`
/// emitted, from the memory `m`, gives what `expected` says: the slots
/// and the value of `v` where it holds them, no memory where it is
/// nothing.
pub open spec fn computes(
    st: LowerState,
    after: LowerState,
    m: Machine,
    v: Value,
    expected: Option<(Seq<i32>, i32)>,
) -> bool {
    let block = st.cursor as int;
    let from = st.current().instrs.len() as int;
    let to = after.current().instrs.len() as int;
    match expected {
        Some((slots, x)) => match run_instrs(after.func, m, block, from, to) {
            Some(m1) => m1.slots == slots && slots.len() == m.slots.len() && read(m1, v) == Some(x)
                && same_results_outside(m, m1, block, from, to),
            None => false,
        },
        None => run_instrs(after.func, m, block, from, to) is None,
    }
}

/// As `computes`, for the values of several operands.
pub open spec fn compute_all(
    st: LowerState,
    after: LowerState,
    m: Machine,
    operands: Seq<Value>,
    expected: Option<(Seq<i32>, Seq<i32>)>,
) -> bool {
    let block = st.cursor as int;
    let from = st.current().instrs.len() as int;
    let to = after.current().instrs.len() as int;
    match expected {
        Some((slots, values)) => match run_instrs(after.func, m, block, from, to) {
            Some(m1) => m1.slots == slots && slots.len() == m.slots.len() && read_all(m1, operands)
                == Some(values) && same_results_outside(m, m1, block, from, to),
            None => false,
        },
        None => run_instrs(after.func, m, block, from, to) is None,
    }
}

/// Running instructions depends on those instructions alone.
pub proof fn lemma_run_instrs_same(
    f: FunctionView,
    g: FunctionView,
    m: Machine,
    block: int,
    from: int,
    to: int,
)
    requires
        forall|k: int| from <= k < to ==> #[trigger] f.blocks[block].instrs[k] == g.blocks[block].instrs[k],
    ensures
        run_instrs(f, m, block, from, to) == run_instrs(g, m, block, from, to),
    decreases to - from,
{
    if from < to {
        assert(f.blocks[block].instrs[from] == g.blocks[block].instrs[from]);
        match step(m, block, from, f.blocks[block].instrs[from]) {
            Some(next) => {
                lemma_run_instrs_same(f, g, next, block, from + 1, to);
            },
            None => {},
        }
    }
}

/// Running instructions can be done in two parts.
pub proof fn lemma_run_instrs_split(f: FunctionView, m: Machine, block: int, from: int, mid: int, to: int)
    requires
        from <= mid <= to,
    ensures
        run_instrs(f, m, block, from, to) == (match run_instrs(f, m, block, from, mid) {
            Some(m1) => run_instrs(f, m1, block, mid, to),
            None => None,
        }),
    decreases mid - from,
{
    if from < mid {
        match step(m, block, from, f.blocks[block].instrs[from]) {
            Some(next) => {
                lemma_run_instrs_split(f, next, block, from + 1, mid, to);
            },
            None => {},
        }
    }
}

/// A name that resolves, where every bound name has its slot, resolves
/// to a slot that exists.
proof fn lemma_resolved_slot_exists(st: LowerState, name: Seq<char>)
    requires
        st.scopes_ok(),
    ensures
        lookup(st.scopes, name) matches Some(slot) ==> slot.index < st.func.slots.len(),
{
    lemma_lookup_bound(st.scopes, name);
}

/// The step that emits one instruction with a result computes that
/// result, where the instruction has one in the memory `m`.
proof fn lemma_emitted_result(st: LowerState, m: Machine, instr: InstrView, x: Option<i32>)
    requires
        st.cursor < st.func.blocks.len(),
        st.current().instrs.len() < usize::MAX,
        instr.has_result(),
        step(m, st.cursor as int, st.current().instrs.len() as int, instr) == (match x {
            Some(value) => Some(
                with_result(m, st.cursor as int, st.current().instrs.len() as int, value),
            ),
            None => None,
        }),
    ensures
        computes(
            st,
            st.emit(instr),
            m,
            st.next_value(),
            match x {
                Some(value) => Some((m.slots, value)),
                None => None,
            },
        ),
        placed_before(st.next_value(), st.cursor as int, st.emit(instr).current().instrs.len() as int),
{
    let after = st.emit(instr);
    let block = st.cursor as int;
    let from = st.current().instrs.len() as int;
    assert(after.current().instrs.len() == from + 1);
    assert(after.func.blocks[block].instrs[from] == instr);
    reveal_with_fuel(run_instrs, 2);
}

/// What the law of expressions asks of its inputs: the cursor stands in
/// a block, every bound name has its slot, the memory has a place for
/// every slot, and the expression can be lowered.
pub open spec fn lowers(st: LowerState, e: Expr, m: Machine) -> bool {
    &&& st.cursor < st.func.blocks.len()
    &&& st.scopes_ok()
    &&& st.func.slots.len() <= m.slots.len()
    &&& lower_expr(st, e) matches Ok((after, _)) && after.current().instrs.len() <= usize::MAX
}

/// What the law of expressions says: the instructions that `e` was
/// lowered to compute its value into the operand returned.
pub open spec fn keeps_meaning(st: LowerState, e: Expr, m: Machine) -> bool {
    lower_expr(st, e) matches Ok((after, v)) && computes(
        st,
        after,
        m,
        v,
        value_of(st.scopes, m.slots, e),
    ) && placed_before(v, st.cursor as int, after.current().instrs.len() as int)
}

/// The law of expressions, for a name.
proof fn lemma_ident_computes(st: LowerState, e: Expr, m: Machine)
    requires
        lowers(st, e, m),
        e is Ident,
    ensures
        keeps_meaning(st, e, m),
{
    let name = e->Ident_0@;
    lemma_resolved_slot_exists(st, name);
    let slot = lookup(st.scopes, name)->0;
    lemma_emitted_result(st, m, InstrView::Load { slot: slot.index }, Some(m.slots[slot.index as int]));
}

/// The law of expressions, for an assignment.
proof fn lemma_assign_computes(st: LowerState, e: Expr, m: Machine)
    requires
        lowers(st, e, m),
        e is Assign,
    ensures
        keeps_meaning(st, e, m),
    decreases e, 0nat,
{
    let block = st.cursor as int;
    let from = st.current().instrs.len() as int;
    let (after, v) = lower_expr(st, e)->Ok_0;
    let to = after.current().instrs.len() as int;
    let target = e->target@;
    let value = *e->value;
    let (st1, v1) = lower_expr(st, value)->Ok_0;
    lemma_lower_expr_extends(st, value);
    let slot = lookup(st1.scopes, target)->0;
    let store = InstrView::Store { slot: slot.index, value: v1 };
    lemma_emit_extends(st1, store);
    let mid = st1.current().instrs.len() as int;
    assert(after == st1.emit(store));
    assert(to == mid + 1);
    assert(after.func.blocks[block].instrs[mid] == store);
    lemma_lower_expr_computes(st, value, m);
    lemma_resolved_slot_exists(st1, target);
    lemma_run_instrs_same(st1.func, after.func, m, block, from, mid);
    lemma_run_instrs_split(after.func, m, block, from, mid, to);
    match run_instrs(after.func, m, block, from, mid) {
        Some(m1) => {
            let (_, x) = value_of(st.scopes, m.slots, value)->0;
            let m2 = Machine { slots: m1.slots.update(slot.index as int, x), ..m1 };
            assert(step(m1, block, mid, store) == Some(m2));
            assert(run_instrs(after.func, m1, block, mid, to) == Some(m2)) by {
                reveal_with_fuel(run_instrs, 2);
            }
            assert(same_results_outside(m, m2, block, from, to));
        },
        None => {},
    }
}

/// The law of expressions, for a binary operation.
proof fn lemma_binary_computes(st: LowerState, e: Expr, m: Machine)
    requires
        lowers(st, e, m),
        e is Binary,
    ensures
        keeps_meaning(st, e, m),
    decreases e, 0nat,
{
    let block = st.cursor as int;
    let from = st.current().instrs.len() as int;
    let (after, v) = lower_expr(st, e)->Ok_0;
    let to = after.current().instrs.len() as int;
    let op = e->op;
    let left = *e->left;
    let right = *e->right;
    let (st1, lhs) = lower_expr(st, left)->Ok_0;
    lemma_lower_expr_extends(st, left);
    let (st2, rhs) = lower_expr(st1, right)->Ok_0;
    lemma_lower_expr_extends(st1, right);
    let binary = InstrView::Binary { op, lhs, rhs };
    lemma_emit_extends(st2, binary);
    let mid1 = st1.current().instrs.len() as int;
    let mid2 = st2.current().instrs.len() as int;
    assert(after == st2.emit(binary));
    assert(to == mid2 + 1);
    lemma_lower_expr_computes(st, left, m);
    lemma_run_instrs_same(st1.func, after.func, m, block, from, mid1);
    lemma_run_instrs_split(after.func, m, block, from, mid1, to);
    match run_instrs(after.func, m, block, from, mid1) {
        Some(m1) => {
            let (_, a) = value_of(st.scopes, m.slots, left)->0;
            lemma_lower_expr_computes(st1, right, m1);
            lemma_run_instrs_same(st2.func, after.func, m1, block, mid1, mid2);
            lemma_run_instrs_split(after.func, m1, block, mid1, mid2, to);
            match run_instrs(after.func, m1, block, mid1, mid2) {
                Some(m2) => {
                    let (_, b) = value_of(st1.scopes, m1.slots, right)->0;
                    assert(read(m2, lhs) == Some(a));
                    assert(read(m2, rhs) == Some(b));
                    lemma_emitted_result(st2, m2, binary, apply_binary(op, a, b));
                    match run_instrs(after.func, m2, block, mid2, to) {
                        Some(m3) => {
                            lemma_results_chain(m, m1, m2, m3, block, from, mid1, mid2, to);
                        },
                        None => {},
                    }
                },
                None => {},
            }
        },
        None => {},
    }
}

/// The law of expressions, for a call.
proof fn lemma_call_computes(st: LowerState, e: Expr, m: Machine)
    requires
        lowers(st, e, m),
        e is Call,
    ensures
        keeps_meaning(st, e, m),
    decreases e, 0nat,
{
    let block = st.cursor as int;
    let from = st.current().instrs.len() as int;
    let (after, v) = lower_expr(st, e)->Ok_0;
    let to = after.current().instrs.len() as int;
    let args = e->args@;
    let f = find_intrinsic(e->callee@, args.len())->0;
    let (st1, operands) = lower_args(st, args, 0, Seq::empty())->Ok_0;
    lemma_lower_args_extends(st, args, 0, Seq::empty());
    let call = InstrView::Call { callee: f, args: operands };
    lemma_emit_extends(st1, call);
    let mid = st1.current().instrs.len() as int;
    assert(after == st1.emit(call));
    assert(to == mid + 1);
    assert(read_all(m, Seq::<Value>::empty()) == Some(Seq::<i32>::empty())) by {
        assert(read_all(m, Seq::<Value>::empty())->0 =~= Seq::<i32>::empty());
    }
    lemma_lower_args_computes(st, args, 0, Seq::empty(), m, Seq::empty());
    lemma_run_instrs_same(st1.func, after.func, m, block, from, mid);
    lemma_run_instrs_split(after.func, m, block, from, mid, to);
    match run_instrs(after.func, m, block, from, mid) {
        Some(m1) => {
            let (_, values) = values_of(st.scopes, m.slots, args, 0, Seq::empty())->0;
            assert(apply_intrinsic(m1, f, operands) == call_value(f, values));
            lemma_emitted_result(st1, m1, call, call_value(f, values));
            match run_instrs(after.func, m1, block, mid, to) {
                Some(m2) => {
                    lemma_results_chain(m, m, m1, m2, block, from, from, mid, to);
                },
                None => {},
            }
        },
        None => {},
    }
}

/// Results left alone by each of three runs in a row are left alone by
/// the three together.
proof fn lemma_results_chain(
    m: Machine,
    m1: Machine,
    m2: Machine,
    m3: Machine,
    block: int,
    from: int,
    mid1: int,
    mid2: int,
    to: int,
)
    requires
        from <= mid1 <= mid2 <= to,
        same_results_outside(m, m1, block, from, mid1),
        same_results_outside(m1, m2, block, mid1, mid2),
        same_results_outside(m2, m3, block, mid2, to),
    ensures
        same_results_outside(m, m3, block, from, to),
{
    assert forall|key: (int, int)| !(key.0 == block && from <= key.1 < to) implies (
    #[trigger] m3.results.dom().contains(key)) == m.results.dom().contains(key) && (
    m.results.dom().contains(key) ==> m3.results[key] == m.results[key]) by {
        assert(m2.results.dom().contains(key) == m1.results.dom().contains(key));
        assert(m1.results.dom().contains(key) == m.results.dom().contains(key));
    }
}

/// Lowering keeps the meaning of expressions: the instructions that an
/// expression is lowered to, run from a memory with a place for every
/// slot, leave the slots as the expression's evaluation does and make its
/// value the value of the operand that lowering returns; where the
/// expression has no value, they have no meaning either. No other result
/// in the memory is touched.
pub proof fn lemma_lower_expr_computes(st: LowerState, e: Expr, m: Machine)
    requires
        lowers(st, e, m),
    ensures
        keeps_meaning(st, e, m),
    decreases e, 1nat,
{
    match e {
        Expr::Num(_) => {},
        Expr::Unsupported(_) => {},
        Expr::Ident(_) => {
            lemma_ident_computes(st, e, m);
        },
        Expr::Assign { .. } => {
            lemma_assign_computes(st, e, m);
        },
        Expr::Binary { .. } => {
            lemma_binary_computes(st, e, m);
        },
        Expr::Call { .. } => {
            lemma_call_computes(st, e, m);
        },
    }
}

/// Lowering keeps the meaning of arguments, evaluated left to right.
pub proof fn lemma_lower_args_computes(
    st: LowerState,
    args: Seq<Expr>,
    from: nat,
    done: Seq<Value>,
    m: Machine,
    values: Seq<i32>,
)
    requires
        st.cursor < st.func.blocks.len(),
        st.scopes_ok(),
        st.func.slots.len() <= m.slots.len(),
        read_all(m, done) == Some(values),
        forall|k: int|
            0 <= k < done.len() ==> placed_before(
                #[trigger] done[k],
                st.cursor as int,
                st.current().instrs.len() as int,
            ),
        lower_args(st, args, from, done) matches Ok((after, _)) && after.current().instrs.len()
            <= usize::MAX,
    ensures
        lower_args(st, args, from, done) matches Ok((after, operands)) && compute_all(
            st,
            after,
            m,
            operands,
            values_of(st.scopes, m.slots, args, from, values),
        ),
    decreases args, args.len() - from, 0nat,
{
    let block = st.cursor as int;
    let start = st.current().instrs.len() as int;
    let (after, operands) = lower_args(st, args, from, done)->Ok_0;
    let to = after.current().instrs.len() as int;
    if from < args.len() {
        let e = args[from as int];
        let (st1, v) = lower_expr(st, e)->Ok_0;
        lemma_lower_expr_extends(st, e);
        lemma_lower_args_extends(st1, args, from + 1, done.push(v));
        let mid = st1.current().instrs.len() as int;
        lemma_lower_expr_computes(st, e, m);
        lemma_run_instrs_same(st1.func, after.func, m, block, start, mid);
        lemma_run_instrs_split(after.func, m, block, start, mid, to);
        match run_instrs(after.func, m, block, start, mid) {
            Some(m1) => {
                let (_, x) = value_of(st.scopes, m.slots, e)->0;
                assert(read_all(m1, done.push(v)) == Some(values.push(x))) by {
                    assert forall|k: int| 0 <= k < done.push(v).len() implies read(
                        m1,
                        #[trigger] done.push(v)[k],
                    ) is Some by {
                        if k < done.len() {
                            assert(placed_before(done[k], block, start));
                            assert(read(m, done[k]) is Some);
                        }
                    }
                    assert forall|k: int| 0 <= k < done.len() implies read(m1, done[k]) == Some(
                        values[k],
                    ) by {
                        assert(placed_before(done[k], block, start));
                        assert(read(m, done[k]) is Some);
                        assert(values[k] == read(m, done[k])->0);
                    }
                    assert(read_all(m1, done.push(v))->0 =~= values.push(x));
                }
                assert forall|k: int| 0 <= k < done.push(v).len() implies placed_before(
                    #[trigger] done.push(v)[k],
                    block,
                    mid,
                ) by {
                    if k < done.len() {
                        assert(placed_before(done[k], block, start));
                    }
                }
                lemma_lower_args_computes(st1, args, from + 1, done.push(v), m1, values.push(x));
                match run_instrs(after.func, m1, block, mid, to) {
                    Some(m2) => {
                        assert forall|key: (int, int)|
                            !(key.0 == block && start <= key.1 < to) implies (
                        #[trigger] m2.results.dom().contains(key)) == m.results.dom().contains(key) && (
                        m.results.dom().contains(key) ==> m2.results[key] == m.results[key]) by {
                            assert(m1.results.dom().contains(key) == m.results.dom().contains(key));
                        }
                    },
                    None => {},
                }
            },
            None => {},
        }
    } else {
        assert(run_instrs(after.func, m, block, start, to) == Some(m));
    }
}

} // verus!
