//! That a compiled function computes what its program means.

use vstd::prelude::*;
use crate::ast::{Expr, ModuleItem, Program, Stmt};
use crate::compiler::{entry_function, fresh, with_entry_point};
use crate::eval::{initial, read, run, run_from, run_instrs, step, Machine, Outcome};
use crate::growth::{
    bounded, closed_by, grows_into, if_anatomy, if_else_anatomy, lemma_alloc_slot_valid,
    lemma_bounded_below, lemma_extends_grows, lemma_grows_trans, lemma_if_else_grows,
    lemma_if_grows, lemma_lower_expr_grows, lemma_lower_stmt_grows, lemma_lower_stmts_grows,
    lemma_lower_stmts_no_smaller, lemma_push_scope_valid, lemma_terminate_grows,
    lemma_terminate_no_smaller, lemma_while_grows, lowered, open_at, valid, while_anatomy,
};
use crate::invariants::lemma_emit_extends;
use crate::ir::{FunctionView, InstrView, Label, ScalarType, Terminator, Value};
use crate::lower::{
    compile_program, has_module_decl, lower_expr, lower_items, lower_stmt, lower_stmts,
    LowerState,
};
use crate::meaning::{
    computes, exec_stmt, exec_stmts, lemma_lower_expr_computes, lemma_run_instrs_same, value_of,
    Flow,
};

verus! {

/// Whether running `f` from position `pc` of block `block` with memory
/// `m` is, after `steps` steps, running it from position `pc1` of block
/// `block1` with memory `m1`.
pub open spec fn arrives(
    f: FunctionView,
    m: Machine,
    block: int,
    pc: int,
    steps: nat,
    m1: Machine,
    block1: int,
    pc1: int,
) -> bool {
    forall|fuel: nat|
        fuel >= steps ==> #[trigger] run_from(f, m, block, pc, fuel) == run_from(
            f,
            m1,
            block1,
            pc1,
            (fuel - steps) as nat,
        )
}

/// Whether running `f` from position `pc` of block `block` with memory
/// `m` ends in `outcome` within `steps` steps.
pub open spec fn ends(f: FunctionView, m: Machine, block: int, pc: int, steps: nat, outcome: Outcome) -> bool {
    forall|fuel: nat| fuel >= steps ==> #[trigger] run_from(f, m, block, pc, fuel) == outcome
}

/// Whether running `f` from position `pc` of block `block` with memory
/// `m` does what `flow` says: it arrives, after `steps` steps, at position
/// `pc1` of block `block1` with the slots as `flow` has them, or returns
/// what `flow` returns, or has no meaning where `flow` is a fault.
/// Nothing is said of a flow that was cut short.
pub open spec fn continues(
    f: FunctionView,
    m: Machine,
    block: int,
    pc: int,
    flow: Flow,
    steps: nat,
    m1: Machine,
    block1: int,
    pc1: int,
) -> bool {
    match flow {
        Flow::Next(slots) => m1.slots == slots && slots.len() == m.slots.len() && arrives(
            f,
            m,
            block,
            pc,
            steps,
            m1,
            block1,
            pc1,
        ),
        Flow::Return(x) => ends(f, m, block, pc, steps, Outcome::Exit(x)),
        Flow::Fault => ends(f, m, block, pc, steps, Outcome::Fault),
        Flow::Timeout => true,
    }
}

/// Whether the function `f` does, from where the statement was lowered
/// at, what running the statement does, and arrives where lowering went
/// on, in a block without terminator, where the statement after it is
/// next.
pub open spec fn simulates(
    f: FunctionView,
    st: LowerState,
    after: LowerState,
    m: Machine,
    flow: Flow,
    steps: nat,
    m1: Machine,
) -> bool {
    &&& continues(
        f,
        m,
        st.cursor as int,
        st.current().instrs.len() as int,
        flow,
        steps,
        m1,
        after.cursor as int,
        after.current().instrs.len() as int,
    )
    &&& flow is Next ==> !after.is_terminated()
}

/// Running through instructions that have a meaning arrives behind them;
/// running into one that has none is a fault.
pub proof fn lemma_run_through(f: FunctionView, m: Machine, block: int, from: int, to: int, fuel: nat)
    requires
        0 <= block < f.blocks.len(),
        0 <= from <= to <= f.blocks[block].instrs.len(),
        fuel >= to - from,
    ensures
        run_from(f, m, block, from, fuel) == (match run_instrs(f, m, block, from, to) {
            Some(m1) => run_from(f, m1, block, to, (fuel - (to - from)) as nat),
            None => Outcome::Fault,
        }),
    decreases to - from,
{
    if from < to {
        match step(m, block, from, f.blocks[block].instrs[from]) {
            Some(next) => {
                lemma_run_through(f, next, block, from + 1, to, (fuel - 1) as nat);
            },
            None => {},
        }
    }
}

/// Arriving somewhere, and from there elsewhere, is arriving elsewhere.
pub proof fn lemma_arrives_then_arrives(
    f: FunctionView,
    m: Machine,
    block: int,
    pc: int,
    k1: nat,
    m1: Machine,
    block1: int,
    pc1: int,
    k2: nat,
    m2: Machine,
    block2: int,
    pc2: int,
)
    requires
        arrives(f, m, block, pc, k1, m1, block1, pc1),
        arrives(f, m1, block1, pc1, k2, m2, block2, pc2),
    ensures
        arrives(f, m, block, pc, k1 + k2, m2, block2, pc2),
{
    assert forall|fuel: nat| fuel >= k1 + k2 implies #[trigger] run_from(f, m, block, pc, fuel)
        == run_from(f, m2, block2, pc2, (fuel - (k1 + k2)) as nat) by {
        assert(run_from(f, m, block, pc, fuel) == run_from(f, m1, block1, pc1, (fuel - k1) as nat));
        assert(run_from(f, m1, block1, pc1, (fuel - k1) as nat) == run_from(
            f,
            m2,
            block2,
            pc2,
            ((fuel - k1) - k2) as nat,
        ));
    }
}

/// Arriving somewhere, where the run then ends, is ending so.
pub proof fn lemma_arrives_then_ends(
    f: FunctionView,
    m: Machine,
    block: int,
    pc: int,
    k1: nat,
    m1: Machine,
    block1: int,
    pc1: int,
    k2: nat,
    outcome: Outcome,
)
    requires
        arrives(f, m, block, pc, k1, m1, block1, pc1),
        ends(f, m1, block1, pc1, k2, outcome),
    ensures
        ends(f, m, block, pc, k1 + k2, outcome),
{
    assert forall|fuel: nat| fuel >= k1 + k2 implies #[trigger] run_from(f, m, block, pc, fuel)
        == outcome by {
        assert(run_from(f, m, block, pc, fuel) == run_from(f, m1, block1, pc1, (fuel - k1) as nat));
        assert(run_from(f, m1, block1, pc1, (fuel - k1) as nat) == outcome);
    }
}

/// What a run does after arriving somewhere, it does from the start.
pub proof fn lemma_arrives_then(
    f: FunctionView,
    m: Machine,
    block: int,
    pc: int,
    k1: nat,
    m1: Machine,
    block1: int,
    pc1: int,
    flow: Flow,
    k2: nat,
    m2: Machine,
    block2: int,
    pc2: int,
)
    requires
        arrives(f, m, block, pc, k1, m1, block1, pc1),
        m1.slots.len() == m.slots.len(),
        continues(f, m1, block1, pc1, flow, k2, m2, block2, pc2),
    ensures
        continues(f, m, block, pc, flow, k1 + k2, m2, block2, pc2),
{
    match flow {
        Flow::Next(_) => {
            lemma_arrives_then_arrives(f, m, block, pc, k1, m1, block1, pc1, k2, m2, block2, pc2);
        },
        Flow::Return(x) => {
            lemma_arrives_then_ends(f, m, block, pc, k1, m1, block1, pc1, k2, Outcome::Exit(x));
        },
        Flow::Fault => {
            lemma_arrives_then_ends(f, m, block, pc, k1, m1, block1, pc1, k2, Outcome::Fault);
        },
        Flow::Timeout => {},
    }
}

/// A run that goes on somewhere, and from there arrives elsewhere
/// without a change of memory, goes on elsewhere.
pub proof fn lemma_then_arrives(
    f: FunctionView,
    m: Machine,
    block: int,
    pc: int,
    flow: Flow,
    k1: nat,
    m1: Machine,
    block1: int,
    pc1: int,
    k2: nat,
    block2: int,
    pc2: int,
)
    requires
        continues(f, m, block, pc, flow, k1, m1, block1, pc1),
        flow is Next ==> arrives(f, m1, block1, pc1, k2, m1, block2, pc2),
    ensures
        continues(f, m, block, pc, flow, k1 + k2, m1, block2, pc2),
{
    match flow {
        Flow::Next(_) => {
            lemma_arrives_then_arrives(f, m, block, pc, k1, m1, block1, pc1, k2, m1, block2, pc2);
        },
        _ => {},
    }
}

/// One instruction that has a meaning is one step.
pub proof fn lemma_instr_step(f: FunctionView, m: Machine, block: int, pc: int, m1: Machine)
    requires
        0 <= block < f.blocks.len(),
        0 <= pc < f.blocks[block].instrs.len(),
        step(m, block, pc, f.blocks[block].instrs[pc]) == Some(m1),
    ensures
        arrives(f, m, block, pc, 1, m1, block, pc + 1),
{
}

/// A jump at the end of a block is one step to the start of its target.
pub proof fn lemma_jump_step(f: FunctionView, m: Machine, block: int, target: usize)
    requires
        0 <= block < f.blocks.len(),
        f.blocks[block].term == Some(Terminator::Jump(target)),
    ensures
        arrives(f, m, block, f.blocks[block].instrs.len() as int, 1, m, target as int, 0),
{
}

/// A branch at the end of a block is one step to the start of the block
/// that its condition chooses.
pub proof fn lemma_branch_step(
    f: FunctionView,
    m: Machine,
    block: int,
    cond: Value,
    then_block: usize,
    else_block: usize,
    c: i32,
)
    requires
        0 <= block < f.blocks.len(),
        f.blocks[block].term == Some(Terminator::Branch { cond, then_block, else_block }),
        read(m, cond) == Some(c),
    ensures
        arrives(
            f,
            m,
            block,
            f.blocks[block].instrs.len() as int,
            1,
            m,
            if c != 0 {
                then_block as int
            } else {
                else_block as int
            },
            0,
        ),
{
}

/// A return at the end of a block ends the run in one step.
pub proof fn lemma_return_step(f: FunctionView, m: Machine, block: int, v: Value, x: i32)
    requires
        0 <= block < f.blocks.len(),
        f.blocks[block].term == Some(Terminator::Return(v)),
        read(m, v) == Some(x),
    ensures
        ends(f, m, block, f.blocks[block].instrs.len() as int, 1, Outcome::Exit(x)),
{
}

/// What the law asks of an expression: it is lowered, from a state to go
/// on from whose cursor stands in a block without terminator, into
/// something that `f` holds, and the memory has a place for every slot
/// of `f`.
pub open spec fn expr_compiled(f: FunctionView, st: LowerState, e: Expr, m: Machine) -> bool {
    &&& valid(st)
    &&& !st.is_terminated()
    &&& bounded(f)
    &&& m.slots.len() == f.slots.len()
    &&& lower_expr(st, e) matches Ok((after, _)) && grows_into(after.func, f)
}

/// What the law says of an expression: `f` arrives behind the
/// instructions of the expression with its value in the operand
/// returned and the slots as the expression leaves them, or has no
/// meaning where the expression has no value.
pub open spec fn expr_simulated(f: FunctionView, st: LowerState, e: Expr, m: Machine, m1: Machine) -> bool {
    let (after, v) = lower_expr(st, e)->Ok_0;
    let block = st.cursor as int;
    let from = st.current().instrs.len() as int;
    let to = after.current().instrs.len() as int;
    &&& from <= to
    &&& match value_of(st.scopes, m.slots, e) {
        Some((slots, x)) => m1.slots == slots && slots.len() == m.slots.len() && read(m1, v) == Some(x)
            && arrives(f, m, block, from, (to - from) as nat, m1, block, to),
        None => ends(f, m, block, from, (to - from) as nat, Outcome::Fault),
    }
}

/// The law of expressions, within a finished function.
pub proof fn lemma_expr_runs(f: FunctionView, st: LowerState, e: Expr, m: Machine) -> (m1: Machine)
    requires
        expr_compiled(f, st, e, m),
    ensures
        expr_simulated(f, st, e, m, m1),
{
    let (after, v) = lower_expr(st, e)->Ok_0;
    let block = st.cursor as int;
    let from = st.current().instrs.len() as int;
    let to = after.current().instrs.len() as int;
    lemma_lower_expr_grows(st, e);
    lemma_bounded_below(after.func, f);
    assert(after.func.blocks[block].instrs.len() <= f.blocks[block].instrs.len());
    lemma_lower_expr_computes(st, e, m);
    assert forall|k: int| from <= k < to implies #[trigger] after.func.blocks[block].instrs[k]
        == f.blocks[block].instrs[k] by {
        assert(f.blocks[block].instrs[k] == after.func.blocks[block].instrs[k]);
    }
    lemma_run_instrs_same(after.func, f, m, block, from, to);
    let ran = run_instrs(f, m, block, from, to);
    assert forall|fuel: nat| fuel >= to - from implies #[trigger] run_from(f, m, block, from, fuel) == (
    match ran {
        Some(m1) => run_from(f, m1, block, to, (fuel - (to - from)) as nat),
        None => Outcome::Fault,
    }) by {
        lemma_run_through(f, m, block, from, to, fuel);
    }
    match ran {
        Some(m1) => m1,
        None => m,
    }
}

/// What the law asks of a statement: it is lowered, from a state to go
/// on from, into something that `f` holds; the sizes of `f` fit; and the
/// memory has a place for every slot of `f`.
pub open spec fn compiled(f: FunctionView, st: LowerState, s: Stmt, m: Machine) -> bool {
    &&& valid(st)
    &&& bounded(f)
    &&& m.slots.len() == f.slots.len()
    &&& lower_stmt(st, s) matches Ok(after) && grows_into(after.func, f)
}

/// What the law says of a statement: `f` does what running it does.
pub open spec fn simulated(
    f: FunctionView,
    st: LowerState,
    s: Stmt,
    m: Machine,
    rounds: nat,
    r: (nat, Machine),
) -> bool {
    simulates(
        f,
        st,
        lower_stmt(st, s)->Ok_0,
        m,
        exec_stmt(st.scopes, st.func.slots.len(), m.slots, s, rounds),
        r.0,
        r.1,
    )
}

/// The law of a declaration.
proof fn lemma_var_decl_runs(f: FunctionView, st: LowerState, s: Stmt, m: Machine, rounds: nat) -> (r: (
    nat,
    Machine,
))
    requires
        compiled(f, st, s, m),
        s is VarDecl,
    ensures
        simulated(f, st, s, m, rounds, r),
{
    let after = lower_stmt(st, s)->Ok_0;
    let block = st.cursor as int;
    let from = st.current().instrs.len() as int;
    let init = s->init;
    let index = st.next_slot();
    let st0 = st.alloc_slot(ScalarType::I32);
    lemma_bounded_below(after.func, f);
    lemma_lower_stmt_grows(st, s);
    lemma_alloc_slot_valid(st, ScalarType::I32);
    lemma_lower_expr_grows(st0, init);
    let (st1, v) = lower_expr(st0, init)->Ok_0;
    let store = InstrView::Store { slot: index, value: v };
    let st2 = st1.emit(store);
    lemma_emit_extends(st1, store);
    lemma_extends_grows(st1, st2);
    assert(after.func == st2.func);
    lemma_grows_trans(st1.func, st2.func, f);
    let m1 = lemma_expr_runs(f, st0, init, m);
    let mid = st1.current().instrs.len() as int;
    assert(st2.func.blocks[block].instrs[mid] == store);
    assert(f.blocks[block].instrs[mid] == store);
    match value_of(st.scopes, m.slots, init) {
        Some((slots1, x)) => {
            let m2 = Machine { slots: m1.slots.update(index as int, x), ..m1 };
            assert(index == st.func.slots.len());
            assert(step(m1, block, mid, store) == Some(m2));
            lemma_instr_step(f, m1, block, mid, m2);
            lemma_arrives_then_arrives(
                f,
                m,
                block,
                from,
                (mid - from) as nat,
                m1,
                block,
                mid,
                1,
                m2,
                block,
                mid + 1,
            );
            ((mid - from + 1) as nat, m2)
        },
        None => ((mid - from) as nat, m),
    }
}

/// The law of an expression statement.
proof fn lemma_expr_stmt_runs(f: FunctionView, st: LowerState, s: Stmt, m: Machine, rounds: nat) -> (r: (
    nat,
    Machine,
))
    requires
        compiled(f, st, s, m),
        s is Expr,
    ensures
        simulated(f, st, s, m, rounds, r),
{
    let e = s->Expr_0;
    lemma_lower_expr_grows(st, e);
    let (st1, v) = lower_expr(st, e)->Ok_0;
    let m1 = lemma_expr_runs(f, st, e, m);
    let from = st.current().instrs.len() as int;
    let to = st1.current().instrs.len() as int;
    ((to - from) as nat, m1)
}

/// The law of a `return`.
proof fn lemma_return_runs(f: FunctionView, st: LowerState, s: Stmt, m: Machine, rounds: nat) -> (r: (
    nat,
    Machine,
))
    requires
        compiled(f, st, s, m),
        s is Return,
    ensures
        simulated(f, st, s, m, rounds, r),
{
    let after = lower_stmt(st, s)->Ok_0;
    let block = st.cursor as int;
    let from = st.current().instrs.len() as int;
    match s->Return_0 {
        None => {
            let term = Terminator::Return(Value::Const(0));
            lemma_terminate_grows(st, term);
            assert(f.blocks[block] == after.func.blocks[block]);
            lemma_return_step(f, m, block, Value::Const(0), 0);
            (1, m)
        },
        Some(e) => {
            lemma_lower_expr_grows(st, e);
            let (st1, v) = lower_expr(st, e)->Ok_0;
            let term = Terminator::Return(v);
            lemma_terminate_grows(st1, term);
            lemma_grows_trans(st1.func, after.func, f);
            assert(f.blocks[block] == after.func.blocks[block]);
            let m1 = lemma_expr_runs(f, st, e, m);
            let to = st1.current().instrs.len() as int;
            match value_of(st.scopes, m.slots, e) {
                Some((slots1, x)) => {
                    lemma_return_step(f, m1, block, v, x);
                    lemma_arrives_then_ends(
                        f,
                        m,
                        block,
                        from,
                        (to - from) as nat,
                        m1,
                        block,
                        to,
                        1,
                        Outcome::Exit(x),
                    );
                    ((to - from + 1) as nat, m1)
                },
                None => ((to - from) as nat, m),
            }
        },
    }
}

/// The law of a block.
proof fn lemma_block_runs(f: FunctionView, st: LowerState, s: Stmt, m: Machine, rounds: nat) -> (r: (
    nat,
    Machine,
))
    requires
        compiled(f, st, s, m),
        s is Block,
    ensures
        simulated(f, st, s, m, rounds, r),
    decreases rounds, s, 0nat,
{
    let stmts = s->Block_0@;
    let opened = st.push_scope();
    lemma_push_scope_valid(st);
    let inner = lower_stmts(opened, stmts, 0)->Ok_0;
    assert(lower_stmt(st, s)->Ok_0 == inner.pop_scope());
    lemma_stmts_runs(f, opened, stmts, 0, m, rounds)
}

/// The law of a part of a statement that is lowered into blocks of its
/// own and left by a jump: `f` does what running the part does, and
/// arrives at the start of the block that the jump names.
proof fn lemma_arm_runs(
    f: FunctionView,
    start: LowerState,
    inner: Stmt,
    target: usize,
    m: Machine,
    rounds: nat,
) -> (r: (nat, Machine))
    requires
        compiled(f, start, inner, m),
        open_at(start.func, start.cursor),
        closed_by(f, lower_stmt(start, inner)->Ok_0, target),
    ensures
        continues(
            f,
            m,
            start.cursor as int,
            0,
            exec_stmt(start.scopes, start.func.slots.len(), m.slots, inner, rounds),
            r.0,
            r.1,
            target as int,
            0,
        ),
    decreases rounds, inner, 3nat,
{
    let last_state = lower_stmt(start, inner)->Ok_0;
    let flow = exec_stmt(start.scopes, start.func.slots.len(), m.slots, inner, rounds);
    let (k, m1) = lemma_stmt_runs(f, start, inner, m, rounds);
    let last = last_state.cursor as int;
    lemma_bounded_below(last_state.func, f);
    lemma_lower_stmt_grows(start, inner);
    if flow is Next {
        assert(f.blocks[last].instrs.len() == last_state.current().instrs.len());
        lemma_jump_step(f, m1, last, target);
    }
    lemma_then_arrives(
        f,
        m,
        start.cursor as int,
        0,
        flow,
        k,
        m1,
        last,
        last_state.current().instrs.len() as int,
        1,
        target as int,
        0,
    );
    (k + 1, m1)
}

/// The law of an `if` without `else`.
proof fn lemma_if_runs(f: FunctionView, st: LowerState, s: Stmt, m: Machine, rounds: nat) -> (r: (
    nat,
    Machine,
))
    requires
        compiled(f, st, s, m),
        s is If,
        s->else_branch is None,
    ensures
        simulated(f, st, s, m, rounds, r),
    decreases rounds, s, 0nat,
{
    let block = st.cursor as int;
    let from = st.current().instrs.len() as int;
    let cond = s->If_cond;
    let then_branch = *s->then_branch;
    let (st1, c) = lower_expr(st, cond)->Ok_0;
    let then_block = st1.next_block();
    let st2 = st1.new_block(Label::Then);
    let merge = st2.next_block();
    let branch = Terminator::Branch { cond: c, then_block, else_block: merge };
    let st3 = st2.new_block(Label::Merge).terminate(branch).position_at(then_block);
    let st4 = lower_stmt(st3, then_branch)->Ok_0;
    let after = st4.close(merge).position_at(merge);
    lemma_bounded_below(lower_stmt(st, s)->Ok_0.func, f);
    lemma_if_grows(st, s);
    assert(if_anatomy(st, s));
    lemma_lower_expr_grows(st, cond);
    lemma_grows_trans(st1.func, after.func, f);
    lemma_grows_trans(st4.func, after.func, f);
    let m1 = lemma_expr_runs(f, st, cond, m);
    let mid = st1.current().instrs.len() as int;
    assert(f.blocks[block] == after.func.blocks[block]);
    assert(f.blocks[block].instrs.len() == mid);
    match value_of(st.scopes, m.slots, cond) {
        Some((slots1, x)) => {
            lemma_branch_step(f, m1, block, c, then_block, merge, x);
            let head = (mid - from + 1) as nat;
            if x != 0 {
                lemma_arrives_then_arrives(
                    f,
                    m,
                    block,
                    from,
                    (mid - from) as nat,
                    m1,
                    block,
                    mid,
                    1,
                    m1,
                    then_block as int,
                    0,
                );
                assert(closed_by(f, st4, merge)) by {
                    if !st4.is_terminated() {
                        assert(f.blocks[st4.cursor as int] == after.func.blocks[st4.cursor as int]);
                    }
                }
                let (k, m2) = lemma_arm_runs(f, st3, then_branch, merge, m1, rounds);
                lemma_arrives_then(
                    f,
                    m,
                    block,
                    from,
                    head,
                    m1,
                    then_block as int,
                    0,
                    exec_stmt(st.scopes, st.func.slots.len(), slots1, then_branch, rounds),
                    k,
                    m2,
                    merge as int,
                    0,
                );
                (head + k, m2)
            } else {
                lemma_arrives_then_arrives(
                    f,
                    m,
                    block,
                    from,
                    (mid - from) as nat,
                    m1,
                    block,
                    mid,
                    1,
                    m1,
                    merge as int,
                    0,
                );
                (head, m1)
            }
        },
        None => ((mid - from) as nat, m),
    }
}

/// The law of an `if` with `else`.
proof fn lemma_if_else_runs(f: FunctionView, st: LowerState, s: Stmt, m: Machine, rounds: nat) -> (r: (
    nat,
    Machine,
))
    requires
        compiled(f, st, s, m),
        s is If,
        s->else_branch is Some,
    ensures
        simulated(f, st, s, m, rounds, r),
    decreases rounds, s, 0nat,
{
    let block = st.cursor as int;
    let from = st.current().instrs.len() as int;
    let cond = s->If_cond;
    let then_branch = *s->then_branch;
    let alt = *s->else_branch->0;
    let (st1, c) = lower_expr(st, cond)->Ok_0;
    let then_block = st1.next_block();
    let st2 = st1.new_block(Label::Then);
    let else_block = st2.next_block();
    let st3 = st2.new_block(Label::Else);
    let merge = st3.next_block();
    let branch = Terminator::Branch { cond: c, then_block, else_block };
    let st4 = st3.new_block(Label::Merge).terminate(branch).position_at(then_block);
    let st5 = lower_stmt(st4, then_branch)->Ok_0;
    let st5b = st5.close(merge).position_at(else_block);
    let st6 = lower_stmt(st5b, alt)->Ok_0;
    let after = st6.close(merge).position_at(merge);
    lemma_bounded_below(lower_stmt(st, s)->Ok_0.func, f);
    lemma_if_else_grows(st, s);
    assert(if_else_anatomy(st, s));
    lemma_lower_expr_grows(st, cond);
    lemma_grows_trans(st1.func, after.func, f);
    lemma_grows_trans(st5.func, after.func, f);
    lemma_grows_trans(st6.func, after.func, f);
    lemma_lower_stmt_grows(st4, then_branch);
    let m1 = lemma_expr_runs(f, st, cond, m);
    let mid = st1.current().instrs.len() as int;
    assert(f.blocks[block] == after.func.blocks[block]);
    assert(f.blocks[block].instrs.len() == mid);
    match value_of(st.scopes, m.slots, cond) {
        Some((slots1, x)) => {
            lemma_branch_step(f, m1, block, c, then_block, else_block, x);
            let head = (mid - from + 1) as nat;
            if x != 0 {
                lemma_arrives_then_arrives(
                    f,
                    m,
                    block,
                    from,
                    (mid - from) as nat,
                    m1,
                    block,
                    mid,
                    1,
                    m1,
                    then_block as int,
                    0,
                );
                assert(closed_by(f, st5, merge)) by {
                    if !st5.is_terminated() {
                        assert(f.blocks[st5.cursor as int] == after.func.blocks[st5.cursor as int]);
                    }
                }
                let (k, m2) = lemma_arm_runs(f, st4, then_branch, merge, m1, rounds);
                lemma_arrives_then(
                    f,
                    m,
                    block,
                    from,
                    head,
                    m1,
                    then_block as int,
                    0,
                    exec_stmt(st.scopes, st.func.slots.len(), slots1, then_branch, rounds),
                    k,
                    m2,
                    merge as int,
                    0,
                );
                (head + k, m2)
            } else {
                lemma_arrives_then_arrives(
                    f,
                    m,
                    block,
                    from,
                    (mid - from) as nat,
                    m1,
                    block,
                    mid,
                    1,
                    m1,
                    else_block as int,
                    0,
                );
                assert(closed_by(f, st6, merge)) by {
                    if !st6.is_terminated() {
                        assert(f.blocks[st6.cursor as int] == after.func.blocks[st6.cursor as int]);
                    }
                }
                let (k, m2) = lemma_arm_runs(f, st5b, alt, merge, m1, rounds);
                lemma_arrives_then(
                    f,
                    m,
                    block,
                    from,
                    head,
                    m1,
                    else_block as int,
                    0,
                    exec_stmt(st5.scopes, st5.func.slots.len(), slots1, alt, rounds),
                    k,
                    m2,
                    merge as int,
                    0,
                );
                (head + k, m2)
            }
        },
        None => ((mid - from) as nat, m),
    }
}

/// What the law says of a loop once its condition block is reached.
pub open spec fn loop_simulated(
    f: FunctionView,
    st: LowerState,
    s: Stmt,
    m: Machine,
    rounds: nat,
    r: (nat, Machine),
) -> bool {
    let after = lower_stmt(st, s)->Ok_0;
    continues(
        f,
        m,
        st.func.blocks.len() as int,
        0,
        exec_stmt(st.scopes, st.func.slots.len(), m.slots, s, rounds),
        r.0,
        r.1,
        after.cursor as int,
        0,
    )
}

/// The law of a loop, from its condition block.
proof fn lemma_loop_runs(f: FunctionView, st: LowerState, s: Stmt, m: Machine, rounds: nat) -> (r: (
    nat,
    Machine,
))
    requires
        compiled(f, st, s, m),
        s is While,
    ensures
        loop_simulated(f, st, s, m, rounds, r),
    decreases rounds, s, 0nat,
{
    let cond = s->While_cond;
    let body = *s->body;
    let cond_block = st.next_block();
    let st1 = st.new_block(Label::Cond);
    let body_block = st1.next_block();
    let st2 = st1.new_block(Label::Body);
    let after_block = st2.next_block();
    let jump = Terminator::Jump(cond_block);
    let st3 = st2.new_block(Label::After).terminate(jump).position_at(cond_block);
    let (st4, c) = lower_expr(st3, cond)->Ok_0;
    let branch = Terminator::Branch { cond: c, then_block: body_block, else_block: after_block };
    let st5 = st4.terminate(branch).position_at(body_block);
    let st6 = lower_stmt(st5, body)->Ok_0;
    let after = st6.close(cond_block).position_at(after_block);
    lemma_bounded_below(lower_stmt(st, s)->Ok_0.func, f);
    lemma_while_grows(st, s);
    assert(while_anatomy(st, s));
    lemma_lower_expr_grows(st3, cond);
    lemma_grows_trans(st4.func, after.func, f);
    lemma_grows_trans(st6.func, after.func, f);
    let top = cond_block as int;
    let m1 = lemma_expr_runs(f, st3, cond, m);
    let mid = st4.current().instrs.len() as int;
    assert(f.blocks[top] == after.func.blocks[top]);
    assert(f.blocks[top].instrs.len() == mid);
    match value_of(st.scopes, m.slots, cond) {
        Some((slots1, x)) => {
            lemma_branch_step(f, m1, top, c, body_block, after_block, x);
            let head = (mid + 1) as nat;
            if x == 0 {
                lemma_arrives_then_arrives(
                    f,
                    m,
                    top,
                    0,
                    mid as nat,
                    m1,
                    top,
                    mid,
                    1,
                    m1,
                    after_block as int,
                    0,
                );
                (head, m1)
            } else {
                lemma_arrives_then_arrives(
                    f,
                    m,
                    top,
                    0,
                    mid as nat,
                    m1,
                    top,
                    mid,
                    1,
                    m1,
                    body_block as int,
                    0,
                );
                assert(closed_by(f, st6, cond_block)) by {
                    if !st6.is_terminated() {
                        assert(f.blocks[st6.cursor as int] == after.func.blocks[st6.cursor as int]);
                    }
                }
                let (k, m2) = lemma_arm_runs(f, st5, body, cond_block, m1, rounds);
                let once = exec_stmt(st.scopes, st.func.slots.len(), slots1, body, rounds);
                lemma_arrives_then(f, m, top, 0, head, m1, body_block as int, 0, once, k, m2, top, 0);
                match once {
                    Flow::Next(slots2) => {
                        if rounds == 0 {
                            (0, m)
                        } else {
                            let (again, m3) = lemma_loop_runs(f, st, s, m2, (rounds - 1) as nat);
                            lemma_arrives_then(
                                f,
                                m,
                                top,
                                0,
                                head + k,
                                m2,
                                top,
                                0,
                                exec_stmt(
                                    st.scopes,
                                    st.func.slots.len(),
                                    slots2,
                                    s,
                                    (rounds - 1) as nat,
                                ),
                                again,
                                m3,
                                after.cursor as int,
                                0,
                            );
                            (head + k + again, m3)
                        }
                    },
                    _ => (head + k, m2),
                }
            }
        },
        None => (mid as nat, m),
    }
}

/// The law of a loop.
proof fn lemma_while_runs(f: FunctionView, st: LowerState, s: Stmt, m: Machine, rounds: nat) -> (r: (
    nat,
    Machine,
))
    requires
        compiled(f, st, s, m),
        s is While,
    ensures
        simulated(f, st, s, m, rounds, r),
    decreases rounds, s, 1nat,
{
    let block = st.cursor as int;
    let from = st.current().instrs.len() as int;
    let after = lower_stmt(st, s)->Ok_0;
    let cond_block = st.next_block();
    lemma_bounded_below(after.func, f);
    lemma_while_grows(st, s);
    assert(while_anatomy(st, s));
    assert(f.blocks[block] == after.func.blocks[block]);
    assert(f.blocks[block].instrs.len() == from);
    lemma_jump_step(f, m, block, cond_block);
    let (k, m1) = lemma_loop_runs(f, st, s, m, rounds);
    lemma_arrives_then(
        f,
        m,
        block,
        from,
        1,
        m,
        cond_block as int,
        0,
        exec_stmt(st.scopes, st.func.slots.len(), m.slots, s, rounds),
        k,
        m1,
        after.cursor as int,
        0,
    );
    (1 + k, m1)
}

/// The law of statements: a function that holds what a statement was
/// lowered to does, from where the statement was lowered at, what running
/// the statement does. It returns how many steps that takes, and the
/// memory afterwards.
pub proof fn lemma_stmt_runs(f: FunctionView, st: LowerState, s: Stmt, m: Machine, rounds: nat) -> (r: (
    nat,
    Machine,
))
    requires
        compiled(f, st, s, m),
    ensures
        simulated(f, st, s, m, rounds, r),
    decreases rounds, s, 2nat,
{
    match s {
        Stmt::VarDecl { .. } => lemma_var_decl_runs(f, st, s, m, rounds),
        Stmt::Expr(_) => lemma_expr_stmt_runs(f, st, s, m, rounds),
        Stmt::Block(_) => lemma_block_runs(f, st, s, m, rounds),
        Stmt::If { cond, then_branch, else_branch } => {
            if else_branch is Some {
                lemma_if_else_runs(f, st, s, m, rounds)
            } else {
                lemma_if_runs(f, st, s, m, rounds)
            }
        },
        Stmt::While { .. } => lemma_while_runs(f, st, s, m, rounds),
        Stmt::Return(_) => lemma_return_runs(f, st, s, m, rounds),
        Stmt::Unsupported(_) => (0, m),
    }
}

/// The law of statements in a row.
pub proof fn lemma_stmts_runs(
    f: FunctionView,
    st: LowerState,
    stmts: Seq<Stmt>,
    from: nat,
    m: Machine,
    rounds: nat,
) -> (r: (nat, Machine))
    requires
        valid(st),
        !st.is_terminated(),
        bounded(f),
        m.slots.len() == f.slots.len(),
        lower_stmts(st, stmts, from) matches Ok(after) && grows_into(after.func, f),
    ensures
        simulates(
            f,
            st,
            lower_stmts(st, stmts, from)->Ok_0,
            m,
            exec_stmts(st.scopes, st.func.slots.len(), m.slots, stmts, from, rounds),
            r.0,
            r.1,
        ),
    decreases rounds, stmts, stmts.len() - from,
{
    let block = st.cursor as int;
    let pc = st.current().instrs.len() as int;
    if from >= stmts.len() {
        (0, m)
    } else {
        let s = stmts[from as int];
        let st1 = lower_stmt(st, s)->Ok_0;
        let after = lower_stmts(st1, stmts, from + 1)->Ok_0;
        lemma_bounded_below(after.func, f);
        lemma_lower_stmts_no_smaller(st1, stmts, from + 1);
        lemma_bounded_below(st1.func, after.func);
        lemma_lower_stmt_grows(st, s);
        lemma_lower_stmts_grows(st1, stmts, from + 1);
        lemma_grows_trans(st1.func, after.func, f);
        let (k1, m1) = lemma_stmt_runs(f, st, s, m, rounds);
        match exec_stmt(st.scopes, st.func.slots.len(), m.slots, s, rounds) {
            Flow::Next(slots1) => {
                let (k2, m2) = lemma_stmts_runs(f, st1, stmts, from + 1, m1, rounds);
                lemma_arrives_then(
                    f,
                    m,
                    block,
                    pc,
                    k1,
                    m1,
                    st1.cursor as int,
                    st1.current().instrs.len() as int,
                    exec_stmts(st1.scopes, st1.func.slots.len(), slots1, stmts, from + 1, rounds),
                    k2,
                    m2,
                    after.cursor as int,
                    after.current().instrs.len() as int,
                );
                (k1 + k2, m2)
            },
            _ => (k1, m1),
        }
    }
}

/// The statements of a program that holds no module declaration.
pub open spec fn statements(program: Program) -> Seq<Stmt> {
    match program {
        Program::Script(script) => script.body@,
        Program::Module(module) => Seq::new(module.body@.len(), |i: int| module.body@[i]->Stmt_0),
    }
}

/// Runs a program: its statements in order, with no name bound and every
/// one of `slots` stack slots zero at the start.
pub open spec fn run_program(program: Program, slots: nat, rounds: nat) -> Flow {
    exec_stmts(
        seq![Map::empty()],
        0,
        Seq::new(slots, |i: int| 0i32),
        statements(program),
        0,
        rounds,
    )
}

/// How a program that ran that way exits: with what it returned, with 0
/// where it came to its end without returning, or in a fault. A program
/// that was cut short has not exited.
pub open spec fn exit_of(flow: Flow) -> Option<Outcome> {
    match flow {
        Flow::Next(_) => Some(Outcome::Exit(0)),
        Flow::Return(x) => Some(Outcome::Exit(x)),
        Flow::Fault => Some(Outcome::Fault),
        Flow::Timeout => None,
    }
}

/// The items of a module without module declaration are lowered as its
/// statements are.
proof fn lemma_items_are_statements(st: LowerState, items: Seq<ModuleItem>, from: nat)
    requires
        !has_module_decl(items),
    ensures
        lower_items(st, items, from) == lower_stmts(
            st,
            Seq::new(items.len(), |i: int| items[i]->Stmt_0),
            from,
        ),
    decreases items.len() - from,
{
    let stmts = Seq::new(items.len(), |i: int| items[i]->Stmt_0);
    if from < items.len() {
        assert(!(items[from as int] is ModuleDecl));
        assert(items[from as int] == ModuleItem::Stmt(stmts[from as int]));
        match lower_stmt(st, stmts[from as int]) {
            Ok(st1) => {
                lemma_items_are_statements(st1, items, from + 1);
            },
            Err(_) => {},
        }
    }
}

/// A compiled program computes what the program means: where a program
/// compiles, in a fresh compiler with its entry point, into a function
/// whose sizes fit, running that function exits as the program does,
/// once it is given the steps it needs. The law returns that number of
/// steps.
pub proof fn lemma_program_runs(program: Program, rounds: nat) -> (steps: nat)
    requires
        compile_program(with_entry_point(fresh()).state(), program) matches Ok(done) && bounded(
            done.func,
        ),
    ensures
        ({
            let f = compile_program(with_entry_point(fresh()).state(), program)->Ok_0.func;
            match exit_of(run_program(program, f.slots.len(), rounds)) {
                Some(outcome) => forall|fuel: nat| fuel >= steps ==> #[trigger] run(f, fuel) == outcome,
                None => true,
            }
        }),
{
    let st = with_entry_point(fresh()).state();
    let done = compile_program(st, program)->Ok_0;
    let f = done.func;
    let stmts = statements(program);
    assert(st.func == entry_function());
    assert(valid(st));
    assert(!st.is_terminated());
    match program {
        Program::Script(_) => {},
        Program::Module(module) => {
            lemma_items_are_statements(st, module.body@, 0);
        },
    }
    let last = lower_stmts(st, stmts, 0)->Ok_0;
    assert(done == last.finish());
    let zero = Terminator::Return(Value::Const(0));
    lemma_terminate_no_smaller(last, zero);
    lemma_bounded_below(last.func, f);
    lemma_lower_stmts_grows(st, stmts, 0);
    if !last.is_terminated() {
        lemma_terminate_grows(last, zero);
    }
    let m = initial(f);
    let (k, m1) = lemma_stmts_runs(f, st, stmts, 0, m, rounds);
    let flow = run_program(program, f.slots.len(), rounds);
    assert(m.slots =~= Seq::new(f.slots.len(), |i: int| 0i32));
    match flow {
        Flow::Next(_) => {
            let end = last.cursor as int;
            assert(f.blocks[end].instrs.len() == last.current().instrs.len());
            lemma_return_step(f, m1, end, Value::Const(0), 0);
            lemma_arrives_then_ends(
                f,
                m,
                0,
                0,
                k,
                m1,
                end,
                last.current().instrs.len() as int,
                1,
                Outcome::Exit(0),
            );
            k + 1
        },
        _ => k,
    }
}

/// A run that has ended ends the same way with more steps allowed.
pub proof fn lemma_more_fuel(f: FunctionView, m: Machine, block: int, pc: int, fuel: nat, more: nat)
    requires
        run_from(f, m, block, pc, fuel) != Outcome::OutOfFuel,
        more >= fuel,
    ensures
        run_from(f, m, block, pc, more) == run_from(f, m, block, pc, fuel),
    decreases fuel,
{
    if fuel > 0 && 0 <= block < f.blocks.len() {
        if 0 <= pc < f.blocks[block].instrs.len() {
            match step(m, block, pc, f.blocks[block].instrs[pc]) {
                Some(next) => {
                    lemma_more_fuel(f, next, block, pc + 1, (fuel - 1) as nat, (more - 1) as nat);
                },
                None => {},
            }
        } else {
            match f.blocks[block].term {
                Some(Terminator::Jump(target)) => {
                    lemma_more_fuel(f, m, target as int, 0, (fuel - 1) as nat, (more - 1) as nat);
                },
                Some(Terminator::Branch { cond, then_block, else_block }) => {
                    match read(m, cond) {
                        Some(c) => {
                            let target = if c != 0 {
                                then_block as int
                            } else {
                                else_block as int
                            };
                            lemma_more_fuel(f, m, target, 0, (fuel - 1) as nat, (more - 1) as nat);
                        },
                        None => {},
                    }
                },
                _ => {},
            }
        }
    }
}

/// A run of a compiled program that has ended has ended as the program
/// means: whatever the steps allowed, where running the compiled function
/// does not use them up, it exits as the program does, however many
/// rounds the program's loops needed for that.
pub proof fn lemma_finished_run_is_meant(program: Program, rounds: nat, fuel: nat)
    requires
        compile_program(with_entry_point(fresh()).state(), program) matches Ok(done) && bounded(
            done.func,
        ) && run(done.func, fuel) != Outcome::OutOfFuel && exit_of(
            run_program(program, done.func.slots.len(), rounds),
        ) is Some,
    ensures
        ({
            let f = compile_program(with_entry_point(fresh()).state(), program)->Ok_0.func;
            exit_of(run_program(program, f.slots.len(), rounds)) == Some(run(f, fuel))
        }),
{
    let f = compile_program(with_entry_point(fresh()).state(), program)->Ok_0.func;
    let steps = lemma_program_runs(program, rounds);
    let more = if fuel >= steps {
        fuel
    } else {
        steps
    };
    lemma_more_fuel(f, initial(f), 0, 0, fuel, more);
    assert(run(f, more) == run(f, fuel));
}

} // verus!
