//! How the function under construction grows while statements are
//! lowered: nothing emitted is taken back, and a block that has its
//! terminator is never touched again.

use vstd::prelude::*;
use crate::ast::{is_mutable, Expr, Stmt};
use crate::invariants::{extends, lemma_lower_expr_extends};
use crate::error::ErrorView;
use crate::ir::{BlockView, Function, FunctionView, InstrView, Label, ScalarType, Terminator, Value};
use crate::lower::{lower_args, lower_expr, lower_stmt, lower_stmts, LowerState};
use crate::meaning::{bind, bind_all};
use crate::symbols::{Frame, Slot};

verus! {

/// Whether `b` has at least the slots, blocks and instructions of `a`,
/// by their number.
pub open spec fn no_smaller(a: FunctionView, b: FunctionView) -> bool {
    &&& a.slots.len() <= b.slots.len()
    &&& a.blocks.len() <= b.blocks.len()
    &&& forall|k: int|
        0 <= k < a.blocks.len() ==> (#[trigger] a.blocks[k]).instrs.len() <= b.blocks[k].instrs.len()
}

/// Whether the sizes of `f` fit the machine's integers.
pub open spec fn bounded(f: FunctionView) -> bool {
    &&& f.slots.len() <= usize::MAX
    &&& f.blocks.len() <= usize::MAX
    &&& forall|k: int| 0 <= k < f.blocks.len() ==> (#[trigger] f.blocks[k]).instrs.len() <= usize::MAX
}

/// The sizes of a function in memory fit.
pub proof fn lemma_function_bounded(f: &Function)
    ensures
        bounded(f@),
{
    assert(f.slots.len() == f.slots@.len());
    assert(f.blocks.len() == f.blocks@.len());
    assert forall|k: int| 0 <= k < f@.blocks.len() implies (#[trigger] f@.blocks[k]).instrs.len()
        <= usize::MAX by {
        let block = f.blocks@[k];
        assert(block.instrs.len() == block.instrs@.len());
    }
}

/// What is no smaller than something no smaller is no smaller.
pub proof fn lemma_no_smaller_trans(a: FunctionView, b: FunctionView, c: FunctionView)
    requires
        no_smaller(a, b),
        no_smaller(b, c),
    ensures
        no_smaller(a, c),
{
    assert forall|k: int| 0 <= k < a.blocks.len() implies (#[trigger] a.blocks[k]).instrs.len()
        <= c.blocks[k].instrs.len() by {
        assert(a.blocks[k].instrs.len() <= b.blocks[k].instrs.len());
        assert(b.blocks[k].instrs.len() <= c.blocks[k].instrs.len());
    }
}

/// What is no larger than a function whose sizes fit has sizes that fit.
pub proof fn lemma_bounded_below(a: FunctionView, b: FunctionView)
    requires
        no_smaller(a, b),
        bounded(b),
    ensures
        bounded(a),
{
    assert forall|k: int| 0 <= k < a.blocks.len() implies (#[trigger] a.blocks[k]).instrs.len()
        <= usize::MAX by {
        assert(a.blocks[k].instrs.len() <= b.blocks[k].instrs.len());
        assert(b.blocks[k].instrs.len() <= usize::MAX);
    }
}

/// Ending a block makes nothing smaller.
pub proof fn lemma_terminate_no_smaller(st: LowerState, term: Terminator)
    ensures
        no_smaller(st.func, st.terminate(term).func),
        no_smaller(st.func, st.close(0).func),
{
}

/// Lowering an expression makes nothing smaller.
pub proof fn lemma_lower_expr_no_smaller(st: LowerState, e: Expr)
    ensures
        lower_expr(st, e) matches Ok((after, _)) ==> no_smaller(st.func, after.func),
    decreases e,
{
    match e {
        Expr::Num(_) => {},
        Expr::Unsupported(_) => {},
        Expr::Ident(name) => {},
        Expr::Assign { target, value } => {
            lemma_lower_expr_no_smaller(st, *value);
            match lower_expr(st, *value) {
                Ok((st1, v)) => {
                    match lower_expr(st, e) {
                        Ok((after, _)) => {
                            lemma_no_smaller_trans(st.func, st1.func, after.func);
                        },
                        Err(_) => {},
                    }
                },
                Err(_) => {},
            }
        },
        Expr::Binary { op, left, right } => {
            lemma_lower_expr_no_smaller(st, *left);
            match lower_expr(st, *left) {
                Ok((st1, lhs)) => {
                    lemma_lower_expr_no_smaller(st1, *right);
                    match lower_expr(st1, *right) {
                        Ok((st2, rhs)) => {
                            lemma_no_smaller_trans(st.func, st1.func, st2.func);
                            lemma_no_smaller_trans(
                                st.func,
                                st2.func,
                                st2.emit(InstrView::Binary { op, lhs, rhs }).func,
                            );
                        },
                        Err(_) => {},
                    }
                },
                Err(_) => {},
            }
        },
        Expr::Call { callee, args } => {
            lemma_lower_args_no_smaller(st, args@, 0, Seq::empty());
            match lower_args(st, args@, 0, Seq::empty()) {
                Ok((st1, values)) => {
                    match lower_expr(st, e) {
                        Ok((after, _)) => {
                            lemma_no_smaller_trans(st.func, st1.func, after.func);
                        },
                        Err(_) => {},
                    }
                },
                Err(_) => {},
            }
        },
    }
}

/// Lowering arguments makes nothing smaller.
pub proof fn lemma_lower_args_no_smaller(st: LowerState, args: Seq<Expr>, from: nat, done: Seq<Value>)
    ensures
        lower_args(st, args, from, done) matches Ok((after, _)) ==> no_smaller(st.func, after.func),
    decreases args, args.len() - from,
{
    if from < args.len() {
        lemma_lower_expr_no_smaller(st, args[from as int]);
        match lower_expr(st, args[from as int]) {
            Ok((st1, v)) => {
                lemma_lower_args_no_smaller(st1, args, from + 1, done.push(v));
                match lower_args(st1, args, from + 1, done.push(v)) {
                    Ok((st2, _)) => {
                        lemma_no_smaller_trans(st.func, st1.func, st2.func);
                    },
                    Err(_) => {},
                }
            },
            Err(_) => {},
        }
    }
}

/// The steps of an `if` between lowering its condition and lowering its
/// first arm make nothing smaller.
proof fn lemma_branch_no_smaller(st: LowerState, c: Value, with_else: bool)
    ensures
        ({
            let then_block = st.next_block();
            let st2 = st.new_block(Label::Then);
            let st3 = if with_else {
                st2.new_block(Label::Else)
            } else {
                st2
            };
            let merge = st3.next_block();
            let else_block = if with_else {
                st2.next_block()
            } else {
                merge
            };
            no_smaller(
                st.func,
                st3.new_block(Label::Merge).terminate(
                    Terminator::Branch { cond: c, then_block, else_block },
                ).position_at(then_block).func,
            )
        }),
{
    let st2 = st.new_block(Label::Then);
    let st3 = if with_else {
        st2.new_block(Label::Else)
    } else {
        st2
    };
    let st4 = st3.new_block(Label::Merge);
    lemma_no_smaller_trans(st.func, st2.func, st3.func);
    lemma_no_smaller_trans(st.func, st3.func, st4.func);
    let term = Terminator::Branch {
        cond: c,
        then_block: st.next_block(),
        else_block: if with_else {
            st2.next_block()
        } else {
            st3.next_block()
        },
    };
    lemma_terminate_no_smaller(st4, term);
    lemma_no_smaller_trans(st.func, st4.func, st4.terminate(term).func);
}

/// Closing a block and moving the cursor makes nothing smaller.
proof fn lemma_close_no_smaller(st: LowerState, target: usize, next: usize)
    ensures
        no_smaller(st.func, st.close(target).position_at(next).func),
{
}

/// Lowering a statement makes nothing smaller.
pub proof fn lemma_lower_stmt_no_smaller(st: LowerState, s: Stmt)
    ensures
        lower_stmt(st, s) matches Ok(after) ==> no_smaller(st.func, after.func),
    decreases s,
{
    if lower_stmt(st, s) is Ok {
        let after = lower_stmt(st, s)->Ok_0;
        match s {
            Stmt::VarDecl { kind, name, init } => {
                let st0 = st.alloc_slot(ScalarType::I32);
                lemma_lower_expr_no_smaller(st0, init);
                let (st1, v) = lower_expr(st0, init)->Ok_0;
                lemma_no_smaller_trans(st.func, st0.func, st1.func);
                lemma_no_smaller_trans(st.func, st1.func, after.func);
            },
            Stmt::Expr(e) => {
                lemma_lower_expr_no_smaller(st, e);
            },
            Stmt::Block(stmts) => {
                lemma_lower_stmts_no_smaller(st.push_scope(), stmts@, 0);
            },
            Stmt::If { cond, then_branch, else_branch } => {
                lemma_lower_expr_no_smaller(st, cond);
                let (st1, c) = lower_expr(st, cond)->Ok_0;
                let then_block = st1.next_block();
                let st2 = st1.new_block(Label::Then);
                lemma_branch_no_smaller(st1, c, else_branch is Some);
                match else_branch {
                    None => {
                        let merge = st2.next_block();
                        let st3 = st2.new_block(Label::Merge).terminate(
                            Terminator::Branch { cond: c, then_block, else_block: merge },
                        ).position_at(then_block);
                        lemma_lower_stmt_no_smaller(st3, *then_branch);
                        let st4 = lower_stmt(st3, *then_branch)->Ok_0;
                        lemma_close_no_smaller(st4, merge, merge);
                        lemma_no_smaller_trans(st.func, st1.func, st3.func);
                        lemma_no_smaller_trans(st.func, st3.func, st4.func);
                        lemma_no_smaller_trans(st.func, st4.func, after.func);
                    },
                    Some(alt) => {
                        let else_block = st2.next_block();
                        let st3 = st2.new_block(Label::Else);
                        let merge = st3.next_block();
                        let st4 = st3.new_block(Label::Merge).terminate(
                            Terminator::Branch { cond: c, then_block, else_block },
                        ).position_at(then_block);
                        lemma_lower_stmt_no_smaller(st4, *then_branch);
                        let st5 = lower_stmt(st4, *then_branch)->Ok_0;
                        let st5b = st5.close(merge).position_at(else_block);
                        lemma_close_no_smaller(st5, merge, else_block);
                        lemma_lower_stmt_no_smaller(st5b, *alt);
                        let st6 = lower_stmt(st5b, *alt)->Ok_0;
                        lemma_close_no_smaller(st6, merge, merge);
                        lemma_no_smaller_trans(st.func, st1.func, st4.func);
                        lemma_no_smaller_trans(st.func, st4.func, st5.func);
                        lemma_no_smaller_trans(st.func, st5.func, st5b.func);
                        lemma_no_smaller_trans(st.func, st5b.func, st6.func);
                        lemma_no_smaller_trans(st.func, st6.func, after.func);
                    },
                }
            },
            Stmt::While { cond, body } => {
                let cond_block = st.next_block();
                let st1 = st.new_block(Label::Cond);
                let body_block = st1.next_block();
                let st2 = st1.new_block(Label::Body);
                let after_block = st2.next_block();
                let st2b = st2.new_block(Label::After);
                let st3 = st2b.terminate(Terminator::Jump(cond_block)).position_at(cond_block);
                lemma_terminate_no_smaller(st2b, Terminator::Jump(cond_block));
                lemma_no_smaller_trans(st.func, st1.func, st2.func);
                lemma_no_smaller_trans(st.func, st2.func, st2b.func);
                lemma_no_smaller_trans(st.func, st2b.func, st3.func);
                lemma_lower_expr_no_smaller(st3, cond);
                let (st4, c) = lower_expr(st3, cond)->Ok_0;
                let branch = Terminator::Branch {
                    cond: c,
                    then_block: body_block,
                    else_block: after_block,
                };
                let st5 = st4.terminate(branch).position_at(body_block);
                lemma_terminate_no_smaller(st4, branch);
                lemma_lower_stmt_no_smaller(st5, *body);
                let st6 = lower_stmt(st5, *body)->Ok_0;
                lemma_close_no_smaller(st6, cond_block, after_block);
                lemma_no_smaller_trans(st.func, st3.func, st4.func);
                lemma_no_smaller_trans(st.func, st4.func, st5.func);
                lemma_no_smaller_trans(st.func, st5.func, st6.func);
                lemma_no_smaller_trans(st.func, st6.func, after.func);
            },
            Stmt::Return(None) => {
                lemma_terminate_no_smaller(st, Terminator::Return(Value::Const(0)));
            },
            Stmt::Return(Some(e)) => {
                lemma_lower_expr_no_smaller(st, e);
                let (st1, v) = lower_expr(st, e)->Ok_0;
                lemma_terminate_no_smaller(st1, Terminator::Return(v));
                lemma_no_smaller_trans(st.func, st1.func, after.func);
            },
            Stmt::Unsupported(_) => {},
        }
    }
}

/// Lowering statements makes nothing smaller.
pub proof fn lemma_lower_stmts_no_smaller(st: LowerState, stmts: Seq<Stmt>, from: nat)
    ensures
        lower_stmts(st, stmts, from) matches Ok(after) ==> no_smaller(st.func, after.func),
    decreases stmts, stmts.len() - from,
{
    if from < stmts.len() {
        lemma_lower_stmt_no_smaller(st, stmts[from as int]);
        match lower_stmt(st, stmts[from as int]) {
            Ok(st1) => {
                lemma_lower_stmts_no_smaller(st1, stmts, from + 1);
                match lower_stmts(st1, stmts, from + 1) {
                    Ok(st2) => {
                        lemma_no_smaller_trans(st.func, st1.func, st2.func);
                    },
                    Err(_) => {},
                }
            },
            Err(_) => {},
        }
    }
}

/// Whether `b` holds everything that `a` holds: its slots and blocks by
/// number, every instruction where `a` has it, and every block that has
/// its terminator in `a` unchanged.
pub open spec fn grows_into(a: FunctionView, b: FunctionView) -> bool {
    &&& no_smaller(a, b)
    &&& forall|k: int, i: int|
        0 <= k < a.blocks.len() && 0 <= i < a.blocks[k].instrs.len() ==> #[trigger] b.blocks[k].instrs[i]
            == a.blocks[k].instrs[i]
    &&& forall|k: int|
        0 <= k < a.blocks.len() && (#[trigger] a.blocks[k]).term is Some ==> b.blocks[k] == a.blocks[k]
}

/// Whether the state is one that lowering can go on from: the cursor
/// stands in a block, a scope is open, and every bound name has its slot.
pub open spec fn valid(st: LowerState) -> bool {
    &&& st.cursor < st.func.blocks.len()
    &&& st.scopes.len() >= 1
    &&& st.scopes_ok()
}

/// Whether `b` has the scopes of `a`, with other names at most in the
/// innermost one.
pub open spec fn outer_same(a: Seq<Frame>, b: Seq<Frame>) -> bool {
    &&& b.len() == a.len()
    &&& forall|k: int| 0 <= k < a.len() - 1 ==> #[trigger] b[k] == a[k]
}

/// Whether the step from `st` to `after` left alone every block that
/// `st` had, but the one its cursor stood in, and left the cursor there
/// or moved it to a new block.
pub open spec fn untouched(st: LowerState, after: LowerState) -> bool {
    &&& after.cursor == st.cursor || after.cursor >= st.func.blocks.len()
    &&& forall|k: int|
        0 <= k < st.func.blocks.len() && k != st.cursor ==> #[trigger] after.func.blocks[k]
            == st.func.blocks[k]
}

/// What lowering a statement does to the state, where `bound` is what
/// the statement binds: the state stays one to go on from, the function
/// keeps what it held, only the cursor's block and new blocks are
/// written, and the scopes and the slots in use are as bound.
pub open spec fn follows(st: LowerState, after: LowerState, bound: (Seq<Frame>, nat)) -> bool {
    &&& valid(after)
    &&& grows_into(st.func, after.func)
    &&& untouched(st, after)
    &&& after.scopes == bound.0
    &&& after.func.slots.len() == bound.1
}

/// Steps that each leave the other blocks alone do so together.
pub proof fn lemma_untouched_trans(a: LowerState, b: LowerState, c: LowerState)
    requires
        untouched(a, b),
        untouched(b, c),
        a.func.blocks.len() <= b.func.blocks.len(),
    ensures
        untouched(a, c),
{
    assert forall|k: int| 0 <= k < a.func.blocks.len() && k != a.cursor implies #[trigger] c.func.blocks[k]
        == a.func.blocks[k] by {
        assert(b.func.blocks[k] == a.func.blocks[k]);
        assert(c.func.blocks[k] == b.func.blocks[k]);
    }
}

/// A function holds what it holds.
pub proof fn lemma_grows_refl(a: FunctionView)
    ensures
        grows_into(a, a),
{
}

/// What holds everything of a function that holds everything of another
/// holds everything of that other.
pub proof fn lemma_grows_trans(a: FunctionView, b: FunctionView, c: FunctionView)
    requires
        grows_into(a, b),
        grows_into(b, c),
    ensures
        grows_into(a, c),
{
    lemma_no_smaller_trans(a, b, c);
    assert forall|k: int, i: int|
        0 <= k < a.blocks.len() && 0 <= i < a.blocks[k].instrs.len() implies #[trigger] c.blocks[k].instrs[i]
        == a.blocks[k].instrs[i] by {
        assert(a.blocks[k].instrs.len() <= b.blocks[k].instrs.len());
        assert(b.blocks[k].instrs[i] == a.blocks[k].instrs[i]);
        assert(c.blocks[k].instrs[i] == b.blocks[k].instrs[i]);
    }
    assert forall|k: int| 0 <= k < a.blocks.len() && (#[trigger] a.blocks[k]).term is Some implies c.blocks[k]
        == a.blocks[k] by {
        assert(b.blocks[k] == a.blocks[k]);
        assert(b.blocks[k].term is Some);
        assert(c.blocks[k] == b.blocks[k]);
    }
}

/// Appending instructions to a block without terminator keeps what the
/// function held.
pub proof fn lemma_extends_grows(a: LowerState, b: LowerState)
    requires
        extends(a, b),
        a.cursor < a.func.blocks.len(),
        !a.is_terminated(),
    ensures
        grows_into(a.func, b.func),
        untouched(a, b),
        !b.is_terminated(),
        valid(a) ==> valid(b),
{
    assert forall|k: int|
        0 <= k < a.func.blocks.len() implies (#[trigger] a.func.blocks[k]).instrs.len()
        <= b.func.blocks[k].instrs.len() by {
        if k != a.cursor {
            assert(b.func.blocks[k] == a.func.blocks[k]);
        }
    }
    assert forall|k: int, i: int|
        0 <= k < a.func.blocks.len() && 0 <= i < a.func.blocks[k].instrs.len() implies #[trigger] b.func.blocks[k].instrs[i]
        == a.func.blocks[k].instrs[i] by {
        if k != a.cursor {
            assert(b.func.blocks[k] == a.func.blocks[k]);
        } else {
            assert(b.current().instrs[i] == a.current().instrs[i]);
        }
    }
    assert forall|k: int|
        0 <= k < a.func.blocks.len() && (#[trigger] a.func.blocks[k]).term is Some implies b.func.blocks[k]
        == a.func.blocks[k] by {
        assert(k != a.cursor);
        assert(b.func.blocks[k] == a.func.blocks[k]);
    }
}

/// Lowering an expression, from a state to go on from whose cursor
/// stands in a block without terminator, gives such a state again and
/// keeps what the function held, its slots and the scopes.
pub proof fn lemma_lower_expr_grows(st: LowerState, e: Expr)
    requires
        valid(st),
        !st.is_terminated(),
        lower_expr(st, e) is Ok,
    ensures
        ({
            let (after, _) = lower_expr(st, e)->Ok_0;
            &&& extends(st, after)
            &&& valid(after)
            &&& !after.is_terminated()
            &&& grows_into(st.func, after.func)
            &&& untouched(st, after)
        }),
{
    lemma_lower_expr_extends(st, e);
    let (after, _) = lower_expr(st, e)->Ok_0;
    lemma_extends_grows(st, after);
}

/// Ending the cursor's block, where it has no terminator, keeps what the
/// function held.
pub proof fn lemma_terminate_grows(st: LowerState, term: Terminator)
    requires
        st.cursor < st.func.blocks.len(),
        !st.is_terminated(),
    ensures
        grows_into(st.func, st.terminate(term).func),
        st.terminate(term).func.blocks[st.cursor as int] == (crate::ir::BlockView {
            term: Some(term),
            ..st.current()
        }),
{
}

/// Closing the cursor's block keeps what the function held.
pub proof fn lemma_close_grows(st: LowerState, target: usize)
    requires
        st.cursor < st.func.blocks.len(),
    ensures
        grows_into(st.func, st.close(target).func),
        st.close(target).is_terminated(),
{
    if !st.is_terminated() {
        lemma_terminate_grows(st, Terminator::Jump(target));
    }
}

/// What a statement binds has the scopes it started from, with other
/// names at most in the innermost one, and uses no fewer slots.
pub proof fn lemma_bind_outer(scopes: Seq<Frame>, next: nat, s: Stmt)
    requires
        scopes.len() >= 1,
    ensures
        outer_same(scopes, bind(scopes, next, s).0),
        bind(scopes, next, s).1 >= next,
    decreases s,
{
    match s {
        Stmt::VarDecl { kind, name, init } => {},
        Stmt::Block(stmts) => {
            lemma_bind_all_outer(scopes.push(Map::empty()), next, stmts@, 0);
        },
        Stmt::If { cond, then_branch, else_branch } => {
            lemma_bind_outer(scopes, next, *then_branch);
            let (scopes1, next1) = bind(scopes, next, *then_branch);
            match else_branch {
                None => {},
                Some(alt) => {
                    lemma_bind_outer(scopes1, next1, *alt);
                    let (scopes2, next2) = bind(scopes1, next1, *alt);
                    assert forall|k: int| 0 <= k < scopes.len() - 1 implies #[trigger] scopes2[k]
                        == scopes[k] by {
                        assert(scopes1[k] == scopes[k]);
                    }
                },
            }
        },
        Stmt::While { cond, body } => {
            lemma_bind_outer(scopes, next, *body);
        },
        _ => {},
    }
}

/// As `lemma_bind_outer`, for several statements.
pub proof fn lemma_bind_all_outer(scopes: Seq<Frame>, next: nat, stmts: Seq<Stmt>, from: nat)
    requires
        scopes.len() >= 1,
    ensures
        outer_same(scopes, bind_all(scopes, next, stmts, from).0),
        bind_all(scopes, next, stmts, from).1 >= next,
    decreases stmts, stmts.len() - from,
{
    if from < stmts.len() {
        lemma_bind_outer(scopes, next, stmts[from as int]);
        let (scopes1, next1) = bind(scopes, next, stmts[from as int]);
        lemma_bind_all_outer(scopes1, next1, stmts, from + 1);
        let (scopes2, next2) = bind_all(scopes1, next1, stmts, from + 1);
        assert forall|k: int| 0 <= k < scopes.len() - 1 implies #[trigger] scopes2[k] == scopes[k] by {
            assert(scopes1[k] == scopes[k]);
        }
    }
}

/// A new slot leaves a state to go on from.
pub proof fn lemma_alloc_slot_valid(st: LowerState, ty: ScalarType)
    requires
        valid(st),
    ensures
        valid(st.alloc_slot(ty)),
{
    let after = st.alloc_slot(ty);
    assert forall|k: int, n: Seq<char>|
        0 <= k < after.scopes.len() && #[trigger] after.scopes[k].dom().contains(n) implies after.scopes[k][n].index
        < after.func.slots.len() by {
        assert(st.scopes[k].dom().contains(n));
    }
}

/// A new scope leaves a state to go on from.
pub proof fn lemma_push_scope_valid(st: LowerState)
    requires
        valid(st),
    ensures
        valid(st.push_scope()),
{
    let after = st.push_scope();
    assert forall|k: int, n: Seq<char>|
        0 <= k < after.scopes.len() && #[trigger] after.scopes[k].dom().contains(n) implies after.scopes[k][n].index
        < after.func.slots.len() by {
        if k < st.scopes.len() {
            assert(st.scopes[k].dom().contains(n));
        }
    }
}

/// The block `block` as `st` has it, ended by `term`.
pub open spec fn ended(st: LowerState, block: usize, term: Terminator) -> BlockView {
    BlockView { term: Some(term), ..st.func.blocks[block as int] }
}

/// Whether block `block` of `f` is as `st` left it when it closed it with
/// a jump to `target`, where `st` had not ended it otherwise.
pub open spec fn closed_by(f: FunctionView, st: LowerState, target: usize) -> bool {
    !st.is_terminated() ==> f.blocks[st.cursor as int] == ended(st, st.cursor, Terminator::Jump(target))
}

/// Whether block `block` of `f` is empty and has no terminator.
pub open spec fn open_at(f: FunctionView, block: usize) -> bool {
    f.blocks[block as int].instrs.len() == 0 && f.blocks[block as int].term is None
}

/// Whether `inner` is where lowering a part of a statement starts: a
/// state to go on from with these scopes and that many slots, its cursor
/// at the start of an empty block.
pub open spec fn starts_in(inner: LowerState, scopes: Seq<Frame>, slots: nat) -> bool {
    &&& valid(inner)
    &&& open_at(inner.func, inner.cursor)
    &&& inner.scopes == scopes
    &&& inner.func.slots.len() == slots
}

/// How an `if` without `else` is lowered, state by state.
pub open spec fn if_anatomy(st: LowerState, s: Stmt) -> bool {
    let then_branch = *s->then_branch;
    let (st1, c) = lower_expr(st, s->If_cond)->Ok_0;
    let then_block = st1.next_block();
    let st2 = st1.new_block(Label::Then);
    let merge = st2.next_block();
    let branch = Terminator::Branch { cond: c, then_block, else_block: merge };
    let st3 = st2.new_block(Label::Merge).terminate(branch).position_at(then_block);
    let st4 = lower_stmt(st3, then_branch)->Ok_0;
    let after = st4.close(merge).position_at(merge);
    &&& lower_expr(st, s->If_cond) is Ok
    &&& lower_stmt(st, s) == Ok::<LowerState, ErrorView>(after)
    &&& !st.is_terminated()
    &&& grows_into(st1.func, after.func)
    &&& then_block == st1.func.blocks.len()
    &&& merge == then_block + 1
    &&& starts_in(st3, st.scopes, st.func.slots.len())
    &&& lowered(st3, then_branch)
    &&& grows_into(st4.func, after.func)
    &&& after.func.blocks[st.cursor as int] == ended(st1, st.cursor, branch)
    &&& closed_by(after.func, st4, merge)
    &&& open_at(after.func, merge)
}

/// How an `if` with `else` is lowered, state by state.
pub open spec fn if_else_anatomy(st: LowerState, s: Stmt) -> bool {
    let then_branch = *s->then_branch;
    let alt = *s->else_branch->0;
    let (st1, c) = lower_expr(st, s->If_cond)->Ok_0;
    let then_block = st1.next_block();
    let st2 = st1.new_block(Label::Then);
    let else_block = st2.next_block();
    let st3 = st2.new_block(Label::Else);
    let merge = st3.next_block();
    let branch = Terminator::Branch { cond: c, then_block, else_block };
    let st4 = st3.new_block(Label::Merge).terminate(branch).position_at(then_block);
    let st5 = lower_stmt(st4, then_branch)->Ok_0;
    let st5b = st5.close(merge).position_at(else_block);
    let st6 = lower_stmt(st5b, alt)->Ok_0;
    let after = st6.close(merge).position_at(merge);
    &&& lower_expr(st, s->If_cond) is Ok
    &&& lower_stmt(st, s) == Ok::<LowerState, ErrorView>(after)
    &&& !st.is_terminated()
    &&& grows_into(st1.func, after.func)
    &&& then_block == st1.func.blocks.len()
    &&& else_block == then_block + 1
    &&& merge == then_block + 2
    &&& starts_in(st4, st.scopes, st.func.slots.len())
    &&& lowered(st4, then_branch)
    &&& grows_into(st5.func, after.func)
    &&& starts_in(st5b, st5.scopes, st5.func.slots.len())
    &&& lowered(st5b, alt)
    &&& grows_into(st6.func, after.func)
    &&& after.func.blocks[st.cursor as int] == ended(st1, st.cursor, branch)
    &&& closed_by(after.func, st5, merge)
    &&& closed_by(after.func, st6, merge)
    &&& open_at(after.func, merge)
}

/// How a loop is lowered, state by state.
pub open spec fn while_anatomy(st: LowerState, s: Stmt) -> bool {
    let body = *s->body;
    let cond_block = st.next_block();
    let st1 = st.new_block(Label::Cond);
    let body_block = st1.next_block();
    let st2 = st1.new_block(Label::Body);
    let after_block = st2.next_block();
    let jump = Terminator::Jump(cond_block);
    let st3 = st2.new_block(Label::After).terminate(jump).position_at(cond_block);
    let (st4, c) = lower_expr(st3, s->While_cond)->Ok_0;
    let branch = Terminator::Branch { cond: c, then_block: body_block, else_block: after_block };
    let st5 = st4.terminate(branch).position_at(body_block);
    let st6 = lower_stmt(st5, body)->Ok_0;
    let after = st6.close(cond_block).position_at(after_block);
    &&& lower_expr(st3, s->While_cond) is Ok
    &&& lower_stmt(st, s) == Ok::<LowerState, ErrorView>(after)
    &&& !st.is_terminated()
    &&& cond_block == st.func.blocks.len()
    &&& body_block == cond_block + 1
    &&& after_block == cond_block + 2
    &&& starts_in(st3, st.scopes, st.func.slots.len())
    &&& grows_into(st4.func, after.func)
    &&& starts_in(st5, st.scopes, st.func.slots.len())
    &&& lowered(st5, body)
    &&& grows_into(st6.func, after.func)
    &&& after.func.blocks[st.cursor as int] == ended(st, st.cursor, jump)
    &&& after.func.blocks[cond_block as int] == ended(st4, cond_block, branch)
    &&& closed_by(after.func, st6, cond_block)
    &&& open_at(after.func, after_block)
}

/// What the structural law asks: a state to go on from, and a statement
/// that is lowered into a function whose sizes fit.
pub open spec fn lowered(st: LowerState, s: Stmt) -> bool {
    valid(st) && (lower_stmt(st, s) matches Ok(after) && bounded(after.func))
}

/// The structural law of a declaration.
proof fn lemma_var_decl_grows(st: LowerState, s: Stmt)
    requires
        lowered(st, s),
        s is VarDecl,
    ensures
        follows(st, lower_stmt(st, s)->Ok_0, bind(st.scopes, st.func.slots.len(), s)),
{
    let after = lower_stmt(st, s)->Ok_0;
    let name = s->name@;
    let index = st.next_slot();
    let st0 = st.alloc_slot(ScalarType::I32);
    assert(valid(st0)) by {
        assert forall|k: int, n: Seq<char>|
            0 <= k < st0.scopes.len() && #[trigger] st0.scopes[k].dom().contains(n) implies st0.scopes[k][n].index
            < st0.func.slots.len() by {
            assert(st.scopes[k].dom().contains(n));
        }
    }
    lemma_lower_expr_grows(st0, s->init);
    let (st1, v) = lower_expr(st0, s->init)->Ok_0;
    let store = InstrView::Store { slot: index, value: v };
    let st2 = st1.emit(store);
    crate::invariants::lemma_emit_extends(st1, store);
    lemma_extends_grows(st1, st2);
    let slot = Slot { index, ty: ScalarType::I32, mutable: is_mutable(s->kind) };
    assert(after == st2.declare(name, slot));
    lemma_grows_trans(st.func, st0.func, st1.func);
    lemma_grows_trans(st.func, st1.func, st2.func);
    assert(index < after.func.slots.len());
    assert(valid(after)) by {
        assert forall|k: int, n: Seq<char>|
            0 <= k < after.scopes.len() && #[trigger] after.scopes[k].dom().contains(n) implies after.scopes[k][n].index
            < after.func.slots.len() by {
            if k == st2.scopes.len() - 1 && n == name {
            } else {
                assert(st2.scopes[k].dom().contains(n));
            }
        }
    }
}

/// The structural law of a block.
proof fn lemma_block_grows(st: LowerState, s: Stmt)
    requires
        lowered(st, s),
        s is Block,
    ensures
        follows(st, lower_stmt(st, s)->Ok_0, bind(st.scopes, st.func.slots.len(), s)),
    decreases s, 0nat,
{
    let after = lower_stmt(st, s)->Ok_0;
    let stmts = s->Block_0@;
    let opened = st.push_scope();
    assert(valid(opened)) by {
        assert forall|k: int, n: Seq<char>|
            0 <= k < opened.scopes.len() && #[trigger] opened.scopes[k].dom().contains(n) implies opened.scopes[k][n].index
            < opened.func.slots.len() by {
            if k < st.scopes.len() {
                assert(st.scopes[k].dom().contains(n));
            }
        }
    }
    let inner = lower_stmts(opened, stmts, 0)->Ok_0;
    assert(after == inner.pop_scope());
    lemma_lower_stmts_grows(opened, stmts, 0);
    lemma_bind_all_outer(opened.scopes, st.func.slots.len(), stmts, 0);
    assert(after.scopes =~= st.scopes) by {
        assert forall|k: int| 0 <= k < st.scopes.len() implies after.scopes[k] == st.scopes[k] by {
            assert(inner.scopes[k] == opened.scopes[k]);
        }
    }
    assert(valid(after)) by {
        assert forall|k: int, n: Seq<char>|
            0 <= k < after.scopes.len() && #[trigger] after.scopes[k].dom().contains(n) implies after.scopes[k][n].index
            < after.func.slots.len() by {
            assert(st.scopes[k].dom().contains(n));
        }
    }
}

/// The structural law of an `if` without `else`, with its anatomy.
pub proof fn lemma_if_grows(st: LowerState, s: Stmt)
    requires
        lowered(st, s),
        s is If,
        s->else_branch is None,
    ensures
        follows(st, lower_stmt(st, s)->Ok_0, bind(st.scopes, st.func.slots.len(), s)),
        if_anatomy(st, s),
    decreases s, 0nat,
{
    let after = lower_stmt(st, s)->Ok_0;
    let then_branch = *s->then_branch;
    lemma_lower_expr_grows(st, s->If_cond);
    let (st1, c) = lower_expr(st, s->If_cond)->Ok_0;
    let then_block = st1.next_block();
    let st2 = st1.new_block(Label::Then);
    let merge = st2.next_block();
    let st2m = st2.new_block(Label::Merge);
    let branch = Terminator::Branch { cond: c, then_block, else_block: merge };
    let st3 = st2m.terminate(branch).position_at(then_block);
    let st4 = lower_stmt(st3, then_branch)->Ok_0;
    assert(after == st4.close(merge).position_at(merge));
    lemma_lower_stmt_no_smaller(st3, then_branch);
    lemma_close_no_smaller(st4, merge, merge);
    lemma_bounded_below(st4.func, after.func);
    lemma_bounded_below(st3.func, st4.func);
    assert(st2m.cursor == st1.cursor);
    lemma_terminate_grows(st2m, branch);
    lemma_grows_trans(st1.func, st2m.func, st3.func);
    lemma_grows_trans(st.func, st1.func, st3.func);
    assert(valid(st3));
    lemma_lower_stmt_grows(st3, then_branch);
    lemma_close_grows(st4, merge);
    lemma_grows_trans(st.func, st3.func, st4.func);
    lemma_grows_trans(st.func, st4.func, after.func);
    assert(untouched(st, after)) by {
        assert forall|k: int| 0 <= k < st.func.blocks.len() && k != st.cursor implies #[trigger] after.func.blocks[k]
            == st.func.blocks[k] by {
            assert(st1.func.blocks[k] == st.func.blocks[k]);
            assert(st3.func.blocks[k] == st1.func.blocks[k]);
            assert(st4.func.blocks[k] == st3.func.blocks[k]);
        }
    }
    lemma_grows_trans(st1.func, st3.func, st4.func);
    lemma_grows_trans(st1.func, st4.func, after.func);
    lemma_grows_refl(after.func);
    lemma_grows_trans(st4.func, st4.close(merge).func, after.func);
    assert(st4.func.blocks[st.cursor as int] == st3.func.blocks[st.cursor as int]);
    assert(st4.func.blocks[merge as int] == st3.func.blocks[merge as int]);
}

/// The structural law of an `if` with `else`, with its anatomy.
pub proof fn lemma_if_else_grows(st: LowerState, s: Stmt)
    requires
        lowered(st, s),
        s is If,
        s->else_branch is Some,
    ensures
        follows(st, lower_stmt(st, s)->Ok_0, bind(st.scopes, st.func.slots.len(), s)),
        if_else_anatomy(st, s),
    decreases s, 0nat,
{
    let after = lower_stmt(st, s)->Ok_0;
    let then_branch = *s->then_branch;
    let alt = *s->else_branch->0;
    lemma_lower_expr_grows(st, s->If_cond);
    let (st1, c) = lower_expr(st, s->If_cond)->Ok_0;
    let then_block = st1.next_block();
    let st2 = st1.new_block(Label::Then);
    let else_block = st2.next_block();
    let st3 = st2.new_block(Label::Else);
    let merge = st3.next_block();
    let st3m = st3.new_block(Label::Merge);
    let branch = Terminator::Branch { cond: c, then_block, else_block };
    let st4 = st3m.terminate(branch).position_at(then_block);
    let st5 = lower_stmt(st4, then_branch)->Ok_0;
    let st5b = st5.close(merge).position_at(else_block);
    let st6 = lower_stmt(st5b, alt)->Ok_0;
    assert(after == st6.close(merge).position_at(merge));
    lemma_lower_stmt_no_smaller(st4, then_branch);
    lemma_close_no_smaller(st5, merge, else_block);
    lemma_lower_stmt_no_smaller(st5b, alt);
    lemma_close_no_smaller(st6, merge, merge);
    lemma_bounded_below(st6.func, after.func);
    lemma_bounded_below(st5b.func, st6.func);
    lemma_bounded_below(st5.func, st5b.func);
    lemma_bounded_below(st4.func, st5.func);
    assert(st3m.cursor == st1.cursor);
    lemma_terminate_grows(st3m, branch);
    lemma_grows_trans(st1.func, st3m.func, st4.func);
    lemma_grows_trans(st.func, st1.func, st4.func);
    assert(valid(st4));
    lemma_lower_stmt_grows(st4, then_branch);
    lemma_close_grows(st5, merge);
    assert(valid(st5b));
    lemma_lower_stmt_grows(st5b, alt);
    lemma_close_grows(st6, merge);
    lemma_grows_trans(st.func, st4.func, st5.func);
    lemma_grows_trans(st.func, st5.func, st5b.func);
    lemma_grows_trans(st.func, st5b.func, st6.func);
    lemma_grows_trans(st.func, st6.func, after.func);
    assert(untouched(st, after)) by {
        assert forall|k: int| 0 <= k < st.func.blocks.len() && k != st.cursor implies #[trigger] after.func.blocks[k]
            == st.func.blocks[k] by {
            assert(st1.func.blocks[k] == st.func.blocks[k]);
            assert(st4.func.blocks[k] == st1.func.blocks[k]);
            assert(st5.func.blocks[k] == st4.func.blocks[k]);
            assert(st5b.func.blocks[k] == st5.func.blocks[k]);
            assert(st6.func.blocks[k] == st5b.func.blocks[k]);
        }
    }
    lemma_grows_trans(st1.func, st4.func, st5.func);
    lemma_grows_trans(st1.func, st5.func, st5b.func);
    lemma_grows_trans(st1.func, st5b.func, st6.func);
    lemma_grows_trans(st1.func, st6.func, after.func);
    lemma_grows_trans(st5.func, st5b.func, st6.func);
    lemma_grows_trans(st5.func, st6.func, after.func);
    lemma_grows_refl(after.func);
    lemma_grows_trans(st6.func, st6.close(merge).func, after.func);
    assert(st5.func.blocks[st.cursor as int] == st4.func.blocks[st.cursor as int]);
    assert(st5.func.blocks[else_block as int] == st4.func.blocks[else_block as int]);
    assert(st5.func.blocks[merge as int] == st4.func.blocks[merge as int]);
    assert(st6.func.blocks[st.cursor as int] == st5b.func.blocks[st.cursor as int]);
    assert(st6.func.blocks[merge as int] == st5b.func.blocks[merge as int]);
    assert(closed_by(after.func, st5, merge)) by {
        if !st5.is_terminated() {
            assert(st6.func.blocks[st5.cursor as int] == st5b.func.blocks[st5.cursor as int]);
        }
    }
}

/// The structural law of a loop, with its anatomy.
pub proof fn lemma_while_grows(st: LowerState, s: Stmt)
    requires
        lowered(st, s),
        s is While,
    ensures
        follows(st, lower_stmt(st, s)->Ok_0, bind(st.scopes, st.func.slots.len(), s)),
        while_anatomy(st, s),
    decreases s, 0nat,
{
    let after = lower_stmt(st, s)->Ok_0;
    let body = *s->body;
    let cond_block = st.next_block();
    let st1 = st.new_block(Label::Cond);
    let body_block = st1.next_block();
    let st2 = st1.new_block(Label::Body);
    let after_block = st2.next_block();
    let st2b = st2.new_block(Label::After);
    let jump = Terminator::Jump(cond_block);
    let st3 = st2b.terminate(jump).position_at(cond_block);
    let (st4, c) = lower_expr(st3, s->While_cond)->Ok_0;
    let branch = Terminator::Branch { cond: c, then_block: body_block, else_block: after_block };
    let st5 = st4.terminate(branch).position_at(body_block);
    let st6 = lower_stmt(st5, body)->Ok_0;
    assert(after == st6.close(cond_block).position_at(after_block));
    lemma_lower_expr_no_smaller(st3, s->While_cond);
    lemma_terminate_no_smaller(st4, branch);
    lemma_lower_stmt_no_smaller(st5, body);
    lemma_close_no_smaller(st6, cond_block, after_block);
    lemma_bounded_below(st6.func, after.func);
    lemma_bounded_below(st5.func, st6.func);
    lemma_bounded_below(st4.func, st5.func);
    lemma_bounded_below(st3.func, st4.func);
    lemma_terminate_grows(st2b, jump);
    lemma_grows_trans(st.func, st2b.func, st3.func);
    assert(valid(st3));
    assert(!st3.is_terminated());
    lemma_lower_expr_grows(st3, s->While_cond);
    lemma_terminate_grows(st4, branch);
    lemma_grows_trans(st.func, st3.func, st4.func);
    lemma_grows_trans(st.func, st4.func, st5.func);
    assert(valid(st5));
    lemma_lower_stmt_grows(st5, body);
    lemma_close_grows(st6, cond_block);
    lemma_grows_trans(st.func, st5.func, st6.func);
    lemma_grows_trans(st.func, st6.func, after.func);
    assert(untouched(st, after)) by {
        assert forall|k: int| 0 <= k < st.func.blocks.len() && k != st.cursor implies #[trigger] after.func.blocks[k]
            == st.func.blocks[k] by {
            assert(st3.func.blocks[k] == st.func.blocks[k]);
            assert(st4.func.blocks[k] == st3.func.blocks[k]);
            assert(st5.func.blocks[k] == st4.func.blocks[k]);
            assert(st6.func.blocks[k] == st5.func.blocks[k]);
        }
    }
    lemma_grows_trans(st4.func, st5.func, st6.func);
    lemma_grows_trans(st4.func, st6.func, after.func);
    lemma_grows_refl(after.func);
    lemma_grows_trans(st6.func, st6.close(cond_block).func, after.func);
    assert(st4.func.blocks[st.cursor as int] == st3.func.blocks[st.cursor as int]);
    assert(st6.func.blocks[st.cursor as int] == st5.func.blocks[st.cursor as int]);
    assert(st6.func.blocks[cond_block as int] == st5.func.blocks[cond_block as int]);
    assert(st4.func.blocks[after_block as int] == st3.func.blocks[after_block as int]);
    assert(st6.func.blocks[after_block as int] == st5.func.blocks[after_block as int]);
    assert(st4.func.blocks[body_block as int] == st3.func.blocks[body_block as int]);
}

/// The structural law of a `return`.
proof fn lemma_return_grows(st: LowerState, s: Stmt)
    requires
        lowered(st, s),
        s is Return,
    ensures
        follows(st, lower_stmt(st, s)->Ok_0, bind(st.scopes, st.func.slots.len(), s)),
{
    let after = lower_stmt(st, s)->Ok_0;
    match s->Return_0 {
        None => {
            lemma_terminate_grows(st, Terminator::Return(Value::Const(0)));
        },
        Some(e) => {
            lemma_lower_expr_grows(st, e);
            let (st1, v) = lower_expr(st, e)->Ok_0;
            lemma_terminate_grows(st1, Terminator::Return(v));
            lemma_grows_trans(st.func, st1.func, after.func);
        },
    }
}

/// The structural law of statements: lowering a statement, from a state
/// to go on from into a function whose sizes fit, gives a state to go on
/// from, keeps what the function held, and leaves the scopes and the
/// slots in use as the statement binds them.
pub proof fn lemma_lower_stmt_grows(st: LowerState, s: Stmt)
    requires
        lowered(st, s),
    ensures
        follows(st, lower_stmt(st, s)->Ok_0, bind(st.scopes, st.func.slots.len(), s)),
    decreases s, 1nat,
{
    match s {
        Stmt::VarDecl { .. } => {
            lemma_var_decl_grows(st, s);
        },
        Stmt::Expr(e) => {
            lemma_lower_expr_grows(st, e);
        },
        Stmt::Block(_) => {
            lemma_block_grows(st, s);
        },
        Stmt::If { cond, then_branch, else_branch } => {
            if else_branch is Some {
                lemma_if_else_grows(st, s);
            } else {
                lemma_if_grows(st, s);
            }
        },
        Stmt::While { .. } => {
            lemma_while_grows(st, s);
        },
        Stmt::Return(_) => {
            lemma_return_grows(st, s);
        },
        Stmt::Unsupported(_) => {},
    }
}

/// The structural law of several statements.
pub proof fn lemma_lower_stmts_grows(st: LowerState, stmts: Seq<Stmt>, from: nat)
    requires
        valid(st),
        lower_stmts(st, stmts, from) matches Ok(after) && bounded(after.func),
    ensures
        follows(
            st,
            lower_stmts(st, stmts, from)->Ok_0,
            bind_all(st.scopes, st.func.slots.len(), stmts, from),
        ),
    decreases stmts, stmts.len() - from, 0nat,
{
    if from < stmts.len() {
        let s = stmts[from as int];
        let st1 = lower_stmt(st, s)->Ok_0;
        let after = lower_stmts(st1, stmts, from + 1)->Ok_0;
        lemma_lower_stmts_no_smaller(st1, stmts, from + 1);
        lemma_bounded_below(st1.func, after.func);
        lemma_lower_stmt_grows(st, s);
        lemma_lower_stmts_grows(st1, stmts, from + 1);
        lemma_grows_trans(st.func, st1.func, after.func);
        lemma_untouched_trans(st, st1, after);
    }
}

} // verus!
