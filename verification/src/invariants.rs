//! What holds of the function under construction at every step of
//! lowering, and how single steps keep it.

use vstd::prelude::*;
use crate::ast::Expr;
use crate::ir::{InstrView, Label, ScalarType, Terminator, Value};
use crate::lower::{lower_args, lower_expr, LowerState};
use crate::symbols::{lookup, Frame, Slot};

verus! {

impl LowerState {
    /// Whether `v` may be used by the next instruction at the cursor.
    pub open spec fn usable(self, v: Value) -> bool {
        self.func.defines(self.cursor as int, self.current().instrs.len() as int, v)
    }

    /// Whether `instr` may be emitted at the cursor.
    pub open spec fn fits(self, instr: InstrView) -> bool {
        self.func.admits(self.cursor as int, self.current().instrs.len() as int, instr)
    }

    /// Whether `term` may end the cursor's block.
    pub open spec fn fits_term(self, term: Terminator) -> bool {
        self.func.admits_term(self.cursor as int, term)
    }

    /// Whether block `b` is one that the cursor has left without a
    /// terminator.
    pub open spec fn dangling(self, b: int) -> bool {
        0 <= b < self.func.blocks.len() && b != self.cursor && self.func.blocks[b].term is None
    }

    /// Whether no block but the cursor's lacks its terminator.
    pub open spec fn settled(self) -> bool {
        forall|b: int| !self.dangling(b)
    }

    /// Whether every bound name stands for a slot that exists.
    pub open spec fn scopes_ok(self) -> bool {
        forall|k: int, name: Seq<char>|
            0 <= k < self.scopes.len() && #[trigger] self.scopes[k].dom().contains(name)
                ==> self.scopes[k][name].index < self.func.slots.len()
    }

    /// Whether every block is in order and every bound name has its slot.
    pub closed spec fn sound(self) -> bool {
        self.func.consistent() && self.scopes_ok()
    }

    /// What lowering keeps true of its state: the cursor stands in a
    /// block, a scope is open, every block is in order, and every bound
    /// name has its slot.
    pub open spec fn inv(self) -> bool {
        &&& self.cursor < self.func.blocks.len()
        &&& self.scopes.len() >= 1
        &&& self.sound()
    }
}

/// The step from `a` to `b` only appended instructions at the cursor.
pub open spec fn extends(a: LowerState, b: LowerState) -> bool {
    &&& b.cursor == a.cursor
    &&& b.scopes == a.scopes
    &&& b.func.name == a.func.name
    &&& b.func.slots == a.func.slots
    &&& b.func.blocks.len() == a.func.blocks.len()
    &&& forall|k: int|
        0 <= k < a.func.blocks.len() && k != a.cursor ==> #[trigger] b.func.blocks[k]
            == a.func.blocks[k]
    &&& b.current().label == a.current().label
    &&& b.current().term == a.current().term
    &&& a.current().instrs.len() <= b.current().instrs.len()
    &&& forall|i: int|
        0 <= i < a.current().instrs.len() ==> #[trigger] b.current().instrs[i]
            == a.current().instrs[i]
}

/// The step from `a` to `b` lowered statements: scopes were opened and
/// closed in pairs and only the innermost one may have gained names, no
/// block was removed, and no block was left without a terminator that was
/// not so before.
pub open spec fn advances(a: LowerState, b: LowerState) -> bool {
    &&& b.scopes.len() == a.scopes.len()
    &&& forall|k: int| 0 <= k < a.scopes.len() - 1 ==> #[trigger] b.scopes[k] == a.scopes[k]
    &&& b.func.name == a.func.name
    &&& a.func.blocks.len() <= b.func.blocks.len()
    &&& a.func.slots.len() <= b.func.slots.len()
    &&& forall|k: int| #[trigger] b.dangling(k) ==> a.dangling(k)
}

/// Appending nothing is appending.
pub proof fn lemma_extends_refl(a: LowerState)
    ensures
        extends(a, a),
{
}

/// Appending, then appending again, is appending.
pub proof fn lemma_extends_trans(a: LowerState, b: LowerState, c: LowerState)
    requires
        extends(a, b),
        extends(b, c),
    ensures
        extends(a, c),
{
    assert forall|k: int| 0 <= k < a.func.blocks.len() && k != a.cursor implies #[trigger] c.func.blocks[k]
        == a.func.blocks[k] by {
        assert(b.func.blocks[k] == a.func.blocks[k]);
    }
    assert forall|i: int| 0 <= i < a.current().instrs.len() implies #[trigger] c.current().instrs[i]
        == a.current().instrs[i] by {
        assert(b.current().instrs[i] == a.current().instrs[i]);
    }
}

/// A value that may be used stays so while instructions are appended.
pub proof fn lemma_extends_usable(a: LowerState, b: LowerState, v: Value)
    requires
        extends(a, b),
        a.usable(v),
    ensures
        b.usable(v),
{
    match v {
        Value::Const(_) => {},
        Value::Inst { block, index } => {
            assert(b.current().instrs[index as int] == a.current().instrs[index as int]);
        },
    }
}

/// Appending instructions at the cursor is a step of lowering.
pub proof fn lemma_extends_advances(a: LowerState, b: LowerState)
    requires
        extends(a, b),
        a.cursor < a.func.blocks.len(),
    ensures
        advances(a, b),
        a.is_terminated() == b.is_terminated(),
{
    assert forall|k: int| #[trigger] b.dangling(k) implies a.dangling(k) by {
        assert(b.func.blocks[k] == a.func.blocks[k]);
    }
}

/// Steps of lowering in a row are a step of lowering.
pub proof fn lemma_advances_trans(a: LowerState, b: LowerState, c: LowerState)
    requires
        advances(a, b),
        advances(b, c),
    ensures
        advances(a, c),
{
    assert forall|k: int| 0 <= k < a.scopes.len() - 1 implies #[trigger] c.scopes[k] == a.scopes[k] by {
        assert(b.scopes[k] == a.scopes[k]);
    }
    assert forall|k: int| #[trigger] c.dangling(k) implies a.dangling(k) by {
        assert(b.dangling(k));
    }
}

/// Emitting an instruction that fits keeps the state in order, and its
/// result may be used afterwards.
pub proof fn lemma_emit(st: LowerState, instr: InstrView)
    requires
        st.inv(),
        st.fits(instr),
        st.current().instrs.len() < usize::MAX,
    ensures
        st.emit(instr).inv(),
        extends(st, st.emit(instr)),
        instr.has_result() ==> st.emit(instr).usable(st.next_value()),
{
    let after = st.emit(instr);
    let c = st.cursor as int;
    let n = st.current().instrs.len() as int;
    assert(after.func.blocks[c].instrs[n] == instr);
    assert forall|b: int| 0 <= b < after.func.blocks.len() implies #[trigger] after.func.block_ok(b) by {
        assert(st.func.block_ok(b));
        assert forall|i: int| 0 <= i < after.func.blocks[b].instrs.len() implies after.func.admits(
            b,
            i,
            #[trigger] after.func.blocks[b].instrs[i],
        ) by {
            if b == c && i == n {
                lemma_admits_same(st, after, b, i, instr);
            } else {
                assert(after.func.blocks[b].instrs[i] == st.func.blocks[b].instrs[i]);
                assert(st.func.admits(b, i, st.func.blocks[b].instrs[i]));
                lemma_admits_same(st, after, b, i, st.func.blocks[b].instrs[i]);
            }
        }
        match st.func.blocks[b].term {
            None => {},
            Some(term) => {
                lemma_admits_term_grown(st, after, b, term);
            },
        }
    }
}

/// Whether an instruction may stand at a position depends only on the
/// slots and on the instructions before it in its block.
proof fn lemma_admits_same(a: LowerState, b: LowerState, k: int, at: int, instr: InstrView)
    requires
        a.func.admits(k, at, instr),
        a.func.slots.len() <= b.func.slots.len(),
        0 <= k < a.func.blocks.len(),
        k < b.func.blocks.len(),
        at <= a.func.blocks[k].instrs.len() <= b.func.blocks[k].instrs.len(),
        forall|i: int|
            0 <= i < a.func.blocks[k].instrs.len() ==> #[trigger] b.func.blocks[k].instrs[i]
                == a.func.blocks[k].instrs[i],
    ensures
        b.func.admits(k, at, instr),
{
    match instr {
        InstrView::Load { slot } => {},
        InstrView::Store { slot, value } => {
            lemma_defines_same(a, b, k, at, value);
        },
        InstrView::Binary { op, lhs, rhs } => {
            lemma_defines_same(a, b, k, at, lhs);
            lemma_defines_same(a, b, k, at, rhs);
        },
        InstrView::Call { callee, args } => {
            assert forall|j: int| 0 <= j < args.len() implies b.func.defines(k, at, #[trigger] args[j]) by {
                lemma_defines_same(a, b, k, at, args[j]);
            }
        },
    }
}

/// Whether a value may be used at a position depends only on the
/// instructions before it in its block.
proof fn lemma_defines_same(a: LowerState, b: LowerState, k: int, at: int, v: Value)
    requires
        a.func.defines(k, at, v),
        0 <= k < a.func.blocks.len(),
        k < b.func.blocks.len(),
        at <= a.func.blocks[k].instrs.len() <= b.func.blocks[k].instrs.len(),
        forall|i: int|
            0 <= i < a.func.blocks[k].instrs.len() ==> #[trigger] b.func.blocks[k].instrs[i]
                == a.func.blocks[k].instrs[i],
    ensures
        b.func.defines(k, at, v),
        b.func.defines(k, b.func.blocks[k].instrs.len() as int, v),
{
    match v {
        Value::Const(_) => {},
        Value::Inst { block, index } => {
            assert(b.func.blocks[k].instrs[index as int] == a.func.blocks[k].instrs[index as int]);
        },
    }
}

/// A terminator that may end a block still may when the block has gained
/// instructions and the function has gained blocks.
proof fn lemma_admits_term_grown(a: LowerState, b: LowerState, k: int, term: Terminator)
    requires
        a.func.admits_term(k, term),
        0 <= k < a.func.blocks.len(),
        a.func.blocks.len() <= b.func.blocks.len(),
        a.func.blocks[k].instrs.len() <= b.func.blocks[k].instrs.len(),
        forall|i: int|
            0 <= i < a.func.blocks[k].instrs.len() ==> #[trigger] b.func.blocks[k].instrs[i]
                == a.func.blocks[k].instrs[i],
    ensures
        b.func.admits_term(k, term),
{
    match term {
        Terminator::Return(v) => {
            lemma_defines_same(a, b, k, a.func.blocks[k].instrs.len() as int, v);
        },
        Terminator::Jump(_) => {},
        Terminator::Branch { cond, then_block, else_block } => {
            lemma_defines_same(a, b, k, a.func.blocks[k].instrs.len() as int, cond);
        },
    }
}

/// A change that leaves the instructions of every old block in place,
/// and adds only blocks that are in order, keeps every block in order.
proof fn lemma_consistent_kept(a: LowerState, b: LowerState)
    requires
        a.func.consistent(),
        a.func.slots.len() <= b.func.slots.len(),
        a.func.blocks.len() <= b.func.blocks.len(),
        forall|k: int|
            0 <= k < a.func.blocks.len() ==> (#[trigger] b.func.blocks[k]).instrs
                == a.func.blocks[k].instrs,
        forall|k: int|
            0 <= k < a.func.blocks.len() ==> (#[trigger] b.func.blocks[k]).term == a.func.blocks[k].term
                || b.func.block_ok(k),
        forall|k: int| a.func.blocks.len() <= k < b.func.blocks.len() ==> #[trigger] b.func.block_ok(k),
    ensures
        b.func.consistent(),
{
    assert forall|k: int| 0 <= k < b.func.blocks.len() implies #[trigger] b.func.block_ok(k) by {
        if k < a.func.blocks.len() && !b.func.block_ok(k) {
            assert(a.func.block_ok(k));
            assert(b.func.blocks[k].instrs == a.func.blocks[k].instrs);
            assert forall|i: int| 0 <= i < b.func.blocks[k].instrs.len() implies b.func.admits(
                k,
                i,
                #[trigger] b.func.blocks[k].instrs[i],
            ) by {
                assert(a.func.admits(k, i, a.func.blocks[k].instrs[i]));
                lemma_admits_same(a, b, k, i, a.func.blocks[k].instrs[i]);
            }
            match a.func.blocks[k].term {
                None => {},
                Some(term) => {
                    lemma_admits_term_grown(a, b, k, term);
                },
            }
        }
    }
}

/// Ending the cursor's block with a terminator that fits keeps the state
/// in order.
pub proof fn lemma_terminate(st: LowerState, term: Terminator)
    requires
        st.inv(),
        st.fits_term(term),
    ensures
        st.terminate(term).inv(),
        st.terminate(term).is_terminated(),
{
    let after = st.terminate(term);
    let c = st.cursor as int;
    assert forall|i: int| 0 <= i < after.func.blocks[c].instrs.len() implies after.func.admits(
        c,
        i,
        #[trigger] after.func.blocks[c].instrs[i],
    ) by {
        assert(st.func.block_ok(c));
        assert(st.func.admits(c, i, st.func.blocks[c].instrs[i]));
        lemma_admits_same(st, after, c, i, st.func.blocks[c].instrs[i]);
    }
    lemma_admits_term_grown(st, after, c, term);
    assert(after.func.block_ok(c));
    lemma_consistent_kept(st, after);
}

/// A new block keeps the state in order.
pub proof fn lemma_new_block(st: LowerState, label: Label)
    requires
        st.inv(),
    ensures
        st.new_block(label).inv(),
{
    let after = st.new_block(label);
    let n = st.func.blocks.len() as int;
    assert(after.func.block_ok(n));
    lemma_consistent_kept(st, after);
}

/// A new slot keeps the state in order.
pub proof fn lemma_alloc_slot(st: LowerState, ty: ScalarType)
    requires
        st.inv(),
    ensures
        st.alloc_slot(ty).inv(),
{
    let after = st.alloc_slot(ty);
    lemma_consistent_kept(st, after);
    assert forall|k: int, name: Seq<char>|
        0 <= k < after.scopes.len() && #[trigger] after.scopes[k].dom().contains(name) implies after.scopes[k][name].index
        < after.func.slots.len() by {
        assert(st.scopes[k].dom().contains(name));
    }
}

/// Moving the cursor to a block that exists keeps the state in order.
pub proof fn lemma_position_at(st: LowerState, block: usize)
    requires
        st.inv(),
        block < st.func.blocks.len(),
    ensures
        st.position_at(block).inv(),
{
}

/// Opening a scope keeps the state in order.
pub proof fn lemma_push_scope(st: LowerState)
    requires
        st.inv(),
    ensures
        st.push_scope().inv(),
{
    let after = st.push_scope();
    assert forall|k: int, name: Seq<char>|
        0 <= k < after.scopes.len() && #[trigger] after.scopes[k].dom().contains(name) implies after.scopes[k][name].index
        < after.func.slots.len() by {
        if k < st.scopes.len() {
            assert(st.scopes[k].dom().contains(name));
        }
    }
}

/// Closing a scope that is not the outermost keeps the state in order.
pub proof fn lemma_pop_scope(st: LowerState)
    requires
        st.inv(),
        st.scopes.len() > 1,
    ensures
        st.pop_scope().inv(),
{
    let after = st.pop_scope();
    assert forall|k: int, name: Seq<char>|
        0 <= k < after.scopes.len() && #[trigger] after.scopes[k].dom().contains(name) implies after.scopes[k][name].index
        < after.func.slots.len() by {
        assert(st.scopes[k].dom().contains(name));
    }
}

/// Binding a name to a slot that exists keeps the state in order.
pub proof fn lemma_declare(st: LowerState, name: Seq<char>, slot: Slot)
    requires
        st.inv(),
        slot.index < st.func.slots.len(),
    ensures
        st.declare(name, slot).inv(),
{
    let after = st.declare(name, slot);
    assert forall|k: int, other: Seq<char>|
        0 <= k < after.scopes.len() && #[trigger] after.scopes[k].dom().contains(other) implies after.scopes[k][other].index
        < after.func.slots.len() by {
        if k == st.scopes.len() - 1 && other == name {
        } else {
            assert(st.scopes[k].dom().contains(other));
        }
    }
}

/// A name that resolves is bound in one of the open scopes.
pub proof fn lemma_lookup_bound(scopes: Seq<Frame>, name: Seq<char>)
    ensures
        match lookup(scopes, name) {
            Some(slot) => exists|k: int|
                0 <= k < scopes.len() && #[trigger] scopes[k].dom().contains(name) && scopes[k][name]
                    == slot,
            None => forall|k: int| 0 <= k < scopes.len() ==> !#[trigger] scopes[k].dom().contains(name),
        },
    decreases scopes.len(),
{
    if scopes.len() > 0 {
        if scopes.last().dom().contains(name) {
            assert(scopes[scopes.len() - 1].dom().contains(name));
        } else {
            lemma_lookup_bound(scopes.drop_last(), name);
            match lookup(scopes.drop_last(), name) {
                Some(slot) => {
                    let k = choose|k: int|
                        0 <= k < scopes.drop_last().len() && #[trigger] scopes.drop_last()[k].dom().contains(
                            name,
                        ) && scopes.drop_last()[k][name] == slot;
                    assert(scopes[k].dom().contains(name));
                },
                None => {
                    assert forall|k: int| 0 <= k < scopes.len() implies !#[trigger] scopes[k].dom().contains(
                        name,
                    ) by {
                        if k < scopes.len() - 1 {
                            assert(!scopes.drop_last()[k].dom().contains(name));
                        }
                    }
                },
            }
        }
    }
}

/// A name that resolves does so to a slot that exists.
pub proof fn lemma_lookup_slot(st: LowerState, name: Seq<char>)
    requires
        st.inv(),
    ensures
        match lookup(st.scopes, name) {
            Some(slot) => slot.index < st.func.slots.len(),
            None => true,
        },
{
    lemma_lookup_bound(st.scopes, name);
}

/// Emitting an instruction only appends at the cursor.
pub proof fn lemma_emit_extends(st: LowerState, instr: InstrView)
    requires
        st.cursor < st.func.blocks.len(),
    ensures
        extends(st, st.emit(instr)),
{
}

/// Lowering an expression only appends instructions at the cursor: it
/// leaves the cursor where it was, in a block that has no terminator if
/// it had none, and touches no other block, no slot and no scope.
pub proof fn lemma_lower_expr_extends(st: LowerState, e: Expr)
    requires
        st.cursor < st.func.blocks.len(),
    ensures
        match lower_expr(st, e) {
            Ok((after, _)) => extends(st, after),
            Err(_) => true,
        },
    decreases e,
{
    match e {
        Expr::Num(_) => {},
        Expr::Unsupported(_) => {},
        Expr::Ident(name) => {
            match lookup(st.scopes, name@) {
                Some(slot) => {
                    lemma_emit_extends(st, InstrView::Load { slot: slot.index });
                },
                None => {},
            }
        },
        Expr::Assign { target, value } => {
            lemma_lower_expr_extends(st, *value);
            match lower_expr(st, *value) {
                Ok((st1, v)) => {
                    match lookup(st1.scopes, target@) {
                        Some(slot) => {
                            let store = InstrView::Store { slot: slot.index, value: v };
                            lemma_emit_extends(st1, store);
                            lemma_extends_trans(st, st1, st1.emit(store));
                        },
                        None => {},
                    }
                },
                Err(_) => {},
            }
        },
        Expr::Binary { op, left, right } => {
            lemma_lower_expr_extends(st, *left);
            match lower_expr(st, *left) {
                Ok((st1, lhs)) => {
                    lemma_lower_expr_extends(st1, *right);
                    match lower_expr(st1, *right) {
                        Ok((st2, rhs)) => {
                            let binary = InstrView::Binary { op, lhs, rhs };
                            lemma_emit_extends(st2, binary);
                            lemma_extends_trans(st, st1, st2);
                            lemma_extends_trans(st, st2, st2.emit(binary));
                        },
                        Err(_) => {},
                    }
                },
                Err(_) => {},
            }
        },
        Expr::Call { callee, args } => {
            lemma_lower_args_extends(st, args@, 0, Seq::empty());
            match lower_args(st, args@, 0, Seq::empty()) {
                Ok((st1, values)) => {
                    match crate::ir::find_intrinsic(callee@, args@.len()) {
                        Some(f) => {
                            let call = InstrView::Call { callee: f, args: values };
                            lemma_emit_extends(st1, call);
                            lemma_extends_trans(st, st1, st1.emit(call));
                        },
                        None => {},
                    }
                },
                Err(_) => {},
            }
        },
    }
}

/// Lowering arguments only appends instructions at the cursor.
pub proof fn lemma_lower_args_extends(st: LowerState, args: Seq<Expr>, from: nat, done: Seq<Value>)
    requires
        st.cursor < st.func.blocks.len(),
    ensures
        match lower_args(st, args, from, done) {
            Ok((after, _)) => extends(st, after),
            Err(_) => true,
        },
    decreases args, args.len() - from,
{
    if from < args.len() {
        lemma_lower_expr_extends(st, args[from as int]);
        match lower_expr(st, args[from as int]) {
            Ok((st1, v)) => {
                lemma_lower_args_extends(st1, args, from + 1, done.push(v));
                match lower_args(st1, args, from + 1, done.push(v)) {
                    Ok((st2, _)) => {
                        lemma_extends_trans(st, st1, st2);
                    },
                    Err(_) => {},
                }
            },
            Err(_) => {},
        }
    }
}

/// A function of one empty block, with nothing bound, is in order.
pub proof fn lemma_entry_state(st: LowerState, label: Label)
    requires
        st.func.blocks == seq![crate::ir::empty_block(label)],
        st.scopes == seq![Map::<Seq<char>, Slot>::empty()],
        st.cursor == 0,
    ensures
        st.inv(),
        st.settled(),
        !st.is_terminated(),
{
    assert(st.func.block_ok(0));
}

/// What lowering keeps true holds what the structural laws start from:
/// the state is one to go on from, and every block is in order.
pub proof fn lemma_inv_valid(st: LowerState)
    requires
        st.inv(),
    ensures
        crate::growth::valid(st),
        st.func.consistent(),
        st.scopes_ok(),
{
}

/// Once the cursor's block has its terminator and no other block lacks
/// one, the function is complete.
pub proof fn lemma_settled_is_well_formed(st: LowerState)
    requires
        st.inv(),
        st.settled(),
        st.is_terminated(),
    ensures
        st.func.well_formed(),
{
    assert forall|b: int| 0 <= b < st.func.blocks.len() implies (#[trigger] st.func.blocks[b]).term is Some by {
        if b != st.cursor {
            assert(!st.dangling(b));
        }
    }
}

} // verus!
