//! The intermediate representation the compiler emits: functions made of
//! basic blocks, each a straight line of instructions with one terminator.

use vstd::prelude::*;
use crate::ast::BinaryOp;

verus! {

/// The scalar types a value or a stack slot can have.
#[derive(Clone, Copy, Debug, PartialEq, Eq, Structural)]
pub enum ScalarType {
    I32,
}

/// An operand: a constant, or the result of an instruction, named by the
/// block that holds it and its position there.
#[derive(Clone, Copy, Debug, PartialEq, Eq, Structural)]
pub enum Value {
    Const(i32),
    Inst { block: usize, index: usize },
}

/// The builtin functions a call can name.
#[derive(Clone, Copy, Debug, PartialEq, Eq, Structural)]
pub enum Intrinsic {
    /// `abs(x)`: the absolute value, wrapping at the minimum.
    Abs,
    /// `min(x, y)`: the smaller of two signed values.
    Min,
    /// `max(x, y)`: the larger of two signed values.
    Max,
}

/// What a block was created for.
#[derive(Clone, Copy, Debug, PartialEq, Eq, Structural)]
pub enum Label {
    Entry,
    Then,
    Else,
    Merge,
    Cond,
    Body,
    After,
}

/// An instruction. All but `Store` produce a value.
#[derive(Clone, Debug, PartialEq, Eq)]
pub enum Instr {
    /// Reads a stack slot.
    Load { slot: usize },
    /// Writes a stack slot.
    Store { slot: usize, value: Value },
    /// Applies a binary operator; comparisons give 1 or 0.
    Binary { op: BinaryOp, lhs: Value, rhs: Value },
    /// Calls a builtin.
    Call { callee: Intrinsic, args: Vec<Value> },
}

/// The instruction that ends a block.
#[derive(Clone, Copy, Debug, PartialEq, Eq, Structural)]
pub enum Terminator {
    /// Leaves the function with a value.
    Return(Value),
    /// Continues at another block.
    Jump(usize),
    /// Continues at `then_block` when `cond` is not zero, else at `else_block`.
    Branch { cond: Value, then_block: usize, else_block: usize },
}

/// A basic block.
#[derive(Clone, Debug, PartialEq, Eq)]
pub struct Block {
    pub label: Label,
    pub instrs: Vec<Instr>,
    pub term: Option<Terminator>,
}

/// A function: its stack slots, by type, and its blocks. Block 0 is where
/// execution starts.
#[derive(Clone, Debug, PartialEq, Eq)]
pub struct Function {
    pub name: String,
    pub slots: Vec<ScalarType>,
    pub blocks: Vec<Block>,
}

/// A compilation unit.
#[derive(Clone, Debug, PartialEq, Eq)]
pub struct IrModule {
    pub name: String,
    pub functions: Vec<Function>,
}

/// The mathematical value of an [`Instr`].
pub enum InstrView {
    Load { slot: usize },
    Store { slot: usize, value: Value },
    Binary { op: BinaryOp, lhs: Value, rhs: Value },
    Call { callee: Intrinsic, args: Seq<Value> },
}

/// The mathematical value of a [`Block`].
pub struct BlockView {
    pub label: Label,
    pub instrs: Seq<InstrView>,
    pub term: Option<Terminator>,
}

/// The mathematical value of a [`Function`].
pub struct FunctionView {
    pub name: Seq<char>,
    pub slots: Seq<ScalarType>,
    pub blocks: Seq<BlockView>,
}

/// The mathematical value of a [`IrModule`].
pub struct ModuleView {
    pub name: Seq<char>,
    pub functions: Seq<FunctionView>,
}

impl View for Instr {
    type V = InstrView;

    open spec fn view(&self) -> InstrView {
        match *self {
            Instr::Load { slot } => InstrView::Load { slot },
            Instr::Store { slot, value } => InstrView::Store { slot, value },
            Instr::Binary { op, lhs, rhs } => InstrView::Binary { op, lhs, rhs },
            Instr::Call { callee, args } => InstrView::Call { callee, args: args@ },
        }
    }
}

impl View for Block {
    type V = BlockView;

    open spec fn view(&self) -> BlockView {
        BlockView {
            label: self.label,
            instrs: self.instrs@.map_values(|i: Instr| i@),
            term: self.term,
        }
    }
}

impl View for Function {
    type V = FunctionView;

    open spec fn view(&self) -> FunctionView {
        FunctionView {
            name: self.name@,
            slots: self.slots@,
            blocks: self.blocks@.map_values(|b: Block| b@),
        }
    }
}

impl View for IrModule {
    type V = ModuleView;

    open spec fn view(&self) -> ModuleView {
        ModuleView {
            name: self.name@,
            functions: self.functions@.map_values(|f: Function| f@),
        }
    }
}

/// The builtin that `name` resolves to when called with `argc` arguments.
pub open spec fn find_intrinsic(name: Seq<char>, argc: nat) -> Option<Intrinsic> {
    if name == "abs"@ && argc == 1 {
        Some(Intrinsic::Abs)
    } else if name == "min"@ && argc == 2 {
        Some(Intrinsic::Min)
    } else if name == "max"@ && argc == 2 {
        Some(Intrinsic::Max)
    } else {
        None
    }
}

impl Intrinsic {
    /// How many arguments the builtin takes.
    pub open spec fn arity(self) -> nat {
        match self {
            Intrinsic::Abs => 1,
            Intrinsic::Min => 2,
            Intrinsic::Max => 2,
        }
    }

    /// Resolves a callee against the table of builtins.
    pub fn find(name: &String, argc: usize) -> (r: Option<Intrinsic>)
        ensures
            r == find_intrinsic(name@, argc as nat),
            r matches Some(f) ==> f.arity() == argc,
    {
        if argc == 1 && *name == "abs".to_owned() {
            Some(Intrinsic::Abs)
        } else if argc == 2 && *name == "min".to_owned() {
            Some(Intrinsic::Min)
        } else if argc == 2 && *name == "max".to_owned() {
            Some(Intrinsic::Max)
        } else {
            None
        }
    }
}

/// A block with no instruction and no terminator yet.
pub open spec fn empty_block(label: Label) -> BlockView {
    BlockView { label, instrs: Seq::empty(), term: None }
}

impl FunctionView {
    /// The function with `instr` appended to block `b`, where there is
    /// such a block.
    pub open spec fn with_instr(self, b: int, instr: InstrView) -> FunctionView {
        if 0 <= b < self.blocks.len() {
            FunctionView {
                blocks: self.blocks.update(
                    b,
                    BlockView { instrs: self.blocks[b].instrs.push(instr), ..self.blocks[b] },
                ),
                ..self
            }
        } else {
            self
        }
    }

    /// The function with block `b` ended by `term`, where there is such a
    /// block.
    pub open spec fn with_term(self, b: int, term: Terminator) -> FunctionView {
        if 0 <= b < self.blocks.len() {
            FunctionView {
                blocks: self.blocks.update(b, BlockView { term: Some(term), ..self.blocks[b] }),
                ..self
            }
        } else {
            self
        }
    }

    /// The function with one more, empty, block.
    pub open spec fn with_block(self, label: Label) -> FunctionView {
        FunctionView { blocks: self.blocks.push(empty_block(label)), ..self }
    }

    /// The function with one more stack slot.
    pub open spec fn with_slot(self, ty: ScalarType) -> FunctionView {
        FunctionView { slots: self.slots.push(ty), ..self }
    }
}

impl ModuleView {
    /// Whether every function of the module is complete.
    pub open spec fn well_formed(self) -> bool {
        forall|f: int| 0 <= f < self.functions.len() ==> (#[trigger] self.functions[f]).well_formed()
    }
}

impl InstrView {
    /// Whether the instruction defines a value that later ones can use.
    pub open spec fn has_result(self) -> bool {
        !(self is Store)
    }
}

impl FunctionView {
    /// Whether `v` may be used at position `at` of block `b` (the position
    /// after the last instruction being that of the terminator): it is a
    /// constant, or the result of an earlier instruction of that block.
    pub open spec fn defines(self, b: int, at: int, v: Value) -> bool {
        match v {
            Value::Const(_) => true,
            Value::Inst { block, index } => block == b && index < at
                && self.blocks[b].instrs[index as int].has_result(),
        }
    }

    /// Whether `instr` may stand at position `at` of block `b`: its slot
    /// exists, its operands may be used there, and a builtin gets as many
    /// arguments as it takes.
    pub open spec fn admits(self, b: int, at: int, instr: InstrView) -> bool {
        match instr {
            InstrView::Load { slot } => slot < self.slots.len(),
            InstrView::Store { slot, value } => slot < self.slots.len() && self.defines(b, at, value),
            InstrView::Binary { op, lhs, rhs } => self.defines(b, at, lhs) && self.defines(b, at, rhs),
            InstrView::Call { callee, args } => args.len() == callee.arity() && forall|k: int|
                0 <= k < args.len() ==> self.defines(b, at, #[trigger] args[k]),
        }
    }

    /// Whether `term` may end block `b`: its operand may be used there and
    /// its targets exist.
    pub open spec fn admits_term(self, b: int, term: Terminator) -> bool {
        match term {
            Terminator::Return(v) => self.defines(b, self.blocks[b].instrs.len() as int, v),
            Terminator::Jump(target) => target < self.blocks.len(),
            Terminator::Branch { cond, then_block, else_block } => self.defines(
                b,
                self.blocks[b].instrs.len() as int,
                cond,
            ) && then_block < self.blocks.len() && else_block < self.blocks.len(),
        }
    }

    /// Whether every instruction of block `b`, and its terminator if it
    /// has one, may stand where it does.
    pub open spec fn block_ok(self, b: int) -> bool {
        &&& forall|i: int|
            0 <= i < self.blocks[b].instrs.len() ==> self.admits(b, i, #[trigger] self.blocks[b].instrs[i])
        &&& match self.blocks[b].term {
            None => true,
            Some(term) => self.admits_term(b, term),
        }
    }

    /// Whether every block is in order, terminated or not.
    pub open spec fn consistent(self) -> bool {
        forall|b: int| 0 <= b < self.blocks.len() ==> #[trigger] self.block_ok(b)
    }

    /// Whether the function is complete: it has an entry block, every
    /// block is in order and ends in exactly one terminator, and so every
    /// block that does not return has a successor that exists.
    pub open spec fn well_formed(self) -> bool {
        &&& self.blocks.len() > 0
        &&& self.consistent()
        &&& forall|b: int| 0 <= b < self.blocks.len() ==> (#[trigger] self.blocks[b]).term is Some
    }
}

impl Function {
    /// A function without slots or blocks.
    pub(crate) fn new(name: String) -> (f: Function)
        ensures
            f@ == (FunctionView { name: name@, slots: Seq::empty(), blocks: Seq::empty() }),
    {
        let f = Function { name, slots: Vec::new(), blocks: Vec::new() };
        assert(f@.blocks =~= Seq::empty());
        f
    }

    /// Appends `instr` to block `block` and returns its position there.
    pub(crate) fn push_instr(&mut self, block: usize, instr: Instr) -> (index: usize)
        requires
            block < old(self)@.blocks.len(),
        ensures
            final(self)@ == old(self)@.with_instr(block as int, instr@),
            index == old(self)@.blocks[block as int].instrs.len(),
            index < usize::MAX,
    {
        let index = self.blocks[block].instrs.len();
        self.blocks[block].instrs.push(instr);
        proof {
            assert(self.blocks[block as int].instrs.len() == index + 1);
            assert(self.blocks@[block as int]@.instrs =~= old(self).blocks@[block as int]@.instrs.push(
                instr@,
            ));
            assert(self@.blocks =~= old(self)@.with_instr(block as int, instr@).blocks);
        }
        index
    }

    /// Ends block `block` with `term`.
    pub(crate) fn set_terminator(&mut self, block: usize, term: Terminator)
        requires
            block < old(self)@.blocks.len(),
        ensures
            final(self)@ == old(self)@.with_term(block as int, term),
    {
        self.blocks[block].term = Some(term);
        proof {
            assert(self@.blocks =~= old(self)@.with_term(block as int, term).blocks);
        }
    }

    /// Appends an empty block and returns its index.
    pub(crate) fn add_block(&mut self, label: Label) -> (index: usize)
        ensures
            final(self)@ == old(self)@.with_block(label),
            index == old(self)@.blocks.len(),
            index < usize::MAX,
    {
        let index = self.blocks.len();
        let block = Block { label, instrs: Vec::new(), term: None };
        assert(block@.instrs =~= Seq::empty());
        self.blocks.push(block);
        proof {
            assert(self.blocks.len() == index + 1);
            assert(self@.blocks =~= old(self)@.with_block(label).blocks);
        }
        index
    }

    /// Adds a stack slot of type `ty` and returns its index.
    pub(crate) fn add_slot(&mut self, ty: ScalarType) -> (index: usize)
        ensures
            final(self)@ == old(self)@.with_slot(ty),
            index == old(self)@.slots.len(),
            index < usize::MAX,
    {
        let index = self.slots.len();
        self.slots.push(ty);
        assert(self.slots.len() == index + 1);
        index
    }

    /// Whether block `block` has its terminator.
    pub(crate) fn is_terminated(&self, block: usize) -> (r: bool)
        requires
            block < self@.blocks.len(),
        ensures
            r == self@.blocks[block as int].term.is_some(),
    {
        self.blocks[block].term.is_some()
    }
}

impl Instr {
    /// Whether the instruction defines a value.
    pub fn has_result(&self) -> (r: bool)
        ensures
            r == self@.has_result(),
    {
        match self {
            Instr::Store { .. } => false,
            _ => true,
        }
    }
}

impl Function {
    /// Whether `v` may be used at position `at` of block `b`.
    fn defines(&self, b: usize, at: usize, v: Value) -> (r: bool)
        requires
            b < self@.blocks.len(),
            at <= self@.blocks[b as int].instrs.len(),
        ensures
            r == self@.defines(b as int, at as int, v),
    {
        match v {
            Value::Const(_) => true,
            Value::Inst { block, index } => block == b && index < at
                && self.blocks[b].instrs[index].has_result(),
        }
    }

    /// Whether the instruction at position `at` of block `b` may stand
    /// there.
    fn admits(&self, b: usize, at: usize) -> (r: bool)
        requires
            b < self@.blocks.len(),
            at < self@.blocks[b as int].instrs.len(),
        ensures
            r == self@.admits(b as int, at as int, self@.blocks[b as int].instrs[at as int]),
    {
        match &self.blocks[b].instrs[at] {
            Instr::Load { slot } => *slot < self.slots.len(),
            Instr::Store { slot, value } => *slot < self.slots.len() && self.defines(b, at, *value),
            Instr::Binary { op, lhs, rhs } => self.defines(b, at, *lhs) && self.defines(b, at, *rhs),
            Instr::Call { callee, args } => {
                let arity: usize = match callee {
                    Intrinsic::Abs => 1,
                    Intrinsic::Min => 2,
                    Intrinsic::Max => 2,
                };
                if args.len() != arity {
                    return false;
                }
                let mut k: usize = 0;
                while k < args.len()
                    invariant
                        b < self@.blocks.len(),
                        at < self@.blocks[b as int].instrs.len(),
                        k <= args@.len(),
                        args@.len() == callee.arity(),
                        self@.blocks[b as int].instrs[at as int] == (InstrView::Call {
                            callee: *callee,
                            args: args@,
                        }),
                        forall|j: int| 0 <= j < k ==> self@.defines(b as int, at as int, #[trigger] args@[j]),
                    decreases args@.len() - k,
                {
                    if !self.defines(b, at, args[k]) {
                        assert(!self@.defines(b as int, at as int, args@[k as int]));
                        return false;
                    }
                    k += 1;
                }
                true
            },
        }
    }

    /// Whether `term` may end block `b`.
    fn admits_term(&self, b: usize, term: Terminator) -> (r: bool)
        requires
            b < self@.blocks.len(),
        ensures
            r == self@.admits_term(b as int, term),
    {
        let end = self.blocks[b].instrs.len();
        match term {
            Terminator::Return(v) => self.defines(b, end, v),
            Terminator::Jump(target) => target < self.blocks.len(),
            Terminator::Branch { cond, then_block, else_block } => self.defines(b, end, cond)
                && then_block < self.blocks.len() && else_block < self.blocks.len(),
        }
    }

    /// Whether block `b` is in order and has its terminator.
    fn block_is_complete(&self, b: usize) -> (r: bool)
        requires
            b < self@.blocks.len(),
        ensures
            r == (self@.block_ok(b as int) && self@.blocks[b as int].term is Some),
    {
        let mut i: usize = 0;
        while i < self.blocks[b].instrs.len()
            invariant
                b < self@.blocks.len(),
                i <= self@.blocks[b as int].instrs.len(),
                forall|j: int|
                    0 <= j < i ==> self@.admits(b as int, j, #[trigger] self@.blocks[b as int].instrs[j]),
            decreases self@.blocks[b as int].instrs.len() - i,
        {
            if !self.admits(b, i) {
                return false;
            }
            i += 1;
        }
        match self.blocks[b].term {
            None => false,
            Some(term) => self.admits_term(b, term),
        }
    }

    /// Whether the function is complete: see [`FunctionView::well_formed`].
    pub fn is_well_formed(&self) -> (r: bool)
        ensures
            r == self@.well_formed(),
    {
        if self.blocks.len() == 0 {
            return false;
        }
        let mut b: usize = 0;
        while b < self.blocks.len()
            invariant
                b <= self@.blocks.len(),
                forall|k: int| 0 <= k < b ==> #[trigger] self@.block_ok(k),
                forall|k: int| 0 <= k < b ==> (#[trigger] self@.blocks[k]).term is Some,
            decreases self@.blocks.len() - b,
        {
            if !self.block_is_complete(b) {
                return false;
            }
            b += 1;
        }
        true
    }
}

impl IrModule {
    /// Whether every function of the module is complete.
    pub fn is_well_formed(&self) -> (r: bool)
        ensures
            r == self@.well_formed(),
    {
        let mut f: usize = 0;
        while f < self.functions.len()
            invariant
                f <= self@.functions.len(),
                forall|k: int| 0 <= k < f ==> (#[trigger] self@.functions[k]).well_formed(),
            decreases self@.functions.len() - f,
        {
            assert(self@.functions[f as int] == self.functions@[f as int]@);
            if !self.functions[f].is_well_formed() {
                return false;
            }
            f += 1;
        }
        true
    }
}

} // verus!
