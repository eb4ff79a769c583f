//! What a function of the intermediate representation computes: a
//! reference semantics, and an interpreter that follows it.

use vstd::prelude::*;
use crate::ast::BinaryOp;
use crate::ir::{Function, FunctionView, Instr, InstrView, Intrinsic, Terminator, Value};

verus! {

/// How a run ends.
#[derive(Clone, Copy, Debug, PartialEq, Eq, Structural)]
pub enum Outcome {
    /// The function returned this value: the exit code of the program.
    Exit(i32),
    /// The run met something without a meaning: a division by zero or
    /// one that overflows, a block without terminator, a slot, block or
    /// value that does not exist.
    Fault,
    /// The steps allowed were used up.
    OutOfFuel,
}

/// The memory of a run: the contents of the stack slots, and the results
/// of the instructions executed so far, by block and position.
pub struct Machine {
    pub slots: Seq<i32>,
    pub results: Map<(int, int), i32>,
}

/// The result of a binary operator. Arithmetic wraps; a division or
/// remainder by zero, or of the minimum by -1, has none. Comparisons are
/// signed and give 1 or 0.
pub open spec fn apply_binary(op: BinaryOp, a: i32, b: i32) -> Option<i32> {
    match op {
        BinaryOp::Add => Some(a.wrapping_add(b)),
        BinaryOp::Sub => Some(a.wrapping_sub(b)),
        BinaryOp::Mul => Some(a.wrapping_mul(b)),
        BinaryOp::Div => a.checked_div(b),
        BinaryOp::Rem => a.checked_rem(b),
        BinaryOp::Lt => Some(if a < b { 1i32 } else { 0i32 }),
        BinaryOp::Le => Some(if a <= b { 1i32 } else { 0i32 }),
        BinaryOp::Gt => Some(if a > b { 1i32 } else { 0i32 }),
        BinaryOp::Ge => Some(if a >= b { 1i32 } else { 0i32 }),
        BinaryOp::Eq => Some(if a == b { 1i32 } else { 0i32 }),
        BinaryOp::Ne => Some(if a != b { 1i32 } else { 0i32 }),
    }
}

/// The absolute value, wrapping at the minimum.
pub open spec fn wrapping_abs(a: i32) -> i32 {
    if a < 0 {
        0i32.wrapping_sub(a)
    } else {
        a
    }
}

/// The value of an operand.
pub open spec fn read(m: Machine, v: Value) -> Option<i32> {
    match v {
        Value::Const(n) => Some(n),
        Value::Inst { block, index } => if m.results.dom().contains((block as int, index as int)) {
            Some(m.results[(block as int, index as int)])
        } else {
            None
        },
    }
}

/// What a builtin gives for these arguments; nothing where it takes
/// another number of them.
pub open spec fn call_value(callee: Intrinsic, args: Seq<i32>) -> Option<i32> {
    match callee {
        Intrinsic::Abs => if args.len() == 1 {
            Some(wrapping_abs(args[0]))
        } else {
            None
        },
        Intrinsic::Min => if args.len() == 2 {
            Some(if args[0] <= args[1] { args[0] } else { args[1] })
        } else {
            None
        },
        Intrinsic::Max => if args.len() == 2 {
            Some(if args[0] >= args[1] { args[0] } else { args[1] })
        } else {
            None
        },
    }
}

/// The values of some operands, where each has one.
pub open spec fn read_all(m: Machine, operands: Seq<Value>) -> Option<Seq<i32>> {
    if forall|k: int| 0 <= k < operands.len() ==> read(m, #[trigger] operands[k]) is Some {
        Some(Seq::new(operands.len(), |k: int| read(m, operands[k])->0))
    } else {
        None
    }
}

/// The result of a call of a builtin.
pub open spec fn apply_intrinsic(m: Machine, callee: Intrinsic, args: Seq<Value>) -> Option<i32> {
    match read_all(m, args) {
        Some(values) => call_value(callee, values),
        None => None,
    }
}

/// The memory with `x` as the result of the instruction at `index` of
/// block `block`.
pub open spec fn with_result(m: Machine, block: int, index: int, x: i32) -> Machine {
    Machine { results: m.results.insert((block, index), x), ..m }
}

/// The memory after the instruction at `index` of block `block`, or
/// nothing where the instruction has no meaning.
pub open spec fn step(m: Machine, block: int, index: int, instr: InstrView) -> Option<Machine> {
    match instr {
        InstrView::Load { slot } => if slot < m.slots.len() {
            Some(with_result(m, block, index, m.slots[slot as int]))
        } else {
            None
        },
        InstrView::Store { slot, value } => match read(m, value) {
            Some(x) => if slot < m.slots.len() {
                Some(Machine { slots: m.slots.update(slot as int, x), ..m })
            } else {
                None
            },
            None => None,
        },
        InstrView::Binary { op, lhs, rhs } => match (read(m, lhs), read(m, rhs)) {
            (Some(a), Some(b)) => match apply_binary(op, a, b) {
                Some(x) => Some(with_result(m, block, index, x)),
                None => None,
            },
            _ => None,
        },
        InstrView::Call { callee, args } => match apply_intrinsic(m, callee, args) {
            Some(x) => Some(with_result(m, block, index, x)),
            None => None,
        },
    }
}

/// Runs `f` from position `pc` of block `block` for at most `fuel` steps,
/// an instruction or a terminator each.
pub open spec fn run_from(f: FunctionView, m: Machine, block: int, pc: int, fuel: nat) -> Outcome
    decreases fuel,
{
    if fuel == 0 {
        Outcome::OutOfFuel
    } else if !(0 <= block < f.blocks.len()) {
        Outcome::Fault
    } else if 0 <= pc < f.blocks[block].instrs.len() {
        match step(m, block, pc, f.blocks[block].instrs[pc]) {
            None => Outcome::Fault,
            Some(next) => run_from(f, next, block, pc + 1, (fuel - 1) as nat),
        }
    } else {
        match f.blocks[block].term {
            None => Outcome::Fault,
            Some(Terminator::Return(v)) => match read(m, v) {
                Some(x) => Outcome::Exit(x),
                None => Outcome::Fault,
            },
            Some(Terminator::Jump(target)) => run_from(f, m, target as int, 0, (fuel - 1) as nat),
            Some(Terminator::Branch { cond, then_block, else_block }) => match read(m, cond) {
                Some(c) => run_from(
                    f,
                    m,
                    if c != 0 {
                        then_block as int
                    } else {
                        else_block as int
                    },
                    0,
                    (fuel - 1) as nat,
                ),
                None => Outcome::Fault,
            },
        }
    }
}

/// The memory after the instructions at positions `from` up to, not
/// including, `to` of block `block`, or nothing where one of them has no
/// meaning.
pub open spec fn run_instrs(f: FunctionView, m: Machine, block: int, from: int, to: int) -> Option<
    Machine,
>
    decreases to - from,
{
    if from >= to {
        Some(m)
    } else {
        match step(m, block, from, f.blocks[block].instrs[from]) {
            None => None,
            Some(next) => run_instrs(f, next, block, from + 1, to),
        }
    }
}

/// The memory a run starts with: every slot zero, no result yet.
pub open spec fn initial(f: FunctionView) -> Machine {
    Machine { slots: Seq::new(f.slots.len(), |i: int| 0i32), results: Map::empty() }
}

/// Runs `f` from the start of its first block for at most `fuel` steps.
pub open spec fn run(f: FunctionView, fuel: nat) -> Outcome {
    run_from(f, initial(f), 0, 0, fuel)
}

/// The results that a table of the interpreter holds.
pub open spec fn results_of(table: Seq<Vec<Option<i32>>>) -> Map<(int, int), i32> {
    Map::new(
        |k: (int, int)|
            0 <= k.0 < table.len() && 0 <= k.1 < table[k.0]@.len() && table[k.0]@[k.1] is Some,
        |k: (int, int)| table[k.0]@[k.1]->0,
    )
}

/// Whether a table has one place for every instruction of `f`.
pub open spec fn shaped_like(table: Seq<Vec<Option<i32>>>, f: FunctionView) -> bool {
    &&& table.len() == f.blocks.len()
    &&& forall|b: int| 0 <= b < table.len() ==> (#[trigger] table[b])@.len() == f.blocks[b].instrs.len()
}

/// Applies a binary operator.
pub fn binary(op: BinaryOp, a: i32, b: i32) -> (r: Option<i32>)
    ensures
        r == apply_binary(op, a, b),
{
    match op {
        BinaryOp::Add => Some(a.wrapping_add(b)),
        BinaryOp::Sub => Some(a.wrapping_sub(b)),
        BinaryOp::Mul => Some(a.wrapping_mul(b)),
        BinaryOp::Div => a.checked_div(b),
        BinaryOp::Rem => a.checked_rem(b),
        BinaryOp::Lt => Some(if a < b { 1 } else { 0 }),
        BinaryOp::Le => Some(if a <= b { 1 } else { 0 }),
        BinaryOp::Gt => Some(if a > b { 1 } else { 0 }),
        BinaryOp::Ge => Some(if a >= b { 1 } else { 0 }),
        BinaryOp::Eq => Some(if a == b { 1 } else { 0 }),
        BinaryOp::Ne => Some(if a != b { 1 } else { 0 }),
    }
}

/// The value of an operand, by the table of results.
fn read_value(table: &Vec<Vec<Option<i32>>>, slots: &Vec<i32>, v: Value) -> (r: Option<i32>)
    ensures
        r == read(Machine { slots: slots@, results: results_of(table@) }, v),
{
    match v {
        Value::Const(n) => Some(n),
        Value::Inst { block, index } => {
            if block < table.len() && index < table[block].len() {
                table[block][index]
            } else {
                None
            }
        },
    }
}

/// Applies a builtin to the values of its operands.
fn call(
    table: &Vec<Vec<Option<i32>>>,
    slots: &Vec<i32>,
    callee: Intrinsic,
    args: &Vec<Value>,
) -> (r: Option<i32>)
    ensures
        r == apply_intrinsic(
            Machine { slots: slots@, results: results_of(table@) },
            callee,
            args@,
        ),
{
    let ghost m = Machine { slots: slots@, results: results_of(table@) };
    match callee {
        Intrinsic::Abs => {
            if args.len() != 1 {
                return None;
            }
            match read_value(table, slots, args[0]) {
                Some(a) => {
                    assert(read_all(m, args@)->0 =~= seq![a]);
                    Some(if a < 0 { 0i32.wrapping_sub(a) } else { a })
                },
                None => {
                    assert(!(read(m, args@[0]) is Some));
                    None
                },
            }
        },
        Intrinsic::Min => {
            if args.len() != 2 {
                return None;
            }
            match (read_value(table, slots, args[0]), read_value(table, slots, args[1])) {
                (Some(a), Some(b)) => {
                    assert(read_all(m, args@)->0 =~= seq![a, b]);
                    Some(if a <= b { a } else { b })
                },
                _ => {
                    assert(!(read(m, args@[0]) is Some) || !(read(m, args@[1]) is Some));
                    None
                },
            }
        },
        Intrinsic::Max => {
            if args.len() != 2 {
                return None;
            }
            match (read_value(table, slots, args[0]), read_value(table, slots, args[1])) {
                (Some(a), Some(b)) => {
                    assert(read_all(m, args@)->0 =~= seq![a, b]);
                    Some(if a >= b { a } else { b })
                },
                _ => {
                    assert(!(read(m, args@[0]) is Some) || !(read(m, args@[1]) is Some));
                    None
                },
            }
        },
    }
}

/// A table with an empty place for the result of every instruction of
/// `f`.
fn empty_table(f: &Function) -> (table: Vec<Vec<Option<i32>>>)
    ensures
        shaped_like(table@, f@),
        results_of(table@) == Map::<(int, int), i32>::empty(),
{
    let mut table: Vec<Vec<Option<i32>>> = Vec::new();
    let mut b: usize = 0;
    while b < f.blocks.len()
        invariant
            b <= f.blocks.len(),
            table@.len() == b,
            forall|k: int| 0 <= k < b ==> (#[trigger] table@[k])@.len() == f@.blocks[k].instrs.len(),
            forall|k: int, i: int|
                0 <= k < b && 0 <= i < table@[k]@.len() ==> (#[trigger] table@[k]@[i]) is None,
        decreases f.blocks.len() - b,
    {
        let mut row: Vec<Option<i32>> = Vec::new();
        let mut i: usize = 0;
        while i < f.blocks[b].instrs.len()
            invariant
                b < f.blocks.len(),
                i <= f.blocks[b as int].instrs.len(),
                row@.len() == i,
                forall|j: int| 0 <= j < i ==> (#[trigger] row@[j]) is None,
            decreases f.blocks[b as int].instrs.len() - i,
        {
            row.push(None);
            i += 1;
        }
        table.push(row);
        b += 1;
    }
    assert(results_of(table@) =~= Map::<(int, int), i32>::empty());
    table
}

/// `n` slots, each zero.
fn zeroed(n: usize) -> (slots: Vec<i32>)
    ensures
        slots@ == Seq::new(n as nat, |i: int| 0i32),
{
    let mut slots: Vec<i32> = Vec::new();
    let mut i: usize = 0;
    while i < n
        invariant
            i <= n,
            slots@.len() == i,
            forall|j: int| 0 <= j < i ==> slots@[j] == 0,
        decreases n - i,
    {
        slots.push(0);
        i += 1;
    }
    assert(slots@ =~= Seq::new(n as nat, |i: int| 0i32));
    slots
}

/// Runs `f` for at most `fuel` steps and says how the run ended.
pub fn execute(f: &Function, fuel: u64) -> (r: Outcome)
    ensures
        r == run(f@, fuel as nat),
{
    let mut slots = zeroed(f.slots.len());
    let mut table = empty_table(f);
    let mut block: usize = 0;
    let mut pc: usize = 0;
    let mut left = fuel;
    loop
        invariant
            shaped_like(table@, f@),
            slots@.len() == f@.slots.len(),
            run(f@, fuel as nat) == run_from(
                f@,
                Machine { slots: slots@, results: results_of(table@) },
                block as int,
                pc as int,
                left as nat,
            ),
        decreases left,
    {
        let ghost m = Machine { slots: slots@, results: results_of(table@) };
        if left == 0 {
            return Outcome::OutOfFuel;
        }
        if block >= f.blocks.len() {
            return Outcome::Fault;
        }
        left -= 1;
        if pc < f.blocks[block].instrs.len() {
            let produced = match &f.blocks[block].instrs[pc] {
                Instr::Load { slot } => {
                    if *slot < slots.len() {
                        Some(slots[*slot])
                    } else {
                        return Outcome::Fault;
                    }
                },
                Instr::Store { slot, value } => {
                    match read_value(&table, &slots, *value) {
                        Some(x) => {
                            if *slot < slots.len() {
                                slots[*slot] = x;
                                None
                            } else {
                                return Outcome::Fault;
                            }
                        },
                        None => {
                            return Outcome::Fault;
                        },
                    }
                },
                Instr::Binary { op, lhs, rhs } => {
                    match (read_value(&table, &slots, *lhs), read_value(&table, &slots, *rhs)) {
                        (Some(a), Some(b)) => match binary(*op, a, b) {
                            Some(x) => Some(x),
                            None => {
                                return Outcome::Fault;
                            },
                        },
                        _ => {
                            return Outcome::Fault;
                        },
                    }
                },
                Instr::Call { callee, args } => {
                    match call(&table, &slots, *callee, args) {
                        Some(x) => Some(x),
                        None => {
                            return Outcome::Fault;
                        },
                    }
                },
            };
            match produced {
                Some(x) => {
                    let ghost before = table@;
                    table[block][pc] = Some(x);
                    proof {
                        assert(results_of(table@) =~= results_of(before).insert(
                            (block as int, pc as int),
                            x,
                        ));
                    }
                },
                None => {},
            }
            pc += 1;
        } else {
            match f.blocks[block].term {
                None => {
                    return Outcome::Fault;
                },
                Some(Terminator::Return(v)) => {
                    return match read_value(&table, &slots, v) {
                        Some(x) => Outcome::Exit(x),
                        None => Outcome::Fault,
                    };
                },
                Some(Terminator::Jump(target)) => {
                    block = target;
                    pc = 0;
                },
                Some(Terminator::Branch { cond, then_block, else_block }) => {
                    match read_value(&table, &slots, cond) {
                        Some(c) => {
                            block = if c != 0 { then_block } else { else_block };
                            pc = 0;
                        },
                        None => {
                            return Outcome::Fault;
                        },
                    }
                },
            }
        }
    }
}

} // verus!
