use script_compiler::ast::BinaryOp;
use script_compiler::eval::{binary, execute, Outcome};
use script_compiler::ir::{Block, Function, Instr, Intrinsic, Label, ScalarType, Terminator, Value};

fn function(slots: usize, blocks: Vec<Block>) -> Function {
    Function { name: "main".to_string(), slots: vec![ScalarType::I32; slots], blocks }
}

fn block_of(instrs: Vec<Instr>, term: Option<Terminator>) -> Block {
    Block { label: Label::Entry, instrs, term }
}

fn result(index: usize) -> Value {
    Value::Inst { block: 0, index }
}

fn run_one(instr: Instr) -> Outcome {
    execute(&function(1, vec![block_of(vec![instr], Some(Terminator::Return(result(0))))]), 10)
}

#[test]
fn arithmetic_wraps() {
    assert_eq!(binary(BinaryOp::Add, 2, 3), Some(5));
    assert_eq!(binary(BinaryOp::Add, i32::MAX, 1), Some(i32::MIN));
    assert_eq!(binary(BinaryOp::Sub, 2, 3), Some(-1));
    assert_eq!(binary(BinaryOp::Sub, i32::MIN, 1), Some(i32::MAX));
    assert_eq!(binary(BinaryOp::Mul, -4, 6), Some(-24));
    assert_eq!(binary(BinaryOp::Mul, 65536, 65536), Some(0));
}

#[test]
fn division_truncates_and_faults() {
    assert_eq!(binary(BinaryOp::Div, 7, 2), Some(3));
    assert_eq!(binary(BinaryOp::Div, -7, 2), Some(-3));
    assert_eq!(binary(BinaryOp::Div, 7, -2), Some(-3));
    assert_eq!(binary(BinaryOp::Div, 7, 0), None);
    assert_eq!(binary(BinaryOp::Div, i32::MIN, -1), None);
    assert_eq!(binary(BinaryOp::Rem, 7, 2), Some(1));
    assert_eq!(binary(BinaryOp::Rem, -7, 2), Some(-1));
    assert_eq!(binary(BinaryOp::Rem, 7, -2), Some(1));
    assert_eq!(binary(BinaryOp::Rem, 7, 0), None);
    assert_eq!(binary(BinaryOp::Rem, i32::MIN, -1), None);
}

#[test]
fn comparisons_give_one_or_zero() {
    assert_eq!(binary(BinaryOp::Lt, -1, 0), Some(1));
    assert_eq!(binary(BinaryOp::Lt, 0, 0), Some(0));
    assert_eq!(binary(BinaryOp::Le, 0, 0), Some(1));
    assert_eq!(binary(BinaryOp::Le, 1, 0), Some(0));
    assert_eq!(binary(BinaryOp::Gt, 1, 0), Some(1));
    assert_eq!(binary(BinaryOp::Gt, 0, 0), Some(0));
    assert_eq!(binary(BinaryOp::Ge, 0, 0), Some(1));
    assert_eq!(binary(BinaryOp::Ge, -1, 0), Some(0));
    assert_eq!(binary(BinaryOp::Eq, 3, 3), Some(1));
    assert_eq!(binary(BinaryOp::Eq, 3, 4), Some(0));
    assert_eq!(binary(BinaryOp::Ne, 3, 4), Some(1));
    assert_eq!(binary(BinaryOp::Ne, 3, 3), Some(0));
}

#[test]
fn instruction_results_are_read_back() {
    let add = Instr::Binary { op: BinaryOp::Add, lhs: Value::Const(40), rhs: Value::Const(2) };
    assert_eq!(run_one(add), Outcome::Exit(42));
    assert_eq!(run_one(Instr::Load { slot: 0 }), Outcome::Exit(0));
    let abs = Instr::Call { callee: Intrinsic::Abs, args: vec![Value::Const(-9)] };
    assert_eq!(run_one(abs), Outcome::Exit(9));
}

#[test]
fn store_then_load() {
    let f = function(
        2,
        vec![block_of(
            vec![
                Instr::Store { slot: 1, value: Value::Const(11) },
                Instr::Load { slot: 1 },
                Instr::Load { slot: 0 },
                Instr::Binary { op: BinaryOp::Sub, lhs: result(1), rhs: result(2) },
            ],
            Some(Terminator::Return(result(3))),
        )],
    );
    assert_eq!(execute(&f, 5), Outcome::Exit(11));
    assert_eq!(execute(&f, 4), Outcome::OutOfFuel);
    assert_eq!(execute(&f, 0), Outcome::OutOfFuel);
}

#[test]
fn what_has_no_meaning_is_a_fault() {
    let ret0 = Some(Terminator::Return(Value::Const(0)));
    assert_eq!(execute(&function(0, vec![]), 5), Outcome::Fault);
    assert_eq!(execute(&function(0, vec![block_of(vec![], None)]), 5), Outcome::Fault);
    assert_eq!(
        execute(&function(0, vec![block_of(vec![Instr::Load { slot: 0 }], ret0)]), 5),
        Outcome::Fault
    );
    assert_eq!(
        execute(
            &function(1, vec![block_of(vec![Instr::Store { slot: 1, value: Value::Const(1) }], ret0)]),
            5
        ),
        Outcome::Fault
    );
    assert_eq!(
        execute(&function(0, vec![block_of(vec![], Some(Terminator::Return(result(0))))]), 5),
        Outcome::Fault
    );
    assert_eq!(
        execute(&function(0, vec![block_of(vec![], Some(Terminator::Jump(3)))]), 5),
        Outcome::Fault
    );
    assert_eq!(
        run_one(Instr::Binary { op: BinaryOp::Div, lhs: Value::Const(1), rhs: Value::Const(0) }),
        Outcome::Fault
    );
    assert_eq!(
        run_one(Instr::Call { callee: Intrinsic::Abs, args: vec![] }),
        Outcome::Fault
    );
    assert_eq!(
        run_one(Instr::Call { callee: Intrinsic::Min, args: vec![Value::Const(1)] }),
        Outcome::Fault
    );
    let stored = function(
        1,
        vec![block_of(
            vec![Instr::Store { slot: 0, value: Value::Const(1) }],
            Some(Terminator::Return(result(0))),
        )],
    );
    assert_eq!(execute(&stored, 5), Outcome::Fault);
}

#[test]
fn well_formed_functions_are_told_apart() {
    let ret0 = Some(Terminator::Return(Value::Const(0)));
    assert!(function(0, vec![block_of(vec![], ret0)]).is_well_formed());
    assert!(function(1, vec![block_of(vec![Instr::Load { slot: 0 }], Some(Terminator::Return(result(0))))])
        .is_well_formed());
    assert!(!function(0, vec![]).is_well_formed());
    assert!(!function(0, vec![block_of(vec![], None)]).is_well_formed());
    assert!(!function(0, vec![block_of(vec![Instr::Load { slot: 0 }], ret0)]).is_well_formed());
    assert!(!function(0, vec![block_of(vec![], Some(Terminator::Jump(1)))]).is_well_formed());
    assert!(!function(0, vec![block_of(vec![], Some(Terminator::Return(result(0))))]).is_well_formed());
    let uses_later = Instr::Binary { op: BinaryOp::Add, lhs: result(1), rhs: Value::Const(1) };
    assert!(!function(0, vec![block_of(vec![uses_later.clone(), uses_later], ret0)]).is_well_formed());
    let other_block = Value::Inst { block: 1, index: 0 };
    let two = vec![
        block_of(vec![Instr::Load { slot: 0 }], Some(Terminator::Jump(1))),
        block_of(vec![Instr::Load { slot: 0 }], Some(Terminator::Return(other_block))),
    ];
    assert!(function(1, two).is_well_formed());
    let crossing = vec![
        block_of(vec![Instr::Load { slot: 0 }], Some(Terminator::Jump(1))),
        block_of(vec![], Some(Terminator::Return(result(0)))),
    ];
    assert!(!function(1, crossing).is_well_formed());
    let call = |args: Vec<Value>| Instr::Call { callee: Intrinsic::Max, args };
    assert!(function(0, vec![block_of(vec![call(vec![Value::Const(1), Value::Const(2)])], ret0)])
        .is_well_formed());
    assert!(!function(0, vec![block_of(vec![call(vec![Value::Const(1)])], ret0)]).is_well_formed());
    assert!(!function(0, vec![block_of(vec![call(vec![Value::Const(1), result(0)])], ret0)])
        .is_well_formed());
}

#[test]
fn branches_follow_the_condition() {
    let pick = |c: i32| {
        function(
            0,
            vec![
                block_of(
                    vec![],
                    Some(Terminator::Branch { cond: Value::Const(c), then_block: 1, else_block: 2 }),
                ),
                block_of(vec![], Some(Terminator::Return(Value::Const(10)))),
                block_of(vec![], Some(Terminator::Jump(1))),
            ],
        )
    };
    assert_eq!(execute(&pick(1), 2), Outcome::Exit(10));
    assert_eq!(execute(&pick(0), 2), Outcome::OutOfFuel);
    assert_eq!(execute(&pick(0), 3), Outcome::Exit(10));
}

#[test]
fn builtins_compute() {
    let call_of = |callee: Intrinsic, args: Vec<i32>| {
        run_one(Instr::Call { callee, args: args.into_iter().map(Value::Const).collect() })
    };
    assert_eq!(call_of(Intrinsic::Abs, vec![4]), Outcome::Exit(4));
    assert_eq!(call_of(Intrinsic::Abs, vec![-4]), Outcome::Exit(4));
    assert_eq!(call_of(Intrinsic::Abs, vec![i32::MIN]), Outcome::Exit(i32::MIN));
    assert_eq!(call_of(Intrinsic::Min, vec![4, -4]), Outcome::Exit(-4));
    assert_eq!(call_of(Intrinsic::Min, vec![-4, 4]), Outcome::Exit(-4));
    assert_eq!(call_of(Intrinsic::Max, vec![4, -4]), Outcome::Exit(4));
    assert_eq!(call_of(Intrinsic::Max, vec![-4, 4]), Outcome::Exit(4));
}
