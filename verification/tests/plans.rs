use inkwell::context::Context;
use inkwell::IntPredicate;
use script_compiler::ast::BinaryOp;
use script_compiler::emit::{
    emit_module, predicate, steps_of, steps_of_slot, steps_of_term, Arg, EmitError, Step,
};
use script_compiler::ir::{
    Block, Function, Instr, Intrinsic, IrModule, Label, ScalarType, Terminator, Value,
};

fn of(block: usize, index: usize) -> Arg {
    Arg::Value(Value::Inst { block, index })
}

fn constant(n: i32) -> Arg {
    Arg::Value(Value::Const(n))
}

fn binary_plan(op: BinaryOp) -> Vec<Step> {
    steps_of(&Instr::Binary { op, lhs: Value::Inst { block: 2, index: 5 }, rhs: Value::Const(9) })
}

#[test]
fn comparison_operators_stand_for_signed_predicates() {
    assert_eq!(predicate(BinaryOp::Lt), Some(IntPredicate::SLT));
    assert_eq!(predicate(BinaryOp::Le), Some(IntPredicate::SLE));
    assert_eq!(predicate(BinaryOp::Gt), Some(IntPredicate::SGT));
    assert_eq!(predicate(BinaryOp::Ge), Some(IntPredicate::SGE));
    assert_eq!(predicate(BinaryOp::Eq), Some(IntPredicate::EQ));
    assert_eq!(predicate(BinaryOp::Ne), Some(IntPredicate::NE));
    for op in [BinaryOp::Add, BinaryOp::Sub, BinaryOp::Mul, BinaryOp::Div, BinaryOp::Rem] {
        assert_eq!(predicate(op), None);
    }
}

#[test]
fn arithmetic_is_one_step_of_its_own_kind() {
    let (lhs, rhs) = (of(2, 5), constant(9));
    assert_eq!(binary_plan(BinaryOp::Add), vec![Step::Add { lhs, rhs }]);
    assert_eq!(binary_plan(BinaryOp::Sub), vec![Step::Sub { lhs, rhs }]);
    assert_eq!(binary_plan(BinaryOp::Mul), vec![Step::Mul { lhs, rhs }]);
    assert_eq!(binary_plan(BinaryOp::Div), vec![Step::SignedDiv { lhs, rhs }]);
    assert_eq!(binary_plan(BinaryOp::Rem), vec![Step::SignedRem { lhs, rhs }]);
}

#[test]
fn comparison_is_compared_then_widened() {
    let cases = [
        (BinaryOp::Lt, IntPredicate::SLT),
        (BinaryOp::Le, IntPredicate::SLE),
        (BinaryOp::Gt, IntPredicate::SGT),
        (BinaryOp::Ge, IntPredicate::SGE),
        (BinaryOp::Eq, IntPredicate::EQ),
        (BinaryOp::Ne, IntPredicate::NE),
    ];
    for (op, predicate) in cases {
        assert_eq!(
            binary_plan(op),
            vec![
                Step::Compare { predicate, lhs: of(2, 5), rhs: constant(9) },
                Step::Widen { bit: Arg::Temp(0) },
            ]
        );
    }
}

#[test]
fn load_and_store_are_one_step() {
    assert_eq!(steps_of(&Instr::Load { slot: 3 }), vec![Step::Load { slot: 3 }]);
    assert_eq!(
        steps_of(&Instr::Store { slot: 4, value: Value::Inst { block: 0, index: 1 } }),
        vec![Step::Store { slot: 4, value: of(0, 1) }]
    );
}

#[test]
fn builtins_are_choices() {
    let x = Value::Inst { block: 1, index: 0 };
    let y = Value::Const(-2);
    assert_eq!(
        steps_of(&Instr::Call { callee: Intrinsic::Abs, args: vec![x] }),
        vec![
            Step::Sub { lhs: constant(0), rhs: of(1, 0) },
            Step::Compare { predicate: IntPredicate::SLT, lhs: of(1, 0), rhs: constant(0) },
            Step::Select { condition: Arg::Temp(1), then: Arg::Temp(0), otherwise: of(1, 0) },
        ]
    );
    assert_eq!(
        steps_of(&Instr::Call { callee: Intrinsic::Min, args: vec![x, y] }),
        vec![
            Step::Compare { predicate: IntPredicate::SLE, lhs: of(1, 0), rhs: constant(-2) },
            Step::Select { condition: Arg::Temp(0), then: of(1, 0), otherwise: constant(-2) },
        ]
    );
    assert_eq!(
        steps_of(&Instr::Call { callee: Intrinsic::Max, args: vec![x, y] }),
        vec![
            Step::Compare { predicate: IntPredicate::SGE, lhs: of(1, 0), rhs: constant(-2) },
            Step::Select { condition: Arg::Temp(0), then: of(1, 0), otherwise: constant(-2) },
        ]
    );
}

#[test]
fn builtin_with_the_wrong_number_of_arguments_has_no_steps() {
    let x = Value::Const(1);
    assert_eq!(steps_of(&Instr::Call { callee: Intrinsic::Abs, args: vec![] }), vec![]);
    assert_eq!(steps_of(&Instr::Call { callee: Intrinsic::Abs, args: vec![x, x] }), vec![]);
    assert_eq!(steps_of(&Instr::Call { callee: Intrinsic::Min, args: vec![x] }), vec![]);
    assert_eq!(steps_of(&Instr::Call { callee: Intrinsic::Max, args: vec![x, x, x] }), vec![]);
}

#[test]
fn terminators_are_planned() {
    assert_eq!(
        steps_of_term(Terminator::Return(Value::Const(7))),
        vec![Step::Return { value: constant(7) }]
    );
    assert_eq!(steps_of_term(Terminator::Jump(4)), vec![Step::Jump { target: 4 }]);
    assert_eq!(
        steps_of_term(Terminator::Branch {
            cond: Value::Inst { block: 0, index: 2 },
            then_block: 1,
            else_block: 3,
        }),
        vec![
            Step::Compare { predicate: IntPredicate::NE, lhs: of(0, 2), rhs: constant(0) },
            Step::Branch { condition: Arg::Temp(0), then_block: 1, else_block: 3 },
        ]
    );
}

#[test]
fn new_slot_is_zeroed() {
    assert_eq!(steps_of_slot(0), vec![Step::Store { slot: 0, value: constant(0) }]);
    assert_eq!(steps_of_slot(6), vec![Step::Store { slot: 6, value: constant(0) }]);
}

#[test]
fn module_without_functions_is_always_emitted() {
    let context = Context::create();
    let empty = IrModule { name: "nothing".to_string(), functions: vec![] };
    let emitted = emit_module(&empty, &context).unwrap();
    assert!(emitted.verify().is_ok());
    assert!(emitted.get_function("main").is_none());
}

#[test]
fn each_instruction_reaches_llvm_as_planned() {
    let context = Context::create();
    let at = |index: usize| Value::Inst { block: 0, index };
    let main = Function {
        name: "main".to_string(),
        slots: vec![ScalarType::I32, ScalarType::I32],
        blocks: vec![
            Block {
                label: Label::Entry,
                instrs: vec![
                    Instr::Load { slot: 1 },
                    Instr::Binary { op: BinaryOp::Add, lhs: at(0), rhs: Value::Const(5) },
                    Instr::Binary { op: BinaryOp::Gt, lhs: at(1), rhs: at(0) },
                    Instr::Store { slot: 0, value: at(2) },
                    Instr::Call { callee: Intrinsic::Min, args: vec![at(1), at(2)] },
                ],
                term: Some(Terminator::Branch { cond: at(4), then_block: 1, else_block: 1 }),
            },
            Block {
                label: Label::Then,
                instrs: vec![Instr::Load { slot: 0 }],
                term: Some(Terminator::Return(Value::Inst { block: 1, index: 0 })),
            },
        ],
    };
    let module = IrModule { name: "m".to_string(), functions: vec![main] };
    let emitted = emit_module(&module, &context).unwrap();
    let text = emitted.print_to_string().to_string();
    assert!(emitted.verify().is_ok(), "{}", text);
    let order = [
        "alloca i32",
        "store i32 0",
        "alloca i32",
        "store i32 0",
        "load i32",
        "add i32",
        "icmp sgt i32",
        "zext i1",
        "store i32",
        "icmp sle i32",
        "select i1",
        "icmp ne i32",
        "br i1",
        "load i32",
        "ret i32",
    ];
    let mut rest = text.as_str();
    for piece in order {
        let found = rest.find(piece);
        assert!(found.is_some(), "{} after the others in {}", piece, text);
        rest = &rest[found.unwrap() + piece.len()..];
    }
}

#[test]
fn malformed_is_decided_before_llvm_is_asked() {
    let context = Context::create();
    let fine = Function {
        name: "first".to_string(),
        slots: vec![],
        blocks: vec![Block {
            label: Label::Entry,
            instrs: vec![],
            term: Some(Terminator::Return(Value::Const(0))),
        }],
    };
    let open = Function {
        name: "second".to_string(),
        slots: vec![],
        blocks: vec![Block { label: Label::Entry, instrs: vec![], term: None }],
    };
    let module = IrModule { name: "m".to_string(), functions: vec![fine, open] };
    assert_eq!(emit_module(&module, &context).err(), Some(EmitError::Malformed));
}
