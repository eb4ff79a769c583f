use inkwell::context::Context;
use script_compiler::ast::{BinaryOp, EsModule, Expr, ModuleItem, Program, Script, Stmt, VarKind};
use script_compiler::compiler::Compiler;
use script_compiler::emit::{emit_module, EmitError};
use script_compiler::error::{CompilerError, ErrorKind};
use script_compiler::eval::{execute, Outcome};
use script_compiler::ir::{
    Block, Function, Instr, Intrinsic, IrModule, Label, ScalarType, Terminator, Value,
};

fn num(n: i32) -> Expr {
    Expr::Num(n)
}

fn ident(name: &str) -> Expr {
    Expr::Ident(name.to_string())
}

fn assign(target: &str, value: Expr) -> Expr {
    Expr::Assign { target: target.to_string(), value: Box::new(value) }
}

fn binary(op: BinaryOp, left: Expr, right: Expr) -> Expr {
    Expr::Binary { op, left: Box::new(left), right: Box::new(right) }
}

fn call(callee: &str, args: Vec<Expr>) -> Expr {
    Expr::Call { callee: callee.to_string(), args }
}

fn declare(kind: VarKind, name: &str, init: Expr) -> Stmt {
    Stmt::VarDecl { kind, name: name.to_string(), init }
}

fn ret(value: Expr) -> Stmt {
    Stmt::Return(Some(value))
}

fn if_else(cond: Expr, then_branch: Stmt, else_branch: Option<Stmt>) -> Stmt {
    Stmt::If { cond, then_branch: Box::new(then_branch), else_branch: else_branch.map(Box::new) }
}

fn while_loop(cond: Expr, body: Stmt) -> Stmt {
    Stmt::While { cond, body: Box::new(body) }
}

fn script(body: Vec<Stmt>) -> Program {
    Program::Script(Script { body })
}

fn ready() -> Compiler {
    let mut compiler = Compiler::new();
    assert!(compiler.compile_main_function().is_ok());
    compiler
}

fn compile(program: &Program) -> Result<IrModule, CompilerError> {
    let mut compiler = ready();
    compiler.compile(program)?;
    Ok(compiler.into_module())
}

fn main_of(program: &Program) -> Function {
    let module = compile(program).unwrap();
    assert_eq!(module.functions.len(), 1);
    module.functions[0].clone()
}

fn exit_code(program: &Program) -> Outcome {
    execute(&main_of(program), 10_000)
}

fn failure(program: &Program) -> (ErrorKind, String) {
    let err = compile(program).unwrap_err();
    (err.kind, err.detail)
}

fn at(block: usize, index: usize) -> Value {
    Value::Inst { block, index }
}

fn llvm_text(program: &Program) -> String {
    let module = compile(program).unwrap();
    let context = Context::create();
    let emitted = emit_module(&module, &context).unwrap();
    let text = emitted.print_to_string().to_string();
    assert!(emitted.verify().is_ok(), "{}", text);
    text
}

#[test]
fn fresh_compiler_has_an_empty_module_named_main() {
    let compiler = Compiler::new();
    assert!(!compiler.has_entry_point());
    assert_eq!(compiler.module().name, "main");
    assert!(compiler.module().functions.is_empty());
}

#[test]
fn entry_point_is_main_with_one_empty_entry_block() {
    let compiler = ready();
    assert!(compiler.has_entry_point());
    let module = compiler.into_module();
    assert_eq!(
        module.functions,
        vec![Function {
            name: "main".to_string(),
            slots: vec![],
            blocks: vec![Block { label: Label::Entry, instrs: vec![], term: None }],
        }]
    );
}

#[test]
fn compile_before_entry_point_is_missing_entry_point() {
    let mut compiler = Compiler::new();
    let err = compiler.compile(&script(vec![ret(num(1))])).unwrap_err();
    assert_eq!(err.kind, ErrorKind::MissingEntryPoint);
    assert_eq!(err.detail, "");
    assert!(compiler.module().functions.is_empty());
}

#[test]
fn every_lowering_operation_needs_the_entry_point() {
    let mut compiler = Compiler::new();
    let kind = |r: Result<(), CompilerError>| r.unwrap_err().kind;
    assert_eq!(kind(compiler.compile_statement(&ret(num(1)))), ErrorKind::MissingEntryPoint);
    assert_eq!(
        kind(compiler.compile_script(&Script { body: vec![] })),
        ErrorKind::MissingEntryPoint
    );
    assert_eq!(
        kind(compiler.compile_module(&EsModule { body: vec![ModuleItem::ModuleDecl] })),
        ErrorKind::MissingEntryPoint
    );
    assert_eq!(
        kind(compiler.compile_module_item(&ModuleItem::ModuleDecl)),
        ErrorKind::MissingEntryPoint
    );
    assert_eq!(
        compiler.compile_expression(&num(1)).unwrap_err().kind,
        ErrorKind::MissingEntryPoint
    );
}

#[test]
fn return_of_a_literal_exits_with_it() {
    for n in [0, 1, 7, 42, 255, -1, i32::MAX, i32::MIN] {
        let program = script(vec![ret(num(n))]);
        let main = main_of(&program);
        assert_eq!(
            main.blocks,
            vec![Block {
                label: Label::Entry,
                instrs: vec![],
                term: Some(Terminator::Return(Value::Const(n))),
            }]
        );
        assert_eq!(execute(&main, 1), Outcome::Exit(n));
        assert_eq!(execute(&main, 100), Outcome::Exit(n));
    }
}

#[test]
fn return_of_a_literal_in_a_module_exits_with_it() {
    let program = Program::Module(EsModule { body: vec![ModuleItem::Stmt(ret(num(9)))] });
    assert_eq!(exit_code(&program), Outcome::Exit(9));
}

#[test]
fn return_of_a_literal_reaches_llvm() {
    let text = llvm_text(&script(vec![ret(num(7))]));
    assert!(text.contains("define i32 @main()"), "{}", text);
    assert!(text.contains("ret i32 7"), "{}", text);
    let text = llvm_text(&script(vec![ret(num(-3))]));
    assert!(text.contains("ret i32 -3"), "{}", text);
}

#[test]
fn empty_program_returns_zero() {
    let main = main_of(&script(vec![]));
    assert_eq!(main.blocks[0].term, Some(Terminator::Return(Value::Const(0))));
    assert_eq!(execute(&main, 10), Outcome::Exit(0));
}

#[test]
fn bare_return_returns_zero() {
    let main = main_of(&script(vec![Stmt::Return(None)]));
    assert_eq!(main.blocks.len(), 1);
    assert_eq!(main.blocks[0].term, Some(Terminator::Return(Value::Const(0))));
}

#[test]
fn assignment_then_return_reflects_the_last_value() {
    let program = script(vec![
        declare(VarKind::Let, "x", num(1)),
        Stmt::Expr(assign("x", num(2))),
        ret(ident("x")),
    ]);
    let main = main_of(&program);
    assert_eq!(main.slots, vec![ScalarType::I32]);
    assert_eq!(
        main.blocks,
        vec![Block {
            label: Label::Entry,
            instrs: vec![
                Instr::Store { slot: 0, value: Value::Const(1) },
                Instr::Store { slot: 0, value: Value::Const(2) },
                Instr::Load { slot: 0 },
            ],
            term: Some(Terminator::Return(at(0, 2))),
        }]
    );
    assert_eq!(execute(&main, 100), Outcome::Exit(2));
}

#[test]
fn assignment_is_an_expression_with_the_assigned_value() {
    let program = script(vec![
        declare(VarKind::Var, "x", num(1)),
        ret(binary(BinaryOp::Add, assign("x", num(20)), ident("x"))),
    ]);
    assert_eq!(exit_code(&program), Outcome::Exit(40));
}

#[test]
fn operands_are_evaluated_left_before_right() {
    let program = script(vec![
        declare(VarKind::Let, "x", num(0)),
        declare(
            VarKind::Let,
            "d",
            binary(BinaryOp::Sub, assign("x", num(5)), assign("x", num(3))),
        ),
        ret(binary(BinaryOp::Add, binary(BinaryOp::Mul, ident("d"), num(10)), ident("x"))),
    ]);
    let main = main_of(&program);
    assert_eq!(
        main.blocks[0].instrs[..4],
        [
            Instr::Store { slot: 0, value: Value::Const(0) },
            Instr::Store { slot: 0, value: Value::Const(5) },
            Instr::Store { slot: 0, value: Value::Const(3) },
            Instr::Binary { op: BinaryOp::Sub, lhs: Value::Const(5), rhs: Value::Const(3) },
        ]
    );
    assert_eq!(execute(&main, 100), Outcome::Exit(23));
}

#[test]
fn redeclaring_in_one_block_is_a_duplicate_binding() {
    let program =
        script(vec![declare(VarKind::Let, "x", num(1)), declare(VarKind::Let, "x", num(2))]);
    assert_eq!(failure(&program), (ErrorKind::DuplicateBinding, "x".to_string()));
    let nested = script(vec![Stmt::Block(vec![
        declare(VarKind::Var, "y", num(1)),
        declare(VarKind::Const, "y", num(2)),
    ])]);
    assert_eq!(failure(&nested), (ErrorKind::DuplicateBinding, "y".to_string()));
}

#[test]
fn redeclaring_in_a_nested_block_shadows_inside_only() {
    let inside = script(vec![
        declare(VarKind::Let, "x", num(1)),
        Stmt::Block(vec![declare(VarKind::Let, "x", num(2)), ret(ident("x"))]),
    ]);
    assert_eq!(exit_code(&inside), Outcome::Exit(2));
    let after = script(vec![
        declare(VarKind::Let, "x", num(1)),
        Stmt::Block(vec![declare(VarKind::Let, "x", num(2))]),
        ret(ident("x")),
    ]);
    let main = main_of(&after);
    assert_eq!(main.slots.len(), 2);
    assert_eq!(execute(&main, 100), Outcome::Exit(1));
}

#[test]
fn names_of_a_closed_block_are_gone() {
    let program = script(vec![Stmt::Block(vec![declare(VarKind::Let, "x", num(1))]), ret(ident("x"))]);
    assert_eq!(failure(&program), (ErrorKind::UndefinedVariable, "x".to_string()));
}

#[test]
fn assignment_in_a_nested_block_reaches_the_outer_slot() {
    let program = script(vec![
        declare(VarKind::Let, "x", num(1)),
        Stmt::Block(vec![Stmt::Expr(assign("x", num(8)))]),
        ret(ident("x")),
    ]);
    assert_eq!(exit_code(&program), Outcome::Exit(8));
}

#[test]
fn undeclared_identifier_is_undefined_and_emits_nothing() {
    assert_eq!(
        failure(&script(vec![ret(ident("y"))])),
        (ErrorKind::UndefinedVariable, "y".to_string())
    );
    let mut compiler = ready();
    assert!(compiler.compile_statement(&declare(VarKind::Let, "x", num(1))).is_ok());
    let before = compiler.module().clone();
    let err = compiler.compile_expression(&ident("y")).unwrap_err();
    assert_eq!((err.kind, err.detail.as_str()), (ErrorKind::UndefinedVariable, "y"));
    assert_eq!(*compiler.module(), before);
    let err = compiler.compile_statement(&Stmt::Expr(ident("z"))).unwrap_err();
    assert_eq!((err.kind, err.detail.as_str()), (ErrorKind::UndefinedVariable, "z"));
    assert_eq!(*compiler.module(), before);
}

#[test]
fn failed_expression_leaves_only_what_came_before_the_failure() {
    let mut compiler = ready();
    assert!(compiler.compile_statement(&declare(VarKind::Let, "x", num(1))).is_ok());
    let before = compiler.module().clone();
    let err = compiler.compile_statement(&ret(ident("y"))).unwrap_err();
    assert_eq!((err.kind, err.detail.as_str()), (ErrorKind::UndefinedVariable, "y"));
    assert_eq!(*compiler.module(), before);
    let err = compiler.compile_statement(&Stmt::Expr(assign("x", ident("y")))).unwrap_err();
    assert_eq!((err.kind, err.detail.as_str()), (ErrorKind::UndefinedVariable, "y"));
    assert_eq!(*compiler.module(), before);
    let sum = binary(BinaryOp::Add, ident("x"), ident("y"));
    let err = compiler.compile_expression(&sum).unwrap_err();
    assert_eq!((err.kind, err.detail.as_str()), (ErrorKind::UndefinedVariable, "y"));
    let after = compiler.module();
    assert_eq!(after.functions[0].slots, before.functions[0].slots);
    assert_eq!(after.functions[0].blocks.len(), 1);
    assert_eq!(after.functions[0].blocks[0].term, None);
    assert_eq!(
        after.functions[0].blocks[0].instrs,
        vec![Instr::Store { slot: 0, value: Value::Const(1) }, Instr::Load { slot: 0 }]
    );
    assert!(compiler.compile_statement(&ret(ident("x"))).is_ok());
}

#[test]
fn initialiser_cannot_see_the_name_it_declares() {
    let program = script(vec![declare(VarKind::Let, "x", ident("x"))]);
    assert_eq!(failure(&program), (ErrorKind::UndefinedVariable, "x".to_string()));
}

#[test]
fn assignment_to_an_undeclared_name_is_undefined() {
    let program = script(vec![Stmt::Expr(assign("x", num(1)))]);
    assert_eq!(failure(&program), (ErrorKind::UndefinedVariable, "x".to_string()));
}

#[test]
fn assignment_to_a_const_is_refused() {
    let program =
        script(vec![declare(VarKind::Const, "x", num(1)), Stmt::Expr(assign("x", num(2)))]);
    assert_eq!(failure(&program), (ErrorKind::AssignToConst, "x".to_string()));
    for kind in [VarKind::Let, VarKind::Var] {
        let program =
            script(vec![declare(kind, "x", num(1)), Stmt::Expr(assign("x", num(2))), ret(ident("x"))]);
        assert_eq!(exit_code(&program), Outcome::Exit(2));
    }
}

#[test]
fn right_side_of_an_assignment_fails_first() {
    let program = script(vec![
        declare(VarKind::Const, "x", num(1)),
        Stmt::Expr(assign("x", ident("missing"))),
    ]);
    assert_eq!(failure(&program), (ErrorKind::UndefinedVariable, "missing".to_string()));
}

#[test]
fn statement_after_return_is_unreachable() {
    let program = script(vec![ret(num(1)), ret(num(2))]);
    assert_eq!(failure(&program), (ErrorKind::UnreachableCode, String::new()));
    let nested = script(vec![Stmt::Block(vec![ret(num(1))]), Stmt::Expr(num(2))]);
    assert_eq!(failure(&nested), (ErrorKind::UnreachableCode, String::new()));
    let mut compiler = ready();
    assert!(compiler.compile_statement(&ret(num(1))).is_ok());
    assert_eq!(compiler.compile_expression(&num(2)).unwrap_err().kind, ErrorKind::UnreachableCode);
}

#[test]
fn statement_after_an_if_that_returns_either_way_goes_to_merge() {
    let program =
        script(vec![if_else(num(0), ret(num(1)), Some(ret(num(2)))), ret(num(3))]);
    let main = main_of(&program);
    assert_eq!(main.blocks[3].label, Label::Merge);
    assert_eq!(main.blocks[3].term, Some(Terminator::Return(Value::Const(3))));
    assert_eq!(execute(&main, 100), Outcome::Exit(2));
}

#[test]
fn unknown_callee_is_refused_before_its_arguments() {
    let program = script(vec![ret(call("print", vec![ident("missing")]))]);
    assert_eq!(failure(&program), (ErrorKind::UnknownFunction, "print".to_string()));
    let arity = script(vec![ret(call("abs", vec![num(1), num(2)]))]);
    assert_eq!(failure(&arity), (ErrorKind::UnknownFunction, "abs".to_string()));
    let arity = script(vec![ret(call("max", vec![num(1)]))]);
    assert_eq!(failure(&arity), (ErrorKind::UnknownFunction, "max".to_string()));
}

#[test]
fn builtins_are_called() {
    let program = script(vec![ret(call("abs", vec![num(-5)]))]);
    let main = main_of(&program);
    assert_eq!(
        main.blocks[0].instrs,
        vec![Instr::Call { callee: Intrinsic::Abs, args: vec![Value::Const(-5)] }]
    );
    assert_eq!(execute(&main, 10), Outcome::Exit(5));
    assert_eq!(exit_code(&script(vec![ret(call("abs", vec![num(i32::MIN)]))])), Outcome::Exit(i32::MIN));
    assert_eq!(exit_code(&script(vec![ret(call("min", vec![num(3), num(-4)]))])), Outcome::Exit(-4));
    assert_eq!(exit_code(&script(vec![ret(call("max", vec![num(3), num(-4)]))])), Outcome::Exit(3));
    assert_eq!(
        failure(&script(vec![ret(call("max", vec![num(3), ident("q")]))])),
        (ErrorKind::UndefinedVariable, "q".to_string())
    );
}

#[test]
fn arguments_are_evaluated_left_to_right() {
    let program = script(vec![
        declare(VarKind::Let, "x", num(0)),
        ret(call("min", vec![assign("x", num(4)), binary(BinaryOp::Add, ident("x"), num(1))])),
    ]);
    assert_eq!(exit_code(&program), Outcome::Exit(4));
}

#[test]
fn module_declaration_is_unsupported_wherever_it_stands() {
    let stmt = || ModuleItem::Stmt(Stmt::Expr(num(1)));
    let bodies = vec![
        vec![ModuleItem::ModuleDecl],
        vec![ModuleItem::ModuleDecl, stmt()],
        vec![stmt(), ModuleItem::ModuleDecl],
        vec![stmt(), ModuleItem::ModuleDecl, stmt()],
        vec![ModuleItem::Stmt(ret(ident("undefined"))), ModuleItem::ModuleDecl],
        vec![ModuleItem::Stmt(ret(num(1))), ModuleItem::Stmt(ret(num(2))), ModuleItem::ModuleDecl],
    ];
    for body in bodies {
        let mut compiler = ready();
        let before = compiler.module().clone();
        let err = compiler.compile(&Program::Module(EsModule { body })).unwrap_err();
        assert_eq!(err.kind, ErrorKind::UnsupportedConstruct);
        assert_eq!(err.detail, "module declaration");
        assert_eq!(*compiler.module(), before);
    }
}

#[test]
fn module_item_that_is_a_declaration_is_unsupported() {
    let mut compiler = ready();
    let err = compiler.compile_module_item(&ModuleItem::ModuleDecl).unwrap_err();
    assert_eq!((err.kind, err.detail.as_str()), (ErrorKind::UnsupportedConstruct, "module declaration"));
    assert!(compiler.compile_module_item(&ModuleItem::Stmt(ret(num(4)))).is_ok());
    assert_eq!(execute(&compiler.module().functions[0], 5), Outcome::Exit(4));
}

#[test]
fn script_and_module_are_lowered_without_the_implicit_return() {
    let mut compiler = ready();
    let body = Script { body: vec![declare(VarKind::Let, "x", num(1)), Stmt::Expr(ident("x"))] };
    assert!(compiler.compile_script(&body).is_ok());
    let main = &compiler.module().functions[0];
    assert_eq!(
        main.blocks,
        vec![Block {
            label: Label::Entry,
            instrs: vec![Instr::Store { slot: 0, value: Value::Const(1) }, Instr::Load { slot: 0 }],
            term: None,
        }]
    );
    let items = EsModule { body: vec![ModuleItem::Stmt(ret(ident("x")))] };
    assert!(compiler.compile_module(&items).is_ok());
    let main = &compiler.module().functions[0];
    assert_eq!(main.blocks[0].instrs.len(), 3);
    assert_eq!(main.blocks[0].term, Some(Terminator::Return(at(0, 2))));
    let refused = EsModule { body: vec![ModuleItem::Stmt(ret(num(1))), ModuleItem::ModuleDecl] };
    let err = compiler.compile_module(&refused).unwrap_err();
    assert_eq!((err.kind, err.detail.as_str()), (ErrorKind::UnsupportedConstruct, "module declaration"));
    let err = compiler.compile_script(&Script { body: vec![ret(num(1))] }).unwrap_err();
    assert_eq!(err.kind, ErrorKind::UnreachableCode);
}

#[test]
fn module_without_declarations_compiles_like_a_script() {
    let as_module = Program::Module(EsModule {
        body: vec![
            ModuleItem::Stmt(declare(VarKind::Let, "x", num(6))),
            ModuleItem::Stmt(ret(binary(BinaryOp::Mul, ident("x"), num(7)))),
        ],
    });
    let as_script =
        script(vec![declare(VarKind::Let, "x", num(6)), ret(binary(BinaryOp::Mul, ident("x"), num(7)))]);
    assert_eq!(compile(&as_module).unwrap(), compile(&as_script).unwrap());
    assert_eq!(exit_code(&as_module), Outcome::Exit(42));
}

fn successors(block: &Block) -> Vec<usize> {
    match block.term {
        Some(Terminator::Jump(target)) => vec![target],
        Some(Terminator::Branch { then_block, else_block, .. }) => vec![then_block, else_block],
        _ => vec![],
    }
}

fn reachable(function: &Function) -> Vec<bool> {
    let mut seen = vec![false; function.blocks.len()];
    let mut pending = vec![0];
    while let Some(b) = pending.pop() {
        if !seen[b] {
            seen[b] = true;
            pending.extend(successors(&function.blocks[b]));
        }
    }
    seen
}

fn assert_closed(function: &Function) {
    assert!(function.is_well_formed());
    assert!(!function.blocks.is_empty());
    for block in &function.blocks {
        assert!(block.term.is_some());
        let returns = matches!(block.term, Some(Terminator::Return(_)));
        let next = successors(block);
        assert!(returns || !next.is_empty());
        assert!(next.iter().all(|&b| b < function.blocks.len()));
    }
}

#[test]
fn if_with_two_returning_arms_has_two_terminated_branch_blocks() {
    let program = script(vec![if_else(
        num(1),
        Stmt::Block(vec![ret(num(1))]),
        Some(Stmt::Block(vec![ret(num(2))])),
    )]);
    let main = main_of(&program);
    assert_eq!(
        main.blocks,
        vec![
            Block {
                label: Label::Entry,
                instrs: vec![],
                term: Some(Terminator::Branch {
                    cond: Value::Const(1),
                    then_block: 1,
                    else_block: 2,
                }),
            },
            Block {
                label: Label::Then,
                instrs: vec![],
                term: Some(Terminator::Return(Value::Const(1))),
            },
            Block {
                label: Label::Else,
                instrs: vec![],
                term: Some(Terminator::Return(Value::Const(2))),
            },
            Block {
                label: Label::Merge,
                instrs: vec![],
                term: Some(Terminator::Return(Value::Const(0))),
            },
        ]
    );
    assert_closed(&main);
    let branches: Vec<&Block> =
        main.blocks.iter().filter(|b| matches!(b.label, Label::Then | Label::Else)).collect();
    assert_eq!(branches.len(), 2);
    assert!(branches.iter().all(|b| matches!(b.term, Some(Terminator::Return(_)))));
    assert_eq!(reachable(&main), vec![true, true, true, false]);
    assert_eq!(execute(&main, 100), Outcome::Exit(1));
    let text = llvm_text(&program);
    assert!(text.contains("ret i32 1") && text.contains("ret i32 2"), "{}", text);
}

#[test]
fn if_without_else_branches_to_merge() {
    let program = script(vec![
        declare(VarKind::Let, "x", num(5)),
        if_else(binary(BinaryOp::Gt, ident("x"), num(3)), Stmt::Expr(assign("x", num(1))), None),
        ret(ident("x")),
    ]);
    let main = main_of(&program);
    assert_eq!(main.blocks.len(), 3);
    assert_eq!(
        main.blocks[0].term,
        Some(Terminator::Branch { cond: at(0, 2), then_block: 1, else_block: 2 })
    );
    assert_eq!(main.blocks[1].label, Label::Then);
    assert_eq!(main.blocks[1].term, Some(Terminator::Jump(2)));
    assert_eq!(main.blocks[2].label, Label::Merge);
    assert_closed(&main);
    assert_eq!(execute(&main, 100), Outcome::Exit(1));
}

#[test]
fn if_takes_the_else_arm_on_zero() {
    let arms = |c: i32| {
        script(vec![
            declare(VarKind::Let, "r", num(0)),
            if_else(
                num(c),
                Stmt::Expr(assign("r", num(10))),
                Some(Stmt::Expr(assign("r", num(20)))),
            ),
            ret(ident("r")),
        ])
    };
    assert_eq!(exit_code(&arms(0)), Outcome::Exit(20));
    assert_eq!(exit_code(&arms(1)), Outcome::Exit(10));
    assert_eq!(exit_code(&arms(-7)), Outcome::Exit(10));
    let main = main_of(&arms(1));
    assert_eq!(
        main.blocks.iter().map(|b| b.label).collect::<Vec<_>>(),
        vec![Label::Entry, Label::Then, Label::Else, Label::Merge]
    );
    assert_eq!(main.blocks[1].term, Some(Terminator::Jump(3)));
    assert_eq!(main.blocks[2].term, Some(Terminator::Jump(3)));
    assert_closed(&main);
}

#[test]
fn while_loop_sums() {
    let program = script(vec![
        declare(VarKind::Let, "i", num(0)),
        declare(VarKind::Let, "s", num(0)),
        while_loop(
            binary(BinaryOp::Lt, ident("i"), num(10)),
            Stmt::Block(vec![
                Stmt::Expr(assign("i", binary(BinaryOp::Add, ident("i"), num(1)))),
                Stmt::Expr(assign("s", binary(BinaryOp::Add, ident("s"), ident("i")))),
            ]),
        ),
        ret(ident("s")),
    ]);
    let main = main_of(&program);
    assert_eq!(
        main.blocks.iter().map(|b| b.label).collect::<Vec<_>>(),
        vec![Label::Entry, Label::Cond, Label::Body, Label::After]
    );
    assert_eq!(main.blocks[0].term, Some(Terminator::Jump(1)));
    assert_eq!(
        main.blocks[1],
        Block {
            label: Label::Cond,
            instrs: vec![
                Instr::Load { slot: 0 },
                Instr::Binary { op: BinaryOp::Lt, lhs: at(1, 0), rhs: Value::Const(10) },
            ],
            term: Some(Terminator::Branch { cond: at(1, 1), then_block: 2, else_block: 3 }),
        }
    );
    assert_eq!(main.blocks[2].term, Some(Terminator::Jump(1)));
    assert_eq!(main.blocks[3].term, Some(Terminator::Return(at(3, 0))));
    assert_closed(&main);
    assert_eq!(execute(&main, 10_000), Outcome::Exit(55));
    assert_eq!(execute(&main, 20), Outcome::OutOfFuel);
    let text = llvm_text(&program);
    assert!(text.contains("icmp slt"), "{}", text);
    assert!(text.contains("br i1"), "{}", text);
}

#[test]
fn while_loop_whose_body_returns_does_not_jump_back() {
    let program = script(vec![while_loop(num(1), ret(num(3)))]);
    let main = main_of(&program);
    assert_eq!(main.blocks[2].term, Some(Terminator::Return(Value::Const(3))));
    assert_eq!(main.blocks[3].term, Some(Terminator::Return(Value::Const(0))));
    assert_closed(&main);
    assert_eq!(execute(&main, 100), Outcome::Exit(3));
}

#[test]
fn endless_loop_runs_out_of_fuel() {
    let program = script(vec![while_loop(num(1), Stmt::Block(vec![]))]);
    assert_eq!(exit_code(&program), Outcome::OutOfFuel);
}

#[test]
fn nested_control_flow_is_closed() {
    let program = script(vec![
        declare(VarKind::Let, "n", num(0)),
        declare(VarKind::Let, "i", num(0)),
        while_loop(
            binary(BinaryOp::Lt, ident("i"), num(6)),
            Stmt::Block(vec![
                if_else(
                    binary(BinaryOp::Eq, binary(BinaryOp::Rem, ident("i"), num(2)), num(0)),
                    Stmt::Block(vec![Stmt::Expr(assign(
                        "n",
                        binary(BinaryOp::Add, ident("n"), ident("i")),
                    ))]),
                    Some(Stmt::Block(vec![if_else(
                        binary(BinaryOp::Ge, ident("i"), num(5)),
                        ret(binary(BinaryOp::Mul, ident("n"), num(100))),
                        None,
                    )])),
                ),
                Stmt::Expr(assign("i", binary(BinaryOp::Add, ident("i"), num(1)))),
            ]),
        ),
        ret(ident("n")),
    ]);
    let main = main_of(&program);
    assert_closed(&main);
    assert_eq!(execute(&main, 10_000), Outcome::Exit(600));
    let text = llvm_text(&program);
    assert!(text.contains("srem"), "{}", text);
}

#[test]
fn compiling_twice_gives_equal_modules() {
    let program = || {
        script(vec![
            declare(VarKind::Let, "x", num(3)),
            while_loop(
                binary(BinaryOp::Gt, ident("x"), num(0)),
                Stmt::Expr(assign("x", binary(BinaryOp::Sub, ident("x"), num(1)))),
            ),
            if_else(ident("x"), ret(num(1)), Some(ret(call("abs", vec![ident("x")])))),
        ])
    };
    let first = compile(&program()).unwrap();
    let second = compile(&program()).unwrap();
    assert_eq!(first, second);
    assert_eq!(llvm_text(&program()), llvm_text(&program()));
    let bad = || script(vec![ret(ident("nope"))]);
    assert_eq!(compile(&bad()).unwrap_err(), compile(&bad()).unwrap_err());
}

#[test]
fn second_compile_into_a_finished_function_is_unreachable() {
    let mut compiler = ready();
    assert!(compiler.compile(&script(vec![ret(num(1))])).is_ok());
    assert!(compiler.compile(&script(vec![])).is_ok());
    let err = compiler.compile(&script(vec![ret(num(2))])).unwrap_err();
    assert_eq!(err.kind, ErrorKind::UnreachableCode);
}

#[test]
fn block_statement_leaves_the_scopes_as_they_were() {
    let mut compiler = ready();
    assert!(compiler.compile_statement(&declare(VarKind::Let, "a", num(1))).is_ok());
    let block = Stmt::Block(vec![
        declare(VarKind::Let, "a", num(2)),
        declare(VarKind::Let, "b", num(3)),
    ]);
    assert!(compiler.compile_statement(&block).is_ok());
    assert!(compiler.compile_statement(&declare(VarKind::Let, "b", num(4))).is_ok());
    let err = compiler.compile_statement(&declare(VarKind::Let, "a", num(5))).unwrap_err();
    assert_eq!(err.kind, ErrorKind::DuplicateBinding);
}

#[test]
fn expression_value_is_a_constant_or_the_instruction_emitted() {
    let mut compiler = ready();
    assert_eq!(compiler.compile_expression(&num(5)).unwrap(), Value::Const(5));
    assert!(compiler.module().functions[0].blocks[0].instrs.is_empty());
    let sum = binary(BinaryOp::Add, num(1), num(2));
    assert_eq!(compiler.compile_expression(&sum).unwrap(), at(0, 0));
    assert_eq!(compiler.compile_expression(&sum).unwrap(), at(0, 1));
    assert_eq!(compiler.module().functions[0].blocks[0].term, None);
}

#[test]
fn forms_outside_the_subset_are_unsupported() {
    let program = script(vec![Stmt::Unsupported("for statement".to_string())]);
    assert_eq!(failure(&program), (ErrorKind::UnsupportedConstruct, "for statement".to_string()));
    let program = script(vec![
        declare(VarKind::Let, "x", num(1)),
        ret(binary(BinaryOp::Add, ident("x"), Expr::Unsupported("template".to_string()))),
    ]);
    assert_eq!(failure(&program), (ErrorKind::UnsupportedConstruct, "template".to_string()));
    let after_return = script(vec![ret(num(1)), Stmt::Unsupported("for statement".to_string())]);
    assert_eq!(failure(&after_return), (ErrorKind::UnreachableCode, String::new()));
}

#[test]
fn error_text_is_the_same_for_every_error() {
    let err = compile(&script(vec![ret(ident("y"))])).unwrap_err();
    assert_eq!(err.to_text(), "An error occurred while compiling");
    assert_eq!(CompilerError::bare(ErrorKind::UnreachableCode).to_text(), err.to_text());
    let named = CompilerError::about(ErrorKind::UnknownFunction, &"f".to_string());
    assert_eq!(named, CompilerError { kind: ErrorKind::UnknownFunction, detail: "f".to_string() });
}

#[test]
fn emitted_module_holds_the_instructions() {
    let program = script(vec![
        declare(VarKind::Let, "x", num(6)),
        declare(VarKind::Const, "y", binary(BinaryOp::Div, ident("x"), num(2))),
        ret(call("max", vec![binary(BinaryOp::Sub, ident("y"), ident("x")), call("abs", vec![ident("y")])])),
    ]);
    assert_eq!(exit_code(&program), Outcome::Exit(3));
    let text = llvm_text(&program);
    for piece in ["alloca i32", "store i32 6", "load i32", "sdiv i32", "sub i32", "select i1", "ret i32"] {
        assert!(text.contains(piece), "{} in {}", piece, text);
    }
}

#[test]
fn emitted_comparison_is_widened() {
    let program = script(vec![
        declare(VarKind::Let, "x", num(6)),
        ret(binary(BinaryOp::Le, ident("x"), num(9))),
    ]);
    assert_eq!(exit_code(&program), Outcome::Exit(1));
    let text = llvm_text(&program);
    assert!(text.contains("icmp sle i32"), "{}", text);
    assert!(text.contains("zext i1"), "{}", text);
}

#[test]
fn unfinished_module_is_not_emitted() {
    let mut compiler = ready();
    assert!(compiler.compile_statement(&declare(VarKind::Let, "x", num(1))).is_ok());
    let context = Context::create();
    assert!(!compiler.module().is_well_formed());
    assert_eq!(emit_module(compiler.module(), &context).err(), Some(EmitError::Malformed));
}

#[test]
fn malformed_modules_are_not_emitted() {
    let context = Context::create();
    let with = |slots: Vec<ScalarType>, blocks: Vec<Block>| IrModule {
        name: "m".to_string(),
        functions: vec![Function { name: "main".to_string(), slots, blocks }],
    };
    let block = |instrs: Vec<Instr>, term: Terminator| Block {
        label: Label::Entry,
        instrs,
        term: Some(term),
    };
    let zero = Terminator::Return(Value::Const(0));
    let bad = vec![
        with(vec![], vec![]),
        with(vec![], vec![block(vec![Instr::Load { slot: 0 }], zero)]),
        with(vec![], vec![block(vec![], Terminator::Jump(1))]),
        with(vec![], vec![block(vec![], Terminator::Return(at(0, 0)))]),
        with(
            vec![ScalarType::I32],
            vec![block(
                vec![Instr::Store { slot: 0, value: Value::Const(1) }],
                Terminator::Return(at(0, 0)),
            )],
        ),
        with(
            vec![],
            vec![block(vec![Instr::Call { callee: Intrinsic::Min, args: vec![Value::Const(1)] }], zero)],
        ),
        with(
            vec![],
            vec![block(
                vec![Instr::Binary { op: BinaryOp::Add, lhs: at(0, 0), rhs: Value::Const(1) }],
                zero,
            )],
        ),
    ];
    for module in &bad {
        assert!(!module.is_well_formed(), "{:?}", module);
        assert_eq!(emit_module(module, &context).err(), Some(EmitError::Malformed), "{:?}", module);
    }
    let fine = with(vec![], vec![block(vec![], zero)]);
    assert!(fine.is_well_formed());
    assert!(emit_module(&fine, &context).is_ok());
    let empty = IrModule { name: "m".to_string(), functions: vec![] };
    assert!(empty.is_well_formed());
    assert!(emit_module(&empty, &context).is_ok());
}
