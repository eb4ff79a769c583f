//! Laws of the compiler, stated over what lowering means and what the
//! emitted function computes.

use vstd::prelude::*;
use crate::ast;
use crate::ast::{is_mutable, Expr, ModuleItem, Program, Stmt};
use crate::compiler::{answers, entry_function, fresh, kept, with_entry_point, CompilerView};
use crate::error::{
    duplicate_binding, unsupported_construct, CompilerError, ErrorKind, ErrorView,
};
use crate::growth::{
    bounded, grows_into, if_anatomy, if_else_anatomy, lemma_if_else_grows, lemma_if_grows, open_at,
};
use crate::eval::{initial, read, run, run_from, step, with_result, Machine, Outcome};
use crate::invariants::{lemma_emit_extends, lemma_inv_valid, lemma_lower_expr_extends};
use crate::ir::{BlockView, FunctionView, InstrView, Label, ScalarType, Terminator, Value};
use crate::lower::{
    compile_program, has_module_decl, lower_args, lower_expr, lower_item, lower_items,
    lower_program, lower_stmt, lower_stmts, LowerState,
};
use crate::symbols::{declared, lookup, Frame, Slot};

verus! {

/// Whether `program` is the single statement `return n;`.
pub open spec fn returns_literal(program: Program, n: i32) -> bool {
    match program {
        Program::Script(script) => script.body@ == seq![Stmt::Return(Some(Expr::Num(n)))],
        Program::Module(module) => module.body@ == seq![
            ModuleItem::Stmt(Stmt::Return(Some(Expr::Num(n)))),
        ],
    }
}

/// The function `main` whose only block returns `n`.
pub open spec fn returning(n: i32) -> FunctionView {
    FunctionView {
        name: "main"@,
        slots: Seq::empty(),
        blocks: seq![
            BlockView {
                label: Label::Entry,
                instrs: Seq::empty(),
                term: Some(Terminator::Return(Value::Const(n))),
            },
        ],
    }
}

/// A program that is only `return n;` compiles, in a fresh compiler with
/// its entry point, to a `main` whose entry block returns `n`, and running
/// that function exits with `n`.
pub proof fn lemma_return_literal(program: Program, n: i32, fuel: nat)
    requires
        returns_literal(program, n),
        fuel >= 1,
    ensures
        match compile_program(with_entry_point(fresh()).state(), program) {
            Ok(after) => after.func == returning(n) && run(after.func, fuel) == Outcome::Exit(n),
            Err(_) => false,
        },
{
    let st = with_entry_point(fresh()).state();
    let done = st.terminate(Terminator::Return(Value::Const(n)));
    assert(st.func == entry_function());
    assert(!st.is_terminated());
    assert(done.func.blocks =~= returning(n).blocks);
    assert(done.func == returning(n));
    assert(done.is_terminated());
    let s = Stmt::Return(Some(Expr::Num(n)));
    assert(lower_stmt(st, s) == Ok::<LowerState, ErrorView>(done));
    match program {
        Program::Script(script) => {
            reveal_with_fuel(lower_stmts, 3);
            assert(script.body@[0] == s);
            assert(lower_stmts(st, script.body@, 0) == Ok::<LowerState, ErrorView>(done));
        },
        Program::Module(module) => {
            reveal_with_fuel(lower_items, 3);
            assert(module.body@[0] == ModuleItem::Stmt(s));
            assert(!has_module_decl(module.body@));
            assert(lower_items(st, module.body@, 0) == Ok::<LowerState, ErrorView>(done));
        },
    }
}

/// Whether `program` is a script of the three statements
/// `let name = first; name = second; return name;`, the declaration with
/// `let` or `var`.
pub open spec fn assigns_then_returns(program: Program, name: Seq<char>, first: i32, second: i32) -> bool {
    match program {
        Program::Script(script) => {
            &&& script.body@.len() == 3
            &&& match script.body@[0] {
                Stmt::VarDecl { kind, name: declared_name, init: Expr::Num(n) } => is_mutable(kind)
                    && declared_name@ == name && n == first,
                _ => false,
            }
            &&& match script.body@[1] {
                Stmt::Expr(Expr::Assign { target, value }) => target@ == name && *value == Expr::Num(
                    second,
                ),
                _ => false,
            }
            &&& match script.body@[2] {
                Stmt::Return(Some(Expr::Ident(returned))) => returned@ == name,
                _ => false,
            }
        },
        Program::Module(_) => false,
    }
}

/// The function `main` that stores `first`, then `second`, in its one
/// slot, loads the slot and returns what it loaded.
pub open spec fn storing_twice(first: i32, second: i32) -> FunctionView {
    FunctionView {
        name: "main"@,
        slots: seq![ScalarType::I32],
        blocks: seq![
            BlockView {
                label: Label::Entry,
                instrs: seq![
                    InstrView::Store { slot: 0, value: Value::Const(first) },
                    InstrView::Store { slot: 0, value: Value::Const(second) },
                    InstrView::Load { slot: 0 },
                ],
                term: Some(Terminator::Return(Value::Inst { block: 0, index: 2 })),
            },
        ],
    }
}

/// The state in which `main` has one slot, bound to `name`, and one
/// block with these instructions and this terminator.
pub open spec fn one_block(name: Seq<char>, instrs: Seq<InstrView>, term: Option<Terminator>) -> LowerState {
    LowerState {
        func: FunctionView {
            name: "main"@,
            slots: seq![ScalarType::I32],
            blocks: seq![BlockView { label: Label::Entry, instrs, term }],
        },
        cursor: 0,
        scopes: seq![
            Map::<Seq<char>, Slot>::empty().insert(
                name,
                Slot { index: 0, ty: ScalarType::I32, mutable: true },
            ),
        ],
    }
}

/// The declaration allocates the slot, stores the initial value and binds
/// the name.
proof fn lemma_declaration_stores(s: Stmt, name: Seq<char>, first: i32)
    requires
        s matches Stmt::VarDecl { kind, name: declared_name, init: Expr::Num(n) } && is_mutable(kind)
            && declared_name@ == name && n == first,
    ensures
        lower_stmt(with_entry_point(fresh()).state(), s) == Ok::<LowerState, ErrorView>(
            one_block(name, seq![InstrView::Store { slot: 0, value: Value::Const(first) }], None),
        ),
{
    let st = with_entry_point(fresh()).state();
    let slot = Slot { index: 0, ty: ScalarType::I32, mutable: true };
    let store = InstrView::Store { slot: 0, value: Value::Const(first) };
    let after = st.alloc_slot(ScalarType::I32).emit(store).declare(name, slot);
    let goal = one_block(name, seq![store], None);
    assert(st.func == entry_function());
    assert(!st.is_terminated());
    assert(!st.scopes.last().dom().contains(name));
    assert(after.func.slots =~= goal.func.slots);
    assert(after.func.blocks[0].instrs =~= goal.func.blocks[0].instrs);
    assert(after.func.blocks =~= goal.func.blocks);
    assert(after.scopes =~= goal.scopes);
    assert(after == goal);
}

/// The assignment stores the new value.
proof fn lemma_assignment_stores(s: Stmt, name: Seq<char>, first: i32, second: i32)
    requires
        s matches Stmt::Expr(Expr::Assign { target, value }) && target@ == name && *value
            == Expr::Num(second),
    ensures
        lower_stmt(
            one_block(name, seq![InstrView::Store { slot: 0, value: Value::Const(first) }], None),
            s,
        ) == Ok::<LowerState, ErrorView>(
            one_block(
                name,
                seq![
                    InstrView::Store { slot: 0, value: Value::Const(first) },
                    InstrView::Store { slot: 0, value: Value::Const(second) },
                ],
                None,
            ),
        ),
{
    let slot = Slot { index: 0, ty: ScalarType::I32, mutable: true };
    let store_first = InstrView::Store { slot: 0, value: Value::Const(first) };
    let store_second = InstrView::Store { slot: 0, value: Value::Const(second) };
    let st = one_block(name, seq![store_first], None);
    let goal = one_block(name, seq![store_first, store_second], None);
    let after = st.emit(store_second);
    assert(!st.is_terminated());
    assert(st.scopes.last().dom().contains(name));
    assert(lookup(st.scopes, name) == Some(slot));
    assert(lower_expr(st, Expr::Num(second)) == Ok::<(LowerState, Value), ErrorView>(
        (st, Value::Const(second)),
    ));
    assert(after.func.blocks[0].instrs =~= goal.func.blocks[0].instrs);
    assert(after.func.blocks =~= goal.func.blocks);
    assert(after == goal);
}

/// The return loads the slot and returns what it loaded.
proof fn lemma_return_loads(s: Stmt, name: Seq<char>, first: i32, second: i32)
    requires
        s matches Stmt::Return(Some(Expr::Ident(returned))) && returned@ == name,
    ensures
        lower_stmt(
            one_block(
                name,
                seq![
                    InstrView::Store { slot: 0, value: Value::Const(first) },
                    InstrView::Store { slot: 0, value: Value::Const(second) },
                ],
                None,
            ),
            s,
        ) == Ok::<LowerState, ErrorView>(
            one_block(
                name,
                storing_twice(first, second).blocks[0].instrs,
                storing_twice(first, second).blocks[0].term,
            ),
        ),
{
    let slot = Slot { index: 0, ty: ScalarType::I32, mutable: true };
    let store_first = InstrView::Store { slot: 0, value: Value::Const(first) };
    let store_second = InstrView::Store { slot: 0, value: Value::Const(second) };
    let load = InstrView::Load { slot: 0 };
    let loaded = Value::Inst { block: 0, index: 2 };
    let st = one_block(name, seq![store_first, store_second], None);
    let goal = one_block(
        name,
        storing_twice(first, second).blocks[0].instrs,
        storing_twice(first, second).blocks[0].term,
    );
    let after = st.emit(load).terminate(Terminator::Return(loaded));
    assert(!st.is_terminated());
    assert(st.scopes.last().dom().contains(name));
    assert(lookup(st.scopes, name) == Some(slot));
    assert(st.next_value() == loaded);
    assert(after.func.blocks[0].instrs =~= goal.func.blocks[0].instrs);
    assert(after.func.blocks =~= goal.func.blocks);
    assert(after == goal);
}

/// Such a program compiles to the function that stores twice.
proof fn lemma_storing_twice_is_compiled(program: Program, name: Seq<char>, first: i32, second: i32)
    requires
        assigns_then_returns(program, name, first, second),
    ensures
        match compile_program(with_entry_point(fresh()).state(), program) {
            Ok(after) => after.func == storing_twice(first, second),
            Err(_) => false,
        },
{
    let body = program->Script_0.body@;
    let st = with_entry_point(fresh()).state();
    let store_first = InstrView::Store { slot: 0, value: Value::Const(first) };
    let store_second = InstrView::Store { slot: 0, value: Value::Const(second) };
    let st1 = one_block(name, seq![store_first], None);
    let st2 = one_block(name, seq![store_first, store_second], None);
    let st3 = one_block(
        name,
        storing_twice(first, second).blocks[0].instrs,
        storing_twice(first, second).blocks[0].term,
    );
    lemma_declaration_stores(body[0], name, first);
    lemma_assignment_stores(body[1], name, first, second);
    lemma_return_loads(body[2], name, first, second);
    assert(lower_stmts(st3, body, 3) == Ok::<LowerState, ErrorView>(st3));
    assert(lower_stmts(st2, body, 2) == Ok::<LowerState, ErrorView>(st3));
    assert(lower_stmts(st1, body, 1) == Ok::<LowerState, ErrorView>(st3));
    assert(lower_stmts(st, body, 0) == Ok::<LowerState, ErrorView>(st3));
    assert(st3.is_terminated());
    assert(st3.func.blocks =~= storing_twice(first, second).blocks);
    assert(st3.func == storing_twice(first, second));
}

/// The function that stores twice exits with the second value.
proof fn lemma_storing_twice_runs(first: i32, second: i32, fuel: nat)
    requires
        fuel >= 4,
    ensures
        run(storing_twice(first, second), fuel) == Outcome::Exit(second),
{
    let f = storing_twice(first, second);
    let loaded = Value::Inst { block: 0, index: 2 };
    let m0 = initial(f);
    let m1 = Machine { slots: m0.slots.update(0, first), ..m0 };
    let m2 = Machine { slots: m1.slots.update(0, second), ..m1 };
    let m3 = with_result(m2, 0, 2, second);
    assert(step(m0, 0, 0, f.blocks[0].instrs[0]) == Some(m1));
    assert(step(m1, 0, 1, f.blocks[0].instrs[1]) == Some(m2));
    assert(step(m2, 0, 2, f.blocks[0].instrs[2]) == Some(m3));
    assert(read(m3, loaded) == Some(second));
    assert(run_from(f, m3, 0, 3, (fuel - 3) as nat) == Outcome::Exit(second));
    assert(run_from(f, m2, 0, 2, (fuel - 2) as nat) == Outcome::Exit(second));
    assert(run_from(f, m1, 0, 1, (fuel - 1) as nat) == Outcome::Exit(second));
    assert(run_from(f, m0, 0, 0, fuel) == Outcome::Exit(second));
}

/// Declaring a variable, assigning it a new value and returning it
/// returns the value assigned last: such a program compiles, in a fresh
/// compiler with its entry point, to a `main` that exits with the second
/// value.
pub proof fn lemma_last_assignment_is_returned(
    program: Program,
    name: Seq<char>,
    first: i32,
    second: i32,
    fuel: nat,
)
    requires
        assigns_then_returns(program, name, first, second),
        fuel >= 4,
    ensures
        match compile_program(with_entry_point(fresh()).state(), program) {
            Ok(after) => after.func == storing_twice(first, second) && run(after.func, fuel)
                == Outcome::Exit(second),
            Err(_) => false,
        },
{
    lemma_storing_twice_is_compiled(program, name, first, second);
    lemma_storing_twice_runs(first, second, fuel);
}

/// A module that holds a module declaration is refused as unsupported,
/// wherever the declaration stands and whatever else the module holds.
pub proof fn lemma_module_declaration_refused(st: LowerState, module: ast::EsModule)
    requires
        has_module_decl(module.body@),
    ensures
        compile_program(st, Program::Module(module)) == Err::<LowerState, ErrorView>(
            unsupported_construct("module declaration"@),
        ),
{
}

/// Scoping: once a name is bound in the innermost scope, binding it there
/// again is a duplicate; in a scope opened inside, it can be bound anew
/// and then resolves to the new slot; once that scope is closed, it
/// resolves to the outer slot again.
pub proof fn lemma_shadowing(scopes: Seq<Frame>, name: Seq<char>, outer: Slot, inner: Slot)
    requires
        scopes.len() >= 1,
    ensures
        declared(scopes, name, outer).last().dom().contains(name),
        lookup(declared(scopes, name, outer), name) == Some(outer),
        !declared(scopes, name, outer).push(Map::empty()).last().dom().contains(name),
        lookup(declared(scopes, name, outer).push(Map::empty()), name) == Some(outer),
        lookup(declared(declared(scopes, name, outer).push(Map::empty()), name, inner), name) == Some(
            inner,
        ),
        declared(declared(scopes, name, outer).push(Map::empty()), name, inner).drop_last()
            == declared(scopes, name, outer),
{
    let bound = declared(scopes, name, outer);
    let opened = bound.push(Map::empty());
    let shadowed = declared(opened, name, inner);
    assert(opened.drop_last() =~= bound);
    assert(shadowed.drop_last() =~= bound);
}

/// Declaring a name twice in one scope is refused: where a declaration
/// has been lowered, a second declaration of the same name in the same
/// scope, whose initialiser can be lowered, fails as a duplicate.
pub proof fn lemma_redeclaration_refused(st: LowerState, first: Stmt, second: Stmt)
    requires
        st.cursor < st.func.blocks.len(),
        st.scopes.len() >= 1,
        first is VarDecl,
        second is VarDecl,
        first->name@ == second->name@,
        lower_stmt(st, first) matches Ok(after) && lower_expr(
            after.alloc_slot(ScalarType::I32),
            second->init,
        ) is Ok,
    ensures
        lower_stmt(st, first) matches Ok(after) && lower_stmt(after, second) == Err::<
            LowerState,
            ErrorView,
        >(duplicate_binding(first->name@)),
{
    let name = first->name@;
    let st1 = st.alloc_slot(ScalarType::I32);
    lemma_lower_expr_extends(st1, first->init);
    let (st2, v) = lower_expr(st1, first->init)->Ok_0;
    let store = InstrView::Store { slot: st.next_slot(), value: v };
    lemma_emit_extends(st2, store);
    let after = lower_stmt(st, first)->Ok_0;
    assert(after.scopes.last().dom().contains(name));
    assert(!after.is_terminated());
    let again = after.alloc_slot(ScalarType::I32);
    lemma_lower_expr_extends(again, second->init);
    let (st3, w) = lower_expr(again, second->init)->Ok_0;
    lemma_emit_extends(st3, InstrView::Store { slot: after.next_slot(), value: w });
}

/// Declaring a name in a nested block succeeds whatever the scopes
/// outside bind, and the block leaves the scopes as it found them: where
/// the cursor's block is open and the initialiser can be lowered, a block
/// that holds one declaration is lowered, and the names bound afterwards
/// are those bound before.
pub proof fn lemma_nested_declaration(st: LowerState, block: Stmt, inner: Stmt)
    requires
        st.cursor < st.func.blocks.len(),
        st.scopes.len() >= 1,
        !st.is_terminated(),
        inner is VarDecl,
        block matches Stmt::Block(body) && body@ == seq![inner],
        lower_expr(st.push_scope().alloc_slot(ScalarType::I32), inner->init) is Ok,
    ensures
        lower_stmt(st, block) matches Ok(after) && after.scopes == st.scopes,
{
    reveal_with_fuel(lower_stmts, 3);
    let body = block->Block_0@;
    assert(body[0] == inner);
    let opened = st.push_scope();
    let st1 = opened.alloc_slot(ScalarType::I32);
    lemma_lower_expr_extends(st1, inner->init);
    let (st2, v) = lower_expr(st1, inner->init)->Ok_0;
    let store = InstrView::Store { slot: opened.next_slot(), value: v };
    lemma_emit_extends(st2, store);
    let st3 = st2.emit(store);
    assert(!st3.scopes.last().dom().contains(inner->name@));
    let st4 = lower_stmt(opened, inner)->Ok_0;
    assert(lower_stmts(opened, body, 0) == Ok::<LowerState, ErrorView>(st4));
    assert(st4.pop_scope().scopes =~= st.scopes);
}

/// Compiling is a function of the program: two compilers that start in
/// the same state and compile the same program both succeed or both
/// fail, with equal modules where they succeed and equal errors where
/// they fail.
pub proof fn lemma_compile_deterministic(
    program: Program,
    start: CompilerView,
    first: CompilerView,
    first_result: Result<(), CompilerError>,
    second: CompilerView,
    second_result: Result<(), CompilerError>,
)
    requires
        start.wf(),
        kept(start, first),
        answers(start, compile_program(start.state(), program), first, first_result),
        kept(start, second),
        answers(start, compile_program(start.state(), program), second, second_result),
    ensures
        first_result is Ok <==> second_result is Ok,
        first_result is Ok ==> first.module == second.module,
        match (first_result, second_result) {
            (Err(a), Err(b)) => a@ == b@,
            _ => true,
        },
{
    if first_result is Ok {
        assert(first.module.functions =~= second.module.functions);
    }
}

/// The shape of a lowered `if`: where an `if` is lowered, from a state
/// that lowering keeps, into a function whose sizes fit, the block it was
/// lowered at ends in one branch on the condition, to the `then` block
/// and to the `else` block, or to the merge block where there is no
/// `else`; each arm is lowered from the start of its own, empty block; an
/// arm that has ended its last block keeps that terminator, and any other
/// arm ends in one jump to the merge block; and lowering goes on at the
/// start of the merge block, which is empty and has no terminator. Every
/// block that had its terminator before is unchanged.
pub proof fn lemma_if_shape(st: LowerState, s: Stmt)
    requires
        st.inv(),
        s is If,
        lower_stmt(st, s) matches Ok(after) && bounded(after.func),
    ensures
        s->else_branch is Some ==> if_else_anatomy(st, s),
        s->else_branch is None ==> if_anatomy(st, s),
        ({
            let after = lower_stmt(st, s)->Ok_0;
            &&& !after.is_terminated()
            &&& open_at(after.func, after.cursor)
            &&& grows_into(st.func, after.func)
        }),
{
    lemma_inv_valid(st);
    if s->else_branch is Some {
        lemma_if_else_grows(st, s);
    } else {
        lemma_if_grows(st, s);
    }
}

/// Whether a result of lowering is no failure for want of an entry
/// point.
pub open spec fn has_entry<T>(r: Result<T, ErrorView>) -> bool {
    match r {
        Ok(_) => true,
        Err(err) => err.kind != ErrorKind::MissingEntryPoint,
    }
}

/// Lowering an expression never fails for want of an entry point.
pub proof fn lemma_lower_expr_has_entry(st: LowerState, e: Expr)
    ensures
        has_entry(lower_expr(st, e)),
    decreases e,
{
    match e {
        Expr::Assign { target, value } => {
            lemma_lower_expr_has_entry(st, *value);
        },
        Expr::Binary { op, left, right } => {
            lemma_lower_expr_has_entry(st, *left);
            match lower_expr(st, *left) {
                Ok((st1, _)) => {
                    lemma_lower_expr_has_entry(st1, *right);
                },
                Err(_) => {},
            }
        },
        Expr::Call { callee, args } => {
            lemma_lower_args_has_entry(st, args@, 0, Seq::empty());
        },
        _ => {},
    }
}

/// Lowering arguments never fails for want of an entry point.
pub proof fn lemma_lower_args_has_entry(st: LowerState, args: Seq<Expr>, from: nat, done: Seq<Value>)
    ensures
        has_entry(lower_args(st, args, from, done)),
    decreases args, args.len() - from,
{
    if from < args.len() {
        lemma_lower_expr_has_entry(st, args[from as int]);
        match lower_expr(st, args[from as int]) {
            Ok((st1, v)) => {
                lemma_lower_args_has_entry(st1, args, from + 1, done.push(v));
            },
            Err(_) => {},
        }
    }
}

/// Lowering a statement never fails for want of an entry point.
pub proof fn lemma_lower_stmt_has_entry(st: LowerState, s: Stmt)
    ensures
        has_entry(lower_stmt(st, s)),
    decreases s,
{
    if !st.is_terminated() {
        match s {
            Stmt::VarDecl { kind, name, init } => {
                lemma_lower_expr_has_entry(st.alloc_slot(ScalarType::I32), init);
            },
            Stmt::Expr(e) => {
                lemma_lower_expr_has_entry(st, e);
            },
            Stmt::Block(stmts) => {
                lemma_lower_stmts_has_entry(st.push_scope(), stmts@, 0);
            },
            Stmt::If { cond, then_branch, else_branch } => {
                lemma_lower_expr_has_entry(st, cond);
                match lower_expr(st, cond) {
                    Ok((st1, c)) => {
                        let then_block = st1.next_block();
                        let st2 = st1.new_block(Label::Then);
                        match else_branch {
                            None => {
                                let merge = st2.next_block();
                                let st3 = st2.new_block(Label::Merge).terminate(
                                    Terminator::Branch { cond: c, then_block, else_block: merge },
                                ).position_at(then_block);
                                lemma_lower_stmt_has_entry(st3, *then_branch);
                            },
                            Some(alt) => {
                                let else_block = st2.next_block();
                                let st3 = st2.new_block(Label::Else);
                                let merge = st3.next_block();
                                let st4 = st3.new_block(Label::Merge).terminate(
                                    Terminator::Branch { cond: c, then_block, else_block },
                                ).position_at(then_block);
                                lemma_lower_stmt_has_entry(st4, *then_branch);
                                match lower_stmt(st4, *then_branch) {
                                    Ok(st5) => {
                                        lemma_lower_stmt_has_entry(
                                            st5.close(merge).position_at(else_block),
                                            *alt,
                                        );
                                    },
                                    Err(_) => {},
                                }
                            },
                        }
                    },
                    Err(_) => {},
                }
            },
            Stmt::While { cond, body } => {
                let cond_block = st.next_block();
                let st1 = st.new_block(Label::Cond);
                let body_block = st1.next_block();
                let st2 = st1.new_block(Label::Body);
                let after = st2.next_block();
                let st3 = st2.new_block(Label::After).terminate(
                    Terminator::Jump(cond_block),
                ).position_at(cond_block);
                lemma_lower_expr_has_entry(st3, cond);
                match lower_expr(st3, cond) {
                    Ok((st4, c)) => {
                        let st5 = st4.terminate(
                            Terminator::Branch { cond: c, then_block: body_block, else_block: after },
                        ).position_at(body_block);
                        lemma_lower_stmt_has_entry(st5, *body);
                    },
                    Err(_) => {},
                }
            },
            Stmt::Return(Some(e)) => {
                lemma_lower_expr_has_entry(st, e);
            },
            _ => {},
        }
    }
}

/// Lowering statements never fails for want of an entry point.
pub proof fn lemma_lower_stmts_has_entry(st: LowerState, stmts: Seq<Stmt>, from: nat)
    ensures
        has_entry(lower_stmts(st, stmts, from)),
    decreases stmts, stmts.len() - from,
{
    if from < stmts.len() {
        lemma_lower_stmt_has_entry(st, stmts[from as int]);
        match lower_stmt(st, stmts[from as int]) {
            Ok(st1) => {
                lemma_lower_stmts_has_entry(st1, stmts, from + 1);
            },
            Err(_) => {},
        }
    }
}

/// Lowering the items of a module never fails for want of an entry
/// point.
pub proof fn lemma_lower_items_has_entry(st: LowerState, items: Seq<ModuleItem>, from: nat)
    ensures
        has_entry(lower_items(st, items, from)),
    decreases items.len() - from,
{
    if from < items.len() {
        match items[from as int] {
            ModuleItem::Stmt(s) => {
                lemma_lower_stmt_has_entry(st, s);
            },
            ModuleItem::ModuleDecl => {},
        }
        match lower_item(st, items[from as int]) {
            Ok(st1) => {
                lemma_lower_items_has_entry(st1, items, from + 1);
            },
            Err(_) => {},
        }
    }
}

/// Compiling a program never fails for want of an entry point: that
/// failure comes from a compiler without one, and from nothing else.
pub proof fn lemma_compile_program_has_entry(st: LowerState, program: Program)
    ensures
        has_entry(lower_program(st, program)),
        has_entry(compile_program(st, program)),
{
    match program {
        Program::Script(script) => {
            lemma_lower_stmts_has_entry(st, script.body@, 0);
        },
        Program::Module(module) => {
            lemma_lower_items_has_entry(st, module.body@, 0);
        },
    }
}

} // verus!
