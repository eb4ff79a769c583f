//! What lowering means: for every statement and expression form, the
//! instructions, stack slots and blocks it adds to the function under
//! construction, and the errors it ends in.

use vstd::prelude::*;
use crate::ast::{is_mutable, Expr, ModuleItem, Program, Stmt};
use crate::error::{
    assign_to_const, duplicate_binding, undefined_variable, unknown_function, unreachable_code,
    unsupported_construct, ErrorView,
};
use crate::ir::{
    find_intrinsic, BlockView, FunctionView, InstrView, Label, ScalarType, Terminator, Value,
};
use crate::symbols::{declared, lookup, Frame, Slot};

verus! {

/// The state lowering works on: the function under construction, the
/// block the cursor stands in, and the open scopes.
pub struct LowerState {
    pub func: FunctionView,
    pub cursor: usize,
    pub scopes: Seq<Frame>,
}

impl LowerState {
    /// The block the cursor stands in.
    pub open spec fn current(self) -> BlockView {
        self.func.blocks[self.cursor as int]
    }

    /// Whether the cursor's block has its terminator.
    pub open spec fn is_terminated(self) -> bool {
        self.current().term is Some
    }

    /// The value that the next instruction emitted would define.
    pub open spec fn next_value(self) -> Value {
        Value::Inst { block: self.cursor, index: self.current().instrs.len() as usize }
    }

    /// The index that the next block created would have.
    pub open spec fn next_block(self) -> usize {
        self.func.blocks.len() as usize
    }

    /// The index that the next slot allocated would have.
    pub open spec fn next_slot(self) -> usize {
        self.func.slots.len() as usize
    }

    /// Appends `instr` at the cursor.
    pub open spec fn emit(self, instr: InstrView) -> LowerState {
        LowerState { func: self.func.with_instr(self.cursor as int, instr), ..self }
    }

    /// Ends the cursor's block with `term`.
    pub open spec fn terminate(self, term: Terminator) -> LowerState {
        LowerState { func: self.func.with_term(self.cursor as int, term), ..self }
    }

    /// Ends the cursor's block with a jump to `target`, unless it has a
    /// terminator already.
    pub open spec fn close(self, target: usize) -> LowerState {
        if self.is_terminated() {
            self
        } else {
            self.terminate(Terminator::Jump(target))
        }
    }

    /// Creates an empty block; the cursor stays.
    pub open spec fn new_block(self, label: Label) -> LowerState {
        LowerState { func: self.func.with_block(label), ..self }
    }

    /// Moves the cursor to block `block`.
    pub open spec fn position_at(self, block: usize) -> LowerState {
        LowerState { cursor: block, ..self }
    }

    /// Allocates a stack slot.
    pub open spec fn alloc_slot(self, ty: ScalarType) -> LowerState {
        LowerState { func: self.func.with_slot(ty), ..self }
    }

    /// Opens a scope.
    pub open spec fn push_scope(self) -> LowerState {
        LowerState { scopes: self.scopes.push(Map::empty()), ..self }
    }

    /// Closes the innermost scope.
    pub open spec fn pop_scope(self) -> LowerState {
        LowerState { scopes: self.scopes.drop_last(), ..self }
    }

    /// Binds `name` in the innermost scope.
    pub open spec fn declare(self, name: Seq<char>, slot: Slot) -> LowerState {
        LowerState { scopes: declared(self.scopes, name, slot), ..self }
    }

    /// Appends the implicit `return 0` unless the cursor's block has ended.
    pub open spec fn finish(self) -> LowerState {
        if self.is_terminated() {
            self
        } else {
            self.terminate(Terminator::Return(Value::Const(0)))
        }
    }
}

/// Lowers an expression at the cursor: the state afterwards and the value
/// the expression has, or the first error met.
pub open spec fn lower_expr(st: LowerState, e: Expr) -> Result<(LowerState, Value), ErrorView>
    decreases e,
{
    match e {
        Expr::Num(n) => Ok((st, Value::Const(n))),
        Expr::Ident(name) => match lookup(st.scopes, name@) {
            None => Err(undefined_variable(name@)),
            Some(slot) => Ok((st.emit(InstrView::Load { slot: slot.index }), st.next_value())),
        },
        Expr::Assign { target, value } => match lower_expr(st, *value) {
            Err(err) => Err(err),
            Ok((st1, v)) => match lookup(st1.scopes, target@) {
                None => Err(undefined_variable(target@)),
                Some(slot) => if slot.mutable {
                    Ok((st1.emit(InstrView::Store { slot: slot.index, value: v }), v))
                } else {
                    Err(assign_to_const(target@))
                },
            },
        },
        Expr::Binary { op, left, right } => match lower_expr(st, *left) {
            Err(err) => Err(err),
            Ok((st1, lhs)) => match lower_expr(st1, *right) {
                Err(err) => Err(err),
                Ok((st2, rhs)) => Ok(
                    (st2.emit(InstrView::Binary { op, lhs, rhs }), st2.next_value()),
                ),
            },
        },
        Expr::Call { callee, args } => match find_intrinsic(callee@, args@.len()) {
            None => Err(unknown_function(callee@)),
            Some(f) => match lower_args(st, args@, 0, Seq::empty()) {
                Err(err) => Err(err),
                Ok((st1, values)) => Ok(
                    (st1.emit(InstrView::Call { callee: f, args: values }), st1.next_value()),
                ),
            },
        },
        Expr::Unsupported(what) => Err(unsupported_construct(what@)),
    }
}

/// Lowers the arguments `args[from..]` left to right and appends their
/// values to `done`.
pub open spec fn lower_args(st: LowerState, args: Seq<Expr>, from: nat, done: Seq<Value>) -> Result<
    (LowerState, Seq<Value>),
    ErrorView,
>
    decreases args, args.len() - from,
{
    if from >= args.len() {
        Ok((st, done))
    } else {
        match lower_expr(st, args[from as int]) {
            Err(err) => Err(err),
            Ok((st1, v)) => lower_args(st1, args, from + 1, done.push(v)),
        }
    }
}

/// Lowers a statement at the cursor.
pub open spec fn lower_stmt(st: LowerState, s: Stmt) -> Result<LowerState, ErrorView>
    decreases s,
{
    if st.is_terminated() {
        Err(unreachable_code())
    } else {
        match s {
            Stmt::VarDecl { kind, name, init } => {
                let index = st.next_slot();
                match lower_expr(st.alloc_slot(ScalarType::I32), init) {
                    Err(err) => Err(err),
                    Ok((st1, v)) => {
                        let st2 = st1.emit(InstrView::Store { slot: index, value: v });
                        if st2.scopes.last().dom().contains(name@) {
                            Err(duplicate_binding(name@))
                        } else {
                            Ok(
                                st2.declare(
                                    name@,
                                    Slot { index, ty: ScalarType::I32, mutable: is_mutable(kind) },
                                ),
                            )
                        }
                    },
                }
            },
            Stmt::Expr(e) => match lower_expr(st, e) {
                Err(err) => Err(err),
                Ok((st1, _)) => Ok(st1),
            },
            Stmt::Block(stmts) => match lower_stmts(st.push_scope(), stmts@, 0) {
                Err(err) => Err(err),
                Ok(st1) => Ok(st1.pop_scope()),
            },
            Stmt::If { cond, then_branch, else_branch } => match lower_expr(st, cond) {
                Err(err) => Err(err),
                Ok((st1, c)) => {
                    let then_block = st1.next_block();
                    let st2 = st1.new_block(Label::Then);
                    match else_branch {
                        None => {
                            let merge = st2.next_block();
                            let st3 = st2.new_block(Label::Merge).terminate(
                                Terminator::Branch { cond: c, then_block, else_block: merge },
                            ).position_at(then_block);
                            match lower_stmt(st3, *then_branch) {
                                Err(err) => Err(err),
                                Ok(st4) => Ok(st4.close(merge).position_at(merge)),
                            }
                        },
                        Some(alt) => {
                            let else_block = st2.next_block();
                            let st3 = st2.new_block(Label::Else);
                            let merge = st3.next_block();
                            let st4 = st3.new_block(Label::Merge).terminate(
                                Terminator::Branch { cond: c, then_block, else_block },
                            ).position_at(then_block);
                            match lower_stmt(st4, *then_branch) {
                                Err(err) => Err(err),
                                Ok(st5) => match lower_stmt(
                                    st5.close(merge).position_at(else_block),
                                    *alt,
                                ) {
                                    Err(err) => Err(err),
                                    Ok(st6) => Ok(st6.close(merge).position_at(merge)),
                                },
                            }
                        },
                    }
                },
            },
            Stmt::While { cond, body } => {
                let cond_block = st.next_block();
                let st1 = st.new_block(Label::Cond);
                let body_block = st1.next_block();
                let st2 = st1.new_block(Label::Body);
                let after = st2.next_block();
                let st3 = st2.new_block(Label::After).terminate(
                    Terminator::Jump(cond_block),
                ).position_at(cond_block);
                match lower_expr(st3, cond) {
                    Err(err) => Err(err),
                    Ok((st4, c)) => {
                        let st5 = st4.terminate(
                            Terminator::Branch { cond: c, then_block: body_block, else_block: after },
                        ).position_at(body_block);
                        match lower_stmt(st5, *body) {
                            Err(err) => Err(err),
                            Ok(st6) => Ok(st6.close(cond_block).position_at(after)),
                        }
                    },
                }
            },
            Stmt::Return(None) => Ok(st.terminate(Terminator::Return(Value::Const(0)))),
            Stmt::Return(Some(e)) => match lower_expr(st, e) {
                Err(err) => Err(err),
                Ok((st1, v)) => Ok(st1.terminate(Terminator::Return(v))),
            },
            Stmt::Unsupported(what) => Err(unsupported_construct(what@)),
        }
    }
}

/// Lowers the statements `stmts[from..]` in order, stopping at the first
/// error.
pub open spec fn lower_stmts(st: LowerState, stmts: Seq<Stmt>, from: nat) -> Result<
    LowerState,
    ErrorView,
>
    decreases stmts, stmts.len() - from,
{
    if from >= stmts.len() {
        Ok(st)
    } else {
        match lower_stmt(st, stmts[from as int]) {
            Err(err) => Err(err),
            Ok(st1) => lower_stmts(st1, stmts, from + 1),
        }
    }
}

/// Lowers one item of a module: a module declaration is refused.
pub open spec fn lower_item(st: LowerState, item: ModuleItem) -> Result<LowerState, ErrorView> {
    match item {
        ModuleItem::ModuleDecl => Err(unsupported_construct("module declaration"@)),
        ModuleItem::Stmt(s) => lower_stmt(st, s),
    }
}

/// Lowers the items `items[from..]` in order, stopping at the first error.
pub open spec fn lower_items(st: LowerState, items: Seq<ModuleItem>, from: nat) -> Result<
    LowerState,
    ErrorView,
>
    decreases items.len() - from,
{
    if from >= items.len() {
        Ok(st)
    } else {
        match lower_item(st, items[from as int]) {
            Err(err) => Err(err),
            Ok(st1) => lower_items(st1, items, from + 1),
        }
    }
}

/// Whether any of `items` is a module declaration.
pub open spec fn has_module_decl(items: Seq<ModuleItem>) -> bool {
    exists|i: int| 0 <= i < items.len() && items[i] is ModuleDecl
}

/// Whether `program` is a module that holds a module declaration.
pub open spec fn holds_module_decl(program: Program) -> bool {
    match program {
        Program::Module(module) => has_module_decl(module.body@),
        Program::Script(_) => false,
    }
}

/// Lowers the body of a program. A module that holds a module declaration
/// anywhere is refused before any of its statements is lowered.
pub open spec fn lower_program(st: LowerState, program: Program) -> Result<LowerState, ErrorView> {
    match program {
        Program::Script(script) => lower_stmts(st, script.body@, 0),
        Program::Module(module) => if has_module_decl(module.body@) {
            Err(unsupported_construct("module declaration"@))
        } else {
            lower_items(st, module.body@, 0)
        },
    }
}

/// Compiles a program into the function under construction: lowers its
/// body, then appends the implicit return.
pub open spec fn compile_program(st: LowerState, program: Program) -> Result<LowerState, ErrorView> {
    match lower_program(st, program) {
        Err(err) => Err(err),
        Ok(st1) => Ok(st1.finish()),
    }
}

} // verus!
