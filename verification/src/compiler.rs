//! The compiler: it synthesises the `main` entry point, then lowers a
//! program's statements into it.

use vstd::prelude::*;
use crate::ast;
use crate::ast::{allows_assignment, Expr, ModuleItem, Program, Script, Stmt};
use crate::error::{missing_entry_point, CompilerError, ErrorKind, ErrorView};
use crate::growth::{bounded, lemma_function_bounded};
use crate::invariants::{
    advances, extends, lemma_advances_trans, lemma_alloc_slot, lemma_declare, lemma_emit,
    lemma_entry_state, lemma_extends_advances, lemma_extends_refl, lemma_extends_trans, lemma_extends_usable,
    lemma_lookup_slot, lemma_new_block, lemma_pop_scope, lemma_position_at, lemma_push_scope,
    lemma_settled_is_well_formed, lemma_terminate,
};
use crate::ir;
use crate::laws::lemma_compile_program_has_entry;
use crate::ir::{
    empty_block, Function, FunctionView, Instr, Intrinsic, Label, ModuleView, ScalarType,
    Terminator, Value,
};
use crate::lower;
use crate::lower::{has_module_decl, holds_module_decl, LowerState};
use crate::symbols::{lookup, Frame, Slot, SymbolTable};

verus! {

/// Compiles one program into a module with a single function `main`.
#[derive(Debug)]
pub struct Compiler {
    module: ir::IrModule,
    cursor: usize,
    variables: SymbolTable,
    main_fn: Option<usize>,
}

/// The mathematical value of a [`Compiler`]: the module built so far, the
/// block of `main` the cursor stands in, the open scopes, and the index
/// of `main` in the module once it exists.
pub struct CompilerView {
    pub module: ModuleView,
    pub cursor: usize,
    pub scopes: Seq<Frame>,
    pub main_fn: Option<usize>,
}

impl CompilerView {
    /// The state lowering works on, once `main` exists.
    pub open spec fn state(self) -> LowerState {
        LowerState { func: self.module.functions[0], cursor: self.cursor, scopes: self.scopes }
    }

    /// Validity: a scope is open; until `main` exists the module is empty
    /// and nothing is bound; from then on the module holds `main` alone,
    /// in order.
    pub open spec fn wf(self) -> bool {
        &&& self.scopes.len() >= 1
        &&& match self.main_fn {
            None => self.module.functions.len() == 0 && self.scopes == seq![
                Map::<Seq<char>, Slot>::empty(),
            ],
            Some(f) => f == 0 && self.module.functions.len() == 1 && self.state().inv(),
        }
    }

    /// Valid, and `main` exists.
    pub open spec fn ready(self) -> bool {
        self.wf() && self.main_fn is Some
    }
}

/// A fresh compiler: a module named `main` without functions, and the
/// outermost scope open.
pub open spec fn fresh() -> CompilerView {
    CompilerView {
        module: ModuleView { name: "main"@, functions: Seq::empty() },
        cursor: 0,
        scopes: seq![Map::empty()],
        main_fn: None,
    }
}

/// The function `main` as the entry-point synthesis leaves it: no slot,
/// and one empty block `entry`.
pub open spec fn entry_function() -> FunctionView {
    FunctionView {
        name: "main"@,
        slots: Seq::empty(),
        blocks: seq![empty_block(Label::Entry)],
    }
}

/// The compiler `c` after the entry-point synthesis: the module holds
/// `main`, and the cursor stands in its block `entry`.
pub open spec fn with_entry_point(c: CompilerView) -> CompilerView {
    CompilerView {
        module: ModuleView { functions: seq![entry_function()], ..c.module },
        cursor: 0,
        main_fn: Some(0usize),
        ..c
    }
}

/// `after` is a valid compiler for the module and entry point of `before`.
pub open spec fn kept(before: CompilerView, after: CompilerView) -> bool {
    &&& after.wf()
    &&& after.main_fn == before.main_fn
    &&& after.module.name == before.module.name
}

/// How a lowering operation answers: without an entry point it fails
/// with `MissingEntryPoint` and changes nothing; with one, it succeeds
/// exactly when `outcome` does, in the state `outcome` gives, and fails
/// with the error `outcome` gives otherwise.
pub open spec fn answers(
    before: CompilerView,
    outcome: Result<LowerState, ErrorView>,
    after: CompilerView,
    r: Result<(), CompilerError>,
) -> bool {
    match r {
        Ok(()) => before.main_fn is Some && outcome == Ok::<LowerState, ErrorView>(after.state()),
        Err(err) => if before.main_fn is None {
            err@ == missing_entry_point() && after == before
        } else {
            outcome == Err::<LowerState, ErrorView>(err@)
        },
    }
}

impl View for Compiler {
    type V = CompilerView;

    closed spec fn view(&self) -> CompilerView {
        CompilerView {
            module: self.module@,
            cursor: self.cursor,
            scopes: self.variables@,
            main_fn: self.main_fn,
        }
    }
}

/// Whether any of `items` is a module declaration.
fn contains_module_decl(items: &Vec<ModuleItem>) -> (r: bool)
    ensures
        r == has_module_decl(items@),
{
    let mut i: usize = 0;
    while i < items.len()
        invariant
            i <= items.len(),
            forall|j: int| 0 <= j < i ==> !(items@[j] is ModuleDecl),
        decreases items.len() - i,
    {
        match &items[i] {
            ModuleItem::ModuleDecl => {
                return true;
            },
            ModuleItem::Stmt(_) => {},
        }
        i += 1;
    }
    false
}

impl Compiler {
    /// A compiler with an empty module named `main`.
    pub fn new() -> (c: Compiler)
        ensures
            c@ == fresh(),
            c@.wf(),
    {
        let c = Compiler {
            module: ir::IrModule { name: "main".to_owned(), functions: Vec::new() },
            cursor: 0,
            variables: SymbolTable::new(),
            main_fn: None,
        };
        assert(c@.module.functions =~= Seq::empty());
        c
    }

    /// Whether the entry point has been synthesised.
    pub fn has_entry_point(&self) -> (r: bool)
        ensures
            r == (self@.main_fn is Some),
    {
        self.main_fn.is_some()
    }

    /// The module as built so far.
    pub fn module(&self) -> (m: &ir::IrModule)
        ensures
            m@ == self@.module,
    {
        &self.module
    }

    /// Hands the module over.
    pub fn into_module(self) -> (m: ir::IrModule)
        ensures
            m@ == self@.module,
    {
        self.module
    }

    /// Creates the function `main`, which takes nothing and returns a
    /// 32-bit integer, with its block `entry`, and puts the cursor there.
    /// It is to be called once, before anything is lowered.
    pub fn compile_main_function(&mut self) -> (r: Result<(), CompilerError>)
        requires
            old(self)@.wf(),
            old(self)@.main_fn is None,
        ensures
            r is Ok,
            final(self)@ == with_entry_point(old(self)@),
            final(self)@.wf(),
            final(self)@.state().settled(),
            !final(self)@.state().is_terminated(),
    {
        let mut main = Function::new("main".to_owned());
        let entry = main.add_block(Label::Entry);
        assert(main@.blocks =~= seq![empty_block(Label::Entry)]);
        let index = self.module.functions.len();
        self.module.functions.push(main);
        self.cursor = entry;
        self.main_fn = Some(index);
        proof {
            assert(self@.module.functions =~= seq![entry_function()]);
            lemma_entry_state(self@.state(), Label::Entry);
        }
        Ok(())
    }

    /// Compiles `program` into `main`: lowers its statements in source
    /// order, then appends the implicit `return 0` where the last block
    /// has no terminator yet. The first error ends the compilation. A
    /// module that holds a module declaration is refused with nothing
    /// lowered. Where no block was left open before, the `main` of a
    /// successful compilation is well formed. Its sizes fit the machine's
    /// integers. Only a compiler without entry point fails for want of
    /// one.
    pub fn compile(&mut self, program: &Program) -> (r: Result<(), CompilerError>)
        requires
            old(self)@.wf(),
        ensures
            kept(old(self)@, final(self)@),
            answers(
                old(self)@,
                lower::compile_program(old(self)@.state(), *program),
                final(self)@,
                r,
            ),
            holds_module_decl(*program) ==> r is Err && final(self)@ == old(self)@,
            (r matches Err(e) && e@.kind == ErrorKind::MissingEntryPoint) ==> old(self)@.main_fn is None,
            r is Ok ==> final(self)@.state().is_terminated() && bounded(final(self)@.state().func),
            r is Ok && old(self)@.state().settled() ==> final(self)@.state().settled()
                && final(self)@.module.functions[0].well_formed(),
    {
        if self.main_fn.is_none() {
            return Err(CompilerError::bare(ErrorKind::MissingEntryPoint));
        }
        proof {
            lemma_compile_program_has_entry(self@.state(), *program);
        }
        let lowered = match program {
            Program::Module(module) => self.compile_module(module),
            Program::Script(script) => self.compile_script(script),
        };
        match lowered {
            Err(err) => Err(err),
            Ok(()) => {
                let ghost mid = self@.state();
                if !self.is_terminated() {
                    self.terminate(Terminator::Return(Value::Const(0)));
                }
                proof {
                    lemma_function_bounded(&self.module.functions[0]);
                    if old(self)@.state().settled() {
                        assert forall|b: int| !self@.state().dangling(b) by {
                            if self@.state().dangling(b) {
                                assert(mid.dangling(b));
                                assert(old(self)@.state().dangling(b));
                            }
                        }
                        lemma_settled_is_well_formed(self@.state());
                    }
                }
                Ok(())
            },
        }
    }

    /// Lowers the statements of a script in order.
    pub fn compile_script(&mut self, script: &Script) -> (r: Result<(), CompilerError>)
        requires
            old(self)@.wf(),
        ensures
            kept(old(self)@, final(self)@),
            answers(
                old(self)@,
                lower::lower_stmts(old(self)@.state(), script.body@, 0),
                final(self)@,
                r,
            ),
            r is Ok ==> advances(old(self)@.state(), final(self)@.state()),
    {
        if self.main_fn.is_none() {
            return Err(CompilerError::bare(ErrorKind::MissingEntryPoint));
        }
        self.lower_stmts(&script.body)
    }

    /// Lowers the statements of a module in order. A module that holds a
    /// module declaration anywhere is refused before anything is lowered.
    pub fn compile_module(&mut self, module: &ast::EsModule) -> (r: Result<(), CompilerError>)
        requires
            old(self)@.wf(),
        ensures
            kept(old(self)@, final(self)@),
            answers(
                old(self)@,
                lower::lower_program(old(self)@.state(), Program::Module(*module)),
                final(self)@,
                r,
            ),
            r is Ok ==> advances(old(self)@.state(), final(self)@.state()),
            old(self)@.main_fn is Some && has_module_decl(module.body@) ==> final(self)@ == old(
                self,
            )@,
    {
        if self.main_fn.is_none() {
            return Err(CompilerError::bare(ErrorKind::MissingEntryPoint));
        }
        if contains_module_decl(&module.body) {
            return Err(
                CompilerError::about(ErrorKind::UnsupportedConstruct, &"module declaration".to_owned()),
            );
        }
        let ghost start = self@.state();
        let mut i: usize = 0;
        proof {
            lemma_extends_refl(start);
            lemma_extends_advances(start, start);
        }
        while i < module.body.len()
            invariant
                i <= module.body.len(),
                self@.ready(),
                kept(old(self)@, self@),
                start == old(self)@.state(),
                !has_module_decl(module.body@),
                lower::lower_items(start, module.body@, 0) == lower::lower_items(
                    self@.state(),
                    module.body@,
                    i as nat,
                ),
                advances(start, self@.state()),
            decreases module.body.len() - i,
        {
            let ghost before = self@.state();
            match self.compile_module_item(&module.body[i]) {
                Err(err) => {
                    return Err(err);
                },
                Ok(()) => {},
            }
            proof {
                lemma_advances_trans(start, before, self@.state());
            }
            i += 1;
        }
        Ok(())
    }

    /// Lowers one item of a module: a module declaration is refused and
    /// changes nothing, a statement is lowered.
    pub fn compile_module_item(&mut self, item: &ModuleItem) -> (r: Result<(), CompilerError>)
        requires
            old(self)@.wf(),
        ensures
            kept(old(self)@, final(self)@),
            answers(old(self)@, lower::lower_item(old(self)@.state(), *item), final(self)@, r),
            r is Ok ==> advances(old(self)@.state(), final(self)@.state()),
            *item is ModuleDecl ==> r is Err && final(self)@ == old(self)@,
    {
        if self.main_fn.is_none() {
            return Err(CompilerError::bare(ErrorKind::MissingEntryPoint));
        }
        match item {
            ModuleItem::ModuleDecl => Err(
                CompilerError::about(ErrorKind::UnsupportedConstruct, &"module declaration".to_owned()),
            ),
            ModuleItem::Stmt(stmt) => self.lower_stmt(stmt),
        }
    }

    /// Lowers one statement at the cursor. A statement that follows a
    /// `return` in its block is refused as unreachable. A statement that
    /// is only a name that no scope binds fails with nothing emitted and
    /// nothing bound. After the failure of an expression statement or of
    /// a `return`, the cursor's block holds what it held, and at most what
    /// was emitted for the parts of the expression before the one that
    /// failed; nothing else has changed.
    pub fn compile_statement(&mut self, statement: &Stmt) -> (r: Result<(), CompilerError>)
        requires
            old(self)@.wf(),
        ensures
            kept(old(self)@, final(self)@),
            answers(old(self)@, lower::lower_stmt(old(self)@.state(), *statement), final(self)@, r),
            r is Ok ==> advances(old(self)@.state(), final(self)@.state()) && bounded(
                final(self)@.state().func,
            ),
            r is Ok && *statement is Block ==> final(self)@.scopes == old(self)@.scopes,
            (*statement matches Stmt::Expr(Expr::Ident(name)) && lookup(old(self)@.scopes, name@) is None)
                ==> r is Err && final(self)@ == old(self)@,
            r is Err && (*statement is Expr || *statement is Return) ==> extends(
                old(self)@.state(),
                final(self)@.state(),
            ),
    {
        proof {
            lemma_extends_refl(self@.state());
        }
        if self.main_fn.is_none() {
            return Err(CompilerError::bare(ErrorKind::MissingEntryPoint));
        }
        let r = self.lower_stmt(statement);
        proof {
            lemma_function_bounded(&self.module.functions[0]);
        }
        r
    }

    /// Lowers one expression at the cursor and returns its value. In a
    /// block that has its terminator the expression is unreachable. A
    /// reference to a name that no scope binds fails before anything is
    /// emitted for it: after any failure the cursor's block holds what it
    /// held, and at most what was emitted for the parts of the expression
    /// before the one that failed; nothing else has changed.
    pub fn compile_expression(&mut self, expression: &Expr) -> (r: Result<Value, CompilerError>)
        requires
            old(self)@.wf(),
        ensures
            kept(old(self)@, final(self)@),
            match r {
                Ok(v) => old(self)@.main_fn is Some && !old(self)@.state().is_terminated()
                    && lower::lower_expr(old(self)@.state(), *expression) == Ok::<
                    (LowerState, Value),
                    ErrorView,
                >((final(self)@.state(), v)) && extends(old(self)@.state(), final(self)@.state())
                    && final(self)@.state().usable(v),
                Err(err) => if old(self)@.main_fn is None {
                    err@ == missing_entry_point() && final(self)@ == old(self)@
                } else if old(self)@.state().is_terminated() {
                    err@ == crate::error::unreachable_code() && final(self)@ == old(self)@
                } else {
                    lower::lower_expr(old(self)@.state(), *expression) == Err::<
                        (LowerState, Value),
                        ErrorView,
                    >(err@)
                },
            },
            (*expression matches Expr::Ident(name) && lookup(old(self)@.scopes, name@) is None)
                ==> r is Err && final(self)@ == old(self)@,
            r is Err ==> extends(old(self)@.state(), final(self)@.state()),
    {
        proof {
            lemma_extends_refl(self@.state());
        }
        if self.main_fn.is_none() {
            return Err(CompilerError::bare(ErrorKind::MissingEntryPoint));
        }
        if self.is_terminated() {
            return Err(CompilerError::bare(ErrorKind::UnreachableCode));
        }
        self.lower_expr(expression)
    }

    /// The index of `main` in the module.
    fn main_fn(&self) -> (f: usize)
        requires
            self@.ready(),
        ensures
            f == 0,
    {
        self.main_fn.unwrap()
    }

    /// Whether the cursor's block has its terminator.
    fn is_terminated(&self) -> (r: bool)
        requires
            self@.ready(),
        ensures
            r == self@.state().is_terminated(),
    {
        let f = self.main_fn();
        self.module.functions[f].is_terminated(self.cursor)
    }

    /// Appends `instr` at the cursor and gives the value it defines.
    fn emit(&mut self, instr: Instr) -> (v: Value)
        requires
            old(self)@.ready(),
            old(self)@.state().fits(instr@),
        ensures
            kept(old(self)@, final(self)@),
            final(self)@.state() == old(self)@.state().emit(instr@),
            v == old(self)@.state().next_value(),
            extends(old(self)@.state(), final(self)@.state()),
            instr@.has_result() ==> final(self)@.state().usable(v),
    {
        let f = self.main_fn();
        let ghost before = self@.state();
        let ghost shown = instr@;
        let index = self.module.functions[f].push_instr(self.cursor, instr);
        proof {
            assert(self@.module.functions[0] == before.emit(shown).func);
            lemma_emit(before, shown);
        }
        Value::Inst { block: self.cursor, index }
    }

    /// Ends the cursor's block, which has no terminator yet, with `term`.
    fn terminate(&mut self, term: Terminator)
        requires
            old(self)@.ready(),
            !old(self)@.state().is_terminated(),
            old(self)@.state().fits_term(term),
        ensures
            kept(old(self)@, final(self)@),
            final(self)@.state() == old(self)@.state().terminate(term),
    {
        let f = self.main_fn();
        let ghost before = self@.state();
        self.module.functions[f].set_terminator(self.cursor, term);
        proof {
            assert(self@.module.functions[0] == before.terminate(term).func);
            lemma_terminate(before, term);
        }
    }

    /// Ends the cursor's block with a jump to `target`, unless it has a
    /// terminator already.
    fn close(&mut self, target: usize)
        requires
            old(self)@.ready(),
            target < old(self)@.state().func.blocks.len(),
        ensures
            kept(old(self)@, final(self)@),
            final(self)@.state() == old(self)@.state().close(target),
    {
        if !self.is_terminated() {
            self.terminate(Terminator::Jump(target));
        }
    }

    /// Creates an empty block and gives its index; the cursor stays.
    fn new_block(&mut self, label: Label) -> (block: usize)
        requires
            old(self)@.ready(),
        ensures
            kept(old(self)@, final(self)@),
            final(self)@.state() == old(self)@.state().new_block(label),
            block == old(self)@.state().next_block(),
            block == old(self)@.state().func.blocks.len(),
    {
        let f = self.main_fn();
        let ghost before = self@.state();
        let block = self.module.functions[f].add_block(label);
        proof {
            assert(self@.module.functions[0] == before.new_block(label).func);
            lemma_new_block(before, label);
        }
        block
    }

    /// Moves the cursor to block `block`.
    fn position_at(&mut self, block: usize)
        requires
            old(self)@.ready(),
            block < old(self)@.state().func.blocks.len(),
        ensures
            kept(old(self)@, final(self)@),
            final(self)@.state() == old(self)@.state().position_at(block),
    {
        proof {
            lemma_position_at(self@.state(), block);
        }
        self.cursor = block;
    }

    /// Allocates a stack slot and gives its index.
    fn alloc_slot(&mut self, ty: ScalarType) -> (slot: usize)
        requires
            old(self)@.ready(),
        ensures
            kept(old(self)@, final(self)@),
            final(self)@.state() == old(self)@.state().alloc_slot(ty),
            slot == old(self)@.state().next_slot(),
            slot == old(self)@.state().func.slots.len(),
    {
        let f = self.main_fn();
        let ghost before = self@.state();
        let slot = self.module.functions[f].add_slot(ty);
        proof {
            assert(self@.module.functions[0] == before.alloc_slot(ty).func);
            lemma_alloc_slot(before, ty);
        }
        slot
    }

    /// Lowers an expression at the cursor, whose block has no terminator,
    /// and gives its value.
    fn lower_expr(&mut self, e: &Expr) -> (r: Result<Value, CompilerError>)
        requires
            old(self)@.ready(),
        ensures
            kept(old(self)@, final(self)@),
            match r {
                Ok(v) => lower::lower_expr(old(self)@.state(), *e) == Ok::<
                    (LowerState, Value),
                    ErrorView,
                >((final(self)@.state(), v)) && extends(old(self)@.state(), final(self)@.state())
                    && final(self)@.state().usable(v),
                Err(err) => lower::lower_expr(old(self)@.state(), *e) == Err::<
                    (LowerState, Value),
                    ErrorView,
                >(err@),
            },
            (*e matches Expr::Ident(name) && lookup(old(self)@.scopes, name@) is None) ==> r is Err
                && final(self)@ == old(self)@,
            r is Err ==> extends(old(self)@.state(), final(self)@.state()),
        decreases e,
    {
        let ghost st0 = self@.state();
        proof {
            lemma_extends_refl(st0);
        }
        match e {
            Expr::Num(n) => {
                proof {
                    lemma_extends_refl(st0);
                }
                Ok(Value::Const(*n))
            },
            Expr::Ident(name) => match self.variables.resolve(name) {
                Err(err) => Err(err),
                Ok(slot) => {
                    proof {
                        lemma_lookup_slot(st0, name@);
                    }
                    let v = self.emit(Instr::Load { slot: slot.index });
                    Ok(v)
                },
            },
            Expr::Assign { target, value } => {
                let v = match self.lower_expr(value) {
                    Ok(v) => v,
                    Err(err) => {
                        return Err(err);
                    },
                };
                let ghost st1 = self@.state();
                match self.variables.resolve(target) {
                    Err(err) => Err(err),
                    Ok(slot) => {
                        if slot.mutable {
                            proof {
                                lemma_lookup_slot(st1, target@);
                            }
                            self.emit(Instr::Store { slot: slot.index, value: v });
                            proof {
                                lemma_extends_trans(st0, st1, self@.state());
                                lemma_extends_usable(st1, self@.state(), v);
                            }
                            Ok(v)
                        } else {
                            Err(CompilerError::about(ErrorKind::AssignToConst, target))
                        }
                    },
                }
            },
            Expr::Binary { op, left, right } => {
                let lhs = match self.lower_expr(left) {
                    Ok(v) => v,
                    Err(err) => {
                        return Err(err);
                    },
                };
                let ghost st1 = self@.state();
                let rhs = match self.lower_expr(right) {
                    Ok(v) => v,
                    Err(err) => {
                        proof {
                            lemma_extends_trans(st0, st1, self@.state());
                        }
                        return Err(err);
                    },
                };
                let ghost st2 = self@.state();
                proof {
                    lemma_extends_usable(st1, st2, lhs);
                }
                let v = self.emit(Instr::Binary { op: *op, lhs, rhs });
                proof {
                    lemma_extends_trans(st0, st1, st2);
                    lemma_extends_trans(st0, st2, self@.state());
                }
                Ok(v)
            },
            Expr::Call { callee, args } => match Intrinsic::find(callee, args.len()) {
                None => Err(CompilerError::about(ErrorKind::UnknownFunction, callee)),
                Some(f) => {
                    let values = match self.lower_args(args) {
                        Ok(values) => values,
                        Err(err) => {
                            return Err(err);
                        },
                    };
                    let ghost st1 = self@.state();
                    let v = self.emit(Instr::Call { callee: f, args: values });
                    proof {
                        lemma_extends_trans(st0, st1, self@.state());
                    }
                    Ok(v)
                },
            },
            Expr::Unsupported(what) => Err(
                CompilerError::about(ErrorKind::UnsupportedConstruct, what),
            ),
        }
    }

    /// Lowers arguments left to right and gives their values.
    fn lower_args(&mut self, args: &Vec<Expr>) -> (r: Result<Vec<Value>, CompilerError>)
        requires
            old(self)@.ready(),
        ensures
            kept(old(self)@, final(self)@),
            match r {
                Ok(values) => lower::lower_args(old(self)@.state(), args@, 0, Seq::empty()) == Ok::<
                    (LowerState, Seq<Value>),
                    ErrorView,
                >((final(self)@.state(), values@)) && extends(
                    old(self)@.state(),
                    final(self)@.state(),
                ) && values@.len() == args@.len() && forall|k: int|
                    0 <= k < values@.len() ==> final(self)@.state().usable(#[trigger] values@[k]),
                Err(err) => lower::lower_args(old(self)@.state(), args@, 0, Seq::empty()) == Err::<
                    (LowerState, Seq<Value>),
                    ErrorView,
                >(err@),
            },
            r is Err ==> extends(old(self)@.state(), final(self)@.state()),
        decreases args,
    {
        let ghost start = self@.state();
        let mut values: Vec<Value> = Vec::new();
        let mut i: usize = 0;
        proof {
            lemma_extends_refl(start);
        }
        while i < args.len()
            invariant
                i <= args.len(),
                self@.ready(),
                kept(old(self)@, self@),
                start == old(self)@.state(),
                lower::lower_args(start, args@, 0, Seq::empty()) == lower::lower_args(
                    self@.state(),
                    args@,
                    i as nat,
                    values@,
                ),
                extends(start, self@.state()),
                values@.len() == i,
                forall|k: int| 0 <= k < values@.len() ==> self@.state().usable(#[trigger] values@[k]),
            decreases args.len() - i,
        {
            let ghost before = self@.state();
            let ghost seen = values@;
            match self.lower_expr(&args[i]) {
                Err(err) => {
                    proof {
                        lemma_extends_trans(start, before, self@.state());
                    }
                    return Err(err);
                },
                Ok(v) => {
                    values.push(v);
                },
            }
            proof {
                lemma_extends_trans(start, before, self@.state());
                assert forall|k: int| 0 <= k < values@.len() implies self@.state().usable(
                    #[trigger] values@[k],
                ) by {
                    if k < seen.len() {
                        assert(before.usable(seen[k]));
                        lemma_extends_usable(before, self@.state(), seen[k]);
                    }
                }
            }
            i += 1;
        }
        Ok(values)
    }

    /// Lowers statements in order, stopping at the first error.
    fn lower_stmts(&mut self, stmts: &Vec<Stmt>) -> (r: Result<(), CompilerError>)
        requires
            old(self)@.ready(),
        ensures
            kept(old(self)@, final(self)@),
            match r {
                Ok(()) => lower::lower_stmts(old(self)@.state(), stmts@, 0) == Ok::<
                    LowerState,
                    ErrorView,
                >(final(self)@.state()) && advances(old(self)@.state(), final(self)@.state()),
                Err(err) => lower::lower_stmts(old(self)@.state(), stmts@, 0) == Err::<
                    LowerState,
                    ErrorView,
                >(err@),
            },
        decreases stmts,
    {
        let ghost start = self@.state();
        let mut i: usize = 0;
        proof {
            lemma_extends_refl(start);
            lemma_extends_advances(start, start);
        }
        while i < stmts.len()
            invariant
                i <= stmts.len(),
                self@.ready(),
                kept(old(self)@, self@),
                start == old(self)@.state(),
                lower::lower_stmts(start, stmts@, 0) == lower::lower_stmts(
                    self@.state(),
                    stmts@,
                    i as nat,
                ),
                advances(start, self@.state()),
            decreases stmts.len() - i,
        {
            let ghost before = self@.state();
            match self.lower_stmt(&stmts[i]) {
                Err(err) => {
                    return Err(err);
                },
                Ok(()) => {},
            }
            proof {
                lemma_advances_trans(start, before, self@.state());
            }
            i += 1;
        }
        Ok(())
    }

    /// Lowers a statement at the cursor.
    fn lower_stmt(&mut self, s: &Stmt) -> (r: Result<(), CompilerError>)
        requires
            old(self)@.ready(),
        ensures
            kept(old(self)@, final(self)@),
            match r {
                Ok(()) => lower::lower_stmt(old(self)@.state(), *s) == Ok::<LowerState, ErrorView>(
                    final(self)@.state(),
                ) && advances(old(self)@.state(), final(self)@.state()),
                Err(err) => lower::lower_stmt(old(self)@.state(), *s) == Err::<LowerState, ErrorView>(
                    err@,
                ),
            },
            r is Ok && *s is Block ==> final(self)@.scopes == old(self)@.scopes,
            (*s matches Stmt::Expr(Expr::Ident(name)) && lookup(old(self)@.scopes, name@) is None)
                ==> r is Err && final(self)@ == old(self)@,
            r is Err && (*s is Expr || *s is Return) ==> extends(
                old(self)@.state(),
                final(self)@.state(),
            ),
        decreases s, 1nat,
    {
        let ghost st0 = self@.state();
        proof {
            lemma_extends_refl(st0);
        }
        if self.is_terminated() {
            return Err(CompilerError::bare(ErrorKind::UnreachableCode));
        }
        match s {
            Stmt::VarDecl { .. } => self.lower_var_decl(s),
            Stmt::Expr(e) => match self.lower_expr(e) {
                Err(err) => Err(err),
                Ok(_) => {
                    proof {
                        lemma_extends_advances(st0, self@.state());
                    }
                    Ok(())
                },
            },
            Stmt::Block(stmts) => {
                proof {
                    lemma_push_scope(st0);
                }
                self.variables.push_scope();
                let ghost st1 = self@.state();
                match self.lower_stmts(stmts) {
                    Err(err) => {
                        return Err(err);
                    },
                    Ok(()) => {},
                }
                let ghost st2 = self@.state();
                proof {
                    lemma_pop_scope(st2);
                }
                self.variables.pop_scope();
                proof {
                    assert(self@.scopes =~= st0.scopes) by {
                        assert forall|k: int| 0 <= k < st0.scopes.len() implies self@.scopes[k]
                            == st0.scopes[k] by {
                            assert(st2.scopes[k] == st1.scopes[k]);
                        }
                    }
                    assert forall|k: int| #[trigger] self@.state().dangling(k) implies st0.dangling(
                        k,
                    ) by {
                        assert(st2.dangling(k));
                        assert(st1.dangling(k));
                    }
                }
                Ok(())
            },
            Stmt::If { .. } => self.lower_if(s),
            Stmt::While { .. } => self.lower_while(s),
            Stmt::Return(None) => {
                self.terminate(Terminator::Return(Value::Const(0)));
                proof {
                    assert(advances(st0, self@.state()));
                }
                Ok(())
            },
            Stmt::Return(Some(e)) => {
                let v = match self.lower_expr(e) {
                    Ok(v) => v,
                    Err(err) => {
                        return Err(err);
                    },
                };
                let ghost st1 = self@.state();
                self.terminate(Terminator::Return(v));
                proof {
                    lemma_extends_advances(st0, st1);
                    assert(advances(st1, self@.state()));
                    lemma_advances_trans(st0, st1, self@.state());
                }
                Ok(())
            },
            Stmt::Unsupported(what) => Err(
                CompilerError::about(ErrorKind::UnsupportedConstruct, what),
            ),
        }
    }

    /// Lowers a declaration: a new slot, the initialiser, the store, then
    /// the binding.
    fn lower_var_decl(&mut self, s: &Stmt) -> (r: Result<(), CompilerError>)
        requires
            old(self)@.ready(),
            !old(self)@.state().is_terminated(),
            *s is VarDecl,
        ensures
            kept(old(self)@, final(self)@),
            match r {
                Ok(()) => lower::lower_stmt(old(self)@.state(), *s) == Ok::<LowerState, ErrorView>(
                    final(self)@.state(),
                ) && advances(old(self)@.state(), final(self)@.state()),
                Err(err) => lower::lower_stmt(old(self)@.state(), *s) == Err::<LowerState, ErrorView>(
                    err@,
                ),
            },
        decreases s, 0nat,
    {
        let ghost st0 = self@.state();
        match s {
            Stmt::VarDecl { kind, name, init } => {
                let index = self.alloc_slot(ScalarType::I32);
                let ghost st1 = self@.state();
                let v = match self.lower_expr(init) {
                    Ok(v) => v,
                    Err(err) => {
                        return Err(err);
                    },
                };
                let ghost st2 = self@.state();
                self.emit(Instr::Store { slot: index, value: v });
                let ghost st3 = self@.state();
                let slot = Slot { index, ty: ScalarType::I32, mutable: allows_assignment(*kind) };
                match self.variables.declare(name.clone(), slot) {
                    Err(err) => Err(err),
                    Ok(()) => {
                        proof {
                            lemma_declare(st3, name@, slot);
                            lemma_extends_trans(st1, st2, st3);
                            lemma_extends_advances(st1, st3);
                            assert(advances(st0, st1));
                            assert(advances(st3, self@.state()));
                            lemma_advances_trans(st0, st1, st3);
                            lemma_advances_trans(st0, st3, self@.state());
                        }
                        Ok(())
                    },
                }
            },
            _ => unreached(),
        }
    }

    /// Lowers an `if`: the condition, a branch, each arm in a block of its
    /// own, and a merge block to go on in.
    fn lower_if(&mut self, s: &Stmt) -> (r: Result<(), CompilerError>)
        requires
            old(self)@.ready(),
            !old(self)@.state().is_terminated(),
            *s is If,
        ensures
            kept(old(self)@, final(self)@),
            match r {
                Ok(()) => lower::lower_stmt(old(self)@.state(), *s) == Ok::<LowerState, ErrorView>(
                    final(self)@.state(),
                ) && advances(old(self)@.state(), final(self)@.state()),
                Err(err) => lower::lower_stmt(old(self)@.state(), *s) == Err::<LowerState, ErrorView>(
                    err@,
                ),
            },
        decreases s, 0nat,
    {
        let ghost st0 = self@.state();
        match s {
            Stmt::If { cond, then_branch, else_branch } => {
                let c = match self.lower_expr(cond) {
                    Ok(v) => v,
                    Err(err) => {
                        return Err(err);
                    },
                };
                let ghost st1 = self@.state();
                let then_block = self.new_block(Label::Then);
                match else_branch {
                    None => {
                        let merge = self.new_block(Label::Merge);
                        self.terminate(
                            Terminator::Branch { cond: c, then_block, else_block: merge },
                        );
                        self.position_at(then_block);
                        let ghost st3 = self@.state();
                        match self.lower_stmt(then_branch) {
                            Err(err) => {
                                return Err(err);
                            },
                            Ok(()) => {},
                        }
                        let ghost st4 = self@.state();
                        self.close(merge);
                        self.position_at(merge);
                        proof {
                            assert forall|k: int| #[trigger]
                                self@.state().dangling(k) implies st0.dangling(k) by {
                                assert(st4.dangling(k));
                                assert(st3.dangling(k));
                                assert(st1.func.blocks[k] == st0.func.blocks[k]);
                            }
                            assert forall|k: int| 0 <= k < st0.scopes.len() - 1 implies #[trigger]
                                self@.state().scopes[k] == st0.scopes[k] by {
                                assert(st4.scopes[k] == st3.scopes[k]);
                            }
                        }
                        Ok(())
                    },
                    Some(alt) => {
                        let else_block = self.new_block(Label::Else);
                        let merge = self.new_block(Label::Merge);
                        self.terminate(Terminator::Branch { cond: c, then_block, else_block });
                        self.position_at(then_block);
                        let ghost st4 = self@.state();
                        match self.lower_stmt(then_branch) {
                            Err(err) => {
                                return Err(err);
                            },
                            Ok(()) => {},
                        }
                        let ghost st5 = self@.state();
                        self.close(merge);
                        self.position_at(else_block);
                        let ghost st5b = self@.state();
                        match self.lower_stmt(alt) {
                            Err(err) => {
                                return Err(err);
                            },
                            Ok(()) => {},
                        }
                        let ghost st6 = self@.state();
                        self.close(merge);
                        self.position_at(merge);
                        proof {
                            assert forall|k: int| #[trigger]
                                self@.state().dangling(k) implies st0.dangling(k) by {
                                assert(st6.dangling(k));
                                assert(st5b.dangling(k));
                                assert(st5.dangling(k));
                                assert(st4.dangling(k));
                                assert(st1.func.blocks[k] == st0.func.blocks[k]);
                            }
                            assert forall|k: int| 0 <= k < st0.scopes.len() - 1 implies #[trigger]
                                self@.state().scopes[k] == st0.scopes[k] by {
                                assert(st6.scopes[k] == st5b.scopes[k]);
                                assert(st5.scopes[k] == st4.scopes[k]);
                            }
                        }
                        Ok(())
                    },
                }
            },
            _ => unreached(),
        }
    }

    /// Lowers a loop: a block for the condition, one for the body, and one
    /// to go on in.
    fn lower_while(&mut self, s: &Stmt) -> (r: Result<(), CompilerError>)
        requires
            old(self)@.ready(),
            !old(self)@.state().is_terminated(),
            *s is While,
        ensures
            kept(old(self)@, final(self)@),
            match r {
                Ok(()) => lower::lower_stmt(old(self)@.state(), *s) == Ok::<LowerState, ErrorView>(
                    final(self)@.state(),
                ) && advances(old(self)@.state(), final(self)@.state()),
                Err(err) => lower::lower_stmt(old(self)@.state(), *s) == Err::<LowerState, ErrorView>(
                    err@,
                ),
            },
        decreases s, 0nat,
    {
        let ghost st0 = self@.state();
        match s {
            Stmt::While { cond, body } => {
                let cond_block = self.new_block(Label::Cond);
                let body_block = self.new_block(Label::Body);
                let after = self.new_block(Label::After);
                self.terminate(Terminator::Jump(cond_block));
                self.position_at(cond_block);
                let ghost st3 = self@.state();
                let c = match self.lower_expr(cond) {
                    Ok(v) => v,
                    Err(err) => {
                        return Err(err);
                    },
                };
                let ghost st4 = self@.state();
                self.terminate(
                    Terminator::Branch { cond: c, then_block: body_block, else_block: after },
                );
                self.position_at(body_block);
                let ghost st5 = self@.state();
                match self.lower_stmt(body) {
                    Err(err) => {
                        return Err(err);
                    },
                    Ok(()) => {},
                }
                let ghost st6 = self@.state();
                self.close(cond_block);
                self.position_at(after);
                proof {
                    assert forall|k: int| #[trigger] self@.state().dangling(k) implies st0.dangling(
                        k,
                    ) by {
                        assert(st6.dangling(k));
                        assert(st5.dangling(k));
                        assert(st4.func.blocks[k] == st3.func.blocks[k]);
                    }
                    assert forall|k: int| 0 <= k < st0.scopes.len() - 1 implies #[trigger]
                        self@.state().scopes[k] == st0.scopes[k] by {
                        assert(st6.scopes[k] == st5.scopes[k]);
                    }
                }
                Ok(())
            },
            _ => unreached(),
        }
    }
}

} // verus!
