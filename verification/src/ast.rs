//! The syntax tree the compiler consumes: the supported statement and
//! expression forms of the source language.

use vstd::prelude::*;

verus! {

/// A binary operator over the 32-bit integer domain.
#[derive(Clone, Copy, Debug, PartialEq, Eq, Structural)]
pub enum BinaryOp {
    Add,
    Sub,
    Mul,
    Div,
    Rem,
    Lt,
    Le,
    Gt,
    Ge,
    Eq,
    Ne,
}

/// The keyword a variable was declared with.
#[derive(Clone, Copy, Debug, PartialEq, Eq, Structural)]
pub enum VarKind {
    Let,
    Const,
    Var,
}

/// An expression; lowering one yields exactly one value.
#[derive(Debug)]
pub enum Expr {
    /// A numeric literal.
    Num(i32),
    /// A reference to a variable.
    Ident(String),
    /// `target = value`, itself an expression with the assigned value.
    Assign { target: String, value: Box<Expr> },
    /// `left op right`, operands evaluated left before right.
    Binary { op: BinaryOp, left: Box<Expr>, right: Box<Expr> },
    /// `callee(args..)`, where `callee` must name a builtin.
    Call { callee: String, args: Vec<Expr> },
    /// An expression form outside the supported subset, by its description.
    Unsupported(String),
}

/// A statement.
#[derive(Debug)]
pub enum Stmt {
    /// `let`/`const`/`var name = init;`
    VarDecl { kind: VarKind, name: String, init: Expr },
    /// An expression evaluated for its effects.
    Expr(Expr),
    /// `{ .. }`, which opens a scope of its own.
    Block(Vec<Stmt>),
    /// `if (cond) then_branch else else_branch`
    If { cond: Expr, then_branch: Box<Stmt>, else_branch: Option<Box<Stmt>> },
    /// `while (cond) body`
    While { cond: Expr, body: Box<Stmt> },
    /// `return;` or `return value;`
    Return(Option<Expr>),
    /// A statement form outside the supported subset, by its description.
    Unsupported(String),
}

/// One top-level item of a module.
#[derive(Debug)]
pub enum ModuleItem {
    /// An import or export declaration; never compiled.
    ModuleDecl,
    Stmt(Stmt),
}

/// A script: statements in source order.
#[derive(Debug)]
pub struct Script {
    pub body: Vec<Stmt>,
}

/// A module: statements and module declarations in source order.
#[derive(Debug)]
pub struct EsModule {
    pub body: Vec<ModuleItem>,
}

/// The root of a syntax tree.
#[derive(Debug)]
pub enum Program {
    Module(EsModule),
    Script(Script),
}

/// True when a variable declared with `kind` may be assigned to later.
pub open spec fn is_mutable(kind: VarKind) -> bool {
    !(kind is Const)
}

/// Whether a variable declared with `kind` may be assigned to later.
pub fn allows_assignment(kind: VarKind) -> (r: bool)
    ensures
        r == is_mutable(kind),
{
    match kind {
        VarKind::Const => false,
        _ => true,
    }
}

} // verus!
