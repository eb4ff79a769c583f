//! Errors reported by the compiler.

use vstd::prelude::*;

verus! {

/// The kinds of failure a compilation can end in.
#[derive(Clone, Copy, Debug, PartialEq, Eq, Structural)]
pub enum ErrorKind {
    /// Lowering was asked for before the entry point existed.
    MissingEntryPoint,
    /// A syntactic form that is recognised but deliberately not compiled.
    UnsupportedConstruct,
    /// A name was declared twice in one scope.
    DuplicateBinding,
    /// A name was used that no active scope binds.
    UndefinedVariable,
    /// An immutable binding was the target of an assignment.
    AssignToConst,
    /// A statement follows one that already ended its block.
    UnreachableCode,
    /// A call names a function that is not a builtin.
    UnknownFunction,
}

/// A compilation failure: its kind, and the name or description it is about
/// (empty for the kinds that have none).
#[derive(Clone, Debug, PartialEq, Eq)]
pub struct CompilerError {
    pub kind: ErrorKind,
    pub detail: String,
}

/// The mathematical value of a [`CompilerError`].
pub struct ErrorView {
    pub kind: ErrorKind,
    pub detail: Seq<char>,
}

impl View for CompilerError {
    type V = ErrorView;

    open spec fn view(&self) -> ErrorView {
        ErrorView { kind: self.kind, detail: self.detail@ }
    }
}

/// Lowering was asked for before the entry point existed.
pub open spec fn missing_entry_point() -> ErrorView {
    ErrorView { kind: ErrorKind::MissingEntryPoint, detail: Seq::empty() }
}

/// A statement follows one that ended its block.
pub open spec fn unreachable_code() -> ErrorView {
    ErrorView { kind: ErrorKind::UnreachableCode, detail: Seq::empty() }
}

/// The form described is not compiled.
pub open spec fn unsupported_construct(description: Seq<char>) -> ErrorView {
    ErrorView { kind: ErrorKind::UnsupportedConstruct, detail: description }
}

/// `name` is bound in the innermost scope already.
pub open spec fn duplicate_binding(name: Seq<char>) -> ErrorView {
    ErrorView { kind: ErrorKind::DuplicateBinding, detail: name }
}

/// No open scope binds `name`.
pub open spec fn undefined_variable(name: Seq<char>) -> ErrorView {
    ErrorView { kind: ErrorKind::UndefinedVariable, detail: name }
}

/// `name` may not be assigned to.
pub open spec fn assign_to_const(name: Seq<char>) -> ErrorView {
    ErrorView { kind: ErrorKind::AssignToConst, detail: name }
}

/// `name` is no builtin taking the arguments given.
pub open spec fn unknown_function(name: Seq<char>) -> ErrorView {
    ErrorView { kind: ErrorKind::UnknownFunction, detail: name }
}

impl CompilerError {
    /// An error of a kind that names nothing.
    pub fn bare(kind: ErrorKind) -> (e: CompilerError)
        ensures
            e@ == (ErrorView { kind, detail: Seq::empty() }),
    {
        CompilerError { kind, detail: String::new() }
    }

    /// An error of `kind` about the name or description `detail`.
    pub fn about(kind: ErrorKind, detail: &String) -> (e: CompilerError)
        ensures
            e@ == (ErrorView { kind, detail: detail@ }),
    {
        CompilerError { kind, detail: detail.clone() }
    }

    /// The one-line text shown for any compilation failure.
    pub fn to_text(&self) -> (text: String)
        ensures
            text@ == "An error occurred while compiling"@,
    {
        "An error occurred while compiling".to_owned()
    }
}

} // verus!
