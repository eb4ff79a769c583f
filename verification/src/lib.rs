//! An ahead-of-time compiler for a small ECMAScript subset over 32-bit
//! integers.
//!
//! A parsed program is lowered, statement by statement, into one function
//! `main` of a block-structured intermediate representation; the finished
//! module is then emitted into LLVM.
//!
//! - [`ast`]: the syntax tree that is compiled.
//! - [`ir`]: the intermediate representation, and what makes a function of
//!   it well formed.
//! - [`symbols`]: the stack of scopes that maps names to stack slots.
//! - [`lower`]: what lowering means, as a function from state to state.
//! - [`invariants`]: what every step of lowering keeps true.
//! - [`compiler`]: the compiler itself.
//! - [`eval`]: what a function of the representation computes.
//! - [`meaning`]: what expressions and statements mean.
//! - [`growth`]: how the function under construction grows.
//! - [`correctness`]: that a compiled function computes what its program
//!   means.
//! - [`laws`]: further laws of compiling and running.
//! - [`emit`]: emission into LLVM.
//! - [`stack`]: the stack slots of an emitted function.
//! - [`error`]: the errors.

pub mod ast;
pub mod compiler;
pub mod correctness;
pub mod emit;
pub mod error;
pub mod eval;
pub mod growth;
pub mod invariants;
pub mod ir;
pub mod laws;
pub mod lower;
pub mod meaning;
pub mod stack;
pub mod symbols;
