//! Emission of a compiled module into LLVM through `inkwell`.
//!
//! The module is walked function by function and block by block. Each
//! instruction, each terminator and each new slot is turned into a short
//! plan of steps, one builder call each, and the steps are handed to an
//! LLVM builder in order. What is planned is stated exactly; what LLVM
//! then holds cannot be stated here.

use vstd::prelude::*;
use inkwell::basic_block::BasicBlock;
use inkwell::builder::{Builder, BuilderError};
use inkwell::context::Context;
use inkwell::types::{FunctionType, IntType};
use inkwell::values::{BasicValueEnum, FunctionValue, IntValue};
use inkwell::IntPredicate;
use crate::ast::BinaryOp;
use crate::stack::{build_alloca, build_load, build_store, StackSlot};
use crate::ir::{
    Function, FunctionView, Instr, InstrView, Intrinsic, IrModule, Label, Terminator, Value,
};

verus! {

/// `inkwell::context::Context`: owns everything LLVM builds. Opaque here.
#[verifier::external_type_specification]
#[verifier::external_body]
pub struct ExContext(inkwell::context::Context);

/// `inkwell::module::Module`: an LLVM module. Opaque here.
#[verifier::external_type_specification]
#[verifier::external_body]
pub struct ExModule<'ctx>(inkwell::module::Module<'ctx>);

/// `inkwell::builder::Builder`: the cursor instructions are built at.
/// Opaque here.
#[verifier::external_type_specification]
#[verifier::external_body]
pub struct ExBuilder<'ctx>(inkwell::builder::Builder<'ctx>);

/// `inkwell::builder::BuilderError`: why the builder refused. Opaque here.
#[verifier::external_type_specification]
#[verifier::external_body]
pub struct ExBuilderError(inkwell::builder::BuilderError);

/// `inkwell::types::IntType`: an integer type of a context. Opaque here.
#[verifier::external_type_specification]
#[verifier::external_body]
pub struct ExIntType<'ctx>(inkwell::types::IntType<'ctx>);

/// `inkwell::types::FunctionType`: a function type. Opaque here.
#[verifier::external_type_specification]
#[verifier::external_body]
pub struct ExFunctionType<'ctx>(inkwell::types::FunctionType<'ctx>);

/// `inkwell::values::FunctionValue`: a function of a module. Opaque here.
#[verifier::external_type_specification]
#[verifier::external_body]
pub struct ExFunctionValue<'ctx>(inkwell::values::FunctionValue<'ctx>);

/// `inkwell::basic_block::BasicBlock`: a block of a function. Opaque here.
#[verifier::external_type_specification]
#[verifier::external_body]
pub struct ExBasicBlock<'ctx>(inkwell::basic_block::BasicBlock<'ctx>);

/// `inkwell::values::IntValue`: a value of an integer type. Opaque here.
#[verifier::external_type_specification]
#[verifier::external_body]
pub struct ExIntValue<'ctx>(inkwell::values::IntValue<'ctx>);


/// `inkwell::IntPredicate`: the comparisons of two integers, by variant.
#[verifier::external_type_specification]
pub struct ExIntPredicate(inkwell::IntPredicate);

/// Why a module was not emitted.
#[derive(Clone, Copy, Debug, PartialEq, Eq, Structural)]
pub enum EmitError {
    /// The module is not well formed.
    Malformed,
    /// LLVM's builder refused an instruction.
    Refused,
}

/// Whether `r` is the refusal of a module that is not well formed.
pub open spec fn malformed<T>(r: Result<T, EmitError>) -> bool {
    r matches Err(e) && e == EmitError::Malformed
}

/// `Context::create_module`: a new, empty module of the context. Nothing
/// is claimed of it.
#[verifier::external_body]
fn create_module<'ctx>(context: &'ctx Context, name: &str) -> (module: inkwell::module::Module<'ctx>) {
    context.create_module(name)
}

/// `Context::create_builder`: a new builder, not yet positioned. Nothing
/// is claimed of it.
#[verifier::external_body]
fn create_builder<'ctx>(context: &'ctx Context) -> (builder: Builder<'ctx>) {
    context.create_builder()
}

/// `Context::i32_type`: the context's 32-bit integer type.
#[verifier::external_body]
fn i32_type<'ctx>(context: &'ctx Context) -> (ty: IntType<'ctx>) {
    context.i32_type()
}

/// `IntType::fn_type`, without parameters: the type of the functions
/// that take nothing and return `ty`.
#[verifier::external_body]
fn nullary_fn_type<'ctx>(ty: IntType<'ctx>) -> (fn_type: FunctionType<'ctx>) {
    ty.fn_type(&[], false)
}

/// `Module::add_function`, with the default linkage.
#[verifier::external_body]
fn add_function<'ctx>(
    module: &inkwell::module::Module<'ctx>,
    name: &str,
    ty: FunctionType<'ctx>,
) -> (function: FunctionValue<'ctx>) {
    module.add_function(name, ty, None)
}

/// `Context::append_basic_block`: a new block at the end of `function`.
#[verifier::external_body]
fn append_basic_block<'ctx>(context: &'ctx Context, function: FunctionValue<'ctx>, name: &str) -> (block:
    BasicBlock<'ctx>) {
    context.append_basic_block(function, name)
}

/// `Builder::position_at_end`: what is built next goes to the end of
/// `block`.
#[verifier::external_body]
fn position_at_end<'ctx>(builder: &Builder<'ctx>, block: BasicBlock<'ctx>) {
    builder.position_at_end(block)
}

/// `IntType::const_int`, sign-extending: the constant `value` of type
/// `ty`.
#[verifier::external_body]
fn const_int<'ctx>(ty: IntType<'ctx>, value: i32) -> (constant: IntValue<'ctx>) {
    ty.const_int(value as u64, true)
}

/// `Builder::build_int_add`. The builder refuses, here as in every
/// `build_` function below, while it has no position.
#[verifier::external_body]
fn build_int_add<'ctx>(builder: &Builder<'ctx>, lhs: IntValue<'ctx>, rhs: IntValue<'ctx>) -> (r: Result<
    IntValue<'ctx>,
    BuilderError,
>) {
    builder.build_int_add(lhs, rhs, "")
}

/// `Builder::build_int_sub`.
#[verifier::external_body]
fn build_int_sub<'ctx>(builder: &Builder<'ctx>, lhs: IntValue<'ctx>, rhs: IntValue<'ctx>) -> (r: Result<
    IntValue<'ctx>,
    BuilderError,
>) {
    builder.build_int_sub(lhs, rhs, "")
}

/// `Builder::build_int_mul`.
#[verifier::external_body]
fn build_int_mul<'ctx>(builder: &Builder<'ctx>, lhs: IntValue<'ctx>, rhs: IntValue<'ctx>) -> (r: Result<
    IntValue<'ctx>,
    BuilderError,
>) {
    builder.build_int_mul(lhs, rhs, "")
}

/// `Builder::build_int_signed_div`.
#[verifier::external_body]
fn build_int_signed_div<'ctx>(builder: &Builder<'ctx>, lhs: IntValue<'ctx>, rhs: IntValue<'ctx>) -> (r:
    Result<IntValue<'ctx>, BuilderError>) {
    builder.build_int_signed_div(lhs, rhs, "")
}

/// `Builder::build_int_signed_rem`.
#[verifier::external_body]
fn build_int_signed_rem<'ctx>(builder: &Builder<'ctx>, lhs: IntValue<'ctx>, rhs: IntValue<'ctx>) -> (r:
    Result<IntValue<'ctx>, BuilderError>) {
    builder.build_int_signed_rem(lhs, rhs, "")
}

/// `Builder::build_int_compare`: a one-bit value.
#[verifier::external_body]
fn build_int_compare<'ctx>(
    builder: &Builder<'ctx>,
    op: IntPredicate,
    lhs: IntValue<'ctx>,
    rhs: IntValue<'ctx>,
) -> (r: Result<IntValue<'ctx>, BuilderError>) {
    builder.build_int_compare(op, lhs, rhs, "")
}

/// `Builder::build_int_z_extend` of `value` to the wider type `ty`.
#[verifier::external_body]
fn build_int_z_extend<'ctx>(builder: &Builder<'ctx>, value: IntValue<'ctx>, ty: IntType<'ctx>) -> (r:
    Result<IntValue<'ctx>, BuilderError>) {
    builder.build_int_z_extend(value, ty, "")
}

/// `Builder::build_select` between two integers on a one-bit condition;
/// `None` where what was built is no integer.
#[verifier::external_body]
fn build_select<'ctx>(
    builder: &Builder<'ctx>,
    condition: IntValue<'ctx>,
    then: IntValue<'ctx>,
    otherwise: IntValue<'ctx>,
) -> (r: Result<Option<IntValue<'ctx>>, BuilderError>) {
    Ok(
        match builder.build_select(condition, then, otherwise, "")? {
            BasicValueEnum::IntValue(value) => Some(value),
            BasicValueEnum::ArrayValue(_) => None,
            BasicValueEnum::FloatValue(_) => None,
            BasicValueEnum::PointerValue(_) => None,
            BasicValueEnum::StructValue(_) => None,
            BasicValueEnum::VectorValue(_) => None,
        },
    )
}

/// `Builder::build_return` of a value.
#[verifier::external_body]
fn build_return<'ctx>(builder: &Builder<'ctx>, value: IntValue<'ctx>) -> (r: Result<(), BuilderError>) {
    match builder.build_return(Some(&value)) {
        Ok(_) => Ok(()),
        Err(e) => Err(e),
    }
}

/// `Builder::build_unconditional_branch`.
#[verifier::external_body]
fn build_unconditional_branch<'ctx>(builder: &Builder<'ctx>, target: BasicBlock<'ctx>) -> (r: Result<
    (),
    BuilderError,
>) {
    match builder.build_unconditional_branch(target) {
        Ok(_) => Ok(()),
        Err(e) => Err(e),
    }
}

/// `Builder::build_conditional_branch` on a one-bit value.
#[verifier::external_body]
fn build_conditional_branch<'ctx>(
    builder: &Builder<'ctx>,
    condition: IntValue<'ctx>,
    then_block: BasicBlock<'ctx>,
    else_block: BasicBlock<'ctx>,
) -> (r: Result<(), BuilderError>) {
    match builder.build_conditional_branch(condition, then_block, else_block) {
        Ok(_) => Ok(()),
        Err(e) => Err(e),
    }
}

/// The name a block of this kind is given in LLVM.
pub fn label_name(label: Label) -> (name: &'static str)
    ensures
        name@ == (match label {
            Label::Entry => "entry"@,
            Label::Then => "then"@,
            Label::Else => "else"@,
            Label::Merge => "merge"@,
            Label::Cond => "cond"@,
            Label::Body => "body"@,
            Label::After => "after"@,
        }),
{
    match label {
        Label::Entry => "entry",
        Label::Then => "then",
        Label::Else => "else",
        Label::Merge => "merge",
        Label::Cond => "cond",
        Label::Body => "body",
        Label::After => "after",
    }
}

/// What a built value stands for: the value built, or a refusal where
/// the builder refused.
fn built<'ctx>(r: Result<IntValue<'ctx>, BuilderError>) -> (v: Result<IntValue<'ctx>, EmitError>)
    ensures
        v == (match r {
            Ok(value) => Ok::<IntValue<'ctx>, EmitError>(value),
            Err(_) => Err::<IntValue<'ctx>, EmitError>(EmitError::Refused),
        }),
{
    match r {
        Ok(value) => Ok(value),
        Err(_) => Err(EmitError::Refused),
    }
}

/// As `built`, for what may turn out not to be an integer: the integer
/// built, or a refusal where the builder refused or built something else.
fn built_integer<'ctx>(r: Result<Option<IntValue<'ctx>>, BuilderError>) -> (v: Result<
    IntValue<'ctx>,
    EmitError,
>)
    ensures
        v == (match r {
            Ok(Some(value)) => Ok::<IntValue<'ctx>, EmitError>(value),
            _ => Err::<IntValue<'ctx>, EmitError>(EmitError::Refused),
        }),
{
    match r {
        Ok(Some(value)) => Ok(value),
        _ => Err(EmitError::Refused),
    }
}

/// As `built`, for what has no value.
fn done(r: Result<(), BuilderError>) -> (v: Result<(), EmitError>)
    ensures
        v == (match r {
            Ok(()) => Ok::<(), EmitError>(()),
            Err(_) => Err::<(), EmitError>(EmitError::Refused),
        }),
{
    match r {
        Ok(()) => Ok(()),
        Err(_) => Err(EmitError::Refused),
    }
}

/// As `built`, with the value as the result of a step.
fn yielded<'ctx>(r: Result<IntValue<'ctx>, EmitError>) -> (v: Result<Option<IntValue<'ctx>>, EmitError>)
    ensures
        v == (match r {
            Ok(value) => Ok::<Option<IntValue<'ctx>>, EmitError>(Some(value)),
            Err(e) => Err::<Option<IntValue<'ctx>>, EmitError>(e),
        }),
{
    match r {
        Ok(value) => Ok(Some(value)),
        Err(e) => Err(e),
    }
}

/// As `done`, for a step without result.
fn silent<'ctx>(r: Result<(), EmitError>) -> (v: Result<Option<IntValue<'ctx>>, EmitError>)
    ensures
        v == (match r {
            Ok(()) => Ok::<Option<IntValue<'ctx>>, EmitError>(None),
            Err(e) => Err::<Option<IntValue<'ctx>>, EmitError>(e),
        }),
{
    match r {
        Ok(()) => Ok(None),
        Err(e) => Err(e),
    }
}

/// An operand of a step.
#[derive(Clone, Copy, Debug, PartialEq, Eq)]
pub enum Arg {
    /// A constant, or the result of an instruction of the block.
    Value(Value),
    /// The result of an earlier step of the same plan, by its position.
    Temp(usize),
}

/// One call of LLVM's builder. An instruction, a terminator or the
/// zeroing of a slot is emitted as a short plan of such steps.
#[derive(Clone, Copy, Debug, PartialEq, Eq)]
pub enum Step {
    /// `build_load` from a slot.
    Load { slot: usize },
    /// `build_store` to a slot.
    Store { slot: usize, value: Arg },
    /// `build_int_add`.
    Add { lhs: Arg, rhs: Arg },
    /// `build_int_sub`.
    Sub { lhs: Arg, rhs: Arg },
    /// `build_int_mul`.
    Mul { lhs: Arg, rhs: Arg },
    /// `build_int_signed_div`.
    SignedDiv { lhs: Arg, rhs: Arg },
    /// `build_int_signed_rem`.
    SignedRem { lhs: Arg, rhs: Arg },
    /// `build_int_compare`: one bit.
    Compare { predicate: IntPredicate, lhs: Arg, rhs: Arg },
    /// `build_int_z_extend` of one bit to a word: 1 or 0.
    Widen { bit: Arg },
    /// `build_select` on one bit.
    Select { condition: Arg, then: Arg, otherwise: Arg },
    /// `build_return`.
    Return { value: Arg },
    /// `build_unconditional_branch`.
    Jump { target: usize },
    /// `build_conditional_branch` on one bit.
    Branch { condition: Arg, then_block: usize, else_block: usize },
}

/// The comparison of LLVM that a comparison operator stands for, signed
/// where order matters; none for an arithmetic operator.
pub open spec fn predicate_of(op: BinaryOp) -> Option<IntPredicate> {
    match op {
        BinaryOp::Lt => Some(IntPredicate::SLT),
        BinaryOp::Le => Some(IntPredicate::SLE),
        BinaryOp::Gt => Some(IntPredicate::SGT),
        BinaryOp::Ge => Some(IntPredicate::SGE),
        BinaryOp::Eq => Some(IntPredicate::EQ),
        BinaryOp::Ne => Some(IntPredicate::NE),
        _ => None,
    }
}

/// The step that an arithmetic operator stands for: signed division and
/// remainder, and wrapping sum, difference and product.
pub open spec fn arithmetic_of(op: BinaryOp, lhs: Arg, rhs: Arg) -> Step {
    match op {
        BinaryOp::Sub => Step::Sub { lhs, rhs },
        BinaryOp::Mul => Step::Mul { lhs, rhs },
        BinaryOp::Div => Step::SignedDiv { lhs, rhs },
        BinaryOp::Rem => Step::SignedRem { lhs, rhs },
        _ => Step::Add { lhs, rhs },
    }
}

/// The steps an instruction is emitted as.
///
/// A comparison is compared, then widened to a word. `abs(x)` is the
/// choice between `0 - x` and `x` on `x < 0`; `min` and `max` are the
/// choice between their operands on `<=` and `>=`. A call with another
/// number of arguments than the builtin takes has no steps.
pub open spec fn plan_of(instr: InstrView) -> Seq<Step> {
    match instr {
        InstrView::Load { slot } => seq![Step::Load { slot }],
        InstrView::Store { slot, value } => seq![Step::Store { slot, value: Arg::Value(value) }],
        InstrView::Binary { op, lhs, rhs } => match predicate_of(op) {
            Some(predicate) => seq![
                Step::Compare { predicate, lhs: Arg::Value(lhs), rhs: Arg::Value(rhs) },
                Step::Widen { bit: Arg::Temp(0) },
            ],
            None => seq![arithmetic_of(op, Arg::Value(lhs), Arg::Value(rhs))],
        },
        InstrView::Call { callee, args } => if args.len() != callee.arity() {
            Seq::empty()
        } else {
            match callee {
                Intrinsic::Abs => seq![
                    Step::Sub { lhs: Arg::Value(Value::Const(0)), rhs: Arg::Value(args[0]) },
                    Step::Compare {
                        predicate: IntPredicate::SLT,
                        lhs: Arg::Value(args[0]),
                        rhs: Arg::Value(Value::Const(0)),
                    },
                    Step::Select {
                        condition: Arg::Temp(1),
                        then: Arg::Temp(0),
                        otherwise: Arg::Value(args[0]),
                    },
                ],
                Intrinsic::Min => seq![
                    Step::Compare {
                        predicate: IntPredicate::SLE,
                        lhs: Arg::Value(args[0]),
                        rhs: Arg::Value(args[1]),
                    },
                    Step::Select {
                        condition: Arg::Temp(0),
                        then: Arg::Value(args[0]),
                        otherwise: Arg::Value(args[1]),
                    },
                ],
                Intrinsic::Max => seq![
                    Step::Compare {
                        predicate: IntPredicate::SGE,
                        lhs: Arg::Value(args[0]),
                        rhs: Arg::Value(args[1]),
                    },
                    Step::Select {
                        condition: Arg::Temp(0),
                        then: Arg::Value(args[0]),
                        otherwise: Arg::Value(args[1]),
                    },
                ],
            }
        },
    }
}

/// The steps a terminator is emitted as. A branch compares its condition
/// with zero and goes to its first target where they differ.
pub open spec fn plan_of_term(term: Terminator) -> Seq<Step> {
    match term {
        Terminator::Return(v) => seq![Step::Return { value: Arg::Value(v) }],
        Terminator::Jump(target) => seq![Step::Jump { target }],
        Terminator::Branch { cond, then_block, else_block } => seq![
            Step::Compare {
                predicate: IntPredicate::NE,
                lhs: Arg::Value(cond),
                rhs: Arg::Value(Value::Const(0)),
            },
            Step::Branch { condition: Arg::Temp(0), then_block, else_block },
        ],
    }
}

/// The steps that make a new stack slot hold zero.
pub open spec fn plan_of_slot(slot: usize) -> Seq<Step> {
    seq![Step::Store { slot, value: Arg::Value(Value::Const(0)) }]
}

/// Whether a step has a result.
pub open spec fn yields(step: Step) -> bool {
    match step {
        Step::Store { .. } => false,
        Step::Return { .. } => false,
        Step::Jump { .. } => false,
        Step::Branch { .. } => false,
        _ => true,
    }
}

/// Whether `a` may be used by step `k` of `plan`, emitted at position
/// `at` of block `b`: it is a value that may be used there, or the result
/// of an earlier step.
pub open spec fn arg_ok(f: FunctionView, b: int, at: int, plan: Seq<Step>, k: int, a: Arg) -> bool {
    match a {
        Arg::Value(v) => f.defines(b, at, v),
        Arg::Temp(i) => i < k && yields(plan[i as int]),
    }
}

/// Whether step `k` of `plan` can be handed to the builder, with `slots`
/// slots allocated: its operands may be used, and its slot and its
/// targets exist.
pub open spec fn step_ok(f: FunctionView, b: int, at: int, slots: nat, plan: Seq<Step>, k: int) -> bool {
    match plan[k] {
        Step::Load { slot } => slot < slots,
        Step::Store { slot, value } => slot < slots && arg_ok(f, b, at, plan, k, value),
        Step::Add { lhs, rhs } => arg_ok(f, b, at, plan, k, lhs) && arg_ok(f, b, at, plan, k, rhs),
        Step::Sub { lhs, rhs } => arg_ok(f, b, at, plan, k, lhs) && arg_ok(f, b, at, plan, k, rhs),
        Step::Mul { lhs, rhs } => arg_ok(f, b, at, plan, k, lhs) && arg_ok(f, b, at, plan, k, rhs),
        Step::SignedDiv { lhs, rhs } => arg_ok(f, b, at, plan, k, lhs) && arg_ok(
            f,
            b,
            at,
            plan,
            k,
            rhs,
        ),
        Step::SignedRem { lhs, rhs } => arg_ok(f, b, at, plan, k, lhs) && arg_ok(
            f,
            b,
            at,
            plan,
            k,
            rhs,
        ),
        Step::Compare { predicate, lhs, rhs } => arg_ok(f, b, at, plan, k, lhs) && arg_ok(
            f,
            b,
            at,
            plan,
            k,
            rhs,
        ),
        Step::Widen { bit } => arg_ok(f, b, at, plan, k, bit),
        Step::Select { condition, then, otherwise } => arg_ok(f, b, at, plan, k, condition)
            && arg_ok(f, b, at, plan, k, then) && arg_ok(f, b, at, plan, k, otherwise),
        Step::Return { value } => arg_ok(f, b, at, plan, k, value),
        Step::Jump { target } => target < f.blocks.len(),
        Step::Branch { condition, then_block, else_block } => arg_ok(f, b, at, plan, k, condition)
            && then_block < f.blocks.len() && else_block < f.blocks.len(),
    }
}

/// Whether every step of `plan` can be handed to the builder.
pub open spec fn plan_ok(f: FunctionView, b: int, at: int, slots: nat, plan: Seq<Step>) -> bool {
    forall|k: int| 0 <= k < plan.len() ==> #[trigger] step_ok(f, b, at, slots, plan, k)
}

/// The plan of an instruction that may stand where it does can be handed
/// to the builder, and its last step has a result where the instruction
/// has one.
pub proof fn lemma_admitted_plan(f: FunctionView, b: int, at: int, instr: InstrView)
    requires
        f.admits(b, at, instr),
    ensures
        plan_ok(f, b, at, f.slots.len(), plan_of(instr)),
        plan_of(instr).len() > 0,
        yields(plan_of(instr).last()) == instr.has_result(),
{
    let plan = plan_of(instr);
    match instr {
        InstrView::Call { callee, args } => {
            assert(f.defines(b, at, args[0]));
            if args.len() == 2 {
                assert(f.defines(b, at, args[1]));
            }
        },
        _ => {},
    }
    assert forall|k: int| 0 <= k < plan.len() implies #[trigger] step_ok(
        f,
        b,
        at,
        f.slots.len(),
        plan,
        k,
    ) by {
        if k == 0 {
        } else if k == 1 {
        } else {
        }
    }
}

/// The plan of a terminator that may end its block can be handed to the
/// builder.
pub proof fn lemma_admitted_term_plan(f: FunctionView, b: int, term: Terminator)
    requires
        f.admits_term(b, term),
    ensures
        plan_ok(f, b, f.blocks[b].instrs.len() as int, f.slots.len(), plan_of_term(term)),
{
    let plan = plan_of_term(term);
    assert forall|k: int| 0 <= k < plan.len() implies #[trigger] step_ok(
        f,
        b,
        f.blocks[b].instrs.len() as int,
        f.slots.len(),
        plan,
        k,
    ) by {
        if k == 0 {
        } else {
        }
    }
}

/// The comparison of LLVM that an operator stands for.
pub fn predicate(op: BinaryOp) -> (p: Option<IntPredicate>)
    ensures
        p == predicate_of(op),
{
    match op {
        BinaryOp::Lt => Some(IntPredicate::SLT),
        BinaryOp::Le => Some(IntPredicate::SLE),
        BinaryOp::Gt => Some(IntPredicate::SGT),
        BinaryOp::Ge => Some(IntPredicate::SGE),
        BinaryOp::Eq => Some(IntPredicate::EQ),
        BinaryOp::Ne => Some(IntPredicate::NE),
        _ => None,
    }
}

/// The step that an arithmetic operator stands for.
fn arithmetic(op: BinaryOp, lhs: Arg, rhs: Arg) -> (step: Step)
    ensures
        step == arithmetic_of(op, lhs, rhs),
{
    match op {
        BinaryOp::Sub => Step::Sub { lhs, rhs },
        BinaryOp::Mul => Step::Mul { lhs, rhs },
        BinaryOp::Div => Step::SignedDiv { lhs, rhs },
        BinaryOp::Rem => Step::SignedRem { lhs, rhs },
        _ => Step::Add { lhs, rhs },
    }
}

/// The choice of `then` or `otherwise` on a comparison of `lhs` and
/// `rhs`, as two steps.
fn choice(predicate: IntPredicate, lhs: Arg, rhs: Arg, then: Arg, otherwise: Arg) -> (plan: Vec<Step>)
    ensures
        plan@ == seq![
            Step::Compare { predicate, lhs, rhs },
            Step::Select { condition: Arg::Temp(0), then, otherwise },
        ],
{
    let mut plan: Vec<Step> = Vec::new();
    plan.push(Step::Compare { predicate, lhs, rhs });
    plan.push(Step::Select { condition: Arg::Temp(0), then, otherwise });
    assert(plan@ =~= seq![
        Step::Compare { predicate, lhs, rhs },
        Step::Select { condition: Arg::Temp(0), then, otherwise },
    ]);
    plan
}

/// The steps an instruction is emitted as.
pub fn steps_of(instr: &Instr) -> (plan: Vec<Step>)
    ensures
        plan@ == plan_of(instr@),
{
    let mut plan: Vec<Step> = Vec::new();
    match instr {
        Instr::Load { slot } => {
            plan.push(Step::Load { slot: *slot });
        },
        Instr::Store { slot, value } => {
            plan.push(Step::Store { slot: *slot, value: Arg::Value(*value) });
        },
        Instr::Binary { op, lhs, rhs } => {
            match predicate(*op) {
                Some(predicate) => {
                    plan.push(
                        Step::Compare { predicate, lhs: Arg::Value(*lhs), rhs: Arg::Value(*rhs) },
                    );
                    plan.push(Step::Widen { bit: Arg::Temp(0) });
                },
                None => {
                    plan.push(arithmetic(*op, Arg::Value(*lhs), Arg::Value(*rhs)));
                },
            }
        },
        Instr::Call { callee, args } => {
            match callee {
                Intrinsic::Abs => {
                    if args.len() == 1 {
                        let x = Arg::Value(args[0]);
                        let zero = Arg::Value(Value::Const(0));
                        plan.push(Step::Sub { lhs: zero, rhs: x });
                        plan.push(Step::Compare { predicate: IntPredicate::SLT, lhs: x, rhs: zero });
                        plan.push(
                            Step::Select { condition: Arg::Temp(1), then: Arg::Temp(0), otherwise: x },
                        );
                    }
                },
                Intrinsic::Min => {
                    if args.len() == 2 {
                        let x = Arg::Value(args[0]);
                        let y = Arg::Value(args[1]);
                        plan = choice(IntPredicate::SLE, x, y, x, y);
                    }
                },
                Intrinsic::Max => {
                    if args.len() == 2 {
                        let x = Arg::Value(args[0]);
                        let y = Arg::Value(args[1]);
                        plan = choice(IntPredicate::SGE, x, y, x, y);
                    }
                },
            }
        },
    }
    assert(plan@ =~= plan_of(instr@));
    plan
}

/// The steps a terminator is emitted as.
pub fn steps_of_term(term: Terminator) -> (plan: Vec<Step>)
    ensures
        plan@ == plan_of_term(term),
{
    let mut plan: Vec<Step> = Vec::new();
    match term {
        Terminator::Return(v) => {
            plan.push(Step::Return { value: Arg::Value(v) });
        },
        Terminator::Jump(target) => {
            plan.push(Step::Jump { target });
        },
        Terminator::Branch { cond, then_block, else_block } => {
            plan.push(
                Step::Compare {
                    predicate: IntPredicate::NE,
                    lhs: Arg::Value(cond),
                    rhs: Arg::Value(Value::Const(0)),
                },
            );
            plan.push(Step::Branch { condition: Arg::Temp(0), then_block, else_block });
        },
    }
    assert(plan@ =~= plan_of_term(term));
    plan
}

/// The steps that make a new stack slot hold zero.
pub fn steps_of_slot(slot: usize) -> (plan: Vec<Step>)
    ensures
        plan@ == plan_of_slot(slot),
{
    let mut plan: Vec<Step> = Vec::new();
    plan.push(Step::Store { slot, value: Arg::Value(Value::Const(0)) });
    assert(plan@ =~= plan_of_slot(slot));
    plan
}

/// Whether the operands seen so far in a block stand for the results of
/// its instructions.
pub open spec fn mirrors<'ctx>(values: Seq<Option<IntValue<'ctx>>>, function: &Function, b: int) -> bool {
    &&& values.len() <= function@.blocks[b].instrs.len()
    &&& forall|k: int|
        0 <= k < values.len() ==> ((#[trigger] values[k]) is Some) == function@.blocks[b].instrs[k].has_result()
}

/// Whether the results seen so far in a plan stand for its steps.
pub open spec fn follows_plan<'ctx>(temps: Seq<Option<IntValue<'ctx>>>, plan: Seq<Step>) -> bool {
    &&& temps.len() <= plan.len()
    &&& forall|k: int| 0 <= k < temps.len() ==> ((#[trigger] temps[k]) is Some) == yields(plan[k])
}

/// The LLVM value of an operand, where the operand may be used: a
/// constant of LLVM for a constant, and for the result of an instruction
/// the value that was built for that instruction.
fn operand<'ctx>(
    word: IntType<'ctx>,
    function: &Function,
    b: usize,
    values: &Vec<Option<IntValue<'ctx>>>,
    v: Value,
) -> (r: Option<IntValue<'ctx>>)
    requires
        b < function@.blocks.len(),
        mirrors(values@, function, b as int),
    ensures
        r is Some <==> function@.defines(b as int, values@.len() as int, v),
        v matches Value::Inst { block, index } ==> r == (if function@.defines(
            b as int,
            values@.len() as int,
            v,
        ) {
            values@[index as int]
        } else {
            None
        }),
{
    match v {
        Value::Const(n) => Some(const_int(word, n)),
        Value::Inst { block, index } => {
            if block == b && index < values.len() {
                values[index]
            } else {
                None
            }
        },
    }
}

/// The LLVM value of an operand of a step: the value of the operand of
/// the instruction, or what the earlier step built.
fn resolve<'ctx>(
    word: IntType<'ctx>,
    function: &Function,
    b: usize,
    values: &Vec<Option<IntValue<'ctx>>>,
    plan: &Vec<Step>,
    temps: &Vec<Option<IntValue<'ctx>>>,
    a: Arg,
) -> (r: IntValue<'ctx>)
    requires
        b < function@.blocks.len(),
        mirrors(values@, function, b as int),
        follows_plan(temps@, plan@),
        arg_ok(function@, b as int, values@.len() as int, plan@, temps@.len() as int, a),
    ensures
        a matches Arg::Temp(i) ==> temps@[i as int] == Some(r),
        a matches Arg::Value(Value::Inst { block, index }) ==> values@[index as int] == Some(r),
{
    match a {
        Arg::Temp(i) => {
            let built = temps[i];
            built.unwrap()
        },
        Arg::Value(v) => {
            let found = operand(word, function, b, values, v);
            found.unwrap()
        },
    }
}

/// Hands the next step of a plan to its builder call, and gives what the
/// builder built.
fn hand<'ctx>(
    builder: &Builder<'ctx>,
    word: IntType<'ctx>,
    function: &Function,
    b: usize,
    values: &Vec<Option<IntValue<'ctx>>>,
    slots: &Vec<StackSlot<'ctx>>,
    blocks: &Vec<BasicBlock<'ctx>>,
    plan: &Vec<Step>,
    temps: &Vec<Option<IntValue<'ctx>>>,
) -> (r: Result<Option<IntValue<'ctx>>, EmitError>)
    requires
        b < function@.blocks.len(),
        blocks@.len() == function@.blocks.len(),
        mirrors(values@, function, b as int),
        follows_plan(temps@, plan@),
        temps@.len() < plan@.len(),
        step_ok(function@, b as int, values@.len() as int, slots@.len(), plan@, temps@.len() as int),
    ensures
        r matches Ok(built) ==> (built is Some) == yields(plan@[temps@.len() as int]),
        r matches Err(e) ==> e == EmitError::Refused,
{
    match plan[temps.len()] {
        Step::Load { slot } => yielded(built_integer(build_load(builder, slots[slot]))),
        Step::Store { slot, value } => {
            let x = resolve(word, function, b, values, plan, temps, value);
            silent(done(build_store(builder, slots[slot], x)))
        },
        Step::Add { lhs, rhs } => {
            let x = resolve(word, function, b, values, plan, temps, lhs);
            let y = resolve(word, function, b, values, plan, temps, rhs);
            yielded(built(build_int_add(builder, x, y)))
        },
        Step::Sub { lhs, rhs } => {
            let x = resolve(word, function, b, values, plan, temps, lhs);
            let y = resolve(word, function, b, values, plan, temps, rhs);
            yielded(built(build_int_sub(builder, x, y)))
        },
        Step::Mul { lhs, rhs } => {
            let x = resolve(word, function, b, values, plan, temps, lhs);
            let y = resolve(word, function, b, values, plan, temps, rhs);
            yielded(built(build_int_mul(builder, x, y)))
        },
        Step::SignedDiv { lhs, rhs } => {
            let x = resolve(word, function, b, values, plan, temps, lhs);
            let y = resolve(word, function, b, values, plan, temps, rhs);
            yielded(built(build_int_signed_div(builder, x, y)))
        },
        Step::SignedRem { lhs, rhs } => {
            let x = resolve(word, function, b, values, plan, temps, lhs);
            let y = resolve(word, function, b, values, plan, temps, rhs);
            yielded(built(build_int_signed_rem(builder, x, y)))
        },
        Step::Compare { predicate, lhs, rhs } => {
            let x = resolve(word, function, b, values, plan, temps, lhs);
            let y = resolve(word, function, b, values, plan, temps, rhs);
            yielded(built(build_int_compare(builder, predicate, x, y)))
        },
        Step::Widen { bit } => {
            let x = resolve(word, function, b, values, plan, temps, bit);
            yielded(built(build_int_z_extend(builder, x, word)))
        },
        Step::Select { condition, then, otherwise } => {
            let c = resolve(word, function, b, values, plan, temps, condition);
            let x = resolve(word, function, b, values, plan, temps, then);
            let y = resolve(word, function, b, values, plan, temps, otherwise);
            yielded(built_integer(build_select(builder, c, x, y)))
        },
        Step::Return { value } => {
            let x = resolve(word, function, b, values, plan, temps, value);
            silent(done(build_return(builder, x)))
        },
        Step::Jump { target } => silent(done(build_unconditional_branch(builder, blocks[target]))),
        Step::Branch { condition, then_block, else_block } => {
            let c = resolve(word, function, b, values, plan, temps, condition);
            silent(
                done(build_conditional_branch(builder, c, blocks[then_block], blocks[else_block])),
            )
        },
    }
}

/// Hands the steps of a plan to the builder in order, each with what the
/// steps before it built, and gives what the last step built. A plan
/// without steps is done without the builder.
fn run_plan<'ctx>(
    builder: &Builder<'ctx>,
    word: IntType<'ctx>,
    function: &Function,
    b: usize,
    values: &Vec<Option<IntValue<'ctx>>>,
    slots: &Vec<StackSlot<'ctx>>,
    blocks: &Vec<BasicBlock<'ctx>>,
    plan: &Vec<Step>,
) -> (r: Result<Option<IntValue<'ctx>>, EmitError>)
    requires
        b < function@.blocks.len(),
        blocks@.len() == function@.blocks.len(),
        mirrors(values@, function, b as int),
        plan_ok(function@, b as int, values@.len() as int, slots@.len(), plan@),
    ensures
        plan@.len() == 0 ==> r == Ok::<Option<IntValue<'ctx>>, EmitError>(None),
        r matches Ok(built) ==> (built is Some) == (plan@.len() > 0 && yields(plan@.last())),
        r matches Err(e) ==> e == EmitError::Refused,
{
    let mut temps: Vec<Option<IntValue<'ctx>>> = Vec::new();
    let mut last: Option<IntValue<'ctx>> = None;
    while temps.len() < plan.len()
        invariant
            b < function@.blocks.len(),
            blocks@.len() == function@.blocks.len(),
            mirrors(values@, function, b as int),
            plan_ok(function@, b as int, values@.len() as int, slots@.len(), plan@),
            follows_plan(temps@, plan@),
            temps@.len() == 0 ==> last == None::<IntValue<'ctx>>,
            temps@.len() > 0 ==> (last is Some) == yields(plan@[temps@.len() - 1]),
        decreases plan@.len() - temps@.len(),
    {
        assert(step_ok(
            function@,
            b as int,
            values@.len() as int,
            slots@.len(),
            plan@,
            temps@.len() as int,
        ));
        match hand(builder, word, function, b, values, slots, blocks, plan, &temps) {
            Ok(built) => {
                temps.push(built);
                last = built;
            },
            Err(e) => {
                return Err(e);
            },
        }
    }
    Ok(last)
}

/// Emits the instructions and the terminator of block `b`, each by its
/// plan.
fn emit_block<'ctx>(
    builder: &Builder<'ctx>,
    word: IntType<'ctx>,
    function: &Function,
    b: usize,
    blocks: &Vec<BasicBlock<'ctx>>,
    slots: &Vec<StackSlot<'ctx>>,
) -> (r: Result<(), EmitError>)
    requires
        function@.well_formed(),
        b < function@.blocks.len(),
        blocks@.len() == function@.blocks.len(),
        slots@.len() == function@.slots.len(),
    ensures
        r matches Err(e) ==> e == EmitError::Refused,
{
    position_at_end(builder, blocks[b]);
    let mut values: Vec<Option<IntValue<'ctx>>> = Vec::new();
    while values.len() < function.blocks[b].instrs.len()
        invariant
            function@.well_formed(),
            b < function@.blocks.len(),
            blocks@.len() == function@.blocks.len(),
            slots@.len() == function@.slots.len(),
            mirrors(values@, function, b as int),
        decreases function@.blocks[b as int].instrs.len() - values@.len(),
    {
        let plan = steps_of(&function.blocks[b].instrs[values.len()]);
        proof {
            let at = values@.len() as int;
            assert(function@.block_ok(b as int));
            assert(function@.admits(b as int, at, function@.blocks[b as int].instrs[at]));
            lemma_admitted_plan(function@, b as int, at, function@.blocks[b as int].instrs[at]);
        }
        match run_plan(builder, word, function, b, &values, slots, blocks, &plan) {
            Ok(built) => {
                values.push(built);
            },
            Err(e) => {
                return Err(e);
            },
        }
    }
    match function.blocks[b].term {
        Some(term) => {
            let plan = steps_of_term(term);
            proof {
                assert(function@.block_ok(b as int));
                lemma_admitted_term_plan(function@, b as int, term);
            }
            match run_plan(builder, word, function, b, &values, slots, blocks, &plan) {
                Ok(_) => Ok(()),
                Err(e) => Err(e),
            }
        },
        None => unreached(),
    }
}

/// Emits one function: its blocks, a zeroed stack slot for each of its
/// slots at the start of the first block, then the body of each block.
fn emit_function<'ctx>(
    context: &'ctx Context,
    target: &inkwell::module::Module<'ctx>,
    builder: &Builder<'ctx>,
    function: &Function,
) -> (r: Result<(), EmitError>)
    requires
        function@.well_formed(),
    ensures
        r matches Err(e) ==> e == EmitError::Refused,
{
    let word = i32_type(context);
    let declared = add_function(target, function.name.as_str(), nullary_fn_type(word));
    let mut blocks: Vec<BasicBlock<'ctx>> = Vec::new();
    while blocks.len() < function.blocks.len()
        invariant
            blocks@.len() <= function@.blocks.len(),
        decreases function@.blocks.len() - blocks@.len(),
    {
        let label = function.blocks[blocks.len()].label;
        blocks.push(append_basic_block(context, declared, label_name(label)));
    }
    position_at_end(builder, blocks[0]);
    let none: Vec<Option<IntValue<'ctx>>> = Vec::new();
    let mut slots: Vec<StackSlot<'ctx>> = Vec::new();
    while slots.len() < function.slots.len()
        invariant
            function@.well_formed(),
            blocks@.len() == function@.blocks.len(),
            slots@.len() <= function@.slots.len(),
            none@.len() == 0,
        decreases function@.slots.len() - slots@.len(),
    {
        let slot = slots.len();
        match build_alloca(builder, word) {
            Ok(allocated) => {
                slots.push(allocated);
            },
            Err(_) => {
                return Err(EmitError::Refused);
            },
        }
        let plan = steps_of_slot(slot);
        assert(step_ok(function@, 0, 0, slots@.len(), plan@, 0));
        match run_plan(builder, word, function, 0, &none, &slots, &blocks, &plan) {
            Ok(_) => {},
            Err(e) => {
                return Err(e);
            },
        }
    }
    let mut b: usize = 0;
    while b < function.blocks.len()
        invariant
            function@.well_formed(),
            b <= function@.blocks.len(),
            blocks@.len() == function@.blocks.len(),
            slots@.len() == function@.slots.len(),
        decreases function@.blocks.len() - b,
    {
        match emit_block(builder, word, function, b, &blocks, &slots) {
            Ok(()) => {},
            Err(e) => {
                return Err(e);
            },
        }
        b += 1;
    }
    Ok(())
}

/// Emits `module` into a new LLVM module of `context`.
///
/// A module is refused as malformed exactly where it is not well formed,
/// before anything is handed to LLVM. A well-formed module is emitted
/// instruction by instruction, each by its plan of builder calls; whether
/// LLVM's builder takes every one of them is LLVM's affair, and where it
/// does not, the answer is `Refused`. A module without functions needs no
/// builder call and is always emitted.
pub fn emit_module<'ctx>(module: &IrModule, context: &'ctx Context) -> (r: Result<
    inkwell::module::Module<'ctx>,
    EmitError,
>)
    ensures
        malformed(r) <==> !module@.well_formed(),
        r is Ok ==> module@.well_formed(),
        module@.functions.len() == 0 ==> r is Ok,
{
    if !module.is_well_formed() {
        return Err(EmitError::Malformed);
    }
    let target = create_module(context, module.name.as_str());
    let builder = create_builder(context);
    let mut f: usize = 0;
    while f < module.functions.len()
        invariant
            f <= module@.functions.len(),
            module@.well_formed(),
        decreases module@.functions.len() - f,
    {
        assert(module@.functions[f as int] == module.functions@[f as int]@);
        match emit_function(context, &target, &builder, &module.functions[f]) {
            Ok(()) => {},
            Err(e) => {
                return Err(e);
            },
        }
        f += 1;
    }
    Ok(target)
}

} // verus!
