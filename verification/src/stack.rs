//! The stack slots of an emitted function: the only addresses that are
//! loaded from and stored to.

use vstd::prelude::*;
use inkwell::builder::{Builder, BuilderError};
use inkwell::types::IntType;
use inkwell::values::{BasicValueEnum, IntValue, PointerValue};

verus! {

/// `inkwell::values::PointerValue`: an address. Opaque here.
#[verifier::external_type_specification]
#[verifier::external_body]
pub struct ExPointerValue<'ctx>(inkwell::values::PointerValue<'ctx>);

/// A stack slot of an emitted function: the address of one integer on
/// the stack. Only `build_alloca` makes one, from an integer type, so
/// that nothing is ever loaded or stored through another address.
#[derive(Clone, Copy, Debug)]
pub struct StackSlot<'ctx> {
    ptr: PointerValue<'ctx>,
}

/// `Builder::build_alloca` of one value of the integer type `ty`. The
/// builder refuses while it has no position.
#[verifier::external_body]
pub(crate) fn build_alloca<'ctx>(builder: &Builder<'ctx>, ty: IntType<'ctx>) -> (r: Result<
    StackSlot<'ctx>,
    BuilderError,
>) {
    match builder.build_alloca(ty, "") {
        Ok(ptr) => Ok(StackSlot { ptr }),
        Err(e) => Err(e),
    }
}

/// `Builder::build_store` of `value` to a slot.
#[verifier::external_body]
pub(crate) fn build_store<'ctx>(builder: &Builder<'ctx>, slot: StackSlot<'ctx>, value: IntValue<'ctx>) -> (r:
    Result<(), BuilderError>) {
    match builder.build_store(slot.ptr, value) {
        Ok(_) => Ok(()),
        Err(e) => Err(e),
    }
}

/// `Builder::build_load` from a slot; `None` where what was loaded is no
/// integer. `inkwell` panics where what is loaded is of no basic type (a
/// function, say); a slot holds an integer, and nothing but a slot can
/// be handed in.
#[verifier::external_body]
pub(crate) fn build_load<'ctx>(builder: &Builder<'ctx>, slot: StackSlot<'ctx>) -> (r: Result<
    Option<IntValue<'ctx>>,
    BuilderError,
>) {
    Ok(
        match builder.build_load(slot.ptr, "")? {
            BasicValueEnum::IntValue(value) => Some(value),
            BasicValueEnum::ArrayValue(_) => None,
            BasicValueEnum::FloatValue(_) => None,
            BasicValueEnum::PointerValue(_) => None,
            BasicValueEnum::StructValue(_) => None,
            BasicValueEnum::VectorValue(_) => None,
        },
    )
}

} // verus!
