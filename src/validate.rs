//! The entry points that validators of a type implement.
use vstd::prelude::*;
use crate::node::ValidationNode;

verus! {

/// A type whose values can be validated without arguments. Every type whose
/// [ValidateArgs] takes `()` has it.
pub trait Validate {
    fn validate(&self) -> ValidationNode;
}

/// A type whose values are validated with extra arguments, such as limits
/// that only the caller knows.
pub trait ValidateArgs<'arg> {
    type Args;

    fn validate_args(&self, args: Self::Args) -> ValidationNode;
}

impl<'a, T> Validate for T where T: ValidateArgs<'a, Args = ()> {
    fn validate(&self) -> ValidationNode {
        self.validate_args(())
    }
}

} // verus!
