//! The coordinate triple used throughout the crate.

use vstd::prelude::*;

verus! {

/// `vek::Vec3` is a plain struct of three public fields `x`, `y`, `z`;
/// this declaration lets verified code read and build it field by field.
#[verifier::external_type_specification]
#[verifier::reject_recursive_types(T)]
pub struct ExVec3<T>(vek::Vec3<T>);

} // verus!
