use vstd::prelude::*;

verus! {

/// Keeps `Word` to the unsigned integer types of this crate.
pub trait Sealed {}

impl Sealed for u8 {}

impl Sealed for u16 {}

impl Sealed for u32 {}

impl Sealed for u64 {}

} // verus!
