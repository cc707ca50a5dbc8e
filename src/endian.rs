//! Byte order of multi-byte scalars.
use vstd::prelude::*;

verus! {

/// The byte order in which multi-byte scalars are written and read.
#[derive(Clone, Copy, Debug, PartialEq, Eq, Structural)]
pub enum Endianness {
    Little,
    Big,
}

impl Default for Endianness {
    fn default() -> (r: Self)
        ensures
            r == Endianness::Little,
    {
        Endianness::Little
    }
}

} // verus!
