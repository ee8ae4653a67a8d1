//! The result of decoding a bit pattern that no symbol of an open table is
//! bound to.
use vstd::prelude::*;

verus! {

/// A bit pattern that matched no symbol; it keeps the raw value read.
#[derive(Clone, Copy, Debug, Eq, Hash, Ord, PartialEq, PartialOrd)]
pub struct Unrecognized<T> {
    value: T,
}

impl<T> View for Unrecognized<T> {
    type V = T;

    /// The raw value of the pattern.
    closed spec fn view(&self) -> T {
        self.value
    }
}

impl<T: Copy> Unrecognized<T> {
    /// Returns the raw value of the bit pattern that could not be converted.
    pub fn raw_value(&self) -> (r: T)
        ensures
            r == self@,
    {
        self.value
    }

    /// Wraps the raw value of a pattern that matched no symbol.
    pub fn new(value: T) -> (r: Self)
        ensures
            r@ == value,
    {
        Self { value }
    }
}

} // verus!
