use vstd::prelude::*;

verus! {

/// The radix of a positional numeral system.
#[derive(Debug, Copy, Clone, PartialEq, Eq, Structural, PartialOrd, Ord, Hash)]
pub struct Base(pub usize);

/// The radix of ordinary decimal notation.
pub const DECIMAL_RADIX: usize = 10;

impl Base {
    /// The decimal base, which every parsed number starts in.
    pub fn decimal() -> (r: Base)
        ensures
            r.0 == DECIMAL_RADIX,
    {
        Base(DECIMAL_RADIX)
    }
}

impl Default for Base {
    fn default() -> (r: Base)
        ensures
            r.0 == DECIMAL_RADIX,
    {
        Base::decimal()
    }
}

impl From<usize> for Base {
    fn from(value: usize) -> (r: Base) {
        Base(value)
    }
}

impl vstd::std_specs::convert::FromSpecImpl<usize> for Base {
    open spec fn obeys_from_spec() -> bool {
        true
    }

    open spec fn from_spec(value: usize) -> Base {
        Base(value)
    }
}

} // verus!
