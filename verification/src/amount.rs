//! Single-precision quantities, carried by their bit patterns.

use vstd::prelude::*;

verus! {

/// Bit pattern of the single-precision number one.
pub const ONE_BITS: u32 = 0x3F80_0000;

/// Bit pattern of the single-precision number nearest to `e + 1`, the
/// default convexity of the value curve.
pub const DEFAULT_SLOPE_BITS: u32 = 0x406D_F854;

/// A single-precision quantity (units completed, a monetary factor, a
/// slope), held as its IEEE-754 bit pattern.
///
/// The library stores amounts, tells them apart and orders them by their
/// bits; it does no arithmetic on them.
#[derive(Clone, Copy, Debug, PartialEq, Eq, Structural)]
pub struct Amount(pub u32);

impl Amount {
    /// The amount one: a single completion of a recurring task.
    pub fn one() -> (res: Amount)
        ensures
            res == Amount(ONE_BITS),
    {
        Amount(ONE_BITS)
    }

    /// The default slope of the value curve, `e + 1`.
    pub fn default_slope() -> (res: Amount)
        ensures
            res == Amount(DEFAULT_SLOPE_BITS),
    {
        Amount(DEFAULT_SLOPE_BITS)
    }
}

} // verus!
