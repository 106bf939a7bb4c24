//! Fixed-point representation of the real quantities the pipeline works on.

use vstd::prelude::*;

verus! {

/// Number of fixed-point units per whole unit: values carry six decimal places.
pub const SCALE: i64 = 1_000_000;

/// Half of `SCALE`: the mantissa of one half.
pub const HALF_SCALE: i64 = 500_000;

/// A real quantity held as a fixed-point mantissa: the value is `m / SCALE`.
#[derive(Clone, Copy, PartialEq, Eq, Structural, Debug)]
pub struct Fx {
    pub m: i64,
}

impl Fx {
    /// Wraps a raw mantissa.
    pub fn new(m: i64) -> (r: Fx)
        ensures
            r.m == m,
    {
        Fx { m }
    }
}

/// Magnitude of an integer.
pub open spec fn mag(x: int) -> int {
    if x < 0 {
        -x
    } else {
        x
    }
}

/// Truncating division (toward zero), as machine signed division computes it.
pub open spec fn div_trunc(p: int, q: int) -> int
    recommends
        q > 0,
{
    if p >= 0 {
        p / q
    } else {
        -((-p) / q)
    }
}

/// Ceiling of `a / b` as an integer, for positive `b`.
pub open spec fn ceil_div(a: int, b: int) -> int
    recommends
        b > 0,
{
    -((-a) / b)
}

} // verus!
