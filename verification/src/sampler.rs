//! Noise sampling: one sample is the sum of `resolution` uniform draws,
//! recentred, scaled by `width` and shifted to `center`.
//!
//! The stated resolution is the number of draws actually made: the sampler
//! draws `resolution` times and recentres by `resolution / 2`, the
//! mathematically consistent reading of the Irwin-Hall recipe.

use rand::Rng;
use vstd::arithmetic::div_mod::lemma_basic_div;
use vstd::arithmetic::div_mod::lemma_div_is_ordered;
use vstd::arithmetic::div_mod::lemma_div_pos_is_pos;
use vstd::arithmetic::div_mod::lemma_fundamental_div_mod;
use vstd::arithmetic::div_mod::lemma_hoist_over_denominator;
use vstd::arithmetic::mul::lemma_mul_inequality;
use vstd::arithmetic::mul::lemma_mul_is_distributive_add_other_way;
use vstd::arithmetic::mul::lemma_mul_is_associative;
use vstd::arithmetic::mul::lemma_mul_is_distributive_sub;
use vstd::prelude::*;

use crate::errors::NoiseError;
use crate::fixed::div_trunc;
use crate::fixed::mag;
use crate::fixed::Fx;
use crate::fixed::HALF_SCALE;
use crate::fixed::SCALE;

verus! {

/// The mantissa a sample has when the `resolution` draws summed to `sum`
/// fixed-point units: recentre by `resolution / 2`, scale by `width`,
/// shift to `center`.
pub open spec fn sample_m(center: int, width: int, resolution: int, sum: int) -> int {
    center + div_trunc(width * (sum - resolution * (HALF_SCALE as int)), SCALE as int)
}

/// Every sample the given parameters can produce has a mantissa that fits
/// the fixed-point type: samples stay within `center +- width * resolution / 2`.
pub open spec fn sample_fits(center: Fx, width: Fx, resolution: int) -> bool {
    mag(center.m as int) + (mag(width.m as int) * resolution) / 2 <= i64::MAX
}

/// Holds when `v` is a value the sampler can return for these parameters:
/// the recentred, scaled sum of `resolution` draws, each draw below `SCALE`.
pub open spec fn is_sample_value(v: Fx, center: Fx, width: Fx, resolution: int) -> bool {
    exists|sum: int|
        0 <= sum <= resolution * (SCALE - 1) && v.m == sample_m(
            center.m as int,
            width.m as int,
            resolution,
            sum,
        )
}

/// Relies on `rand::thread_rng` and `rand::Rng::gen_range`: a draw from the
/// half-open range `[0, SCALE)`, so one uniform draw from `[0, 1)` in
/// fixed-point units. Nothing more is assumed of the drawn value.
#[verifier::external_body]
fn draw_uniform_unit() -> (r: u64)
    ensures
        r < SCALE,
{
    rand::thread_rng().gen_range(0..(SCALE as u64))
}

/// The magnitude of a truncating quotient is the quotient of the magnitude.
proof fn lemma_div_trunc_mag(p: int, q: int)
    requires
        q > 0,
    ensures
        mag(div_trunc(p, q)) == mag(p) / q,
{
    if p >= 0 {
        lemma_div_pos_is_pos(p, q);
    } else {
        lemma_div_pos_is_pos(-p, q);
    }
}

/// `(x * (SCALE / 2)) / SCALE == x / 2` for `x >= 0`: halving commutes
/// with the change to fixed-point units.
proof fn lemma_half_scale_div(x: int)
    requires
        x >= 0,
    ensures
        (x * (HALF_SCALE as int)) / (SCALE as int) == x / 2,
{
    let s = SCALE as int;
    let h = HALF_SCALE as int;
    lemma_fundamental_div_mod(x, 2);
    assert(x == 2 * (x / 2) + x % 2);
    assert(x * h == (x % 2) * h + (x / 2) * s) by {
        lemma_mul_is_distributive_sub(h, x, 2 * (x / 2));
        lemma_mul_is_associative(x / 2, 2, h);
        lemma_mul_is_associative(h, 2, x / 2);
    }
    lemma_hoist_over_denominator((x % 2) * h, x / 2, SCALE as nat);
    assert(((x % 2) * h) / s + x / 2 == ((x % 2) * h + (x / 2) * s) / s);
    assert(0 <= (x % 2) * h < s) by {
        assert(x % 2 == 0 || x % 2 == 1);
    }
    lemma_basic_div((x % 2) * h, s);
}

/// The scaled, recentred term of a sample stays within half the scaled
/// resolution in magnitude, whatever the draws summed to.
proof fn lemma_scaled_term_mag(wm: int, res: int, sum: int)
    requires
        res >= 0,
        0 <= sum <= res * ((SCALE - 1) as int),
    ensures
        mag(div_trunc(wm * (sum - res * (HALF_SCALE as int)), SCALE as int)) <= (mag(wm) * res)
            / 2,
{
    let d = sum - res * (HALF_SCALE as int);
    let dmax = res * (HALF_SCALE as int);
    assert(res * ((SCALE - 1) as int) - dmax == res * ((HALF_SCALE - 1) as int)) by {
        lemma_mul_is_distributive_sub(res, (SCALE - 1) as int, HALF_SCALE as int);
    }
    lemma_mul_inequality((HALF_SCALE - 1) as int, HALF_SCALE as int, res);
    assert(res * ((HALF_SCALE - 1) as int) == ((HALF_SCALE - 1) as int) * res);
    assert(res * (HALF_SCALE as int) == (HALF_SCALE as int) * res);
    assert(mag(d) <= dmax);
    vstd::arithmetic::mul::lemma_mul_nonnegative(res, HALF_SCALE as int);
    let p = wm * d;
    assert(-(mag(wm) * dmax) <= p <= mag(wm) * dmax) by (nonlinear_arith)
        requires
            -mag(wm) <= wm <= mag(wm),
            -dmax <= d <= dmax,
            0 <= dmax,
            0 <= mag(wm),
            p == wm * d,
    ;
    lemma_div_trunc_mag(p, SCALE as int);
    lemma_div_is_ordered(mag(p), mag(wm) * dmax, SCALE as int);
    assert(mag(wm) * dmax == (mag(wm) * res) * (HALF_SCALE as int)) by {
        lemma_mul_is_associative(mag(wm), res, HALF_SCALE as int);
    }
    assert((mag(wm) * res) * (HALF_SCALE as int) / (SCALE as int) == (mag(wm) * res) / 2) by {
        assert(mag(wm) * res >= 0) by {
            vstd::arithmetic::mul::lemma_mul_nonnegative(mag(wm), res);
        }
        lemma_half_scale_div(mag(wm) * res);
    }
}

/// Every sample the parameters can produce lies within half the scaled
/// resolution of the center: the deterministic envelope around the
/// distribution's intended mean, which tightens relative to the spread
/// of draws as the resolution grows.
pub proof fn lemma_sample_envelope(v: Fx, center: Fx, width: Fx, resolution: int)
    requires
        resolution >= 0,
        is_sample_value(v, center, width, resolution),
    ensures
        center.m - (mag(width.m as int) * resolution) / 2 <= v.m,
        v.m <= center.m + (mag(width.m as int) * resolution) / 2,
{
    let sum = choose|sum: int|
        0 <= sum <= resolution * (SCALE - 1) && v.m == sample_m(
            center.m as int,
            width.m as int,
            resolution,
            sum,
        );
    lemma_scaled_term_mag(width.m as int, resolution, sum);
}

/// Draws `resolution` uniform values, sums them, recentres and scales.
fn sample_pos(resolution: u32, center: Fx, width: Fx) -> (v: Fx)
    requires
        resolution >= 1,
        sample_fits(center, width, resolution as int),
    ensures
        is_sample_value(v, center, width, resolution as int),
{
    let mut sum: u64 = 0;
    let mut i: u32 = 0;
    while i < resolution
        invariant
            i <= resolution,
            sum <= (i as int) * ((SCALE - 1) as int),
        decreases resolution - i,
    {
        let d = draw_uniform_unit();
        proof {
            lemma_mul_inequality(i as int, resolution as int, (SCALE - 1) as int);
            lemma_mul_inequality(resolution as int, u32::MAX as int, (SCALE - 1) as int);
            assert((i as int + 1) * ((SCALE - 1) as int) == i as int * ((SCALE - 1) as int) + (SCALE
                - 1)) by {
                lemma_mul_is_distributive_add_other_way((SCALE - 1) as int, i as int, 1);
            }
        }
        sum = sum + d;
        i = i + 1;
    }
    proof {
        lemma_mul_inequality(resolution as int, u32::MAX as int, (SCALE - 1) as int);
        lemma_mul_inequality(resolution as int, u32::MAX as int, HALF_SCALE as int);
    }
    let half: i128 = (resolution as i128) * (HALF_SCALE as i128);
    let centred: i128 = (sum as i128) - half;
    let ghost cm = center.m as int;
    let ghost wm = width.m as int;
    let ghost res = resolution as int;
    let ghost dmax = res * (HALF_SCALE as int);
    proof {
        // The recentred sum stays within `resolution * SCALE / 2` in magnitude.
        assert(res * ((SCALE - 1) as int) - dmax == res * ((HALF_SCALE - 1) as int)) by {
            lemma_mul_is_distributive_sub(res, (SCALE - 1) as int, HALF_SCALE as int);
        }
        lemma_mul_inequality((HALF_SCALE - 1) as int, HALF_SCALE as int, res);
        assert(res * ((HALF_SCALE - 1) as int) == ((HALF_SCALE - 1) as int) * res);
        assert(res * (HALF_SCALE as int) == (HALF_SCALE as int) * res);
        assert(mag(centred as int) <= dmax);
        vstd::arithmetic::mul::lemma_mul_nonnegative(res, HALF_SCALE as int);
        assert(dmax <= 4294967295int * 500000int) by {
            lemma_mul_inequality(res, u32::MAX as int, HALF_SCALE as int);
        }
        assert(-(9223372036854775808int * 2147483647500000int) <= wm * (centred as int) <= (
        9223372036854775808int * 2147483647500000int)) by (nonlinear_arith)
            requires
                -9223372036854775808int <= wm <= 9223372036854775808int,
                -2147483647500000int <= centred as int <= 2147483647500000int,
        ;
    }
    let prod: i128 = (width.m as i128) * centred;
    proof {
        assert(-(mag(wm) * dmax) <= wm * (centred as int) <= mag(wm) * dmax) by (nonlinear_arith)
            requires
                -mag(wm) <= wm <= mag(wm),
                -dmax <= centred as int <= dmax,
                0 <= dmax,
                0 <= mag(wm),
        ;
        assert(mag(prod as int) <= mag(wm) * dmax);
    }
    let scaled: i128 = if prod >= 0 {
        prod / (SCALE as i128)
    } else {
        -((-prod) / (SCALE as i128))
    };
    proof {
        assert(scaled as int == div_trunc(prod as int, SCALE as int));
        // Magnitude of the scaled term: at most `mag(width) * resolution / 2`.
        lemma_div_trunc_mag(prod as int, SCALE as int);
        lemma_div_is_ordered(mag(prod as int), mag(wm) * dmax, SCALE as int);
        assert(mag(wm) * dmax == (mag(wm) * res) * (HALF_SCALE as int)) by {
            lemma_mul_is_associative(mag(wm), res, HALF_SCALE as int);
        }
        assert((mag(wm) * res) * (HALF_SCALE as int) / (SCALE as int) == (mag(wm) * res) / 2) by {
            assert(mag(wm) * res >= 0) by {
                vstd::arithmetic::mul::lemma_mul_nonnegative(mag(wm), res);
            }
            lemma_half_scale_div(mag(wm) * res);
        }
        assert(mag(scaled as int) <= (mag(wm) * res) / 2);
    }
    let m128: i128 = (center.m as i128) + scaled;
    let v = Fx { m: m128 as i64 };
    proof {
        let sum_g = sum as int;
        assert(v.m == sample_m(cm, wm, res, sum_g));
        assert(0 <= sum_g <= res * (SCALE - 1));
        assert(is_sample_value(v, center, width, res));
    }
    v
}

/// One noise sample: the sum of `resolution` uniform draws from `[0, 1)`,
/// recentred to zero mean, scaled by `width` and shifted to `center`.
/// A resolution of zero is rejected; nothing would be drawn.
pub fn sample(resolution: u32, center: Fx, width: Fx) -> (r: Result<Fx, NoiseError>)
    requires
        sample_fits(center, width, resolution as int),
    ensures
        r is Err <==> resolution == 0,
        r matches Err(e) ==> e == NoiseError::InvalidParameter,
        r matches Ok(v) ==> is_sample_value(v, center, width, resolution as int),
{
    if resolution == 0 {
        return Err(NoiseError::InvalidParameter);
    }
    Ok(sample_pos(resolution, center, width))
}

/// Fills a buffer with `count` samples, all drawn with the same parameters.
/// An empty request succeeds with an empty buffer even when the resolution
/// is zero, because the sampler is never invoked.
pub fn build_buffer(count: u32, resolution: u32, center: Fx, width: Fx) -> (r: Result<
    Vec<Fx>,
    NoiseError,
>)
    requires
        sample_fits(center, width, resolution as int),
    ensures
        r is Err <==> (resolution == 0 && count > 0),
        r matches Err(e) ==> e == NoiseError::InvalidParameter,
        r matches Ok(buf) ==> buf@.len() == count && (forall|i: int|
            0 <= i < count ==> is_sample_value(#[trigger] buf@[i], center, width, resolution as int)),
{
    let mut buf: Vec<Fx> = Vec::new();
    if count == 0 {
        return Ok(buf);
    }
    if resolution == 0 {
        return Err(NoiseError::InvalidParameter);
    }
    let mut j: u32 = 0;
    while j < count
        invariant
            j <= count,
            resolution >= 1,
            sample_fits(center, width, resolution as int),
            buf@.len() == j,
            forall|i: int|
                0 <= i < j ==> is_sample_value(#[trigger] buf@[i], center, width, resolution as int),
        decreases count - j,
    {
        let v = sample_pos(resolution, center, width);
        buf.push(v);
        j = j + 1;
    }
    Ok(buf)
}

} // verus!
