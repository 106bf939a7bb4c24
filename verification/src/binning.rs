//! Counting samples into bins.
//!
//! Two deliberately different bucketing policies exist side by side:
//! manual bins count a sample when it lies in a user range inclusive of
//! both ends, while automatic bins partition `[0, bins * width)` into
//! equal-width ranges inclusive below and exclusive above.

use vstd::arithmetic::div_mod::lemma_div_is_ordered_by_denominator;
use vstd::arithmetic::div_mod::lemma_div_pos_is_pos;
use vstd::arithmetic::div_mod::lemma_fundamental_div_mod_converse;
use vstd::arithmetic::mul::lemma_mul_inequality;
use vstd::arithmetic::mul::lemma_mul_is_associative;
use vstd::arithmetic::mul::lemma_mul_nonnegative;
use vstd::arithmetic::mul::lemma_mul_upper_bound;
use vstd::prelude::*;

use crate::errors::NoiseError;
use crate::fixed::ceil_div;
use crate::fixed::Fx;
use crate::fixed::SCALE;

verus! {

/// `lo <= v <= hi`, both ends inclusive: the manual binning policy.
pub open spec fn in_closed(v: Fx, lo: Fx, hi: Fx) -> bool {
    lo.m <= v.m <= hi.m
}

/// How many samples of `s` fall in the inclusive range `[lo, hi]`.
pub open spec fn count_in_closed(s: Seq<Fx>, lo: Fx, hi: Fx) -> int
    decreases s.len(),
{
    if s.len() == 0 {
        0
    } else {
        count_in_closed(s.drop_last(), lo, hi) + if in_closed(s.last(), lo, hi) {
            1int
        } else {
            0int
        }
    }
}

/// `lo <= v < hi` on mantissas: the automatic binning policy.
pub open spec fn in_halfopen(v: Fx, lo: int, hi: int) -> bool {
    lo <= v.m < hi
}

/// How many samples of `s` fall in the half-open range `[lo, hi)`.
pub open spec fn count_in_halfopen(s: Seq<Fx>, lo: int, hi: int) -> int
    decreases s.len(),
{
    if s.len() == 0 {
        0
    } else {
        count_in_halfopen(s.drop_last(), lo, hi) + if in_halfopen(s.last(), lo, hi) {
            1int
        } else {
            0int
        }
    }
}

/// The largest mantissa among the samples (zero for an empty sequence).
pub open spec fn max_m(s: Seq<Fx>) -> int
    decreases s.len(),
{
    if s.len() == 0 {
        0
    } else if s.len() == 1 {
        s[0].m as int
    } else {
        let rest = max_m(s.drop_last());
        if s.last().m > rest {
            s.last().m as int
        } else {
            rest
        }
    }
}

/// The automatic bin width, a whole number of units: the ceiling of
/// `max / bins` in whole units, and at least one.
pub open spec fn auto_width_m(maxm: int, bins: int) -> int
    recommends
        bins >= 1,
{
    let c = ceil_div(maxm, (SCALE as int) * bins);
    if c < 1 {
        1
    } else {
        c
    }
}

/// A count never exceeds the number of samples.
pub proof fn lemma_count_closed_le_len(s: Seq<Fx>, lo: Fx, hi: Fx)
    ensures
        0 <= count_in_closed(s, lo, hi) <= s.len(),
    decreases s.len(),
{
    if s.len() > 0 {
        lemma_count_closed_le_len(s.drop_last(), lo, hi);
    }
}

/// A count never exceeds the number of samples.
pub proof fn lemma_count_halfopen_le_len(s: Seq<Fx>, lo: int, hi: int)
    ensures
        0 <= count_in_halfopen(s, lo, hi) <= s.len(),
    decreases s.len(),
{
    if s.len() > 0 {
        lemma_count_halfopen_le_len(s.drop_last(), lo, hi);
    }
}

/// Counts the samples lying in the inclusive range `[lo, hi]`.
fn count_closed_exec(samples: &Vec<Fx>, lo: Fx, hi: Fx) -> (c: u32)
    requires
        samples@.len() <= u32::MAX,
    ensures
        c == count_in_closed(samples@, lo, hi),
{
    let mut c: u32 = 0;
    let mut j: usize = 0;
    while j < samples.len()
        invariant
            j <= samples@.len() <= u32::MAX,
            c == count_in_closed(samples@.take(j as int), lo, hi),
        decreases samples@.len() - j,
    {
        proof {
            lemma_count_closed_le_len(samples@.take(j as int), lo, hi);
            assert(samples@.take(j as int + 1).drop_last() =~= samples@.take(j as int));
            assert(samples@.take(j as int + 1).last() == samples@[j as int]);
        }
        let s = samples[j];
        if lo.m <= s.m && s.m <= hi.m {
            c = c + 1;
        }
        j = j + 1;
    }
    proof {
        assert(samples@.take(samples@.len() as int) =~= samples@);
    }
    c
}

/// Counts the samples lying in the half-open range `[lo, hi)`.
fn count_halfopen_exec(samples: &Vec<Fx>, lo: i128, hi: i128) -> (c: u32)
    requires
        samples@.len() <= u32::MAX,
    ensures
        c == count_in_halfopen(samples@, lo as int, hi as int),
{
    let mut c: u32 = 0;
    let mut j: usize = 0;
    while j < samples.len()
        invariant
            j <= samples@.len() <= u32::MAX,
            c == count_in_halfopen(samples@.take(j as int), lo as int, hi as int),
        decreases samples@.len() - j,
    {
        proof {
            lemma_count_halfopen_le_len(samples@.take(j as int), lo as int, hi as int);
            assert(samples@.take(j as int + 1).drop_last() =~= samples@.take(j as int));
            assert(samples@.take(j as int + 1).last() == samples@[j as int]);
        }
        let s = samples[j];
        if lo <= (s.m as i128) && (s.m as i128) < hi {
            c = c + 1;
        }
        j = j + 1;
    }
    proof {
        assert(samples@.take(samples@.len() as int) =~= samples@);
    }
    c
}

/// The largest sample. The buffer must hold at least one.
pub fn max_sample(samples: &Vec<Fx>) -> (r: Fx)
    requires
        samples@.len() > 0,
    ensures
        r.m == max_m(samples@),
{
    let mut best: Fx = samples[0];
    let mut j: usize = 1;
    while j < samples.len()
        invariant
            1 <= j <= samples@.len(),
            best.m == max_m(samples@.take(j as int)),
        decreases samples@.len() - j,
    {
        proof {
            assert(samples@.take(j as int + 1).drop_last() =~= samples@.take(j as int));
            assert(samples@.take(j as int + 1).last() == samples@[j as int]);
        }
        let s = samples[j];
        if s.m > best.m {
            best = s;
        }
        j = j + 1;
    }
    proof {
        assert(samples@.take(samples@.len() as int) =~= samples@);
    }
    best
}

/// Counts each sample into every user range that holds it, both ends
/// inclusive. Ranges may overlap or leave gaps; each bin is counted
/// independently of the others.
pub fn bin_manual(ranges: &Vec<(Fx, Fx)>, samples: &Vec<Fx>) -> (r: Vec<u32>)
    requires
        samples@.len() <= u32::MAX,
    ensures
        r@.len() == ranges@.len(),
        forall|i: int|
            0 <= i < ranges@.len() ==> r@[i] == count_in_closed(
                samples@,
                ranges@[i].0,
                ranges@[i].1,
            ),
{
    let mut out: Vec<u32> = Vec::new();
    let mut i: usize = 0;
    while i < ranges.len()
        invariant
            i <= ranges@.len(),
            out@.len() == i,
            samples@.len() <= u32::MAX,
            forall|k: int|
                0 <= k < i ==> out@[k] == count_in_closed(samples@, ranges@[k].0, ranges@[k].1),
        decreases ranges@.len() - i,
    {
        let lo = ranges[i].0;
        let hi = ranges[i].1;
        let c = count_closed_exec(samples, lo, hi);
        out.push(c);
        i = i + 1;
    }
    out
}

/// Partitions `[0, bins * width)` into `bins` equal half-open ranges and
/// counts the samples in each; samples at or above the upper edge, and
/// negative samples, land in no bin. An empty buffer, or one whose
/// maximum is zero, leaves the width undefined and is rejected.
pub fn bin_auto(bin_count: u32, samples: &Vec<Fx>) -> (r: Result<Vec<u32>, NoiseError>)
    requires
        samples@.len() <= u32::MAX,
    ensures
        r is Err <==> (samples@.len() == 0 || max_m(samples@) == 0),
        r matches Err(e) ==> e == NoiseError::EmptyInput,
        r matches Ok(bins) ==> ({
            let w = auto_width_m(max_m(samples@), bin_count as int);
            &&& bins@.len() == bin_count
            &&& forall|i: int|
                0 <= i < bin_count ==> bins@[i] == count_in_halfopen(
                    samples@,
                    i * w * (SCALE as int),
                    (i + 1) * w * (SCALE as int),
                )
        }),
{
    if samples.len() == 0 {
        return Err(NoiseError::EmptyInput);
    }
    let mx = max_sample(samples);
    if mx.m == 0 {
        return Err(NoiseError::EmptyInput);
    }
    if bin_count == 0 {
        let empty: Vec<u32> = Vec::new();
        return Ok(empty);
    }
    let ghost maxm = mx.m as int;
    let ghost n = bin_count as int;
    proof {
        lemma_mul_upper_bound(SCALE as int, 1000000int, n, 4294967295int);
        lemma_mul_nonnegative(SCALE as int, n);
        vstd::arithmetic::mul::lemma_mul_strictly_positive(SCALE as int, n);
    }
    let b: i128 = (SCALE as i128) * (bin_count as i128);
    let w: i128 = if mx.m < 0 {
        proof {
            lemma_div_pos_is_pos(-maxm, b as int);
            assert(ceil_div(maxm, b as int) <= 0);
        }
        1
    } else {
        let q: i128 = (mx.m as i128) / b;
        let rem: i128 = (mx.m as i128) % b;
        proof {
            assert(maxm == (b as int) * q + rem && 0 <= rem < b) by {
                vstd::arithmetic::div_mod::lemma_fundamental_div_mod(maxm, b as int);
            }
            if rem == 0 {
                assert(-maxm == (-q) * (b as int) + 0) by (nonlinear_arith)
                    requires
                        maxm == (b as int) * q + rem,
                        rem == 0,
                ;
                lemma_fundamental_div_mod_converse(-maxm, b as int, -q, 0);
                assert(ceil_div(maxm, b as int) == q);
            } else {
                assert(-maxm == (-q - 1) * (b as int) + (b as int - rem)) by (nonlinear_arith)
                    requires
                        maxm == (b as int) * q + rem,
                ;
                lemma_fundamental_div_mod_converse(-maxm, b as int, -q - 1, b as int - rem);
                assert(ceil_div(maxm, b as int) == q + 1);
            }
            // The ceiling never exceeds the maximum itself.
            lemma_div_is_ordered_by_denominator(maxm, 2, b as int);
            assert(maxm / 2 <= maxm - 1) by {
                vstd::arithmetic::div_mod::lemma_fundamental_div_mod(maxm, 2);
            }
        }
        let c: i128 = if rem == 0 {
            q
        } else {
            q + 1
        };
        if c < 1 {
            1
        } else {
            c
        }
    };
    let ghost wg = auto_width_m(maxm, n);
    proof {
        assert(w == wg);
        assert(1 <= wg <= 9223372036854775807int);
    }
    let ws: i128 = w * (SCALE as i128);
    proof {
        lemma_mul_upper_bound(wg, 9223372036854775807int, SCALE as int, 1000000int);
        lemma_mul_nonnegative(wg, SCALE as int);
    }
    let mut out: Vec<u32> = Vec::new();
    let mut i: u32 = 0;
    while i < bin_count
        invariant
            i <= bin_count,
            out@.len() == i,
            samples@.len() <= u32::MAX,
            ws == wg * (SCALE as int),
            wg == auto_width_m(max_m(samples@), bin_count as int),
            1 <= wg,
            0 <= ws <= 9223372036854775807000000int,
            forall|k: int|
                0 <= k < i ==> out@[k] == count_in_halfopen(
                    samples@,
                    k * wg * (SCALE as int),
                    (k + 1) * wg * (SCALE as int),
                ),
        decreases bin_count - i,
    {
        proof {
            lemma_mul_nonnegative(i as int, ws as int);
            lemma_mul_nonnegative(i as int + 1, ws as int);
            lemma_mul_upper_bound(
                i as int + 1,
                4294967296int,
                ws as int,
                9223372036854775807000000int,
            );
            lemma_mul_inequality(i as int, i as int + 1, ws as int);
        }
        let lower: i128 = (i as i128) * ws;
        let upper: i128 = (i as i128 + 1) * ws;
        proof {
            lemma_mul_is_associative(i as int, wg, SCALE as int);
            lemma_mul_is_associative(i as int + 1, wg, SCALE as int);
        }
        let c = count_halfopen_exec(samples, lower, upper);
        out.push(c);
        i = i + 1;
    }
    Ok(out)
}

/// The total of a sequence of bin counts.
pub open spec fn sum_counts(bins: Seq<u32>) -> int
    decreases bins.len(),
{
    if bins.len() == 0 {
        0
    } else {
        sum_counts(bins.drop_last()) + bins.last()
    }
}

/// Every range has its lower bound at or below its upper bound.
pub open spec fn ranges_ordered(ranges: Seq<(Fx, Fx)>) -> bool {
    forall|i: int| 0 <= i < ranges.len() ==> (#[trigger] ranges[i]).0.m <= ranges[i].1.m
}

/// Each range begins one fixed-point unit above the end of the one
/// before it: together they tile a span without gap or overlap.
pub open spec fn ranges_contiguous(ranges: Seq<(Fx, Fx)>) -> bool {
    forall|i: int|
        0 <= i < ranges.len() - 1 ==> (#[trigger] ranges[i + 1]).0.m == ranges[i].1.m + 1
}

/// Two inclusive ranges that meet without gap or overlap count together
/// exactly what their union counts.
pub proof fn lemma_count_closed_merge(s: Seq<Fx>, a: Fx, b: Fx, c: Fx, d: Fx)
    requires
        a.m <= b.m,
        c.m == b.m + 1,
        c.m <= d.m,
    ensures
        count_in_closed(s, a, b) + count_in_closed(s, c, d) == count_in_closed(s, a, d),
    decreases s.len(),
{
    if s.len() > 0 {
        lemma_count_closed_merge(s.drop_last(), a, b, c, d);
    }
}

/// For contiguous, non-overlapping, ordered ranges, the manual bins
/// together count exactly the samples lying in the overall span, from
/// the first range's lower bound to the last range's upper bound.
pub proof fn lemma_manual_partition(samples: Seq<Fx>, ranges: Seq<(Fx, Fx)>, bins: Seq<u32>)
    requires
        ranges.len() >= 1,
        ranges_ordered(ranges),
        ranges_contiguous(ranges),
        bins.len() == ranges.len(),
        forall|i: int|
            0 <= i < ranges.len() ==> bins[i] == count_in_closed(
                samples,
                (#[trigger] ranges[i]).0,
                ranges[i].1,
            ),
    ensures
        ranges[0].0.m <= ranges[ranges.len() - 1].1.m,
        sum_counts(bins) == count_in_closed(samples, ranges[0].0, ranges[ranges.len() - 1].1),
    decreases ranges.len(),
{
    let k = ranges.len() - 1;
    if k == 0 {
        assert(sum_counts(bins) == sum_counts(bins.drop_last()) + bins[0]);
    } else {
        let rp = ranges.drop_last();
        let bp = bins.drop_last();
        assert(forall|i: int| 0 <= i < rp.len() ==> rp[i] == ranges[i]);
        lemma_manual_partition(samples, rp, bp);
        assert(ranges[(k - 1) + 1].0.m == ranges[k - 1].1.m + 1);
        lemma_count_closed_merge(samples, ranges[0].0, ranges[k - 1].1, ranges[k].0, ranges[k].1);
    }
}

/// A sample is counted in every bin whose range holds it: if the sample
/// at position `k` lies in `[lo, hi]`, that range's count is positive.
/// With overlapping ranges the same sample therefore raises the count
/// of each of the overlapping bins.
pub proof fn lemma_overlap_counted(samples: Seq<Fx>, k: int, lo: Fx, hi: Fx)
    requires
        0 <= k < samples.len(),
        in_closed(samples[k], lo, hi),
    ensures
        count_in_closed(samples, lo, hi) >= 1,
    decreases samples.len(),
{
    lemma_count_closed_le_len(samples.drop_last(), lo, hi);
    if k < samples.len() - 1 {
        assert(samples.drop_last()[k] == samples[k]);
        lemma_overlap_counted(samples.drop_last(), k, lo, hi);
    }
}

/// An empty half-open range counts nothing.
pub proof fn lemma_count_halfopen_trivial(s: Seq<Fx>, lo: int, hi: int)
    requires
        lo >= hi,
    ensures
        count_in_halfopen(s, lo, hi) == 0,
    decreases s.len(),
{
    if s.len() > 0 {
        lemma_count_halfopen_trivial(s.drop_last(), lo, hi);
    }
}

/// Two half-open ranges that share an edge count together exactly what
/// their union counts.
pub proof fn lemma_count_halfopen_merge(s: Seq<Fx>, a: int, b: int, c: int)
    requires
        a <= b <= c,
    ensures
        count_in_halfopen(s, a, b) + count_in_halfopen(s, b, c) == count_in_halfopen(s, a, c),
    decreases s.len(),
{
    if s.len() > 0 {
        lemma_count_halfopen_merge(s.drop_last(), a, b, c);
    }
}

/// The automatic bins together count exactly the samples lying in
/// `[0, bins * width)`: the equal-width ranges tile that span.
pub proof fn lemma_auto_bins_cover(samples: Seq<Fx>, bins: Seq<u32>, w: int, n: int)
    requires
        n >= 0,
        w >= 1,
        bins.len() == n,
        forall|i: int|
            0 <= i < n ==> bins[i] == count_in_halfopen(
                samples,
                #[trigger] (i * w) * (SCALE as int),
                ((i + 1) * w) * (SCALE as int),
            ),
    ensures
        sum_counts(bins) == count_in_halfopen(samples, 0, (n * w) * (SCALE as int)),
    decreases n,
{
    if n == 0 {
        lemma_count_halfopen_trivial(samples, 0, 0);
    } else {
        let bp = bins.drop_last();
        lemma_auto_bins_cover(samples, bp, w, n - 1);
        assert(bins.last() == bins[n - 1]);
        lemma_mul_nonnegative(n - 1, w);
        lemma_mul_inequality(n - 1, n, w);
        lemma_mul_nonnegative((n - 1) * w, SCALE as int);
        lemma_mul_inequality((n - 1) * w, n * w, SCALE as int);
        lemma_count_halfopen_merge(
            samples,
            0,
            ((n - 1) * w) * (SCALE as int),
            (n * w) * (SCALE as int),
        );
    }
}

/// The automatic bins never count more than there are samples: each
/// sample lands in at most one of the disjoint ranges, and samples at or
/// above the upper edge, or negative, land in none.
pub proof fn lemma_auto_sum_le_total(samples: Seq<Fx>, bins: Seq<u32>, w: int, n: int)
    requires
        n >= 0,
        w >= 1,
        bins.len() == n,
        forall|i: int|
            0 <= i < n ==> bins[i] == count_in_halfopen(
                samples,
                #[trigger] (i * w) * (SCALE as int),
                ((i + 1) * w) * (SCALE as int),
            ),
    ensures
        sum_counts(bins) <= samples.len(),
{
    lemma_auto_bins_cover(samples, bins, w, n);
    lemma_count_halfopen_le_len(samples, 0, (n * w) * (SCALE as int));
}

/// The largest bin count, used to size the chart's vertical axis; zero
/// when there are no bins.
pub fn max_count(data: &Vec<u32>) -> (r: u32)
    ensures
        data@.len() == 0 ==> r == 0,
        forall|i: int| 0 <= i < data@.len() ==> data@[i] <= r,
        data@.len() > 0 ==> exists|i: int| 0 <= i < data@.len() && data@[i] == r,
{
    let mut best: u32 = 0;
    let mut j: usize = 0;
    while j < data.len()
        invariant
            j <= data@.len(),
            forall|i: int| 0 <= i < j ==> data@[i] <= best,
            best == 0 || exists|i: int| 0 <= i < j && data@[i] == best,
            j == 0 ==> best == 0,
            j > 0 && best == 0 ==> exists|i: int| 0 <= i < j && data@[i] == best,
        decreases data@.len() - j,
    {
        let d = data[j];
        if d > best {
            best = d;
        } else {
            proof {
                assert(data@[j as int] <= best);
            }
        }
        j = j + 1;
    }
    best
}

/// Which binning policy the user chose: exactly the letter `m`, in either
/// case, selects manual binning; any other answer selects automatic.
#[derive(Clone, Copy, PartialEq, Eq, Structural, Debug)]
pub enum BinningStrategy {
    Manual,
    Automatic,
}

/// Maps the user's trimmed answer to a binning policy.
pub fn choose_strategy(choice: &[u8]) -> (r: BinningStrategy)
    ensures
        r == BinningStrategy::Manual <==> (choice@ == seq![109u8] || choice@ == seq![77u8]),
{
    if choice.len() == 1 && (choice[0] == 109 || choice[0] == 77) {
        proof {
            if choice@[0] == 109 {
                assert(choice@ =~= seq![109u8]);
            } else {
                assert(choice@ =~= seq![77u8]);
            }
        }
        BinningStrategy::Manual
    } else {
        proof {
            if choice@.len() == 1 && (choice@ == seq![109u8] || choice@ == seq![77u8]) {
                assert(choice@[0] == 109 || choice@[0] == 77);
            }
        }
        BinningStrategy::Automatic
    }
}

} // verus!
