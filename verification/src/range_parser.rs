//! The `low-high` range grammar and its parser.
//!
//! A range string is two numbers joined by a single `-`. A number is a
//! run of digits, optionally followed by a dot and a non-empty run of
//! digits; either side of the dash may be empty as far as the grammar
//! goes, but an empty side holds no number and is rejected separately.
//! Fraction digits beyond the six the fixed-point type carries are
//! truncated toward zero.

use vstd::arithmetic::mul::lemma_mul_inequality;
use vstd::arithmetic::mul::lemma_mul_is_associative;
use vstd::arithmetic::mul::lemma_mul_is_distributive_sub_other_way;
use vstd::arithmetic::mul::lemma_mul_nonnegative;
use vstd::prelude::*;

use crate::errors::NoiseError;
use crate::fixed::Fx;
use crate::fixed::SCALE;

verus! {

/// ASCII decimal digit.
pub open spec fn is_digit(b: u8) -> bool {
    48 <= b <= 57
}

/// Every byte of `s` is a decimal digit.
pub open spec fn all_digits(s: Seq<u8>) -> bool {
    forall|i: int| 0 <= i < s.len() ==> is_digit(#[trigger] s[i])
}

/// `s` is digits, a dot at position `k`, then at least one more digit.
pub open spec fn dotted_number_at(s: Seq<u8>, k: int) -> bool {
    &&& 0 <= k < s.len()
    &&& s[k] == 46
    &&& all_digits(s.take(k))
    &&& k + 1 < s.len()
    &&& all_digits(s.skip(k + 1))
}

/// `s` matches the number grammar: an optional integer part and an
/// optional dot-led fraction part.
pub open spec fn is_number(s: Seq<u8>) -> bool {
    all_digits(s) || exists|k: int| dotted_number_at(s, k)
}

/// `s` splits at position `j` into a number, a dash, and a number.
pub open spec fn range_split_at(s: Seq<u8>, j: int) -> bool {
    &&& 0 <= j < s.len()
    &&& s[j] == 45
    &&& is_number(s.take(j))
    &&& is_number(s.skip(j + 1))
}

/// `s` matches the range grammar `NUMBER-NUMBER`.
pub open spec fn is_range(s: Seq<u8>) -> bool {
    exists|j: int| range_split_at(s, j)
}

/// Powers of ten.
pub open spec fn pow10(k: nat) -> int
    decreases k,
{
    if k == 0 {
        1
    } else {
        10 * pow10((k - 1) as nat)
    }
}

/// The integer a run of digits denotes.
pub open spec fn digits_val(s: Seq<u8>) -> int
    decreases s.len(),
{
    if s.len() == 0 {
        0
    } else {
        digits_val(s.drop_last()) * 10 + (s.last() - 48)
    }
}

/// The fraction digits scaled to fixed-point units: the first six digits
/// weighted down from a tenth of `SCALE`, further digits truncated away.
pub open spec fn frac_val(s: Seq<u8>) -> int {
    if s.len() >= 6 {
        digits_val(s.take(6))
    } else {
        digits_val(s) * pow10((6 - s.len()) as nat)
    }
}

/// The position of the dot of a number that has one.
pub open spec fn dot_idx(s: Seq<u8>) -> int {
    choose|k: int| 0 <= k < s.len() && #[trigger] s[k] == 46
}

/// Whether `s` holds a dot.
pub open spec fn has_dot(s: Seq<u8>) -> bool {
    exists|k: int| 0 <= k < s.len() && #[trigger] s[k] == 46
}

/// The fixed-point mantissa a number string denotes.
pub open spec fn number_m(s: Seq<u8>) -> int {
    if has_dot(s) {
        digits_val(s.take(dot_idx(s))) * (SCALE as int) + frac_val(s.skip(dot_idx(s) + 1))
    } else {
        digits_val(s) * (SCALE as int)
    }
}

/// The position of the dash of a range string.
pub open spec fn dash_idx(s: Seq<u8>) -> int {
    choose|j: int| 0 <= j < s.len() && #[trigger] s[j] == 45
}

/// The text left of the dash.
pub open spec fn left_part(s: Seq<u8>) -> Seq<u8> {
    s.take(dash_idx(s))
}

/// The text right of the dash.
pub open spec fn right_part(s: Seq<u8>) -> Seq<u8> {
    s.skip(dash_idx(s) + 1)
}

/// A side of the dash is usable when it holds at least one character and
/// the number it denotes fits the fixed-point mantissa.
pub open spec fn side_ok(s: Seq<u8>) -> bool {
    s.len() > 0 && number_m(s) <= i64::MAX
}

/// Every byte of a number is a digit or the dot.
proof fn lemma_number_bytes(s: Seq<u8>, i: int)
    requires
        is_number(s),
        0 <= i < s.len(),
    ensures
        is_digit(s[i]) || s[i] == 46,
{
    if !all_digits(s) {
        let k = choose|k: int| dotted_number_at(s, k);
        if i < k {
            assert(s.take(k)[i] == s[i]);
        } else if i > k {
            assert(s.skip(k + 1)[i - (k + 1)] == s[i]);
        }
    }
}

/// A number holds at most one dot.
proof fn lemma_dot_unique(s: Seq<u8>, k1: int, k2: int)
    requires
        is_number(s),
        0 <= k1 < s.len(),
        0 <= k2 < s.len(),
        s[k1] == 46,
        s[k2] == 46,
    ensures
        k1 == k2,
{
    assert(!is_digit(46));
    let k = choose|k: int| dotted_number_at(s, k);
    if k1 != k {
        if k1 < k {
            assert(s.take(k)[k1] == s[k1]);
        } else {
            assert(s.skip(k + 1)[k1 - (k + 1)] == s[k1]);
        }
    }
    if k2 != k {
        if k2 < k {
            assert(s.take(k)[k2] == s[k2]);
        } else {
            assert(s.skip(k + 1)[k2 - (k + 1)] == s[k2]);
        }
    }
}

/// A range string holds exactly one dash.
proof fn lemma_dash_unique(s: Seq<u8>, j1: int, j2: int)
    requires
        is_range(s),
        0 <= j1 < s.len(),
        0 <= j2 < s.len(),
        s[j1] == 45,
        s[j2] == 45,
    ensures
        j1 == j2,
{
    let j = choose|j: int| range_split_at(s, j);
    if j1 != j {
        if j1 < j {
            assert(s.take(j)[j1] == s[j1]);
            lemma_number_bytes(s.take(j), j1);
        } else {
            assert(s.skip(j + 1)[j1 - (j + 1)] == s[j1]);
            lemma_number_bytes(s.skip(j + 1), j1 - (j + 1));
        }
    }
    if j2 != j {
        if j2 < j {
            assert(s.take(j)[j2] == s[j2]);
            lemma_number_bytes(s.take(j), j2);
        } else {
            assert(s.skip(j + 1)[j2 - (j + 1)] == s[j2]);
            lemma_number_bytes(s.skip(j + 1), j2 - (j + 1));
        }
    }
}

/// A byte that is neither digit nor dot rules the number grammar out.
proof fn lemma_bad_byte_not_number(s: Seq<u8>, p: int)
    requires
        0 <= p < s.len(),
        !is_digit(s[p]),
        s[p] != 46,
    ensures
        !is_number(s),
{
    if is_number(s) {
        lemma_number_bytes(s, p);
    }
}

/// Digit runs denote non-negative integers.
proof fn lemma_digits_val_nonneg(s: Seq<u8>)
    requires
        all_digits(s),
    ensures
        digits_val(s) >= 0,
    decreases s.len(),
{
    if s.len() > 0 {
        assert(forall|i: int|
            0 <= i < s.drop_last().len() ==> is_digit(#[trigger] s.drop_last()[i]));
        lemma_digits_val_nonneg(s.drop_last());
    }
}

/// Reading more digits never shrinks the value.
proof fn lemma_digits_val_prefix(s: Seq<u8>, j: int)
    requires
        all_digits(s),
        0 <= j <= s.len(),
    ensures
        digits_val(s.take(j)) <= digits_val(s),
    decreases s.len() - j,
{
    if j == s.len() {
        assert(s.take(j) =~= s);
    } else {
        assert(s.take(j + 1).drop_last() =~= s.take(j));
        assert(s.take(j + 1).last() == s[j]);
        assert(forall|i: int| 0 <= i < s.take(j).len() ==> is_digit(#[trigger] s.take(j)[i]));
        lemma_digits_val_nonneg(s.take(j));
        lemma_digits_val_prefix(s, j + 1);
    }
}

/// Powers of ten are positive.
proof fn lemma_pow10_pos(k: nat)
    ensures
        pow10(k) >= 1,
    decreases k,
{
    if k > 0 {
        lemma_pow10_pos((k - 1) as nat);
    }
}

/// `10^(a+b) == 10^a * 10^b`.
proof fn lemma_pow10_adds(a: nat, b: nat)
    ensures
        pow10(a + b) == pow10(a) * pow10(b),
    decreases a,
{
    if a == 0 {
        assert(pow10(b) == 1 * pow10(b));
    } else {
        lemma_pow10_adds((a - 1) as nat, b);
        assert(pow10(a + b) == 10 * pow10((a - 1) as nat + b));
        lemma_mul_is_associative(10, pow10((a - 1) as nat), pow10(b));
    }
}

/// Scans `text[start..end]` and decides whether it matches the number
/// grammar.
fn check_number(text: &[u8], start: usize, end: usize) -> (ok: bool)
    requires
        start <= end <= text@.len(),
    ensures
        ok == is_number(text@.subrange(start as int, end as int)),
{
    let ghost s = text@.subrange(start as int, end as int);
    let mut i: usize = start;
    let mut seen_dot: bool = false;
    let mut dotp: usize = 0;
    while i < end
        invariant
            start <= i <= end <= text@.len(),
            s == text@.subrange(start as int, end as int),
            !seen_dot ==> forall|k: int| 0 <= k < i - start ==> is_digit(#[trigger] s[k]),
            seen_dot ==> start <= dotp < i && s[dotp - start] == 46,
            seen_dot ==> forall|k: int| 0 <= k < dotp - start ==> is_digit(#[trigger] s[k]),
            seen_dot ==> forall|k: int| dotp - start < k < i - start ==> is_digit(#[trigger] s[k]),
        decreases end - i,
    {
        let b = text[i];
        proof {
            assert(s[i - start] == text@[i as int]);
        }
        if b == 46 {
            if seen_dot {
                // A second dot: nothing in the grammar allows it.
                proof {
                    if is_number(s) {
                        lemma_dot_unique(s, dotp - start, i - start);
                        assert(false);
                    }
                }
                return false;
            }
            seen_dot = true;
            dotp = i;
        } else if !(48 <= b && b <= 57) {
            proof {
                lemma_bad_byte_not_number(s, i - start);
            }
            return false;
        }
        i = i + 1;
    }
    if !seen_dot {
        proof {
            assert(all_digits(s));
        }
        true
    } else {
        let rel = dotp - start;
        if dotp + 1 < end {
            proof {
                assert(forall|k: int| 0 <= k < rel ==> is_digit(#[trigger] s.take(rel as int)[k]));
                assert(forall|k: int|
                    0 <= k < s.skip(rel as int + 1).len() ==> is_digit(
                        #[trigger] s.skip(rel as int + 1)[k],
                    ));
                assert(dotted_number_at(s, rel as int));
            }
            true
        } else {
            // The dot is the final byte: the fraction part is empty.
            proof {
                if is_number(s) {
                    let k = choose|k: int| dotted_number_at(s, k);
                    lemma_dot_unique(s, k, rel as int);
                    assert(false);
                }
            }
            false
        }
    }
}

/// Reads the number in `text[start..end]` as a fixed-point mantissa.
/// An empty side, and a value beyond what the mantissa can hold, are
/// rejected as malformed numbers.
fn number_value(text: &[u8], start: usize, end: usize) -> (r: Result<i64, NoiseError>)
    requires
        start <= end <= text@.len(),
        is_number(text@.subrange(start as int, end as int)),
    ensures
        r is Ok <==> side_ok(text@.subrange(start as int, end as int)),
        r matches Err(e) ==> e == NoiseError::NumberFormat,
        r matches Ok(m) ==> m == number_m(text@.subrange(start as int, end as int)) && m >= 0,
{
    let ghost s = text@.subrange(start as int, end as int);
    if start == end {
        return Err(NoiseError::NumberFormat);
    }
    // Find the dot, if any.
    let mut dot_at: usize = end;
    let mut seen_dot: bool = false;
    let mut i: usize = start;
    while i < end
        invariant
            start <= i <= end <= text@.len(),
            s == text@.subrange(start as int, end as int),
            is_number(s),
            !seen_dot ==> forall|k: int| 0 <= k < i - start ==> s[k] != 46,
            seen_dot ==> start <= dot_at < i && s[dot_at - start] == 46,
        decreases end - i,
    {
        let b = text[i];
        proof {
            assert(s[i - start] == text@[i as int]);
        }
        if b == 46 {
            seen_dot = true;
            dot_at = i;
        }
        i = i + 1;
    }
    let ghost dend: int = if seen_dot {
        dot_at - start
    } else {
        end - start
    };
    let ghost ip = s.take(dend);
    proof {
        if seen_dot {
            assert(has_dot(s));
            lemma_dot_unique(s, dot_idx(s), dot_at - start as int);
            if !all_digits(s) {
                let k = choose|k: int| dotted_number_at(s, k);
                lemma_dot_unique(s, k, dot_at - start as int);
            } else {
                assert(is_digit(s[dot_at - start]));
                assert(false);
            }
            assert(dotted_number_at(s, dend));
            assert(all_digits(ip));
        } else {
            if has_dot(s) {
                let k = choose|k: int| 0 <= k < s.len() && #[trigger] s[k] == 46;
                assert(s[k] == 46);
                assert(false);
            }
            if !all_digits(s) {
                let k = choose|k: int| dotted_number_at(s, k);
                assert(s[k] == 46);
                assert(false);
            }
            assert(ip =~= s);
        }
    }
    // Accumulate the integer part.
    let int_end: usize = if seen_dot {
        dot_at
    } else {
        end
    };
    let mut val: i64 = 0;
    let mut j: usize = start;
    while j < int_end
        invariant
            start <= j <= int_end <= end <= text@.len(),
            s == text@.subrange(start as int, end as int),
            int_end - start == dend,
            dend <= s.len(),
            ip == s.take(dend),
            all_digits(ip),
            is_number(s),
            seen_dot ==> dotted_number_at(s, dend) && has_dot(s) && dot_idx(s) == dend,
            !seen_dot ==> !has_dot(s) && ip =~= s,
            0 <= val == digits_val(ip.take(j - start)),
        decreases int_end - j,
    {
        let b = text[j];
        proof {
            assert(s[j - start] == text@[j as int]);
            assert(ip[j - start] == s[j - start]);
            assert(is_digit(ip[j - start]));
            assert(ip.take(j - start + 1).drop_last() =~= ip.take(j - start));
            assert(ip.take(j - start + 1).last() == ip[j - start]);
        }
        let d: i64 = (b - 48) as i64;
        let cand: i128 = (val as i128) * 10 + (d as i128);
        if cand > (i64::MAX as i128) {
            proof {
                // The digits already read push the value past the mantissa.
                assert(digits_val(ip.take(j - start + 1)) == val * 10 + d);
                lemma_digits_val_prefix(ip, j - start + 1);
                assert(digits_val(ip) > i64::MAX);
                lemma_digits_val_nonneg(ip);
                if seen_dot {
                    let fr = s.skip(dend + 1);
                    assert(forall|k: int|
                        0 <= k < fr.len() ==> is_digit(#[trigger] fr[k]));
                    assert(frac_val(fr) >= 0) by {
                        if fr.len() >= 6 {
                            assert(forall|k: int|
                                0 <= k < fr.take(6).len() ==> is_digit(#[trigger] fr.take(6)[k]));
                            lemma_digits_val_nonneg(fr.take(6));
                        } else {
                            lemma_digits_val_nonneg(fr);
                            lemma_pow10_pos((6 - fr.len()) as nat);
                            lemma_mul_nonnegative(digits_val(fr), pow10((6 - fr.len()) as nat));
                        }
                    }
                    assert(number_m(s) == digits_val(ip) * (SCALE as int) + frac_val(s.skip(dend + 1)));
                    assert(digits_val(ip) * (SCALE as int) >= digits_val(ip) * 1) by {
                        lemma_mul_inequality(1, SCALE as int, digits_val(ip));
                        vstd::arithmetic::mul::lemma_mul_is_commutative(digits_val(ip), SCALE as int);
                    }
                    assert(number_m(s) > i64::MAX);
                } else {
                    assert(number_m(s) == digits_val(s) * (SCALE as int));
                    assert(digits_val(s) * (SCALE as int) >= digits_val(s) * 1) by {
                        lemma_mul_inequality(1, SCALE as int, digits_val(s));
                        vstd::arithmetic::mul::lemma_mul_is_commutative(digits_val(s), SCALE as int);
                    }
                    assert(number_m(s) > i64::MAX);
                }
            }
            return Err(NoiseError::NumberFormat);
        }
        val = cand as i64;
        j = j + 1;
    }
    proof {
        assert(ip.take(int_end - start as int) =~= ip);
        assert(val == digits_val(ip));
    }
    // Accumulate up to six fraction digits.
    let mut fval: i64 = 0;
    let mut taken: usize = 0;
    let ghost fr: Seq<u8> = if seen_dot {
        s.skip(dend + 1)
    } else {
        Seq::empty()
    };
    proof {
        if seen_dot {
            assert(forall|k: int| 0 <= k < fr.len() ==> is_digit(#[trigger] fr[k]));
        }
    }
    if seen_dot {
        let fstart = dot_at + 1;
        let mut t: usize = fstart;
        let fend: usize = if end - fstart > 6 {
            fstart + 6
        } else {
            end
        };
        while t < fend
            invariant
                start <= dot_at < fstart <= t <= fend <= end <= text@.len(),
                fstart == dot_at + 1,
                fend - fstart <= 6,
                fend == if end - fstart > 6 { fstart + 6 } else { end as int },
                s == text@.subrange(start as int, end as int),
                s.len() == end - start,
                fr == s.skip(fstart - start as int),
                all_digits(fr),
                taken == t - fstart,
                0 <= fval == digits_val(fr.take(taken as int)),
                fval < pow10(taken as nat),
            decreases fend - t,
        {
            let b = text[t];
            proof {
                assert(s[t - start] == text@[t as int]);
                assert(fr[t - fstart] == s[t - start]);
                assert(is_digit(fr[t - fstart]));
                assert(fr.take(taken as int + 1).drop_last() =~= fr.take(taken as int));
                assert(fr.take(taken as int + 1).last() == fr[taken as int]);
                assert(pow10(taken as nat + 1) == 10 * pow10(taken as nat));
                lemma_pow10_pos(taken as nat);
                assert(taken <= 5);
                assert(pow10(taken as nat) <= 100000) by {
                    reveal_with_fuel(pow10, 8);
                }
            }
            let d: i64 = (b - 48) as i64;
            fval = fval * 10 + d;
            taken = taken + 1;
            t = t + 1;
        }
    }
    // Scale the fraction into fixed-point units.
    let shift: usize = 6 - taken;
    let mult: i64 = if shift == 0 {
        1
    } else if shift == 1 {
        10
    } else if shift == 2 {
        100
    } else if shift == 3 {
        1000
    } else if shift == 4 {
        10000
    } else if shift == 5 {
        100000
    } else {
        1000000
    };
    proof {
        assert(pow10(0) == 1 && pow10(1) == 10 && pow10(2) == 100 && pow10(3) == 1000 && pow10(4)
            == 10000 && pow10(5) == 100000 && pow10(6) == 1000000) by {
            reveal_with_fuel(pow10, 8);
        }
        assert(mult == pow10(shift as nat));
    }
    let ghost fv = frac_val(fr);
    proof {
        lemma_pow10_pos(shift as nat);
        assert(fval * mult <= (pow10(taken as nat) - 1) * pow10(shift as nat)) by {
            lemma_mul_inequality(fval as int, pow10(taken as nat) - 1, pow10(shift as nat));
        }
        assert((pow10(taken as nat) - 1) * pow10(shift as nat) == pow10(taken as nat) * pow10(
            shift as nat,
        ) - pow10(shift as nat)) by {
            lemma_mul_is_distributive_sub_other_way(pow10(shift as nat), pow10(taken as nat), 1);
        }
        lemma_pow10_adds(taken as nat, shift as nat);
        assert(fval * mult <= 1000000 - pow10(shift as nat)) by {
            reveal_with_fuel(pow10, 8);
        }
        lemma_mul_nonnegative(fval as int, mult as int);
        // The accumulated digits are exactly the truncated fraction value.
        if seen_dot {
            if fr.len() >= 6 {
                assert(taken == 6);
                assert(fr.take(taken as int) =~= fr.take(6));
                assert(fv == digits_val(fr.take(6)));
                assert(fval * mult == fv);
            } else {
                assert(taken == fr.len());
                assert(fr.take(taken as int) =~= fr);
                assert(fv == digits_val(fr) * pow10((6 - fr.len()) as nat));
                assert(fval * mult == fv);
            }
        } else {
            assert(taken == 0 && fval == 0);
        }
    }
    let fscaled: i64 = fval * mult;
    let m128: i128 = (val as i128) * (SCALE as i128) + (fscaled as i128);
    proof {
        if seen_dot {
            assert(number_m(s) == digits_val(ip) * (SCALE as int) + frac_val(fr));
        } else {
            assert(number_m(s) == digits_val(s) * (SCALE as int));
        }
        assert(m128 == number_m(s));
        lemma_mul_nonnegative(val as int, SCALE as int);
    }
    if m128 > (i64::MAX as i128) {
        return Err(NoiseError::NumberFormat);
    }
    Ok(m128 as i64)
}

/// Parses a `low-high` range string into its two fixed-point bounds.
/// The grammar alone decides acceptance: `2-1` parses even though it
/// matches nothing, while a string without exactly one dash between two
/// well-formed numbers is a grammar mismatch, and a side that is empty
/// or beyond the mantissa is a malformed number.
pub fn parse_range(text: &[u8]) -> (r: Result<(Fx, Fx), NoiseError>)
    ensures
        r is Ok <==> is_range(text@) && side_ok(left_part(text@)) && side_ok(right_part(text@)),
        !is_range(text@) ==> (r matches Err(e) && e == NoiseError::RangeParse),
        is_range(text@) && !(side_ok(left_part(text@)) && side_ok(right_part(text@))) ==> (
        r matches Err(e) && e == NoiseError::NumberFormat),
        r matches Ok(p) ==> p.0.m == number_m(left_part(text@)) && p.1.m == number_m(
            right_part(text@),
        ),
{
    let n = text.len();
    // Find the dash; a range string has exactly one.
    let mut dash: usize = 0;
    let mut found: bool = false;
    let mut i: usize = 0;
    while i < n
        invariant
            0 <= i <= n == text@.len(),
            !found ==> forall|k: int| 0 <= k < i ==> text@[k] != 45,
            found ==> dash < i && text@[dash as int] == 45,
            found ==> forall|k: int| 0 <= k < i && k != dash ==> text@[k] != 45,
        decreases n - i,
    {
        let b = text[i];
        if b == 45 {
            if found {
                proof {
                    if is_range(text@) {
                        lemma_dash_unique(text@, dash as int, i as int);
                        assert(false);
                    }
                }
                return Err(NoiseError::RangeParse);
            }
            found = true;
            dash = i;
        }
        i = i + 1;
    }
    if !found {
        proof {
            if is_range(text@) {
                let j = choose|j: int| range_split_at(text@, j);
                assert(text@[j] == 45);
                assert(false);
            }
        }
        return Err(NoiseError::RangeParse);
    }
    let left_good = check_number(text, 0, dash);
    let right_good = check_number(text, dash + 1, n);
    proof {
        assert(text@.subrange(0, dash as int) =~= text@.take(dash as int));
        assert(text@.subrange(dash as int + 1, n as int) =~= text@.skip(dash as int + 1));
    }
    if !(left_good && right_good) {
        proof {
            if is_range(text@) {
                let j = choose|j: int| range_split_at(text@, j);
                lemma_dash_unique(text@, j, dash as int);
                assert(false);
            }
        }
        return Err(NoiseError::RangeParse);
    }
    proof {
        assert(range_split_at(text@, dash as int));
        lemma_dash_unique(text@, dash_idx(text@), dash as int);
        assert(left_part(text@) == text@.take(dash as int));
        assert(right_part(text@) == text@.skip(dash as int + 1));
    }
    let lo = match number_value(text, 0, dash) {
        Ok(m) => m,
        Err(e) => {
            return Err(e);
        },
    };
    let hi = match number_value(text, dash + 1, n) {
        Ok(m) => m,
        Err(e) => {
            return Err(e);
        },
    };
    Ok((Fx { m: lo }, Fx { m: hi }))
}

} // verus!
