//! Where the bands end.
//!
//! The boundaries of `n` bands are spaced geometrically from 20 to 20000:
//! boundary `k` is 20 times 1000 to the power of `(k + 1) / n`, so the last
//! one is 20000. Raised to the power of `n`, a boundary is a whole number:
//! 20 to the power of `n`, times 1000 to the power of `k + 1`. A bin lies
//! below the boundary exactly if its own power of `n` lies below that
//! number, and so all that the bands need of a boundary, the first bin that
//! does not lie below it, is found in whole numbers.

use crate::bands::{rising, strictly_increasing};
use crate::natural::Natural;
use vstd::arithmetic::power::{
    lemma_pow0,
    lemma_pow1,
    lemma_pow_adds,
    lemma_pow_distributes,
    lemma_pow_increases,
    lemma_pow_positive,
    lemma_pow_strictly_increases,
    pow,
};
use vstd::prelude::*;

verus! {

/// The boundaries start above this bin.
pub const LOWEST_BOUNDARY: u32 = 20;

/// The last boundary is this many times the start.
pub const BOUNDARY_SPAN: u32 = 1000;

/// The last boundary, whatever the number of bands.
pub const HIGHEST_BOUNDARY: usize = 20000;

/// Up to this many bands, no two boundaries share a threshold, so that no
/// band is empty.
pub const DISTINCT_BANDS: usize = 128;

/// Boundary `k` of `n_bands`, raised to the power of `n_bands`.
pub open spec fn boundary_power(n_bands: nat, k: nat) -> int {
    pow(LOWEST_BOUNDARY as int, n_bands) * pow(BOUNDARY_SPAN as int, k + 1)
}

/// Bin `bin` does not lie below boundary `k` of `n_bands`.
pub open spec fn reaches(n_bands: nat, k: nat, bin: int) -> bool {
    pow(bin, n_bands) >= boundary_power(n_bands, k)
}

/// `bin` is the first bin that does not lie below boundary `k` of `n_bands`.
pub open spec fn is_threshold(n_bands: nat, k: nat, bin: int) -> bool {
    bin >= 1 && reaches(n_bands, k, bin) && !reaches(n_bands, k, bin - 1)
}

/// The first bin that does not lie below boundary `k` of `n_bands`.
pub open spec fn threshold(n_bands: nat, k: nat) -> int {
    choose|bin: int| is_threshold(n_bands, k, bin)
}

/// The thresholds of all `n_bands` bands, lowest first.
pub open spec fn thresholds(n_bands: nat) -> Seq<usize> {
    Seq::new(n_bands, |k: int| threshold(n_bands, k as nat) as usize)
}

/// The boundaries rise strictly with the band index: of two boundaries the
/// later one is the greater, as its power is.
pub proof fn lemma_boundaries_rise(n_bands: nat, j: nat, k: nat)
    requires
        j < k,
    ensures
        0 < boundary_power(n_bands, j) < boundary_power(n_bands, k),
{
    lemma_pow_positive(LOWEST_BOUNDARY as int, n_bands);
    lemma_pow_positive(BOUNDARY_SPAN as int, j + 1);
    lemma_pow_strictly_increases(BOUNDARY_SPAN as nat, j + 1, k + 1);
    let low = pow(LOWEST_BOUNDARY as int, n_bands);
    let near = pow(BOUNDARY_SPAN as int, j + 1);
    let far = pow(BOUNDARY_SPAN as int, k + 1);
    assert(0 < low * near < low * far) by (nonlinear_arith)
        requires
            0 < low,
            0 < near < far,
    ;
}

/// A greater bin has the greater power.
pub proof fn lemma_power_rises(lower: int, upper: int, exponent: nat)
    requires
        0 <= lower <= upper,
    ensures
        0 <= pow(lower, exponent) <= pow(upper, exponent),
    decreases exponent,
{
    reveal(pow);
    if exponent > 0 {
        let rest = (exponent - 1) as nat;
        lemma_power_rises(lower, upper, rest);
        let x = pow(lower, rest);
        let y = pow(upper, rest);
        assert(0 <= lower * x <= upper * y) by (nonlinear_arith)
            requires
                0 <= lower <= upper,
                0 <= x <= y,
        ;
    }
}

/// A strictly greater bin has the strictly greater power, whatever the
/// exponent above zero.
pub proof fn lemma_power_rises_strictly(lower: int, upper: int, exponent: nat)
    requires
        0 <= lower < upper,
        exponent > 0,
    ensures
        pow(lower, exponent) < pow(upper, exponent),
{
    reveal(pow);
    let rest = (exponent - 1) as nat;
    lemma_power_rises(lower, upper, rest);
    lemma_pow_positive(upper, rest);
    let x = pow(lower, rest);
    let y = pow(upper, rest);
    assert(lower * x < upper * y) by (nonlinear_arith)
        requires
            0 <= lower < upper,
            0 <= x <= y,
            0 < y,
    ;
}

/// The last boundary is 20000: bin 20000 lies below none of the boundaries,
/// and bin 20 lies below all of them.
pub proof fn lemma_boundaries_lie_within(n_bands: nat, k: nat)
    requires
        k < n_bands,
    ensures
        reaches(n_bands, k, HIGHEST_BOUNDARY as int),
        !reaches(n_bands, k, LOWEST_BOUNDARY as int),
{
    let low = pow(LOWEST_BOUNDARY as int, n_bands);
    let here = pow(BOUNDARY_SPAN as int, k + 1);
    let last = pow(BOUNDARY_SPAN as int, n_bands);
    lemma_pow_positive(LOWEST_BOUNDARY as int, n_bands);
    lemma_pow_distributes(LOWEST_BOUNDARY as int, BOUNDARY_SPAN as int, n_bands);
    lemma_pow_increases(BOUNDARY_SPAN as nat, k + 1, n_bands);
    lemma_pow0(BOUNDARY_SPAN as int);
    lemma_pow_strictly_increases(BOUNDARY_SPAN as nat, 0, k + 1);
    assert(LOWEST_BOUNDARY * BOUNDARY_SPAN == HIGHEST_BOUNDARY);
    assert(low < low * here <= low * last) by (nonlinear_arith)
        requires
            0 < low,
            1 < here <= last,
    ;
}

/// Of two thresholds the later one is not the lower one. In particular a
/// boundary has one threshold only.
pub proof fn lemma_later_threshold_is_higher(n_bands: nat, j: nat, k: nat, first: int, second: int)
    requires
        j <= k,
        is_threshold(n_bands, j, first),
        is_threshold(n_bands, k, second),
    ensures
        first <= second,
{
    if second < first {
        if j < k {
            lemma_boundaries_rise(n_bands, j, k);
        }
        lemma_power_rises(second, first - 1, n_bands);
    }
}

/// Every boundary has a threshold, above bin 20 and not above bin 20000.
pub proof fn lemma_threshold_lies_within(n_bands: nat, k: nat)
    requires
        k < n_bands,
    ensures
        is_threshold(n_bands, k, threshold(n_bands, k)),
        LOWEST_BOUNDARY < threshold(n_bands, k) <= HIGHEST_BOUNDARY,
{
    lemma_boundaries_lie_within(n_bands, k);
    let found = lemma_first_reaching(n_bands, k, HIGHEST_BOUNDARY as int);
    let chosen = threshold(n_bands, k);
    lemma_later_threshold_is_higher(n_bands, k, k, found, chosen);
    lemma_later_threshold_is_higher(n_bands, k, k, chosen, found);
}

/// The last band always ends at bin 20000, however many bands there are.
pub proof fn lemma_last_threshold(n_bands: nat)
    requires
        n_bands > 0,
    ensures
        threshold(n_bands, (n_bands - 1) as nat) == HIGHEST_BOUNDARY,
{
    let last = (n_bands - 1) as nat;
    lemma_boundaries_lie_within(n_bands, last);
    lemma_pow_distributes(LOWEST_BOUNDARY as int, BOUNDARY_SPAN as int, n_bands);
    assert(LOWEST_BOUNDARY * BOUNDARY_SPAN == HIGHEST_BOUNDARY);
    lemma_power_rises_strictly(HIGHEST_BOUNDARY - 1, HIGHEST_BOUNDARY as int, n_bands);
    assert(is_threshold(n_bands, last, HIGHEST_BOUNDARY as int));
    lemma_threshold_lies_within(n_bands, last);
    let chosen = threshold(n_bands, last);
    lemma_later_threshold_is_higher(n_bands, last, last, chosen, HIGHEST_BOUNDARY as int);
    lemma_later_threshold_is_higher(n_bands, last, last, HIGHEST_BOUNDARY as int, chosen);
}

proof fn lemma_first_reaching(n_bands: nat, k: nat, upto: int) -> (bin: int)
    requires
        !reaches(n_bands, k, LOWEST_BOUNDARY as int),
        reaches(n_bands, k, upto),
        LOWEST_BOUNDARY < upto,
    ensures
        is_threshold(n_bands, k, bin),
        LOWEST_BOUNDARY < bin <= upto,
    decreases upto,
{
    if reaches(n_bands, k, upto - 1) {
        lemma_first_reaching(n_bands, k, upto - 1)
    } else {
        upto
    }
}

/// The thresholds never fall with the band index.
pub proof fn lemma_thresholds_rise(n_bands: nat)
    ensures
        rising(thresholds(n_bands)),
        forall|k: int|
            0 <= k < n_bands ==> LOWEST_BOUNDARY < (#[trigger] thresholds(n_bands)[k])
                <= HIGHEST_BOUNDARY,
{
    let all = thresholds(n_bands);
    assert forall|k: int| 0 <= k < n_bands implies LOWEST_BOUNDARY < (#[trigger] all[k])
        <= HIGHEST_BOUNDARY by {
        lemma_threshold_lies_within(n_bands, k as nat);
    }
    assert forall|j: int, k: int| 0 <= j <= k < all.len() implies all[j] <= all[k] by {
        lemma_threshold_lies_within(n_bands, j as nat);
        lemma_threshold_lies_within(n_bands, k as nat);
        lemma_later_threshold_is_higher(
            n_bands,
            j as nat,
            k as nat,
            threshold(n_bands, j as nat),
            threshold(n_bands, k as nat),
        );
    }
}

/// If `p / q` is at most `b / a`, and the square of `b / a` at most `c / a`,
/// then the square of `p / q` is at most `c / a`.
proof fn lemma_square_of_ratio(p: int, q: int, a: int, b: int, c: int)
    requires
        0 <= p,
        0 <= q,
        0 < a,
        0 <= b,
        p * a <= q * b,
        b * b <= a * c,
    ensures
        (p * p) * a <= (q * q) * c,
{
    let pa = p * a;
    let qb = q * b;
    assert(0 <= pa) by (nonlinear_arith)
        requires
            pa == p * a,
            0 <= p,
            0 < a,
    ;
    assert(pa * pa <= qb * qb) by (nonlinear_arith)
        requires
            0 <= pa <= qb,
    ;
    assert(pa * pa == ((p * p) * a) * a) by (nonlinear_arith)
        requires
            pa == p * a,
    ;
    assert(qb * qb == (q * q) * (b * b)) by (nonlinear_arith)
        requires
            qb == q * b,
    ;
    assert((q * q) * (b * b) <= (q * q) * (a * c)) by (nonlinear_arith)
        requires
            b * b <= a * c,
    ;
    assert((q * q) * (a * c) == ((q * q) * c) * a) by (nonlinear_arith);
    let left = (p * p) * a;
    let right = (q * q) * c;
    assert(left * a <= right * a);
    assert(left <= right) by (nonlinear_arith)
        requires
            left * a <= right * a,
            0 < a,
    ;
}

/// 21 to the power of 128 is less than 1000 times 20 to the power of 128:
/// the step from bin 20 to bin 21, the widest that a threshold can meet,
/// taken 128 times, stays within the span of the boundaries.
proof fn lemma_ratio_at_most_distinct()
    ensures
        pow(21, 128) <= 1000 * pow(20, 128),
{
    lemma_pow1(21);
    lemma_pow1(20);
    lemma_pow_adds(21, 1, 1);
    lemma_pow_adds(20, 1, 1);
    lemma_pow_adds(21, 2, 2);
    lemma_pow_adds(20, 2, 2);
    lemma_pow_adds(21, 4, 4);
    lemma_pow_adds(20, 4, 4);
    lemma_pow_adds(21, 8, 8);
    lemma_pow_adds(20, 8, 8);
    lemma_pow_adds(21, 16, 16);
    lemma_pow_adds(20, 16, 16);
    lemma_pow_adds(21, 32, 32);
    lemma_pow_adds(20, 32, 32);
    lemma_pow_adds(21, 64, 64);
    lemma_pow_adds(20, 64, 64);
    lemma_pow_positive(21, 1);
    lemma_pow_positive(20, 1);
    lemma_pow_positive(21, 2);
    lemma_pow_positive(20, 2);
    lemma_pow_positive(21, 4);
    lemma_pow_positive(20, 4);
    lemma_pow_positive(21, 8);
    lemma_pow_positive(20, 8);
    lemma_pow_positive(21, 16);
    lemma_pow_positive(20, 16);
    lemma_pow_positive(21, 32);
    lemma_pow_positive(20, 32);
    lemma_pow_positive(21, 64);
    lemma_pow_positive(20, 64);
    lemma_pow_positive(20, 128);
    lemma_square_of_ratio(pow(21, 1), pow(20, 1), 10000, 10500, 11025);
    lemma_square_of_ratio(pow(21, 2), pow(20, 2), 10000, 11025, 12156);
    lemma_square_of_ratio(pow(21, 4), pow(20, 4), 10000, 12156, 14777);
    lemma_square_of_ratio(pow(21, 8), pow(20, 8), 10000, 14777, 21836);
    lemma_square_of_ratio(pow(21, 16), pow(20, 16), 10000, 21836, 47682);
    lemma_square_of_ratio(pow(21, 32), pow(20, 32), 10000, 47682, 227358);
    lemma_square_of_ratio(pow(21, 64), pow(20, 64), 10000, 227358, 5169167);
    let q = pow(20, 128);
    assert(q * 5169167 <= q * 10000000) by (nonlinear_arith)
        requires
            0 < q,
    ;
}

/// With up to 128 bands, 21 to the power of their number is at most 1000
/// times 20 to that power.
proof fn lemma_ratio_of_distinct_bands(n_bands: nat)
    requires
        n_bands <= DISTINCT_BANDS,
    ensures
        pow(21, n_bands) <= 1000 * pow(20, n_bands),
{
    let rest = (DISTINCT_BANDS - n_bands) as nat;
    lemma_ratio_at_most_distinct();
    lemma_pow_adds(21, n_bands, rest);
    lemma_pow_adds(20, n_bands, rest);
    lemma_power_rises(20, 21, rest);
    lemma_pow_positive(20, rest);
    lemma_pow_positive(21, n_bands);
    let x = pow(21, n_bands);
    let y = pow(20, n_bands);
    let c = pow(20, rest);
    let d = pow(21, rest);
    assert(x * c <= x * d) by (nonlinear_arith)
        requires
            0 < x,
            c <= d,
    ;
    assert(x <= 1000 * y) by (nonlinear_arith)
        requires
            x * c <= 1000 * (y * c),
            0 < c,
    ;
}

/// With up to 128 bands, each threshold lies above the one before it: no two
/// boundaries lie between the same two bins.
pub proof fn lemma_thresholds_rise_strictly(n_bands: nat, k: nat)
    requires
        n_bands <= DISTINCT_BANDS,
        k + 1 < n_bands,
    ensures
        threshold(n_bands, k) < threshold(n_bands, k + 1),
{
    lemma_threshold_lies_within(n_bands, k);
    lemma_threshold_lies_within(n_bands, k + 1);
    let here = threshold(n_bands, k);
    let next = threshold(n_bands, k + 1);
    let low = pow(LOWEST_BOUNDARY as int, n_bands);
    let this = pow(here, n_bands);
    let before = pow(here - 1, n_bands);
    let step = pow(21, n_bands);
    let bound = boundary_power(n_bands, k);
    lemma_pow_distributes(LOWEST_BOUNDARY as int, here, n_bands);
    lemma_pow_distributes(21, here - 1, n_bands);
    lemma_power_rises(LOWEST_BOUNDARY * here, 21 * (here - 1), n_bands);
    lemma_ratio_of_distinct_bands(n_bands);
    lemma_pow_positive(LOWEST_BOUNDARY as int, n_bands);
    lemma_power_rises(0, here - 1, n_bands);
    assert(low * this <= step * before);
    assert(step * before <= (1000 * low) * before) by (nonlinear_arith)
        requires
            step <= 1000 * low,
            0 <= before,
    ;
    assert((1000 * low) * before < (1000 * low) * bound) by (nonlinear_arith)
        requires
            before < bound,
            0 < low,
    ;
    assert(this < 1000 * bound) by (nonlinear_arith)
        requires
            low * this < (1000 * low) * bound,
            0 < low,
    ;
    assert(boundary_power(n_bands, k + 1) == 1000 * bound) by {
        reveal(pow);
        let span = pow(BOUNDARY_SPAN as int, k + 1);
        assert(pow(BOUNDARY_SPAN as int, k + 2) == BOUNDARY_SPAN * span);
        assert(low * (BOUNDARY_SPAN * span) == 1000 * (low * span)) by (nonlinear_arith)
            requires
                BOUNDARY_SPAN == 1000,
        ;
    }
    if next <= here {
        lemma_power_rises(next, here, n_bands);
    }
}

/// With up to 128 bands, the thresholds rise strictly from the first to the
/// last.
pub proof fn lemma_distinct_thresholds(n_bands: nat)
    requires
        n_bands <= DISTINCT_BANDS,
    ensures
        strictly_increasing(thresholds(n_bands)),
{
    let all = thresholds(n_bands);
    assert forall|j: int, k: int| 0 <= j < k < all.len() implies all[j] < all[k] by {
        lemma_threshold_lies_within(n_bands, j as nat);
        lemma_threshold_lies_within(n_bands, k as nat);
        lemma_threshold_lies_within(n_bands, (j + 1) as nat);
        lemma_thresholds_rise_strictly(n_bands, j as nat);
        lemma_later_threshold_is_higher(
            n_bands,
            (j + 1) as nat,
            k as nat,
            threshold(n_bands, (j + 1) as nat),
            threshold(n_bands, k as nat),
        );
    }
}

/// `base` to the power of `exponent`.
pub fn power_of(base: u32, exponent: usize) -> (power: Natural)
    ensures
        power@ == pow(base as int, exponent as nat),
{
    let mut power: Natural = Natural::from_word(1);
    let mut done: usize = 0;
    proof {
        lemma_pow0(base as int);
    }
    while done < exponent
        invariant
            done <= exponent,
            power@ == pow(base as int, done as nat),
        decreases exponent - done,
    {
        proof {
            reveal(pow);
            let rest = pow(base as int, done as nat);
            assert(rest * base == base * rest) by (nonlinear_arith);
        }
        power = power.times(base);
        done = done + 1;
    }
    power
}

/// The first bin that does not lie below boundary `k` of `n_bands`, given
/// the power of that boundary.
fn find_threshold(n_bands: usize, k: usize, target: &Natural) -> (bin: usize)
    requires
        k < n_bands,
        target@ == boundary_power(n_bands as nat, k as nat),
    ensures
        is_threshold(n_bands as nat, k as nat, bin as int),
        LOWEST_BOUNDARY < bin <= HIGHEST_BOUNDARY,
{
    let mut below: usize = LOWEST_BOUNDARY as usize;
    let mut reached: usize = HIGHEST_BOUNDARY;
    proof {
        lemma_boundaries_lie_within(n_bands as nat, k as nat);
    }
    while reached - below > 1
        invariant
            LOWEST_BOUNDARY <= below < reached <= HIGHEST_BOUNDARY,
            !reaches(n_bands as nat, k as nat, below as int),
            reaches(n_bands as nat, k as nat, reached as int),
            target@ == boundary_power(n_bands as nat, k as nat),
        decreases reached - below,
    {
        let middle: usize = below + (reached - below) / 2;
        let power: Natural = power_of(middle as u32, n_bands);
        if power.reaches(target) {
            reached = middle;
        } else {
            below = middle;
        }
    }
    reached
}

/// The thresholds of `n_bands` bands, lowest first: for each boundary the
/// first bin that does not lie below it. Every threshold is found exactly,
/// at a cost that grows with the cube of `n_bands`.
pub fn band_thresholds(n_bands: usize) -> (found: Vec<usize>)
    ensures
        found@ == thresholds(n_bands as nat),
        found@.len() == n_bands,
        forall|k: int| 0 <= k < n_bands ==> is_threshold(n_bands as nat, k as nat, found@[k] as int),
        forall|k: int| 0 <= k < n_bands ==> LOWEST_BOUNDARY < #[trigger] found@[k] <= HIGHEST_BOUNDARY,
        rising(found@),
        n_bands <= DISTINCT_BANDS ==> strictly_increasing(found@),
{
    let mut found: Vec<usize> = Vec::new();
    let mut target: Natural = power_of(LOWEST_BOUNDARY, n_bands);
    let mut k: usize = 0;
    proof {
        lemma_pow0(BOUNDARY_SPAN as int);
    }
    while k < n_bands
        invariant
            k <= n_bands,
            found@.len() == k,
            target@ == pow(LOWEST_BOUNDARY as int, n_bands as nat) * pow(BOUNDARY_SPAN as int, k as nat),
            forall|i: int|
                0 <= i < k ==> found@[i] == threshold(n_bands as nat, i as nat) && LOWEST_BOUNDARY
                    < #[trigger] found@[i] <= HIGHEST_BOUNDARY,
        decreases n_bands - k,
    {
        proof {
            reveal(pow);
            let low = pow(LOWEST_BOUNDARY as int, n_bands as nat);
            let span = pow(BOUNDARY_SPAN as int, k as nat);
            assert((low * span) * BOUNDARY_SPAN == low * (BOUNDARY_SPAN * span))
                by (nonlinear_arith);
        }
        target = target.times(BOUNDARY_SPAN);
        let bin: usize = find_threshold(n_bands, k, &target);
        proof {
            lemma_threshold_lies_within(n_bands as nat, k as nat);
            let chosen = threshold(n_bands as nat, k as nat);
            lemma_later_threshold_is_higher(n_bands as nat, k as nat, k as nat, bin as int, chosen);
            lemma_later_threshold_is_higher(n_bands as nat, k as nat, k as nat, chosen, bin as int);
        }
        found.push(bin);
        k = k + 1;
    }
    proof {
        assert(found@ =~= thresholds(n_bands as nat));
        lemma_thresholds_rise(n_bands as nat);
        if n_bands <= DISTINCT_BANDS {
            lemma_distinct_thresholds(n_bands as nat);
        }
        assert forall|i: int| 0 <= i < n_bands implies is_threshold(
            n_bands as nat,
            i as nat,
            found@[i] as int,
        ) by {
            lemma_threshold_lies_within(n_bands as nat, i as nat);
        }
    }
    found
}

} // verus!
