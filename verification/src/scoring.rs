//! The rotation scoring engine.  For a weight row and a day count `d`, it
//! enumerates every assignment of a rotation amount in [0,8) to each day —
//! indexed by the base-eight digits of a counter below 8^d — and sums, over
//! all assignments, the best total any of the ten fisher slots collects
//! when each day draws from the row rotated by that day's amount.

use vstd::prelude::*;
use vstd::arithmetic::div_mod::lemma_div_basics;
use vstd::arithmetic::div_mod::lemma_div_denominator;
use vstd::arithmetic::div_mod::lemma_fundamental_div_mod;
use vstd::arithmetic::div_mod::lemma_fundamental_div_mod_converse;
use vstd::arithmetic::div_mod::lemma_mod_bound;
use vstd::arithmetic::div_mod::lemma_mod_multiples_vanish;
use crate::image::Rom;
use crate::image::RomError;
use crate::weights::cell_word;
use crate::weights::decimal_reparse;
use crate::weights::weight_row_value;
use crate::weights::weights_valid;
use crate::weights::weights_wf;
use crate::weights::FISHERS;

verus! {

/// Number of named periods whose averages are computed.  A seventh, bonus
/// period exists in the data, but its day count is unknown and it is left
/// uncomputed rather than guessed.
pub const PERIODS: usize = 6;

/// 8 to the power `d`: how many rotation assignments a period of `d` days
/// has.
pub open spec fn pow8(d: int) -> int
    decreases d,
{
    if d <= 0 {
        1
    } else {
        8 * pow8(d - 1)
    }
}

/// Day `day`'s rotation amount under enumeration index `n`: digit `day` of
/// `n` written in base eight, so the first day's amount increments fastest
/// and a carry moves into the next day.
pub open spec fn rot_digit(n: int, day: int) -> int {
    (n / pow8(day)) % 8
}

/// The weight row cyclically rotated right by `r` slots.
pub open spec fn rotate_right(w: Seq<u16>, r: int) -> Seq<u16> {
    Seq::new(w.len(), |i: int| w[(i + w.len() - r) % (w.len() as int)])
}

/// The rotation assignment (one amount per day) enumerated at index `n`.
pub open spec fn assignment_of(n: int, d: int) -> Seq<int> {
    Seq::new(d as nat, |k: int| rot_digit(n, k))
}

/// Total weight fisher slot `fisher` collects across days 0..`d` under
/// enumeration index `n`.
pub open spec fn fisher_sum(w: Seq<u16>, n: int, fisher: int, d: int) -> int
    decreases d,
{
    if d <= 0 {
        0
    } else {
        fisher_sum(w, n, fisher, d - 1) + rotate_right(w, rot_digit(n, d - 1))[fisher]
    }
}

/// Largest fisher total among fisher slots 0..`f`.
pub open spec fn best_upto(w: Seq<u16>, n: int, d: int, f: int) -> int
    decreases f,
{
    if f <= 1 {
        fisher_sum(w, n, 0, d)
    } else if fisher_sum(w, n, f - 1, d) > best_upto(w, n, d, f - 1) {
        fisher_sum(w, n, f - 1, d)
    } else {
        best_upto(w, n, d, f - 1)
    }
}

/// The winning total of assignment `n`: the best of the ten fisher totals.
pub open spec fn best_of(w: Seq<u16>, n: int, d: int) -> int {
    best_upto(w, n, d, 10)
}

/// Sum of the winning totals of assignments 0..`n`.
pub open spec fn sum_best(w: Seq<u16>, d: int, n: int) -> int
    decreases n,
{
    if n <= 0 {
        0
    } else {
        sum_best(w, d, n - 1) + best_of(w, n - 1, d)
    }
}

/// Day counts of the six computed periods: spring, summer, fall, winter 1,
/// winter 2, championship.
pub open spec fn period_days(p: int) -> int {
    if p == 0 {
        1
    } else if p <= 2 {
        2
    } else {
        3
    }
}

/// What the engine reports for one period: the sum of the winning totals
/// over all enumerated assignments, and how many assignments there were.
/// The published average is `sum_of_maxima / (100 * count)` plus a fixed
/// correction; that division is left to the caller, which owns the output
/// format.
#[derive(Clone, Copy, Debug, PartialEq, Eq, Structural)]
pub struct ScoreStats {
    pub sum_of_maxima: u64,
    pub count: u64,
}

proof fn lemma_pow8_values()
    ensures
        pow8(0) == 1,
        pow8(1) == 8,
        pow8(2) == 64,
        pow8(3) == 512,
        pow8(4) == 4096,
{
    assert(pow8(0) == 1);
    assert(pow8(1) == 8);
    assert(pow8(2) == 64);
    assert(pow8(3) == 512);
    assert(pow8(4) == 4096);
}

proof fn lemma_pow8_pos(d: int)
    ensures
        pow8(d) >= 1,
    decreases
            (if d <= 0 {
                0
            } else {
                d
            }),
{
    if d > 0 {
        lemma_pow8_pos(d - 1);
    }
}

proof fn lemma_pow8_le(a: int, b: int)
    requires
        a <= b,
    ensures
        pow8(a) <= pow8(b),
    decreases b - a,
{
    if a < b {
        lemma_pow8_le(a, b - 1);
        lemma_pow8_pos(b - 1);
    }
}

/// One fisher's total for the days enumerated so far, computed by reading
/// the row at the rotated index for each day's amount.
fn fisher_total(weights: &[u16; 10], n: u64, days: usize, fisher: usize) -> (s: u64)
    requires
        1 <= days <= 4,
        fisher < 10,
    ensures
        s == fisher_sum(weights@, n as int, fisher as int, days as int),
        s <= 262140,
{
    let mut s: u64 = 0;
    let mut p: u64 = 1;
    let mut day: usize = 0;
    while day < days
        invariant
            1 <= days <= 4,
            fisher < 10,
            day <= days,
            p == pow8(day as int),
            s == fisher_sum(weights@, n as int, fisher as int, day as int),
            s <= day * 65535,
        decreases days - day,
    {
        proof {
            lemma_pow8_pos(day as int);
            lemma_pow8_le(day as int, 3);
            lemma_pow8_values();
            lemma_mod_bound(n as int / p as int, 8);
        }
        let r = ((n / p) % 8) as usize;
        let idx = (fisher + 10 - r) % 10;
        proof {
            lemma_mod_bound(fisher as int + 10 - r as int, 10);
            assert(rotate_right(weights@, rot_digit(n as int, day as int))[fisher as int]
                == weights@[idx as int]);
        }
        s = s + weights[idx] as u64;
        p = p * 8;
        day = day + 1;
        proof {
            assert(pow8(day as int) == 8 * pow8(day as int - 1));
        }
    }
    s
}

impl Rom {
    /// Enumerate every rotation assignment of length `days` over the eight
    /// rotation amounts — all 8^`days` of them, each exactly once — and add
    /// up the winning total of each.
    pub fn test_perm(weights: [u16; 10], days: usize) -> (r: ScoreStats)
        requires
            1 <= days <= 4,
        ensures
            r.count == pow8(days as int),
            r.sum_of_maxima == sum_best(weights@, days as int, pow8(days as int)),
            r.count <= 4096,
            r.sum_of_maxima <= r.count * 262140,
    {
        proof {
            lemma_pow8_values();
        }
        let mut count: u64 = 1;
        let mut k: usize = 0;
        while k < days
            invariant
                days <= 4,
                k <= days,
                count == pow8(k as int),
                count <= 4096,
            decreases days - k,
        {
            proof {
                lemma_pow8_le(k as int, 3);
                lemma_pow8_values();
            }
            count = count * 8;
            k = k + 1;
            proof {
                assert(pow8(k as int) == 8 * pow8(k as int - 1));
                lemma_pow8_le(k as int, 4);
            }
        }
        let mut total: u64 = 0;
        let mut n: u64 = 0;
        while n < count
            invariant
                1 <= days <= 4,
                count == pow8(days as int),
                count <= 4096,
                n <= count,
                total == sum_best(weights@, days as int, n as int),
                total <= n * 262140,
            decreases count - n,
        {
            let mut best = fisher_total(&weights, n, days, 0);
            proof {
                assert(best == best_upto(weights@, n as int, days as int, 1));
            }
            let mut f: usize = 1;
            while f < 10
                invariant
                    1 <= days <= 4,
                    1 <= f <= 10,
                    n < count,
                    count == pow8(days as int),
                    count <= 4096,
                    best == best_upto(weights@, n as int, days as int, f as int),
                    best <= 262140,
                decreases 10 - f,
            {
                let s = fisher_total(&weights, n, days, f);
                if s > best {
                    best = s;
                }
                f = f + 1;
            }
            total = total + best;
            n = n + 1;
        }
        ScoreStats { sum_of_maxima: total, count }
    }

    /// Decode the weight rows of the active image and run the engine once
    /// per computed period, with that period's day count.
    pub fn winning_average_stats(&self) -> (r: Result<Vec<ScoreStats>, RomError>)
        ensures
            ({
                let d = self.active_data();
                let v = self.version;
                &&& (r is Ok <==> weights_wf(d, v) && weights_valid(d, v))
                &&& (r == Err::<Vec<ScoreStats>, RomError>(RomError::OutOfBounds) <==> !weights_wf(
                    d,
                    v,
                ))
                &&& (r == Err::<Vec<ScoreStats>, RomError>(RomError::MalformedWeightEncoding)
                    <==> weights_wf(d, v) && !weights_valid(d, v))
                &&& match r {
                    Ok(stats) => {
                        &&& stats@.len() == PERIODS
                        &&& forall|p: int|
                            0 <= p < PERIODS ==> (#[trigger] stats@[p]).count == pow8(
                                period_days(p),
                            ) && stats@[p].sum_of_maxima == sum_best(
                                weight_row_value(d, v, p),
                                period_days(p),
                                pow8(period_days(p)),
                            )
                    },
                    Err(e) => e == RomError::OutOfBounds || e
                        == RomError::MalformedWeightEncoding,
                }
            }),
    {
        let ghost d = self.active_data();
        let ghost v = self.version;
        let rows = match self.decode_weights() {
            Ok(rows) => rows,
            Err(e) => {
                return Err(e);
            },
        };
        let mut stats: Vec<ScoreStats> = Vec::new();
        let mut p: usize = 0;
        while p < PERIODS
            invariant
                d == self.active_data(),
                v == self.version,
                weights_wf(d, v),
                weights_valid(d, v),
                rows@.len() == 7,
                forall|t: int| 0 <= t < 7 ==> #[trigger] rows@[t]@.len() == FISHERS,
                forall|t: int, x: int|
                    0 <= t < 7 && 0 <= x < FISHERS ==> rows@[t]@[x] == decimal_reparse(
                        #[trigger] cell_word(d, v, t, x),
                    ),
                stats@.len() == p,
                p <= PERIODS,
                forall|t: int|
                    0 <= t < p ==> (#[trigger] stats@[t]).count == pow8(period_days(t))
                        && stats@[t].sum_of_maxima == sum_best(
                        weight_row_value(d, v, t),
                        period_days(t),
                        pow8(period_days(t)),
                    ),
            decreases PERIODS - p,
        {
            let row = &rows[p];
            let arr: [u16; 10] = [
                row[0],
                row[1],
                row[2],
                row[3],
                row[4],
                row[5],
                row[6],
                row[7],
                row[8],
                row[9],
            ];
            proof {
                assert(arr@ =~= weight_row_value(d, v, p as int));
            }
            let dcount: usize = if p == 0 {
                1
            } else if p <= 2 {
                2
            } else {
                3
            };
            let stat = Rom::test_perm(arr, dcount);
            stats.push(stat);
            p = p + 1;
        }
        Ok(stats)
    }

    /// Rotate a weight row right by `r` slots, as the engine's model does
    /// for each day's rotation amount.
    pub fn rotate_row(weights: &[u16; 10], r: usize) -> (out: Vec<u16>)
        requires
            r < 8,
        ensures
            out@ == rotate_right(weights@, r as int),
    {
        let mut out: Vec<u16> = Vec::new();
        let mut i: usize = 0;
        while i < 10
            invariant
                r < 8,
                i <= 10,
                out@.len() == i,
                forall|k: int|
                    0 <= k < i ==> out@[k] == weights@[(k + 10 - r as int) % 10],
            decreases 10 - i,
        {
            proof {
                lemma_mod_bound(i as int + 10 - r as int, 10);
            }
            let idx = (i + 10 - r) % 10;
            out.push(weights[idx]);
            i = i + 1;
        }
        proof {
            assert(out@ =~= rotate_right(weights@, r as int));
        }
        out
    }
}

/// A weight row whose values repeat with period two.
pub open spec fn period_two(w: Seq<u16>) -> bool {
    forall|i: int| 0 <= i < w.len() ==> w[i] == #[trigger] w[(i + 2) % (w.len() as int)]
}

/// Rotating a ten-slot row right by `r` and then by `8 - r` rotates it
/// right by eight in all, which restores exactly the rows whose values
/// repeat with period two; a general ten-slot row is moved two slots and
/// not restored.
pub proof fn lemma_rotation_round_trip(w: Seq<u16>, r: int)
    requires
        w.len() == 10,
        0 <= r < 8,
        period_two(w),
    ensures
        rotate_right(rotate_right(w, r), 8 - r) == w,
{
    let w1 = rotate_right(w, r);
    let w2 = rotate_right(w1, 8 - r);
    assert forall|i: int| 0 <= i < 10 implies w2[i] == w[i] by {
        lemma_mod_bound(i + 2 + r, 10);
        let j = (i + 2 + r) % 10;
        assert(w2[i] == w1[j]);
        lemma_mod_bound(j + 10 - r, 10);
        assert(w1[j] == w[(j + 10 - r) % 10]);
        lemma_fundamental_div_mod(i + 2 + r, 10);
        lemma_mod_multiples_vanish(1 - ((i + 2 + r) / 10), i + 2, 10);
        assert(j + 10 - r == 10 * (1 - ((i + 2 + r) / 10)) + (i + 2));
        assert((j + 10 - r) % 10 == (i + 2) % 10);
        lemma_mod_bound(i + 2, 10);
        assert(w[(i + 2) % 10] == w[i]);
    };
    assert(w2 =~= w);
}

/// Digit `k + 1` of `n` in base eight is digit `k` of `n / 8`.
proof fn lemma_digit_shift(n: int, k: int)
    requires
        0 <= n,
        0 <= k,
    ensures
        rot_digit(n, k + 1) == rot_digit(n / 8, k),
{
    lemma_pow8_pos(k);
    assert(pow8(k + 1) == 8 * pow8(k));
    lemma_div_denominator(n, 8, pow8(k));
}

/// The base-eight value of an assignment, least-significant day first.
pub open spec fn assignment_value(a: Seq<int>) -> int
    decreases a.len(),
{
    if a.len() == 0 {
        0
    } else {
        a[0] + 8 * assignment_value(a.subrange(1, a.len() as int))
    }
}

/// An enumeration index below 8^d is recovered from its own assignment's
/// digits, so no two indices share an assignment.
proof fn lemma_assignment_reconstruct(n: int, d: int)
    requires
        0 <= d,
        0 <= n < pow8(d),
    ensures
        assignment_value(assignment_of(n, d)) == n,
    decreases d,
{
    let a = assignment_of(n, d);
    if d == 0 {
        assert(a.len() == 0);
    } else {
        lemma_pow8_pos(d - 1);
        lemma_fundamental_div_mod(n, 8);
        lemma_mod_bound(n, 8);
        assert(n / 8 < pow8(d - 1)) by (nonlinear_arith)
            requires
                0 <= n,
                n < 8 * pow8(d - 1),
                pow8(d) == 8 * pow8(d - 1),
                pow8(d - 1) >= 1,
        ;
        assert(0 <= n / 8) by (nonlinear_arith)
            requires
                0 <= n,
        ;
        lemma_assignment_reconstruct(n / 8, d - 1);
        let t = assignment_of(n / 8, d - 1);
        assert forall|k: int| 0 <= k < d - 1 implies a.subrange(1, d)[k] == t[k] by {
            lemma_digit_shift(n, k);
        };
        assert(a.subrange(1, d) =~= t);
        lemma_div_basics(n);
        assert(a[0] == (n / pow8(0)) % 8);
        assert(pow8(0) == 1);
        assert(a[0] == n % 8);
        assert(assignment_value(a) == a[0] + 8 * assignment_value(t));
    }
}

/// Enumeration never repeats: two different indices below 8^d always carry
/// two different rotation assignments.
pub proof fn lemma_enumeration_distinct(d: int, n1: int, n2: int)
    requires
        0 <= d,
        0 <= n1 < pow8(d),
        0 <= n2 < pow8(d),
        n1 != n2,
    ensures
        assignment_of(n1, d) != assignment_of(n2, d),
{
    if assignment_of(n1, d) == assignment_of(n2, d) {
        lemma_assignment_reconstruct(n1, d);
        lemma_assignment_reconstruct(n2, d);
        assert(false);
    }
}

/// Enumeration is complete: every assignment of `d` rotation amounts in
/// [0,8) is visited at some index below 8^d.  Together with
/// `lemma_enumeration_distinct`, the engine's 8^d indices visit every
/// assignment exactly once.
pub proof fn lemma_enumeration_complete(d: int, a: Seq<int>)
    requires
        0 <= d,
        a.len() == d,
        forall|k: int| 0 <= k < d ==> 0 <= #[trigger] a[k] < 8,
    ensures
        exists|n: int| 0 <= n < pow8(d) && #[trigger] assignment_of(n, d) == a,
    decreases d,
{
    if d == 0 {
        assert(assignment_of(0, 0) =~= a);
        assert(0 <= 0 < pow8(0) && assignment_of(0, 0) == a);
    } else {
        let t = a.subrange(1, d);
        assert forall|k: int| 0 <= k < d - 1 implies 0 <= #[trigger] t[k] < 8 by {
            assert(t[k] == a[k + 1]);
        };
        lemma_enumeration_complete(d - 1, t);
        let m = choose|m: int| 0 <= m < pow8(d - 1) && #[trigger] assignment_of(m, d - 1) == t;
        let n = a[0] + 8 * m;
        lemma_pow8_pos(d - 1);
        assert(pow8(d) == 8 * pow8(d - 1));
        assert(0 <= n < 8 * pow8(d - 1)) by (nonlinear_arith)
            requires
                n == a[0] + 8 * m,
                0 <= a[0] < 8,
                0 <= m < pow8(d - 1),
        ;
        lemma_fundamental_div_mod_converse(n, 8, m, a[0]);
        assert forall|k: int| 0 <= k < d implies assignment_of(n, d)[k] == a[k] by {
            if k == 0 {
                lemma_div_basics(n);
                assert(pow8(0) == 1);
                assert(assignment_of(n, d)[0] == n % 8);
            } else {
                lemma_digit_shift(n, k - 1);
                assert(assignment_of(m, d - 1)[k - 1] == t[k - 1]);
                assert(t[k - 1] == a[k]);
            }
        };
        assert(assignment_of(n, d) =~= a);
        assert(0 <= n < pow8(d) && assignment_of(n, d) == a);
    }
}

/// One fisher's total over `d` days lies between `d` times the least and
/// `d` times the greatest weight of the row.
proof fn lemma_fisher_sum_bounds(w: Seq<u16>, n: int, fisher: int, d: int, lo: int, hi: int)
    requires
        w.len() == 10,
        0 <= fisher < 10,
        0 <= d,
        forall|i: int| 0 <= i < 10 ==> lo <= #[trigger] w[i] <= hi,
    ensures
        d * lo <= fisher_sum(w, n, fisher, d) <= d * hi,
    decreases d,
{
    if d == 0 {
    } else {
        lemma_fisher_sum_bounds(w, n, fisher, d - 1, lo, hi);
        lemma_pow8_pos(d - 1);
        lemma_mod_bound(n / pow8(d - 1), 8);
        let r = rot_digit(n, d - 1);
        lemma_mod_bound(fisher + 10 - r, 10);
        let idx = (fisher + 10 - r) % 10;
        assert(rotate_right(w, r)[fisher] == w[idx]);
        assert((d - 1) * lo + lo == d * lo) by (nonlinear_arith);
        assert((d - 1) * hi + hi == d * hi) by (nonlinear_arith);
    }
}

/// The best of the first `f` fisher totals obeys the same bounds as each
/// total.
proof fn lemma_best_upto_bounds(w: Seq<u16>, n: int, d: int, f: int, lo: int, hi: int)
    requires
        w.len() == 10,
        1 <= f <= 10,
        0 <= d,
        forall|i: int| 0 <= i < 10 ==> lo <= #[trigger] w[i] <= hi,
    ensures
        d * lo <= best_upto(w, n, d, f) <= d * hi,
    decreases f,
{
    if f == 1 {
        lemma_fisher_sum_bounds(w, n, 0, d, lo, hi);
    } else {
        lemma_best_upto_bounds(w, n, d, f - 1, lo, hi);
        lemma_fisher_sum_bounds(w, n, f - 1, d, lo, hi);
    }
}

proof fn lemma_sum_best_bounds(w: Seq<u16>, d: int, n: int, lo: int, hi: int)
    requires
        w.len() == 10,
        1 <= d <= 4,
        0 <= n,
        forall|i: int| 0 <= i < 10 ==> lo <= #[trigger] w[i] <= hi,
    ensures
        n * (d * lo) <= sum_best(w, d, n) <= n * (d * hi),
    decreases n,
{
    if n == 0 {
    } else {
        lemma_sum_best_bounds(w, d, n - 1, lo, hi);
        lemma_best_upto_bounds(w, n - 1, d, 10, lo, hi);
        assert((n - 1) * (d * lo) + d * lo == n * (d * lo)) by (nonlinear_arith);
        assert((n - 1) * (d * hi) + d * hi == n * (d * hi)) by (nonlinear_arith);
    }
}

/// The summed winning totals of all 8^d assignments lie between the count
/// times the least possible winning total and the count times the greatest
/// — so the averaged statistic, before its fixed correction, lies within
/// the range the weight row allows.
pub proof fn lemma_average_bounds(w: Seq<u16>, d: int, lo: int, hi: int)
    requires
        w.len() == 10,
        1 <= d <= 4,
        forall|i: int| 0 <= i < 10 ==> lo <= #[trigger] w[i] <= hi,
    ensures
        pow8(d) * (d * lo) <= sum_best(w, d, pow8(d)) <= pow8(d) * (d * hi),
{
    lemma_pow8_pos(d);
    lemma_sum_best_bounds(w, d, pow8(d), lo, hi);
}

} // verus!
