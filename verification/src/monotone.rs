//! Quantiles grow with their fraction.

use crate::bin::{lemma_pow10_grows, lemma_pow10_step, pow10, whole_shift, Entry};
use crate::histogram::sorted;
use crate::quantile::{
    advance, cumulative, estimate, lemma_below_stays, lemma_cumulative, lemma_skip,
    lemma_weightless, located, skip, total, weight, Estimate, Fraction,
};
use vstd::prelude::*;

verus! {

impl Estimate {
    /// The estimate times `10^130` and times its denominator, which is a
    /// whole number.
    pub open spec fn scaled(self) -> int {
        self.left.shifted(whole_shift()) * self.denominator + self.width.shifted(whole_shift())
            * self.numerator
    }

    /// Whether the estimate is at most `other`, as numbers.
    pub open spec fn le(self, other: Estimate) -> bool {
        self.scaled() * other.denominator <= other.scaled() * self.denominator
    }
}

/// Whether all regular buckets below zero have one exponent.
///
/// The order of a histogram goes by the exponent before the mantissa, on
/// both sides of zero. Below zero that is the order of the numbers only
/// among buckets of one exponent.
pub open spec fn negatives_aligned(s: Seq<Entry>) -> bool {
    forall|i: int, j: int|
        0 <= i < s.len() && 0 <= j < s.len() && (#[trigger] s[i]).mantissa <= -10 && (
        #[trigger] s[j]).mantissa <= -10 ==> s[i].exponent == s[j].exponent
}

/// Of two regular buckets, the one that comes first in a histogram ends
/// where the other begins or before, unless both lie below zero with
/// different exponents.
pub proof fn lemma_edges_ascend(a: Entry, b: Entry)
    requires
        a.wf(),
        b.wf(),
        !a.is_sentinel(),
        !b.is_sentinel(),
        a.precedes(b),
        a.mantissa < 0 && b.mantissa < 0 ==> a.exponent == b.exponent,
    ensures
        a.left().unwrap().shifted(whole_shift()) + a.bin_width().unwrap().shifted(whole_shift())
            <= b.left().unwrap().shifted(whole_shift()),
        a.bin_width().unwrap().shifted(whole_shift()) >= 0,
        b.bin_width().unwrap().shifted(whole_shift()) >= 0,
{
    let s = whole_shift();
    let pa = pow10(a.exponent - 1 + s);
    let pb = pow10(b.exponent - 1 + s);
    lemma_pow10_step(a.exponent - 1 + s);
    lemma_pow10_step(b.exponent - 1 + s);
    lemma_pow10_step(s);
    let ma = a.mantissa;
    let mb = b.mantissa;
    assert(1 * pa == pa && 1 * pb == pb) by (nonlinear_arith);
    assert(0 * pow10(s) == 0) by (nonlinear_arith);
    if ma < 0 {
        assert((ma - 1) * pa + pa == ma * pa) by (nonlinear_arith);
        assert(ma * pa <= 0) by (nonlinear_arith)
            requires
                ma < 0,
                pa >= 1,
        ;
        if mb < 0 {
            assert(ma * pa <= (mb - 1) * pa) by (nonlinear_arith)
                requires
                    ma <= mb - 1,
                    pa >= 1,
            ;
        } else if mb > 0 {
            assert(mb * pb >= 0) by (nonlinear_arith)
                requires
                    mb > 0,
                    pb >= 1,
            ;
        }
    } else if ma == 0 {
        assert(mb * pb >= 0) by (nonlinear_arith)
            requires
                mb > 0,
                pb >= 1,
        ;
    } else {
        assert(ma * pa + pa == (ma + 1) * pa) by (nonlinear_arith);
        if a.exponent == b.exponent {
            assert((ma + 1) * pa <= mb * pa) by (nonlinear_arith)
                requires
                    ma + 1 <= mb,
                    pa >= 1,
            ;
        } else {
            lemma_pow10_grows(a.exponent + s, b.exponent - 1 + s);
            assert(pow10(a.exponent + s) == pa * 10);
            assert((ma + 1) * pa <= 10 * (pa * 10)) by (nonlinear_arith)
                requires
                    ma + 1 <= 100,
                    pa >= 1,
            ;
            assert(10 * pb <= mb * pb) by (nonlinear_arith)
                requires
                    mb >= 10,
                    pb >= 1,
            ;
        }
    }
}

/// Where a walk comes to rest: inside the content, behind entries that all
/// weigh less than the rank, and at an entry that reaches the rank or is
/// the last.
pub proof fn lemma_advance_rests(s: Seq<Entry>, from: int, n: int, d: int)
    requires
        0 <= from < s.len(),
    ensures
        from <= advance(s, from, n, d) < s.len(),
        forall|k: int|
            from <= k < advance(s, from, n, d) ==> #[trigger] cumulative(s, k + 1) * d < n * total(
                s,
            ),
        advance(s, from, n, d) + 1 >= s.len() || !(cumulative(s, advance(s, from, n, d) + 1) * d
            < n * total(s)),
    decreases s.len() - from,
{
    if from + 1 < s.len() && cumulative(s, from + 1) * d < n * total(s) {
        lemma_advance_rests(s, from + 1, n, d);
    }
}

/// The facts about one quantile that the comparison of two rests on.
pub open spec fn rests(s: Seq<Entry>, q: Fraction, i: int) -> bool {
    let rank = q.numerator * total(s);
    let lower = cumulative(s, i) * q.denominator;
    let upper = cumulative(s, i + 1) * q.denominator;
    let e = estimate(s, q);
    &&& i == located(s, q)
    &&& 0 <= skip(s, 0) <= i < s.len()
    &&& !s[i].is_sentinel()
    &&& lower <= rank <= upper
    &&& e.left == s[i].left().unwrap()
    &&& e.width == s[i].bin_width().unwrap()
    &&& e.denominator > 0
    &&& e.numerator <= e.denominator
    &&& forall|k: int|
        skip(s, 0) <= k < i ==> #[trigger] cumulative(s, k + 1) * q.denominator < rank
    &&& i + 1 >= s.len() || !(upper < rank)
    &&& (if rank == lower {
        e.numerator == 0 && e.denominator == 1
    } else if rank == upper {
        e.numerator == 1 && e.denominator == 1
    } else if e.width.coefficient == 0 {
        e.numerator == 0 && e.denominator == 1
    } else {
        e.numerator == rank - lower && e.denominator == upper - lower
    })
}

/// Every quantile of a histogram that holds a sample rests in a regular
/// bucket, with the rank between the weights before and with that bucket.
pub proof fn lemma_rests(s: Seq<Entry>, q: Fraction)
    requires
        sorted(s),
        total(s) > 0,
        q.in_unit(),
    ensures
        rests(s, q, located(s, q)),
{
    let first = skip(s, 0);
    lemma_skip(s, 0);
    if first >= s.len() {
        lemma_weightless(s, s.len() as int);
    }
    let n = q.numerator as int;
    let d = q.denominator as int;
    lemma_advance_rests(s, first, n, d);
    let i = located(s, q);
    let sum = total(s) as int;
    let rank = n * sum;
    let lo = cumulative(s, i) as int;
    let up = cumulative(s, i + 1) as int;
    assert(rank >= 0) by (nonlinear_arith)
        requires
            rank == n * sum,
            n >= 0,
            sum >= 0,
    ;
    if i == first {
        assert(lo * d == 0) by (nonlinear_arith)
            requires
                lo == 0,
        ;
    } else {
        assert(cumulative(s, (i - 1) + 1) * d < n * total(s));
    }
    if i + 1 >= s.len() {
        assert(n * sum <= sum * d) by (nonlinear_arith)
            requires
                0 <= n <= d,
                sum >= 0,
        ;
        assert(up * d == sum * d);
    }
    assert(s[i].wf());
    assert(up - lo == weight(s[i]));
    assert(up * d - lo * d == (up - lo) * d) by (nonlinear_arith);
    assert((up - lo) * d <= u64::MAX * u64::MAX) by (nonlinear_arith)
        requires
            0 <= up - lo <= u64::MAX,
            0 <= d <= u64::MAX,
    ;
}

/// An estimate lies in a bucket of the histogram: its edge and width are
/// those of a regular entry, its denominator is not `0`, and its numerator
/// does not exceed the denominator.
pub proof fn lemma_estimate_in_bucket(s: Seq<Entry>, q: Fraction)
    requires
        sorted(s),
        total(s) > 0,
        q.in_unit(),
    ensures
        0 <= located(s, q) < s.len(),
        !s[located(s, q)].is_sentinel(),
        estimate(s, q).left == s[located(s, q)].left().unwrap(),
        estimate(s, q).width == s[located(s, q)].bin_width().unwrap(),
        estimate(s, q).denominator > 0,
        estimate(s, q).numerator <= estimate(s, q).denominator,
{
    lemma_rests(s, q);
}

/// The quantile of the lesser fraction rests no later than that of the
/// greater.
pub proof fn lemma_located_grows(s: Seq<Entry>, p: Fraction, q: Fraction)
    requires
        sorted(s),
        total(s) > 0,
        p.in_unit(),
        q.in_unit(),
        p.le(q),
    ensures
        located(s, p) <= located(s, q),
{
    lemma_rests(s, p);
    lemma_rests(s, q);
    let i = located(s, p);
    let j = located(s, q);
    if j < i {
        assert(cumulative(s, j + 1) * p.denominator < p.numerator * total(s));
        lemma_below_stays(cumulative(s, j + 1) as int, total(s) as int, p, q);
    }
}

/// Quantiles grow with their fraction: the estimate at the lesser of two
/// fractions is at most the estimate at the greater.
///
/// This holds of every histogram with a sample in which all regular
/// buckets below zero have one exponent: see [`negatives_aligned`].
pub proof fn lemma_quantile_monotone(s: Seq<Entry>, p: Fraction, q: Fraction)
    requires
        sorted(s),
        negatives_aligned(s),
        total(s) > 0,
        p.in_unit(),
        q.in_unit(),
        p.le(q),
    ensures
        estimate(s, p).le(estimate(s, q)),
{
    lemma_rests(s, p);
    lemma_rests(s, q);
    lemma_located_grows(s, p, q);
    let i = located(s, p);
    let j = located(s, q);
    let a = estimate(s, p);
    let b = estimate(s, q);
    let la = a.left.shifted(whole_shift());
    let wa = a.width.shifted(whole_shift());
    let lb = b.left.shifted(whole_shift());
    let wb = b.width.shifted(whole_shift());
    let na = a.numerator as int;
    let da = a.denominator as int;
    let nb = b.numerator as int;
    let db = b.denominator as int;
    if i < j {
        assert(s[i].precedes(s[j]));
        lemma_edges_ascend(s[i], s[j]);
        // The lesser estimate lies at or below the upper edge of its bucket,
        let below = la * da + wa * na;
        let edge = (la + wa) * da;
        assert(wa * na <= wa * da) by (nonlinear_arith)
            requires
                wa >= 0,
                na <= da,
        ;
        assert(edge == la * da + wa * da) by (nonlinear_arith)
            requires
                edge == (la + wa) * da,
        ;
        assert(below * db <= edge * db) by (nonlinear_arith)
            requires
                below <= edge,
                db > 0,
        ;
        // which is at or below the lower edge of the other bucket,
        assert(edge <= lb * da) by (nonlinear_arith)
            requires
                edge == (la + wa) * da,
                la + wa <= lb,
                da > 0,
        ;
        assert(edge * db <= (lb * da) * db) by (nonlinear_arith)
            requires
                edge <= lb * da,
                db > 0,
        ;
        // at or above which the greater estimate lies.
        let rise = wb * nb;
        assert(rise * da >= 0) by (nonlinear_arith)
            requires
                rise == wb * nb,
                wb >= 0,
                nb >= 0,
                da > 0,
        ;
        assert((lb * db + rise) * da == (lb * da) * db + rise * da) by (nonlinear_arith);
    } else {
        assert(i == j);
        assert(s[i].wf());
        lemma_width_not_negative(s[i]);
        lemma_share_grows(s, p, q, i);
        // Within one bucket the estimates go by their shares of the width.
        let x = na * db;
        let y = nb * da;
        assert(wa * x <= wa * y) by (nonlinear_arith)
            requires
                wa >= 0,
                x <= y,
        ;
        assert((la * da + wa * na) * db == la * (da * db) + wa * x) by (nonlinear_arith)
            requires
                x == na * db,
        ;
        assert((la * db + wa * nb) * da == la * (da * db) + wa * y) by (nonlinear_arith)
            requires
                y == nb * da,
        ;
    }
}

/// The width of a regular bucket is not negative.
pub proof fn lemma_width_not_negative(e: Entry)
    requires
        e.wf(),
        !e.is_sentinel(),
    ensures
        e.bin_width().unwrap().shifted(whole_shift()) >= 0,
{
    let k = e.exponent - 1 + whole_shift();
    lemma_pow10_step(whole_shift());
    if e.mantissa != 0 {
        lemma_pow10_step(k);
        assert(1 * pow10(k) >= 0) by (nonlinear_arith)
            requires
                pow10(k) >= 1,
        ;
    } else {
        assert(0 * pow10(whole_shift()) == 0) by (nonlinear_arith);
    }
}

/// Within one bucket, the share of the width that the lesser fraction
/// takes is at most that of the greater.
proof fn lemma_share_grows(s: Seq<Entry>, p: Fraction, q: Fraction, i: int)
    requires
        sorted(s),
        total(s) > 0,
        p.in_unit(),
        q.in_unit(),
        p.le(q),
        rests(s, p, i),
        rests(s, q, i),
    ensures
        estimate(s, p).numerator * estimate(s, q).denominator <= estimate(s, q).numerator
            * estimate(s, p).denominator,
{
    let a = estimate(s, p);
    let b = estimate(s, q);
    let sum = total(s) as int;
    let np = p.numerator as int;
    let dp = p.denominator as int;
    let nq = q.numerator as int;
    let dq = q.denominator as int;
    let rp = np * sum;
    let rq = nq * sum;
    let lo = cumulative(s, i) as int;
    let up = cumulative(s, i + 1) as int;
    let na = a.numerator as int;
    let da = a.denominator as int;
    let nb = b.numerator as int;
    let db = b.denominator as int;
    lemma_cumulative(s, i, i + 1);
    // The ranks are in the order of the fractions.
    assert(rp * dq <= rq * dp) by (nonlinear_arith)
        requires
            rp == np * sum,
            rq == nq * sum,
            np * dq <= nq * dp,
            sum >= 0,
    ;
    if rp == lo * dp {
        assert(na * db <= nb * da) by (nonlinear_arith)
            requires
                na == 0,
                nb >= 0,
                da >= 0,
        ;
    } else if rp == up * dp {
        // The greater fraction reaches the upper edge too.
        assert(rq >= up * dq) by (nonlinear_arith)
            requires
                rp * dq <= rq * dp,
                rp == up * dp,
                dp > 0,
        ;
        if rq == lo * dq {
            assert(lo == up) by (nonlinear_arith)
                requires
                    lo * dq == up * dq,
                    dq > 0,
            ;
        }
        assert(nb == 1 && db == 1 && na == 1 && da == 1);
        assert(na * db <= nb * da) by (nonlinear_arith)
            requires
                nb == 1 && db == 1 && na == 1 && da == 1,
        ;
    } else if a.width.coefficient == 0 {
        assert(na * db <= nb * da) by (nonlinear_arith)
            requires
                na == 0,
                nb >= 0,
                da >= 0,
        ;
    } else {
        if rq == lo * dq {
            assert(rp <= lo * dp) by (nonlinear_arith)
                requires
                    rp * dq <= rq * dp,
                    rq == lo * dq,
                    dq > 0,
            ;
        } else if rq == up * dq {
            assert(na * db <= nb * da) by (nonlinear_arith)
                requires
                    nb == 1 && db == 1 && na <= da,
            ;
        } else {
            let c = up - lo;
            let x = rp * dq - (lo * dp) * dq;
            let y = rq * dp - (lo * dq) * dp;
            assert(da == c * dp && db == c * dq) by (nonlinear_arith)
                requires
                    da == up * dp - lo * dp,
                    db == up * dq - lo * dq,
                    c == up - lo,
            ;
            assert(na * db == c * x) by (nonlinear_arith)
                requires
                    na == rp - lo * dp,
                    db == c * dq,
                    x == rp * dq - (lo * dp) * dq,
            ;
            assert(nb * da == c * y) by (nonlinear_arith)
                requires
                    nb == rq - lo * dq,
                    da == c * dp,
                    y == rq * dp - (lo * dq) * dp,
            ;
            assert((lo * dp) * dq == (lo * dq) * dp) by (nonlinear_arith);
            assert(c * x <= c * y) by (nonlinear_arith)
                requires
                    x <= y,
                    c >= 0,
            ;
        }
    }
}

} // verus!
