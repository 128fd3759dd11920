//! Quantiles, interpolated over the sorted bins.

use crate::bin::{Bin, Decimal, Entry};
use crate::histogram::{sorted, Histogram};
use crate::wide::Wide;
use vstd::prelude::*;

verus! {

/// The fraction `numerator / denominator`.
///
/// A denominator of `0` names no number: such a fraction is neither less
/// than nor equal to any other, and lies outside every range.
#[derive(Clone, Copy, Debug, PartialEq, Eq, Structural)]
pub struct Fraction {
    pub numerator: i64,
    pub denominator: u64,
}

/// A point of a bucket: `left + numerator / denominator * width`.
///
/// In the estimates that a histogram hands out the denominator is not `0`
/// and the numerator does not exceed it: see
/// [`crate::monotone::lemma_estimate_in_bucket`].
#[derive(Clone, Copy, Debug, PartialEq, Eq, Structural)]
pub struct Estimate {
    /// The lower edge of the bucket.
    pub left: Decimal,
    /// The width of the bucket.
    pub width: Decimal,
    /// The share of the width that lies below the point, over
    /// `denominator`.
    pub numerator: u128,
    pub denominator: u128,
}

/// Why a quantile could not be estimated.
#[derive(Clone, Copy, Debug, PartialEq, Eq, Structural)]
#[non_exhaustive]
pub enum QuantileError {
    /// The histogram holds no sample outside the sentinel.
    EmptyHistogram,
    /// The fraction is not a number from `0` to `1`.
    OutOfBounds(Fraction),
}

/// Why a list of quantiles could not be estimated.
#[derive(Clone, Copy, Debug, PartialEq, Eq, Structural)]
#[non_exhaustive]
pub enum QuantilesError {
    /// One of them could not be estimated.
    Quantile(QuantileError),
    /// The fractions do not come in ascending order.
    NotSorted,
}

impl Fraction {
    /// Whether the fraction is a number from `0` to `1`.
    pub open spec fn in_unit(self) -> bool {
        self.denominator > 0 && 0 <= self.numerator <= self.denominator
    }

    /// Whether both fractions are numbers and `self` is at most `other`.
    pub open spec fn le(self, other: Fraction) -> bool {
        &&& self.denominator > 0
        &&& other.denominator > 0
        &&& self.numerator * other.denominator <= other.numerator * self.denominator
    }

    /// Whether the fraction is a number from `0` to `1`.
    pub fn is_in_unit(&self) -> (inside: bool)
        ensures
            inside == self.in_unit(),
    {
        self.denominator > 0 && 0 <= self.numerator && self.numerator as u64 <= self.denominator
    }

    /// Whether both fractions are numbers and `self` is at most `other`.
    pub fn is_le(&self, other: &Fraction) -> (below: bool)
        ensures
            below == self.le(*other),
    {
        if self.denominator == 0 || other.denominator == 0 {
            return false;
        }
        let a: i128 = self.numerator as i128;
        let b: i128 = other.denominator as i128;
        let c: i128 = other.numerator as i128;
        let d: i128 = self.denominator as i128;
        assert(-0x7fff_ffff_ffff_ffff_ffff_ffff_ffff_ffff <= a * b
            <= 0x7fff_ffff_ffff_ffff_ffff_ffff_ffff_ffff) by (nonlinear_arith)
            requires
                -0x8000_0000_0000_0000 <= a <= 0x7fff_ffff_ffff_ffff,
                0 <= b <= 0xffff_ffff_ffff_ffff,
        ;
        assert(-0x7fff_ffff_ffff_ffff_ffff_ffff_ffff_ffff <= c * d
            <= 0x7fff_ffff_ffff_ffff_ffff_ffff_ffff_ffff) by (nonlinear_arith)
            requires
                -0x8000_0000_0000_0000 <= c <= 0x7fff_ffff_ffff_ffff,
                0 <= d <= 0xffff_ffff_ffff_ffff,
        ;
        a * b <= c * d
    }
}

/// Whether each fraction is at most the one that follows it.
pub open spec fn ascending(fractions: Seq<Fraction>) -> bool {
    forall|k: int| 0 < k < fractions.len() ==> (#[trigger] fractions[k - 1]).le(fractions[k])
}

/// Whether each fraction is at most the one that follows it.
pub fn is_sorted(fractions: &[Fraction]) -> (sorted: bool)
    ensures
        sorted == ascending(fractions@),
{
    let mut k: usize = 1;
    while k < fractions.len()
        invariant
            1 <= k,
            forall|j: int| 0 < j < k && j < fractions@.len() ==> (#[trigger] fractions@[j - 1]).le(
                fractions@[j],
            ),
        decreases fractions.len() - k,
    {
        if !fractions[k - 1].is_le(&fractions[k]) {
            return false;
        }
        k += 1;
    }
    true
}

/// What an entry counts for in a quantile: its count, and nothing for the
/// sentinel.
pub open spec fn weight(e: Entry) -> nat {
    if e.is_sentinel() {
        0
    } else {
        e.count
    }
}

/// The weight of the first `n` entries of `s`.
pub open spec fn cumulative(s: Seq<Entry>, n: int) -> nat
    decreases n,
{
    if n <= 0 {
        0
    } else {
        cumulative(s, n - 1) + weight(s[n - 1])
    }
}

/// The weight of all entries of `s`.
pub open spec fn total(s: Seq<Entry>) -> nat {
    cumulative(s, s.len() as int)
}

/// The index of the first entry from `i` on that is not the sentinel, and
/// the length of `s` where there is none.
pub open spec fn skip(s: Seq<Entry>, i: int) -> int
    decreases s.len() - i,
{
    if 0 <= i < s.len() && s[i].is_sentinel() {
        skip(s, i + 1)
    } else {
        i
    }
}

/// Where a walk that stands at entry `i` comes to rest for the rank
/// `n / d * total(s)`: it moves on while the entries up to and including
/// the current one weigh less than the rank and another entry follows.
pub open spec fn advance(s: Seq<Entry>, i: int, n: int, d: int) -> int
    decreases s.len() - i,
{
    if 0 <= i && i + 1 < s.len() && cumulative(s, i + 1) * d < n * total(s) {
        advance(s, i + 1, n, d)
    } else {
        i
    }
}

/// The index of the entry in which the quantile `q` lies: the first one,
/// from the first that is not the sentinel, up to which the entries weigh
/// as much as the rank `q * total(s)`.
pub open spec fn located(s: Seq<Entry>, q: Fraction) -> int {
    advance(s, skip(s, 0), q.numerator as int, q.denominator as int)
}

/// The estimate of the quantile `q` of a histogram with content `s`.
///
/// With `lower` the weight of the entries before the located one and
/// `upper` that weight with the located one, the estimate is the lower
/// edge of the bucket where the rank equals `lower`, its upper edge where
/// the rank equals `upper`, its lower edge where the bucket has no width,
/// and otherwise lies between the edges as the rank lies between `lower`
/// and `upper`.
pub open spec fn estimate(s: Seq<Entry>, q: Fraction) -> Estimate {
    let i = located(s, q);
    let rank = q.numerator * total(s);
    let lower = cumulative(s, i) * q.denominator;
    let upper = cumulative(s, i + 1) * q.denominator;
    let left = s[i].left().unwrap();
    let width = s[i].bin_width().unwrap();
    if rank == lower {
        Estimate { left, width, numerator: 0, denominator: 1 }
    } else if rank == upper {
        Estimate { left, width, numerator: 1, denominator: 1 }
    } else if width.coefficient == 0 {
        Estimate { left, width, numerator: 0, denominator: 1 }
    } else {
        Estimate {
            left,
            width,
            numerator: (rank - lower) as u128,
            denominator: (upper - lower) as u128,
        }
    }
}

/// The first fraction of `fractions` that is no number from `0` to `1`.
pub open spec fn first_outside(fractions: Seq<Fraction>) -> int
    decreases fractions.len(),
{
    if fractions.len() == 0 || !fractions[0].in_unit() {
        0
    } else {
        1 + first_outside(fractions.drop_first())
    }
}

/// The weight of the entries grows with their number and stays below
/// `2^64` times that number.
pub proof fn lemma_cumulative(s: Seq<Entry>, m: int, n: int)
    requires
        sorted(s),
        0 <= m <= n <= s.len(),
    ensures
        cumulative(s, m) <= cumulative(s, n),
        cumulative(s, n) <= n * u64::MAX,
    decreases n,
{
    if n > 0 {
        if m < n {
            lemma_cumulative(s, m, n - 1);
        } else {
            lemma_cumulative(s, n - 1, n - 1);
        }
        assert(s[n - 1].wf());
    }
}

/// In a sorted content the sentinel can only stand first: from the first
/// regular entry on, every entry is regular, and those before it weigh
/// nothing.
pub proof fn lemma_skip(s: Seq<Entry>, i: int)
    requires
        sorted(s),
        0 <= i <= s.len(),
        forall|j: int| 0 <= j < i ==> (#[trigger] s[j]).is_sentinel(),
    ensures
        i <= skip(s, i) <= s.len(),
        forall|j: int| 0 <= j < skip(s, i) ==> (#[trigger] s[j]).is_sentinel(),
        forall|j: int| skip(s, i) <= j < s.len() ==> !(#[trigger] s[j]).is_sentinel(),
        cumulative(s, skip(s, i)) == 0,
    decreases s.len() - i,
{
    if i < s.len() && s[i].is_sentinel() {
        lemma_skip(s, i + 1);
    } else {
        assert forall|j: int| i <= j < s.len() implies !(#[trigger] s[j]).is_sentinel() by {
            if j > i {
                assert(s[i].precedes(s[j]));
            }
        }
        lemma_weightless(s, i);
    }
}

/// Sentinels weigh nothing.
pub proof fn lemma_weightless(s: Seq<Entry>, i: int)
    requires
        0 <= i <= s.len(),
        forall|j: int| 0 <= j < i ==> (#[trigger] s[j]).is_sentinel(),
    ensures
        cumulative(s, i) == 0,
    decreases i,
{
    if i > 0 {
        lemma_weightless(s, i - 1);
        assert(s[i - 1].is_sentinel());
    }
}

/// A walk that has left behind only entries below the rank, and stands
/// where it comes to rest, stands at the located entry.
pub proof fn lemma_advance(s: Seq<Entry>, from: int, i: int, n: int, d: int)
    requires
        0 <= from <= i < s.len(),
        forall|j: int| from <= j < i ==> #[trigger] cumulative(s, j + 1) * d < n * total(s),
        i + 1 >= s.len() || !(cumulative(s, i + 1) * d < n * total(s)),
    ensures
        advance(s, from, n, d) == i,
    decreases i - from,
{
    if from < i {
        assert(cumulative(s, from + 1) * d < n * total(s));
        lemma_advance(s, from + 1, i, n, d);
    }
}

impl Histogram {
    /// The number of samples in the histogram, those in the sentinel left
    /// aside.
    pub fn total_count(&self) -> (sum: u128)
        ensures
            sum == total(self@),
    {
        proof {
            use_type_invariant(self);
        }
        let mut sum: u128 = 0;
        let mut i: usize = 0;
        while i < self.len()
            invariant
                i <= self@.len(),
                sorted(self@),
                sum == cumulative(self@, i as int),
                sum <= i * u64::MAX,
            decreases self@.len() - i,
        {
            let bin: Bin = self.bin(i).unwrap();
            let count: u64 = match bin.count() {
                Some(c) => c,
                None => 0,
            };
            sum = sum + count as u128;
            i += 1;
        }
        sum
    }
}

/// What [`Histogram::approx_quantiles`] and [`Histogram::quantiles`] return
/// for a histogram with content `s`.
///
/// No fractions give no estimates. Otherwise the fractions have to be
/// ascending, the histogram has to hold a sample outside the sentinel, and
/// every fraction has to be a number from `0` to `1`; the first of these
/// that fails decides the error, and the first fraction out of bounds is
/// reported.
pub open spec fn quantiles_of(s: Seq<Entry>, fractions: Seq<Fraction>) -> Result<
    Seq<Estimate>,
    QuantilesError,
> {
    if fractions.len() == 0 {
        Ok(Seq::empty())
    } else if !ascending(fractions) {
        Err(QuantilesError::NotSorted)
    } else if total(s) == 0 {
        Err(QuantilesError::Quantile(QuantileError::EmptyHistogram))
    } else if first_outside(fractions) < fractions.len() {
        Err(
            QuantilesError::Quantile(
                QuantileError::OutOfBounds(fractions[first_outside(fractions)]),
            ),
        )
    } else {
        Ok(Seq::new(fractions.len(), |k: int| estimate(s, fractions[k])))
    }
}

/// What [`Histogram::quantile`] returns for a histogram with content `s`.
pub open spec fn quantile_of(s: Seq<Entry>, q: Fraction) -> Result<Estimate, QuantileError> {
    if total(s) == 0 {
        Err(QuantileError::EmptyHistogram)
    } else if !q.in_unit() {
        Err(QuantileError::OutOfBounds(q))
    } else {
        Ok(estimate(s, q))
    }
}

/// The first fraction out of bounds is the one before which all are in
/// bounds.
pub proof fn lemma_first_outside(fractions: Seq<Fraction>, k: int)
    requires
        0 <= k <= fractions.len(),
        forall|j: int| 0 <= j < k ==> (#[trigger] fractions[j]).in_unit(),
        k < fractions.len() ==> !fractions[k].in_unit(),
    ensures
        first_outside(fractions) == k,
    decreases k,
{
    if k > 0 {
        let rest = fractions.drop_first();
        assert(fractions[0].in_unit());
        assert forall|j: int| 0 <= j < k - 1 implies (#[trigger] rest[j]).in_unit() by {
            assert(rest[j] == fractions[j + 1]);
        }
        if k < fractions.len() {
            assert(rest[k - 1] == fractions[k]);
        }
        lemma_first_outside(rest, k - 1);
    }
}

/// What weighs less than a rank weighs less than every rank above it.
pub proof fn lemma_below_stays(c: int, sum: int, p: Fraction, q: Fraction)
    requires
        0 <= c,
        0 <= sum,
        p.le(q),
        c * p.denominator < p.numerator * sum,
    ensures
        c * q.denominator < q.numerator * sum,
{
    let n1 = p.numerator as int;
    let d1 = p.denominator as int;
    let n2 = q.numerator as int;
    let d2 = q.denominator as int;
    assert((c * d1) * d2 < (n1 * sum) * d2) by (nonlinear_arith)
        requires
            c * d1 < n1 * sum,
            d2 > 0,
    ;
    assert((n1 * sum) * d2 == (n1 * d2) * sum) by (nonlinear_arith);
    assert((n1 * d2) * sum <= (n2 * d1) * sum) by (nonlinear_arith)
        requires
            n1 * d2 <= n2 * d1,
            sum >= 0,
    ;
    assert((c * d1) * d2 == (c * d2) * d1) by (nonlinear_arith);
    assert((n2 * d1) * sum == (n2 * sum) * d1) by (nonlinear_arith);
    assert(c * d2 < n2 * sum) by (nonlinear_arith)
        requires
            (c * d2) * d1 < (n2 * sum) * d1,
            d1 > 0,
    ;
}

impl Histogram {
    /// Estimates the quantiles at the given fractions, which have to come
    /// in ascending order.
    pub fn approx_quantiles<const QUANTILES: usize>(
        &self,
        quantiles: &[Fraction; QUANTILES],
    ) -> (estimates: Result<[Estimate; QUANTILES], QuantilesError>)
        ensures
            match quantiles_of(self@, quantiles@) {
                Ok(values) => estimates is Ok && estimates->Ok_0@ == values,
                Err(e) => estimates == Err::<[Estimate; QUANTILES], QuantilesError>(e),
            },
    {
        match self.quantiles(quantiles.as_slice()) {
            Err(e) => Err(e),
            Ok(values) => {
                let zero = Decimal { coefficient: 0, exponent: 0 };
                let mut out = [Estimate { left: zero, width: zero, numerator: 0, denominator: 1 };
                    QUANTILES];
                let mut k: usize = 0;
                while k < QUANTILES
                    invariant
                        k <= QUANTILES,
                        values@.len() == QUANTILES,
                        forall|j: int| 0 <= j < k ==> out@[j] == values@[j],
                    decreases QUANTILES - k,
                {
                    out[k] = values[k];
                    k += 1;
                }
                assert(out@ =~= values@);
                Ok(out)
            },
        }
    }

    /// Estimates the quantiles at a list of fractions of any length, which
    /// have to come in ascending order.
    ///
    /// The bins are walked once, from the first that is not the sentinel:
    /// the walk never turns back between one fraction and the next.
    pub fn quantiles(&self, quantiles: &[Fraction]) -> (estimates: Result<
        Vec<Estimate>,
        QuantilesError,
    >)
        ensures
            match quantiles_of(self@, quantiles@) {
                Ok(values) => estimates is Ok && estimates->Ok_0@ == values,
                Err(e) => estimates == Err::<Vec<Estimate>, QuantilesError>(e),
            },
    {
        proof {
            use_type_invariant(self);
        }
        let mut out: Vec<Estimate> = Vec::new();
        if quantiles.len() == 0 {
            assert(out@ =~= Seq::<Estimate>::empty());
            return Ok(out);
        }
        if !is_sorted(quantiles) {
            return Err(QuantilesError::NotSorted);
        }
        let sum: u128 = self.total_count();
        if sum == 0 {
            return Err(QuantilesError::Quantile(QuantileError::EmptyHistogram));
        }
        let mut k: usize = 0;
        while k < quantiles.len()
            invariant
                k <= quantiles@.len(),
                ascending(quantiles@),
                total(self@) > 0,
                forall|j: int| 0 <= j < k ==> (#[trigger] quantiles@[j]).in_unit(),
            decreases quantiles.len() - k,
        {
            if !quantiles[k].is_in_unit() {
                proof {
                    lemma_first_outside(quantiles@, k as int);
                }
                return Err(QuantilesError::Quantile(QuantileError::OutOfBounds(quantiles[k])));
            }
            k += 1;
        }
        proof {
            lemma_first_outside(quantiles@, quantiles@.len() as int);
        }
        let size: usize = self.len();
        let mut i: usize = 0;
        while i < size && self.bin(i).unwrap().is_nan()
            invariant
                i <= size,
                size == self@.len(),
                forall|j: int| 0 <= j < i ==> (#[trigger] self@[j]).is_sentinel(),
                skip(self@, 0) == skip(self@, i as int),
            decreases size - i,
        {
            i += 1;
        }
        proof {
            lemma_skip(self@, i as int);
            if i == size {
                lemma_weightless(self@, i as int);
            }
        }
        let ghost first: int = i as int;
        let mut lower: u128 = 0;
        let mut upper: u128 = self.bin(i).unwrap().occurrences() as u128;
        proof {
            lemma_cumulative(self@, i as int + 1, size as int);
        }
        k = 0;
        while k < quantiles.len()
            invariant
                k <= quantiles@.len(),
                sorted(self@),
                size == self@.len(),
                sum == total(self@),
                ascending(quantiles@),
                forall|j: int| 0 <= j < quantiles@.len() ==> (#[trigger] quantiles@[j]).in_unit(),
                first == skip(self@, 0),
                0 <= first <= i < size,
                k == 0 ==> i == first,
                forall|j: int| first <= j < size ==> !(#[trigger] self@[j]).is_sentinel(),
                cumulative(self@, first) == 0,
                lower == cumulative(self@, i as int),
                upper == cumulative(self@, i as int + 1),
                k > 0 ==> forall|j: int|
                    first <= j < i ==> #[trigger] cumulative(self@, j + 1) * quantiles@[k
                        - 1].denominator < quantiles@[k - 1].numerator * total(self@),
                out@.len() == k,
                forall|j: int|
                    0 <= j < k ==> (#[trigger] out@[j]) == estimate(self@, quantiles@[j]),
            decreases quantiles.len() - k,
        {
            let q: Fraction = quantiles[k];
            let ghost s = self@;
            assert(q.in_unit());
            let rank: Wide = Wide::product(sum, q.numerator as u64);
            proof {
                assert forall|j: int| first <= j < i implies #[trigger] cumulative(s, j + 1)
                    * q.denominator < q.numerator * total(s) by {
                    assert(k > 0);
                    assert(quantiles@[k - 1].le(quantiles@[k as int]));
                    lemma_below_stays(
                        cumulative(s, j + 1) as int,
                        total(s) as int,
                        quantiles@[k - 1],
                        q,
                    );
                }
            }
            while i + 1 < size && Wide::product(upper, q.denominator).lt(&rank)
                invariant
                    sorted(s),
                    s == self@,
                    size == s.len(),
                    sum == total(s),
                    rank@ == sum * q.numerator,
                    0 <= first <= i < size,
                    forall|j: int| first <= j < size ==> !(#[trigger] s[j]).is_sentinel(),
                    lower == cumulative(s, i as int),
                    upper == cumulative(s, i as int + 1),
                    forall|j: int|
                        first <= j < i ==> #[trigger] cumulative(s, j + 1) * q.denominator
                            < q.numerator * total(s),
                decreases size - i,
            {
                proof {
                    lemma_cumulative(s, i as int + 2, size as int);
                    assert(!s[i as int + 1].is_sentinel());
                    assert(sum * q.numerator == q.numerator * total(s)) by (nonlinear_arith)
                        requires
                            sum == total(s),
                    ;
                }
                i += 1;
                lower = upper;
                upper = lower + self.bin(i).unwrap().occurrences() as u128;
            }
            let bin: Bin = self.bin(i).unwrap();
            let left: Decimal = bin.left().unwrap();
            let width: Decimal = bin.bin_width().unwrap();
            let below: Wide = Wide::product(lower, q.denominator);
            let above: Wide = Wide::product(upper, q.denominator);
            proof {
                assert(sum * q.numerator == q.numerator * total(s)) by (nonlinear_arith)
                    requires
                        sum == total(s),
                ;
                lemma_advance(s, first, i as int, q.numerator as int, q.denominator as int);
                assert(located(s, q) == i);
                // The rank lies between the weight before the bin and the weight with it.
                if i as int == first {
                    assert(below@ == 0) by (nonlinear_arith)
                        requires
                            below@ == lower * q.denominator,
                            lower == 0,
                    ;
                    assert(rank@ >= 0) by (nonlinear_arith)
                        requires
                            rank@ == sum * q.numerator,
                            q.numerator >= 0,
                    ;
                } else {
                    assert(cumulative(s, (i - 1) + 1) * q.denominator < q.numerator * total(s));
                }
                if i + 1 >= size {
                    assert(q.numerator * total(s) <= total(s) * q.denominator) by (nonlinear_arith)
                        requires
                            q.numerator <= q.denominator,
                            total(s) >= 0,
                    ;
                }
                assert(below@ <= rank@ <= above@);
                assert(above@ - below@ == (upper - lower) * q.denominator) by (nonlinear_arith)
                    requires
                        above@ == upper * q.denominator,
                        below@ == lower * q.denominator,
                ;
                assert((upper - lower) * q.denominator <= u64::MAX * u64::MAX) by (nonlinear_arith)
                    requires
                        0 <= upper - lower <= u64::MAX,
                        0 <= q.denominator <= u64::MAX,
                ;
            }
            let value: Estimate = if rank.same(&below) {
                Estimate { left, width, numerator: 0, denominator: 1 }
            } else if rank.same(&above) {
                Estimate { left, width, numerator: 1, denominator: 1 }
            } else if width.coefficient == 0 {
                Estimate { left, width, numerator: 0, denominator: 1 }
            } else {
                Estimate {
                    left,
                    width,
                    numerator: rank.minus(&below),
                    denominator: (upper - lower) * (q.denominator as u128),
                }
            };
            assert(value == estimate(s, q));
            out.push(value);
            k += 1;
        }
        assert(out@ =~= Seq::new(quantiles@.len(), |k: int| estimate(self@, quantiles@[k])));
        Ok(out)
    }
}

impl Fraction {
    /// The fraction `0`.
    pub open spec fn zero() -> Fraction {
        Fraction { numerator: 0, denominator: 1 }
    }

    /// The fraction `1`.
    pub open spec fn one() -> Fraction {
        Fraction { numerator: 1, denominator: 1 }
    }
}

impl Histogram {
    /// Estimates the quantile at one fraction from `0` to `1`.
    ///
    /// Fails where the histogram holds no sample outside the sentinel, and
    /// otherwise where the fraction is out of bounds.
    pub fn quantile(&self, quantile: Fraction) -> (estimate: Result<Estimate, QuantileError>)
        ensures
            estimate == quantile_of(self@, quantile),
    {
        let list: [Fraction; 1] = [quantile];
        proof {
            if quantile.in_unit() {
                lemma_first_outside(list@, 1);
            } else {
                lemma_first_outside(list@, 0);
            }
        }
        match self.approx_quantiles(&list) {
            Ok(values) => Ok(values[0]),
            Err(QuantilesError::Quantile(e)) => Err(e),
            Err(QuantilesError::NotSorted) => vstd::pervasive::unreached(),
        }
    }

    /// The lower edge of the lowest bucket, the sentinel left aside; `None`
    /// where the histogram holds no sample outside the sentinel.
    pub fn min(&self) -> (least: Option<Estimate>)
        ensures
            least == (if total(self@) > 0 {
                Some(estimate(self@, Fraction::zero()))
            } else {
                None
            }),
    {
        match self.quantile(Fraction { numerator: 0, denominator: 1 }) {
            Ok(value) => Some(value),
            Err(_) => None,
        }
    }

    /// The upper edge of the highest bucket that holds a sample; `None`
    /// where the histogram holds no sample outside the sentinel.
    pub fn max(&self) -> (greatest: Option<Estimate>)
        ensures
            greatest == (if total(self@) > 0 {
                Some(estimate(self@, Fraction::one()))
            } else {
                None
            }),
    {
        match self.quantile(Fraction { numerator: 1, denominator: 1 }) {
            Ok(value) => Some(value),
            Err(_) => None,
        }
    }
}

} // verus!
