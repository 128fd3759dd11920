//! The sum and the mean of the samples, kept whole.
//!
//! Every sample counts with the middle of its bucket. As the buckets span
//! more than two hundred and fifty powers of ten, the sum is kept in
//! decimal digits.

use crate::bin::{lemma_pow10_step, lemma_rank, pow10, whole_shift, Bin, Entry};
use crate::counts::{
    holds_at, lemma_tally, lemma_tally_at, lemma_tally_merged, tally, within_cap,
};
use crate::histogram::{
    inserted, lemma_merged_sorted, lemma_slot_splits, lemma_sorted_part, merged, slot, sorted,
    Histogram,
};
use crate::quantile::total;
use vstd::prelude::*;

verus! {

/// The number that the decimal digits `d` spell, the lowest digit first.
pub open spec fn natural(d: Seq<u8>) -> int
    decreases d.len(),
{
    if d.len() == 0 {
        0
    } else {
        natural(d.drop_last()) + d.last() * pow10(d.len() - 1)
    }
}

/// Whether every element of `d` is a decimal digit.
pub open spec fn all_digits(d: Seq<u8>) -> bool {
    forall|i: int| 0 <= i < d.len() ==> #[trigger] d[i] <= 9
}

/// The digit of `d` at `i`, which is `0` beyond its length.
pub open spec fn digit_at(d: Seq<u8>, i: int) -> int {
    if 0 <= i < d.len() {
        d[i] as int
    } else {
        0
    }
}

/// The number that the lowest `n` digits of `d` spell.
pub open spec fn low(d: Seq<u8>, n: int) -> int {
    if n <= 0 {
        0
    } else if n >= d.len() {
        natural(d)
    } else {
        natural(d.take(n))
    }
}

/// A decimal number of any size: `natural(digits) * 10^-130`, negated where
/// `negative` is set. The digits come lowest first; zero has no sign.
#[derive(Debug, PartialEq, Eq)]
pub struct Sum {
    pub negative: bool,
    pub digits: Vec<u8>,
}

/// A mean: `sum / count`, with a `count` that is not `0`.
#[derive(Debug, PartialEq, Eq)]
pub struct Mean {
    pub sum: Sum,
    pub count: u128,
}

impl View for Sum {
    type V = int;

    /// The number times `10^130`, which is whole.
    open spec fn view(&self) -> int {
        if self.negative {
            -natural(self.digits@)
        } else {
            natural(self.digits@)
        }
    }
}

/// What an entry adds to the sum, times `10^130`: the middle of its bucket
/// times its count, and nothing for the sentinel.
pub open spec fn term(e: Entry) -> int {
    if e.is_sentinel() {
        0
    } else {
        e.midpoint().unwrap().shifted(whole_shift()) * e.count
    }
}

/// The sum of the samples of a histogram with content `s`, times `10^130`.
pub open spec fn sum_of(s: Seq<Entry>) -> int
    decreases s.len(),
{
    if s.len() == 0 {
        0
    } else {
        sum_of(s.drop_last()) + term(s.last())
    }
}

/// Digits spell a number below the power of ten of their length.
pub proof fn lemma_natural_bound(d: Seq<u8>)
    requires
        all_digits(d),
    ensures
        0 <= natural(d) < pow10(d.len() as int),
    decreases d.len(),
{
    if d.len() > 0 {
        let front = d.drop_last();
        assert(all_digits(front)) by {
            assert forall|i: int| 0 <= i < front.len() implies #[trigger] front[i] <= 9 by {
                assert(front[i] == d[i]);
            }
        }
        lemma_natural_bound(front);
        lemma_pow10_step(d.len() - 1);
        let p = pow10(d.len() - 1);
        assert(d.last() <= 9);
        assert(0 <= d.last() * p <= 9 * p) by (nonlinear_arith)
            requires
                0 <= d.last() <= 9,
                p >= 1,
        ;
    }
}

/// Another digit at the top adds itself times the power of ten of its
/// place.
pub proof fn lemma_natural_push(d: Seq<u8>, x: u8)
    ensures
        natural(d.push(x)) == natural(d) + x * pow10(d.len() as int),
{
    assert(d.push(x).drop_last() =~= d);
}

/// Another digit in a place changes the number by the difference of the
/// two digits times the power of ten of the place.
pub proof fn lemma_natural_update(d: Seq<u8>, i: int, x: u8)
    requires
        0 <= i < d.len(),
    ensures
        natural(d.update(i, x)) == natural(d) + (x - d[i]) * pow10(i),
    decreases d.len(),
{
    let r = d.update(i, x);
    if i == d.len() - 1 {
        assert(r.drop_last() =~= d.drop_last());
        let p = pow10(i);
        assert(x * p == d[i] * p + (x - d[i]) * p) by (nonlinear_arith);
    } else {
        assert(r.drop_last() =~= d.drop_last().update(i, x));
        lemma_natural_update(d.drop_last(), i, x);
    }
}

/// The lowest `n + 1` digits spell what the lowest `n` spell and the digit
/// above them adds.
pub proof fn lemma_low_step(d: Seq<u8>, n: int)
    requires
        0 <= n,
    ensures
        low(d, n + 1) == low(d, n) + digit_at(d, n) * pow10(n),
{
    if n < d.len() {
        let upper = d.take(n + 1);
        assert(upper.drop_last() =~= d.take(n));
        assert(upper.last() == d[n]);
        if n + 1 == d.len() {
            assert(upper =~= d);
        }
        if n == 0 {
            assert(natural(d.take(0)) == 0);
        }
    } else {
        assert(0 * pow10(n) == 0) by (nonlinear_arith);
        if n == 0 {
            assert(natural(d) == 0);
        }
    }
}


/// The most that one bin adds to the sum in whole units of its place: the
/// middle of the widest mantissa, `995`, times the largest count.
pub open spec fn largest_amount() -> int {
    995 * u64::MAX
}

/// Adds `amount * 10^at` to the number that `digits` spell.
fn add_at(digits: &mut Vec<u8>, amount: u128, at: usize)
    requires
        all_digits(old(digits)@),
        amount <= largest_amount(),
    ensures
        all_digits(final(digits)@),
        natural(final(digits)@) == natural(old(digits)@) + amount * pow10(at as int),
{
    let ghost target = natural(digits@) + amount * pow10(at as int);
    while digits.len() < at
        invariant
            all_digits(digits@),
            natural(digits@) + amount * pow10(at as int) == target,
        decreases at - digits.len(),
    {
        proof {
            lemma_natural_push(digits@, 0);
            assert(0 * pow10(digits@.len() as int) == 0) by (nonlinear_arith);
        }
        digits.push(0);
    }
    let mut carry: u128 = amount;
    let mut i: usize = at;
    while i < digits.len() && carry > 0
        invariant
            at <= i <= digits.len(),
            all_digits(digits@),
            carry <= amount <= largest_amount(),
            natural(digits@) + carry * pow10(i as int) == target,
        decreases digits.len() - i,
    {
        let sum: u128 = digits[i] as u128 + carry;
        let digit: u8 = (sum % 10) as u8;
        proof {
            lemma_natural_update(digits@, i as int, digit);
            lemma_pow10_step(i as int);
            let p = pow10(i as int);
            assert((digit - digits@[i as int]) * p + (sum / 10) * (p * 10) == carry * p)
                by (nonlinear_arith)
                requires
                    digit + 10 * (sum / 10) == digits@[i as int] + carry,
            ;
        }
        digits.set(i, digit);
        carry = sum / 10;
        i += 1;
    }
    proof {
        if carry == 0 {
            assert(0 * pow10(i as int) == 0) by (nonlinear_arith);
            assert(0 * pow10(digits@.len() as int) == 0) by (nonlinear_arith);
        }
    }
    while carry > 0
        invariant
            all_digits(digits@),
            natural(digits@) + carry * pow10(digits@.len() as int) == target,
        decreases carry,
    {
        let digit: u8 = (carry % 10) as u8;
        proof {
            lemma_natural_push(digits@, digit);
            lemma_pow10_step(digits@.len() as int);
            let p = pow10(digits@.len() as int);
            assert(digit * p + (carry / 10) * (p * 10) == carry * p) by (nonlinear_arith)
                requires
                    digit + 10 * (carry / 10) == carry,
            ;
        }
        digits.push(digit);
        carry = carry / 10;
    }
    proof {
        assert(0 * pow10(digits@.len() as int) == 0) by (nonlinear_arith);
    }
}

/// The digit of `d` at `i`, which is `0` beyond its length.
fn digit_of(d: &Vec<u8>, i: usize) -> (digit: u8)
    ensures
        digit == digit_at(d@, i as int),
{
    if i < d.len() {
        d[i]
    } else {
        0
    }
}

/// Takes `b` from `a` digit by digit, over the length of the longer. Where
/// `b` is the greater, the digits spell the difference above the power of
/// ten of that length, and the borrow says so.
fn minus(a: &Vec<u8>, b: &Vec<u8>) -> (difference: (Vec<u8>, bool))
    requires
        all_digits(a@),
        all_digits(b@),
    ensures
        all_digits(difference.0@),
        natural(difference.0@) == natural(a@) - natural(b@) + (if difference.1 {
            pow10(difference.0@.len() as int)
        } else {
            0
        }),
{
    let length: usize = if a.len() > b.len() {
        a.len()
    } else {
        b.len()
    };
    let mut digits: Vec<u8> = Vec::new();
    let mut borrow: bool = false;
    let mut i: usize = 0;
    while i < length
        invariant
            i <= length,
            length >= a@.len(),
            length >= b@.len(),
            all_digits(a@),
            all_digits(b@),
            all_digits(digits@),
            digits@.len() == i,
            natural(digits@) == low(a@, i as int) - low(b@, i as int) + (if borrow {
                pow10(i as int)
            } else {
                0
            }),
        decreases length - i,
    {
        let upper: i16 = digit_of(a, i) as i16;
        let lower: i16 = digit_of(b, i) as i16 + if borrow {
            1
        } else {
            0
        };
        let digit: u8 = if upper < lower {
            (upper + 10 - lower) as u8
        } else {
            (upper - lower) as u8
        };
        proof {
            lemma_low_step(a@, i as int);
            lemma_low_step(b@, i as int);
            lemma_natural_push(digits@, digit);
            lemma_pow10_step(i as int);
            let p = pow10(i as int);
            let x = digit_at(a@, i as int);
            let y = digit_at(b@, i as int);
            let before: int = if borrow {
                1
            } else {
                0
            };
            let after: int = if upper < lower {
                1
            } else {
                0
            };
            assert(before * p + digit * p == x * p - y * p + after * (p * 10)) by (nonlinear_arith)
                requires
                    before + digit == x - y + 10 * after,
            ;
            assert(1 * p == p && 0 * p == 0 && 1 * (p * 10) == p * 10 && 0 * (p * 10) == 0)
                by (nonlinear_arith);
        }
        borrow = upper < lower;
        digits.push(digit);
        i += 1;
    }
    (digits, borrow)
}

impl Histogram {
    /// The sum of the samples: each counts with the middle of its bucket,
    /// and those in the sentinel are left aside.
    pub fn approx_sum(&self) -> (sum: Sum)
        ensures
            sum@ == sum_of(self@),
            all_digits(sum.digits@),
            sum.negative ==> sum@ < 0,
    {
        proof {
            use_type_invariant(self);
        }
        let mut above: Vec<u8> = Vec::new();
        let mut below: Vec<u8> = Vec::new();
        let mut i: usize = 0;
        assert(self@.take(0) =~= Seq::<Entry>::empty());
        while i < self.len()
            invariant
                i <= self@.len(),
                sorted(self@),
                all_digits(above@),
                all_digits(below@),
                natural(above@) - natural(below@) == sum_of(self@.take(i as int)),
            decreases self@.len() - i,
        {
            let bin: Bin = self.bin(i).unwrap();
            proof {
                let next = self@.take(i as int + 1);
                assert(next.drop_last() =~= self@.take(i as int));
                assert(next.last() == bin@);
                assert(bin@.wf());
            }
            let mantissa: i8 = bin.mantissa();
            if !bin.is_nan() && mantissa != 0 {
                let tenths: u128 = if mantissa < 0 {
                    (-(mantissa as i16)) as u128
                } else {
                    mantissa as u128
                };
                let count: u128 = bin.occurrences() as u128;
                assert((10 * tenths + 5) * count <= 995 * u64::MAX) by (nonlinear_arith)
                    requires
                        0 <= tenths <= 99,
                        0 <= count <= u64::MAX,
                ;
                let amount: u128 = (10 * tenths + 5) * count;
                let at: usize = (bin.exponent() as i16 + 128) as usize;
                proof {
                    let p = pow10(at as int);
                    let c = count as int;
                    let t = 10 * tenths + 5;
                    assert(bin@.exponent - 2 + whole_shift() == at);
                    assert((t * p) * c == (t * c) * p) by (nonlinear_arith);
                    assert((-t * p) * c == -((t * c) * p)) by (nonlinear_arith);
                }
                if mantissa > 0 {
                    add_at(&mut above, amount, at);
                } else {
                    add_at(&mut below, amount, at);
                }
            } else {
                proof {
                    if !bin@.is_sentinel() {
                        assert(0 * pow10(whole_shift()) == 0) by (nonlinear_arith);
                        assert(0 * bin@.count == 0) by (nonlinear_arith);
                    }
                }
            }
            i += 1;
        }
        assert(self@.take(i as int) =~= self@);
        let (digits, borrow) = minus(&above, &below);
        if !borrow {
            return Sum { negative: false, digits };
        }
        // What lies below zero outweighs the rest: the sum is negative.
        let (magnitude, again) = minus(&below, &above);
        proof {
            lemma_natural_bound(digits@);
            lemma_natural_bound(magnitude@);
        }
        Sum { negative: true, digits: magnitude }
    }

    /// The mean of the samples: their sum over their number, those in the
    /// sentinel left aside. There is none where the histogram holds no
    /// sample outside the sentinel.
    pub fn approx_mean(&self) -> (mean: Option<Mean>)
        ensures
            mean is None <==> total(self@) == 0,
            mean is Some ==> mean->Some_0.sum@ == sum_of(self@) && mean->Some_0.count == total(
                self@,
            ) && all_digits(mean->Some_0.sum.digits@) && (mean->Some_0.sum.negative
                ==> sum_of(self@) < 0),
    {
        let count: u128 = self.total_count();
        if count == 0 {
            return None;
        }
        Some(Mean { sum: self.approx_sum(), count })
    }
}

/// Merging a histogram without bins changes neither sum nor mean.
pub proof fn lemma_sum_merge_empty(a: Seq<Entry>)
    ensures
        sum_of(merged(a, Seq::<Entry>::empty())) == sum_of(a),
        total(merged(a, Seq::<Entry>::empty())) == total(a),
{
}


/// Putting an entry in between adds its term to the sum.
pub proof fn lemma_sum_insert(s: Seq<Entry>, at: int, e: Entry)
    requires
        0 <= at <= s.len(),
    ensures
        sum_of(s.insert(at, e)) == sum_of(s) + term(e),
    decreases s.len() - at,
{
    let r = s.insert(at, e);
    if at == s.len() {
        assert(r.drop_last() =~= s);
    } else {
        assert(r.drop_last() =~= s.drop_last().insert(at, e));
        lemma_sum_insert(s.drop_last(), at, e);
    }
}

/// Putting an entry in the place of another changes the sum by the
/// difference of their terms.
pub proof fn lemma_sum_update(s: Seq<Entry>, at: int, e: Entry)
    requires
        0 <= at < s.len(),
    ensures
        sum_of(s.update(at, e)) == sum_of(s) - term(s[at]) + term(e),
    decreases s.len() - at,
{
    let r = s.update(at, e);
    if at == s.len() - 1 {
        assert(r.drop_last() =~= s.drop_last());
    } else {
        assert(r.drop_last() =~= s.drop_last().update(at, e));
        lemma_sum_update(s.drop_last(), at, e);
    }
}

/// Recording adds to the sum: an insertion of `delta` occurrences of an
/// empty bin raises the sum by the term of that bin with `delta`
/// occurrences, as long as the count of the bucket does not saturate.
pub proof fn lemma_sum_inserted(s: Seq<Entry>, bin: Entry, delta: int)
    requires
        sorted(s),
        bin.wf(),
        bin.count == 0,
        0 <= delta,
        delta + (match tally(s, bin.key()) {
            Some(held) => held,
            None => 0,
        }) <= u64::MAX,
    ensures
        sum_of(inserted(s, bin, delta)) == sum_of(s) + term(bin.with_count(delta as nat)),
{
    let at = slot(s, bin);
    lemma_slot_splits(s, bin);
    if at < s.len() && s[at].key() == bin.key() {
        lemma_tally_at(s, at);
        let held = s[at].count as int;
        lemma_sum_update(s, at, s[at].with_count((held + delta) as nat));
        if !bin.is_sentinel() {
            let middle = bin.midpoint().unwrap().shifted(whole_shift());
            assert(middle * (held + delta) == middle * held + middle * delta) by (nonlinear_arith);
        }
    } else {
        lemma_tally(s, bin.key());
        if tally(s, bin.key()) is Some {
            let i = choose|i: int| #[trigger] holds_at(s, i, bin.key());
            if i < at {
                assert(s[i].precedes(bin));
            } else {
                assert(!s[i].precedes(bin));
                assert(s[at].precedes(s[i]));
                lemma_rank(s[at], s[i]);
                lemma_rank(s[at], bin);
                lemma_rank(s[i], bin);
            }
        }
        lemma_sum_insert(s, at, bin.with_count(delta as nat));
    }
}

/// Whether no count saturates where `b` is merged into `a`: the counts of
/// `b` lie within the cap of a merge, and the two counts of a bucket add up
/// to no more than `u64::MAX`.
pub open spec fn merges_in_full(a: Seq<Entry>, b: Seq<Entry>) -> bool {
    &&& within_cap(b)
    &&& forall|key: (int, int)|
        (match #[trigger] tally(a, key) {
            Some(held) => held,
            None => 0,
        }) + (match #[trigger] tally(b, key) {
            Some(added) => added,
            None => 0,
        }) <= u64::MAX
}

/// Merging adds the sums, as long as no count saturates.
pub proof fn lemma_sum_merged(a: Seq<Entry>, b: Seq<Entry>)
    requires
        sorted(a),
        sorted(b),
        merges_in_full(a, b),
    ensures
        sum_of(merged(a, b)) == sum_of(a) + sum_of(b),
    decreases b.len(),
{
    if b.len() > 0 {
        let front = b.drop_last();
        let last = b.last();
        assert(front =~= b.subrange(0, b.len() - 1));
        lemma_sorted_part(b, 0, b.len() - 1);
        lemma_tally_at(b, b.len() - 1);
        // The last bucket of `b` stands in no other place of `b`.
        lemma_tally(front, last.key());
        if tally(front, last.key()) is Some {
            let i = choose|i: int| #[trigger] holds_at(front, i, last.key());
            assert(b[i].precedes(b[b.len() - 1]));
        }
        assert(merges_in_full(a, front)) by {
            assert forall|i: int| 0 <= i < front.len() implies (#[trigger] front[i]).count
                <= i64::MAX by {
                assert(front[i] == b[i]);
            }
            assert forall|key: (int, int)|
                (match #[trigger] tally(a, key) {
                    Some(held) => held,
                    None => 0,
                }) + (match #[trigger] tally(front, key) {
                    Some(added) => added,
                    None => 0,
                }) <= u64::MAX by {
                assert((match tally(a, key) {
                    Some(held) => held,
                    None => 0,
                }) + (match tally(b, key) {
                    Some(added) => added,
                    None => 0,
                }) <= u64::MAX);
            }
        }
        lemma_sum_merged(a, front);
        lemma_merged_sorted(a, front);
        lemma_tally_merged(a, front, last.key());
        assert(last.wf());
        assert((match tally(a, last.key()) {
            Some(held) => held,
            None => 0,
        }) + (match tally(b, last.key()) {
            Some(added) => added,
            None => 0,
        }) <= u64::MAX);
        assert(b[b.len() - 1].count <= i64::MAX);
        lemma_sum_inserted(merged(a, front), last.with_count(0), last.count as int);
    }
}

} // verus!
