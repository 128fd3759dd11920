//! Bins: the identity of a bucket and its occurrence counter.

use std::cmp::Ordering;
use vstd::prelude::*;

verus! {

/// The smallest decimal exponent a bin can carry.
pub const MIN_EXPONENT: i8 = -128;

/// The largest decimal exponent a bin can carry.
pub const MAX_EXPONENT: i8 = 127;

/// The mantissa that marks the bin for values that fit no bucket.
pub const NAN_MANTISSA: i8 = -1;

/// A bucket of the histogram together with the number of samples it holds.
///
/// The bucket is named by a mantissa and a decimal exponent and stands for
/// the values from `mantissa / 10 * 10^exponent` up to, but not including,
/// the next bucket away from zero. Three shapes exist:
///
/// * the zero bucket, mantissa `0` and exponent `0`, which holds exactly `0`;
/// * the sentinel, mantissa `-1` and exponent `0`, which collects what no
///   bucket can hold: infinities, not-a-number and magnitudes of `10^128`
///   and more;
/// * a regular bucket, whose mantissa has a magnitude from `10` to `99`.
///
/// In specifications a bin is its [`Entry`].
#[derive(Clone, Copy, Debug, PartialEq, Eq, Structural)]
pub struct Bin {
    count: u64,
    val: i8,
    exp: i8,
}

/// What a [`Bin`] is in specifications: mantissa, exponent and count as
/// plain numbers.
pub struct Entry {
    pub mantissa: int,
    pub exponent: int,
    pub count: nat,
}

/// A sample as the encoder reads it.
///
/// A finite, non-zero sample `v` is described by its sign, by
/// `exponent = floor(log10(|v|))` and by `tenths = floor(|v| / 10^exponent * 10)`,
/// its two leading decimal digits. A front end that derives these from a
/// binary floating-point number may hand over an exponent outside the range
/// of a bin, or `tenths` of `100` where rounding carried into the next power
/// of ten; [`Bin::from_sample`] settles both.
#[derive(Clone, Copy, Debug, PartialEq, Eq, Structural)]
pub enum Sample {
    /// The value `0`.
    Zero,
    /// An infinity or not-a-number.
    NotFinite,
    /// Any other value: whether it lies below zero, the exponent of its
    /// leading digit, and its two leading digits.
    Finite { negative: bool, exponent: i64, tenths: i64 },
}

/// The exact number `coefficient * 10^exponent`.
#[derive(Clone, Copy, Debug, PartialEq, Eq, Structural)]
pub struct Decimal {
    pub coefficient: i32,
    pub exponent: i32,
}

/// `10^k`, and `1` for a negative `k`.
pub open spec fn pow10(k: int) -> int
    decreases k,
{
    if k <= 0 {
        1
    } else {
        10 * pow10(k - 1)
    }
}

/// The power of ten by which every edge, width and middle of a bucket
/// becomes a whole number.
pub open spec fn whole_shift() -> int {
    130
}

/// The sign of `m`: `-1`, `0` or `1`.
pub open spec fn sign(m: int) -> int {
    if m < 0 {
        -1
    } else if m == 0 {
        0
    } else {
        1
    }
}

/// The magnitude of `v`.
pub open spec fn magnitude(v: int) -> nat {
    if v < 0 {
        (-v) as nat
    } else {
        v as nat
    }
}

/// The result of adding a signed `delta` to an unsigned `count` without
/// wrapping: below `0` it stays at `0`, above `u64::MAX` at `u64::MAX`.
pub open spec fn saturating_sum(count: nat, delta: int) -> nat {
    if count + delta < 0 {
        0
    } else if count + delta > u64::MAX {
        u64::MAX as nat
    } else {
        (count + delta) as nat
    }
}

/// The number of decimal digits of `m`.
pub open spec fn digits(m: nat) -> nat
    decreases m,
{
    if m < 10 {
        1
    } else {
        1 + digits(m / 10)
    }
}

/// The two leading decimal digits of `m`, read as a number; `m` itself
/// where it has a single digit.
pub open spec fn leading(m: nat) -> nat
    decreases m,
{
    if m < 100 {
        m
    } else {
        leading(m / 10)
    }
}

/// The two leading digits of a non-zero magnitude in tenths: a single digit
/// `d` reads as `d.0`.
pub open spec fn leading_tenths(m: nat) -> nat {
    if m < 10 {
        m * 10
    } else {
        leading(m)
    }
}

impl Decimal {
    /// The number `0`.
    pub open spec fn zero() -> Decimal {
        Decimal { coefficient: 0, exponent: 0 }
    }

    /// The number times `10^shift`, which is whole where `shift` makes up
    /// for a negative exponent.
    pub open spec fn shifted(self, shift: int) -> int {
        self.coefficient * pow10(self.exponent + shift)
    }
}

impl Entry {
    /// The empty zero bucket.
    pub open spec fn zero() -> Entry {
        Entry { mantissa: 0, exponent: 0, count: 0 }
    }

    /// The empty sentinel.
    pub open spec fn nan() -> Entry {
        Entry { mantissa: NAN_MANTISSA as int, exponent: 0, count: 0 }
    }

    /// The bucket's name: its mantissa and its exponent.
    pub open spec fn key(self) -> (int, int) {
        (self.mantissa, self.exponent)
    }

    /// The same bucket with another count.
    pub open spec fn with_count(self, count: nat) -> Entry {
        Entry { count, ..self }
    }

    /// Whether the bucket is the sentinel: its mantissa has a magnitude
    /// from `1` to `9`, or of `100` and more.
    pub open spec fn is_sentinel(self) -> bool {
        let a = magnitude(self.mantissa);
        1 <= a <= 9 || a >= 100
    }

    /// Whether mantissa and exponent have one of the three shapes of a bin
    /// and the count fits its counter.
    pub open spec fn wf(self) -> bool {
        &&& self.count <= u64::MAX
        &&& {
            ||| self.mantissa == 0 && self.exponent == 0
            ||| self.mantissa == NAN_MANTISSA && self.exponent == 0
            ||| 10 <= magnitude(self.mantissa) <= 99 && MIN_EXPONENT <= self.exponent
                <= MAX_EXPONENT
        }
    }

    /// The order in which a histogram keeps its bins: whether `self` comes
    /// strictly before `other`.
    ///
    /// The sentinel comes before every other bin. Among the others a
    /// negative mantissa comes before zero and zero before a positive one;
    /// with equal signs the smaller exponent comes first, and with equal
    /// exponents the smaller mantissa. From zero upwards that is the order
    /// of the values. Below zero it is their order among buckets of one
    /// exponent, while of two exponents the smaller, whose buckets lie
    /// nearer to zero, comes first.
    pub open spec fn precedes(self, other: Entry) -> bool {
        if self.key() == other.key() {
            false
        } else if self.is_sentinel() {
            true
        } else if other.is_sentinel() {
            false
        } else if sign(self.mantissa) != sign(other.mantissa) {
            sign(self.mantissa) < sign(other.mantissa)
        } else if self.exponent != other.exponent {
            self.exponent < other.exponent
        } else {
            self.mantissa < other.mantissa
        }
    }

    /// The place of the bucket on a number line that follows
    /// [`Entry::precedes`].
    pub open spec fn rank(self) -> int {
        if self.is_sentinel() {
            -100000
        } else if self.mantissa < 0 {
            -50000 + (self.exponent + 128) * 100 + (self.mantissa + 100)
        } else if self.mantissa == 0 {
            0
        } else {
            (self.exponent + 128) * 100 + self.mantissa
        }
    }

    /// The value that names the bucket: the edge nearest to zero, which is
    /// `mantissa / 10 * 10^exponent`. The sentinel has none.
    pub open spec fn value(self) -> Option<Decimal> {
        if self.is_sentinel() {
            None
        } else if self.mantissa == 0 {
            Some(Decimal::zero())
        } else {
            Some(
                Decimal { coefficient: self.mantissa as i32, exponent: (self.exponent - 1) as i32 },
            )
        }
    }

    /// The width of the bucket: `10^exponent / 10`, and `0` for the zero
    /// bucket. The sentinel has none.
    pub open spec fn bin_width(self) -> Option<Decimal> {
        if self.is_sentinel() {
            None
        } else if self.mantissa == 0 {
            Some(Decimal::zero())
        } else {
            Some(Decimal { coefficient: 1, exponent: (self.exponent - 1) as i32 })
        }
    }

    /// The lower edge of the bucket: its value where that is not negative,
    /// else its value less its width. The sentinel has none.
    pub open spec fn left(self) -> Option<Decimal> {
        if self.is_sentinel() {
            None
        } else if self.mantissa == 0 {
            Some(Decimal::zero())
        } else if self.mantissa > 0 {
            Some(
                Decimal { coefficient: self.mantissa as i32, exponent: (self.exponent - 1) as i32 },
            )
        } else {
            Some(
                Decimal {
                    coefficient: (self.mantissa - 1) as i32,
                    exponent: (self.exponent - 1) as i32,
                },
            )
        }
    }

    /// The middle of the bucket: its value moved away from zero by half its
    /// width. The sentinel has none.
    pub open spec fn midpoint(self) -> Option<Decimal> {
        if self.is_sentinel() {
            None
        } else if self.mantissa == 0 {
            Some(Decimal::zero())
        } else if self.mantissa > 0 {
            Some(
                Decimal {
                    coefficient: (10 * self.mantissa + 5) as i32,
                    exponent: (self.exponent - 2) as i32,
                },
            )
        } else {
            Some(
                Decimal {
                    coefficient: (10 * self.mantissa - 5) as i32,
                    exponent: (self.exponent - 2) as i32,
                },
            )
        }
    }
}

/// The empty bin of a pre-digested finite sample.
///
/// An exponent below the range of a bin collapses to the zero bucket, one
/// above it to the sentinel. `tenths` of `100` is a rounding carry: it
/// becomes `10` at the next exponent, or the zero bucket where there is no
/// next exponent. `tenths` of `0` is the zero bucket, and anything that is
/// still not two digits long is the sentinel.
pub open spec fn encode_parts(negative: bool, exponent: int, tenths: int) -> Entry {
    if exponent < MIN_EXPONENT {
        Entry::zero()
    } else if exponent > MAX_EXPONENT {
        Entry::nan()
    } else if tenths == 100 {
        if exponent < MAX_EXPONENT {
            Entry { mantissa: if negative { -10 } else { 10 }, exponent: exponent + 1, count: 0 }
        } else {
            Entry::zero()
        }
    } else if tenths == 0 {
        Entry::zero()
    } else if 10 <= tenths <= 99 {
        Entry { mantissa: if negative { -tenths } else { tenths }, exponent, count: 0 }
    } else {
        Entry::nan()
    }
}

/// The empty bin of a sample.
pub open spec fn encode_sample(sample: Sample) -> Entry {
    match sample {
        Sample::Zero => Entry::zero(),
        Sample::NotFinite => Entry::nan(),
        Sample::Finite { negative, exponent, tenths } => encode_parts(
            negative,
            exponent as int,
            tenths as int,
        ),
    }
}

/// The empty bin of `value * 10^scale`.
///
/// The mantissa is made of the two leading digits of `value`, with its sign.
/// The exponent is that of the leading digit. Where it lies above the range
/// of a bin the result is the sentinel, where it lies below, the zero
/// bucket.
pub open spec fn encode_int_scale(value: int, scale: int) -> Entry {
    if value == 0 {
        Entry::zero()
    } else {
        let m = magnitude(value);
        let exponent = scale + digits(m) - 1;
        if exponent > MAX_EXPONENT {
            Entry::nan()
        } else if exponent < MIN_EXPONENT {
            Entry::zero()
        } else if value < 0 {
            Entry { mantissa: -(leading_tenths(m) as int), exponent, count: 0 }
        } else {
            Entry { mantissa: leading_tenths(m) as int, exponent, count: 0 }
        }
    }
}

impl View for Bin {
    type V = Entry;

    closed spec fn view(&self) -> Entry {
        Entry { mantissa: self.val as int, exponent: self.exp as int, count: self.count as nat }
    }
}

impl Bin {
    /// What holds of every bin: its entry is well-formed.
    #[verifier::type_invariant]
    pub open spec fn wf(self) -> bool {
        self@.wf()
    }

    /// Two bins with the same entry are the same bin.
    pub proof fn lemma_same(self, other: Bin)
        requires
            self@ == other@,
        ensures
            self == other,
    {
    }

    /// The mantissa of the bucket, in tenths.
    pub fn mantissa(&self) -> (m: i8)
        ensures
            m == self@.mantissa,
    {
        self.val
    }

    /// The decimal exponent of the bucket.
    pub fn exponent(&self) -> (e: i8)
        ensures
            e == self@.exponent,
    {
        self.exp
    }

    /// The number of samples in the bucket, the sentinel included.
    pub fn occurrences(&self) -> (count: u64)
        ensures
            count == self@.count,
    {
        self.count
    }

    /// The empty zero bucket.
    pub fn zero() -> (bin: Bin)
        ensures
            bin@ == Entry::zero(),
    {
        Bin { count: 0, val: 0, exp: 0 }
    }

    /// The empty sentinel.
    pub fn nan() -> (bin: Bin)
        ensures
            bin@ == Entry::nan(),
    {
        Bin { count: 0, val: NAN_MANTISSA, exp: 0 }
    }

    /// Whether the bucket is the sentinel.
    pub fn is_nan(&self) -> (nan: bool)
        ensures
            nan == self@.is_sentinel(),
    {
        let m: i8 = self.val;
        (1 <= m && m <= 9) || (-9 <= m && m <= -1) || m >= 100 || m <= -100
    }

    /// The number of samples in the bucket, unless it is the sentinel.
    pub fn count(&self) -> (count: Option<u64>)
        ensures
            count == (if self@.is_sentinel() {
                None
            } else {
                Some(self@.count as u64)
            }),
    {
        if self.is_nan() {
            return None;
        }
        Some(self.count)
    }

    /// The same bucket with `count` occurrences.
    pub fn with_count(self, count: u64) -> (bin: Bin)
        ensures
            bin@ == self@.with_count(count as nat),
    {
        proof {
            use_type_invariant(&self);
        }
        Bin { count, val: self.val, exp: self.exp }
    }

    /// Adds `delta` to the count, saturating at `0` and at `u64::MAX`.
    pub fn update(&mut self, delta: i64)
        ensures
            final(self)@ == old(self)@.with_count(saturating_sum(old(self)@.count, delta as int)),
    {
        proof {
            use_type_invariant(&*self);
        }
        if delta >= 0 {
            self.count = self.count.saturating_add(delta as u64);
        } else {
            let below: u64 = (-(delta + 1)) as u64 + 1;
            self.count = self.count.saturating_sub(below);
        }
    }

    /// The empty bin of a sample.
    ///
    /// Never fails: what fits no bucket goes to the sentinel, or to the zero
    /// bucket where it is too small.
    pub fn from_sample(sample: Sample) -> (bin: Bin)
        ensures
            bin@ == encode_sample(sample),
    {
        match sample {
            Sample::Zero => Bin::zero(),
            Sample::NotFinite => Bin::nan(),
            Sample::Finite { negative, exponent, tenths } => {
                if exponent < MIN_EXPONENT as i64 {
                    Bin::zero()
                } else if exponent > MAX_EXPONENT as i64 {
                    Bin::nan()
                } else if tenths == 100 {
                    if exponent < MAX_EXPONENT as i64 {
                        Bin {
                            count: 0,
                            val: if negative { -10 } else { 10 },
                            exp: (exponent + 1) as i8,
                        }
                    } else {
                        Bin::zero()
                    }
                } else if tenths == 0 {
                    Bin::zero()
                } else if 10 <= tenths && tenths <= 99 {
                    let t: i8 = tenths as i8;
                    Bin { count: 0, val: if negative { -t } else { t }, exp: exponent as i8 }
                } else {
                    Bin::nan()
                }
            },
        }
    }

    /// The empty bin of `value * 10^scale`, found without leaving the
    /// integers.
    pub fn from_int_scale(value: i64, scale: i32) -> (bin: Bin)
        ensures
            bin@ == encode_int_scale(value as int, scale as int),
    {
        if value == 0 {
            return Bin::zero();
        }
        let start: u64 = if value < 0 {
            (-(value + 1)) as u64 + 1
        } else {
            value as u64
        };
        let mut exponent: i64 = scale as i64;
        let mut m: u64 = start;
        if start < 10 {
            m = start * 10;
        } else {
            exponent = exponent + 1;
            proof {
                lemma_digits_u64(start);
            }
            while m >= 100
                invariant
                    10 <= m,
                    leading(m as nat) == leading(start as nat),
                    scale + digits(start as nat) - 1 == exponent + digits(m as nat) - 2,
                    digits(start as nat) <= 20,
                decreases m,
            {
                m = m / 10;
                exponent = exponent + 1;
            }
            assert(digits(m as nat) == 2) by {
                assert(digits((m / 10) as nat) == 1);
            }
        }
        if exponent > MAX_EXPONENT as i64 {
            Bin::nan()
        } else if exponent < MIN_EXPONENT as i64 {
            Bin::zero()
        } else {
            let t: i8 = m as i8;
            Bin { count: 0, val: if value < 0 { -t } else { t }, exp: exponent as i8 }
        }
    }

    /// The value that names the bucket, `None` for the sentinel.
    pub fn value(&self) -> (value: Option<Decimal>)
        ensures
            value == self@.value(),
    {
        if self.is_nan() {
            return None;
        }
        if self.val < 10 && self.val > -10 {
            return Some(Decimal { coefficient: 0, exponent: 0 });
        }
        Some(Decimal { coefficient: self.val as i32, exponent: self.exp as i32 - 1 })
    }

    /// The width of the bucket, `None` for the sentinel.
    pub fn bin_width(&self) -> (width: Option<Decimal>)
        ensures
            width == self@.bin_width(),
    {
        if self.is_nan() {
            return None;
        }
        if self.val < 10 && self.val > -10 {
            return Some(Decimal { coefficient: 0, exponent: 0 });
        }
        Some(Decimal { coefficient: 1, exponent: self.exp as i32 - 1 })
    }

    /// The lower edge of the bucket, `None` for the sentinel.
    pub fn left(&self) -> (left: Option<Decimal>)
        ensures
            left == self@.left(),
    {
        match self.value() {
            None => None,
            Some(v) => if v.coefficient >= 0 {
                Some(v)
            } else {
                Some(Decimal { coefficient: v.coefficient - 1, exponent: v.exponent })
            },
        }
    }

    /// The middle of the bucket, `None` for the sentinel.
    pub fn midpoint(&self) -> (middle: Option<Decimal>)
        ensures
            middle == self@.midpoint(),
    {
        match self.value() {
            None => None,
            Some(v) => if v.coefficient == 0 {
                Some(v)
            } else if v.coefficient > 0 {
                Some(Decimal { coefficient: 10 * v.coefficient + 5, exponent: v.exponent - 1 })
            } else {
                Some(Decimal { coefficient: 10 * v.coefficient - 5, exponent: v.exponent - 1 })
            },
        }
    }

    /// Whether both bins are the same bucket, whatever their counts.
    pub fn same_bucket(&self, other: &Bin) -> (same: bool)
        ensures
            same == (self@.key() == other@.key()),
    {
        self.exp == other.exp && self.val == other.val
    }

    /// Whether `self` comes strictly before `other` in a histogram.
    pub fn precedes(&self, other: &Bin) -> (before: bool)
        ensures
            before == self@.precedes(other@),
    {
        if self.same_bucket(other) {
            return false;
        }
        if self.is_nan() {
            return true;
        }
        if other.is_nan() {
            return false;
        }
        let mine: i8 = signum(self.val);
        let theirs: i8 = signum(other.val);
        if mine != theirs {
            mine < theirs
        } else if self.exp != other.exp {
            self.exp < other.exp
        } else {
            self.val < other.val
        }
    }

    /// Compares two bins by [`Entry::precedes`].
    pub fn cmp(&self, other: &Bin) -> (o: Ordering)
        ensures
            o == Ordering::Equal <==> self@.key() == other@.key(),
            o == Ordering::Less <==> self@.precedes(other@),
            o == Ordering::Greater <==> other@.precedes(self@),
    {
        proof {
            use_type_invariant(self);
            use_type_invariant(other);
        }
        if self.same_bucket(other) {
            Ordering::Equal
        } else if self.precedes(other) {
            Ordering::Less
        } else {
            Ordering::Greater
        }
    }
}

/// A bin of a histogram, borrowed to be written out as text.
#[must_use]
#[derive(Clone, Copy, Debug)]
pub struct DisplayBin<'hist>(pub(crate) &'hist Bin);

impl<'hist> View for DisplayBin<'hist> {
    type V = Entry;

    closed spec fn view(&self) -> Entry {
        self.0@
    }
}

impl<'hist> DisplayBin<'hist> {
    /// Borrows `bin` for display.
    pub fn new(bin: &'hist Bin) -> (shown: Self)
        ensures
            shown@ == bin@,
    {
        DisplayBin(bin)
    }

    /// The bin on display.
    pub fn bin(&self) -> (bin: &'hist Bin)
        ensures
            bin@ == self@,
    {
        self.0
    }
}

/// The sign of `v`: `-1`, `0` or `1`.
fn signum(v: i8) -> (s: i8)
    ensures
        s == sign(v as int),
{
    if v < 0 {
        -1
    } else if v == 0 {
        0
    } else {
        1
    }
}

/// On well-formed entries [`Entry::precedes`] is a strict total order:
/// [`Entry::rank`] embeds it into the integers, and two entries of one rank
/// name the same bucket.
pub proof fn lemma_rank(a: Entry, b: Entry)
    requires
        a.wf(),
        b.wf(),
    ensures
        a.precedes(b) <==> a.rank() < b.rank(),
        a.key() == b.key() <==> a.rank() == b.rank(),
        b.precedes(a) <==> b.rank() < a.rank(),
{
}

/// `10^(k + 1)` is ten times `10^k`, and every power of ten is positive.
pub proof fn lemma_pow10_step(k: int)
    requires
        k >= 0,
    ensures
        pow10(k + 1) == pow10(k) * 10,
        pow10(k) >= 1,
    decreases k,
{
    if k > 0 {
        lemma_pow10_step(k - 1);
    }
}

/// Powers of ten grow with the exponent.
pub proof fn lemma_pow10_grows(j: int, k: int)
    requires
        0 <= j <= k,
    ensures
        1 <= pow10(j) <= pow10(k),
    decreases k - j,
{
    lemma_pow10_step(j);
    if j < k {
        lemma_pow10_grows(j + 1, k);
    }
}

/// A number below `10^k` has at most `k` digits.
pub proof fn lemma_digits_below(m: nat, k: int)
    requires
        k >= 1,
        m < pow10(k),
    ensures
        digits(m) <= k,
    decreases k,
{
    if m >= 10 {
        if k == 1 {
            assert(pow10(1) == 10) by {
                reveal_with_fuel(pow10, 2);
            }
        } else {
            lemma_digits_below(m / 10, k - 1);
        }
    }
}

/// A 64-bit number has at most twenty digits.
pub proof fn lemma_digits_u64(m: u64)
    ensures
        1 <= digits(m as nat) <= 20,
{
    assert(pow10(20) == 100000000000000000000) by {
        reveal_with_fuel(pow10, 21);
    }
    lemma_digits_below(m as nat, 20);
}

/// The two leading digits of a number of two digits or more are two
/// digits, and they bracket the number: with `p = 10^(digits(m) - 2)`,
/// `leading(m) * p <= m < (leading(m) + 1) * p`.
pub proof fn lemma_leading(m: nat)
    requires
        m >= 10,
    ensures
        digits(m) >= 2,
        10 <= leading(m) <= 99,
        leading(m) * pow10(digits(m) - 2) <= m < (leading(m) + 1) * pow10(digits(m) - 2),
    decreases m,
{
    if m < 100 {
        assert(digits(m / 10) == 1);
        assert(digits(m) == 2);
        assert(pow10(0) == 1);
    } else {
        lemma_leading(m / 10);
        let l = leading(m / 10) as int;
        let k = digits(m / 10) - 2;
        let p = pow10(k);
        lemma_pow10_step(k);
        assert(pow10(digits(m) - 2) == p * 10);
        assert(l * (p * 10) == 10 * (l * p)) by (nonlinear_arith);
        assert((l + 1) * (p * 10) == 10 * ((l + 1) * p)) by (nonlinear_arith);
    }
}

/// The bucket of a number holds the number.
///
/// Where `value * 10^scale` is not `0` and its bin is a regular bucket with
/// the mantissa `t` in magnitude, at the exponent `scale + k`, then
/// `t * 10^k <= 10 * |value| < (t + 1) * 10^k`: the number lies between the
/// value of its bucket and the value of the next. So the value of the
/// bucket falls short of the number by less than a tenth of the number,
/// and the middle of the bucket is off by no more than a twentieth of it.
pub proof fn lemma_bucket_holds_value(value: int, scale: int)
    requires
        value != 0,
        MIN_EXPONENT <= scale + digits(magnitude(value)) - 1 <= MAX_EXPONENT,
    ensures
        ({
            let bin = encode_int_scale(value, scale);
            let t = magnitude(bin.mantissa) as int;
            let k = bin.exponent - scale;
            let v = magnitude(value) as int;
            &&& bin.wf()
            &&& !bin.is_sentinel()
            &&& sign(bin.mantissa) == sign(value)
            &&& 10 <= t <= 99
            &&& k >= 0
            &&& t * pow10(k) <= 10 * v < (t + 1) * pow10(k)
            &&& 10 * (10 * v - t * pow10(k)) < 10 * v
            &&& -v <= 20 * v - (2 * t + 1) * pow10(k) <= v
        }),
{
    let m = magnitude(value);
    let bin = encode_int_scale(value, scale);
    let t = magnitude(bin.mantissa) as int;
    let k = bin.exponent - scale;
    let v = m as int;
    if m < 10 {
        assert(t == 10 * v);
        assert(k == 0);
        assert(pow10(0) == 1);
        assert(t * pow10(k) == 10 * v) by (nonlinear_arith)
            requires
                t == 10 * v,
                pow10(k) == 1,
        ;
        assert((t + 1) * pow10(k) == 10 * v + 1) by (nonlinear_arith)
            requires
                t == 10 * v,
                pow10(k) == 1,
        ;
        assert((2 * t + 1) * pow10(k) == 20 * v + 1) by (nonlinear_arith)
            requires
                t == 10 * v,
                pow10(k) == 1,
        ;
    } else {
        lemma_leading(m);
        let q = pow10(digits(m) - 2);
        lemma_pow10_step(digits(m) - 2);
        assert(pow10(k) == q * 10);
        assert(t * (q * 10) == 10 * (t * q)) by (nonlinear_arith);
        assert((t + 1) * (q * 10) == 10 * ((t + 1) * q)) by (nonlinear_arith);
        assert((2 * t + 1) * (q * 10) == 20 * (t * q) + 10 * q) by (nonlinear_arith);
        assert((t + 1) * q == t * q + q) by (nonlinear_arith);
        assert(10 * q <= t * q) by (nonlinear_arith)
            requires
                t >= 10,
                q >= 1,
        ;
    }
}

/// Both encoders agree.
///
/// A sample that is handed over with the sign, the exponent of the leading
/// digit and the two leading digits of `value * 10^scale` gets the bin that
/// the number gets from its integer and scale.
pub proof fn lemma_encoders_agree(value: int, scale: int)
    requires
        value != 0,
    ensures
        encode_parts(
            value < 0,
            scale + digits(magnitude(value)) - 1,
            leading_tenths(magnitude(value)) as int,
        ) == encode_int_scale(value, scale),
{
    let m = magnitude(value);
    if m >= 10 {
        lemma_leading(m);
    }
}

} // verus!
