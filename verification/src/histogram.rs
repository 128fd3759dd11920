//! The histogram: a sorted sequence of bins, one per bucket.

use crate::bin::{
    encode_int_scale, encode_sample, lemma_rank, saturating_sum, Bin, DisplayBin, Entry, Sample,
};
use crate::builder::HistogramBuilder;
use vstd::prelude::*;
use vstd::std_specs::cmp::PartialEqSpecImpl;

verus! {

/// A histogram of samples.
///
/// It holds one [`Bin`] for every bucket that was ever named to it, in the
/// order of [`Entry::precedes`] and without repetition. In specifications a
/// histogram is that sequence of entries, and it is always [`sorted`].
#[derive(Debug)]
pub struct Histogram {
    bins: Vec<Bin>,
}

/// No sample is rejected at present: every recording function returns `Ok`.
#[derive(Debug, PartialEq, Eq)]
#[non_exhaustive]
pub enum RecordError {
    /// Kept for samples that a later version may refuse.
    Rejected,
}

/// Whether `s` can be the content of a histogram: every entry is
/// well-formed, and each comes strictly before all that follow it.
pub open spec fn sorted(s: Seq<Entry>) -> bool {
    &&& forall|i: int| 0 <= i < s.len() ==> (#[trigger] s[i]).wf()
    &&& forall|i: int, j: int|
        0 <= i < j < s.len() ==> (#[trigger] s[i]).precedes(#[trigger] s[j])
}

/// The number of entries at the front of `s` that come before `probe`.
/// In a sorted sequence this is where the bucket of `probe` stands, or
/// where it has to go.
pub open spec fn slot(s: Seq<Entry>, probe: Entry) -> int
    decreases s.len(),
{
    if s.len() == 0 || !s[0].precedes(probe) {
        0
    } else {
        1 + slot(s.drop_first(), probe)
    }
}

/// The content of a histogram after `delta` occurrences of the bucket of
/// `bin` were added to the content `s`.
///
/// Where `s` holds the bucket, its count moves by `delta`, saturating at
/// `0` and at `u64::MAX`. Where it does not, `bin` enters at its place in
/// the order, with its own count moved by `delta` in the same way: a
/// negative `delta` leaves a new bucket with what is left of that count,
/// which is `0` for an empty `bin`.
pub open spec fn inserted(s: Seq<Entry>, bin: Entry, delta: int) -> Seq<Entry> {
    let at = slot(s, bin);
    if at < s.len() && s[at].key() == bin.key() {
        s.update(at, s[at].with_count(saturating_sum(s[at].count, delta)))
    } else {
        s.insert(at, bin.with_count(saturating_sum(bin.count, delta)))
    }
}

/// The most that one merge adds to a bucket for a count of `count`: the
/// count itself, capped at `i64::MAX`.
pub open spec fn capped(count: nat) -> int {
    if count > i64::MAX {
        i64::MAX as int
    } else {
        count as int
    }
}

/// The content of a histogram with content `s` after a histogram with
/// content `other` was merged into it: each bucket of `other`, in turn,
/// is added with its count, capped at `i64::MAX`.
///
/// Bucket by bucket, this is [`crate::counts::merged_tally`].
pub open spec fn merged(s: Seq<Entry>, other: Seq<Entry>) -> Seq<Entry>
    decreases other.len(),
{
    if other.len() == 0 {
        s
    } else {
        inserted(
            merged(s, other.drop_last()),
            other.last().with_count(0),
            capped(other.last().count),
        )
    }
}

impl View for Histogram {
    type V = Seq<Entry>;

    closed spec fn view(&self) -> Seq<Entry> {
        self.bins@.map_values(|b: Bin| b@)
    }
}

impl Histogram {
    /// What holds of every histogram: its content is sorted.
    #[verifier::type_invariant]
    pub open spec fn wf(self) -> bool {
        sorted(self@)
    }

    /// A builder with the default settings.
    pub fn build() -> (builder: HistogramBuilder)
        ensures
            builder.uses_lookup_tables(),
            builder.capacity() == HistogramBuilder::DEFAULT_SIZE,
    {
        HistogramBuilder::default()
    }

    /// An empty histogram.
    pub fn new() -> (histogram: Histogram)
        ensures
            histogram@ == Seq::<Entry>::empty(),
    {
        let histogram = Histogram { bins: Vec::new() };
        histogram
    }

    /// An empty histogram with room for `bins` bins.
    pub fn with_capacity(bins: usize) -> (histogram: Histogram)
        ensures
            histogram@ == Seq::<Entry>::empty(),
    {
        let histogram = Histogram { bins: Vec::with_capacity(bins) };
        histogram
    }

    /// The number of bins: one for each bucket that was named so far.
    pub fn len(&self) -> (n: usize)
        ensures
            n == self@.len(),
    {
        self.bins.len()
    }

    /// The number of bins in the histogram.
    pub fn bin_count(&self) -> (n: usize)
        ensures
            n == self@.len(),
    {
        self.bins.len()
    }

    /// Empties the histogram. The room it has is kept.
    pub fn clear(&mut self)
        ensures
            final(self)@ == Seq::<Entry>::empty(),
    {
        let mut bins: Vec<Bin> = Vec::new();
        std::mem::swap(&mut bins, &mut self.bins);
        bins.clear();
        self.bins = bins;
    }

    /// The bin at `index`, in the order of the histogram.
    pub fn bin(&self, index: usize) -> (bin: Option<Bin>)
        ensures
            bin is Some <==> index < self@.len(),
            bin is Some ==> bin.unwrap()@ == self@[index as int],
    {
        if index < self.bins.len() {
            Some(self.bins[index])
        } else {
            None
        }
    }

    /// The bins of the histogram, in order, each borrowed for display.
    pub fn display_bins(&self) -> (shown: Vec<DisplayBin<'_>>)
        ensures
            shown@.len() == self@.len(),
            forall|i: int| 0 <= i < shown@.len() ==> (#[trigger] shown@[i])@ == self@[i],
    {
        let mut shown: Vec<DisplayBin<'_>> = Vec::with_capacity(self.bins.len());
        let mut i: usize = 0;
        while i < self.bins.len()
            invariant
                i <= self.bins.len(),
                shown@.len() == i,
                self@.len() == self.bins.len(),
                forall|k: int| 0 <= k < i ==> (#[trigger] shown@[k])@ == self@[k],
            decreases self.bins.len() - i,
        {
            shown.push(DisplayBin::new(&self.bins[i]));
            i += 1;
        }
        shown
    }

    /// Finds the bucket of `bin` by bisection: `Ok` with its index where
    /// the histogram holds it, else `Err` with the index at which it has to
    /// enter.
    fn search(&self, bin: &Bin) -> (found: Result<usize, usize>)
        ensures
            match found {
                Ok(at) => at == slot(self@, bin@) && at < self@.len() && self@[at as int].key()
                    == bin@.key(),
                Err(at) => at == slot(self@, bin@) && at <= self@.len() && (at < self@.len()
                    ==> self@[at as int].key() != bin@.key()),
            },
    {
        proof {
            use_type_invariant(self);
            use_type_invariant(bin);
        }
        let mut low: usize = 0;
        let mut high: usize = self.bins.len();
        while low < high
            invariant
                0 <= low <= high <= self.bins.len(),
                self@.len() == self.bins.len(),
                sorted(self@),
                bin@.wf(),
                forall|i: int| 0 <= i < self.bins.len() ==> self@[i] == (#[trigger] self.bins[i])@,
                forall|i: int| 0 <= i < low ==> (#[trigger] self@[i]).precedes(bin@),
                forall|i: int| high <= i < self@.len() ==> !(#[trigger] self@[i]).precedes(bin@),
            decreases high - low,
        {
            let middle: usize = low + (high - low) / 2;
            if self.bins[middle].precedes(bin) {
                proof {
                    assert forall|i: int| 0 <= i < middle + 1 implies (
                    #[trigger] self@[i]).precedes(bin@) by {
                        if i < middle {
                            assert(self@[i].precedes(self@[middle as int]));
                            lemma_rank(self@[i], self@[middle as int]);
                            lemma_rank(self@[middle as int], bin@);
                            lemma_rank(self@[i], bin@);
                        }
                    }
                }
                low = middle + 1;
            } else {
                proof {
                    assert forall|i: int| middle <= i < self@.len() implies !(
                    #[trigger] self@[i]).precedes(bin@) by {
                        if i > middle {
                            assert(self@[middle as int].precedes(self@[i]));
                            lemma_rank(self@[i], self@[middle as int]);
                            lemma_rank(self@[middle as int], bin@);
                            lemma_rank(self@[i], bin@);
                        }
                    }
                }
                high = middle;
            }
        }
        proof {
            lemma_slot(self@, bin@, low as int);
        }
        if low < self.bins.len() && self.bins[low].same_bucket(bin) {
            Ok(low)
        } else {
            Err(low)
        }
    }

    /// Puts `bin` where the search for its bucket has ended: in the place
    /// of the bin that was found, or in between at the index that was
    /// found for it.
    fn place(&mut self, found: Result<usize, usize>, bin: Bin)
        requires
            match found {
                Ok(at) => at < old(self)@.len() && sorted(old(self)@.update(at as int, bin@)),
                Err(at) => at <= old(self)@.len() && sorted(old(self)@.insert(at as int, bin@)),
            },
        ensures
            final(self)@ == (match found {
                Ok(at) => old(self)@.update(at as int, bin@),
                Err(at) => old(self)@.insert(at as int, bin@),
            }),
    {
        let ghost before = self@;
        let mut bins: Vec<Bin> = Vec::new();
        std::mem::swap(&mut bins, &mut self.bins);
        assert(bins@.map_values(|b: Bin| b@) == before);
        match found {
            Ok(index) => {
                bins.set(index, bin);
                assert(bins@.map_values(|b: Bin| b@) =~= before.update(index as int, bin@));
            },
            Err(index) => {
                bins.insert(index, bin);
                assert(bins@.map_values(|b: Bin| b@) =~= before.insert(index as int, bin@));
            },
        }
        self.bins = bins;
    }

    /// Adds `delta` occurrences of the bucket of `bin`.
    ///
    /// Where the histogram holds the bucket, its count moves by `delta`.
    /// Where it does not, `bin` enters at its place in the order with its
    /// own count moved by `delta`; a negative `delta` then leaves a bin that
    /// holds nothing rather than no bin.
    pub fn insert(&mut self, bin: Bin, delta: i64)
        ensures
            final(self)@ == inserted(old(self)@, bin@, delta as int),
            sorted(final(self)@),
    {
        proof {
            use_type_invariant(&*self);
            use_type_invariant(&bin);
            lemma_insert_keeps_sorted(self@, bin@, delta as int);
        }
        let found = self.search(&bin);
        let mut moved: Bin = match found {
            Ok(index) => self.bins[index],
            Err(_) => bin,
        };
        moved.update(delta);
        self.place(found, moved);
    }

    /// Adds `count` occurrences of the bucket of `bin`, as [`Histogram::insert`]
    /// does, with a count that need not fit a signed number.
    pub fn add_occurrences(&mut self, bin: Bin, count: u64)
        ensures
            final(self)@ == inserted(old(self)@, bin@, count as int),
            sorted(final(self)@),
    {
        proof {
            use_type_invariant(&*self);
            use_type_invariant(&bin);
            lemma_insert_keeps_sorted(self@, bin@, count as int);
        }
        let found = self.search(&bin);
        let held: Bin = match found {
            Ok(index) => self.bins[index],
            Err(_) => bin,
        };
        self.place(found, held.with_count(held.occurrences().saturating_add(count)));
    }

    /// Records one occurrence of `val * 10^scale`.
    pub fn record_int_scale(&mut self, val: i64, scale: i32) -> (recorded: Result<
        &mut Self,
        RecordError,
    >)
        ensures
            recorded is Ok,
            recorded->Ok_0@ == inserted(old(self)@, encode_int_scale(val as int, scale as int), 1),
            sorted(recorded->Ok_0@),
            *final(self) == *final(recorded->Ok_0),
    {
        self.record_int_scales(val, scale, 1)
    }

    /// Records `n` occurrences of `val * 10^scale`.
    pub fn record_int_scales(&mut self, val: i64, scale: i32, n: i64) -> (recorded: Result<
        &mut Self,
        RecordError,
    >)
        ensures
            recorded is Ok,
            recorded->Ok_0@ == inserted(
                old(self)@,
                encode_int_scale(val as int, scale as int),
                n as int,
            ),
            sorted(recorded->Ok_0@),
            *final(self) == *final(recorded->Ok_0),
    {
        self.insert(Bin::from_int_scale(val, scale), n);
        Ok(self)
    }

    /// Records one occurrence of a sample.
    pub fn record(&mut self, val: Sample) -> (recorded: Result<&mut Self, RecordError>)
        ensures
            recorded is Ok,
            recorded->Ok_0@ == inserted(old(self)@, encode_sample(val), 1),
            sorted(recorded->Ok_0@),
            *final(self) == *final(recorded->Ok_0),
    {
        self.record_f64s(val, 1)
    }

    /// Records `n` occurrences of a sample.
    pub fn record_f64s(&mut self, val: Sample, n: i64) -> (recorded: Result<&mut Self, RecordError>)
        ensures
            recorded is Ok,
            recorded->Ok_0@ == inserted(old(self)@, encode_sample(val), n as int),
            sorted(recorded->Ok_0@),
            *final(self) == *final(recorded->Ok_0),
    {
        self.insert(Bin::from_sample(val), n);
        Ok(self)
    }

    /// Adds every bin of `other` to this histogram.
    ///
    /// The count of a bucket that both hold becomes the sum of the two
    /// counts, saturating at `u64::MAX`; a bucket that only `other` holds
    /// enters with its count. One merge adds at most `i64::MAX` to a
    /// bucket.
    pub fn merge_from(&mut self, other: &Histogram)
        ensures
            final(self)@ == merged(old(self)@, other@),
            sorted(final(self)@),
    {
        proof {
            use_type_invariant(&*self);
        }
        let mut i: usize = 0;
        while i < other.bins.len()
            invariant
                i <= other.bins.len(),
                other@.len() == other.bins.len(),
                forall|k: int|
                    0 <= k < other.bins.len() ==> other@[k] == (#[trigger] other.bins[k])@,
                self@ == merged(old(self)@, other@.take(i as int)),
                sorted(self@),
            decreases other.bins.len() - i,
        {
            let theirs: Bin = other.bins[i];
            let count: u64 = theirs.occurrences();
            let delta: i64 = if count > i64::MAX as u64 {
                i64::MAX
            } else {
                count as i64
            };
            proof {
                let next = other@.take(i as int + 1);
                assert(next.drop_last() =~= other@.take(i as int));
            }
            self.insert(theirs.with_count(0), delta);
            i += 1;
        }
        assert(other@.take(i as int) =~= other@);
    }
}

impl Default for Histogram {
    /// An empty histogram with room for the default number of bins.
    fn default() -> (histogram: Histogram)
        ensures
            histogram@ == Seq::<Entry>::empty(),
    {
        HistogramBuilder::default().build()
    }
}

impl PartialEq for Histogram {
    /// Whether both histograms hold the same bins with the same counts.
    fn eq(&self, other: &Self) -> (same: bool) {
        if self.bins.len() != other.bins.len() {
            return false;
        }
        let mut i: usize = 0;
        while i < self.bins.len()
            invariant
                self.bins.len() == other.bins.len(),
                self@.len() == self.bins.len(),
                other@.len() == other.bins.len(),
                i <= self.bins.len(),
                forall|k: int| 0 <= k < self.bins.len() ==> self@[k] == (#[trigger] self.bins[k])@,
                forall|k: int|
                    0 <= k < other.bins.len() ==> other@[k] == (#[trigger] other.bins[k])@,
                forall|k: int| 0 <= k < i ==> self@[k] == other@[k],
            decreases self.bins.len() - i,
        {
            if self.bins[i] != other.bins[i] {
                proof {
                    if self.bins[i as int]@ == other.bins[i as int]@ {
                        self.bins[i as int].lemma_same(other.bins[i as int]);
                    }
                }
                return false;
            }
            i += 1;
        }
        assert(self@ =~= other@);
        true
    }
}

impl PartialEqSpecImpl for Histogram {
    open spec fn obeys_eq_spec() -> bool {
        true
    }

    open spec fn eq_spec(&self, other: &Self) -> bool {
        self@ == other@
    }
}

impl Eq for Histogram {

}

/// Every part of a sorted content is sorted.
pub proof fn lemma_sorted_part(s: Seq<Entry>, from: int, to: int)
    requires
        sorted(s),
        0 <= from <= to <= s.len(),
    ensures
        sorted(s.subrange(from, to)),
{
    let t = s.subrange(from, to);
    assert forall|i: int| 0 <= i < t.len() implies (#[trigger] t[i]).wf() by {
        assert(t[i] == s[from + i]);
    }
    assert forall|i: int, j: int| 0 <= i < j < t.len() implies (#[trigger] t[i]).precedes(
        #[trigger] t[j],
    ) by {
        assert(t[i] == s[from + i]);
        assert(t[j] == s[from + j]);
    }
}

/// In a sorted content, the one index that splits it into what comes
/// before `probe` and what does not is `slot(s, probe)`.
pub proof fn lemma_slot(s: Seq<Entry>, probe: Entry, at: int)
    requires
        sorted(s),
        probe.wf(),
        0 <= at <= s.len(),
        forall|i: int| 0 <= i < at ==> (#[trigger] s[i]).precedes(probe),
        forall|i: int| at <= i < s.len() ==> !(#[trigger] s[i]).precedes(probe),
    ensures
        slot(s, probe) == at,
    decreases s.len(),
{
    if s.len() > 0 && at > 0 {
        let t = s.drop_first();
        assert(t =~= s.subrange(1, s.len() as int));
        lemma_sorted_part(s, 1, s.len() as int);
        assert forall|i: int| 0 <= i < at - 1 implies (#[trigger] t[i]).precedes(probe) by {
            assert(t[i] == s[i + 1]);
        }
        assert forall|i: int| at - 1 <= i < t.len() implies !(#[trigger] t[i]).precedes(
            probe,
        ) by {
            assert(t[i] == s[i + 1]);
        }
        lemma_slot(t, probe, at - 1);
        assert(s[0].precedes(probe));
    } else if s.len() > 0 {
        assert(!s[0].precedes(probe));
    }
}

/// What stands before the slot of `probe` in a sorted content comes before
/// `probe`, and nothing from the slot on does.
pub proof fn lemma_slot_splits(s: Seq<Entry>, probe: Entry)
    requires
        sorted(s),
        probe.wf(),
    ensures
        0 <= slot(s, probe) <= s.len(),
        forall|i: int| 0 <= i < slot(s, probe) ==> (#[trigger] s[i]).precedes(probe),
        forall|i: int| slot(s, probe) <= i < s.len() ==> !(#[trigger] s[i]).precedes(probe),
    decreases s.len(),
{
    if s.len() > 0 {
        let t = s.drop_first();
        assert(t =~= s.subrange(1, s.len() as int));
        lemma_sorted_part(s, 1, s.len() as int);
        lemma_slot_splits(t, probe);
        if s[0].precedes(probe) {
            assert forall|i: int| 0 <= i < slot(s, probe) implies (#[trigger] s[i]).precedes(
                probe,
            ) by {
                if i > 0 {
                    assert(s[i] == t[i - 1]);
                }
            }
            assert forall|i: int| slot(s, probe) <= i < s.len() implies !(
            #[trigger] s[i]).precedes(probe) by {
                assert(s[i] == t[i - 1]);
            }
        } else {
            assert forall|i: int| 0 <= i < s.len() implies !(#[trigger] s[i]).precedes(probe) by {
                if i > 0 {
                    assert(s[0].precedes(s[i]));
                    lemma_rank(s[0], s[i]);
                    lemma_rank(s[0], probe);
                    lemma_rank(s[i], probe);
                }
            }
        }
    }
}

/// The order of a histogram survives every insertion: what comes of a
/// sorted content is sorted.
pub proof fn lemma_insert_keeps_sorted(s: Seq<Entry>, bin: Entry, delta: int)
    requires
        sorted(s),
        bin.wf(),
    ensures
        sorted(inserted(s, bin, delta)),
{
    let r = inserted(s, bin, delta);
    let at = slot(s, bin);
    lemma_slot_splits(s, bin);
    if at < s.len() && s[at].key() == bin.key() {
        assert forall|i: int, j: int| 0 <= i < j < r.len() implies (#[trigger] r[i]).precedes(
            #[trigger] r[j],
        ) by {
            assert(s[i].precedes(s[j]));
        }
    } else {
        assert forall|i: int| 0 <= i < r.len() implies (#[trigger] r[i]).wf() by {
            if i < at {
                assert(r[i] == s[i]);
            } else if i > at {
                assert(r[i] == s[i - 1]);
            }
        }
        assert forall|i: int, j: int| 0 <= i < j < r.len() implies (#[trigger] r[i]).precedes(
            #[trigger] r[j],
        ) by {
            let a = if i < at {
                s[i]
            } else if i == at {
                bin
            } else {
                s[i - 1]
            };
            let b = if j < at {
                s[j]
            } else if j == at {
                bin
            } else {
                s[j - 1]
            };
            assert(r[i].key() == a.key() && r[j].key() == b.key());
            if j == at {
                assert(s[i].precedes(bin));
            } else if i == at {
                assert(!s[j - 1].precedes(bin));
                lemma_rank(s[j - 1], bin);
            } else {
                assert(a.precedes(b));
            }
        }
    }
}

/// The order of a histogram survives every merge.
pub proof fn lemma_merged_sorted(s: Seq<Entry>, other: Seq<Entry>)
    requires
        sorted(s),
        sorted(other),
    ensures
        sorted(merged(s, other)),
    decreases other.len(),
{
    if other.len() > 0 {
        let front = other.drop_last();
        assert(front =~= other.subrange(0, other.len() - 1));
        lemma_sorted_part(other, 0, other.len() - 1);
        lemma_merged_sorted(s, front);
        lemma_insert_keeps_sorted(
            merged(s, front),
            other.last().with_count(0),
            capped(other.last().count),
        );
    }
}

} // verus!
