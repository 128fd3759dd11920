//! What a histogram holds, bucket by bucket, and what insertion and
//! merging do to it.

use crate::bin::{lemma_rank, saturating_sum, Entry};
use crate::histogram::{
    capped, inserted, lemma_insert_keeps_sorted, lemma_merged_sorted, lemma_slot_splits,
    lemma_sorted_part, merged, slot, sorted,
};
use vstd::prelude::*;

verus! {

/// The count that the content `s` holds for the bucket `key`, `None`
/// where it does not hold the bucket.
pub open spec fn tally(s: Seq<Entry>, key: (int, int)) -> Option<nat>
    decreases s.len(),
{
    if s.len() == 0 {
        None
    } else if s.last().key() == key {
        Some(s.last().count)
    } else {
        tally(s.drop_last(), key)
    }
}

/// Whether `s` holds, at index `i`, an entry of the bucket `key`.
pub open spec fn holds_at(s: Seq<Entry>, i: int, key: (int, int)) -> bool {
    0 <= i < s.len() && s[i].key() == key
}

/// The count of a bucket that a merge leaves: the count `mine` of the
/// histogram merged into, plus the count `theirs` of the other, capped at
/// `i64::MAX`; without the other's, `mine` as it is.
pub open spec fn merged_tally(mine: Option<nat>, theirs: Option<nat>) -> Option<nat> {
    match theirs {
        None => mine,
        Some(added) => Some(
            saturating_sum(
                match mine {
                    Some(held) => held,
                    None => 0,
                },
                capped(added),
            ),
        ),
    }
}

/// A tally is the count of an entry of that bucket, and `None` means that
/// no entry is of that bucket.
pub proof fn lemma_tally(s: Seq<Entry>, key: (int, int))
    ensures
        match tally(s, key) {
            Some(c) => exists|i: int| #[trigger] holds_at(s, i, key) && s[i].count == c,
            None => forall|i: int| !#[trigger] holds_at(s, i, key),
        },
    decreases s.len(),
{
    if s.len() > 0 {
        if s.last().key() == key {
            assert(holds_at(s, s.len() - 1, key));
        } else {
            let front = s.drop_last();
            lemma_tally(front, key);
            match tally(front, key) {
                Some(c) => {
                    let i = choose|i: int|
                        #[trigger] holds_at(front, i, key) && front[i].count == c;
                    assert(holds_at(s, i, key) && s[i].count == c);
                },
                None => {
                    assert forall|i: int| !#[trigger] holds_at(s, i, key) by {
                        if 0 <= i < front.len() {
                            assert(!holds_at(front, i, key));
                        }
                    }
                },
            }
        }
    }
}

/// In a sorted content each bucket stands once: the tally of the bucket
/// of an entry is the count of that entry.
pub proof fn lemma_tally_at(s: Seq<Entry>, i: int)
    requires
        sorted(s),
        0 <= i < s.len(),
    ensures
        tally(s, s[i].key()) == Some(s[i].count),
    decreases s.len(),
{
    if i < s.len() - 1 {
        assert(s[i].precedes(s[s.len() - 1]));
        lemma_sorted_part(s, 0, s.len() - 1);
        assert(s.drop_last() =~= s.subrange(0, s.len() - 1));
        lemma_tally_at(s.drop_last(), i);
    }
}

/// Two sorted contents that hold the same count for every bucket are the
/// same content.
pub proof fn lemma_same_tallies(a: Seq<Entry>, b: Seq<Entry>)
    requires
        sorted(a),
        sorted(b),
        forall|key: (int, int)| tally(a, key) == tally(b, key),
    ensures
        a == b,
    decreases a.len(),
{
    if a.len() == 0 {
        if b.len() > 0 {
            lemma_tally_at(b, b.len() - 1);
            assert(tally(a, b.last().key()) == tally(b, b.last().key()));
        }
        assert(a =~= b);
    } else {
        let x = a.last();
        lemma_tally_at(a, a.len() - 1);
        assert(tally(a, x.key()) == tally(b, x.key()));
        lemma_tally(b, x.key());
        let j = choose|j: int| #[trigger] holds_at(b, j, x.key()) && b[j].count == x.count;
        if j < b.len() - 1 {
            let y = b.last();
            assert(b[j].precedes(y));
            lemma_tally_at(b, b.len() - 1);
            assert(tally(a, y.key()) == tally(b, y.key()));
            lemma_tally(a, y.key());
            let i = choose|i: int| #[trigger] holds_at(a, i, y.key()) && a[i].count == y.count;
            lemma_rank(b[j], y);
            lemma_rank(a[i], y);
            lemma_rank(b[j], x);
            if i < a.len() - 1 {
                assert(a[i].precedes(x));
                lemma_rank(a[i], x);
            }
            assert(false);
        }
        assert(b.last() == x);
        let fa = a.drop_last();
        let fb = b.drop_last();
        lemma_sorted_part(a, 0, a.len() - 1);
        lemma_sorted_part(b, 0, b.len() - 1);
        assert(fa =~= a.subrange(0, a.len() - 1));
        assert(fb =~= b.subrange(0, b.len() - 1));
        assert forall|key: (int, int)| tally(fa, key) == tally(fb, key) by {
            if key == x.key() {
                lemma_tally(fa, key);
                lemma_tally(fb, key);
                if tally(fa, key) is Some {
                    let i = choose|i: int| #[trigger] holds_at(fa, i, key);
                    assert(a[i].precedes(a[a.len() - 1]));
                }
                if tally(fb, key) is Some {
                    let i = choose|i: int| #[trigger] holds_at(fb, i, key);
                    assert(b[i].precedes(b[b.len() - 1]));
                }
            } else {
                assert(tally(a, key) == tally(b, key));
            }
        }
        lemma_same_tallies(fa, fb);
        assert(a =~= fa.push(x));
        assert(b =~= fb.push(x));
    }
}

/// A sorted content with an entry of the bucket `key` has the tally of that
/// entry, and one without has none.
proof fn lemma_tally_found(s: Seq<Entry>, key: (int, int), i: int)
    requires
        sorted(s),
        0 <= i < s.len(),
        s[i].key() == key,
    ensures
        tally(s, key) == Some(s[i].count),
{
    lemma_tally_at(s, i);
}

/// What an insertion does to the tallies: the bucket of `bin` holds its
/// former count, or the count of `bin` where it was not held, moved by
/// `delta` and saturated; every other bucket holds what it held.
pub proof fn lemma_tally_inserted(s: Seq<Entry>, bin: Entry, delta: int, key: (int, int))
    requires
        sorted(s),
        bin.wf(),
    ensures
        tally(inserted(s, bin, delta), key) == (if key == bin.key() {
            Some(
                saturating_sum(
                    match tally(s, key) {
                        Some(held) => held,
                        None => bin.count,
                    },
                    delta,
                ),
            )
        } else {
            tally(s, key)
        }),
{
    let r = inserted(s, bin, delta);
    let at = slot(s, bin);
    lemma_slot_splits(s, bin);
    lemma_insert_keeps_sorted(s, bin, delta);
    lemma_tally(s, key);
    lemma_tally(r, key);
    if at < s.len() && s[at].key() == bin.key() {
        if key == bin.key() {
            lemma_tally_found(s, key, at);
            lemma_tally_found(r, key, at);
        } else {
            match tally(s, key) {
                Some(c) => {
                    let i = choose|i: int| #[trigger] holds_at(s, i, key) && s[i].count == c;
                    assert(r[i] == s[i]);
                    lemma_tally_found(r, key, i);
                },
                None => {
                    if tally(r, key) is Some {
                        let i = choose|i: int| #[trigger] holds_at(r, i, key);
                        assert(holds_at(s, i, key));
                    }
                },
            }
        }
    } else {
        assert forall|i: int| 0 <= i < s.len() implies (#[trigger] s[i]).key() != bin.key() by {
            if i < at {
                assert(s[i].precedes(bin));
            } else {
                assert(!s[i].precedes(bin));
                if i > at {
                    assert(s[at].precedes(s[i]));
                    lemma_rank(s[at], s[i]);
                    lemma_rank(s[at], bin);
                    lemma_rank(s[i], bin);
                }
            }
        }
        if key == bin.key() {
            lemma_tally_found(r, key, at);
        } else {
            match tally(s, key) {
                Some(c) => {
                    let i = choose|i: int| #[trigger] holds_at(s, i, key) && s[i].count == c;
                    if i < at {
                        assert(r[i] == s[i]);
                        lemma_tally_found(r, key, i);
                    } else {
                        assert(r[i + 1] == s[i]);
                        lemma_tally_found(r, key, i + 1);
                    }
                },
                None => {
                    if tally(r, key) is Some {
                        let i = choose|i: int| #[trigger] holds_at(r, i, key);
                        if i < at {
                            assert(holds_at(s, i, key));
                        } else {
                            assert(i > at);
                            assert(holds_at(s, i - 1, key));
                        }
                    }
                },
            }
        }
    }
}

/// What a merge does to the tallies: bucket by bucket, [`merged_tally`].
pub proof fn lemma_tally_merged(a: Seq<Entry>, b: Seq<Entry>, key: (int, int))
    requires
        sorted(a),
        sorted(b),
    ensures
        tally(merged(a, b), key) == merged_tally(tally(a, key), tally(b, key)),
    decreases b.len(),
{
    if b.len() > 0 {
        let front = b.drop_last();
        let last = b.last();
        lemma_sorted_part(b, 0, b.len() - 1);
        assert(front =~= b.subrange(0, b.len() - 1));
        lemma_merged_sorted(a, front);
        lemma_tally_merged(a, front, key);
        lemma_tally_inserted(merged(a, front), last.with_count(0), capped(last.count), key);
        if key == last.key() {
            lemma_tally(front, key);
            if tally(front, key) is Some {
                let i = choose|i: int| #[trigger] holds_at(front, i, key);
                assert(b[i].precedes(b[b.len() - 1]));
            }
        }
    }
}

/// Recording a bucket twice leaves one bin for it.
///
/// After two insertions of the bucket of `bin` the content is sorted, it is
/// as long as after the first, and it holds for that bucket the count from
/// before, or that of `bin` where the bucket is new, moved by the two
/// deltas in turn. Without saturation that is the sum of the three. No
/// other bucket has changed.
pub proof fn lemma_insert_twice(s: Seq<Entry>, bin: Entry, first: int, second: int)
    requires
        sorted(s),
        bin.wf(),
    ensures
        ({
            let once = inserted(s, bin, first);
            let twice = inserted(once, bin, second);
            let base = match tally(s, bin.key()) {
                Some(held) => held,
                None => bin.count,
            };
            &&& sorted(once)
            &&& sorted(twice)
            &&& twice.len() == once.len()
            &&& tally(twice, bin.key()) == Some(
                saturating_sum(saturating_sum(base, first), second),
            )
            &&& 0 <= first && 0 <= second && base + first + second <= u64::MAX ==> tally(
                twice,
                bin.key(),
            ) == Some((base + first + second) as nat)
            &&& forall|key: (int, int)| key != bin.key() ==> tally(twice, key) == tally(s, key)
        }),
{
    let once = inserted(s, bin, first);
    let twice = inserted(once, bin, second);
    lemma_insert_keeps_sorted(s, bin, first);
    lemma_insert_keeps_sorted(once, bin, second);
    lemma_tally_inserted(s, bin, first, bin.key());
    lemma_tally_inserted(once, bin, second, bin.key());
    assert forall|key: (int, int)| key != bin.key() implies tally(twice, key) == tally(
        s,
        key,
    ) by {
        lemma_tally_inserted(s, bin, first, key);
        lemma_tally_inserted(once, bin, second, key);
    }
    // The second insertion finds the bucket, and so adds no bin.
    lemma_slot_splits(once, bin);
    lemma_tally(once, bin.key());
    let i = choose|i: int| #[trigger] holds_at(once, i, bin.key());
    let at = slot(once, bin);
    if at > i {
        assert(once[i].precedes(bin));
    } else if at < i {
        assert(once[at].precedes(once[i]));
        assert(!once[at].precedes(bin));
        lemma_rank(once[at], once[i]);
        lemma_rank(once[at], bin);
        lemma_rank(once[i], bin);
    }
}

/// Whether merging `a` into `b` and `b` into `a` can agree: a bucket that
/// only one of them holds has a count of at most `i64::MAX`, and of the two
/// counts of a bucket that both hold, either both exceed `i64::MAX` or
/// neither does.
pub open spec fn balanced(a: Seq<Entry>, b: Seq<Entry>) -> bool {
    forall|key: (int, int)|
        match (#[trigger] tally(a, key), #[trigger] tally(b, key)) {
            (Some(x), Some(y)) => (x > i64::MAX) == (y > i64::MAX),
            (Some(x), None) => x <= i64::MAX,
            (None, Some(y)) => y <= i64::MAX,
            (None, None) => true,
        }
}

/// Whether no count of `s` exceeds `i64::MAX`, the most that one merge
/// adds to a bucket.
pub open spec fn within_cap(s: Seq<Entry>) -> bool {
    forall|i: int| 0 <= i < s.len() ==> (#[trigger] s[i]).count <= i64::MAX
}

/// Merging nothing changes nothing.
pub proof fn lemma_merge_empty(a: Seq<Entry>)
    ensures
        merged(a, Seq::<Entry>::empty()) == a,
{
}

/// Merging into nothing gives the histogram merged, as far as its counts
/// lie within the cap of a merge.
pub proof fn lemma_merge_into_empty(a: Seq<Entry>)
    requires
        sorted(a),
        within_cap(a),
    ensures
        merged(Seq::<Entry>::empty(), a) == a,
{
    let e = Seq::<Entry>::empty();
    assert(sorted(e));
    lemma_merged_sorted(e, a);
    assert forall|key: (int, int)| tally(merged(e, a), key) == tally(a, key) by {
        lemma_tally_merged(e, a, key);
        lemma_tally(a, key);
    }
    lemma_same_tallies(merged(e, a), a);
}

/// Merging is commutative.
///
/// It is for every pair of histograms that is [`balanced`]: beyond that the
/// cap of `i64::MAX` on what one merge adds to a bucket tells the two
/// directions apart.
pub proof fn lemma_merge_commutes(a: Seq<Entry>, b: Seq<Entry>)
    requires
        sorted(a),
        sorted(b),
        balanced(a, b),
    ensures
        merged(a, b) == merged(b, a),
{
    lemma_merged_sorted(a, b);
    lemma_merged_sorted(b, a);
    assert forall|key: (int, int)| tally(merged(a, b), key) == tally(merged(b, a), key) by {
        lemma_tally_merged(a, b, key);
        lemma_tally_merged(b, a, key);
        lemma_tally(a, key);
        lemma_tally(b, key);
    }
    lemma_same_tallies(merged(a, b), merged(b, a));
}

/// Merging is associative.
///
/// It is where the counts of `b` and `c`, and the sums of their counts for
/// one bucket, lie within the cap of a merge.
pub proof fn lemma_merge_associates(a: Seq<Entry>, b: Seq<Entry>, c: Seq<Entry>)
    requires
        sorted(a),
        sorted(b),
        sorted(c),
        within_cap(b),
        within_cap(c),
        within_cap(merged(b, c)),
    ensures
        merged(merged(a, b), c) == merged(a, merged(b, c)),
{
    lemma_merged_sorted(a, b);
    lemma_merged_sorted(b, c);
    lemma_merged_sorted(merged(a, b), c);
    lemma_merged_sorted(a, merged(b, c));
    assert forall|key: (int, int)|
        tally(merged(merged(a, b), c), key) == tally(merged(a, merged(b, c)), key) by {
        lemma_tally_merged(a, b, key);
        lemma_tally_merged(merged(a, b), c, key);
        lemma_tally_merged(b, c, key);
        lemma_tally_merged(a, merged(b, c), key);
        lemma_tally(a, key);
        lemma_tally(b, key);
        lemma_tally(c, key);
        lemma_tally(merged(b, c), key);
    }
    lemma_same_tallies(merged(merged(a, b), c), merged(a, merged(b, c)));
}

/// The number of samples that the content `s` holds in all its bins, the
/// sentinel included.
pub open spec fn occurrences(s: Seq<Entry>) -> nat
    decreases s.len(),
{
    if s.len() == 0 {
        0
    } else {
        occurrences(s.drop_last()) + s.last().count
    }
}

/// Putting an entry in between adds its count to the occurrences.
pub proof fn lemma_occurrences_insert(s: Seq<Entry>, at: int, e: Entry)
    requires
        0 <= at <= s.len(),
    ensures
        occurrences(s.insert(at, e)) == occurrences(s) + e.count,
    decreases s.len() - at,
{
    let r = s.insert(at, e);
    if at == s.len() {
        assert(r.drop_last() =~= s);
    } else {
        assert(r.drop_last() =~= s.drop_last().insert(at, e));
        lemma_occurrences_insert(s.drop_last(), at, e);
    }
}

/// Putting an entry in the place of another changes the occurrences by
/// the difference of their counts.
pub proof fn lemma_occurrences_update(s: Seq<Entry>, at: int, e: Entry)
    requires
        0 <= at < s.len(),
    ensures
        occurrences(s.update(at, e)) == occurrences(s) - s[at].count + e.count,
    decreases s.len() - at,
{
    let r = s.update(at, e);
    if at == s.len() - 1 {
        assert(r.drop_last() =~= s.drop_last());
    } else {
        assert(r.drop_last() =~= s.drop_last().update(at, e));
        lemma_occurrences_update(s.drop_last(), at, e);
    }
}

/// Every recording counts: an insertion of `delta` occurrences of an empty
/// bin raises the number of samples in the histogram by `delta`, or by
/// what is left of it where the count of the bucket saturates. No sample
/// is dropped for falling into the sentinel.
pub proof fn lemma_insert_counts(s: Seq<Entry>, bin: Entry, delta: int)
    requires
        sorted(s),
        bin.wf(),
        bin.count == 0,
        delta >= 0,
    ensures
        ({
            let held: nat = match tally(s, bin.key()) {
                Some(c) => c,
                None => 0,
            };
            &&& occurrences(inserted(s, bin, delta)) == occurrences(s) - held + saturating_sum(
                held,
                delta,
            )
            &&& held + delta <= u64::MAX ==> occurrences(inserted(s, bin, delta)) == occurrences(
                s,
            ) + delta
        }),
{
    let at = slot(s, bin);
    lemma_slot_splits(s, bin);
    if at < s.len() && s[at].key() == bin.key() {
        lemma_tally_at(s, at);
        lemma_occurrences_update(
            s,
            at,
            s[at].with_count(saturating_sum(s[at].count, delta)),
        );
    } else {
        lemma_tally(s, bin.key());
        if tally(s, bin.key()) is Some {
            let i = choose|i: int| #[trigger] holds_at(s, i, bin.key());
            if i < at {
                assert(s[i].precedes(bin));
            } else {
                assert(!s[i].precedes(bin));
                assert(s[at].precedes(s[i]));
                lemma_rank(s[at], s[i]);
                lemma_rank(s[at], bin);
                lemma_rank(s[i], bin);
            }
        }
        lemma_occurrences_insert(s, at, bin.with_count(saturating_sum(bin.count, delta)));
    }
}

} // verus!
