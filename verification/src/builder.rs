//! Setting up a histogram before it is made.

use crate::bin::Entry;
use crate::histogram::Histogram;
use vstd::prelude::*;

verus! {

/// What a histogram is made with: room for a number of bins, and whether
/// it may use lookup tables.
#[derive(Debug, Clone, Copy)]
#[must_use]
pub struct HistogramBuilder {
    lookup_tables: bool,
    bins: usize,
}

impl HistogramBuilder {
    /// The number of bins that a histogram has room for unless told
    /// otherwise.
    pub const DEFAULT_SIZE: usize = 100;

    /// The number of buckets that exist, beyond which room is never needed.
    pub const KEY_SPACE: usize = 65536;

    /// Whether the histogram may use lookup tables.
    pub closed spec fn uses_lookup_tables(self) -> bool {
        self.lookup_tables
    }

    /// The number of bins that the histogram gets room for.
    pub closed spec fn capacity(self) -> usize {
        self.bins
    }

    /// Sets whether the histogram may use lookup tables. The choice is
    /// kept, and changes nothing in what the histogram computes.
    pub fn with_lookup_tables(self, lookup_tables: bool) -> (builder: Self)
        ensures
            builder.uses_lookup_tables() == lookup_tables,
            builder.capacity() == self.capacity(),
    {
        HistogramBuilder { lookup_tables, bins: self.bins }
    }

    /// Sets the number of bins that the histogram gets room for.
    pub fn bins(self, bins: usize) -> (builder: Self)
        ensures
            builder.uses_lookup_tables() == self.uses_lookup_tables(),
            builder.capacity() == bins,
    {
        HistogramBuilder { lookup_tables: self.lookup_tables, bins }
    }

    /// Makes an empty histogram.
    pub fn build(&self) -> (histogram: Histogram)
        ensures
            histogram@ == Seq::<Entry>::empty(),
    {
        let room: usize = if self.bins > Self::KEY_SPACE {
            Self::KEY_SPACE
        } else {
            self.bins
        };
        Histogram::with_capacity(room)
    }
}

impl Default for HistogramBuilder {
    /// Lookup tables allowed, and room for [`HistogramBuilder::DEFAULT_SIZE`]
    /// bins.
    fn default() -> (builder: Self)
        ensures
            builder.uses_lookup_tables(),
            builder.capacity() == HistogramBuilder::DEFAULT_SIZE,
    {
        HistogramBuilder { lookup_tables: true, bins: Self::DEFAULT_SIZE }
    }
}

} // verus!
