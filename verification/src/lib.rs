//! A log-linear histogram for numeric samples.
//!
//! Every sample falls into a bucket that keeps one decimal digit below its
//! leading digit: a sign, a power of ten and a two-digit mantissa. A
//! [`Histogram`] is a sorted sequence of [`Bin`]s, one for each bucket that
//! was named to it, with the number of samples in each. Quantiles are
//! interpolated over that sequence, two histograms merge by adding the
//! counts of matching buckets, and a histogram travels as a list of
//! `H[<value>]=<count>` tokens.
//!
//! All arithmetic in this crate is exact and in whole numbers. A caller
//! that holds binary floating-point numbers hands a sample over as a
//! [`Sample`] and a fraction as a [`Fraction`], and gets edges, widths,
//! quantiles and sums back as [`Decimal`]s, [`Estimate`]s and [`Sum`]s.
//!
//! The modules:
//!
//! * [`bin`]: buckets, their order and measures, and the two encoders;
//! * [`histogram`]: the sorted sequence, insertion and merging;
//! * [`counts`]: what a histogram holds bucket by bucket, and the laws of
//!   insertion and merging;
//! * [`quantile`]: fractions, ranks and estimates;
//! * [`monotone`]: quantiles grow with their fraction;
//! * [`sum`]: the sum and the mean of the samples;
//! * [`text`] and [`parse`]: writing and reading tokens;
//! * [`roundtrip`]: what is written reads back;
//! * [`builder`]: settings for a new histogram;
//! * [`wide`]: products that outgrow 128 bits.

pub mod bin;
pub mod builder;
pub mod counts;
pub mod histogram;
pub mod monotone;
pub mod parse;
pub mod quantile;
pub mod roundtrip;
pub mod sum;
pub mod text;
pub mod wide;

pub use bin::{Bin, Decimal, DisplayBin, Entry, Sample};
pub use builder::HistogramBuilder;
pub use histogram::{Histogram, RecordError};
pub use parse::{ParseBinError, ParseError};
pub use quantile::{Estimate, Fraction, QuantileError, QuantilesError};
pub use sum::{Mean, Sum};
