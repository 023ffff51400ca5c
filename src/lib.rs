//! Summaries of command benchmarks, rendered as Markdown, AsciiDoc or Org-mode tables.
//!
//! Times are whole nanoseconds. Every statistic is exact: the mean, the sample
//! standard deviation, the extremes, the ratio against the fastest command and its
//! propagated uncertainty are rational numbers (or square roots of them), and each
//! shown digit is the exact rounding of that value, halves rounded up.
use vstd::prelude::*;

pub mod benchmark;
pub mod decimal;
pub mod export;
pub mod natural;
pub mod order;
pub mod quantity;
pub mod report;
pub mod rounding;
pub mod table;

verus! {

} // verus!
