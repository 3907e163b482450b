//! The refusals of the test and of its input layouts.
use vstd::prelude::*;

verus! {

/// Why an input, or the test itself, was refused. Each variant is one of the
/// refusals of the test; `line` and `group` are 1-based.
#[derive(Debug, Clone, Copy, PartialEq, Eq, Structural)]
pub enum FlignerError {
    /// A single-column input holds no value at all.
    NoData,
    /// A long-format line does not split into a value and a group label.
    ExpectedValueAndGroup { line: usize },
    /// A long-format input names fewer than two distinct groups.
    TooFewLongGroups,
    /// `--long` was given with other than exactly one input file.
    LongNeedsOneFile,
    /// Fewer than two single-column group files were given.
    TooFewGroupFiles,
    /// The test was asked of fewer than two groups.
    TooFewGroups,
    /// A group holds no value.
    EmptyGroup { group: usize },
    /// Trimming removes every value of a group.
    NothingLeftAfterTrimming,
}

} // verus!
