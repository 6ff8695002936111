//! Comparison of instruction-count profiles across runs of a binary.
//!
//! The crate merges per-run symbol/instruction-count lists into one dense
//! symbol-by-run matrix, sorts it, and renders it back out as CSV, with
//! optional per-run differences and percentages against a reference run.

use vstd::prelude::*;

pub mod annotation;
pub mod args;
pub mod csv_io;
pub mod load;
pub mod num;
pub mod runs;
pub mod text;

verus! {

/// Everything that can go wrong while configuring or building a comparison.
#[derive(Debug, Clone, Copy, PartialEq, Eq, Structural)]
pub enum Error {
    /// An empty sort-by value.
    EmptySortBy,
    /// `column` given as a sort field without a column number.
    MissingSortColumn,
    /// A sort column number that does not parse.
    InvalidSortColumn,
    /// A sort field that is none of the accepted words.
    InvalidSortBy,
    /// A reference column number that does not parse.
    InvalidRelativeToColumn,
    /// A reference column that is none of the accepted words.
    InvalidRelativeTo,
    /// A show value that is none of the accepted words.
    InvalidShow,
    /// A color value that is none of the accepted words.
    InvalidColor,
    /// A string replacement without the `/` separator.
    MissingReplacementSeparator,
    /// The number of given column names does not match the number of
    /// annotation-report inputs.
    CsvNamesCountMismatch { names: usize, runs: usize },
    /// No input file was given.
    NoInputFile,
    /// No run was loaded from the inputs.
    NoInputRun,
    /// The requested sort column is not a loaded column.
    SortColumnOutOfRange { column: u32, runs: usize },
    /// The requested reference column is not a loaded column.
    RelativeToOutOfRange { column: u32, runs: usize },
    /// A CSV input the CSV library could not split into records.
    CsvStructure,
}

/// Saturating addition on `u64`, used wherever counts are accumulated.
pub open spec fn sat_add(a: u64, b: u64) -> u64 {
    if a + b > u64::MAX {
        u64::MAX
    } else {
        (a + b) as u64
    }
}

/// Add `b` onto `a`, clamping at the largest representable count.
pub fn sat_add_exec(a: u64, b: u64) -> (r: u64)
    ensures
        r == sat_add(a, b),
{
    if a <= u64::MAX - b {
        a + b
    } else {
        u64::MAX
    }
}

} // verus!
