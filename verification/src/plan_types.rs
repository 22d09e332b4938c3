//! Core data types describing a rename batch.
use vstd::prelude::*;

verus! {

/// What kind of filesystem item a plan refers to.
#[derive(Debug, Clone, Copy, PartialEq, Eq, Structural)]
pub enum ItemKind {
    /// Regular file.
    File,
    /// Directory.
    Dir,
    /// Symbolic link (treated as a file; never followed).
    Symlink,
}

/// What kind of date was detected inside a filename.
#[derive(Debug, Clone, Copy, PartialEq, Eq, Structural)]
pub enum DateKind {
    /// Year-month only (e.g. `1975-08`).
    MonthOnly,
    /// Full calendar date (e.g. `2017-12-30`).
    DateOnly,
    /// Calendar date with time component (e.g. `2017-12-30T10-44-56`).
    DateTime,
}

/// The calendar fields of a parsed date and time.
#[derive(Debug, Clone, Copy, PartialEq, Eq, Structural)]
pub struct DateTimeParts {
    /// Proleptic Gregorian year.
    pub year: i32,
    /// Month, 1-based.
    pub month: u32,
    /// Day of the month, 1-based.
    pub day: u32,
    /// Hour (0-23).
    pub hour: u32,
    /// Minute (0-59).
    pub minute: u32,
    /// Second (0-59).
    pub second: u32,
}

/// A date span detected inside a filename.
#[derive(Debug, Clone)]
pub struct DetectedDate {
    /// Byte offset (in the substituted output string) where the ISO date starts.
    pub byte_start: usize,
    /// Byte offset (exclusive) where the ISO date ends.
    pub byte_end: usize,
    /// The ISO form that was written into the output.
    pub iso_string: String,
    /// Parsed date/time.
    pub parsed: DateTimeParts,
    /// Template from the format table that matched.
    pub original_format: &'static str,
    /// Granularity of the detected date.
    pub kind: DateKind,
}

/// A single planned rename operation. Produced by the planner; consumed by
/// the executor in bottom-up order.
#[derive(Debug, Clone)]
pub struct RenamePlan {
    /// Path of the item at planning time.
    pub original_path: String,
    /// Parent directory at planning time.
    pub parent: String,
    /// Original name (just the last path component).
    pub old_name: String,
    /// Target name (just the last component, in the new parent).
    pub new_name: String,
    /// Depth of the original path relative to the batch root.
    pub depth: usize,
    /// What kind of item this is.
    pub kind: ItemKind,
    /// The date detected while computing the new name, if any.
    pub detected_date: Option<DetectedDate>,
    /// Identifier grouping all plans of the same batch (a UUID).
    pub batch_id: u128,
}

} // verus!
