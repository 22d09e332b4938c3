//! Option structs for the library entry points.
use vstd::prelude::*;
use crate::slug::SlugOpts;

verus! {

/// Conflict resolution policy when a rename target already exists or two
/// plans target the same path.
///
/// [`ConflictPolicy::Abort`] and [`ConflictPolicy::Number`] are fully
/// functional. [`ConflictPolicy::Skip`] and [`ConflictPolicy::Merge`] are
/// reserved and answer a conflict with
/// [`crate::FrenError::NotYetImplemented`].
#[derive(Debug, Clone, Copy, PartialEq, Eq, Structural)]
pub enum ConflictPolicy {
    /// Stop the batch on conflict.
    Abort,
    /// Append `-copy-{n}` to the stem of the conflicting target name (before
    /// the extension) until a free name is found, starting at n=1.
    ///
    /// Example: `report.tar.gz` becomes `report.tar-copy-1.gz`,
    /// `report.tar-copy-2.gz`, etc. This is the default policy.
    Number,
    /// Skip just the conflicting plan; continue the batch.
    Skip,
    /// For directory-vs-directory conflicts, recursively merge contents.
    Merge,
}

impl Default for ConflictPolicy {
    fn default() -> (r: Self)
        ensures
            r == ConflictPolicy::Number,
    {
        ConflictPolicy::Number
    }
}

/// Options for planning a rename batch.
#[derive(Debug, Clone)]
pub struct PlanOpts {
    /// Paths to exclude.
    pub exclude: Vec<String>,
    /// Whether to traverse subdirectories.
    pub recursive: bool,
    /// What to do on conflicts.
    pub on_conflict: ConflictPolicy,
}

impl Default for PlanOpts {
    fn default() -> (r: Self)
        ensures
            r.exclude@.len() == 0,
            !r.recursive,
            r.on_conflict == ConflictPolicy::Number,
    {
        PlanOpts { exclude: Vec::new(), recursive: false, on_conflict: ConflictPolicy::Number }
    }
}

/// Top-level options for a rename run (plan, then optionally apply).
#[derive(Debug, Clone)]
pub struct RenameOpts {
    /// Slugify options (separator, case).
    pub slugify: SlugOpts,
    /// Planning options (recursion, exclusion, conflict policy).
    pub plan: PlanOpts,
    /// `true` to actually execute the renames; `false` for dry-run (default).
    pub apply: bool,
}

impl Default for RenameOpts {
    fn default() -> (r: Self)
        ensures
            r.slugify.separator == '-',
            r.slugify.case == crate::slug::case::CaseMode::Preserve,
            !r.slugify.split_camel,
            r.plan.exclude@.len() == 0,
            !r.plan.recursive,
            r.plan.on_conflict == ConflictPolicy::Number,
            !r.apply,
    {
        RenameOpts { slugify: SlugOpts::default(), plan: PlanOpts::default(), apply: false }
    }
}

} // verus!
