//! `fren` - file renamer that understands dates.
//!
//! The library: slugification with Unicode folding and case modes, date
//! detection inside file names with ISO 8601 rewriting, planning of rename
//! batches with conflict resolution, and name choice for directory merges.
use vstd::prelude::*;

pub mod date;
pub mod error;
pub mod execute;
pub mod listing;
pub mod merge;
pub mod merge_laws;
pub mod merge_order;
pub mod opts;
pub mod pager;
pub mod plan;
pub mod plan_types;
pub mod slug;
pub mod slugify;
pub mod text;

pub use date::formats::{format_kind, FormatSpec};
pub use date::parser::{detect_and_replace, detect_and_replace_with_span, try_date};
pub use error::FrenError;
pub use execute::{
    after_rename_reply, batch_id_of, check_path_bytes, rename_precheck, RenameReply, default_log_dir, empty_report, end_status, is_case_only_rename, kind_label,
    log_file_name, make_temp_path, needs_temp_retry, record_log_outcome, record_outcome, rename_preview, rename_record, rename_target,
    temp_path_with_id, uuid_string, ExecutionReport, LogRecord, LogSink, NullLogSink,
    NullProgressSink, ProgressSink,
};
pub use listing::{format_merge_line, format_rename_line, join_components, path_components, TermColor};
pub use merge::{merge_destination, unique_file_name, unique_file_name_avoiding, MergeMove, MergeReport};
pub use merge_order::sort_paths;
pub use opts::{ConflictPolicy, PlanOpts, RenameOpts};
pub use pager::{parse_pager_cmd, resolve_pager};
pub use plan::batch::{plan, plan_reorder, plan_reorder_with_year, plan_with_year};
pub use plan::conflict::{check_preexisting, check_within_batch, resolve_preexisting, resolve_within_batch};
pub use plan::names::{compute_new_name, reorder_new_name, DiscoveredItem};
pub use plan::naming::numbered_name;
pub use plan::paths::{join_paths, parent_path};
pub use plan::sort::sort_bottom_up;
pub use plan::walk::{is_excluded, is_hidden_entry, should_descend, starts_with_path};
pub use plan_types::{DateKind, DateTimeParts, DetectedDate, ItemKind, RenamePlan};
pub use slug::case::{apply, CaseMode};
pub use slug::normalize::{fold_to_ascii_keep, nfkc};
pub use slug::separator::{collapse_runs, replace_non_alnum};
pub use slug::{slugify, slugify_with_sentinel, SlugOpts};
pub use slugify::camel_iso::{
    post_dates, pre_dates, slugify_camel_iso, slugify_camel_iso_detect, slugify_camel_iso_with_year,
};
pub use slugify::textual::{normalize_textual_datetime, splice_textual, textual_replacement};

verus! {

/// Slugify a single string with the given options (see [`slugify`]).
pub fn slugify_str(input: &str, opts: &SlugOpts) -> (r: String)
    ensures
        r@ == slug::spec_slugify_with_sentinel(input@, opts.separator, *opts),
{
    slugify(input, opts)
}

} // verus!
