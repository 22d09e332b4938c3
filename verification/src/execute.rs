//! Decisions of the executor.
use vstd::prelude::*;
use crate::text::{ascii_lower, ascii_lower_exec, chars_of};

verus! {

/// Whether `from` and `to` differ only in ASCII case (and are therefore
/// the "same path" on a case-insensitive filesystem).
pub fn is_case_only_rename(from: &str, to: &str) -> (b: bool)
    ensures
        b == (from@ != to@ && ascii_lower(from@) == ascii_lower(to@)),
{
    let f = chars_of(from);
    let t = chars_of(to);
    let same = chars_eq(&f, &t);
    if same {
        return false;
    }
    let fl = ascii_lower_exec(&f);
    let tl = ascii_lower_exec(&t);
    chars_eq(&fl, &tl)
}

/// Character-wise equality.
pub fn chars_eq(a: &Vec<char>, b: &Vec<char>) -> (r: bool)
    ensures
        r == (a@ == b@),
{
    if a.len() != b.len() {
        return false;
    }
    let mut i: usize = 0;
    while i < a.len()
        invariant
            i <= a.len(),
            a@.len() == b@.len(),
            forall|j: int| 0 <= j < i ==> a@[j] == b@[j],
        decreases a.len() - i,
    {
        if a[i] != b[i] {
            return false;
        }
        i += 1;
    }
    assert(a@ =~= b@);
    true
}

use crate::error::FrenError;
use crate::plan::conflict::plan_target;
use crate::plan::paths::{join_exec, join_path, parent_of, path_file_name, path_parent, file_name_of};
use crate::plan_types::{ItemKind, RenamePlan};
use crate::text::{extend_chars, string_from_chars};

/// A fresh version-7 UUID (`uuid::Uuid::now_v7`) as a 128-bit value. It
/// depends on the clock and on chance; nothing is stated of it.
#[verifier::external_body]
pub(crate) fn new_uuid_v7() -> (id: u128) {
    uuid::Uuid::now_v7().as_u128()
}

pub open spec fn pow16(k: nat) -> nat
    decreases k,
{
    if k == 0 {
        1
    } else {
        16 * pow16((k - 1) as nat)
    }
}

/// Lowercase hexadecimal digit of `d < 16`.
pub open spec fn hex_char(d: nat) -> char {
    if d < 10 {
        ((d + 48) as u32) as char
    } else {
        ((d + 87) as u32) as char
    }
}

/// The last `width` hexadecimal digits of `n`, most significant first.
pub open spec fn hex_digits(n: nat, width: nat) -> Seq<char> {
    Seq::new(width, |i: int| hex_char((n / pow16((width - 1 - i) as nat)) % 16))
}

/// The hyphenated lowercase form of a UUID with value `id`:
/// 8-4-4-4-12 hexadecimal digits.
pub open spec fn uuid_text(id: u128) -> Seq<char> {
    let h = hex_digits(id as nat, 32);
    h.subrange(0, 8) + seq!['-'] + h.subrange(8, 12) + seq!['-'] + h.subrange(12, 16) + seq!['-']
        + h.subrange(16, 20) + seq!['-'] + h.subrange(20, 32)
}

/// The display form of the UUID with value `id`
/// (`uuid::Uuid::from_u128(id).to_string()`): uuid displays the
/// hyphenated lowercase form, 8-4-4-4-12 hexadecimal digits of the value.
#[verifier::external_body]
fn uuid_display(id: u128) -> (r: String)
    ensures
        r@ == uuid_text(id),
{
    uuid::Uuid::from_u128(id).to_string()
}

/// The text of a batch id: the hyphenated lowercase form of the UUID with
/// value `id`.
pub fn uuid_string(id: u128) -> (r: String)
    ensures
        r@ == uuid_text(id),
{
    uuid_display(id)
}

/// Summary of an executed batch.
#[derive(Debug)]
pub struct ExecutionReport {
    /// Number of renames successfully applied.
    pub applied: usize,
    /// Number of plans skipped.
    pub skipped: usize,
    /// Errors encountered. The executor aborts on the first error, so this
    /// contains at most one entry.
    pub errors: Vec<FrenError>,
    /// Batch identifier of the run (a UUID), also recorded in the log.
    pub batch_id: u128,
    /// Path of the transaction log written for this batch (if any).
    pub log_path: Option<String>,
}

/// One record of the transaction log.
#[derive(Debug, Clone)]
pub enum LogRecord {
    /// Batch header, written first.
    Batch {
        /// Schema version.
        v: u32,
        /// Batch identifier (a UUID).
        id: u128,
        /// ISO timestamp.
        ts: String,
        /// Subcommand: `rename`, `merge`, etc.
        cmd: String,
        /// Original command-line arguments.
        args: Vec<String>,
        /// Working directory at invocation.
        cwd: String,
        /// Version string of the tool.
        fren_version: String,
    },
    /// Per-rename record.
    Rename {
        /// Schema version.
        v: u32,
        /// Per-record timestamp.
        ts: String,
        /// Original path.
        from: String,
        /// New path.
        to: String,
        /// Item kind: `file`, `dir`, `symlink`.
        kind: String,
    },
    /// Completion marker.
    End {
        /// Schema version.
        v: u32,
        /// Per-record timestamp.
        ts: String,
        /// `ok` / `partial` / `error`.
        status: String,
        /// Renames applied.
        applied: usize,
        /// Plans skipped.
        skipped: usize,
        /// Errors encountered.
        errors: usize,
    },
}

/// Sinks that record rename events.
pub trait LogSink {
    /// Append one record; the executor decides whether to continue.
    fn append(&mut self, record: &LogRecord) -> Result<(), FrenError>;

    /// Path of the underlying log file, if any.
    fn path(&self) -> Option<String>;
}

/// A sink that records nothing.
pub struct NullLogSink;

impl LogSink for NullLogSink {
    /// Accepts every record and keeps none.
    fn append(&mut self, record: &LogRecord) -> (r: Result<(), FrenError>)
        ensures
            r == Ok::<(), FrenError>(()),
    {
        Ok(())
    }

    /// There is no log file.
    fn path(&self) -> (r: Option<String>)
        ensures
            r == None::<String>,
    {
        None
    }
}

/// Callback invoked after each successful rename during execution.
pub trait ProgressSink {
    /// Called immediately after a rename succeeds.
    fn on_rename(&mut self, plan: &RenamePlan);
}

/// A progress sink that does nothing.
pub struct NullProgressSink;

impl ProgressSink for NullProgressSink {
    fn on_rename(&mut self, plan: &RenamePlan) {
    }
}

/// The path a plan renames to.
pub fn rename_target(plan: &RenamePlan) -> (r: String)
    ensures
        r@ == plan_target(*plan),
{
    let p = chars_of(plan.parent.as_str());
    let n = chars_of(plan.new_name.as_str());
    string_from_chars(&join_exec(&p, &n))
}

pub open spec fn kind_text(kind: ItemKind) -> Seq<char> {
    match kind {
        ItemKind::File => seq!['f', 'i', 'l', 'e'],
        ItemKind::Dir => seq!['d', 'i', 'r'],
        ItemKind::Symlink => seq!['s', 'y', 'm', 'l', 'i', 'n', 'k'],
    }
}

/// The label of an item kind in the log: `file`, `dir` or `symlink`.
pub fn kind_label(kind: ItemKind) -> (r: String)
    ensures
        r@ == kind_text(kind),
{
    let v = match kind {
        ItemKind::File => vec!['f', 'i', 'l', 'e'],
        ItemKind::Dir => vec!['d', 'i', 'r'],
        ItemKind::Symlink => vec!['s', 'y', 'm', 'l', 'i', 'n', 'k'],
    };
    assert(v@ =~= kind_text(kind));
    string_from_chars(&v)
}

/// The batch identifier of a plan vector: that of its first plan, or the
/// nil UUID (0) for an empty batch.
pub fn batch_id_of(plans: &Vec<RenamePlan>) -> (id: u128)
    ensures
        id == if plans.len() > 0 {
            plans@[0].batch_id
        } else {
            0
        },
{
    if plans.len() > 0 {
        plans[0].batch_id
    } else {
        0
    }
}

/// A failed rename is retried through a temporary name when the target
/// "exists" only because it differs from the source in ASCII case.
pub fn needs_temp_retry(err: &FrenError, from: &str, to: &str) -> (b: bool)
    ensures
        b == (err is TargetExists && from@ != to@ && ascii_lower(from@) == ascii_lower(to@)),
{
    match err {
        FrenError::TargetExists(_) => is_case_only_rename(from, to),
        _ => false,
    }
}

/// How the kernel answered a rename that may not overwrite its target.
#[derive(Debug, Clone)]
pub enum RenameReply {
    /// The rename was made.
    Renamed,
    /// The call is not available here (an old kernel or filesystem).
    Unsupported,
    /// The target already exists.
    TargetPresent,
    /// Any other failure, with the text of the error.
    Failed(String),
}

/// What a no-overwrite rename of `from` to `to` comes to after the
/// kernel's reply: `Ok(true)` when done, `Ok(false)` when the rename must
/// fall back to a check for the target followed by a plain rename, or the
/// error.
pub fn after_rename_reply(from: &str, to: &str, reply: RenameReply) -> (r: Result<bool, FrenError>)
    ensures
        match reply {
            RenameReply::Renamed => r == Ok::<bool, FrenError>(true),
            RenameReply::Unsupported => r == Ok::<bool, FrenError>(false),
            RenameReply::TargetPresent => r matches Err(FrenError::TargetExists(t)) && t@ == to@,
            RenameReply::Failed(m) => r matches Err(FrenError::Io { path, message }) && path@
                == from@ && message@ == m@,
        },
{
    match reply {
        RenameReply::Renamed => Ok(true),
        RenameReply::Unsupported => Ok(false),
        RenameReply::TargetPresent => Err(FrenError::TargetExists(to.to_string())),
        RenameReply::Failed(m) => Err(FrenError::Io { path: from.to_string(), message: m }),
    }
}

/// The check before a plain rename: an existing target is refused.
pub fn rename_precheck(to: &str, target_exists: bool) -> (r: Result<(), FrenError>)
    ensures
        !target_exists ==> r == Ok::<(), FrenError>(()),
        target_exists ==> (r matches Err(FrenError::TargetExists(t)) && t@ == to@),
{
    if target_exists {
        Err(FrenError::TargetExists(to.to_string()))
    } else {
        Ok(())
    }
}

/// A path handed to the kernel may not hold a NUL character.
pub fn check_path_bytes(path: &str) -> (r: Result<(), FrenError>)
    ensures
        match r {
            Ok(()) => !path@.contains('\0'),
            Err(FrenError::InvalidInput(m)) => path@.contains('\0') && m@
                == "path contains null byte: "@ + path@,
            _ => false,
        },
{
    let cs = chars_of(path);
    let mut i: usize = 0;
    while i < cs.len()
        invariant
            i <= cs.len(),
            cs@ == path@,
            forall|j: int| 0 <= j < i ==> cs@[j] != '\0',
        decreases cs.len() - i,
    {
        if cs[i] == '\0' {
            let mut m = chars_of("path contains null byte: ");
            extend_chars(&mut m, &cs);
            proof {
                assert(path@[i as int] == '\0');
            }
            return Err(FrenError::InvalidInput(string_from_chars(&m)));
        }
        i += 1;
    }
    Ok(())
}

/// The log record of a rename that succeeded.
pub fn rename_record(plan: &RenamePlan, ts: String) -> (r: LogRecord)
    ensures
        r matches LogRecord::Rename { v, ts: t, from, to, kind } && v == 1 && t == ts && from
            == plan.original_path && to@ == plan_target(*plan) && kind@ == kind_text(plan.kind),
{
    LogRecord::Rename {
        v: 1,
        ts,
        from: plan.original_path.clone(),
        to: rename_target(plan),
        kind: kind_label(plan.kind),
    }
}

/// The report before any rename: nothing applied, the batch's identifier.
pub fn empty_report(plans: &Vec<RenamePlan>) -> (r: ExecutionReport)
    ensures
        r.applied == 0,
        r.skipped == 0,
        r.errors@.len() == 0,
        r.batch_id == if plans.len() > 0 {
            plans@[0].batch_id
        } else {
            0
        },
        r.log_path is None,
{
    ExecutionReport {
        applied: 0,
        skipped: 0,
        errors: Vec::new(),
        batch_id: batch_id_of(plans),
        log_path: None,
    }
}

/// Account for the outcome of one rename; answers whether execution goes
/// on. A success counts as applied; a failure is recorded and stops the
/// batch. Steps run only while no error has been recorded, so the report
/// holds at most one error.
pub fn record_outcome(report: &mut ExecutionReport, outcome: Result<(), FrenError>) -> (go_on: bool)
    requires
        old(report).applied < usize::MAX,
        old(report).errors@.len() == 0,
    ensures
        go_on == outcome is Ok,
        outcome is Ok ==> final(report).applied == old(report).applied + 1 && final(report).errors@
            == old(report).errors@,
        outcome matches Err(e) ==> final(report).applied == old(report).applied
            && final(report).errors@ == old(report).errors@.push(e),
        final(report).errors@.len() <= 1,
        final(report).skipped == old(report).skipped,
        final(report).batch_id == old(report).batch_id,
        final(report).log_path == old(report).log_path,
{
    match outcome {
        Ok(()) => {
            report.applied = report.applied + 1;
            true
        },
        Err(e) => {
            report.errors.push(e);
            false
        },
    }
}

/// Account for the outcome of logging one applied rename; answers whether
/// execution goes on. A failed log write is recorded and, like a failed
/// rename, stops the batch, so the report holds at most one error.
pub fn record_log_outcome(report: &mut ExecutionReport, logged: Result<(), FrenError>) -> (go_on: bool)
    requires
        old(report).errors@.len() == 0,
    ensures
        go_on == logged is Ok,
        logged is Ok ==> final(report).errors@ == old(report).errors@,
        logged matches Err(e) ==> final(report).errors@ == old(report).errors@.push(e),
        final(report).errors@.len() <= 1,
        final(report).applied == old(report).applied,
        final(report).skipped == old(report).skipped,
        final(report).batch_id == old(report).batch_id,
        final(report).log_path == old(report).log_path,
{
    match logged {
        Ok(()) => true,
        Err(e) => {
            report.errors.push(e);
            false
        },
    }
}

/// What the high-level rename answers when it does not apply: a planning
/// error as it is, or the plans with the report of an untouched batch
/// (nothing applied, no error, the batch's identifier, no log).
pub fn rename_preview(planned: Result<Vec<RenamePlan>, FrenError>) -> (r: Result<
    (Vec<RenamePlan>, ExecutionReport),
    FrenError,
>)
    ensures
        planned matches Err(e) ==> r == Err::<(Vec<RenamePlan>, ExecutionReport), FrenError>(e),
        planned matches Ok(ps) ==> r matches Ok((qs, rep)) && qs@ == ps@ && rep.applied == 0
            && rep.skipped == 0 && rep.errors@.len() == 0 && rep.batch_id == (if ps.len() > 0 {
            ps@[0].batch_id
        } else {
            0
        }) && rep.log_path is None,
{
    match planned {
        Err(e) => Err(e),
        Ok(ps) => {
            let rep = empty_report(&ps);
            Ok((ps, rep))
        },
    }
}

pub open spec fn status_text(applied: usize, errors: nat) -> Seq<char> {
    if errors == 0 {
        seq!['o', 'k']
    } else if applied > 0 {
        seq!['p', 'a', 'r', 't', 'i', 'a', 'l']
    } else {
        seq!['e', 'r', 'r', 'o', 'r']
    }
}

/// The status of a finished batch: `ok` without errors, `partial` when
/// some renames were applied before an error, `error` otherwise.
pub fn end_status(report: &ExecutionReport) -> (r: String)
    ensures
        r@ == status_text(report.applied, report.errors@.len()),
{
    let v = if report.errors.len() == 0 {
        vec!['o', 'k']
    } else if report.applied > 0 {
        vec!['p', 'a', 'r', 't', 'i', 'a', 'l']
    } else {
        vec!['e', 'r', 'r', 'o', 'r']
    };
    assert(v@ =~= status_text(report.applied, report.errors@.len()));
    string_from_chars(&v)
}

pub open spec fn temp_prefix() -> Seq<char> {
    seq!['.', 'f', 'r', 'e', 'n', '_', 't', 'm', 'p', '_']
}

/// The temporary path for a case-only rename of `near` with identifier
/// `id`: `.fren_tmp_{name}_{uuid}` in the directory of `near` (`.` when it
/// has no parent).
pub open spec fn spec_temp_path(near: Seq<char>, id: u128) -> Seq<char> {
    let parent = if near.len() == 0 || near == seq!['/'] || path_file_name(near).len() == 0
        && path_parent(near).len() == 0 {
        seq!['.']
    } else {
        path_parent(near)
    };
    join_path(parent, temp_prefix() + path_file_name(near) + seq!['_'] + uuid_text(id))
}

/// The temporary path for a case-only rename of `near` with identifier `id`.
pub fn temp_path_with_id(near: &str, id: u128) -> (r: String)
    ensures
        r@ == spec_temp_path(near@, id),
{
    let p = chars_of(near);
    let name = file_name_of(&p);
    let par = parent_of(&p);
    let no_parent = p.len() == 0 || (p.len() == 1 && p[0] == '/') || (name.len() == 0 && par.len()
        == 0);
    proof {
        if p.len() == 1 && p[0] == '/' {
            assert(p@ =~= seq!['/']);
        }
        if p@ == seq!['/'] {
            assert(p.len() == 1 && p[0] == '/');
        }
    }
    let parent = if no_parent {
        let dot = vec!['.'];
        assert(dot@ =~= seq!['.']);
        dot
    } else {
        par
    };
    let mut tname = vec!['.', 'f', 'r', 'e', 'n', '_', 't', 'm', 'p', '_'];
    assert(tname@ =~= temp_prefix());
    extend_chars(&mut tname, &name);
    tname.push('_');
    let u = uuid_string(id);
    let uc = chars_of(u.as_str());
    extend_chars(&mut tname, &uc);
    string_from_chars(&join_exec(&parent, &tname))
}

/// A fresh temporary path for a case-only rename of `near`.
pub fn make_temp_path(near: &str) -> (r: String)
    ensures
        exists|id: u128| r@ == spec_temp_path(near@, id),
{
    let id = new_uuid_v7();
    temp_path_with_id(near, id)
}

/// The log directory given `$XDG_STATE_HOME` and `$HOME` (when set):
/// `{XDG_STATE_HOME}/fren/log`, else `{HOME}/.local/state/fren/log`, else
/// `.fren-log`.
pub open spec fn spec_log_dir(xdg_state: Option<Seq<char>>, home: Option<Seq<char>>) -> Seq<char> {
    match xdg_state {
        Some(s) => join_path(join_path(s, seq!['f', 'r', 'e', 'n']), seq!['l', 'o', 'g']),
        None => match home {
            Some(h) => join_path(
                join_path(
                    join_path(join_path(h, seq!['.', 'l', 'o', 'c', 'a', 'l']), seq!['s', 't', 'a', 't', 'e']),
                    seq!['f', 'r', 'e', 'n'],
                ),
                seq!['l', 'o', 'g'],
            ),
            None => seq!['.', 'f', 'r', 'e', 'n', '-', 'l', 'o', 'g'],
        },
    }
}

/// The default directory of transaction logs.
pub fn default_log_dir(xdg_state: Option<&str>, home: Option<&str>) -> (r: String)
    ensures
        r@ == spec_log_dir(
            match xdg_state {
                Some(s) => Some(s@),
                None => None,
            },
            match home {
                Some(h) => Some(h@),
                None => None,
            },
        ),
{
    let fren = vec!['f', 'r', 'e', 'n'];
    let log = vec!['l', 'o', 'g'];
    assert(fren@ =~= seq!['f', 'r', 'e', 'n']);
    assert(log@ =~= seq!['l', 'o', 'g']);
    match xdg_state {
        Some(s) => {
            let base = chars_of(s);
            string_from_chars(&join_exec(&join_exec(&base, &fren), &log))
        },
        None => match home {
            Some(h) => {
                let local = vec!['.', 'l', 'o', 'c', 'a', 'l'];
                let state = vec!['s', 't', 'a', 't', 'e'];
                assert(local@ =~= seq!['.', 'l', 'o', 'c', 'a', 'l']);
                assert(state@ =~= seq!['s', 't', 'a', 't', 'e']);
                let base = chars_of(h);
                let d = join_exec(&join_exec(&join_exec(&join_exec(&base, &local), &state), &fren), &log);
                string_from_chars(&d)
            },
            None => {
                let d = vec!['.', 'f', 'r', 'e', 'n', '-', 'l', 'o', 'g'];
                assert(d@ =~= seq!['.', 'f', 'r', 'e', 'n', '-', 'l', 'o', 'g']);
                string_from_chars(&d)
            },
        },
    }
}

/// The log file name of a batch: `{ts}-{uuid}.jsonl`.
pub fn log_file_name(ts: &str, batch_id: u128) -> (r: String)
    ensures
        r@ == ts@ + seq!['-'] + uuid_text(batch_id) + seq!['.', 'j', 's', 'o', 'n', 'l'],
{
    let mut v = chars_of(ts);
    v.push('-');
    let u = uuid_string(batch_id);
    let uc = chars_of(u.as_str());
    extend_chars(&mut v, &uc);
    let ext = vec!['.', 'j', 's', 'o', 'n', 'l'];
    extend_chars(&mut v, &ext);
    string_from_chars(&v)
}

} // verus!
