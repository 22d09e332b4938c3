//! Building a rename batch from the items found by walking the roots:
//! one plan per item whose name changes, sorted bottom-up, then resolved
//! against collisions inside the batch and against what exists on disk.
use vstd::prelude::*;
use crate::error::FrenError;
use crate::opts::PlanOpts;
use crate::plan::conflict::{
    existing_set, preexisting_outcome, resolve_preexisting, resolve_within_batch,
    within_batch_outcome,
};
use crate::plan::names::{
    compute_new_name, reorder_new_name, reorder_stem, spec_new_name, spec_reorder_name,
    DiscoveredItem,
};
use crate::slugify::camel_iso::detection_of;
use crate::plan::paths::{file_name_of, parent_of, path_file_name, path_parent};
use crate::plan::sort::{sort_bottom_up, sorted_by_key, with_key};
use crate::plan_types::{ItemKind, RenamePlan};
use crate::slug::SlugOpts;
use crate::slugify::camel_iso::local_current_year;
use crate::text::{chars_of, string_from_chars};
use crate::execute::chars_eq;

verus! {

/// What a plan is made of, as views: source path, parent, old name, new
/// name, depth, kind, and, for reorder plans, the stem in which the moved
/// date was detected.
pub type PlanEntry = (Seq<char>, Seq<char>, Seq<char>, Seq<char>, usize, ItemKind, Option<Seq<char>>);

/// A root directory itself is not renamed, only what it contains.
pub open spec fn is_dir_root(root: Seq<char>, it: DiscoveredItem) -> bool {
    it.path@ == root && it.kind == ItemKind::Dir
}

/// The plan for item `it` found under `root`, unless it is a directory
/// root or its name does not change.
pub open spec fn rename_entry(root: Seq<char>, it: DiscoveredItem, opts: SlugOpts, cy: int) -> Option<
    PlanEntry,
> {
    let raw = path_file_name(it.path@);
    let new = spec_new_name(raw, it.kind, opts, cy);
    if is_dir_root(root, it) || new == raw {
        None
    } else {
        Some((it.path@, path_parent(it.path@), raw, new, it.depth, it.kind, None))
    }
}

/// The reorder plan for item `it` found under `root`, unless it is a
/// directory root, its reordered name cannot be formed, or it does not
/// change.
pub open spec fn reorder_entry(root: Seq<char>, it: DiscoveredItem, opts: SlugOpts, cy: int) -> Option<
    PlanEntry,
> {
    let raw = path_file_name(it.path@);
    if is_dir_root(root, it) {
        None
    } else {
        match spec_reorder_name(raw, it.kind, opts, cy) {
            Some(new) => if new == raw {
                None
            } else {
                Some(
                    (
                        it.path@,
                        path_parent(it.path@),
                        raw,
                        new,
                        it.depth,
                        it.kind,
                        Some(reorder_stem(raw, it.kind)),
                    ),
                )
            },
            None => None,
        }
    }
}

pub open spec fn entry_of(root: Seq<char>, it: DiscoveredItem, opts: SlugOpts, cy: int, reorder: bool) -> Option<
    PlanEntry,
> {
    if reorder {
        reorder_entry(root, it, opts, cy)
    } else {
        rename_entry(root, it, opts, cy)
    }
}

/// Entries for the first `n` items found under `root`.
pub open spec fn collect_root(
    root: Seq<char>,
    items: Seq<DiscoveredItem>,
    opts: SlugOpts,
    cy: int,
    reorder: bool,
    n: int,
) -> Seq<PlanEntry>
    decreases n,
{
    if n <= 0 {
        Seq::empty()
    } else {
        let prev = collect_root(root, items, opts, cy, reorder, n - 1);
        match entry_of(root, items[n - 1], opts, cy, reorder) {
            Some(e) => prev.push(e),
            None => prev,
        }
    }
}

/// Entries for the first `m` roots, root by root, items in walk order.
pub open spec fn collect_all(
    roots: Seq<String>,
    walked: Seq<Vec<DiscoveredItem>>,
    opts: SlugOpts,
    cy: int,
    reorder: bool,
    m: int,
) -> Seq<PlanEntry>
    decreases m,
{
    if m <= 0 {
        Seq::empty()
    } else {
        collect_all(roots, walked, opts, cy, reorder, m - 1) + collect_root(
            roots[m - 1]@,
            walked[m - 1]@,
            opts,
            cy,
            reorder,
            walked[m - 1].len() as int,
        )
    }
}

/// `c` holds one plan per entry of `es`, all with batch identifier `b`;
/// a reorder plan carries the date detected in its stem.
pub open spec fn plans_match(c: Seq<RenamePlan>, es: Seq<PlanEntry>, b: u128, opts: SlugOpts, cy: int) -> bool {
    &&& c.len() == es.len()
    &&& forall|i: int|
        0 <= i < c.len() ==> {
            let p = #[trigger] c[i];
            let e = es[i];
            &&& p.original_path@ == e.0
            &&& p.parent@ == e.1
            &&& p.old_name@ == e.2
            &&& p.new_name@ == e.3
            &&& p.depth == e.4
            &&& p.kind == e.5
            &&& p.batch_id == b
            &&& match e.6 {
                Some(stem) => detection_of(stem, opts, cy, p.detected_date),
                None => p.detected_date is None,
            }
        }
}

/// Number of items in the first `m` walks.
pub open spec fn total_items(walked: Seq<Vec<DiscoveredItem>>, m: int) -> nat
    decreases m,
{
    if m <= 0 {
        0
    } else {
        total_items(walked, m - 1) + walked[m - 1]@.len()
    }
}

/// `s` is `c` sorted stably by the bottom-up key.
pub open spec fn stably_sorted_from(c: Seq<RenamePlan>, s: Seq<RenamePlan>) -> bool {
    s.len() == c.len() && sorted_by_key(s) && forall|k: int| with_key(s, k) == with_key(c, k)
}

/// `r` answers planning `roots` (found items `walked`): the plans are
/// collected, sorted bottom-up, resolved within the batch, then against
/// `existing`, each pass as its own function states; the first error is
/// the answer.
pub open spec fn planned(
    roots: Seq<String>,
    walked: Seq<Vec<DiscoveredItem>>,
    opts: SlugOpts,
    plan_opts: PlanOpts,
    cy: int,
    reorder: bool,
    existing: Seq<String>,
    r: Result<Vec<RenamePlan>, FrenError>,
) -> bool {
    exists|c: Seq<RenamePlan>, s: Seq<RenamePlan>, w: Seq<RenamePlan>, r1: Result<(), FrenError>|
        {
            &&& exists|b: u128|
                plans_match(c, collect_all(roots, walked, opts, cy, reorder, roots.len() as int), b, opts, cy)
            &&& stably_sorted_from(c, s)
            &&& within_batch_outcome(s, plan_opts.on_conflict, w, r1)
            &&& match r1 {
                Err(e) => r == Err::<Vec<RenamePlan>, FrenError>(e),
                Ok(_) => exists|f: Seq<RenamePlan>, r2: Result<(), FrenError>|
                    {
                        &&& preexisting_outcome(
                            w,
                            plan_opts.on_conflict,
                            existing_set(existing),
                            f,
                            r2,
                        )
                        &&& match r2 {
                            Err(e) => r == Err::<Vec<RenamePlan>, FrenError>(e),
                            Ok(_) => r matches Ok(v) && v@ == f,
                        }
                    },
            }
        }
}

/// One plan per item whose name changes, in walk order.
pub fn collect_plans(
    roots: &Vec<String>,
    walked: &Vec<Vec<DiscoveredItem>>,
    slug_opts: &SlugOpts,
    current_year: i32,
    reorder: bool,
    batch_id: u128,
) -> (c: Vec<RenamePlan>)
    requires
        walked.len() == roots.len(),
        current_year <= i32::MAX - 10,
    ensures
        plans_match(
            c@,
            collect_all(roots@, walked@, *slug_opts, current_year as int, reorder, roots.len() as int),
            batch_id,
            *slug_opts,
            current_year as int,
        ),
{
    let mut plans: Vec<RenamePlan> = Vec::new();
    let mut m: usize = 0;
    while m < roots.len()
        invariant
            m <= roots.len() == walked.len(),
            current_year <= i32::MAX - 10,
            plans_match(
                plans@,
                collect_all(roots@, walked@, *slug_opts, current_year as int, reorder, m as int),
                batch_id,
                *slug_opts,
                current_year as int,
            ),
        decreases roots.len() - m,
    {
        let root = chars_of(roots[m].as_str());
        let items = &walked[m];
        let ghost before = collect_all(roots@, walked@, *slug_opts, current_year as int, reorder, m as int);
        let mut j: usize = 0;
        while j < items.len()
            invariant
                j <= items.len(),
                m < roots.len() == walked.len(),
                items == walked@[m as int],
                root@ == roots@[m as int]@,
                current_year <= i32::MAX - 10,
                before == collect_all(roots@, walked@, *slug_opts, current_year as int, reorder, m as int),
                plans_match(
                    plans@,
                    before + collect_root(root@, items@, *slug_opts, current_year as int, reorder, j as int),
                    batch_id,
                    *slug_opts,
                    current_year as int,
                ),
            decreases items.len() - j,
        {
            let it = &items[j];
            let p = chars_of(it.path.as_str());
            let is_root_dir = chars_eq(&p, &root) && it.kind == ItemKind::Dir;
            let old = file_name_of(&p);
            let ghost prev = before + collect_root(root@, items@, *slug_opts, current_year as int, reorder, j as int);
            assert(before + collect_root(root@, items@, *slug_opts, current_year as int, reorder, j + 1)
                == match entry_of(root@, items@[j as int], *slug_opts, current_year as int, reorder) {
                Some(e) => prev.push(e),
                None => prev,
            });
            if !is_root_dir {
                let (new_name, det) = if reorder {
                    match reorder_new_name(it, slug_opts, current_year) {
                        Some((nm, d)) => (Some(nm), d),
                        None => (None, None),
                    }
                } else {
                    (Some(compute_new_name(it, slug_opts, current_year)), None)
                };
                match new_name {
                    Some(nm) => {
                        let nmv = chars_of(nm.as_str());
                        if !chars_eq(&nmv, &old) {
                            let parent = parent_of(&p);
                            let plan = RenamePlan {
                                original_path: it.path.clone(),
                                parent: string_from_chars(&parent),
                                old_name: string_from_chars(&old),
                                new_name: nm,
                                depth: it.depth,
                                kind: it.kind,
                                detected_date: det,
                                batch_id,
                            };
                            let ghost pv = plans@;
                            plans.push(plan);
                            assert(plans@ =~= pv.push(plan));
                        }
                    },
                    None => {},
                }
            }
            j += 1;
        }
        assert(collect_all(roots@, walked@, *slug_opts, current_year as int, reorder, m + 1) == before
            + collect_root(root@, items@, *slug_opts, current_year as int, reorder, items.len() as int));
        m += 1;
    }
    plans
}

/// Sort, then resolve within the batch and against `existing`.
fn finish_batch(mut plans: Vec<RenamePlan>, plan_opts: &PlanOpts, existing: &Vec<String>) -> (r: Result<
    Vec<RenamePlan>,
    FrenError,
>)
    requires
        plans.len() < 0x4000_0000,
    ensures
        exists|s: Seq<RenamePlan>, w: Seq<RenamePlan>, r1: Result<(), FrenError>|
            {
                &&& stably_sorted_from(plans@, s)
                &&& within_batch_outcome(s, plan_opts.on_conflict, w, r1)
                &&& match r1 {
                    Err(e) => r == Err::<Vec<RenamePlan>, FrenError>(e),
                    Ok(_) => exists|f: Seq<RenamePlan>, r2: Result<(), FrenError>|
                        {
                            &&& preexisting_outcome(
                                w,
                                plan_opts.on_conflict,
                                existing_set(existing@),
                                f,
                                r2,
                            )
                            &&& match r2 {
                                Err(e) => r == Err::<Vec<RenamePlan>, FrenError>(e),
                                Ok(_) => r matches Ok(v) && v@ == f,
                            }
                        },
                }
            },
{
    let ghost c = plans@;
    sort_bottom_up(&mut plans);
    let ghost s = plans@;
    let r1 = resolve_within_batch(&mut plans, plan_opts.on_conflict);
    let ghost w = plans@;
    match r1 {
        Err(e) => {
            assert(within_batch_outcome(s, plan_opts.on_conflict, w, Err(e)));
            return Err(e);
        },
        Ok(()) => {},
    }
    let r2 = resolve_preexisting(&mut plans, plan_opts.on_conflict, existing);
    let ghost f = plans@;
    match r2 {
        Err(e) => {
            assert(preexisting_outcome(w, plan_opts.on_conflict, existing_set(existing@), f, Err(e)));
            Err(e)
        },
        Ok(()) => {
            assert(preexisting_outcome(w, plan_opts.on_conflict, existing_set(existing@), f, Ok(())));
            Ok(plans)
        },
    }
}

proof fn lemma_collect_len(
    roots: Seq<String>,
    walked: Seq<Vec<DiscoveredItem>>,
    opts: SlugOpts,
    cy: int,
    reorder: bool,
    m: int,
)
    requires
        m <= walked.len(),
    ensures
        collect_all(roots, walked, opts, cy, reorder, m).len() <= total_items(walked, m),
    decreases m,
{
    if m > 0 {
        lemma_collect_len(roots, walked, opts, cy, reorder, m - 1);
        lemma_collect_root_len(roots[m - 1]@, walked[m - 1]@, opts, cy, reorder, walked[m - 1].len() as int);
    }
}

proof fn lemma_collect_root_len(root: Seq<char>, items: Seq<DiscoveredItem>, opts: SlugOpts, cy: int, reorder: bool, n: int)
    ensures
        collect_root(root, items, opts, cy, reorder, n).len() <= if n < 0 {
            0
        } else {
            n
        },
    decreases n,
{
    if n > 0 {
        lemma_collect_root_len(root, items, opts, cy, reorder, n - 1);
    }
}

fn plan_batch(
    roots: &Vec<String>,
    walked: &Vec<Vec<DiscoveredItem>>,
    slug_opts: &SlugOpts,
    plan_opts: &PlanOpts,
    current_year: i32,
    reorder: bool,
    existing: &Vec<String>,
) -> (r: Result<Vec<RenamePlan>, FrenError>)
    requires
        walked.len() == roots.len(),
        total_items(walked@, walked.len() as int) < 0x4000_0000,
        current_year <= i32::MAX - 10,
    ensures
        planned(roots@, walked@, *slug_opts, *plan_opts, current_year as int, reorder, existing@, r),
{
    let batch_id = crate::execute::new_uuid_v7();
    let plans = collect_plans(roots, walked, slug_opts, current_year, reorder, batch_id);
    proof {
        lemma_collect_len(roots@, walked@, *slug_opts, current_year as int, reorder, roots.len() as int);
    }
    let ghost c = plans@;
    let r = finish_batch(plans, plan_opts, existing);
    r
}

/// Build the rename plans for `roots`, given the items found by walking
/// each root (`walked[i]` for `roots[i]`, the root itself included) and
/// the paths that exist on disk (`existing`).
///
/// New names come from [`compute_new_name`]; directory roots and items
/// whose name does not change get no plan. The plans are sorted
/// deepest-first / files-before-dirs, then within-batch and pre-existing
/// conflicts are resolved according to `plan_opts.on_conflict`.
///
/// Errors: `WithinBatchCollision` or `TargetExists` under `Abort`,
/// `NotYetImplemented` under `Skip`/`Merge` or when numbering gives up.
pub fn plan_with_year(
    roots: &Vec<String>,
    walked: &Vec<Vec<DiscoveredItem>>,
    slug_opts: &SlugOpts,
    plan_opts: &PlanOpts,
    current_year: i32,
    existing: &Vec<String>,
) -> (r: Result<Vec<RenamePlan>, FrenError>)
    requires
        walked.len() == roots.len(),
        total_items(walked@, walked.len() as int) < 0x4000_0000,
        current_year <= i32::MAX - 10,
    ensures
        planned(roots@, walked@, *slug_opts, *plan_opts, current_year as int, false, existing@, r),
{
    plan_batch(roots, walked, slug_opts, plan_opts, current_year, false, existing)
}

/// [`plan_with_year`] with the current year of the local clock.
pub fn plan(
    roots: &Vec<String>,
    walked: &Vec<Vec<DiscoveredItem>>,
    slug_opts: &SlugOpts,
    plan_opts: &PlanOpts,
    existing: &Vec<String>,
) -> (r: Result<Vec<RenamePlan>, FrenError>)
    requires
        walked.len() == roots.len(),
        total_items(walked@, walked.len() as int) < 0x4000_0000,
    ensures
        exists|y: int|
            -262144 <= y <= 262143 && planned(
                roots@,
                walked@,
                *slug_opts,
                *plan_opts,
                y,
                false,
                existing@,
                r,
            ),
{
    let y = local_current_year();
    plan_with_year(roots, walked, slug_opts, plan_opts, y, existing)
}

/// Like [`plan_with_year`], but each new name moves the first detected
/// date to the front (see [`reorder_new_name`]); items without a date get
/// the plain slug, so reordering is a superset of renaming. Items already
/// in canonical form get no plan.
pub fn plan_reorder_with_year(
    roots: &Vec<String>,
    walked: &Vec<Vec<DiscoveredItem>>,
    slug_opts: &SlugOpts,
    plan_opts: &PlanOpts,
    current_year: i32,
    existing: &Vec<String>,
) -> (r: Result<Vec<RenamePlan>, FrenError>)
    requires
        walked.len() == roots.len(),
        total_items(walked@, walked.len() as int) < 0x4000_0000,
        current_year <= i32::MAX - 10,
    ensures
        planned(roots@, walked@, *slug_opts, *plan_opts, current_year as int, true, existing@, r),
{
    plan_batch(roots, walked, slug_opts, plan_opts, current_year, true, existing)
}

/// [`plan_reorder_with_year`] with the current year of the local clock.
pub fn plan_reorder(
    roots: &Vec<String>,
    walked: &Vec<Vec<DiscoveredItem>>,
    slug_opts: &SlugOpts,
    plan_opts: &PlanOpts,
    existing: &Vec<String>,
) -> (r: Result<Vec<RenamePlan>, FrenError>)
    requires
        walked.len() == roots.len(),
        total_items(walked@, walked.len() as int) < 0x4000_0000,
    ensures
        exists|y: int|
            -262144 <= y <= 262143 && planned(
                roots@,
                walked@,
                *slug_opts,
                *plan_opts,
                y,
                true,
                existing@,
                r,
            ),
{
    let y = local_current_year();
    plan_reorder_with_year(roots, walked, slug_opts, plan_opts, y, existing)
}

} // verus!
