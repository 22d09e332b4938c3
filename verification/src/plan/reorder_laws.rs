//! What a reorder batch holds when nothing in it collides.
use vstd::prelude::*;
use crate::error::FrenError;
use crate::opts::PlanOpts;
use crate::plan::batch::{
    collect_all, collect_root, entry_of, plans_match, planned, stably_sorted_from, PlanEntry,
};
use crate::plan::conflict::{
    existing_set, has_collision, lemma_seq_lt_irreflexive, plan_target, preexisting_outcome,
    rank_upto, same_but_name, targets_of, within_batch_outcome,
};
use crate::plan::names::{
    detected_iso, law_reordered_name_starts_with_date, law_reorder_without_date_is_rename, reorder_stem,
    spec_new_name, spec_reorder_name, DiscoveredItem,
};
use crate::plan::paths::join_path;
use crate::plan::sort::{order_key, with_key};
use crate::plan_types::RenamePlan;
use crate::slug::SlugOpts;
use crate::slugify::camel_iso::detection_of;

verus! {

/// The path an entry renames to.
pub open spec fn entry_target(e: PlanEntry) -> Seq<char> {
    join_path(e.1, e.3)
}

/// No two entries share a target, and no target is in `ex`.
pub open spec fn entries_collision_free(es: Seq<PlanEntry>, ex: Set<Seq<char>>) -> bool {
    &&& forall|i: int, j: int|
        0 <= i < j < es.len() ==> entry_target(#[trigger] es[i]) != entry_target(#[trigger] es[j])
    &&& forall|i: int| 0 <= i < es.len() ==> !ex.contains(entry_target(#[trigger] es[i]))
}

/// What every reorder entry is: a changed name, the reordered name of its
/// old name, and the stem in which the date was looked for.
pub open spec fn is_reorder_entry(e: PlanEntry, opts: SlugOpts, cy: int) -> bool {
    &&& e.3 != e.2
    &&& spec_reorder_name(e.2, e.5, opts, cy) == Some(e.3)
    &&& e.6 == Some(reorder_stem(e.2, e.5))
}

proof fn lemma_root_entries(
    root: Seq<char>,
    items: Seq<DiscoveredItem>,
    opts: SlugOpts,
    cy: int,
    n: int,
)
    ensures
        forall|i: int|
            0 <= i < collect_root(root, items, opts, cy, true, n).len() ==> is_reorder_entry(
                #[trigger] collect_root(root, items, opts, cy, true, n)[i],
                opts,
                cy,
            ),
    decreases n,
{
    if n > 0 {
        lemma_root_entries(root, items, opts, cy, n - 1);
        let prev = collect_root(root, items, opts, cy, true, n - 1);
        let cur = collect_root(root, items, opts, cy, true, n);
        match entry_of(root, items[n - 1], opts, cy, true) {
            Some(e) => {
                assert(cur == prev.push(e));
                assert(is_reorder_entry(e, opts, cy));
                assert forall|i: int| 0 <= i < cur.len() implies is_reorder_entry(
                    #[trigger] cur[i],
                    opts,
                    cy,
                ) by {
                    if i < prev.len() {
                        assert(cur[i] == prev[i]);
                    }
                }
            },
            None => {
                assert(cur == prev);
            },
        }
    }
}

proof fn lemma_all_entries(
    roots: Seq<String>,
    walked: Seq<Vec<DiscoveredItem>>,
    opts: SlugOpts,
    cy: int,
    m: int,
)
    ensures
        forall|i: int|
            0 <= i < collect_all(roots, walked, opts, cy, true, m).len() ==> is_reorder_entry(
                #[trigger] collect_all(roots, walked, opts, cy, true, m)[i],
                opts,
                cy,
            ),
    decreases m,
{
    if m > 0 {
        lemma_all_entries(roots, walked, opts, cy, m - 1);
        let a = collect_all(roots, walked, opts, cy, true, m - 1);
        let b = collect_root(
            roots[m - 1]@,
            walked[m - 1]@,
            opts,
            cy,
            true,
            walked[m - 1].len() as int,
        );
        lemma_root_entries(roots[m - 1]@, walked[m - 1]@, opts, cy, walked[m - 1].len() as int);
        assert forall|i: int| 0 <= i < (a + b).len() implies is_reorder_entry(
            #[trigger] (a + b)[i],
            opts,
            cy,
        ) by {
            if i >= a.len() {
                assert((a + b)[i] == b[i - a.len()]);
            }
        }
    }
}

/// Each plan of the sorted sequence is a plan of the one it was sorted from.
proof fn lemma_sorted_member(c: Seq<RenamePlan>, s: Seq<RenamePlan>, i: int) -> (q: int)
    requires
        stably_sorted_from(c, s),
        0 <= i < s.len(),
    ensures
        0 <= q < c.len(),
        c[q] == s[i],
{
    let k = order_key(s[i]);
    let f = |p: RenamePlan| order_key(p) == k;
    s.lemma_filter_contains(f, i);
    assert(with_key(s, k) == with_key(c, k));
    c.lemma_filter_contains_rev(f, s[i]);
    choose|q: int| 0 <= q < c.len() && c[q] == s[i]
}

proof fn lemma_filter_targets_distinct(c: Seq<RenamePlan>, k: int)
    requires
        forall|i: int, j: int|
            0 <= i < j < c.len() ==> plan_target(#[trigger] c[i]) != plan_target(#[trigger] c[j]),
    ensures
        forall|i: int, j: int|
            0 <= i < j < with_key(c, k).len() ==> plan_target(#[trigger] with_key(c, k)[i])
                != plan_target(#[trigger] with_key(c, k)[j]),
    decreases c.len(),
{
    reveal(Seq::filter);
    if c.len() > 0 {
        let d = c.drop_last();
        let f = |p: RenamePlan| order_key(p) == k;
        let fd = d.filter(f);
        assert forall|i: int, j: int| 0 <= i < j < d.len() implies plan_target(#[trigger] d[i])
            != plan_target(#[trigger] d[j]) by {
            assert(d[i] == c[i] && d[j] == c[j]);
        }
        lemma_filter_targets_distinct(d, k);
        assert(with_key(d, k) == fd);
        if order_key(c.last()) == k {
            assert(with_key(c, k) == fd.push(c.last()));
            assert forall|i: int| 0 <= i < fd.len() implies plan_target(fd[i]) != plan_target(
                c.last(),
            ) by {
                assert(fd.contains(fd[i]));
                d.lemma_filter_contains_rev(f, fd[i]);
                let q = choose|q: int| 0 <= q < d.len() && d[q] == fd[i];
                assert(c[q] == d[q]);
            }
        } else {
            assert(with_key(c, k) == fd);
        }
    }
}

/// Two plans of `s` with key `k` stay, in order, in the plans of `s` with key `k`.
proof fn lemma_filter_keeps_pair(s: Seq<RenamePlan>, k: int, a: int, b: int) -> (r: (int, int))
    requires
        0 <= a < b < s.len(),
        order_key(s[a]) == k,
        order_key(s[b]) == k,
    ensures
        0 <= r.0 < r.1 < with_key(s, k).len(),
        with_key(s, k)[r.0] == s[a],
        with_key(s, k)[r.1] == s[b],
    decreases s.len(),
{
    reveal(Seq::filter);
    let d = s.drop_last();
    let f = |p: RenamePlan| order_key(p) == k;
    let fd = d.filter(f);
    assert(with_key(d, k) == fd);
    if b == s.len() - 1 {
        assert(with_key(s, k) == fd.push(s[b]));
        assert(d[a] == s[a]);
        d.lemma_filter_contains(f, a);
        let a2 = choose|x: int| 0 <= x < fd.len() && fd[x] == s[a];
        (a2, fd.len() as int)
    } else {
        assert(d[a] == s[a] && d[b] == s[b]);
        let (a2, b2) = lemma_filter_keeps_pair(d, k, a, b);
        if order_key(s.last()) == k {
            assert(with_key(s, k) == fd.push(s.last()));
        } else {
            assert(with_key(s, k) == fd);
        }
        (a2, b2)
    }
}

/// Sorting keeps targets apart.
proof fn lemma_sorted_no_collision(c: Seq<RenamePlan>, s: Seq<RenamePlan>)
    requires
        stably_sorted_from(c, s),
        forall|i: int, j: int|
            0 <= i < j < c.len() ==> plan_target(#[trigger] c[i]) != plan_target(#[trigger] c[j]),
    ensures
        !has_collision(targets_of(s)),
{
    let ts = targets_of(s);
    if has_collision(ts) {
        let (a, b) = choose|a: int, b: int| 0 <= a < b < ts.len() && ts[a] == ts[b];
        assert(plan_target(s[a]) == plan_target(s[b]));
        if order_key(s[a]) == order_key(s[b]) {
            let k = order_key(s[a]);
            let (a2, b2) = lemma_filter_keeps_pair(s, k, a, b);
            lemma_filter_targets_distinct(c, k);
            assert(with_key(s, k) == with_key(c, k));
            assert(plan_target(with_key(c, k)[a2]) != plan_target(with_key(c, k)[b2]));
        } else {
            let qa = lemma_sorted_member(c, s, a);
            let qb = lemma_sorted_member(c, s, b);
            assert(qa != qb);
            if qa < qb {
                assert(plan_target(c[qa]) != plan_target(c[qb]));
            } else {
                assert(plan_target(c[qb]) != plan_target(c[qa]));
            }
        }
    }
}

/// A plan whose target no other plan has is first in its group.
proof fn lemma_rank_alone(ts: Seq<Seq<char>>, keys: Seq<Seq<char>>, i: int, n: int)
    requires
        0 <= i < ts.len(),
        n <= ts.len(),
        keys.len() == ts.len(),
        forall|j: int| 0 <= j < ts.len() && j != i ==> ts[j] != ts[i],
    ensures
        rank_upto(ts, keys, i, n) == 0,
    decreases n,
{
    if n > 0 {
        lemma_rank_alone(ts, keys, i, n - 1);
        lemma_seq_lt_irreflexive(keys[i]);
    }
}

/// Reordering a batch in which no two items get the same target and no
/// target exists on disk: every plan's new name is the reordered name of
/// its old name and differs from it, so an item already in canonical form
/// gets no plan; a plan with a detected date has a new name that starts
/// with the date's ISO text; a plan without one gets the name that
/// renaming gives.
pub proof fn law_reorder_batch(
    roots: Seq<String>,
    walked: Seq<Vec<DiscoveredItem>>,
    opts: SlugOpts,
    plan_opts: PlanOpts,
    cy: int,
    existing: Seq<String>,
    v: Vec<RenamePlan>,
)
    requires
        entries_collision_free(
            collect_all(roots, walked, opts, cy, true, roots.len() as int),
            existing_set(existing),
        ),
        planned(roots, walked, opts, plan_opts, cy, true, existing, Ok::<Vec<RenamePlan>, FrenError>(v)),
    ensures
        forall|i: int|
            0 <= i < v.len() ==> {
                let p = #[trigger] v@[i];
                &&& spec_reorder_name(p.old_name@, p.kind, opts, cy) == Some(p.new_name@)
                &&& p.new_name@ != p.old_name@
                &&& (p.detected_date matches Some(d) ==> p.new_name@.take(d.iso_string@.len() as int)
                    == d.iso_string@)
                &&& (p.detected_date is None ==> p.new_name@ == spec_new_name(
                    p.old_name@,
                    p.kind,
                    opts,
                    cy,
                ))
            },
{
    let es = collect_all(roots, walked, opts, cy, true, roots.len() as int);
    let ex = existing_set(existing);
    let r = Ok::<Vec<RenamePlan>, FrenError>(v);
    let (c, s, w, r1) = choose|c: Seq<RenamePlan>, s: Seq<RenamePlan>, w: Seq<RenamePlan>, r1: Result<(), FrenError>|
        {
            &&& exists|b: u128| plans_match(c, es, b, opts, cy)
            &&& stably_sorted_from(c, s)
            &&& within_batch_outcome(s, plan_opts.on_conflict, w, r1)
            &&& match r1 {
                Err(e) => r == Err::<Vec<RenamePlan>, FrenError>(e),
                Ok(_) => exists|f: Seq<RenamePlan>, r2: Result<(), FrenError>|
                    {
                        &&& preexisting_outcome(w, plan_opts.on_conflict, ex, f, r2)
                        &&& match r2 {
                            Err(e) => r == Err::<Vec<RenamePlan>, FrenError>(e),
                            Ok(_) => r matches Ok(v) && v@ == f,
                        }
                    },
            }
        };
    let b = choose|b: u128| plans_match(c, es, b, opts, cy);
    lemma_all_entries(roots, walked, opts, cy, roots.len() as int);
    assert forall|i: int| 0 <= i < c.len() implies plan_target(#[trigger] c[i]) == entry_target(
        es[i],
    ) && !ex.contains(plan_target(c[i])) by {}
    assert forall|i: int, j: int| 0 <= i < j < c.len() implies plan_target(#[trigger] c[i])
        != plan_target(#[trigger] c[j]) by {
        assert(entry_target(es[i]) != entry_target(es[j]));
    }
    lemma_sorted_no_collision(c, s);
    let ts = targets_of(s);
    // Within the batch nothing is renumbered.
    assert forall|i: int| 0 <= i < s.len() implies (#[trigger] w[i]).new_name@ == s[i].new_name@ by {
        if plan_opts.on_conflict == crate::opts::ConflictPolicy::Number {
            assert forall|j: int| 0 <= j < ts.len() && j != i implies ts[j] != ts[i] by {
                if j < i {
                    assert(!(ts[j] == ts[i]));
                } else {
                    assert(!(ts[i] == ts[j]));
                }
            }
            lemma_rank_alone(ts, crate::plan::conflict::keys_of(s), i, ts.len() as int);
        }
    }
    assert(r1 is Ok);
    let (f, r2) = choose|f: Seq<RenamePlan>, r2: Result<(), FrenError>|
        {
            &&& preexisting_outcome(w, plan_opts.on_conflict, ex, f, r2)
            &&& match r2 {
                Err(e) => r == Err::<Vec<RenamePlan>, FrenError>(e),
                Ok(_) => r matches Ok(v) && v@ == f,
            }
        };
    // Against the disk nothing is renumbered either.
    assert forall|i: int| 0 <= i < w.len() implies !ex.contains(plan_target(#[trigger] w[i])) by {
        let q = lemma_sorted_member(c, s, i);
        assert(same_but_name(s[i], w[i]));
        assert(plan_target(w[i]) == plan_target(c[q]));
    }
    assert(r2 is Ok);
    assert(v@ == f);
    assert forall|i: int| 0 <= i < v.len() implies {
        let p = #[trigger] v@[i];
        &&& spec_reorder_name(p.old_name@, p.kind, opts, cy) == Some(p.new_name@)
        &&& p.new_name@ != p.old_name@
        &&& (p.detected_date matches Some(d) ==> p.new_name@.take(d.iso_string@.len() as int)
            == d.iso_string@)
        &&& (p.detected_date is None ==> p.new_name@ == spec_new_name(p.old_name@, p.kind, opts, cy))
    } by {
        let p = v@[i];
        let q = lemma_sorted_member(c, s, i);
        assert(same_but_name(s[i], w[i]));
        assert(same_but_name(w[i], f[i]));
        assert(p.new_name@ == c[q].new_name@);
        let e = es[q];
        assert(is_reorder_entry(e, opts, cy));
        let raw = e.2;
        let kind = e.5;
        let stem = reorder_stem(raw, kind);
        assert(detection_of(stem, opts, cy, p.detected_date));
        match p.detected_date {
            Some(d) => {
                assert(detected_iso(stem, opts, cy) == Some(d.iso_string@));
                law_reordered_name_starts_with_date(raw, kind, opts, cy);
            },
            None => {
                assert(detected_iso(stem, opts, cy) is None);
                law_reorder_without_date_is_rename(raw, kind, opts, cy);
            },
        }
    }
}

} // verus!
