//! Conflict detection and resolution for the planner.
//!
//! Two distinct conflict classes:
//!
//! 1. **Within-batch:** two plans want to rename to the same target.
//! 2. **Pre-existing target:** the target path already exists on disk and
//!    is not part of the batch.
//!
//! Both classes are handled according to the active `ConflictPolicy`:
//! `Abort` returns an error, `Number` renames the losing plan to a
//! `{stem}-copy-{n}{ext}` variant, `Skip` and `Merge` answer
//! `NotYetImplemented`.
//!
//! What exists on disk is handed in as a list of paths (`existing`), taken
//! by the caller before planning.
use vstd::prelude::*;
use vstd::set_lib::{lemma_int_range, lemma_len_subset, set_int_range};
use vstd::string::StringExecFns;
use crate::error::FrenError;
use crate::execute::chars_eq;
use crate::opts::ConflictPolicy;
use crate::plan::naming::{
    cand_path, cand_path_exec, lemma_cand_injective, numbered_chars, spec_numbered_name,
};
use crate::plan::paths::{file_name_of, join_exec, join_path, path_file_name};
use crate::plan_types::RenamePlan;
use crate::text::{chars_of, string_from_chars};

verus! {

// ---------------------------------------------------------------------------
// Targets, groups and the order inside a group
// ---------------------------------------------------------------------------

/// The path a plan renames to: its parent joined with its new name.
pub open spec fn plan_target(p: RenamePlan) -> Seq<char> {
    join_path(p.parent@, p.new_name@)
}

pub open spec fn targets_of(ps: Seq<RenamePlan>) -> Seq<Seq<char>> {
    ps.map_values(|p: RenamePlan| plan_target(p))
}

/// The sort key of a plan inside its group: the last component of its
/// original path (empty when it has none).
pub open spec fn keys_of(ps: Seq<RenamePlan>) -> Seq<Seq<char>> {
    ps.map_values(|p: RenamePlan| path_file_name(p.original_path@))
}

pub open spec fn views(v: Seq<Vec<char>>) -> Seq<Seq<char>> {
    v.map_values(|w: Vec<char>| w@)
}

/// Lexicographic order of character sequences by code point (the order of
/// `String`'s `Ord`, since UTF-8 preserves code point order).
pub open spec fn seq_lt(a: Seq<char>, b: Seq<char>) -> bool
    decreases a.len(),
{
    if a.len() == 0 {
        b.len() > 0
    } else if b.len() == 0 {
        false
    } else if a[0] != b[0] {
        a[0] < b[0]
    } else {
        seq_lt(a.drop_first(), b.drop_first())
    }
}

/// Plan `j` comes before plan `i` in a stable sort by key.
pub open spec fn key_before(keys: Seq<Seq<char>>, j: int, i: int) -> bool {
    seq_lt(keys[j], keys[i]) || (keys[j] == keys[i] && j < i)
}

pub open spec fn rank_upto(ts: Seq<Seq<char>>, keys: Seq<Seq<char>>, i: int, n: int) -> nat
    decreases n,
{
    if n <= 0 {
        0
    } else {
        rank_upto(ts, keys, i, n - 1) + if ts[n - 1] == ts[i] && key_before(keys, n - 1, i) {
            1nat
        } else {
            0nat
        }
    }
}

/// Position of plan `i` in its group (the plans with the same target)
/// sorted stably by key.
pub open spec fn rank(ts: Seq<Seq<char>>, keys: Seq<Seq<char>>, i: int) -> nat {
    rank_upto(ts, keys, i, ts.len() as int)
}

/// No plan before `h` has the target of `h`.
pub open spec fn is_head(ts: Seq<Seq<char>>, h: int) -> bool {
    forall|j: int| 0 <= j < h ==> ts[j] != ts[h]
}

/// The first plan with the target of `i`.
pub open spec fn head_of(ts: Seq<Seq<char>>, i: int) -> int {
    choose|h: int| 0 <= h <= i && ts[h] == ts[i] && is_head(ts, h)
}

/// `h` is the first of at least two plans with one target.
pub open spec fn colliding_head(ts: Seq<Seq<char>>, h: int) -> bool {
    0 <= h < ts.len() && is_head(ts, h) && exists|j: int| h < j < ts.len() && ts[j] == ts[h]
}

pub open spec fn has_collision(ts: Seq<Seq<char>>) -> bool {
    exists|i: int, j: int| 0 <= i < j < ts.len() && ts[i] == ts[j]
}

// ---------------------------------------------------------------------------
// Free numbered candidates
// ---------------------------------------------------------------------------

/// Number of `k` in `[1, hi)` whose candidate path is not in `c`.
pub open spec fn count_free(c: Set<Seq<char>>, par: Seq<char>, base: Seq<char>, hi: int) -> nat
    decreases hi,
{
    if hi <= 1 {
        0
    } else {
        count_free(c, par, base, hi - 1) + if !c.contains(cand_path(par, base, hi - 1)) {
            1nat
        } else {
            0nat
        }
    }
}

/// `k` is the `t`-th (from 0) number whose candidate is free of `c`.
pub open spec fn is_nth_free(c: Set<Seq<char>>, par: Seq<char>, base: Seq<char>, t: nat, k: int) -> bool {
    k >= 1 && !c.contains(cand_path(par, base, k)) && count_free(c, par, base, k) == t
}

pub open spec fn nth_free(c: Set<Seq<char>>, par: Seq<char>, base: Seq<char>, t: nat) -> int {
    choose|k: int| is_nth_free(c, par, base, t, k)
}

/// Candidate paths in `[1, hi)` that are taken.
pub open spec fn taken_set(c: Set<Seq<char>>, par: Seq<char>, base: Seq<char>, hi: int) -> Set<
    Seq<char>,
> {
    Set::new(
        |x: Seq<char>|
            exists|k: int| 1 <= k < hi && x == cand_path(par, base, k) && c.contains(x),
    )
}

// ---------------------------------------------------------------------------
// Within-batch resolution under `Number`
// ---------------------------------------------------------------------------

/// The member of the group of `h` (the plans with its target) that sorts
/// first.
pub open spec fn group_leader(ps: Seq<RenamePlan>, h: int) -> int {
    choose|j: int|
        0 <= j < ps.len() && targets_of(ps)[j] == targets_of(ps)[h] && rank(
            targets_of(ps),
            keys_of(ps),
            j,
        ) == 0
}

/// The directory in which the numbered names of the group of `h` are
/// claimed: that of the member that sorts first.
pub open spec fn group_parent(ps: Seq<RenamePlan>, h: int) -> Seq<char> {
    ps[group_leader(ps, h)].parent@
}

/// The name that the group of `h` numbers: the last component of its
/// target.
pub open spec fn group_base(ps: Seq<RenamePlan>, h: int) -> Seq<char> {
    path_file_name(targets_of(ps)[h])
}

/// Plan `x` shares the target of `h` and does not sort first in the group.
pub open spec fn is_renamed_member(ps: Seq<RenamePlan>, h: int, x: int) -> bool {
    targets_of(ps)[x] == targets_of(ps)[h] && rank(targets_of(ps), keys_of(ps), x) >= 1
}

/// The numbered path handed to member `x` of the group headed by `h`,
/// given the paths `c` claimed before the group.
pub open spec fn member_path(ps: Seq<RenamePlan>, h: int, c: Set<Seq<char>>, x: int) -> Seq<char> {
    cand_path(
        group_parent(ps, h),
        group_base(ps, h),
        nth_free(
            c,
            group_parent(ps, h),
            group_base(ps, h),
            (rank(targets_of(ps), keys_of(ps), x) - 1) as nat,
        ),
    )
}

/// Paths handed to the renamed members `x` in `[lo, hi)` of the group of `h`.
pub open spec fn assigned_between(ps: Seq<RenamePlan>, h: int, c: Set<Seq<char>>, lo: int, hi: int) -> Set<
    Seq<char>,
> {
    Set::new(
        |y: Seq<char>|
            exists|x: int| lo <= x < hi && is_renamed_member(ps, h, x) && y == member_path(ps, h, c, x),
    )
}

/// Paths handed out to the members of the group headed by `h`, given the
/// paths `c` claimed before the group.
pub open spec fn group_assigned(ps: Seq<RenamePlan>, h: int, c: Set<Seq<char>>) -> Set<Seq<char>> {
    if is_head(targets_of(ps), h) {
        assigned_between(ps, h, c, h, ps.len() as int)
    } else {
        Set::empty()
    }
}

/// Paths claimed once the groups headed before `h` are resolved: every
/// original target, and every numbered path handed out so far.
pub open spec fn batch_claimed(ps: Seq<RenamePlan>, h: int) -> Set<Seq<char>>
    decreases h,
{
    if h <= 0 {
        targets_of(ps).to_set()
    } else {
        let c = batch_claimed(ps, h - 1);
        c.union(group_assigned(ps, h - 1, c))
    }
}

/// The new name of plan `i` after within-batch resolution under `Number`.
///
/// Groups are resolved in the order of their first member. Inside a group
/// the members are sorted stably by the file name of their original path;
/// the first keeps the plain target, the member at position `t >= 1` gets
/// the `t`-th free `-copy-{k}` variant of the last component of the group's
/// target, free meaning that its path in the directory of the first member
/// is neither an original target nor handed out to an earlier group.
pub open spec fn batch_new_name(ps: Seq<RenamePlan>, i: int) -> Seq<char> {
    let ts = targets_of(ps);
    let keys = keys_of(ps);
    let h = head_of(ts, i);
    let r = rank(ts, keys, i);
    if r >= 1 {
        spec_numbered_name(
            group_base(ps, h),
            nth_free(batch_claimed(ps, h), group_parent(ps, h), group_base(ps, h), (r - 1) as nat)
                as nat,
        )
    } else {
        ps[i].new_name@
    }
}

/// `q` is `p` with at most its new name changed.
pub open spec fn same_but_name(p: RenamePlan, q: RenamePlan) -> bool {
    &&& q.original_path == p.original_path
    &&& q.parent == p.parent
    &&& q.old_name == p.old_name
    &&& q.depth == p.depth
    &&& q.kind == p.kind
    &&& q.detected_date == p.detected_date
    &&& q.batch_id == p.batch_id
}

// ---------------------------------------------------------------------------
// Lemmas
// ---------------------------------------------------------------------------

pub proof fn lemma_seq_lt_irreflexive(a: Seq<char>)
    ensures
        !seq_lt(a, a),
    decreases a.len(),
{
    if a.len() > 0 {
        lemma_seq_lt_irreflexive(a.drop_first());
    }
}

pub proof fn lemma_count_free_step(c: Set<Seq<char>>, par: Seq<char>, base: Seq<char>, k: int)
    requires
        k >= 1,
    ensures
        count_free(c, par, base, k + 1) == count_free(c, par, base, k) + if !c.contains(
            cand_path(par, base, k),
        ) {
            1nat
        } else {
            0nat
        },
{
}

pub proof fn lemma_count_free_monotone(c: Set<Seq<char>>, par: Seq<char>, base: Seq<char>, a: int, b: int)
    requires
        a <= b,
    ensures
        count_free(c, par, base, a) <= count_free(c, par, base, b),
    decreases b - a,
{
    if a < b {
        lemma_count_free_monotone(c, par, base, a, b - 1);
    }
}

/// At most `|c|` candidates in `[1, hi)` are taken.
pub proof fn lemma_count_free_bound(c: Set<Seq<char>>, par: Seq<char>, base: Seq<char>, hi: int)
    requires
        c.finite(),
        hi >= 1,
    ensures
        taken_set(c, par, base, hi).subset_of(c),
        taken_set(c, par, base, hi).finite(),
        count_free(c, par, base, hi) + taken_set(c, par, base, hi).len() == hi - 1,
        count_free(c, par, base, hi) + c.len() >= hi - 1,
    decreases hi,
{
    let s = taken_set(c, par, base, hi);
    assert(s.subset_of(c));
    lemma_len_subset(s, c);
    if hi == 1 {
        assert(s =~= Set::<Seq<char>>::empty());
    } else {
        lemma_count_free_bound(c, par, base, hi - 1);
        let s0 = taken_set(c, par, base, hi - 1);
        let x = cand_path(par, base, hi - 1);
        if c.contains(x) {
            assert(!s0.contains(x)) by {
                if s0.contains(x) {
                    let k = choose|k: int| 1 <= k < hi - 1 && x == cand_path(par, base, k) && c.contains(x);
                    lemma_cand_injective(par, base, k, hi - 1);
                }
            }
            assert(s =~= s0.insert(x));
        } else {
            assert(s =~= s0);
        }
    }
}

/// The `t`-th free number is unique.
pub proof fn lemma_nth_free_unique(c: Set<Seq<char>>, par: Seq<char>, base: Seq<char>, t: nat, a: int, b: int)
    requires
        is_nth_free(c, par, base, t, a),
        is_nth_free(c, par, base, t, b),
    ensures
        a == b,
{
    if a < b {
        lemma_count_free_step(c, par, base, a);
        lemma_count_free_monotone(c, par, base, a + 1, b);
    } else if b < a {
        lemma_count_free_step(c, par, base, b);
        lemma_count_free_monotone(c, par, base, b + 1, a);
    }
}

/// A head is the head of every member of its group.
pub proof fn lemma_head_of(ts: Seq<Seq<char>>, h: int, i: int)
    requires
        0 <= h <= i < ts.len(),
        is_head(ts, h),
        ts[i] == ts[h],
    ensures
        head_of(ts, i) == h,
{
    let g = head_of(ts, i);
    assert(0 <= g <= i && ts[g] == ts[i] && is_head(ts, g));
    if g < h {
        assert(ts[g] != ts[h]);
    }
    if h < g {
        assert(ts[h] != ts[g]);
    }
}

/// What the head of each plan is.
pub proof fn lemma_heads(ts: Seq<Seq<char>>)
    ensures
        forall|x: int|
            0 <= x < ts.len() ==> 0 <= #[trigger] head_of(ts, x) <= x && ts[head_of(ts, x)] == ts[x]
                && is_head(ts, head_of(ts, x)),
{
    assert forall|x: int| 0 <= x < ts.len() implies 0 <= #[trigger] head_of(ts, x) <= x
        && ts[head_of(ts, x)] == ts[x] && is_head(ts, head_of(ts, x)) by {
        lemma_head_exists(ts, x);
    }
}

pub proof fn lemma_assigned_step(ps: Seq<RenamePlan>, h: int, c: Set<Seq<char>>, lo: int, hi: int)
    requires
        lo <= hi,
    ensures
        assigned_between(ps, h, c, lo, hi + 1) == if is_renamed_member(ps, h, hi) {
            assigned_between(ps, h, c, lo, hi).insert(member_path(ps, h, c, hi))
        } else {
            assigned_between(ps, h, c, lo, hi)
        },
{
    let a = assigned_between(ps, h, c, lo, hi);
    let b = assigned_between(ps, h, c, lo, hi + 1);
    if is_renamed_member(ps, h, hi) {
        assert forall|y: Seq<char>| b.contains(y) <==> a.insert(member_path(ps, h, c, hi)).contains(y) by {
            if b.contains(y) {
                let x = choose|x: int| lo <= x < hi + 1 && is_renamed_member(ps, h, x) && y == member_path(ps, h, c, x);
                if x < hi {
                    assert(a.contains(y));
                }
            }
            if a.contains(y) {
                let x = choose|x: int| lo <= x < hi && is_renamed_member(ps, h, x) && y == member_path(ps, h, c, x);
                assert(b.contains(y));
            }
        }
        assert(b =~= a.insert(member_path(ps, h, c, hi)));
    } else {
        assert forall|y: Seq<char>| b.contains(y) <==> a.contains(y) by {
            if b.contains(y) {
                let x = choose|x: int| lo <= x < hi + 1 && is_renamed_member(ps, h, x) && y == member_path(ps, h, c, x);
                assert(a.contains(y));
            }
            if a.contains(y) {
                let x = choose|x: int| lo <= x < hi && is_renamed_member(ps, h, x) && y == member_path(ps, h, c, x);
                assert(b.contains(y));
            }
        }
        assert(b =~= a);
    }
}

/// Every plan has a head.
pub proof fn lemma_head_exists(ts: Seq<Seq<char>>, i: int)
    requires
        0 <= i < ts.len(),
    ensures
        exists|h: int| 0 <= h <= i && ts[h] == ts[i] && is_head(ts, h),
    decreases i,
{
    if !is_head(ts, i) {
        let j = choose|j: int| 0 <= j < i && ts[j] == ts[i];
        lemma_head_exists(ts, j);
        let h = choose|h: int| 0 <= h <= j && ts[h] == ts[j] && is_head(ts, h);
        assert(0 <= h <= i && ts[h] == ts[i] && is_head(ts, h));
    }
}

/// A collision has a colliding head.
pub proof fn lemma_collision_has_head(ts: Seq<Seq<char>>)
    requires
        has_collision(ts),
    ensures
        exists|h: int| colliding_head(ts, h),
{
    let (i, j) = choose|i: int, j: int| 0 <= i < j < ts.len() && ts[i] == ts[j];
    lemma_head_exists(ts, i);
    let h = choose|h: int| 0 <= h <= i && ts[h] == ts[i] && is_head(ts, h);
    assert(h < j && ts[j] == ts[h]);
    assert(colliding_head(ts, h));
}

// ---------------------------------------------------------------------------
// Executable helpers
// ---------------------------------------------------------------------------

/// Whether `x` is among the views of `v`.
pub fn contains_view(v: &Vec<Vec<char>>, x: &Vec<char>) -> (b: bool)
    ensures
        b == views(v@).contains(x@),
{
    let mut i: usize = 0;
    while i < v.len()
        invariant
            i <= v.len(),
            forall|j: int| 0 <= j < i ==> v@[j]@ != x@,
        decreases v.len() - i,
    {
        if chars_eq(&v[i], x) {
            assert(views(v@)[i as int] == x@);
            return true;
        }
        i += 1;
    }
    assert forall|j: int| 0 <= j < views(v@).len() implies views(v@)[j] != x@ by {
        assert(views(v@)[j] == v@[j]@);
    }
    false
}

/// `seq_lt` on two character vectors.
pub(crate) fn seq_lt_exec(a: &Vec<char>, b: &Vec<char>) -> (r: bool)
    ensures
        r == seq_lt(a@, b@),
{
    let mut i: usize = 0;
    assert(a@.skip(0) =~= a@);
    assert(b@.skip(0) =~= b@);
    while i < a.len() && i < b.len() && a[i] == b[i]
        invariant
            i <= a.len(),
            i <= b.len(),
            seq_lt(a@, b@) == seq_lt(a@.skip(i as int), b@.skip(i as int)),
        decreases a.len() - i,
    {
        assert(a@.skip(i as int).drop_first() =~= a@.skip(i + 1));
        assert(b@.skip(i as int).drop_first() =~= b@.skip(i + 1));
        i += 1;
    }
    if i == a.len() {
        i < b.len()
    } else if i == b.len() {
        false
    } else {
        assert(a@.skip(i as int)[0] == a@[i as int]);
        assert(b@.skip(i as int)[0] == b@[i as int]);
        a[i] < b[i]
    }
}

/// Targets of the plans, as character vectors.
fn target_chars(plans: &Vec<RenamePlan>) -> (ts: Vec<Vec<char>>)
    ensures
        views(ts@) == targets_of(plans@),
{
    let mut ts: Vec<Vec<char>> = Vec::new();
    let mut i: usize = 0;
    while i < plans.len()
        invariant
            i <= plans.len(),
            views(ts@) == targets_of(plans@).take(i as int),
        decreases plans.len() - i,
    {
        let p = chars_of(plans[i].parent.as_str());
        let n = chars_of(plans[i].new_name.as_str());
        let t = join_exec(&p, &n);
        let ghost before = views(ts@);
        ts.push(t);
        assert(views(ts@) =~= before.push(t@));
        assert(targets_of(plans@)[i as int] == plan_target(plans@[i as int]));
        i += 1;
        assert(views(ts@) =~= targets_of(plans@).take(i as int));
    }
    assert(targets_of(plans@).take(i as int) =~= targets_of(plans@));
    ts
}

/// File names of the original paths, as character vectors.
fn key_chars(plans: &Vec<RenamePlan>) -> (ks: Vec<Vec<char>>)
    ensures
        views(ks@) == keys_of(plans@),
{
    let mut ks: Vec<Vec<char>> = Vec::new();
    let mut i: usize = 0;
    while i < plans.len()
        invariant
            i <= plans.len(),
            views(ks@) == keys_of(plans@).take(i as int),
        decreases plans.len() - i,
    {
        let k = file_name_of(&chars_of(plans[i].original_path.as_str()));
        let ghost before = views(ks@);
        ks.push(k);
        assert(views(ks@) =~= before.push(k@));
        assert(keys_of(plans@)[i as int] == path_file_name(plans@[i as int].original_path@));
        i += 1;
        assert(views(ks@) =~= keys_of(plans@).take(i as int));
    }
    assert(keys_of(plans@).take(i as int) =~= keys_of(plans@));
    ks
}

/// Whether no target before `h` equals the target of `h`.
fn is_head_exec(ts: &Vec<Vec<char>>, h: usize) -> (b: bool)
    requires
        h < ts.len(),
    ensures
        b == is_head(views(ts@), h as int),
{
    let ghost vs = views(ts@);
    let mut j: usize = 0;
    while j < h
        invariant
            j <= h < ts.len(),
            vs == views(ts@),
            forall|x: int| 0 <= x < j ==> vs[x] != vs[h as int],
        decreases h - j,
    {
        if chars_eq(&ts[j], &ts[h]) {
            assert(vs[j as int] == ts@[j as int]@ && vs[h as int] == ts@[h as int]@);
            return false;
        }
        assert(vs[j as int] == ts@[j as int]@ && vs[h as int] == ts@[h as int]@);
        j += 1;
    }
    true
}

/// The first plan after `h` with the target of `h`.
fn first_dup_after(ts: &Vec<Vec<char>>, h: usize) -> (r: Option<usize>)
    requires
        h < ts.len(),
    ensures
        match r {
            Some(j) => h < j < ts.len() && views(ts@)[j as int] == views(ts@)[h as int] && forall|
                x: int,
            | h < x < j ==> views(ts@)[x] != views(ts@)[h as int],
            None => forall|x: int| h < x < ts.len() ==> views(ts@)[x] != views(ts@)[h as int],
        },
{
    let ghost vs = views(ts@);
    let mut j: usize = h + 1;
    while j < ts.len()
        invariant
            h < j <= ts.len(),
            vs == views(ts@),
            forall|x: int| h < x < j ==> vs[x] != vs[h as int],
        decreases ts.len() - j,
    {
        assert(vs[j as int] == ts@[j as int]@ && vs[h as int] == ts@[h as int]@);
        if chars_eq(&ts[j], &ts[h]) {
            return Some(j);
        }
        j += 1;
    }
    None
}

/// Rank of plan `i` in its group.
fn rank_exec(ts: &Vec<Vec<char>>, keys: &Vec<Vec<char>>, i: usize) -> (r: usize)
    requires
        i < ts.len(),
        keys.len() == ts.len(),
    ensures
        r == rank(views(ts@), views(keys@), i as int),
{
    let ghost vs = views(ts@);
    let ghost ks = views(keys@);
    let mut r: usize = 0;
    let mut j: usize = 0;
    while j < ts.len()
        invariant
            j <= ts.len(),
            keys.len() == ts.len(),
            i < ts.len(),
            vs == views(ts@),
            ks == views(keys@),
            r == rank_upto(vs, ks, i as int, j as int),
            r <= j,
        decreases ts.len() - j,
    {
        assert(vs[j as int] == ts@[j as int]@ && vs[i as int] == ts@[i as int]@);
        assert(ks[j as int] == keys@[j as int]@ && ks[i as int] == keys@[i as int]@);
        if chars_eq(&ts[j], &ts[i]) {
            let lt = seq_lt_exec(&keys[j], &keys[i]);
            let eqk = chars_eq(&keys[j], &keys[i]);
            if lt || (eqk && j < i) {
                r += 1;
            }
        }
        j += 1;
    }
    r
}

/// The `t`-th free number for candidates of `base` in `par`, free meaning
/// absent from `claimed`.
fn nth_free_exec(claimed: &Vec<Vec<char>>, par: &Vec<char>, base: &Vec<char>, t: usize) -> (k: u32)
    requires
        claimed.len() + t + 2 <= 0xffff_ffff,
    ensures
        is_nth_free(views(claimed@).to_set(), par@, base@, t as nat, k as int),
{
    let ghost c = views(claimed@).to_set();
    let ghost bound: int = claimed.len() + t + 2;
    proof {
        vstd::seq_lib::seq_to_set_is_finite(views(claimed@));
        views(claimed@).lemma_cardinality_of_set();
        lemma_count_free_bound(c, par@, base@, bound);
    }
    let mut k: u32 = 1;
    let mut cnt: usize = 0;
    loop
        invariant
            1 <= k,
            cnt <= t,
            cnt == count_free(c, par@, base@, k as int),
            count_free(c, par@, base@, bound) >= t + 1,
            bound == claimed.len() + t + 2,
            bound <= 0xffff_ffff,
            c == views(claimed@).to_set(),
        decreases bound - k,
    {
        proof {
            if k as int >= bound {
                lemma_count_free_monotone(c, par@, base@, bound, k as int);
            }
        }
        let cp = cand_path_exec(par, base, k);
        let taken = contains_view(claimed, &cp);
        proof {
            lemma_count_free_step(c, par@, base@, k as int);
        }
        if !taken {
            if cnt == t {
                return k;
            }
            cnt += 1;
        }
        k += 1;
    }
}

/// What [`resolve_within_batch`] does: `after` is `before` with at most
/// the new names changed, as `policy` and the collisions decide, and `r`
/// is the answer.
pub open spec fn within_batch_outcome(
    before: Seq<RenamePlan>,
    policy: ConflictPolicy,
    after: Seq<RenamePlan>,
    r: Result<(), FrenError>,
) -> bool {
    let ts = targets_of(before);
    &&& after.len() == before.len()
    &&& forall|i: int| 0 <= i < before.len() ==> same_but_name(before[i], #[trigger] after[i])
    &&& policy == ConflictPolicy::Number ==> r is Ok && forall|i: int|
        0 <= i < before.len() ==> (#[trigger] after[i]).new_name@ == batch_new_name(before, i)
    &&& policy != ConflictPolicy::Number ==> after == before && (r is Ok <==> !has_collision(ts))
    &&& policy == ConflictPolicy::Abort && r is Err ==> exists|h: int, j: int|
        #![trigger colliding_head(ts, h), ts[j]]
        colliding_head(ts, h) && (forall|g: int| 0 <= g < h ==> !colliding_head(ts, g)) && h < j
            < before.len() && ts[j] == ts[h] && (forall|x: int| h < x < j ==> ts[x] != ts[h])
            && match r {
            Err(FrenError::WithinBatchCollision { a, b, target }) => a == before[h].original_path
                && b == before[j].original_path && target@ == ts[h],
            _ => false,
        }
    &&& (policy == ConflictPolicy::Skip || policy == ConflictPolicy::Merge) && r is Err ==> match r {
        Err(FrenError::NotYetImplemented(m)) => m@ == "Skip/Merge conflict policy"@,
        _ => false,
    }
}

/// Resolve within-batch conflicts according to `policy`.
///
/// Under `Abort`: returns `Err(FrenError::WithinBatchCollision)` for the
/// first collision (the group whose first member comes first; `a` and `b`
/// are its first two members).
///
/// Under `Number`: groups plans by computed target. Within each colliding
/// group, the plan whose original file name sorts first keeps the plain
/// target; every other plan is renamed to a `{stem}-copy-{k}` variant of
/// the target's last component (k ascending from 1, skipping variants whose
/// path in the directory of the first plan is already claimed by another
/// plan's target or handed out to another group). The plans are updated in
/// place.
///
/// Under `Skip` or `Merge`: a collision answers `NotYetImplemented`.
pub fn resolve_within_batch(plans: &mut Vec<RenamePlan>, policy: ConflictPolicy) -> (r: Result<
    (),
    FrenError,
>)
    requires
        old(plans).len() < 0x4000_0000,
    ensures
        within_batch_outcome(old(plans)@, policy, final(plans)@, r),

{
    let ts = target_chars(plans);
    let ghost orig = plans@;
    let ghost vts = targets_of(orig);
    let n = plans.len();
    assert(ts@.len() == views(ts@).len());
    match policy {
        ConflictPolicy::Number => {},
        _ => {
            let mut h: usize = 0;
            while h < n
                invariant
                    policy != ConflictPolicy::Number,
                    h <= n == ts.len() == orig.len(),
                    views(ts@) == vts,
                    vts == targets_of(orig),
                    plans@ == orig,
                    forall|g: int| 0 <= g < h ==> !colliding_head(vts, g),
                decreases n - h,
            {
                if is_head_exec(&ts, h) {
                    match first_dup_after(&ts, h) {
                        Some(j) => {
                            assert(colliding_head(vts, h as int));
                            match policy {
                                ConflictPolicy::Abort => {
                                    let a = plans[h].original_path.clone();
                                    let b = plans[j].original_path.clone();
                                    let target = string_from_chars(&ts[h]);
                                    return Err(
                                        FrenError::WithinBatchCollision { a, b, target },
                                    );
                                },
                                _ => {
                                    let m = String::from_str("Skip/Merge conflict policy");
                                    return Err(FrenError::NotYetImplemented(m));
                                },
                            }
                        },
                        None => {
                            assert(!colliding_head(vts, h as int));
                        },
                    }
                }
                h += 1;
            }
            proof {
                if has_collision(vts) {
                    lemma_collision_has_head(vts);
                }
            }
            return Ok(());
        },
    }
    resolve_numbered(plans, &ts);
    Ok(())
}

/// The index of the member of the group headed by `h` that sorts first.
fn group_leader_exec(ts: &Vec<Vec<char>>, keys: &Vec<Vec<char>>, h: usize) -> (lead: usize)
    requires
        h < ts.len(),
        keys.len() == ts.len(),
        is_head(views(ts@), h as int),
    ensures
        h <= lead < ts.len(),
        views(ts@)[lead as int] == views(ts@)[h as int],
        rank(views(ts@), views(keys@), lead as int) == 0,
{
    let ghost vts = views(ts@);
    let ghost vks = views(keys@);
    let n = ts.len();
    let mut i: usize = h;
    proof {
        crate::plan::laws::lemma_rank_zero_exists(vts, vks, h as int);
        let j = choose|j: int| 0 <= j < vts.len() && vts[j] == vts[h as int] && rank(vts, vks, j) == 0;
        if j < h {
            assert(vts[j] != vts[h as int]);
        }
    }
    while i < n
        invariant
            h <= i <= n == ts.len() == keys.len(),
            vts == views(ts@),
            vks == views(keys@),
            is_head(vts, h as int),
            exists|j: int| i <= j < n && vts[j] == vts[h as int] && rank(vts, vks, j) == 0,
        decreases n - i,
    {
        assert(vts[i as int] == ts@[i as int]@ && vts[h as int] == ts@[h as int]@);
        if chars_eq(&ts[i], &ts[h]) {
            let r = rank_exec(ts, keys, i);
            if r == 0 {
                return i;
            }
        }
        proof {
            let j = choose|j: int| i <= j < n && vts[j] == vts[h as int] && rank(vts, vks, j) == 0;
            assert(j != i);
        }
        i += 1;
    }
    proof {
        let j = choose|j: int| i <= j < n && vts[j] == vts[h as int] && rank(vts, vks, j) == 0;
    }
    h
}

/// The `Number` pass of [`resolve_within_batch`].
fn resolve_numbered(plans: &mut Vec<RenamePlan>, ts: &Vec<Vec<char>>)
    requires
        old(plans).len() < 0x4000_0000,
        views(ts@) == targets_of(old(plans)@),
    ensures
        final(plans).len() == old(plans).len(),
        forall|i: int|
            0 <= i < old(plans).len() ==> same_but_name(old(plans)@[i], #[trigger] final(plans)@[i]),
        forall|i: int|
            0 <= i < old(plans).len() ==> (#[trigger] final(plans)@[i]).new_name@ == batch_new_name(
                old(plans)@,
                i,
            ),
{
    let ghost orig = plans@;
    let ghost vts = targets_of(orig);
    let ghost vks = keys_of(orig);
    let keys = key_chars(plans);
    let n = plans.len();
    let mut claimed: Vec<Vec<char>> = target_chars(plans);
    assert(ts@.len() == views(ts@).len());
    assert(keys@.len() == views(keys@).len());
    assert(claimed@.len() == views(claimed@).len());
    proof {
        lemma_heads(vts);
        lemma_int_range(0, n as int);
    }
    let ghost mut assigned: Set<int> = Set::empty();
    let mut h: usize = 0;
    while h < n
        invariant
            h <= n == ts.len() == keys.len() == orig.len() == plans.len(),
            n < 0x4000_0000,
            views(ts@) == vts,
            views(keys@) == vks,
            vts == targets_of(orig),
            vks == keys_of(orig),
            forall|x: int|
                0 <= x < vts.len() ==> 0 <= #[trigger] head_of(vts, x) <= x && vts[head_of(vts, x)]
                    == vts[x] && is_head(vts, head_of(vts, x)),
            set_int_range(0, n as int).finite(),
            set_int_range(0, n as int).len() == n,
            forall|i: int| 0 <= i < n ==> same_but_name(orig[i], #[trigger] plans@[i]),
            forall|i: int|
                0 <= i < n ==> (#[trigger] plans@[i]).new_name@ == if head_of(vts, i) < h {
                    batch_new_name(orig, i)
                } else {
                    orig[i].new_name@
                },
            views(claimed@).to_set() == batch_claimed(orig, h as int),
            assigned.finite(),
            forall|x: int| assigned.contains(x) ==> 0 <= x < n && head_of(vts, x) < h,
            claimed.len() == n + assigned.len(),
        decreases n - h,
    {
        let ghost c = batch_claimed(orig, h as int);
        assert(batch_claimed(orig, h + 1) == c.union(group_assigned(orig, h as int, c)));
        if is_head_exec(ts, h) {
            let base = file_name_of(&ts[h]);
            let lead = group_leader_exec(ts, &keys, h);
            proof {
                crate::plan::laws::lemma_leader(orig, h as int);
            }
            let par = chars_of(plans[lead].parent.as_str());
            assert(par@ == group_parent(orig, h as int));
            assert(base@ == group_base(orig, h as int));
            let mut added: Vec<Vec<char>> = Vec::new();
            let mut i: usize = h;
            assert(assigned_between(orig, h as int, c, h as int, h as int) =~= Set::empty());
            assert(views(added@).to_set() =~= Set::empty());
            while i < n
                invariant
                    h <= i <= n == ts.len() == keys.len() == orig.len() == plans.len(),
                    n < 0x4000_0000,
                    views(ts@) == vts,
                    views(keys@) == vks,
                    vts == targets_of(orig),
                    vks == keys_of(orig),
                    forall|x: int|
                        0 <= x < vts.len() ==> 0 <= #[trigger] head_of(vts, x) <= x && vts[head_of(
                            vts,
                            x,
                        )] == vts[x] && is_head(vts, head_of(vts, x)),
                    set_int_range(0, n as int).finite(),
                    set_int_range(0, n as int).len() == n,
                    is_head(vts, h as int),
                    par@ == group_parent(orig, h as int),
                    base@ == group_base(orig, h as int),
                    c == batch_claimed(orig, h as int),
                    views(claimed@).to_set() == c,
                    forall|x: int| 0 <= x < n ==> same_but_name(orig[x], #[trigger] plans@[x]),
                    forall|x: int|
                        0 <= x < n ==> (#[trigger] plans@[x]).new_name@ == if head_of(vts, x) < h
                            || (head_of(vts, x) == h && x < i) {
                            batch_new_name(orig, x)
                        } else {
                            orig[x].new_name@
                        },
                    views(added@).to_set() == assigned_between(orig, h as int, c, h as int, i as int),
                    assigned.finite(),
                    forall|x: int|
                        assigned.contains(x) ==> 0 <= x < n && (head_of(vts, x) < h || (head_of(
                            vts,
                            x,
                        ) == h && x < i)),
                    claimed.len() + added.len() == n + assigned.len(),
                decreases n - i,
            {
                proof {
                    assert(assigned.subset_of(set_int_range(0, n as int)));
                    lemma_len_subset(assigned, set_int_range(0, n as int));
                    lemma_assigned_step(orig, h as int, c, h as int, i as int);
                }
                assert(views(ts@)[i as int] == ts@[i as int]@ && views(ts@)[h as int]
                    == ts@[h as int]@);
                if chars_eq(&ts[i], &ts[h]) {
                    proof {
                        lemma_head_of(vts, h as int, i as int);
                    }
                    let r = rank_exec(ts, &keys, i);
                    if r >= 1 {
                        assert(r <= n) by {
                            lemma_rank_bound(vts, vks, i as int, n as int);
                        }
                        let k = nth_free_exec(&claimed, &par, &base, r - 1);
                        let name = numbered_chars(&base, k);
                        let cp = join_exec(&par, &name);
                        proof {
                            let t = (r - 1) as nat;
                            let k0 = nth_free(c, par@, base@, t);
                            assert(is_nth_free(c, par@, base@, t, k0));
                            lemma_nth_free_unique(c, par@, base@, t, k as int, k0);
                            assert(is_renamed_member(orig, h as int, i as int));
                            assert(cp@ == member_path(orig, h as int, c, i as int));
                            assert(name@ == batch_new_name(orig, i as int));
                        }
                        let ghost before = views(added@);
                        added.push(cp);
                        plans[i].new_name = string_from_chars(&name);
                        proof {
                            assert(views(added@) =~= before + seq![cp@]);
                            Seq::lemma_to_set_insert_commutes(before, cp@);
                            assert(views(added@).to_set() =~= before.to_set().insert(cp@));
                            assigned = assigned.insert(i as int);
                        }
                    } else {
                        assert(!is_renamed_member(orig, h as int, i as int));
                        assert(batch_new_name(orig, i as int) == orig[i as int].new_name@);
                    }
                } else {
                    assert(!is_renamed_member(orig, h as int, i as int));
                    assert(head_of(vts, i as int) != h);
                }
                i += 1;
            }
            proof {
                assert(group_assigned(orig, h as int, c) == assigned_between(
                    orig,
                    h as int,
                    c,
                    h as int,
                    n as int,
                ));
            }
            let ghost before_c = views(claimed@);
            let ghost before_a = views(added@);
            let mut j: usize = 0;
            while j < added.len()
                invariant
                    j <= added.len(),
                    views(claimed@) == before_c + before_a.take(j as int),
                    before_a == views(added@),
                decreases added.len() - j,
            {
                let ghost pre = views(claimed@);
                claimed.push(added[j].clone());
                assert(views(claimed@) =~= pre.push(added@[j as int]@));
                assert(before_a.take(j + 1) =~= before_a.take(j as int).push(before_a[j as int]));
                j += 1;
            }
            proof {
                assert(before_a.take(j as int) =~= before_a);
                assert forall|y: Seq<char>| (before_c + before_a).contains(y) <==> (
                before_c.to_set().union(before_a.to_set())).contains(y) by {
                    if (before_c + before_a).contains(y) {
                        let q = choose|q: int| 0 <= q < (before_c + before_a).len() && (before_c
                            + before_a)[q] == y;
                        if q < before_c.len() {
                            assert(before_c[q] == y);
                        } else {
                            assert(before_a[q - before_c.len()] == y);
                        }
                    }
                    if before_c.contains(y) {
                        let q = choose|q: int| 0 <= q < before_c.len() && before_c[q] == y;
                        assert((before_c + before_a)[q] == y);
                    }
                    if before_a.contains(y) {
                        let q = choose|q: int| 0 <= q < before_a.len() && before_a[q] == y;
                        assert((before_c + before_a)[q + before_c.len()] == y);
                    }
                }
                assert(views(claimed@).to_set() =~= batch_claimed(orig, h + 1));
            }
        } else {
            proof {
                assert(group_assigned(orig, h as int, c) =~= Set::empty());
                assert(c.union(Set::empty()) =~= c);
                assert forall|x: int| 0 <= x < n implies head_of(vts, x) != h by {
                    if head_of(vts, x) == h {
                        assert(is_head(vts, head_of(vts, x)));
                    }
                }
            }
        }
        h += 1;
    }
}

pub proof fn lemma_rank_bound(ts: Seq<Seq<char>>, keys: Seq<Seq<char>>, i: int, n: int)
    ensures
        rank_upto(ts, keys, i, n) <= if n < 0 {
            0
        } else {
            n
        },
    decreases n,
{
    if n > 0 {
        lemma_rank_bound(ts, keys, i, n - 1);
    }
}

// ---------------------------------------------------------------------------
// Pre-existing targets
// ---------------------------------------------------------------------------

/// The set of paths listed in `v`.
pub open spec fn existing_set(v: Seq<String>) -> Set<Seq<char>> {
    v.map_values(|s: String| s@).to_set()
}

/// The source paths of the plans.
pub open spec fn sources_of(ps: Seq<RenamePlan>) -> Seq<Seq<char>> {
    ps.map_values(|p: RenamePlan| p.original_path@)
}

/// The target of plan `i` exists and is not the source of a plan of the
/// batch (which would vacate it first).
pub open spec fn is_conflicting(ps: Seq<RenamePlan>, ex: Set<Seq<char>>, i: int) -> bool {
    !sources_of(ps).contains(plan_target(ps[i])) && ex.contains(plan_target(ps[i]))
}

/// The candidate path for the `n`-th numbered variant of plan `i`'s root name.
pub open spec fn pre_cand(ps: Seq<RenamePlan>, i: int, n: int) -> Seq<char> {
    cand_path(ps[i].parent@, crate::plan::naming::spec_strip_copy_suffix(ps[i].new_name@), n)
}

/// Least `n` in `[lo, 10000]` whose candidate path in `par` is neither in
/// `ex` nor in `bt`.
pub open spec fn first_free_from(ex: Set<Seq<char>>, bt: Set<Seq<char>>, par: Seq<char>, base: Seq<char>, lo: int) -> Option<
    nat,
>
    decreases 10001 - lo,
{
    if lo > 10000 || lo < 1 {
        None
    } else if !ex.contains(cand_path(par, base, lo)) && !bt.contains(cand_path(par, base, lo)) {
        Some(lo as nat)
    } else {
        first_free_from(ex, bt, par, base, lo + 1)
    }
}

/// Least `n` in `[lo, 10000]` whose candidate for plan `i` is neither on
/// disk nor in `bt`.
pub open spec fn least_free(ps: Seq<RenamePlan>, ex: Set<Seq<char>>, bt: Set<Seq<char>>, i: int, lo: int) -> Option<
    nat,
> {
    first_free_from(
        ex,
        bt,
        ps[i].parent@,
        crate::plan::naming::spec_strip_copy_suffix(ps[i].new_name@),
        lo,
    )
}

/// The batch targets when plan `i` is examined (under `Number`).
pub open spec fn pre_bt(ps: Seq<RenamePlan>, ex: Set<Seq<char>>, i: int) -> Set<Seq<char>>
    decreases i,
{
    if i <= 0 {
        targets_of(ps).to_set()
    } else {
        let bt = pre_bt(ps, ex, i - 1);
        let t = plan_target(ps[i - 1]);
        if is_conflicting(ps, ex, i - 1) {
            match least_free(ps, ex, bt.remove(t), i - 1, 1) {
                Some(n) => bt.remove(t).insert(pre_cand(ps, i - 1, n as int)),
                None => bt.remove(t),
            }
        } else {
            bt
        }
    }
}

/// The number chosen for plan `i` (under `Number`), if any.
pub open spec fn pre_choice(ps: Seq<RenamePlan>, ex: Set<Seq<char>>, i: int) -> Option<nat> {
    least_free(ps, ex, pre_bt(ps, ex, i).remove(plan_target(ps[i])), i, 1)
}

/// The new name of plan `i` after pre-existing resolution under `Number`.
pub open spec fn pre_name(ps: Seq<RenamePlan>, ex: Set<Seq<char>>, i: int) -> Seq<char> {
    if is_conflicting(ps, ex, i) {
        match pre_choice(ps, ex, i) {
            Some(n) => spec_numbered_name(
                crate::plan::naming::spec_strip_copy_suffix(ps[i].new_name@),
                n,
            ),
            None => ps[i].new_name@,
        }
    } else {
        ps[i].new_name@
    }
}

/// Plan `i` stops the pass under `policy`.
pub open spec fn fails_at(ps: Seq<RenamePlan>, ex: Set<Seq<char>>, policy: ConflictPolicy, i: int) -> bool {
    is_conflicting(ps, ex, i) && (policy != ConflictPolicy::Number || pre_choice(ps, ex, i) is None)
}

/// The least free number, searched up to 10 000.
fn first_free(ex_v: &Vec<Vec<char>>, bt: &Vec<Vec<char>>, par: &Vec<char>, base: &Vec<char>) -> (r:
    Option<u32>)
    ensures
        r matches Some(k) ==> 1 <= k <= 10000,
        match r {
            Some(k) => first_free_from(
                views(ex_v@).to_set(),
                views(bt@).to_set(),
                par@,
                base@,
                1,
            ) == Some(k as nat),
            None => first_free_from(views(ex_v@).to_set(), views(bt@).to_set(), par@, base@, 1)
                is None,
        },
{
    let ghost ex = views(ex_v@).to_set();
    let ghost b = views(bt@).to_set();
    let mut k: u32 = 1;
    while k <= 10000
        invariant
            1 <= k <= 10001,
            ex == views(ex_v@).to_set(),
            b == views(bt@).to_set(),
            first_free_from(ex, b, par@, base@, 1) == first_free_from(ex, b, par@, base@, k as int),
        decreases 10001 - k,
    {
        let cp = cand_path_exec(par, base, k);
        if !contains_view(ex_v, &cp) && !contains_view(bt, &cp) {
            proof {
                assert(views(ex_v@).contains(cp@) == ex.contains(cp@));
                assert(views(bt@).contains(cp@) == b.contains(cp@));
            }
            return Some(k);
        }
        proof {
            assert(views(ex_v@).contains(cp@) == ex.contains(cp@));
            assert(views(bt@).contains(cp@) == b.contains(cp@));
        }
        k += 1;
    }
    None
}

/// Set view of a vector with every element equal to `x` removed.
fn remove_all(v: &Vec<Vec<char>>, x: &Vec<char>) -> (r: Vec<Vec<char>>)
    ensures
        views(r@).to_set() == views(v@).to_set().remove(x@),
        r.len() <= v.len(),
{
    let mut r: Vec<Vec<char>> = Vec::new();
    let mut i: usize = 0;
    while i < v.len()
        invariant
            i <= v.len(),
            r.len() <= i,
            views(r@).to_set() == views(v@).take(i as int).to_set().remove(x@),
        decreases v.len() - i,
    {
        let ghost before = views(r@);
        assert(views(v@).take(i + 1) =~= views(v@).take(i as int) + seq![v@[i as int]@]);
        proof {
            Seq::lemma_to_set_insert_commutes(views(v@).take(i as int), v@[i as int]@);
        }
        if !chars_eq(&v[i], x) {
            r.push(v[i].clone());
            assert(views(r@) =~= before + seq![v@[i as int]@]);
            proof {
                Seq::lemma_to_set_insert_commutes(before, v@[i as int]@);
            }
        }
        i += 1;
    }
    assert(views(v@).take(i as int) =~= views(v@));
    r
}

/// Views of a vector of strings, as character vectors.
fn string_chars(v: &Vec<String>) -> (r: Vec<Vec<char>>)
    ensures
        views(r@) == v@.map_values(|s: String| s@),
{
    let mut r: Vec<Vec<char>> = Vec::new();
    let mut i: usize = 0;
    while i < v.len()
        invariant
            i <= v.len(),
            views(r@) == v@.map_values(|s: String| s@).take(i as int),
        decreases v.len() - i,
    {
        let c = chars_of(v[i].as_str());
        let ghost before = views(r@);
        r.push(c);
        assert(views(r@) =~= before.push(c@));
        i += 1;
        assert(views(r@) =~= v@.map_values(|s: String| s@).take(i as int));
    }
    assert(v@.map_values(|s: String| s@).take(i as int) =~= v@.map_values(|s: String| s@));
    r
}

/// Source paths of the plans, as character vectors.
fn source_chars(plans: &Vec<RenamePlan>) -> (r: Vec<Vec<char>>)
    ensures
        views(r@) == sources_of(plans@),
{
    let mut r: Vec<Vec<char>> = Vec::new();
    let mut i: usize = 0;
    while i < plans.len()
        invariant
            i <= plans.len(),
            views(r@) == sources_of(plans@).take(i as int),
        decreases plans.len() - i,
    {
        let c = chars_of(plans[i].original_path.as_str());
        let ghost before = views(r@);
        r.push(c);
        assert(views(r@) =~= before.push(c@));
        i += 1;
        assert(views(r@) =~= sources_of(plans@).take(i as int));
    }
    assert(sources_of(plans@).take(i as int) =~= sources_of(plans@));
    r
}

/// What [`resolve_preexisting`] does: `after` is `before` with at most the
/// new names changed; the plans are examined in order and the first one
/// that `policy` cannot resolve stops the pass with the answer `r`.
pub open spec fn preexisting_outcome(
    before: Seq<RenamePlan>,
    policy: ConflictPolicy,
    ex: Set<Seq<char>>,
    after: Seq<RenamePlan>,
    r: Result<(), FrenError>,
) -> bool {
    &&& after.len() == before.len()
    &&& forall|i: int| 0 <= i < before.len() ==> same_but_name(before[i], #[trigger] after[i])
    &&& (r is Ok) <==> forall|i: int| 0 <= i < before.len() ==> !fails_at(before, ex, policy, i)
    &&& r is Ok ==> forall|i: int|
        0 <= i < before.len() ==> (#[trigger] after[i]).new_name@ == pre_name(before, ex, i)
    &&& r is Err ==> exists|e: int|
        #![trigger fails_at(before, ex, policy, e)]
        0 <= e < before.len() && fails_at(before, ex, policy, e) && (forall|i: int|
            0 <= i < e ==> !fails_at(before, ex, policy, i)) && (forall|i: int|
            0 <= i < before.len() ==> (#[trigger] after[i]).new_name@ == if i < e {
                pre_name(before, ex, i)
            } else {
                before[i].new_name@
            }) && match r {
            Err(FrenError::TargetExists(t)) => policy == ConflictPolicy::Abort && t@ == plan_target(
                before[e],
            ),
            Err(FrenError::NotYetImplemented(m)) => (policy == ConflictPolicy::Number && m@
                == "conflict numbering exceeded 10000 attempts"@) || ((policy == ConflictPolicy::Skip
                || policy == ConflictPolicy::Merge) && m@ == "Skip/Merge conflict policy"@),
            _ => false,
        }
}

/// Resolve pre-existing-target conflicts according to `policy`. `existing`
/// lists the paths present on disk.
///
/// Plans whose target equals another plan's source are exempt (the chain
/// case: `a -> b`, `b -> c`); the bottom-up executor orders those safely.
///
/// Under `Abort`: returns `Err(FrenError::TargetExists)` for the first
/// plan whose target exists.
///
/// Under `Number`: for each plan whose target exists (and is not chain
/// exempt), strips any `-copy-{n}` suffix from its new name and tries
/// `n` from 1 until a `{root}-copy-{n}` variant is free both on disk and
/// among the batch's targets, then takes that name. The search stops at
/// 10 000 and answers `NotYetImplemented`; the plans updated before stay
/// updated.
///
/// Under `Skip` or `Merge`: a conflict answers `NotYetImplemented`.
pub fn resolve_preexisting(plans: &mut Vec<RenamePlan>, policy: ConflictPolicy, existing: &Vec<String>) -> (r:
    Result<(), FrenError>)
    ensures
        preexisting_outcome(old(plans)@, policy, existing_set(existing@), final(plans)@, r),

{
    let ghost orig = plans@;
    let ghost ex = existing_set(existing@);
    let ex_v = string_chars(existing);
    let sources = source_chars(plans);
    let mut bt = target_chars(plans);
    let n = plans.len();
    assert(sources@.len() == views(sources@).len());
    let mut i: usize = 0;
    while i < n
        invariant
            i <= n == orig.len() == plans.len(),
            orig == old(plans)@,
            ex == existing_set(existing@),
            views(ex_v@).to_set() == ex,
            views(ex_v@) == existing@.map_values(|s: String| s@),
            views(sources@) == sources_of(orig),
            policy == ConflictPolicy::Number ==> views(bt@).to_set() == pre_bt(orig, ex, i as int),
            forall|x: int| 0 <= x < i ==> !fails_at(orig, ex, policy, x),
            forall|x: int| 0 <= x < n ==> same_but_name(orig[x], #[trigger] plans@[x]),
            forall|x: int|
                0 <= x < n ==> (#[trigger] plans@[x]).new_name@ == if x < i {
                    pre_name(orig, ex, x)
                } else {
                    orig[x].new_name@
                },
        decreases n - i,
    {
        let par = chars_of(plans[i].parent.as_str());
        let name = chars_of(plans[i].new_name.as_str());
        let target = join_exec(&par, &name);
        assert(target@ == plan_target(orig[i as int]));
        let chain = contains_view(&sources, &target);
        let on_disk = contains_view(&ex_v, &target);
        assert(is_conflicting(orig, ex, i as int) == (!chain && on_disk));
        if !chain && on_disk {
            match policy {
                ConflictPolicy::Abort => {
                    assert(fails_at(orig, ex, policy, i as int));
                    return Err(FrenError::TargetExists(string_from_chars(&target)));
                },
                ConflictPolicy::Number => {
                    let ghost bt0 = pre_bt(orig, ex, i as int);
                    bt = remove_all(&bt, &target);
                    let base = crate::plan::naming::strip_copy_suffix(&name);
                    assert(views(bt@).to_set() == pre_bt(orig, ex, i as int).remove(target@));
                    assert(pre_choice(orig, ex, i as int) == first_free_from(
                        ex,
                        pre_bt(orig, ex, i as int).remove(target@),
                        par@,
                        base@,
                        1,
                    ));
                    match first_free(&ex_v, &bt, &par, &base) {
                        Some(k) => {
                            let cp = cand_path_exec(&par, &base, k);
                            let new_name = numbered_chars(&base, k);
                            let ghost before = views(bt@);
                            bt.push(cp);
                            proof {
                                assert(views(bt@) =~= before + seq![cp@]);
                                Seq::lemma_to_set_insert_commutes(before, cp@);
                            }
                            plans[i].new_name = string_from_chars(&new_name);
                        },
                        None => {
                            assert(pre_choice(orig, ex, i as int) is None);
                            assert(fails_at(orig, ex, policy, i as int));
                            return Err(
                                FrenError::NotYetImplemented(
                                    String::from_str("conflict numbering exceeded 10000 attempts"),
                                ),
                            );
                        },
                    }
                },
                _ => {
                    assert(fails_at(orig, ex, policy, i as int));
                    return Err(
                        FrenError::NotYetImplemented(String::from_str("Skip/Merge conflict policy")),
                    );
                },
            }
        }
        i += 1;
    }
    Ok(())
}

/// Verify that no two plans target the same final path.
///
/// Plans are examined in order; the first plan whose target was already
/// taken by an earlier plan is reported, with that earlier plan as `a`.
pub fn check_within_batch(plans: &Vec<RenamePlan>) -> (r: Result<(), FrenError>)
    ensures
        (r is Ok) <==> !has_collision(targets_of(plans@)),
        r is Err ==> exists|i: int, j: int|
            #![trigger targets_of(plans@)[i], targets_of(plans@)[j]]
            0 <= i < j < plans.len() && targets_of(plans@)[i] == targets_of(plans@)[j] && (forall|
                x: int,
            | 0 <= x < j ==> is_head(targets_of(plans@), x)) && match r {
                Err(FrenError::WithinBatchCollision { a, b, target }) => a == plans@[i].original_path
                    && b == plans@[j].original_path && target@ == targets_of(plans@)[j],
                _ => false,
            },
{
    let ts = target_chars(plans);
    let ghost vts = targets_of(plans@);
    assert(ts@.len() == views(ts@).len());
    let mut j: usize = 0;
    while j < ts.len()
        invariant
            j <= ts.len() == plans.len(),
            views(ts@) == vts,
            vts == targets_of(plans@),
            forall|x: int| 0 <= x < j ==> is_head(vts, x),
        decreases ts.len() - j,
    {
        let mut i: usize = 0;
        while i < j
            invariant
                i <= j < ts.len() == plans.len(),
                views(ts@) == vts,
                vts == targets_of(plans@),
                forall|x: int| 0 <= x < j ==> is_head(vts, x),
                forall|x: int| 0 <= x < i ==> vts[x] != vts[j as int],
            decreases j - i,
        {
            assert(vts[i as int] == ts@[i as int]@ && vts[j as int] == ts@[j as int]@);
            if chars_eq(&ts[i], &ts[j]) {
                let a = plans[i].original_path.clone();
                let b = plans[j].original_path.clone();
                let target = string_from_chars(&ts[j]);
                return Err(FrenError::WithinBatchCollision { a, b, target });
            }
            i += 1;
        }
        j += 1;
    }
    proof {
        if has_collision(vts) {
            let (i, j) = choose|i: int, j: int| 0 <= i < j < vts.len() && vts[i] == vts[j];
            assert(!is_head(vts, j));
        }
    }
    Ok(())
}

/// Verify that no plan's target already exists on disk outside the batch.
/// `existing` lists the paths present on disk.
///
/// Plans whose target equals another plan's source are exempt: that is the
/// chain case (`a -> b`, `b -> c`) which the bottom-up executor handles.
pub fn check_preexisting(plans: &Vec<RenamePlan>, existing: &Vec<String>) -> (r: Result<(), FrenError>)
    ensures
        (r is Ok) <==> forall|i: int|
            0 <= i < plans.len() ==> !is_conflicting(plans@, existing_set(existing@), i),
        r is Err ==> exists|e: int|
            #![trigger is_conflicting(plans@, existing_set(existing@), e)]
            0 <= e < plans.len() && is_conflicting(plans@, existing_set(existing@), e) && (forall|
                i: int,
            | 0 <= i < e ==> !is_conflicting(plans@, existing_set(existing@), i)) && match r {
                Err(FrenError::TargetExists(t)) => t@ == plan_target(plans@[e]),
                _ => false,
            },
{
    let ghost ex = existing_set(existing@);
    let ex_v = string_chars(existing);
    let sources = source_chars(plans);
    let mut i: usize = 0;
    while i < plans.len()
        invariant
            i <= plans.len(),
            ex == existing_set(existing@),
            views(ex_v@) == existing@.map_values(|s: String| s@),
            views(sources@) == sources_of(plans@),
            forall|x: int| 0 <= x < i ==> !is_conflicting(plans@, ex, x),
        decreases plans.len() - i,
    {
        let par = chars_of(plans[i].parent.as_str());
        let name = chars_of(plans[i].new_name.as_str());
        let target = join_exec(&par, &name);
        let chain = contains_view(&sources, &target);
        let on_disk = contains_view(&ex_v, &target);
        if !chain && on_disk {
            assert(is_conflicting(plans@, ex, i as int));
            return Err(FrenError::TargetExists(string_from_chars(&target)));
        }
        i += 1;
    }
    Ok(())
}

} // verus!
