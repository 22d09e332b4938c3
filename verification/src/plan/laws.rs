//! What conflict resolution guarantees about a whole batch.
use vstd::prelude::*;
use crate::opts::ConflictPolicy;
use crate::plan::conflict::{
    assigned_between, batch_claimed, batch_new_name, count_free, group_assigned, group_base,
    group_leader, group_parent,
    head_of, is_head, is_nth_free, is_renamed_member, key_before, keys_of, lemma_assigned_step,
    lemma_count_free_bound, lemma_heads,
    lemma_seq_lt_irreflexive, member_path, nth_free, plan_target, rank, rank_upto, same_but_name,
    seq_lt, targets_of, within_batch_outcome,
};
use crate::plan::naming::{
    cand_path, copy_marker, lemma_cand_injective, lemma_decimal_value, spec_numbered_name,
};
use crate::plan::paths::{
    join_path, last_index_of, lemma_last_index_of, name_ext, name_stem, path_file_name, with_ext,
};
use crate::plan_types::RenamePlan;
use crate::text::decimal;

verus! {

/// `x` holds no `/`: it is a single path component.
pub open spec fn no_slash(x: Seq<char>) -> bool {
    forall|q: int| 0 <= q < x.len() ==> x[q] != '/'
}

/// What joining puts before a relative name.
pub open spec fn dir_prefix(p: Seq<char>) -> Seq<char> {
    if p.len() == 0 {
        Seq::empty()
    } else if p.last() == '/' {
        p
    } else {
        p + seq!['/']
    }
}

/// Every new name of the batch is a single path component.
pub open spec fn names_are_components(ps: Seq<RenamePlan>) -> bool {
    forall|i: int| 0 <= i < ps.len() ==> no_slash(#[trigger] ps[i].new_name@)
}

pub proof fn lemma_join_prefix(p: Seq<char>, x: Seq<char>)
    requires
        no_slash(x),
    ensures
        join_path(p, x) == dir_prefix(p) + x,
{
    if x.len() > 0 {
        assert(x[0] != '/');
    }
}

/// Two joins of single components are equal only with equal components
/// and equal directory prefixes.
pub proof fn lemma_join_split(p1: Seq<char>, x1: Seq<char>, p2: Seq<char>, x2: Seq<char>)
    requires
        no_slash(x1),
        no_slash(x2),
        join_path(p1, x1) == join_path(p2, x2),
    ensures
        x1 == x2,
        dir_prefix(p1) == dir_prefix(p2),
{
    lemma_join_prefix(p1, x1);
    lemma_join_prefix(p2, x2);
    let d1 = dir_prefix(p1);
    let d2 = dir_prefix(p2);
    let j = d1 + x1;
    assert(j == d2 + x2);
    if x1.len() < x2.len() {
        assert(d1.len() > 0);
        assert(d1.last() == '/');
        let q = x2.len() - x1.len() - 1;
        assert(x2[q] == j[d2.len() + q]);
        assert(j[d1.len() - 1] == d1.last());
    } else if x2.len() < x1.len() {
        assert(d2.len() > 0);
        assert(d2.last() == '/');
        let q = x1.len() - x2.len() - 1;
        assert(x1[q] == j[d1.len() + q]);
        assert(j[d2.len() - 1] == d2.last());
    }
    assert(x1 =~= j.skip(d1.len() as int));
    assert(x2 =~= j.skip(d2.len() as int));
    assert(d1 =~= j.take(d1.len() as int));
    assert(d2 =~= j.take(d2.len() as int));
}

pub proof fn lemma_numbered_no_slash(base: Seq<char>, n: nat)
    requires
        no_slash(base),
    ensures
        no_slash(spec_numbered_name(base, n)),
{
    lemma_last_index_of(base, '.');
    lemma_decimal_value(n);
    let stem = name_stem(base);
    let ext = name_ext(base);
    assert(no_slash(stem)) by {
        assert forall|q: int| 0 <= q < stem.len() implies stem[q] != '/' by {
            assert(stem[q] == base[q]);
        }
    }
    assert(no_slash(ext)) by {
        assert forall|q: int| 0 <= q < ext.len() implies ext[q] != '/' by {
            assert(ext[q] == base[last_index_of(base, '.') + 1 + q]);
        }
    }
    let body = stem + copy_marker() + decimal(n);
    assert(no_slash(body)) by {
        assert forall|q: int| 0 <= q < body.len() implies body[q] != '/' by {
            if q < stem.len() {
            } else if q < stem.len() + 6 {
                assert(body[q] == copy_marker()[q - stem.len()]);
            } else {
                assert(body[q] == decimal(n)[q - stem.len() - 6]);
                assert(crate::text::is_digit(decimal(n)[q - stem.len() - 6]));
            }
        }
    }
    let r = with_ext(body, ext);
    assert forall|q: int| 0 <= q < r.len() implies r[q] != '/' by {
        if ext.len() > 0 {
            if q < body.len() {
                assert(r[q] == body[q]);
            } else if q > body.len() {
                assert(r[q] == ext[q - body.len() - 1]);
            }
        }
    }
}

// ---------------------------------------------------------------------------
// The order inside a group
// ---------------------------------------------------------------------------

pub proof fn lemma_seq_lt_transitive(a: Seq<char>, b: Seq<char>, c: Seq<char>)
    requires
        seq_lt(a, b),
        seq_lt(b, c),
    ensures
        seq_lt(a, c),
    decreases a.len(),
{
    if a.len() > 0 && b.len() > 0 && c.len() > 0 && a[0] == b[0] && b[0] == c[0] {
        lemma_seq_lt_transitive(a.drop_first(), b.drop_first(), c.drop_first());
    }
}

pub proof fn lemma_seq_lt_total(a: Seq<char>, b: Seq<char>)
    requires
        a != b,
    ensures
        seq_lt(a, b) || seq_lt(b, a),
    decreases a.len(),
{
    if a.len() > 0 && b.len() > 0 && a[0] == b[0] {
        if a.drop_first() == b.drop_first() {
            assert(a =~= seq![a[0]] + a.drop_first());
            assert(b =~= seq![b[0]] + b.drop_first());
        }
        lemma_seq_lt_total(a.drop_first(), b.drop_first());
    } else if a.len() > 0 && b.len() > 0 {
    } else if a.len() == 0 && b.len() == 0 {
        assert(a =~= b);
    }
}

pub proof fn lemma_key_before_order(keys: Seq<Seq<char>>, x: int, y: int, z: int)
    ensures
        !key_before(keys, x, x),
        key_before(keys, x, y) && key_before(keys, y, z) ==> key_before(keys, x, z),
        x != y ==> key_before(keys, x, y) || key_before(keys, y, x),
{
    lemma_seq_lt_irreflexive(keys[x]);
    if key_before(keys, x, y) && key_before(keys, y, z) {
        if seq_lt(keys[x], keys[y]) && seq_lt(keys[y], keys[z]) {
            lemma_seq_lt_transitive(keys[x], keys[y], keys[z]);
        }
    }
    if x != y && keys[x] != keys[y] {
        lemma_seq_lt_total(keys[x], keys[y]);
    }
}

/// A plan that sorts before another in its group has a smaller rank.
pub proof fn lemma_rank_lt(ts: Seq<Seq<char>>, keys: Seq<Seq<char>>, j: int, i: int, n: int)
    requires
        0 <= j < ts.len(),
        0 <= i < ts.len(),
        ts[j] == ts[i],
        key_before(keys, j, i),
        n <= ts.len(),
    ensures
        rank_upto(ts, keys, j, n) + (if 0 <= j < n {
            1int
        } else {
            0int
        }) <= rank_upto(ts, keys, i, n),
    decreases n,
{
    if n > 0 {
        lemma_rank_lt(ts, keys, j, i, n - 1);
        let x = n - 1;
        lemma_key_before_order(keys, x, j, i);
        lemma_key_before_order(keys, j, j, j);
    }
}

/// Distinct members of a group have distinct ranks.
pub proof fn lemma_rank_distinct(ts: Seq<Seq<char>>, keys: Seq<Seq<char>>, i: int, j: int)
    requires
        0 <= i < ts.len(),
        0 <= j < ts.len(),
        i != j,
        ts[i] == ts[j],
    ensures
        rank(ts, keys, i) != rank(ts, keys, j),
{
    lemma_key_before_order(keys, i, j, i);
    if key_before(keys, i, j) {
        lemma_rank_lt(ts, keys, i, j, ts.len() as int);
    } else {
        lemma_rank_lt(ts, keys, j, i, ts.len() as int);
    }
}

/// A positive rank counts some member that sorts before.
proof fn lemma_rank_witness(ts: Seq<Seq<char>>, keys: Seq<Seq<char>>, i: int, n: int)
    requires
        n <= ts.len(),
        rank_upto(ts, keys, i, n) > 0,
    ensures
        exists|j: int| 0 <= j < n && ts[j] == ts[i] && key_before(keys, j, i),
    decreases n,
{
    if n > 0 {
        if !(ts[n - 1] == ts[i] && key_before(keys, n - 1, i)) {
            lemma_rank_witness(ts, keys, i, n - 1);
        }
    }
}

/// Every group has a member that sorts first.
pub proof fn lemma_rank_zero_exists(ts: Seq<Seq<char>>, keys: Seq<Seq<char>>, x: int)
    requires
        0 <= x < ts.len(),
    ensures
        exists|j: int| 0 <= j < ts.len() && ts[j] == ts[x] && rank(ts, keys, j) == 0,
    decreases rank(ts, keys, x),
{
    if rank(ts, keys, x) > 0 {
        lemma_rank_witness(ts, keys, x, ts.len() as int);
        let j = choose|j: int| 0 <= j < ts.len() && ts[j] == ts[x] && key_before(keys, j, x);
        lemma_rank_lt(ts, keys, j, x, ts.len() as int);
        lemma_rank_zero_exists(ts, keys, j);
    } else {
        assert(0 <= x < ts.len() && ts[x] == ts[x] && rank(ts, keys, x) == 0);
    }
}

/// The leader of a group is in the group, sorts first, and is the only
/// member that does.
pub proof fn lemma_leader(ps: Seq<RenamePlan>, h: int)
    requires
        0 <= h < ps.len(),
    ensures
        0 <= group_leader(ps, h) < ps.len(),
        targets_of(ps)[group_leader(ps, h)] == targets_of(ps)[h],
        rank(targets_of(ps), keys_of(ps), group_leader(ps, h)) == 0,
        forall|j: int|
            0 <= j < ps.len() && targets_of(ps)[j] == targets_of(ps)[h] && rank(
                targets_of(ps),
                keys_of(ps),
                j,
            ) == 0 ==> j == group_leader(ps, h),
{
    let ts = targets_of(ps);
    let keys = keys_of(ps);
    lemma_rank_zero_exists(ts, keys, h);
    let l = group_leader(ps, h);
    assert forall|j: int|
        0 <= j < ps.len() && ts[j] == ts[h] && rank(ts, keys, j) == 0 implies j == l by {
        if j != l {
            lemma_rank_distinct(ts, keys, j, l);
        }
    }
}

// ---------------------------------------------------------------------------
// Claimed paths
// ---------------------------------------------------------------------------

pub proof fn lemma_assigned_finite(ps: Seq<RenamePlan>, h: int, c: Set<Seq<char>>, lo: int, hi: int)
    requires
        lo <= hi,
    ensures
        assigned_between(ps, h, c, lo, hi).finite(),
    decreases hi - lo,
{
    if hi == lo {
        assert(assigned_between(ps, h, c, lo, hi) =~= Set::empty());
    } else {
        lemma_assigned_finite(ps, h, c, lo, hi - 1);
        lemma_assigned_step(ps, h, c, lo, hi - 1);
    }
}

pub proof fn lemma_claimed_finite(ps: Seq<RenamePlan>, h: int)
    ensures
        batch_claimed(ps, h).finite(),
    decreases h,
{
    if h > 0 {
        lemma_claimed_finite(ps, h - 1);
        let c = batch_claimed(ps, h - 1);
        if is_head(targets_of(ps), h - 1) && h - 1 <= ps.len() {
            lemma_assigned_finite(ps, h - 1, c, h - 1, ps.len() as int);
        } else if is_head(targets_of(ps), h - 1) {
            assert(assigned_between(ps, h - 1, c, h - 1, ps.len() as int) =~= Set::empty());
        }
    } else {
        vstd::seq_lib::seq_to_set_is_finite(targets_of(ps));
    }
}

pub proof fn lemma_claimed_grows(ps: Seq<RenamePlan>, a: int, b: int)
    requires
        a <= b,
    ensures
        batch_claimed(ps, a).subset_of(batch_claimed(ps, b)),
    decreases b - a,
{
    if a < b {
        lemma_claimed_grows(ps, a, b - 1);
        if b > 0 {
            assert(batch_claimed(ps, b - 1).subset_of(batch_claimed(ps, b)));
        } else {
            assert(batch_claimed(ps, b - 1) == batch_claimed(ps, b));
        }
    }
}

/// Some number is the `t`-th free one, when enough are free below `hi`.
pub proof fn lemma_nth_free_exists(c: Set<Seq<char>>, par: Seq<char>, base: Seq<char>, t: nat, hi: int)
    requires
        count_free(c, par, base, hi) > t,
    ensures
        exists|k: int| is_nth_free(c, par, base, t, k),
    decreases hi,
{
    if hi > 1 {
        if count_free(c, par, base, hi - 1) > t {
            lemma_nth_free_exists(c, par, base, t, hi - 1);
        } else {
            assert(is_nth_free(c, par, base, t, hi - 1));
        }
    }
}

/// The `t`-th free candidate exists and is free.
pub proof fn lemma_nth_free_ok(c: Set<Seq<char>>, par: Seq<char>, base: Seq<char>, t: nat)
    requires
        c.finite(),
    ensures
        is_nth_free(c, par, base, t, nth_free(c, par, base, t)),
{
    let hi: int = (c.len() + t + 2) as int;
    lemma_count_free_bound(c, par, base, hi);
    lemma_nth_free_exists(c, par, base, t, hi);
}

/// Distinct positions give distinct free numbers.
pub proof fn lemma_nth_free_distinct(c: Set<Seq<char>>, par: Seq<char>, base: Seq<char>, s: nat, t: nat)
    requires
        c.finite(),
        s != t,
    ensures
        nth_free(c, par, base, s) != nth_free(c, par, base, t),
{
    lemma_nth_free_ok(c, par, base, s);
    lemma_nth_free_ok(c, par, base, t);
}

// ---------------------------------------------------------------------------
// The law
// ---------------------------------------------------------------------------

/// The final target of a renamed member is its group's candidate path.
proof fn lemma_renamed_target(ps: Seq<RenamePlan>, after: Seq<RenamePlan>, i: int)
    requires
        within_batch_outcome(ps, ConflictPolicy::Number, after, Ok(())),
        names_are_components(ps),
        0 <= i < ps.len(),
        rank(targets_of(ps), keys_of(ps), i) >= 1,
    ensures
        ({
            let h = head_of(targets_of(ps), i);
            plan_target(after[i]) == member_path(ps, h, batch_claimed(ps, h), i)
                && plan_target(after[i]) == cand_path(
                group_parent(ps, h),
                group_base(ps, h),
                nth_free(
                    batch_claimed(ps, h),
                    group_parent(ps, h),
                    group_base(ps, h),
                    (rank(targets_of(ps), keys_of(ps), i) - 1) as nat,
                ),
            )
        }),
{
    let ts = targets_of(ps);
    lemma_heads(ts);
    let h = head_of(ts, i);
    lemma_leader(ps, h);
    let l = group_leader(ps, h);
    let base = group_base(ps, h);
    let k = nth_free(
        batch_claimed(ps, h),
        group_parent(ps, h),
        base,
        (rank(ts, keys_of(ps), i) - 1) as nat,
    );
    let name = spec_numbered_name(base, k as nat);
    assert(same_but_name(ps[i], after[i]));
    assert(after[i].new_name@ == batch_new_name(ps, i));
    assert(after[i].new_name@ == name);
    assert(ts[l] == ts[i]);
    assert(ts[i] == plan_target(ps[i]));
    assert(ts[l] == plan_target(ps[l]));
    assert(no_slash(ps[i].new_name@));
    assert(no_slash(ps[l].new_name@));
    lemma_join_split(ps[i].parent@, ps[i].new_name@, ps[l].parent@, ps[l].new_name@);
    lemma_file_name_no_slash(ts[h]);
    lemma_numbered_no_slash(base, k as nat);
    lemma_join_prefix(ps[i].parent@, name);
    lemma_join_prefix(ps[l].parent@, name);
}

/// The last component of a path holds no `/`.
pub proof fn lemma_file_name_no_slash(p: Seq<char>)
    ensures
        no_slash(path_file_name(p)),
{
    let q = crate::text::trim_end(p, '/');
    let li = last_index_of(q, '/');
    lemma_last_index_of(q, '/');
    let n = q.skip(li + 1);
    assert forall|j: int| 0 <= j < n.len() implies n[j] != '/' by {
        assert(n[j] == q[li + 1 + j]);
    }
}

/// After within-batch resolution under `Number`, no two plans of the
/// batch share a target, when every new name is a single path component.
pub proof fn law_within_batch_targets_distinct(before: Seq<RenamePlan>, after: Seq<RenamePlan>, r: Result<
    (),
    crate::error::FrenError,
>)
    requires
        within_batch_outcome(before, ConflictPolicy::Number, after, r),
        names_are_components(before),
    ensures
        forall|i: int, j: int|
            0 <= i < j < after.len() ==> plan_target(#[trigger] after[i]) != plan_target(
                #[trigger] after[j],
            ),
{
    let ps = before;
    let ts = targets_of(ps);
    let keys = keys_of(ps);
    assert(r is Ok);
    assert(within_batch_outcome(before, ConflictPolicy::Number, after, Ok(())));
    lemma_heads(ts);
    assert forall|i: int, j: int| 0 <= i < j < after.len() implies plan_target(#[trigger] after[i])
        != plan_target(#[trigger] after[j]) by {
        let ri = rank(ts, keys, i);
        let rj = rank(ts, keys, j);
        let hi = head_of(ts, i);
        let hj = head_of(ts, j);
        assert(same_but_name(ps[i], after[i]));
        assert(same_but_name(ps[j], after[j]));
        lemma_claimed_finite(ps, hi);
        lemma_claimed_finite(ps, hj);
        if ri == 0 && rj == 0 {
            assert(after[i].new_name@ == ps[i].new_name@);
            assert(after[j].new_name@ == ps[j].new_name@);
            assert(plan_target(after[i]) == ts[i]);
            assert(plan_target(after[j]) == ts[j]);
            if ts[i] == ts[j] {
                lemma_rank_distinct(ts, keys, i, j);
            }
        } else if ri >= 1 && rj == 0 {
            lemma_renamed_target(ps, after, i);
            lemma_nth_free_ok(batch_claimed(ps, hi), group_parent(ps, hi), group_base(ps, hi), (ri - 1) as nat);
            assert(plan_target(after[j]) == ts[j]);
            assert(batch_claimed(ps, 0).contains(ts[j]));
            lemma_claimed_grows(ps, 0, hi);
        } else if ri == 0 && rj >= 1 {
            lemma_renamed_target(ps, after, j);
            lemma_nth_free_ok(batch_claimed(ps, hj), group_parent(ps, hj), group_base(ps, hj), (rj - 1) as nat);
            assert(plan_target(after[i]) == ts[i]);
            assert(batch_claimed(ps, 0).contains(ts[i]));
            lemma_claimed_grows(ps, 0, hj);
        } else {
            lemma_renamed_target(ps, after, i);
            lemma_renamed_target(ps, after, j);
            lemma_nth_free_ok(batch_claimed(ps, hi), group_parent(ps, hi), group_base(ps, hi), (ri - 1) as nat);
            lemma_nth_free_ok(batch_claimed(ps, hj), group_parent(ps, hj), group_base(ps, hj), (rj - 1) as nat);
            if hi == hj {
                lemma_rank_distinct(ts, keys, i, j);
                lemma_nth_free_distinct(batch_claimed(ps, hi), group_parent(ps, hi), group_base(ps, hi), (ri - 1) as nat, (rj - 1) as nat);
                let ki = nth_free(batch_claimed(ps, hi), group_parent(ps, hi), group_base(ps, hi), (ri - 1) as nat);
                let kj = nth_free(batch_claimed(ps, hi), group_parent(ps, hi), group_base(ps, hi), (rj - 1) as nat);
                if plan_target(after[i]) == plan_target(after[j]) {
                    lemma_cand_injective(group_parent(ps, hi), group_base(ps, hi), ki, kj);
                }
            } else if hi < hj {
                let c = batch_claimed(ps, hi);
                assert(is_renamed_member(ps, hi, i));
                assert(assigned_between(ps, hi, c, hi, ps.len() as int).contains(member_path(ps, hi, c, i)));
                assert(group_assigned(ps, hi, c).contains(member_path(ps, hi, c, i)));
                assert(batch_claimed(ps, hi + 1).contains(member_path(ps, hi, c, i)));
                lemma_claimed_grows(ps, hi + 1, hj);
            } else {
                let c = batch_claimed(ps, hj);
                assert(is_renamed_member(ps, hj, j));
                assert(assigned_between(ps, hj, c, hj, ps.len() as int).contains(member_path(ps, hj, c, j)));
                assert(group_assigned(ps, hj, c).contains(member_path(ps, hj, c, j)));
                assert(batch_claimed(ps, hj + 1).contains(member_path(ps, hj, c, j)));
                lemma_claimed_grows(ps, hj + 1, hi);
            }
        }
    }
}

use crate::plan::conflict::{
    existing_set, fails_at, first_free_from, is_conflicting, pre_bt, pre_cand, pre_choice, pre_name,
    preexisting_outcome, sources_of,
};

pub proof fn lemma_first_free_is_free(
    ex: Set<Seq<char>>,
    bt: Set<Seq<char>>,
    par: Seq<char>,
    base: Seq<char>,
    lo: int,
)
    ensures
        first_free_from(ex, bt, par, base, lo) matches Some(n) ==> 1 <= n <= 10000 && !ex.contains(
            cand_path(par, base, n as int),
        ) && !bt.contains(cand_path(par, base, n as int)),
    decreases 10001 - lo,
{
    if 1 <= lo <= 10000 && (ex.contains(cand_path(par, base, lo)) || bt.contains(
        cand_path(par, base, lo),
    )) {
        lemma_first_free_is_free(ex, bt, par, base, lo + 1);
    }
}

/// After pre-existing resolution succeeds under `Number`, no plan targets a
/// path that exists, unless another plan of the batch moves that path away
/// first (its source).
pub proof fn law_preexisting_no_overwrite(
    before: Seq<RenamePlan>,
    ex: Set<Seq<char>>,
    after: Seq<RenamePlan>,
)
    requires
        preexisting_outcome(before, ConflictPolicy::Number, ex, after, Ok(())),
    ensures
        forall|i: int|
            0 <= i < after.len() ==> !ex.contains(plan_target(#[trigger] after[i])) || sources_of(
                before,
            ).contains(plan_target(after[i])),
{
    assert forall|i: int| 0 <= i < after.len() implies !ex.contains(plan_target(#[trigger] after[i]))
        || sources_of(before).contains(plan_target(after[i])) by {
        assert(same_but_name(before[i], after[i]));
        assert(!fails_at(before, ex, ConflictPolicy::Number, i));
        if is_conflicting(before, ex, i) {
            let bt = pre_bt(before, ex, i).remove(plan_target(before[i]));
            lemma_first_free_is_free(
                ex,
                bt,
                before[i].parent@,
                crate::plan::naming::spec_strip_copy_suffix(before[i].new_name@),
                1,
            );
        }
    }
}

/// The target plan `x` has once the plans before `i` are resolved.
pub open spec fn current_target(ps: Seq<RenamePlan>, ex: Set<Seq<char>>, i: int, x: int) -> Seq<char> {
    join_path(
        ps[x].parent@,
        if x < i {
            pre_name(ps, ex, x)
        } else {
            ps[x].new_name@
        },
    )
}

pub open spec fn targets_distinct(ts: Seq<Seq<char>>) -> bool {
    forall|a: int, b: int| 0 <= a < ts.len() && 0 <= b < ts.len() && a != b ==> ts[a] != ts[b]
}

/// While resolution proceeds, the batch targets are exactly the current
/// targets of the plans, and those stay distinct.
proof fn lemma_pre_bt_current(ps: Seq<RenamePlan>, ex: Set<Seq<char>>, i: int)
    requires
        0 <= i <= ps.len(),
        targets_distinct(targets_of(ps)),
        forall|x: int| 0 <= x < i ==> !fails_at(ps, ex, ConflictPolicy::Number, x),
    ensures
        forall|y: Seq<char>|
            pre_bt(ps, ex, i).contains(y) <==> exists|x: int|
                0 <= x < ps.len() && y == current_target(ps, ex, i, x),
        forall|a: int, b: int|
            0 <= a < ps.len() && 0 <= b < ps.len() && a != b ==> current_target(ps, ex, i, a)
                != current_target(ps, ex, i, b),
    decreases i,
{
    let ts = targets_of(ps);
    if i == 0 {
        assert forall|y: Seq<char>| pre_bt(ps, ex, 0).contains(y) <==> exists|x: int|
            0 <= x < ps.len() && y == current_target(ps, ex, 0, x) by {
            if pre_bt(ps, ex, 0).contains(y) {
                let x = choose|x: int| 0 <= x < ts.len() && ts[x] == y;
                assert(y == current_target(ps, ex, 0, x));
            }
            if exists|x: int| 0 <= x < ps.len() && y == current_target(ps, ex, 0, x) {
                let x = choose|x: int| 0 <= x < ps.len() && y == current_target(ps, ex, 0, x);
                assert(ts[x] == y);
            }
        }
        assert forall|a: int, b: int| 0 <= a < ps.len() && 0 <= b < ps.len() && a != b implies current_target(
            ps,
            ex,
            0,
            a,
        ) != current_target(ps, ex, 0, b) by {
            assert(ts[a] == current_target(ps, ex, 0, a));
            assert(ts[b] == current_target(ps, ex, 0, b));
        }
    } else {
        let j = i - 1;
        lemma_pre_bt_current(ps, ex, j);
        let bt = pre_bt(ps, ex, j);
        let t = plan_target(ps[j]);
        assert(t == current_target(ps, ex, j, j));
        assert(!fails_at(ps, ex, ConflictPolicy::Number, j));
        assert forall|x: int| 0 <= x < ps.len() && x != j implies current_target(ps, ex, i, x)
            == current_target(ps, ex, j, x) by {}
        if is_conflicting(ps, ex, j) {
            let n = pre_choice(ps, ex, j)->0;
            let nb = bt.remove(t);
            lemma_first_free_is_free(
                ex,
                nb,
                ps[j].parent@,
                crate::plan::naming::spec_strip_copy_suffix(ps[j].new_name@),
                1,
            );
            let c = pre_cand(ps, j, n as int);
            assert(current_target(ps, ex, i, j) == c);
            assert(pre_bt(ps, ex, i) == nb.insert(c));
            assert forall|y: Seq<char>| pre_bt(ps, ex, i).contains(y) <==> exists|x: int|
                0 <= x < ps.len() && y == current_target(ps, ex, i, x) by {
                if pre_bt(ps, ex, i).contains(y) {
                    if y == c {
                        assert(y == current_target(ps, ex, i, j));
                    } else {
                        let x = choose|x: int| 0 <= x < ps.len() && y == current_target(ps, ex, j, x);
                        assert(x != j);
                        assert(y == current_target(ps, ex, i, x));
                    }
                }
                if exists|x: int| 0 <= x < ps.len() && y == current_target(ps, ex, i, x) {
                    let x = choose|x: int| 0 <= x < ps.len() && y == current_target(ps, ex, i, x);
                    if x != j {
                        assert(bt.contains(y));
                        assert(y != t);
                    }
                }
            }
            assert forall|a: int, b: int| 0 <= a < ps.len() && 0 <= b < ps.len() && a != b implies current_target(
                ps,
                ex,
                i,
                a,
            ) != current_target(ps, ex, i, b) by {
                if a == j {
                    assert(bt.contains(current_target(ps, ex, j, b)));
                    assert(current_target(ps, ex, j, b) != t);
                } else if b == j {
                    assert(bt.contains(current_target(ps, ex, j, a)));
                    assert(current_target(ps, ex, j, a) != t);
                }
            }
        } else {
            assert(pre_bt(ps, ex, i) == bt);
            assert(current_target(ps, ex, i, j) == current_target(ps, ex, j, j));
            assert forall|y: Seq<char>| pre_bt(ps, ex, i).contains(y) <==> exists|x: int|
                0 <= x < ps.len() && y == current_target(ps, ex, i, x) by {
                if pre_bt(ps, ex, i).contains(y) {
                    let x = choose|x: int| 0 <= x < ps.len() && y == current_target(ps, ex, j, x);
                    assert(y == current_target(ps, ex, i, x));
                }
                if exists|x: int| 0 <= x < ps.len() && y == current_target(ps, ex, i, x) {
                    let x = choose|x: int| 0 <= x < ps.len() && y == current_target(ps, ex, i, x);
                    assert(y == current_target(ps, ex, j, x));
                }
            }
            assert forall|a: int, b: int| 0 <= a < ps.len() && 0 <= b < ps.len() && a != b implies current_target(
                ps,
                ex,
                i,
                a,
            ) != current_target(ps, ex, i, b) by {
                assert(current_target(ps, ex, i, a) == current_target(ps, ex, j, a));
                assert(current_target(ps, ex, i, b) == current_target(ps, ex, j, b));
            }
        }
    }
}

/// Pre-existing resolution under `Number` keeps the targets of a batch
/// distinct: when no two plans share a target before, none do after.
pub proof fn law_preexisting_keeps_targets_distinct(
    before: Seq<RenamePlan>,
    ex: Set<Seq<char>>,
    after: Seq<RenamePlan>,
)
    requires
        preexisting_outcome(before, ConflictPolicy::Number, ex, after, Ok(())),
        targets_distinct(targets_of(before)),
    ensures
        targets_distinct(targets_of(after)),
{
    let n = before.len() as int;
    lemma_pre_bt_current(before, ex, n);
    assert forall|a: int, b: int| 0 <= a < after.len() && 0 <= b < after.len() && a != b implies targets_of(
        after,
    )[a] != targets_of(after)[b] by {
        assert(same_but_name(before[a], after[a]));
        assert(same_but_name(before[b], after[b]));
        assert(targets_of(after)[a] == current_target(before, ex, n, a));
        assert(targets_of(after)[b] == current_target(before, ex, n, b));
    }
}

use crate::plan::batch::{collect_all, plans_match, planned, stably_sorted_from, PlanEntry};
use crate::plan::names::DiscoveredItem;
use crate::plan::sort::{order_key, with_key};
use crate::slug::SlugOpts;
use crate::opts::PlanOpts;
use crate::error::FrenError;

/// Every new name among the entries is a single path component.
pub open spec fn entry_names_are_components(es: Seq<PlanEntry>) -> bool {
    forall|i: int| 0 <= i < es.len() ==> no_slash(#[trigger] es[i].3)
}

proof fn lemma_sorted_keeps_components(c: Seq<RenamePlan>, s: Seq<RenamePlan>)
    requires
        stably_sorted_from(c, s),
        names_are_components(c),
    ensures
        names_are_components(s),
{
    assert forall|i: int| 0 <= i < s.len() implies no_slash(#[trigger] s[i].new_name@) by {
        let k = order_key(s[i]);
        let f = |p: RenamePlan| order_key(p) == k;
        s.lemma_filter_contains(f, i);
        assert(with_key(s, k) == with_key(c, k));
        c.lemma_filter_contains_rev(f, s[i]);
        let q = choose|q: int| 0 <= q < c.len() && c[q] == s[i];
        assert(no_slash(c[q].new_name@));
    }
}

/// A batch planned under `Number` is safe to execute: no two plans share a
/// target, and no plan targets a path that exists unless a plan of the
/// batch moves that path away first. (Every new name is taken to be a
/// single path component.)
pub proof fn law_planned_batch_is_safe(
    roots: Seq<String>,
    walked: Seq<Vec<DiscoveredItem>>,
    opts: SlugOpts,
    plan_opts: PlanOpts,
    cy: int,
    reorder: bool,
    existing: Seq<String>,
    v: Vec<RenamePlan>,
)
    requires
        plan_opts.on_conflict == ConflictPolicy::Number,
        planned(
            roots,
            walked,
            opts,
            plan_opts,
            cy,
            reorder,
            existing,
            Ok::<Vec<RenamePlan>, FrenError>(v),
        ),
        entry_names_are_components(collect_all(roots, walked, opts, cy, reorder, roots.len() as int)),
    ensures
        targets_distinct(targets_of(v@)),
        forall|i: int|
            0 <= i < v.len() ==> !existing_set(existing).contains(plan_target(#[trigger] v@[i]))
                || sources_of(v@).contains(plan_target(v@[i])),
{
    let es = collect_all(roots, walked, opts, cy, reorder, roots.len() as int);
    let r = Ok::<Vec<RenamePlan>, FrenError>(v);
    let (c, s, w, r1) = choose|c: Seq<RenamePlan>, s: Seq<RenamePlan>, w: Seq<RenamePlan>, r1: Result<(), FrenError>|
        {
            &&& exists|b: u128| plans_match(c, es, b, opts, cy)
            &&& stably_sorted_from(c, s)
            &&& within_batch_outcome(s, plan_opts.on_conflict, w, r1)
            &&& match r1 {
                Err(e) => r == Err::<Vec<RenamePlan>, FrenError>(e),
                Ok(_) => exists|f: Seq<RenamePlan>, r2: Result<(), FrenError>|
                    {
                        &&& crate::plan::conflict::preexisting_outcome(
                            w,
                            plan_opts.on_conflict,
                            existing_set(existing),
                            f,
                            r2,
                        )
                        &&& match r2 {
                            Err(e) => r == Err::<Vec<RenamePlan>, FrenError>(e),
                            Ok(_) => r matches Ok(v) && v@ == f,
                        }
                    },
            }
        };
    let b = choose|b: u128| plans_match(c, es, b, opts, cy);
    assert(names_are_components(c)) by {
        assert forall|i: int| 0 <= i < c.len() implies no_slash(#[trigger] c[i].new_name@) by {
            assert(c[i].new_name@ == es[i].3);
        }
    }
    lemma_sorted_keeps_components(c, s);
    law_within_batch_targets_distinct(s, w, r1);
    assert(r1 is Ok);
    let (f, r2) = choose|f: Seq<RenamePlan>, r2: Result<(), FrenError>|
        {
            &&& crate::plan::conflict::preexisting_outcome(
                w,
                plan_opts.on_conflict,
                existing_set(existing),
                f,
                r2,
            )
            &&& match r2 {
                Err(e) => r == Err::<Vec<RenamePlan>, FrenError>(e),
                Ok(_) => r matches Ok(v) && v@ == f,
            }
        };
    assert(r2 is Ok);
    assert(v@ == f);
    assert(targets_distinct(targets_of(w))) by {
        assert forall|a: int, b: int| 0 <= a < w.len() && 0 <= b < w.len() && a != b implies targets_of(
            w,
        )[a] != targets_of(w)[b] by {
            if a < b {
                assert(plan_target(w[a]) != plan_target(w[b]));
            } else {
                assert(plan_target(w[b]) != plan_target(w[a]));
            }
        }
    }
    law_preexisting_keeps_targets_distinct(w, existing_set(existing), f);
    law_preexisting_no_overwrite(w, existing_set(existing), f);
    assert(sources_of(f) =~= sources_of(w)) by {
        assert forall|i: int| 0 <= i < f.len() implies sources_of(f)[i] == sources_of(w)[i] by {
            assert(same_but_name(w[i], f[i]));
        }
    }
}

} // verus!
