//! Bottom-up order.
//!
//! The executor processes plans in deepest-first order so that a plan's
//! `original_path` is still valid at execution time (no parent has been
//! renamed yet). At the same depth, files are processed before
//! directories so that within the same parent the directory rename happens
//! last, after its children have been renamed.
use vstd::prelude::*;
use crate::plan_types::{ItemKind, RenamePlan};

verus! {

/// Position key of a plan: deeper first; at equal depth, files and symbolic
/// links (0) before directories (1).
pub open spec fn order_key(p: RenamePlan) -> int {
    -2 * (p.depth as int) + if p.kind == ItemKind::Dir {
        1int
    } else {
        0int
    }
}

pub open spec fn sorted_by_key(s: Seq<RenamePlan>) -> bool {
    forall|i: int, j: int| 0 <= i < j < s.len() ==> order_key(s[i]) <= order_key(s[j])
}

/// The plans of `s` with key `k`, in their order in `s`.
pub open spec fn with_key(s: Seq<RenamePlan>, k: int) -> Seq<RenamePlan> {
    s.filter(|p: RenamePlan| order_key(p) == k)
}

proof fn lemma_with_key_single(x: RenamePlan, k: int)
    ensures
        with_key(seq![x], k) == if order_key(x) == k {
            seq![x]
        } else {
            Seq::<RenamePlan>::empty()
        },
{
    reveal_with_fuel(Seq::filter, 2);
    assert(seq![x].drop_last() =~= Seq::<RenamePlan>::empty());
}

proof fn lemma_with_key_none(s: Seq<RenamePlan>, k: int)
    requires
        forall|i: int| 0 <= i < s.len() ==> order_key(#[trigger] s[i]) != k,
    ensures
        with_key(s, k) == Seq::<RenamePlan>::empty(),
    decreases s.len(),
{
    reveal(Seq::filter);
    if s.len() > 0 {
        lemma_with_key_none(s.drop_last(), k);
    }
}

/// `x` goes strictly before `y`.
fn goes_before(x: &RenamePlan, y: &RenamePlan) -> (b: bool)
    ensures
        b == (order_key(*x) < order_key(*y)),
{
    let xd = x.kind == ItemKind::Dir;
    let yd = y.kind == ItemKind::Dir;
    x.depth > y.depth || (x.depth == y.depth && !xd && yd)
}

/// Sort a plan vector in place, stably: deepest first; at equal depth,
/// files before directories.
pub fn sort_bottom_up(plans: &mut Vec<RenamePlan>)
    ensures
        final(plans).len() == old(plans).len(),
        sorted_by_key(final(plans)@),
        forall|k: int| with_key(final(plans)@, k) == with_key(old(plans)@, k),
{
    let ghost orig = plans@;
    let n = plans.len();
    let mut i: usize = 0;
    while i < n
        invariant
            i <= n == plans.len() == orig.len(),
            sorted_by_key(plans@.take(i as int)),
            plans@.skip(i as int) == orig.skip(i as int),
            forall|k: int| with_key(plans@.take(i as int), k) == with_key(orig.take(i as int), k),
        decreases n - i,
    {
        let mut j: usize = i;
        while j > 0 && goes_before(&plans[i], &plans[j - 1])
            invariant
                j <= i < n == plans.len(),
                forall|q: int| j <= q < i ==> order_key(plans@[i as int]) < order_key(#[trigger] plans@[q]),
            decreases j,
        {
            j -= 1;
        }
        let ghost p = plans@;
        let ghost x = p[i as int];
        let ghost pre = p.take(i as int);
        let x_val = plans.remove(i);
        plans.insert(j, x_val);
        proof {
            let a = pre.take(j as int);
            let b = pre.skip(j as int);
            assert(pre =~= a + b);
            assert(plans@.take(i + 1) =~= a + seq![x] + b);
            assert(orig.take(i + 1) =~= orig.take(i as int) + seq![x]) by {
                assert(orig.skip(i as int)[0] == x);
            }
            assert(plans@.skip(i + 1) =~= orig.skip(i + 1)) by {
                assert forall|q: int| 0 <= q < plans@.skip(i + 1).len() implies #[trigger] plans@.skip(
                    i + 1,
                )[q] == orig.skip(i + 1)[q] by {
                    assert(plans@.skip(i + 1)[q] == p[i + 1 + q]);
                    assert(p[i + 1 + q] == p.skip(i as int)[q + 1]);
                }
            }
            // Prefix before the insertion point is not after x; the rest is after.
            assert forall|q: int| 0 <= q < a.len() implies order_key(#[trigger] a[q]) <= order_key(x) by {
                if j > 0 {
                    assert(order_key(pre[j - 1]) <= order_key(x));
                    assert(order_key(pre[q]) <= order_key(pre[j - 1]));
                }
            }
            assert forall|q: int| 0 <= q < b.len() implies order_key(#[trigger] b[q]) > order_key(x) by {
                assert(b[q] == p[j + q]);
            }
            let np = plans@.take(i + 1);
            assert forall|u: int, v: int| 0 <= u < v < np.len() implies order_key(np[u]) <= order_key(
                np[v],
            ) by {
                if u < j && v < j {
                    assert(np[u] == pre[u] && np[v] == pre[v]);
                } else if u < j && v == j {
                    assert(np[u] == a[u]);
                } else if u < j {
                    assert(np[u] == a[u] && np[v] == b[v - j - 1]);
                } else if u == j {
                    assert(np[v] == b[v - j - 1]);
                } else {
                    assert(np[u] == pre[u - 1] && np[v] == pre[v - 1]);
                }
            }
            assert forall|k: int| #[trigger] with_key(plans@.take(i + 1), k) == with_key(orig.take(i + 1), k) by {
                Seq::filter_distributes_over_add(a + seq![x], b, |r: RenamePlan| order_key(r) == k);
                Seq::filter_distributes_over_add(a, seq![x], |r: RenamePlan| order_key(r) == k);
                Seq::filter_distributes_over_add(a, b, |r: RenamePlan| order_key(r) == k);
                Seq::filter_distributes_over_add(
                    orig.take(i as int),
                    seq![x],
                    |r: RenamePlan| order_key(r) == k,
                );
                lemma_with_key_single(x, k);
                if order_key(x) == k {
                    lemma_with_key_none(b, k);
                    assert(with_key(b, k) + Seq::<RenamePlan>::empty() =~= with_key(b, k));
                }
                assert(with_key(pre, k) == with_key(orig.take(i as int), k));
            }
        }
        i += 1;
    }
    assert(plans@.take(n as int) =~= plans@);
    assert(orig.take(n as int) =~= orig);
}

} // verus!
