//! The order in which a merge visits the files of a source: by path
//! components, each compared by code point, as `Path` orders paths that
//! share a root.
use vstd::prelude::*;
use crate::listing::{components, components_chars};
use crate::plan::conflict::{lemma_seq_lt_irreflexive, seq_lt, seq_lt_exec};
use crate::plan::laws::{lemma_seq_lt_total, lemma_seq_lt_transitive};
use crate::text::chars_of;

verus! {

broadcast use vstd::seq_lib::group_to_multiset_ensures;

/// Lexicographic order of component lists.
pub open spec fn comps_lt(a: Seq<Seq<char>>, b: Seq<Seq<char>>) -> bool
    decreases a.len(),
{
    if a.len() == 0 {
        b.len() > 0
    } else if b.len() == 0 {
        false
    } else if a[0] != b[0] {
        seq_lt(a[0], b[0])
    } else {
        comps_lt(a.drop_first(), b.drop_first())
    }
}

/// Path `a` goes strictly before path `b`.
pub open spec fn path_lt(a: Seq<char>, b: Seq<char>) -> bool {
    comps_lt(components(a), components(b))
}

/// The paths of `s` with components `k`, in their order in `s`.
pub open spec fn with_comps(s: Seq<String>, k: Seq<Seq<char>>) -> Seq<String> {
    s.filter(|p: String| components(p@) == k)
}

proof fn lemma_with_comps_single(x: String, k: Seq<Seq<char>>)
    ensures
        with_comps(seq![x], k) == if components(x@) == k {
            seq![x]
        } else {
            Seq::<String>::empty()
        },
{
    reveal_with_fuel(Seq::filter, 2);
    assert(seq![x].drop_last() =~= Seq::<String>::empty());
}

proof fn lemma_with_comps_none(s: Seq<String>, k: Seq<Seq<char>>)
    requires
        forall|i: int| 0 <= i < s.len() ==> components((#[trigger] s[i])@) != k,
    ensures
        with_comps(s, k) == Seq::<String>::empty(),
    decreases s.len(),
{
    reveal(Seq::filter);
    if s.len() > 0 {
        lemma_with_comps_none(s.drop_last(), k);
    }
}

/// No path of `s` goes before an earlier one.
pub open spec fn paths_sorted(s: Seq<String>) -> bool {
    forall|i: int, j: int| 0 <= i < j < s.len() ==> !path_lt(s[j]@, s[i]@)
}

proof fn lemma_comps_lt_irreflexive(a: Seq<Seq<char>>)
    ensures
        !comps_lt(a, a),
    decreases a.len(),
{
    if a.len() > 0 {
        lemma_comps_lt_irreflexive(a.drop_first());
    }
}

proof fn lemma_comps_lt_transitive(a: Seq<Seq<char>>, b: Seq<Seq<char>>, c: Seq<Seq<char>>)
    requires
        comps_lt(a, b),
        comps_lt(b, c),
    ensures
        comps_lt(a, c),
    decreases a.len(),
{
    if a.len() > 0 && b.len() > 0 && c.len() > 0 {
        if a[0] == b[0] && b[0] == c[0] {
            lemma_comps_lt_transitive(a.drop_first(), b.drop_first(), c.drop_first());
        } else if a[0] != b[0] && b[0] != c[0] {
            lemma_seq_lt_transitive(a[0], b[0], c[0]);
            if a[0] == c[0] {
                lemma_seq_lt_irreflexive(a[0]);
            }
        }
    }
}

proof fn lemma_comps_lt_total(a: Seq<Seq<char>>, b: Seq<Seq<char>>)
    requires
        a != b,
    ensures
        comps_lt(a, b) || comps_lt(b, a),
    decreases a.len(),
{
    if a.len() > 0 && b.len() > 0 {
        if a[0] == b[0] {
            if a.drop_first() == b.drop_first() {
                assert(a =~= seq![a[0]] + a.drop_first());
                assert(b =~= seq![b[0]] + b.drop_first());
            }
            lemma_comps_lt_total(a.drop_first(), b.drop_first());
        } else {
            lemma_seq_lt_total(a[0], b[0]);
        }
    } else if a.len() == 0 && b.len() == 0 {
        assert(a =~= b);
    }
}

/// "Not after" is transitive.
proof fn lemma_not_after(a: Seq<char>, b: Seq<char>, c: Seq<char>)
    requires
        !path_lt(b, a),
        !path_lt(c, b),
    ensures
        !path_lt(c, a),
{
    let (ca, cb, cc) = (components(a), components(b), components(c));
    if comps_lt(cc, ca) {
        if ca == cb {
        } else if cb == cc {
        } else {
            lemma_comps_lt_total(ca, cb);
            lemma_comps_lt_total(cb, cc);
            lemma_comps_lt_transitive(cb, cc, ca);
        }
    }
}

fn comps_lt_exec(a: &Vec<Vec<char>>, b: &Vec<Vec<char>>) -> (r: bool)
    ensures
        r == comps_lt(a@.map_values(|x: Vec<char>| x@), b@.map_values(|x: Vec<char>| x@)),
{
    let ghost va = a@.map_values(|x: Vec<char>| x@);
    let ghost vb = b@.map_values(|x: Vec<char>| x@);
    let mut i: usize = 0;
    assert(va.skip(0) =~= va);
    assert(vb.skip(0) =~= vb);
    loop
        invariant
            i <= a.len(),
            i <= b.len(),
            va == a@.map_values(|x: Vec<char>| x@),
            vb == b@.map_values(|x: Vec<char>| x@),
            comps_lt(va, vb) == comps_lt(va.skip(i as int), vb.skip(i as int)),
        decreases a.len() - i,
    {
        if i == a.len() {
            return i < b.len();
        }
        if i == b.len() {
            return false;
        }
        assert(va.skip(i as int)[0] == va[i as int]);
        assert(vb.skip(i as int)[0] == vb[i as int]);
        let same = crate::execute::chars_eq(&a[i], &b[i]);
        if !same {
            return seq_lt_exec(&a[i], &b[i]);
        }
        assert(va.skip(i as int).drop_first() =~= va.skip(i + 1));
        assert(vb.skip(i as int).drop_first() =~= vb.skip(i + 1));
        i += 1;
    }
}

/// `a` goes strictly before `b`.
fn path_before(a: &String, b: &String) -> (r: bool)
    ensures
        r == path_lt(a@, b@),
{
    let ca = components_chars(&chars_of(a.as_str()));
    let cb = components_chars(&chars_of(b.as_str()));
    comps_lt_exec(&ca, &cb)
}

/// Sort paths in place by their components (each by code point), keeping
/// the order of paths with the same components.
pub fn sort_paths(paths: &mut Vec<String>)
    ensures
        final(paths)@.to_multiset() == old(paths)@.to_multiset(),
        paths_sorted(final(paths)@),
        forall|k: Seq<Seq<char>>| with_comps(final(paths)@, k) == with_comps(old(paths)@, k),
{
    let ghost orig = paths@;
    let n = paths.len();
    let mut i: usize = 0;
    while i < n
        invariant
            i <= n == paths.len() == orig.len(),
            paths_sorted(paths@.take(i as int)),
            paths@.skip(i as int) == orig.skip(i as int),
            paths@.to_multiset() == orig.to_multiset(),
            forall|k: Seq<Seq<char>>| with_comps(paths@.take(i as int), k) == with_comps(orig.take(i as int), k),
        decreases n - i,
    {
        let mut j: usize = i;
        while j > 0 && path_before(&paths[i], &paths[j - 1])
            invariant
                j <= i < n == paths.len(),
                forall|q: int| j <= q < i ==> path_lt(paths@[i as int]@, (#[trigger] paths@[q])@),
            decreases j,
        {
            j -= 1;
        }
        let ghost p = paths@;
        let ghost x = p[i as int];
        let ghost pre = p.take(i as int);
        let x_val = paths.remove(i);
        paths.insert(j, x_val);
        proof {
            assert(paths@.to_multiset() =~= p.to_multiset()) by {
                assert(p.remove(i as int).to_multiset() == p.to_multiset().remove(x));
                assert(p.to_multiset().count(x) > 0) by {
                    assert(p.contains(x));
                }
            }
            let a = pre.take(j as int);
            let b = pre.skip(j as int);
            assert(pre =~= a + b);
            assert(paths@.take(i + 1) =~= a + seq![x] + b);
            assert(paths@.skip(i + 1) =~= orig.skip(i + 1)) by {
                assert forall|q: int| 0 <= q < paths@.skip(i + 1).len() implies #[trigger] paths@.skip(
                    i + 1,
                )[q] == orig.skip(i + 1)[q] by {
                    assert(paths@.skip(i + 1)[q] == p[i + 1 + q]);
                    assert(p[i + 1 + q] == p.skip(i as int)[q + 1]);
                }
            }
            assert forall|q: int| 0 <= q < a.len() implies !path_lt(x@, (#[trigger] a[q])@) by {
                assert(!path_lt(x@, pre[j - 1]@));
                if q < j - 1 {
                    assert(!path_lt(pre[j - 1]@, pre[q]@));
                    lemma_not_after(pre[q]@, pre[j - 1]@, x@);
                }
            }
            assert forall|q: int| 0 <= q < b.len() implies path_lt(x@, (#[trigger] b[q])@) by {
                assert(b[q] == p[j + q]);
            }
            let np = paths@.take(i + 1);
            assert forall|u: int, v: int| 0 <= u < v < np.len() implies !path_lt(np[v]@, np[u]@) by {
                if u < j && v < j {
                    assert(np[u] == pre[u] && np[v] == pre[v]);
                } else if u < j && v == j {
                    assert(np[u] == a[u]);
                } else if u < j {
                    assert(np[u] == a[u] && np[v] == b[v - j - 1]);
                } else if u == j {
                    assert(np[v] == b[v - j - 1]);
                    if path_lt(np[v]@, x@) {
                        lemma_comps_lt_transitive(components(x@), components(np[v]@), components(x@));
                        lemma_comps_lt_irreflexive(components(x@));
                    }
                } else {
                    assert(np[u] == pre[u - 1] && np[v] == pre[v - 1]);
                }
            }
            assert(orig.take(i + 1) =~= orig.take(i as int) + seq![x]) by {
                assert(orig.skip(i as int)[0] == x);
            }
            assert forall|k: Seq<Seq<char>>| #[trigger] with_comps(paths@.take(i + 1), k) == with_comps(
                orig.take(i + 1),
                k,
            ) by {
                let f = |r: String| components(r@) == k;
                Seq::filter_distributes_over_add(a + seq![x], b, f);
                Seq::filter_distributes_over_add(a, seq![x], f);
                Seq::filter_distributes_over_add(a, b, f);
                Seq::filter_distributes_over_add(orig.take(i as int), seq![x], f);
                lemma_with_comps_single(x, k);
                if components(x@) == k {
                    assert forall|q: int| 0 <= q < b.len() implies components((#[trigger] b[q])@) != k by {
                        if components(b[q]@) == k {
                            lemma_comps_lt_irreflexive(k);
                        }
                    }
                    lemma_with_comps_none(b, k);
                    assert(with_comps(b, k) + Seq::<String>::empty() =~= with_comps(b, k));
                }
                assert(with_comps(pre, k) == with_comps(orig.take(i as int), k));
            }
        }
        i += 1;
    }
    assert(paths@.take(n as int) =~= paths@);
    assert(orig.take(n as int) =~= orig);
}

} // verus!
