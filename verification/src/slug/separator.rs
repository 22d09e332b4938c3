//! Separator handling: replace non-alphanumeric characters with the
//! sentinel and collapse runs of consecutive sentinels.
use vstd::prelude::*;
use crate::text::{chars_of, is_alnum, is_alnum_exec, string_from_chars};

verus! {

/// Every character that is neither ASCII alphanumeric nor the sentinel becomes the sentinel.
pub open spec fn spec_replace_non_alnum(s: Seq<char>, sentinel: char) -> Seq<char> {
    s.map_values(|c: char| if c == sentinel || is_alnum(c) { c } else { sentinel })
}

/// Drop every sentinel that directly follows another sentinel of the input.
pub open spec fn spec_collapse_runs(s: Seq<char>, sentinel: char) -> Seq<char>
    decreases s.len(),
{
    if s.len() == 0 {
        s
    } else {
        let prev = spec_collapse_runs(s.drop_last(), sentinel);
        if s.last() == sentinel && s.len() >= 2 && s[s.len() - 2] == sentinel {
            prev
        } else {
            prev.push(s.last())
        }
    }
}

/// No two adjacent characters of `s` are both `c`.
pub open spec fn no_double(s: Seq<char>, c: char) -> bool {
    forall|i: int| 0 <= i < s.len() - 1 ==> !(#[trigger] s[i] == c && s[i + 1] == c)
}

/// Every character that is not an ASCII letter or digit replaced by `sentinel`.
pub fn replace_non_alnum_chars(s: &Vec<char>, sentinel: char) -> (r: Vec<char>)
    ensures
        r@ == spec_replace_non_alnum(s@, sentinel),
{
    let mut r: Vec<char> = Vec::new();
    let mut i: usize = 0;
    while i < s.len()
        invariant
            i <= s.len(),
            r@ == spec_replace_non_alnum(s@.take(i as int), sentinel),
        decreases s.len() - i,
    {
        let c = s[i];
        let o = if c == sentinel || is_alnum_exec(c) { c } else { sentinel };
        r.push(o);
        i += 1;
        assert(spec_replace_non_alnum(s@.take(i as int), sentinel) =~= spec_replace_non_alnum(
            s@.take(i - 1),
            sentinel,
        ).push(o));
    }
    assert(s@.take(i as int) =~= s@);
    r
}

/// Replace every character that is not ASCII alphanumeric and not the
/// `sentinel` itself with `sentinel`.
pub fn replace_non_alnum(input: &str, sentinel: char) -> (r: String)
    ensures
        r@ == spec_replace_non_alnum(input@, sentinel),
{
    let v = chars_of(input);
    string_from_chars(&replace_non_alnum_chars(&v, sentinel))
}

/// Runs of `sentinel` collapsed to one.
pub fn collapse_runs_chars(s: &Vec<char>, sentinel: char) -> (r: Vec<char>)
    ensures
        r@ == spec_collapse_runs(s@, sentinel),
{
    let mut r: Vec<char> = Vec::new();
    let mut last_was_sentinel = false;
    let mut i: usize = 0;
    while i < s.len()
        invariant
            i <= s.len(),
            r@ == spec_collapse_runs(s@.take(i as int), sentinel),
            last_was_sentinel == (i > 0 && s@[i - 1] == sentinel),
        decreases s.len() - i,
    {
        let c = s[i];
        let is_sentinel = c == sentinel;
        assert(s@.take(i + 1).drop_last() =~= s@.take(i as int));
        if is_sentinel && last_was_sentinel {
            i += 1;
            continue;
        }
        r.push(c);
        last_was_sentinel = is_sentinel;
        i += 1;
    }
    assert(s@.take(i as int) =~= s@);
    r
}

/// Collapse runs of consecutive `sentinel` characters into a single one.
pub fn collapse_runs(input: &str, sentinel: char) -> (r: String)
    ensures
        r@ == spec_collapse_runs(input@, sentinel),
{
    let v = chars_of(input);
    string_from_chars(&collapse_runs_chars(&v, sentinel))
}

/// The output of collapsing never holds two adjacent sentinels; its first and
/// last characters are those of the input.
pub proof fn lemma_collapse_runs_shape(s: Seq<char>, c: char)
    ensures
        no_double(spec_collapse_runs(s, c), c),
        spec_collapse_runs(s, c).len() <= s.len(),
        s.len() > 0 ==> spec_collapse_runs(s, c).len() > 0 && spec_collapse_runs(s, c).last()
            == s.last(),
        s.len() > 0 ==> spec_collapse_runs(s, c)[0] == s[0],
        forall|i: int|
            0 <= i < spec_collapse_runs(s, c).len() ==> exists|j: int|
                0 <= j < s.len() && s[j] == #[trigger] spec_collapse_runs(s, c)[i],
    decreases s.len(),
{
    if s.len() > 0 {
        let p = s.drop_last();
        lemma_collapse_runs_shape(p, c);
        let prev = spec_collapse_runs(p, c);
        let out = spec_collapse_runs(s, c);
        assert forall|i: int| 0 <= i < out.len() implies exists|j: int|
            0 <= j < s.len() && s[j] == #[trigger] out[i] by {
            if i < prev.len() {
                let j = choose|j: int| 0 <= j < p.len() && p[j] == prev[i];
                assert(s[j] == p[j]);
            } else {
                assert(s[s.len() - 1] == out[i]);
            }
        }
        if s.len() >= 2 {
            assert(p.last() == s[s.len() - 2]);
            assert(p[0] == s[0]);
        }
    }
}

/// Collapsing twice is the same as collapsing once.
pub proof fn lemma_collapse_runs_idempotent(s: Seq<char>, c: char)
    ensures
        spec_collapse_runs(spec_collapse_runs(s, c), c) == spec_collapse_runs(s, c),
{
    lemma_collapse_runs_shape(s, c);
    lemma_collapse_no_double_fixed(spec_collapse_runs(s, c), c);
}

/// A sequence without adjacent sentinels is left unchanged by collapsing.
pub proof fn lemma_collapse_no_double_fixed(s: Seq<char>, c: char)
    requires
        no_double(s, c),
    ensures
        spec_collapse_runs(s, c) == s,
    decreases s.len(),
{
    if s.len() > 0 {
        let p = s.drop_last();
        assert forall|i: int| 0 <= i < p.len() - 1 implies !(#[trigger] p[i] == c && p[i + 1]
            == c) by {
            assert(s[i] == p[i] && s[i + 1] == p[i + 1]);
        }
        lemma_collapse_no_double_fixed(p, c);
        if s.len() >= 2 {
            assert(!(s[s.len() - 2] == c && s[s.len() - 1] == c));
        }
        assert(p.push(s.last()) =~= s);
    }
}

/// A stretch of `x` that holds no `c` is kept, whole and contiguous, by
/// collapsing runs of `c` (at the returned place); a stretch at the end
/// stays at the end.
pub proof fn lemma_collapse_keeps_stretch(x: Seq<char>, c: char, q: int, n: int) -> (q2: int)
    requires
        0 <= q,
        0 <= n,
        q + n <= x.len(),
        forall|k: int| q <= k < q + n ==> #[trigger] x[k] != c,
    ensures
        0 <= q2,
        q2 + n <= spec_collapse_runs(x, c).len(),
        spec_collapse_runs(x, c).subrange(q2, q2 + n) == x.subrange(q, q + n),
        q + n == x.len() ==> q2 + n == spec_collapse_runs(x, c).len(),
    decreases x.len(),
{
    let y = spec_collapse_runs(x, c);
    if n == 0 {
        if q + n == x.len() {
            let q2 = y.len() as int;
            assert(y.subrange(q2, q2 + n) =~= x.subrange(q, q + n));
            q2
        } else {
            assert(y.subrange(0, n) =~= x.subrange(q, q + n));
            0
        }
    } else {
        let d = x.drop_last();
        let yd = spec_collapse_runs(d, c);
        if q + n == x.len() {
            assert forall|k: int| q <= k < q + n - 1 implies #[trigger] d[k] != c by {
                assert(d[k] == x[k]);
            }
            let n1 = n - 1;
            let q2 = lemma_collapse_keeps_stretch(d, c, q, n1);
            assert(x.last() == x[q + n - 1]);
            assert(y == yd.push(x.last()));
            assert(y.subrange(q2, q2 + n) =~= x.subrange(q, q + n)) by {
                assert forall|i: int| 0 <= i < n implies #[trigger] y.subrange(q2, q2 + n)[i] == x.subrange(
                    q,
                    q + n,
                )[i] by {
                    if i < n1 {
                        assert(yd.subrange(q2, q2 + n1)[i] == d.subrange(q, q + n1)[i]);
                        assert(y[q2 + i] == yd[q2 + i]);
                        assert(d[q + i] == x[q + i]);
                    } else {
                        assert(y[q2 + i] == x.last());
                    }
                }
            }
            q2
        } else {
            assert forall|k: int| q <= k < q + n implies #[trigger] d[k] != c by {
                assert(d[k] == x[k]);
            }
            let q2 = lemma_collapse_keeps_stretch(d, c, q, n);
            assert(d.subrange(q, q + n) =~= x.subrange(q, q + n));
            if y != yd {
                assert(y == yd.push(x.last()));
                assert(y.subrange(q2, q2 + n) =~= yd.subrange(q2, q2 + n));
            }
            q2
        }
    }
}

} // verus!
