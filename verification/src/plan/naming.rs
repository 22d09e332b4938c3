//! `-copy-{n}` names: building them, stripping them, and the facts that
//! make a search for a free one terminate.
use vstd::prelude::*;
use vstd::set_lib::{lemma_int_range, lemma_len_subset, lemma_map_size, set_int_range};
use crate::text::{all_digits, decimal, digit_char, digit_val, digits_value, is_digit, extend_chars};
use crate::plan::paths::{
    dotless_tail, is_special_name, join_exec, join_path, lemma_name_parts, lemma_split_with_ext,
    name_ext, name_stem, push_decimal, split_stem_ext, with_ext, with_ext_exec,
};

verus! {

/// The text `-copy-`.
pub open spec fn copy_marker() -> Seq<char> {
    seq!['-', 'c', 'o', 'p', 'y', '-']
}

/// `{stem}-copy-{n}{.ext}`, with the stem and extension of `base` taken as
/// `Path::file_stem` and `Path::extension` take them (only the final
/// extension is separated).
pub open spec fn spec_numbered_name(base: Seq<char>, n: nat) -> Seq<char> {
    with_ext(name_stem(base) + copy_marker() + decimal(n), name_ext(base))
}

/// The path of the `k`-th numbered variant of `base` inside `parent`.
pub open spec fn cand_path(parent: Seq<char>, base: Seq<char>, k: int) -> Seq<char> {
    join_path(parent, spec_numbered_name(base, k as nat))
}

/// Start of the last occurrence of a non-empty `pat` in `s` (`str::rfind`),
/// or `-1`.
pub open spec fn last_occurrence(s: Seq<char>, pat: Seq<char>) -> int
    decreases s.len(),
{
    if s.len() < pat.len() || s.len() == 0 {
        -1
    } else if s.skip(s.len() - pat.len()) == pat {
        s.len() - pat.len()
    } else {
        last_occurrence(s.drop_last(), pat)
    }
}

pub proof fn lemma_last_occurrence_bound(s: Seq<char>, pat: Seq<char>)
    ensures
        last_occurrence(s, pat) >= -1,
        last_occurrence(s, pat) >= 0 ==> last_occurrence(s, pat) + pat.len() <= s.len(),
    decreases s.len(),
{
    if s.len() >= pat.len() && s.len() > 0 && s.skip(s.len() - pat.len()) != pat {
        lemma_last_occurrence_bound(s.drop_last(), pat);
    }
}

/// `stem` without a trailing `-copy-{digits}` (the digits non-empty and ASCII).
pub open spec fn strip_copy_stem(stem: Seq<char>) -> Seq<char> {
    let pos = last_occurrence(stem, copy_marker());
    let suffix = stem.skip(pos + 6);
    if pos >= 0 && suffix.len() > 0 && all_digits(suffix) {
        stem.take(pos)
    } else {
        stem
    }
}

/// The root name of `name`: its stem without a `-copy-{digits}` suffix,
/// followed by its extension.
pub open spec fn spec_strip_copy_suffix(name: Seq<char>) -> Seq<char> {
    with_ext(strip_copy_stem(name_stem(name)), name_ext(name))
}

/// `-copy-` starts at `p` in `s`, and at no later place.
proof fn lemma_last_occurrence_at(s: Seq<char>, p: int)
    requires
        0 <= p,
        p + 6 <= s.len(),
        s.subrange(p, p + 6) == copy_marker(),
        forall|q: int| p < q && q + 6 <= s.len() ==> #[trigger] s.subrange(q, q + 6) != copy_marker(),
    ensures
        last_occurrence(s, copy_marker()) == p,
    decreases s.len(),
{
    if s.len() - 6 == p {
        assert(s.skip(s.len() - 6) =~= s.subrange(p, p + 6));
    } else {
        let q0 = s.len() - 6;
        assert(s.subrange(q0, q0 + 6) != copy_marker());
        assert(s.skip(q0) =~= s.subrange(q0, q0 + 6));
        assert(last_occurrence(s, copy_marker()) == last_occurrence(s.drop_last(), copy_marker()));
        let d = s.drop_last();
        assert(d.subrange(p, p + 6) =~= s.subrange(p, p + 6));
        assert forall|q: int| p < q && q + 6 <= d.len() implies #[trigger] d.subrange(q, q + 6)
            != copy_marker() by {
            assert(d.subrange(q, q + 6) =~= s.subrange(q, q + 6));
        }
        lemma_last_occurrence_at(d, p);
    }
}

/// A `-copy-{digits}` suffix is stripped back to the stem before it.
proof fn lemma_strip_marked(st: Seq<char>, d: Seq<char>)
    requires
        d.len() > 0,
        all_digits(d),
    ensures
        strip_copy_stem(st + copy_marker() + d) == st,
{
    let m = copy_marker();
    let t = st + m + d;
    let p = st.len() as int;
    assert(t.subrange(p, p + 6) =~= m);
    assert forall|q: int| p < q && q + 6 <= t.len() implies #[trigger] t.subrange(q, q + 6) != m by {
        assert(t.subrange(q, q + 6)[0] == t[q]);
        assert(t.subrange(q, q + 6)[1] == t[q + 1]);
        if q < p + 5 {
            assert(t[q] == m[q - p]);
        } else if q == p + 5 {
            assert(t[q + 1] == d[0]);
            assert(is_digit(d[0]));
        } else {
            assert(t[q] == d[q - p - 6]);
            assert(is_digit(d[q - p - 6]));
        }
    }
    lemma_last_occurrence_at(t, p);
    assert(t.skip(p + 6) =~= d);
    assert(t.take(p) =~= st);
}

/// A `-copy-{digits}` suffix adds no `.`.
proof fn lemma_marked_dotless(st: Seq<char>, d: Seq<char>)
    requires
        dotless_tail(st),
        all_digits(d),
    ensures
        dotless_tail(st + copy_marker() + d),
{
    let m = copy_marker();
    let t = st + m + d;
    let p = st.len() as int;
    assert forall|j: int| 1 <= j < t.len() implies t[j] != '.' by {
        if j >= p && j < p + 6 {
            assert(t[j] == m[j - p]);
        } else if j >= p + 6 {
            assert(t[j] == d[j - p - 6]);
            assert(is_digit(d[j - p - 6]));
        } else {
            assert(t[j] == st[j]);
        }
    }
}

/// Stripping undoes numbering: the `n`-th numbered name of `base` strips
/// back to `base` (to its stem and extension, for a name that ends in `.`
/// only when it is empty).
pub proof fn law_strip_undoes_numbering(base: Seq<char>, n: nat)
    requires
        base.len() == 0 || base.last() != '.',
    ensures
        spec_strip_copy_suffix(spec_numbered_name(base, n)) == with_ext(
            name_stem(base),
            name_ext(base),
        ),
        base.len() > 0 ==> spec_strip_copy_suffix(spec_numbered_name(base, n)) == base,
{
    let st = name_stem(base);
    let e = name_ext(base);
    let d = decimal(n);
    lemma_decimal_value(n);
    lemma_name_parts(base);
    if base.len() > 0 {
        assert(!is_special_name(base)) by {
            if base == seq!['.'] || base == seq!['.', '.'] {
                assert(base.last() == '.');
            }
        }
    }
    if e.len() == 0 {
        assert(dotless_tail(st));
        lemma_marked_dotless(st, d);
    }
    lemma_split_with_ext(st + copy_marker() + d, e);
    lemma_strip_marked(st, d);
}

pub proof fn lemma_decimal_value(n: nat)
    ensures
        digits_value(decimal(n)) == n,
        decimal(n).len() >= 1,
        all_digits(decimal(n)),
    decreases n,
{
    let d = digit_char(n % 10);
    assert(digit_val(d) == n % 10) by {
        assert((n % 10) + 48 < 0xD800);
    }
    if n < 10 {
        let s = decimal(n);
        assert(s.drop_last() =~= Seq::<char>::empty());
        assert(digits_value(Seq::<char>::empty()) == 0);
        assert(digit_char(n) == d);
        assert(digits_value(s) == digits_value(s.drop_last()) * 10 + digit_val(s.last()));
    } else {
        lemma_decimal_value(n / 10);
        let s = decimal(n);
        assert(s.drop_last() =~= decimal(n / 10));
        assert(s.last() == d);
        assert(digits_value(s) == digits_value(s.drop_last()) * 10 + digit_val(s.last()));
        assert(n == (n / 10) * 10 + n % 10);
        assert forall|i: int| 0 <= i < s.len() implies is_digit(#[trigger] s[i]) by {
            if i < s.len() - 1 {
                assert(s[i] == decimal(n / 10)[i]);
            }
        }
    }
}

/// Distinct numbers give distinct decimal texts.
pub proof fn lemma_decimal_injective(a: nat, b: nat)
    requires
        decimal(a) == decimal(b),
    ensures
        a == b,
{
    lemma_decimal_value(a);
    lemma_decimal_value(b);
}

/// Distinct numbers give distinct numbered names.
pub proof fn lemma_numbered_injective(base: Seq<char>, a: nat, b: nat)
    requires
        spec_numbered_name(base, a) == spec_numbered_name(base, b),
    ensures
        a == b,
{
    let p = name_stem(base) + copy_marker();
    let x = spec_numbered_name(base, a);
    let y = spec_numbered_name(base, b);
    let da = decimal(a);
    let db = decimal(b);
    let tail: Seq<char> = if name_ext(base).len() == 0 {
        Seq::empty()
    } else {
        seq!['.'] + name_ext(base)
    };
    assert(x =~= p + da + tail);
    assert(y =~= p + db + tail);
    assert(da.len() == db.len());
    assert(da =~= x.subrange(p.len() as int, (p.len() + da.len()) as int));
    assert(db =~= y.subrange(p.len() as int, (p.len() + db.len()) as int));
    lemma_decimal_injective(a, b);
}

/// Whether a name replaces the base it is joined to.
pub open spec fn is_absolute(name: Seq<char>) -> bool {
    name.len() > 0 && name[0] == '/'
}

/// Joining is injective on names that are all absolute or all relative.
pub proof fn lemma_join_injective(parent: Seq<char>, x: Seq<char>, y: Seq<char>)
    requires
        join_path(parent, x) == join_path(parent, y),
        is_absolute(x) == is_absolute(y),
    ensures
        x == y,
{
    if !is_absolute(x) {
        let jx = join_path(parent, x);
        let jy = join_path(parent, y);
        let pre: Seq<char> = if parent.len() == 0 || parent.last() == '/' {
            parent
        } else {
            parent + seq!['/']
        };
        assert(jx =~= pre + x);
        assert(jy =~= pre + y);
        assert(x =~= jx.skip(pre.len() as int));
        assert(y =~= jy.skip(pre.len() as int));
    }
}

/// All numbered variants of one base are absolute, or none is.
pub proof fn lemma_numbered_absolute(base: Seq<char>, a: nat, b: nat)
    ensures
        is_absolute(spec_numbered_name(base, a)) == is_absolute(spec_numbered_name(base, b)),
{
    let s = name_stem(base);
    let x = spec_numbered_name(base, a);
    let y = spec_numbered_name(base, b);
    if s.len() > 0 {
        assert(x[0] == s[0]);
        assert(y[0] == s[0]);
    } else {
        assert(x[0] == '-');
        assert(y[0] == '-');
    }
}

/// Distinct numbers give distinct candidate paths in one directory.
pub proof fn lemma_cand_injective(parent: Seq<char>, base: Seq<char>, a: int, b: int)
    requires
        a >= 0,
        b >= 0,
        cand_path(parent, base, a) == cand_path(parent, base, b),
    ensures
        a == b,
{
    lemma_numbered_absolute(base, a as nat, b as nat);
    lemma_join_injective(
        parent,
        spec_numbered_name(base, a as nat),
        spec_numbered_name(base, b as nat),
    );
    lemma_numbered_injective(base, a as nat, b as nat);
}

/// Build a `{stem}-copy-{n}{.ext}` variant of `base_name`.
///
/// Only the final extension is separated: `report.tar.gz` with n=2 gives
/// `report.tar-copy-2.gz`; `README` gives `README-copy-1`; a leading-dot
/// name such as `.gitignore` has no extension and gives
/// `.gitignore-copy-1`.
pub fn numbered_name(base_name: &str, n: u32) -> (r: String)
    ensures
        r@ == spec_numbered_name(base_name@, n as nat),
{
    let b = crate::text::chars_of(base_name);
    let v = numbered_chars(&b, n);
    crate::text::string_from_chars(&v)
}

/// `{stem}-copy-{n}{.ext}` of `base`.
pub fn numbered_chars(base: &Vec<char>, n: u32) -> (r: Vec<char>)
    ensures
        r@ == spec_numbered_name(base@, n as nat),
{
    let (stem, ext) = split_stem_ext(base);
    let mut s = stem;
    let m = marker_chars();
    extend_chars(&mut s, &m);
    push_decimal(&mut s, n);
    with_ext_exec(&s, &ext)
}

/// The path of the `n`-th numbered variant of `base` inside `parent`.
pub fn cand_path_exec(parent: &Vec<char>, base: &Vec<char>, n: u32) -> (r: Vec<char>)
    ensures
        r@ == cand_path(parent@, base@, n as int),
{
    let name = numbered_chars(base, n);
    join_exec(parent, &name)
}

fn marker_chars() -> (r: Vec<char>)
    ensures
        r@ == copy_marker(),
{
    let r = vec!['-', 'c', 'o', 'p', 'y', '-'];
    assert(r@ =~= copy_marker());
    r
}

/// Start of the last occurrence of `-copy-` in `s`.
fn rfind_marker(s: &Vec<char>) -> (r: Option<usize>)
    ensures
        match r {
            Some(p) => p as int == last_occurrence(s@, copy_marker()),
            None => last_occurrence(s@, copy_marker()) == -1,
        },
{
    let m = marker_chars();
    let mut end: usize = s.len();
    assert(s@.take(end as int) =~= s@);
    while end >= 6
        invariant
            end <= s.len(),
            m@ == copy_marker(),
            last_occurrence(s@, copy_marker()) == last_occurrence(s@.take(end as int), copy_marker()),
        decreases end,
    {
        let start = end - 6;
        let mut same = true;
        let mut j: usize = 0;
        while j < 6
            invariant
                j <= 6,
                start + 6 == end <= s.len(),
                m@ == copy_marker(),
                same == (forall|i: int| 0 <= i < j ==> s@[start + i] == m@[i]),
            decreases 6 - j,
        {
            if s[start + j] != m[j] {
                same = false;
            }
            j += 1;
        }
        let ghost t = s@.take(end as int);
        if same {
            assert(t.skip(t.len() - 6) =~= copy_marker());
            return Some(start);
        }
        assert(t.skip(t.len() - 6) != copy_marker()) by {
            let i = choose|i: int| 0 <= i < 6 && s@[start + i] != m@[i];
            assert(t.skip(t.len() - 6)[i] == s@[start + i]);
        }
        assert(t.drop_last() =~= s@.take(end - 1));
        end -= 1;
    }
    None
}

/// Return the root (pre-copy) base name for `name`, stripping a trailing
/// `-copy-{digits}` from its stem. The extension, if any, is kept; other
/// names pass through unchanged.
pub fn strip_copy_suffix(name: &Vec<char>) -> (r: Vec<char>)
    ensures
        r@ == spec_strip_copy_suffix(name@),
{
    let (stem, ext) = split_stem_ext(name);
    proof {
        lemma_last_occurrence_bound(stem@, copy_marker());
        assert(copy_marker().len() == 6);
    }
    let root = match rfind_marker(&stem) {
        None => stem,
        Some(pos) => {
            assert(last_occurrence(stem@, copy_marker()) == pos);
            assert(pos + 6 <= stem@.len());
            let slen = stem.len();
            assert(pos + 6 <= slen);
            let mut ok = pos + 6 < stem.len();
            let mut i = pos + 6;
            while i < stem.len()
                invariant
                    pos + 6 <= i <= stem.len(),
                    ok == (pos + 6 < stem.len() && forall|j: int|
                        pos + 6 <= j < i ==> is_digit(#[trigger] stem@[j])),
                decreases stem.len() - i,
            {
                if !('0' <= stem[i] && stem[i] <= '9') {
                    ok = false;
                }
                i += 1;
            }
            proof {
                let suffix = stem@.skip(pos + 6);
                if ok {
                    assert forall|j: int| 0 <= j < suffix.len() implies is_digit(
                        #[trigger] suffix[j],
                    ) by {
                        assert(suffix[j] == stem@[pos + 6 + j]);
                    }
                }
                if all_digits(suffix) && suffix.len() > 0 {
                    assert forall|j: int| pos + 6 <= j < stem.len() implies is_digit(
                        #[trigger] stem@[j],
                    ) by {
                        assert(stem@[j] == suffix[j - pos - 6]);
                    }
                }
            }
            if ok {
                let mut t: Vec<char> = Vec::new();
                let mut k: usize = 0;
                while k < pos
                    invariant
                        k <= pos <= stem.len(),
                        t@ == stem@.take(k as int),
                    decreases pos - k,
                {
                    t.push(stem[k]);
                    k += 1;
                    assert(t@ =~= stem@.take(k as int));
                }
                t
            } else {
                stem
            }
        },
    };
    with_ext_exec(&root, &ext)
}

} // verus!
