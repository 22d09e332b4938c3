//! Case-preserving slugifier.
//!
//! Unlike most slug libraries, which always lowercase, this one lets the
//! caller choose how case is handled via [`CaseMode`].
use vstd::prelude::*;
use crate::text::{
    all_ascii, chars_of, is_alnum, is_ascii_char, lower_char, replace_char, replace_char_exec,
    string_from_chars, trim_char, trim_char_exec, trim_end, trim_start, upper_char,
};

pub mod case;
pub mod normalize;
pub mod separator;

use case::{apply_chars, spec_apply, CaseMode};
use normalize::{fold_to_ascii_keep_chars, nfkc, spec_fold_to_ascii_keep, spec_nfkc};
use separator::{
    collapse_runs_chars, no_double, replace_non_alnum_chars, spec_collapse_runs,
    spec_replace_non_alnum,
};

verus! {

/// Options controlling how a string is slugified.
#[derive(Debug, Clone, Copy)]
pub struct SlugOpts {
    /// Output separator character (e.g. `-` or `_`).
    pub separator: char,
    /// How to handle character case.
    pub case: CaseMode,
    /// Whether CamelCase boundaries are split by the date-aware pipeline.
    /// Carried through here; the plain slugifier does not act on it.
    pub split_camel: bool,
}

impl Default for SlugOpts {
    fn default() -> (r: Self)
        ensures
            r.separator == '-',
            r.case == CaseMode::Preserve,
            !r.split_camel,
    {
        SlugOpts { separator: '-', case: CaseMode::Preserve, split_camel: false }
    }
}

/// The slugify pipeline with `sentinel` as the internal separator: NFKC,
/// fold to ASCII, non-alphanumerics to sentinel, collapse sentinel runs,
/// apply the case mode, trim sentinels at both ends, then substitute the
/// sentinel by the output separator.
pub open spec fn spec_slugify_with_sentinel(input: Seq<char>, sentinel: char, opts: SlugOpts) -> Seq<
    char,
> {
    let folded = spec_fold_to_ascii_keep(spec_nfkc(input), sentinel);
    let collapsed = spec_collapse_runs(spec_replace_non_alnum(folded, sentinel), sentinel);
    let trimmed = trim_char(spec_apply(collapsed, opts.case), sentinel);
    if sentinel == opts.separator {
        trimmed
    } else {
        replace_char(trimmed, sentinel, opts.separator)
    }
}

/// A slug over separator `sep`: only ASCII alphanumerics and `sep`, no two
/// separators in a row, none at either end.
pub open spec fn slug_shaped(s: Seq<char>, sep: char) -> bool {
    &&& forall|i: int| 0 <= i < s.len() ==> is_alnum(#[trigger] s[i]) || s[i] == sep
    &&& no_double(s, sep)
    &&& s.len() > 0 ==> s[0] != sep && s.last() != sep
}

/// The slug of `input` with `sentinel` as the internal separator, as characters.
pub fn slugify_with_sentinel_chars(input: &str, sentinel: char, opts: &SlugOpts) -> (r: Vec<char>)
    ensures
        r@ == spec_slugify_with_sentinel(input@, sentinel, *opts),
        is_ascii_char(sentinel) && !is_alnum(sentinel) && sentinel == opts.separator ==> slug_shaped(
            r@,
            sentinel,
        ),
{
    let normalized = nfkc(input);
    let nv = chars_of(normalized.as_str());
    let folded = fold_to_ascii_keep_chars(&nv, sentinel);
    let with_sentinels = replace_non_alnum_chars(&folded, sentinel);
    let collapsed = collapse_runs_chars(&with_sentinels, sentinel);
    let cased = apply_chars(&collapsed, opts.case);
    let trimmed = trim_char_exec(&cased, sentinel);
    proof {
        if is_ascii_char(sentinel) && !is_alnum(sentinel) {
            lemma_alnum_or(with_sentinels@, folded@, sentinel);
            separator::lemma_collapse_runs_shape(with_sentinels@, sentinel);
            lemma_collapse_keeps_alnum_or(with_sentinels@, sentinel);
            lemma_apply_keeps_shape(collapsed@, sentinel, opts.case);
            lemma_trim_shape(cased@, sentinel);
        }
    }
    if sentinel == opts.separator {
        trimmed
    } else {
        replace_char_exec(&trimmed, sentinel, opts.separator)
    }
}

/// Slugify a string but keep the chosen `sentinel` character as the internal
/// separator throughout, only substituting it for `opts.separator` at the end.
pub fn slugify_with_sentinel(input: &str, sentinel: char, opts: &SlugOpts) -> (r: String)
    ensures
        r@ == spec_slugify_with_sentinel(input@, sentinel, *opts),
{
    string_from_chars(&slugify_with_sentinel_chars(input, sentinel, opts))
}

/// Slugify a string using the given options.
///
/// For an ASCII separator that is not alphanumeric the result is a slug:
/// ASCII alphanumerics and the separator only, never two separators in a
/// row, none at either end.
pub fn slugify(input: &str, opts: &SlugOpts) -> (r: String)
    ensures
        r@ == spec_slugify_with_sentinel(input@, opts.separator, *opts),
        is_ascii_char(opts.separator) && !is_alnum(opts.separator) ==> slug_shaped(
            r@,
            opts.separator,
        ),
{
    string_from_chars(&slugify_with_sentinel_chars(input, opts.separator, opts))
}

proof fn lemma_alnum_or(r: Seq<char>, s: Seq<char>, c: char)
    requires
        r == spec_replace_non_alnum(s, c),
    ensures
        forall|i: int| 0 <= i < r.len() ==> is_alnum(#[trigger] r[i]) || r[i] == c,
{
}

proof fn lemma_collapse_keeps_alnum_or(s: Seq<char>, c: char)
    requires
        forall|i: int| 0 <= i < s.len() ==> is_alnum(#[trigger] s[i]) || s[i] == c,
    ensures
        forall|i: int|
            0 <= i < spec_collapse_runs(s, c).len() ==> is_alnum(
                #[trigger] spec_collapse_runs(s, c)[i],
            ) || spec_collapse_runs(s, c)[i] == c,
{
    separator::lemma_collapse_runs_shape(s, c);
    let out = spec_collapse_runs(s, c);
    assert forall|i: int| 0 <= i < out.len() implies is_alnum(#[trigger] out[i]) || out[i] == c by {
        let j = choose|j: int| 0 <= j < s.len() && s[j] == out[i];
        assert(is_alnum(s[j]) || s[j] == c);
    }
}

proof fn lemma_apply_keeps_shape(s: Seq<char>, c: char, mode: CaseMode)
    requires
        is_ascii_char(c),
        !is_alnum(c),
        forall|i: int| 0 <= i < s.len() ==> is_alnum(#[trigger] s[i]) || s[i] == c,
    ensures
        spec_apply(s, mode).len() == s.len(),
        forall|i: int|
            0 <= i < s.len() ==> (#[trigger] spec_apply(s, mode)[i] == c) == (s[i] == c),
        forall|i: int|
            0 <= i < s.len() ==> is_alnum(#[trigger] spec_apply(s, mode)[i]) || spec_apply(
                s,
                mode,
            )[i] == c,
{
    assert(all_ascii(s)) by {
        assert forall|i: int| 0 <= i < s.len() implies is_ascii_char(#[trigger] s[i]) by {
            assert(is_alnum(s[i]) || s[i] == c);
        }
    }
    let r = spec_apply(s, mode);
    assert forall|i: int| 0 <= i < s.len() implies (#[trigger] r[i] == c) == (s[i] == c) && (
    is_alnum(r[i]) || r[i] == c) by {
        assert(is_alnum(s[i]) || s[i] == c);
        assert(is_alnum(s[i]) ==> is_alnum(lower_char(s[i])) && is_alnum(upper_char(s[i])));
    }
}

proof fn lemma_trim_shape(s: Seq<char>, c: char)
    requires
        forall|i: int| 0 <= i < s.len() ==> is_alnum(#[trigger] s[i]) || s[i] == c,
        no_double(s, c),
    ensures
        slug_shaped(trim_char(s, c), c),
{
    crate::text::lemma_trim_start_suffix(s, c);
    let k = choose|k: int|
        0 <= k <= s.len() && #[trigger] s.subrange(k, s.len() as int) == trim_start(s, c) && (
        forall|i: int| 0 <= i < k ==> s[i] == c) && (k < s.len() ==> s[k] != c);
    let t = trim_start(s, c);
    crate::text::lemma_trim_end_prefix(t, c);
    let m = choose|m: int|
        0 <= m <= t.len() && #[trigger] t.subrange(0, m) == trim_end(t, c) && (forall|i: int|
            m <= i < t.len() ==> t[i] == c) && (m > 0 ==> t[m - 1] != c);
    let r = trim_char(s, c);
    assert(r.len() == m);
    assert forall|i: int| 0 <= i < r.len() implies r[i] == s[k + i] by {
        assert(r[i] == t[i]);
        assert(t[i] == s[k + i]);
    }
    assert forall|i: int| 0 <= i < r.len() implies is_alnum(#[trigger] r[i]) || r[i] == c by {
        assert(is_alnum(s[k + i]) || s[k + i] == c);
    }
    assert forall|i: int| 0 <= i < r.len() - 1 implies !(#[trigger] r[i] == c && r[i + 1] == c) by {
        assert(r[i] == s[k + i] && r[i + 1] == s[k + i + 1]);
        assert(!(s[k + i] == c && s[k + i + 1] == c));
    }
    if r.len() > 0 {
        assert(r[0] == s[k]);
        assert(r.last() == t[m - 1]);
    }
}

/// ASCII text folds to itself.
proof fn lemma_fold_ascii(s: Seq<char>, keep: char)
    requires
        all_ascii(s),
    ensures
        spec_fold_to_ascii_keep(s, keep) == s,
    decreases s.len(),
{
    if s.len() > 0 {
        lemma_fold_ascii(s.drop_last(), keep);
        assert(s.drop_last() + seq![s.last()] =~= s);
    }
}

/// A stretch of a text that the case mode keeps, starting at a word start,
/// is kept by the case mode too.
proof fn lemma_apply_fixed_part(a: Seq<char>, k: int, m: int, mode: CaseMode)
    requires
        all_ascii(a),
        spec_apply(a, mode) == a,
        0 <= k <= m <= a.len(),
        k == 0 || !is_alnum(a[k - 1]),
    ensures
        spec_apply(a.subrange(k, m), mode) == a.subrange(k, m),
{
    let t = a.subrange(k, m);
    assert(all_ascii(t)) by {
        assert forall|i: int| 0 <= i < t.len() implies is_ascii_char(#[trigger] t[i]) by {
            assert(t[i] == a[k + i]);
        }
    }
    let r = spec_apply(t, mode);
    assert forall|i: int| 0 <= i < t.len() implies #[trigger] r[i] == t[i] by {
        assert(t[i] == a[k + i]);
        assert(spec_apply(a, mode)[k + i] == a[k + i]);
        if i > 0 {
            assert(t[i - 1] == a[k + i - 1]);
        }
    }
    assert(r =~= t);
}

/// Slugifying a slug changes nothing: for an ASCII separator that is not
/// alphanumeric, the slug of a slug is that slug.
#[verifier::spinoff_prover]
#[verifier::rlimit(50)]
pub proof fn law_slugify_idempotent(input: Seq<char>, opts: SlugOpts)
    requires
        is_ascii_char(opts.separator),
        !is_alnum(opts.separator),
    ensures
        spec_slugify_with_sentinel(
            spec_slugify_with_sentinel(input, opts.separator, opts),
            opts.separator,
            opts,
        ) == spec_slugify_with_sentinel(input, opts.separator, opts),
{
    let c = opts.separator;
    let folded = spec_fold_to_ascii_keep(spec_nfkc(input), c);
    let replaced = spec_replace_non_alnum(folded, c);
    let collapsed = spec_collapse_runs(replaced, c);
    let cased = spec_apply(collapsed, opts.case);
    let y = trim_char(cased, c);
    assert(y == spec_slugify_with_sentinel(input, c, opts));
    lemma_alnum_or(replaced, folded, c);
    separator::lemma_collapse_runs_shape(replaced, c);
    lemma_collapse_keeps_alnum_or(replaced, c);
    lemma_apply_keeps_shape(collapsed, c, opts.case);
    lemma_trim_shape(cased, c);
    assert(slug_shaped(y, c));
    assert(all_ascii(collapsed)) by {
        assert forall|i: int| 0 <= i < collapsed.len() implies is_ascii_char(#[trigger] collapsed[i]) by {
            assert(is_alnum(collapsed[i]) || collapsed[i] == c);
        }
    }
    case::law_case_modes(collapsed, opts.case);
    assert(all_ascii(cased));
    assert(spec_apply(cased, opts.case) == cased);
    // The slug is a stretch of the cased text that starts after a separator.
    crate::text::lemma_trim_start_suffix(cased, c);
    let k = choose|k: int|
        0 <= k <= cased.len() && #[trigger] cased.subrange(k, cased.len() as int) == trim_start(
            cased,
            c,
        ) && (forall|i: int| 0 <= i < k ==> cased[i] == c) && (k < cased.len() ==> cased[k] != c);
    let t = trim_start(cased, c);
    crate::text::lemma_trim_end_prefix(t, c);
    let m = choose|m: int|
        0 <= m <= t.len() && #[trigger] t.subrange(0, m) == trim_end(t, c) && (forall|i: int|
            m <= i < t.len() ==> t[i] == c) && (m > 0 ==> t[m - 1] != c);
    assert(y =~= cased.subrange(k, k + m));
    if k > 0 {
        assert(cased[k - 1] == c);
    }
    lemma_apply_fixed_part(cased, k, k + m, opts.case);
    // Each pass of the second run keeps the slug.
    assert(all_ascii(y)) by {
        assert forall|i: int| 0 <= i < y.len() implies is_ascii_char(#[trigger] y[i]) by {
            assert(is_alnum(y[i]) || y[i] == c);
        }
    }
    assert(spec_nfkc(y) == y);
    lemma_fold_ascii(y, c);
    assert(spec_replace_non_alnum(y, c) =~= y) by {
        assert forall|i: int| 0 <= i < y.len() implies #[trigger] spec_replace_non_alnum(y, c)[i]
            == y[i] by {
            assert(is_alnum(y[i]) || y[i] == c);
        }
    }
    separator::lemma_collapse_no_double_fixed(y, c);
    if y.len() > 0 {
        assert(trim_start(y, c) == y);
        assert(trim_end(y, c) == y);
    } else {
        assert(trim_start(y, c) == y);
    }
}

/// Only ASCII alphanumerics and `c`.
pub open spec fn alnum_or(s: Seq<char>, c: char) -> bool {
    forall|i: int| 0 <= i < s.len() ==> is_alnum(#[trigger] s[i]) || s[i] == c
}

/// Two ASCII kept characters fold alike.
proof fn lemma_fold_keep_ascii(s: Seq<char>, a: char, b: char)
    requires
        is_ascii_char(a),
        is_ascii_char(b),
    ensures
        spec_fold_to_ascii_keep(s, a) == spec_fold_to_ascii_keep(s, b),
    decreases s.len(),
{
    if s.len() > 0 {
        lemma_fold_keep_ascii(s.drop_last(), a, b);
        assert(normalize::fold_image(s.last(), a) == normalize::fold_image(s.last(), b));
    }
}

/// Collapsing commutes with renaming the separator.
proof fn lemma_collapse_rename(x: Seq<char>, b: char, a: char)
    requires
        alnum_or(x, b),
        !is_alnum(a),
        !is_alnum(b),
    ensures
        spec_collapse_runs(replace_char(x, b, a), a) == replace_char(spec_collapse_runs(x, b), b, a),
    decreases x.len(),
{
    if x.len() > 0 {
        let y = replace_char(x, b, a);
        assert(y.drop_last() =~= replace_char(x.drop_last(), b, a));
        assert(alnum_or(x.drop_last(), b)) by {
            assert forall|i: int| 0 <= i < x.drop_last().len() implies is_alnum(
                #[trigger] x.drop_last()[i],
            ) || x.drop_last()[i] == b by {
                assert(x.drop_last()[i] == x[i]);
            }
        }
        lemma_collapse_rename(x.drop_last(), b, a);
        assert(is_alnum(x.last()) || x.last() == b);
        if x.len() >= 2 {
            assert(is_alnum(x[x.len() - 2]) || x[x.len() - 2] == b);
        }
        let p = spec_collapse_runs(x.drop_last(), b);
        assert(replace_char(p.push(x.last()), b, a) =~= replace_char(p, b, a).push(y.last()));
    }
}

/// The case mode commutes with renaming the separator.
proof fn lemma_apply_rename(x: Seq<char>, b: char, a: char, mode: CaseMode)
    requires
        alnum_or(x, b),
        is_ascii_char(a),
        is_ascii_char(b),
        !is_alnum(a),
        !is_alnum(b),
    ensures
        spec_apply(replace_char(x, b, a), mode) == replace_char(spec_apply(x, mode), b, a),
{
    let y = replace_char(x, b, a);
    assert(all_ascii(x)) by {
        assert forall|i: int| 0 <= i < x.len() implies is_ascii_char(#[trigger] x[i]) by {
            assert(is_alnum(x[i]) || x[i] == b);
        }
    }
    assert(all_ascii(y)) by {
        assert forall|i: int| 0 <= i < y.len() implies is_ascii_char(#[trigger] y[i]) by {
            assert(is_alnum(x[i]) || x[i] == b);
        }
    }
    let l = spec_apply(y, mode);
    let r = replace_char(spec_apply(x, mode), b, a);
    assert forall|i: int| 0 <= i < x.len() implies #[trigger] l[i] == r[i] by {
        assert(is_alnum(x[i]) || x[i] == b);
        case::lemma_case_char(x[i]);
        if i > 0 {
            assert(is_alnum(x[i - 1]) || x[i - 1] == b);
            case::lemma_case_char(x[i - 1]);
        }
    }
    assert(l =~= r);
}

/// Trimming at the start commutes with renaming the separator.
proof fn lemma_trim_start_rename(x: Seq<char>, b: char, a: char)
    requires
        alnum_or(x, b),
        !is_alnum(a),
    ensures
        trim_start(replace_char(x, b, a), a) == replace_char(trim_start(x, b), b, a),
    decreases x.len(),
{
    if x.len() > 0 {
        assert(is_alnum(x[0]) || x[0] == b);
        assert(replace_char(x, b, a).drop_first() =~= replace_char(x.drop_first(), b, a));
        assert(alnum_or(x.drop_first(), b)) by {
            assert forall|i: int| 0 <= i < x.drop_first().len() implies is_alnum(
                #[trigger] x.drop_first()[i],
            ) || x.drop_first()[i] == b by {
                assert(x.drop_first()[i] == x[i + 1]);
            }
        }
        lemma_trim_start_rename(x.drop_first(), b, a);
    }
}

/// Trimming at the end commutes with renaming the separator.
proof fn lemma_trim_end_rename(x: Seq<char>, b: char, a: char)
    requires
        alnum_or(x, b),
        !is_alnum(a),
    ensures
        trim_end(replace_char(x, b, a), a) == replace_char(trim_end(x, b), b, a),
    decreases x.len(),
{
    if x.len() > 0 {
        assert(is_alnum(x.last()) || x.last() == b);
        assert(replace_char(x, b, a).drop_last() =~= replace_char(x.drop_last(), b, a));
        assert(alnum_or(x.drop_last(), b)) by {
            assert forall|i: int| 0 <= i < x.drop_last().len() implies is_alnum(
                #[trigger] x.drop_last()[i],
            ) || x.drop_last()[i] == b by {
                assert(x.drop_last()[i] == x[i]);
            }
        }
        lemma_trim_end_rename(x.drop_last(), b, a);
    }
}

/// The sentinel is internal: with two ASCII non-alphanumeric characters,
/// slugifying with either as the sentinel gives the same slug.
pub proof fn law_sentinel_is_internal(input: Seq<char>, sentinel: char, opts: SlugOpts)
    requires
        is_ascii_char(sentinel),
        !is_alnum(sentinel),
        is_ascii_char(opts.separator),
        !is_alnum(opts.separator),
    ensures
        spec_slugify_with_sentinel(input, sentinel, opts) == spec_slugify_with_sentinel(
            input,
            opts.separator,
            opts,
        ),
{
    let a = sentinel;
    let b = opts.separator;
    if a != b {
        let n = spec_nfkc(input);
        lemma_fold_keep_ascii(n, a, b);
        let f = spec_fold_to_ascii_keep(n, b);
        let rb = spec_replace_non_alnum(f, b);
        let ra = spec_replace_non_alnum(f, a);
        assert(ra =~= replace_char(rb, b, a));
        lemma_alnum_or(rb, f, b);
        separator::lemma_collapse_runs_shape(rb, b);
        lemma_collapse_keeps_alnum_or(rb, b);
        lemma_collapse_rename(rb, b, a);
        let cb = spec_collapse_runs(rb, b);
        lemma_apply_keeps_shape(cb, b, opts.case);
        lemma_apply_rename(cb, b, a, opts.case);
        let ab = spec_apply(cb, opts.case);
        assert(alnum_or(ab, b));
        lemma_trim_start_rename(ab, b, a);
        let sb = trim_start(ab, b);
        assert(alnum_or(sb, b)) by {
            crate::text::lemma_trim_start_suffix(ab, b);
            let k = choose|k: int|
                0 <= k <= ab.len() && #[trigger] ab.subrange(k, ab.len() as int) == trim_start(ab, b)
                    && (forall|i: int| 0 <= i < k ==> ab[i] == b) && (k < ab.len() ==> ab[k] != b);
            assert forall|i: int| 0 <= i < sb.len() implies is_alnum(#[trigger] sb[i]) || sb[i]
                == b by {
                assert(sb[i] == ab[k + i]);
            }
        }
        lemma_trim_end_rename(sb, b, a);
        let tb = trim_char(ab, b);
        lemma_trim_shape(ab, b);
        assert(replace_char(replace_char(tb, b, a), a, b) =~= tb) by {
            assert forall|i: int| 0 <= i < tb.len() implies #[trigger] replace_char(
                replace_char(tb, b, a),
                a,
                b,
            )[i] == tb[i] by {
                assert(is_alnum(tb[i]) || tb[i] == b);
            }
        }
    }
}

/// A slug with an ASCII non-alphanumeric separator is slug-shaped.
pub proof fn lemma_slug_shaped(input: Seq<char>, opts: SlugOpts)
    requires
        is_ascii_char(opts.separator),
        !is_alnum(opts.separator),
    ensures
        slug_shaped(spec_slugify_with_sentinel(input, opts.separator, opts), opts.separator),
{
    let c = opts.separator;
    let folded = spec_fold_to_ascii_keep(spec_nfkc(input), c);
    let replaced = spec_replace_non_alnum(folded, c);
    let collapsed = spec_collapse_runs(replaced, c);
    let cased = spec_apply(collapsed, opts.case);
    lemma_alnum_or(replaced, folded, c);
    separator::lemma_collapse_runs_shape(replaced, c);
    lemma_collapse_keeps_alnum_or(replaced, c);
    lemma_apply_keeps_shape(collapsed, c, opts.case);
    lemma_trim_shape(cased, c);
}

/// A stretch of `x` that neither starts nor ends with `c` is kept, whole
/// and contiguous, by trimming `c` at both ends (at the returned place).
pub proof fn lemma_trim_keeps_stretch(x: Seq<char>, c: char, q: int, n: int) -> (q2: int)
    requires
        0 <= q,
        0 < n,
        q + n <= x.len(),
        x[q] != c,
        x[q + n - 1] != c,
    ensures
        0 <= q2,
        q2 + n <= trim_char(x, c).len(),
        trim_char(x, c).subrange(q2, q2 + n) == x.subrange(q, q + n),
{
    crate::text::lemma_trim_start_suffix(x, c);
    let k = choose|k: int|
        0 <= k <= x.len() && #[trigger] x.subrange(k, x.len() as int) == trim_start(x, c) && (
        forall|i: int| 0 <= i < k ==> x[i] == c) && (k < x.len() ==> x[k] != c);
    let t = trim_start(x, c);
    if k > q {
        assert(x[q] == c);
    }
    crate::text::lemma_trim_end_prefix(t, c);
    let m = choose|m: int|
        0 <= m <= t.len() && #[trigger] t.subrange(0, m) == trim_end(t, c) && (forall|i: int|
            m <= i < t.len() ==> t[i] == c) && (m > 0 ==> t[m - 1] != c);
    let q2 = q - k;
    assert(t[q2 + n - 1] == x[q + n - 1]);
    if q2 + n > m {
        assert(t[q2 + n - 1] == c);
    }
    let r = trim_char(x, c);
    assert(r.subrange(q2, q2 + n) =~= x.subrange(q, q + n)) by {
        assert forall|i: int| 0 <= i < n implies #[trigger] r.subrange(q2, q2 + n)[i] == x.subrange(
            q,
            q + n,
        )[i] by {
            assert(r[q2 + i] == t[q2 + i]);
            assert(t[q2 + i] == x[q + i]);
        }
    }
    q2
}

} // verus!
