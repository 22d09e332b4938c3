//! New names for discovered items: the slug of the name (the stem for
//! files, with the extension lowercased), and the reordered form that
//! moves the first detected date to the front.
use vstd::prelude::*;
use crate::date::parser::first_hit;
use crate::plan::paths::{
    file_name_of, name_ext, name_stem, path_file_name, split_stem_ext,
};
use crate::plan_types::{DetectedDate, ItemKind};
use crate::slug::case::{lowercase_chars, spec_lowercase};
use crate::slug::SlugOpts;
use crate::slugify::camel_iso::{
    detection_of, first_iso, law_detected_iso_in_slug, slugify_camel_iso_detect,
    slugify_camel_iso_with_year, spec_pre_dates, spec_slugify_camel_iso,
};
use crate::text::{
    chars_of, extend_chars, is_alnum, is_ascii_char, lemma_trim_end_prefix, lemma_trim_start_suffix,
    string_from_chars, trim_char, trim_char_exec, trim_end, trim_start,
};

verus! {

/// One filesystem entry discovered during a walk.
#[derive(Debug, Clone)]
pub struct DiscoveredItem {
    /// Path of the entry (the walk root, or a descendant joined onto it).
    pub path: String,
    /// What kind of entry this is.
    pub kind: ItemKind,
    /// Depth from the walk root (root itself = 0).
    pub depth: usize,
}

/// `.ext` with the extension lowercased, or nothing for an empty extension.
pub open spec fn ext_tail(ext: Seq<char>) -> Seq<char> {
    if ext.len() == 0 {
        Seq::empty()
    } else {
        seq!['.'] + spec_lowercase(ext)
    }
}

/// The new name of an item called `raw`: directories slugify the whole
/// name; files and symbolic links slugify the stem and keep the extension,
/// lowercased.
pub open spec fn spec_new_name(raw: Seq<char>, kind: ItemKind, opts: SlugOpts, cy: int) -> Seq<char> {
    if kind == ItemKind::Dir {
        spec_slugify_camel_iso(raw, opts, cy)
    } else {
        spec_slugify_camel_iso(name_stem(raw), opts, cy) + ext_tail(name_ext(raw))
    }
}

/// The ISO text of the first date the pipeline detects in `stem`, as
/// `slugify_camel_iso_detect` reports it.
pub open spec fn detected_iso(stem: Seq<char>, opts: SlugOpts, cy: int) -> Option<Seq<char>> {
    let pre = spec_pre_dates(stem, opts);
    if pre.len() * 4 + 100 <= usize::MAX {
        match first_hit(pre, cy, 0) {
            Some((i, lo, h)) => Some(h.0),
            None => None,
        }
    } else {
        None
    }
}

/// Start of the first occurrence of `pat` in `s` at or after `i`
/// (`str::find`), or `-1`.
pub open spec fn first_occ_from(s: Seq<char>, pat: Seq<char>, i: int) -> int
    decreases s.len() - i,
{
    if i < 0 || i + pat.len() > s.len() {
        -1
    } else if pat.len() == 0 || s.subrange(i, i + pat.len()) == pat {
        i
    } else {
        first_occ_from(s, pat, i + 1)
    }
}

/// `slug` with the first occurrence of `iso` (at `pos`) moved to the
/// front; the separators next to the date are dropped and the two sides
/// are joined by one separator.
pub open spec fn move_to_front(slug: Seq<char>, iso: Seq<char>, pos: int, sep: char) -> Seq<char> {
    let pre = trim_char(slug.take(pos), sep);
    let suf = trim_char(slug.skip(pos + iso.len()), sep);
    let rem = if pre.len() == 0 {
        suf
    } else if suf.len() == 0 {
        pre
    } else {
        pre + seq![sep] + suf
    };
    if rem.len() == 0 {
        iso
    } else {
        iso + seq![sep] + rem
    }
}

/// The reordered name of an item called `raw`: the slug (of the stem for
/// files) with its first detected date moved to the front, then the
/// lowercased extension. Items without a date get the plain slug. `None`
/// when a date was detected but its ISO text is not in the slug.
pub open spec fn spec_reorder_name(raw: Seq<char>, kind: ItemKind, opts: SlugOpts, cy: int) -> Option<
    Seq<char>,
> {
    let stem = if kind == ItemKind::Dir {
        raw
    } else {
        name_stem(raw)
    };
    let tail = if kind == ItemKind::Dir {
        Seq::empty()
    } else {
        ext_tail(name_ext(raw))
    };
    let slug = spec_slugify_camel_iso(stem, opts, cy);
    match detected_iso(stem, opts, cy) {
        Some(iso) => {
            let pos = first_occ_from(slug, iso, 0);
            if pos < 0 {
                None
            } else {
                Some(move_to_front(slug, iso, pos, opts.separator) + tail)
            }
        },
        None => Some(slug + tail),
    }
}

pub proof fn lemma_first_occ_bound(s: Seq<char>, pat: Seq<char>, i: int)
    ensures
        first_occ_from(s, pat, i) >= 0 ==> first_occ_from(s, pat, i) >= i && first_occ_from(s, pat, i)
            + pat.len() <= s.len(),
        first_occ_from(s, pat, i) >= -1,
    decreases s.len() - i,
{
    if !(i < 0 || i + pat.len() > s.len()) && pat.len() > 0 && s.subrange(i, i + pat.len()) != pat {
        lemma_first_occ_bound(s, pat, i + 1);
    }
}

/// The stem that the reorder pass slugifies for an item called `raw`.
pub open spec fn reorder_stem(raw: Seq<char>, kind: ItemKind) -> Seq<char> {
    if kind == ItemKind::Dir {
        raw
    } else {
        name_stem(raw)
    }
}

/// `.ext` lowercased, or nothing.
fn ext_tail_exec(ext: &Vec<char>) -> (r: Vec<char>)
    ensures
        r@ == ext_tail(ext@),
{
    if ext.len() == 0 {
        Vec::new()
    } else {
        let mut r: Vec<char> = Vec::new();
        r.push('.');
        let l = lowercase_chars(ext);
        extend_chars(&mut r, &l);
        assert(r@ =~= seq!['.'] + spec_lowercase(ext@));
        r
    }
}

/// Compute the new name of a discovered item.
pub fn compute_new_name(item: &DiscoveredItem, slug_opts: &SlugOpts, current_year: i32) -> (r: String)
    requires
        current_year <= i32::MAX - 10,
    ensures
        r@ == spec_new_name(path_file_name(item.path@), item.kind, *slug_opts, current_year as int),
{
    let p = chars_of(item.path.as_str());
    let raw = file_name_of(&p);
    match item.kind {
        ItemKind::Dir => {
            let raw_s = string_from_chars(&raw);
            slugify_camel_iso_with_year(raw_s.as_str(), slug_opts, current_year)
        },
        _ => {
            let (stem, ext) = split_stem_ext(&raw);
            let stem_s = string_from_chars(&stem);
            let slug = slugify_camel_iso_with_year(stem_s.as_str(), slug_opts, current_year);
            let mut out = chars_of(slug.as_str());
            let tail = ext_tail_exec(&ext);
            extend_chars(&mut out, &tail);
            string_from_chars(&out)
        },
    }
}

/// Start of the first occurrence of `pat` in `s`.
fn find_exec(s: &Vec<char>, pat: &Vec<char>) -> (r: Option<usize>)
    ensures
        match r {
            Some(p) => p as int == first_occ_from(s@, pat@, 0) && p + pat.len() <= s.len(),
            None => first_occ_from(s@, pat@, 0) == -1,
        },
{
    if pat.len() > s.len() {
        return None;
    }
    let mut i: usize = 0;
    while i <= s.len() - pat.len()
        invariant
            pat.len() <= s.len(),
            i <= s.len(),
            first_occ_from(s@, pat@, 0) == first_occ_from(s@, pat@, i as int),
        decreases s.len() - i,
    {
        let mut same = true;
        let mut j: usize = 0;
        while j < pat.len()
            invariant
                j <= pat.len(),
                i + pat.len() <= s.len(),
                same == (forall|q: int| 0 <= q < j ==> s@[i + q] == pat@[q]),
            decreases pat.len() - j,
        {
            if s[i + j] != pat[j] {
                same = false;
            }
            j += 1;
        }
        if same {
            assert(s@.subrange(i as int, i + pat.len()) =~= pat@);
            return Some(i);
        }
        assert(pat.len() > 0);
        assert(s@.subrange(i as int, i + pat.len()) != pat@) by {
            let q = choose|q: int| 0 <= q < pat.len() && s@[i + q] != pat@[q];
            assert(s@.subrange(i as int, i + pat.len())[q] == s@[i + q]);
        }
        i += 1;
    }
    None
}

/// The reordered name of a discovered item, with the date that was moved
/// (see [`spec_reorder_name`]). `None` when a date was detected but its
/// ISO text is not in the slug.
pub fn reorder_new_name(item: &DiscoveredItem, slug_opts: &SlugOpts, current_year: i32) -> (r: Option<
    (String, Option<DetectedDate>),
>)
    requires
        current_year <= i32::MAX - 10,
    ensures
        match r {
            Some((name, det)) => spec_reorder_name(
                path_file_name(item.path@),
                item.kind,
                *slug_opts,
                current_year as int,
            ) == Some(name@) && detection_of(
                reorder_stem(path_file_name(item.path@), item.kind),
                *slug_opts,
                current_year as int,
                det,
            ),
            None => spec_reorder_name(
                path_file_name(item.path@),
                item.kind,
                *slug_opts,
                current_year as int,
            ) is None,
        },
{
    let p = chars_of(item.path.as_str());
    let raw = file_name_of(&p);
    let (stem, tail) = match item.kind {
        ItemKind::Dir => (raw.clone(), Vec::new()),
        _ => {
            let (st, ext) = split_stem_ext(&raw);
            (st, ext_tail_exec(&ext))
        },
    };
    assert(stem@ == if item.kind == ItemKind::Dir {
        raw@
    } else {
        name_stem(raw@)
    });
    let stem_s = string_from_chars(&stem);
    let (slug_s, det) = slugify_camel_iso_detect(stem_s.as_str(), slug_opts, current_year);
    let slug = chars_of(slug_s.as_str());
    let sep = slug_opts.separator;
    match det {
        Some(d) => {
            let iso = chars_of(d.iso_string.as_str());
            match find_exec(&slug, &iso) {
                None => None,
                Some(pos) => {
                    let mut head: Vec<char> = Vec::new();
                    let mut k: usize = 0;
                    while k < pos
                        invariant
                            k <= pos <= slug.len(),
                            head@ == slug@.take(k as int),
                        decreases pos - k,
                    {
                        head.push(slug[k]);
                        k += 1;
                        assert(head@ =~= slug@.take(k as int));
                    }
                    let rest = crate::text::sub_chars(&slug, pos + iso.len(), slug.len());
                    assert(rest@ =~= slug@.skip(pos + iso.len()));
                    let pre = trim_char_exec(&head, sep);
                    let suf = trim_char_exec(&rest, sep);
                    let rem = if pre.len() == 0 {
                        suf
                    } else if suf.len() == 0 {
                        pre
                    } else {
                        let mut m = pre;
                        m.push(sep);
                        extend_chars(&mut m, &suf);
                        m
                    };
                    let mut out = iso;
                    if rem.len() > 0 {
                        out.push(sep);
                        extend_chars(&mut out, &rem);
                    }
                    assert(out@ == move_to_front(slug@, d.iso_string@, pos as int, sep));
                    extend_chars(&mut out, &tail);
                    Some((string_from_chars(&out), Some(d)))
                },
            }
        },
        None => {
            let mut out = slug;
            extend_chars(&mut out, &tail);
            Some((string_from_chars(&out), None))
        },
    }
}

/// Reordering is a superset of renaming: a name in which no date is
/// detected gets the same new name from both.
pub proof fn law_reorder_without_date_is_rename(raw: Seq<char>, kind: ItemKind, opts: SlugOpts, cy: int)
    requires
        detected_iso(
            if kind == ItemKind::Dir {
                raw
            } else {
                name_stem(raw)
            },
            opts,
            cy,
        ) is None,
    ensures
        spec_reorder_name(raw, kind, opts, cy) == Some(spec_new_name(raw, kind, opts, cy)),
{
    if kind == ItemKind::Dir {
        let slug = spec_slugify_camel_iso(raw, opts, cy);
        assert(slug + Seq::<char>::empty() =~= slug);
    }
}

proof fn lemma_first_occ_found(s: Seq<char>, t: Seq<char>, i: int, q: int)
    requires
        0 <= i <= q,
        q + t.len() <= s.len(),
        s.subrange(q, q + t.len()) == t,
    ensures
        first_occ_from(s, t, i) >= 0,
    decreases q - i,
{
    if !(t.len() == 0 || s.subrange(i, i + t.len()) == t) {
        lemma_first_occ_found(s, t, i + 1, q);
    }
}

/// Whenever a reordered name is formed for an item with a detected date,
/// it starts with that date's ISO text, whatever the separator.
pub proof fn law_reordered_name_starts_with_date(raw: Seq<char>, kind: ItemKind, opts: SlugOpts, cy: int)
    requires
        spec_reorder_name(raw, kind, opts, cy) is Some,
        detected_iso(reorder_stem(raw, kind), opts, cy) is Some,
    ensures
        spec_reorder_name(raw, kind, opts, cy)->0.take(
            detected_iso(reorder_stem(raw, kind), opts, cy)->0.len() as int,
        ) == detected_iso(reorder_stem(raw, kind), opts, cy)->0,
{
    let stem = reorder_stem(raw, kind);
    let iso = detected_iso(stem, opts, cy)->0;
    let slug = spec_slugify_camel_iso(stem, opts, cy);
    let pos = first_occ_from(slug, iso, 0);
    let tail = if kind == ItemKind::Dir {
        Seq::empty()
    } else {
        ext_tail(name_ext(raw))
    };
    let m = move_to_front(slug, iso, pos, opts.separator);
    assert(m.take(iso.len() as int) =~= iso);
    assert((m + tail).take(iso.len() as int) =~= iso);
}

/// The reordered name of an item with a detected date starts with that
/// date's ISO text (for an ASCII separator that is not alphanumeric): the
/// date is always found in the slug, whatever the case mode.
pub proof fn law_reorder_puts_date_first(raw: Seq<char>, kind: ItemKind, opts: SlugOpts, cy: int)
    requires
        is_ascii_char(opts.separator),
        !is_alnum(opts.separator),
        detected_iso(reorder_stem(raw, kind), opts, cy) is Some,
    ensures
        spec_reorder_name(raw, kind, opts, cy) is Some,
        spec_reorder_name(raw, kind, opts, cy)->0.take(
            detected_iso(reorder_stem(raw, kind), opts, cy)->0.len() as int,
        ) == detected_iso(reorder_stem(raw, kind), opts, cy)->0,
{
    let stem = reorder_stem(raw, kind);
    let iso = detected_iso(stem, opts, cy)->0;
    let slug = spec_slugify_camel_iso(stem, opts, cy);
    law_detected_iso_in_slug(stem, opts, cy);
    assert(first_iso(spec_pre_dates(stem, opts), cy) == iso);
    let q = choose|q: int|
        0 <= q && q + iso.len() <= slug.len() && #[trigger] slug.subrange(q, q + iso.len()) == iso;
    lemma_first_occ_found(slug, iso, 0, q);
    let pos = first_occ_from(slug, iso, 0);
    let tail = if kind == ItemKind::Dir {
        Seq::empty()
    } else {
        ext_tail(name_ext(raw))
    };
    let m = move_to_front(slug, iso, pos, opts.separator);
    assert(m.take(iso.len() as int) =~= iso);
    assert((m + tail).take(iso.len() as int) =~= iso);
}

/// `x` holds nothing but the separator `sep` (or nothing at all).
pub open spec fn only_sep(x: Seq<char>, sep: char) -> bool {
    forall|i: int| 0 <= i < x.len() ==> x[i] == sep
}

/// Trimming `c` leaves nothing exactly when there is nothing but `c`, and
/// otherwise leaves text that neither starts nor ends with `c`.
proof fn lemma_trim_char_shape(x: Seq<char>, c: char)
    ensures
        (trim_char(x, c).len() == 0) == only_sep(x, c),
        trim_char(x, c).len() > 0 ==> trim_char(x, c)[0] != c && trim_char(x, c).last() != c,
{
    lemma_trim_start_suffix(x, c);
    let k = choose|k: int|
        0 <= k <= x.len() && #[trigger] x.subrange(k, x.len() as int) == trim_start(x, c) && (forall|
            i: int,
        | 0 <= i < k ==> x[i] == c) && (k < x.len() ==> x[k] != c);
    let y = trim_start(x, c);
    lemma_trim_end_prefix(y, c);
    let k2 = choose|k2: int|
        0 <= k2 <= y.len() && #[trigger] y.subrange(0, k2) == trim_end(y, c) && (forall|i: int|
            k2 <= i < y.len() ==> y[i] == c) && (k2 > 0 ==> y[k2 - 1] != c);
    let t = trim_char(x, c);
    assert(t == y.subrange(0, k2));
    if t.len() == 0 {
        if k < x.len() {
            assert(y[0] == x[k]);
        }
        assert forall|i: int| 0 <= i < x.len() implies x[i] == c by {
            if i >= k {
                assert(y[i - k] == x[i]);
            }
        }
    } else {
        assert(y[0] == x[k]);
        assert(t[0] == y[0]);
        assert(t.last() == y[k2 - 1]);
    }
    if only_sep(x, c) && t.len() > 0 {
        assert(x[k] == c);
    }
}

/// Moving the date to the front: the result starts with the ISO text; it is
/// exactly the ISO text when nothing but separators surrounds the date, and
/// otherwise the ISO text, one separator, then a rest that neither starts
/// nor ends with the separator (so no separator is dangling or doubled
/// where the pieces meet).
pub proof fn law_move_to_front_shape(slug: Seq<char>, iso: Seq<char>, pos: int, sep: char)
    requires
        0 <= pos,
        pos + iso.len() <= slug.len(),
    ensures
        move_to_front(slug, iso, pos, sep).take(iso.len() as int) == iso,
        only_sep(slug.take(pos), sep) && only_sep(slug.skip(pos + iso.len()), sep) ==> move_to_front(
            slug,
            iso,
            pos,
            sep,
        ) == iso,
        !(only_sep(slug.take(pos), sep) && only_sep(slug.skip(pos + iso.len()), sep)) ==> {
            let m = move_to_front(slug, iso, pos, sep);
            &&& m.len() >= iso.len() + 2
            &&& m[iso.len() as int] == sep
            &&& m[iso.len() + 1int] != sep
            &&& m.last() != sep
        },
{
    let pre = trim_char(slug.take(pos), sep);
    let suf = trim_char(slug.skip(pos + iso.len()), sep);
    lemma_trim_char_shape(slug.take(pos), sep);
    lemma_trim_char_shape(slug.skip(pos + iso.len()), sep);
    let rem = if pre.len() == 0 {
        suf
    } else if suf.len() == 0 {
        pre
    } else {
        pre + seq![sep] + suf
    };
    let m = move_to_front(slug, iso, pos, sep);
    if rem.len() == 0 {
        assert(m == iso);
        assert(m.take(iso.len() as int) =~= iso);
    } else {
        assert(m == iso + seq![sep] + rem);
        assert(m.take(iso.len() as int) =~= iso);
        assert(m[iso.len() as int] == sep);
        assert(m[iso.len() + 1int] == rem[0]);
        assert(m.last() == rem.last());
        if pre.len() > 0 && suf.len() > 0 {
            assert(rem[0] == pre[0]);
            assert(rem.last() == suf.last());
        }
    }
}

/// A name whose slug is exactly its detected date is already in canonical
/// form: its reordered name is its plain new name, so reordering leaves it
/// as renaming does.
pub proof fn law_reorder_keeps_date_only_name(raw: Seq<char>, kind: ItemKind, opts: SlugOpts, cy: int)
    requires
        detected_iso(reorder_stem(raw, kind), opts, cy) == Some(
            spec_slugify_camel_iso(reorder_stem(raw, kind), opts, cy),
        ),
    ensures
        spec_reorder_name(raw, kind, opts, cy) == Some(spec_new_name(raw, kind, opts, cy)),
{
    let stem = reorder_stem(raw, kind);
    let slug = spec_slugify_camel_iso(stem, opts, cy);
    assert(slug.subrange(0, slug.len() as int) =~= slug);
    assert(first_occ_from(slug, slug, 0) == 0);
    assert(only_sep(slug.take(0), opts.separator));
    assert(slug.skip(slug.len() as int).len() == 0);
    assert(only_sep(slug.skip(slug.len() as int), opts.separator));
    law_move_to_front_shape(slug, slug, 0, opts.separator);
    if kind == ItemKind::Dir {
        assert(slug + Seq::<char>::empty() =~= slug);
    }
}

/// A name that already starts with the date, followed by the end or by one
/// separator and a rest that neither starts nor ends with the separator,
/// is left as it is by moving the date to the front.
pub proof fn law_move_to_front_keeps_canonical(slug: Seq<char>, iso: Seq<char>, sep: char)
    requires
        iso.len() <= slug.len(),
        slug.take(iso.len() as int) == iso,
        slug.len() == iso.len() || (slug.len() >= iso.len() + 2 && slug[iso.len() as int] == sep
            && slug[iso.len() + 1int] != sep && slug.last() != sep),
    ensures
        move_to_front(slug, iso, 0, sep) == slug,
{
    let n = iso.len() as int;
    assert(slug.take(0).len() == 0);
    assert(trim_start(slug.take(0), sep) == slug.take(0));
    assert(trim_char(slug.take(0), sep).len() == 0);
    let x = slug.skip(n);
    if slug.len() == iso.len() {
        assert(x.len() == 0);
        assert(trim_char(x, sep).len() == 0);
        assert(slug =~= iso);
    } else {
        let rest = x.drop_first();
        assert(x[0] == sep);
        assert(rest.len() > 0 && rest[0] == slug[n + 1]);
        assert(trim_start(rest, sep) == rest);
        assert(trim_start(x, sep) == rest);
        assert(rest.last() == slug.last());
        assert(trim_end(rest, sep) == rest);
        assert(trim_char(x, sep) == rest);
        assert(slug =~= iso + seq![sep] + rest);
    }
}

} // verus!
