//! Directory merge decisions.
//!
//! Files of the source directories move into the target's mirrored
//! subtree. When a destination already exists, `_Copy`, `_Copy1`,
//! `_Copy2`, ... is appended to the stem until a free name is found: a stem
//! that already ends in `_copy{digits}` (any letter case, digits optional)
//! continues from that index. Metadata files named `.DS_Store` are not
//! moved. What exists on disk is handed in as a list of paths.
use vstd::prelude::*;
use crate::error::FrenError;
use crate::execute::chars_eq;
use crate::plan::conflict::{contains_view, existing_set, views};
use crate::plan::laws::dir_prefix;
use crate::plan::paths::{
    file_name_of, join_exec, join_path, name_ext, name_stem, parent_of, path_file_name,
    path_parent, push_decimal, split_stem_ext, with_ext, with_ext_exec,
};
use crate::text::{
    all_digits, chars_of, decimal, digit_val, digits_value, extend_chars, is_digit, lower_char,
    lower_char_exec, string_from_chars,
};

verus! {

/// Outcome of a single file move during a merge.
#[derive(Debug, Clone)]
pub struct MergeMove {
    /// Source path.
    pub from: String,
    /// Final target path (after any `_Copy` suffix).
    pub to: String,
}

/// Report of a merge.
#[derive(Debug, Clone)]
pub struct MergeReport {
    /// Files moved (or that would be moved in dry-run).
    pub moved: Vec<MergeMove>,
}

pub open spec fn copy_word() -> Seq<char> {
    seq!['_', 'c', 'o', 'p', 'y']
}

/// The suffix word that is appended: `_Copy`.
pub open spec fn copy_title() -> Seq<char> {
    seq!['_', 'C', 'o', 'p', 'y']
}

/// `_copy`, in any ASCII letter case, starts at `pos`.
pub open spec fn is_copy_at(s: Seq<char>, pos: int) -> bool {
    0 <= pos && pos + 5 <= s.len() && forall|j: int|
        0 <= j < 5 ==> lower_char(#[trigger] s[pos + j]) == copy_word()[j]
}

pub open spec fn no_newline(s: Seq<char>) -> bool {
    forall|j: int| 0 <= j < s.len() ==> s[j] != '\n'
}

/// The match of `^(.+)_copy(\d+)?$` (case-insensitive) at the largest start
/// `pos' <= pos`: the stem before `_copy` and the digits after it.
pub open spec fn copy_match_from(s: Seq<char>, pos: int) -> Option<(Seq<char>, Seq<char>)>
    decreases pos,
{
    if pos < 1 {
        None
    } else if is_copy_at(s, pos) && no_newline(s.take(pos)) && all_digits(s.skip(pos + 5)) {
        Some((s.take(pos), s.skip(pos + 5)))
    } else {
        copy_match_from(s, pos - 1)
    }
}

pub open spec fn copy_match(s: Seq<char>) -> Option<(Seq<char>, Seq<char>)> {
    copy_match_from(s, s.len() - 5)
}

/// The index after the digits `d`: their value plus one (wrapping at
/// 2^32 as a `u32` addition does), or 1 when there are no digits or they do
/// not fit a `u32`.
pub open spec fn next_index(d: Seq<char>) -> nat {
    if d.len() > 0 && digits_value(d) <= 0xffff_ffff {
        ((digits_value(d) + 1) % 0x1_0000_0000) as nat
    } else {
        1
    }
}

/// The text of index `k`; index 0 is written as nothing.
pub open spec fn index_text(k: nat) -> Seq<char> {
    if k == 0 {
        Seq::empty()
    } else {
        decimal(k)
    }
}

/// The next stem: `{orig}_Copy{k}` continuing a `_copy{digits}` suffix, or
/// the stem with `_Copy` appended.
pub open spec fn next_copy_stem(s: Seq<char>) -> Seq<char> {
    match copy_match(s) {
        Some((orig, d)) => orig + copy_title() + index_text(next_index(d)),
        None => s + copy_title(),
    }
}

/// The next file name: the next stem, then the extension.
pub open spec fn next_copy_name(n: Seq<char>) -> Seq<char> {
    with_ext(next_copy_stem(name_stem(n)), name_ext(n))
}

pub open spec fn copy_name_chain(n: Seq<char>, t: nat) -> Seq<char>
    decreases t,
{
    if t == 0 {
        n
    } else {
        next_copy_name(copy_name_chain(n, (t - 1) as nat))
    }
}

/// The directory the candidates of `p` are placed in (`with_file_name`
/// replaces the last component, or appends one when there is none).
pub open spec fn merge_dir_of(p: Seq<char>) -> Seq<char> {
    if path_file_name(p).len() > 0 {
        path_parent(p)
    } else {
        p
    }
}

/// The `t`-th path tried for `p`: `p` itself, then its `_Copy` variants.
pub open spec fn unique_candidate(p: Seq<char>, t: nat) -> Seq<char> {
    if t == 0 {
        p
    } else {
        join_path(merge_dir_of(p), copy_name_chain(path_file_name(p), t))
    }
}

/// Candidate `t` is the first one outside `ex`.
pub open spec fn unique_exit(p: Seq<char>, ex: Set<Seq<char>>, t: nat) -> bool {
    !ex.contains(unique_candidate(p, t)) && forall|u: nat| u < t ==> ex.contains(
        #[trigger] unique_candidate(p, u),
    )
}

/// The candidates return to an earlier one while all of them are taken,
/// which would make the search endless.
pub open spec fn unique_cycles(p: Seq<char>, ex: Set<Seq<char>>) -> bool {
    exists|a: nat, b: nat|
        a < b && (forall|u: nat| u <= b ==> ex.contains(#[trigger] unique_candidate(p, u)))
            && unique_candidate(p, a) == unique_candidate(p, b)
}

/// What the search for a free name answers: the first candidate outside
/// `ex`, unless the candidates cycle inside `ex` (then a candidate of the
/// cycle).
pub open spec fn unique_answer(p: Seq<char>, ex: Set<Seq<char>>, r: Seq<char>) -> bool {
    (exists|t: nat| unique_exit(p, ex, t) && r == unique_candidate(p, t)) || (unique_cycles(p, ex)
        && exists|t: nat| ex.contains(r) && r == #[trigger] unique_candidate(p, t))
}

fn copy_at_exec(s: &Vec<char>, pos: usize) -> (b: bool)
    requires
        pos + 5 <= s.len(),
    ensures
        b == is_copy_at(s@, pos as int),
{
    let w = vec!['_', 'c', 'o', 'p', 'y'];
    assert(w@ =~= copy_word());
    let mut j: usize = 0;
    while j < 5
        invariant
            j <= 5,
            pos + 5 <= s.len(),
            w@ == copy_word(),
            forall|q: int| 0 <= q < j ==> lower_char(#[trigger] s@[pos + q]) == copy_word()[q],
        decreases 5 - j,
    {
        if lower_char_exec(s[pos + j]) != w[j] {
            return false;
        }
        j += 1;
    }
    true
}

/// The match of the `_copy{digits}` pattern on a stem.
fn copy_match_exec(s: &Vec<char>) -> (r: Option<(Vec<char>, Vec<char>)>)
    ensures
        match r {
            Some((o, d)) => copy_match(s@) == Some((o@, d@)),
            None => copy_match(s@) is None,
        },
{
    if s.len() < 6 {
        assert(copy_match(s@) is None) by {
            reveal_with_fuel(copy_match_from, 2);
        }
        return None;
    }
    // the longest newline-free prefix and the start of the trailing digits
    let mut nl: usize = 0;
    while nl < s.len() && s[nl] != '\n'
        invariant
            nl <= s.len(),
            forall|j: int| 0 <= j < nl ==> s@[j] != '\n',
        decreases s.len() - nl,
    {
        nl += 1;
    }
    let mut ds: usize = s.len();
    while ds > 0 && '0' <= s[ds - 1] && s[ds - 1] <= '9'
        invariant
            ds <= s.len(),
            forall|j: int| ds <= j < s.len() ==> is_digit(#[trigger] s@[j]),
        decreases ds,
    {
        ds -= 1;
    }
    let mut pos: usize = s.len() - 5;
    while pos >= 1
        invariant
            pos <= s.len() - 5,
            nl <= s.len(),
            ds <= s.len(),
            forall|j: int| 0 <= j < nl ==> s@[j] != '\n',
            nl < s.len() ==> s@[nl as int] == '\n',
            forall|j: int| ds <= j < s.len() ==> is_digit(#[trigger] s@[j]),
            ds > 0 ==> !is_digit(s@[ds - 1]),
            copy_match(s@) == copy_match_from(s@, pos as int),
        decreases pos,
    {
        let ok = copy_at_exec(s, pos) && pos <= nl && ds <= pos + 5;
        proof {
            assert(no_newline(s@.take(pos as int)) == (pos <= nl)) by {
                if pos > nl {
                    assert(s@.take(pos as int)[nl as int] == '\n');
                }
            }
            assert(all_digits(s@.skip(pos + 5)) == (ds <= pos + 5)) by {
                if ds > pos + 5 {
                    assert(!is_digit(s@.skip(pos + 5)[ds - 1 - pos - 5]));
                }
                if ds <= pos + 5 {
                    assert forall|j: int| 0 <= j < s@.skip(pos + 5).len() implies is_digit(
                        #[trigger] s@.skip(pos + 5)[j],
                    ) by {
                        assert(s@.skip(pos + 5)[j] == s@[pos + 5 + j]);
                    }
                }
            }
        }
        if ok {
            let o = crate::text::sub_chars(s, 0, pos);
            let d = crate::text::sub_chars(s, pos + 5, s.len());
            assert(o@ =~= s@.take(pos as int));
            assert(d@ =~= s@.skip(pos + 5));
            return Some((o, d));
        }
        pos -= 1;
    }
    None
}

proof fn lemma_digits_value_grows(d: Seq<char>, i: int)
    requires
        0 <= i < d.len(),
    ensures
        digits_value(d.take(i + 1)) == digits_value(d.take(i)) * 10 + digit_val(d[i]),
        digits_value(d.take(i + 1)) >= digits_value(d.take(i)),
{
    assert(d.take(i + 1).drop_last() =~= d.take(i));
}

/// The index after the digits `d`.
fn next_index_exec(d: &Vec<char>) -> (k: u32)
    requires
        all_digits(d@),
    ensures
        k as nat == next_index(d@),
{
    if d.len() == 0 {
        return 1;
    }
    let mut acc: u64 = 0;
    let mut big = false;
    let mut i: usize = 0;
    assert(d@.take(0) =~= Seq::<char>::empty());
    while i < d.len()
        invariant
            i <= d.len(),
            all_digits(d@),
            !big ==> acc as nat == digits_value(d@.take(i as int)) && acc <= 0xffff_ffff,
            big ==> digits_value(d@.take(i as int)) > 0xffff_ffff,
        decreases d.len() - i,
    {
        proof {
            lemma_digits_value_grows(d@, i as int);
        }
        let dv = (d[i] as u32 - '0' as u32) as u64;
        assert(dv as nat == digit_val(d@[i as int]));
        if !big {
            acc = acc * 10 + dv;
            if acc > 0xffff_ffff {
                big = true;
            }
        }
        i += 1;
    }
    assert(d@.take(i as int) =~= d@);
    if big {
        1
    } else if acc == 0xffff_ffff {
        0
    } else {
        (acc + 1) as u32
    }
}

/// The next stem after `s`.
fn next_copy_stem_exec(s: &Vec<char>) -> (r: Vec<char>)
    ensures
        r@ == next_copy_stem(s@),
{
    let title = vec!['_', 'C', 'o', 'p', 'y'];
    assert(title@ =~= copy_title());
    match copy_match_exec(s) {
        Some((o, d)) => {
            proof {
                lemma_copy_match_digits(s@, s@.len() - 5);
            }
            let k = next_index_exec(&d);
            let mut r = o;
            extend_chars(&mut r, &title);
            if k != 0 {
                push_decimal(&mut r, k);
            }
            assert(r@ =~= o@ + copy_title() + index_text(k as nat));
            r
        },
        None => {
            let mut r = s.clone();
            extend_chars(&mut r, &title);
            r
        },
    }
}

proof fn lemma_copy_match_digits(s: Seq<char>, pos: int)
    ensures
        copy_match_from(s, pos) matches Some((o, d)) ==> all_digits(d),
    decreases pos,
{
    if pos >= 1 && !(is_copy_at(s, pos) && no_newline(s.take(pos)) && all_digits(s.skip(pos + 5))) {
        lemma_copy_match_digits(s, pos - 1);
    }
}

/// The next file name after `n`.
fn next_copy_name_exec(n: &Vec<char>) -> (r: Vec<char>)
    ensures
        r@ == next_copy_name(n@),
{
    let (stem, ext) = split_stem_ext(n);
    let ns = next_copy_stem_exec(&stem);
    with_ext_exec(&ns, &ext)
}

/// Search for a free name for `path`, avoiding the paths in `taken`
/// (the views of the vectors, all of which are taken).
fn unique_search(path: &Vec<char>, taken: &Vec<Vec<char>>) -> (r: Vec<char>)
    ensures
        unique_answer(path@, views(taken@).to_set(), r@),
{
    let ghost ex = views(taken@).to_set();
    let name0 = file_name_of(path);
    let dir = if name0.len() > 0 {
        parent_of(path)
    } else {
        path.clone()
    };
    assert(dir@ == merge_dir_of(path@));
    let mut current = path.clone();
    let mut name = name0.clone();
    let mut visited: Vec<Vec<char>> = Vec::new();
    let ghost mut t: nat = 0;
    proof {
        vstd::seq_lib::seq_to_set_is_finite(views(taken@));
        views(taken@).lemma_cardinality_of_set();
    }
    loop
        invariant
            ex == views(taken@).to_set(),
            ex.finite(),
            ex.len() <= taken.len(),
            dir@ == merge_dir_of(path@),
            name0@ == path_file_name(path@),
            current@ == unique_candidate(path@, t),
            t >= 1 ==> name@ == copy_name_chain(name0@, t),
            t == 0 ==> name@ == name0@,
            visited.len() == t,
            forall|u: int| 0 <= u < t ==> (#[trigger] views(visited@)[u]) == unique_candidate(path@, u as nat),
            forall|u: nat| u < t ==> ex.contains(#[trigger] unique_candidate(path@, u)),
            views(visited@).no_duplicates(),
        decreases taken.len() - visited.len(),
    {
        if !contains_view(taken, &current) {
            proof {
                assert(views(taken@).contains(current@) == ex.contains(current@));
                assert(unique_exit(path@, ex, t));
            }
            return current;
        }
        assert(ex.contains(current@));
        if contains_view(&visited, &current) {
            proof {
                let a = choose|a: int| 0 <= a < views(visited@).len() && views(visited@)[a] == current@;
                assert(unique_candidate(path@, a as nat) == unique_candidate(path@, t));
                assert forall|u: nat| u <= t implies ex.contains(#[trigger] unique_candidate(path@, u)) by {}
                assert(unique_cycles(path@, ex));
            }
            return current;
        }
        proof {
            let vs = views(visited@).push(current@);
            assert forall|i: int, j: int| 0 <= i < vs.len() && 0 <= j < vs.len() && i != j implies vs[i]
                != vs[j] by {
                if i == t as int {
                    assert(vs[j] == views(visited@)[j]);
                } else if j == t as int {
                    assert(vs[i] == views(visited@)[i]);
                } else {
                    assert(vs[i] == views(visited@)[i] && vs[j] == views(visited@)[j]);
                }
            }
            assert(vs.to_set().subset_of(ex));
            vs.unique_seq_to_set();
            vstd::set_lib::lemma_len_subset(vs.to_set(), ex);
        }
        let ghost before = views(visited@);
        visited.push(current.clone());
        assert(views(visited@) =~= before.push(current@));
        proof {
            assert(copy_name_chain(name0@, 0) == name0@);
            assert(name@ == copy_name_chain(name0@, t));
            assert(copy_name_chain(name0@, (t + 1) as nat) == next_copy_name(
                copy_name_chain(name0@, t),
            ));
        }
        name = next_copy_name_exec(&name);
        current = join_exec(&dir, &name);
        proof {
            t = t + 1;
        }
    }
}

/// Find a unique file name by appending `_Copy`, `_Copy1`, `_Copy2`, ... to
/// the stem until the path is not among `existing` (the paths present on
/// disk).
pub fn unique_file_name(path: &str, existing: &Vec<String>) -> (r: String)
    ensures
        unique_answer(path@, existing_set(existing@), r@),
        existing@.len() < 0x1_0000_0000 ==> !existing_set(existing@).contains(r@),
{
    let p = chars_of(path);
    let taken = string_views(existing);
    let r = string_from_chars(&unique_search(&p, &taken));
    proof {
        lemma_free_when_few(path@, existing@.map_values(|s: String| s@), r@);
    }
    r
}

/// Like [`unique_file_name`] but also avoids any path in `taken` (used by
/// dry-run merges, where the disk does not yet reflect earlier moves).
pub fn unique_file_name_avoiding(path: &str, existing: &Vec<String>, taken: &Vec<String>) -> (r:
    String)
    ensures
        unique_answer(path@, existing_set(existing@).union(existing_set(taken@)), r@),
        existing@.len() + taken@.len() < 0x1_0000_0000 ==> !existing_set(existing@).union(
            existing_set(taken@),
        ).contains(r@),
{
    let p = chars_of(path);
    let mut all = string_views(existing);
    let t = string_views(taken);
    let ghost a = views(all@);
    let ghost b = views(t@);
    let mut j: usize = 0;
    while j < t.len()
        invariant
            j <= t.len(),
            b == views(t@),
            views(all@) == a + b.take(j as int),
        decreases t.len() - j,
    {
        let ghost pre = views(all@);
        all.push(t[j].clone());
        assert(views(all@) =~= pre.push(t@[j as int]@));
        assert(b.take(j + 1) =~= b.take(j as int).push(b[j as int]));
        j += 1;
    }
    proof {
        assert(b.take(j as int) =~= b);
        assert(views(all@).to_set() =~= existing_set(existing@).union(existing_set(taken@))) by {
            assert forall|y: Seq<char>| (a + b).contains(y) <==> (a.contains(y) || b.contains(y)) by {
                if (a + b).contains(y) {
                    let q = choose|q: int| 0 <= q < (a + b).len() && (a + b)[q] == y;
                    if q < a.len() {
                        assert(a[q] == y);
                    } else {
                        assert(b[q - a.len()] == y);
                    }
                }
                if a.contains(y) {
                    let q = choose|q: int| 0 <= q < a.len() && a[q] == y;
                    assert((a + b)[q] == y);
                }
                if b.contains(y) {
                    let q = choose|q: int| 0 <= q < b.len() && b[q] == y;
                    assert((a + b)[q + a.len()] == y);
                }
            }
        }
    }
    let r = string_from_chars(&unique_search(&p, &all));
    proof {
        lemma_free_when_few(path@, views(all@), r@);
    }
    r
}

/// The answer for a list of taken paths shorter than 2^32 is free.
proof fn lemma_free_when_few(p: Seq<char>, taken: Seq<Seq<char>>, r: Seq<char>)
    requires
        unique_answer(p, taken.to_set(), r),
    ensures
        taken.len() < 0x1_0000_0000 ==> !taken.to_set().contains(r),
{
    vstd::seq_lib::seq_to_set_is_finite(taken);
    taken.lemma_cardinality_of_set();
    if taken.len() < 0x1_0000_0000 {
        crate::merge_laws::law_unique_name_is_free(p, taken.to_set(), r);
    }
}

/// Views of strings as character vectors.
fn string_views(v: &Vec<String>) -> (r: Vec<Vec<char>>)
    ensures
        views(r@) == v@.map_values(|s: String| s@),
{
    let mut r: Vec<Vec<char>> = Vec::new();
    let mut i: usize = 0;
    while i < v.len()
        invariant
            i <= v.len(),
            views(r@) == v@.map_values(|s: String| s@).take(i as int),
        decreases v.len() - i,
    {
        let c = chars_of(v[i].as_str());
        let ghost pre = views(r@);
        r.push(c);
        assert(views(r@) =~= pre.push(c@));
        i += 1;
        assert(views(r@) =~= v@.map_values(|s: String| s@).take(i as int));
    }
    assert(v@.map_values(|s: String| s@).take(i as int) =~= v@.map_values(|s: String| s@));
    r
}

/// `path` relative to directory `dir` (`Path::strip_prefix` for paths
/// spelled under `dir`), if it lies under it.
pub open spec fn strip_dir(path: Seq<char>, dir: Seq<char>) -> Option<Seq<char>> {
    let d = dir_prefix(dir);
    if d.len() <= path.len() && path.take(d.len() as int) == d {
        Some(path.skip(d.len() as int))
    } else {
        None
    }
}

/// The name of the metadata files that a merge leaves behind.
pub open spec fn ignored_stem() -> Seq<char> {
    seq!['.', 'D', 'S', '_', 'S', 't', 'o', 'r', 'e']
}

/// `path` (a file of the merge source `source`) is not moved.
pub open spec fn is_ignored_on_merge(path: Seq<char>) -> bool {
    name_stem(path_file_name(path)) == ignored_stem()
}

/// Only metadata files named `.DS_Store` (with any extension) stay behind
/// in a merge: a file of the source with any other stem, dotfiles such as
/// `.env` included, is not ignored, so [`merge_destination`] answers a move
/// of that very path.
pub proof fn law_only_ds_store_stays(path: Seq<char>)
    ensures
        is_ignored_on_merge(path) <==> name_stem(path_file_name(path)) == seq![
            '.',
            'D',
            'S',
            '_',
            'S',
            't',
            'o',
            'r',
            'e',
        ],
{
}

fn dir_prefix_exec(p: &Vec<char>) -> (r: Vec<char>)
    ensures
        r@ == dir_prefix(p@),
{
    if p.len() == 0 {
        Vec::new()
    } else if p[p.len() - 1] == '/' {
        p.clone()
    } else {
        let mut r = p.clone();
        r.push('/');
        r
    }
}

/// Where one file of a merge goes.
///
/// The paths a merge destination must avoid: those on disk, and in a dry
/// run also those chosen earlier in the same merge.
pub open spec fn merge_taken(existing: Seq<String>, planned: Seq<String>, dry_run: bool) -> Set<
    Seq<char>,
> {
    if dry_run {
        existing_set(existing).union(existing_set(planned))
    } else {
        existing_set(existing)
    }
}

/// `path` is a file found under the source directory `source`; it moves to
/// the same relative place under `target`, with a `_Copy` suffix when that
/// place is taken. Taken means listed in `existing` (what is on disk), and,
/// in a dry run, also listed in `planned` (destinations chosen earlier in
/// the same merge). `.DS_Store` files are not moved (`Ok(None)`). A path
/// that does not lie under `source` is invalid input.
pub fn merge_destination(
    target: &str,
    source: &str,
    path: &str,
    existing: &Vec<String>,
    planned: &Vec<String>,
    dry_run: bool,
) -> (r: Result<Option<MergeMove>, FrenError>)
    ensures
        is_ignored_on_merge(path@) ==> r == Ok::<Option<MergeMove>, FrenError>(None),
        !is_ignored_on_merge(path@) ==> match strip_dir(path@, source@) {
            None => match r {
                Err(FrenError::InvalidInput(m)) => m@ == "path "@ + path@ + " not under source "@
                    + source@,
                _ => false,
            },
            Some(rel) => match r {
                Ok(Some(mv)) => mv.from@ == path@ && unique_answer(
                    join_path(target@, rel),
                    merge_taken(existing@, planned@, dry_run),
                    mv.to@,
                ),
                _ => false,
            },
        },
        r matches Ok(Some(mv)) ==> (existing@.len() + planned@.len() < 0x1_0000_0000
            ==> !merge_taken(existing@, planned@, dry_run).contains(mv.to@)),
{
    let p = chars_of(path);
    let name = file_name_of(&p);
    let (stem, _ext) = split_stem_ext(&name);
    let ign = vec!['.', 'D', 'S', '_', 'S', 't', 'o', 'r', 'e'];
    assert(ign@ =~= ignored_stem());
    if chars_eq(&stem, &ign) {
        return Ok(None);
    }
    let src = chars_of(source);
    let d = dir_prefix_exec(&src);
    let mut under = d.len() <= p.len();
    if under {
        let mut i: usize = 0;
        while i < d.len()
            invariant
                i <= d.len() <= p.len(),
                under == (forall|q: int| 0 <= q < i ==> p@[q] == d@[q]),
            decreases d.len() - i,
        {
            if p[i] != d[i] {
                under = false;
            }
            i += 1;
        }
        proof {
            if under {
                assert(p@.take(d.len() as int) =~= d@);
            } else {
                let q = choose|q: int| 0 <= q < d.len() && p@[q] != d@[q];
                assert(p@.take(d.len() as int)[q] != d@[q]);
            }
        }
    }
    if !under {
        let mut m = chars_of("path ");
        extend_chars(&mut m, &p);
        let mid = chars_of(" not under source ");
        extend_chars(&mut m, &mid);
        extend_chars(&mut m, &src);
        return Err(FrenError::InvalidInput(string_from_chars(&m)));
    }
    let rel = crate::text::sub_chars(&p, d.len(), p.len());
    assert(rel@ =~= p@.skip(d.len() as int));
    let t = chars_of(target);
    let naive = join_exec(&t, &rel);
    let naive_s = string_from_chars(&naive);
    let dest = if dry_run {
        unique_file_name_avoiding(naive_s.as_str(), existing, planned)
    } else {
        unique_file_name(naive_s.as_str(), existing)
    };
    Ok(Some(MergeMove { from: path.to_string(), to: dest }))
}

/// A path that is free is kept as it is.
pub proof fn law_free_path_is_kept(p: Seq<char>, ex: Set<Seq<char>>, r: Seq<char>)
    requires
        unique_answer(p, ex, r),
        !ex.contains(p),
    ensures
        r == p,
{
    if unique_cycles(p, ex) {
        let (a, b) = choose|a: nat, b: nat|
            a < b && (forall|u: nat| u <= b ==> ex.contains(#[trigger] unique_candidate(p, u)))
                && unique_candidate(p, a) == unique_candidate(p, b);
        assert(ex.contains(unique_candidate(p, 0)));
    }
    let t = choose|t: nat| unique_exit(p, ex, t) && r == unique_candidate(p, t);
    if t > 0 {
        assert(ex.contains(unique_candidate(p, 0)));
    }
}

} // verus!
