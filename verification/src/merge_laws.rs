//! Why the search for a free `_Copy` name ends at a free path: the
//! candidates it tries are pairwise distinct until the index wraps, which
//! takes 2^32 of them.
use vstd::prelude::*;
use crate::merge::{
    copy_match, copy_match_from, copy_name_chain, copy_title, copy_word, index_text, is_copy_at,
    merge_dir_of, next_copy_name, next_copy_stem, next_index, no_newline, unique_answer,
    unique_candidate, unique_cycles,
};
use crate::plan::laws::{dir_prefix, lemma_file_name_no_slash, lemma_join_prefix, no_slash};
use crate::plan::naming::{lemma_decimal_value, lemma_join_injective};
use crate::plan::paths::{
    dotless_tail, join_path, last_index_of, lemma_last_index_of, lemma_name_parts,
    lemma_split_with_ext, lemma_with_ext_injective, name_ext, name_stem, no_dot, path_file_name,
    with_ext,
};
use crate::text::{all_digits, is_digit, is_upper, lower_char, trim_end};

verus! {

/// A text that can stand before `_copy` in a match: not empty, no newline.
pub open spec fn valid_orig(a: Seq<char>) -> bool {
    a.len() > 0 && no_newline(a)
}

proof fn lemma_index_text_digits(k: nat)
    ensures
        all_digits(index_text(k)),
{
    if k > 0 {
        lemma_decimal_value(k);
    }
}

proof fn lemma_not_copy_at(s: Seq<char>, q: int)
    requires
        0 <= q < s.len(),
        s[q] != '_',
    ensures
        !is_copy_at(s, q),
{
    if is_copy_at(s, q) {
        assert(lower_char(s[q + 0]) == copy_word()[0]);
        assert(!is_upper(s[q]) ==> lower_char(s[q]) == s[q]);
    }
}

/// Scanning down from `pos` to `lo` finds nothing when no start in
/// `(lo, pos]` matches.
proof fn lemma_scan_skip(s: Seq<char>, pos: int, lo: int)
    requires
        0 <= lo <= pos,
        forall|q: int| lo < q <= pos ==> !is_copy_at(s, q),
    ensures
        copy_match_from(s, pos) == copy_match_from(s, lo),
    decreases pos - lo,
{
    if pos > lo {
        lemma_scan_skip(s, pos - 1, lo);
    }
}

proof fn lemma_scan_none(s: Seq<char>, pos: int)
    requires
        forall|q: int|
            1 <= q <= pos ==> !(is_copy_at(s, q) && no_newline(s.take(q)) && all_digits(
                s.skip(q + 5),
            )),
    ensures
        copy_match_from(s, pos) is None,
    decreases pos,
{
    if pos >= 1 {
        lemma_scan_none(s, pos - 1);
    }
}

/// `{a}_Copy{x}` with a valid `a` and digits `x` matches with `a` and `x`.
pub proof fn lemma_match_canonical(a: Seq<char>, x: Seq<char>)
    requires
        valid_orig(a),
        all_digits(x),
    ensures
        copy_match(a + copy_title() + x) == Some((a, x)),
{
    let s = a + copy_title() + x;
    let p = a.len() as int;
    assert forall|q: int| p < q <= s.len() - 5 implies !is_copy_at(s, q) by {
        if q < p + 5 {
            assert(s[q] == copy_title()[q - p]);
        } else {
            assert(s[q] == x[q - p - 5]);
            assert(is_digit(x[q - p - 5]));
        }
        lemma_not_copy_at(s, q);
    }
    lemma_scan_skip(s, s.len() - 5, p);
    assert(is_copy_at(s, p)) by {
        assert forall|j: int| 0 <= j < 5 implies lower_char(#[trigger] s[p + j]) == copy_word()[j] by {
            assert(s[p + j] == copy_title()[j]);
        }
    }
    assert(s.take(p) =~= a);
    assert(s.skip(p + 5) =~= x);
}

/// `{a}_Copy{x}` with an empty `a`, or an `a` holding a newline, matches
/// nothing.
pub proof fn lemma_match_none(a: Seq<char>, x: Seq<char>)
    requires
        !valid_orig(a),
        all_digits(x),
    ensures
        copy_match(a + copy_title() + x) is None,
{
    let s = a + copy_title() + x;
    let p = a.len() as int;
    assert forall|q: int|
        1 <= q <= s.len() - 5 implies !(is_copy_at(s, q) && no_newline(s.take(q)) && all_digits(
        s.skip(q + 5),
    )) by {
        if a.len() == 0 {
            if q < 5 {
                assert(s[q] == copy_title()[q]);
            } else {
                assert(s[q] == x[q - 5]);
                assert(is_digit(x[q - 5]));
            }
            lemma_not_copy_at(s, q);
        } else {
            let w = choose|w: int| 0 <= w < a.len() && a[w] == '\n';
            assert(s[w] == '\n');
            if q > w {
                assert(s.take(q)[w] == '\n');
            } else if w < q + 5 {
                if is_copy_at(s, q) {
                    assert(lower_char(s[q + (w - q)]) == copy_word()[w - q]);
                }
            } else {
                assert(s.skip(q + 5)[w - q - 5] == '\n');
            }
        }
    }
    lemma_scan_none(s, s.len() - 5);
}

/// `s` is `{a}_Copy{k}` (index 0 written as nothing) with a valid `a`.
pub open spec fn canonical(s: Seq<char>, a: Seq<char>, k: nat) -> bool {
    valid_orig(a) && k < 0x1_0000_0000 && s == a + copy_title() + index_text(k)
}

/// `s` is `{a}_Copy{digits}` where `a` holds a newline: each step only
/// appends `_Copy`.
pub open spec fn appending(s: Seq<char>) -> bool {
    exists|a: Seq<char>, x: Seq<char>|
        a.len() > 0 && !no_newline(a) && all_digits(x) && s == a + copy_title() + x
}

pub open spec fn regular(s: Seq<char>) -> bool {
    (exists|a: Seq<char>, k: nat| canonical(s, a, k)) || appending(s)
}

/// The stem after `j` steps.
pub open spec fn stem_iter(s: Seq<char>, j: nat) -> Seq<char>
    decreases j,
{
    if j == 0 {
        s
    } else {
        next_copy_stem(stem_iter(s, (j - 1) as nat))
    }
}

proof fn lemma_next_index_of_text(k: nat)
    requires
        k < 0x1_0000_0000,
    ensures
        next_index(index_text(k)) == (k + 1) % 0x1_0000_0000,
{
    if k > 0 {
        lemma_decimal_value(k);
    }
}

proof fn lemma_next_canonical(s: Seq<char>, a: Seq<char>, k: nat)
    requires
        canonical(s, a, k),
    ensures
        canonical(next_copy_stem(s), a, ((k + 1) % 0x1_0000_0000) as nat),
{
    lemma_index_text_digits(k);
    lemma_match_canonical(a, index_text(k));
    lemma_next_index_of_text(k);
}

proof fn lemma_next_appending(s: Seq<char>)
    requires
        appending(s),
    ensures
        appending(next_copy_stem(s)),
        next_copy_stem(s) == s + copy_title(),
{
    let (a, x) = choose|a: Seq<char>, x: Seq<char>|
        a.len() > 0 && !no_newline(a) && all_digits(x) && s == a + copy_title() + x;
    lemma_match_none(a, x);
    let n = next_copy_stem(s);
    assert(n =~= s + copy_title() + index_text(0));
    assert(!no_newline(s)) by {
        let w = choose|w: int| 0 <= w < a.len() && a[w] == '\n';
        assert(s[w] == '\n');
    }
    lemma_index_text_digits(0);
}

/// The step produces `{a}_Copy{index}` for some `a` that is `s` or a
/// prefix of `s`.
pub proof fn lemma_next_stem_shape(s: Seq<char>)
    ensures
        exists|a: Seq<char>, k: nat|
            k < 0x1_0000_0000 && a.len() <= s.len() && a == s.take(a.len() as int)
                && next_copy_stem(s) == a + copy_title() + index_text(k),
{
    match copy_match(s) {
        Some((o, d)) => {
            lemma_copy_match_parts(s, s.len() - 5);
            let k = next_index(d);
            assert(k < 0x1_0000_0000);
            assert(next_copy_stem(s) == o + copy_title() + index_text(k));
        },
        None => {
            assert(next_copy_stem(s) =~= s + copy_title() + index_text(0));
            assert(s.take(s.len() as int) =~= s);
        },
    }
}

proof fn lemma_copy_match_parts(s: Seq<char>, pos: int)
    ensures
        copy_match_from(s, pos) matches Some((o, d)) ==> o.len() <= s.len() && o == s.take(
            o.len() as int,
        ),
    decreases pos,
{
    if pos >= 1 {
        if is_copy_at(s, pos) && no_newline(s.take(pos)) && all_digits(s.skip(pos + 5)) {
            assert(s.take(pos).len() == pos);
            assert(s.take(pos) =~= s.take(s.take(pos).len() as int));
        } else {
            lemma_copy_match_parts(s, pos - 1);
        }
    }
}

/// After two steps any stem is regular; regular stems stay regular.
pub proof fn lemma_regular_after_two(s: Seq<char>)
    ensures
        regular(next_copy_stem(next_copy_stem(s))),
{
    lemma_next_stem_shape(s);
    let (a, k) = choose|a: Seq<char>, k: nat|
        k < 0x1_0000_0000 && a.len() <= s.len() && a == s.take(a.len() as int)
            && next_copy_stem(s) == a + copy_title() + index_text(k);
    let s1 = next_copy_stem(s);
    lemma_index_text_digits(k);
    if valid_orig(a) {
        assert(canonical(s1, a, k));
        lemma_next_canonical(s1, a, k);
    } else if a.len() > 0 {
        assert(appending(s1));
        lemma_next_appending(s1);
    } else {
        lemma_match_none(a, index_text(k));
        let a2 = copy_title() + index_text(k);
        assert(no_newline(a2)) by {
            assert forall|j: int| 0 <= j < a2.len() implies a2[j] != '\n' by {
                if j >= 5 {
                    assert(is_digit(index_text(k)[j - 5]));
                }
            }
        }
        assert(s1 =~= a2);
        assert(next_copy_stem(s1) =~= a2 + copy_title() + index_text(0));
        assert(canonical(next_copy_stem(s1), a2, 0));
    }
}

/// Regular stems do not repeat within 2^32 steps.
pub proof fn lemma_regular_distinct(s: Seq<char>, i: nat, j: nat)
    requires
        regular(s),
        i < j,
        j - i < 0x1_0000_0000,
    ensures
        stem_iter(s, i) != stem_iter(s, j),
{
    if exists|a: Seq<char>, k: nat| canonical(s, a, k) {
        let (a, k) = choose|a: Seq<char>, k: nat| canonical(s, a, k);
        lemma_canonical_iter(s, a, k, i);
        lemma_canonical_iter(s, a, k, j);
        let ki = ((k + i) % 0x1_0000_0000) as nat;
        let kj = ((k + j) % 0x1_0000_0000) as nat;
        assert(ki != kj) by (nonlinear_arith)
            requires
                ki == (k + i) % 0x1_0000_0000,
                kj == (k + j) % 0x1_0000_0000,
                i < j,
                j - i < 0x1_0000_0000,
        ;
        if stem_iter(s, i) == stem_iter(s, j) {
            let p = a + copy_title();
            assert(stem_iter(s, i) =~= p + index_text(ki));
            assert(stem_iter(s, j) =~= p + index_text(kj));
            assert(index_text(ki) =~= stem_iter(s, i).skip(p.len() as int));
            assert(index_text(kj) =~= stem_iter(s, j).skip(p.len() as int));
            if ki > 0 && kj > 0 {
                crate::plan::naming::lemma_decimal_injective(ki, kj);
            } else if ki > 0 {
                lemma_decimal_value(ki);
            } else {
                lemma_decimal_value(kj);
            }
        }
    } else {
        lemma_appending_iter(s, i);
        lemma_appending_iter(s, j);
    }
}

proof fn lemma_canonical_iter(s: Seq<char>, a: Seq<char>, k: nat, j: nat)
    requires
        canonical(s, a, k),
    ensures
        canonical(stem_iter(s, j), a, ((k + j) % 0x1_0000_0000) as nat),
    decreases j,
{
    if j > 0 {
        lemma_canonical_iter(s, a, k, (j - 1) as nat);
        let k1 = ((k + (j - 1)) % 0x1_0000_0000) as nat;
        lemma_next_canonical(stem_iter(s, (j - 1) as nat), a, k1);
        assert(((k1 + 1) % 0x1_0000_0000) == ((k + j) % 0x1_0000_0000)) by (nonlinear_arith)
            requires
                k1 == (k + (j - 1)) % 0x1_0000_0000,
                j > 0,
        ;
    }
}

proof fn lemma_appending_iter(s: Seq<char>, j: nat)
    requires
        appending(s),
    ensures
        appending(stem_iter(s, j)),
        stem_iter(s, j).len() == s.len() + 5 * j,
    decreases j,
{
    if j > 0 {
        lemma_appending_iter(s, (j - 1) as nat);
        lemma_next_appending(stem_iter(s, (j - 1) as nat));
    }
}

/// What a step keeps: the new stem is at least `_Copy` long, does not end
/// in `.`, and gains no `.` past its first character and no `/`.
proof fn lemma_next_keeps(s: Seq<char>)
    ensures
        next_copy_stem(s).len() >= 5,
        next_copy_stem(s).last() != '.',
        dotless_tail(s) ==> dotless_tail(next_copy_stem(s)),
        no_slash(s) ==> no_slash(next_copy_stem(s)),
{
    lemma_next_stem_shape(s);
    let (a, k) = choose|a: Seq<char>, k: nat|
        k < 0x1_0000_0000 && a.len() <= s.len() && a == s.take(a.len() as int)
            && next_copy_stem(s) == a + copy_title() + index_text(k);
    lemma_index_text_digits(k);
    let n = next_copy_stem(s);
    assert forall|j: int| a.len() <= j < n.len() implies n[j] != '.' && n[j] != '/' by {
        if j < a.len() + 5 {
            assert(n[j] == copy_title()[j - a.len()]);
        } else {
            assert(n[j] == index_text(k)[j - a.len() - 5]);
            assert(is_digit(index_text(k)[j - a.len() - 5]));
        }
    }
    assert forall|j: int| 0 <= j < a.len() implies n[j] == s[j] by {
        assert(n[j] == a[j]);
    }
    assert(n.last() == n[n.len() - 1]);
}

/// The first `_Copy` name splits back into its stem and extension.
proof fn lemma_first_name(n0: Seq<char>)
    requires
        no_slash(n0),
    ensures
        ({
            let n1 = next_copy_name(n0);
            &&& n1 == with_ext(name_stem(n1), name_ext(n1))
            &&& no_slash(name_stem(n1))
            &&& no_slash(name_ext(n1))
            &&& no_dot(name_ext(n1))
            &&& name_ext(n1).len() == 0 ==> dotless_tail(name_stem(n1))
        }),
{
    lemma_name_parts(n0);
    let s0 = name_stem(n0);
    let e0 = name_ext(n0);
    let st = next_copy_stem(s0);
    lemma_next_keeps(s0);
    let n1 = next_copy_name(n0);
    assert(no_slash(n1)) by {
        if e0.len() > 0 {
            assert forall|j: int| 0 <= j < n1.len() implies n1[j] != '/' by {
                if j < st.len() {
                    assert(n1[j] == st[j]);
                } else if j > st.len() {
                    assert(n1[j] == e0[j - st.len() - 1]);
                }
            }
        }
    }
    assert(n1.last() != '.') by {
        if e0.len() > 0 {
            assert(n1.last() == e0[e0.len() - 1]);
        }
    }
    lemma_name_parts(n1);
}

pub open spec fn first_copy_stem(p: Seq<char>) -> Seq<char> {
    name_stem(next_copy_name(path_file_name(p)))
}

pub open spec fn copy_ext(p: Seq<char>) -> Seq<char> {
    name_ext(next_copy_name(path_file_name(p)))
}

/// From the first `_Copy` name on, each name is the stem after `u` more
/// steps with the same extension.
proof fn lemma_chain(n1: Seq<char>, s1: Seq<char>, e1: Seq<char>, u: nat)
    requires
        n1 == with_ext(s1, e1),
        s1 == name_stem(n1),
        e1 == name_ext(n1),
        no_slash(s1),
        no_slash(e1),
        no_dot(e1),
        e1.len() == 0 ==> dotless_tail(s1),
    ensures
        copy_name_chain(n1, u) == with_ext(stem_iter(s1, u), e1),
        no_slash(stem_iter(s1, u)),
        e1.len() == 0 ==> dotless_tail(stem_iter(s1, u)),
        u >= 1 ==> stem_iter(s1, u).len() >= 5,
    decreases u,
{
    if u > 0 {
        lemma_chain(n1, s1, e1, (u - 1) as nat);
        let st = stem_iter(s1, (u - 1) as nat);
        if u >= 2 {
            lemma_split_with_ext(st, e1);
        }
        lemma_next_keeps(st);
    }
}

proof fn lemma_chain_shift(n0: Seq<char>, u: nat)
    ensures
        copy_name_chain(n0, u + 1) == copy_name_chain(copy_name_chain(n0, 1), u),
    decreases u,
{
    if u > 0 {
        lemma_chain_shift(n0, (u - 1) as nat);
    }
}

/// The last component of `d` joined with a name is that name.
proof fn lemma_file_name_of_join(d: Seq<char>, n: Seq<char>)
    requires
        no_slash(n),
        n.len() > 2,
    ensures
        path_file_name(join_path(d, n)) == n,
{
    lemma_join_prefix(d, n);
    let pre = dir_prefix(d);
    let j = pre + n;
    assert(j.last() == n[n.len() - 1]);
    assert(trim_end(j, '/') == j);
    lemma_last_index_of(j, '/');
    let li = last_index_of(j, '/');
    if li >= pre.len() {
        assert(j[li] == n[li - pre.len()]);
    }
    if pre.len() > 0 {
        assert(pre.last() == '/');
        assert(j[pre.len() - 1] == '/');
    }
    assert(li == pre.len() - 1);
    assert(j.skip(li + 1) =~= n);
}

/// Candidate `t >= 1` is the directory joined with the stem after `t - 1`
/// further steps and the extension.
proof fn lemma_candidate_form(p: Seq<char>, t: nat)
    requires
        t >= 1,
    ensures
        copy_name_chain(path_file_name(p), t) == with_ext(
            stem_iter(first_copy_stem(p), (t - 1) as nat),
            copy_ext(p),
        ),
        unique_candidate(p, t) == join_path(
            merge_dir_of(p),
            copy_name_chain(path_file_name(p), t),
        ),
        no_slash(copy_name_chain(path_file_name(p), t)),
        copy_name_chain(path_file_name(p), t).len() >= 5,
{
    let n0 = path_file_name(p);
    lemma_file_name_no_slash(p);
    lemma_first_name(n0);
    let n1 = next_copy_name(n0);
    let s1 = first_copy_stem(p);
    let e1 = copy_ext(p);
    lemma_chain_shift(n0, (t - 1) as nat);
    assert(copy_name_chain(n0, 1) == next_copy_name(copy_name_chain(n0, 0)));
    lemma_chain(n1, s1, e1, (t - 1) as nat);
    let st = stem_iter(s1, (t - 1) as nat);
    let n = with_ext(st, e1);
    assert forall|j: int| 0 <= j < n.len() implies n[j] != '/' by {
        if e1.len() > 0 {
            if j < st.len() {
                assert(n[j] == st[j]);
            } else if j > st.len() {
                assert(n[j] == e1[j - st.len() - 1]);
            }
        }
    }
    let prev = copy_name_chain(n0, (t - 1) as nat);
    lemma_next_keeps(name_stem(prev));
}

proof fn lemma_stem_iter_shift(s: Seq<char>, a: nat, b: nat)
    ensures
        stem_iter(s, a + b) == stem_iter(stem_iter(s, a), b),
    decreases b,
{
    if b > 0 {
        lemma_stem_iter_shift(s, a, (b - 1) as nat);
        assert(stem_iter(s, a + b) == next_copy_stem(stem_iter(s, (a + b - 1) as nat)));
    }
}

/// Stems two or more steps on do not repeat within 2^32 steps.
proof fn lemma_later_stems_differ(s: Seq<char>, i: nat, j: nat)
    requires
        i < j,
        j - i < 0x1_0000_0000,
    ensures
        stem_iter(s, i + 2) != stem_iter(s, j + 2),
{
    lemma_regular_after_two(s);
    let r = stem_iter(s, 2);
    assert(r == next_copy_stem(next_copy_stem(s))) by {
        assert(stem_iter(s, 1) == next_copy_stem(stem_iter(s, 0)));
    }
    lemma_stem_iter_shift(s, 2, i);
    lemma_stem_iter_shift(s, 2, j);
    lemma_regular_distinct(r, i, j);
}

/// Equal stems stay equal over the same number of further steps.
proof fn lemma_stems_agree(s: Seq<char>, i: nat, j: nat, c: nat)
    requires
        stem_iter(s, i) == stem_iter(s, j),
    ensures
        stem_iter(s, i + c) == stem_iter(s, j + c),
{
    lemma_stem_iter_shift(s, i, c);
    lemma_stem_iter_shift(s, j, c);
}

/// The candidates after the first are pairwise distinct within 2^32 of
/// each other.
proof fn lemma_candidates_differ(p: Seq<char>, a: nat, b: nat)
    requires
        1 <= a < b,
        b - a < 0x1_0000_0000,
    ensures
        unique_candidate(p, a) != unique_candidate(p, b),
{
    lemma_candidate_form(p, a);
    lemma_candidate_form(p, b);
    let n0 = path_file_name(p);
    let na = copy_name_chain(n0, a);
    let nb = copy_name_chain(n0, b);
    if unique_candidate(p, a) == unique_candidate(p, b) {
        if na.len() > 0 {
            assert(na[0] != '/');
        }
        if nb.len() > 0 {
            assert(nb[0] != '/');
        }
        lemma_join_injective(merge_dir_of(p), na, nb);
        let s1 = first_copy_stem(p);
        lemma_with_ext_injective(stem_iter(s1, (a - 1) as nat), stem_iter(s1, (b - 1) as nat), copy_ext(p));
        lemma_stems_agree(s1, (a - 1) as nat, (b - 1) as nat, 2);
        lemma_later_stems_differ(s1, (a - 1) as nat, (b - 1) as nat);
    }
}

/// While fewer than 2^32 paths are taken, the `_Copy` candidates cannot
/// cycle.
pub proof fn lemma_no_cycle(p: Seq<char>, ex: Set<Seq<char>>)
    requires
        ex.finite(),
        ex.len() < 0x1_0000_0000,
    ensures
        !unique_cycles(p, ex),
{
    if unique_cycles(p, ex) {
        let (a, b) = choose|a: nat, b: nat|
            a < b && (forall|u: nat| u <= b ==> ex.contains(#[trigger] unique_candidate(p, u)))
                && unique_candidate(p, a) == unique_candidate(p, b);
        if b >= 0x1_0000_0000 {
            let cs = Seq::new(0x1_0000_0000, |i: int| unique_candidate(p, (i + 1) as nat));
            assert forall|i: int, j: int| 0 <= i < cs.len() && 0 <= j < cs.len() && i != j implies cs[i]
                != cs[j] by {
                if i < j {
                    lemma_candidates_differ(p, (i + 1) as nat, (j + 1) as nat);
                } else {
                    lemma_candidates_differ(p, (j + 1) as nat, (i + 1) as nat);
                }
            }
            assert(cs.no_duplicates());
            assert forall|x: Seq<char>| cs.to_set().contains(x) implies ex.contains(x) by {
                let i = choose|i: int| 0 <= i < cs.len() && cs[i] == x;
                assert(ex.contains(unique_candidate(p, (i + 1) as nat)));
            }
            cs.unique_seq_to_set();
            vstd::set_lib::lemma_len_subset(cs.to_set(), ex);
        } else if a >= 1 {
            lemma_candidates_differ(p, a, b);
        } else {
            let n0 = path_file_name(p);
            lemma_candidate_form(p, b);
            let nb = copy_name_chain(n0, b);
            lemma_file_name_of_join(merge_dir_of(p), nb);
            assert(n0 == nb);
            let s1 = first_copy_stem(p);
            let e1 = copy_ext(p);
            lemma_candidate_form(p, b + 1);
            lemma_candidate_form(p, 1);
            assert(copy_name_chain(n0, b + 1) == next_copy_name(nb));
            assert(copy_name_chain(n0, 1) == next_copy_name(copy_name_chain(n0, 0)));
            lemma_with_ext_injective(stem_iter(s1, 0), stem_iter(s1, b), e1);
            lemma_stems_agree(s1, 0, b, 2);
            lemma_later_stems_differ(s1, 0, b);
        }
    }
}

/// A destination chosen for a merge is free: it is not among the taken
/// paths, whenever fewer than 2^32 paths are taken.
pub proof fn law_unique_name_is_free(p: Seq<char>, ex: Set<Seq<char>>, r: Seq<char>)
    requires
        unique_answer(p, ex, r),
        ex.finite(),
        ex.len() < 0x1_0000_0000,
    ensures
        !ex.contains(r),
{
    lemma_no_cycle(p, ex);
}

} // verus!
