//! Splitting the pager command line.
use vstd::prelude::*;
use crate::text::{chars_of, string_from_chars, sub_chars};

verus! {

/// The Unicode `White_Space` property.
pub open spec fn is_white_space(c: char) -> bool {
    let u = c as u32;
    (0x09 <= u && u <= 0x0d) || u == 0x20 || u == 0x85 || u == 0xa0 || u == 0x1680 || (0x2000 <= u
        && u <= 0x200a) || u == 0x2028 || u == 0x2029 || u == 0x202f || u == 0x205f || u == 0x3000
}

/// Whether `c` has the Unicode `White_Space` property (what
/// `char::is_whitespace` answers).
fn char_is_whitespace(c: char) -> (b: bool)
    ensures
        b == is_white_space(c),
{
    let u = c as u32;
    (0x09 <= u && u <= 0x0d) || u == 0x20 || u == 0x85 || u == 0xa0 || u == 0x1680 || (0x2000 <= u
        && u <= 0x200a) || u == 0x2028 || u == 0x2029 || u == 0x202f || u == 0x205f || u == 0x3000
}

/// The maximal runs of non-white-space characters of `s[p..]`, in order
/// (`str::split_whitespace`).
pub open spec fn spec_words(s: Seq<char>, p: int) -> Seq<Seq<char>>
    decreases s.len() - p,
{
    if p < 0 || p >= s.len() {
        Seq::empty()
    } else if is_white_space(s[p]) {
        spec_words(s, p + 1)
    } else {
        let e = word_end(s, p);
        if p < e <= s.len() {
            seq![s.subrange(p, e)] + spec_words(s, e)
        } else {
            Seq::empty()
        }
    }
}

/// End of the run of non-white-space characters starting at `p`.
pub open spec fn word_end(s: Seq<char>, p: int) -> int
    decreases s.len() - p,
{
    if 0 <= p < s.len() && !is_white_space(s[p]) {
        word_end(s, p + 1)
    } else {
        p
    }
}

proof fn lemma_word_end(s: Seq<char>, p: int)
    requires
        0 <= p <= s.len(),
    ensures
        p <= word_end(s, p) <= s.len(),
        p < s.len() && !is_white_space(s[p]) ==> p < word_end(s, p),
    decreases s.len() - p,
{
    if p < s.len() && !is_white_space(s[p]) {
        lemma_word_end(s, p + 1);
    }
}

fn words(s: &Vec<char>) -> (r: Vec<Vec<char>>)
    ensures
        r@.len() == spec_words(s@, 0).len(),
        forall|i: int| 0 <= i < r@.len() ==> #[trigger] r@[i]@ == spec_words(s@, 0)[i],
{
    let mut out: Vec<Vec<char>> = Vec::new();
    let mut p: usize = 0;
    while p < s.len()
        invariant
            p <= s.len(),
            out@.map_values(|w: Vec<char>| w@) + spec_words(s@, p as int) == spec_words(s@, 0),
        decreases s.len() - p,
    {
        if char_is_whitespace(s[p]) {
            p += 1;
        } else {
            let mut e = p;
            while e < s.len() && !char_is_whitespace(s[e])
                invariant
                    p <= e <= s.len(),
                    word_end(s@, p as int) == word_end(s@, e as int),
                decreases s.len() - e,
            {
                e += 1;
            }
            proof {
                lemma_word_end(s@, p as int);
            }
            let w = sub_chars(s, p, e);
            let ghost before = out@.map_values(|w: Vec<char>| w@);
            out.push(w);
            assert(out@.map_values(|w: Vec<char>| w@) =~= before.push(s@.subrange(p as int, e as int)));
            assert(before + spec_words(s@, p as int) =~= out@.map_values(|w: Vec<char>| w@)
                + spec_words(s@, e as int));
            p = e;
        }
    }
    assert(spec_words(s@, p as int) =~= Seq::<Seq<char>>::empty());
    assert(out@.map_values(|w: Vec<char>| w@) =~= spec_words(s@, 0));
    assert forall|i: int| 0 <= i < out@.len() implies #[trigger] out@[i]@ == spec_words(s@, 0)[i] by {
        assert(out@.map_values(|w: Vec<char>| w@)[i] == out@[i]@);
    }
    out
}

/// Split a pager string like `"less -FIRX"` into `("less", ["-FIRX"])`:
/// the first white-space-separated word is the command (`less` when there
/// is none), the remaining words are its arguments.
pub fn parse_pager_cmd(pager: &str) -> (r: (String, Vec<String>))
    ensures
        spec_words(pager@, 0).len() == 0 ==> r.0@ == "less"@ && r.1@.len() == 0,
        spec_words(pager@, 0).len() > 0 ==> r.0@ == spec_words(pager@, 0)[0] && r.1@.len()
            == spec_words(pager@, 0).len() - 1 && forall|i: int|
            0 <= i < r.1@.len() ==> #[trigger] r.1@[i]@ == spec_words(pager@, 0)[i + 1],
{
    let s = chars_of(pager);
    let ws = words(&s);
    if ws.len() == 0 {
        return ("less".to_owned(), Vec::new());
    }
    let cmd = string_from_chars(&ws[0]);
    let mut args: Vec<String> = Vec::new();
    let mut i: usize = 1;
    while i < ws.len()
        invariant
            1 <= i <= ws.len(),
            args@.len() == i - 1,
            forall|k: int| 0 <= k < args@.len() ==> #[trigger] args@[k]@ == ws@[k + 1]@,
        decreases ws.len() - i,
    {
        args.push(string_from_chars(&ws[i]));
        i += 1;
    }
    (cmd, args)
}

/// The pager used when `$PAGER` is unset or blank.
pub open spec fn default_pager() -> Seq<char> {
    seq!['l', 'e', 's', 's', ' ', '-', 'F', 'I', 'R', 'X']
}

/// `s` holds a character that is not white space.
pub open spec fn has_non_space(s: Seq<char>) -> bool {
    exists|i: int| 0 <= i < s.len() && !is_white_space(#[trigger] s[i])
}

/// The pager for a value of `$PAGER` (if set): that value when it holds a
/// non-white-space character, else `less -FIRX`.
pub open spec fn pager_choice(env: Option<Seq<char>>) -> Seq<char> {
    match env {
        Some(v) => if has_non_space(v) {
            v
        } else {
            default_pager()
        },
        None => default_pager(),
    }
}

/// The pager command given the value of `$PAGER` (if set): that value when
/// it holds a non-white-space character, else `less -FIRX`.
pub fn resolve_pager(pager_env: Option<&str>) -> (r: String)
    ensures
        r@ == pager_choice(
            match pager_env {
                Some(v) => Some(v@),
                None => None,
            },
        ),
{
    let fallback = vec!['l', 'e', 's', 's', ' ', '-', 'F', 'I', 'R', 'X'];
    assert(fallback@ =~= default_pager());
    match pager_env {
        Some(v) => {
            let cs = chars_of(v);
            let mut i: usize = 0;
            while i < cs.len()
                invariant
                    i <= cs.len(),
                    cs@ == v@,
                    pager_env == Some(v),
                    forall|j: int| 0 <= j < i ==> is_white_space(#[trigger] cs@[j]),
                decreases cs.len() - i,
            {
                if !char_is_whitespace(cs[i]) {
                    assert(!is_white_space(v@[i as int]));
                    assert(has_non_space(v@));
                    return v.to_owned();
                }
                i += 1;
            }
            string_from_chars(&fallback)
        },
        None => string_from_chars(&fallback),
    }
}

} // verus!
