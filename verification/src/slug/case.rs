//! Case-mode handling.
use vstd::prelude::*;
use crate::text::{
    all_ascii, all_ascii_exec, ascii_lower, ascii_lower_exec, ascii_upper, ascii_upper_exec,
    chars_of, is_alnum, is_alnum_exec, is_ascii_char, is_lower, is_upper, lower_char, lower_char_exec, string_from_chars,
    upper_char, upper_char_exec,
};

verus! {

/// How to handle character case in the slugified output.
#[derive(Debug, Clone, Copy, PartialEq, Eq, Structural)]
pub enum CaseMode {
    /// Keep the original case of each character.
    Preserve,
    /// Lowercase the entire string.
    Lower,
    /// Uppercase the entire string.
    Upper,
    /// Title-case: first char of each word uppercase, rest lowercase. Word
    /// boundaries are non-alphanumeric chars and start of string.
    Title,
    /// Synonym for [`CaseMode::Title`].
    Capitalize,
}

/// What `str::to_lowercase` returns (Unicode lowercase mapping).
pub uninterp spec fn unicode_lower(s: Seq<char>) -> Seq<char>;

/// What `str::to_uppercase` returns (Unicode uppercase mapping).
pub uninterp spec fn unicode_upper(s: Seq<char>) -> Seq<char>;

/// Calls `str::to_lowercase`; the result is named, since the Unicode
/// case tables behind it take pages to state.
#[verifier::external_body]
fn str_to_lowercase(s: &str) -> (r: String)
    ensures
        r@ == unicode_lower(s@),
{
    s.to_lowercase()
}

/// Calls `str::to_uppercase`; the result is named, since the Unicode
/// case tables behind it take pages to state.
#[verifier::external_body]
fn str_to_uppercase(s: &str) -> (r: String)
    ensures
        r@ == unicode_upper(s@),
{
    s.to_uppercase()
}

/// Lowercase of a whole string: plain ASCII mapping for ASCII text, the
/// Unicode mapping otherwise.
pub open spec fn spec_lowercase(s: Seq<char>) -> Seq<char> {
    if all_ascii(s) {
        ascii_lower(s)
    } else {
        unicode_lower(s)
    }
}

/// Uppercase of a whole string: plain ASCII mapping for ASCII text, the
/// Unicode mapping otherwise.
pub open spec fn spec_uppercase(s: Seq<char>) -> Seq<char> {
    if all_ascii(s) {
        ascii_upper(s)
    } else {
        unicode_upper(s)
    }
}

/// Title case: an ASCII alphanumeric that starts a word (first character or
/// preceded by a character that is not ASCII alphanumeric) is uppercased,
/// every other ASCII alphanumeric is lowercased; other characters are kept.
pub open spec fn spec_title_case(s: Seq<char>) -> Seq<char> {
    Seq::new(
        s.len(),
        |i: int|
            if !is_alnum(s[i]) {
                s[i]
            } else if i == 0 || !is_alnum(s[i - 1]) {
                upper_char(s[i])
            } else {
                lower_char(s[i])
            },
    )
}

pub open spec fn spec_apply(s: Seq<char>, mode: CaseMode) -> Seq<char> {
    match mode {
        CaseMode::Preserve => s,
        CaseMode::Lower => spec_lowercase(s),
        CaseMode::Upper => spec_uppercase(s),
        CaseMode::Title | CaseMode::Capitalize => spec_title_case(s),
    }
}

/// What the ASCII case maps keep: ASCII stays ASCII, alphanumerics stay
/// alphanumerics, and mapping twice is mapping once.
pub proof fn lemma_case_char(c: char)
    ensures
        is_ascii_char(c) ==> is_ascii_char(lower_char(c)) && is_ascii_char(upper_char(c)),
        is_alnum(lower_char(c)) == is_alnum(c),
        is_alnum(upper_char(c)) == is_alnum(c),
        lower_char(lower_char(c)) == lower_char(c),
        upper_char(upper_char(c)) == upper_char(c),
        upper_char(lower_char(c)) == upper_char(c),
        lower_char(upper_char(c)) == lower_char(c),
{
    let u = c as u32;
    if is_upper(c) {
        assert(lower_char(c) as u32 == u + 32);
    }
    if is_lower(c) {
        assert(upper_char(c) as u32 == u - 32);
    }
}

/// The case modes: `Capitalize` is `Title`, `Preserve` keeps the text, and
/// on ASCII text every mode keeps the length, stays ASCII, and changes
/// nothing when applied again.
pub proof fn law_case_modes(s: Seq<char>, mode: CaseMode)
    ensures
        spec_apply(s, CaseMode::Capitalize) == spec_apply(s, CaseMode::Title),
        spec_apply(s, CaseMode::Preserve) == s,
        all_ascii(s) ==> spec_apply(s, mode).len() == s.len() && all_ascii(spec_apply(s, mode))
            && spec_apply(spec_apply(s, mode), mode) == spec_apply(s, mode),
{
    if all_ascii(s) {
        let r = spec_apply(s, mode);
        assert forall|i: int| 0 <= i < s.len() implies #[trigger] is_ascii_char(r[i]) && (
        is_alnum(r[i]) == is_alnum(s[i])) by {
            lemma_case_char(s[i]);
            if i > 0 {
                lemma_case_char(s[i - 1]);
            }
        }
        assert(r.len() == s.len());
        assert(all_ascii(r));
        let r2 = spec_apply(r, mode);
        assert forall|i: int| 0 <= i < s.len() implies #[trigger] r2[i] == r[i] by {
            lemma_case_char(s[i]);
            if i > 0 {
                lemma_case_char(s[i - 1]);
            }
        }
        assert(r2 =~= r);
    }
}

/// On ASCII text, `Upper` turns each letter `a`..`z` into its capital (the
/// code point 32 lower) and keeps every other character, and `Lower` turns
/// each capital `A`..`Z` into its small letter (32 higher) and keeps every
/// other character: no small letter survives `Upper`, no capital `Lower`.
pub proof fn law_ascii_upper_lower(s: Seq<char>)
    requires
        all_ascii(s),
    ensures
        spec_apply(s, CaseMode::Upper).len() == s.len(),
        spec_apply(s, CaseMode::Lower).len() == s.len(),
        forall|i: int|
            0 <= i < s.len() ==> {
                let c = (#[trigger] s[i]) as u32;
                let u = spec_apply(s, CaseMode::Upper)[i] as u32;
                let l = spec_apply(s, CaseMode::Lower)[i] as u32;
                &&& (97 <= c <= 122 ==> u == c - 32)
                &&& (!(97 <= c <= 122) ==> u == c)
                &&& (65 <= c <= 90 ==> l == c + 32)
                &&& (!(65 <= c <= 90) ==> l == c)
            },
{
    assert forall|i: int| 0 <= i < s.len() implies {
        let c = (#[trigger] s[i]) as u32;
        let u = spec_apply(s, CaseMode::Upper)[i] as u32;
        let l = spec_apply(s, CaseMode::Lower)[i] as u32;
        &&& (97 <= c <= 122 ==> u == c - 32)
        &&& (!(97 <= c <= 122) ==> u == c)
        &&& (65 <= c <= 90 ==> l == c + 32)
        &&& (!(65 <= c <= 90) ==> l == c)
    } by {
        assert(spec_apply(s, CaseMode::Upper)[i] == upper_char(s[i]));
        assert(spec_apply(s, CaseMode::Lower)[i] == lower_char(s[i]));
    }
}

/// On ASCII text, `Title` capitalises each letter that starts a word (the
/// first character, or one after a character that is not an ASCII letter
/// or digit), turns every other letter small, and keeps all other
/// characters; `Capitalize` does the same.
pub proof fn law_ascii_title(s: Seq<char>)
    requires
        all_ascii(s),
    ensures
        spec_apply(s, CaseMode::Title).len() == s.len(),
        spec_apply(s, CaseMode::Capitalize) == spec_apply(s, CaseMode::Title),
        forall|i: int|
            0 <= i < s.len() ==> {
                let c = (#[trigger] s[i]) as u32;
                let x = spec_apply(s, CaseMode::Title)[i] as u32;
                let letter = (65 <= c <= 90) || (97 <= c <= 122);
                let start = i == 0 || !is_alnum(s[i - 1]);
                &&& (!letter ==> x == c)
                &&& (letter && start ==> x == if c >= 97 {
                    (c - 32) as u32
                } else {
                    c
                })
                &&& (letter && !start ==> x == if c <= 90 {
                    (c + 32) as u32
                } else {
                    c
                })
            },
{
    assert forall|i: int| 0 <= i < s.len() implies {
        let c = (#[trigger] s[i]) as u32;
        let x = spec_apply(s, CaseMode::Title)[i] as u32;
        let letter = (65 <= c <= 90) || (97 <= c <= 122);
        let start = i == 0 || !is_alnum(s[i - 1]);
        &&& (!letter ==> x == c)
        &&& (letter && start ==> x == if c >= 97 {
            (c - 32) as u32
        } else {
            c
        })
        &&& (letter && !start ==> x == if c <= 90 {
            (c + 32) as u32
        } else {
            c
        })
    } by {
        let r = spec_apply(s, CaseMode::Title);
        assert(r == spec_title_case(s));
        lemma_case_char(s[i]);
        if is_upper(s[i]) {
            assert(lower_char(s[i]) as u32 == s[i] as u32 + 32);
        }
        if is_lower(s[i]) {
            assert(upper_char(s[i]) as u32 == s[i] as u32 - 32);
        }
        let start = i == 0 || !is_alnum(s[i - 1]);
        if !is_alnum(s[i]) {
            assert(r[i] == s[i]);
        } else if start {
            assert(r[i] == upper_char(s[i]));
        } else {
            assert(r[i] == lower_char(s[i]));
        }
    }
}

/// The lowercase of `s` (see [`spec_lowercase`]).
pub fn lowercase_chars(s: &Vec<char>) -> (r: Vec<char>)
    ensures
        r@ == spec_lowercase(s@),
{
    if all_ascii_exec(s) {
        ascii_lower_exec(s)
    } else {
        let st = string_from_chars(s);
        let l = str_to_lowercase(st.as_str());
        chars_of(l.as_str())
    }
}

/// The uppercase of `s` (see [`spec_uppercase`]).
pub fn uppercase_chars(s: &Vec<char>) -> (r: Vec<char>)
    ensures
        r@ == spec_uppercase(s@),
{
    if all_ascii_exec(s) {
        ascii_upper_exec(s)
    } else {
        let st = string_from_chars(s);
        let u = str_to_uppercase(st.as_str());
        chars_of(u.as_str())
    }
}

/// `s` in title case: the first letter of each word upper, the rest lower.
pub fn title_case_chars(s: &Vec<char>) -> (r: Vec<char>)
    ensures
        r@ == spec_title_case(s@),
{
    let mut out: Vec<char> = Vec::new();
    let mut at_word_start = true;
    let mut i: usize = 0;
    while i < s.len()
        invariant
            i <= s.len(),
            out@.len() == i,
            forall|j: int| 0 <= j < i ==> #[trigger] out@[j] == spec_title_case(s@)[j],
            at_word_start == (i == 0 || !is_alnum(s@[i - 1])),
        decreases s.len() - i,
    {
        let c = s[i];
        if !is_alnum_exec(c) {
            out.push(c);
            at_word_start = true;
        } else if at_word_start {
            out.push(upper_char_exec(c));
            at_word_start = false;
        } else {
            out.push(lower_char_exec(c));
        }
        i += 1;
    }
    assert(out@ =~= spec_title_case(s@));
    out
}

/// `s` under case mode `mode`, as characters.
pub fn apply_chars(s: &Vec<char>, mode: CaseMode) -> (r: Vec<char>)
    ensures
        r@ == spec_apply(s@, mode),
{
    match mode {
        CaseMode::Preserve => s.clone(),
        CaseMode::Lower => lowercase_chars(s),
        CaseMode::Upper => uppercase_chars(s),
        CaseMode::Title | CaseMode::Capitalize => title_case_chars(s),
    }
}

/// Apply a case mode to a string.
pub fn apply(input: &str, mode: CaseMode) -> (r: String)
    ensures
        r@ == spec_apply(input@, mode),
{
    let v = chars_of(input);
    string_from_chars(&apply_chars(&v, mode))
}

/// Title-case a string (see [`CaseMode::Title`]).
pub fn title_case(input: &str) -> (r: String)
    ensures
        r@ == spec_title_case(input@),
{
    let v = chars_of(input);
    string_from_chars(&title_case_chars(&v))
}

} // verus!
