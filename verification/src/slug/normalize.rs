//! Unicode normalization and character-level transliteration.
use vstd::prelude::*;
use unicode_normalization::UnicodeNormalization;
use crate::text::{all_ascii, chars_of, is_ascii_char, string_from_chars};

verus! {

/// What NFKC normalization (`unicode_normalization`) yields for a string.
pub uninterp spec fn nfkc_of(s: Seq<char>) -> Seq<char>;

/// What `deunicode::deunicode_char` yields for a character.
pub uninterp spec fn deunicode_of(c: char) -> Option<Seq<char>>;

/// NFKC of a string: ASCII text is already normalized and comes back as it
/// is; other text gets the named normalization.
pub open spec fn spec_nfkc(s: Seq<char>) -> Seq<char> {
    if all_ascii(s) {
        s
    } else {
        nfkc_of(s)
    }
}

/// Calls `UnicodeNormalization::nfkc` and collects the characters. ASCII
/// text comes back unchanged: the crate never decomposes a 7-bit character
/// (`decompose`) and its quick check takes every ASCII character as allowed
/// and a starter, so there is nothing to compose. Other text gets a named
/// result, since the normalization tables take pages to state.
#[verifier::external_body]
fn nfkc_string(input: &str) -> (r: String)
    ensures
        all_ascii(input@) ==> r@ == input@,
        !all_ascii(input@) ==> r@ == nfkc_of(input@),
{
    input.nfkc().collect()
}

/// Calls `deunicode::deunicode_char`; the transliteration is named, and the
/// crate documents (and its source ensures) that what it returns is ASCII.
#[verifier::external_body]
fn deunicode_char_string(c: char) -> (r: Option<String>)
    ensures
        r matches Some(t) ==> deunicode_of(c) == Some(t@) && all_ascii(t@),
        r is None ==> deunicode_of(c) is None,
{
    deunicode::deunicode_char(c).map(|t| t.to_string())
}

/// NFKC-normalize the input string.
pub fn nfkc(input: &str) -> (r: String)
    ensures
        r@ == spec_nfkc(input@),
{
    nfkc_string(input)
}

/// What one character becomes when folding to ASCII: itself when it is the
/// kept character or ASCII, its transliteration otherwise (nothing when
/// there is none).
pub open spec fn fold_image(c: char, keep: char) -> Seq<char> {
    if c == keep || is_ascii_char(c) {
        seq![c]
    } else {
        match deunicode_of(c) {
            Some(t) => t,
            None => Seq::empty(),
        }
    }
}

pub open spec fn spec_fold_to_ascii_keep(s: Seq<char>, keep: char) -> Seq<char>
    decreases s.len(),
{
    if s.len() == 0 {
        Seq::empty()
    } else {
        spec_fold_to_ascii_keep(s.drop_last(), keep) + fold_image(s.last(), keep)
    }
}

/// `s` folded to ASCII, keeping the character `keep`, as characters.
pub fn fold_to_ascii_keep_chars(s: &Vec<char>, keep: char) -> (r: Vec<char>)
    ensures
        r@ == spec_fold_to_ascii_keep(s@, keep),
        forall|j: int| 0 <= j < r@.len() ==> is_ascii_char(#[trigger] r@[j]) || r@[j] == keep,
{
    let mut out: Vec<char> = Vec::new();
    let mut i: usize = 0;
    while i < s.len()
        invariant
            i <= s.len(),
            out@ == spec_fold_to_ascii_keep(s@.take(i as int), keep),
            forall|j: int| 0 <= j < out@.len() ==> is_ascii_char(#[trigger] out@[j]) || out@[j] == keep,
        decreases s.len() - i,
    {
        let c = s[i];
        assert(s@.take(i + 1).drop_last() =~= s@.take(i as int));
        if c == keep || (c as u32) < 128 {
            out.push(c);
            assert(out@ =~= spec_fold_to_ascii_keep(s@.take(i as int), keep) + seq![c]);
        } else {
            match deunicode_char_string(c) {
                Some(t) => {
                    let tv = chars_of(t.as_str());
                    let ghost before = out@;
                    crate::text::extend_chars(&mut out, &tv);
                    assert forall|j: int| 0 <= j < out@.len() implies is_ascii_char(#[trigger] out@[j]) || out@[j] == keep by {
                        if j >= before.len() {
                            assert(out@[j] == tv@[j - before.len()]);
                        }
                    }
                },
                None => {
                    assert(out@ =~= spec_fold_to_ascii_keep(s@.take(i as int), keep) + Seq::<
                        char,
                    >::empty());
                },
            }
        }
        i += 1;
    }
    assert(s@.take(i as int) =~= s@);
    out
}

/// Fold non-ASCII characters to ASCII, keeping ASCII characters and the
/// `keep` sentinel verbatim; characters without a transliteration are dropped.
pub fn fold_to_ascii_keep(input: &str, keep: char) -> (r: String)
    ensures
        r@ == spec_fold_to_ascii_keep(input@, keep),
{
    let v = chars_of(input);
    string_from_chars(&fold_to_ascii_keep_chars(&v, keep))
}

} // verus!
