//! Slugify with optional CamelCase splitting and ISO date detection.
//!
//! Pipeline: textual datetimes to numeric form; NFKC; `_` injected at
//! WhatsApp-style "at" times and (optionally) at CamelCase boundaries;
//! slugify with `_` as the internal separator; `T` between digits to `_`;
//! dates detected and rewritten in ISO form; case mode applied; runs of
//! `_` collapsed; `_` substituted by the output separator; separators
//! trimmed at both ends.
use vstd::prelude::*;
use chrono::Datelike;
use crate::date::parser::{detect_chars, detect_with_span_chars, first_hit, spec_detect};
use crate::plan_types::DetectedDate;
use crate::slug::case::{
    lowercase_chars, spec_lowercase, spec_uppercase, unicode_lower, uppercase_chars, CaseMode,
};
use crate::slug::normalize::{nfkc, spec_nfkc};
use crate::slug::separator::{collapse_runs_chars, spec_collapse_runs};
use crate::slug::{slugify_with_sentinel_chars, spec_slugify_with_sentinel, SlugOpts};
use crate::slugify::textual::{normalize_textual_datetime, spec_normalize_textual};
use crate::text::{
    all_ascii, chars_of, extend_chars, is_ascii_char, is_digit, is_digit_exec, is_lower, is_upper,
    lower_char,
    replace_char,
    replace_char_exec, string_from_chars, sub_chars, trim_char, trim_char_exec, upper_char,
    upper_char_exec,
};

verus! {

/// Internal separator of the pipeline; the date-format table is keyed off it.
pub const PIPELINE_SEP: char = '_';

// ---------------------------------------------------------------------
// `-DD at HH.` : the WhatsApp "at" time pattern
// ---------------------------------------------------------------------

pub open spec fn is_space_or_underscore(c: char) -> bool {
    c == ' ' || c == '_'
}

pub open spec fn is_time_sep(c: char) -> bool {
    c == '-' || c == '.' || c == '_'
}

/// Match of `(-[0-9]{2})[ _]?[Aa]?[Tt][ _]?([0-9]{2}[-._])` at `i`: the
/// start of the second group.
pub open spec fn time_match_at(s: Seq<char>, i: int) -> Option<int> {
    if 0 <= i && i + 3 <= s.len() && s[i] == '-' && is_digit(s[i + 1]) && is_digit(s[i + 2]) {
        let j0 = i + 3;
        let j1 = if j0 < s.len() && is_space_or_underscore(s[j0]) {
            j0 + 1
        } else {
            j0
        };
        let j2 = if j1 < s.len() && (s[j1] == 'A' || s[j1] == 'a') {
            j1 + 1
        } else {
            j1
        };
        if j2 < s.len() && (s[j2] == 'T' || s[j2] == 't') {
            let j3 = j2 + 1;
            let j4 = if j3 < s.len() && is_space_or_underscore(s[j3]) {
                j3 + 1
            } else {
                j3
            };
            if j4 + 3 <= s.len() && is_digit(s[j4]) && is_digit(s[j4 + 1]) && is_time_sep(
                s[j4 + 2],
            ) {
                Some(j4)
            } else {
                None
            }
        } else {
            None
        }
    } else {
        None
    }
}

pub open spec fn next_time_match(s: Seq<char>, p: int) -> Option<(int, int)>
    decreases s.len() - p,
{
    if p < 0 || p >= s.len() {
        None
    } else {
        match time_match_at(s, p) {
            Some(j) => Some((p, j)),
            None => next_time_match(s, p + 1),
        }
    }
}

/// Every "at"-time match `-DD<sep>at<sep>HH.` becomes `-DD_HH.`.
pub open spec fn spec_inject_time(s: Seq<char>, p: int) -> Seq<char>
    decreases s.len() - p,
{
    if p < 0 || p > s.len() {
        Seq::empty()
    } else {
        match next_time_match(s, p) {
            Some((i, j)) => if p <= i && i + 3 <= j && j + 3 <= s.len() {
                s.subrange(p, i) + s.subrange(i, i + 3) + seq!['_'] + s.subrange(j, j + 3)
                    + spec_inject_time(s, j + 3)
            } else {
                s.subrange(p, s.len() as int)
            },
            None => s.subrange(p, s.len() as int),
        }
    }
}

proof fn lemma_time_match_bounds(s: Seq<char>, p: int)
    ensures
        next_time_match(s, p) matches Some((i, j)) ==> p <= i && i + 3 <= j && j + 3 <= s.len(),
    decreases s.len() - p,
{
    if 0 <= p < s.len() && time_match_at(s, p) is None {
        lemma_time_match_bounds(s, p + 1);
    }
}

fn time_match_at_exec(s: &Vec<char>, i: usize) -> (r: Option<usize>)
    requires
        i <= s.len(),
    ensures
        match r {
            Some(j) => time_match_at(s@, i as int) == Some(j as int),
            None => time_match_at(s@, i as int) is None,
        },
{
    let n = s.len();
    if !(n >= 3 && i <= n - 3 && s[i] == '-' && is_digit_exec(s[i + 1]) && is_digit_exec(s[i + 2])) {
        return None;
    }
    let j0 = i + 3;
    let j1 = if j0 < n && (s[j0] == ' ' || s[j0] == '_') { j0 + 1 } else { j0 };
    let j2 = if j1 < n && (s[j1] == 'A' || s[j1] == 'a') { j1 + 1 } else { j1 };
    if !(j2 < n && (s[j2] == 'T' || s[j2] == 't')) {
        return None;
    }
    let j3 = j2 + 1;
    let j4 = if j3 < n && (s[j3] == ' ' || s[j3] == '_') { j3 + 1 } else { j3 };
    if n >= 3 && j4 <= n - 3 && is_digit_exec(s[j4]) && is_digit_exec(s[j4 + 1]) && (s[j4 + 2]
        == '-' || s[j4 + 2] == '.' || s[j4 + 2] == '_') {
        Some(j4)
    } else {
        None
    }
}

fn inject_time(s: &Vec<char>) -> (r: Vec<char>)
    ensures
        r@ == spec_inject_time(s@, 0),
{
    let mut out: Vec<char> = Vec::new();
    let mut p: usize = 0;
    let mut i: usize = 0;
    while i < s.len()
        invariant
            p <= i <= s.len(),
            spec_inject_time(s@, 0) == out@ + spec_inject_time(s@, p as int),
            next_time_match(s@, p as int) == next_time_match(s@, i as int),
        decreases s.len() - i,
    {
        match time_match_at_exec(s, i) {
            Some(j) => {
                proof {
                    lemma_time_match_bounds(s@, p as int);
                }
                let gap = sub_chars(s, p, i + 3);
                extend_chars(&mut out, &gap);
                out.push('_');
                let g2 = sub_chars(s, j, j + 3);
                extend_chars(&mut out, &g2);
                proof {
                    assert(s@.subrange(p as int, i + 3) =~= s@.subrange(p as int, i as int)
                        + s@.subrange(i as int, i + 3));
                }
                p = j + 3;
                i = j + 3;
            },
            None => {
                i += 1;
            },
        }
    }
    let rest = sub_chars(s, p, s.len());
    extend_chars(&mut out, &rest);
    out
}

// ---------------------------------------------------------------------
// CamelCase: `([a-z])([A-Z]+)` becomes `$1_$2`
// ---------------------------------------------------------------------

/// End of the run of ASCII uppercase letters starting at `i`.
pub open spec fn upper_run_end(s: Seq<char>, i: int) -> int
    decreases s.len() - i,
{
    if 0 <= i < s.len() && is_upper(s[i]) {
        upper_run_end(s, i + 1)
    } else {
        i
    }
}

pub open spec fn camel_at(s: Seq<char>, i: int) -> bool {
    0 <= i && i + 1 < s.len() && is_lower(s[i]) && is_upper(s[i + 1])
}

pub open spec fn next_camel(s: Seq<char>, p: int) -> Option<int>
    decreases s.len() - p,
{
    if p < 0 || p >= s.len() {
        None
    } else if camel_at(s, p) {
        Some(p)
    } else {
        next_camel(s, p + 1)
    }
}

/// A `_` between each lowercase letter and the run of uppercase letters
/// that follows it.
pub open spec fn spec_inject_camel(s: Seq<char>, p: int) -> Seq<char>
    decreases s.len() - p,
{
    if p < 0 || p > s.len() {
        Seq::empty()
    } else {
        match next_camel(s, p) {
            Some(i) => {
                let e = upper_run_end(s, i + 1);
                if p <= i && i + 1 < e <= s.len() {
                    s.subrange(p, i + 1) + seq!['_'] + s.subrange(i + 1, e) + spec_inject_camel(s, e)
                } else {
                    s.subrange(p, s.len() as int)
                }
            },
            None => s.subrange(p, s.len() as int),
        }
    }
}

proof fn lemma_upper_run_end(s: Seq<char>, i: int)
    requires
        0 <= i <= s.len(),
    ensures
        i <= upper_run_end(s, i) <= s.len(),
        i < s.len() && is_upper(s[i]) ==> i < upper_run_end(s, i),
    decreases s.len() - i,
{
    if i < s.len() && is_upper(s[i]) {
        lemma_upper_run_end(s, i + 1);
    }
}

proof fn lemma_next_camel_bounds(s: Seq<char>, p: int)
    ensures
        next_camel(s, p) matches Some(i) ==> p <= i && camel_at(s, i),
    decreases s.len() - p,
{
    if 0 <= p < s.len() && !camel_at(s, p) {
        lemma_next_camel_bounds(s, p + 1);
    }
}

fn inject_camel(s: &Vec<char>) -> (r: Vec<char>)
    ensures
        r@ == spec_inject_camel(s@, 0),
{
    let mut out: Vec<char> = Vec::new();
    let mut p: usize = 0;
    let mut i: usize = 0;
    while i < s.len()
        invariant
            p <= i <= s.len(),
            spec_inject_camel(s@, 0) == out@ + spec_inject_camel(s@, p as int),
            next_camel(s@, p as int) == next_camel(s@, i as int),
        decreases s.len() - i,
    {
        if i + 1 < s.len() && 'a' <= s[i] && s[i] <= 'z' && 'A' <= s[i + 1] && s[i + 1] <= 'Z' {
            let mut e = i + 1;
            while e < s.len() && 'A' <= s[e] && s[e] <= 'Z'
                invariant
                    i + 1 <= e <= s.len(),
                    upper_run_end(s@, i + 1) == upper_run_end(s@, e as int),
                decreases s.len() - e,
            {
                e += 1;
            }
            proof {
                lemma_upper_run_end(s@, i + 1);
            }
            let head = sub_chars(s, p, i + 1);
            extend_chars(&mut out, &head);
            out.push('_');
            let run = sub_chars(s, i + 1, e);
            extend_chars(&mut out, &run);
            p = e;
            i = e;
        } else {
            i += 1;
        }
    }
    let rest = sub_chars(s, p, s.len());
    extend_chars(&mut out, &rest);
    out
}

// ---------------------------------------------------------------------
// ISO `T` between digits: `(\d)T(\d)` becomes `$1_$2`
// ---------------------------------------------------------------------

pub open spec fn iso_t_at(s: Seq<char>, i: int) -> bool {
    0 <= i && i + 2 < s.len() && is_digit(s[i]) && s[i + 1] == 'T' && is_digit(s[i + 2])
}

pub open spec fn next_iso_t(s: Seq<char>, p: int) -> Option<int>
    decreases s.len() - p,
{
    if p < 0 || p >= s.len() {
        None
    } else if iso_t_at(s, p) {
        Some(p)
    } else {
        next_iso_t(s, p + 1)
    }
}

/// Every `T` between two digits becomes `_` (non-overlapping, left to right).
pub open spec fn spec_iso_t(s: Seq<char>, p: int) -> Seq<char>
    decreases s.len() - p,
{
    if p < 0 || p > s.len() {
        Seq::empty()
    } else {
        match next_iso_t(s, p) {
            Some(i) => if p <= i && i + 3 <= s.len() {
                s.subrange(p, i + 1) + seq!['_'] + s.subrange(i + 2, i + 3) + spec_iso_t(s, i + 3)
            } else {
                s.subrange(p, s.len() as int)
            },
            None => s.subrange(p, s.len() as int),
        }
    }
}

proof fn lemma_next_iso_t_bounds(s: Seq<char>, p: int)
    ensures
        next_iso_t(s, p) matches Some(i) ==> p <= i && iso_t_at(s, i),
    decreases s.len() - p,
{
    if 0 <= p < s.len() && !iso_t_at(s, p) {
        lemma_next_iso_t_bounds(s, p + 1);
    }
}

fn iso_t_to_sep(s: &Vec<char>) -> (r: Vec<char>)
    ensures
        r@ == spec_iso_t(s@, 0),
{
    let mut out: Vec<char> = Vec::new();
    let mut p: usize = 0;
    let mut i: usize = 0;
    while i < s.len()
        invariant
            p <= i <= s.len(),
            spec_iso_t(s@, 0) == out@ + spec_iso_t(s@, p as int),
            next_iso_t(s@, p as int) == next_iso_t(s@, i as int),
        decreases s.len() - i,
    {
        if s.len() >= 3 && i <= s.len() - 3 && is_digit_exec(s[i]) && s[i + 1] == 'T' && is_digit_exec(
            s[i + 2],
        ) {
            proof {
                lemma_next_iso_t_bounds(s@, p as int);
            }
            let head = sub_chars(s, p, i + 1);
            extend_chars(&mut out, &head);
            out.push('_');
            out.push(s[i + 2]);
            proof {
                assert(s@.subrange(i + 2, i + 3) =~= seq![s@[i + 2]]);
            }
            p = i + 3;
            i = i + 3;
        } else {
            i += 1;
        }
    }
    let rest = sub_chars(s, p, s.len());
    extend_chars(&mut out, &rest);
    out
}

// ---------------------------------------------------------------------
// Case after date substitution
// ---------------------------------------------------------------------

/// Title case of the date-substituted text: everything lowercased, then
/// the first character, each letter after `_`, and a `t` between two digits
/// (the ISO datetime separator) uppercased.
pub open spec fn spec_title_after_boundary(input: Seq<char>) -> Seq<char> {
    let l = spec_lowercase(input);
    Seq::new(
        l.len(),
        |i: int|
            if is_lower(l[i]) && (i == 0 || l[i - 1] == '_' || (l[i] == 't' && i + 1 < l.len()
                && is_digit(l[i - 1]) && is_digit(l[i + 1]))) {
                upper_char(l[i])
            } else {
                l[i]
            },
    )
}

/// `T` between two digits at `i`: the separator of an ISO datetime.
pub open spec fn iso_t_sep_at(s: Seq<char>, i: int) -> bool {
    0 < i && i + 1 < s.len() && s[i] == 'T' && is_digit(s[i - 1]) && is_digit(s[i + 1])
}

/// Lower case of the date-substituted text that leaves the ISO dates as
/// they are: every character lowercased except a `T` between two digits.
/// (Text holding non-ASCII characters, which the pipeline never produces
/// here, gets the Unicode mapping.)
pub open spec fn spec_lower_after_dates(input: Seq<char>) -> Seq<char> {
    if all_ascii(input) {
        Seq::new(
            input.len(),
            |i: int|
                if iso_t_sep_at(input, i) {
                    'T'
                } else {
                    lower_char(input[i])
                },
        )
    } else {
        unicode_lower(input)
    }
}

/// The case pass after date substitution. ISO dates (digits, `-`, and a
/// `T` between digits) come out of every mode unchanged.
pub open spec fn spec_case_after_dates(input: Seq<char>, mode: CaseMode) -> Seq<char> {
    match mode {
        CaseMode::Preserve => input,
        CaseMode::Lower => spec_lower_after_dates(input),
        CaseMode::Upper => spec_uppercase(input),
        CaseMode::Title | CaseMode::Capitalize => spec_title_after_boundary(input),
    }
}

/// `s[lo..hi]` is ISO date text: digits and `-`, with a `T` only between
/// two digits inside the range.
pub open spec fn iso_shaped(s: Seq<char>, lo: int, hi: int) -> bool {
    &&& 0 <= lo <= hi <= s.len()
    &&& forall|i: int|
        lo <= i < hi ==> is_digit(#[trigger] s[i]) || s[i] == '-' || (s[i] == 'T' && lo < i && i
            + 1 < hi && is_digit(s[i - 1]) && is_digit(s[i + 1]))
}

/// Every case mode leaves ISO date text as it is (the text after date
/// substitution is ASCII).
pub proof fn law_case_keeps_iso_dates(s: Seq<char>, lo: int, hi: int, mode: CaseMode)
    requires
        all_ascii(s),
        iso_shaped(s, lo, hi),
    ensures
        spec_case_after_dates(s, mode).len() == s.len(),
        spec_case_after_dates(s, mode).subrange(lo, hi) == s.subrange(lo, hi),
{
    let r = spec_case_after_dates(s, mode);
    let l = crate::text::ascii_lower(s);
    assert forall|i: int| lo <= i < hi implies #[trigger] r[i] == s[i] by {
        match mode {
            CaseMode::Preserve => {},
            CaseMode::Lower => {
                if s[i] == 'T' {
                    assert(iso_t_sep_at(s, i));
                }
            },
            CaseMode::Upper => {
                assert(r == crate::text::ascii_upper(s));
            },
            _ => {
                assert(spec_lowercase(s) == l);
                assert(l[i] == lower_char(s[i]));
                if s[i] == 'T' {
                    assert(l[i - 1] == lower_char(s[i - 1]));
                    assert(l[i + 1] == lower_char(s[i + 1]));
                }
            },
        }
    }
    assert(r.subrange(lo, hi) =~= s.subrange(lo, hi));
}

fn title_case_after_alnum_boundary(input: &Vec<char>) -> (r: Vec<char>)
    ensures
        r@ == spec_title_after_boundary(input@),
{
    let l = lowercase_chars(input);
    let mut out: Vec<char> = Vec::new();
    let mut i: usize = 0;
    while i < l.len()
        invariant
            i <= l.len(),
            l@ == spec_lowercase(input@),
            out@.len() == i,
            forall|k: int|
                0 <= k < i ==> #[trigger] out@[k] == spec_title_after_boundary(input@)[k],
        decreases l.len() - i,
    {
        let ch = l[i];
        let mut o = ch;
        if 'a' <= ch && ch <= 'z' {
            let after_underscore = i > 0 && l[i - 1] == '_';
            let at_start = i == 0;
            let between_digits = ch == 't' && i > 0 && i + 1 < l.len() && is_digit_exec(l[i - 1])
                && is_digit_exec(l[i + 1]);
            if at_start || after_underscore || between_digits {
                o = upper_char_exec(ch);
            }
        }
        out.push(o);
        i += 1;
    }
    assert(out@ =~= spec_title_after_boundary(input@));
    out
}

fn lower_after_dates(input: &Vec<char>) -> (r: Vec<char>)
    ensures
        r@ == spec_lower_after_dates(input@),
{
    if !crate::text::all_ascii_exec(input) {
        return lowercase_chars(input);
    }
    let mut out: Vec<char> = Vec::new();
    let mut i: usize = 0;
    while i < input.len()
        invariant
            i <= input.len(),
            all_ascii(input@),
            out@.len() == i,
            forall|k: int| 0 <= k < i ==> #[trigger] out@[k] == spec_lower_after_dates(input@)[k],
        decreases input.len() - i,
    {
        let ch = input[i];
        let keep = ch == 'T' && i > 0 && i + 1 < input.len() && is_digit_exec(input[i - 1])
            && is_digit_exec(input[i + 1]);
        if keep {
            out.push('T');
        } else {
            out.push(crate::text::lower_char_exec(ch));
        }
        i += 1;
    }
    assert(out@ =~= spec_lower_after_dates(input@));
    out
}

fn case_after_dates(input: &Vec<char>, mode: CaseMode) -> (r: Vec<char>)
    ensures
        r@ == spec_case_after_dates(input@, mode),
{
    match mode {
        CaseMode::Preserve => input.clone(),
        CaseMode::Lower => lower_after_dates(input),
        CaseMode::Upper => uppercase_chars(input),
        CaseMode::Title | CaseMode::Capitalize => title_case_after_alnum_boundary(input),
    }
}

// ---------------------------------------------------------------------
// The pipeline
// ---------------------------------------------------------------------

/// Options of the internal slugify pass: `_` separator, case preserved.
pub open spec fn pipeline_opts(opts: SlugOpts) -> SlugOpts {
    SlugOpts { separator: '_', case: CaseMode::Preserve, split_camel: opts.split_camel }
}

/// The pipeline up to (not including) date detection.
pub open spec fn spec_pre_dates(input: Seq<char>, opts: SlugOpts) -> Seq<char> {
    let normalized = spec_normalize_textual(input);
    let with_time = spec_inject_time(spec_nfkc(normalized), 0);
    let with_camel = if opts.split_camel {
        spec_inject_camel(with_time, 0)
    } else {
        with_time
    };
    spec_iso_t(spec_slugify_with_sentinel(with_camel, '_', pipeline_opts(opts)), 0)
}

/// The pipeline after date detection: case, collapse `_` runs, substitute
/// the separator, trim it at both ends.
pub open spec fn spec_post_dates(dated: Seq<char>, opts: SlugOpts) -> Seq<char> {
    let collapsed = spec_collapse_runs(spec_case_after_dates(dated, opts.case), '_');
    let substituted = if opts.separator == '_' {
        collapsed
    } else {
        replace_char(collapsed, '_', opts.separator)
    };
    trim_char(substituted, opts.separator)
}

/// The whole slugify-with-dates pipeline.
pub open spec fn spec_slugify_camel_iso(input: Seq<char>, opts: SlugOpts, current_year: int) -> Seq<
    char,
> {
    spec_post_dates(spec_detect(spec_pre_dates(input, opts), current_year, 0), opts)
}

/// The passes before date detection: textual datetimes to numeric form,
/// NFKC, time and camel-case markers, slugging with the internal separator
/// `_`, and ISO `T` markers turned into that separator.
pub fn pre_dates(input: &str, opts: &SlugOpts) -> (r: Vec<char>)
    ensures
        r@ == spec_pre_dates(input@, *opts),
{
    let normalized = normalize_textual_datetime(input);
    let nf = nfkc(normalized.as_str());
    let nfv = chars_of(nf.as_str());
    let with_time = inject_time(&nfv);
    let with_camel = if opts.split_camel {
        inject_camel(&with_time)
    } else {
        with_time
    };
    let pipeline = SlugOpts { separator: PIPELINE_SEP, case: CaseMode::Preserve, split_camel: opts.split_camel };
    let wc = string_from_chars(&with_camel);
    let slugged = slugify_with_sentinel_chars(wc.as_str(), PIPELINE_SEP, &pipeline);
    iso_t_to_sep(&slugged)
}

/// The passes after date detection: the case mode (ISO dates kept as they
/// are), runs of the internal separator `_` collapsed, `_` replaced by the
/// separator, which is then trimmed at both ends.
pub fn post_dates(dated: &Vec<char>, opts: &SlugOpts) -> (r: Vec<char>)
    ensures
        r@ == spec_post_dates(dated@, *opts),
{
    let cased = case_after_dates(dated, opts.case);
    let collapsed = collapse_runs_chars(&cased, PIPELINE_SEP);
    let substituted = if PIPELINE_SEP == opts.separator {
        collapsed
    } else {
        replace_char_exec(&collapsed, PIPELINE_SEP, opts.separator)
    };
    trim_char_exec(&substituted, opts.separator)
}

/// Variant of [`slugify_camel_iso`] with the "current year" given, which
/// decides the century of two-digit years.
pub fn slugify_camel_iso_with_year(input: &str, opts: &SlugOpts, current_year: i32) -> (r: String)
    requires
        current_year <= i32::MAX - 10,
    ensures
        r@ == spec_slugify_camel_iso(input@, *opts, current_year as int),
{
    let slugged = pre_dates(input, opts);
    let dated = detect_chars(&slugged, current_year);
    string_from_chars(&post_dates(&dated, opts))
}

/// `det` is the first date detected in `input` by the pipeline: the first
/// match of the date grammar whose candidate holds a date, with its byte
/// range right after date substitution. (Inputs whose pipeline text is
/// longer than a quarter of the address space report none.)
pub open spec fn detection_of(input: Seq<char>, opts: SlugOpts, cy: int, det: Option<DetectedDate>) -> bool {
    let pre = spec_pre_dates(input, opts);
    if pre.len() * 4 + 100 <= usize::MAX {
        match det {
            Some(d) => first_hit(pre, cy, 0) matches Some((i, lo, h)) && d.byte_start
                == crate::text::utf8_len(pre.take(i)) + 1 + lo && d.byte_end == d.byte_start
                + h.0.len() && d.iso_string@ == h.0 && d.kind == h.1 && d.parsed == h.2
                && d.original_format@ == h.3,
            None => first_hit(pre, cy, 0) is None,
        }
    } else {
        det is None
    }
}

/// Variant of [`slugify_camel_iso_with_year`] that also returns the first
/// detected date.
///
/// The slug is the one [`slugify_camel_iso_with_year`] gives. The date's
/// byte range refers to the text right after date substitution (before the
/// case mode and separator passes); callers locate the date in the slug by
/// its `iso_string`, which the slug holds in every case mode whenever the
/// separator is an ASCII character that is neither a letter nor a digit.
pub fn slugify_camel_iso_detect(input: &str, opts: &SlugOpts, current_year: i32) -> (r: (
    String,
    Option<DetectedDate>,
))
    requires
        current_year <= i32::MAX - 10,
    ensures
        r.0@ == spec_slugify_camel_iso(input@, *opts, current_year as int),
        detection_of(input@, *opts, current_year as int, r.1),
        is_ascii_char(opts.separator) && !crate::text::is_alnum(opts.separator) ==> (r.1 matches Some(
            d,
        ) ==> contains_text(r.0@, d.iso_string@)),
{
    proof {
        if is_ascii_char(opts.separator) && !crate::text::is_alnum(opts.separator) && first_hit(
            spec_pre_dates(input@, *opts),
            current_year as int,
            0,
        ) is Some {
            law_detected_iso_in_slug(input@, *opts, current_year as int);
        }
    }
    let slugged = pre_dates(input, opts);
    if slugged.len() <= (usize::MAX - 100) / 4 {
        let (dated, detected) = detect_with_span_chars(&slugged, current_year);
        (string_from_chars(&post_dates(&dated, opts)), detected)
    } else {
        let dated = detect_chars(&slugged, current_year);
        (string_from_chars(&post_dates(&dated, opts)), None)
    }
}

/// The ISO text of the first date detected in `s`, if any.
pub open spec fn first_iso(s: Seq<char>, current_year: int) -> Seq<char> {
    match first_hit(s, current_year, 0) {
        Some((i, lo, h)) => h.0,
        None => Seq::empty(),
    }
}

/// `t` occurs in `s`.
pub open spec fn contains_text(s: Seq<char>, t: Seq<char>) -> bool {
    exists|q: int| 0 <= q && q + t.len() <= s.len() && #[trigger] s.subrange(q, q + t.len()) == t
}

proof fn lemma_iso_t_ascii(s: Seq<char>, p: int)
    requires
        all_ascii(s),
    ensures
        all_ascii(spec_iso_t(s, p)),
    decreases s.len() - p,
{
    if 0 <= p <= s.len() {
        lemma_next_iso_t_bounds(s, p);
        let r = spec_iso_t(s, p);
        match next_iso_t(s, p) {
            Some(i) => {
                if p <= i && i + 3 <= s.len() {
                    lemma_iso_t_ascii(s, i + 3);
                    let a = s.subrange(p, i + 1);
                    let b = a + seq!['_'];
                    let c = b + s.subrange(i + 2, i + 3);
                    let rest = spec_iso_t(s, i + 3);
                    assert forall|k: int| 0 <= k < r.len() implies is_ascii_char(#[trigger] r[k]) by {
                        if k < a.len() {
                            assert(r[k] == s[p + k]);
                        } else if k == a.len() {
                        } else if k < c.len() {
                            assert(r[k] == s[i + 2]);
                        } else {
                            assert(r[k] == rest[k - c.len()]);
                        }
                    }
                } else {
                    assert forall|k: int| 0 <= k < r.len() implies is_ascii_char(#[trigger] r[k]) by {
                        assert(r[k] == s[p + k]);
                    }
                }
            },
            None => {
                assert forall|k: int| 0 <= k < r.len() implies is_ascii_char(#[trigger] r[k]) by {
                    assert(r[k] == s[p + k]);
                }
            },
        }
    }
}

/// The text that date detection reads is ASCII.
proof fn lemma_pre_dates_ascii(input: Seq<char>, opts: SlugOpts)
    ensures
        all_ascii(spec_pre_dates(input, opts)),
{
    let normalized = spec_normalize_textual(input);
    let with_time = spec_inject_time(spec_nfkc(normalized), 0);
    let with_camel = if opts.split_camel {
        spec_inject_camel(with_time, 0)
    } else {
        with_time
    };
    let slug = spec_slugify_with_sentinel(with_camel, '_', pipeline_opts(opts));
    crate::slug::lemma_slug_shaped(with_camel, pipeline_opts(opts));
    assert forall|k: int| 0 <= k < slug.len() implies is_ascii_char(#[trigger] slug[k]) by {
        assert(crate::text::is_alnum(slug[k]) || slug[k] == '_');
    }
    lemma_iso_t_ascii(slug, 0);
}

/// The first date that the pipeline detects is found, as its ISO text, in
/// the final slug, whatever the case mode (for an ASCII separator that is
/// not alphanumeric).
pub proof fn law_detected_iso_in_slug(input: Seq<char>, opts: SlugOpts, current_year: int)
    requires
        is_ascii_char(opts.separator),
        !crate::text::is_alnum(opts.separator),
        first_hit(spec_pre_dates(input, opts), current_year, 0) is Some,
    ensures
        contains_text(
            spec_slugify_camel_iso(input, opts, current_year),
            first_iso(spec_pre_dates(input, opts), current_year),
        ),
{
    let pre = spec_pre_dates(input, opts);
    lemma_pre_dates_ascii(input, opts);
    crate::date::parser::lemma_first_hit_output(pre, current_year, 0);
    let (i, lo, h) = first_hit(pre, current_year, 0)->0;
    let iso = h.0;
    let n = iso.len() as int;
    let out = spec_detect(pre, current_year, 0);
    let hp = crate::date::parser::hit_prefix(pre, 0, i, lo, iso);
    let q = hp.len() - n;
    assert(out.subrange(q, q + n) =~= iso) by {
        assert forall|j: int| 0 <= j < n implies #[trigger] out.subrange(q, q + n)[j] == iso[j] by {
            assert(out[q + j] == out.take(hp.len() as int)[q + j]);
            assert(hp[q + j] == iso[j]);
        }
    }
    crate::date::parser::lemma_detect_ascii(pre, current_year, 0);
    assert(iso_shaped(out, q, q + n)) by {
        assert forall|k: int| q <= k < q + n implies is_digit(#[trigger] out[k]) || out[k] == '-' || (
        out[k] == 'T' && q < k && k + 1 < q + n && is_digit(out[k - 1]) && is_digit(out[k + 1])) by {
            assert(out[k] == iso[k - q]);
            assert(is_digit(iso[k - q]) || iso[k - q] == '-' || iso[k - q] == 'T');
            if iso[k - q] == 'T' {
                assert(out[k - 1] == iso[k - q - 1]);
                assert(out[k + 1] == iso[k - q + 1]);
            }
        }
    }
    law_case_keeps_iso_dates(out, q, q + n, opts.case);
    let cased = spec_case_after_dates(out, opts.case);
    assert forall|k: int| q <= k < q + n implies #[trigger] cased[k] != '_' by {
        assert(cased[k] == cased.subrange(q, q + n)[k - q]);
        assert(is_digit(iso[k - q]) || iso[k - q] == '-' || iso[k - q] == 'T');
    }
    let q2 = crate::slug::separator::lemma_collapse_keeps_stretch(cased, '_', q, n);
    let collapsed = spec_collapse_runs(cased, '_');
    let sep = opts.separator;
    let substituted = if sep == '_' {
        collapsed
    } else {
        replace_char(collapsed, '_', sep)
    };
    assert(substituted.subrange(q2, q2 + n) =~= iso) by {
        assert forall|j: int| 0 <= j < n implies #[trigger] substituted.subrange(q2, q2 + n)[j]
            == iso[j] by {
            assert(collapsed[q2 + j] == collapsed.subrange(q2, q2 + n)[j]);
            assert(is_digit(iso[j]) || iso[j] == '-' || iso[j] == 'T');
        }
    }
    assert(substituted[q2] == iso[0]);
    assert(substituted[q2 + n - 1] == iso[n - 1]);
    let q3 = crate::slug::lemma_trim_keeps_stretch(substituted, sep, q2, n);
    let fin = trim_char(substituted, sep);
    assert(fin == spec_slugify_camel_iso(input, opts, current_year));
    assert(fin.subrange(q3, q3 + n) == iso);
}

/// The year of the local clock (`chrono::Local::now().year()`); nothing is
/// stated of its value beyond the range of years chrono represents.
#[verifier::external_body]
pub(crate) fn local_current_year() -> (y: i32)
    ensures
        -262144 <= y <= 262143,
{
    chrono::Local::now().year()
}

/// Slugify a string with CamelCase splitting, ISO date detection, and the
/// user's chosen output separator/case, reading two-digit years against
/// the local clock's current year.
pub fn slugify_camel_iso(input: &str, opts: &SlugOpts) -> (r: String)
    ensures
        exists|y: int|
            -262144 <= y <= 262143 && r@ == spec_slugify_camel_iso(input@, *opts, y),
{
    let current_year = local_current_year();
    slugify_camel_iso_with_year(input, opts, current_year)
}

} // verus!
