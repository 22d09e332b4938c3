//! Date parsing and ISO conversion.
//!
//! A candidate is matched against every template of the format table whose
//! length equals the candidate's length; the first template that yields an
//! existing calendar date wins and is rendered in ISO form.
use vstd::prelude::*;
use crate::date::calendar::{date_time_exists, format_iso, iso_of, valid_ymd};
use crate::date::formats::{entry_ok, format_templates, possible_formats, FormatSpec};
use crate::plan_types::{DateKind, DateTimeParts, DetectedDate};
use crate::text::{
    all_ascii, all_digits, chars_of, decimal, digit_val, digits_value, is_ascii_char, is_digit,
    is_digit_exec, lemma_utf8_len_ascii, lemma_utf8_len_concat, utf8_len, utf8_width, zero_pad,
};

verus! {

/// A field letter of a template: year, month, day, hour, minute, second.
pub open spec fn is_field(c: char) -> bool {
    c == 'Y' || c == 'M' || c == 'D' || c == 'H' || c == 'm' || c == 's'
}

/// The candidate has the template's shape: same length, a digit under each
/// field letter, and the template's own character everywhere else.
pub open spec fn fits(c: Seq<char>, t: Seq<char>) -> bool {
    c.len() == t.len() && forall|i: int|
        0 <= i < t.len() ==> if is_field(#[trigger] t[i]) {
            is_digit(c[i])
        } else {
            c[i] == t[i]
        }
}

/// The candidate's characters under the letter `l` among the first `k`
/// positions of the template, in order.
pub open spec fn field_digits(c: Seq<char>, t: Seq<char>, l: char, k: int) -> Seq<char>
    decreases k,
{
    if k <= 0 {
        Seq::empty()
    } else if t[k - 1] == l {
        field_digits(c, t, l, k - 1).push(c[k - 1])
    } else {
        field_digits(c, t, l, k - 1)
    }
}

/// Numeric value of the field `l` of a candidate read with template `t`.
pub open spec fn field_value(c: Seq<char>, t: Seq<char>, l: char) -> nat {
    digits_value(field_digits(c, t, l, t.len() as int))
}

pub open spec fn u32_max() -> nat {
    0xffff_ffff
}

/// The year a field reads as: four-digit years as they are; two-digit years
/// as 20YY, or 19YY when 20YY lies more than ten years after `current_year`.
pub open spec fn effective_year(raw: int, has_century: bool, current_year: int) -> int {
    if has_century {
        raw
    } else if raw + 2000 > current_year + 10 {
        raw + 1900
    } else {
        raw + 2000
    }
}

/// Parse `c` with template `t`: `Some` exactly when `c` has the template's
/// shape, the template has a year, every field fits in a `u32`, and the
/// date and time exist. Missing month/day default to 1, missing time
/// fields to 0.
pub open spec fn spec_parse_with(c: Seq<char>, t: Seq<char>, has_century: bool, current_year: int) -> Option<
    DateTimeParts,
> {
    if !fits(c, t) || !t.contains('Y') {
        None
    } else if field_value(c, t, 'Y') > u32_max() || field_value(c, t, 'M') > u32_max()
        || field_value(c, t, 'D') > u32_max() || field_value(c, t, 'H') > u32_max()
        || field_value(c, t, 'm') > u32_max() || field_value(c, t, 's') > u32_max() {
        None
    } else {
        let year = effective_year(field_value(c, t, 'Y') as int, has_century, current_year);
        let month = if t.contains('M') {
            field_value(c, t, 'M')
        } else {
            1
        };
        let day = if t.contains('D') {
            field_value(c, t, 'D')
        } else {
            1
        };
        let hour = field_value(c, t, 'H');
        let minute = field_value(c, t, 'm');
        let second = field_value(c, t, 's');
        if valid_ymd(year, month as int, day as int) && hour < 24 && minute < 60 && second < 60 {
            Some(
                DateTimeParts {
                    year: year as i32,
                    month: month as u32,
                    day: day as u32,
                    hour: hour as u32,
                    minute: minute as u32,
                    second: second as u32,
                },
            )
        } else {
            None
        }
    }
}

/// The outcome of parsing one candidate: ISO text, kind, parsed fields and
/// the template that matched.
pub struct DateHit {
    pub iso: Vec<char>,
    pub kind: DateKind,
    pub parts: DateTimeParts,
    pub template: &'static str,
}

/// Try the format table from index `i` on: the first template of the same
/// length as `e` that parses it decides.
pub open spec fn spec_try_formats(e: Seq<char>, current_year: int, i: int) -> Option<
    (Seq<char>, DateKind, DateTimeParts, Seq<char>),
>
    decreases format_templates().len() - i,
{
    if i < 0 || i >= format_templates().len() {
        None
    } else {
        let t = format_templates()[i];
        if t.len() == e.len() && spec_parse_with(
            e,
            t,
            crate::date::formats::spec_has_century(t),
            current_year,
        ) is Some {
            let p = spec_parse_with(
                e,
                t,
                crate::date::formats::spec_has_century(t),
                current_year,
            )->0;
            let k = crate::date::formats::spec_format_kind(t);
            Some((iso_of(p, k), k, p, t))
        } else {
            spec_try_formats(e, current_year, i + 1)
        }
    }
}

proof fn lemma_field_digits_all_digits(c: Seq<char>, t: Seq<char>, l: char, k: int)
    requires
        fits(c, t),
        is_field(l),
        0 <= k <= t.len(),
    ensures
        all_digits(field_digits(c, t, l, k)),
    decreases k,
{
    if k > 0 {
        lemma_field_digits_all_digits(c, t, l, k - 1);
        assert(is_field(t[k - 1]) ==> is_digit(c[k - 1]));
    }
}

/// Accumulate one field: `Some(v)` while the digits read so far fit in a u32.
fn acc_digit(acc: Option<u32>, c: char) -> (r: Option<u32>)
    requires
        is_digit(c),
    ensures
        match acc {
            Some(v) => if v as nat * 10 + digit_val(c) <= u32_max() {
                r == Some((v as nat * 10 + digit_val(c)) as u32)
            } else {
                r is None
            },
            None => r is None,
        },
{
    match acc {
        Some(v) => {
            let d = (c as u32) - 48;
            if v <= 429496729 && (v < 429496729 || d <= 5) {
                Some(v * 10 + d)
            } else {
                None
            }
        },
        None => None,
    }
}

proof fn lemma_digits_value_push(s: Seq<char>, c: char)
    ensures
        digits_value(s.push(c)) == digits_value(s) * 10 + digit_val(c),
{
    assert(s.push(c).drop_last() =~= s);
}

/// Invariant of one field accumulator after `k` template positions.
pub open spec fn acc_ok(acc: Option<u32>, c: Seq<char>, t: Seq<char>, l: char, k: int) -> bool {
    match acc {
        Some(v) => v as nat == digits_value(field_digits(c, t, l, k)),
        None => digits_value(field_digits(c, t, l, k)) > u32_max(),
    }
}

proof fn lemma_acc_step(
    acc: Option<u32>,
    r: Option<u32>,
    ch: char,
    c: Seq<char>,
    t: Seq<char>,
    l: char,
    k: int,
)
    requires
        0 <= k < t.len(),
        c.len() == t.len(),
        acc_ok(acc, c, t, l, k),
        t[k] == l,
        c[k] == ch,
        is_digit(ch),
        match acc {
            Some(v) => if v as nat * 10 + digit_val(ch) <= u32_max() {
                r == Some((v as nat * 10 + digit_val(ch)) as u32)
            } else {
                r is None
            },
            None => r is None,
        },
    ensures
        acc_ok(r, c, t, l, k + 1),
{
    lemma_digits_value_push(field_digits(c, t, l, k), ch);
    assert(field_digits(c, t, l, k + 1) == field_digits(c, t, l, k).push(ch));
}

/// Read the fields of `c` under template `t` and build the date.
fn parse_with_template(c: &Vec<char>, f: &FormatSpec, current_year: i32) -> (r: Option<
    DateTimeParts,
>)
    requires
        current_year <= i32::MAX - 10,
    ensures
        r == spec_parse_with(c@, f.template@, f.has_century, current_year as int),
{
    let t = chars_of(f.template);
    if c.len() != t.len() {
        return None;
    }
    let mut y: Option<u32> = Some(0);
    let mut mo: Option<u32> = Some(0);
    let mut d: Option<u32> = Some(0);
    let mut h: Option<u32> = Some(0);
    let mut mi: Option<u32> = Some(0);
    let mut s: Option<u32> = Some(0);
    let mut has_y = false;
    let mut has_mo = false;
    let mut has_d = false;
    let mut i: usize = 0;
    while i < t.len()
        invariant
            i <= t.len(),
            c.len() == t.len(),
            t@ == f.template@,
            forall|j: int|
                0 <= j < i ==> if is_field(#[trigger] t@[j]) {
                    is_digit(c@[j])
                } else {
                    c@[j] == t@[j]
                },
            acc_ok(y, c@, t@, 'Y', i as int),
            acc_ok(mo, c@, t@, 'M', i as int),
            acc_ok(d, c@, t@, 'D', i as int),
            acc_ok(h, c@, t@, 'H', i as int),
            acc_ok(mi, c@, t@, 'm', i as int),
            acc_ok(s, c@, t@, 's', i as int),
            has_y == (exists|j: int| 0 <= j < i && t@[j] == 'Y'),
            has_mo == (exists|j: int| 0 <= j < i && t@[j] == 'M'),
            has_d == (exists|j: int| 0 <= j < i && t@[j] == 'D'),
        decreases t.len() - i,
    {
        let tc = t[i];
        let cc = c[i];
        let ghost k = i as int;
        if tc == 'Y' || tc == 'M' || tc == 'D' || tc == 'H' || tc == 'm' || tc == 's' {
            if !is_digit_exec(cc) {
                proof {
                    assert(!fits(c@, t@));
                }
                return None;
            }
        } else if cc != tc {
            proof {
                assert(!fits(c@, t@));
            }
            return None;
        }
        proof {
            assert(field_digits(c@, t@, 'Y', k + 1) == if tc == 'Y' {
                field_digits(c@, t@, 'Y', k).push(cc)
            } else {
                field_digits(c@, t@, 'Y', k)
            });
        }
        if tc == 'Y' {
            let ny = acc_digit(y, cc);
            proof {
                lemma_acc_step(y, ny, cc, c@, t@, 'Y', k);
            }
            y = ny;
            has_y = true;
        } else if tc == 'M' {
            let n = acc_digit(mo, cc);
            proof {
                lemma_acc_step(mo, n, cc, c@, t@, 'M', k);
            }
            mo = n;
            has_mo = true;
        } else if tc == 'D' {
            let n = acc_digit(d, cc);
            proof {
                lemma_acc_step(d, n, cc, c@, t@, 'D', k);
            }
            d = n;
            has_d = true;
        } else if tc == 'H' {
            let n = acc_digit(h, cc);
            proof {
                lemma_acc_step(h, n, cc, c@, t@, 'H', k);
            }
            h = n;
        } else if tc == 'm' {
            let n = acc_digit(mi, cc);
            proof {
                lemma_acc_step(mi, n, cc, c@, t@, 'm', k);
            }
            mi = n;
        } else if tc == 's' {
            let n = acc_digit(s, cc);
            proof {
                lemma_acc_step(s, n, cc, c@, t@, 's', k);
            }
            s = n;
        }
        i += 1;
    }
    proof {
        assert(fits(c@, t@));
        assert(has_y == t@.contains('Y'));
        assert(has_mo == t@.contains('M'));
        assert(has_d == t@.contains('D'));
    }
    if !has_y {
        return None;
    }
    match (y, mo, d, h, mi, s) {
        (Some(yv), Some(mv), Some(dv), Some(hv), Some(miv), Some(sv)) => {
            let mut year: i64 = yv as i64;
            if !f.has_century {
                year = year + 2000;
                let next_ten: i64 = current_year as i64 + 10;
                if year > next_ten {
                    year = year - 100;
                }
            }
            let month = if has_mo { mv } else { 1 };
            let day = if has_d { dv } else { 1 };
            if year < -262143 || year > 262142 {
                return None;
            }
            if date_time_exists(year as i32, month, day, hv, miv, sv) {
                Some(
                    DateTimeParts {
                        year: year as i32,
                        month,
                        day,
                        hour: hv,
                        minute: miv,
                        second: sv,
                    },
                )
            } else {
                None
            }
        },
        _ => None,
    }
}

/// Try every table template of the same length as `e`, in table order.
fn try_date_effective_full(e: &Vec<char>, current_year: i32) -> (r: Option<DateHit>)
    requires
        current_year <= i32::MAX - 10,
    ensures
        r matches Some(h) ==> h.parts.year >= 0 && h.iso@ == iso_of(h.parts, h.kind),
        match r {
            Some(h) => spec_try_formats(e@, current_year as int, 0) == Some(
                (h.iso@, h.kind, h.parts, h.template@),
            ),
            None => spec_try_formats(e@, current_year as int, 0) is None,
        },
{
    let table = possible_formats();
    let mut i: usize = 0;
    while i < table.len()
        invariant
            i <= table.len(),
            current_year <= i32::MAX - 10,
            table@.len() == format_templates().len(),
            forall|j: int|
                0 <= j < table@.len() ==> (#[trigger] table@[j]).template@ == format_templates()[j]
                    && entry_ok(table@[j]),
            spec_try_formats(e@, current_year as int, 0) == spec_try_formats(
                e@,
                current_year as int,
                i as int,
            ),
        decreases table.len() - i,
    {
        let f = &table[i];
        let t = chars_of(f.template);
        if t.len() == e.len() {
            match parse_with_template(e, f, current_year) {
                Some(p) => {
                    proof {
                        assert(p.year >= 0);
                    }
                    let iso = format_iso(p, f.kind);
                    return Some(DateHit { iso, kind: f.kind, parts: p, template: f.template });
                },
                None => {},
            }
        }
        i += 1;
    }
    None
}

/// A digit string of length `lo..=hi`.
pub open spec fn digit_run(s: Seq<char>, lo: int, hi: int) -> bool {
    lo <= s.len() <= hi && all_digits(s)
}

/// Left-pad a one-character field with `'0'`.
pub open spec fn pad2(s: Seq<char>) -> Seq<char> {
    if s.len() == 1 {
        seq!['0'] + s
    } else {
        s
    }
}

/// Indices of the `'_'` characters of `s`, in increasing order.
pub open spec fn underscores(s: Seq<char>) -> Seq<int>
    decreases s.len(),
{
    if s.len() == 0 {
        Seq::empty()
    } else if s.last() == '_' {
        underscores(s.drop_last()).push(s.len() - 1)
    } else {
        underscores(s.drop_last())
    }
}

/// Zero-padded rewrites of an unpadded date, in the order they are tried:
/// `YYYY_M_D` gives one candidate `YYYY_MM_DD`; the ambiguous `D_M_YYYY`
/// gives `DD_MM_YYYY` first and `MM_DD_YYYY` second. Empty when the
/// candidate has neither shape or is already fully padded.
pub open spec fn spec_pads(c: Seq<char>) -> Seq<Seq<char>> {
    let u = underscores(c);
    if u.len() != 2 {
        Seq::empty()
    } else {
        let a = c.subrange(0, u[0]);
        let b = c.subrange(u[0] + 1, u[1]);
        let d = c.subrange(u[1] + 1, c.len() as int);
        if digit_run(a, 4, 4) && digit_run(b, 1, 2) && digit_run(d, 1, 2) {
            if b.len() != 2 || d.len() != 2 {
                seq![a + seq!['_'] + pad2(b) + seq!['_'] + pad2(d)]
            } else {
                Seq::empty()
            }
        } else if digit_run(a, 1, 2) && digit_run(b, 1, 2) && digit_run(d, 4, 4) {
            if a.len() != 2 || b.len() != 2 {
                seq![
                    pad2(a) + seq!['_'] + pad2(b) + seq!['_'] + d,
                    pad2(b) + seq!['_'] + pad2(a) + seq!['_'] + d,
                ]
            } else {
                Seq::empty()
            }
        } else {
            Seq::empty()
        }
    }
}

/// Parse a candidate: through its zero-padded rewrites when it has any,
/// directly otherwise.
pub open spec fn spec_try_date_full(c: Seq<char>, current_year: int) -> Option<
    (Seq<char>, DateKind, DateTimeParts, Seq<char>),
> {
    let pads = spec_pads(c);
    if pads.len() == 0 {
        spec_try_formats(c, current_year, 0)
    } else if spec_try_formats(pads[0], current_year, 0) is Some {
        spec_try_formats(pads[0], current_year, 0)
    } else if pads.len() > 1 {
        spec_try_formats(pads[1], current_year, 0)
    } else {
        None
    }
}

/// Positions of the underscores of `c`.
fn underscore_positions(c: &Vec<char>) -> (u: Vec<usize>)
    ensures
        u@.len() == underscores(c@).len(),
        forall|i: int| 0 <= i < u@.len() ==> #[trigger] u@[i] as int == underscores(c@)[i],
{
    let mut u: Vec<usize> = Vec::new();
    let mut i: usize = 0;
    while i < c.len()
        invariant
            i <= c.len(),
            u@.len() == underscores(c@.take(i as int)).len(),
            forall|j: int|
                0 <= j < u@.len() ==> #[trigger] u@[j] as int == underscores(c@.take(i as int))[j],
        decreases c.len() - i,
    {
        assert(c@.take(i + 1).drop_last() =~= c@.take(i as int));
        if c[i] == '_' {
            u.push(i);
        }
        i += 1;
    }
    assert(c@.take(i as int) =~= c@);
    u
}

proof fn lemma_underscores_facts(s: Seq<char>)
    ensures
        forall|k: int|
            0 <= k < underscores(s).len() ==> 0 <= #[trigger] underscores(s)[k] < s.len() && s[underscores(s)[k]] == '_',
        forall|k: int, m: int|
            0 <= k < m < underscores(s).len() ==> #[trigger] underscores(s)[k] < #[trigger] underscores(s)[m],
        forall|j: int|
            0 <= j < s.len() && s[j] == '_' ==> exists|k: int|
                0 <= k < underscores(s).len() && #[trigger] underscores(s)[k] == j,
    decreases s.len(),
{
    if s.len() > 0 {
        let p = s.drop_last();
        lemma_underscores_facts(p);
        assert forall|j: int| 0 <= j < s.len() && s[j] == '_' implies exists|k: int|
            0 <= k < underscores(s).len() && #[trigger] underscores(s)[k] == j by {
            if j < s.len() - 1 {
                assert(p[j] == s[j]);
                let k = choose|k: int| 0 <= k < underscores(p).len() && #[trigger] underscores(p)[k] == j;
                assert(underscores(s)[k] == j);
            } else {
                assert(underscores(s)[underscores(s).len() - 1] == j);
            }
        }
    }
}

/// `s[lo..hi]` is a digit run of length `min..=max`.
fn digit_run_exec(s: &Vec<char>, lo: usize, hi: usize, min: usize, max: usize) -> (b: bool)
    requires
        lo <= hi <= s.len(),
    ensures
        b == digit_run(s@.subrange(lo as int, hi as int), min as int, max as int),
{
    if hi - lo < min || hi - lo > max {
        return false;
    }
    let mut i = lo;
    while i < hi
        invariant
            lo <= i <= hi <= s.len(),
            forall|j: int| lo <= j < i ==> is_digit(#[trigger] s@[j]),
        decreases hi - i,
    {
        if !is_digit_exec(s[i]) {
            assert(s@.subrange(lo as int, hi as int)[i - lo] == s@[i as int]);
            return false;
        }
        i += 1;
    }
    assert forall|j: int| 0 <= j < hi - lo implies is_digit(
        #[trigger] s@.subrange(lo as int, hi as int)[j],
    ) by {
        assert(s@.subrange(lo as int, hi as int)[j] == s@[lo + j]);
    }
    true
}

fn push_pad2(out: &mut Vec<char>, s: &Vec<char>, lo: usize, hi: usize)
    requires
        lo <= hi <= s.len(),
    ensures
        final(out)@ == old(out)@ + pad2(s@.subrange(lo as int, hi as int)),
{
    if hi - lo == 1 {
        out.push('0');
    }
    let part = crate::text::sub_chars(s, lo, hi);
    let ghost mid = out@;
    crate::text::extend_chars(out, &part);
    proof {
        if hi - lo == 1 {
            assert(out@ =~= old(out)@ + (seq!['0'] + part@));
        } else {
            assert(out@ =~= old(out)@ + part@);
        }
    }
}

/// Zero-pad unpadded date candidates (see [`spec_pads`]).
fn pad_unpadded_date(c: &Vec<char>) -> (r: Vec<Vec<char>>)
    ensures
        r@.len() == spec_pads(c@).len(),
        forall|i: int| 0 <= i < r@.len() ==> #[trigger] r@[i]@ == spec_pads(c@)[i],
{
    let u = underscore_positions(c);
    let mut out: Vec<Vec<char>> = Vec::new();
    if u.len() != 2 {
        return out;
    }
    proof {
        lemma_underscores_facts(c@);
    }
    let p1 = u[0];
    let p2 = u[1];
    let n = c.len();
    let ghost a = c@.subrange(0, p1 as int);
    let ghost b = c@.subrange(p1 + 1, p2 as int);
    let ghost d = c@.subrange(p2 + 1, n as int);
    if digit_run_exec(c, 0, p1, 4, 4) && digit_run_exec(c, p1 + 1, p2, 1, 2) && digit_run_exec(
        c,
        p2 + 1,
        n,
        1,
        2,
    ) {
        if p2 - (p1 + 1) != 2 || n - (p2 + 1) != 2 {
            let mut v = crate::text::sub_chars(c, 0, p1);
            v.push('_');
            push_pad2(&mut v, c, p1 + 1, p2);
            v.push('_');
            push_pad2(&mut v, c, p2 + 1, n);
            assert(v@ =~= a + seq!['_'] + pad2(b) + seq!['_'] + pad2(d));
            out.push(v);
        }
    } else if digit_run_exec(c, 0, p1, 1, 2) && digit_run_exec(c, p1 + 1, p2, 1, 2)
        && digit_run_exec(c, p2 + 1, n, 4, 4) {
        if p1 != 2 || p2 - (p1 + 1) != 2 {
            let mut v: Vec<char> = Vec::new();
            push_pad2(&mut v, c, 0, p1);
            v.push('_');
            push_pad2(&mut v, c, p1 + 1, p2);
            v.push('_');
            let tail = crate::text::sub_chars(c, p2 + 1, n);
            crate::text::extend_chars(&mut v, &tail);
            assert(v@ =~= pad2(a) + seq!['_'] + pad2(b) + seq!['_'] + d);
            let mut w: Vec<char> = Vec::new();
            push_pad2(&mut w, c, p1 + 1, p2);
            w.push('_');
            push_pad2(&mut w, c, 0, p1);
            w.push('_');
            crate::text::extend_chars(&mut w, &tail);
            assert(w@ =~= pad2(b) + seq!['_'] + pad2(a) + seq!['_'] + d);
            out.push(v);
            out.push(w);
        }
    }
    out
}

fn try_date_full(c: &Vec<char>, current_year: i32) -> (r: Option<DateHit>)
    requires
        current_year <= i32::MAX - 10,
    ensures
        r matches Some(h) ==> h.parts.year >= 0 && h.iso@ == iso_of(h.parts, h.kind),
        match r {
            Some(h) => spec_try_date_full(c@, current_year as int) == Some(
                (h.iso@, h.kind, h.parts, h.template@),
            ),
            None => spec_try_date_full(c@, current_year as int) is None,
        },
{
    let pads = pad_unpadded_date(c);
    if pads.len() > 0 {
        let first = try_date_effective_full(&pads[0], current_year);
        if first.is_some() {
            return first;
        }
        if pads.len() > 1 {
            return try_date_effective_full(&pads[1], current_year);
        }
        return None;
    }
    try_date_effective_full(c, current_year)
}

/// Try to parse `candidate` as one of the known formats. Returns
/// `Some((iso_string, kind))` on success, `None` if no format matches.
///
/// The candidate uses `_` as its internal separator. Unpadded dates
/// (`YYYY_M_D`, `D_M_YYYY`, ...) are zero-padded first; for the ambiguous
/// human order, day/month/year is tried before month/day/year.
pub fn try_date(candidate: &str, current_year: i32) -> (r: Option<(String, DateKind)>)
    requires
        current_year <= i32::MAX - 10,
    ensures
        match r {
            Some((iso, k)) => spec_try_date_full(candidate@, current_year as int) matches Some(
                h,
            ) && h.0 == iso@ && h.1 == k,
            None => spec_try_date_full(candidate@, current_year as int) is None,
        },
{
    let c = chars_of(candidate);
    match try_date_full(&c, current_year) {
        Some(h) => Some((crate::text::string_from_chars(&h.iso), h.kind)),
        None => None,
    }
}

/// Number of `_`-separated segments of `c`.
pub open spec fn seg_count(c: Seq<char>) -> int {
    underscores(c).len() + 1int
}

/// Start of segment `k`.
pub open spec fn seg_lo(c: Seq<char>, k: int) -> int {
    if k == 0 {
        0
    } else {
        underscores(c)[k - 1] + 1
    }
}

/// End (exclusive) of segment `k`.
pub open spec fn seg_hi(c: Seq<char>, k: int) -> int {
    if k == seg_count(c) - 1 {
        c.len() as int
    } else {
        underscores(c)[k]
    }
}

/// Search the windows of consecutive segments: sizes from `size` down to 1,
/// and within one size from left to right, starting at segment `start`.
/// The first window that parses gives its bounds and the parse.
pub open spec fn window_search(c: Seq<char>, current_year: int, size: int, start: int) -> Option<
    (int, int, (Seq<char>, DateKind, DateTimeParts, Seq<char>)),
>
    decreases size, seg_count(c) + 1 - start,
{
    if size <= 0 {
        None
    } else if start < 0 || start + size > seg_count(c) {
        window_search(c, current_year, size - 1, 0)
    } else {
        let lo = seg_lo(c, start);
        let hi = seg_hi(c, start + size - 1);
        match spec_try_date_full(c.subrange(lo, hi), current_year) {
            Some(h) => Some((lo, hi, h)),
            None => window_search(c, current_year, size, start + 1),
        }
    }
}

/// The first window of `c` that parses as a date.
pub open spec fn spec_date_in_windows(c: Seq<char>, current_year: int) -> Option<
    (int, int, (Seq<char>, DateKind, DateTimeParts, Seq<char>)),
> {
    window_search(c, current_year, seg_count(c), 0)
}

/// What a date-regex match becomes: the ISO date in place of the window,
/// the rest of the candidate around it, wrapped in `_` markers; the
/// candidate itself when no window parses.
pub open spec fn spec_replacement(c: Seq<char>, current_year: int) -> Seq<char> {
    match spec_date_in_windows(c, current_year) {
        Some((lo, hi, h)) => seq!['_'] + c.subrange(0, lo) + h.0 + c.subrange(hi, c.len() as int)
            + seq!['_'],
        None => c,
    }
}

proof fn lemma_underscores_len(s: Seq<char>)
    ensures
        underscores(s).len() <= s.len(),
    decreases s.len(),
{
    if s.len() > 0 {
        lemma_underscores_len(s.drop_last());
    }
}

proof fn lemma_window_bounds(c: Seq<char>, start: int, last: int)
    requires
        0 <= start <= last < seg_count(c),
    ensures
        0 <= seg_lo(c, start) <= seg_hi(c, last) <= c.len(),
{
    lemma_underscores_facts(c);
    if start > 0 {
        assert(underscores(c)[start - 1] < c.len());
    }
    if last < seg_count(c) - 1 {
        assert(underscores(c)[last] < c.len());
        if start > 0 {
            assert(underscores(c)[start - 1] < underscores(c)[last]);
        }
    }
}

proof fn lemma_underscores_first(c: Seq<char>)
    requires
        c.len() > 0,
        c[0] != '_',
    ensures
        underscores(c).len() < c.len(),
    decreases c.len(),
{
    if c.len() > 1 {
        assert(c.drop_last()[0] == c[0]);
        lemma_underscores_first(c.drop_last());
        assert(underscores(c).len() <= underscores(c.drop_last()).len() + 1);
    } else {
        assert(c.drop_last().len() == 0);
        assert(underscores(c.drop_last()).len() == 0);
        assert(c.last() == c[0]);
    }
}

/// The window search, with the parse of the window that wins.
struct WindowHit {
    lo: usize,
    hi: usize,
    hit: DateHit,
}

fn try_date_in_windows_full(c: &Vec<char>, current_year: i32) -> (r: Option<WindowHit>)
    requires
        current_year <= i32::MAX - 10,
        underscores(c@).len() < usize::MAX,
    ensures
        r matches Some(w) ==> w.hit.parts.year >= 0 && w.hit.iso@ == iso_of(w.hit.parts, w.hit.kind) && w.lo <= w.hi <= c@.len(),
        match r {
            Some(w) => spec_date_in_windows(c@, current_year as int) == Some(
                (w.lo as int, w.hi as int, (w.hit.iso@, w.hit.kind, w.hit.parts, w.hit.template@)),
            ),
            None => spec_date_in_windows(c@, current_year as int) is None,
        },
{
    let u = underscore_positions(c);
    proof {
        lemma_underscores_facts(c@);
    }
    let m = u.len();
    let clen = c.len();
    let mut sm = m;
    let mut more = true;
    while more
        invariant
            m + 1 == seg_count(c@),
            m < usize::MAX,
            clen == c@.len(),
            sm <= m,
            u@.len() == underscores(c@).len(),
            forall|i: int| 0 <= i < u@.len() ==> #[trigger] u@[i] as int == underscores(c@)[i],
            forall|i: int| 0 <= i < u@.len() ==> #[trigger] u@[i] < c@.len(),
            current_year <= i32::MAX - 10,
            more ==> spec_date_in_windows(c@, current_year as int) == window_search(
                c@,
                current_year as int,
                sm + 1,
                0,
            ),
            !more ==> spec_date_in_windows(c@, current_year as int) == window_search(
                c@,
                current_year as int,
                0,
                0,
            ),
        decreases sm, if more { 1int } else { 0int },
    {
        let mut start: usize = 0;
        while start + sm <= m
            invariant
                m + 1 == seg_count(c@),
                m < usize::MAX,
                clen == c@.len(),
                sm <= m,
                start + sm <= m + 1,
                u@.len() == underscores(c@).len(),
                forall|i: int| 0 <= i < u@.len() ==> #[trigger] u@[i] as int == underscores(c@)[i],
                forall|i: int| 0 <= i < u@.len() ==> #[trigger] u@[i] < c@.len(),
                current_year <= i32::MAX - 10,
                spec_date_in_windows(c@, current_year as int) == window_search(
                    c@,
                    current_year as int,
                    sm + 1,
                    start as int,
                ),
            decreases m + 1 - start,
        {
            let lo = if start == 0 {
                0
            } else {
                assert(u@[start - 1] < c@.len());
                u[start - 1] + 1
            };
            let last = start + sm;
            let hi = if last == m { c.len() } else { u[last] };
            proof {
                lemma_window_bounds(c@, start as int, last as int);
            }
            let window = crate::text::sub_chars(c, lo, hi);
            match try_date_full(&window, current_year) {
                Some(h) => {
                    proof {
                        lemma_window_bounds(c@, start as int, last as int);
                    }
                    return Some(WindowHit { lo, hi, hit: h });
                },
                None => {},
            }
            start += 1;
        }
        if sm == 0 {
            more = false;
        } else {
            sm -= 1;
        }
    }
    None
}

/// Characters a date-regex match may hold: digits and `-`, `_`, `.`.
pub open spec fn is_date_class(c: char) -> bool {
    is_digit(c) || c == '-' || c == '_' || c == '.'
}

/// End of the run of date-class characters that starts at `i`.
pub open spec fn run_end(s: Seq<char>, i: int) -> int
    decreases s.len() - i,
{
    if 0 <= i < s.len() && is_date_class(s[i]) {
        run_end(s, i + 1)
    } else {
        i
    }
}

/// Index of the last digit in `s[lo..hi]`.
pub open spec fn last_digit(s: Seq<char>, lo: int, hi: int) -> Option<int>
    decreases hi - lo,
{
    if hi <= lo {
        None
    } else if is_digit(s[hi - 1]) {
        Some(hi - 1)
    } else {
        last_digit(s, lo, hi - 1)
    }
}

/// End of the date-regex match (`[0-9][0-9\-_.]+[0-9]`, greedy) that starts
/// at `i`, if one starts there.
pub open spec fn match_end(s: Seq<char>, i: int) -> Option<int> {
    if 0 <= i < s.len() && is_digit(s[i]) {
        match last_digit(s, i + 2, run_end(s, i + 1)) {
            Some(j) => Some(j + 1),
            None => None,
        }
    } else {
        None
    }
}

/// The leftmost date-regex match at or after `p`.
pub open spec fn next_match(s: Seq<char>, p: int) -> Option<(int, int)>
    decreases s.len() - p,
{
    if p < 0 || p >= s.len() {
        None
    } else {
        match match_end(s, p) {
            Some(e) => Some((p, e)),
            None => next_match(s, p + 1),
        }
    }
}

/// Replace, from `p` on, every date-regex match by its replacement.
pub open spec fn spec_detect(s: Seq<char>, current_year: int, p: int) -> Seq<char>
    decreases s.len() - p,
{
    if p < 0 || p > s.len() {
        Seq::empty()
    } else {
        match next_match(s, p) {
            Some((i, e)) => if p <= i < e <= s.len() {
                s.subrange(p, i) + spec_replacement(s.subrange(i, e), current_year) + spec_detect(
                    s,
                    current_year,
                    e,
                )
            } else {
                s.subrange(p, s.len() as int)
            },
            None => s.subrange(p, s.len() as int),
        }
    }
}

/// The first match, from `p` on, whose candidate holds a date: its start,
/// the start of the date's window inside the candidate, and the parse.
pub open spec fn first_hit(s: Seq<char>, current_year: int, p: int) -> Option<
    (int, int, (Seq<char>, DateKind, DateTimeParts, Seq<char>)),
>
    decreases s.len() - p,
{
    if p < 0 || p > s.len() {
        None
    } else {
        match next_match(s, p) {
            Some((i, e)) => if p <= i < e <= s.len() {
                match spec_date_in_windows(s.subrange(i, e), current_year) {
                    Some((lo, hi, h)) => Some((i, lo, h)),
                    None => first_hit(s, current_year, e),
                }
            } else {
                None
            },
            None => None,
        }
    }
}

proof fn lemma_run_end_bounds(s: Seq<char>, i: int)
    requires
        0 <= i <= s.len(),
    ensures
        i <= run_end(s, i) <= s.len(),
        forall|k: int| i <= k < run_end(s, i) ==> is_date_class(#[trigger] s[k]),
    decreases s.len() - i,
{
    if i < s.len() && is_date_class(s[i]) {
        lemma_run_end_bounds(s, i + 1);
    }
}

proof fn lemma_last_digit_bounds(s: Seq<char>, lo: int, hi: int)
    ensures
        last_digit(s, lo, hi) matches Some(j) ==> lo <= j < hi && is_digit(s[j]),
    decreases hi - lo,
{
    if hi > lo && !is_digit(s[hi - 1]) {
        lemma_last_digit_bounds(s, lo, hi - 1);
    }
}

proof fn lemma_next_match_bounds(s: Seq<char>, p: int)
    ensures
        next_match(s, p) matches Some((i, e)) ==> p <= i && i + 3 <= e <= s.len(),
    decreases s.len() - p,
{
    if 0 <= p < s.len() {
        if match_end(s, p) is Some {
            lemma_run_end_bounds(s, p + 1);
            lemma_last_digit_bounds(s, p + 2, run_end(s, p + 1));
        } else {
            lemma_next_match_bounds(s, p + 1);
        }
    }
}

proof fn lemma_match_starts_with_digit(s: Seq<char>, p: int)
    ensures
        next_match(s, p) matches Some((i, e)) ==> 0 <= i < s.len() && is_digit(s[i]),
    decreases s.len() - p,
{
    if 0 <= p < s.len() && match_end(s, p) is None {
        lemma_match_starts_with_digit(s, p + 1);
    }
}

fn run_end_exec(s: &Vec<char>, i: usize) -> (r: usize)
    requires
        i <= s.len(),
    ensures
        r == run_end(s@, i as int),
{
    let mut k = i;
    while k < s.len() && (is_digit_exec(s[k]) || s[k] == '-' || s[k] == '_' || s[k] == '.')
        invariant
            i <= k <= s.len(),
            run_end(s@, i as int) == run_end(s@, k as int),
        decreases s.len() - k,
    {
        k += 1;
    }
    k
}

fn last_digit_exec(s: &Vec<char>, lo: usize, hi: usize) -> (r: Option<usize>)
    requires
        hi <= s.len(),
    ensures
        match r {
            Some(j) => last_digit(s@, lo as int, hi as int) == Some(j as int),
            None => last_digit(s@, lo as int, hi as int) is None,
        },
{
    let mut h = hi;
    while h > lo
        invariant
            h <= hi <= s.len(),
            last_digit(s@, lo as int, hi as int) == last_digit(s@, lo as int, h as int),
        decreases h,
    {
        if is_digit_exec(s[h - 1]) {
            return Some(h - 1);
        }
        h -= 1;
    }
    None
}

fn find_match(s: &Vec<char>, p: usize) -> (r: Option<(usize, usize)>)
    requires
        p <= s.len(),
    ensures
        match r {
            Some((i, e)) => next_match(s@, p as int) == Some((i as int, e as int)),
            None => next_match(s@, p as int) is None,
        },
{
    let mut i = p;
    while i < s.len()
        invariant
            p <= i <= s.len(),
            next_match(s@, p as int) == next_match(s@, i as int),
        decreases s.len() - i,
    {
        if is_digit_exec(s[i]) {
            let r = run_end_exec(s, i + 1);
            proof {
                lemma_run_end_bounds(s@, i + 1);
                lemma_last_digit_bounds(s@, i + 2, r as int);
            }
            if r >= 2 && i <= r - 2 {
                match last_digit_exec(s, i + 2, r) {
                    Some(j) => {
                        return Some((i, j + 1));
                    },
                    None => {},
                }
            } else {
                assert(last_digit(s@, i + 2, r as int) is None);
            }
        }
        i += 1;
    }
    None
}

/// The replacement text of one match.
fn replacement(c: &Vec<char>, current_year: i32) -> (r: (Vec<char>, Option<WindowHit>))
    requires
        current_year <= i32::MAX - 10,
        underscores(c@).len() < usize::MAX,
    ensures
        r.1 matches Some(w) ==> w.hit.parts.year >= 0 && w.hit.iso@ == iso_of(w.hit.parts, w.hit.kind) && w.lo <= w.hi <= c@.len(),
        r.0@ == spec_replacement(c@, current_year as int),
        match r.1 {
            Some(w) => spec_date_in_windows(c@, current_year as int) == Some(
                (w.lo as int, w.hi as int, (w.hit.iso@, w.hit.kind, w.hit.parts, w.hit.template@)),
            ),
            None => spec_date_in_windows(c@, current_year as int) is None,
        },
{
    match try_date_in_windows_full(c, current_year) {
        Some(w) => {
            proof {
                lemma_window_search_bounds(c@, current_year as int, seg_count(c@), 0);
            }
            let mut out: Vec<char> = Vec::new();
            out.push('_');
            let pre = crate::text::sub_chars(c, 0, w.lo);
            crate::text::extend_chars(&mut out, &pre);
            crate::text::extend_chars(&mut out, &w.hit.iso);
            let post = crate::text::sub_chars(c, w.hi, c.len());
            crate::text::extend_chars(&mut out, &post);
            out.push('_');
            assert(out@ =~= seq!['_'] + c@.subrange(0, w.lo as int) + w.hit.iso@ + c@.subrange(
                w.hi as int,
                c@.len() as int,
            ) + seq!['_']);
            (out, Some(w))
        },
        None => (c.clone(), None),
    }
}

proof fn lemma_window_search_bounds(c: Seq<char>, current_year: int, size: int, start: int)
    ensures
        window_search(c, current_year, size, start) matches Some((lo, hi, h)) ==> 0 <= lo <= hi
            <= c.len(),
    decreases size, seg_count(c) + 1 - start,
{
    if size > 0 {
        if start < 0 || start + size > seg_count(c) {
            lemma_window_search_bounds(c, current_year, size - 1, 0);
        } else {
            lemma_window_bounds(c, start, start + size - 1);
            lemma_window_search_bounds(c, current_year, size, start + 1);
        }
    }
}

/// Every date in `s` rewritten in ISO form, as characters.
pub fn detect_chars(s: &Vec<char>, current_year: i32) -> (r: Vec<char>)
    requires
        current_year <= i32::MAX - 10,
    ensures
        r@ == spec_detect(s@, current_year as int, 0),
{
    let mut out: Vec<char> = Vec::new();
    let mut p: usize = 0;
    while p <= s.len()
        invariant
            p <= s.len(),
            current_year <= i32::MAX - 10,
            spec_detect(s@, current_year as int, 0) == out@ + spec_detect(
                s@,
                current_year as int,
                p as int,
            ),
        decreases s.len() + 1 - p,
    {
        proof {
            lemma_next_match_bounds(s@, p as int);
        }
        match find_match(s, p) {
            Some((i, e)) => {
                let gap = crate::text::sub_chars(s, p, i);
                crate::text::extend_chars(&mut out, &gap);
                let cand = crate::text::sub_chars(s, i, e);
                proof {
                    lemma_match_starts_with_digit(s@, p as int);
                    lemma_underscores_first(cand@);
                }
                let (rep, _) = replacement(&cand, current_year);
                crate::text::extend_chars(&mut out, &rep);
                p = e;
            },
            None => {
                let rest = crate::text::sub_chars(s, p, s.len());
                crate::text::extend_chars(&mut out, &rest);
                assert(spec_detect(s@, current_year as int, s@.len() as int) =~= Seq::empty());
                return out;
            },
        }
    }
    out
}

/// Run the date regex over `slugged` and replace each detected span with
/// `_` + ISO date + `_` (see [`spec_detect`]). `internal_sep` is reserved:
/// the format table is keyed off `_`.
pub fn detect_and_replace(slugged: &str, internal_sep: char, current_year: i32) -> (r: String)
    requires
        current_year <= i32::MAX - 10,
    ensures
        r@ == spec_detect(slugged@, current_year as int, 0),
{
    let s = chars_of(slugged);
    crate::text::string_from_chars(&detect_chars(&s, current_year))
}

/// Every date in `s` rewritten in ISO form, with the first date found.
pub fn detect_with_span_chars(s: &Vec<char>, current_year: i32) -> (r: (Vec<char>, Option<DetectedDate>))
    requires
        current_year <= i32::MAX - 10,
        s@.len() * 4 + 100 <= usize::MAX,
    ensures
        r.0@ == spec_detect(s@, current_year as int, 0),
        match r.1 {
            Some(d) => first_hit(s@, current_year as int, 0) matches Some((i, lo, h)) && d.byte_start
                == utf8_len(s@.take(i)) + 1 + lo && d.byte_end == d.byte_start + h.0.len()
                && d.iso_string@ == h.0 && d.kind == h.1 && d.parsed == h.2 && d.original_format@
                == h.3,
            None => first_hit(s@, current_year as int, 0) is None,
        },
{
    let mut out: Vec<char> = Vec::new();
    let mut first: Option<DetectedDate> = None;
    let mut p: usize = 0;
    while p <= s.len()
        invariant
            p <= s.len(),
            s@.len() * 4 + 100 <= usize::MAX,
            current_year <= i32::MAX - 10,
            spec_detect(s@, current_year as int, 0) == out@ + spec_detect(
                s@,
                current_year as int,
                p as int,
            ),
            first is None ==> out@ == s@.take(p as int) && first_hit(s@, current_year as int, 0)
                == first_hit(s@, current_year as int, p as int),
            match first {
                Some(d) => first_hit(s@, current_year as int, 0) matches Some((i, lo, h))
                    && d.byte_start == utf8_len(s@.take(i)) + 1 + lo && d.byte_end == d.byte_start
                    + h.0.len() && d.iso_string@ == h.0 && d.kind == h.1 && d.parsed == h.2
                    && d.original_format@ == h.3,
                None => true,
            },
        decreases s.len() + 1 - p,
    {
        proof {
            lemma_next_match_bounds(s@, p as int);
        }
        match find_match(s, p) {
            Some((i, e)) => {
                let gap = crate::text::sub_chars(s, p, i);
                crate::text::extend_chars(&mut out, &gap);
                let cand = crate::text::sub_chars(s, i, e);
                proof {
                    lemma_match_starts_with_digit(s@, p as int);
                    lemma_underscores_first(cand@);
                }
                let (rep, hit) = replacement(&cand, current_year);
                if first.is_none() {
                    proof {
                        assert(out@ =~= s@.take(i as int));
                    }
                    match hit {
                        Some(w) => {
                            let pre = crate::text::utf8_prefix_len(s, i);
                            proof {
                                crate::text::lemma_utf8_len_bound(s@.take(i as int));
                                crate::date::calendar::lemma_iso_len(w.hit.parts, w.hit.kind);
                                assert(w.hit.parts.year >= 0);
                            }
                            let start = pre + 1 + w.lo;
                            let end = start + w.hit.iso.len();
                            first = Some(
                                DetectedDate {
                                    byte_start: start,
                                    byte_end: end,
                                    iso_string: crate::text::string_from_chars(&w.hit.iso),
                                    parsed: w.hit.parts,
                                    original_format: w.hit.template,
                                    kind: w.hit.kind,
                                },
                            );
                        },
                        None => {},
                    }
                }
                crate::text::extend_chars(&mut out, &rep);
                proof {
                    if first is None {
                        assert(rep@ == cand@);
                        assert(out@ =~= s@.take(e as int));
                    }
                }
                p = e;
            },
            None => {
                let rest = crate::text::sub_chars(s, p, s.len());
                crate::text::extend_chars(&mut out, &rest);
                assert(spec_detect(s@, current_year as int, s@.len() as int) =~= Seq::empty());
                return (out, first);
            },
        }
    }
    (out, first)
}

/// Like [`detect_and_replace`] but also returns the first detected date.
///
/// The byte range `byte_start..byte_end` of the returned date is where its
/// ISO text stands in the returned string.
pub fn detect_and_replace_with_span(slugged: &str, internal_sep: char, current_year: i32) -> (r: (
    String,
    Option<DetectedDate>,
))
    requires
        current_year <= i32::MAX - 10,
        slugged@.len() * 4 + 100 <= usize::MAX,
    ensures
        r.0@ == spec_detect(slugged@, current_year as int, 0),
        match r.1 {
            Some(d) => first_hit(slugged@, current_year as int, 0) matches Some((i, lo, h))
                && d.byte_start == utf8_len(slugged@.take(i)) + 1 + lo && d.byte_end == d.byte_start
                + h.0.len() && d.iso_string@ == h.0 && d.kind == h.1 && d.parsed == h.2
                && d.original_format@ == h.3,
            None => first_hit(slugged@, current_year as int, 0) is None,
        },
        r.1 matches Some(d) ==> byte_range_holds(
            r.0@,
            d.byte_start as int,
            d.byte_end as int,
            d.iso_string@,
        ),
{
    let s = chars_of(slugged);
    proof {
        if first_hit(s@, current_year as int, 0) is Some {
            law_span_holds_iso(s@, current_year as int);
        }
    }
    let (out, first) = detect_with_span_chars(&s, current_year);
    (crate::text::string_from_chars(&out), first)
}

// ---------------------------------------------------------------------
// Where the first date lands in the output
// ---------------------------------------------------------------------

proof fn lemma_zero_pad_digits(n: nat, w: nat)
    ensures
        all_digits(zero_pad(n, w)),
{
    crate::plan::naming::lemma_decimal_value(n);
    let d = decimal(n);
    if d.len() < w {
        let z = Seq::new((w - d.len()) as nat, |i: int| '0');
        assert forall|i: int| 0 <= i < (z + d).len() implies is_digit(#[trigger] (z + d)[i]) by {
            if i >= z.len() {
                assert((z + d)[i] == d[i - z.len()]);
            }
        }
    }
}

/// ISO date text: digits and `-`, a `T` only between two digits, and a
/// digit at both ends.
pub open spec fn iso_text(t: Seq<char>) -> bool {
    &&& t.len() > 0
    &&& is_digit(t[0])
    &&& is_digit(t[t.len() - 1])
    &&& forall|i: int|
        0 <= i < t.len() ==> is_digit(#[trigger] t[i]) || t[i] == '-' || (t[i] == 'T' && 0 < i
            && i + 1 < t.len() && is_digit(t[i - 1]) && is_digit(t[i + 1]))
}

pub proof fn lemma_iso_text_ascii(t: Seq<char>)
    requires
        iso_text(t),
    ensures
        all_ascii(t),
{
    assert forall|i: int| 0 <= i < t.len() implies is_ascii_char(#[trigger] t[i]) by {
        assert(is_digit(t[i]) || t[i] == '-' || t[i] == 'T');
    }
}

proof fn lemma_zero_pad_nonempty(n: nat, w: nat)
    ensures
        zero_pad(n, w).len() >= 1,
{
    crate::plan::naming::lemma_decimal_value(n);
}

/// ISO renderings are ISO date text.
proof fn lemma_iso_ascii(p: DateTimeParts, kind: DateKind)
    ensures
        iso_text(iso_of(p, kind)),
        all_ascii(iso_of(p, kind)),
{
    lemma_zero_pad_digits(p.year as nat, 4);
    lemma_zero_pad_digits(p.month as nat, 2);
    lemma_zero_pad_digits(p.day as nat, 2);
    lemma_zero_pad_digits(p.hour as nat, 2);
    lemma_zero_pad_digits(p.minute as nat, 2);
    lemma_zero_pad_digits(p.second as nat, 2);
    lemma_zero_pad_nonempty(p.year as nat, 4);
    lemma_zero_pad_nonempty(p.month as nat, 2);
    lemma_zero_pad_nonempty(p.day as nat, 2);
    lemma_zero_pad_nonempty(p.hour as nat, 2);
    lemma_zero_pad_nonempty(p.second as nat, 2);
    let s = iso_of(p, kind);
    let y = zero_pad(p.year as nat, 4);
    let mo = zero_pad(p.month as nat, 2);
    let d = zero_pad(p.day as nat, 2);
    let h = zero_pad(p.hour as nat, 2);
    let mi = zero_pad(p.minute as nat, 2);
    let se = zero_pad(p.second as nat, 2);
    let ym = y + seq!['-'] + mo;
    let ymd = ym + seq!['-'] + d;
    assert forall|j: int| 0 <= j < ym.len() implies is_digit(#[trigger] ym[j]) || ym[j] == '-' by {
        if j < y.len() {
            assert(ym[j] == y[j]);
        } else if j > y.len() {
            assert(ym[j] == mo[j - y.len() - 1]);
        }
    }
    assert forall|j: int| 0 <= j < ymd.len() implies is_digit(#[trigger] ymd[j]) || ymd[j] == '-' by {
        if j < ym.len() {
            assert(ymd[j] == ym[j]);
        } else if j > ym.len() {
            assert(ymd[j] == d[j - ym.len() - 1]);
        }
    }
    assert(is_digit(ymd[ymd.len() - 1])) by {
        assert(ymd[ymd.len() - 1] == d[d.len() - 1]);
    }
    assert(is_digit(ym[ym.len() - 1])) by {
        assert(ym[ym.len() - 1] == mo[mo.len() - 1]);
    }
    assert(ym[0] == y[0] && ymd[0] == y[0]);
    match kind {
        DateKind::MonthOnly => {},
        DateKind::DateOnly => {},
        DateKind::DateTime => {
            let t1 = ymd + seq!['T'] + h;
            let t2 = t1 + seq!['-'] + mi;
            let t3 = t2 + seq!['-'] + se;
            assert(s == t3);
            assert(t3[0] == y[0]);
            assert(t3[t3.len() - 1] == se[se.len() - 1]);
            assert forall|i: int| 0 <= i < t3.len() implies is_digit(#[trigger] t3[i]) || t3[i] == '-'
                || (t3[i] == 'T' && 0 < i && i + 1 < t3.len() && is_digit(t3[i - 1]) && is_digit(
                t3[i + 1],
            )) by {
                if i < ymd.len() {
                    assert(t3[i] == ymd[i]);
                } else if i == ymd.len() {
                    assert(t3[i] == 'T');
                    assert(t3[i - 1] == ymd[ymd.len() - 1]);
                    assert(t3[i + 1] == h[0]);
                } else if i < t1.len() {
                    assert(t3[i] == h[i - ymd.len() - 1]);
                } else if i == t1.len() {
                    assert(t3[i] == '-');
                } else if i < t2.len() {
                    assert(t3[i] == mi[i - t1.len() - 1]);
                } else if i == t2.len() {
                    assert(t3[i] == '-');
                } else {
                    assert(t3[i] == se[i - t2.len() - 1]);
                }
            }
        },
    }
    lemma_iso_text_ascii(s);
}

proof fn lemma_try_formats_ascii(e: Seq<char>, current_year: int, i: int)
    ensures
        spec_try_formats(e, current_year, i) matches Some(h) ==> iso_text(h.0) && all_ascii(h.0),
    decreases format_templates().len() - i,
{
    if 0 <= i < format_templates().len() {
        let t = format_templates()[i];
        if t.len() == e.len() && spec_parse_with(
            e,
            t,
            crate::date::formats::spec_has_century(t),
            current_year,
        ) is Some {
            let p = spec_parse_with(e, t, crate::date::formats::spec_has_century(t), current_year)->0;
            lemma_iso_ascii(p, crate::date::formats::spec_format_kind(t));
        } else {
            lemma_try_formats_ascii(e, current_year, i + 1);
        }
    }
}

proof fn lemma_window_search_ascii(c: Seq<char>, current_year: int, size: int, start: int)
    ensures
        window_search(c, current_year, size, start) matches Some((lo, hi, h)) ==> iso_text(h.0)
            && all_ascii(h.0),
    decreases size, seg_count(c) + 1 - start,
{
    if size > 0 {
        if start < 0 || start + size > seg_count(c) {
            lemma_window_search_ascii(c, current_year, size - 1, 0);
        } else {
            let lo = seg_lo(c, start);
            let hi = seg_hi(c, start + size - 1);
            let w = c.subrange(lo, hi);
            let pads = spec_pads(w);
            lemma_try_formats_ascii(w, current_year, 0);
            if pads.len() > 0 {
                lemma_try_formats_ascii(pads[0], current_year, 0);
            }
            if pads.len() > 1 {
                lemma_try_formats_ascii(pads[1], current_year, 0);
            }
            lemma_window_search_ascii(c, current_year, size, start + 1);
        }
    }
}

proof fn lemma_match_chars(s: Seq<char>, p: int)
    ensures
        next_match(s, p) matches Some((i, e)) ==> forall|k: int|
            i <= k < e ==> is_date_class(#[trigger] s[k]),
    decreases s.len() - p,
{
    if 0 <= p < s.len() {
        if match_end(s, p) is Some {
            lemma_run_end_bounds(s, p + 1);
            lemma_last_digit_bounds(s, p + 2, run_end(s, p + 1));
        } else {
            lemma_match_chars(s, p + 1);
        }
    }
}

/// The text before a date found at match `i` with window start `lo`: the
/// input from `p`, `_`, the part of the match before the window, the date.
pub open spec fn hit_prefix(s: Seq<char>, p: int, i: int, lo: int, iso: Seq<char>) -> Seq<char> {
    s.subrange(p, i) + seq!['_'] + s.subrange(i, i + lo) + iso
}

/// The output of date detection from `p`, up to the first date found: the
/// text before its match, `_`, the part of the match before the date's
/// window, then the ISO date; all of it after `s[..i]` is ASCII.
pub proof fn lemma_first_hit_output(s: Seq<char>, current_year: int, p: int)
    requires
        0 <= p <= s.len(),
        first_hit(s, current_year, p) is Some,
    ensures
        ({
            let (i, lo, h) = first_hit(s, current_year, p)->0;
            &&& p <= i
            &&& 0 <= lo
            &&& i + lo <= s.len()
            &&& all_ascii(s.subrange(i, i + lo))
            &&& all_ascii(h.0)
            &&& iso_text(h.0)
            &&& hit_prefix(s, p, i, lo, h.0).len() <= spec_detect(s, current_year, p).len()
            &&& spec_detect(s, current_year, p).take(hit_prefix(s, p, i, lo, h.0).len() as int)
                == hit_prefix(s, p, i, lo, h.0)
        }),
    decreases s.len() - p,
{
    lemma_next_match_bounds(s, p);
    lemma_match_chars(s, p);
    let (i, e) = next_match(s, p)->0;
    let c = s.subrange(i, e);
    match spec_date_in_windows(c, current_year) {
        Some((lo, hi, h)) => {
            lemma_window_search_bounds(c, current_year, seg_count(c), 0);
            lemma_window_search_ascii(c, current_year, seg_count(c), 0);
            assert(c.subrange(0, lo) =~= s.subrange(i, i + lo));
            assert forall|k: int| 0 <= k < lo implies is_ascii_char(#[trigger] s.subrange(i, i + lo)[k]) by {
                assert(s.subrange(i, i + lo)[k] == s[i + k]);
                assert(is_date_class(s[i + k]));
            }
            let tail = c.subrange(hi, c.len() as int) + seq!['_'] + spec_detect(s, current_year, e);
            let pre = hit_prefix(s, p, i, lo, h.0);
            assert(spec_detect(s, current_year, p) =~= pre + tail);
            assert((pre + tail).take(pre.len() as int) =~= pre);
        },
        None => {
            assert(first_hit(s, current_year, p) == first_hit(s, current_year, e));
            lemma_first_hit_output(s, current_year, e);
            let (i2, lo2, h2) = first_hit(s, current_year, e)->0;
            assert(e <= i2 && i2 + lo2 <= s.len());
            let rest = spec_detect(s, current_year, e);
            let pe = hit_prefix(s, e, i2, lo2, h2.0);
            let pp = hit_prefix(s, p, i2, lo2, h2.0);
            assert(spec_detect(s, current_year, p) == s.subrange(p, i) + c + rest);
            assert(p <= i < e);
            assert(s.subrange(p, i2) =~= s.subrange(p, e) + s.subrange(e, i2));
            assert(pp =~= s.subrange(p, e) + pe);
            assert(s.subrange(p, i) + c =~= s.subrange(p, e));
            assert(rest =~= pe + rest.skip(pe.len() as int));
            assert((s.subrange(p, e) + rest).take(pp.len() as int) =~= pp);
        },
    }
}

/// The UTF-8 bytes `start..end` of `out` are the text `t`.
pub open spec fn byte_range_holds(out: Seq<char>, start: int, end: int, t: Seq<char>) -> bool {
    exists|q: int|
        0 <= q && q + t.len() <= out.len() && utf8_len(#[trigger] out.take(q)) == start && utf8_len(
            out.take(q + t.len()),
        ) == end && out.subrange(q, q + t.len()) == t
}

/// The first date's byte range in the output of date detection holds its
/// ISO text: for `out` the output and `q` the date's place in it,
/// `out[q..q + |iso|]` is the ISO text, and the UTF-8 lengths of
/// `out[..q]` and `out[..q + |iso|]` are the range's ends as
/// [`detect_and_replace_with_span`] reports them.
pub proof fn law_span_holds_iso(s: Seq<char>, current_year: int)
    requires
        first_hit(s, current_year, 0) is Some,
    ensures
        ({
            let (i, lo, h) = first_hit(s, current_year, 0)->0;
            let out = spec_detect(s, current_year, 0);
            let start = utf8_len(s.take(i)) + 1 + lo;
            byte_range_holds(out, start, start + h.0.len(), h.0)
        }),
{
    lemma_first_hit_output(s, current_year, 0);
    let (i, lo, h) = first_hit(s, current_year, 0)->0;
    let out = spec_detect(s, current_year, 0);
    let full = hit_prefix(s, 0, i, lo, h.0);
    let pre = s.subrange(0, i) + seq!['_'] + s.subrange(i, i + lo);
    let q = pre.len() as int;
    assert(full =~= pre + h.0);
    assert(out.take(q) =~= out.take(full.len() as int).take(q));
    assert(out.take(q) =~= pre);
    assert(out.take(q + h.0.len()) =~= pre + h.0);
    assert(out.subrange(q, q + h.0.len()) =~= full.subrange(q, q + h.0.len()));
    assert(out.subrange(q, q + h.0.len()) =~= h.0);
    assert(s.take(i) =~= s.subrange(0, i));
    lemma_utf8_len_concat(s.subrange(0, i) + seq!['_'], s.subrange(i, i + lo));
    lemma_utf8_len_concat(s.subrange(0, i), seq!['_']);
    lemma_utf8_len_concat(pre, h.0);
    lemma_utf8_len_ascii(s.subrange(i, i + lo));
    lemma_utf8_len_ascii(h.0);
    assert(utf8_len(seq!['_']) == 1) by {
        let u = seq!['_'];
        assert(u.drop_last() =~= Seq::<char>::empty());
        assert(utf8_len(u.drop_last()) == 0);
        assert(u.last() == '_');
        assert(('_' as u32) < 0x80);
        assert(utf8_width('_') == 1);
    }
}

/// Date detection keeps ASCII text ASCII.
pub proof fn lemma_detect_ascii(s: Seq<char>, current_year: int, p: int)
    requires
        all_ascii(s),
    ensures
        all_ascii(spec_detect(s, current_year, p)),
    decreases s.len() - p,
{
    if 0 <= p <= s.len() {
        lemma_next_match_bounds(s, p);
        match next_match(s, p) {
            Some((i, e)) => {
                if p <= i < e <= s.len() {
                    lemma_detect_ascii(s, current_year, e);
                    let c = s.subrange(i, e);
                    lemma_window_search_bounds(c, current_year, seg_count(c), 0);
                    lemma_window_search_ascii(c, current_year, seg_count(c), 0);
                    let r = spec_replacement(c, current_year);
                    assert(all_ascii(r)) by {
                        assert forall|k: int| 0 <= k < r.len() implies is_ascii_char(#[trigger] r[k]) by {
                            match spec_date_in_windows(c, current_year) {
                                Some((lo, hi, h)) => {
                                    let a = seq!['_'] + c.subrange(0, lo);
                                    let b = a + h.0;
                                    let d = b + c.subrange(hi, c.len() as int);
                                    if k < 1 {
                                    } else if k < a.len() {
                                        assert(r[k] == s[i + k - 1]);
                                    } else if k < b.len() {
                                        assert(r[k] == h.0[k - a.len()]);
                                    } else if k < d.len() {
                                        assert(r[k] == s[i + hi + k - b.len()]);
                                    }
                                },
                                None => {
                                    assert(r[k] == s[i + k]);
                                },
                            }
                        }
                    }
                    let out = spec_detect(s, current_year, p);
                    let x = s.subrange(p, i);
                    let rest = spec_detect(s, current_year, e);
                    assert(out == x + r + rest);
                    assert forall|k: int| 0 <= k < out.len() implies is_ascii_char(#[trigger] out[k]) by {
                        if k < x.len() {
                            assert(out[k] == s[p + k]);
                        } else if k < x.len() + r.len() {
                            assert(out[k] == r[k - x.len()]);
                        } else {
                            assert(out[k] == rest[k - x.len() - r.len()]);
                        }
                    }
                } else {
                    let out = spec_detect(s, current_year, p);
                    assert forall|k: int| 0 <= k < out.len() implies is_ascii_char(#[trigger] out[k]) by {
                        assert(out[k] == s[p + k]);
                    }
                }
            },
            None => {
                let out = spec_detect(s, current_year, p);
                assert forall|k: int| 0 <= k < out.len() implies is_ascii_char(#[trigger] out[k]) by {
                    assert(out[k] == s[p + k]);
                }
            },
        }
    }
}

/// The number written by the two digits of `c` at `i` and `i + 1`.
pub open spec fn two_digit_value(c: Seq<char>, i: int) -> nat {
    digit_val(c[i]) * 10 + digit_val(c[i + 1])
}

/// `c` is six two-digit fields joined by `_`: `dd_mm_yy_HH_mm_ss`.
pub open spec fn six_field_shape(c: Seq<char>) -> bool {
    c.len() == 17 && forall|i: int|
        0 <= i < 17 ==> if i % 3 == 2 {
            c[i] == '_'
        } else {
            is_digit(#[trigger] c[i])
        }
}

proof fn lemma_two_digits(c: Seq<char>, t: Seq<char>, l: char, i: int)
    requires
        c.len() == t.len(),
        0 <= i,
        i + 2 <= t.len(),
        t[i] == l,
        t[i + 1] == l,
        forall|j: int| 0 <= j < t.len() && j != i && j != i + 1 ==> t[j] != l,
    ensures
        field_digits(c, t, l, t.len() as int) == seq![c[i], c[i + 1]],
{
    lemma_field_digits_window(c, t, l, i, t.len() as int);
}

proof fn lemma_field_digits_window(c: Seq<char>, t: Seq<char>, l: char, i: int, k: int)
    requires
        c.len() == t.len(),
        0 <= i,
        i + 2 <= t.len(),
        0 <= k <= t.len(),
        t[i] == l,
        t[i + 1] == l,
        forall|j: int| 0 <= j < t.len() && j != i && j != i + 1 ==> t[j] != l,
    ensures
        field_digits(c, t, l, k) == if k <= i {
            Seq::<char>::empty()
        } else if k == i + 1 {
            seq![c[i]]
        } else {
            seq![c[i], c[i + 1]]
        },
    decreases k,
{
    if k > 0 {
        lemma_field_digits_window(c, t, l, i, k - 1);
        if k - 1 == i {
            assert(Seq::<char>::empty().push(c[i]) =~= seq![c[i]]);
        } else if k - 1 == i + 1 {
            assert(seq![c[i]].push(c[i + 1]) =~= seq![c[i], c[i + 1]]);
        }
    }
}

proof fn lemma_value_of_two(a: char, b: char)
    requires
        is_digit(a),
        is_digit(b),
    ensures
        digits_value(seq![a, b]) == digit_val(a) * 10 + digit_val(b),
        digit_val(a) * 10 + digit_val(b) < 100,
{
    let s = seq![a, b];
    assert(s.drop_last() =~= seq![a]);
    assert(seq![a].drop_last() =~= Seq::<char>::empty());
    assert(seq![a].last() == a);
    assert(s.last() == b);
    assert(digits_value(Seq::<char>::empty()) == 0);
    assert(digits_value(seq![a]) == digit_val(a));
}

/// A date-time written `dd_mm_yy_HH_mm_ss` is read day first: when the
/// day, month and two-digit year make a calendar day and the time exists,
/// the parser answers that date and time (the year completed as two-digit
/// years are), never the year-first reading of the same digits.
pub proof fn law_day_first_short_datetime(c: Seq<char>, current_year: int)
    requires
        six_field_shape(c),
        valid_ymd(
            effective_year(two_digit_value(c, 6) as int, false, current_year),
            two_digit_value(c, 3) as int,
            two_digit_value(c, 0) as int,
        ),
        two_digit_value(c, 9) < 24,
        two_digit_value(c, 12) < 60,
        two_digit_value(c, 15) < 60,
    ensures
        spec_try_date_full(c, current_year) matches Some(h) && h.1 == DateKind::DateTime && h.2
            == (DateTimeParts {
            year: effective_year(two_digit_value(c, 6) as int, false, current_year) as i32,
            month: two_digit_value(c, 3) as u32,
            day: two_digit_value(c, 0) as u32,
            hour: two_digit_value(c, 9) as u32,
            minute: two_digit_value(c, 12) as u32,
            second: two_digit_value(c, 15) as u32,
        }) && h.0 == iso_of(h.2, DateKind::DateTime),
{
    // No zero-padded rewrite: the candidate has more than two underscores.
    lemma_underscores_facts(c);
    let u = underscores(c);
    assert(c[2] == '_' && c[5] == '_' && c[8] == '_');
    let k2 = choose|k: int| 0 <= k < u.len() && #[trigger] u[k] == 2;
    let k5 = choose|k: int| 0 <= k < u.len() && #[trigger] u[k] == 5;
    let k8 = choose|k: int| 0 <= k < u.len() && #[trigger] u[k] == 8;
    if k5 <= k2 {
        if k5 < k2 {
            assert(u[k5] < u[k2]);
        }
    }
    if k8 <= k5 {
        if k8 < k5 {
            assert(u[k8] < u[k5]);
        }
    }
    assert(u.len() > 2);
    assert(spec_pads(c).len() == 0);
    // The first seven templates: only the seventh has seventeen characters.
    reveal_strlit("MM_YYYY");
    reveal_strlit("DD_MM_YYYY");
    reveal_strlit("DD_MM_YY");
    reveal_strlit("DDMMYYYY");
    reveal_strlit("DDMMYY");
    reveal_strlit("DD_MM_YYYY_HH_mm_ss");
    reveal_strlit("DD_MM_YY_HH_mm_ss");
    let t = format_templates()[6];
    assert(t == "DD_MM_YY_HH_mm_ss"@);
    assert(t =~= seq!['D', 'D', '_', 'M', 'M', '_', 'Y', 'Y', '_', 'H', 'H', '_', 'm', 'm', '_', 's', 's']);
    assert forall|i: int| 0 <= i < t.len() implies if is_field(#[trigger] t[i]) {
        is_digit(c[i])
    } else {
        c[i] == t[i]
    } by {
        assert(i == 0 || i == 1 || i == 2 || i == 3 || i == 4 || i == 5 || i == 6 || i == 7 || i
            == 8 || i == 9 || i == 10 || i == 11 || i == 12 || i == 13 || i == 14 || i == 15 || i
            == 16);
        assert(is_digit(c[i]) || i % 3 == 2);
    }
    assert(fits(c, t));
    assert(t[6] == 'Y' && t[3] == 'M' && t[0] == 'D' && t[9] == 'H');
    assert(t.contains('Y') && t.contains('M') && t.contains('D') && t.contains('H'));
    assert(!crate::date::formats::spec_has_century(t)) by {
        if crate::date::formats::spec_has_century(t) {
            let i = choose|i: int|
                0 <= i && i + 4 <= t.len() && #[trigger] t[i] == 'Y' && t[i + 1] == 'Y' && t[i + 2]
                    == 'Y' && t[i + 3] == 'Y';
            assert(i == 6 || i == 7);
        }
    }
    assert(crate::date::formats::spec_format_kind(t) == DateKind::DateTime);
    assert forall|l: char, i: int|
        0 <= i && i + 2 <= 17 && i % 3 == 0 && t[i] == l implies field_digits(c, t, l, 17) == seq![
        c[i],
        c[i + 1],
    ] by {
        assert(t[i + 1] == l);
        assert forall|j: int| 0 <= j < t.len() && j != i && j != i + 1 implies t[j] != l by {
            assert(j == 0 || j == 1 || j == 2 || j == 3 || j == 4 || j == 5 || j == 6 || j == 7
                || j == 8 || j == 9 || j == 10 || j == 11 || j == 12 || j == 13 || j == 14 || j
                == 15 || j == 16);
            assert(i == 0 || i == 3 || i == 6 || i == 9 || i == 12 || i == 15);
        }
        lemma_two_digits(c, t, l, i);
    }
    assert forall|i: int| 0 <= i && i + 2 <= 17 && i % 3 == 0 implies field_value(c, t, t[i])
        == two_digit_value(c, i) && two_digit_value(c, i) < 100 by {
        assert(is_digit(c[i]) && is_digit(c[i + 1]));
        lemma_value_of_two(c[i], c[i + 1]);
    }
    assert(field_value(c, t, 'D') == two_digit_value(c, 0));
    assert(field_value(c, t, 'M') == two_digit_value(c, 3));
    assert(field_value(c, t, 'Y') == two_digit_value(c, 6));
    assert(field_value(c, t, 'H') == two_digit_value(c, 9));
    assert(field_value(c, t, 'm') == two_digit_value(c, 12));
    assert(field_value(c, t, 's') == two_digit_value(c, 15));
    assert(spec_parse_with(c, t, false, current_year) is Some);
    reveal_with_fuel(spec_try_formats, 8);
}

/// `s` is digits only and below `10^s.len()` in value (for up to four digits).
proof fn lemma_small_digits_value(s: Seq<char>)
    requires
        all_digits(s),
        s.len() <= 4,
    ensures
        digits_value(s) < 10000,
        s.len() <= 2 ==> digits_value(s) < 100,
    decreases s.len(),
{
    if s.len() > 0 {
        let p = s.drop_last();
        assert(all_digits(p)) by {
            assert forall|i: int| 0 <= i < p.len() implies is_digit(#[trigger] p[i]) by {
                assert(p[i] == s[i]);
            }
        }
        lemma_small_digits_value(p);
        assert(is_digit(s[s.len() - 1]));
        if s.len() <= 2 {
            if p.len() == 0 {
                assert(digits_value(p) == 0);
            } else {
                assert(p.drop_last().len() == 0);
                assert(digits_value(p) == digits_value(p.drop_last()) * 10 + digit_val(p.last()));
                assert(is_digit(p.last()));
            }
        } else {
            assert(digits_value(p) < 1000) by {
                if p.len() <= 2 {
                } else {
                    let q = p.drop_last();
                    assert(all_digits(q)) by {
                        assert forall|i: int| 0 <= i < q.len() implies is_digit(#[trigger] q[i]) by {
                            assert(q[i] == s[i]);
                        }
                    }
                    lemma_small_digits_value(q);
                    assert(is_digit(p.last()));
                }
            }
        }
    }
}

/// The digits a template reads for a field letter that fills exactly the
/// positions `i..i + n` are the candidate's characters there.
proof fn lemma_field_run(c: Seq<char>, t: Seq<char>, l: char, i: int, n: int, k: int)
    requires
        c.len() == t.len(),
        0 <= i,
        0 <= n,
        i + n <= t.len(),
        0 <= k <= t.len(),
        forall|j: int| 0 <= j < t.len() ==> (t[j] == l <==> i <= j < i + n),
    ensures
        field_digits(c, t, l, k) == c.subrange(
            i,
            if k < i {
                i
            } else if k > i + n {
                i + n
            } else {
                k
            },
        ),
    decreases k,
{
    if k > 0 {
        lemma_field_run(c, t, l, i, n, k - 1);
        if i <= k - 1 < i + n {
            assert(c.subrange(i, k - 1).push(c[k - 1]) =~= c.subrange(i, k));
        }
    }
}

/// A date written `ddmmyyyy` (eight digits) is read day first: when the
/// day, month and year make a calendar day, the parser answers that date,
/// never the year-first reading of the same digits.
pub proof fn law_day_first_compact_date(c: Seq<char>, current_year: int)
    requires
        c.len() == 8,
        all_digits(c),
        valid_ymd(
            digits_value(c.subrange(4, 8)) as int,
            digits_value(c.subrange(2, 4)) as int,
            digits_value(c.subrange(0, 2)) as int,
        ),
    ensures
        spec_try_date_full(c, current_year) matches Some(h) && h.1 == DateKind::DateOnly && h.2
            == (DateTimeParts {
            year: digits_value(c.subrange(4, 8)) as i32,
            month: digits_value(c.subrange(2, 4)) as u32,
            day: digits_value(c.subrange(0, 2)) as u32,
            hour: 0,
            minute: 0,
            second: 0,
        }) && h.0 == iso_of(h.2, DateKind::DateOnly),
{
    lemma_no_underscore_no_pads(c);
    reveal_strlit("MM_YYYY");
    reveal_strlit("DD_MM_YYYY");
    reveal_strlit("DD_MM_YY");
    reveal_strlit("DDMMYYYY");
    let t2 = format_templates()[2];
    assert(t2 == "DD_MM_YY"@);
    assert(t2[2] == '_' && !is_field(t2[2]) && c[2] != '_');
    assert(!fits(c, t2));
    let t = format_templates()[3];
    assert(t == "DDMMYYYY"@);
    assert(t =~= seq!['D', 'D', 'M', 'M', 'Y', 'Y', 'Y', 'Y']);
    assert(fits(c, t));
    lemma_digit_subranges(c, 0, 2);
    lemma_digit_subranges(c, 2, 4);
    lemma_digit_subranges(c, 4, 8);
    lemma_field_run(c, t, 'D', 0, 2, 8);
    lemma_field_run(c, t, 'M', 2, 2, 8);
    lemma_field_run(c, t, 'Y', 4, 4, 8);
    lemma_field_run(c, t, 'H', 0, 0, 8);
    lemma_field_run(c, t, 'm', 0, 0, 8);
    lemma_field_run(c, t, 's', 0, 0, 8);
    assert(c.subrange(0, 0).len() == 0);
    assert(digits_value(c.subrange(0, 0)) == 0);
    assert(t[4] == 'Y' && t[2] == 'M' && t[0] == 'D');
    assert(t.contains('Y') && t.contains('M') && t.contains('D') && !t.contains('H'));
    assert(crate::date::formats::spec_has_century(t)) by {
        assert(t[4] == 'Y' && t[5] == 'Y' && t[6] == 'Y' && t[7] == 'Y');
    }
    assert(crate::date::formats::spec_format_kind(t) == DateKind::DateOnly);
    assert(spec_parse_with(c, t, true, current_year) is Some);
    reveal_with_fuel(spec_try_formats, 5);
}

/// A date-time written `ddmmyyyyHHmm` (twelve digits) is read day first:
/// when the day, month and year make a calendar day and the time exists,
/// the parser answers that date and time.
pub proof fn law_day_first_compact_datetime(c: Seq<char>, current_year: int)
    requires
        c.len() == 12,
        all_digits(c),
        valid_ymd(
            digits_value(c.subrange(4, 8)) as int,
            digits_value(c.subrange(2, 4)) as int,
            digits_value(c.subrange(0, 2)) as int,
        ),
        digits_value(c.subrange(8, 10)) < 24,
        digits_value(c.subrange(10, 12)) < 60,
    ensures
        spec_try_date_full(c, current_year) matches Some(h) && h.1 == DateKind::DateTime && h.2
            == (DateTimeParts {
            year: digits_value(c.subrange(4, 8)) as i32,
            month: digits_value(c.subrange(2, 4)) as u32,
            day: digits_value(c.subrange(0, 2)) as u32,
            hour: digits_value(c.subrange(8, 10)) as u32,
            minute: digits_value(c.subrange(10, 12)) as u32,
            second: 0,
        }) && h.0 == iso_of(h.2, DateKind::DateTime),
{
    lemma_no_underscore_no_pads(c);
    reveal_strlit("MM_YYYY");
    reveal_strlit("DD_MM_YYYY");
    reveal_strlit("DD_MM_YY");
    reveal_strlit("DDMMYYYY");
    reveal_strlit("DDMMYY");
    reveal_strlit("DD_MM_YYYY_HH_mm_ss");
    reveal_strlit("DD_MM_YY_HH_mm_ss");
    reveal_strlit("DD_MM_YYYY_HH_mm");
    reveal_strlit("DDMMYYYYHHmm");
    let t = format_templates()[8];
    assert(t == "DDMMYYYYHHmm"@);
    assert(t =~= seq!['D', 'D', 'M', 'M', 'Y', 'Y', 'Y', 'Y', 'H', 'H', 'm', 'm']);
    assert(fits(c, t));
    lemma_digit_subranges(c, 0, 2);
    lemma_digit_subranges(c, 2, 4);
    lemma_digit_subranges(c, 4, 8);
    lemma_digit_subranges(c, 8, 10);
    lemma_digit_subranges(c, 10, 12);
    lemma_field_run(c, t, 'D', 0, 2, 12);
    lemma_field_run(c, t, 'M', 2, 2, 12);
    lemma_field_run(c, t, 'Y', 4, 4, 12);
    lemma_field_run(c, t, 'H', 8, 2, 12);
    lemma_field_run(c, t, 'm', 10, 2, 12);
    lemma_field_run(c, t, 's', 0, 0, 12);
    assert(digits_value(c.subrange(0, 0)) == 0);
    assert(t[4] == 'Y' && t[2] == 'M' && t[0] == 'D' && t[8] == 'H');
    assert(t.contains('Y') && t.contains('M') && t.contains('D') && t.contains('H'));
    assert(crate::date::formats::spec_has_century(t)) by {
        assert(t[4] == 'Y' && t[5] == 'Y' && t[6] == 'Y' && t[7] == 'Y');
    }
    assert(crate::date::formats::spec_format_kind(t) == DateKind::DateTime);
    assert(spec_parse_with(c, t, true, current_year) is Some);
    reveal_with_fuel(spec_try_formats, 10);
}

/// A digit-only candidate has no zero-padded rewrite.
proof fn lemma_no_underscore_no_pads(c: Seq<char>)
    requires
        all_digits(c),
    ensures
        spec_pads(c).len() == 0,
{
    lemma_underscores_facts(c);
    if underscores(c).len() > 0 {
        assert(c[underscores(c)[0]] == '_');
        assert(is_digit(c[underscores(c)[0]]));
    }
}

/// A piece of a digit string is digits, of small value when short.
proof fn lemma_digit_subranges(c: Seq<char>, a: int, b: int)
    requires
        all_digits(c),
        0 <= a <= b <= c.len(),
        b - a <= 4,
    ensures
        all_digits(c.subrange(a, b)),
        digits_value(c.subrange(a, b)) < 10000,
        b - a <= 2 ==> digits_value(c.subrange(a, b)) < 100,
{
    let s = c.subrange(a, b);
    assert forall|i: int| 0 <= i < s.len() implies is_digit(#[trigger] s[i]) by {
        assert(s[i] == c[a + i]);
    }
    lemma_small_digits_value(s);
}

} // verus!
