//! Calendar validity and ISO rendering of parsed dates.
use vstd::prelude::*;
use crate::plan_types::{DateKind, DateTimeParts};
use crate::text::{decimal, digit_char, zero_pad};

verus! {

#[verifier::external_type_specification]
#[verifier::external_body]
pub struct ExNaiveDate(chrono::NaiveDate);

#[verifier::external_type_specification]
#[verifier::external_body]
pub struct ExNaiveTime(chrono::NaiveTime);

/// Smallest year a `chrono::NaiveDate` holds.
pub open spec fn min_year() -> int {
    -262143
}

/// Largest year a `chrono::NaiveDate` holds.
pub open spec fn max_year() -> int {
    262142
}

/// Proleptic Gregorian leap year.
pub open spec fn is_leap(y: int) -> bool {
    y % 4 == 0 && (y % 100 != 0 || y % 400 == 0)
}

pub open spec fn days_in_month(y: int, m: int) -> int {
    if m == 2 {
        if is_leap(y) {
            29
        } else {
            28
        }
    } else if m == 4 || m == 6 || m == 9 || m == 11 {
        30
    } else {
        31
    }
}

/// The calendar day exists and the year is within chrono's range.
pub open spec fn valid_ymd(y: int, m: int, d: int) -> bool {
    min_year() <= y <= max_year() && 1 <= m <= 12 && 1 <= d <= days_in_month(y, m)
}

/// Calls `chrono::NaiveDate::from_ymd_opt`, which returns a date exactly
/// when the calendar day exists and the year is within its range.
#[verifier::external_body]
fn naive_date_from_ymd(year: i32, month: u32, day: u32) -> (r: Option<chrono::NaiveDate>)
    ensures
        r.is_some() == valid_ymd(year as int, month as int, day as int),
{
    chrono::NaiveDate::from_ymd_opt(year, month, day)
}

/// Calls `chrono::NaiveTime::from_hms_opt`, which returns a time exactly
/// when hour < 24, minute < 60 and second < 60.
#[verifier::external_body]
fn naive_time_from_hms(hour: u32, min: u32, sec: u32) -> (r: Option<chrono::NaiveTime>)
    ensures
        r.is_some() == (hour < 24 && min < 60 && sec < 60),
{
    chrono::NaiveTime::from_hms_opt(hour, min, sec)
}

/// Whether chrono accepts the date and the time.
pub fn date_time_exists(year: i32, month: u32, day: u32, hour: u32, minute: u32, second: u32) -> (b:
    bool)
    ensures
        b == (valid_ymd(year as int, month as int, day as int) && hour < 24 && minute < 60 && second
            < 60),
{
    let d = naive_date_from_ymd(year, month, day);
    let t = naive_time_from_hms(hour, minute, second);
    d.is_some() && t.is_some()
}

/// The ISO rendering of a parsed date: `YYYY-MM`, `YYYY-MM-DD` or
/// `YYYY-MM-DDTHH-mm-ss` depending on the kind.
pub open spec fn iso_of(p: DateTimeParts, kind: DateKind) -> Seq<char> {
    let ym = zero_pad(p.year as nat, 4) + seq!['-'] + zero_pad(p.month as nat, 2);
    let ymd = ym + seq!['-'] + zero_pad(p.day as nat, 2);
    match kind {
        DateKind::MonthOnly => ym,
        DateKind::DateOnly => ymd,
        DateKind::DateTime => ymd + seq!['T'] + zero_pad(p.hour as nat, 2) + seq!['-'] + zero_pad(
            p.minute as nat,
            2,
        ) + seq!['-'] + zero_pad(p.second as nat, 2),
    }
}

pub proof fn lemma_iso_len(p: DateTimeParts, kind: DateKind)
    requires
        p.year >= 0,
    ensures
        iso_of(p, kind).len() <= 65,
{
    crate::text::lemma_zero_pad_len_u32(p.year as nat, 4);
    crate::text::lemma_zero_pad_len_u32(p.month as nat, 2);
    crate::text::lemma_zero_pad_len_u32(p.day as nat, 2);
    crate::text::lemma_zero_pad_len_u32(p.hour as nat, 2);
    crate::text::lemma_zero_pad_len_u32(p.minute as nat, 2);
    crate::text::lemma_zero_pad_len_u32(p.second as nat, 2);
}

fn digit_char_exec(n: u32) -> (c: char)
    ensures
        c == digit_char(n as nat),
{
    let d = (n % 10) as u8;
    (d + 48u8) as char
}

/// Decimal digits of `n`.
pub fn decimal_chars(n: u32) -> (r: Vec<char>)
    ensures
        r@ == decimal(n as nat),
    decreases n,
{
    if n < 10 {
        let mut r: Vec<char> = Vec::new();
        r.push(digit_char_exec(n));
        r
    } else {
        let mut r = decimal_chars(n / 10);
        r.push(digit_char_exec(n % 10));
        assert(digit_char((n % 10) as nat) == digit_char(n as nat % 10));
        r
    }
}

/// Append `n` zero-padded to `width` digits.
pub fn push_padded(out: &mut Vec<char>, n: u32, width: usize)
    ensures
        final(out)@ == old(out)@ + zero_pad(n as nat, width as nat),
{
    let d = decimal_chars(n);
    let ghost start = out@;
    if d.len() < width {
        let k = width - d.len();
        let mut i: usize = 0;
        while i < k
            invariant
                i <= k,
                k == width - d.len(),
                out@ == start + Seq::new(i as nat, |j: int| '0'),
            decreases k - i,
        {
            out.push('0');
            i += 1;
            assert(out@ =~= start + Seq::new(i as nat, |j: int| '0'));
        }
    }
    let ghost mid = out@;
    crate::text::extend_chars(out, &d);
    proof {
        let z = zero_pad(n as nat, width as nat);
        if d@.len() < width {
            assert(z == Seq::new((width - d@.len()) as nat, |j: int| '0') + d@);
        }
        assert(out@ =~= start + z);
    }
}

/// Render a parsed date as ISO text.
pub fn format_iso(p: DateTimeParts, kind: DateKind) -> (r: Vec<char>)
    requires
        p.year >= 0,
    ensures
        r@ == iso_of(p, kind),
{
    let mut out: Vec<char> = Vec::new();
    push_padded(&mut out, p.year as u32, 4);
    out.push('-');
    push_padded(&mut out, p.month, 2);
    let ghost ym = out@;
    assert(ym =~= zero_pad(p.year as nat, 4) + seq!['-'] + zero_pad(p.month as nat, 2));
    match kind {
        DateKind::MonthOnly => {},
        DateKind::DateOnly => {
            out.push('-');
            push_padded(&mut out, p.day, 2);
            assert(out@ =~= ym + seq!['-'] + zero_pad(p.day as nat, 2));
        },
        DateKind::DateTime => {
            out.push('-');
            push_padded(&mut out, p.day, 2);
            out.push('T');
            push_padded(&mut out, p.hour, 2);
            out.push('-');
            push_padded(&mut out, p.minute, 2);
            out.push('-');
            push_padded(&mut out, p.second, 2);
            assert(out@ =~= ym + seq!['-'] + zero_pad(p.day as nat, 2) + seq!['T'] + zero_pad(
                p.hour as nat,
                2,
            ) + seq!['-'] + zero_pad(p.minute as nat, 2) + seq!['-'] + zero_pad(
                p.second as nat,
                2,
            ));
        },
    }
    out
}

} // verus!
