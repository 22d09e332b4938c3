//! Date format table.
//!
//! Each format is described by its template (e.g. `DD_MM_YYYY`) and a
//! granularity tag. The table is keyed off `_` as the separator.
use vstd::prelude::*;
use crate::plan_types::DateKind;
use crate::text::chars_of;

verus! {

/// One date format the parser will try.
#[derive(Debug, Clone, Copy)]
pub struct FormatSpec {
    /// Template using `_` for separators.
    pub template: &'static str,
    /// Granularity of dates parsed by this template.
    pub kind: DateKind,
    /// Whether the template carries a 4-digit year (`true`) or 2-digit (`false`).
    pub has_century: bool,
}

/// `DateTime` when the template has an hour field, else `DateOnly` when it
/// has a day field, else `MonthOnly`.
pub open spec fn spec_format_kind(t: Seq<char>) -> DateKind {
    if t.contains('H') {
        DateKind::DateTime
    } else if t.contains('D') {
        DateKind::DateOnly
    } else {
        DateKind::MonthOnly
    }
}

/// Whether the template holds four `Y` in a row.
pub open spec fn spec_has_century(t: Seq<char>) -> bool {
    exists|i: int|
        0 <= i && i + 4 <= t.len() && #[trigger] t[i] == 'Y' && t[i + 1] == 'Y' && t[i + 2] == 'Y'
            && t[i + 3] == 'Y'
}

/// Determine the output `DateKind` of a format template.
pub fn format_kind(template: &'static str) -> (k: DateKind)
    ensures
        k == spec_format_kind(template@),
{
    let t = chars_of(template);
    let mut has_h = false;
    let mut has_d = false;
    let mut i: usize = 0;
    while i < t.len()
        invariant
            i <= t.len(),
            t@ == template@,
            has_h == (exists|j: int| 0 <= j < i && t@[j] == 'H'),
            has_d == (exists|j: int| 0 <= j < i && t@[j] == 'D'),
        decreases t.len() - i,
    {
        if t[i] == 'H' {
            has_h = true;
        }
        if t[i] == 'D' {
            has_d = true;
        }
        i += 1;
    }
    if has_h {
        DateKind::DateTime
    } else if has_d {
        DateKind::DateOnly
    } else {
        DateKind::MonthOnly
    }
}

fn has_century(template: &'static str) -> (b: bool)
    ensures
        b == spec_has_century(template@),
{
    let t = chars_of(template);
    let mut i: usize = 0;
    let mut run: usize = 0;
    while i < t.len()
        invariant
            i <= t.len(),
            t@ == template@,
            run <= i,
            run < 4,
            forall|j: int| i - run <= j < i ==> t@[j] == 'Y',
            run < i ==> t@[i - run - 1] != 'Y',
            forall|j: int|
                0 <= j && j + 4 <= i ==> !(#[trigger] t@[j] == 'Y' && t@[j + 1] == 'Y' && t@[j
                    + 2] == 'Y' && t@[j + 3] == 'Y'),
        decreases t.len() - i,
    {
        if t[i] == 'Y' {
            run += 1;
            if run >= 4 {
                assert(t@[i - 3] == 'Y' && t@[i - 2] == 'Y' && t@[i - 1] == 'Y' && t@[i as int]
                    == 'Y');
                return true;
            }
        } else {
            run = 0;
        }
        i += 1;
    }
    false
}

fn spec(template: &'static str) -> (f: FormatSpec)
    ensures
        f.template == template,
        f.kind == spec_format_kind(template@),
        f.has_century == spec_has_century(template@),
{
    FormatSpec { template, kind: format_kind(template), has_century: has_century(template) }
}

/// The templates of the format table, in the order they are tried: human
/// (day-first) formats before inverted (year-first) ones, so that ambiguous
/// strings like `01_12_2019` are read day-first.
pub open spec fn format_templates() -> Seq<Seq<char>> {
    seq![
        "MM_YYYY"@,
        "DD_MM_YYYY"@,
        "DD_MM_YY"@,
        "DDMMYYYY"@,
        "DDMMYY"@,
        "DD_MM_YYYY_HH_mm_ss"@,
        "DD_MM_YY_HH_mm_ss"@,
        "DD_MM_YYYY_HH_mm"@,
        "DDMMYYYYHHmm"@,
        "YYYY_MM"@,
        "YYYY_MM_DD"@,
        "YYYYMMDD"@,
        "YY_MM_DD_HH_mm_ss"@,
        "YYYY_MM_DD_HH_mm_ss"@,
        "YYYY_MM_DD_HH_mm"@,
        "YYYY_MM_DD_HHmm"@,
        "YYYYMMDDHHmmss"@,
        "YYYYMMDD_HHmmss"@,
        "YYYYMMDDHHmm"@,
    ]
}

/// A table entry whose kind and century flag are those of its template.
pub open spec fn entry_ok(f: FormatSpec) -> bool {
    f.kind == spec_format_kind(f.template@) && f.has_century == spec_has_century(f.template@)
}

fn push_spec(v: &mut Vec<FormatSpec>, template: &'static str)
    requires
        forall|i: int| 0 <= i < old(v)@.len() ==> entry_ok(#[trigger] old(v)@[i]),
    ensures
        final(v)@.len() == old(v)@.len() + 1,
        forall|i: int| 0 <= i < old(v)@.len() ==> #[trigger] final(v)@[i] == old(v)@[i],
        final(v)@.last().template == template,
        forall|i: int| 0 <= i < final(v)@.len() ==> entry_ok(#[trigger] final(v)@[i]),
{
    v.push(spec(template));
}

/// The format table: one entry per template of [`format_templates`], in order.
pub fn possible_formats() -> (v: Vec<FormatSpec>)
    ensures
        v@.len() == format_templates().len(),
        forall|i: int|
            0 <= i < v@.len() ==> (#[trigger] v@[i]).template@ == format_templates()[i] && entry_ok(
                v@[i],
            ),
{
    let mut v: Vec<FormatSpec> = Vec::new();
    push_spec(&mut v, "MM_YYYY");
    push_spec(&mut v, "DD_MM_YYYY");
    push_spec(&mut v, "DD_MM_YY");
    push_spec(&mut v, "DDMMYYYY");
    push_spec(&mut v, "DDMMYY");
    push_spec(&mut v, "DD_MM_YYYY_HH_mm_ss");
    push_spec(&mut v, "DD_MM_YY_HH_mm_ss");
    push_spec(&mut v, "DD_MM_YYYY_HH_mm");
    push_spec(&mut v, "DDMMYYYYHHmm");
    push_spec(&mut v, "YYYY_MM");
    push_spec(&mut v, "YYYY_MM_DD");
    push_spec(&mut v, "YYYYMMDD");
    push_spec(&mut v, "YY_MM_DD_HH_mm_ss");
    push_spec(&mut v, "YYYY_MM_DD_HH_mm_ss");
    push_spec(&mut v, "YYYY_MM_DD_HH_mm");
    push_spec(&mut v, "YYYY_MM_DD_HHmm");
    push_spec(&mut v, "YYYYMMDDHHmmss");
    push_spec(&mut v, "YYYYMMDD_HHmmss");
    push_spec(&mut v, "YYYYMMDDHHmm");
    assert(v@.len() == 19);
    assert(v@.map_values(|f: FormatSpec| f.template@) =~= format_templates());
    assert forall|i: int| 0 <= i < v@.len() implies (#[trigger] v@[i]).template@ == format_templates()[i] by {
        assert(v@.map_values(|f: FormatSpec| f.template@)[i] == v@[i].template@);
    }
    v
}

} // verus!
