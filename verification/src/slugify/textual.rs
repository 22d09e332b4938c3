//! Textual month / 12-hour-clock datetimes (`Nov 19, 2025, 11_41_56 AM`)
//! rewritten into the numeric form the date parser reads
//! (`19_11_2025_11_41_56`).
use vstd::prelude::*;
use crate::date::calendar::{decimal_chars, push_padded};
use crate::text::{
    all_digits, ascii_lower, ascii_lower_exec, ascii_upper, ascii_upper_exec, chars_of, decimal,
    digit_val, digits_value, extend_chars, is_digit_exec, string_from_chars, zero_pad,
};

verus! {

/// The abbreviated month names of the `en_US` locale.
pub open spec fn en_us_abmon() -> Seq<Seq<char>> {
    seq![
        "Jan"@,
        "Feb"@,
        "Mar"@,
        "Apr"@,
        "May"@,
        "Jun"@,
        "Jul"@,
        "Aug"@,
        "Sep"@,
        "Oct"@,
        "Nov"@,
        "Dec"@,
    ]
}

/// Reads `pure_rust_locales::en_US::LC_TIME::ABMON`, the locale's twelve
/// abbreviated month names, which the crate's source lists as below.
#[verifier::external_body]
fn locale_abmon() -> (r: Vec<String>)
    ensures
        r@.len() == 12,
        r@[0]@ == "Jan"@,
        r@[1]@ == "Feb"@,
        r@[2]@ == "Mar"@,
        r@[3]@ == "Apr"@,
        r@[4]@ == "May"@,
        r@[5]@ == "Jun"@,
        r@[6]@ == "Jul"@,
        r@[7]@ == "Aug"@,
        r@[8]@ == "Sep"@,
        r@[9]@ == "Oct"@,
        r@[10]@ == "Nov"@,
        r@[11]@ == "Dec"@,
{
    pure_rust_locales::en_US::LC_TIME::ABMON.iter().map(|m| m.to_string()).collect()
}

/// The characters a regex treats as meta characters.
pub open spec fn is_regex_meta(c: char) -> bool {
    c == '\\' || c == '.' || c == '+' || c == '*' || c == '?' || c == '(' || c == ')' || c == '|'
        || c == '[' || c == ']' || c == '{' || c == '}' || c == '^' || c == '$' || c == '#' || c
        == '&' || c == '-' || c == '~'
}

/// A backslash before every meta character.
pub open spec fn spec_regex_escape(s: Seq<char>) -> Seq<char>
    decreases s.len(),
{
    if s.len() == 0 {
        Seq::empty()
    } else if is_regex_meta(s.last()) {
        spec_regex_escape(s.drop_last()) + seq!['\\', s.last()]
    } else {
        spec_regex_escape(s.drop_last()).push(s.last())
    }
}

/// Calls `regex::escape`, which puts a backslash before each of the meta
/// characters listed in [`is_regex_meta`] and copies every other character.
#[verifier::external_body]
fn regex_escape(s: &str) -> (r: String)
    ensures
        r@ == spec_regex_escape(s@),
{
    regex::escape(s)
}

/// The pieces of `input` around the matches of `pattern` (`Regex::split`):
/// the text before the first match, between consecutive matches, and after
/// the last; `None` when the pattern does not compile.
pub uninterp spec fn regex_split_pieces(pattern: Seq<char>, input: Seq<char>) -> Option<
    Seq<Seq<char>>,
>;

/// The capture groups of each match of `pattern` in `input`, left to right
/// (`Regex::captures_iter`), group 0 being the whole match and a group that
/// took no part being `None`; `None` when the pattern does not compile.
pub uninterp spec fn regex_match_groups(pattern: Seq<char>, input: Seq<char>) -> Option<
    Seq<Seq<Option<Seq<char>>>>,
>;

pub open spec fn opt_text(o: Option<String>) -> Option<Seq<char>> {
    match o {
        Some(t) => Some(t@),
        None => None,
    }
}

pub open spec fn groups_view(v: Seq<Vec<Option<String>>>) -> Seq<Seq<Option<Seq<char>>>> {
    v.map_values(|g: Vec<Option<String>>| g@.map_values(|o: Option<String>| opt_text(o)))
}

/// Compiles `pattern` with `regex::Regex::new` and splits `input` at its
/// matches (`Regex::split`). The pieces are named: the regex engine's
/// matching (Unicode classes, word boundaries, case folding) takes pages to
/// state.
#[verifier::external_body]
fn regex_split(pattern: &str, input: &str) -> (r: Option<Vec<String>>)
    ensures
        r matches Some(v) ==> regex_split_pieces(pattern@, input@) == Some(
            v@.map_values(|t: String| t@),
        ),
        r is None ==> regex_split_pieces(pattern@, input@) is None,
{
    let re = regex::Regex::new(pattern).ok()?;
    Some(re.split(input).map(|t| t.to_string()).collect())
}

/// Compiles `pattern` with `regex::Regex::new` and lists the capture groups
/// of each of its matches in `input` (`Regex::captures_iter`,
/// `Captures::iter`). The groups are named, as for [`regex_split`].
#[verifier::external_body]
fn regex_captures(pattern: &str, input: &str) -> (r: Option<Vec<Vec<Option<String>>>>)
    ensures
        r matches Some(v) ==> regex_match_groups(pattern@, input@) == Some(groups_view(v@)),
        r is None ==> regex_match_groups(pattern@, input@) is None,
{
    let re = regex::Regex::new(pattern).ok()?;
    Some(
        re.captures_iter(input).map(
            |c| c.iter().map(|m| m.map(|m| m.as_str().to_string())).collect(),
        ).collect(),
    )
}

/// Lowercased month names with 1-based month numbers, first occurrence of
/// each name kept.
pub open spec fn spec_month_map(names: Seq<Seq<char>>) -> Seq<(Seq<char>, nat)>
    decreases names.len(),
{
    if names.len() == 0 {
        Seq::empty()
    } else {
        let prev = spec_month_map(names.drop_last());
        let key = ascii_lower(names.last());
        if exists|j: int| 0 <= j < prev.len() && #[trigger] prev[j].0 == key {
            prev
        } else {
            prev.push((key, names.len() as nat))
        }
    }
}

/// The month number of the first name equal to `name` up to ASCII case.
pub open spec fn spec_month_number(names: Seq<Seq<char>>, name: Seq<char>, i: int) -> Option<nat>
    decreases names.len() - i,
{
    if i < 0 || i >= names.len() {
        None
    } else if ascii_lower(names[i]) == ascii_lower(name) {
        Some((i + 1) as nat)
    } else {
        spec_month_number(names, name, i + 1)
    }
}

fn chars_eq(a: &Vec<char>, b: &Vec<char>) -> (r: bool)
    ensures
        r == (a@ == b@),
{
    if a.len() != b.len() {
        return false;
    }
    let mut i: usize = 0;
    while i < a.len()
        invariant
            i <= a.len(),
            a@.len() == b@.len(),
            forall|j: int| 0 <= j < i ==> a@[j] == b@[j],
        decreases a.len() - i,
    {
        if a[i] != b[i] {
            return false;
        }
        i += 1;
    }
    assert(a@ =~= b@);
    true
}

/// The locale month names as character vectors.
fn month_names() -> (r: Vec<Vec<char>>)
    ensures
        r@.len() == en_us_abmon().len(),
        forall|i: int| 0 <= i < r@.len() ==> #[trigger] r@[i]@ == en_us_abmon()[i],
{
    let raw = locale_abmon();
    let mut out: Vec<Vec<char>> = Vec::new();
    let mut i: usize = 0;
    while i < raw.len()
        invariant
            i <= raw.len(),
            raw@.len() == 12,
            raw@[0]@ == "Jan"@,
            raw@[1]@ == "Feb"@,
            raw@[2]@ == "Mar"@,
            raw@[3]@ == "Apr"@,
            raw@[4]@ == "May"@,
            raw@[5]@ == "Jun"@,
            raw@[6]@ == "Jul"@,
            raw@[7]@ == "Aug"@,
            raw@[8]@ == "Sep"@,
            raw@[9]@ == "Oct"@,
            raw@[10]@ == "Nov"@,
            raw@[11]@ == "Dec"@,
            out@.len() == i,
            forall|j: int| 0 <= j < i ==> #[trigger] out@[j]@ == raw@[j]@,
        decreases raw.len() - i,
    {
        out.push(chars_of(raw[i].as_str()));
        i += 1;
    }
    assert forall|i: int| 0 <= i < out@.len() implies #[trigger] out@[i]@ == en_us_abmon()[i] by {
        assert(out@[i]@ == raw@[i]@);
    }
    out
}

/// Build the month table: lowercased names with month numbers, first
/// occurrence kept.
fn month_map() -> (r: Vec<(Vec<char>, u32)>)
    ensures
        r@.len() == spec_month_map(en_us_abmon()).len(),
        forall|i: int|
            0 <= i < r@.len() ==> (#[trigger] r@[i]).0@ == spec_month_map(en_us_abmon())[i].0
                && r@[i].1 as nat == spec_month_map(en_us_abmon())[i].1,
{
    let names = month_names();
    let mut map: Vec<(Vec<char>, u32)> = Vec::new();
    let mut i: usize = 0;
    while i < names.len()
        invariant
            i <= names.len(),
            names@.len() == 12,
            names@.len() == en_us_abmon().len(),
            forall|k: int| 0 <= k < names@.len() ==> #[trigger] names@[k]@ == en_us_abmon()[k],
            map@.len() == spec_month_map(en_us_abmon().take(i as int)).len(),
            forall|k: int|
                0 <= k < map@.len() ==> (#[trigger] map@[k]).0@ == spec_month_map(
                    en_us_abmon().take(i as int),
                )[k].0 && map@[k].1 as nat == spec_month_map(en_us_abmon().take(i as int))[k].1,
        decreases names.len() - i,
    {
        let ghost prefix = en_us_abmon().take(i as int);
        let ghost next = en_us_abmon().take(i + 1);
        assert(next.drop_last() =~= prefix);
        assert(next.last() == names@[i as int]@);
        let key = ascii_lower_exec(&names[i]);
        let mut seen = false;
        let mut j: usize = 0;
        while j < map.len()
            invariant
                j <= map@.len(),
                seen == (exists|k: int| 0 <= k < j && map@[k].0@ == key@),
            decreases map.len() - j,
        {
            if chars_eq(&map[j].0, &key) {
                seen = true;
            }
            j += 1;
        }
        proof {
            let prev = spec_month_map(prefix);
            assert(seen == (exists|k: int| 0 <= k < prev.len() && #[trigger] prev[k].0 == key@)) by {
                if seen {
                    let k = choose|k: int| 0 <= k < j && map@[k].0@ == key@;
                    assert(prev[k].0 == key@);
                }
                if exists|k: int| 0 <= k < prev.len() && #[trigger] prev[k].0 == key@ {
                    let k = choose|k: int| 0 <= k < prev.len() && #[trigger] prev[k].0 == key@;
                    assert(map@[k].0@ == key@);
                }
            }
        }
        if !seen {
            map.push((key, (i + 1) as u32));
        }
        i += 1;
    }
    assert(en_us_abmon().take(12) =~= en_us_abmon());
    map
}

/// The 1-based month number of an abbreviated month name (ASCII case
/// ignored), if it is one of the locale's names.
fn month_number(name: &Vec<char>) -> (r: Option<u32>)
    ensures
        match r {
            Some(n) => spec_month_number(en_us_abmon(), name@, 0) == Some(n as nat),
            None => spec_month_number(en_us_abmon(), name@, 0) is None,
        },
{
    let names = month_names();
    let key = ascii_lower_exec(name);
    let mut i: usize = 0;
    while i < names.len()
        invariant
            i <= names.len(),
            names@.len() == 12,
            names@.len() == en_us_abmon().len(),
            forall|k: int| 0 <= k < names@.len() ==> #[trigger] names@[k]@ == en_us_abmon()[k],
            key@ == ascii_lower(name@),
            spec_month_number(en_us_abmon(), name@, 0) == spec_month_number(
                en_us_abmon(),
                name@,
                i as int,
            ),
        decreases names.len() - i,
    {
        let lowered = ascii_lower_exec(&names[i]);
        if chars_eq(&lowered, &key) {
            return Some((i + 1) as u32);
        }
        i += 1;
    }
    None
}

/// `str::parse::<u32>`: an optional `+`, then one or more ASCII digits
/// whose value fits in a `u32`.
pub open spec fn spec_parse_u32(s: Seq<char>) -> Option<u32> {
    let d = if s.len() > 0 && s[0] == '+' {
        s.drop_first()
    } else {
        s
    };
    if d.len() > 0 && all_digits(d) && digits_value(d) <= 0xffff_ffff {
        Some(digits_value(d) as u32)
    } else {
        None
    }
}

fn parse_u32(s: &Vec<char>) -> (r: Option<u32>)
    ensures
        r == spec_parse_u32(s@),
{
    let start: usize = if s.len() > 0 && s[0] == '+' { 1 } else { 0 };
    let ghost d = if s@.len() > 0 && s@[0] == '+' {
        s@.drop_first()
    } else {
        s@
    };
    assert(d =~= s@.subrange(start as int, s@.len() as int));
    if start >= s.len() {
        return None;
    }
    let mut v: u32 = 0;
    let mut i = start;
    assert(s@.subrange(start as int, start as int) =~= Seq::<char>::empty());
    while i < s.len()
        invariant
            start <= i <= s.len(),
            start < s.len(),
            d == s@.subrange(start as int, s@.len() as int),
            d == (if s@.len() > 0 && s@[0] == '+' {
                s@.drop_first()
            } else {
                s@
            }),
            all_digits(s@.subrange(start as int, i as int)),
            v as nat == digits_value(s@.subrange(start as int, i as int)),
        decreases s.len() - i,
    {
        let c = s[i];
        if !is_digit_exec(c) {
            proof {
                assert(d[i - start] == c);
                assert(!all_digits(d));
            }
            return None;
        }
        proof {
            let pre = s@.subrange(start as int, i as int);
            assert(s@.subrange(start as int, i + 1) =~= pre.push(c));
            assert(pre.push(c).drop_last() =~= pre);
        }
        let dv = (c as u32) - 48;
        if v > 429496729 || (v == 429496729 && dv > 5) {
            proof {
                let pre = s@.subrange(start as int, i as int);
                assert(digits_value(pre.push(c)) == digits_value(pre) * 10 + digit_val(c));
                assert(digit_val(c) == dv);
                lemma_digits_value_prefix_le(d, (i + 1 - start) as int);
                assert(d.take((i + 1 - start) as int) =~= s@.subrange(start as int, i + 1));
                assert(digits_value(d) > 0xffff_ffff);
            }
            return None;
        }
        v = v * 10 + dv;
        i += 1;
    }
    assert(s@.subrange(start as int, i as int) =~= d);
    Some(v)
}

/// A digit string's value is at least the value of any of its prefixes.
proof fn lemma_digits_value_prefix_le(d: Seq<char>, k: int)
    requires
        0 <= k <= d.len(),
    ensures
        digits_value(d.take(k)) <= digits_value(d),
    decreases d.len(),
{
    if k < d.len() {
        assert(d.drop_last().take(k) =~= d.take(k));
        lemma_digits_value_prefix_le(d.drop_last(), k);
    } else {
        assert(d.take(k) =~= d);
    }
}

pub open spec fn unwrap_or(o: Option<u32>, d: u32) -> u32 {
    match o {
        Some(v) => v,
        None => d,
    }
}

/// The hour on a 24-hour clock: 12 AM is 0, 12 PM is 12, other PM hours
/// gain 12 (an hour too large for that stays as it is).
pub open spec fn hour_24(hour: u32, meridiem: Seq<char>) -> u32 {
    if ascii_upper(meridiem) == seq!['A', 'M'] {
        if hour == 12 {
            0
        } else {
            hour
        }
    } else if hour == 12 {
        12
    } else if hour <= 0xffff_ffff - 12 {
        (hour + 12) as u32
    } else {
        hour
    }
}

/// `DD_MM_YYYY_HH_mm_ss` from the pieces of a textual datetime: the month
/// name becomes its number (1 when unknown), unreadable numbers default
/// to 1 (day) or 0 (others), and the hour goes to the 24-hour clock.
pub open spec fn spec_textual_replacement(
    month: Seq<char>,
    day: Seq<char>,
    year: Seq<char>,
    hour: Seq<char>,
    minute: Seq<char>,
    second: Seq<char>,
    meridiem: Seq<char>,
) -> Seq<char> {
    let m = match spec_month_number(en_us_abmon(), month, 0) {
        Some(n) => n,
        None => 1,
    };
    zero_pad(unwrap_or(spec_parse_u32(day), 1) as nat, 2) + seq!['_'] + zero_pad(m, 2) + seq!['_']
        + decimal(unwrap_or(spec_parse_u32(year), 0) as nat) + seq!['_'] + zero_pad(
        hour_24(unwrap_or(spec_parse_u32(hour), 0), meridiem) as nat,
        2,
    ) + seq!['_'] + zero_pad(unwrap_or(spec_parse_u32(minute), 0) as nat, 2) + seq!['_']
        + zero_pad(unwrap_or(spec_parse_u32(second), 0) as nat, 2)
}

/// Rewrite one textual datetime match into numeric form
/// (`Nov 19, 2025, 11_41_56 AM` becomes `19_11_2025_11_41_56`).
pub fn textual_replacement(
    month: &str,
    day: &str,
    year: &str,
    hour: &str,
    minute: &str,
    second: &str,
    meridiem: &str,
) -> (r: String)
    ensures
        r@ == spec_textual_replacement(month@, day@, year@, hour@, minute@, second@, meridiem@),
{
    let d = match parse_u32(&chars_of(day)) {
        Some(v) => v,
        None => 1,
    };
    let y = match parse_u32(&chars_of(year)) {
        Some(v) => v,
        None => 0,
    };
    let h0 = match parse_u32(&chars_of(hour)) {
        Some(v) => v,
        None => 0,
    };
    let mi = match parse_u32(&chars_of(minute)) {
        Some(v) => v,
        None => 0,
    };
    let sec = match parse_u32(&chars_of(second)) {
        Some(v) => v,
        None => 0,
    };
    let mer = ascii_upper_exec(&chars_of(meridiem));
    let is_am = mer.len() == 2 && mer[0] == 'A' && mer[1] == 'M';
    proof {
        if is_am {
            assert(mer@ =~= seq!['A', 'M']);
        } else {
            assert(mer@ != seq!['A', 'M']);
        }
    }
    let hour24 = if is_am {
        if h0 == 12 {
            0
        } else {
            h0
        }
    } else if h0 == 12 {
        12
    } else if h0 <= u32::MAX - 12 {
        h0 + 12
    } else {
        h0
    };
    let m = match month_number(&chars_of(month)) {
        Some(n) => n,
        None => 1,
    };
    let ghost mp = match spec_month_number(en_us_abmon(), month@, 0) {
        Some(n) => n,
        None => 1,
    };
    assert(m as nat == mp);
    let mut out: Vec<char> = Vec::new();
    push_padded(&mut out, d, 2);
    out.push('_');
    push_padded(&mut out, m, 2);
    out.push('_');
    let ghost p1 = out@;
    assert(p1 =~= zero_pad(d as nat, 2) + seq!['_'] + zero_pad(mp, 2) + seq!['_']);
    let yd = decimal_chars(y);
    extend_chars(&mut out, &yd);
    out.push('_');
    let ghost p2 = out@;
    assert(p2 =~= p1 + decimal(y as nat) + seq!['_']);
    push_padded(&mut out, hour24, 2);
    out.push('_');
    let ghost p3 = out@;
    assert(p3 =~= p2 + zero_pad(hour24 as nat, 2) + seq!['_']);
    push_padded(&mut out, mi, 2);
    out.push('_');
    let ghost p4 = out@;
    assert(p4 =~= p3 + zero_pad(mi as nat, 2) + seq!['_']);
    push_padded(&mut out, sec, 2);
    assert(out@ =~= p4 + zero_pad(sec as nat, 2));
    assert(hour24 == hour_24(unwrap_or(spec_parse_u32(hour@), 0), meridiem@));
    assert(out@ =~= spec_textual_replacement(month@, day@, year@, hour@, minute@, second@, meridiem@));
    string_from_chars(&out)
}

/// `s` joined with `sep` between the parts.
pub open spec fn join_with(parts: Seq<Seq<char>>, sep: char) -> Seq<char>
    decreases parts.len(),
{
    if parts.len() == 0 {
        Seq::empty()
    } else if parts.len() == 1 {
        parts[0]
    } else {
        join_with(parts.drop_last(), sep) + seq![sep] + parts.last()
    }
}

/// Insert `x` after every element at least as long as it.
pub open spec fn insert_by_len_desc(sorted: Seq<Seq<char>>, x: Seq<char>, k: int) -> Seq<Seq<char>>
    decreases sorted.len() - k,
{
    if k < 0 || k >= sorted.len() || sorted[k].len() < x.len() {
        sorted.take(k).push(x) + sorted.skip(k)
    } else {
        insert_by_len_desc(sorted, x, k + 1)
    }
}

/// Stable sort by decreasing length (insertion sort).
pub open spec fn sort_by_len_desc(s: Seq<Seq<char>>) -> Seq<Seq<char>>
    decreases s.len(),
{
    if s.len() == 0 {
        Seq::empty()
    } else {
        insert_by_len_desc(sort_by_len_desc(s.drop_last()), s.last(), 0)
    }
}

/// The escaped month keys, longest first, joined by `|`.
pub open spec fn month_alternation() -> Seq<char> {
    join_with(
        sort_by_len_desc(
            spec_month_map(en_us_abmon()).map_values(
                |e: (Seq<char>, nat)| spec_regex_escape(e.0),
            ),
        ),
        '|',
    )
}

/// The textual-datetime pattern: a month name, day, year, and a 12-hour
/// time with AM/PM, case-insensitive, on word boundaries.
pub open spec fn textual_pattern() -> Seq<char> {
    "(?i)\\b("@ + month_alternation()
        + ")[.,\\s]+(\\d{1,2})[,\\s]+(\\d{4})[,\\s]+(\\d{1,2})[_:\\.\\-](\\d{2})[_:\\.\\-](\\d{2})\\s*(AM|PM)\\b"@
}

fn sort_len_desc(v: &Vec<Vec<char>>) -> (r: Vec<Vec<char>>)
    ensures
        r@.len() == sort_by_len_desc(v@.map_values(|x: Vec<char>| x@)).len(),
        forall|i: int|
            0 <= i < r@.len() ==> #[trigger] r@[i]@ == sort_by_len_desc(
                v@.map_values(|x: Vec<char>| x@),
            )[i],
{
    let mut sorted: Vec<Vec<char>> = Vec::new();
    let mut i: usize = 0;
    while i < v.len()
        invariant
            i <= v.len(),
            sorted@.map_values(|x: Vec<char>| x@) == sort_by_len_desc(
                v@.map_values(|x: Vec<char>| x@).take(i as int),
            ),
        decreases v.len() - i,
    {
        let ghost views = v@.map_values(|x: Vec<char>| x@);
        assert(views.take(i + 1).drop_last() =~= views.take(i as int));
        assert(views.take(i + 1).last() == v@[i as int]@);
        let x = v[i].clone();
        let mut k: usize = 0;
        while k < sorted.len() && sorted[k].len() >= x.len()
            invariant
                k <= sorted.len(),
                insert_by_len_desc(sorted@.map_values(|y: Vec<char>| y@), x@, 0)
                    == insert_by_len_desc(sorted@.map_values(|y: Vec<char>| y@), x@, k as int),
            decreases sorted.len() - k,
        {
            k += 1;
        }
        let ghost old_views = sorted@.map_values(|y: Vec<char>| y@);
        sorted.insert(k, x);
        assert(sorted@.map_values(|y: Vec<char>| y@) =~= old_views.take(k as int).push(x@)
            + old_views.skip(k as int));
        i += 1;
    }
    assert(v@.map_values(|x: Vec<char>| x@).take(i as int) =~= v@.map_values(|x: Vec<char>| x@));
    let ghost fin = sorted@.map_values(|y: Vec<char>| y@);
    assert forall|i: int| 0 <= i < sorted@.len() implies #[trigger] sorted@[i]@ == fin[i] by {}
    sorted
}

/// The items of a bracket class, as a regex reads them: `\x` (a backslash
/// before a meta character) is the literal `x`; any other character stands
/// for itself. `x` is one of them.
pub open spec fn class_items_accept(body: Seq<char>, x: char) -> bool
    decreases body.len(),
{
    if body.len() == 0 {
        false
    } else if body[0] == '\\' {
        body.len() >= 2 && (body[1] == x || class_items_accept(body.skip(2), x))
    } else {
        body[0] == x || class_items_accept(body.skip(1), x)
    }
}

/// A class body made of escaped meta characters and plain characters that
/// have no meaning inside a class (no `\`, `[`, `]`, `-`, `^`), so that it
/// is a plain set of characters.
pub open spec fn simple_class_body(body: Seq<char>) -> bool
    decreases body.len(),
{
    if body.len() == 0 {
        true
    } else if body[0] == '\\' {
        body.len() >= 2 && is_regex_meta(body[1]) && simple_class_body(body.skip(2))
    } else {
        body[0] != '[' && body[0] != ']' && body[0] != '-' && body[0] != '^' && simple_class_body(
            body.skip(1),
        )
    }
}

/// `k` is a bracket class `[...]` with a simple body.
pub open spec fn is_simple_class(k: Seq<char>) -> bool {
    k.len() >= 2 && k[0] == '[' && k.last() == ']' && simple_class_body(k.subrange(1, k.len() - 1))
}

/// The characters the simple class `k` matches.
pub open spec fn class_accepts(k: Seq<char>, x: char) -> bool {
    class_items_accept(k.subrange(1, k.len() - 1), x)
}

/// A separator a textual datetime may put between hour, minute and second.
pub open spec fn is_time_sep(x: char) -> bool {
    x == '_' || x == ':' || x == '.' || x == '-'
}

proof fn lemma_time_class(k: Seq<char>)
    requires
        k == "[_:\\.\\-]"@,
    ensures
        is_simple_class(k),
        forall|x: char| class_accepts(k, x) <==> is_time_sep(x),
{
    reveal_strlit("[_:\\.\\-]");
    let b = k.subrange(1, k.len() - 1);
    assert(b =~= seq!['_', ':', '\\', '.', '\\', '-']);
    assert(b.skip(1) =~= seq![':', '\\', '.', '\\', '-']);
    assert(b.skip(1).skip(1) =~= seq!['\\', '.', '\\', '-']);
    assert(b.skip(1).skip(1).skip(2) =~= seq!['\\', '-']);
    assert(b.skip(1).skip(1).skip(2).skip(2) =~= Seq::<char>::empty());
    reveal_with_fuel(simple_class_body, 6);
    reveal_with_fuel(class_items_accept, 6);
    assert(simple_class_body(b));
}

/// In the textual-datetime pattern, hour, minute and second are separated
/// by a character class that matches exactly `_`, `:`, `.` and `-`; the
/// pattern ends with the hour group, a class, the minute group, a class,
/// the second group and the AM/PM marker.
pub proof fn law_textual_time_separators()
    ensures
        exists|a: Seq<char>, k1: Seq<char>, k2: Seq<char>|
            textual_pattern() == a + "(\\d{1,2})"@ + k1 + "(\\d{2})"@ + k2
                + "(\\d{2})\\s*(AM|PM)\\b"@ && is_simple_class(k1) && is_simple_class(k2) && (forall|
                x: char,
            | class_accepts(k1, x) <==> is_time_sep(x)) && (forall|x: char|
                class_accepts(k2, x) <==> is_time_sep(x)),
{
    reveal_strlit("(?i)\\b(");
    reveal_strlit(")[.,\\s]+(\\d{1,2})[,\\s]+(\\d{4})[,\\s]+(\\d{1,2})[_:\\.\\-](\\d{2})[_:\\.\\-](\\d{2})\\s*(AM|PM)\\b");
    reveal_strlit(")[.,\\s]+(\\d{1,2})[,\\s]+(\\d{4})[,\\s]+");
    reveal_strlit("(\\d{1,2})");
    reveal_strlit("[_:\\.\\-]");
    reveal_strlit("(\\d{2})");
    reveal_strlit("(\\d{2})\\s*(AM|PM)\\b");
    let a = "(?i)\\b("@ + month_alternation() + ")[.,\\s]+(\\d{1,2})[,\\s]+(\\d{4})[,\\s]+"@;
    let k = "[_:\\.\\-]"@;
    lemma_time_class(k);
    assert(")[.,\\s]+(\\d{1,2})[,\\s]+(\\d{4})[,\\s]+(\\d{1,2})[_:\\.\\-](\\d{2})[_:\\.\\-](\\d{2})\\s*(AM|PM)\\b"@
        =~= ")[.,\\s]+(\\d{1,2})[,\\s]+(\\d{4})[,\\s]+"@ + "(\\d{1,2})"@ + k + "(\\d{2})"@ + k
        + "(\\d{2})\\s*(AM|PM)\\b"@);
    assert(textual_pattern() =~= a + "(\\d{1,2})"@ + k + "(\\d{2})"@ + k + "(\\d{2})\\s*(AM|PM)\\b"@);
}

/// Build the textual-datetime pattern (see [`textual_pattern`]).
fn build_textual_pattern() -> (r: Vec<char>)
    ensures
        r@ == textual_pattern(),
{
    let map = month_map();
    let mut escaped: Vec<Vec<char>> = Vec::new();
    let mut i: usize = 0;
    while i < map.len()
        invariant
            i <= map.len(),
            map@.len() == spec_month_map(en_us_abmon()).len(),
            forall|k: int|
                0 <= k < map@.len() ==> (#[trigger] map@[k]).0@ == spec_month_map(en_us_abmon())[k].0,
            escaped@.len() == i,
            forall|k: int|
                0 <= k < i ==> #[trigger] escaped@[k]@ == spec_regex_escape(
                    spec_month_map(en_us_abmon())[k].0,
                ),
        decreases map.len() - i,
    {
        let key = string_from_chars(&map[i].0);
        let e = regex_escape(key.as_str());
        escaped.push(chars_of(e.as_str()));
        i += 1;
    }
    let ghost keys = spec_month_map(en_us_abmon()).map_values(
        |e: (Seq<char>, nat)| spec_regex_escape(e.0),
    );
    assert(escaped@.map_values(|x: Vec<char>| x@) =~= keys);
    let sorted = sort_len_desc(&escaped);
    let ghost sv = sort_by_len_desc(keys);
    let mut alt: Vec<char> = Vec::new();
    let mut j: usize = 0;
    while j < sorted.len()
        invariant
            j <= sorted.len(),
            sorted@.len() == sv.len(),
            forall|k: int| 0 <= k < sorted@.len() ==> #[trigger] sorted@[k]@ == sv[k],
            alt@ == join_with(sv.take(j as int), '|'),
        decreases sorted.len() - j,
    {
        assert(sv.take(j + 1).drop_last() =~= sv.take(j as int));
        if j > 0 {
            alt.push('|');
        }
        extend_chars(&mut alt, &sorted[j]);
        proof {
            if j == 0 {
                assert(alt@ =~= sv.take(1)[0]);
            } else {
                assert(alt@ =~= join_with(sv.take(j as int), '|') + seq!['|'] + sv.take(j + 1).last());
            }
        }
        j += 1;
    }
    assert(sv.take(j as int) =~= sv);
    let mut out = chars_of("(?i)\\b(");
    extend_chars(&mut out, &alt);
    let tail = chars_of(
        ")[.,\\s]+(\\d{1,2})[,\\s]+(\\d{4})[,\\s]+(\\d{1,2})[_:\\.\\-](\\d{2})[_:\\.\\-](\\d{2})\\s*(AM|PM)\\b",
    );
    extend_chars(&mut out, &tail);
    out
}

/// Group `i` of a match, or the empty text when it is absent.
pub open spec fn group_text(g: Seq<Option<Seq<char>>>, i: int) -> Seq<char> {
    if 0 <= i < g.len() {
        match g[i] {
            Some(t) => t,
            None => Seq::empty(),
        }
    } else {
        Seq::empty()
    }
}

/// The numeric form of one match, from its groups 1 to 7.
pub open spec fn match_replacement(g: Seq<Option<Seq<char>>>) -> Seq<char> {
    spec_textual_replacement(
        group_text(g, 1),
        group_text(g, 2),
        group_text(g, 3),
        group_text(g, 4),
        group_text(g, 5),
        group_text(g, 6),
        group_text(g, 7),
    )
}

/// The pieces around the first `n` matches, each match replaced by its
/// numeric form.
pub open spec fn splice_matches(pieces: Seq<Seq<char>>, groups: Seq<Seq<Option<Seq<char>>>>, n: int) -> Seq<
    char,
>
    decreases n,
{
    if n <= 0 {
        pieces[0]
    } else {
        splice_matches(pieces, groups, n - 1) + match_replacement(groups[n - 1]) + pieces[n]
    }
}

/// What textual datetime normalization yields for `input`: every match of
/// the textual-datetime pattern replaced by its numeric form
/// (`Regex::replace_all`), the text around the matches kept; the input
/// itself should the pattern not compile (or the pieces and matches not
/// line up).
pub open spec fn spec_normalize_textual(input: Seq<char>) -> Seq<char> {
    match (regex_split_pieces(textual_pattern(), input), regex_match_groups(textual_pattern(), input)) {
        (Some(pieces), Some(groups)) => if pieces.len() == groups.len() + 1 {
            splice_matches(pieces, groups, groups.len() as int)
        } else {
            input
        },
        _ => input,
    }
}

fn group_str(g: &Vec<Option<String>>, i: usize) -> (r: String)
    ensures
        r@ == group_text(g@.map_values(|o: Option<String>| opt_text(o)), i as int),
{
    if i < g.len() {
        match &g[i] {
            Some(t) => t.clone(),
            None => String::new(),
        }
    } else {
        String::new()
    }
}

fn replace_match(g: &Vec<Option<String>>) -> (r: String)
    ensures
        r@ == match_replacement(g@.map_values(|o: Option<String>| opt_text(o))),
{
    let g1 = group_str(g, 1);
    let g2 = group_str(g, 2);
    let g3 = group_str(g, 3);
    let g4 = group_str(g, 4);
    let g5 = group_str(g, 5);
    let g6 = group_str(g, 6);
    let g7 = group_str(g, 7);
    textual_replacement(
        g1.as_str(),
        g2.as_str(),
        g3.as_str(),
        g4.as_str(),
        g5.as_str(),
        g6.as_str(),
        g7.as_str(),
    )
}

/// Put the numeric form of each textual datetime match between the pieces
/// of text around the matches: `pieces` are the texts before, between and
/// after the matches, `groups` the capture groups of each match (group 0
/// the whole match, a group that took no part `None`). When the pieces do
/// not number one more than the matches, `input` is answered unchanged.
pub fn splice_textual(pieces: &Vec<String>, groups: &Vec<Vec<Option<String>>>, input: &str) -> (r: String)
    ensures
        pieces.len() == groups.len() + 1 ==> r@ == splice_matches(
            pieces@.map_values(|t: String| t@),
            groups_view(groups@),
            groups.len() as int,
        ),
        pieces.len() != groups.len() + 1 ==> r@ == input@,
{
    if pieces.len() == 0 || pieces.len() - 1 != groups.len() {
        return input.to_owned();
    }
    let ghost ps = pieces@.map_values(|t: String| t@);
    let ghost gs = groups_view(groups@);
    let mut out = chars_of(pieces[0].as_str());
    let mut k: usize = 0;
    while k < groups.len()
        invariant
            k <= groups.len(),
            pieces.len() == groups.len() + 1,
            ps == pieces@.map_values(|t: String| t@),
            gs == groups_view(groups@),
            out@ == splice_matches(ps, gs, k as int),
        decreases groups.len() - k,
    {
        let rep = replace_match(&groups[k]);
        assert(gs[k as int] == groups@[k as int]@.map_values(|o: Option<String>| opt_text(o)));
        extend_chars(&mut out, &chars_of(rep.as_str()));
        extend_chars(&mut out, &chars_of(pieces[k + 1].as_str()));
        assert(ps[k + 1] == pieces@[k + 1]@);
        k += 1;
    }
    string_from_chars(&out)
}

/// Replace textual month / 12-hour-clock datetime spans with numeric form.
///
/// `Nov 19, 2025, 11_41_56 AM` becomes `19_11_2025_11_41_56`.
pub fn normalize_textual_datetime(input: &str) -> (r: String)
    ensures
        r@ == spec_normalize_textual(input@),
{
    let pattern = string_from_chars(&build_textual_pattern());
    let split = regex_split(pattern.as_str(), input);
    let caps = regex_captures(pattern.as_str(), input);
    match (split, caps) {
        (Some(pieces), Some(groups)) => splice_textual(&pieces, &groups, input),
        _ => input.to_owned(),
    }
}

} // verus!
