//! Character-level helpers shared by the slug and date pipelines.
//!
//! Strings are handled as `Vec<char>` inside the library; their views are
//! `Seq<char>`, and every spec function here works on that model.
use vstd::prelude::*;

verus! {

pub open spec fn is_digit(c: char) -> bool {
    '0' <= c && c <= '9'
}

pub open spec fn is_upper(c: char) -> bool {
    'A' <= c && c <= 'Z'
}

pub open spec fn is_lower(c: char) -> bool {
    'a' <= c && c <= 'z'
}

pub open spec fn is_alnum(c: char) -> bool {
    is_digit(c) || is_upper(c) || is_lower(c)
}

pub open spec fn is_ascii_char(c: char) -> bool {
    (c as u32) < 128
}

pub open spec fn all_ascii(s: Seq<char>) -> bool {
    forall|i: int| 0 <= i < s.len() ==> is_ascii_char(#[trigger] s[i])
}

/// ASCII lowercase of one character; other characters are unchanged.
pub open spec fn lower_char(c: char) -> char {
    if is_upper(c) {
        ((c as u32) + 32) as char
    } else {
        c
    }
}

/// ASCII uppercase of one character; other characters are unchanged.
pub open spec fn upper_char(c: char) -> char {
    if is_lower(c) {
        ((c as u32) - 32) as char
    } else {
        c
    }
}

pub open spec fn ascii_lower(s: Seq<char>) -> Seq<char> {
    s.map_values(|c: char| lower_char(c))
}

pub open spec fn ascii_upper(s: Seq<char>) -> Seq<char> {
    s.map_values(|c: char| upper_char(c))
}

/// Numeric value of an ASCII digit.
pub open spec fn digit_val(c: char) -> nat {
    ((c as u32) - ('0' as u32)) as nat
}

pub open spec fn all_digits(s: Seq<char>) -> bool {
    forall|i: int| 0 <= i < s.len() ==> is_digit(#[trigger] s[i])
}

/// Value of a string of decimal digits, most significant first.
pub open spec fn digits_value(s: Seq<char>) -> nat
    decreases s.len(),
{
    if s.len() == 0 {
        0
    } else {
        digits_value(s.drop_last()) * 10 + digit_val(s.last())
    }
}

pub open spec fn digit_char(d: nat) -> char {
    ((d % 10) + ('0' as u32)) as char
}

/// Canonical decimal representation of `n` (no leading zeros; `0` is `"0"`).
pub open spec fn decimal(n: nat) -> Seq<char>
    decreases n,
{
    if n < 10 {
        seq![digit_char(n)]
    } else {
        decimal(n / 10).push(digit_char(n % 10))
    }
}

/// Decimal representation of `n` left-padded with `'0'` to at least `width` characters.
pub open spec fn zero_pad(n: nat, width: nat) -> Seq<char> {
    let d = decimal(n);
    if d.len() >= width {
        d
    } else {
        Seq::new((width - d.len()) as nat, |i: int| '0') + d
    }
}

/// `s` with every occurrence of `from` replaced by `to`.
pub open spec fn replace_char(s: Seq<char>, from: char, to: char) -> Seq<char> {
    s.map_values(|c: char| if c == from { to } else { c })
}

/// `s` with leading occurrences of `c` removed.
pub open spec fn trim_start(s: Seq<char>, c: char) -> Seq<char>
    decreases s.len(),
{
    if s.len() > 0 && s[0] == c {
        trim_start(s.drop_first(), c)
    } else {
        s
    }
}

/// `s` with trailing occurrences of `c` removed.
pub open spec fn trim_end(s: Seq<char>, c: char) -> Seq<char>
    decreases s.len(),
{
    if s.len() > 0 && s.last() == c {
        trim_end(s.drop_last(), c)
    } else {
        s
    }
}

/// `s` with leading and trailing occurrences of `c` removed (`str::trim_matches`).
pub open spec fn trim_char(s: Seq<char>, c: char) -> Seq<char> {
    trim_end(trim_start(s, c), c)
}

/// Number of bytes of `c` in UTF-8.
pub open spec fn utf8_width(c: char) -> nat {
    if (c as u32) < 0x80 {
        1
    } else if (c as u32) < 0x800 {
        2
    } else if (c as u32) < 0x10000 {
        3
    } else {
        4
    }
}

/// Number of bytes of `s` in UTF-8.
pub open spec fn utf8_len(s: Seq<char>) -> nat
    decreases s.len(),
{
    if s.len() == 0 {
        0
    } else {
        utf8_len(s.drop_last()) + utf8_width(s.last())
    }
}

pub proof fn lemma_trim_start_suffix(s: Seq<char>, c: char)
    ensures
        exists|k: int|
            0 <= k <= s.len() && #[trigger] s.subrange(k, s.len() as int) == trim_start(s, c)
                && (forall|i: int| 0 <= i < k ==> s[i] == c) && (k < s.len() ==> s[k] != c),
    decreases s.len(),
{
    if s.len() > 0 && s[0] == c {
        lemma_trim_start_suffix(s.drop_first(), c);
        let k = choose|k: int|
            0 <= k <= s.drop_first().len() && #[trigger] s.drop_first().subrange(
                k,
                s.drop_first().len() as int,
            ) == trim_start(s.drop_first(), c) && (forall|i: int|
                0 <= i < k ==> s.drop_first()[i] == c) && (k < s.drop_first().len()
                ==> s.drop_first()[k] != c);
        assert(s.subrange(k + 1, s.len() as int) =~= s.drop_first().subrange(
            k,
            s.drop_first().len() as int,
        ));
        assert forall|i: int| 0 <= i < k + 1 implies s[i] == c by {
            if i > 0 {
                assert(s[i] == s.drop_first()[i - 1]);
            }
        }
    } else {
        assert(s.subrange(0, s.len() as int) =~= s);
    }
}

pub proof fn lemma_trim_end_prefix(s: Seq<char>, c: char)
    ensures
        exists|k: int|
            0 <= k <= s.len() && #[trigger] s.subrange(0, k) == trim_end(s, c) && (forall|i: int|
                k <= i < s.len() ==> s[i] == c) && (k > 0 ==> s[k - 1] != c),
    decreases s.len(),
{
    if s.len() > 0 && s.last() == c {
        lemma_trim_end_prefix(s.drop_last(), c);
        let k = choose|k: int|
            0 <= k <= s.drop_last().len() && #[trigger] s.drop_last().subrange(0, k) == trim_end(
                s.drop_last(),
                c,
            ) && (forall|i: int| k <= i < s.drop_last().len() ==> s.drop_last()[i] == c) && (k
                > 0 ==> s.drop_last()[k - 1] != c);
        assert(s.subrange(0, k) =~= s.drop_last().subrange(0, k));
        assert forall|i: int| k <= i < s.len() implies s[i] == c by {
            if i < s.len() - 1 {
                assert(s[i] == s.drop_last()[i]);
            }
        }
        assert(k > 0 ==> s[k - 1] == s.drop_last()[k - 1]);
    } else {
        assert(s.subrange(0, s.len() as int) =~= s);
    }
}

/// Build a `String` from a vector of characters.
#[verifier::external_body]
pub(crate) fn string_from_chars(v: &Vec<char>) -> (s: String)
    ensures
        s@ == v@,
{
    v.iter().collect()
}

/// Collect the characters of a string slice into a vector.
pub fn chars_of(s: &str) -> (v: Vec<char>)
    ensures
        v@ == s@,
{
    let mut v: Vec<char> = Vec::new();
    for c in it: s.chars()
        invariant
            v@ == it.seq().take(it.index() as int),
            it.seq() == s@,
    {
        v.push(c);
    }
    v
}

/// Whether `c` is an ASCII digit.
pub fn is_digit_exec(c: char) -> (b: bool)
    ensures
        b == is_digit(c),
{
    '0' <= c && c <= '9'
}

/// Whether `c` is an ASCII letter or digit.
pub fn is_alnum_exec(c: char) -> (b: bool)
    ensures
        b == is_alnum(c),
{
    ('0' <= c && c <= '9') || ('A' <= c && c <= 'Z') || ('a' <= c && c <= 'z')
}

/// The ASCII lowercase of `c` (other characters unchanged).
pub fn lower_char_exec(c: char) -> (r: char)
    ensures
        r == lower_char(c),
{
    if 'A' <= c && c <= 'Z' {
        let r = ((c as u8) + 32) as char;
        assert(r == lower_char(c)) by {
            assert((c as u32) < 128);
        }
        r
    } else {
        c
    }
}

/// The ASCII uppercase of `c` (other characters unchanged).
pub fn upper_char_exec(c: char) -> (r: char)
    ensures
        r == upper_char(c),
{
    if 'a' <= c && c <= 'z' {
        ((c as u8) - 32) as char
    } else {
        c
    }
}

/// Append the characters of `src` to `dst`.
pub fn extend_chars(dst: &mut Vec<char>, src: &Vec<char>)
    ensures
        final(dst)@ == old(dst)@ + src@,
{
    let ghost start = dst@;
    let mut i: usize = 0;
    while i < src.len()
        invariant
            i <= src.len(),
            dst@ == start + src@.take(i as int),
        decreases src.len() - i,
    {
        dst.push(src[i]);
        i += 1;
        assert(src@.take(i as int) =~= src@.take(i - 1).push(src@[i - 1]));
    }
    assert(src@.take(i as int) =~= src@);
}

/// Copy of `s[lo..hi]`.
pub fn sub_chars(s: &Vec<char>, lo: usize, hi: usize) -> (r: Vec<char>)
    requires
        lo <= hi <= s.len(),
    ensures
        r@ == s@.subrange(lo as int, hi as int),
{
    let mut r: Vec<char> = Vec::new();
    let mut i = lo;
    while i < hi
        invariant
            lo <= i <= hi <= s.len(),
            r@ == s@.subrange(lo as int, i as int),
        decreases hi - i,
    {
        r.push(s[i]);
        i += 1;
        assert(s@.subrange(lo as int, i as int) =~= s@.subrange(lo as int, i - 1).push(
            s@[i - 1],
        ));
    }
    r
}

/// Whether every character is ASCII.
pub fn all_ascii_exec(s: &Vec<char>) -> (b: bool)
    ensures
        b == all_ascii(s@),
{
    let mut i: usize = 0;
    while i < s.len()
        invariant
            i <= s.len(),
            forall|j: int| 0 <= j < i ==> is_ascii_char(#[trigger] s@[j]),
        decreases s.len() - i,
    {
        if (s[i] as u32) >= 128 {
            return false;
        }
        i += 1;
    }
    true
}

/// ASCII-lowercase every character.
pub fn ascii_lower_exec(s: &Vec<char>) -> (r: Vec<char>)
    ensures
        r@ == ascii_lower(s@),
{
    let mut r: Vec<char> = Vec::new();
    let mut i: usize = 0;
    while i < s.len()
        invariant
            i <= s.len(),
            r@ == ascii_lower(s@.take(i as int)),
        decreases s.len() - i,
    {
        r.push(lower_char_exec(s[i]));
        i += 1;
        assert(ascii_lower(s@.take(i as int)) =~= ascii_lower(s@.take(i - 1)).push(
            lower_char(s@[i - 1]),
        ));
    }
    assert(s@.take(i as int) =~= s@);
    r
}

/// ASCII-uppercase every character.
pub fn ascii_upper_exec(s: &Vec<char>) -> (r: Vec<char>)
    ensures
        r@ == ascii_upper(s@),
{
    let mut r: Vec<char> = Vec::new();
    let mut i: usize = 0;
    while i < s.len()
        invariant
            i <= s.len(),
            r@ == ascii_upper(s@.take(i as int)),
        decreases s.len() - i,
    {
        r.push(upper_char_exec(s[i]));
        i += 1;
        assert(ascii_upper(s@.take(i as int)) =~= ascii_upper(s@.take(i - 1)).push(
            upper_char(s@[i - 1]),
        ));
    }
    assert(s@.take(i as int) =~= s@);
    r
}

/// Replace every `from` by `to`.
pub fn replace_char_exec(s: &Vec<char>, from: char, to: char) -> (r: Vec<char>)
    ensures
        r@ == replace_char(s@, from, to),
{
    let mut r: Vec<char> = Vec::new();
    let mut i: usize = 0;
    while i < s.len()
        invariant
            i <= s.len(),
            r@ == replace_char(s@.take(i as int), from, to),
        decreases s.len() - i,
    {
        let c = s[i];
        r.push(if c == from { to } else { c });
        i += 1;
        assert(replace_char(s@.take(i as int), from, to) =~= replace_char(
            s@.take(i - 1),
            from,
            to,
        ).push(if c == from { to } else { c }));
    }
    assert(s@.take(i as int) =~= s@);
    r
}

/// `str::trim_matches` with a single character.
pub fn trim_char_exec(s: &Vec<char>, c: char) -> (r: Vec<char>)
    ensures
        r@ == trim_char(s@, c),
{
    let mut lo: usize = 0;
    assert(s@.subrange(0, s.len() as int) =~= s@);
    while lo < s.len() && s[lo] == c
        invariant
            lo <= s.len(),
            trim_start(s@, c) == trim_start(s@.subrange(lo as int, s.len() as int), c),
        decreases s.len() - lo,
    {
        assert(s@.subrange(lo + 1, s.len() as int) =~= s@.subrange(
            lo as int,
            s.len() as int,
        ).drop_first());
        lo += 1;
    }
    let ghost t = s@.subrange(lo as int, s.len() as int);
    assert(trim_start(t, c) == t);
    let mut hi: usize = s.len();
    while hi > lo && s[hi - 1] == c
        invariant
            lo <= hi <= s.len(),
            trim_end(t, c) == trim_end(s@.subrange(lo as int, hi as int), c),
        decreases hi,
    {
        assert(s@.subrange(lo as int, hi - 1) =~= s@.subrange(lo as int, hi as int).drop_last());
        hi -= 1;
    }
    sub_chars(s, lo, hi)
}

pub proof fn lemma_utf8_len_bound(s: Seq<char>)
    ensures
        s.len() <= utf8_len(s) <= 4 * s.len(),
    decreases s.len(),
{
    if s.len() > 0 {
        lemma_utf8_len_bound(s.drop_last());
    }
}

pub proof fn lemma_utf8_len_concat(a: Seq<char>, b: Seq<char>)
    ensures
        utf8_len(a + b) == utf8_len(a) + utf8_len(b),
    decreases b.len(),
{
    if b.len() == 0 {
        assert(a + b =~= a);
    } else {
        lemma_utf8_len_concat(a, b.drop_last());
        assert((a + b).drop_last() =~= a + b.drop_last());
    }
}

pub proof fn lemma_utf8_len_ascii(s: Seq<char>)
    requires
        all_ascii(s),
    ensures
        utf8_len(s) == s.len(),
    decreases s.len(),
{
    if s.len() > 0 {
        lemma_utf8_len_ascii(s.drop_last());
    }
}

/// Number of UTF-8 bytes of `s[..n]`.
pub fn utf8_prefix_len(s: &Vec<char>, n: usize) -> (r: usize)
    requires
        n <= s.len(),
        s@.len() * 4 <= usize::MAX,
    ensures
        r == utf8_len(s@.take(n as int)),
{
    let mut total: usize = 0;
    let mut i: usize = 0;
    while i < n
        invariant
            i <= n <= s.len(),
            s@.len() * 4 <= usize::MAX,
            total == utf8_len(s@.take(i as int)),
        decreases n - i,
    {
        proof {
            lemma_utf8_len_bound(s@.take(i + 1));
            assert(s@.take(i + 1).drop_last() =~= s@.take(i as int));
        }
        let c = s[i];
        let w: usize = if (c as u32) < 0x80 {
            1
        } else if (c as u32) < 0x800 {
            2
        } else if (c as u32) < 0x10000 {
            3
        } else {
            4
        };
        total = total + w;
        i += 1;
    }
    total
}

pub open spec fn pow10(k: nat) -> nat
    decreases k,
{
    if k == 0 {
        1
    } else {
        10 * pow10((k - 1) as nat)
    }
}

pub proof fn lemma_decimal_len(n: nat, k: nat)
    requires
        k >= 1,
        n < pow10(k),
    ensures
        decimal(n).len() <= k,
    decreases k,
{
    if n >= 10 {
        assert(k >= 2) by {
            if k == 1 {
                reveal_with_fuel(pow10, 2);
            }
        }
        assert(n / 10 < pow10((k - 1) as nat));
        lemma_decimal_len(n / 10, (k - 1) as nat);
    }
}

pub proof fn lemma_zero_pad_len_u32(n: nat, w: nat)
    requires
        n <= 0xffff_ffff,
        w <= 10,
    ensures
        zero_pad(n, w).len() <= 10,
{
    reveal_with_fuel(pow10, 11);
    assert(pow10(10) == 10_000_000_000);
    lemma_decimal_len(n, 10);
}

} // verus!
