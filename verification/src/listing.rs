//! The lines the command line prints for planned renames and merge moves,
//! colored with ANSI escape sequences.
use vstd::prelude::*;
use crate::plan::paths::last_index_of;
use crate::plan::paths::lemma_last_index_of;
use crate::plan_types::{ItemKind, RenamePlan};
use crate::text::{chars_of, extend_chars, string_from_chars};

verus! {

/// The foreground colors of the listing.
#[derive(Debug, Clone, Copy, PartialEq, Eq, Structural)]
pub enum TermColor {
    /// New file names.
    BrightGreen,
    /// New directory names, and the changed part of merge paths.
    BrightBlue,
    /// The unchanged parent of a renamed item.
    White,
    /// The renamed component, and the common part of merge paths.
    BrightWhite,
}

/// The SGR parameter of each color.
pub open spec fn color_code(c: TermColor) -> Seq<char> {
    match c {
        TermColor::BrightGreen => seq!['9', '2'],
        TermColor::BrightBlue => seq!['9', '4'],
        TermColor::White => seq!['3', '7'],
        TermColor::BrightWhite => seq!['9', '7'],
    }
}

/// `ESC [ code m`.
pub open spec fn sgr(code: Seq<char>) -> Seq<char> {
    seq!['\u{1b}', '['] + code + seq!['m']
}

/// `ESC [ 0 m`.
pub open spec fn sgr_reset() -> Seq<char> {
    sgr(seq!['0'])
}

/// The opening and closing sequences of an anstyle foreground style
/// (`Style::new().fg_color(Some(Color::Ansi(..)))` displayed with `{}` and
/// with `{:#}`): anstyle writes `ESC [ code m` for the color and
/// `ESC [0m` to reset it.
#[verifier::external_body]
fn render_style(c: TermColor) -> (r: (String, String))
    ensures
        r.0@ == sgr(color_code(c)),
        r.1@ == sgr_reset(),
{
    let color = match c {
        TermColor::BrightGreen => anstyle::AnsiColor::BrightGreen,
        TermColor::BrightBlue => anstyle::AnsiColor::BrightBlue,
        TermColor::White => anstyle::AnsiColor::White,
        TermColor::BrightWhite => anstyle::AnsiColor::BrightWhite,
    };
    let style = anstyle::Style::new().fg_color(Some(anstyle::Color::Ansi(color)));
    (format!("{style}"), format!("{style:#}"))
}

/// `text` between the opening and closing sequences of color `c`.
pub open spec fn painted(c: TermColor, text: Seq<char>) -> Seq<char> {
    sgr(color_code(c)) + text + sgr_reset()
}

/// The components of a `/`-separated path, empty pieces dropped.
pub open spec fn components(s: Seq<char>) -> Seq<Seq<char>>
    decreases s.len(),
{
    if s.len() == 0 {
        Seq::empty()
    } else {
        let i = last_index_of(s, '/');
        if i < 0 {
            seq![s]
        } else {
            let rest = if 0 <= i < s.len() {
                components(s.take(i))
            } else {
                Seq::empty()
            };
            let last = s.skip(i + 1);
            if last.len() == 0 {
                rest
            } else {
                rest.push(last)
            }
        }
    }
}

/// The parts joined by `/`.
pub open spec fn join_slash(parts: Seq<Seq<char>>) -> Seq<char>
    decreases parts.len(),
{
    if parts.len() == 0 {
        Seq::empty()
    } else if parts.len() == 1 {
        parts[0]
    } else {
        join_slash(parts.drop_last()) + seq!['/'] + parts.last()
    }
}

pub open spec fn spec_join_components(parts: Seq<Seq<char>>, leading_slash: bool) -> Seq<char> {
    if leading_slash {
        seq!['/'] + join_slash(parts)
    } else {
        join_slash(parts)
    }
}

/// Number of trailing components, from `c` on, that `a` and `b` share.
pub open spec fn common_tail(a: Seq<Seq<char>>, b: Seq<Seq<char>>, c: int) -> int
    decreases a.len() - c,
{
    if 0 <= c < a.len() && c < b.len() && a[a.len() - 1 - c] == b[b.len() - 1 - c] {
        common_tail(a, b, c + 1)
    } else {
        c
    }
}

/// One side of a merge line: the differing leading part bright, the common
/// trailing part dim.
pub open spec fn merge_side(prefix: Seq<char>, suffix: Seq<char>) -> Seq<char> {
    if prefix.len() == 0 {
        painted(TermColor::BrightWhite, suffix)
    } else if suffix.len() == 0 {
        painted(TermColor::BrightBlue, prefix)
    } else {
        painted(TermColor::BrightBlue, prefix + seq!['/']) + painted(TermColor::BrightWhite, suffix)
    }
}

pub open spec fn starts_with_slash(s: Seq<char>) -> bool {
    s.len() > 0 && s[0] == '/'
}

/// The merge line `-> {to} from {from}`: the trailing components the two
/// paths share are dim, the leading parts where they differ bright.
pub open spec fn spec_merge_line(to: Seq<char>, from: Seq<char>) -> Seq<char> {
    let tp = components(to);
    let fp = components(from);
    let common = common_tail(tp, fp, 0);
    let ts = tp.len() - common;
    let fs = fp.len() - common;
    let to_side = merge_side(
        spec_join_components(tp.take(ts), starts_with_slash(to)),
        spec_join_components(tp.skip(ts), false),
    );
    let from_side = merge_side(
        spec_join_components(fp.take(fs), starts_with_slash(from)),
        spec_join_components(fp.skip(fs), false),
    );
    seq!['-', '>', ' '] + to_side + seq![' ', 'f', 'r', 'o', 'm', ' '] + from_side
}

/// The rename line `-> {new}[/] from {parent}/{old}[/]`: the new name
/// bright green for files and bright blue for directories (which get a
/// trailing `/`), the parent white and the old name bright white.
pub open spec fn spec_rename_line(
    new: Seq<char>,
    parent: Seq<char>,
    old: Seq<char>,
    is_dir: bool,
) -> Seq<char> {
    let trailing: Seq<char> = if is_dir {
        seq!['/']
    } else {
        Seq::empty()
    };
    let new_color = if is_dir {
        TermColor::BrightBlue
    } else {
        TermColor::BrightGreen
    };
    let parent_slash = if parent.len() > 0 && parent.last() == '/' {
        parent
    } else {
        parent + seq!['/']
    };
    seq!['-', '>', ' '] + painted(new_color, new + trailing) + seq![' ', 'f', 'r', 'o', 'm', ' ']
        + painted(TermColor::White, parent_slash) + painted(TermColor::BrightWhite, old + trailing)
}

fn paint(out: &mut Vec<char>, c: TermColor, text: &Vec<char>)
    ensures
        final(out)@ == old(out)@ + painted(c, text@),
{
    let (open, close) = render_style(c);
    let o = chars_of(open.as_str());
    let cl = chars_of(close.as_str());
    let ghost start = out@;
    extend_chars(out, &o);
    extend_chars(out, text);
    extend_chars(out, &cl);
    assert(out@ =~= start + painted(c, text@));
}

/// Split a path into components, dropping empty pieces (so `./foo/bar` is
/// `[".", "foo", "bar"]`).
pub fn path_components(s: &str) -> (r: Vec<String>)
    ensures
        r@.map_values(|x: String| x@) == components(s@),
{
    let v = chars_of(s);
    let parts = components_chars(&v);
    let mut r: Vec<String> = Vec::new();
    let mut i: usize = 0;
    while i < parts.len()
        invariant
            i <= parts.len(),
            r@.map_values(|x: String| x@) == parts@.map_values(|x: Vec<char>| x@).take(i as int),
        decreases parts.len() - i,
    {
        let ghost pre = r@.map_values(|x: String| x@);
        let st = string_from_chars(&parts[i]);
        r.push(st);
        assert(r@.map_values(|x: String| x@) =~= pre.push(st@));
        i += 1;
        assert(r@.map_values(|x: String| x@) =~= parts@.map_values(|x: Vec<char>| x@).take(i as int));
    }
    assert(parts@.map_values(|x: Vec<char>| x@).take(i as int) =~= parts@.map_values(|x: Vec<char>| x@));
    r
}

pub(crate) fn components_chars(s: &Vec<char>) -> (r: Vec<Vec<char>>)
    ensures
        r@.map_values(|x: Vec<char>| x@) == components(s@),
{
    // Pieces are collected from the end, then reversed.
    let mut rev: Vec<Vec<char>> = Vec::new();
    let mut end: usize = s.len();
    let ghost mut rest = s@;
    while end > 0
        invariant
            end <= s.len(),
            rest == s@.take(end as int),
            components(s@) == components(rest) + rev@.map_values(|x: Vec<char>| x@).reverse(),
        decreases end,
    {
        let t = crate::text::sub_chars(s, 0, end);
        assert(t@ =~= rest);
        proof {
            lemma_last_index_of(rest, '/');
        }
        let cut = crate::plan::paths::last_index_exec(&t, '/');
        match cut {
            None => {
                let ghost pre = rev@.map_values(|x: Vec<char>| x@);
                rev.push(t);
                proof {
                    assert(rev@.map_values(|x: Vec<char>| x@) =~= pre.push(rest));
                    assert(pre.push(rest).reverse() =~= seq![rest] + pre.reverse());
                    assert(components(s@.take(0)) =~= Seq::<Seq<char>>::empty());
                    assert(components(rest) == seq![rest]);
                    rest = s@.take(0);
                    assert(components(s@) =~= components(rest) + rev@.map_values(|x: Vec<char>| x@).reverse());
                }
                end = 0;
            },
            Some(i) => {
                let last = crate::text::sub_chars(s, i + 1, end);
                assert(last@ =~= rest.skip(i + 1));
                let ghost pre = rev@.map_values(|x: Vec<char>| x@);
                proof {
                    assert(rest.take(i as int) =~= s@.take(i as int));
                }
                if last.len() > 0 {
                    rev.push(last);
                    proof {
                        assert(rev@.map_values(|x: Vec<char>| x@) =~= pre.push(rest.skip(i + 1)));
                        assert(pre.push(rest.skip(i + 1)).reverse() =~= seq![rest.skip(i + 1)]
                            + pre.reverse());
                        assert(components(rest) == components(rest.take(i as int)).push(
                            rest.skip(i + 1),
                        ));
                        assert(components(rest.take(i as int)).push(rest.skip(i + 1)) + pre.reverse()
                            =~= components(rest.take(i as int)) + (seq![rest.skip(i + 1)]
                            + pre.reverse()));
                    }
                } else {
                    assert(components(rest) == components(rest.take(i as int)));
                }
                proof {
                    rest = s@.take(i as int);
                }
                end = i;
            },
        }
    }
    assert(rest =~= Seq::<char>::empty());
    // reverse
    let mut r: Vec<Vec<char>> = Vec::new();
    let mut k: usize = rev.len();
    while k > 0
        invariant
            k <= rev.len(),
            r@.map_values(|x: Vec<char>| x@) == rev@.map_values(|x: Vec<char>| x@).skip(k as int).reverse(),
        decreases k,
    {
        k -= 1;
        let ghost pre = r@.map_values(|x: Vec<char>| x@);
        r.push(rev[k].clone());
        proof {
            let rv = rev@.map_values(|x: Vec<char>| x@);
            assert(r@.map_values(|x: Vec<char>| x@) =~= pre.push(rv[k as int]));
            assert(rv.skip(k as int) =~= seq![rv[k as int]] + rv.skip(k + 1));
            assert((seq![rv[k as int]] + rv.skip(k + 1)).reverse() =~= rv.skip(k + 1).reverse().push(
                rv[k as int],
            ));
        }
    }
    proof {
        let rv = rev@.map_values(|x: Vec<char>| x@);
        assert(rv.skip(0) =~= rv);
        assert(components(Seq::<char>::empty()) =~= Seq::<Seq<char>>::empty());
        assert(components(s@) =~= rv.reverse());
    }
    r
}

fn join_slash_chars(parts: &Vec<Vec<char>>, lo: usize, hi: usize) -> (r: Vec<char>)
    requires
        lo <= hi <= parts.len(),
    ensures
        r@ == join_slash(parts@.map_values(|x: Vec<char>| x@).subrange(lo as int, hi as int)),
{
    let ghost ps = parts@.map_values(|x: Vec<char>| x@);
    let mut r: Vec<char> = Vec::new();
    let mut i: usize = lo;
    assert(ps.subrange(lo as int, lo as int) =~= Seq::<Seq<char>>::empty());
    while i < hi
        invariant
            lo <= i <= hi <= parts.len(),
            ps == parts@.map_values(|x: Vec<char>| x@),
            r@ == join_slash(ps.subrange(lo as int, i as int)),
        decreases hi - i,
    {
        let ghost sub = ps.subrange(lo as int, i + 1);
        assert(sub.drop_last() =~= ps.subrange(lo as int, i as int));
        assert(sub.last() == parts@[i as int]@);
        if i > lo {
            r.push('/');
        } else {
            assert(sub =~= seq![parts@[i as int]@]);
        }
        extend_chars(&mut r, &parts[i]);
        i += 1;
    }
    r
}

/// Join components with `/`, with a leading `/` if `leading_slash`.
pub fn join_components(parts: &Vec<String>, leading_slash: bool) -> (r: String)
    ensures
        r@ == spec_join_components(parts@.map_values(|x: String| x@), leading_slash),
{
    let mut pv: Vec<Vec<char>> = Vec::new();
    let mut i: usize = 0;
    while i < parts.len()
        invariant
            i <= parts.len(),
            pv@.map_values(|x: Vec<char>| x@) == parts@.map_values(|x: String| x@).take(i as int),
        decreases parts.len() - i,
    {
        let ghost pre = pv@.map_values(|x: Vec<char>| x@);
        let c = chars_of(parts[i].as_str());
        pv.push(c);
        assert(pv@.map_values(|x: Vec<char>| x@) =~= pre.push(c@));
        i += 1;
        assert(pv@.map_values(|x: Vec<char>| x@) =~= parts@.map_values(|x: String| x@).take(i as int));
    }
    assert(parts@.map_values(|x: String| x@).take(i as int) =~= parts@.map_values(|x: String| x@));
    let j = join_slash_chars(&pv, 0, pv.len());
    assert(pv@.map_values(|x: Vec<char>| x@).subrange(0, pv.len() as int) =~= pv@.map_values(
        |x: Vec<char>| x@,
    ));
    let mut out: Vec<char> = Vec::new();
    if leading_slash {
        out.push('/');
    }
    extend_chars(&mut out, &j);
    assert(out@ =~= spec_join_components(parts@.map_values(|x: String| x@), leading_slash));
    string_from_chars(&out)
}

fn merge_side_chars(out: &mut Vec<char>, prefix: &Vec<char>, suffix: &Vec<char>)
    ensures
        final(out)@ == old(out)@ + merge_side(prefix@, suffix@),
{
    if prefix.len() == 0 {
        paint(out, TermColor::BrightWhite, suffix);
    } else if suffix.len() == 0 {
        paint(out, TermColor::BrightBlue, prefix);
    } else {
        let mut p = prefix.clone();
        p.push('/');
        let ghost start = out@;
        paint(out, TermColor::BrightBlue, &p);
        paint(out, TermColor::BrightWhite, suffix);
        assert(out@ =~= start + merge_side(prefix@, suffix@));
    }
}

/// The two halves of a path split after `split` components.
fn split_path(parts: &Vec<Vec<char>>, split: usize, leading: bool) -> (r: (Vec<char>, Vec<char>))
    requires
        split <= parts.len(),
    ensures
        r.0@ == spec_join_components(parts@.map_values(|x: Vec<char>| x@).take(split as int), leading),
        r.1@ == spec_join_components(parts@.map_values(|x: Vec<char>| x@).skip(split as int), false),
{
    let ghost ps = parts@.map_values(|x: Vec<char>| x@);
    let a = join_slash_chars(parts, 0, split);
    let b = join_slash_chars(parts, split, parts.len());
    assert(ps.subrange(0, split as int) =~= ps.take(split as int));
    assert(ps.subrange(split as int, parts.len() as int) =~= ps.skip(split as int));
    let mut pre: Vec<char> = Vec::new();
    if leading {
        pre.push('/');
    }
    extend_chars(&mut pre, &a);
    assert(pre@ =~= spec_join_components(ps.take(split as int), leading));
    (pre, b)
}

/// Format one merge move: `-> {to} from {from}`, where the trailing path
/// components the two paths share are dim and the leading parts where they
/// differ (typically the source root and the target root) are bright.
pub fn format_merge_line(to: &str, from: &str) -> (r: String)
    ensures
        r@ == spec_merge_line(to@, from@),
{
    let tv = chars_of(to);
    let fv = chars_of(from);
    let tp = components_chars(&tv);
    let fp = components_chars(&fv);
    let ghost tps = tp@.map_values(|x: Vec<char>| x@);
    let ghost fps = fp@.map_values(|x: Vec<char>| x@);
    let mut common: usize = 0;
    assert(tp@.len() == tps.len() && fp@.len() == fps.len());
    while common < tp.len() && common < fp.len() && crate::execute::chars_eq(
        &tp[tp.len() - 1 - common],
        &fp[fp.len() - 1 - common],
    )
        invariant
            common <= tp.len(),
            common <= fp.len(),
            tps == tp@.map_values(|x: Vec<char>| x@),
            fps == fp@.map_values(|x: Vec<char>| x@),
            common_tail(tps, fps, 0) == common_tail(tps, fps, common as int),
        decreases tp.len() - common,
    {
        assert(tps[tps.len() - 1 - common] == tp@[tp.len() - 1 - common]@);
        assert(fps[fps.len() - 1 - common] == fp@[fp.len() - 1 - common]@);
        common += 1;
    }
    proof {
        if common < tp.len() && common < fp.len() {
            assert(tps[tps.len() - 1 - common] == tp@[tp.len() - 1 - common]@);
            assert(fps[fps.len() - 1 - common] == fp@[fp.len() - 1 - common]@);
        }
    }
    let to_lead = tv.len() > 0 && tv[0] == '/';
    let from_lead = fv.len() > 0 && fv[0] == '/';
    let (tpre, tsuf) = split_path(&tp, tp.len() - common, to_lead);
    let (fpre, fsuf) = split_path(&fp, fp.len() - common, from_lead);
    let mut out: Vec<char> = vec!['-', '>', ' '];
    merge_side_chars(&mut out, &tpre, &tsuf);
    let fr = vec![' ', 'f', 'r', 'o', 'm', ' '];
    extend_chars(&mut out, &fr);
    merge_side_chars(&mut out, &fpre, &fsuf);
    assert(out@ =~= spec_merge_line(to@, from@));
    string_from_chars(&out)
}

/// Format one rename plan as a single line: `-> {new}[/] from
/// {parent}/{old}[/]`. Directories get a trailing `/`; the new name is bright
/// green for files and bright blue for directories; the parent is white and
/// the old name bright white.
pub fn format_rename_line(plan: &RenamePlan) -> (r: String)
    ensures
        r@ == spec_rename_line(plan.new_name@, plan.parent@, plan.old_name@, plan.kind == ItemKind::Dir),
{
    let is_dir = plan.kind == ItemKind::Dir;
    let mut new = chars_of(plan.new_name.as_str());
    let mut old = chars_of(plan.old_name.as_str());
    let mut parent = chars_of(plan.parent.as_str());
    if is_dir {
        new.push('/');
        old.push('/');
    }
    if !(parent.len() > 0 && parent[parent.len() - 1] == '/') {
        parent.push('/');
    }
    let new_color = if is_dir {
        TermColor::BrightBlue
    } else {
        TermColor::BrightGreen
    };
    let mut out: Vec<char> = vec!['-', '>', ' '];
    paint(&mut out, new_color, &new);
    let fr = vec![' ', 'f', 'r', 'o', 'm', ' '];
    extend_chars(&mut out, &fr);
    paint(&mut out, TermColor::White, &parent);
    paint(&mut out, TermColor::BrightWhite, &old);
    assert(out@ =~= spec_rename_line(plan.new_name@, plan.parent@, plan.old_name@, is_dir));
    string_from_chars(&out)
}

} // verus!
