//! Path strings: last component, parent, joining, and the stem/extension
//! split of a file name.
//!
//! Paths are `/`-separated character sequences. The rules follow
//! `std::path`: a trailing `/` is ignored when taking the last component,
//! `.` and `..` have no file name, a name that starts with its only dot has
//! no extension, and joining an absolute name replaces the base.
use vstd::prelude::*;
use crate::text::{decimal, trim_end};
use crate::plan::laws::no_slash;
use crate::date::calendar::decimal_chars;
use crate::text::extend_chars;

verus! {

/// Index of the last occurrence of `c` in `s`, or `-1`.
pub open spec fn last_index_of(s: Seq<char>, c: char) -> int
    decreases s.len(),
{
    if s.len() == 0 {
        -1
    } else if s.last() == c {
        s.len() - 1
    } else {
        last_index_of(s.drop_last(), c)
    }
}

pub proof fn lemma_last_index_of(s: Seq<char>, c: char)
    ensures
        -1 <= last_index_of(s, c) < s.len(),
        last_index_of(s, c) >= 0 ==> s[last_index_of(s, c)] == c,
        forall|j: int| last_index_of(s, c) < j < s.len() ==> s[j] != c,
    decreases s.len(),
{
    if s.len() > 0 && s.last() != c {
        lemma_last_index_of(s.drop_last(), c);
        assert forall|j: int| last_index_of(s, c) < j < s.len() implies s[j] != c by {
            if j < s.len() - 1 {
                assert(s[j] == s.drop_last()[j]);
            }
        }
    }
}

/// `""`, `"."` and `".."`: names that are not file names.
pub open spec fn is_special_name(n: Seq<char>) -> bool {
    n.len() == 0 || n == seq!['.'] || n == seq!['.', '.']
}

/// The last component of a path (`Path::file_name`, empty when absent).
pub open spec fn path_file_name(p: Seq<char>) -> Seq<char> {
    let q = trim_end(p, '/');
    let n = q.skip(last_index_of(q, '/') + 1);
    if is_special_name(n) {
        Seq::empty()
    } else {
        n
    }
}

/// The parent of a path (`Path::parent`, empty when absent).
pub open spec fn path_parent(p: Seq<char>) -> Seq<char> {
    let q = trim_end(p, '/');
    let i = last_index_of(q, '/');
    if i < 0 {
        Seq::empty()
    } else {
        let par = trim_end(q.take(i), '/');
        if par.len() == 0 {
            seq!['/']
        } else {
            par
        }
    }
}

/// `parent` joined with `name` (`PathBuf::join`).
pub open spec fn join_path(parent: Seq<char>, name: Seq<char>) -> Seq<char> {
    if name.len() > 0 && name[0] == '/' {
        name
    } else if parent.len() == 0 || parent.last() == '/' {
        parent + name
    } else {
        parent + seq!['/'] + name
    }
}

/// The stem of a file name (`Path::file_stem`, empty when absent).
pub open spec fn name_stem(n: Seq<char>) -> Seq<char> {
    if is_special_name(n) {
        Seq::empty()
    } else if last_index_of(n, '.') <= 0 {
        n
    } else {
        n.take(last_index_of(n, '.'))
    }
}

/// The extension of a file name (`Path::extension`, empty when absent).
pub open spec fn name_ext(n: Seq<char>) -> Seq<char> {
    if is_special_name(n) || last_index_of(n, '.') <= 0 {
        Seq::empty()
    } else {
        n.skip(last_index_of(n, '.') + 1)
    }
}

/// `stem` followed by `.ext` when the extension is not empty.
pub open spec fn with_ext(stem: Seq<char>, ext: Seq<char>) -> Seq<char> {
    if ext.len() == 0 {
        stem
    } else {
        stem + seq!['.'] + ext
    }
}

/// No `.` after the first character: a name without an extension.
pub open spec fn dotless_tail(s: Seq<char>) -> bool {
    forall|j: int| 1 <= j < s.len() ==> s[j] != '.'
}

pub open spec fn no_dot(s: Seq<char>) -> bool {
    forall|j: int| 0 <= j < s.len() ==> s[j] != '.'
}

pub proof fn lemma_dotless_tail(s: Seq<char>)
    ensures
        dotless_tail(s) <==> last_index_of(s, '.') <= 0,
{
    lemma_last_index_of(s, '.');
}

/// The parts of a name, and what they hold.
pub proof fn lemma_name_parts(n: Seq<char>)
    ensures
        no_slash(n) ==> no_slash(name_stem(n)) && no_slash(name_ext(n)),
        no_dot(name_ext(n)),
        !is_special_name(n) && n.last() != '.' ==> n == with_ext(name_stem(n), name_ext(n)),
        !is_special_name(n) && n.last() != '.' && name_ext(n).len() == 0 ==> dotless_tail(
            name_stem(n),
        ),
{
    lemma_last_index_of(n, '.');
    lemma_dotless_tail(n);
    let li = last_index_of(n, '.');
    if !is_special_name(n) && li > 0 {
        let e = n.skip(li + 1);
        assert forall|j: int| 0 <= j < e.len() implies e[j] != '.' && (no_slash(n) ==> e[j] != '/') by {
            assert(e[j] == n[li + 1 + j]);
        }
        if no_slash(n) {
            assert forall|j: int| 0 <= j < li implies n.take(li)[j] != '/' by {
                assert(n.take(li)[j] == n[j]);
            }
        }
        if n.last() != '.' {
            assert(li != n.len() - 1);
            assert(n =~= n.take(li) + seq!['.'] + e);
        }
    }
}

/// Splitting `stem.ext` back gives `stem` and `ext`.
pub proof fn lemma_split_with_ext(st: Seq<char>, e: Seq<char>)
    requires
        st.len() > 2,
        no_dot(e),
        e.len() == 0 ==> dotless_tail(st),
    ensures
        name_stem(with_ext(st, e)) == st,
        name_ext(with_ext(st, e)) == e,
{
    let n = with_ext(st, e);
    lemma_last_index_of(n, '.');
    if e.len() == 0 {
        lemma_dotless_tail(st);
    } else {
        let li = last_index_of(n, '.');
        assert(n[st.len() as int] == '.');
        if li > st.len() {
            assert(n[li] == e[li - st.len() - 1]);
        }
        assert(li == st.len());
        assert(n.take(li) =~= st);
        assert(n.skip(li + 1) =~= e);
    }
}

pub proof fn lemma_with_ext_injective(x: Seq<char>, y: Seq<char>, e: Seq<char>)
    requires
        with_ext(x, e) == with_ext(y, e),
    ensures
        x == y,
{
    if e.len() > 0 {
        assert(with_ext(x, e) == x + seq!['.'] + e);
        assert(with_ext(y, e) == y + seq!['.'] + e);
        assert((x + seq!['.'] + e).len() == x.len() + 1 + e.len());
        assert((y + seq!['.'] + e).len() == y.len() + 1 + e.len());
        assert(x.len() == y.len());
        assert(x =~= with_ext(x, e).take(x.len() as int));
        assert(y =~= with_ext(y, e).take(y.len() as int));
    }
}

/// Index of the last `c` in `s`.
pub fn last_index_exec(s: &Vec<char>, c: char) -> (r: Option<usize>)
    ensures
        match r {
            Some(i) => i as int == last_index_of(s@, c),
            None => last_index_of(s@, c) == -1,
        },
{
    let mut i: usize = s.len();
    assert(s@.take(i as int) =~= s@);
    while i > 0
        invariant
            i <= s.len(),
            last_index_of(s@, c) == last_index_of(s@.take(i as int), c),
        decreases i,
    {
        assert(s@.take(i as int).last() == s@[i - 1]);
        if s[i - 1] == c {
            return Some(i - 1);
        }
        assert(s@.take(i as int).drop_last() =~= s@.take(i - 1));
        i -= 1;
    }
    None
}

/// Copy of `s` without its trailing occurrences of `c`.
pub fn trim_end_exec(s: &Vec<char>, c: char) -> (r: Vec<char>)
    ensures
        r@ == trim_end(s@, c),
{
    let mut hi: usize = s.len();
    assert(s@.take(hi as int) =~= s@);
    while hi > 0 && s[hi - 1] == c
        invariant
            hi <= s.len(),
            trim_end(s@, c) == trim_end(s@.take(hi as int), c),
        decreases hi,
    {
        assert(s@.take(hi - 1) =~= s@.take(hi as int).drop_last());
        hi -= 1;
    }
    let mut r: Vec<char> = Vec::new();
    let mut i: usize = 0;
    while i < hi
        invariant
            i <= hi <= s.len(),
            r@ == s@.take(i as int),
        decreases hi - i,
    {
        r.push(s[i]);
        i += 1;
        assert(r@ =~= s@.take(i as int));
    }
    r
}

fn is_special_exec(n: &Vec<char>) -> (b: bool)
    ensures
        b == is_special_name(n@),
{
    let b = n.len() == 0 || (n.len() == 1 && n[0] == '.') || (n.len() == 2 && n[0] == '.'
        && n[1] == '.');
    proof {
        if n.len() == 1 && n[0] == '.' {
            assert(n@ =~= seq!['.']);
        }
        if n.len() == 2 && n[0] == '.' && n[1] == '.' {
            assert(n@ =~= seq!['.', '.']);
        }
    }
    b
}

/// Copy of `s[lo..]`.
fn skip_exec(s: &Vec<char>, lo: usize) -> (r: Vec<char>)
    requires
        lo <= s.len(),
    ensures
        r@ == s@.skip(lo as int),
{
    crate::text::sub_chars(s, lo, s.len())
}

/// Copy of `s[..hi]`.
fn take_exec(s: &Vec<char>, hi: usize) -> (r: Vec<char>)
    requires
        hi <= s.len(),
    ensures
        r@ == s@.take(hi as int),
{
    let r = crate::text::sub_chars(s, 0, hi);
    assert(r@ =~= s@.take(hi as int));
    r
}

/// The last component of a path.
pub fn file_name_of(p: &Vec<char>) -> (r: Vec<char>)
    ensures
        r@ == path_file_name(p@),
{
    let q = trim_end_exec(p, '/');
    proof {
        lemma_last_index_of(q@, '/');
    }
    let start: usize = match last_index_exec(&q, '/') {
        Some(i) => i + 1,
        None => 0,
    };
    let n = skip_exec(&q, start);
    if is_special_exec(&n) {
        Vec::new()
    } else {
        n
    }
}

/// The parent of a path.
pub fn parent_of(p: &Vec<char>) -> (r: Vec<char>)
    ensures
        r@ == path_parent(p@),
{
    let q = trim_end_exec(p, '/');
    proof {
        lemma_last_index_of(q@, '/');
    }
    match last_index_exec(&q, '/') {
        None => Vec::new(),
        Some(i) => {
            let head = take_exec(&q, i);
            let par = trim_end_exec(&head, '/');
            if par.len() == 0 {
                let mut r: Vec<char> = Vec::new();
                r.push('/');
                assert(r@ =~= seq!['/']);
                r
            } else {
                par
            }
        },
    }
}

/// `parent` joined with `name`.
pub fn join_exec(parent: &Vec<char>, name: &Vec<char>) -> (r: Vec<char>)
    ensures
        r@ == join_path(parent@, name@),
{
    if name.len() > 0 && name[0] == '/' {
        return name.clone();
    }
    let mut r = parent.clone();
    if !(parent.len() == 0 || parent[parent.len() - 1] == '/') {
        r.push('/');
    }
    extend_chars(&mut r, name);
    r
}

/// Stem and extension of a file name.
pub fn split_stem_ext(n: &Vec<char>) -> (r: (Vec<char>, Vec<char>))
    ensures
        r.0@ == name_stem(n@),
        r.1@ == name_ext(n@),
{
    proof {
        lemma_last_index_of(n@, '.');
    }
    if is_special_exec(n) {
        return (Vec::new(), Vec::new());
    }
    match last_index_exec(n, '.') {
        None => (n.clone(), Vec::new()),
        Some(d) => {
            if d == 0 {
                (n.clone(), Vec::new())
            } else {
                (take_exec(n, d), skip_exec(n, d + 1))
            }
        },
    }
}

/// `stem` followed by `.ext` when the extension is not empty.
pub fn with_ext_exec(stem: &Vec<char>, ext: &Vec<char>) -> (r: Vec<char>)
    ensures
        r@ == with_ext(stem@, ext@),
{
    let mut r = stem.clone();
    if ext.len() > 0 {
        r.push('.');
        extend_chars(&mut r, ext);
    }
    r
}

/// Append the decimal digits of `n`.
pub fn push_decimal(out: &mut Vec<char>, n: u32)
    ensures
        final(out)@ == old(out)@ + decimal(n as nat),
{
    let d = decimal_chars(n);
    extend_chars(out, &d);
}

/// `parent` joined with `name`, as `PathBuf::join` spells it.
pub fn join_paths(parent: &str, name: &str) -> (r: String)
    ensures
        r@ == join_path(parent@, name@),
{
    let p = crate::text::chars_of(parent);
    let n = crate::text::chars_of(name);
    crate::text::string_from_chars(&join_exec(&p, &n))
}

/// The parent of a path, as `Path::parent` gives it (empty when absent).
pub fn parent_path(p: &str) -> (r: String)
    ensures
        r@ == path_parent(p@),
{
    let v = crate::text::chars_of(p);
    crate::text::string_from_chars(&parent_of(&v))
}

} // verus!
