//! What a filesystem walk for planning visits: hidden entries (names
//! starting with `.`) are skipped, so are paths under an excluded path, and
//! only directories are entered (the root always, the rest when the walk
//! is recursive). Symbolic links are never followed.
use vstd::prelude::*;
use crate::listing::{components, starts_with_slash};
use crate::plan_types::ItemKind;
use crate::text::chars_of;

verus! {

/// A name starting with `.` is hidden.
pub open spec fn is_hidden(name: Seq<char>) -> bool {
    name.len() > 0 && name[0] == '.'
}

/// `path` lies under `base` (`Path::starts_with`): both absolute or both
/// relative, and the components of `base` begin those of `path`.
pub open spec fn path_starts_with(path: Seq<char>, base: Seq<char>) -> bool {
    let pc = components(path);
    let bc = components(base);
    starts_with_slash(path) == starts_with_slash(base) && bc.len() <= pc.len() && pc.take(
        bc.len() as int,
    ) == bc
}

pub open spec fn excluded_by(path: Seq<char>, exclude: Seq<String>) -> bool {
    exists|i: int| 0 <= i < exclude.len() && path_starts_with(path, #[trigger] exclude[i]@)
}

/// Whether a directory entry called `name` is skipped by the walk.
pub fn is_hidden_entry(name: &str) -> (b: bool)
    ensures
        b == is_hidden(name@),
{
    let v = chars_of(name);
    v.len() > 0 && v[0] == '.'
}

fn components_of(s: &str) -> (r: Vec<Vec<char>>)
    ensures
        r@.map_values(|x: Vec<char>| x@) == components(s@),
{
    let parts = crate::listing::path_components(s);
    let mut r: Vec<Vec<char>> = Vec::new();
    let mut i: usize = 0;
    while i < parts.len()
        invariant
            i <= parts.len(),
            r@.map_values(|x: Vec<char>| x@) == parts@.map_values(|x: String| x@).take(i as int),
        decreases parts.len() - i,
    {
        let ghost pre = r@.map_values(|x: Vec<char>| x@);
        let c = chars_of(parts[i].as_str());
        r.push(c);
        assert(r@.map_values(|x: Vec<char>| x@) =~= pre.push(c@));
        i += 1;
        assert(r@.map_values(|x: Vec<char>| x@) =~= parts@.map_values(|x: String| x@).take(i as int));
    }
    assert(parts@.map_values(|x: String| x@).take(i as int) =~= parts@.map_values(|x: String| x@));
    r
}

/// Whether `path` lies under `base`.
pub fn starts_with_path(path: &str, base: &str) -> (b: bool)
    ensures
        b == path_starts_with(path@, base@),
{
    let pv = chars_of(path);
    let bv = chars_of(base);
    let ps = pv.len() > 0 && pv[0] == '/';
    let bs = bv.len() > 0 && bv[0] == '/';
    if ps != bs {
        return false;
    }
    let pc = components_of(path);
    let bc = components_of(base);
    let ghost pcs = pc@.map_values(|x: Vec<char>| x@);
    let ghost bcs = bc@.map_values(|x: Vec<char>| x@);
    if bc.len() > pc.len() {
        return false;
    }
    let mut i: usize = 0;
    while i < bc.len()
        invariant
            i <= bc.len() <= pc.len(),
            pcs == pc@.map_values(|x: Vec<char>| x@),
            bcs == bc@.map_values(|x: Vec<char>| x@),
            pcs == components(path@),
            bcs == components(base@),
            starts_with_slash(path@) == starts_with_slash(base@),
            forall|q: int| 0 <= q < i ==> pcs[q] == bcs[q],
        decreases bc.len() - i,
    {
        assert(pcs[i as int] == pc@[i as int]@ && bcs[i as int] == bc@[i as int]@);
        if !crate::execute::chars_eq(&pc[i], &bc[i]) {
            assert(pcs.take(bcs.len() as int)[i as int] != bcs[i as int]);
            return false;
        }
        i += 1;
    }
    assert(pcs.take(bcs.len() as int) =~= bcs);
    true
}

/// Whether `path` lies under one of the excluded paths.
pub fn is_excluded(path: &str, exclude: &Vec<String>) -> (b: bool)
    ensures
        b == excluded_by(path@, exclude@),
{
    let mut i: usize = 0;
    while i < exclude.len()
        invariant
            i <= exclude.len(),
            forall|q: int| 0 <= q < i ==> !path_starts_with(path@, #[trigger] exclude@[q]@),
        decreases exclude.len() - i,
    {
        if starts_with_path(path, exclude[i].as_str()) {
            return true;
        }
        i += 1;
    }
    false
}

/// Whether the walk enters an item of kind `kind` found at `depth`: only
/// directories, the root always and the others when the walk is recursive.
pub fn should_descend(kind: ItemKind, recursive: bool, depth: usize) -> (b: bool)
    ensures
        b == (kind == ItemKind::Dir && (recursive || depth == 0)),
{
    kind == ItemKind::Dir && (recursive || depth == 0)
}

} // verus!
