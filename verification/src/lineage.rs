//! Parents, ancestors and relative paths.

use crate::paths;
use crate::paths::{components_of, file_name, join, Component, ComponentView, DOT, SLASH};
use crate::text;
use crate::text::{copy_of, copy_range, find_last};
use vstd::prelude::*;

verus! {

/// `path` without what follows its last component: separators, and `.` behind a
/// separator. The root keeps its separator.
pub open spec fn tidied(path: Seq<u8>) -> Seq<u8>
    decreases path.len(),
{
    if path.len() > 1 && (path.last() == SLASH || (path.last() == DOT && path[path.len() - 2]
        == SLASH)) {
        tidied(path.drop_last())
    } else {
        path
    }
}

/// The path without its last component; the root and the empty path have none.
pub open spec fn parent_of(path: Seq<u8>) -> Option<Seq<u8>> {
    let q = tidied(path);
    if q.len() == 0 || q == seq![SLASH] {
        None
    } else {
        Some(tidied(q.take(text::last_of(q, SLASH) + 1)))
    }
}

proof fn lemma_tidied(path: Seq<u8>)
    ensures
        tidied(path).len() <= path.len(),
        tidied(path) == path.take(tidied(path).len() as int),
    decreases path.len(),
{
    if path.len() > 1 && (path.last() == SLASH || (path.last() == DOT && path[path.len() - 2]
        == SLASH)) {
        lemma_tidied(path.drop_last());
        assert(tidied(path) =~= path.take(tidied(path).len() as int));
    } else {
        assert(path.take(path.len() as int) =~= path);
    }
}

/// A parent is a shorter path.
pub proof fn lemma_parent_shorter(path: Seq<u8>)
    ensures
        parent_of(path) matches Some(q) ==> q.len() < path.len(),
{
    let q = tidied(path);
    lemma_tidied(path);
    if q.len() > 0 && q != seq![SLASH] {
        text::lemma_last_of(q, SLASH);
        let i = text::last_of(q, SLASH);
        lemma_tidied(q.take(i + 1));
        if i + 1 == q.len() {
            // then the separator is the last byte, and tidying would have taken it
            assert(q.last() == SLASH);
            lemma_tidied_end(path);
            assert(q.len() == 1);
            assert(q =~= seq![SLASH]);
        }
    }
}

proof fn lemma_tidied_end(path: Seq<u8>)
    ensures
        tidied(path).len() > 1 ==> tidied(path).last() != SLASH,
    decreases path.len(),
{
    if path.len() > 1 && (path.last() == SLASH || (path.last() == DOT && path[path.len() - 2]
        == SLASH)) {
        lemma_tidied_end(path.drop_last());
    }
}

/// The length of the tidied path.
fn tidy_len(path: &[u8], upto: usize) -> (r: usize)
    requires
        upto <= path.len(),
    ensures
        r <= upto,
        path@.take(r as int) == tidied(path@.take(upto as int)),
{
    let mut n = upto;
    while n > 1 && (path[n - 1] == SLASH || (path[n - 1] == DOT && path[n - 2] == SLASH))
        invariant
            n <= upto <= path.len(),
            tidied(path@.take(n as int)) == tidied(path@.take(upto as int)),
        decreases n,
    {
        assert(path@.take(n as int).drop_last() =~= path@.take(n - 1));
        n = n - 1;
    }
    n
}

/// The path without its last component.
pub fn parent(path: &[u8]) -> (r: Option<Vec<u8>>)
    ensures
        match r {
            Some(q) => parent_of(path@) == Some(q@),
            None => parent_of(path@) is None,
        },
{
    assert(path@.take(path@.len() as int) =~= path@);
    let n = tidy_len(path, path.len());
    let q = copy_range(path, 0, n);
    assert(q@ =~= tidied(path@));
    if n == 0 || (n == 1 && q[0] == SLASH) {
        assert(n == 1 ==> q@ =~= seq![SLASH]);
        return None;
    }
    assert(n == 1 ==> q@[0] != seq![SLASH][0]);
    let cut: usize = match find_last(q.as_slice(), SLASH) {
        Some(i) => i + 1,
        None => 0,
    };
    let m = tidy_len(q.as_slice(), cut);
    let r = copy_range(q.as_slice(), 0, m);
    assert(r@ =~= q@.take(m as int));
    Some(r)
}

/// The path and its ancestors, deepest first.
pub open spec fn lineage(path: Seq<u8>) -> Seq<Seq<u8>>
    decreases path.len(),
{
    proof {
        lemma_parent_shorter(path);
    }
    match parent_of(path) {
        Some(q) => seq![path] + lineage(q),
        None => seq![path],
    }
}

/// The path and its ancestors, deepest first.
pub fn ancestors(path: &[u8]) -> (r: Vec<Vec<u8>>)
    ensures
        text::views(r@) == lineage(path@),
{
    let mut r: Vec<Vec<u8>> = Vec::new();
    let mut cur = copy_of(path);
    let mut going = true;
    assert(text::views(r@) =~= Seq::<Seq<u8>>::empty());
    assert(Seq::<Seq<u8>>::empty() + lineage(path@) =~= lineage(path@));
    while going
        invariant
            going ==> text::views(r@) + lineage(cur@) == lineage(path@),
            !going ==> text::views(r@) == lineage(path@),
        decreases
            (if going {
                1int
            } else {
                0
            }),
            cur@.len(),
    {
        let ghost before = text::views(r@);
        proof {
            lemma_parent_shorter(cur@);
        }
        let up = parent(cur.as_slice());
        let ghost here = cur@;
        r.push(copy_of(cur.as_slice()));
        assert(text::views(r@) =~= before.push(here));
        match up {
            Some(q) => {
                cur = q;
                assert(before + lineage(here) =~= before.push(here) + lineage(cur@));
            },
            None => {
                going = false;
                assert(before + lineage(here) =~= before.push(here));
            },
        }
    }
    r
}

/// How a component is written.
pub open spec fn written(c: ComponentView) -> Seq<u8> {
    match c {
        ComponentView::RootDir => seq![SLASH],
        ComponentView::CurDir => seq![DOT],
        ComponentView::ParentDir => seq![DOT, DOT],
        ComponentView::Normal(n) => n,
    }
}

/// How a component is written.
pub fn write_component(c: &Component) -> (r: Vec<u8>)
    ensures
        r@ == written(c@),
{
    let mut r: Vec<u8> = Vec::new();
    match c {
        Component::RootDir => {
            r.push(SLASH);
            assert(r@ =~= written(c@));
        },
        Component::CurDir => {
            r.push(DOT);
            assert(r@ =~= written(c@));
        },
        Component::ParentDir => {
            r.push(DOT);
            r.push(DOT);
            assert(r@ =~= written(c@));
        },
        Component::Normal(n) => {
            r = copy_of(n.as_slice());
        },
    }
    r
}

/// The path that is reached from `root` by going through the components.
pub open spec fn descended(root: Seq<u8>, comps: Seq<ComponentView>) -> Seq<u8>
    decreases comps.len(),
{
    if comps.len() == 0 {
        root
    } else {
        paths::joined(descended(root, comps.drop_last()), written(comps.last()))
    }
}

/// What is left of `path` below `base`, where it is below.
pub open spec fn relative_to(path: Seq<u8>, base: Seq<u8>) -> Option<Seq<u8>> {
    if paths::is_under(path, base) {
        Some(
            descended(
                Seq::empty(),
                paths::components(path).skip(paths::components(base).len() as int),
            ),
        )
    } else {
        None
    }
}

/// Goes from `root` through the components from `from` on.
fn descend(root: Vec<u8>, comps: &Vec<Component>, from: usize) -> (r: Vec<u8>)
    requires
        from <= comps@.len(),
    ensures
        r@ == descended(root@, paths::component_views(comps@).skip(from as int)),
{
    let ghost all = paths::component_views(comps@).skip(from as int);
    let ghost start = root@;
    let mut r = root;
    let mut i = from;
    assert(all.take(0) =~= Seq::<ComponentView>::empty());
    while i < comps.len()
        invariant
            from <= i <= comps.len(),
            all == paths::component_views(comps@).skip(from as int),
            r@ == descended(start, all.take(i - from)),
        decreases comps.len() - i,
    {
        assert(all.take(i - from + 1).drop_last() =~= all.take(i - from));
        assert(all.take(i - from + 1).last() == comps@[i as int]@);
        let name = write_component(&comps[i]);
        r = join(r.as_slice(), name.as_slice());
        i = i + 1;
    }
    assert(all.take(i - from) =~= all);
    r
}

/// Strips `base` off `path`.
pub fn strip_prefix(path: &[u8], base: &[u8]) -> (r: Option<Vec<u8>>)
    ensures
        match r {
            Some(q) => relative_to(path@, base@) == Some(q@),
            None => relative_to(path@, base@) is None,
        },
{
    if !paths::under(path, base) {
        return None;
    }
    let comps = components_of(path);
    assert(paths::component_views(comps@).len() == comps@.len());
    let n = paths::depth_of(base);
    let ghost all = paths::components(path@);
    assert(n <= all.len());
    let r = descend(Vec::new(), &comps, n);
    Some(r)
}

/// The directories on the way from `root` down to the file `rel` below it, not
/// counting `root` itself, shallowest first.
pub open spec fn way_down(root: Seq<u8>, rel: Seq<u8>) -> Seq<Seq<u8>> {
    match parent_of(rel) {
        Some(dir) => Seq::new(
            paths::components(dir).len(),
            |k: int| descended(root, paths::components(dir).take(k + 1)),
        ),
        None => Seq::empty(),
    }
}

/// The directories on the way from `root` down to the file `rel` below it.
pub fn directories(root: &[u8], rel: &[u8]) -> (r: Vec<Vec<u8>>)
    ensures
        text::views(r@) == way_down(root@, rel@),
{
    let mut r: Vec<Vec<u8>> = Vec::new();
    let dir = match parent(rel) {
        Some(d) => d,
        None => {
            assert(text::views(r@) =~= way_down(root@, rel@));
            return r;
        },
    };
    let comps = components_of(dir.as_slice());
    let ghost all = paths::components(dir@);
    assert(all.len() == comps@.len());
    let mut cur = copy_of(root);
    let mut i: usize = 0;
    assert(all.take(0) =~= Seq::<ComponentView>::empty());
    while i < comps.len()
        invariant
            i <= comps.len(),
            all == paths::components(dir@),
            all == paths::component_views(comps@),
            all.len() == comps@.len(),
            parent_of(rel@) == Some(dir@),
            cur@ == descended(root@, all.take(i as int)),
            text::views(r@) == way_down(root@, rel@).take(i as int),
        decreases comps.len() - i,
    {
        assert(all.take(i + 1).drop_last() =~= all.take(i as int));
        assert(all.take(i + 1).last() == comps@[i as int]@);
        let ghost before = text::views(r@);
        let name = write_component(&comps[i]);
        cur = join(cur.as_slice(), name.as_slice());
        r.push(copy_of(cur.as_slice()));
        assert(text::views(r@) =~= before.push(cur@));
        i = i + 1;
        assert(text::views(r@) =~= way_down(root@, rel@).take(i as int));
    }
    assert(way_down(root@, rel@).take(i as int) =~= way_down(root@, rel@));
    r
}

/// `path` with its file name replaced, or with `name` appended where it has none.
pub open spec fn renamed(path: Seq<u8>, name: Seq<u8>) -> Seq<u8> {
    paths::joined(
        match (paths::base_name(path), parent_of(path)) {
            (Some(_), Some(dir)) => dir,
            _ => path,
        },
        name,
    )
}

/// Replaces the file name of a path.
pub fn with_file_name(path: &[u8], name: &[u8]) -> (r: Vec<u8>)
    ensures
        r@ == renamed(path@, name@),
{
    if file_name(path).is_some() {
        if let Some(dir) = parent(path) {
            return join(dir.as_slice(), name);
        }
    }
    join(path, name)
}

} // verus!
