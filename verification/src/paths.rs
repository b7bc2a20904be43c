//! Paths as byte strings, compared component by component.
//!
//! A path is a byte string whose components are separated by `/`. Repeated
//! separators, a trailing separator and `.` components are of no account,
//! except for a `.` at the very beginning. `..` is a component of its own and
//! is never resolved.

use crate::text;
use crate::text::{copy_of, extend, same_string, split};
use vstd::prelude::*;

pub mod laws;

verus! {

pub const SLASH: u8 = 47;

pub const DOT: u8 = 46;

/// One component of a path.
#[derive(Debug)]
pub enum Component {
    RootDir,
    CurDir,
    ParentDir,
    Normal(Vec<u8>),
}

/// A component with its name as a sequence of bytes.
pub enum ComponentView {
    RootDir,
    CurDir,
    ParentDir,
    Normal(Seq<u8>),
}

impl View for Component {
    type V = ComponentView;

    open spec fn view(&self) -> ComponentView {
        match self {
            Component::RootDir => ComponentView::RootDir,
            Component::CurDir => ComponentView::CurDir,
            Component::ParentDir => ComponentView::ParentDir,
            Component::Normal(n) => ComponentView::Normal(n@),
        }
    }
}

/// The components named by the pieces between separators.
pub open spec fn named(parts: Seq<Seq<u8>>) -> Seq<ComponentView>
    decreases parts.len(),
{
    if parts.len() == 0 {
        Seq::empty()
    } else {
        let front = named(parts.drop_last());
        let p = parts.last();
        if p.len() == 0 || p == seq![DOT] {
            front
        } else if p == seq![DOT, DOT] {
            front.push(ComponentView::ParentDir)
        } else {
            front.push(ComponentView::Normal(p))
        }
    }
}

/// What a path starts with: the root, the current directory, or nothing special.
pub open spec fn anchor(path: Seq<u8>) -> Seq<ComponentView> {
    if path.len() > 0 && path[0] == SLASH {
        seq![ComponentView::RootDir]
    } else if text::pieces(path, SLASH)[0] == seq![DOT] {
        seq![ComponentView::CurDir]
    } else {
        Seq::empty()
    }
}

/// The components of a path.
pub open spec fn components(path: Seq<u8>) -> Seq<ComponentView> {
    anchor(path) + named(text::pieces(path, SLASH))
}

/// `path` is at or below `base`, counting whole components.
pub open spec fn is_under(path: Seq<u8>, base: Seq<u8>) -> bool {
    text::has_prefix(components(path), components(base))
}

/// The views of a vector of components.
pub open spec fn component_views(v: Seq<Component>) -> Seq<ComponentView> {
    v.map_values(|c: Component| c@)
}

/// Takes a path apart.
pub fn components_of(path: &[u8]) -> (r: Vec<Component>)
    ensures
        component_views(r@) == components(path@),
{
    let parts = split(path, SLASH);
    proof {
        text::lemma_pieces_nonempty(path@, SLASH);
        assert(text::views(parts@).len() == parts@.len());
        assert(text::views(parts@)[0] == parts@[0]@);
    }
    let mut r: Vec<Component> = Vec::new();
    if path.len() > 0 && path[0] == SLASH {
        r.push(Component::RootDir);
    } else if is_dot(parts[0].as_slice()) {
        r.push(Component::CurDir);
    }
    assert(component_views(r@) =~= anchor(path@));
    let mut i: usize = 0;
    assert(text::views(parts@).take(0) =~= Seq::<Seq<u8>>::empty());
    while i < parts.len()
        invariant
            i <= parts.len(),
            text::views(parts@).len() == parts@.len(),
            text::views(parts@) == text::pieces(path@, SLASH),
            component_views(r@) == anchor(path@) + named(text::views(parts@).take(i as int)),
        decreases parts.len() - i,
    {
        let ghost before = component_views(r@);
        let ghost seen = text::views(parts@).take(i as int);
        assert(text::views(parts@).take(i + 1).drop_last() =~= seen);
        assert(text::views(parts@).take(i + 1).last() == parts@[i as int]@);
        let part = parts[i].as_slice();
        if part.len() == 0 || is_dot(part) {
        } else if is_dot_dot(part) {
            r.push(Component::ParentDir);
            assert(component_views(r@) =~= before.push(ComponentView::ParentDir));
        } else {
            r.push(Component::Normal(copy_of(part)));
            assert(component_views(r@) =~= before.push(ComponentView::Normal(part@)));
        }
        i = i + 1;
        assert(component_views(r@) =~= anchor(path@) + named(text::views(parts@).take(i as int)));
    }
    assert(text::views(parts@).take(i as int) =~= text::views(parts@));
    r
}

fn is_dot(part: &[u8]) -> (r: bool)
    ensures
        r == (part@ == seq![DOT]),
{
    let r = part.len() == 1 && part[0] == DOT;
    assert(r ==> part@ =~= seq![DOT]);
    r
}

fn is_dot_dot(part: &[u8]) -> (r: bool)
    ensures
        r == (part@ == seq![DOT, DOT]),
{
    let r = part.len() == 2 && part[0] == DOT && part[1] == DOT;
    assert(r ==> part@ =~= seq![DOT, DOT]);
    r
}

fn same_component(a: &Component, b: &Component) -> (r: bool)
    ensures
        r == (a@ == b@),
{
    match (a, b) {
        (Component::RootDir, Component::RootDir) => true,
        (Component::CurDir, Component::CurDir) => true,
        (Component::ParentDir, Component::ParentDir) => true,
        (Component::Normal(x), Component::Normal(y)) => same_string(x.as_slice(), y.as_slice()),
        _ => false,
    }
}

/// Whether `path` is at or below `base`, counting whole components.
pub fn under(path: &[u8], base: &[u8]) -> (r: bool)
    ensures
        r == is_under(path@, base@),
{
    let p = components_of(path);
    let b = components_of(base);
    let ghost pv = components(path@);
    let ghost bv = components(base@);
    assert(pv.len() == p@.len() && bv.len() == b@.len());
    if b.len() > p.len() {
        return false;
    }
    let mut i: usize = 0;
    while i < b.len()
        invariant
            i <= b.len() <= p.len(),
            pv == component_views(p@),
            bv == component_views(b@),
            pv == components(path@),
            bv == components(base@),
            pv.len() == p@.len(),
            bv.len() == b@.len(),
            forall|k: int| 0 <= k < i ==> #[trigger] pv[k] == bv[k],
        decreases b.len() - i,
    {
        assert(pv[i as int] == p@[i as int]@);
        assert(bv[i as int] == b@[i as int]@);
        if !same_component(&p[i], &b[i]) {
            assert(pv.take(bv.len() as int)[i as int] != bv[i as int]);
            return false;
        }
        i = i + 1;
    }
    assert(pv.take(bv.len() as int) =~= bv);
    true
}

/// Whether two paths have the same components.
pub fn same_path(a: &[u8], b: &[u8]) -> (r: bool)
    ensures
        r == (components(a@) == components(b@)),
{
    let p = components_of(a);
    let q = components_of(b);
    let ghost pv = components(a@);
    let ghost qv = components(b@);
    assert(pv.len() == p@.len() && qv.len() == q@.len());
    if p.len() != q.len() {
        return false;
    }
    let mut i: usize = 0;
    while i < p.len()
        invariant
            i <= p.len() == q.len(),
            pv == component_views(p@),
            qv == component_views(q@),
            pv == components(a@),
            qv == components(b@),
            pv.len() == p@.len(),
            qv.len() == q@.len(),
            forall|k: int| 0 <= k < i ==> #[trigger] pv[k] == qv[k],
        decreases p.len() - i,
    {
        assert(pv[i as int] == p@[i as int]@);
        assert(qv[i as int] == q@[i as int]@);
        if !same_component(&p[i], &q[i]) {
            return false;
        }
        i = i + 1;
    }
    assert(pv =~= qv);
    true
}

/// The number of components of a path.
pub fn depth_of(path: &[u8]) -> (r: usize)
    ensures
        r == components(path@).len(),
{
    let v = components_of(path);
    assert(component_views(v@).len() == v@.len());
    v.len()
}

/// The name that a path ends in, unless it ends in the root, `.` or `..`.
pub open spec fn base_name(path: Seq<u8>) -> Option<Seq<u8>> {
    let c = components(path);
    if c.len() > 0 {
        match c.last() {
            ComponentView::Normal(n) => Some(n),
            _ => None,
        }
    } else {
        None
    }
}

/// The name that a path ends in, unless it ends in the root, `.` or `..`.
pub fn file_name(path: &[u8]) -> (r: Option<Vec<u8>>)
    ensures
        match r {
            Some(n) => base_name(path@) == Some(n@),
            None => base_name(path@) is None,
        },
{
    let v = components_of(path);
    assert(component_views(v@).len() == v@.len());
    if v.len() == 0 {
        return None;
    }
    assert(component_views(v@).last() == v@.last()@);
    match &v[v.len() - 1] {
        Component::Normal(n) => Some(copy_of(n.as_slice())),
        _ => None,
    }
}

/// `root` with `rel` appended: an absolute `rel` stands for itself, and a
/// separator is put between the two where `root` does not end in one.
pub open spec fn joined(root: Seq<u8>, rel: Seq<u8>) -> Seq<u8> {
    if rel.len() > 0 && rel[0] == SLASH {
        rel
    } else if root.len() == 0 || root.last() == SLASH {
        root + rel
    } else {
        root.push(SLASH) + rel
    }
}

/// Appends `rel` to `root`.
pub fn join(root: &[u8], rel: &[u8]) -> (r: Vec<u8>)
    ensures
        r@ == joined(root@, rel@),
{
    if rel.len() > 0 && rel[0] == SLASH {
        return copy_of(rel);
    }
    let mut r = copy_of(root);
    if root.len() > 0 && root[root.len() - 1] != SLASH {
        r.push(SLASH);
    }
    extend(&mut r, rel);
    r
}

// ---- the order of paths ----------------------------------------------------------

/// The byte strings in dictionary order.
pub open spec fn bytes_le(a: Seq<u8>, b: Seq<u8>) -> bool
    decreases a.len(),
{
    if a.len() == 0 {
        true
    } else if b.len() == 0 {
        false
    } else if a[0] != b[0] {
        a[0] < b[0]
    } else {
        bytes_le(a.skip(1), b.skip(1))
    }
}

/// The rank of the kinds of component.
pub open spec fn rank(c: ComponentView) -> int {
    match c {
        ComponentView::RootDir => 0,
        ComponentView::CurDir => 1,
        ComponentView::ParentDir => 2,
        ComponentView::Normal(_) => 3,
    }
}

/// The order of components: by kind, then by name.
pub open spec fn component_le(a: ComponentView, b: ComponentView) -> bool {
    match (a, b) {
        (ComponentView::Normal(x), ComponentView::Normal(y)) => bytes_le(x, y),
        _ => rank(a) <= rank(b),
    }
}

/// Component sequences in dictionary order.
pub open spec fn components_le(a: Seq<ComponentView>, b: Seq<ComponentView>) -> bool
    decreases a.len(),
{
    if a.len() == 0 {
        true
    } else if b.len() == 0 {
        false
    } else if a[0] != b[0] {
        component_le(a[0], b[0])
    } else {
        components_le(a.skip(1), b.skip(1))
    }
}

/// The order of paths: the dictionary order of their components.
pub open spec fn path_le(a: Seq<u8>, b: Seq<u8>) -> bool {
    components_le(components(a), components(b))
}

pub proof fn lemma_bytes_le_total(a: Seq<u8>, b: Seq<u8>)
    ensures
        bytes_le(a, a),
        bytes_le(a, b) || bytes_le(b, a),
        bytes_le(a, b) && bytes_le(b, a) ==> a == b,
    decreases a.len(),
{
    if a.len() > 0 {
        lemma_bytes_le_total(a.skip(1), if b.len() > 0 { b.skip(1) } else { b });
        if b.len() > 0 && a[0] == b[0] && a.skip(1) == b.skip(1) {
            assert(a =~= seq![a[0]] + a.skip(1));
            assert(b =~= seq![b[0]] + b.skip(1));
        }
    } else if b.len() == 0 {
        assert(a =~= b);
    }
}

pub proof fn lemma_bytes_le_transitive(a: Seq<u8>, b: Seq<u8>, c: Seq<u8>)
    requires
        bytes_le(a, b),
        bytes_le(b, c),
    ensures
        bytes_le(a, c),
    decreases a.len(),
{
    if a.len() > 0 && a[0] == b[0] && b[0] == c[0] {
        lemma_bytes_le_transitive(a.skip(1), b.skip(1), c.skip(1));
    }
}

proof fn lemma_component_le_total(a: ComponentView, b: ComponentView)
    ensures
        component_le(a, a),
        component_le(a, b) || component_le(b, a),
        component_le(a, b) && component_le(b, a) ==> a == b,
{
    if let (ComponentView::Normal(x), ComponentView::Normal(y)) = (a, b) {
        lemma_bytes_le_total(x, y);
    }
    if let ComponentView::Normal(x) = a {
        lemma_bytes_le_total(x, x);
    }
}

proof fn lemma_component_le_transitive(a: ComponentView, b: ComponentView, c: ComponentView)
    requires
        component_le(a, b),
        component_le(b, c),
    ensures
        component_le(a, c),
{
    if let (
        ComponentView::Normal(x),
        ComponentView::Normal(y),
        ComponentView::Normal(z),
    ) = (a, b, c) {
        lemma_bytes_le_transitive(x, y, z);
    }
}

proof fn lemma_components_le_total(a: Seq<ComponentView>, b: Seq<ComponentView>)
    ensures
        components_le(a, a),
        components_le(a, b) || components_le(b, a),
        components_le(a, b) && components_le(b, a) ==> a == b,
    decreases a.len(),
{
    if a.len() > 0 {
        lemma_components_le_total(a.skip(1), if b.len() > 0 { b.skip(1) } else { b });
        if b.len() > 0 {
            lemma_component_le_total(a[0], b[0]);
            if a[0] == b[0] && a.skip(1) == b.skip(1) {
                assert(a =~= seq![a[0]] + a.skip(1));
                assert(b =~= seq![b[0]] + b.skip(1));
            }
        }
    } else if b.len() == 0 {
        assert(a =~= b);
    }
}

proof fn lemma_components_le_transitive(
    a: Seq<ComponentView>,
    b: Seq<ComponentView>,
    c: Seq<ComponentView>,
)
    requires
        components_le(a, b),
        components_le(b, c),
    ensures
        components_le(a, c),
    decreases a.len(),
{
    if a.len() > 0 {
        if a[0] == b[0] && b[0] == c[0] {
            lemma_components_le_transitive(a.skip(1), b.skip(1), c.skip(1));
        } else if a[0] != b[0] && b[0] != c[0] {
            lemma_component_le_transitive(a[0], b[0], c[0]);
            if a[0] == c[0] {
                lemma_component_le_total(a[0], b[0]);
            }
        }
    }
}

/// The order of paths is total, up to paths with the same components.
pub proof fn lemma_path_le_total(a: Seq<u8>, b: Seq<u8>)
    ensures
        path_le(a, a),
        path_le(a, b) || path_le(b, a),
        path_le(a, b) && path_le(b, a) ==> components(a) == components(b),
{
    lemma_components_le_total(components(a), components(b));
}

/// The order of paths is transitive.
pub proof fn lemma_path_le_transitive(a: Seq<u8>, b: Seq<u8>, c: Seq<u8>)
    requires
        path_le(a, b),
        path_le(b, c),
    ensures
        path_le(a, c),
{
    lemma_components_le_transitive(components(a), components(b), components(c));
}

/// Whether the first byte string comes no later in dictionary order.
pub fn bytes_ordered(a: &[u8], b: &[u8]) -> (r: bool)
    ensures
        r == bytes_le(a@, b@),
{
    let mut i: usize = 0;
    assert(a@.skip(0) =~= a@);
    assert(b@.skip(0) =~= b@);
    while i < a.len() && i < b.len()
        invariant
            i <= a.len(),
            i <= b.len(),
            bytes_le(a@, b@) == bytes_le(a@.skip(i as int), b@.skip(i as int)),
        decreases a.len() - i,
    {
        assert(a@.skip(i as int)[0] == a@[i as int]);
        assert(b@.skip(i as int)[0] == b@[i as int]);
        if a[i] != b[i] {
            return a[i] < b[i];
        }
        assert(a@.skip(i as int).skip(1) =~= a@.skip(i + 1));
        assert(b@.skip(i as int).skip(1) =~= b@.skip(i + 1));
        i = i + 1;
    }
    i == a.len()
}

fn rank_of(c: &Component) -> (r: u8)
    ensures
        r == rank(c@),
{
    match c {
        Component::RootDir => 0,
        Component::CurDir => 1,
        Component::ParentDir => 2,
        Component::Normal(_) => 3,
    }
}

fn component_ordered(a: &Component, b: &Component) -> (r: bool)
    ensures
        r == component_le(a@, b@),
{
    match (a, b) {
        (Component::Normal(x), Component::Normal(y)) => bytes_ordered(x.as_slice(), y.as_slice()),
        _ => rank_of(a) <= rank_of(b),
    }
}

/// Whether the first path comes no later in the order of paths.
pub fn path_ordered(a: &[u8], b: &[u8]) -> (r: bool)
    ensures
        r == path_le(a@, b@),
{
    let p = components_of(a);
    let q = components_of(b);
    let ghost pv = components(a@);
    let ghost qv = components(b@);
    assert(pv.len() == p@.len() && qv.len() == q@.len());
    let mut i: usize = 0;
    assert(pv.skip(0) =~= pv);
    assert(qv.skip(0) =~= qv);
    while i < p.len() && i < q.len()
        invariant
            i <= p.len(),
            i <= q.len(),
            pv == component_views(p@),
            qv == component_views(q@),
            pv == components(a@),
            qv == components(b@),
            pv.len() == p@.len(),
            qv.len() == q@.len(),
            components_le(pv, qv) == components_le(pv.skip(i as int), qv.skip(i as int)),
        decreases p.len() - i,
    {
        assert(pv.skip(i as int)[0] == p@[i as int]@);
        assert(qv.skip(i as int)[0] == q@[i as int]@);
        if !same_component(&p[i], &q[i]) {
            return component_ordered(&p[i], &q[i]);
        }
        assert(pv.skip(i as int).skip(1) =~= pv.skip(i + 1));
        assert(qv.skip(i as int).skip(1) =~= qv.skip(i + 1));
        i = i + 1;
    }
    i == p.len()
}

} // verus!
