//! What holds of paths that are joined, taken apart and compared.

use super::{ComponentView, DOT, SLASH};
use crate::lineage;
use crate::paths;
use crate::text;
use vstd::prelude::*;
#[allow(unused_imports)]
use vstd::seq_lib::*;

verus! {

// ---- components --------------------------------------------------------------------

/// The bytes are the name of a file or directory.
pub open spec fn is_name(name: Seq<u8>) -> bool {
    &&& name.len() > 0
    &&& !name.contains(SLASH)
    &&& name != seq![DOT]
    &&& name != seq![DOT, DOT]
}

/// The component can stand anywhere in a path: a name, or the parent directory.
pub open spec fn is_step(c: ComponentView) -> bool {
    match c {
        ComponentView::Normal(n) => is_name(n),
        ComponentView::ParentDir => true,
        _ => false,
    }
}

/// The path neither begins at the root nor with `.`.
pub open spec fn is_plain(path: Seq<u8>) -> bool {
    paths::anchor(path).len() == 0
}

proof fn lemma_named_on(a: Seq<Seq<u8>>, b: Seq<Seq<u8>>)
    ensures
        paths::named(a + b) == paths::named(a) + paths::named(b),
    decreases b.len(),
{
    if b.len() == 0 {
        assert(a + b =~= a);
        assert(paths::named(a + b) =~= paths::named(a) + paths::named(b));
    } else {
        lemma_named_on(a, b.drop_last());
        assert((a + b).drop_last() =~= a + b.drop_last());
        assert((a + b).last() == b.last());
        assert(paths::named(a + b) =~= paths::named(a) + paths::named(b));
    }
}

proof fn lemma_named_steps(parts: Seq<Seq<u8>>)
    requires
        forall|k: int| 0 <= k < parts.len() ==> !(#[trigger] parts[k]).contains(SLASH),
    ensures
        forall|k: int|
            0 <= k < paths::named(parts).len() ==> is_step(#[trigger] paths::named(parts)[k]),
    decreases parts.len(),
{
    if parts.len() > 0 {
        assert forall|k: int| 0 <= k < parts.drop_last().len() implies !(
        #[trigger] parts.drop_last()[k]).contains(SLASH) by {
            assert(parts[k] == parts.drop_last()[k]);
        }
        lemma_named_steps(parts.drop_last());
        assert(parts[parts.len() - 1] == parts.last());
        let front = paths::named(parts.drop_last());
        let all = paths::named(parts);
        assert forall|k: int| 0 <= k < all.len() implies is_step(#[trigger] all[k]) by {
            if k < front.len() {
                assert(all[k] == front[k]);
            } else if parts.last() != seq![DOT, DOT] {
                assert(is_name(parts.last()));
            }
        }
    }
}

/// What one piece between separators is named.
proof fn lemma_named_one(part: Seq<u8>)
    ensures
        paths::named(seq![part]) == if part.len() == 0 || part == seq![DOT] {
            Seq::empty()
        } else if part == seq![DOT, DOT] {
            seq![ComponentView::ParentDir]
        } else {
            seq![ComponentView::Normal(part)]
        },
{
    assert(seq![part].drop_last() =~= Seq::<Seq<u8>>::empty());
    assert(paths::named(seq![part].drop_last()).len() == 0);
    assert(paths::named(seq![part]) =~= if part.len() == 0 || part == seq![DOT] {
        Seq::empty()
    } else if part == seq![DOT, DOT] {
        seq![ComponentView::ParentDir]
    } else {
        seq![ComponentView::Normal(part)]
    });
}

/// Behind a separator the components of what follows are added; what begins with `.`
/// is left out, since it would not count there.
proof fn lemma_slash(a: Seq<u8>, b: Seq<u8>)
    ensures
        text::pieces(a.push(SLASH) + b, SLASH) == text::pieces(a, SLASH) + text::pieces(b, SLASH),
        paths::named(text::pieces(a.push(SLASH) + b, SLASH)) == paths::named(
            text::pieces(a, SLASH),
        ) + paths::named(text::pieces(b, SLASH)),
        a.len() > 0 ==> paths::anchor(a.push(SLASH) + b) == paths::anchor(a),
        a.len() == 0 ==> paths::anchor(a.push(SLASH) + b) == seq![ComponentView::RootDir],
{
    text::laws::pieces_on_both_sides(a, SLASH, b);
    lemma_named_on(text::pieces(a, SLASH), text::pieces(b, SLASH));
    text::lemma_pieces_nonempty(a, SLASH);
    let s = a.push(SLASH) + b;
    if a.len() > 0 {
        assert(s[0] == a[0]);
        assert(text::pieces(s, SLASH)[0] == text::pieces(a, SLASH)[0]);
    } else {
        assert(s[0] == SLASH);
    }
}

/// A name is one component.
pub proof fn name_is_one_component(name: Seq<u8>)
    requires
        is_name(name),
    ensures
        paths::components(name) == seq![ComponentView::Normal(name)],
        is_plain(name),
{
    text::laws::one_piece(name, SLASH);
    lemma_named_one(name);
    assert(name.contains(name[0]));
    assert(paths::components(name) =~= seq![ComponentView::Normal(name)]);
}

/// The empty path has no components.
pub proof fn empty_path_has_none()
    ensures
        paths::components(Seq::<u8>::empty()).len() == 0,
{
    text::laws::one_piece(Seq::<u8>::empty(), SLASH);
    lemma_named_one(Seq::<u8>::empty());
}

/// The components of a path that is plain are names and parent directories.
pub proof fn plain_paths_are_steps(path: Seq<u8>)
    requires
        is_plain(path),
    ensures
        forall|k: int|
            0 <= k < paths::components(path).len() ==> is_step(
                #[trigger] paths::components(path)[k],
            ),
{
    text::laws::pieces_make_up_the_text(path, SLASH);
    lemma_named_steps(text::pieces(path, SLASH));
    assert(paths::components(path) =~= paths::named(text::pieces(path, SLASH)));
}

/// A path that is joined to a root has the components of the root and then its own.
pub proof fn joining_adds_components(root: Seq<u8>, rel: Seq<u8>)
    requires
        is_plain(rel),
    ensures
        paths::components(paths::joined(root, rel)) == paths::components(root)
            + paths::components(rel),
{
    let j = paths::joined(root, rel);
    assert(rel.len() == 0 || rel[0] != SLASH);
    assert(paths::components(rel) =~= paths::named(text::pieces(rel, SLASH)));
    if root.len() == 0 {
        empty_path_has_none();
        assert(root =~= Seq::<u8>::empty());
        assert(j =~= rel);
        assert(paths::components(j) =~= paths::components(root) + paths::components(rel));
    } else if root.last() == SLASH {
        let front = root.drop_last();
        assert(root =~= front.push(SLASH) + Seq::<u8>::empty());
        assert(j =~= front.push(SLASH) + rel);
        lemma_slash(front, Seq::empty());
        lemma_slash(front, rel);
        text::laws::one_piece(Seq::<u8>::empty(), SLASH);
        lemma_named_one(Seq::<u8>::empty());
        assert(paths::components(j) =~= paths::components(root) + paths::components(rel));
    } else {
        lemma_slash(root, rel);
        assert(paths::components(j) =~= paths::components(root) + paths::components(rel));
    }
}

/// An absolute path stands for itself, whatever it is joined to.
pub proof fn absolute_paths_stand_alone(root: Seq<u8>, rel: Seq<u8>)
    requires
        rel.len() > 0,
        rel[0] == SLASH,
    ensures
        paths::joined(root, rel) == rel,
{
}

/// A path is under another if its components begin with the other's.
pub proof fn under_means_whole_components(path: Seq<u8>, base: Seq<u8>)
    ensures
        paths::is_under(path, base) <==> {
            &&& paths::components(base).len() <= paths::components(path).len()
            &&& forall|k: int|
                0 <= k < paths::components(base).len() ==> paths::components(path)[k]
                    == #[trigger] paths::components(base)[k]
        },
{
    let (c, b) = (paths::components(path), paths::components(base));
    if b.len() <= c.len() {
        if forall|k: int| 0 <= k < b.len() ==> c[k] == #[trigger] b[k] {
            assert(c.take(b.len() as int) =~= b);
        }
        if c.take(b.len() as int) == b {
            assert forall|k: int| 0 <= k < b.len() implies c[k] == #[trigger] b[k] by {
                assert(c.take(b.len() as int)[k] == c[k]);
            }
        }
    }
}

/// What is joined to a root is under it.
pub proof fn joined_paths_are_under_the_root(root: Seq<u8>, rel: Seq<u8>)
    requires
        is_plain(rel),
    ensures
        paths::is_under(paths::joined(root, rel), root),
        paths::is_under(root, root),
{
    joining_adds_components(root, rel);
    under_means_whole_components(paths::joined(root, rel), root);
    under_means_whole_components(root, root);
}

/// The file name is what a path ends in.
pub proof fn file_name_is_the_last(dir: Seq<u8>, name: Seq<u8>)
    requires
        is_name(name),
    ensures
        paths::base_name(paths::joined(dir, name)) == Some(name),
{
    name_is_one_component(name);
    joining_adds_components(dir, name);
}

// ---- relative paths ----------------------------------------------------------------

proof fn lemma_written(c: ComponentView)
    requires
        is_step(c),
    ensures
        is_plain(lineage::written(c)),
        paths::components(lineage::written(c)) == seq![c],
{
    match c {
        ComponentView::Normal(n) => {
            name_is_one_component(n);
        },
        _ => {
            let w = seq![DOT, DOT];
            assert(!w.contains(SLASH));
            text::laws::one_piece(w, SLASH);
            lemma_named_one(w);
            assert(w.len() == 2 && seq![DOT].len() == 1);
            assert(paths::components(w) =~= seq![c]);
        },
    }
}

/// Going through steps from a root adds them to its components.
pub proof fn going_down_adds_components(root: Seq<u8>, steps: Seq<ComponentView>)
    requires
        forall|k: int| 0 <= k < steps.len() ==> is_step(#[trigger] steps[k]),
    ensures
        paths::components(lineage::descended(root, steps)) == paths::components(root) + steps,
    decreases steps.len(),
{
    if steps.len() == 0 {
        assert(paths::components(root) + steps =~= paths::components(root));
    } else {
        let front = steps.drop_last();
        assert forall|k: int| 0 <= k < front.len() implies is_step(#[trigger] front[k]) by {
            assert(front[k] == steps[k]);
        }
        going_down_adds_components(root, front);
        assert(steps[steps.len() - 1] == steps.last());
        lemma_written(steps.last());
        joining_adds_components(lineage::descended(root, front), lineage::written(steps.last()));
        assert(paths::components(root) + steps =~= (paths::components(root) + front) + seq![
            steps.last(),
        ]);
    }
}

proof fn lemma_steps_behind(path: Seq<u8>, n: int)
    requires
        paths::anchor(path).len() <= n <= paths::components(path).len(),
    ensures
        forall|k: int|
            0 <= k < paths::components(path).skip(n).len() ==> is_step(
                #[trigger] paths::components(path).skip(n)[k],
            ),
{
    text::laws::pieces_make_up_the_text(path, SLASH);
    let parts = text::pieces(path, SLASH);
    lemma_named_steps(parts);
    let m = paths::anchor(path).len();
    let c = paths::components(path);
    assert forall|k: int| 0 <= k < c.skip(n).len() implies is_step(#[trigger] c.skip(n)[k]) by {
        assert(c[n + k] == paths::named(parts)[n + k - m]);
    }
}

/// A path below a base has the components of the base and then those of its relative
/// path; and a path has a relative one exactly if it is under the base.
pub proof fn relative_path_is_the_rest(path: Seq<u8>, base: Seq<u8>)
    requires
        paths::components(base).len() > 0 || is_plain(path),
    ensures
        lineage::relative_to(path, base) is Some <==> paths::is_under(path, base),
        lineage::relative_to(path, base) matches Some(rel) ==> paths::components(path)
            == paths::components(base) + paths::components(rel),
{
    if paths::is_under(path, base) {
        let (c, b) = (paths::components(path), paths::components(base));
        let n = b.len() as int;
        under_means_whole_components(path, base);
        assert(paths::anchor(path).len() <= 1);
        lemma_steps_behind(path, n);
        empty_path_has_none();
        going_down_adds_components(Seq::empty(), c.skip(n));
        let rel = lineage::relative_to(path, base)->0;
        assert(paths::components(rel) =~= c.skip(n));
        assert(c =~= b + paths::components(rel));
    }
}

/// What is joined to a root has, relative to it, the same components.
pub proof fn relative_path_undoes_joining(root: Seq<u8>, rel: Seq<u8>)
    requires
        is_plain(rel),
        paths::components(root).len() > 0,
    ensures
        ({
            let back = lineage::relative_to(paths::joined(root, rel), root);
            back is Some && paths::components(back->0) == paths::components(rel)
        }),
{
    joined_paths_are_under_the_root(root, rel);
    relative_path_is_the_rest(paths::joined(root, rel), root);
    joining_adds_components(root, rel);
    let back = lineage::relative_to(paths::joined(root, rel), root)->0;
    let (r, a, b) = (paths::components(root), paths::components(rel), paths::components(back));
    assert(r + a == r + b);
    assert(a =~= (r + a).skip(r.len() as int));
    assert(b =~= (r + b).skip(r.len() as int));
}

// ---- parents -----------------------------------------------------------------------

proof fn lemma_tidied_components(path: Seq<u8>)
    ensures
        paths::components(lineage::tidied(path)) == paths::components(path),
        lineage::tidied(path).len() > 1 ==> lineage::tidied(path).last() != SLASH && !(
        lineage::tidied(path).last() == DOT && lineage::tidied(path)[lineage::tidied(path).len()
            - 2] == SLASH),
        path.len() > 0 ==> lineage::tidied(path).len() > 0,
    decreases path.len(),
{
    if path.len() > 1 && (path.last() == SLASH || (path.last() == DOT && path[path.len() - 2]
        == SLASH)) {
        let front = path.drop_last();
        lemma_tidied_components(front);
        text::laws::one_piece(Seq::<u8>::empty(), SLASH);
        lemma_named_one(Seq::<u8>::empty());
        if path.last() == SLASH {
            assert(path =~= front.push(SLASH) + Seq::<u8>::empty());
            lemma_slash(front, Seq::empty());
            assert(paths::components(path) =~= paths::components(front));
        } else {
            let back = front.drop_last();
            let dot = seq![DOT];
            assert(!dot.contains(SLASH));
            assert(path =~= back.push(SLASH) + dot);
            assert(front =~= back.push(SLASH) + Seq::<u8>::empty());
            lemma_slash(back, dot);
            lemma_slash(back, Seq::empty());
            text::laws::one_piece(dot, SLASH);
            lemma_named_one(dot);
            assert(paths::components(path) =~= paths::components(front));
        }
    }
}

/// The parent of a path has all of its components but the last; the root and the empty
/// path have none.
pub proof fn parent_lacks_the_last(path: Seq<u8>)
    ensures
        match lineage::parent_of(path) {
            Some(dir) => paths::components(path).len() > 0 && paths::components(dir)
                == paths::components(path).drop_last(),
            None => paths::components(path).len() == 0 || paths::components(path) == seq![
                ComponentView::RootDir,
            ],
        },
{
    let q = lineage::tidied(path);
    lemma_tidied_components(path);
    empty_path_has_none();
    if q.len() == 0 {
        assert(q =~= Seq::<u8>::empty());
    } else if q == seq![SLASH] {
        assert(q =~= Seq::<u8>::empty().push(SLASH) + Seq::<u8>::empty());
        lemma_slash(Seq::empty(), Seq::empty());
        text::laws::one_piece(Seq::<u8>::empty(), SLASH);
        lemma_named_one(Seq::<u8>::empty());
        assert(paths::components(q) =~= seq![ComponentView::RootDir]);
    } else {
        let i = text::last_of(q, SLASH);
        text::lemma_last_of(q, SLASH);
        let dir = q.take(i + 1);
        let last = q.skip(i + 1);
        lemma_tidied_components(dir);
        assert(!last.contains(SLASH));
        text::laws::one_piece(last, SLASH);
        lemma_named_one(last);
        text::laws::one_piece(Seq::<u8>::empty(), SLASH);
        lemma_named_one(Seq::<u8>::empty());
        if i < 0 {
            assert(dir =~= Seq::<u8>::empty());
            assert(last =~= q);
            assert(paths::components(q).drop_last() =~= paths::components(dir));
        } else {
            let front = q.take(i);
            assert(q =~= front.push(SLASH) + last);
            assert(dir =~= front.push(SLASH) + Seq::<u8>::empty());
            lemma_slash(front, last);
            lemma_slash(front, Seq::empty());
            if q.len() == 1 {
                assert(q =~= seq![SLASH]);
            }
            assert(last.len() > 0);
            if last == seq![DOT] {
                assert(q.last() == last[0]);
                assert(q[q.len() - 2] == SLASH);
            }
            assert(paths::components(q).drop_last() =~= paths::components(dir));
        }
    }
}

/// The ancestors of a path begin with the path itself, each is followed by its parent,
/// and the last has none.
pub proof fn each_ancestor_is_followed_by_its_parent(path: Seq<u8>)
    ensures
        lineage::lineage(path).len() > 0,
        lineage::lineage(path)[0] == path,
        forall|k: int|
            0 <= k < lineage::lineage(path).len() - 1 ==> lineage::parent_of(
                #[trigger] lineage::lineage(path)[k],
            ) == Some(lineage::lineage(path)[k + 1]),
        lineage::parent_of(lineage::lineage(path).last()) is None,
    decreases path.len(),
{
    lineage::lemma_parent_shorter(path);
    if let Some(q) = lineage::parent_of(path) {
        each_ancestor_is_followed_by_its_parent(q);
        let all = lineage::lineage(path);
        let rest = lineage::lineage(q);
        assert(all.last() == rest.last());
        assert forall|k: int| 0 <= k < all.len() - 1 implies lineage::parent_of(
            #[trigger] all[k],
        ) == Some(all[k + 1]) by {
            if k > 0 {
                assert(all[k] == rest[k - 1]);
            }
        }
    }
}

/// A path whose file name is replaced has the same components but the last, which is
/// the new name.
pub proof fn renaming_replaces_the_last(path: Seq<u8>, name: Seq<u8>)
    requires
        is_name(name),
        paths::base_name(path) is Some,
    ensures
        paths::components(lineage::renamed(path, name)) == paths::components(path).drop_last().push(
            ComponentView::Normal(name),
        ),
{
    parent_lacks_the_last(path);
    name_is_one_component(name);
    if let Some(dir) = lineage::parent_of(path) {
        joining_adds_components(dir, name);
        assert(paths::components(lineage::renamed(path, name)) =~= paths::components(
            path,
        ).drop_last().push(ComponentView::Normal(name)));
    }
}

/// On the way down to a file each directory has one component more than the one
/// before; the last is the one that the file is in.
pub proof fn way_down_adds_one_at_a_time(root: Seq<u8>, rel: Seq<u8>)
    requires
        is_plain(rel),
        paths::components(rel).len() > 0,
    ensures
        lineage::way_down(root, rel).len() == paths::components(rel).len() - 1,
        forall|k: int|
            0 <= k < lineage::way_down(root, rel).len() ==> paths::components(
                #[trigger] lineage::way_down(root, rel)[k],
            ) == paths::components(root) + paths::components(rel).take(k + 1),
{
    parent_lacks_the_last(rel);
    plain_paths_are_steps(rel);
    let c = paths::components(rel);
    assert(is_step(c[0]));
    if let Some(dir) = lineage::parent_of(rel) {
        let d = paths::components(dir);
        assert forall|k: int| 0 <= k < d.len() implies paths::components(
            #[trigger] lineage::way_down(root, rel)[k],
        ) == paths::components(root) + c.take(k + 1) by {
            let steps = d.take(k + 1);
            assert(steps =~= c.take(k + 1));
            assert forall|j: int| 0 <= j < steps.len() implies is_step(#[trigger] steps[j]) by {
                assert(steps[j] == c[j]);
            }
            going_down_adds_components(root, steps);
        }
    }
}

// ---- the order of paths ------------------------------------------------------------

/// Byte strings are in dictionary order: the first byte in which they differ decides,
/// and where one begins with the other the shorter comes first.
pub proof fn first_difference_decides(a: Seq<u8>, b: Seq<u8>, k: int)
    requires
        0 <= k <= a.len(),
        k <= b.len(),
        forall|j: int| 0 <= j < k ==> a[j] == b[j],
    ensures
        k == a.len() ==> paths::bytes_le(a, b),
        k == b.len() && k < a.len() ==> !paths::bytes_le(a, b),
        k < a.len() && k < b.len() && a[k] != b[k] ==> paths::bytes_le(a, b) == (a[k] < b[k]),
    decreases k,
{
    if k > 0 {
        let (x, y) = (a.skip(1), b.skip(1));
        assert(a[0] == b[0]);
        assert forall|j: int| 0 <= j < k - 1 implies x[j] == y[j] by {
            assert(a[j + 1] == b[j + 1]);
        }
        first_difference_decides(x, y, k - 1);
    }
}

/// Paths are ordered by the first component in which they differ: names by their
/// bytes; and a path comes before those below it.
pub proof fn first_component_decides(a: Seq<u8>, b: Seq<u8>, k: int)
    requires
        0 <= k <= paths::components(a).len(),
        k <= paths::components(b).len(),
        forall|j: int| 0 <= j < k ==> paths::components(a)[j] == paths::components(b)[j],
    ensures
        k == paths::components(a).len() ==> paths::path_le(a, b),
        k == paths::components(b).len() && k < paths::components(a).len() ==> !paths::path_le(a, b),
        k < paths::components(a).len() && k < paths::components(b).len() ==> {
            let (x, y) = (paths::components(a)[k], paths::components(b)[k]);
            x != y ==> match (x, y) {
                (ComponentView::Normal(m), ComponentView::Normal(n)) => paths::path_le(a, b)
                    == paths::bytes_le(m, n),
                (ComponentView::RootDir, _) => paths::path_le(a, b),
                (_, ComponentView::Normal(_)) => paths::path_le(a, b),
                (ComponentView::Normal(_), _) => !paths::path_le(a, b),
                (_, ComponentView::RootDir) => !paths::path_le(a, b),
                (ComponentView::CurDir, _) => paths::path_le(a, b),
                _ => !paths::path_le(a, b),
            }
        },
{
    lemma_first_component(paths::components(a), paths::components(b), k);
}

proof fn lemma_first_component(a: Seq<ComponentView>, b: Seq<ComponentView>, k: int)
    requires
        0 <= k <= a.len(),
        k <= b.len(),
        forall|j: int| 0 <= j < k ==> a[j] == b[j],
    ensures
        k == a.len() ==> paths::components_le(a, b),
        k == b.len() && k < a.len() ==> !paths::components_le(a, b),
        k < a.len() && k < b.len() && a[k] != b[k] ==> paths::components_le(a, b)
            == paths::component_le(a[k], b[k]),
    decreases k,
{
    if k > 0 {
        let (x, y) = (a.skip(1), b.skip(1));
        assert(a[0] == b[0]);
        assert forall|j: int| 0 <= j < k - 1 implies x[j] == y[j] by {
            assert(a[j + 1] == b[j + 1]);
        }
        lemma_first_component(x, y, k - 1);
    }
}

/// A relative path neither begins at the root nor with `.`.
pub proof fn relative_path_is_plain(path: Seq<u8>, base: Seq<u8>)
    requires
        paths::components(base).len() > 0,
        lineage::relative_to(path, base) is Some,
    ensures
        is_plain(lineage::relative_to(path, base)->0),
{
    let rel = lineage::relative_to(path, base)->0;
    let n = paths::components(base).len() as int;
    under_means_whole_components(path, base);
    lemma_steps_behind(path, n);
    relative_path_is_the_rest(path, base);
    let steps = paths::components(path).skip(n);
    assert(steps =~= paths::components(rel));
    if paths::anchor(rel).len() > 0 {
        assert(paths::components(rel)[0] == paths::anchor(rel)[0]);
        assert(is_step(steps[0]));
    }
}

/// What a path ends in is a name.
pub proof fn file_names_are_names(path: Seq<u8>)
    requires
        paths::base_name(path) is Some,
    ensures
        is_name(paths::base_name(path)->0),
{
    let c = paths::components(path);
    let n = paths::anchor(path).len() as int;
    lemma_steps_behind(path, n);
    let last = c.len() - 1;
    if last < n {
        assert(c[last] == paths::anchor(path)[last]);
    } else {
        assert(c.skip(n)[last - n] == c[last]);
    }
}

} // verus!
