//! What holds of branches strings, command lines and detections.

use super::{BranchMode, BranchView, DetectionView, DirListing, Evidence, MountView, Process, SpecView};
use crate::globs;
use crate::lineage;
use crate::mergerfs;
use crate::mountinfo;
use crate::mountinfo::MountInfoView;
use crate::options;
use crate::order;
use crate::paths;
use crate::text;
use crate::util;
use vstd::prelude::*;
#[allow(unused_imports)]
use vstd::relations::*;
#[allow(unused_imports)]
use vstd::seq_lib::*;
#[allow(unused_imports)]
use vstd::utf8::*;

verus! {

// ---- entries -----------------------------------------------------------------------

proof fn lemma_map_on<T, U>(a: Seq<T>, b: Seq<T>, f: spec_fn(T) -> U)
    ensures
        (a + b).map_values(f) == a.map_values(f) + b.map_values(f),
{
    assert((a + b).map_values(f) =~= a.map_values(f) + b.map_values(f));
}

/// The entries of two branches strings with a colon between them are those of the
/// first and those of the second.
pub proof fn entries_stand_between_colons(a: Seq<char>, b: Seq<char>)
    ensures
        mergerfs::specs_in(a.push(':') + b) == mergerfs::specs_in(a) + mergerfs::specs_in(b),
{
    text::laws::pieces_on_both_sides(a, ':', b);
    let trim = |p: Seq<char>| text::trimmed(p);
    let full = |p: Seq<char>| p.len() > 0;
    let read = |p: Seq<char>| mergerfs::spec_in(p);
    let (x, y) = (text::pieces(a, ':'), text::pieces(b, ':'));
    lemma_map_on(x, y, trim);
    text::laws::lemma_filter_on(x.map_values(trim), y.map_values(trim), full);
    lemma_map_on(mergerfs::entries_in(a), mergerfs::entries_in(b), read);
}

/// A text without colon is one entry, without the white space around it; or none, if
/// there is nothing else to it.
pub proof fn one_entry(s: Seq<char>)
    requires
        !s.contains(':'),
    ensures
        text::trimmed(s).len() > 0 ==> mergerfs::specs_in(s) == seq![
            mergerfs::spec_in(text::trimmed(s)),
        ],
        text::trimmed(s).len() == 0 ==> mergerfs::specs_in(s).len() == 0,
{
    reveal(Seq::filter);
    text::laws::one_piece(s, ':');
    let full = |p: Seq<char>| p.len() > 0;
    let trimmed = seq![s].map_values(|p: Seq<char>| text::trimmed(p));
    assert(trimmed =~= seq![text::trimmed(s)]);
    assert(trimmed.drop_last() =~= Seq::<Seq<char>>::empty());
    assert(trimmed.drop_last().filter(full) =~= Seq::<Seq<char>>::empty());
    if text::trimmed(s).len() > 0 {
        assert(mergerfs::entries_in(s) =~= seq![text::trimmed(s)]);
        assert(mergerfs::specs_in(s) =~= seq![mergerfs::spec_in(text::trimmed(s))]);
    } else {
        assert(mergerfs::entries_in(s) =~= Seq::<Seq<char>>::empty());
    }
}

/// The names of modes are told apart.
proof fn lemma_modes()
    ensures
        "ro"@ == seq!['r', 'o'],
        "rw"@ == seq!['r', 'w'],
        "nc"@ == seq!['n', 'c'],
{
    reveal_strlit("ro");
    reveal_strlit("rw");
    reveal_strlit("nc");
    assert("ro"@ =~= seq!['r', 'o']);
    assert("rw"@ =~= seq!['r', 'w']);
    assert("nc"@ =~= seq!['n', 'c']);
}

/// An entry that ends in `=RW`, `=RO` or `=NC`, in either case, is for the path before
/// it, with that mode.
pub proof fn mode_stands_behind_the_path(path: Seq<char>, mode: Seq<char>)
    ensures
        text::lowered(mode) == seq!['r', 'w'] ==> mergerfs::spec_in(path.push('=') + mode) == (
        SpecView { pattern: path, mode: BranchMode::ReadWrite }),
        text::lowered(mode) == seq!['r', 'o'] ==> mergerfs::spec_in(path.push('=') + mode) == (
        SpecView { pattern: path, mode: BranchMode::ReadOnly }),
        text::lowered(mode) == seq!['n', 'c'] ==> mergerfs::spec_in(path.push('=') + mode) == (
        SpecView { pattern: path, mode: BranchMode::NoCreate }),
{
    lemma_modes();
    let e = path.push('=') + mode;
    let low = text::lowered(mode);
    assert(seq!['r', 'w'][1] != seq!['r', 'o'][1]);
    assert(seq!['n', 'c'][0] != seq!['r', 'o'][0]);
    assert(seq!['n', 'c'][0] != seq!['r', 'w'][0]);
    if low == seq!['r', 'w'] || low == seq!['r', 'o'] || low == seq!['n', 'c'] {
        let i = text::last_of(e, '=');
        text::lemma_last_of(e, '=');
        assert(low.len() == mode.len());
        assert(e[path.len() as int] == '=');
        assert forall|k: int| 0 <= k < mode.len() implies mode[k] != '=' by {
            assert(low[k] == text::lower(mode[k]));
        }
        if i > path.len() {
            assert(e[i] == mode[i - path.len() - 1]);
        }
        assert(i == path.len());
        assert(e.take(i) =~= path);
        assert(e.skip(i + 1) =~= mode);
    }
}

/// An entry without mode is for itself, read-write.
pub proof fn entry_without_mode_is_read_write(entry: Seq<char>)
    requires
        !entry.contains('='),
    ensures
        mergerfs::spec_in(entry) == (SpecView { pattern: entry, mode: BranchMode::ReadWrite }),
{
    text::lemma_last_of(entry, '=');
    let i = text::last_of(entry, '=');
    if i >= 0 {
        assert(entry.contains(entry[i]));
    }
}

// ---- wildcards ---------------------------------------------------------------------

/// A pattern without wildcard stands for its own path.
pub proof fn plain_pattern_is_its_path(pattern: Seq<char>, dirs: Seq<DirListing>)
    requires
        !pattern.contains('*'),
    ensures
        mergerfs::expanded(pattern, dirs) == seq![encode_utf8(pattern)],
{
}

proof fn lemma_in_path_order(all: Seq<Seq<u8>>)
    requires
        all.len() <= usize::MAX,
    ensures
        mergerfs::in_path_order(all).len() == all.len(),
        forall|p: Seq<u8>| all.contains(p) <==> #[trigger] mergerfs::in_path_order(all).contains(p),
        forall|i: int, j: int|
            0 <= i < j < all.len() ==> paths::path_le(
                #[trigger] mergerfs::in_path_order(all)[i],
                #[trigger] mergerfs::in_path_order(all)[j],
            ),
{
    let leq = mergerfs::path_order(all);
    let pred = |i: usize| true;
    let idx = order::select(all.len(), pred);
    let sorted = idx.sort_by(leq);
    let done = mergerfs::in_path_order(all);
    mergerfs::lemma_path_order_total(all);
    order::lemma_select(all.len(), pred);
    order::lemma_sorted_members(idx, leq);
    idx.lemma_sort_by_ensures(leq);
    lemma_select_all(all.len(), pred);
    assert forall|p: Seq<u8>| all.contains(p) <==> #[trigger] done.contains(p) by {
        if all.contains(p) {
            let i = choose|i: int| 0 <= i < all.len() && all[i] == p;
            assert(pred(i as usize));
            assert(idx.contains(i as usize));
            assert(sorted.contains(i as usize));
            let k = choose|k: int| 0 <= k < sorted.len() && sorted[k] == i as usize;
            assert(done[k] == p);
        }
        if done.contains(p) {
            let k = choose|k: int| 0 <= k < done.len() && done[k] == p;
            assert(idx.contains(sorted[k]));
            let i = choose|i: int| 0 <= i < idx.len() && idx[i] == sorted[k];
            assert(idx[i] < all.len());
            assert(all[sorted[k] as int] == p);
        }
    }
    assert forall|i: int, j: int| 0 <= i < j < all.len() implies paths::path_le(
        #[trigger] done[i],
        #[trigger] done[j],
    ) by {
        assert(leq(sorted[i], sorted[j]));
        paths::lemma_path_le_total(done[i], done[j]);
    }
}

proof fn lemma_select_all(n: nat, all: spec_fn(usize) -> bool)
    requires
        forall|i: usize| #[trigger] all(i),
    ensures
        order::select(n, all).len() == n,
    decreases n,
{
    if n > 0 {
        lemma_select_all((n - 1) as nat, all);
    }
}

proof fn lemma_matches(dir: Seq<u8>, name: Seq<u8>, names: Seq<Seq<u8>>, p: Seq<u8>)
    ensures
        mergerfs::matches_in(dir, name, names).contains(p) <==> exists|k: int|
            0 <= k < names.len() && globs::matched(
                text::lossy_text(name),
                text::lossy_text(#[trigger] names[k]),
            ) && p == paths::joined(dir, names[k]),
        mergerfs::matches_in(dir, name, names).len() <= names.len(),
    decreases names.len(),
{
    reveal(Seq::filter);
    let pred = |n: Seq<u8>| globs::matched(text::lossy_text(name), text::lossy_text(n));
    let join = |n: Seq<u8>| paths::joined(dir, n);
    let all = mergerfs::matches_in(dir, name, names);
    if names.len() > 0 {
        let front = names.drop_last();
        lemma_matches(dir, name, front, p);
        let f = mergerfs::matches_in(dir, name, front);
        let last = names.last();
        assert(names[names.len() - 1] == last);
        if pred(last) {
            assert(all =~= f.push(join(last)));
        } else {
            assert(all =~= f);
        }
        if all.contains(p) {
            let i = choose|i: int| 0 <= i < all.len() && all[i] == p;
            if i < f.len() {
                assert(f[i] == p);
                let k = choose|k: int|
                    0 <= k < front.len() && globs::matched(
                        text::lossy_text(name),
                        text::lossy_text(#[trigger] front[k]),
                    ) && p == paths::joined(dir, front[k]);
                assert(names[k] == front[k]);
            }
        }
        if exists|k: int|
            0 <= k < names.len() && globs::matched(
                text::lossy_text(name),
                text::lossy_text(#[trigger] names[k]),
            ) && p == paths::joined(dir, names[k]) {
            let k = choose|k: int|
                0 <= k < names.len() && globs::matched(
                    text::lossy_text(name),
                    text::lossy_text(#[trigger] names[k]),
                ) && p == paths::joined(dir, names[k]);
            if k < front.len() {
                assert(front[k] == names[k]);
                assert(f.contains(p));
                let i = choose|i: int| 0 <= i < f.len() && f[i] == p;
                assert(all[i] == p);
            } else {
                assert(all[all.len() - 1] == p);
            }
        }
    }
}

/// A pattern with a wildcard in its last component stands for the paths, in its
/// directory, of the names that match, in the order of paths; or for itself, where
/// none does.
pub proof fn wildcard_stands_for_what_matches(
    pattern: Seq<char>,
    dirs: Seq<DirListing>,
    dir: Seq<u8>,
    name: Seq<u8>,
    names: Seq<Seq<u8>>,
)
    requires
        pattern.contains('*'),
        lineage::parent_of(encode_utf8(pattern)) == Some(dir),
        paths::base_name(encode_utf8(pattern)) == Some(name),
        mergerfs::listing_of(dirs, dir) == Some(names),
        names.len() <= usize::MAX,
    ensures
        (exists|k: int|
            0 <= k < names.len() && globs::matched(
                text::lossy_text(name),
                text::lossy_text(#[trigger] names[k]),
            )) ==> {
            &&& forall|p: Seq<u8>| #[trigger]
                mergerfs::expanded(pattern, dirs).contains(p) <==> exists|k: int|
                    0 <= k < names.len() && globs::matched(
                        text::lossy_text(name),
                        text::lossy_text(#[trigger] names[k]),
                    ) && p == paths::joined(dir, names[k])
            &&& forall|i: int, j: int|
                0 <= i < j < mergerfs::expanded(pattern, dirs).len() ==> paths::path_le(
                    #[trigger] mergerfs::expanded(pattern, dirs)[i],
                    #[trigger] mergerfs::expanded(pattern, dirs)[j],
                )
        },
        (forall|k: int|
            0 <= k < names.len() ==> !globs::matched(
                text::lossy_text(name),
                text::lossy_text(#[trigger] names[k]),
            )) ==> mergerfs::expanded(pattern, dirs) == seq![encode_utf8(pattern)],
{
    let found = mergerfs::matches_in(dir, name, names);
    lemma_matches(dir, name, names, Seq::empty());
    if found.len() > 0 {
        lemma_in_path_order(found);
        lemma_matches(dir, name, names, found[0]);
        assert(found.contains(found[0]));
        assert forall|p: Seq<u8>| #[trigger]
            mergerfs::expanded(pattern, dirs).contains(p) <==> exists|k: int|
                0 <= k < names.len() && globs::matched(
                    text::lossy_text(name),
                    text::lossy_text(#[trigger] names[k]),
                ) && p == paths::joined(dir, names[k]) by {
            lemma_matches(dir, name, names, p);
        }
    } else if exists|k: int|
        0 <= k < names.len() && globs::matched(
            text::lossy_text(name),
            text::lossy_text(#[trigger] names[k]),
        ) {
        let k = choose|k: int|
            0 <= k < names.len() && globs::matched(
                text::lossy_text(name),
                text::lossy_text(#[trigger] names[k]),
            );
        lemma_matches(dir, name, names, paths::joined(dir, names[k]));
    }
}

// ---- branches ----------------------------------------------------------------------

/// The branches of entries are those of the first ones and then those of the others;
/// those of one entry are the paths that it stands for, with its mode.
pub proof fn each_entry_gives_its_branches(
    specs: Seq<SpecView>,
    spec: SpecView,
    dirs: Seq<DirListing>,
)
    ensures
        ({
            let before = mergerfs::all_branches(specs, dirs);
            let after = mergerfs::all_branches(specs.push(spec), dirs);
            let own = mergerfs::expanded(spec.pattern, dirs);
            &&& after.len() == before.len() + own.len()
            &&& forall|k: int| 0 <= k < before.len() ==> after[k] == #[trigger] before[k]
            &&& forall|k: int|
                0 <= k < own.len() ==> after[before.len() + k].path == #[trigger] own[k]
                    && after[before.len() + k].mode == spec.mode
        }),
{
    assert(specs.push(spec).drop_last() =~= specs);
}

/// Of the branches with one path the first is kept, with its mode, and no other.
pub proof fn first_of_a_path_is_kept(branches: Seq<BranchView>, b: BranchView)
    ensures
        (exists|i: int|
            0 <= i < branches.len() && paths::components((#[trigger] branches[i]).path)
                == paths::components(b.path)) ==> mergerfs::distinct(branches.push(b))
            == mergerfs::distinct(branches),
        (forall|i: int|
            0 <= i < branches.len() ==> paths::components((#[trigger] branches[i]).path)
                != paths::components(b.path)) ==> mergerfs::distinct(branches.push(b))
            == mergerfs::distinct(branches).push(b),
{
    assert(branches.push(b).drop_last() =~= branches);
    mergerfs::branches_are_distinct(branches);
    lemma_kept_are_given(branches);
    let d = mergerfs::distinct(branches);
    if exists|i: int|
        0 <= i < branches.len() && paths::components((#[trigger] branches[i]).path)
            == paths::components(b.path) {
        let i = choose|i: int|
            0 <= i < branches.len() && paths::components((#[trigger] branches[i]).path)
                == paths::components(b.path);
        assert(mergerfs::has_path(d, branches[i].path));
        let k = choose|k: int|
            0 <= k < d.len() && paths::components((#[trigger] d[k]).path) == paths::components(
                branches[i].path,
            );
        assert(paths::components(d[k].path) == paths::components(b.path));
        assert(mergerfs::has_path(d, b.path));
    } else if mergerfs::has_path(d, b.path) {
        let k = choose|k: int|
            0 <= k < d.len() && paths::components((#[trigger] d[k]).path) == paths::components(
                b.path,
            );
        assert(branches.contains(d[k]));
        let i = choose|i: int| 0 <= i < branches.len() && branches[i] == d[k];
        assert(paths::components(branches[i].path) == paths::components(b.path));
    }
}

proof fn lemma_kept_are_given(branches: Seq<BranchView>)
    ensures
        forall|k: int|
            0 <= k < mergerfs::distinct(branches).len() ==> branches.contains(
                #[trigger] mergerfs::distinct(branches)[k],
            ),
    decreases branches.len(),
{
    if branches.len() > 0 {
        let front = branches.drop_last();
        lemma_kept_are_given(front);
        let d = mergerfs::distinct(branches);
        let f = mergerfs::distinct(front);
        assert forall|k: int| 0 <= k < d.len() implies branches.contains(#[trigger] d[k]) by {
            if k < f.len() {
                assert(d[k] == f[k]);
                let i = choose|i: int| 0 <= i < front.len() && front[i] == f[k];
                assert(branches[i] == d[k]);
            } else {
                assert(branches[branches.len() - 1] == d[k]);
            }
        }
    }
}

// ---- free space --------------------------------------------------------------------

/// The reserve is what the `minfreespace` option says, and four gibibytes where there
/// is none or it cannot be read.
pub proof fn reserve_is_the_option(opts: Map<Seq<char>, Option<Seq<char>>>)
    ensures
        ({
            let given = if opts.dom().contains("minfreespace"@) {
                opts["minfreespace"@]
            } else {
                None
            };
            match given {
                Some(t) => match util::size_reading(t) {
                    Ok(n) => mergerfs::minfreespace_in(opts) == n,
                    Err(_) => mergerfs::minfreespace_in(opts) == 4 * 1024 * 1024 * 1024,
                },
                None => mergerfs::minfreespace_in(opts) == 4 * 1024 * 1024 * 1024,
            }
        }),
{
}

// ---- command lines -----------------------------------------------------------------

/// A command line gives each argument that it holds, up to its NUL, in turn.
pub proof fn each_argument_ends_in_nul(arg: Seq<u8>, rest: Seq<u8>)
    requires
        arg.len() > 0,
        !arg.contains(0u8),
    ensures
        mergerfs::args_in(arg.push(0u8) + rest) == seq![text::lossy_text(arg)] + mergerfs::args_in(
            rest,
        ),
        mergerfs::args_in(Seq::<u8>::empty()).len() == 0,
{
    text::laws::filled_on_both_sides(arg, 0u8, rest);
    text::laws::one_filled_piece(arg, 0u8);
    text::laws::one_filled_piece(Seq::<u8>::empty(), 0u8);
    let show = |a: Seq<u8>| text::lossy_text(a);
    lemma_map_on(seq![arg], text::filled(rest, 0u8), show);
    assert(seq![arg].map_values(show) =~= seq![text::lossy_text(arg)]);
}

/// The process that serves a mount is the first that is a mergerfs and names it.
pub proof fn first_server_is_found(processes: Seq<Process>, want: Seq<char>)
    ensures
        match mergerfs::backing_of(processes, want) {
            Some(pid) => exists|k: int|
                0 <= k < processes.len() && (#[trigger] processes[k]).pid == pid && serves(
                    processes[k],
                    want,
                ) && forall|j: int| 0 <= j < k ==> !serves(#[trigger] processes[j], want),
            None => forall|j: int|
                0 <= j < processes.len() ==> !serves(#[trigger] processes[j], want),
        },
    decreases processes.len(),
{
    if processes.len() > 0 {
        let rest = processes.skip(1);
        first_server_is_found(rest, want);
        if serves(processes[0], want) {
            assert(processes[0].pid == mergerfs::backing_of(processes, want)->0);
        } else {
            match mergerfs::backing_of(rest, want) {
                Some(pid) => {
                    let k = choose|k: int|
                        0 <= k < rest.len() && (#[trigger] rest[k]).pid == pid && serves(
                            rest[k],
                            want,
                        ) && forall|j: int| 0 <= j < k ==> !serves(#[trigger] rest[j], want);
                    assert(processes[k + 1] == rest[k]);
                    assert forall|j: int| 0 <= j < k + 1 implies !serves(
                        #[trigger] processes[j],
                        want,
                    ) by {
                        if j > 0 {
                            assert(rest[j - 1] == processes[j]);
                        }
                    }
                },
                None => {
                    assert forall|j: int| 0 <= j < processes.len() implies !serves(
                        #[trigger] processes[j],
                        want,
                    ) by {
                        if j > 0 {
                            assert(rest[j - 1] == processes[j]);
                        }
                    }
                },
            }
        }
    }
}

/// The process was started as a mergerfs, wherever that lies, and one of its arguments
/// is the mount point.
pub open spec fn serves(p: Process, want: Seq<char>) -> bool {
    let args = mergerfs::args_in(p.cmdline@);
    &&& args.len() > 0
    &&& paths::base_name(encode_utf8(args[0])) == Some(encode_utf8("mergerfs"@))
    &&& exists|k: int| 0 <= k < args.len() && #[trigger] args[k] == want
}

/// `-o` and the argument behind it, or what follows it in the same argument, are
/// options; other arguments that begin with a dash are left out; and what is left is
/// positional, in its order.
pub proof fn arguments_are_sorted_out(a: Seq<char>, b: Seq<char>, rest: Seq<Seq<char>>)
    ensures
        mergerfs::sorted_args(seq![seq!['-', 'o'], b] + rest) == (
            mergerfs::sorted_args(rest).0,
            b + seq![','] + mergerfs::sorted_args(rest).1,
        ),
        a.len() > 0 ==> mergerfs::sorted_args(seq![seq!['-', 'o'] + a] + rest) == (
            mergerfs::sorted_args(rest).0,
            a + seq![','] + mergerfs::sorted_args(rest).1,
        ),
        a.len() > 0 && a[0] == '-' && !(a.len() > 1 && a[1] == 'o') ==> mergerfs::sorted_args(
            seq![a] + rest,
        ) == mergerfs::sorted_args(rest),
        a.len() == 0 || a[0] != '-' ==> mergerfs::sorted_args(seq![a] + rest) == (
            seq![a] + mergerfs::sorted_args(rest).0,
            mergerfs::sorted_args(rest).1,
        ),
        mergerfs::sorted_args(Seq::empty()) == (Seq::<Seq<char>>::empty(), Seq::<char>::empty()),
{
    reveal_strlit("-o");
    reveal_strlit("-");
    assert("-o"@ =~= seq!['-', 'o']);
    assert("-"@ =~= seq!['-']);
    let two = seq![seq!['-', 'o'], b] + rest;
    assert(two.skip(2) =~= rest);
    let glued = seq!['-', 'o'] + a;
    assert((seq![glued] + rest).skip(1) =~= rest);
    assert((seq![a] + rest).skip(1) =~= rest);
    if a.len() > 0 {
        assert(glued.len() > 2);
        assert(glued.take(2) =~= seq!['-', 'o']);
        assert(glued.skip(2) =~= a);
        assert(a.take(1) =~= seq![a[0]]);
        assert(seq![a[0]][0] == a[0]);
        if a[0] != '-' {
            assert(a.take(1)[0] != seq!['-'][0]);
            if a.len() > 1 {
                assert(a.take(2)[0] != seq!['-', 'o'][0]);
            }
        } else {
            assert(a.take(1) =~= seq!['-']);
            if a.len() > 1 && a[1] != 'o' {
                assert(a.take(2)[1] != seq!['-', 'o'][1]);
            }
        }
    }
}

/// The branches are named by the first positional argument that is not the mount
/// point, or else by the first.
pub proof fn branches_are_not_the_mount_point(positionals: Seq<Seq<char>>, want: String, k: int)
    requires
        0 <= k < positionals.len(),
        forall|j: int| 0 <= j < k ==> #[trigger] positionals[j] == want@,
    ensures
        positionals[k] != want@ ==> mergerfs::branch_arg(positionals, want@) == Some(
            positionals[k],
        ),
        k == positionals.len() - 1 && positionals[k] == want@ ==> mergerfs::branch_arg(
            positionals,
            want@,
        ) == Some(want@),
{
    let pred = |p: Seq<char>| p != want@;
    lemma_filter_skips(positionals, pred, k);
    if positionals[k] == want@ && k == positionals.len() - 1 {
        assert(positionals[0] == want@);
    }
}

proof fn lemma_filter_skips(s: Seq<Seq<char>>, pred: spec_fn(Seq<char>) -> bool, k: int)
    requires
        0 <= k < s.len(),
        forall|j: int| 0 <= j < k ==> !pred(#[trigger] s[j]),
    ensures
        pred(s[k]) ==> s.filter(pred).len() > 0 && s.filter(pred)[0] == s[k],
        !pred(s[k]) && k == s.len() - 1 ==> s.filter(pred).len() == 0,
    decreases s.len(),
{
    reveal(Seq::filter);
    let front = s.drop_last();
    assert forall|j: int| 0 <= j < front.len() implies front[j] == s[j] by {}
    if k < s.len() - 1 {
        assert forall|j: int| 0 <= j < k implies !pred(#[trigger] front[j]) by {
            assert(front[j] == s[j]);
        }
        lemma_filter_skips(front, pred, k);
    } else if k > 0 {
        assert forall|j: int| 0 <= j < k - 1 implies !pred(#[trigger] front[j]) by {
            assert(front[j] == s[j]);
        }
        assert(!pred(s[k - 1]));
        assert(front[k - 1] == s[k - 1]);
        lemma_filter_skips(front, pred, k - 1);
    } else {
        assert(front =~= Seq::<Seq<char>>::empty());
    }
}

// ---- detection ---------------------------------------------------------------------

/// Only what the mount table lists as a mergerfs is looked into.
pub proof fn other_filesystems_are_refused(e: Evidence, table: String)
    requires
        e.mountinfo == Some(Some(table)),
    ensures
        match mountinfo::entry_of(table@, text::lossy_text(e.mountpoint@)) {
            None => mergerfs::detected(e) == DetectionView::NotMounted,
            Some(entry) => entry.fstype != "fuse.mergerfs"@ && entry.fstype != "mergerfs"@
                ==> mergerfs::detected(e) == DetectionView::NotMergerfs(entry.fstype),
        },
{
}

/// The directory is among those that were read.
pub open spec fn was_read(dirs: Seq<DirListing>, dir: Seq<u8>) -> bool {
    exists|j: int| 0 <= j < dirs.len() && (#[trigger] dirs[j]).dir@ == dir
}

proof fn lemma_was_read(dirs: Seq<DirListing>, dir: Seq<u8>)
    ensures
        mergerfs::listing_of(dirs, dir) is Some <==> was_read(dirs, dir),
        mergerfs::listing_of(dirs, dir) matches Some(names) ==> exists|j: int|
            0 <= j < dirs.len() && (#[trigger] dirs[j]).dir@ == dir && text::views(dirs[j].names@)
                == names,
    decreases dirs.len(),
{
    if dirs.len() > 0 {
        let rest = dirs.skip(1);
        lemma_was_read(rest, dir);
        if dirs[0].dir@ != dir {
            if was_read(rest, dir) {
                let j = choose|j: int|
                    0 <= j < rest.len() && (#[trigger] rest[j]).dir@ == dir && text::views(
                        rest[j].names@,
                    ) == mergerfs::listing_of(rest, dir)->0;
                assert(dirs[j + 1] == rest[j]);
            }
            if was_read(dirs, dir) {
                let j = choose|j: int| 0 <= j < dirs.len() && (#[trigger] dirs[j]).dir@ == dir;
                assert(rest[j - 1] == dirs[j]);
            }
        }
    }
}

/// The entry has a wildcard that ranges over the directory.
pub open spec fn ranges_over(spec: SpecView, dir: Seq<u8>) -> bool {
    mergerfs::glob_in(spec.pattern) matches Some(g) && g.0 == dir
}

/// A directory is asked for if an entry has a wildcard that ranges over it and it was
/// not read; and none is only if there is no such entry.
pub proof fn unread_directories_are_asked_for(specs: Seq<SpecView>, dirs: Seq<DirListing>)
    ensures
        match mergerfs::unread_dir(specs, dirs) {
            Some(d) => !was_read(dirs, d) && exists|k: int|
                0 <= k < specs.len() && #[trigger] ranges_over(specs[k], d),
            None => forall|k: int, d: Seq<u8>|
                0 <= k < specs.len() && #[trigger] ranges_over(specs[k], d) ==> was_read(dirs, d),
        },
    decreases specs.len(),
{
    if specs.len() > 0 {
        let rest = specs.skip(1);
        unread_directories_are_asked_for(rest, dirs);
        if let Some(g) = mergerfs::glob_in(specs[0].pattern) {
            lemma_was_read(dirs, g.0);
        }
        match mergerfs::unread_dir(specs, dirs) {
            Some(d) => {
                if !ranges_over(specs[0], d) {
                    let k = choose|k: int|
                        0 <= k < rest.len() && #[trigger] ranges_over(rest[k], d);
                    assert(specs[k + 1] == rest[k]);
                    assert(ranges_over(specs[k + 1], d));
                } else if mergerfs::unread_dir(rest, dirs) == Some(d) {
                    assert(ranges_over(specs[0], d));
                }
            },
            None => {
                assert forall|k: int, d: Seq<u8>|
                    0 <= k < specs.len() && #[trigger] ranges_over(specs[k], d) implies was_read(
                    dirs,
                    d,
                ) by {
                    if k > 0 {
                        assert(rest[k - 1] == specs[k]);
                        assert(ranges_over(rest[k - 1], d));
                    }
                }
            },
        }
    }
}

/// The text names no branches, wildcards included.
pub open spec fn names_none(e: Evidence, spec: Option<Seq<char>>) -> bool {
    spec matches Some(s) ==> mergerfs::unread_dir(mergerfs::specs_in(s), e.dirs@) is None
        && mergerfs::branches_in(s, e.dirs@).len() == 0
}

/// Of a mount that is a mergerfs by either name the control file is asked for first;
/// where that names no branches, the processes are, then the command line of the one
/// that serves the mount; and where there is none, or its command line names no
/// branches, the mount table is left.
pub proof fn evidence_is_asked_for_in_order(e: Evidence, table: String, entry: MountInfoView)
    requires
        e.mountinfo == Some(Some(table)),
        mountinfo::entry_of(table@, text::lossy_text(e.mountpoint@)) == Some(entry),
        entry.fstype == "fuse.mergerfs"@ || entry.fstype == "mergerfs"@,
    ensures
        e.xattrs is None ==> mergerfs::detected(e) == DetectionView::NeedsXattrs,
        e.xattrs is Some ==> mergerfs::detected(e) == mergerfs::from_xattrs(e, entry),
        (e.xattrs matches Some((raw, _)) && names_none(
            e,
            match raw {
                Some(b) => util::xattr_string(b@),
                None => None,
            },
        )) ==> match e.processes {
            None => mergerfs::detected(e) == DetectionView::NeedsProcesses,
            Some(None) => mergerfs::detected(e) == DetectionView::NoProcesses,
            Some(Some(ps)) => match mergerfs::backing_of(ps@, text::lossy_text(e.mountpoint@)) {
                Some(pid) => match e.cmdline {
                    None => mergerfs::detected(e) == DetectionView::NeedsCmdline(pid),
                    Some(None) => mergerfs::detected(e) == DetectionView::NoCmdline,
                    Some(Some(c)) => {
                        let said = mergerfs::branch_arg(
                            mergerfs::sorted_args(mergerfs::behind_name(mergerfs::args_in(c@))).0,
                            text::lossy_text(e.mountpoint@),
                        );
                        mergerfs::detected(e) == if names_none(e, said) {
                            mergerfs::from_source(e, entry)
                        } else {
                            mergerfs::from_cmdline(e, entry, c@)
                        }
                    },
                },
                None => mergerfs::detected(e) == mergerfs::from_source(e, entry),
            },
        },
{
}

/// Before all else the mount table is asked for.
pub proof fn mount_table_is_asked_for(e: Evidence)
    ensures
        e.mountinfo is None ==> mergerfs::detected(e) == DetectionView::NeedsMountinfo,
        e.mountinfo matches Some(None) ==> mergerfs::detected(e) == DetectionView::NoMountinfo,
        mergerfs::detected(e) == DetectionView::NeedsMountinfo ==> e.mountinfo is None,
{
}

/// Wherever a text names branches with wildcards, the directory that has to be read is
/// asked for before anything is told.
pub proof fn wildcards_wait_for_their_directory(e: Evidence, entry: MountInfoView, d: Seq<u8>)
    ensures
        (e.xattrs matches Some((Some(b), _)) && util::xattr_string(b@) matches Some(s)
            && mergerfs::unread_dir(mergerfs::specs_in(s), e.dirs@) == Some(d))
            ==> mergerfs::from_xattrs(e, entry) == DetectionView::NeedsDir(d),
        mergerfs::unread_dir(mergerfs::specs_in(entry.source), e.dirs@) == Some(d)
            ==> mergerfs::from_source(e, entry) == DetectionView::NeedsDir(d),
        (e.cmdline matches Some(Some(c)) && mergerfs::branch_arg(
            mergerfs::sorted_args(mergerfs::behind_name(mergerfs::args_in(c@))).0,
            text::lossy_text(e.mountpoint@),
        ) matches Some(s) && mergerfs::unread_dir(mergerfs::specs_in(s), e.dirs@) == Some(d))
            ==> mergerfs::from_cmdline(e, entry, e.cmdline.unwrap().unwrap()@)
            == DetectionView::NeedsDir(d),
{
}

/// The mount has the branches that the text stands for, and the reserve.
pub open spec fn is_mount(
    e: Evidence,
    entry: MountInfoView,
    spec: Seq<char>,
    reserve: int,
    m: MountView,
) -> bool {
    &&& m.mountpoint == e.mountpoint@
    &&& m.branches == mergerfs::branches_in(spec, e.dirs@)
    &&& m.minfreespace == reserve
    &&& m.raw_options == options::option_string(entry.super_opts)
}

/// Where the control file names branches they are the mount's, with the reserve that
/// it names or the default.
pub proof fn control_file_comes_first(e: Evidence, entry: MountInfoView, spec: Seq<char>)
    requires
        e.xattrs matches Some((raw, _)) && raw matches Some(b) && util::xattr_string(b@) == Some(
            spec,
        ),
        mergerfs::unread_dir(mergerfs::specs_in(spec), e.dirs@) is None,
        mergerfs::branches_in(spec, e.dirs@).len() > 0,
    ensures
        mergerfs::from_xattrs(e, entry) matches DetectionView::Found(m) && is_mount(
            e,
            entry,
            spec,
            match e.xattrs {
                Some((_, Some(b))) => match util::xattr_string(b@) {
                    Some(t) => match util::size_reading(t) {
                        Ok(n) => n as int,
                        Err(_) => 4int * 1024 * 1024 * 1024,
                    },
                    None => 4int * 1024 * 1024 * 1024,
                },
                _ => 4int * 1024 * 1024 * 1024,
            },
            m,
        ),
{
}

/// Where the control file names none, the command line of the process that serves the
/// mount does, with the reserve among its options; one of nothing gives way to that of
/// the mount table.
pub proof fn command_line_comes_second(
    e: Evidence,
    entry: MountInfoView,
    cmdline: Seq<u8>,
    spec: Seq<char>,
)
    requires
        mergerfs::branch_arg(
            mergerfs::sorted_args(mergerfs::args_in(cmdline).skip(1)).0,
            text::lossy_text(e.mountpoint@),
        ) == Some(spec),
        mergerfs::args_in(cmdline).len() > 0,
        mergerfs::unread_dir(mergerfs::specs_in(spec), e.dirs@) is None,
        mergerfs::branches_in(spec, e.dirs@).len() > 0,
    ensures
        ({
            let given = mergerfs::sorted_args(mergerfs::args_in(cmdline).skip(1)).1;
            let own = mergerfs::minfreespace_in(options::option_string(given));
            let mounted = mergerfs::minfreespace_in(options::option_string(entry.super_opts));
            mergerfs::from_cmdline(e, entry, cmdline) matches DetectionView::Found(m) && is_mount(
                e,
                entry,
                spec,
                if own == 0 {
                    mounted as int
                } else {
                    own as int
                },
                m,
            )
        }),
{
}

/// The last resort is the source field of the mount table.
pub proof fn mount_table_comes_last(e: Evidence, entry: MountInfoView)
    requires
        mergerfs::unread_dir(mergerfs::specs_in(entry.source), e.dirs@) is None,
    ensures
        mergerfs::branches_in(entry.source, e.dirs@).len() > 0 ==> (mergerfs::from_source(
            e,
            entry,
        ) matches DetectionView::Found(m) && is_mount(
            e,
            entry,
            entry.source,
            mergerfs::minfreespace_in(options::option_string(entry.super_opts)) as int,
            m,
        )),
        mergerfs::branches_in(entry.source, e.dirs@).len() == 0 ==> mergerfs::from_source(e, entry)
            == DetectionView::NoBranches,
        e.processes matches Some(Some(ps)) && mergerfs::backing_of(
            ps@,
            text::lossy_text(e.mountpoint@),
        ) is None ==> mergerfs::from_proc(e, entry) == mergerfs::from_source(e, entry),
{
}

} // verus!
