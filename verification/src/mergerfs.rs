//! Detection of a live mergerfs mount: its branches, branch modes, and the
//! mount options relevant to tiering.
//!
//! Primary source is the runtime control interface exposed by mergerfs itself:
//! the pseudo file `<mount>/.mergerfs` carries `user.mergerfs.*` xattrs that
//! report the *current* configuration, including any branches added or removed
//! at runtime. If that is unavailable we fall back to the command line of the
//! mergerfs process backing the mount, and to the source and options fields of
//! `/proc/self/mountinfo`.
//!
//! [`detect`] works on [`Evidence`] that the caller gathers: it asks for what is
//! missing until it has enough to decide.

use crate::globs;
use crate::globs::glob_match;
use crate::lineage;
use crate::lineage::parent;
use crate::mountinfo;
use crate::mountinfo::{find_entry, mountinfo_options, MountInfoView};
use crate::options;
use crate::options::{parse_opt_string, MountOptions};
use crate::order;
use crate::order::{sort_indices, Precedence};
use crate::paths;
use crate::paths::{file_name, join, path_ordered, same_path};
use crate::text;
use crate::text::{
    bytes_of, chars_of, copy_of, copy_range, extend, find_first, find_last, same_string, shown,
    spells, split, split_filled, starts_with, text_of, to_lower, trim,
};
use crate::util;
use crate::util::{getxattr_str, parse_size};
use vstd::prelude::*;
#[allow(unused_imports)]
use vstd::relations::*;
#[allow(unused_imports)]
use vstd::seq_lib::*;
#[allow(unused_imports)]
use vstd::utf8::*;

pub mod laws;

verus! {

/// Read/write/no-create mode of a branch as reported by mergerfs.
#[derive(Debug, Clone, Copy, PartialEq, Eq, Structural)]
pub enum BranchMode {
    ReadWrite,
    ReadOnly,
    NoCreate,
}

/// The mode that a text names, in either case; read-write where it names none.
pub open spec fn mode_named(s: Seq<char>) -> BranchMode {
    if text::lowered(s) == "ro"@ {
        BranchMode::ReadOnly
    } else if text::lowered(s) == "nc"@ {
        BranchMode::NoCreate
    } else {
        BranchMode::ReadWrite
    }
}

impl BranchMode {
    /// The mode that a text names.
    pub fn parse(s: &[char]) -> (r: Self)
        ensures
            r == mode_named(s@),
    {
        let l = to_lower(s);
        if spells(l.as_slice(), "ro") {
            BranchMode::ReadOnly
        } else if spells(l.as_slice(), "nc") {
            BranchMode::NoCreate
        } else {
            BranchMode::ReadWrite
        }
    }

    /// Whether the daemon may place freshly demoted files on this branch.
    pub fn writable(self) -> (r: bool)
        ensures
            r == (self == BranchMode::ReadWrite),
    {
        matches!(self, BranchMode::ReadWrite)
    }
}

/// One of the filesystems beneath the merged mount.
#[derive(Debug)]
pub struct Branch {
    pub path: Vec<u8>,
    pub mode: BranchMode,
}

/// A branch with its path as a sequence.
#[verifier::ext_equal]
pub struct BranchView {
    pub path: Seq<u8>,
    pub mode: BranchMode,
}

impl View for Branch {
    type V = BranchView;

    open spec fn view(&self) -> BranchView {
        BranchView { path: self.path@, mode: self.mode }
    }
}

/// The views of a list of branches.
pub open spec fn branch_views(v: Seq<Branch>) -> Seq<BranchView> {
    v.map_values(|b: Branch| b@)
}

/// A merged mount.
#[derive(Debug)]
pub struct MergerfsMount {
    pub mountpoint: Vec<u8>,
    pub branches: Vec<Branch>,
    /// `minfreespace` in bytes (mergerfs default is 4 GiB if unknown).
    pub minfreespace: u64,
    /// Raw options as seen in mountinfo, for diagnostics.
    pub raw_options: MountOptions,
}

/// A merged mount with its lists as sequences.
#[verifier::ext_equal]
pub struct MountView {
    pub mountpoint: Seq<u8>,
    pub branches: Seq<BranchView>,
    pub minfreespace: u64,
    pub raw_options: Map<Seq<char>, Option<Seq<char>>>,
}

impl View for MergerfsMount {
    type V = MountView;

    open spec fn view(&self) -> MountView {
        MountView {
            mountpoint: self.mountpoint@,
            branches: branch_views(self.branches@),
            minfreespace: self.minfreespace,
            raw_options: self.raw_options@,
        }
    }
}

pub const DEFAULT_MINFREESPACE: u64 = 0x1_0000_0000;

// ---- branch strings ------------------------------------------------------------------

/// An entry of a branches string: a path, possibly with a wildcard, and a mode.
pub struct BranchSpec {
    pub pattern: Vec<char>,
    pub mode: BranchMode,
}

/// An entry with its pattern as a sequence.
#[verifier::ext_equal]
pub struct SpecView {
    pub pattern: Seq<char>,
    pub mode: BranchMode,
}

impl View for BranchSpec {
    type V = SpecView;

    open spec fn view(&self) -> SpecView {
        SpecView { pattern: self.pattern@, mode: self.mode }
    }
}

/// The views of a list of entries.
pub open spec fn spec_views(v: Seq<BranchSpec>) -> Seq<SpecView> {
    v.map_values(|s: BranchSpec| s@)
}

/// The text is one of the names of modes.
pub open spec fn names_mode(s: Seq<char>) -> bool {
    text::lowered(s) == "rw"@ || text::lowered(s) == "ro"@ || text::lowered(s) == "nc"@
}

/// What an entry says: it may end in `=RW`, `=RO` or `=NC`.
pub open spec fn spec_in(entry: Seq<char>) -> SpecView {
    let i = text::last_of(entry, '=');
    if i >= 0 && names_mode(entry.skip(i + 1)) {
        SpecView { pattern: entry.take(i), mode: mode_named(entry.skip(i + 1)) }
    } else {
        SpecView { pattern: entry, mode: BranchMode::ReadWrite }
    }
}

/// The entries of a branches string: colon-separated, without the white space
/// around them, and without empty ones.
pub open spec fn entries_in(s: Seq<char>) -> Seq<Seq<char>> {
    text::pieces(s, ':').map_values(|p: Seq<char>| text::trimmed(p)).filter(
        |p: Seq<char>| p.len() > 0,
    )
}

/// What the entries of a branches string say.
pub open spec fn specs_in(s: Seq<char>) -> Seq<SpecView> {
    entries_in(s).map_values(|p: Seq<char>| spec_in(p))
}

fn parse_spec(entry: &[char]) -> (r: BranchSpec)
    ensures
        r@ == spec_in(entry@),
{
    if let Some(i) = find_last(entry, '=') {
        let m = copy_range(entry, i + 1, entry.len());
        assert(m@ =~= entry@.skip(i + 1));
        let l = to_lower(m.as_slice());
        if spells(l.as_slice(), "rw") || spells(l.as_slice(), "ro") || spells(l.as_slice(), "nc") {
            let p = copy_range(entry, 0, i);
            assert(p@ =~= entry@.take(i as int));
            return BranchSpec { pattern: p, mode: BranchMode::parse(m.as_slice()) };
        }
    }
    BranchSpec { pattern: copy_of(entry), mode: BranchMode::ReadWrite }
}

/// Takes a branches string apart.
pub fn parse_specs(s: &[char]) -> (r: Vec<BranchSpec>)
    ensures
        spec_views(r@) == specs_in(s@),
{
    reveal(Seq::filter);
    let parts = split(s, ':');
    let ghost all = text::pieces(s@, ':').map_values(|p: Seq<char>| text::trimmed(p));
    let ghost pred = |p: Seq<char>| p.len() > 0;
    let ghost read = |p: Seq<char>| spec_in(p);
    let mut r: Vec<BranchSpec> = Vec::new();
    let mut i: usize = 0;
    assert(all.len() == text::views(parts@).len());
    assert(all.take(0) =~= Seq::<Seq<char>>::empty());
    assert(spec_views(r@) =~= all.take(0).filter(pred).map_values(read));
    while i < parts.len()
        invariant
            i <= parts.len(),
            all == text::views(parts@).map_values(|p: Seq<char>| text::trimmed(p)),
            pred == (|p: Seq<char>| p.len() > 0),
            read == (|p: Seq<char>| spec_in(p)),
            spec_views(r@) == all.take(i as int).filter(pred).map_values(read),
        decreases parts.len() - i,
    {
        reveal(Seq::filter);
        let ghost before = spec_views(r@);
        let ghost kept = all.take(i as int).filter(pred);
        assert(all.take(i + 1).drop_last() =~= all.take(i as int));
        let entry = trim(parts[i].as_slice());
        assert(all.take(i + 1).last() == entry@);
        if entry.len() > 0 {
            let b = parse_spec(entry.as_slice());
            r.push(b);
            assert(spec_views(r@) =~= before.push(b@));
            assert(kept.push(entry@).map_values(read) =~= kept.map_values(read).push(b@));
        }
        i = i + 1;
    }
    assert(all.take(i as int) =~= all);
    r
}

// ---- wildcards -----------------------------------------------------------------------

/// The directory whose entries a pattern ranges over, and the name that they
/// are held against: only a wildcard in the basename is expanded.
pub open spec fn glob_in(pattern: Seq<char>) -> Option<(Seq<u8>, Seq<u8>)> {
    let p = encode_utf8(pattern);
    if !pattern.contains('*') {
        None
    } else {
        match (lineage::parent_of(p), paths::base_name(p)) {
            (Some(dir), Some(name)) => Some((dir, name)),
            _ => None,
        }
    }
}

/// A directory that was read, with the names found; none where it could not be.
#[derive(Debug)]
pub struct DirListing {
    pub dir: Vec<u8>,
    pub names: Vec<Vec<u8>>,
}

/// The names found in a directory, if it was read.
pub open spec fn listing_of(dirs: Seq<DirListing>, dir: Seq<u8>) -> Option<Seq<Seq<u8>>>
    decreases dirs.len(),
{
    if dirs.len() == 0 {
        None
    } else if dirs[0].dir@ == dir {
        Some(text::views(dirs[0].names@))
    } else {
        listing_of(dirs.skip(1), dir)
    }
}

/// The order of paths in a list, equal ones as they stand.
pub open spec fn path_order(all: Seq<Seq<u8>>) -> spec_fn(usize, usize) -> bool {
    |a: usize, b: usize|
        {
            let x = all[a as int];
            let y = all[b as int];
            if paths::components(x) != paths::components(y) {
                paths::path_le(x, y)
            } else {
                a <= b
            }
        }
}

/// The paths in their order.
pub open spec fn in_path_order(all: Seq<Seq<u8>>) -> Seq<Seq<u8>> {
    order::select(all.len(), |i: usize| true).sort_by(path_order(all)).map_values(
        |i: usize| all[i as int],
    )
}

/// The paths in `dir` whose names match.
pub open spec fn matches_in(dir: Seq<u8>, name: Seq<u8>, names: Seq<Seq<u8>>) -> Seq<Seq<u8>> {
    names.filter(
        |n: Seq<u8>| globs::matched(text::lossy_text(name), text::lossy_text(n)),
    ).map_values(|n: Seq<u8>| paths::joined(dir, n))
}

/// The paths that a pattern stands for: those that match, in order, or the
/// pattern itself where nothing matches or nothing is to be expanded.
pub open spec fn expanded(pattern: Seq<char>, dirs: Seq<DirListing>) -> Seq<Seq<u8>> {
    match glob_in(pattern) {
        Some((dir, name)) => {
            let found = match listing_of(dirs, dir) {
                Some(names) => matches_in(dir, name, names),
                None => Seq::empty(),
            };
            if found.len() == 0 {
                seq![encode_utf8(pattern)]
            } else {
                in_path_order(found)
            }
        },
        None => seq![encode_utf8(pattern)],
    }
}

/// The order of paths in a list is total.
pub proof fn lemma_path_order_total(all: Seq<Seq<u8>>)
    ensures
        total_ordering(path_order(all)),
{
    let r = path_order(all);
    assert forall|a: usize, b: usize| #[trigger] r(a, b) && #[trigger] r(b, a) implies a == b by {
        paths::lemma_path_le_total(all[a as int], all[b as int]);
    }
    assert forall|a: usize, b: usize| #[trigger] r(a, b) || #[trigger] r(b, a) by {
        paths::lemma_path_le_total(all[a as int], all[b as int]);
    }
    assert forall|a: usize, b: usize, c: usize| #[trigger] r(a, b) && #[trigger] r(b, c) implies r(
        a,
        c,
    ) by {
        let (x, y, z) = (all[a as int], all[b as int], all[c as int]);
        paths::lemma_path_le_total(x, y);
        paths::lemma_path_le_total(y, z);
        paths::lemma_path_le_total(x, z);
        if paths::path_le(x, y) && paths::path_le(y, z) {
            paths::lemma_path_le_transitive(x, y, z);
        }
        if paths::path_le(y, z) && paths::path_le(z, x) {
            paths::lemma_path_le_transitive(y, z, x);
        }
    }
}

struct PathOrder<'a> {
    all: &'a Vec<Vec<u8>>,
}

impl<'a> Precedence for PathOrder<'a> {
    closed spec fn leq(&self) -> spec_fn(usize, usize) -> bool {
        path_order(text::views(self.all@))
    }

    closed spec fn covers(&self, i: usize) -> bool {
        i < self.all@.len()
    }

    proof fn lemma_total(&self) {
        lemma_path_order_total(text::views(self.all@));
    }

    fn precedes(&self, a: usize, b: usize) -> (r: bool) {
        let x = self.all[a].as_slice();
        let y = self.all[b].as_slice();
        assert(text::views(self.all@)[a as int] == x@);
        assert(text::views(self.all@)[b as int] == y@);
        if !same_path(x, y) {
            path_ordered(x, y)
        } else {
            a <= b
        }
    }
}

fn sort_paths(all: &Vec<Vec<u8>>) -> (r: Vec<Vec<u8>>)
    ensures
        text::views(r@) == in_path_order(text::views(all@)),
        r@.len() == all@.len(),
{
    broadcast use group_to_multiset_ensures;

    let ghost views = text::views(all@);
    let n = all.len();
    let mut numbers: Vec<usize> = Vec::new();
    let mut i: usize = 0;
    while i < n
        invariant
            i <= n,
            numbers@ == order::select(i as nat, |i: usize| true),
            numbers@.len() == i,
            forall|k: int| 0 <= k < numbers@.len() ==> (#[trigger] numbers@[k]) < n,
        decreases n - i,
    {
        numbers.push(i);
        i = i + 1;
    }
    let by = PathOrder { all };
    assert(order::all_covered(&by, numbers@));
    let ghost unsorted = numbers@;
    let sorted = sort_indices(&by, numbers);
    proof {
        by.lemma_total();
        order::lemma_sorted_members(unsorted, by.leq());
    }
    let mut r: Vec<Vec<u8>> = Vec::new();
    let mut k: usize = 0;
    assert(text::views(r@) =~= in_path_order(views).take(0));
    while k < sorted.len()
        invariant
            k <= sorted.len(),
            by.all == all,
            views == text::views(all@),
            in_path_order(views) == sorted@.map_values(|i: usize| views[i as int]),
            order::all_covered(&by, sorted@),
            r@.len() == k,
            text::views(r@) == in_path_order(views).take(k as int),
        decreases sorted.len() - k,
    {
        assert(by.covers(sorted@[k as int]));
        let ghost before = text::views(r@);
        let p = copy_of(all[sorted[k]].as_slice());
        r.push(p);
        k = k + 1;
        assert(text::views(r@) =~= in_path_order(views).take(k as int)) by {
            assert(text::views(r@) =~= before.push(p@));
        }
    }
    assert(in_path_order(views).take(k as int) =~= in_path_order(views));
    r
}

/// Tells which directory a pattern ranges over and what its entries are held
/// against.
pub fn glob_parts(pattern: &[char]) -> (r: Option<(Vec<u8>, Vec<u8>)>)
    ensures
        match r {
            Some((dir, name)) => glob_in(pattern@) == Some((dir@, name@)),
            None => glob_in(pattern@) is None,
        },
{
    proof {
        text::lemma_first_of(pattern@, '*');
    }
    match find_first(pattern, '*') {
        Some(i) => {
            assert(pattern@[i as int] == '*');
        },
        None => {
            assert(!pattern@.contains('*'));
            return None;
        },
    }
    let p = bytes_of(text_of(pattern).as_str());
    match (parent(p.as_slice()), file_name(p.as_slice())) {
        (Some(dir), Some(name)) => Some((dir, name)),
        _ => None,
    }
}

/// Finds the names of a directory.
fn find_listing(dirs: &Vec<DirListing>, dir: &[u8]) -> (r: Option<usize>)
    ensures
        match r {
            Some(i) => i < dirs@.len() && listing_of(dirs@, dir@) == Some(
                text::views(dirs@[i as int].names@),
            ),
            None => listing_of(dirs@, dir@) is None,
        },
{
    let mut i: usize = 0;
    assert(dirs@.skip(0) =~= dirs@);
    while i < dirs.len()
        invariant
            i <= dirs.len(),
            listing_of(dirs@, dir@) == listing_of(dirs@.skip(i as int), dir@),
        decreases dirs.len() - i,
    {
        let ghost rest = dirs@.skip(i as int);
        assert(rest[0] == dirs@[i as int]);
        assert(rest.skip(1) =~= dirs@.skip(i + 1));
        if same_string(dirs[i].dir.as_slice(), dir) {
            return Some(i);
        }
        i = i + 1;
    }
    None
}

/// The paths in a directory whose names match.
fn find_matches(dir: &[u8], name: &[u8], names: &Vec<Vec<u8>>) -> (r: Vec<Vec<u8>>)
    ensures
        text::views(r@) == matches_in(dir@, name@, text::views(names@)),
{
    reveal(Seq::filter);
    let pat = shown(name);
    let ghost all = text::views(names@);
    let ghost pred = |n: Seq<u8>| globs::matched(text::lossy_text(name@), text::lossy_text(n));
    let ghost place = |n: Seq<u8>| paths::joined(dir@, n);
    let mut r: Vec<Vec<u8>> = Vec::new();
    let mut i: usize = 0;
    assert(all.take(0) =~= Seq::<Seq<u8>>::empty());
    assert(text::views(r@) =~= all.take(0).filter(pred).map_values(place));
    while i < names.len()
        invariant
            i <= names.len(),
            all == text::views(names@),
            pat@ == text::lossy_text(name@),
            pred == (|n: Seq<u8>| globs::matched(text::lossy_text(name@), text::lossy_text(n))),
            place == (|n: Seq<u8>| paths::joined(dir@, n)),
            text::views(r@) == all.take(i as int).filter(pred).map_values(place),
        decreases names.len() - i,
    {
        reveal(Seq::filter);
        let ghost before = text::views(r@);
        let ghost kept = all.take(i as int).filter(pred);
        assert(all.take(i + 1).drop_last() =~= all.take(i as int));
        assert(all.take(i + 1).last() == names@[i as int]@);
        let n = names[i].as_slice();
        if glob_match(pat.as_slice(), shown(n).as_slice()) {
            let p = join(dir, n);
            r.push(p);
            assert(text::views(r@) =~= before.push(p@));
            assert(kept.push(n@).map_values(place) =~= kept.map_values(place).push(p@));
        }
        i = i + 1;
    }
    assert(all.take(i as int) =~= all);
    r
}

/// Expands a wildcard in the basename of a pattern, given the directories read.
pub fn expand_glob(pattern: &[char], dirs: &Vec<DirListing>) -> (r: Vec<Vec<u8>>)
    ensures
        text::views(r@) == expanded(pattern@, dirs@),
{
    if let Some((dir, name)) = glob_parts(pattern) {
        if let Some(i) = find_listing(dirs, dir.as_slice()) {
            let found = find_matches(dir.as_slice(), name.as_slice(), &dirs[i].names);
            assert(text::views(found@).len() == found@.len());
            if found.len() > 0 {
                return sort_paths(&found);
            }
        }
    }
    let mut r: Vec<Vec<u8>> = Vec::new();
    r.push(bytes_of(text_of(pattern).as_str()));
    assert(text::views(r@) =~= seq![encode_utf8(pattern@)]);
    r
}

// ---- branches ------------------------------------------------------------------------

/// The branches that entries stand for.
pub open spec fn all_branches(specs: Seq<SpecView>, dirs: Seq<DirListing>) -> Seq<BranchView>
    decreases specs.len(),
{
    if specs.len() == 0 {
        Seq::empty()
    } else {
        all_branches(specs.drop_last(), dirs) + expanded(specs.last().pattern, dirs).map_values(
            |p: Seq<u8>| BranchView { path: p, mode: specs.last().mode },
        )
    }
}

/// One of the branches has the path.
pub open spec fn has_path(branches: Seq<BranchView>, path: Seq<u8>) -> bool {
    exists|i: int|
        0 <= i < branches.len() && paths::components((#[trigger] branches[i]).path)
            == paths::components(path)
}

/// The branches, each path once, in the order in which they first occur.
pub open spec fn distinct(branches: Seq<BranchView>) -> Seq<BranchView>
    decreases branches.len(),
{
    if branches.len() == 0 {
        Seq::empty()
    } else {
        let front = distinct(branches.drop_last());
        let b = branches.last();
        if has_path(front, b.path) {
            front
        } else {
            front.push(b)
        }
    }
}

/// The branches that a branches string stands for.
pub open spec fn branches_in(s: Seq<char>, dirs: Seq<DirListing>) -> Seq<BranchView> {
    distinct(all_branches(specs_in(s), dirs))
}

/// The first directory that has to be read before wildcards can be expanded.
pub open spec fn unread_dir(specs: Seq<SpecView>, dirs: Seq<DirListing>) -> Option<Seq<u8>>
    decreases specs.len(),
{
    if specs.len() == 0 {
        None
    } else {
        match glob_in(specs[0].pattern) {
            Some((dir, _)) => if listing_of(dirs, dir) is None {
                Some(dir)
            } else {
                unread_dir(specs.skip(1), dirs)
            },
            None => unread_dir(specs.skip(1), dirs),
        }
    }
}

fn find_unread(specs: &Vec<BranchSpec>, dirs: &Vec<DirListing>) -> (r: Option<Vec<u8>>)
    ensures
        match r {
            Some(d) => unread_dir(spec_views(specs@), dirs@) == Some(d@),
            None => unread_dir(spec_views(specs@), dirs@) is None,
        },
{
    let ghost all = spec_views(specs@);
    let mut i: usize = 0;
    assert(all.skip(0) =~= all);
    while i < specs.len()
        invariant
            i <= specs.len(),
            all == spec_views(specs@),
            unread_dir(all, dirs@) == unread_dir(all.skip(i as int), dirs@),
        decreases specs.len() - i,
    {
        let ghost rest = all.skip(i as int);
        assert(rest[0] == specs@[i as int]@);
        assert(rest.skip(1) =~= all.skip(i + 1));
        if let Some((dir, _)) = glob_parts(specs[i].pattern.as_slice()) {
            if find_listing(dirs, dir.as_slice()).is_none() {
                return Some(dir);
            }
        }
        i = i + 1;
    }
    None
}

fn path_known(branches: &Vec<Branch>, path: &[u8]) -> (r: bool)
    ensures
        r == has_path(branch_views(branches@), path@),
{
    let mut i: usize = 0;
    while i < branches.len()
        invariant
            i <= branches.len(),
            forall|k: int|
                0 <= k < i ==> paths::components((#[trigger] branch_views(branches@)[k]).path)
                    != paths::components(path@),
        decreases branches.len() - i,
    {
        assert(branch_views(branches@)[i as int] == branches@[i as int]@);
        if same_path(branches[i].path.as_slice(), path) {
            return true;
        }
        i = i + 1;
    }
    false
}

/// The branches that a branches string stands for, or else a directory that has
/// to be read first.
pub fn parse_branches(s: &[char], dirs: &Vec<DirListing>) -> (r: Result<Vec<Branch>, Vec<u8>>)
    ensures
        match r {
            Ok(v) => unread_dir(specs_in(s@), dirs@) is None && branch_views(v@) == branches_in(
                s@,
                dirs@,
            ),
            Err(d) => unread_dir(specs_in(s@), dirs@) == Some(d@),
        },
{
    let specs = parse_specs(s);
    if let Some(d) = find_unread(&specs, dirs) {
        return Err(d);
    }
    let ghost all = specs_in(s@);
    let mut out: Vec<Branch> = Vec::new();
    let mut i: usize = 0;
    assert(all.take(0) =~= Seq::<SpecView>::empty());
    assert(branch_views(out@) =~= Seq::<BranchView>::empty());
    while i < specs.len()
        invariant
            i <= specs.len(),
            all == spec_views(specs@),
            branch_views(out@) == distinct(all_branches(all.take(i as int), dirs@)),
        decreases specs.len() - i,
    {
        assert(all.take(i + 1).drop_last() =~= all.take(i as int));
        assert(all.take(i + 1).last() == specs@[i as int]@);
        let mode = specs[i].mode;
        let found = expand_glob(specs[i].pattern.as_slice(), dirs);
        let ghost front = all_branches(all.take(i as int), dirs@);
        let ghost mine = expanded(specs@[i as int].pattern@, dirs@).map_values(
            |p: Seq<u8>| BranchView { path: p, mode },
        );
        assert(all_branches(all.take(i + 1), dirs@) == front + mine);
        assert(mine.len() == found@.len()) by {
            assert(text::views(found@).len() == found@.len());
        }
        let mut k: usize = 0;
        assert(front + mine.take(0) =~= front);
        while k < found.len()
            invariant
                k <= found.len(),
                mine.len() == found@.len(),
                text::views(found@).map_values(|p: Seq<u8>| BranchView { path: p, mode }) == mine,
                branch_views(out@) == distinct(front + mine.take(k as int)),
            decreases found.len() - k,
        {
            let ghost before = branch_views(out@);
            let ghost done = front + mine.take(k as int);
            let p = found[k].as_slice();
            assert(text::views(found@)[k as int] == p@);
            assert(front + mine.take(k + 1) =~= done.push(BranchView { path: p@, mode }));
            assert(done.push(BranchView { path: p@, mode }).drop_last() =~= done);
            if !path_known(&out, p) {
                let b = Branch { path: copy_of(p), mode };
                out.push(b);
                assert(branch_views(out@) =~= before.push(b@));
            }
            k = k + 1;
        }
        assert(mine.take(k as int) =~= mine);
        i = i + 1;
    }
    assert(all.take(i as int) =~= all);
    Ok(out)
}

/// No path occurs twice among the branches.
pub proof fn branches_are_distinct(branches: Seq<BranchView>)
    ensures
        forall|i: int, j: int|
            0 <= i < j < distinct(branches).len() ==> paths::components(
                (#[trigger] distinct(branches)[i]).path,
            ) != paths::components((#[trigger] distinct(branches)[j]).path),
        forall|i: int|
            0 <= i < branches.len() ==> has_path(distinct(branches), #[trigger] branches[i].path),
    decreases branches.len(),
{
    if branches.len() > 0 {
        let front = branches.drop_last();
        branches_are_distinct(front);
        let d = distinct(branches);
        let f = distinct(front);
        assert forall|i: int| 0 <= i < branches.len() implies has_path(
            d,
            #[trigger] branches[i].path,
        ) by {
            if i < front.len() {
                assert(front[i] == branches[i]);
                assert(has_path(f, front[i].path));
                let k = choose|k: int|
                    0 <= k < f.len() && paths::components((#[trigger] f[k]).path)
                        == paths::components(front[i].path);
                assert(d[k] == f[k]);
            } else if !has_path(f, branches[i].path) {
                assert(d[d.len() - 1] == branches[i]);
            }
        }
    }
}

// ---- free space ----------------------------------------------------------------------

/// A size that may be missing or faulty, or else the default.
pub open spec fn size_or_default(s: Option<Seq<char>>) -> u64 {
    match s {
        Some(t) => match util::size_reading(t) {
            Ok(n) => n,
            Err(_) => DEFAULT_MINFREESPACE,
        },
        None => DEFAULT_MINFREESPACE,
    }
}

/// The `minfreespace` option, or else the default.
pub open spec fn minfreespace_in(opts: Map<Seq<char>, Option<Seq<char>>>) -> u64 {
    size_or_default(
        if opts.dom().contains("minfreespace"@) {
            opts["minfreespace"@]
        } else {
            None
        },
    )
}

fn read_size_or_default(s: Option<String>) -> (r: u64)
    ensures
        r == size_or_default(
            match s {
                Some(t) => Some(t@),
                None => None,
            },
        ),
{
    match s {
        Some(t) => match parse_size(t.as_str()) {
            Ok(n) => n,
            Err(_) => DEFAULT_MINFREESPACE,
        },
        None => DEFAULT_MINFREESPACE,
    }
}

/// The `minfreespace` option, or else the default.
pub fn minfreespace_from_opts(opts: &MountOptions) -> (r: u64)
    requires
        opts.wf(),
    ensures
        r == minfreespace_in(opts@),
{
    read_size_or_default(opts.get("minfreespace"))
}

// ---- command lines -------------------------------------------------------------------

/// The arguments of a command line: each one ends in a NUL.
pub open spec fn args_in(cmdline: Seq<u8>) -> Seq<Seq<char>> {
    text::filled(cmdline, 0u8).map_values(|a: Seq<u8>| text::lossy_text(a))
}

/// Takes a command line apart.
pub fn parse_args(cmdline: &[u8]) -> (r: Vec<Vec<char>>)
    ensures
        text::views(r@) == args_in(cmdline@),
{
    let parts = split_filled(cmdline, 0u8);
    let ghost all = args_in(cmdline@);
    let mut r: Vec<Vec<char>> = Vec::new();
    let mut i: usize = 0;
    assert(all.len() == parts@.len()) by {
        assert(text::views(parts@).len() == parts@.len());
    }
    assert(text::views(r@) =~= all.take(0));
    while i < parts.len()
        invariant
            i <= parts.len(),
            all.len() == parts@.len(),
            all == text::views(parts@).map_values(|a: Seq<u8>| text::lossy_text(a)),
            text::views(r@) == all.take(i as int),
        decreases parts.len() - i,
    {
        let ghost before = text::views(r@);
        assert(text::views(parts@)[i as int] == parts@[i as int]@);
        let a = shown(parts[i].as_slice());
        r.push(a);
        i = i + 1;
        assert(text::views(r@) =~= before.push(a@));
        assert(text::views(r@) =~= all.take(i as int));
    }
    assert(all.take(i as int) =~= all);
    r
}

/// The command is a mergerfs that names the mount point.
pub open spec fn serves(args: Seq<Seq<char>>, want: Seq<char>) -> bool {
    &&& args.len() > 0
    &&& paths::base_name(encode_utf8(args[0])) == Some(encode_utf8("mergerfs"@))
    &&& args.contains(want)
}

fn is_serving(args: &Vec<Vec<char>>, want: &[char]) -> (r: bool)
    ensures
        r == serves(text::views(args@), want@),
{
    let ghost all = text::views(args@);
    assert(all.len() == args@.len());
    if args.len() == 0 {
        return false;
    }
    assert(all[0] == args@[0]@);
    let exe = bytes_of(text_of(args[0].as_slice()).as_str());
    match file_name(exe.as_slice()) {
        Some(n) => {
            if !same_string(n.as_slice(), bytes_of("mergerfs").as_slice()) {
                return false;
            }
        },
        None => {
            return false;
        },
    }
    let mut i: usize = 0;
    while i < args.len()
        invariant
            i <= args.len(),
            all == text::views(args@),
            all.len() == args@.len(),
            paths::base_name(encode_utf8(all[0])) == Some(encode_utf8("mergerfs"@)),
            forall|k: int| 0 <= k < i ==> (#[trigger] all[k]) != want@,
        decreases args.len() - i,
    {
        assert(all[i as int] == args@[i as int]@);
        if same_string(args[i].as_slice(), want) {
            return true;
        }
        i = i + 1;
    }
    false
}

/// A process with its command line.
#[derive(Debug)]
pub struct Process {
    pub pid: i32,
    pub cmdline: Vec<u8>,
}

/// The first process that serves the mount point.
pub open spec fn backing_of(processes: Seq<Process>, want: Seq<char>) -> Option<i32>
    decreases processes.len(),
{
    if processes.len() == 0 {
        None
    } else if serves(args_in(processes[0].cmdline@), want) {
        Some(processes[0].pid)
    } else {
        backing_of(processes.skip(1), want)
    }
}

/// Finds the mergerfs process that serves the mount point.
pub fn find_backing_pid(processes: &Vec<Process>, want: &[char]) -> (r: Option<i32>)
    ensures
        r == backing_of(processes@, want@),
{
    let mut i: usize = 0;
    assert(processes@.skip(0) =~= processes@);
    while i < processes.len()
        invariant
            i <= processes.len(),
            backing_of(processes@, want@) == backing_of(processes@.skip(i as int), want@),
        decreases processes.len() - i,
    {
        let ghost rest = processes@.skip(i as int);
        assert(rest[0] == processes@[i as int]);
        assert(rest.skip(1) =~= processes@.skip(i + 1));
        let args = parse_args(processes[i].cmdline.as_slice());
        if is_serving(&args, want) {
            return Some(processes[i].pid);
        }
        i = i + 1;
    }
    None
}

/// The positional arguments, and the option strings put together: flags and
/// their values are no positional arguments.
pub open spec fn sorted_args(args: Seq<Seq<char>>) -> (Seq<Seq<char>>, Seq<char>)
    decreases args.len(),
{
    if args.len() == 0 {
        (Seq::empty(), Seq::empty())
    } else {
        let a = args[0];
        let rest = sorted_args(args.skip(1));
        if a == "-o"@ {
            if args.len() > 1 {
                let after = sorted_args(args.skip(2));
                (after.0, args[1] + seq![','] + after.1)
            } else {
                rest
            }
        } else if text::has_prefix(a, "-o"@) {
            (rest.0, a.skip(2) + seq![','] + rest.1)
        } else if text::has_prefix(a, "-"@) {
            rest
        } else {
            (seq![a] + rest.0, rest.1)
        }
    }
}

/// The arguments behind the name of the command.
pub open spec fn behind_name(args: Seq<Seq<char>>) -> Seq<Seq<char>> {
    if args.len() == 0 {
        args
    } else {
        args.skip(1)
    }
}

fn sort_args(args: &Vec<Vec<char>>) -> (r: (Vec<Vec<char>>, Vec<char>))
    ensures
        (text::views(r.0@), r.1@) == sorted_args(behind_name(text::views(args@))),
{
    let ghost all = text::views(args@);
    let ghost goal = sorted_args(behind_name(all));
    assert(all.len() == args@.len());
    let mut positionals: Vec<Vec<char>> = Vec::new();
    let mut opts: Vec<char> = Vec::new();
    if args.len() == 0 {
        assert(text::views(positionals@) =~= goal.0);
        assert(opts@ =~= goal.1);
        return (positionals, opts);
    }
    let dash_o = chars_of("-o");
    let dash = chars_of("-");
    proof {
        reveal_strlit("-o");
        reveal_strlit("-");
    }
    let mut i: usize = 1;
    assert(text::views(positionals@) + goal.0 =~= goal.0);
    assert(opts@ + goal.1 =~= goal.1);
    while i < args.len()
        invariant
            1 <= i <= args.len(),
            all == text::views(args@),
            all.len() == args@.len(),
            dash_o@ == "-o"@,
            dash@ == "-"@,
            dash_o@.len() == 2,
            goal.0 == text::views(positionals@) + sorted_args(all.skip(i as int)).0,
            goal.1 == opts@ + sorted_args(all.skip(i as int)).1,
        decreases args.len() - i,
    {
        let ghost rest = all.skip(i as int);
        let ghost pv = text::views(positionals@);
        let ghost ov = opts@;
        let a = args[i].as_slice();
        assert(rest[0] == a@);
        assert(rest.skip(1) =~= all.skip(i + 1));
        if same_string(a, dash_o.as_slice()) {
            if i + 1 < args.len() {
                let v = args[i + 1].as_slice();
                assert(rest[1] == v@);
                assert(rest.skip(2) =~= all.skip(i + 2));
                extend(&mut opts, v);
                opts.push(',');
                assert(ov + (v@ + seq![','] + sorted_args(all.skip(i + 2)).1) =~= opts@
                    + sorted_args(all.skip(i + 2)).1);
                i = i + 2;
            } else {
                i = i + 1;
            }
        } else if starts_with(a, dash_o.as_slice()) {
            let v = copy_range(a, 2, a.len());
            assert(v@ =~= a@.skip(2));
            extend(&mut opts, v.as_slice());
            opts.push(',');
            assert(ov + (v@ + seq![','] + sorted_args(all.skip(i + 1)).1) =~= opts@ + sorted_args(
                all.skip(i + 1),
            ).1);
            i = i + 1;
        } else if starts_with(a, dash.as_slice()) {
            i = i + 1;
        } else {
            positionals.push(copy_of(a));
            assert(text::views(positionals@) =~= pv.push(a@));
            assert(pv + (seq![a@] + sorted_args(all.skip(i + 1)).0) =~= text::views(positionals@)
                + sorted_args(all.skip(i + 1)).0);
            i = i + 1;
        }
    }
    assert(all.skip(i as int).len() == 0);
    assert(text::views(positionals@) =~= goal.0);
    assert(opts@ =~= goal.1);
    (positionals, opts)
}

/// The first positional argument that is not the mount point, or else the first
/// one.
pub open spec fn branch_arg(positionals: Seq<Seq<char>>, want: Seq<char>) -> Option<Seq<char>> {
    let others = positionals.filter(|p: Seq<char>| p != want);
    if others.len() > 0 {
        Some(others[0])
    } else if positionals.len() > 0 {
        Some(positionals[0])
    } else {
        None
    }
}

fn find_branch_arg(positionals: &Vec<Vec<char>>, want: &[char]) -> (r: Option<usize>)
    ensures
        match r {
            Some(i) => i < positionals@.len() && branch_arg(text::views(positionals@), want@)
                == Some(positionals@[i as int]@),
            None => branch_arg(text::views(positionals@), want@) is None,
        },
{
    reveal(Seq::filter);
    let ghost all = text::views(positionals@);
    let ghost pred = |p: Seq<char>| p != want@;
    assert(all.len() == positionals@.len());
    let mut i: usize = 0;
    assert(all.take(0) =~= Seq::<Seq<char>>::empty());
    while i < positionals.len()
        invariant
            i <= positionals.len(),
            all == text::views(positionals@),
            all.len() == positionals@.len(),
            pred == (|p: Seq<char>| p != want@),
            all.take(i as int).filter(pred) == Seq::<Seq<char>>::empty(),
        decreases positionals.len() - i,
    {
        reveal(Seq::filter);
        assert(all.take(i + 1).drop_last() =~= all.take(i as int));
        assert(all.take(i + 1).last() == positionals@[i as int]@);
        if !same_string(positionals[i].as_slice(), want) {
            proof {
                assert(all.take(i + 1).filter(pred) =~= seq![positionals@[i as int]@]);
                lemma_filter_first(all, pred, i + 1);
            }
            return Some(i);
        }
        i = i + 1;
    }
    assert(all.take(i as int) =~= all);
    if positionals.len() > 0 {
        assert(all[0] == positionals@[0]@);
        Some(0)
    } else {
        None
    }
}

proof fn lemma_filter_first(s: Seq<Seq<char>>, pred: spec_fn(Seq<char>) -> bool, n: int)
    requires
        0 <= n <= s.len(),
        s.take(n).filter(pred).len() > 0,
    ensures
        s.filter(pred).len() > 0,
        s.filter(pred)[0] == s.take(n).filter(pred)[0],
    decreases s.len() - n,
{
    reveal(Seq::filter);
    if n < s.len() {
        assert(s.take(n + 1).drop_last() =~= s.take(n));
        lemma_filter_first(s, pred, n + 1);
    } else {
        assert(s.take(n) =~= s);
    }
}

// ---- detection -----------------------------------------------------------------------

/// What is known of a mount. Of what may or may not be readable, the outer
/// `None` says that it has not been looked at.
#[derive(Debug)]
pub struct Evidence {
    /// The mount point, without links in it.
    pub mountpoint: Vec<u8>,
    /// `/proc/self/mountinfo`.
    pub mountinfo: Option<Option<String>>,
    /// The xattrs `user.mergerfs.branches` and `user.mergerfs.minfreespace` of
    /// the control file.
    pub xattrs: Option<(Option<Vec<u8>>, Option<Vec<u8>>)>,
    /// The processes that have a command line.
    pub processes: Option<Option<Vec<Process>>>,
    /// The command line of the process that serves the mount.
    pub cmdline: Option<Option<Vec<u8>>>,
    /// The directories that wildcards range over.
    pub dirs: Vec<DirListing>,
}

/// What has to be looked at.
#[derive(Debug)]
pub enum Request {
    Mountinfo,
    Xattrs,
    Processes,
    Cmdline(i32),
    Dir(Vec<u8>),
}

/// Why the branches cannot be told.
#[derive(Debug)]
pub enum DetectError {
    /// `/proc/self/mountinfo` cannot be read.
    NoMountinfo,
    NotMounted,
    /// Another filesystem is mounted there.
    NotMergerfs(String),
    /// `/proc` cannot be read.
    NoProcesses,
    /// The command line of the process that serves the mount cannot be read.
    NoCmdline,
    NoBranches,
}

/// What follows from the evidence.
#[derive(Debug)]
pub enum Detection {
    /// More has to be looked at.
    Needs(Request),
    Found(MergerfsMount),
    Fails(DetectError),
}

/// What follows from the evidence, with lists as sequences.
pub enum DetectionView {
    NeedsMountinfo,
    NeedsXattrs,
    NeedsProcesses,
    NeedsCmdline(i32),
    NeedsDir(Seq<u8>),
    Found(MountView),
    NoMountinfo,
    NotMounted,
    NotMergerfs(Seq<char>),
    NoProcesses,
    NoCmdline,
    NoBranches,
}

impl View for Detection {
    type V = DetectionView;

    open spec fn view(&self) -> DetectionView {
        match self {
            Detection::Needs(Request::Mountinfo) => DetectionView::NeedsMountinfo,
            Detection::Needs(Request::Xattrs) => DetectionView::NeedsXattrs,
            Detection::Needs(Request::Processes) => DetectionView::NeedsProcesses,
            Detection::Needs(Request::Cmdline(pid)) => DetectionView::NeedsCmdline(*pid),
            Detection::Needs(Request::Dir(d)) => DetectionView::NeedsDir(d@),
            Detection::Found(m) => DetectionView::Found(m@),
            Detection::Fails(DetectError::NoMountinfo) => DetectionView::NoMountinfo,
            Detection::Fails(DetectError::NotMounted) => DetectionView::NotMounted,
            Detection::Fails(DetectError::NotMergerfs(t)) => DetectionView::NotMergerfs(t@),
            Detection::Fails(DetectError::NoProcesses) => DetectionView::NoProcesses,
            Detection::Fails(DetectError::NoCmdline) => DetectionView::NoCmdline,
            Detection::Fails(DetectError::NoBranches) => DetectionView::NoBranches,
        }
    }
}

/// The filesystem is a mergerfs.
pub open spec fn is_mergerfs(fstype: Seq<char>) -> bool {
    fstype == "fuse.mergerfs"@ || fstype == "mergerfs"@
}

/// The last resort: the source field of the mount table.
pub open spec fn from_source(e: Evidence, entry: MountInfoView) -> DetectionView {
    let opts = mountinfo::options_of(Some(entry));
    let branches = branches_in(entry.source, e.dirs@);
    match unread_dir(specs_in(entry.source), e.dirs@) {
        Some(d) => DetectionView::NeedsDir(d),
        None => if branches.len() > 0 {
            DetectionView::Found(
                MountView {
                    mountpoint: e.mountpoint@,
                    branches,
                    minfreespace: minfreespace_in(opts),
                    raw_options: opts,
                },
            )
        } else {
            DetectionView::NoBranches
        },
    }
}

/// The fallback: the command line of the process that serves the mount. A
/// reserve of nothing there gives way to that of the mount table.
pub open spec fn from_cmdline(e: Evidence, entry: MountInfoView, cmdline: Seq<u8>) -> DetectionView {
    let (positionals, given) = sorted_args(behind_name(args_in(cmdline)));
    let opts = mountinfo::options_of(Some(entry));
    let reserve = minfreespace_in(options::option_string(given));
    match branch_arg(positionals, text::lossy_text(e.mountpoint@)) {
        Some(spec) => match unread_dir(specs_in(spec), e.dirs@) {
            Some(d) => DetectionView::NeedsDir(d),
            None => if branches_in(spec, e.dirs@).len() > 0 {
                DetectionView::Found(
                    MountView {
                        mountpoint: e.mountpoint@,
                        branches: branches_in(spec, e.dirs@),
                        minfreespace: if reserve == 0 {
                            minfreespace_in(opts)
                        } else {
                            reserve
                        },
                        raw_options: opts,
                    },
                )
            } else {
                from_source(e, entry)
            },
        },
        None => from_source(e, entry),
    }
}

/// Without branches from the control file: the process, then the mount table.
pub open spec fn from_proc(e: Evidence, entry: MountInfoView) -> DetectionView {
    match e.processes {
        None => DetectionView::NeedsProcesses,
        Some(None) => DetectionView::NoProcesses,
        Some(Some(ps)) => match backing_of(ps@, text::lossy_text(e.mountpoint@)) {
            Some(pid) => match e.cmdline {
                None => DetectionView::NeedsCmdline(pid),
                Some(None) => DetectionView::NoCmdline,
                Some(Some(c)) => from_cmdline(e, entry, c@),
            },
            None => from_source(e, entry),
        },
    }
}

/// What an xattr says, if it is there and text.
pub open spec fn xattr_text(raw: Option<Vec<u8>>) -> Option<Seq<char>> {
    match raw {
        Some(b) => util::xattr_string(b@),
        None => None,
    }
}

/// The authoritative source: the runtime control xattrs.
pub open spec fn from_xattrs(e: Evidence, entry: MountInfoView) -> DetectionView {
    match e.xattrs {
        None => DetectionView::NeedsXattrs,
        Some((raw, reserve)) => match xattr_text(raw) {
            Some(spec) => match unread_dir(specs_in(spec), e.dirs@) {
                Some(d) => DetectionView::NeedsDir(d),
                None => if branches_in(spec, e.dirs@).len() > 0 {
                    DetectionView::Found(
                        MountView {
                            mountpoint: e.mountpoint@,
                            branches: branches_in(spec, e.dirs@),
                            minfreespace: size_or_default(xattr_text(reserve)),
                            raw_options: mountinfo::options_of(Some(entry)),
                        },
                    )
                } else {
                    from_proc(e, entry)
                },
            },
            None => from_proc(e, entry),
        },
    }
}

/// What follows from the evidence.
pub open spec fn detected(e: Evidence) -> DetectionView {
    match e.mountinfo {
        None => DetectionView::NeedsMountinfo,
        Some(None) => DetectionView::NoMountinfo,
        Some(Some(table)) => match mountinfo::entry_of(table@, text::lossy_text(e.mountpoint@)) {
            None => DetectionView::NotMounted,
            Some(entry) => if is_mergerfs(entry.fstype) {
                from_xattrs(e, entry)
            } else {
                DetectionView::NotMergerfs(entry.fstype)
            },
        },
    }
}

fn last_resort(e: &Evidence, entry: mountinfo::MountInfoLine) -> (r: Detection)
    ensures
        r@ == from_source(*e, entry@),
        r matches Detection::Found(m) ==> m.raw_options.wf(),
{
    match parse_branches(entry.source.as_slice(), &e.dirs) {
        Err(d) => Detection::Needs(Request::Dir(d)),
        Ok(branches) => {
            assert(branch_views(branches@).len() == branches@.len());
            if branches.len() > 0 {
                let opts = mountinfo_options(&Some(entry));
                Detection::Found(
                    MergerfsMount {
                        mountpoint: copy_of(e.mountpoint.as_slice()),
                        branches,
                        minfreespace: minfreespace_from_opts(&opts),
                        raw_options: opts,
                    },
                )
            } else {
                Detection::Fails(DetectError::NoBranches)
            }
        },
    }
}

fn ask_cmdline(e: &Evidence, entry: mountinfo::MountInfoLine, cmdline: &[u8], want: &[char]) -> (r:
    Detection)
    requires
        want@ == text::lossy_text(e.mountpoint@),
    ensures
        r@ == from_cmdline(*e, entry@, cmdline@),
        r matches Detection::Found(m) ==> m.raw_options.wf(),
{
    let args = parse_args(cmdline);
    let (positionals, given) = sort_args(&args);
    match find_branch_arg(&positionals, want) {
        Some(i) => match parse_branches(positionals[i].as_slice(), &e.dirs) {
            Err(d) => Detection::Needs(Request::Dir(d)),
            Ok(branches) => {
                assert(branch_views(branches@).len() == branches@.len());
                if branches.len() > 0 {
                    let reserve = minfreespace_from_opts(&parse_opt_string(given.as_slice()));
                    let opts = mountinfo_options(&Some(entry));
                    Detection::Found(
                        MergerfsMount {
                            mountpoint: copy_of(e.mountpoint.as_slice()),
                            branches,
                            minfreespace: if reserve == 0 {
                                minfreespace_from_opts(&opts)
                            } else {
                                reserve
                            },
                            raw_options: opts,
                        },
                    )
                } else {
                    last_resort(e, entry)
                }
            },
        },
        None => last_resort(e, entry),
    }
}

fn ask_proc(e: &Evidence, entry: mountinfo::MountInfoLine, want: &[char]) -> (r: Detection)
    requires
        want@ == text::lossy_text(e.mountpoint@),
    ensures
        r@ == from_proc(*e, entry@),
        r matches Detection::Found(m) ==> m.raw_options.wf(),
{
    match &e.processes {
        None => Detection::Needs(Request::Processes),
        Some(None) => Detection::Fails(DetectError::NoProcesses),
        Some(Some(ps)) => match find_backing_pid(ps, want) {
            Some(pid) => match &e.cmdline {
                None => Detection::Needs(Request::Cmdline(pid)),
                Some(None) => Detection::Fails(DetectError::NoCmdline),
                Some(Some(c)) => ask_cmdline(e, entry, c.as_slice(), want),
            },
            None => last_resort(e, entry),
        },
    }
}

/// Tells the branches and the options of a mount, or what else has to be looked
/// at to tell them.
pub fn detect(e: &Evidence) -> (r: Detection)
    ensures
        r@ == detected(*e),
        r matches Detection::Found(m) ==> m.raw_options.wf(),
{
    let table = match &e.mountinfo {
        None => {
            return Detection::Needs(Request::Mountinfo);
        },
        Some(None) => {
            return Detection::Fails(DetectError::NoMountinfo);
        },
        Some(Some(t)) => t,
    };
    let want = shown(e.mountpoint.as_slice());
    let entry = match find_entry(table.as_str(), want.as_slice()) {
        Some(m) => m,
        None => {
            return Detection::Fails(DetectError::NotMounted);
        },
    };
    if !spells(entry.fstype.as_slice(), "fuse.mergerfs") && !spells(
        entry.fstype.as_slice(),
        "mergerfs",
    ) {
        return Detection::Fails(DetectError::NotMergerfs(text_of(entry.fstype.as_slice())));
    }
    let (raw, reserve) = match &e.xattrs {
        None => {
            return Detection::Needs(Request::Xattrs);
        },
        Some((raw, reserve)) => (raw, reserve),
    };
    if let Some(spec) = getxattr_str(raw) {
        let spec = chars_of(spec.as_str());
        match parse_branches(spec.as_slice(), &e.dirs) {
            Err(d) => {
                return Detection::Needs(Request::Dir(d));
            },
            Ok(branches) => {
                assert(branch_views(branches@).len() == branches@.len());
                if branches.len() > 0 {
                    return Detection::Found(
                        MergerfsMount {
                            mountpoint: copy_of(e.mountpoint.as_slice()),
                            branches,
                            minfreespace: read_size_or_default(getxattr_str(reserve)),
                            raw_options: mountinfo_options(&Some(entry)),
                        },
                    );
                }
            },
        }
    }
    ask_proc(e, entry, want.as_slice())
}

// ---- what holds of every detection -----------------------------------------------------

/// Nothing is asked for that is known already.
pub proof fn only_the_unknown_is_asked_for(e: Evidence)
    ensures
        match detected(e) {
            DetectionView::NeedsMountinfo => e.mountinfo is None,
            DetectionView::NeedsXattrs => e.xattrs is None,
            DetectionView::NeedsProcesses => e.processes is None,
            DetectionView::NeedsCmdline(_) => e.cmdline is None,
            DetectionView::NeedsDir(d) => listing_of(e.dirs@, d) is None,
            _ => true,
        },
{
    if let Some(Some(table)) = e.mountinfo {
        if let Some(entry) = mountinfo::entry_of(table@, text::lossy_text(e.mountpoint@)) {
            lemma_unread(specs_in(entry.source), e.dirs@);
            if let Some(Some(c)) = e.cmdline {
                let (positionals, _) = sorted_args(behind_name(args_in(c@)));
                if let Some(spec) = branch_arg(positionals, text::lossy_text(e.mountpoint@)) {
                    lemma_unread(specs_in(spec), e.dirs@);
                }
            }
            if let Some((raw, _)) = e.xattrs {
                if let Some(spec) = xattr_text(raw) {
                    lemma_unread(specs_in(spec), e.dirs@);
                }
            }
        }
    }
}

proof fn lemma_unread(specs: Seq<SpecView>, dirs: Seq<DirListing>)
    ensures
        unread_dir(specs, dirs) matches Some(d) ==> listing_of(dirs, d) is None,
    decreases specs.len(),
{
    if specs.len() > 0 {
        lemma_unread(specs.skip(1), dirs);
    }
}

/// A mount that is found is the one that was asked for, and it has branches, no
/// two of them with the same path.
pub proof fn found_mount_has_branches(e: Evidence)
    ensures
        detected(e) matches DetectionView::Found(m) ==> {
            &&& m.mountpoint == e.mountpoint@
            &&& m.branches.len() > 0
            &&& forall|i: int, j: int|
                0 <= i < j < m.branches.len() ==> paths::components((#[trigger] m.branches[i]).path)
                    != paths::components((#[trigger] m.branches[j]).path)
        },
{
    if let Some(Some(table)) = e.mountinfo {
        if let Some(entry) = mountinfo::entry_of(table@, text::lossy_text(e.mountpoint@)) {
            branches_are_distinct(all_branches(specs_in(entry.source), e.dirs@));
            if let Some(Some(c)) = e.cmdline {
                let (positionals, _) = sorted_args(behind_name(args_in(c@)));
                if let Some(spec) = branch_arg(positionals, text::lossy_text(e.mountpoint@)) {
                    branches_are_distinct(all_branches(specs_in(spec), e.dirs@));
                }
            }
            if let Some((raw, _)) = e.xattrs {
                if let Some(spec) = xattr_text(raw) {
                    branches_are_distinct(all_branches(specs_in(spec), e.dirs@));
                }
            }
        }
    }
}

/// Where the control file names branches, neither processes nor command lines
/// make a difference.
pub proof fn control_file_is_authoritative(a: Evidence, b: Evidence, entry: MountInfoView)
    requires
        a.mountpoint@ == b.mountpoint@,
        a.xattrs == b.xattrs,
        a.dirs@ == b.dirs@,
        a.xattrs matches Some((raw, _)) && xattr_text(raw) matches Some(spec) && branches_in(
            spec,
            a.dirs@,
        ).len() > 0,
    ensures
        from_xattrs(a, entry) == from_xattrs(b, entry),
{
}

} // verus!
