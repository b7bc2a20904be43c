//! Filesystem inventory: every regular-file instance living directly on a
//! branch, recorded with the metadata the policies need.

use crate::globs;
use crate::globs::glob_match;
use crate::lineage;
use crate::lineage::strip_prefix;
use crate::text;
use crate::text::{chars_of, shown};
use crate::tier::TierMap;
use vstd::prelude::*;

verus! {

/// One regular file on one branch. Times are nanoseconds since the epoch.
#[derive(Debug)]
pub struct FileInstance {
    /// Path relative to the branch root (no leading slash).
    pub rel: Vec<u8>,
    pub branch_idx: usize,
    pub tier: usize,
    pub size: u64,
    pub atime: i128,
    pub mtime: i128,
}

/// A file with its path as a sequence.
#[verifier::ext_equal]
pub struct FileView {
    pub rel: Seq<u8>,
    pub branch_idx: usize,
    pub tier: usize,
    pub size: u64,
    pub atime: i128,
    pub mtime: i128,
}

impl View for FileInstance {
    type V = FileView;

    open spec fn view(&self) -> FileView {
        FileView {
            rel: self.rel@,
            branch_idx: self.branch_idx,
            tier: self.tier,
            size: self.size,
            atime: self.atime,
            mtime: self.mtime,
        }
    }
}

/// The views of a list of files.
pub open spec fn file_views(v: Seq<FileInstance>) -> Seq<FileView> {
    v.map_values(|f: FileInstance| f@)
}

pub struct Inventory {
    pub files: Vec<FileInstance>,
}

/// Something found on a walk through a branch. Times are nanoseconds since the
/// epoch, where they could be told.
#[derive(Debug)]
pub struct Found {
    pub path: Vec<u8>,
    pub is_file: bool,
    pub size: u64,
    pub atime: Option<i128>,
    pub mtime: Option<i128>,
}

/// One of the patterns matches the whole of the relative path.
pub open spec fn excluded(rel: Seq<u8>, excludes: Seq<String>) -> bool {
    exists|k: int|
        0 <= k < excludes.len() && globs::matched(
            (#[trigger] excludes[k])@,
            text::lossy_text(rel),
        )
}

/// A time, or else the epoch.
pub open spec fn time_or_epoch(t: Option<i128>) -> i128 {
    match t {
        Some(n) => n,
        None => 0,
    }
}

/// What is recorded of something found on branch `b`: regular files only, and
/// none that is excluded.
pub open spec fn recorded(tiers: TierMap, b: int, excludes: Seq<String>, f: Found) -> Option<
    FileView,
> {
    match lineage::relative_to(f.path@, tiers.branches@[b].branch.path@) {
        Some(rel) => if f.is_file && !excluded(rel, excludes) {
            Some(
                FileView {
                    rel,
                    branch_idx: b as usize,
                    tier: tiers.branches@[b].tier,
                    size: f.size,
                    atime: time_or_epoch(f.atime),
                    mtime: time_or_epoch(f.mtime),
                },
            )
        } else {
            None
        },
        None => None,
    }
}

/// What is recorded of a walk through branch `b`.
pub open spec fn walked(
    tiers: TierMap,
    b: int,
    excludes: Seq<String>,
    found: Seq<Found>,
) -> Seq<FileView>
    decreases found.len(),
{
    if found.len() == 0 {
        Seq::empty()
    } else {
        let front = walked(tiers, b, excludes, found.drop_last());
        match recorded(tiers, b, excludes, found.last()) {
            Some(f) => front.push(f),
            None => front,
        }
    }
}

/// What is recorded of the first `n` branches; one that does not exist is passed
/// over.
pub open spec fn scanned(
    tiers: TierMap,
    excludes: Seq<String>,
    walks: Seq<Option<Vec<Found>>>,
    n: nat,
) -> Seq<FileView>
    decreases n,
{
    if n == 0 {
        Seq::empty()
    } else {
        let front = scanned(tiers, excludes, walks, (n - 1) as nat);
        match walks[n - 1] {
            Some(found) => front + walked(tiers, n - 1, excludes, found@),
            None => front,
        }
    }
}

/// Whether one of the patterns matches the whole of the relative path.
fn is_excluded(rel: &[u8], excludes: &Vec<String>) -> (r: bool)
    ensures
        r == excluded(rel@, excludes@),
{
    let name = shown(rel);
    let mut k: usize = 0;
    while k < excludes.len()
        invariant
            k <= excludes.len(),
            name@ == text::lossy_text(rel@),
            forall|j: int| 0 <= j < k ==> !globs::matched((#[trigger] excludes@[j])@, name@),
        decreases excludes.len() - k,
    {
        let pat = chars_of(excludes[k].as_str());
        if glob_match(pat.as_slice(), name.as_slice()) {
            assert(globs::matched(excludes@[k as int]@, name@));
            return true;
        }
        k = k + 1;
    }
    false
}

fn record(tiers: &TierMap, b: usize, excludes: &Vec<String>, f: &Found) -> (r: Option<FileInstance>)
    requires
        b < tiers.branches@.len(),
    ensures
        match r {
            Some(x) => recorded(*tiers, b as int, excludes@, *f) == Some(x@),
            None => recorded(*tiers, b as int, excludes@, *f) is None,
        },
{
    if !f.is_file {
        return None;
    }
    let tb = tiers.branch(b);
    match strip_prefix(f.path.as_slice(), tb.branch.path.as_slice()) {
        Some(rel) => {
            if is_excluded(rel.as_slice(), excludes) {
                return None;
            }
            Some(
                FileInstance {
                    rel,
                    branch_idx: b,
                    tier: tb.tier,
                    size: f.size,
                    atime: match f.atime {
                        Some(t) => t,
                        None => 0,
                    },
                    mtime: match f.mtime {
                        Some(t) => t,
                        None => 0,
                    },
                },
            )
        },
        None => None,
    }
}

impl Inventory {
    /// The inventory of the branches, given what was found on a walk through
    /// each one; `None` for a branch that does not exist.
    pub fn scan(
        tiers: &TierMap,
        excludes: &Vec<String>,
        walks: &Vec<Option<Vec<Found>>>,
    ) -> (r: Inventory)
        requires
            walks@.len() == tiers.branches@.len(),
        ensures
            file_views(r.files@) == scanned(*tiers, excludes@, walks@, walks@.len()),
    {
        let mut files: Vec<FileInstance> = Vec::new();
        let mut b: usize = 0;
        assert(file_views(files@) =~= Seq::<FileView>::empty());
        while b < walks.len()
            invariant
                b <= walks@.len() == tiers.branches@.len(),
                file_views(files@) == scanned(*tiers, excludes@, walks@, b as nat),
            decreases walks.len() - b,
        {
            let ghost front = file_views(files@);
            if let Some(found) = &walks[b] {
                let ghost all = found@;
                let mut i: usize = 0;
                assert(all.take(0) =~= Seq::<Found>::empty());
                assert(front + walked(*tiers, b as int, excludes@, all.take(0)) =~= front);
                while i < found.len()
                    invariant
                        i <= found.len(),
                        all == found@,
                        b < tiers.branches@.len(),
                        file_views(files@) == front + walked(
                            *tiers,
                            b as int,
                            excludes@,
                            all.take(i as int),
                        ),
                    decreases found.len() - i,
                {
                    assert(all.take(i + 1).drop_last() =~= all.take(i as int));
                    assert(all.take(i + 1).last() == found@[i as int]);
                    let ghost before = file_views(files@);
                    let ghost mine = walked(*tiers, b as int, excludes@, all.take(i as int));
                    if let Some(f) = record(tiers, b, excludes, &found[i]) {
                        files.push(f);
                        assert(file_views(files@) =~= before.push(f@));
                        assert(front + mine.push(f@) =~= (front + mine).push(f@));
                    }
                    i = i + 1;
                }
                assert(all.take(i as int) =~= all);
            }
            b = b + 1;
        }
        Inventory { files }
    }
}

/// The files of a walk are on its branch and its tier, and none is excluded.
proof fn lemma_walked(tiers: TierMap, b: int, excludes: Seq<String>, found: Seq<Found>)
    requires
        0 <= b < tiers.branches@.len(),
    ensures
        forall|k: int|
            0 <= k < walked(tiers, b, excludes, found).len() ==> {
                let f = #[trigger] walked(tiers, b, excludes, found)[k];
                &&& f.branch_idx == b
                &&& f.tier == tiers.branches@[b].tier
                &&& !excluded(f.rel, excludes)
            },
    decreases found.len(),
{
    if found.len() > 0 {
        assert(tiers.branches.len() == tiers.branches@.len());
        lemma_walked(tiers, b, excludes, found.drop_last());
        let front = walked(tiers, b, excludes, found.drop_last());
        let all = walked(tiers, b, excludes, found);
        assert forall|k: int| 0 <= k < all.len() implies {
            let f = #[trigger] all[k];
            &&& f.branch_idx == b
            &&& f.tier == tiers.branches@[b].tier
            &&& !excluded(f.rel, excludes)
        } by {
            if k < front.len() {
                assert(all[k] == front[k]);
            } else {
                assert(recorded(tiers, b, excludes, found.last()) == Some(all[k]));
            }
        }
    }
}

/// Every file on record is on one of the branches and on the tier of that
/// branch, and none is excluded.
pub proof fn files_are_in_place(
    tiers: TierMap,
    excludes: Seq<String>,
    walks: Seq<Option<Vec<Found>>>,
    n: nat,
)
    requires
        n <= walks.len(),
        walks.len() == tiers.branches@.len(),
    ensures
        forall|k: int|
            0 <= k < scanned(tiers, excludes, walks, n).len() ==> {
                let f = #[trigger] scanned(tiers, excludes, walks, n)[k];
                &&& f.branch_idx < n
                &&& f.tier == tiers.branches@[f.branch_idx as int].tier
                &&& !excluded(f.rel, excludes)
            },
    decreases n,
{
    if n > 0 {
        files_are_in_place(tiers, excludes, walks, (n - 1) as nat);
        if let Some(found) = walks[n - 1] {
            lemma_walked(tiers, n - 1, excludes, found@);
            let front = scanned(tiers, excludes, walks, (n - 1) as nat);
            let mine = walked(tiers, n - 1, excludes, found@);
            assert forall|k: int| 0 <= k < scanned(tiers, excludes, walks, n).len() implies {
                let f = #[trigger] scanned(tiers, excludes, walks, n)[k];
                &&& f.branch_idx < n
                &&& f.tier == tiers.branches@[f.branch_idx as int].tier
                &&& !excluded(f.rel, excludes)
            } by {
                if k < front.len() {
                    assert(scanned(tiers, excludes, walks, n)[k] == front[k]);
                } else {
                    assert(scanned(tiers, excludes, walks, n)[k] == mine[k - front.len()]);
                }
            }
        }
    }
}

/// Something found below branch `b` is to be on record: it is a regular file
/// below the branch's root, and no pattern matches the whole of its relative path.
pub open spec fn belongs_on_record(
    tiers: TierMap,
    b: int,
    excludes: Seq<String>,
    f: Found,
) -> bool {
    &&& f.is_file
    &&& lineage::relative_to(f.path@, tiers.branches@[b].branch.path@) is Some
    &&& forall|k: int|
        0 <= k < excludes.len() ==> !globs::matched(
            (#[trigger] excludes[k])@,
            text::lossy_text(
                lineage::relative_to(f.path@, tiers.branches@[b].branch.path@)->0,
            ),
        )
}

/// The record says of the file what was found: its path below the branch, its
/// size, and its times as far as they are known.
pub open spec fn says_what_was_found(tiers: TierMap, b: int, f: Found, r: FileView) -> bool {
    &&& lineage::relative_to(f.path@, tiers.branches@[b].branch.path@) == Some(r.rel)
    &&& r.branch_idx == b
    &&& r.tier == tiers.branches@[b].tier
    &&& r.size == f.size
    &&& f.atime matches Some(t) ==> r.atime == t
    &&& f.mtime matches Some(t) ==> r.mtime == t
    &&& f.atime is None ==> r.atime == 0
    &&& f.mtime is None ==> r.mtime == 0
}

/// How many of the first `j` things found are to be on record.
pub open spec fn count_recorded(
    tiers: TierMap,
    b: int,
    excludes: Seq<String>,
    found: Seq<Found>,
    j: nat,
) -> nat
    decreases j,
{
    if j == 0 {
        0
    } else {
        count_recorded(tiers, b, excludes, found, (j - 1) as nat) + if belongs_on_record(
            tiers,
            b,
            excludes,
            found[j - 1],
        ) {
            1nat
        } else {
            0
        }
    }
}

proof fn lemma_count_local(
    tiers: TierMap,
    b: int,
    excludes: Seq<String>,
    found: Seq<Found>,
    j: nat,
)
    requires
        j < found.len(),
    ensures
        count_recorded(tiers, b, excludes, found.drop_last(), j) == count_recorded(
            tiers,
            b,
            excludes,
            found,
            j,
        ),
    decreases j,
{
    if j > 0 {
        lemma_count_local(tiers, b, excludes, found, (j - 1) as nat);
        assert(found.drop_last()[j - 1] == found[j - 1]);
    }
}

/// A walk puts on record what belongs there, each file once and in the order in
/// which it was found, and nothing else; and the record says what was found.
pub proof fn walk_is_recorded(tiers: TierMap, b: int, excludes: Seq<String>, found: Seq<Found>)
    requires
        0 <= b < tiers.branches@.len(),
    ensures
        walked(tiers, b, excludes, found).len() == count_recorded(
            tiers,
            b,
            excludes,
            found,
            found.len(),
        ),
        forall|j: int|
            0 <= j < found.len() && belongs_on_record(tiers, b, excludes, #[trigger] found[j]) ==> {
                let k = count_recorded(tiers, b, excludes, found, j as nat);
                &&& k < walked(tiers, b, excludes, found).len()
                &&& says_what_was_found(
                    tiers,
                    b,
                    found[j],
                    walked(tiers, b, excludes, found)[k as int],
                )
            },
    decreases found.len(),
{
    assert(tiers.branches.len() == tiers.branches@.len());
    if found.len() > 0 {
        let front = found.drop_last();
        let n = front.len();
        walk_is_recorded(tiers, b, excludes, front);
        lemma_count_local(tiers, b, excludes, found, n);
        let all = walked(tiers, b, excludes, found);
        let r = recorded(tiers, b, excludes, found.last());
        assert(found[found.len() - 1] == found.last());
        assert(r is Some <==> belongs_on_record(tiers, b, excludes, found.last()));
        assert forall|j: int|
            0 <= j < found.len() && belongs_on_record(
                tiers,
                b,
                excludes,
                #[trigger] found[j],
            ) implies {
            let k = count_recorded(tiers, b, excludes, found, j as nat);
            &&& k < all.len()
            &&& says_what_was_found(tiers, b, found[j], all[k as int])
        } by {
            if j < n {
                assert(front[j] == found[j]);
                lemma_count_local(tiers, b, excludes, found, j as nat);
            }
        }
    }
}

/// How many files of the first `n` branches are on record.
pub open spec fn count_on_branches(
    tiers: TierMap,
    excludes: Seq<String>,
    walks: Seq<Option<Vec<Found>>>,
    n: nat,
) -> nat
    decreases n,
{
    if n == 0 {
        0
    } else {
        count_on_branches(tiers, excludes, walks, (n - 1) as nat) + match walks[n - 1] {
            Some(found) => count_recorded(tiers, n - 1, excludes, found@, found@.len()),
            None => 0,
        }
    }
}

/// An inventory has every file that belongs on record once, branch by branch and
/// in the order in which it was found, and nothing else; and it says of each what
/// was found.
pub proof fn scan_is_complete(
    tiers: TierMap,
    excludes: Seq<String>,
    walks: Seq<Option<Vec<Found>>>,
    n: nat,
)
    requires
        n <= walks.len(),
        walks.len() == tiers.branches@.len(),
    ensures
        scanned(tiers, excludes, walks, n).len() == count_on_branches(tiers, excludes, walks, n),
        forall|b: int, j: int|
            #![trigger walks[b]->0@[j]]
            0 <= b < n && walks[b] is Some && 0 <= j < walks[b]->0@.len() && belongs_on_record(
                tiers,
                b,
                excludes,
                walks[b]->0@[j],
            ) ==> {
                let k = count_on_branches(tiers, excludes, walks, b as nat) + count_recorded(
                    tiers,
                    b,
                    excludes,
                    walks[b]->0@,
                    j as nat,
                );
                &&& k < scanned(tiers, excludes, walks, n).len()
                &&& says_what_was_found(
                    tiers,
                    b,
                    walks[b]->0@[j],
                    scanned(tiers, excludes, walks, n)[k as int],
                )
            },
    decreases n,
{
    if n > 0 {
        scan_is_complete(tiers, excludes, walks, (n - 1) as nat);
        let front = scanned(tiers, excludes, walks, (n - 1) as nat);
        let all = scanned(tiers, excludes, walks, n);
        if let Some(found) = walks[n - 1] {
            walk_is_recorded(tiers, n - 1, excludes, found@);
        }
        assert forall|b: int, j: int|
            #![trigger walks[b]->0@[j]]
            0 <= b < n && walks[b] is Some && 0 <= j < walks[b]->0@.len() && belongs_on_record(
                tiers,
                b,
                excludes,
                walks[b]->0@[j],
            ) implies {
            let k = count_on_branches(tiers, excludes, walks, b as nat) + count_recorded(
                tiers,
                b,
                excludes,
                walks[b]->0@,
                j as nat,
            );
            &&& k < all.len()
            &&& says_what_was_found(tiers, b, walks[b]->0@[j], all[k as int])
        } by {
            let k = count_on_branches(tiers, excludes, walks, b as nat) + count_recorded(
                tiers,
                b,
                excludes,
                walks[b]->0@,
                j as nat,
            );
            if b < n - 1 {
                assert(says_what_was_found(tiers, b, walks[b]->0@[j], front[k as int]));
                assert(all[k as int] == front[k as int]);
            } else {
                let mine = walked(tiers, b, excludes, walks[b]->0@);
                let i = count_recorded(tiers, b, excludes, walks[b]->0@, j as nat);
                assert(says_what_was_found(tiers, b, walks[b]->0@[j], mine[i as int]));
                assert(all[k as int] == mine[i as int]);
            }
        }
    }
}

/// The fields of a record are those of its file.
pub proof fn records_are_files(files: Seq<FileInstance>, i: int)
    requires
        0 <= i < files.len(),
    ensures
        file_views(files).len() == files.len(),
        file_views(files)[i].rel == files[i].rel@,
        file_views(files)[i].branch_idx == files[i].branch_idx,
        file_views(files)[i].tier == files[i].tier,
        file_views(files)[i].size == files[i].size,
        file_views(files)[i].atime == files[i].atime,
        file_views(files)[i].mtime == files[i].mtime,
{
}

} // verus!
