//! The walk over the branches of a pool.
//!
//! A [`Scan`] decides what becomes of what is found: the caller lists the
//! directories that it asks for and removes the files that it names.

use crate::lineage;
use crate::lineage::strip_prefix;
use crate::text;
use crate::text::{bytes_of, copy_of, starts_with};
use vstd::prelude::*;
#[allow(unused_imports)]
use vstd::utf8::*;

verus! {

/// What marks the temporary file of a copy; what follows tells copies apart.
pub const TMP_PREFIX: &'static str = ".tierd.tmp.";

/// The age in seconds beyond which a temporary file is a leftover: one day.
pub const STALE_SECS: i64 = 86_400;

/// A regular file found on a branch. Times are seconds since the epoch.
#[derive(Debug)]
pub struct FileMeta {
    /// Path relative to the branch root == path within the merged view.
    pub rel: Vec<u8>,
    /// Index into the flattened branch list.
    pub branch: usize,
    pub size: u64,
    pub atime: i64,
    pub mtime: i64,
    pub nlink: u64,
}

/// A file with its path as a sequence.
pub struct FileMetaView {
    pub rel: Seq<u8>,
    pub branch: usize,
    pub size: u64,
    pub atime: i64,
    pub mtime: i64,
    pub nlink: u64,
}

impl View for FileMeta {
    type V = FileMetaView;

    open spec fn view(&self) -> FileMetaView {
        FileMetaView {
            rel: self.rel@,
            branch: self.branch,
            size: self.size,
            atime: self.atime,
            mtime: self.mtime,
            nlink: self.nlink,
        }
    }
}

/// The views of a list of files.
pub open spec fn meta_views(v: Seq<FileMeta>) -> Seq<FileMetaView> {
    v.map_values(|f: FileMeta| f@)
}

/// The kinds of directory entry.
#[derive(Debug, Clone, Copy, PartialEq, Eq, Structural)]
pub enum Kind {
    Dir,
    File,
    /// A symbolic link or a special file.
    Other,
}

/// An entry of a directory, as it is itself and not what it may point to.
#[derive(Debug)]
pub struct Entry {
    pub path: Vec<u8>,
    pub name: Vec<u8>,
    pub kind: Kind,
    pub size: u64,
    pub atime: i64,
    pub mtime: i64,
    pub nlink: u64,
}

/// What becomes of an entry.
pub enum Treatment {
    /// Its entries are looked at in turn.
    Descend,
    /// It is a leftover and is removed.
    Remove,
    /// It is recorded.
    Record(FileMetaView),
    /// It is left alone.
    Ignore,
}

/// The name is that of a temporary file.
pub open spec fn is_temp(name: Seq<u8>) -> bool {
    text::has_prefix(name, encode_utf8(TMP_PREFIX@))
}

/// What becomes of an entry found below `root`: symlinks and special files are
/// left alone, and so are temporary files, unless they are more than a day old
/// and this is no dry run.
pub open spec fn treated(
    e: Entry,
    root: Seq<u8>,
    branch: usize,
    now: i64,
    dry_run: bool,
) -> Treatment {
    if e.kind == Kind::Dir {
        Treatment::Descend
    } else if e.kind == Kind::Other {
        Treatment::Ignore
    } else if is_temp(e.name@) {
        if now - e.mtime > STALE_SECS && !dry_run {
            Treatment::Remove
        } else {
            Treatment::Ignore
        }
    } else {
        match lineage::relative_to(e.path@, root) {
            Some(rel) => Treatment::Record(
                FileMetaView {
                    rel,
                    branch,
                    size: e.size,
                    atime: e.atime,
                    mtime: e.mtime,
                    nlink: e.nlink,
                },
            ),
            None => Treatment::Ignore,
        }
    }
}

/// A walk under way.
#[derive(Debug)]
pub struct Scan {
    /// The branch that is walked.
    pub branch: usize,
    pub root: Vec<u8>,
    /// The directories that are still to be listed, the next one last.
    pub stack: Vec<Vec<u8>>,
    /// No directory of the branch has been listed yet.
    pub first: bool,
    /// The files found so far.
    pub files: Vec<FileMeta>,
    pub now: i64,
    pub dry_run: bool,
}

/// A walk with its paths as sequences.
#[verifier::ext_equal]
pub struct ScanView {
    pub branch: usize,
    pub root: Seq<u8>,
    pub stack: Seq<Seq<u8>>,
    pub first: bool,
    pub files: Seq<FileMetaView>,
    pub now: i64,
    pub dry_run: bool,
}

impl View for Scan {
    type V = ScanView;

    open spec fn view(&self) -> ScanView {
        ScanView {
            branch: self.branch,
            root: self.root@,
            stack: text::views(self.stack@),
            first: self.first,
            files: meta_views(self.files@),
            now: self.now,
            dry_run: self.dry_run,
        }
    }
}

/// The walk after a directory was listed.
pub open spec fn listed(w: ScanView, entries: Seq<Entry>) -> ScanView
    decreases entries.len(),
{
    if entries.len() == 0 {
        ScanView { first: false, ..w }
    } else {
        let v = listed(w, entries.drop_last());
        let e = entries.last();
        match treated(e, w.root, w.branch, w.now, w.dry_run) {
            Treatment::Descend => ScanView { stack: v.stack.push(e.path@), ..v },
            Treatment::Record(f) => ScanView { files: v.files.push(f), ..v },
            _ => v,
        }
    }
}

/// The files to remove of a directory that was listed.
pub open spec fn leftovers(w: ScanView, entries: Seq<Entry>) -> Seq<Seq<u8>>
    decreases entries.len(),
{
    if entries.len() == 0 {
        Seq::empty()
    } else {
        let front = leftovers(w, entries.drop_last());
        let e = entries.last();
        match treated(e, w.root, w.branch, w.now, w.dry_run) {
            Treatment::Remove => front.push(e.path@),
            _ => front,
        }
    }
}

enum Fate {
    Descend,
    Remove,
    Record(FileMeta),
    Ignore,
}

impl Scan {
    /// Begins a walk at the given time.
    pub fn begin(now: i64, dry_run: bool) -> (r: Self)
        ensures
            r@ == (ScanView {
                branch: 0,
                root: Seq::empty(),
                stack: Seq::empty(),
                first: false,
                files: Seq::empty(),
                now,
                dry_run,
            }),
    {
        let r = Scan {
            branch: 0,
            root: Vec::new(),
            stack: Vec::new(),
            first: false,
            files: Vec::new(),
            now,
            dry_run,
        };
        assert(r@ =~= ScanView {
            branch: 0,
            root: Seq::empty(),
            stack: Seq::empty(),
            first: false,
            files: Seq::empty(),
            now,
            dry_run,
        });
        r
    }

    /// Turns to another branch.
    pub fn enter_branch(&mut self, branch: usize, root: &[u8])
        ensures
            final(self)@ == (ScanView {
                branch,
                root: root@,
                stack: seq![root@],
                first: true,
                ..old(self)@
            }),
    {
        let mut stack: Vec<Vec<u8>> = Vec::new();
        stack.push(copy_of(root));
        self.branch = branch;
        self.root = copy_of(root);
        self.stack = stack;
        self.first = true;
        assert(self@.stack =~= seq![root@]);
    }

    /// Tells which directory is to be listed next, if there is one.
    pub fn next_dir(&mut self) -> (r: Option<Vec<u8>>)
        ensures
            match r {
                Some(d) => old(self)@.stack.len() > 0 && d@ == old(self)@.stack.last()
                    && final(self)@ == (ScanView {
                    stack: old(self)@.stack.drop_last(),
                    ..old(self)@
                }),
                None => old(self)@.stack.len() == 0 && final(self)@ == old(self)@,
            },
    {
        let ghost before = self@;
        let r = self.stack.pop();
        proof {
            if before.stack.len() > 0 {
                assert(self@.stack =~= before.stack.drop_last());
            } else {
                assert(self@.stack =~= before.stack);
            }
        }
        r
    }

    /// Whether it ends the walk that a directory cannot be listed.
    ///
    /// A missing branch root is a hard error: planning against a partial view
    /// could trigger a mass migration. A subdirectory that vanished or cannot be
    /// read is passed over.
    pub fn is_fatal(&self) -> (r: bool)
        ensures
            r == self@.first,
    {
        self.first
    }

    fn treat(&self, e: &Entry) -> (r: Fate)
        ensures
            match (r, treated(*e, self.root@, self.branch, self.now, self.dry_run)) {
                (Fate::Descend, Treatment::Descend) => true,
                (Fate::Remove, Treatment::Remove) => true,
                (Fate::Record(f), Treatment::Record(g)) => f@ == g,
                (Fate::Ignore, Treatment::Ignore) => true,
                _ => false,
            },
    {
        match e.kind {
            Kind::Dir => Fate::Descend,
            Kind::Other => Fate::Ignore,
            Kind::File => {
                let prefix = bytes_of(TMP_PREFIX);
                if starts_with(e.name.as_slice(), prefix.as_slice()) {
                    // Left over from an interrupted copy; remove if old.
                    if self.now as i128 - e.mtime as i128 > STALE_SECS as i128 && !self.dry_run {
                        Fate::Remove
                    } else {
                        Fate::Ignore
                    }
                } else {
                    match strip_prefix(e.path.as_slice(), self.root.as_slice()) {
                        Some(rel) => Fate::Record(
                            FileMeta {
                                rel,
                                branch: self.branch,
                                size: e.size,
                                atime: e.atime,
                                mtime: e.mtime,
                                nlink: e.nlink,
                            },
                        ),
                        None => Fate::Ignore,
                    }
                }
            },
        }
    }

    /// Takes note of the entries of a directory and tells which files are to be
    /// removed.
    pub fn take_listing(&mut self, entries: &Vec<Entry>) -> (r: Vec<Vec<u8>>)
        ensures
            final(self)@ == listed(old(self)@, entries@),
            text::views(r@) == leftovers(old(self)@, entries@),
    {
        let ghost start = self@;
        let mut r: Vec<Vec<u8>> = Vec::new();
        self.first = false;
        let mut i: usize = 0;
        assert(entries@.take(0) =~= Seq::<Entry>::empty());
        assert(text::views(r@) =~= Seq::<Seq<u8>>::empty());
        assert(self@ =~= listed(start, entries@.take(0)));
        while i < entries.len()
            invariant
                i <= entries.len(),
                start == old(self)@,
                self.root@ == start.root,
                self.branch == start.branch,
                self.now == start.now,
                self.dry_run == start.dry_run,
                self@ == listed(start, entries@.take(i as int)),
                text::views(r@) == leftovers(start, entries@.take(i as int)),
            decreases entries.len() - i,
        {
            assert(entries@.take(i + 1).drop_last() =~= entries@.take(i as int));
            let e = &entries[i];
            assert(entries@.take(i + 1).last() == *e);
            let ghost before = self@;
            let ghost gone = text::views(r@);
            match self.treat(e) {
                Fate::Descend => {
                    self.stack.push(copy_of(e.path.as_slice()));
                    assert(self@.stack =~= before.stack.push(e.path@));
                },
                Fate::Remove => {
                    r.push(copy_of(e.path.as_slice()));
                    assert(text::views(r@) =~= gone.push(e.path@));
                },
                Fate::Record(f) => {
                    self.files.push(f);
                    assert(self@.files =~= before.files.push(f@));
                },
                Fate::Ignore => {},
            }
            i = i + 1;
            assert(self@ =~= listed(start, entries@.take(i as int)));
        }
        assert(entries@.take(i as int) =~= entries@);
        r
    }
}

/// Every file on record is on one of the first `n` branches.
pub open spec fn on_branches(files: Seq<FileMetaView>, n: int) -> bool {
    forall|k: int| 0 <= k < files.len() ==> (#[trigger] files[k]).branch < n
}

/// Listing a directory records nothing but files of its branch, and forgets
/// neither files on record nor directories that are still to be listed.
pub proof fn listing_adds_only_its_branch(w: ScanView, entries: Seq<Entry>, n: int)
    requires
        on_branches(w.files, n),
        w.branch < n,
    ensures
        on_branches(listed(w, entries).files, n),
        text::has_prefix(listed(w, entries).files, w.files),
        text::has_prefix(listed(w, entries).stack, w.stack),
    decreases entries.len(),
{
    if entries.len() > 0 {
        listing_adds_only_its_branch(w, entries.drop_last(), n);
        let v = listed(w, entries.drop_last());
        let u = listed(w, entries);
        assert(u.files.take(w.files.len() as int) =~= v.files.take(w.files.len() as int));
        assert(u.stack.take(w.stack.len() as int) =~= v.stack.take(w.stack.len() as int));
    } else {
        assert(w.files.take(w.files.len() as int) =~= w.files);
        assert(w.stack.take(w.stack.len() as int) =~= w.stack);
    }
}

/// A dry run removes nothing.
pub proof fn dry_run_removes_nothing(w: ScanView, entries: Seq<Entry>)
    requires
        w.dry_run,
    ensures
        leftovers(w, entries).len() == 0,
    decreases entries.len(),
{
    if entries.len() > 0 {
        dry_run_removes_nothing(w, entries.drop_last());
    }
}

/// What is removed is a temporary file that is more than a day old.
pub proof fn only_stale_temps_are_removed(w: ScanView, entries: Seq<Entry>, k: int)
    requires
        0 <= k < leftovers(w, entries).len(),
    ensures
        exists|j: int|
            {
                &&& 0 <= j < entries.len()
                &&& (#[trigger] entries[j]).path@ == leftovers(w, entries)[k]
                &&& entries[j].kind == Kind::File
                &&& is_temp(entries[j].name@)
                &&& w.now - entries[j].mtime > STALE_SECS
                &&& !w.dry_run
            },
    decreases entries.len(),
{
    let front = entries.drop_last();
    let gone = leftovers(w, front);
    if k < gone.len() {
        only_stale_temps_are_removed(w, front, k);
        let j = choose|j: int|
            {
                &&& 0 <= j < front.len()
                &&& (#[trigger] front[j]).path@ == gone[k]
                &&& front[j].kind == Kind::File
                &&& is_temp(front[j].name@)
                &&& w.now - front[j].mtime > STALE_SECS
                &&& !w.dry_run
            };
        assert(entries[j] == front[j]);
    } else {
        assert(entries[entries.len() - 1] == entries.last());
    }
}

/// The entry is a regular file that is no temporary one, below the root.
pub open spec fn is_proper(w: ScanView, e: Entry) -> bool {
    &&& e.kind == Kind::File
    &&& !(encode_utf8(".tierd.tmp."@).len() <= e.name@.len() && e.name@.take(
        encode_utf8(".tierd.tmp."@).len() as int,
    ) == encode_utf8(".tierd.tmp."@))
    &&& lineage::relative_to(e.path@, w.root) is Some
}

/// The entry is a temporary file that is more than a day old.
pub open spec fn is_leftover(w: ScanView, e: Entry) -> bool {
    &&& e.kind == Kind::File
    &&& encode_utf8(".tierd.tmp."@).len() <= e.name@.len()
    &&& e.name@.take(encode_utf8(".tierd.tmp."@).len() as int) == encode_utf8(".tierd.tmp."@)
    &&& w.now - e.mtime > 86_400
}

/// How many of the entries are directories, proper files and leftovers.
pub open spec fn tallied(w: ScanView, entries: Seq<Entry>) -> (nat, nat, nat)
    decreases entries.len(),
{
    if entries.len() == 0 {
        (0, 0, 0)
    } else {
        let (d, f, l) = tallied(w, entries.drop_last());
        let e = entries.last();
        (
            if e.kind == Kind::Dir {
                d + 1
            } else {
                d
            },
            if is_proper(w, e) {
                f + 1
            } else {
                f
            },
            if is_leftover(w, e) && !w.dry_run {
                l + 1
            } else {
                l
            },
        )
    }
}

/// Of a directory that is listed every regular file is recorded, as it was found,
/// every directory is to be listed, and every leftover is to be removed unless
/// this is a dry run: each once, in the order of the entries, and nothing else.
pub proof fn listing_is_complete(w: ScanView, entries: Seq<Entry>)
    ensures
        ({
            let v = listed(w, entries);
            let (d, f, l) = tallied(w, entries);
            &&& v.stack.len() == w.stack.len() + d
            &&& v.files.len() == w.files.len() + f
            &&& leftovers(w, entries).len() == l
            &&& !v.first
            &&& v.branch == w.branch && v.root == w.root && v.now == w.now && v.dry_run == w.dry_run
        }),
        forall|j: int|
            #![trigger entries[j]]
            0 <= j < entries.len() ==> {
                let (d, f, l) = tallied(w, entries.take(j));
                let e = entries[j];
                let v = listed(w, entries);
                &&& e.kind == Kind::Dir ==> d + w.stack.len() < v.stack.len() && v.stack[(w.stack.len()
                    + d) as int] == e.path@
                &&& is_proper(w, e) ==> {
                    &&& f + w.files.len() < v.files.len()
                    &&& lineage::relative_to(e.path@, w.root) == Some(
                        v.files[(w.files.len() + f) as int].rel,
                    )
                    &&& v.files[(w.files.len() + f) as int].branch == w.branch
                    &&& v.files[(w.files.len() + f) as int].size == e.size
                    &&& v.files[(w.files.len() + f) as int].atime == e.atime
                    &&& v.files[(w.files.len() + f) as int].mtime == e.mtime
                    &&& v.files[(w.files.len() + f) as int].nlink == e.nlink
                }
                &&& is_leftover(w, e) && !w.dry_run ==> l < leftovers(w, entries).len()
                    && leftovers(w, entries)[l as int] == e.path@
            },
    decreases entries.len(),
{
    if entries.len() > 0 {
        let front = entries.drop_last();
        let n = entries.len() - 1;
        listing_is_complete(w, front);
        assert(entries.take(n) =~= front);
        assert(entries[n] == entries.last());
        assert forall|j: int| #![trigger entries[j]] 0 <= j < n implies entries[j] == front[j]
            && entries.take(j) == front.take(j) by {
            assert(entries.take(j) =~= front.take(j));
        }
    }
}

/// The fields of a record are those of its file.
pub proof fn records_are_files(files: Seq<FileMeta>, i: int)
    requires
        0 <= i < files.len(),
    ensures
        meta_views(files).len() == files.len(),
        meta_views(files)[i].rel == files[i].rel@,
        meta_views(files)[i].branch == files[i].branch,
        meta_views(files)[i].size == files[i].size,
        meta_views(files)[i].atime == files[i].atime,
        meta_views(files)[i].mtime == files[i].mtime,
        meta_views(files)[i].nlink == files[i].nlink,
{
}

} // verus!
