//! Decides how planned moves are executed against the branch filesystems.
//!
//! A move preserves the file's relative path under the destination branch. If
//! source and destination share a filesystem the move is a `rename(2)`;
//! otherwise it is a copy to a temporary file (fsynced), a metadata/atime/mtime
//! restore, an atomic rename into place, and an unlink of the source. Both
//! atime and mtime are preserved: atime so a move does not reset the very
//! signal tiering decisions rely on, mtime so the file keeps its position in
//! any mtime-ordered view of the merged pool.
//!
//! Moving a file also perturbs the *containing directories*: unlinking the
//! source bumps the source directory's mtime, the rename-in bumps the
//! destination directory's, and any directory created on the destination
//! branch is born with the current time. mergerfs surfaces a directory's
//! times from one of its branches, so without care every cycle would reshuffle
//! mtime-ordered directory listings. Each move therefore snapshots the
//! directory times it is about to disturb and restores them afterwards, and
//! gives any freshly-created destination directory the mtime of its
//! counterpart on the source branch.
//!
//! A [`Transfer`] decides the steps of one move: the caller carries out the
//! step that it asks for and reports what came of it.

use crate::lineage;
use crate::lineage::{strip_prefix, with_file_name};
use crate::paths;
use crate::paths::{file_name, join};
use crate::policy::Move;
use crate::text::{bytes_of, copy_of, extend};
use crate::tier::TierMap;
use vstd::prelude::*;
#[allow(unused_imports)]
use vstd::utf8::*;

pub mod laws;

verus! {

/// atime+mtime of a path, captured so it can be restored after we disturb it.
/// Nanoseconds since the epoch.
#[derive(Debug, Clone, Copy, PartialEq, Eq, Structural)]
pub struct DirTimes {
    pub atime: i128,
    pub mtime: i128,
}

/// What is to be done next.
#[derive(Debug, Clone, Copy, PartialEq, Eq, Structural)]
pub enum Step {
    /// Look at the source, not following links.
    StatSource,
    /// Take the times of the source's directory.
    SnapshotSourceDir,
    /// Take the times of the destination's directory, if it exists.
    SnapshotDestDir,
    /// Look whether the destination's directory, or so many levels above it,
    /// exists.
    ProbeDir(usize),
    /// Take the times of its counterpart on the source branch.
    SnapshotCounterpart(usize),
    /// Take the times of the existing directory in which others are created.
    SnapshotBase(usize),
    /// Create the destination's directory with all its ancestors.
    CreateDirs,
    /// Look which filesystem the destination's directory is on.
    StatDestDir,
    /// Rename the source to the destination.
    Rename,
    /// Remove a temporary file that a crash may have left.
    ClearTemp,
    OpenSource,
    /// Create the temporary file, which must not exist.
    CreateTemp,
    CopyData,
    /// Bring the temporary file to the disk.
    Sync,
    /// Remove the temporary file.
    Discard,
    SetMode,
    SetOwner,
    SetTimes,
    /// Rename the temporary file to the destination.
    Publish,
    RemoveSource,
    /// Give a created directory its times.
    RestoreCreated(usize, DirTimes),
    /// Give the directory in which others were created its times back.
    RestoreBase(usize, DirTimes),
    /// Give the destination's directory its times back.
    RestoreDestDir(DirTimes),
    /// Look whether the source's directory still exists.
    ProbeSourceDir,
    /// Give the source's directory its times back.
    RestoreSourceDir(DirTimes),
    /// Nothing: the move has ended.
    Report(Ending),
}

/// How a move ended.
#[derive(Debug, Clone, Copy, PartialEq, Eq, Structural)]
pub enum Ending {
    Moved,
    /// The source is no longer a regular file.
    NotRegular,
    /// A step failed.
    Failed,
}

/// What came of a step.
#[derive(Debug, Clone, Copy, PartialEq, Eq, Structural)]
pub enum Reply {
    /// It was done, or what was looked for exists.
    Done,
    /// It failed, or what was looked for does not exist.
    Failed,
    /// The source exists: whether it is a regular file, and its filesystem.
    Stat(bool, u64),
    /// The filesystem of a directory.
    Device(u64),
    /// The times of a directory.
    Times(DirTimes),
}

/// The state of one move.
#[derive(Debug)]
pub struct Transfer {
    pub step: Step,
    /// The number of directories from the destination's up to the root.
    pub levels: usize,
    /// The filesystem of the source.
    pub device: u64,
    pub source_times: Option<DirTimes>,
    pub dest_times: Option<DirTimes>,
    /// The times of the counterparts of the directories to be created.
    pub created: Vec<Option<DirTimes>>,
    /// The times of the existing directory in which they are created.
    pub base_times: Option<DirTimes>,
}

/// A state with its list as a sequence.
#[verifier::ext_equal]
pub struct TransferView {
    pub step: Step,
    pub levels: usize,
    pub device: u64,
    pub source_times: Option<DirTimes>,
    pub dest_times: Option<DirTimes>,
    pub created: Seq<Option<DirTimes>>,
    pub base_times: Option<DirTimes>,
}

impl View for Transfer {
    type V = TransferView;

    open spec fn view(&self) -> TransferView {
        TransferView {
            step: self.step,
            levels: self.levels,
            device: self.device,
            source_times: self.source_times,
            dest_times: self.dest_times,
            created: self.created@,
            base_times: self.base_times,
        }
    }
}

/// The times that a reply gives.
pub open spec fn times_in(r: Reply) -> Option<DirTimes> {
    match r {
        Reply::Times(t) => Some(t),
        _ => None,
    }
}

/// The step with which directory `k` is looked at: past the root, or where one
/// exists, the missing ones are created.
pub open spec fn enter_dir(k: int, levels: usize) -> Step {
    if k < levels {
        Step::ProbeDir(k as usize)
    } else if levels > 0 {
        Step::CreateDirs
    } else {
        Step::StatDestDir
    }
}

/// The step that restores what is left to be restored, from created directory
/// `k` on.
pub open spec fn restore_from(m: TransferView, k: int) -> Step
    decreases m.created.len() - k,
{
    if 0 <= k < m.created.len() {
        match m.created[k] {
            Some(t) => Step::RestoreCreated(k as usize, t),
            None => restore_from(m, k + 1),
        }
    } else {
        match m.base_times {
            Some(t) => Step::RestoreBase(m.created.len() as usize, t),
            None => restore_dest(m),
        }
    }
}

/// The step that restores the destination's directory, if its times are known,
/// or else what follows.
pub open spec fn restore_dest(m: TransferView) -> Step {
    match m.dest_times {
        Some(t) => Step::RestoreDestDir(t),
        None => restore_source(m),
    }
}

/// The step that restores the source's directory, if its times are known.
pub open spec fn restore_source(m: TransferView) -> Step {
    match m.source_times {
        Some(_) => Step::ProbeSourceDir,
        None => Step::Report(Ending::Moved),
    }
}

pub open spec fn if_done(r: Reply, next: Step) -> Step {
    if r == Reply::Done {
        next
    } else {
        Step::Report(Ending::Failed)
    }
}

/// What follows from the reply to the present step.
pub open spec fn next_step(m: TransferView, r: Reply) -> Step {
    match m.step {
        Step::StatSource => match r {
            Reply::Stat(is_file, _) => if is_file {
                Step::SnapshotSourceDir
            } else {
                Step::Report(Ending::NotRegular)
            },
            _ => Step::Report(Ending::Failed),
        },
        Step::SnapshotSourceDir => Step::SnapshotDestDir,
        Step::SnapshotDestDir => enter_dir(0, m.levels),
        Step::ProbeDir(k) => if r != Reply::Done {
            Step::SnapshotCounterpart(k)
        } else if k > 0 {
            Step::SnapshotBase(k)
        } else {
            Step::CreateDirs
        },
        Step::SnapshotCounterpart(k) => enter_dir(k + 1, m.levels),
        Step::SnapshotBase(_) => Step::CreateDirs,
        Step::CreateDirs => if_done(r, Step::StatDestDir),
        // Same filesystem: atomic rename, nothing to copy.
        Step::StatDestDir => if r == Reply::Device(m.device) {
            Step::Rename
        } else {
            Step::ClearTemp
        },
        Step::Rename => if_done(r, restore_from(m, 0)),
        Step::ClearTemp => Step::OpenSource,
        Step::OpenSource => if r == Reply::Done {
            Step::CreateTemp
        } else {
            Step::Discard
        },
        Step::CreateTemp => if r == Reply::Done {
            Step::CopyData
        } else {
            Step::Discard
        },
        Step::CopyData => if r == Reply::Done {
            Step::Sync
        } else {
            Step::Discard
        },
        Step::Sync => if r == Reply::Done {
            Step::SetMode
        } else {
            Step::Discard
        },
        Step::Discard => Step::Report(Ending::Failed),
        // Mode, owner and times are kept where possible.
        Step::SetMode => Step::SetOwner,
        Step::SetOwner => Step::SetTimes,
        Step::SetTimes => Step::Publish,
        Step::Publish => if_done(r, Step::RemoveSource),
        Step::RemoveSource => if_done(r, restore_from(m, 0)),
        Step::RestoreCreated(k, _) => restore_from(m, k + 1),
        Step::RestoreBase(_, _) => restore_dest(m),
        Step::RestoreDestDir(_) => restore_source(m),
        Step::ProbeSourceDir => match m.source_times {
            Some(t) => if r == Reply::Done {
                Step::RestoreSourceDir(t)
            } else {
                Step::Report(Ending::Moved)
            },
            None => Step::Report(Ending::Moved),
        },
        Step::RestoreSourceDir(_) => Step::Report(Ending::Moved),
        Step::Report(e) => Step::Report(e),
    }
}

/// The state after the reply.
pub open spec fn advanced(m: TransferView, r: Reply) -> TransferView {
    TransferView {
        step: next_step(m, r),
        levels: m.levels,
        device: match (m.step, r) {
            (Step::StatSource, Reply::Stat(_, d)) => d,
            _ => m.device,
        },
        source_times: if m.step == Step::SnapshotSourceDir {
            times_in(r)
        } else {
            m.source_times
        },
        dest_times: if m.step == Step::SnapshotDestDir {
            times_in(r)
        } else {
            m.dest_times
        },
        created: match m.step {
            Step::SnapshotCounterpart(_) => m.created.push(times_in(r)),
            _ => m.created,
        },
        base_times: match m.step {
            Step::SnapshotBase(_) => times_in(r),
            _ => m.base_times,
        },
    }
}

/// The state in which a move begins.
pub open spec fn begun(levels: usize) -> TransferView {
    TransferView {
        step: Step::StatSource,
        levels,
        device: 0,
        source_times: None,
        dest_times: None,
        created: Seq::empty(),
        base_times: None,
    }
}

impl Transfer {
    /// The step in hand names a directory that there is, and the directories
    /// looked at so far are the ones to be created.
    pub open spec fn wf(self) -> bool {
        &&& self.created@.len() <= self.levels
        &&& self.base_times is Some ==> self.created@.len() < self.levels
        &&& match self.step {
            Step::StatSource | Step::SnapshotSourceDir | Step::SnapshotDestDir => {
                self.created@.len() == 0 && self.base_times is None
            },
            Step::ProbeDir(k) | Step::SnapshotCounterpart(k) => {
                k == self.created@.len() && k < self.levels && self.base_times is None
            },
            Step::SnapshotBase(k) | Step::RestoreBase(k, _) => {
                k == self.created@.len() && k < self.levels
            },
            Step::RestoreCreated(k, _) => k < self.created@.len(),
            _ => true,
        }
    }

    /// Begins a move to a directory that has `levels` directories on the way
    /// from it up to the root, itself included.
    pub fn begin(levels: usize) -> (r: Self)
        ensures
            r@ == begun(levels),
            r.wf(),
    {
        let r = Transfer {
            step: Step::StatSource,
            levels,
            device: 0,
            source_times: None,
            dest_times: None,
            created: Vec::new(),
            base_times: None,
        };
        assert(r@ =~= begun(levels));
        r
    }

    fn enter_dir(&self, k: usize) -> (r: Step)
        ensures
            r == enter_dir(k as int, self.levels),
    {
        if k < self.levels {
            Step::ProbeDir(k)
        } else if self.levels > 0 {
            Step::CreateDirs
        } else {
            Step::StatDestDir
        }
    }

    fn restore_source(&self) -> (r: Step)
        ensures
            r == restore_source(self@),
    {
        match self.source_times {
            Some(_) => Step::ProbeSourceDir,
            None => Step::Report(Ending::Moved),
        }
    }

    fn restore_dest(&self) -> (r: Step)
        ensures
            r == restore_dest(self@),
    {
        match self.dest_times {
            Some(t) => Step::RestoreDestDir(t),
            None => self.restore_source(),
        }
    }

    fn restore_from(&self, k: usize) -> (r: Step)
        requires
            k <= self.created@.len(),
        ensures
            r == restore_from(self@, k as int),
            match r {
                Step::RestoreCreated(j, _) => j < self.created@.len(),
                Step::RestoreBase(j, _) => j == self.created@.len() && self.base_times is Some,
                Step::RestoreDestDir(_) | Step::ProbeSourceDir | Step::Report(_) => true,
                _ => false,
            },
        decreases self.created@.len() - k,
    {
        if k < self.created.len() {
            match self.created[k] {
                Some(t) => Step::RestoreCreated(k, t),
                None => self.restore_from(k + 1),
            }
        } else {
            match self.base_times {
                Some(t) => Step::RestoreBase(self.created.len(), t),
                None => self.restore_dest(),
            }
        }
    }

    /// Takes note of what came of the present step and tells the next one.
    pub fn next(&mut self, r: Reply)
        requires
            old(self).wf(),
        ensures
            final(self)@ == advanced(old(self)@, r),
            final(self).wf(),
    {
        let done = r == Reply::Done;
        let times = match r {
            Reply::Times(t) => Some(t),
            _ => None,
        };
        let failed = Step::Report(Ending::Failed);
        let moved = Step::Report(Ending::Moved);
        match self.step {
            Step::StatSource => {
                match r {
                    Reply::Stat(is_file, device) => {
                        self.device = device;
                        self.step = if is_file {
                            Step::SnapshotSourceDir
                        } else {
                            Step::Report(Ending::NotRegular)
                        };
                    },
                    _ => {
                        self.step = failed;
                    },
                }
            },
            Step::SnapshotSourceDir => {
                self.source_times = times;
                self.step = Step::SnapshotDestDir;
            },
            Step::SnapshotDestDir => {
                self.dest_times = times;
                self.step = self.enter_dir(0);
            },
            Step::ProbeDir(k) => {
                self.step = if !done {
                    Step::SnapshotCounterpart(k)
                } else if k > 0 {
                    Step::SnapshotBase(k)
                } else {
                    Step::CreateDirs
                };
            },
            Step::SnapshotCounterpart(k) => {
                self.created.push(times);
                self.step = self.enter_dir(k + 1);
            },
            Step::SnapshotBase(_) => {
                self.base_times = times;
                self.step = Step::CreateDirs;
            },
            Step::CreateDirs => {
                self.step = if done {
                    Step::StatDestDir
                } else {
                    failed
                };
            },
            Step::StatDestDir => {
                self.step = match r {
                    Reply::Device(d) => if d == self.device {
                        Step::Rename
                    } else {
                        Step::ClearTemp
                    },
                    _ => Step::ClearTemp,
                };
            },
            Step::Rename | Step::RemoveSource => {
                self.step = if done {
                    self.restore_from(0)
                } else {
                    failed
                };
            },
            Step::ClearTemp => {
                self.step = Step::OpenSource;
            },
            Step::OpenSource => {
                self.step = if done {
                    Step::CreateTemp
                } else {
                    Step::Discard
                };
            },
            Step::CreateTemp => {
                self.step = if done {
                    Step::CopyData
                } else {
                    Step::Discard
                };
            },
            Step::CopyData => {
                self.step = if done {
                    Step::Sync
                } else {
                    Step::Discard
                };
            },
            Step::Sync => {
                self.step = if done {
                    Step::SetMode
                } else {
                    Step::Discard
                };
            },
            Step::Discard => {
                self.step = failed;
            },
            Step::SetMode => {
                self.step = Step::SetOwner;
            },
            Step::SetOwner => {
                self.step = Step::SetTimes;
            },
            Step::SetTimes => {
                self.step = Step::Publish;
            },
            Step::Publish => {
                self.step = if done {
                    Step::RemoveSource
                } else {
                    failed
                };
            },
            Step::RestoreCreated(k, _) => {
                assert(k < self.created.len());
                self.step = self.restore_from(k + 1);
            },
            Step::RestoreBase(_, _) => {
                self.step = self.restore_dest();
            },
            Step::RestoreDestDir(_) => {
                self.step = self.restore_source();
            },
            Step::ProbeSourceDir => {
                self.step = match self.source_times {
                    Some(t) => if done {
                        Step::RestoreSourceDir(t)
                    } else {
                        moved
                    },
                    None => moved,
                };
            },
            Step::RestoreSourceDir(_) => {
                self.step = moved;
            },
            Step::Report(_) => {},
        }
        assert(self@ =~= advanced(old(self)@, r));
    }
}

// ---- paths -------------------------------------------------------------------------

/// The name of the temporary file for a destination with the given name.
pub open spec fn temp_name(name: Option<Seq<u8>>) -> Seq<u8> {
    encode_utf8(".mergerfs-tier."@) + (match name {
        Some(n) => n,
        None => Seq::empty(),
    }) + encode_utf8(".tmp"@)
}

/// The temporary file for a destination, in the same directory.
pub fn tmp_path(dst: &[u8]) -> (r: Vec<u8>)
    ensures
        r@ == lineage::renamed(dst@, temp_name(paths::base_name(dst@))),
{
    let mut name = bytes_of(".mergerfs-tier.");
    let ghost start = name@;
    if let Some(n) = file_name(dst) {
        extend(&mut name, n.as_slice());
    } else {
        assert(name@ =~= start + Seq::<u8>::empty());
    }
    let tail = bytes_of(".tmp");
    extend(&mut name, tail.as_slice());
    with_file_name(dst, name.as_slice())
}

/// The directory of the source branch that corresponds to one of the
/// destination branch.
pub open spec fn counterpart_of(dir: Seq<u8>, dst_root: Seq<u8>, src_root: Seq<u8>) -> Option<
    Seq<u8>,
> {
    match lineage::relative_to(dir, dst_root) {
        Some(rel) => Some(paths::joined(src_root, rel)),
        None => None,
    }
}

/// The directory of the source branch that corresponds to one of the
/// destination branch.
pub fn counterpart(dir: &[u8], dst_root: &[u8], src_root: &[u8]) -> (r: Option<Vec<u8>>)
    ensures
        match r {
            Some(p) => counterpart_of(dir@, dst_root@, src_root@) == Some(p@),
            None => counterpart_of(dir@, dst_root@, src_root@) is None,
        },
{
    match strip_prefix(dir, dst_root) {
        Some(rel) => Some(join(src_root, rel.as_slice())),
        None => None,
    }
}

/// Where a move goes from and to.
#[derive(Debug)]
pub struct Route {
    pub src_root: Vec<u8>,
    pub dst_root: Vec<u8>,
    pub src: Vec<u8>,
    pub dst: Vec<u8>,
}

// ---- a list of moves -----------------------------------------------------------------

/// What was done in a cycle.
#[derive(Debug)]
pub struct DispatchStats {
    pub moved: usize,
    pub bytes: u64,
    pub failed: usize,
}

impl Default for DispatchStats {
    fn default() -> (r: Self)
        ensures
            r == (DispatchStats { moved: 0, bytes: 0, failed: 0 }),
    {
        DispatchStats { moved: 0, bytes: 0, failed: 0 }
    }
}

/// Dispatches the moves of a cycle.
pub struct Dispatcher<'a> {
    pub tiers: &'a TierMap,
    pub dry_run: bool,
}

/// Move `k` counts as carried out.
pub open spec fn carried_out(dry_run: bool, endings: Seq<Ending>, k: int) -> bool {
    dry_run || endings[k] == Ending::Moved
}

/// The number of the first `n` moves that were carried out.
pub open spec fn moved_count(dry_run: bool, endings: Seq<Ending>, n: nat) -> int
    decreases n,
{
    if n == 0 {
        0
    } else {
        moved_count(dry_run, endings, (n - 1) as nat) + if carried_out(dry_run, endings, n - 1) {
            1int
        } else {
            0
        }
    }
}

/// The bytes of those of the first `n` moves that were carried out.
pub open spec fn moved_bytes(
    moves: Seq<Move>,
    dry_run: bool,
    endings: Seq<Ending>,
    n: nat,
) -> int
    decreases n,
{
    if n == 0 {
        0
    } else {
        moved_bytes(moves, dry_run, endings, (n - 1) as nat) + if carried_out(
            dry_run,
            endings,
            n - 1,
        ) {
            moves[n - 1].size as int
        } else {
            0
        }
    }
}

proof fn lemma_moved_count(dry_run: bool, endings: Seq<Ending>, n: nat)
    ensures
        0 <= moved_count(dry_run, endings, n) <= n,
    decreases n,
{
    if n > 0 {
        lemma_moved_count(dry_run, endings, (n - 1) as nat);
    }
}

proof fn lemma_moved_bytes(
    moves: Seq<Move>,
    dry_run: bool,
    endings: Seq<Ending>,
    m: nat,
    n: nat,
)
    requires
        m <= n,
    ensures
        0 <= moved_bytes(moves, dry_run, endings, m) <= moved_bytes(moves, dry_run, endings, n),
    decreases n,
{
    if m < n {
        lemma_moved_bytes(moves, dry_run, endings, m, (n - 1) as nat);
    } else if n > 0 {
        lemma_moved_bytes(moves, dry_run, endings, (n - 1) as nat, (n - 1) as nat);
    }
}

impl<'a> Dispatcher<'a> {
    pub fn new(tiers: &'a TierMap, dry_run: bool) -> (r: Self)
        ensures
            r.tiers == tiers,
            r.dry_run == dry_run,
    {
        Dispatcher { tiers, dry_run }
    }

    /// Whether moves are executed: a dry run executes none.
    pub fn executes(&self) -> (r: bool)
        ensures
            r == !self.dry_run,
    {
        !self.dry_run
    }

    /// Where a move goes from and to: the same relative path on two branches.
    pub fn route(&self, m: &Move) -> (r: Route)
        requires
            m.src_branch_idx < self.tiers.branches@.len(),
            m.dst_branch_idx < self.tiers.branches@.len(),
        ensures
            r.src_root@ == self.tiers.branches@[m.src_branch_idx as int].branch.path@,
            r.dst_root@ == self.tiers.branches@[m.dst_branch_idx as int].branch.path@,
            r.src@ == paths::joined(r.src_root@, m.rel@),
            r.dst@ == paths::joined(r.dst_root@, m.rel@),
    {
        let src_root = &self.tiers.branch(m.src_branch_idx).branch.path;
        let dst_root = &self.tiers.branch(m.dst_branch_idx).branch.path;
        Route {
            src_root: copy_of(src_root.as_slice()),
            dst_root: copy_of(dst_root.as_slice()),
            src: join(src_root.as_slice(), m.rel.as_slice()),
            dst: join(dst_root.as_slice(), m.rel.as_slice()),
        }
    }

    /// Sums up a list of moves, given how each one ended. A dry run ends none,
    /// and counts every one as carried out.
    pub fn run(&self, moves: &Vec<Move>, endings: &Vec<Ending>) -> (s: DispatchStats)
        requires
            !self.dry_run ==> endings@.len() == moves@.len(),
            moved_bytes(moves@, self.dry_run, endings@, moves@.len()) <= u64::MAX,
        ensures
            s.moved == moved_count(self.dry_run, endings@, moves@.len()),
            s.bytes == moved_bytes(moves@, self.dry_run, endings@, moves@.len()),
            s.failed == moves@.len() - s.moved,
            self.dry_run ==> s.moved == moves@.len() && s.failed == 0,
    {
        let ghost dry = self.dry_run;
        let mut s = DispatchStats::default();
        let mut i: usize = 0;
        while i < moves.len()
            invariant
                i <= moves@.len(),
                dry == self.dry_run,
                !dry ==> endings@.len() == moves@.len(),
                moved_bytes(moves@, dry, endings@, moves@.len()) <= u64::MAX,
                s.moved == moved_count(dry, endings@, i as nat),
                s.bytes == moved_bytes(moves@, dry, endings@, i as nat),
                s.failed == i - s.moved,
                dry ==> s.moved == i,
            decreases moves.len() - i,
        {
            proof {
                lemma_moved_count(dry, endings@, i as nat);
                lemma_moved_bytes(moves@, dry, endings@, (i + 1) as nat, moves@.len());
            }
            if self.dry_run || endings[i] == Ending::Moved {
                s.moved = s.moved + 1;
                s.bytes = s.bytes + moves[i].size;
            } else {
                s.failed = s.failed + 1;
            }
            i = i + 1;
        }
        s
    }
}

} // verus!
