//! Moving files between branches.
//!
//! A [`Relocation`] decides, step by step, how one file is moved: the caller
//! carries out the step that it asks for and reports what came of it. The file
//! is copied to a temporary name next to its destination, published there
//! without ever replacing anything, and only then removed from its source.

use crate::lineage;
use crate::lineage::parent;
use crate::paths;
use crate::paths::join;
use crate::plan::Move;
use crate::scan::TMP_PREFIX;
use crate::text;
use crate::text::{bytes_of, split_filled, to_decimal, to_signed_decimal};
use vstd::prelude::*;
#[allow(unused_imports)]
use vstd::utf8::*;

pub mod laws;

verus! {

/// What the file looked like.
#[derive(Debug, Clone, Copy, PartialEq, Eq, Structural)]
pub struct FileStat {
    pub is_file: bool,
    pub nlink: u64,
    pub ino: u64,
    pub size: u64,
    pub mtime: i64,
    pub mtime_nsec: i64,
}

/// Why a file was left where it is; it may be tried again in the next pass.
#[derive(Debug, Clone, Copy, PartialEq, Eq, Structural)]
pub enum Skip {
    SourceVanished,
    NotRegular,
    Hardlinked,
    DestinationExists,
    Interrupted,
    SourceChanged,
    DestinationAppeared,
}

/// How a move ended.
#[derive(Debug, Clone, Copy, PartialEq, Eq, Structural)]
pub enum Outcome {
    Done,
    /// File changed/vanished/locked under us; not an error, retry next pass.
    Skipped(Skip),
    /// A step failed.
    Failed,
    /// The source could not be removed, and the copy was withdrawn.
    Reverted,
}

/// What is to be done next.
#[derive(Debug, Clone, Copy, PartialEq, Eq, Structural)]
pub enum Step {
    /// Look at the source, not following links.
    StatSource,
    /// Look whether the destination exists.
    ProbeDestination,
    /// Look whether a directory on the way to the destination exists.
    ProbeDir(usize),
    /// Create it.
    MakeDir(usize),
    /// Give it the mode and the owner of its counterpart, as far as possible.
    DressDir(usize),
    /// Open the source for reading, not following links.
    OpenSource,
    /// Create the temporary file, which must not exist.
    CreateTemp,
    /// Ask whether a shutdown was requested.
    Poll,
    /// Read from the source.
    Read,
    /// Write to the temporary file what was read.
    Write,
    /// Bring the temporary file to the disk.
    Sync,
    SetOwner,
    SetMode,
    /// Copy extended attributes, as far as possible.
    CopyXattrs,
    SetTimes,
    /// Look at the source again.
    RestatSource,
    /// Rename the temporary file to the destination, which must not exist.
    Publish,
    RemoveSource,
    /// Remove the destination again.
    Withdraw,
    /// Bring both directories to the disk, as far as possible.
    SyncDirs,
    /// Remove the temporary file.
    Discard,
    /// Nothing: the move has ended.
    Report(Outcome),
}

/// What came of a step.
#[derive(Debug, Clone, Copy, PartialEq, Eq, Structural)]
pub enum Reply {
    /// It was done.
    Done,
    /// The file exists and looks like this.
    Stat(FileStat),
    /// There is no such file.
    NotFound,
    /// There is such a file already.
    Exists,
    /// It is not permitted.
    NotPermitted,
    /// It failed for another reason.
    Failed,
    /// A shutdown was requested.
    Stop,
    /// Some bytes were read.
    Data,
    /// The end of the source was reached.
    End,
}

/// The state of one move.
#[derive(Debug, Clone, Copy, PartialEq, Eq, Structural)]
pub struct Relocation {
    pub step: Step,
    /// The number of directories on the way from the branch to the file.
    pub dirs: usize,
    /// The source as it was before it was copied.
    pub before: FileStat,
    /// How the move ends once the temporary file is gone.
    pub ending: Outcome,
}

/// The source is still the file that was copied, with the same contents.
pub open spec fn unchanged(before: FileStat, after: FileStat) -> bool {
    &&& after.ino == before.ino
    &&& after.size == before.size
    &&& after.mtime == before.mtime
    &&& after.mtime_nsec == before.mtime_nsec
}

/// A copy has been started and not been published.
pub open spec fn holds_temp(s: Step) -> bool {
    match s {
        Step::Poll
        | Step::Read
        | Step::Write
        | Step::Sync
        | Step::SetOwner
        | Step::SetMode
        | Step::CopyXattrs
        | Step::SetTimes
        | Step::RestatSource
        | Step::Publish => true,
        _ => false,
    }
}

/// The step with which directory `k` begins: past the last one the copy begins.
pub open spec fn enter_dir(k: int, dirs: usize) -> Step {
    if k < dirs {
        Step::ProbeDir(k as usize)
    } else {
        Step::OpenSource
    }
}

/// The move goes on with a step, or ends.
pub enum Verdict {
    Next(Step),
    Ends(Outcome),
}

pub open spec fn if_ok(r: Reply, next: Step) -> Verdict {
    if r == Reply::Done {
        Verdict::Next(next)
    } else {
        Verdict::Ends(Outcome::Failed)
    }
}

/// What follows from the reply to the present step.
pub open spec fn judged(m: Relocation, r: Reply) -> Verdict {
    match (m.step, r) {
        (Step::StatSource, Reply::Stat(s)) => if !s.is_file {
            Verdict::Ends(Outcome::Skipped(Skip::NotRegular))
        } else if s.nlink > 1 {
            Verdict::Ends(Outcome::Skipped(Skip::Hardlinked))
        } else {
            Verdict::Next(Step::ProbeDestination)
        },
        (Step::StatSource, Reply::NotFound) => Verdict::Ends(
            Outcome::Skipped(Skip::SourceVanished),
        ),
        (Step::ProbeDestination, Reply::Stat(_) | Reply::Done) => Verdict::Ends(
            Outcome::Skipped(Skip::DestinationExists),
        ),
        (Step::ProbeDestination, _) => Verdict::Next(enter_dir(0, m.dirs)),
        (Step::ProbeDir(k), Reply::Stat(_) | Reply::Done) => Verdict::Next(enter_dir(k + 1, m.dirs)),
        (Step::ProbeDir(k), Reply::NotFound) => Verdict::Next(Step::MakeDir(k)),
        (Step::MakeDir(k), Reply::Done) => Verdict::Next(Step::DressDir(k)),
        (Step::MakeDir(k), Reply::Exists) => Verdict::Next(enter_dir(k + 1, m.dirs)),
        (Step::DressDir(k), _) => Verdict::Next(enter_dir(k + 1, m.dirs)),
        (Step::OpenSource, r) => if_ok(r, Step::CreateTemp),
        (Step::CreateTemp, r) => if_ok(r, Step::Poll),
        (Step::Poll, Reply::Stop) => Verdict::Ends(Outcome::Skipped(Skip::Interrupted)),
        (Step::Poll, _) => Verdict::Next(Step::Read),
        (Step::Read, Reply::Data) => Verdict::Next(Step::Write),
        (Step::Read, Reply::End) => Verdict::Next(Step::Sync),
        (Step::Write, r) => if_ok(r, Step::Poll),
        (Step::Sync, r) => if_ok(r, Step::SetOwner),
        // only the superuser may give files away
        (Step::SetOwner, Reply::NotPermitted) => Verdict::Next(Step::SetMode),
        (Step::SetOwner, r) => if_ok(r, Step::SetMode),
        (Step::SetMode, r) => if_ok(r, Step::CopyXattrs),
        (Step::CopyXattrs, _) => Verdict::Next(Step::SetTimes),
        (Step::SetTimes, r) => if_ok(r, Step::RestatSource),
        (Step::RestatSource, Reply::Stat(after)) => if unchanged(m.before, after) {
            Verdict::Next(Step::Publish)
        } else {
            Verdict::Ends(Outcome::Skipped(Skip::SourceChanged))
        },
        (Step::Publish, Reply::Exists) => Verdict::Ends(
            Outcome::Skipped(Skip::DestinationAppeared),
        ),
        (Step::Publish, r) => if_ok(r, Step::RemoveSource),
        (Step::RemoveSource, Reply::Done) => Verdict::Next(Step::SyncDirs),
        (Step::RemoveSource, _) => Verdict::Next(Step::Withdraw),
        (Step::Withdraw, _) => Verdict::Next(Step::Discard),
        (Step::SyncDirs, _) => Verdict::Ends(Outcome::Done),
        (Step::Discard, _) => Verdict::Ends(m.ending),
        (Step::Report(o), _) => Verdict::Ends(o),
        _ => Verdict::Ends(Outcome::Failed),
    }
}

/// The state after the reply: a move that ends while it holds a temporary file
/// discards it first.
pub open spec fn advanced(m: Relocation, r: Reply) -> Relocation {
    let before = match (m.step, r) {
        (Step::StatSource, Reply::Stat(s)) => s,
        _ => m.before,
    };
    match judged(m, r) {
        Verdict::Next(step) => Relocation {
            step,
            dirs: m.dirs,
            before,
            ending: if step == Step::Withdraw {
                Outcome::Reverted
            } else {
                m.ending
            },
        },
        Verdict::Ends(o) => if holds_temp(m.step) {
            Relocation { step: Step::Discard, dirs: m.dirs, before, ending: o }
        } else {
            Relocation { step: Step::Report(o), dirs: m.dirs, before, ending: m.ending }
        },
    }
}

/// The state in which a move begins.
pub open spec fn begun(dirs: usize) -> Relocation {
    Relocation {
        step: Step::StatSource,
        dirs,
        before: FileStat { is_file: false, nlink: 0, ino: 0, size: 0, mtime: 0, mtime_nsec: 0 },
        ending: Outcome::Failed,
    }
}

impl Relocation {
    /// A directory step names one of the directories.
    pub open spec fn wf(self) -> bool {
        match self.step {
            Step::ProbeDir(k) | Step::MakeDir(k) | Step::DressDir(k) => k < self.dirs,
            _ => true,
        }
    }

    /// Begins a move to a place that is `dirs` directories below its branch.
    pub fn begin(dirs: usize) -> (r: Self)
        ensures
            r == begun(dirs),
            r.wf(),
    {
        Relocation {
            step: Step::StatSource,
            dirs,
            before: FileStat { is_file: false, nlink: 0, ino: 0, size: 0, mtime: 0, mtime_nsec: 0 },
            ending: Outcome::Failed,
        }
    }

    fn go(self, step: Step) -> (r: Self)
        ensures
            r == (Relocation { step, ..self }),
    {
        Relocation { step, dirs: self.dirs, before: self.before, ending: self.ending }
    }

    fn end(self, o: Outcome) -> (r: Self)
        ensures
            holds_temp(self.step) ==> r == (Relocation { step: Step::Discard, ending: o, ..self }),
            !holds_temp(self.step) ==> r == (Relocation { step: Step::Report(o), ..self }),
    {
        match self.step {
            Step::Poll
            | Step::Read
            | Step::Write
            | Step::Sync
            | Step::SetOwner
            | Step::SetMode
            | Step::CopyXattrs
            | Step::SetTimes
            | Step::RestatSource
            | Step::Publish => Relocation {
                step: Step::Discard,
                dirs: self.dirs,
                before: self.before,
                ending: o,
            },
            _ => self.go(Step::Report(o)),
        }
    }

    /// On to `step`, if the present one was done.
    fn go_if_ok(self, r: Reply, step: Step) -> (m: Self)
        ensures
            r == Reply::Done ==> m == (Relocation { step, ..self }),
            r != Reply::Done && holds_temp(self.step) ==> m == (Relocation {
                step: Step::Discard,
                ending: Outcome::Failed,
                ..self
            }),
            r != Reply::Done && !holds_temp(self.step) ==> m == (Relocation {
                step: Step::Report(Outcome::Failed),
                ..self
            }),
    {
        if r == Reply::Done {
            self.go(step)
        } else {
            self.end(Outcome::Failed)
        }
    }

    /// On to directory `k`, or to the copy if there are no more directories.
    fn go_dir(self, k: usize) -> (r: Self)
        ensures
            r == (Relocation { step: enter_dir(k as int, self.dirs), ..self }),
    {
        if k < self.dirs {
            self.go(Step::ProbeDir(k))
        } else {
            self.go(Step::OpenSource)
        }
    }

    /// Takes note of what came of the present step and tells the next one.
    pub fn next(self, r: Reply) -> (m: Self)
        requires
            self.wf(),
        ensures
            m == advanced(self, r),
            m.wf(),
    {
        match (self.step, r) {
            (Step::StatSource, Reply::Stat(s)) => {
                let m = Relocation {
                    step: self.step,
                    dirs: self.dirs,
                    before: s,
                    ending: self.ending,
                };
                if !s.is_file {
                    m.end(Outcome::Skipped(Skip::NotRegular))
                } else if s.nlink > 1 {
                    m.end(Outcome::Skipped(Skip::Hardlinked))
                } else {
                    m.go(Step::ProbeDestination)
                }
            },
            (Step::StatSource, Reply::NotFound) => self.end(Outcome::Skipped(Skip::SourceVanished)),
            (Step::ProbeDestination, Reply::Stat(_)) => self.end(
                Outcome::Skipped(Skip::DestinationExists),
            ),
            (Step::ProbeDestination, Reply::Done) => self.end(
                Outcome::Skipped(Skip::DestinationExists),
            ),
            (Step::ProbeDestination, _) => self.go_dir(0),
            (Step::ProbeDir(k), Reply::Stat(_)) => self.go_dir(k + 1),
            (Step::ProbeDir(k), Reply::Done) => self.go_dir(k + 1),
            (Step::ProbeDir(k), Reply::NotFound) => self.go(Step::MakeDir(k)),
            (Step::MakeDir(k), Reply::Done) => self.go(Step::DressDir(k)),
            (Step::MakeDir(k), Reply::Exists) => self.go_dir(k + 1),
            (Step::DressDir(k), _) => self.go_dir(k + 1),
            (Step::OpenSource, r) => self.go_if_ok(r, Step::CreateTemp),
            (Step::CreateTemp, r) => self.go_if_ok(r, Step::Poll),
            (Step::Poll, Reply::Stop) => self.end(Outcome::Skipped(Skip::Interrupted)),
            (Step::Poll, _) => self.go(Step::Read),
            (Step::Read, Reply::Data) => self.go(Step::Write),
            (Step::Read, Reply::End) => self.go(Step::Sync),
            (Step::Write, r) => self.go_if_ok(r, Step::Poll),
            (Step::Sync, r) => self.go_if_ok(r, Step::SetOwner),
            (Step::SetOwner, Reply::NotPermitted) => self.go(Step::SetMode),
            (Step::SetOwner, r) => self.go_if_ok(r, Step::SetMode),
            (Step::SetMode, r) => self.go_if_ok(r, Step::CopyXattrs),
            (Step::CopyXattrs, _) => self.go(Step::SetTimes),
            (Step::SetTimes, r) => self.go_if_ok(r, Step::RestatSource),
            (Step::RestatSource, Reply::Stat(after)) => {
                let before = self.before;
                if after.ino == before.ino && after.size == before.size && after.mtime
                    == before.mtime && after.mtime_nsec == before.mtime_nsec {
                    self.go(Step::Publish)
                } else {
                    self.end(Outcome::Skipped(Skip::SourceChanged))
                }
            },
            (Step::Publish, Reply::Exists) => self.end(Outcome::Skipped(Skip::DestinationAppeared)),
            (Step::Publish, r) => self.go_if_ok(r, Step::RemoveSource),
            (Step::RemoveSource, Reply::Done) => self.go(Step::SyncDirs),
            (Step::RemoveSource, _) => Relocation {
                step: Step::Withdraw,
                dirs: self.dirs,
                before: self.before,
                ending: Outcome::Reverted,
            },
            (Step::Withdraw, _) => self.go(Step::Discard),
            (Step::SyncDirs, _) => self.end(Outcome::Done),
            (Step::Discard, _) => self.end(self.ending),
            (Step::Report(o), _) => self.end(o),
            _ => self.end(Outcome::Failed),
        }
    }
}

/// Why a file was left where it is, in words.
pub open spec fn reason_of(s: Skip) -> Seq<char> {
    match s {
        Skip::SourceVanished => "source vanished"@,
        Skip::NotRegular => "not a regular file anymore"@,
        Skip::Hardlinked => "file has hardlinks"@,
        Skip::DestinationExists => "destination path already exists on target branch"@,
        Skip::Interrupted => "interrupted by shutdown"@,
        Skip::SourceChanged => "source changed during copy"@,
        Skip::DestinationAppeared => "destination appeared during copy"@,
    }
}

impl Skip {
    /// Why a file was left where it is, in words.
    pub fn why(self) -> (r: &'static str)
        ensures
            r@ == reason_of(self),
    {
        match self {
            Skip::SourceVanished => "source vanished",
            Skip::NotRegular => "not a regular file anymore",
            Skip::Hardlinked => "file has hardlinks",
            Skip::DestinationExists => "destination path already exists on target branch",
            Skip::Interrupted => "interrupted by shutdown",
            Skip::SourceChanged => "source changed during copy",
            Skip::DestinationAppeared => "destination appeared during copy",
        }
    }
}

/// The name of the temporary file of a copy.
pub open spec fn temp_name_of(pid: u32, now: i64) -> Seq<char> {
    TMP_PREFIX@ + text::decimal(pid as nat) + seq!['.'] + text::signed_decimal(now as int)
}

/// The name of the temporary file of a copy, made by this process at this second.
pub fn temp_name(pid: u32, now: i64) -> (r: String)
    ensures
        r@ == temp_name_of(pid, now),
{
    let mut r = TMP_PREFIX.to_string();
    r.append(to_decimal(pid as u128).as_str());
    r.push('.');
    r.append(to_signed_decimal(now).as_str());
    assert(r@ =~= temp_name_of(pid, now));
    r
}

/// The temporary file of a copy: next to the destination.
pub open spec fn temp_path_of(dst_root: Seq<u8>, dst: Seq<u8>, pid: u32, now: i64) -> Seq<u8> {
    paths::joined(
        match lineage::parent_of(dst) {
            Some(dir) => dir,
            None => dst_root,
        },
        encode_utf8(temp_name_of(pid, now)),
    )
}

/// The temporary file of a copy to `dst`, made by this process at this second.
pub fn temp_path(dst_root: &[u8], dst: &[u8], pid: u32, now: i64) -> (r: Vec<u8>)
    ensures
        r@ == temp_path_of(dst_root@, dst@, pid, now),
{
    let name = bytes_of(temp_name(pid, now).as_str());
    match parent(dst) {
        Some(dir) => join(dir.as_slice(), name.as_slice()),
        None => join(dst_root, name.as_slice()),
    }
}

/// The names in a list of extended attributes: each one ends in a NUL.
pub open spec fn names_in(list: Seq<u8>) -> Seq<Seq<u8>> {
    text::filled(list, 0u8)
}

/// Takes a list of extended attributes apart.
pub fn xattr_names(list: &[u8]) -> (r: Vec<Vec<u8>>)
    ensures
        text::views(r@) == names_in(list@),
{
    split_filled(list, 0u8)
}

// ---- a list of moves ---------------------------------------------------------------

/// What was done in a pass.
#[derive(Debug)]
pub struct Stats {
    pub files: u64,
    pub bytes: u64,
    pub skipped: u64,
    pub errors: u64,
}

impl Default for Stats {
    fn default() -> (r: Self)
        ensures
            r == (Stats { files: 0, bytes: 0, skipped: 0, errors: 0 }),
    {
        Stats { files: 0, bytes: 0, skipped: 0, errors: 0 }
    }
}

/// What is to be done about the next move of a list.
#[derive(Debug, Clone, Copy, PartialEq, Eq, Structural)]
pub enum Directive {
    /// Leave it and all that follow.
    Abort,
    /// Only tell what would be done.
    Preview,
    /// Carry it out.
    Relocate,
}

/// What to do about the next move: nothing once a stop was requested, and
/// nothing but talk in a dry run.
pub fn directive(stop: bool, dry_run: bool) -> (r: Directive)
    ensures
        r == Directive::Abort <==> stop,
        r == Directive::Preview <==> !stop && dry_run,
{
    if stop {
        Directive::Abort
    } else if dry_run {
        Directive::Preview
    } else {
        Directive::Relocate
    }
}

/// What became of a move of a list.
#[derive(Debug, Clone, Copy, PartialEq, Eq, Structural)]
pub enum Report {
    Aborted,
    Previewed,
    Ended(Outcome),
}

/// The move counts as carried out: it was, or would have been in a real run.
pub open spec fn counts_as_moved(r: Report) -> bool {
    r == Report::Previewed || r == Report::Ended(Outcome::Done)
}

/// The number of reports that satisfy the predicate.
pub open spec fn number(reports: Seq<Report>, pred: spec_fn(Report) -> bool) -> int
    decreases reports.len(),
{
    if reports.len() == 0 {
        0
    } else {
        number(reports.drop_last(), pred) + if pred(reports.last()) {
            1int
        } else {
            0
        }
    }
}

/// The bytes of the moves that were carried out.
pub open spec fn moved_bytes(moves: Seq<Move>, reports: Seq<Report>) -> int
    decreases reports.len(),
{
    if reports.len() == 0 {
        0
    } else {
        moved_bytes(moves, reports.drop_last()) + if counts_as_moved(reports.last()) {
            moves[reports.len() - 1].size as int
        } else {
            0
        }
    }
}

/// The reports up to an abort.
pub open spec fn effective(reports: Seq<Report>) -> Seq<Report> {
    reports.take(text::first_of(reports, Report::Aborted))
}

/// What the reports on a list of moves amount to.
pub open spec fn summed(moves: Seq<Move>, reports: Seq<Report>, s: Stats) -> bool {
    &&& s.files == number(reports, |r: Report| counts_as_moved(r))
    &&& s.bytes == moved_bytes(moves, reports)
    &&& s.skipped == number(reports, |r: Report| r matches Report::Ended(Outcome::Skipped(_)))
    &&& s.errors == number(
        reports,
        |r: Report| r == Report::Ended(Outcome::Failed) || r == Report::Ended(Outcome::Reverted),
    )
}

proof fn lemma_number(reports: Seq<Report>, pred: spec_fn(Report) -> bool)
    ensures
        0 <= number(reports, pred) <= reports.len(),
    decreases reports.len(),
{
    if reports.len() > 0 {
        lemma_number(reports.drop_last(), pred);
    }
}

proof fn lemma_moved_bytes(moves: Seq<Move>, reports: Seq<Report>, n: int)
    requires
        0 <= n <= reports.len(),
    ensures
        0 <= moved_bytes(moves, reports.take(n)) <= moved_bytes(moves, reports),
    decreases reports.len(),
{
    if n == reports.len() {
        assert(reports.take(n) =~= reports);
        if n > 0 {
            lemma_moved_bytes(moves, reports.drop_last(), n - 1);
            assert(reports.drop_last().take(n - 1) =~= reports.drop_last());
        }
    } else {
        lemma_moved_bytes(moves, reports.drop_last(), n);
        assert(reports.drop_last().take(n) =~= reports.take(n));
    }
}

/// Sums up what became of a list of moves, taken in order.
pub fn execute(moves: &Vec<Move>, reports: &Vec<Report>) -> (s: Stats)
    requires
        reports@.len() <= moves@.len(),
        moved_bytes(moves@, effective(reports@)) <= u64::MAX,
    ensures
        summed(moves@, effective(reports@), s),
{
    let ghost told = effective(reports@);
    proof {
        text::lemma_first_of(reports@, Report::Aborted);
    }
    let mut s = Stats::default();
    let mut i: usize = 0;
    assert(told.take(0) =~= Seq::<Report>::empty());
    while i < reports.len() && reports[i] != Report::Aborted
        invariant
            i <= told.len() <= reports@.len() <= moves@.len(),
            told == effective(reports@),
            told.len() < reports@.len() ==> reports@[told.len() as int] == Report::Aborted,
            forall|j: int| 0 <= j < told.len() ==> reports@[j] != Report::Aborted,
            moved_bytes(moves@, told) <= u64::MAX,
            summed(moves@, told.take(i as int), s),
        decreases reports.len() - i,
    {
        let r = reports[i];
        proof {
            text::lemma_first_of(reports@, Report::Aborted);
            assert(i != told.len());
            assert(told[i as int] == r);
            assert(told.take(i + 1).drop_last() =~= told.take(i as int));
            assert(told.take(i + 1).last() == r);
            lemma_moved_bytes(moves@, told, i + 1);
            lemma_number(told.take(i as int), |r: Report| counts_as_moved(r));
            lemma_number(
                told.take(i as int),
                |r: Report| r matches Report::Ended(Outcome::Skipped(_)),
            );
            lemma_number(
                told.take(i as int),
                |r: Report|
                    r == Report::Ended(Outcome::Failed) || r == Report::Ended(Outcome::Reverted),
            );
        }
        match r {
            Report::Previewed | Report::Ended(Outcome::Done) => {
                s.files = s.files + 1;
                s.bytes = s.bytes + moves[i].size;
            },
            Report::Ended(Outcome::Skipped(_)) => {
                s.skipped = s.skipped + 1;
            },
            _ => {
                s.errors = s.errors + 1;
            },
        }
        i = i + 1;
    }
    assert(told.take(i as int) =~= told);
    s
}

} // verus!
