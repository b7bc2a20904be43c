//! What holds of every run of a transfer.

use super::{DirTimes, Ending, Reply, Step, TransferView};
use crate::dispatch;
use crate::lineage;
use crate::paths;
use crate::paths::{ComponentView, SLASH};
use crate::policy::Move;
use vstd::prelude::*;
#[allow(unused_imports)]
use vstd::utf8::*;

verus! {

/// Where the file is, and the times of the directories around it.
#[verifier::ext_equal]
pub struct Scene {
    /// The file is at its source.
    pub source: bool,
    /// The copy was written to its end and brought to the disk.
    pub whole: bool,
    /// The file, or a copy of it, is at the destination.
    pub dest: bool,
    /// The times of the source's directory.
    pub source_dir: DirTimes,
    /// The times of the destination's directory, where it existed before.
    pub dest_dir: DirTimes,
    /// The times of the directories created on the destination branch, deepest
    /// first.
    pub created: Seq<DirTimes>,
    /// The times of the directory in which they were created.
    pub base_dir: DirTimes,
}

/// What the directories were like before the move.
#[verifier::ext_equal]
pub struct Setting {
    pub source_dir: DirTimes,
    pub dest_dir: DirTimes,
    /// The times, on the source branch, of the counterparts of the directories
    /// from the destination's upwards.
    pub counterparts: Seq<DirTimes>,
    /// The times of the deepest directory, from the destination's upwards, that
    /// existed.
    pub base_dir: DirTimes,
    /// The number of directories, from the destination's upwards, that did not
    /// exist.
    pub missing: nat,
}

/// A step that was done at the time `clock`: creating, renaming and removing
/// files sets the times of the directory that they are in.
pub open spec fn affected(w: Scene, s: Step, r: Reply, clock: DirTimes) -> Scene {
    let dest_touched = Scene {
        dest_dir: clock,
        created: if w.created.len() > 0 {
            w.created.update(0, clock)
        } else {
            w.created
        },
        ..w
    };
    if r != Reply::Done {
        w
    } else {
        match s {
            Step::CreateDirs => Scene {
                created: w.created.map_values(|t: DirTimes| clock),
                base_dir: if w.created.len() > 0 {
                    clock
                } else {
                    w.base_dir
                },
                ..w
            },
            Step::Rename => Scene {
                source: false,
                whole: true,
                dest: true,
                source_dir: clock,
                ..dest_touched
            },
            Step::ClearTemp | Step::Discard => dest_touched,
            Step::CreateTemp => Scene { whole: false, ..dest_touched },
            Step::Sync => Scene { whole: true, ..w },
            Step::Publish => Scene { dest: true, ..dest_touched },
            Step::RemoveSource => Scene { source: false, source_dir: clock, ..w },
            Step::RestoreCreated(k, t) => Scene { created: w.created.update(k as int, t), ..w },
            Step::RestoreBase(_, t) => Scene { base_dir: t, ..w },
            Step::RestoreDestDir(t) => Scene { dest_dir: t, ..w },
            Step::RestoreSourceDir(t) => Scene { source_dir: t, ..w },
            _ => w,
        }
    }
}

/// The reply tells the truth about times, and a restore is done.
pub open spec fn obliging(at: Setting, s: Step, r: Reply) -> bool {
    match s {
        Step::SnapshotSourceDir => r matches Reply::Times(t) ==> t == at.source_dir,
        Step::SnapshotDestDir => r matches Reply::Times(t) ==> t == at.dest_dir,
        Step::SnapshotCounterpart(k) => r matches Reply::Times(t) ==> t == at.counterparts[
            k as int
        ],
        Step::SnapshotBase(_) => r matches Reply::Times(t) ==> t == at.base_dir,
        Step::RestoreCreated(_, _)
        | Step::RestoreBase(_, _)
        | Step::RestoreDestDir(_)
        | Step::RestoreSourceDir(_) => r == Reply::Done,
        Step::ProbeSourceDir => r == Reply::Done,
        _ => true,
    }
}

/// The state after the replies.
pub open spec fn state_after(levels: usize, replies: Seq<Reply>) -> TransferView
    decreases replies.len(),
{
    if replies.len() == 0 {
        dispatch::begun(levels)
    } else {
        dispatch::advanced(state_after(levels, replies.drop_last()), replies.last())
    }
}

/// The scene after the replies, each given at its time. The directories that
/// will have to be created are there in name only until then.
pub open spec fn scene_after(
    at: Setting,
    levels: usize,
    replies: Seq<Reply>,
    clocks: Seq<DirTimes>,
) -> Scene
    decreases replies.len(),
{
    if replies.len() == 0 {
        Scene {
            source: true,
            whole: false,
            dest: false,
            source_dir: at.source_dir,
            dest_dir: at.dest_dir,
            created: Seq::empty(),
            base_dir: at.base_dir,
        }
    } else {
        let n = replies.len() - 1;
        let m = state_after(levels, replies.drop_last());
        let w = affected(
            scene_after(at, levels, replies.drop_last(), clocks),
            m.step,
            replies.last(),
            clocks[n],
        );
        match m.step {
            Step::SnapshotCounterpart(_) => Scene { created: w.created.push(clocks[n]), ..w },
            _ => w,
        }
    }
}

/// Every reply is obliging.
pub open spec fn all_obliging(at: Setting, levels: usize, replies: Seq<Reply>) -> bool {
    forall|k: int|
        0 <= k < replies.len() ==> obliging(
            at,
            state_after(levels, #[trigger] replies.take(k)).step,
            replies[k],
        )
}

/// Which restores are behind the step: those of the created directories below
/// the given number, that of the directory that they are in, that of the
/// destination's and that of the source's.
spec fn restored(s: Step, n: int) -> (int, bool, bool, bool) {
    match s {
        Step::RestoreCreated(k, _) => (k as int, false, false, false),
        Step::RestoreBase(_, _) => (n, false, false, false),
        Step::RestoreDestDir(_) => (n, true, false, false),
        Step::ProbeSourceDir | Step::RestoreSourceDir(_) => (n, true, true, false),
        Step::Report(Ending::Moved) => (n, true, true, true),
        _ => (0, false, false, false),
    }
}

/// What each state says of the places.
spec fn placed(s: Step, w: Scene) -> bool {
    match s {
        Step::RestoreCreated(_, _)
        | Step::RestoreBase(_, _)
        | Step::RestoreDestDir(_)
        | Step::ProbeSourceDir
        | Step::RestoreSourceDir(_)
        | Step::Report(Ending::Moved) => !w.source && w.dest && w.whole,
        Step::Report(_) => w.source,
        Step::SetMode | Step::SetOwner | Step::SetTimes | Step::Publish => w.source && w.whole
            && !w.dest,
        Step::RemoveSource => w.source && w.whole && w.dest,
        _ => w.source && !w.dest,
    }
}

/// The times that the move knows are the true ones.
spec fn informed(at: Setting, m: TransferView) -> bool {
    &&& m.source_times matches Some(t) ==> t == at.source_dir
    &&& m.dest_times matches Some(t) ==> t == at.dest_dir
    &&& m.base_times matches Some(t) ==> t == at.base_dir
    &&& forall|k: int|
        0 <= k < m.created.len() ==> (#[trigger] m.created[k] matches Some(t) ==> t
            == at.counterparts[k])
}

/// What has been restored is as it should be.
spec fn reinstated(at: Setting, m: TransferView, w: Scene) -> bool {
    let (upto, base, dest, source) = restored(m.step, m.created.len() as int);
    &&& forall|k: int|
        0 <= k < upto && (#[trigger] m.created[k]) is Some ==> w.created[k] == at.counterparts[k]
    &&& base && m.base_times is Some ==> w.base_dir == at.base_dir
    &&& dest && m.dest_times is Some ==> w.dest_dir == at.dest_dir
    &&& source && m.source_times is Some ==> w.source_dir == at.source_dir
}

/// A restore in hand has the times that are known.
spec fn apt(m: TransferView) -> bool {
    match m.step {
        Step::ProbeDir(k) | Step::SnapshotCounterpart(k) => m.created.len() == k < m.levels,
        Step::RestoreCreated(k, t) => k < m.created.len() && m.created[k as int] == Some(t),
        Step::RestoreBase(_, t) => m.base_times == Some(t),
        Step::RestoreDestDir(t) => m.dest_times == Some(t),
        Step::ProbeSourceDir => m.source_times is Some,
        Step::RestoreSourceDir(t) => m.source_times == Some(t),
        Step::StatSource | Step::SnapshotSourceDir | Step::SnapshotDestDir => m.created.len() == 0,
        _ => true,
    }
}

proof fn lemma_restore_from(m: TransferView, k: int)
    requires
        0 <= k <= m.created.len() <= usize::MAX,
    ensures
        ({
            let s = dispatch::restore_from(m, k);
            let (upto, base, dest, source) = restored(s, m.created.len() as int);
            &&& k <= upto
            &&& forall|j: int| k <= j < upto ==> (#[trigger] m.created[j]) is None
            &&& base ==> m.base_times is None
            &&& dest ==> m.dest_times is None
            &&& source ==> m.source_times is None
            &&& match s {
                Step::RestoreCreated(j, t) => k <= j < m.created.len() && m.created[j as int]
                    == Some(t),
                Step::RestoreBase(_, t) => m.base_times == Some(t),
                Step::RestoreDestDir(t) => m.dest_times == Some(t),
                Step::ProbeSourceDir => m.source_times is Some,
                Step::Report(e) => e == Ending::Moved,
                _ => false,
            }
        }),
    decreases m.created.len() - k,
{
    if k < m.created.len() && m.created[k] is None {
        lemma_restore_from(m, k + 1);
    }
}

proof fn lemma_scene(at: Setting, levels: usize, replies: Seq<Reply>, clocks: Seq<DirTimes>)
    ensures
        ({
            let m = state_after(levels, replies);
            let w = scene_after(at, levels, replies, clocks);
            &&& placed(m.step, w)
            &&& apt(m)
            &&& w.created.len() == m.created.len()
            &&& m.levels == levels
            &&& m.created.len() <= levels
            &&& all_obliging(at, levels, replies) ==> informed(at, m) && reinstated(at, m, w)
        }),
    decreases replies.len(),
{
    if replies.len() > 0 {
        let front = replies.drop_last();
        lemma_scene(at, levels, front, clocks);
        let m = state_after(levels, front);
        let n = replies.len() - 1;
        let r = replies.last();
        let w = scene_after(at, levels, front, clocks);
        let m2 = state_after(levels, replies);
        let w2 = scene_after(at, levels, replies, clocks);
        match m.step {
            Step::Rename | Step::RemoveSource => {
                lemma_restore_from(m, 0);
            },
            Step::RestoreCreated(k, _) => {
                lemma_restore_from(m, k + 1);
            },
            _ => {},
        }
        assert(front =~= replies.take(n));
        if all_obliging(at, levels, replies) {
            assert forall|k: int| 0 <= k < front.len() implies obliging(
                at,
                state_after(levels, #[trigger] front.take(k)).step,
                front[k],
            ) by {
                assert(front.take(k) =~= replies.take(k));
                assert(front[k] == replies[k]);
            }
            assert(obliging(at, m.step, r));
            assert(informed(at, m2));
            let (upto, base, dest, source) = restored(m2.step, m2.created.len() as int);
            assert forall|k: int|
                0 <= k < upto && (#[trigger] m2.created[k]) is Some implies w2.created[k]
                == at.counterparts[k] by {
                assert(m.created[k] == m2.created[k]);
            }
        }
    }
}

/// At no time is the file lost: it is at its source, or whole at its destination.
pub proof fn file_is_never_lost(
    at: Setting,
    levels: usize,
    replies: Seq<Reply>,
    clocks: Seq<DirTimes>,
)
    ensures
        ({
            let w = scene_after(at, levels, replies, clocks);
            w.source || (w.dest && w.whole)
        }),
{
    lemma_scene(at, levels, replies, clocks);
}

/// A move that is reported as done has taken the file from its source to its
/// destination; any other leaves it at its source.
pub proof fn ending_is_true(
    at: Setting,
    levels: usize,
    replies: Seq<Reply>,
    clocks: Seq<DirTimes>,
)
    ensures
        ({
            let w = scene_after(at, levels, replies, clocks);
            match state_after(levels, replies).step {
                Step::Report(Ending::Moved) => !w.source && w.dest && w.whole,
                Step::Report(_) => w.source,
                _ => true,
            }
        }),
{
    lemma_scene(at, levels, replies, clocks);
}

/// A move that is reported as done leaves the directories with the times that
/// they had, and gives those that it created the times of their counterparts,
/// wherever these times could be taken and restored.
pub proof fn directory_times_are_kept(
    at: Setting,
    levels: usize,
    replies: Seq<Reply>,
    clocks: Seq<DirTimes>,
)
    requires
        all_obliging(at, levels, replies),
        state_after(levels, replies).step == Step::Report(Ending::Moved),
    ensures
        ({
            let m = state_after(levels, replies);
            let w = scene_after(at, levels, replies, clocks);
            &&& m.source_times is Some ==> w.source_dir == at.source_dir
            &&& m.dest_times is Some ==> w.dest_dir == at.dest_dir
            &&& m.base_times is Some ==> w.base_dir == at.base_dir
            &&& forall|k: int|
                0 <= k < m.created.len() && (#[trigger] m.created[k]) is Some ==> w.created[k]
                    == at.counterparts[k]
        }),
{
    lemma_scene(at, levels, replies, clocks);
}

/// The reply is that of a filesystem that gives and takes the times of every
/// directory that exists.
pub open spec fn truthful(at: Setting, s: Step, r: Reply) -> bool {
    match s {
        Step::SnapshotSourceDir => r == Reply::Times(at.source_dir),
        Step::SnapshotDestDir => r == if at.missing == 0 {
            Reply::Times(at.dest_dir)
        } else {
            Reply::Failed
        },
        Step::ProbeDir(k) => r == if k < at.missing {
            Reply::Failed
        } else {
            Reply::Done
        },
        Step::SnapshotCounterpart(k) => r == Reply::Times(at.counterparts[k as int]),
        Step::SnapshotBase(_) => r == Reply::Times(at.base_dir),
        _ => obliging(at, s, r),
    }
}

/// Every reply is truthful.
pub open spec fn all_truthful(at: Setting, levels: usize, replies: Seq<Reply>) -> bool {
    forall|k: int|
        0 <= k < replies.len() ==> truthful(
            at,
            state_after(levels, #[trigger] replies.take(k)).step,
            replies[k],
        )
}

/// How far the directories have been looked at.
spec fn phase(s: Step) -> int {
    match s {
        Step::StatSource | Step::Report(Ending::NotRegular) | Step::Report(Ending::Failed) => 0,
        Step::SnapshotSourceDir => 1,
        Step::SnapshotDestDir => 2,
        Step::ProbeDir(_) | Step::SnapshotCounterpart(_) | Step::SnapshotBase(_) => 3,
        _ => 4,
    }
}

/// What a move knows of the directories, after truthful replies.
spec fn knows(at: Setting, m: TransferView) -> bool {
    let n = m.created.len();
    let p = phase(m.step);
    &&& p >= 2 ==> m.source_times is Some
    &&& p >= 3 ==> (m.dest_times is Some <==> at.missing == 0)
    &&& 0 < p <= 3 ==> m.base_times is None
    &&& forall|k: int| 0 <= k < n ==> (#[trigger] m.created[k]) is Some
    &&& match m.step {
        Step::StatSource => n == 0 && m.base_times is None,
        Step::SnapshotSourceDir | Step::SnapshotDestDir => n == 0,
        Step::ProbeDir(k) => k == n <= at.missing && k < m.levels,
        Step::SnapshotCounterpart(k) => k == n < at.missing && k < m.levels,
        Step::SnapshotBase(k) => 0 < k == n == at.missing && k < m.levels,
        _ => true,
    }
    &&& p == 4 ==> n == (if at.missing < m.levels {
        at.missing
    } else {
        m.levels as nat
    }) && (m.base_times is Some <==> 0 < at.missing < m.levels)
}

proof fn lemma_knows(at: Setting, levels: usize, replies: Seq<Reply>)
    requires
        all_truthful(at, levels, replies),
    ensures
        all_obliging(at, levels, replies),
        state_after(levels, replies).levels == levels,
        knows(at, state_after(levels, replies)),
    decreases replies.len(),
{
    assert forall|k: int| 0 <= k < replies.len() implies obliging(
        at,
        state_after(levels, #[trigger] replies.take(k)).step,
        replies[k],
    ) by {
        assert(truthful(at, state_after(levels, replies.take(k)).step, replies[k]));
    }
    if replies.len() > 0 {
        let front = replies.drop_last();
        let n = replies.len() - 1;
        assert(front =~= replies.take(n));
        assert forall|k: int| 0 <= k < front.len() implies truthful(
            at,
            state_after(levels, #[trigger] front.take(k)).step,
            front[k],
        ) by {
            assert(front.take(k) =~= replies.take(k));
            assert(front[k] == replies[k]);
        }
        lemma_knows(at, levels, front);
        let m = state_after(levels, front);
        assert(truthful(at, m.step, replies[n]));
        match m.step {
            Step::Rename | Step::RemoveSource => {
                lemma_restore_from(m, 0);
            },
            Step::RestoreCreated(k, _) => {
                lemma_scene(at, levels, front, Seq::empty());
                lemma_restore_from(m, k + 1);
            },
            _ => {},
        }
    }
}

/// Where the times of every directory that exists can be taken and set, a move
/// that is reported as done leaves all of them as they were: that of the source,
/// and that of the destination or, if it was missing, the one in which it was
/// created with those above it. All that it created have the times of their
/// counterparts.
pub proof fn no_directory_is_forgotten(
    at: Setting,
    levels: usize,
    replies: Seq<Reply>,
    clocks: Seq<DirTimes>,
)
    requires
        all_truthful(at, levels, replies),
        state_after(levels, replies).step == Step::Report(Ending::Moved),
    ensures
        ({
            let w = scene_after(at, levels, replies, clocks);
            &&& w.source_dir == at.source_dir
            &&& at.missing == 0 ==> w.dest_dir == at.dest_dir
            &&& 0 < at.missing < levels ==> w.base_dir == at.base_dir
            &&& forall|k: int|
                0 <= k < at.missing && k < levels ==> #[trigger] w.created[k]
                    == at.counterparts[k]
        }),
{
    lemma_knows(at, levels, replies);
    lemma_scene(at, levels, replies, clocks);
    let m = state_after(levels, replies);
    let w = scene_after(at, levels, replies, clocks);
    assert forall|k: int| 0 <= k < at.missing && k < levels implies #[trigger] w.created[k]
        == at.counterparts[k] by {
        assert(m.created[k] is Some);
    }
}

/// Only a regular file is moved.
pub proof fn only_regular_files(m: TransferView, r: Reply)
    requires
        m.step == Step::StatSource,
    ensures
        dispatch::advanced(m, r).step == Step::SnapshotSourceDir || dispatch::advanced(m, r).step
            == Step::Report(Ending::NotRegular) || dispatch::advanced(m, r).step == Step::Report(
            Ending::Failed,
        ),
        dispatch::advanced(m, r).step == Step::SnapshotSourceDir <==> r matches Reply::Stat(
            true,
            _,
        ),
{
}

// ---- the way of a move -------------------------------------------------------------

/// The step taken before the last `n` replies.
pub open spec fn step_before(levels: usize, replies: Seq<Reply>, n: int) -> Step {
    state_after(levels, replies.take(replies.len() - n)).step
}

proof fn lemma_before(levels: usize, replies: Seq<Reply>)
    requires
        replies.len() > 0,
    ensures
        state_after(levels, replies) == dispatch::advanced(
            state_after(levels, replies.take(replies.len() - 1)),
            replies.last(),
        ),
{
    assert(replies.drop_last() =~= replies.take(replies.len() - 1));
}

proof fn lemma_restore_steps(m: TransferView, k: int)
    requires
        0 <= k,
    ensures
        ({
            let s = dispatch::restore_from(m, k);
            ||| s matches Step::RestoreCreated(_, _)
            ||| s matches Step::RestoreBase(_, _)
            ||| s matches Step::RestoreDestDir(_)
            ||| s == Step::ProbeSourceDir
            ||| s == Step::Report(Ending::Moved)
        }),
    decreases m.created.len() - k,
{
    if k < m.created.len() && m.created[k] is None {
        lemma_restore_steps(m, k + 1);
    }
}

/// The steps from which a move goes on to the given one, over the copy.
proof fn lemma_came_from(levels: usize, replies: Seq<Reply>, s: Step)
    requires
        state_after(levels, replies).step == s,
    ensures
        s == Step::Publish ==> replies.len() > 0 && step_before(levels, replies, 1)
            == Step::SetTimes,
        s == Step::SetTimes ==> replies.len() > 0 && step_before(levels, replies, 1)
            == Step::SetOwner,
        s == Step::SetOwner ==> replies.len() > 0 && step_before(levels, replies, 1)
            == Step::SetMode,
        s == Step::SetMode ==> replies.len() > 0 && step_before(levels, replies, 1) == Step::Sync
            && replies.last() == Reply::Done,
        s == Step::Sync ==> replies.len() > 0 && step_before(levels, replies, 1) == Step::CopyData
            && replies.last() == Reply::Done,
        s == Step::CopyData ==> replies.len() > 0 && step_before(levels, replies, 1)
            == Step::CreateTemp && replies.last() == Reply::Done,
        s == Step::CreateTemp ==> replies.len() > 0 && step_before(levels, replies, 1)
            == Step::OpenSource && replies.last() == Reply::Done,
        s == Step::OpenSource ==> replies.len() > 0 && step_before(levels, replies, 1)
            == Step::ClearTemp,
        s == Step::RemoveSource ==> replies.len() > 0 && step_before(levels, replies, 1)
            == Step::Publish && replies.last() == Reply::Done,
        s == Step::Rename || s == Step::ClearTemp ==> replies.len() > 0 && step_before(
            levels,
            replies,
            1,
        ) == Step::StatDestDir,
        s == Step::StatSource ==> replies.len() == 0,
{
    if replies.len() > 0 {
        lemma_before(levels, replies);
        let m = state_after(levels, replies.take(replies.len() - 1));
        lemma_restore_steps(m, 0);
        if let Step::RestoreCreated(k, _) = m.step {
            lemma_restore_steps(m, k + 1);
        }
    }
}

/// Before a copy is published it was written to its end and brought to the disk, and
/// then given its mode, its owner and, at last, its times.
pub proof fn copy_is_dressed_before_it_is_published(levels: usize, replies: Seq<Reply>)
    requires
        state_after(levels, replies).step == Step::Publish,
    ensures
        replies.len() >= 5,
        step_before(levels, replies, 1) == Step::SetTimes,
        step_before(levels, replies, 2) == Step::SetOwner,
        step_before(levels, replies, 3) == Step::SetMode,
        step_before(levels, replies, 4) == Step::Sync,
        replies[replies.len() - 4] == Reply::Done,
        step_before(levels, replies, 5) == Step::CopyData,
        replies[replies.len() - 5] == Reply::Done,
{
    let n = replies.len() as int;
    lemma_came_from(levels, replies, Step::Publish);
    let a = replies.take(n - 1);
    lemma_came_from(levels, a, Step::SetTimes);
    let b = replies.take(n - 2);
    assert(a.take(n - 2) =~= b);
    lemma_came_from(levels, b, Step::SetOwner);
    let c = replies.take(n - 3);
    assert(b.take(n - 3) =~= c);
    lemma_came_from(levels, c, Step::SetMode);
    let d = replies.take(n - 4);
    assert(c.take(n - 4) =~= d);
    lemma_came_from(levels, d, Step::Sync);
    assert(d.take(n - 5) =~= replies.take(n - 5));
}

/// The source is removed only once its copy was published.
pub proof fn source_is_removed_last(levels: usize, replies: Seq<Reply>)
    requires
        state_after(levels, replies).step == Step::RemoveSource,
    ensures
        replies.len() > 0,
        step_before(levels, replies, 1) == Step::Publish,
        replies.last() == Reply::Done,
{
    lemma_came_from(levels, replies, Step::RemoveSource);
}

proof fn lemma_device(levels: usize, replies: Seq<Reply>, is_file: bool, device: u64)
    requires
        replies.len() > 0,
        replies[0] == Reply::Stat(is_file, device),
    ensures
        state_after(levels, replies).device == device,
        state_after(levels, replies).step != Step::StatSource,
    decreases replies.len(),
{
    let front = replies.drop_last();
    if replies.len() == 1 {
        assert(front =~= Seq::<Reply>::empty());
        assert(state_after(levels, front) == dispatch::begun(levels));
    } else {
        assert(front[0] == replies[0]);
        lemma_device(levels, front, is_file, device);
        lemma_came_from(levels, replies, state_after(levels, replies).step);
    }
}

/// The file is renamed exactly where the directory that it goes to is on the
/// filesystem that it is on; otherwise it is copied.
pub proof fn renamed_on_one_filesystem(
    levels: usize,
    replies: Seq<Reply>,
    source: u64,
    r: Reply,
)
    requires
        replies.len() > 0,
        replies[0] == Reply::Stat(true, source),
        state_after(levels, replies).step == Step::StatDestDir,
    ensures
        r == Reply::Device(source) ==> state_after(levels, replies.push(r)).step == Step::Rename,
        r != Reply::Device(source) ==> state_after(levels, replies.push(r)).step
            == Step::ClearTemp,
{
    lemma_device(levels, replies, true, source);
    assert(replies.push(r).drop_last() =~= replies);
}

/// The step must succeed for the move to be made.
pub open spec fn is_needed(s: Step) -> bool {
    match s {
        Step::CreateDirs
        | Step::Rename
        | Step::OpenSource
        | Step::CreateTemp
        | Step::CopyData
        | Step::Sync
        | Step::Publish
        | Step::RemoveSource => true,
        _ => false,
    }
}

/// The reply to the step is none with which the move can go on.
pub open spec fn hinders(s: Step, r: Reply) -> bool {
    ||| is_needed(s) && r != Reply::Done
    ||| s == Step::StatSource && !(r matches Reply::Stat(_, _))
}

/// A move fails only if the source could not be looked at or a step that it needs did
/// not succeed; and then it does fail.
pub proof fn failure_has_a_cause(levels: usize, replies: Seq<Reply>)
    ensures
        state_after(levels, replies).step == Step::Report(Ending::Failed) || state_after(
            levels,
            replies,
        ).step == Step::Discard <==> exists|k: int|
            0 <= k < replies.len() && hinders(
                state_after(levels, #[trigger] replies.take(k)).step,
                replies[k],
            ),
    decreases replies.len(),
{
    if replies.len() > 0 {
        let front = replies.drop_last();
        let n = front.len() as int;
        failure_has_a_cause(levels, front);
        lemma_before(levels, replies);
        assert(front =~= replies.take(n));
        let m = state_after(levels, front);
        lemma_restore_steps(m, 0);
        if let Step::RestoreCreated(k, _) = m.step {
            lemma_restore_steps(m, k + 1);
        }
        let now = state_after(levels, replies).step;
        let was = m.step == Step::Report(Ending::Failed) || m.step == Step::Discard;
        if was {
            let k = choose|k: int|
                0 <= k < front.len() && hinders(
                    state_after(levels, #[trigger] front.take(k)).step,
                    front[k],
                );
            assert(front.take(k) =~= replies.take(k));
            assert(hinders(state_after(levels, replies.take(k)).step, replies[k]));
        } else if hinders(m.step, replies[n]) {
            assert(hinders(state_after(levels, replies.take(n)).step, replies[n]));
        } else if exists|k: int|
            0 <= k < replies.len() && hinders(
                state_after(levels, #[trigger] replies.take(k)).step,
                replies[k],
            ) {
            let k = choose|k: int|
                0 <= k < replies.len() && hinders(
                    state_after(levels, #[trigger] replies.take(k)).step,
                    replies[k],
                );
            if k < n {
                assert(front.take(k) =~= replies.take(k));
                assert(hinders(state_after(levels, front.take(k)).step, front[k]));
            }
        }
    }
}

/// How far a move has come.
pub open spec fn progress(m: TransferView) -> int {
    let d = 2 * m.levels;
    match m.step {
        Step::StatSource => 0,
        Step::SnapshotSourceDir => 1,
        Step::SnapshotDestDir => 2,
        Step::ProbeDir(k) => 3 + 2 * k,
        Step::SnapshotCounterpart(k) => 4 + 2 * k,
        Step::SnapshotBase(_) => 4 + d,
        Step::CreateDirs => 5 + d,
        Step::StatDestDir => 6 + d,
        Step::Rename | Step::ClearTemp => 7 + d,
        Step::OpenSource => 8 + d,
        Step::CreateTemp => 9 + d,
        Step::CopyData => 10 + d,
        Step::Sync => 11 + d,
        Step::SetMode => 12 + d,
        Step::SetOwner => 13 + d,
        Step::SetTimes => 14 + d,
        Step::Publish => 15 + d,
        Step::RemoveSource => 16 + d,
        Step::RestoreCreated(k, _) => 17 + d + k,
        Step::RestoreBase(_, _) => 17 + d + m.created.len(),
        Step::RestoreDestDir(_) => 18 + d + m.created.len(),
        Step::ProbeSourceDir => 19 + d + m.created.len(),
        Step::RestoreSourceDir(_) => 20 + d + m.created.len(),
        Step::Discard => 21 + d + m.created.len(),
        Step::Report(_) => 22 + d + m.created.len(),
    }
}

proof fn lemma_restore_progress(m: TransferView, k: int, step: Step)
    requires
        0 <= k <= m.created.len() <= usize::MAX,
        step == dispatch::restore_from(m, k),
    ensures
        progress(TransferView { step, ..m }) >= 17 + 2 * m.levels + k,
    decreases m.created.len() - k,
{
    if k < m.created.len() && m.created[k] is None {
        lemma_restore_progress(m, k + 1, step);
    }
}

/// Every step brings the move closer to its end.
pub proof fn steps_lead_on(levels: usize, replies: Seq<Reply>, r: Reply)
    requires
        !(state_after(levels, replies).step matches Step::Report(_)),
    ensures
        progress(state_after(levels, replies.push(r))) > progress(state_after(levels, replies)),
{
    let m = state_after(levels, replies);
    assert(replies.push(r).drop_last() =~= replies);
    let at = Setting {
        source_dir: DirTimes { atime: 0, mtime: 0 },
        dest_dir: DirTimes { atime: 0, mtime: 0 },
        counterparts: Seq::empty(),
        base_dir: DirTimes { atime: 0, mtime: 0 },
        missing: 0,
    };
    lemma_scene(at, levels, replies, Seq::empty());
    match m.step {
        Step::Rename | Step::RemoveSource => {
            lemma_restore_progress(m, 0, dispatch::restore_from(m, 0));
        },
        Step::RestoreCreated(k, _) => {
            lemma_restore_progress(m, k + 1, dispatch::restore_from(m, k + 1));
        },
        _ => {},
    }
}

/// A move that has ended stays so.
pub proof fn ending_is_final(m: TransferView, r: Reply)
    requires
        m.step matches Step::Report(_),
    ensures
        dispatch::advanced(m, r).step == m.step,
{
}

// ---- paths -------------------------------------------------------------------------

/// The temporary file is in the directory of the destination.
pub proof fn temporary_file_is_next_to_the_destination(dst: Seq<u8>)
    requires
        paths::base_name(dst) is Some,
    ensures
        ({
            let name = dispatch::temp_name(paths::base_name(dst));
            let tmp = lineage::renamed(dst, name);
            &&& paths::components(tmp) == paths::components(dst).drop_last().push(
                ComponentView::Normal(name),
            )
            &&& paths::base_name(tmp) == Some(name)
        }),
{
    paths::laws::file_names_are_names(dst);
    lemma_temp_name(paths::base_name(dst)->0);
    paths::laws::renaming_replaces_the_last(dst, dispatch::temp_name(paths::base_name(dst)));
}

proof fn lemma_temp_name(name: Seq<u8>)
    requires
        paths::laws::is_name(name),
    ensures
        paths::laws::is_name(dispatch::temp_name(Some(name))),
{
    let (head, tail) = (".mergerfs-tier."@, ".tmp"@);
    reveal_strlit(".mergerfs-tier.");
    reveal_strlit(".tmp");
    assert(is_ascii_chars(head));
    assert(is_ascii_chars(tail));
    is_ascii_chars_encode_utf8(head);
    is_ascii_chars_encode_utf8(tail);
    let (h, t) = (encode_utf8(head), encode_utf8(tail));
    let all = dispatch::temp_name(Some(name));
    assert(h.len() == 15 && t.len() == 4);
    assert forall|k: int| 0 <= k < head.len() implies head[k] as u8 != SLASH by {}
    assert forall|k: int| 0 <= k < tail.len() implies tail[k] as u8 != SLASH by {}
    if all.contains(SLASH) {
        let k = choose|k: int| 0 <= k < all.len() && all[k] == SLASH;
        if k < 15 {
            assert(all[k] == h[k]);
            assert(head[k] as u8 == h[k]);
        } else if k < 15 + name.len() {
            assert(all[k] == name[k - 15]);
            assert(name.contains(name[k - 15]));
        } else {
            assert(all[k] == t[k - 15 - name.len()]);
            assert(tail[k - 15 - name.len()] as u8 == t[k - 15 - name.len()]);
        }
    }
}

/// The name of the temporary file holds that of the destination, between a beginning
/// and an end that are the same for all; so different files have different ones.
pub proof fn temporary_names_differ(a: Seq<u8>, b: Seq<u8>)
    ensures
        dispatch::temp_name(Some(a)) == dispatch::temp_name(Some(b)) ==> a == b,
{
    let (x, y) = (dispatch::temp_name(Some(a)), dispatch::temp_name(Some(b)));
    let n = encode_utf8(".mergerfs-tier."@).len() as int;
    let m = encode_utf8(".tmp"@).len() as int;
    if x == y {
        assert(x.len() == n + a.len() + m && y.len() == n + b.len() + m);
        assert(a =~= x.subrange(n, x.len() - m));
        assert(b =~= y.subrange(n, y.len() - m));
    }
}

/// The counterpart of a directory is as far below the source branch as the directory is
/// below the destination branch, by the same steps; and only what is on the
/// destination branch has one.
pub proof fn counterpart_is_at_the_same_place(dir: Seq<u8>, dst_root: Seq<u8>, src_root: Seq<u8>)
    requires
        paths::components(dst_root).len() > 0,
    ensures
        dispatch::counterpart_of(dir, dst_root, src_root) is Some <==> paths::is_under(
            dir,
            dst_root,
        ),
        dispatch::counterpart_of(dir, dst_root, src_root) matches Some(c) ==> paths::components(c)
            == paths::components(src_root) + paths::components(dir).skip(
            paths::components(dst_root).len() as int,
        ),
{
    if let Some(rel) = lineage::relative_to(dir, dst_root) {
        let n = paths::components(dst_root).len() as int;
        paths::laws::relative_path_is_the_rest(dir, dst_root);
        paths::laws::relative_path_is_plain(dir, dst_root);
        paths::laws::joining_adds_components(src_root, rel);
        assert(paths::components(dir).skip(n) =~= paths::components(rel));
    }
}

// ---- a list of moves ---------------------------------------------------------------

/// A move that was carried out adds one to the count and its size to the bytes; one
/// that was not adds nothing. In a dry run every move counts.
pub proof fn only_moves_carried_out_count(
    moves: Seq<Move>,
    endings: Seq<Ending>,
    n: nat,
)
    ensures
        dispatch::moved_count(false, endings, 0) == 0,
        dispatch::moved_bytes(moves, false, endings, 0) == 0,
        endings[n as int] == Ending::Moved ==> dispatch::moved_count(false, endings, n + 1)
            == dispatch::moved_count(false, endings, n) + 1 && dispatch::moved_bytes(
            moves,
            false,
            endings,
            n + 1,
        ) == dispatch::moved_bytes(moves, false, endings, n) + moves[n as int].size,
        endings[n as int] != Ending::Moved ==> dispatch::moved_count(false, endings, n + 1)
            == dispatch::moved_count(false, endings, n) && dispatch::moved_bytes(
            moves,
            false,
            endings,
            n + 1,
        ) == dispatch::moved_bytes(moves, false, endings, n),
        dispatch::moved_count(true, endings, n) == n,
        dispatch::moved_bytes(moves, true, endings, n + 1) == dispatch::moved_bytes(
            moves,
            true,
            endings,
            n,
        ) + moves[n as int].size,
    decreases n,
{
    if n > 0 {
        only_moves_carried_out_count(moves, endings, (n - 1) as nat);
    }
}

} // verus!
