use patrick::dispatch::{
    counterpart, tmp_path, DirTimes, Dispatcher, Ending, Reply, Step, Transfer,
};
use patrick::mergerfs::{Branch, BranchMode};
use patrick::policy::Move;
use patrick::tier::{TierBranch, TierMap};

fn times(n: i128) -> DirTimes {
    DirTimes { atime: n, mtime: n + 1 }
}

fn run(levels: usize, replies: &[Reply]) -> (Vec<Step>, Step) {
    let mut m = Transfer::begin(levels);
    let mut steps = Vec::new();
    for r in replies {
        steps.push(m.step);
        m.next(*r);
    }
    (steps, m.step)
}

fn prepared(device: u64) -> Vec<Reply> {
    vec![
        Reply::Stat(true, 5),
        Reply::Times(times(10)),
        Reply::Times(times(20)),
        Reply::Done,
        Reply::Done,
        Reply::Device(device),
    ]
}

fn ends(replies: &[Reply]) -> Step {
    run(2, replies).1
}

#[test]
fn a_rename_on_one_filesystem() {
    let mut replies = prepared(5);
    replies.extend([Reply::Done, Reply::Done, Reply::Done, Reply::Done]);
    let (steps, end) = run(2, &replies);
    assert_eq!(
        steps,
        vec![
            Step::StatSource,
            Step::SnapshotSourceDir,
            Step::SnapshotDestDir,
            Step::ProbeDir(0),
            Step::CreateDirs,
            Step::StatDestDir,
            Step::Rename,
            Step::RestoreDestDir(times(20)),
            Step::ProbeSourceDir,
            Step::RestoreSourceDir(times(10)),
        ]
    );
    assert_eq!(end, Step::Report(Ending::Moved));
}

#[test]
fn a_copy_across_filesystems() {
    let mut replies = prepared(6);
    replies.extend([Reply::Failed, Reply::Done, Reply::Done, Reply::Done, Reply::Done]);
    replies.extend([Reply::Failed, Reply::Failed, Reply::Failed, Reply::Done, Reply::Done]);
    let (steps, end) = run(2, &replies);
    assert_eq!(
        steps[6..],
        [
            Step::ClearTemp,
            Step::OpenSource,
            Step::CreateTemp,
            Step::CopyData,
            Step::Sync,
            Step::SetMode,
            Step::SetOwner,
            Step::SetTimes,
            Step::Publish,
            Step::RemoveSource,
        ]
    );
    assert_eq!(end, Step::RestoreDestDir(times(20)));
}

#[test]
fn created_directories_take_the_times_of_their_counterparts() {
    let replies = [
        Reply::Stat(true, 5),
        Reply::Failed,
        Reply::Failed,
        Reply::Failed,
        Reply::Times(times(30)),
        Reply::Failed,
        Reply::Failed,
        Reply::Failed,
        Reply::Times(times(50)),
        Reply::Done,
        Reply::Device(5),
        Reply::Done,
        Reply::Done,
        Reply::Done,
    ];
    let (steps, end) = run(3, &replies);
    assert_eq!(
        steps[3..],
        [
            Step::ProbeDir(0),
            Step::SnapshotCounterpart(0),
            Step::ProbeDir(1),
            Step::SnapshotCounterpart(1),
            Step::ProbeDir(2),
            Step::SnapshotCounterpart(2),
            Step::CreateDirs,
            Step::StatDestDir,
            Step::Rename,
            Step::RestoreCreated(0, times(30)),
            Step::RestoreCreated(2, times(50)),
        ]
    );
    assert_eq!(end, Step::Report(Ending::Moved));
}

#[test]
fn the_directory_in_which_others_are_created_keeps_its_times() {
    let replies = [
        Reply::Stat(true, 5),
        Reply::Times(times(10)),
        Reply::Failed,
        Reply::Failed,
        Reply::Times(times(30)),
        Reply::Done,
        Reply::Times(times(60)),
        Reply::Done,
        Reply::Device(5),
        Reply::Done,
        Reply::Done,
        Reply::Done,
        Reply::Done,
        Reply::Done,
    ];
    let (steps, end) = run(2, &replies);
    assert_eq!(
        steps[3..],
        [
            Step::ProbeDir(0),
            Step::SnapshotCounterpart(0),
            Step::ProbeDir(1),
            Step::SnapshotBase(1),
            Step::CreateDirs,
            Step::StatDestDir,
            Step::Rename,
            Step::RestoreCreated(0, times(30)),
            Step::RestoreBase(1, times(60)),
            Step::ProbeSourceDir,
            Step::RestoreSourceDir(times(10)),
        ]
    );
    assert_eq!(end, Step::Report(Ending::Moved));
}

#[test]
fn a_dry_run_executes_nothing() {
    let map = tiers();
    assert!(!Dispatcher::new(&map, true).executes());
    assert!(Dispatcher::new(&map, false).executes());
}

#[test]
fn a_source_that_is_no_file_any_more() {
    assert_eq!(ends(&[Reply::Failed]), Step::Report(Ending::Failed));
    assert_eq!(ends(&[Reply::Stat(false, 5)]), Step::Report(Ending::NotRegular));
}

#[test]
fn steps_that_fail() {
    let mut replies = prepared(5);
    replies.push(Reply::Failed);
    assert_eq!(ends(&replies), Step::Report(Ending::Failed));
    for n in 1..5 {
        let mut replies = prepared(6);
        replies.push(Reply::Failed);
        for _ in 1..n {
            replies.push(Reply::Done);
        }
        replies.push(Reply::Failed);
        assert_eq!(ends(&replies), Step::Discard, "{n}");
        replies.push(Reply::Failed);
        assert_eq!(ends(&replies), Step::Report(Ending::Failed), "{n}");
    }
    let mut replies = prepared(6);
    replies.extend([Reply::Done; 8]);
    replies.push(Reply::Failed);
    assert_eq!(ends(&replies), Step::Report(Ending::Failed));
    let mut replies = prepared(6);
    replies.extend([Reply::Done; 9]);
    replies.push(Reply::Failed);
    assert_eq!(ends(&replies), Step::Report(Ending::Failed));
    let mut replies = prepared(5);
    replies[4] = Reply::Failed;
    replies.truncate(5);
    assert_eq!(ends(&replies), Step::Report(Ending::Failed));
}

#[test]
fn an_unknown_device_means_a_copy() {
    let mut replies = prepared(5);
    replies[5] = Reply::Failed;
    assert_eq!(ends(&replies), Step::ClearTemp);
}

#[test]
fn a_source_directory_that_is_gone_is_not_restored() {
    let mut replies = prepared(5);
    replies.extend([Reply::Done, Reply::Done, Reply::Failed]);
    assert_eq!(ends(&replies), Step::Report(Ending::Moved));
}

#[test]
fn temporary_names() {
    assert_eq!(tmp_path(b"/b1/sub/foo.txt"), b"/b1/sub/.mergerfs-tier.foo.txt.tmp".to_vec());
    assert_eq!(tmp_path(b"/"), b"/.mergerfs-tier..tmp".to_vec());
}

#[test]
fn counterparts() {
    assert_eq!(counterpart(b"/b1/sub/x", b"/b1", b"/b0"), Some(b"/b0/sub/x".to_vec()));
    assert_eq!(counterpart(b"/b1", b"/b1", b"/b0"), Some(b"/b0/".to_vec()));
    assert_eq!(counterpart(b"/", b"/b1", b"/b0"), None);
}

fn tiers() -> TierMap {
    let tb = |path: &str, tier: usize| TierBranch {
        branch: Branch { path: path.as_bytes().to_vec(), mode: BranchMode::ReadWrite },
        tier,
        label: String::new(),
    };
    TierMap { branches: vec![tb("/b0", 0), tb("/b1/", 1)], max_tier: 1 }
}

fn planned(size: u64) -> Move {
    Move {
        rel: b"sub/foo.txt".to_vec(),
        size,
        src_branch_idx: 0,
        dst_branch_idx: 1,
        atime: 0,
        mtime: 0,
        reason: "test".to_string(),
    }
}

#[test]
fn routes() {
    let map = tiers();
    let r = Dispatcher::new(&map, false).route(&planned(1));
    assert_eq!(r.src_root, b"/b0".to_vec());
    assert_eq!(r.dst_root, b"/b1/".to_vec());
    assert_eq!(r.src, b"/b0/sub/foo.txt".to_vec());
    assert_eq!(r.dst, b"/b1/sub/foo.txt".to_vec());
}

#[test]
fn cycles_are_summed_up() {
    let map = tiers();
    let moves = vec![planned(1), planned(2), planned(4), planned(8)];
    let endings = vec![Ending::Moved, Ending::Failed, Ending::NotRegular, Ending::Moved];
    let s = Dispatcher::new(&map, false).run(&moves, &endings);
    assert_eq!((s.moved, s.bytes, s.failed), (2, 9, 2));
    let s = Dispatcher::new(&map, true).run(&moves, &Vec::new());
    assert_eq!((s.moved, s.bytes, s.failed), (4, 15, 0));
}
