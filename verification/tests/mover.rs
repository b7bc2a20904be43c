use patrick::mover::{
    directive, execute, temp_name, temp_path, xattr_names, Directive, FileStat, Outcome, Relocation,
    Reply, Report, Skip, Step,
};
use patrick::plan::Move;

fn stat() -> FileStat {
    FileStat { is_file: true, nlink: 1, ino: 7, size: 3, mtime: 100, mtime_nsec: 5 }
}

/// Runs a move with the given replies, and tells the steps that were asked for.
fn run(dirs: usize, replies: &[Reply]) -> (Vec<Step>, Step) {
    let mut m = Relocation::begin(dirs);
    let mut steps = Vec::new();
    for r in replies {
        steps.push(m.step);
        m = m.next(*r);
    }
    (steps, m.step)
}

fn copied() -> Vec<Reply> {
    vec![
        Reply::Stat(stat()),
        Reply::NotFound,
        Reply::Done,
        Reply::Done,
        Reply::Done,
        Reply::Data,
        Reply::Done,
        Reply::Done,
        Reply::End,
        Reply::Done,
        Reply::NotPermitted,
        Reply::Done,
        Reply::Failed,
        Reply::Done,
    ]
}

fn ends(replies: Vec<Reply>) -> Step {
    run(0, &replies).1
}

#[test]
fn a_move_from_end_to_end() {
    let mut replies = copied();
    replies.extend([Reply::Stat(stat()), Reply::Done, Reply::Done, Reply::Failed]);
    let (steps, end) = run(0, &replies);
    assert_eq!(
        steps,
        vec![
            Step::StatSource,
            Step::ProbeDestination,
            Step::OpenSource,
            Step::CreateTemp,
            Step::Poll,
            Step::Read,
            Step::Write,
            Step::Poll,
            Step::Read,
            Step::Sync,
            Step::SetOwner,
            Step::SetMode,
            Step::CopyXattrs,
            Step::SetTimes,
            Step::RestatSource,
            Step::Publish,
            Step::RemoveSource,
            Step::SyncDirs,
        ]
    );
    assert_eq!(end, Step::Report(Outcome::Done));
}

#[test]
fn parents_are_mirrored() {
    let replies = [
        Reply::Stat(stat()),
        Reply::Failed,
        Reply::Done,
        Reply::NotFound,
        Reply::Done,
        Reply::Failed,
        Reply::NotFound,
        Reply::Exists,
    ];
    let (steps, end) = run(3, &replies);
    assert_eq!(
        steps[2..],
        [
            Step::ProbeDir(0),
            Step::ProbeDir(1),
            Step::MakeDir(1),
            Step::DressDir(1),
            Step::ProbeDir(2),
            Step::MakeDir(2),
        ]
    );
    assert_eq!(end, Step::OpenSource);
    assert_eq!(
        run(1, &[Reply::Stat(stat()), Reply::NotFound, Reply::Failed]).1,
        Step::Report(Outcome::Failed)
    );
    assert_eq!(
        run(1, &[Reply::Stat(stat()), Reply::NotFound, Reply::NotFound, Reply::Failed]).1,
        Step::Report(Outcome::Failed)
    );
}

#[test]
fn files_that_are_left_where_they_are() {
    let skipped = |s: Skip| Step::Report(Outcome::Skipped(s));
    assert_eq!(ends(vec![Reply::NotFound]), skipped(Skip::SourceVanished));
    assert_eq!(ends(vec![Reply::Failed]), Step::Report(Outcome::Failed));
    let dir = FileStat { is_file: false, ..stat() };
    assert_eq!(ends(vec![Reply::Stat(dir)]), skipped(Skip::NotRegular));
    let linked = FileStat { nlink: 2, ..stat() };
    assert_eq!(ends(vec![Reply::Stat(linked)]), skipped(Skip::Hardlinked));
    assert_eq!(ends(vec![Reply::Stat(stat()), Reply::Stat(stat())]), skipped(Skip::DestinationExists));
}

#[test]
fn a_started_copy_is_discarded() {
    let mut replies = copied();
    replies.truncate(4);
    replies.push(Reply::Stop);
    assert_eq!(ends(replies.clone()), Step::Discard);
    replies.push(Reply::Failed);
    assert_eq!(ends(replies), Step::Report(Outcome::Skipped(Skip::Interrupted)));
    for n in [5, 6, 9, 11, 13] {
        let mut replies = copied();
        replies.truncate(n);
        replies.push(Reply::Failed);
        assert_eq!(ends(replies.clone()), Step::Discard, "{n}");
        replies.push(Reply::Done);
        assert_eq!(ends(replies), Step::Report(Outcome::Failed), "{n}");
    }
}

#[test]
fn a_copy_that_was_not_started_leaves_nothing_to_discard() {
    let mut replies = copied();
    replies.truncate(3);
    replies.push(Reply::Exists);
    assert_eq!(ends(replies), Step::Report(Outcome::Failed));
}

#[test]
fn a_source_that_changed_is_not_published() {
    for after in [
        FileStat { ino: 8, ..stat() },
        FileStat { size: 4, ..stat() },
        FileStat { mtime: 101, ..stat() },
        FileStat { mtime_nsec: 6, ..stat() },
    ] {
        let mut replies = copied();
        replies.extend([Reply::Stat(after), Reply::Done]);
        assert_eq!(ends(replies), Step::Report(Outcome::Skipped(Skip::SourceChanged)));
    }
    let mut replies = copied();
    replies.extend([Reply::Stat(FileStat { nlink: 3, ..stat() })]);
    assert_eq!(ends(replies), Step::Publish);
}

#[test]
fn nothing_is_replaced() {
    let mut replies = copied();
    replies.extend([Reply::Stat(stat()), Reply::Exists, Reply::Done]);
    assert_eq!(ends(replies), Step::Report(Outcome::Skipped(Skip::DestinationAppeared)));
}

#[test]
fn a_source_that_stays_is_no_duplicate() {
    let mut replies = copied();
    replies.extend([Reply::Stat(stat()), Reply::Done, Reply::Failed]);
    assert_eq!(ends(replies.clone()), Step::Withdraw);
    replies.push(Reply::Done);
    assert_eq!(ends(replies.clone()), Step::Discard);
    replies.push(Reply::Failed);
    assert_eq!(ends(replies.clone()), Step::Report(Outcome::Reverted));
    replies.push(Reply::Done);
    assert_eq!(ends(replies), Step::Report(Outcome::Reverted));
}

#[test]
fn reasons_in_words() {
    assert_eq!(Skip::SourceVanished.why(), "source vanished");
    assert_eq!(Skip::NotRegular.why(), "not a regular file anymore");
    assert_eq!(Skip::Hardlinked.why(), "file has hardlinks");
    assert_eq!(Skip::DestinationExists.why(), "destination path already exists on target branch");
    assert_eq!(Skip::Interrupted.why(), "interrupted by shutdown");
    assert_eq!(Skip::SourceChanged.why(), "source changed during copy");
    assert_eq!(Skip::DestinationAppeared.why(), "destination appeared during copy");
}

#[test]
fn temporary_files() {
    assert_eq!(temp_name(42, 1700), ".tierd.tmp.42.1700");
    assert_eq!(temp_path(b"/b", b"/b/x/f", 1, -2), b"/b/x/.tierd.tmp.1.-2".to_vec());
}

#[test]
fn attribute_names() {
    assert_eq!(xattr_names(b"user.a\0user.b\0"), vec![b"user.a".to_vec(), b"user.b".to_vec()]);
    assert!(xattr_names(b"").is_empty());
}

fn moves(sizes: &[u64]) -> Vec<Move> {
    sizes
        .iter()
        .map(|s| Move { rel: Vec::new(), from: 0, to: 1, size: *s, reason: "pin" })
        .collect()
}

#[test]
fn moves_are_summed_up() {
    let reports = vec![
        Report::Ended(Outcome::Done),
        Report::Ended(Outcome::Skipped(Skip::Hardlinked)),
        Report::Ended(Outcome::Failed),
        Report::Ended(Outcome::Reverted),
        Report::Previewed,
        Report::Aborted,
        Report::Ended(Outcome::Done),
    ];
    let s = execute(&moves(&[1, 2, 4, 8, 16, 32, 64]), &reports);
    assert_eq!((s.files, s.bytes, s.skipped, s.errors), (2, 17, 1, 2));
    let s = execute(&moves(&[]), &Vec::new());
    assert_eq!((s.files, s.bytes, s.skipped, s.errors), (0, 0, 0, 0));
}

#[test]
fn what_is_done_about_a_move() {
    assert_eq!(directive(true, false), Directive::Abort);
    assert_eq!(directive(true, true), Directive::Abort);
    assert_eq!(directive(false, true), Directive::Preview);
    assert_eq!(directive(false, false), Directive::Relocate);
}
