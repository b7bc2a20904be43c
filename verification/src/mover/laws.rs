//! What holds of every run of a move.

use super::{FileStat, Outcome, Relocation, Reply, Report, Skip, Stats, Step};
use crate::lineage;
use crate::mover;
use crate::paths;
use crate::paths::{ComponentView, SLASH};
use crate::plan::Move;
use crate::scan;
use crate::text;
use vstd::prelude::*;
#[allow(unused_imports)]
use vstd::utf8::*;

verus! {

/// Where the file is.
pub struct Places {
    /// It is at its source.
    pub source: bool,
    /// There is a temporary file.
    pub temp: bool,
    /// The copy was written to its end and brought to the disk.
    pub whole: bool,
    /// The copy is at the destination.
    pub dest: bool,
    /// The copy was given the mode of the source.
    pub mode: bool,
    /// The copy was given the times of the source.
    pub times: bool,
}

/// What a step does to the places, given what came of it: one that was not done
/// does nothing.
pub open spec fn affected(w: Places, s: Step, r: Reply) -> Places {
    if r != Reply::Done {
        w
    } else {
        match s {
            Step::CreateTemp => Places {
                temp: true,
                whole: false,
                mode: false,
                times: false,
                ..w
            },
            // writing sets the times
            Step::Write => Places { times: false, ..w },
            Step::Sync => Places { whole: true, ..w },
            Step::SetMode => Places { mode: true, ..w },
            Step::SetTimes => Places { times: true, ..w },
            Step::Publish => Places { temp: false, dest: true, ..w },
            Step::RemoveSource => Places { source: false, ..w },
            Step::Withdraw => Places { dest: false, ..w },
            Step::Discard => Places { temp: false, ..w },
            _ => w,
        }
    }
}

/// The state after the replies.
pub open spec fn state_after(dirs: usize, replies: Seq<Reply>) -> Relocation
    decreases replies.len(),
{
    if replies.len() == 0 {
        mover::begun(dirs)
    } else {
        mover::advanced(state_after(dirs, replies.drop_last()), replies.last())
    }
}

/// The places after the replies, for a file that is at its source only.
pub open spec fn places_after(dirs: usize, replies: Seq<Reply>) -> Places
    decreases replies.len(),
{
    if replies.len() == 0 {
        Places {
            source: true,
            temp: false,
            whole: false,
            dest: false,
            mode: false,
            times: false,
        }
    } else {
        affected(
            places_after(dirs, replies.drop_last()),
            state_after(dirs, replies.drop_last()).step,
            replies.last(),
        )
    }
}

/// Every removal of a copy was done.
pub open spec fn removals_done(dirs: usize, replies: Seq<Reply>) -> bool {
    forall|k: int|
        0 <= k < replies.len() && (state_after(dirs, #[trigger] replies.take(k)).step
            == Step::Withdraw || state_after(dirs, replies.take(k)).step == Step::Discard)
            ==> replies[k] == Reply::Done
}

/// What each state says of the places.
spec fn fits(m: Relocation, w: Places, clean: bool) -> bool {
    let dressed = w.whole && w.mode && w.times;
    match m.step {
        Step::SyncDirs => !w.source && w.dest && dressed && !w.temp,
        Step::Withdraw => w.source && w.dest && dressed && !w.temp && m.ending == Outcome::Reverted,
        Step::RemoveSource => w.source && w.dest && dressed && !w.temp,
        Step::Report(Outcome::Done) => !w.source && w.dest && dressed && !w.temp,
        Step::Report(_) => w.source && (w.dest ==> dressed) && (clean ==> !w.dest && !w.temp),
        Step::Discard => w.source && m.ending != Outcome::Done && (w.dest ==> dressed) && (clean
            ==> !w.dest),
        Step::Poll | Step::Read | Step::Write | Step::Sync => w.source && w.temp && !w.dest,
        Step::SetOwner | Step::SetMode => w.source && w.temp && w.whole && !w.dest,
        Step::CopyXattrs | Step::SetTimes => w.source && w.temp && w.whole && w.mode && !w.dest,
        Step::RestatSource | Step::Publish => w.source && w.temp && dressed && !w.dest,
        _ => w.source && !w.temp && !w.dest && m.ending != Outcome::Done,
    }
}

proof fn lemma_fits(dirs: usize, replies: Seq<Reply>)
    ensures
        fits(
            state_after(dirs, replies),
            places_after(dirs, replies),
            removals_done(dirs, replies),
        ),
    decreases replies.len(),
{
    if replies.len() > 0 {
        let front = replies.drop_last();
        lemma_fits(dirs, front);
        let m = state_after(dirs, front);
        let r = replies.last();
        let w = places_after(dirs, front);
        assert(front =~= replies.take(replies.len() - 1));
        if removals_done(dirs, replies) {
            assert forall|k: int|
                0 <= k < front.len() && (state_after(dirs, #[trigger] front.take(k)).step
                    == Step::Withdraw || state_after(dirs, front.take(k)).step
                    == Step::Discard) implies front[k] == Reply::Done by {
                assert(front.take(k) =~= replies.take(k));
                assert(front[k] == replies[k]);
            }
            assert(removals_done(dirs, front));
            assert(m.step == Step::Withdraw || m.step == Step::Discard ==> r == Reply::Done);
        }
    }
}

/// At no time is the file lost: it is at its source, or whole at its destination.
pub proof fn file_is_never_lost(dirs: usize, replies: Seq<Reply>)
    ensures
        ({
            let w = places_after(dirs, replies);
            w.source || (w.dest && w.whole)
        }),
{
    lemma_fits(dirs, replies);
}

/// What is published at the destination is whole and has the mode and the times
/// of the source.
pub proof fn published_is_whole(dirs: usize, replies: Seq<Reply>)
    ensures
        ({
            let w = places_after(dirs, replies);
            w.dest ==> w.whole && w.mode && w.times
        }),
{
    lemma_fits(dirs, replies);
}

/// A move that ends as done has taken the file, with its mode and its times, from
/// its source to its destination; any other leaves it at its source. Where every
/// removal of a copy was done, nothing else is left behind.
pub proof fn ending_is_true(dirs: usize, replies: Seq<Reply>)
    ensures
        ({
            let w = places_after(dirs, replies);
            match state_after(dirs, replies).step {
                Step::Report(Outcome::Done) => !w.source && w.dest && w.whole && w.mode && w.times
                    && !w.temp,
                Step::Report(_) => w.source && (removals_done(dirs, replies) ==> !w.dest
                    && !w.temp),
                _ => true,
            }
        }),
{
    lemma_fits(dirs, replies);
}

/// A move that has ended stays so.
pub proof fn ending_is_final(m: Relocation, r: Reply)
    requires
        m.step matches Step::Report(_),
    ensures
        mover::advanced(m, r) == m,
{
}

/// A copy is published only if the source did not change while it was copied.
pub proof fn published_only_unchanged(m: Relocation, r: Reply)
    requires
        mover::advanced(m, r).step == Step::Publish,
    ensures
        m.step == Step::RestatSource,
        r matches Reply::Stat(after) && mover::unchanged(m.before, after),
{
}

/// How far a move has come.
pub open spec fn progress(m: Relocation) -> int {
    let d = 3 * m.dirs;
    match m.step {
        Step::StatSource => 0,
        Step::ProbeDestination => 1,
        Step::ProbeDir(k) => 2 + 3 * k,
        Step::MakeDir(k) => 3 + 3 * k,
        Step::DressDir(k) => 4 + 3 * k,
        Step::OpenSource => 2 + d,
        Step::CreateTemp => 3 + d,
        Step::Poll => 4 + d,
        Step::Read => 5 + d,
        Step::Write => 6 + d,
        Step::Sync => 7 + d,
        Step::SetOwner => 8 + d,
        Step::SetMode => 9 + d,
        Step::CopyXattrs => 10 + d,
        Step::SetTimes => 11 + d,
        Step::RestatSource => 12 + d,
        Step::Publish => 13 + d,
        Step::RemoveSource => 14 + d,
        Step::Withdraw => 15 + d,
        Step::SyncDirs => 16 + d,
        Step::Discard => 17 + d,
        Step::Report(_) => 18 + d,
    }
}

/// Every step brings the move closer to its end, except that more is read after
/// something was written.
pub proof fn steps_lead_on(m: Relocation, r: Reply)
    requires
        m.wf(),
        !(m.step matches Step::Report(_)),
        !(m.step == Step::Write && r == Reply::Done),
    ensures
        progress(mover::advanced(m, r)) > progress(m),
{
}

// ---- the way of a move -------------------------------------------------------------

/// The step taken before the last `n` replies.
pub open spec fn step_before(dirs: usize, replies: Seq<Reply>, n: int) -> Step {
    state_after(dirs, replies.take(replies.len() - n)).step
}

proof fn lemma_before(dirs: usize, replies: Seq<Reply>)
    requires
        replies.len() > 0,
    ensures
        state_after(dirs, replies) == mover::advanced(
            state_after(dirs, replies.take(replies.len() - 1)),
            replies.last(),
        ),
{
    assert(replies.drop_last() =~= replies.take(replies.len() - 1));
}

/// Before a copy is published its source was read to the end, it was brought to the
/// disk, and then given its owner, its mode, its extended attributes and, at last, its
/// times; and the source was looked at again.
pub proof fn copy_is_dressed_before_it_is_published(dirs: usize, replies: Seq<Reply>)
    requires
        state_after(dirs, replies).step == Step::Publish,
    ensures
        replies.len() >= 7,
        step_before(dirs, replies, 1) == Step::RestatSource,
        step_before(dirs, replies, 2) == Step::SetTimes,
        replies[replies.len() - 2] == Reply::Done,
        step_before(dirs, replies, 3) == Step::CopyXattrs,
        step_before(dirs, replies, 4) == Step::SetMode,
        replies[replies.len() - 4] == Reply::Done,
        step_before(dirs, replies, 5) == Step::SetOwner,
        replies[replies.len() - 5] == Reply::Done || replies[replies.len() - 5]
            == Reply::NotPermitted,
        step_before(dirs, replies, 6) == Step::Sync,
        replies[replies.len() - 6] == Reply::Done,
        step_before(dirs, replies, 7) == Step::Read,
        replies[replies.len() - 7] == Reply::End,
{
    let n = replies.len() as int;
    lemma_before(dirs, replies);
    let a = replies.take(n - 1);
    lemma_before(dirs, a);
    let b = replies.take(n - 2);
    assert(a.take(n - 2) =~= b && a.last() == replies[n - 2]);
    lemma_before(dirs, b);
    let c = replies.take(n - 3);
    assert(b.take(n - 3) =~= c && b.last() == replies[n - 3]);
    lemma_before(dirs, c);
    let d = replies.take(n - 4);
    assert(c.take(n - 4) =~= d && c.last() == replies[n - 4]);
    lemma_before(dirs, d);
    let e = replies.take(n - 5);
    assert(d.take(n - 5) =~= e && d.last() == replies[n - 5]);
    lemma_before(dirs, e);
    let f = replies.take(n - 6);
    assert(e.take(n - 6) =~= f && e.last() == replies[n - 6]);
    lemma_before(dirs, f);
    assert(f.take(n - 7) =~= replies.take(n - 7) && f.last() == replies[n - 7]);
}

proof fn lemma_remembered(dirs: usize, replies: Seq<Reply>, first: FileStat)
    requires
        replies.len() > 0,
        replies[0] == Reply::Stat(first),
    ensures
        state_after(dirs, replies).before == first,
        state_after(dirs, replies).step != Step::StatSource,
    decreases replies.len(),
{
    let front = replies.drop_last();
    if replies.len() == 1 {
        assert(front =~= Seq::<Reply>::empty());
        assert(state_after(dirs, front) == mover::begun(dirs));
    } else {
        assert(front[0] == replies[0]);
        lemma_remembered(dirs, front, first);
    }
}

/// A copy is published exactly if the source, when looked at again, is the same file as
/// at first, of the same size and modified at the same time; otherwise it is discarded,
/// since the source changed.
pub proof fn changed_source_is_not_published(
    dirs: usize,
    replies: Seq<Reply>,
    first: FileStat,
    again: FileStat,
)
    requires
        replies.len() > 0,
        replies[0] == Reply::Stat(first),
        state_after(dirs, replies).step == Step::RestatSource,
    ensures
        ({
            let m = state_after(dirs, replies.push(Reply::Stat(again)));
            let same = again.ino == first.ino && again.size == first.size && again.mtime
                == first.mtime && again.mtime_nsec == first.mtime_nsec;
            &&& same ==> m.step == Step::Publish
            &&& !same ==> m.step == Step::Discard && m.ending == Outcome::Skipped(
                Skip::SourceChanged,
            )
        }),
{
    lemma_remembered(dirs, replies, first);
    assert(replies.push(Reply::Stat(again)).drop_last() =~= replies);
}

/// A file is moved only if it is a regular one with a single name, and nothing is at
/// its destination; else it is skipped, for that reason.
pub proof fn unfit_files_are_skipped(dirs: usize, first: Reply)
    ensures
        ({
            let m = state_after(dirs, seq![first]);
            match first {
                Reply::Stat(s) => {
                    &&& !s.is_file ==> m.step == Step::Report(Outcome::Skipped(Skip::NotRegular))
                    &&& s.is_file && s.nlink > 1 ==> m.step == Step::Report(
                        Outcome::Skipped(Skip::Hardlinked),
                    )
                    &&& s.is_file && s.nlink <= 1 ==> m.step == Step::ProbeDestination
                },
                Reply::NotFound => m.step == Step::Report(Outcome::Skipped(Skip::SourceVanished)),
                _ => m.step == Step::Report(Outcome::Failed),
            }
        }),
        forall|m: Relocation, r: Reply|
            m.step == Step::ProbeDestination && (r == Reply::Done || r matches Reply::Stat(_))
                ==> (#[trigger] mover::advanced(m, r)).step == Step::Report(
                Outcome::Skipped(Skip::DestinationExists),
            ),
{
    assert(seq![first].drop_last() =~= Seq::<Reply>::empty());
    assert(state_after(dirs, Seq::<Reply>::empty()) == mover::begun(dirs));
}

/// No directory on the way is passed over: after one comes the next, and after the last
/// the copy begins; one that is missing is created, and dressed once it is.
pub proof fn directories_are_made_one_by_one(m: Relocation, k: usize, r: Reply)
    requires
        k < m.dirs,
        m.step == Step::ProbeDir(k) || m.step == Step::MakeDir(k) || m.step == Step::DressDir(k),
    ensures
        ({
            let s = mover::advanced(m, r).step;
            let next = if k + 1 < m.dirs {
                Step::ProbeDir((k + 1) as usize)
            } else {
                Step::OpenSource
            };
            &&& m.step == Step::ProbeDir(k) && r == Reply::NotFound ==> s == Step::MakeDir(k)
            &&& m.step == Step::ProbeDir(k) && r == Reply::Done ==> s == next
            &&& m.step == Step::MakeDir(k) && r == Reply::Done ==> s == Step::DressDir(k)
            &&& m.step == Step::MakeDir(k) && r == Reply::Exists ==> s == next
            &&& m.step == Step::DressDir(k) ==> s == next
        }),
{
}

/// The reply to the step is none with which the move can go on: a step that is needed
/// was not done.
pub open spec fn hinders(s: Step, r: Reply) -> bool {
    match s {
        Step::OpenSource
        | Step::CreateTemp
        | Step::Write
        | Step::Sync
        | Step::SetMode
        | Step::SetTimes => r != Reply::Done,
        Step::SetOwner => r != Reply::Done && r != Reply::NotPermitted,
        Step::Publish => r != Reply::Done && r != Reply::Exists,
        Step::Read => r != Reply::Data && r != Reply::End,
        Step::MakeDir(_) => r != Reply::Done && r != Reply::Exists,
        Step::ProbeDir(_) => r != Reply::Done && r != Reply::NotFound && !(r matches Reply::Stat(
            _,
        )),
        Step::StatSource => r != Reply::NotFound && !(r matches Reply::Stat(_)),
        Step::RestatSource => !(r matches Reply::Stat(_)),
        _ => false,
    }
}

/// A move comes to a failure exactly where a step that it needs was not done.
pub proof fn failure_has_a_cause(m: Relocation, r: Reply)
    requires
        !(m.step matches Step::Report(_)),
        m.step != Step::Discard,
    ensures
        ({
            let n = mover::advanced(m, r);
            (n.step == Step::Report(Outcome::Failed) || (n.step == Step::Discard && n.ending
                == Outcome::Failed)) <==> hinders(m.step, r) || (m.step == Step::Withdraw
                && m.ending == Outcome::Failed)
        }),
{
}

/// A shutdown interrupts a copy, and nothing else does.
pub proof fn only_a_shutdown_interrupts(m: Relocation, r: Reply)
    requires
        !(m.step matches Step::Report(_)),
        m.step != Step::Discard,
        m.step != Step::Withdraw,
    ensures
        ({
            let n = mover::advanced(m, r);
            (n.step == Step::Discard && n.ending == Outcome::Skipped(Skip::Interrupted)) <==> m.step
                == Step::Poll && r == Reply::Stop
        }),
{
}

/// Before each piece that is read a shutdown is asked for; each piece that was read is
/// written, and what follows the last one is to bring the copy to the disk.
pub proof fn each_piece_is_polled_for_and_written(m: Relocation, r: Reply)
    ensures
        mover::advanced(m, r).step == Step::Read <==> m.step == Step::Poll && r != Reply::Stop,
        mover::advanced(m, r).step == Step::Write <==> m.step == Step::Read && r == Reply::Data,
        mover::advanced(m, r).step == Step::Sync <==> m.step == Step::Read && r == Reply::End,
        mover::advanced(m, r).step == Step::Poll <==> r == Reply::Done && (m.step == Step::Write
            || m.step == Step::CreateTemp),
{
}

/// A move counts as done once both directories were brought to the disk, which is
/// tried as soon as the source is gone, and only then; whether that succeeds makes no
/// difference.
pub proof fn done_means_directories_synced(m: Relocation, r: Reply)
    requires
        !(m.step matches Step::Report(_)),
        m.step != Step::Discard,
    ensures
        mover::advanced(m, r).step == Step::Report(Outcome::Done) <==> m.step == Step::SyncDirs,
        mover::advanced(m, r).step == Step::SyncDirs <==> m.step == Step::RemoveSource && r
            == Reply::Done,
        mover::advanced(m, r).step == Step::RemoveSource <==> m.step == Step::Publish && r
            == Reply::Done,
{
}

// ---- names -------------------------------------------------------------------------

/// The name of a temporary file is one by which a scan knows it, so that it is removed
/// if it is left behind.
pub proof fn temporary_names_are_known(pid: u32, now: i64)
    ensures
        scan::is_temp(encode_utf8(mover::temp_name_of(pid, now))),
        paths::laws::is_name(encode_utf8(mover::temp_name_of(pid, now))),
{
    let head = ".tierd.tmp."@;
    let chars = mover::temp_name_of(pid, now);
    reveal_strlit(".tierd.tmp.");
    text::laws::decimal_form_stands_for_the_number(pid as nat);
    let digits = text::decimal(pid as nat);
    let size = if now < 0 {
        -(now as int)
    } else {
        now as int
    };
    text::laws::decimal_form_stands_for_the_number(size as nat);
    let time = text::signed_decimal(now as int);
    assert forall|k: int| 0 <= k < chars.len() implies '-' <= #[trigger] chars[k] <= 'z' && chars[k]
        != '/' by {
        if k < head.len() {
            assert(chars[k] == head[k]);
        } else if k < head.len() + digits.len() {
            assert(chars[k] == digits[k - head.len()]);
        } else if k == head.len() + digits.len() {
            assert(chars[k] == '.');
        } else {
            let j = k - head.len() - digits.len() - 1;
            assert(chars[k] == time[j]);
            if now < 0 && j > 0 {
                assert(time[j] == text::decimal(size as nat)[j - 1]);
            }
        }
    }
    assert(is_ascii_chars(chars));
    assert(is_ascii_chars(head));
    is_ascii_chars_encode_utf8(chars);
    is_ascii_chars_encode_utf8(head);
    let name = encode_utf8(chars);
    assert(name.take(head.len() as int) =~= encode_utf8(head)) by {
        assert forall|k: int| 0 <= k < head.len() implies name[k] == encode_utf8(head)[k] by {
            assert(chars[k] == head[k]);
        }
    }
    assert(!name.contains(SLASH)) by {
        if name.contains(SLASH) {
            let k = choose|k: int| 0 <= k < name.len() && name[k] == SLASH;
            assert(chars[k] as u8 == name[k]);
            assert('-' <= chars[k] <= 'z' && chars[k] != '/');
        }
    }
    assert(name.len() > 2);
}

/// Two processes never use the same name in one second.
pub proof fn temporary_names_of_a_second_tell_processes_apart(a: u32, b: u32, now: i64)
    requires
        mover::temp_name_of(a, now) == mover::temp_name_of(b, now),
    ensures
        a == b,
{
    let head = ".tierd.tmp."@;
    let (x, y) = (text::decimal(a as nat), text::decimal(b as nat));
    let tail = seq!['.'] + text::signed_decimal(now as int);
    text::laws::decimal_form_stands_for_the_number(a as nat);
    text::laws::decimal_form_stands_for_the_number(b as nat);
    let (p, q) = (mover::temp_name_of(a, now), mover::temp_name_of(b, now));
    assert(p =~= head + x + tail);
    assert(q =~= head + y + tail);
    assert(x =~= p.subrange(head.len() as int, p.len() - tail.len()));
    assert(y =~= q.subrange(head.len() as int, q.len() - tail.len()));
}

/// The temporary file is in the directory of the destination.
pub proof fn temporary_file_is_next_to_the_destination(
    dst_root: Seq<u8>,
    dst: Seq<u8>,
    pid: u32,
    now: i64,
)
    requires
        lineage::parent_of(dst) is Some,
    ensures
        paths::components(mover::temp_path_of(dst_root, dst, pid, now)) == paths::components(
            dst,
        ).drop_last().push(ComponentView::Normal(encode_utf8(mover::temp_name_of(pid, now)))),
{
    let name = encode_utf8(mover::temp_name_of(pid, now));
    let dir = lineage::parent_of(dst)->0;
    temporary_names_are_known(pid, now);
    paths::laws::parent_lacks_the_last(dst);
    paths::laws::name_is_one_component(name);
    paths::laws::joining_adds_components(dir, name);
    assert(paths::components(dir) + seq![ComponentView::Normal(name)] =~= paths::components(
        dst,
    ).drop_last().push(ComponentView::Normal(name)));
}

/// A list of extended attributes gives each name that it holds, up to its NUL, in turn.
pub proof fn each_name_ends_in_nul(name: Seq<u8>, rest: Seq<u8>)
    requires
        name.len() > 0,
        !name.contains(0u8),
    ensures
        mover::names_in(name.push(0u8) + rest) == seq![name] + mover::names_in(rest),
        mover::names_in(Seq::<u8>::empty()).len() == 0,
{
    text::laws::filled_on_both_sides(name, 0u8, rest);
    text::laws::one_filled_piece(name, 0u8);
    text::laws::one_filled_piece(Seq::<u8>::empty(), 0u8);
}

// ---- a list of moves ---------------------------------------------------------------

proof fn lemma_number_on(reports: Seq<Report>, r: Report, pred: spec_fn(Report) -> bool)
    ensures
        mover::number(reports.push(r), pred) == mover::number(reports, pred) + if pred(r) {
            1int
        } else {
            0
        },
{
    assert(reports.push(r).drop_last() =~= reports);
}

/// One more report adds to what it is about, and to nothing else: a move that was made,
/// or would have been, counts with its size, one that was skipped and one that failed
/// count as such.
pub proof fn each_report_counts_once(
    moves: Seq<Move>,
    reports: Seq<Report>,
    r: Report,
    s: Stats,
    t: Stats,
)
    requires
        mover::summed(moves, reports, s),
        mover::summed(moves, reports.push(r), t),
        r != Report::Aborted,
    ensures
        match r {
            Report::Previewed | Report::Ended(Outcome::Done) => t.files == s.files + 1 && t.bytes
                == s.bytes + moves[reports.len() as int].size && t.skipped == s.skipped && t.errors
                == s.errors,
            Report::Ended(Outcome::Skipped(_)) => t.files == s.files && t.bytes == s.bytes
                && t.skipped == s.skipped + 1 && t.errors == s.errors,
            _ => t.files == s.files && t.bytes == s.bytes && t.skipped == s.skipped && t.errors
                == s.errors + 1,
        },
        mover::summed(moves, Seq::empty(), s) ==> s.files == 0 && s.bytes == 0 && s.skipped == 0
            && s.errors == 0,
{
    lemma_number_on(reports, r, |x: Report| mover::counts_as_moved(x));
    lemma_number_on(reports, r, |x: Report| x matches Report::Ended(Outcome::Skipped(_)));
    lemma_number_on(
        reports,
        r,
        |x: Report| x == Report::Ended(Outcome::Failed) || x == Report::Ended(Outcome::Reverted),
    );
    assert(reports.push(r).drop_last() =~= reports);
}

/// An abort ends the list: what follows does not count.
pub proof fn nothing_counts_after_an_abort(before: Seq<Report>, after: Seq<Report>)
    requires
        !before.contains(Report::Aborted),
    ensures
        mover::effective(before.push(Report::Aborted) + after) == before,
        mover::effective(before) == before,
{
    let all = before.push(Report::Aborted) + after;
    text::lemma_first_of(all, Report::Aborted);
    text::lemma_first_of(before, Report::Aborted);
    let i = text::first_of(all, Report::Aborted);
    assert(all[before.len() as int] == Report::Aborted);
    if i < before.len() {
        assert(before.contains(before[i]));
        assert(all[i] == before[i]);
    }
    assert(all.take(i) =~= before);
    let j = text::first_of(before, Report::Aborted);
    if j < before.len() {
        assert(before.contains(before[j]));
    }
    assert(before.take(j) =~= before);
}

/// The reasons for which a file is skipped are told apart.
pub proof fn skips_are_told_apart(a: Skip, b: Skip)
    ensures
        mover::reason_of(a) == mover::reason_of(b) ==> a == b,
{
    reveal_strlit("source vanished");
    reveal_strlit("not a regular file anymore");
    reveal_strlit("file has hardlinks");
    reveal_strlit("destination path already exists on target branch");
    reveal_strlit("interrupted by shutdown");
    reveal_strlit("source changed during copy");
    reveal_strlit("destination appeared during copy");
    assert("not a regular file anymore"@[0] == 'n');
    assert("source changed during copy"@[0] == 's');
    assert("source vanished"@.len() == 15);
    assert("file has hardlinks"@.len() == 18);
    assert("destination path already exists on target branch"@.len() == 48);
    assert("interrupted by shutdown"@.len() == 23);
    assert("source changed during copy"@.len() == 26);
    assert("not a regular file anymore"@.len() == 26);
    assert("destination appeared during copy"@.len() == 32);
}

} // verus!
