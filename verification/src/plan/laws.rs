//! What holds of every plan of a watermark pass.

use super::{Draft, MoveView, Pass};
use crate::order;
use crate::plan;
use vstd::prelude::*;
#[allow(unused_imports)]
use vstd::relations::*;

verus! {

/// Why file `i` may be planned to a tier: the move's reason names the pass that
/// planned it, and the file meets what that pass asks for.
pub open spec fn justified(p: Pass, i: int, to_tier: usize, reason: Seq<char>) -> bool {
    ||| {
        &&& reason == "pin"@
        &&& plan::rule_at(p, i) matches Some(r) && r.pin == Some(to_tier)
    }
    ||| {
        &&& reason == "aggressive"@
        &&& plan::may_demote(p, i)
        &&& plan::push_target(p, i) == Some(to_tier)
    }
    ||| {
        &&& reason == "quota"@
        &&& plan::may_demote(p, i)
        &&& plan::rule_at(p, i) matches Some(r) && r.quota is Some
        &&& to_tier == p.last()
    }
    ||| {
        &&& reason == "keep-promote"@
        &&& plan::kept(p, i)
        &&& !plan::cooling(p, i)
        &&& to_tier == 0
    }
    ||| {
        &&& reason == "watermark"@
        &&& plan::may_demote(p, i)
        &&& to_tier == plan::home_tier(p, i) + 1
    }
}

/// Every justified attempt to plan a move keeps `inv`.
pub open spec fn stable(p: Pass, inv: spec_fn(Draft) -> bool) -> bool {
    forall|d: Draft, i: int, to_tier: usize, reason: Seq<char>|
        plan::shaped(p, d) && inv(d) && 0 <= i < p.files@.len() && plan::movable(p, i) && justified(
            p,
            i,
            to_tier,
            reason,
        ) ==> inv(#[trigger] plan::with_move(p, d, i, to_tier, reason))
}

/// Every entry is a file that satisfies the predicate.
pub open spec fn all_files(p: Pass, todo: Seq<usize>, pred: spec_fn(usize) -> bool) -> bool {
    forall|k: int|
        0 <= k < todo.len() ==> (#[trigger] todo[k]) < p.files@.len() && pred(todo[k])
}

pub proof fn lemma_candidates(p: Pass, pred: spec_fn(usize) -> bool, leq: spec_fn(usize, usize) -> bool)
    requires
        total_ordering(leq),
    ensures
        all_files(p, order::select(p.files@.len(), pred).sort_by(leq), pred),
        forall|i: usize|
            i < p.files@.len() && pred(i) ==> #[trigger] order::select(
                p.files@.len(),
                pred,
            ).sort_by(leq).contains(i),
{
    let s = order::select(p.files@.len(), pred);
    assert(p.files.len() == p.files@.len());
    order::lemma_select(p.files@.len(), pred);
    order::lemma_sorted_members(s, leq);
    assert forall|k: int| 0 <= k < s.sort_by(leq).len() implies (#[trigger] s.sort_by(leq)[k])
        < p.files@.len() && pred(s.sort_by(leq)[k]) by {
        let x = s.sort_by(leq)[k];
        assert(s.contains(x));
        let j = choose|j: int| 0 <= j < s.len() && s[j] == x;
        assert(s[j] < p.files@.len());
    }
    assert forall|i: usize| i < p.files@.len() && pred(i) implies #[trigger] s.sort_by(
        leq,
    ).contains(i) by {
        assert(s.contains(i));
    }
}

pub proof fn lemma_pins_keep(p: Pass, inv: spec_fn(Draft) -> bool, d: Draft, n: nat)
    requires
        stable(p, inv),
        plan::shaped(p, d),
        inv(d),
        n <= p.files@.len(),
    ensures
        plan::shaped(p, plan::after_pins(p, d, n)),
        inv(plan::after_pins(p, d, n)),
    decreases n,
{
    if n > 0 {
        lemma_pins_keep(p, inv, d, (n - 1) as nat);
        let e = plan::after_pins(p, d, (n - 1) as nat);
        if let Some(r) = plan::rule_at(p, n - 1) {
            if let Some(t) = r.pin {
                plan::lemma_with_move(p, e, n - 1, t, "pin"@);
            }
        }
    }
}

pub proof fn lemma_push_keeps(
    p: Pass,
    inv: spec_fn(Draft) -> bool,
    d: Draft,
    start: Draft,
    todo: Seq<usize>,
)
    requires
        stable(p, inv),
        plan::shaped(p, d),
        inv(d),
        all_files(p, todo, |i: usize| plan::is_pushed(p, start, i)),
    ensures
        plan::shaped(p, plan::after_push(p, d, todo)),
        inv(plan::after_push(p, d, todo)),
    decreases todo.len(),
{
    if todo.len() > 0 {
        let front = todo.drop_last();
        assert forall|k: int| 0 <= k < front.len() implies (#[trigger] front[k]) < p.files@.len()
            && plan::is_pushed(p, start, front[k]) by {
            assert(front[k] == todo[k]);
        }
        lemma_push_keeps(p, inv, d, start, front);
        let e = plan::after_push(p, d, front);
        let i = todo.last();
        assert(todo[todo.len() - 1] == i);
        if let Some(t) = plan::push_target(p, i as int) {
            plan::lemma_with_move(p, e, i as int, t, "aggressive"@);
        }
    }
}

pub proof fn lemma_cap_keeps(
    p: Pass,
    inv: spec_fn(Draft) -> bool,
    d: Draft,
    start: Draft,
    ri: int,
    used: int,
    quota: u64,
    todo: Seq<usize>,
)
    requires
        stable(p, inv),
        plan::shaped(p, d),
        inv(d),
        0 <= ri < p.cfg.rules@.len(),
        p.cfg.rules@[ri].quota == Some(quota),
        all_files(p, todo, |i: usize| plan::is_surplus(p, start, ri, i)),
    ensures
        plan::shaped(p, plan::after_cap(p, d, used, quota, todo).0),
        inv(plan::after_cap(p, d, used, quota, todo).0),
    decreases todo.len(),
{
    if todo.len() > 0 {
        let front = todo.drop_last();
        assert forall|k: int| 0 <= k < front.len() implies (#[trigger] front[k]) < p.files@.len()
            && plan::is_surplus(p, start, ri, front[k]) by {
            assert(front[k] == todo[k]);
        }
        lemma_cap_keeps(p, inv, d, start, ri, used, quota, front);
        let e = plan::after_cap(p, d, used, quota, front).0;
        let i = todo.last();
        assert(todo[todo.len() - 1] == i);
        assert(p.cfg.tiers.len() == p.cfg.tiers@.len());
        plan::lemma_with_move(p, e, i as int, p.last() as usize, "quota"@);
    }
}

pub proof fn lemma_quotas_keep(p: Pass, inv: spec_fn(Draft) -> bool, d: Draft, n: nat)
    requires
        stable(p, inv),
        plan::shaped(p, d),
        inv(d),
        n <= p.cfg.rules@.len(),
    ensures
        plan::shaped(p, plan::after_quotas(p, d, n)),
        inv(plan::after_quotas(p, d, n)),
    decreases n,
{
    if n > 0 {
        lemma_quotas_keep(p, inv, d, (n - 1) as nat);
        let e = plan::after_quotas(p, d, (n - 1) as nat);
        if let Some(q) = p.cfg.rules@[n - 1].quota {
            lemma_candidates(
                p,
                |i: usize| plan::is_surplus(p, e, n - 1, i),
                plan::coldest_first(p),
            );
            lemma_cap_keeps(
                p,
                inv,
                e,
                e,
                n - 1,
                plan::fast_bytes(p, e, n - 1, p.files@.len()),
                q,
                plan::surplus(p, e, n - 1),
            );
        }
    }
}

pub proof fn lemma_promotion_keeps(
    p: Pass,
    inv: spec_fn(Draft) -> bool,
    d: Draft,
    start: Draft,
    todo: Seq<usize>,
)
    requires
        stable(p, inv),
        plan::shaped(p, d),
        inv(d),
        all_files(p, todo, |i: usize| plan::is_wanted(p, start, i)),
    ensures
        plan::shaped(p, plan::after_promotion(p, d, todo)),
        inv(plan::after_promotion(p, d, todo)),
    decreases todo.len(),
{
    if todo.len() > 0 {
        let i = todo[0];
        let e = plan::with_move(p, d, i as int, 0, "keep-promote"@);
        plan::lemma_with_move(p, d, i as int, 0, "keep-promote"@);
        let rest = todo.skip(1);
        assert forall|k: int| 0 <= k < rest.len() implies (#[trigger] rest[k]) < p.files@.len()
            && plan::is_wanted(p, start, rest[k]) by {
            assert(rest[k] == todo[k + 1]);
        }
        lemma_promotion_keeps(p, inv, e, start, rest);
    }
}

pub proof fn lemma_drain_keeps(
    p: Pass,
    inv: spec_fn(Draft) -> bool,
    d: Draft,
    start: Draft,
    t: usize,
    todo: Seq<usize>,
)
    requires
        stable(p, inv),
        plan::shaped(p, d),
        inv(d),
        t < p.last(),
        all_files(p, todo, |i: usize| plan::is_load(p, start, t, i)),
    ensures
        plan::shaped(p, plan::after_drain(p, d, t, todo)),
        inv(plan::after_drain(p, d, t, todo)),
    decreases todo.len(),
{
    if todo.len() > 0 {
        let front = todo.drop_last();
        assert forall|k: int| 0 <= k < front.len() implies (#[trigger] front[k]) < p.files@.len()
            && plan::is_load(p, start, t, front[k]) by {
            assert(front[k] == todo[k]);
        }
        lemma_drain_keeps(p, inv, d, start, t, front);
        let e = plan::after_drain(p, d, t, front);
        let i = todo.last();
        assert(todo[todo.len() - 1] == i);
        assert(p.cfg.tiers.len() == p.cfg.tiers@.len());
        plan::lemma_with_move(p, e, i as int, (t + 1) as usize, "watermark"@);
    }
}

pub proof fn lemma_watermarks_keep(p: Pass, inv: spec_fn(Draft) -> bool, d: Draft, n: nat)
    requires
        stable(p, inv),
        plan::shaped(p, d),
        inv(d),
        n <= p.last(),
    ensures
        plan::shaped(p, plan::after_watermarks(p, d, n)),
        inv(plan::after_watermarks(p, d, n)),
    decreases n,
{
    if n > 0 {
        lemma_watermarks_keep(p, inv, d, (n - 1) as nat);
        let e = plan::after_watermarks(p, d, (n - 1) as nat);
        assert(p.cfg.tiers.len() == p.cfg.tiers@.len());
        let t = (n - 1) as usize;
        lemma_candidates(p, |i: usize| plan::is_load(p, e, t, i), plan::coldest_first(p));
        lemma_drain_keeps(p, inv, e, e, t, plan::load(p, e, t));
    }
}

/// What the empty plan has and every justified move keeps, the plan of the
/// whole pass has.
pub proof fn lemma_pass_keeps(p: Pass, inv: spec_fn(Draft) -> bool)
    requires
        p.wf(),
        stable(p, inv),
        inv(plan::blank(p)),
    ensures
        plan::shaped(p, plan::drafted(p)),
        inv(plan::drafted(p)),
{
    lemma_curbed_keeps(p, inv);
    let curbed = plan::curbed(p);
    lemma_candidates(p, |i: usize| plan::is_wanted(p, curbed, i), plan::hottest_first(p));
    lemma_promotion_keeps(p, inv, curbed, curbed, plan::wanted(p, curbed));
    lemma_watermarks_keep(p, inv, plan::promoted(p), p.last() as nat);
}

pub proof fn lemma_lowered_keeps(p: Pass, inv: spec_fn(Draft) -> bool)
    requires
        p.wf(),
        stable(p, inv),
        inv(plan::blank(p)),
    ensures
        plan::shaped(p, plan::lowered(p)),
        inv(plan::lowered(p)),
{
    plan::lemma_blank_shaped(p);
    lemma_pins_keep(p, inv, plan::blank(p), p.files@.len());
    let pins = plan::gathered(p);
    lemma_candidates(p, |i: usize| plan::is_pushed(p, pins, i), plan::coldest_first(p));
    lemma_push_keeps(p, inv, pins, pins, plan::pushed(p, pins));
}

pub proof fn lemma_curbed_keeps(p: Pass, inv: spec_fn(Draft) -> bool)
    requires
        p.wf(),
        stable(p, inv),
        inv(plan::blank(p)),
    ensures
        plan::shaped(p, plan::curbed(p)),
        inv(plan::curbed(p)),
{
    lemma_lowered_keeps(p, inv);
    lemma_quotas_keep(p, inv, plan::lowered(p), p.cfg.rules@.len());
}

/// The moves of a plan are of distinct files, each to a branch of another tier
/// that the file was planned to.
pub open spec fn sound(p: Pass, d: Draft) -> bool {
    &&& d.moves.len() == d.who.len()
    &&& d.who.no_duplicates()
    &&& forall|k: int|
        0 <= k < d.who.len() ==> {
            let i = #[trigger] d.who[k] as int;
            let m = d.moves[k];
            &&& i < p.files@.len()
            &&& m.rel == p.files@[i].rel@
            &&& m.from == p.files@[i].branch
            &&& m.size == p.files@[i].size
            &&& m.to < p.branches@.len()
            &&& p.branches@[m.to as int].tier != p.branches@[m.from as int].tier
            &&& d.planned[i] == Some(p.branches@[m.to as int].tier)
            &&& plan::movable(p, i)
            &&& justified(p, i, p.branches@[m.to as int].tier, m.reason)
        }
}

/// Every move of a pass is of a file that is on one branch only and has one
/// name there, takes it to another tier, and is justified by its reason: files
/// that are pinned, kept or cooling are never demoted. No file is moved twice.
pub proof fn pass_is_sound(p: Pass)
    requires
        p.wf(),
    ensures
        sound(p, plan::drafted(p)),
{
    let inv = |d: Draft| plan::shaped(p, d) ==> sound(p, d);
    assert forall|d: Draft, i: int, to_tier: usize, reason: Seq<char>|
        plan::shaped(p, d) && inv(d) && 0 <= i < p.files@.len() && plan::movable(p, i) && justified(
            p,
            i,
            to_tier,
            reason,
        ) implies inv(#[trigger] plan::with_move(p, d, i, to_tier, reason)) by {
        let e = plan::with_move(p, d, i, to_tier, reason);
        if plan::plannable(p, d, i, to_tier) {
            let size = p.files@[i].size;
            plan::lemma_roomiest(p, d, to_tier, size, p.branches@.len());
            assert(p.files.len() == p.files@.len());
            assert(p.branches.len() == p.branches@.len());
            let dst = plan::chosen(p, d, to_tier, size)->0;
            assert(plan::takes(p, d, to_tier, size, dst));
            assert forall|k: int| 0 <= k < d.who.len() implies d.who[k] != i by {
                assert(d.planned[d.who[k] as int] is Some);
            }
            assert forall|k: int| 0 <= k < e.who.len() implies {
                let i = #[trigger] e.who[k] as int;
                let m = e.moves[k];
                &&& i < p.files@.len()
                &&& m.rel == p.files@[i].rel@
                &&& m.from == p.files@[i].branch
                &&& m.size == p.files@[i].size
                &&& m.to < p.branches@.len()
                &&& p.branches@[m.to as int].tier != p.branches@[m.from as int].tier
                &&& e.planned[i] == Some(p.branches@[m.to as int].tier)
                &&& plan::movable(p, i)
                &&& justified(p, i, p.branches@[m.to as int].tier, m.reason)
            } by {
                if k < d.who.len() {
                    assert(e.who[k] == d.who[k]);
                }
            }
        }
    }
    lemma_pass_keeps(p, inv);
}

/// The bytes that a list of moves carries.
pub open spec fn carried(moves: Seq<MoveView>) -> int
    decreases moves.len(),
{
    if moves.len() == 0 {
        0
    } else {
        carried(moves.drop_last()) + moves.last().size
    }
}

/// One pass moves no more bytes than its budget allows.
pub proof fn pass_within_budget(p: Pass)
    requires
        p.wf(),
    ensures
        p.cfg.max_move_per_pass matches Some(b) ==> carried(plan::drafted(p).moves) <= b,
{
    if let Some(max) = p.cfg.max_move_per_pass {
        let inv = |d: Draft|
            d.budget matches Some(left) && carried(d.moves) + left == plan::signed(max) && (left < 0
                ==> d.moves.len() == 0);
        assert forall|d: Draft, i: int, to_tier: usize, reason: Seq<char>|
            plan::shaped(p, d) && inv(d) && 0 <= i < p.files@.len() && plan::movable(p, i)
                && justified(p, i, to_tier, reason) implies inv(
            #[trigger] plan::with_move(p, d, i, to_tier, reason),
        ) by {
            let e = plan::with_move(p, d, i, to_tier, reason);
            if plan::plannable(p, d, i, to_tier) {
                assert(e.moves.drop_last() =~= d.moves);
            }
        }
        lemma_pass_keeps(p, inv);
    }
}

/// The bytes that a list of moves carries to branch `b`.
pub open spec fn received(moves: Seq<MoveView>, b: int) -> int
    decreases moves.len(),
{
    if moves.len() == 0 {
        0
    } else {
        received(moves.drop_last(), b) + if moves.last().to == b {
            moves.last().size as int
        } else {
            0
        }
    }
}

/// A branch that receives files keeps its headroom. (A branch that reports the
/// largest possible free space is left out where the size of some file and the
/// headroom add up to more: the need for room is cut off there.)
pub proof fn pass_keeps_headroom(p: Pass, b: int)
    requires
        p.wf(),
        0 <= b < p.branches@.len(),
        p.usage@[b].free < u64::MAX || forall|i: int|
            0 <= i < p.files@.len() ==> (#[trigger] p.files@[i]).size + p.cfg.min_free <= u64::MAX,
    ensures
        (exists|k: int|
            0 <= k < plan::drafted(p).moves.len() && (#[trigger] plan::drafted(p).moves[k]).to == b)
            ==> received(plan::drafted(p).moves, b) + p.cfg.min_free <= p.usage@[b].free,
{
    let inv = |d: Draft|
        plan::shaped(p, d) ==> {
            &&& d.incoming[b] == received(d.moves, b)
            &&& ((forall|k: int| 0 <= k < d.moves.len() ==> (#[trigger] d.moves[k]).to != b)
                && received(d.moves, b) == 0) || received(d.moves, b) + p.cfg.min_free <= p.usage@[b].free
        };
    assert forall|d: Draft, i: int, to_tier: usize, reason: Seq<char>|
        plan::shaped(p, d) && inv(d) && 0 <= i < p.files@.len() && plan::movable(p, i) && justified(
            p,
            i,
            to_tier,
            reason,
        ) implies inv(#[trigger] plan::with_move(p, d, i, to_tier, reason)) by {
        let e = plan::with_move(p, d, i, to_tier, reason);
        if plan::plannable(p, d, i, to_tier) {
            plan::lemma_with_move(p, d, i, to_tier, reason);
            let size = p.files@[i].size;
            plan::lemma_roomiest(p, d, to_tier, size, p.branches@.len());
            assert(p.branches.len() == p.branches@.len());
            let dst = plan::chosen(p, d, to_tier, size)->0;
            assert(plan::takes(p, d, to_tier, size, dst));
            assert(e.moves.drop_last() =~= d.moves);
            if dst != b && (forall|k: int|
                0 <= k < d.moves.len() ==> (#[trigger] d.moves[k]).to != b) {
                assert forall|k: int| 0 <= k < e.moves.len() implies (#[trigger] e.moves[k]).to
                    != b by {
                    if k < d.moves.len() {
                        assert(e.moves[k] == d.moves[k]);
                    }
                }
            }
        }
    }
    lemma_pass_keeps(p, inv);
}

// What can no longer be planned stays so.

proof fn lemma_unplannable_stays(
    p: Pass,
    d: Draft,
    i: int,
    to_tier: usize,
    reason: Seq<char>,
    j: int,
    u: usize,
)
    requires
        plan::shaped(p, d),
        0 <= i < p.files@.len(),
        0 <= j < p.files@.len(),
        !plan::plannable(p, d, j, u),
    ensures
        !plan::plannable(p, plan::with_move(p, d, i, to_tier, reason), j, u),
{
    let e = plan::with_move(p, d, i, to_tier, reason);
    plan::lemma_with_move(p, d, i, to_tier, reason);
    if plan::plannable(p, d, i, to_tier) && plan::plannable(p, e, j, u) {
        let size = p.files@[j].size;
        plan::lemma_roomiest(p, e, u, size, p.branches@.len());
        plan::lemma_roomiest(p, d, u, size, p.branches@.len());
        let b = plan::chosen(p, e, u, size)->0;
        assert(plan::takes(p, e, u, size, b));
        assert(plan::takes(p, d, u, size, b));
    }
}

proof fn lemma_unplannable_stable(p: Pass, j: int, u: usize)
    requires
        0 <= j < p.files@.len(),
    ensures
        stable(p, |d: Draft| !plan::plannable(p, d, j, u)),
{
    let inv = |d: Draft| !plan::plannable(p, d, j, u);
    assert forall|d: Draft, i: int, to_tier: usize, reason: Seq<char>|
        plan::shaped(p, d) && inv(d) && 0 <= i < p.files@.len() && plan::movable(p, i) && justified(
            p,
            i,
            to_tier,
            reason,
        ) implies inv(#[trigger] plan::with_move(p, d, i, to_tier, reason)) by {
        lemma_unplannable_stays(p, d, i, to_tier, reason, j, u);
    }
}

pub proof fn lemma_planned_stable(p: Pass, j: int)
    requires
        0 <= j < p.files@.len(),
    ensures
        stable(p, |d: Draft| d.planned[j] is Some),
{
    let inv = |d: Draft| d.planned[j] is Some;
    assert forall|d: Draft, i: int, to_tier: usize, reason: Seq<char>|
        plan::shaped(p, d) && inv(d) && 0 <= i < p.files@.len() && plan::movable(p, i) && justified(
            p,
            i,
            to_tier,
            reason,
        ) implies inv(#[trigger] plan::with_move(p, d, i, to_tier, reason)) by {
        assert(0 <= i < d.planned.len());
        if i != j && plan::plannable(p, d, i, to_tier) {
            assert(d.planned.update(i, Some(to_tier))[j] == d.planned[j]);
        }
    }
}

// Quotas.

proof fn lemma_fast_bytes_move(
    p: Pass,
    d: Draft,
    i: int,
    reason: Seq<char>,
    ri: int,
    n: nat,
)
    requires
        plan::shaped(p, d),
        0 <= i < p.files@.len(),
        n <= p.files@.len(),
        plan::plannable(p, d, i, p.last() as usize),
        plan::owned_by(p, ri, i) ==> plan::home_tier(p, i) < p.last(),
    ensures
        ({
            let e = plan::with_move(p, d, i, p.last() as usize, reason);
            plan::fast_bytes(p, e, ri, n) == plan::fast_bytes(p, d, ri, n) - if i < n
                && plan::owned_by(p, ri, i) {
                p.files@[i].size as int
            } else {
                0
            }
        }),
        plan::fast_bytes(p, d, ri, n) >= 0,
    decreases n,
{
    assert(p.cfg.tiers.len() == p.cfg.tiers@.len());
    if n > 0 {
        lemma_fast_bytes_move(p, d, i, reason, ri, (n - 1) as nat);
        let e = plan::with_move(p, d, i, p.last() as usize, reason);
        assert(e.planned[n - 1] == if i == n - 1 {
            Some(p.last() as usize)
        } else {
            d.planned[n - 1]
        });
    }
}

proof fn lemma_fast_bytes_covers(p: Pass, d: Draft, i: int, ri: int, n: nat)
    requires
        0 <= i < n,
        plan::owned_by(p, ri, i),
        plan::eff_tier(p, d, i) < p.last(),
    ensures
        plan::fast_bytes(p, d, ri, n) >= p.files@[i].size,
    decreases n,
{
    plan::lemma_fast_bytes_bound(p, d, ri, (n - 1) as nat);
    if i < n - 1 {
        lemma_fast_bytes_covers(p, d, i, ri, (n - 1) as nat);
    }
}

/// The count that is kept while a quota is enforced is the bytes that remain,
/// other rules' counts do not change, and if the count stays above the quota
/// every file was tried.
pub proof fn lemma_cap_done(
    p: Pass,
    d: Draft,
    ri: int,
    quota: u64,
    todo: Seq<usize>,
)
    requires
        plan::shaped(p, d),
        0 <= ri < p.cfg.rules@.len(),
        p.cfg.rules@[ri].quota == Some(quota),
        all_files(p, todo, |i: usize| plan::is_surplus(p, d, ri, i)),
    ensures
        ({
            let n = p.files@.len();
            let (e, left) = plan::after_cap(p, d, plan::fast_bytes(p, d, ri, n), quota, todo);
            &&& plan::shaped(p, e)
            &&& left == plan::fast_bytes(p, e, ri, n)
            &&& forall|r: int|
                r != ri ==> #[trigger] plan::fast_bytes(p, e, r, n) == plan::fast_bytes(p, d, r, n)
            &&& left <= quota || forall|k: int|
                0 <= k < todo.len() ==> !plan::plannable(
                    p,
                    e,
                    (#[trigger] todo[k]) as int,
                    p.last() as usize,
                )
        }),
    decreases todo.len(),
{
    let n = p.files@.len();
    let used = plan::fast_bytes(p, d, ri, n);
    let last = p.last() as usize;
    assert(p.cfg.tiers.len() == p.cfg.tiers@.len());
    if todo.len() > 0 {
        let front = todo.drop_last();
        assert forall|k: int| 0 <= k < front.len() implies (#[trigger] front[k]) < p.files@.len()
            && plan::is_surplus(p, d, ri, front[k]) by {
            assert(front[k] == todo[k]);
        }
        lemma_cap_done(p, d, ri, quota, front);
        let (e0, left0) = plan::after_cap(p, d, used, quota, front);
        let (e, left) = plan::after_cap(p, d, used, quota, todo);
        let i = todo.last() as int;
        assert(todo[todo.len() - 1] == todo.last());
        if left0 > quota {
            if plan::plannable(p, e0, i, last) {
                if d.planned[i] is Some {
                    lemma_planned_stable(p, i);
                    lemma_cap_keeps(
                        p,
                        |x: Draft| x.planned[i] is Some,
                        d,
                        d,
                        ri,
                        used,
                        quota,
                        front,
                    );
                }
                plan::lemma_with_move(p, e0, i, last, "quota"@);
                lemma_fast_bytes_move(p, e0, i, "quota"@, ri, n);
                lemma_fast_bytes_covers(p, e0, i, ri, n);
                assert forall|r: int| r != ri implies #[trigger] plan::fast_bytes(p, e, r, n)
                    == plan::fast_bytes(p, d, r, n) by {
                    lemma_fast_bytes_move(p, e0, i, "quota"@, r, n);
                    assert(plan::fast_bytes(p, e0, r, n) == plan::fast_bytes(p, d, r, n));
                }
            }
            assert forall|k: int| 0 <= k < todo.len() implies !plan::plannable(
                p,
                e,
                (#[trigger] todo[k]) as int,
                last,
            ) by {
                if k < front.len() {
                    assert(front[k] == todo[k]);
                    if plan::plannable(p, e0, i, last) {
                        lemma_unplannable_stays(p, e0, i, last, "quota"@, todo[k] as int, last);
                    }
                }
            }
        }
    }
}

/// Rule `ri` is within its quota, or no file that could relieve it can still be
/// planned to the slowest tier.
pub open spec fn quota_settled(p: Pass, d: Draft, ri: int) -> bool {
    p.cfg.rules@[ri].quota matches Some(q) ==> plan::fast_bytes(p, d, ri, p.files@.len()) <= q
        || forall|i: usize|
        i < p.files@.len() && #[trigger] plan::is_surplus(p, d, ri, i) ==> !plan::plannable(
            p,
            d,
            i as int,
            p.last() as usize,
        )
}

proof fn lemma_quotas_settle(p: Pass, d: Draft, n: nat)
    requires
        plan::shaped(p, d),
        n <= p.cfg.rules@.len(),
    ensures
        plan::shaped(p, plan::after_quotas(p, d, n)),
        forall|ri: int|
            0 <= ri < n ==> #[trigger] quota_settled(p, plan::after_quotas(p, d, n), ri),
    decreases n,
{
    if n > 0 {
        lemma_quotas_settle(p, d, (n - 1) as nat);
        let e0 = plan::after_quotas(p, d, (n - 1) as nat);
        let e = plan::after_quotas(p, d, n);
        let last = p.last() as usize;
        if let Some(q) = p.cfg.rules@[n - 1].quota {
            let len = p.files@.len();
            let todo = plan::surplus(p, e0, n - 1);
            let used = plan::fast_bytes(p, e0, n - 1, len);
            let pred = |i: usize| plan::is_surplus(p, e0, n - 1, i);
            lemma_candidates(p, pred, plan::coldest_first(p));
            lemma_cap_done(p, e0, n - 1, q, todo);
            assert forall|ri: int| 0 <= ri < n implies #[trigger] quota_settled(p, e, ri) by {
                assert(ri < n - 1 ==> quota_settled(p, e0, ri));
                assert(ri != n - 1 ==> plan::fast_bytes(p, e, ri, len) == plan::fast_bytes(
                    p,
                    e0,
                    ri,
                    len,
                ));
                if let Some(quota) = p.cfg.rules@[ri].quota {
                    if plan::fast_bytes(p, e, ri, len) > quota {
                        assert forall|i: usize|
                            i < len && #[trigger] plan::is_surplus(
                                p,
                                e,
                                ri,
                                i,
                            ) implies !plan::plannable(p, e, i as int, last) by {
                            if e.planned[i as int] is None {
                                if e0.planned[i as int] is Some {
                                    lemma_planned_stable(p, i as int);
                                    lemma_cap_keeps(
                                        p,
                                        |x: Draft| x.planned[i as int] is Some,
                                        e0,
                                        e0,
                                        n - 1,
                                        used,
                                        q,
                                        todo,
                                    );
                                }
                                assert(plan::is_surplus(p, e0, ri, i));
                                if ri == n - 1 {
                                    assert(todo.contains(i));
                                    let k = choose|k: int| 0 <= k < todo.len() && todo[k] == i;
                                    assert(todo[k] == i);
                                } else {
                                    lemma_unplannable_stable(p, i as int, last);
                                    lemma_cap_keeps(
                                        p,
                                        |x: Draft| !plan::plannable(p, x, i as int, last),
                                        e0,
                                        e0,
                                        n - 1,
                                        used,
                                        q,
                                        todo,
                                    );
                                }
                            }
                        }
                    }
                }
            }
        } else {
            assert forall|ri: int| 0 <= ri < n implies #[trigger] quota_settled(p, e, ri) by {
                assert(ri < n - 1 ==> quota_settled(p, e0, ri));
            }
        }
    }
}

/// Once quotas are enforced every subtree is within its quota, or none of its
/// files that may be demoted can still be planned to the slowest tier.
pub proof fn quotas_are_settled(p: Pass, ri: int)
    requires
        p.wf(),
        0 <= ri < p.cfg.rules@.len(),
    ensures
        quota_settled(p, plan::curbed(p), ri),
{
    lemma_lowered_keeps(p, |d: Draft| true);
    lemma_quotas_settle(p, plan::lowered(p), p.cfg.rules@.len());
}

// Watermarks.

/// A move adds at most its size to the tier that it goes to, and changes the
/// use of no tier but that and the file's own.
proof fn lemma_use_move(
    p: Pass,
    d: Draft,
    i: int,
    to_tier: usize,
    reason: Seq<char>,
    u: usize,
    n: nat,
)
    requires
        plan::shaped(p, d),
        0 <= i < p.files@.len(),
        plan::plannable(p, d, i, to_tier),
        n <= p.branches@.len(),
    ensures
        ({
            let e = plan::with_move(p, d, i, to_tier, reason);
            let size = p.files@[i].size;
            let dst = plan::chosen(p, d, to_tier, size)->0;
            &&& u != to_tier ==> plan::tier_use(p, e, u, n) <= plan::tier_use(p, d, u, n)
            &&& u != to_tier && u != plan::home_tier(p, i) ==> plan::tier_use(p, e, u, n)
                == plan::tier_use(p, d, u, n)
            &&& plan::tier_use(p, e, u, n) <= plan::tier_use(p, d, u, n) + if dst < n {
                size as int
            } else {
                0
            }
        }),
    decreases n,
{
    let size = p.files@[i].size;
    plan::lemma_roomiest(p, d, to_tier, size, p.branches@.len());
    plan::lemma_with_move(p, d, i, to_tier, reason);
    let dst = plan::chosen(p, d, to_tier, size)->0;
    assert(plan::takes(p, d, to_tier, size, dst));
    if n > 0 {
        lemma_use_move(p, d, i, to_tier, reason, u, (n - 1) as nat);
        let e = plan::with_move(p, d, i, to_tier, reason);
        let b = n - 1;
        let src = p.files@[i].branch as int;
        assert(e.incoming[b] == d.incoming[b] + if b == dst {
            size as int
        } else {
            0
        });
        assert(e.outgoing[b] == d.outgoing[b] + if b == src {
            size as int
        } else {
            0
        });
    }
}

/// Tier `t` is not above its low watermark any more, or every file was
/// tried; faster tiers are left alone.
pub proof fn lemma_drain_done(p: Pass, d: Draft, t: usize, todo: Seq<usize>)
    requires
        plan::shaped(p, d),
        t < p.last(),
        all_files(p, todo, |i: usize| plan::is_load(p, d, t, i)),
    ensures
        ({
            let e = plan::after_drain(p, d, t, todo);
            &&& plan::shaped(p, e)
            &&& plan::used_on(p, e, t) <= plan::used_on(p, d, t)
            &&& forall|u: usize|
                u < t ==> #[trigger] plan::used_on(p, e, u) == plan::used_on(p, d, u)
            &&& plan::used_on(p, e, t) <= plan::mark(p, t, p.cfg.tiers@[t as int].low) || forall|
                k: int,
            |
                0 <= k < todo.len() ==> !plan::plannable(
                    p,
                    e,
                    (#[trigger] todo[k]) as int,
                    (t + 1) as usize,
                )
        }),
    decreases todo.len(),
{
    assert(p.cfg.tiers.len() == p.cfg.tiers@.len());
    let next = (t + 1) as usize;
    if todo.len() > 0 {
        let front = todo.drop_last();
        assert forall|k: int| 0 <= k < front.len() implies (#[trigger] front[k]) < p.files@.len()
            && plan::is_load(p, d, t, front[k]) by {
            assert(front[k] == todo[k]);
        }
        lemma_drain_done(p, d, t, front);
        let e0 = plan::after_drain(p, d, t, front);
        let e = plan::after_drain(p, d, t, todo);
        let i = todo.last() as int;
        assert(todo[todo.len() - 1] == todo.last());
        if plan::used_on(p, e0, t) > plan::mark(p, t, p.cfg.tiers@[t as int].low) {
            plan::lemma_with_move(p, e0, i, next, "watermark"@);
            if plan::plannable(p, e0, i, next) {
                lemma_use_move(p, e0, i, next, "watermark"@, t, p.branches@.len());
                assert forall|u: usize| u < t implies #[trigger] plan::used_on(p, e, u)
                    == plan::used_on(p, d, u) by {
                    lemma_use_move(p, e0, i, next, "watermark"@, u, p.branches@.len());
                    assert(plan::used_on(p, e0, u) == plan::used_on(p, d, u));
                }
            }
            assert forall|k: int| 0 <= k < todo.len() implies !plan::plannable(
                p,
                e,
                (#[trigger] todo[k]) as int,
                next,
            ) by {
                if k < front.len() {
                    assert(front[k] == todo[k]);
                    lemma_unplannable_stays(p, e0, i, next, "watermark"@, todo[k] as int, next);
                }
            }
        }
    }
}

/// Tier `t` is not above its watermarks, or no file that could relieve it can
/// still be planned to the next tier.
pub open spec fn tier_settled(p: Pass, d: Draft, t: int) -> bool {
    ||| plan::size_of(p, t as usize) == 0
    ||| plan::used_on(p, d, t as usize) <= plan::mark(p, t as usize, p.cfg.tiers@[t].high)
    ||| plan::used_on(p, d, t as usize) <= plan::mark(p, t as usize, p.cfg.tiers@[t].low)
    ||| forall|i: usize|
        i < p.files@.len() && #[trigger] plan::is_load(p, d, t as usize, i) ==> !plan::plannable(
            p,
            d,
            i as int,
            (t + 1) as usize,
        )
}

proof fn lemma_watermarks_settle(p: Pass, d: Draft, n: nat)
    requires
        plan::shaped(p, d),
        n <= p.last(),
    ensures
        plan::shaped(p, plan::after_watermarks(p, d, n)),
        n > 0 ==> plan::used_on(p, plan::after_watermarks(p, d, n), 0) <= plan::used_on(p, d, 0),
        forall|t: int|
            0 <= t < n ==> #[trigger] tier_settled(p, plan::after_watermarks(p, d, n), t),
    decreases n,
{
    if n > 0 {
        lemma_watermarks_settle(p, d, (n - 1) as nat);
        assert(p.cfg.tiers.len() == p.cfg.tiers@.len());
        let e0 = plan::after_watermarks(p, d, (n - 1) as nat);
        let e = plan::after_watermarks(p, d, n);
        let m = (n - 1) as usize;
        let todo = plan::load(p, e0, m);
        lemma_candidates(p, |i: usize| plan::is_load(p, e0, m, i), plan::coldest_first(p));
        lemma_drain_done(p, e0, m, todo);
        let drains = !(plan::size_of(p, m) == 0 || plan::used_on(p, e0, m) <= plan::mark(
            p,
            m,
            p.cfg.tiers@[n - 1].high,
        ));
        if m > 0 && drains {
            assert(plan::used_on(p, e, 0) == plan::used_on(p, e0, 0));
        }
        assert forall|t: int| 0 <= t < n implies #[trigger] tier_settled(p, e, t) by {
            if t < n - 1 {
                assert(tier_settled(p, e0, t));
                if drains {
                    assert(plan::used_on(p, e, t as usize) == plan::used_on(p, e0, t as usize));
                }
            }
            if drains && !(plan::used_on(p, e, t as usize) <= plan::mark(
                p,
                t as usize,
                p.cfg.tiers@[t].low,
            )) && !(plan::size_of(p, t as usize) == 0 || plan::used_on(p, e, t as usize)
                <= plan::mark(p, t as usize, p.cfg.tiers@[t].high)) {
                assert forall|i: usize|
                    i < p.files@.len() && #[trigger] plan::is_load(
                        p,
                        e,
                        t as usize,
                        i,
                    ) implies !plan::plannable(p, e, i as int, (t + 1) as usize) by {
                    if e.planned[i as int] is None {
                        if e0.planned[i as int] is Some {
                            lemma_planned_stable(p, i as int);
                            lemma_drain_keeps(
                                p,
                                |x: Draft| x.planned[i as int] is Some,
                                e0,
                                e0,
                                m,
                                todo,
                            );
                        }
                        assert(plan::is_load(p, e0, t as usize, i));
                        if t == m {
                            assert(todo.contains(i));
                            let k = choose|k: int| 0 <= k < todo.len() && todo[k] == i;
                            assert(todo[k] == i);
                        } else {
                            let next = (t + 1) as usize;
                            lemma_unplannable_stable(p, i as int, next);
                            lemma_drain_keeps(
                                p,
                                |x: Draft| !plan::plannable(p, x, i as int, next),
                                e0,
                                e0,
                                m,
                                todo,
                            );
                        }
                    }
                }
            }
        }
    }
}

/// A pass leaves a tier above its watermarks only where none of its files that
/// may be demoted can still be planned to the next tier.
pub proof fn tiers_are_settled(p: Pass, t: int)
    requires
        p.wf(),
        0 <= t < p.last(),
    ensures
        tier_settled(p, plan::drafted(p), t),
{
    lemma_promoted_shaped(p);
    lemma_watermarks_settle(p, plan::promoted(p), p.last() as nat);
}

pub proof fn lemma_promoted_shaped(p: Pass)
    requires
        p.wf(),
    ensures
        plan::shaped(p, plan::curbed(p)),
        plan::shaped(p, plan::promoted(p)),
{
    lemma_curbed_keeps(p, |d: Draft| true);
    let curbed = plan::curbed(p);
    lemma_candidates(p, |i: usize| plan::is_wanted(p, curbed, i), plan::hottest_first(p));
    lemma_promotion_keeps(p, |d: Draft| true, curbed, curbed, plan::wanted(p, curbed));
}

proof fn lemma_promotion_bound(p: Pass, d: Draft, todo: Seq<usize>)
    requires
        plan::shaped(p, d),
        plan::mark(p, 0, p.cfg.tiers@[0].high) < u64::MAX,
        forall|k: int| 0 <= k < todo.len() ==> (#[trigger] todo[k]) < p.files@.len(),
    ensures
        plan::after_promotion(p, d, todo) == d || plan::used_on(
            p,
            plan::after_promotion(p, d, todo),
            0,
        ) <= plan::mark(p, 0, p.cfg.tiers@[0].high),
    decreases todo.len(),
{
    let high = plan::mark(p, 0, p.cfg.tiers@[0].high);
    if todo.len() > 0 && !(plan::capped(plan::used_on(p, d, 0) + p.files@[todo[0] as int].size)
        > high) {
        let i = todo[0] as int;
        let e = plan::with_move(p, d, i, 0, "keep-promote"@);
        plan::lemma_with_move(p, d, i, 0, "keep-promote"@);
        if plan::plannable(p, d, i, 0) {
            lemma_use_move(p, d, i, 0, "keep-promote"@, 0, p.branches@.len());
        }
        assert(plan::used_on(p, e, 0) <= high);
        let rest = todo.skip(1);
        assert forall|k: int| 0 <= k < rest.len() implies (#[trigger] rest[k]) < p.files@.len() by {
            assert(rest[k] == todo[k + 1]);
        }
        lemma_promotion_bound(p, e, rest);
    }
}

/// Promotion never fills the fastest tier past its high watermark. (A watermark
/// at the end of the range of byte counts is left out: sums are cut off there.)
pub proof fn promotion_respects_watermark(p: Pass)
    requires
        p.wf(),
        plan::mark(p, 0, p.cfg.tiers@[0].high) < u64::MAX,
    ensures
        plan::promoted(p) == plan::curbed(p) || plan::used_on(p, plan::drafted(p), 0) <= plan::mark(
            p,
            0,
            p.cfg.tiers@[0].high,
        ),
{
    lemma_promoted_shaped(p);
    let curbed = plan::curbed(p);
    lemma_candidates(p, |i: usize| plan::is_wanted(p, curbed, i), plan::hottest_first(p));
    lemma_promotion_bound(p, curbed, plan::wanted(p, curbed));
    lemma_watermarks_settle(p, plan::promoted(p), p.last() as nat);
}

// ---- the order of the moves ----------------------------------------------------------

/// The place, in the order of the passes, of the one that plans moves for this
/// reason.
pub open spec fn stage(reason: Seq<char>) -> int {
    if reason == "pin"@ {
        0
    } else if reason == "aggressive"@ {
        1
    } else if reason == "quota"@ {
        2
    } else if reason == "keep-promote"@ {
        3
    } else {
        4
    }
}

/// The move goes in the direction of its reason: a promotion to the fastest tier,
/// a demotion to a slower one. Pins gather files from either side.
pub open spec fn directed(p: Pass, m: MoveView) -> bool {
    let from = p.branches@[m.from as int].tier;
    let to = p.branches@[m.to as int].tier;
    &&& m.reason == "aggressive"@ || m.reason == "quota"@ || m.reason == "watermark"@ ==> from < to
    &&& m.reason == "keep-promote"@ ==> to == 0 && 0 < from
}

/// `b` has the moves of `a`, and then moves for the given reason, in its direction.
spec fn adds(p: Pass, a: Draft, b: Draft, reason: Seq<char>) -> bool {
    &&& a.moves.len() <= b.moves.len()
    &&& forall|k: int| 0 <= k < a.moves.len() ==> a.moves[k] == #[trigger] b.moves[k]
    &&& forall|k: int|
        a.moves.len() <= k < b.moves.len() ==> (#[trigger] b.moves[k]).reason == reason && directed(
            p,
            b.moves[k],
        )
    &&& a.planned.len() == b.planned.len()
    &&& forall|i: int|
        0 <= i < a.planned.len() && a.planned[i] is Some ==> (#[trigger] b.planned[i]) is Some
}

proof fn lemma_adds_on(p: Pass, a: Draft, b: Draft, c: Draft, reason: Seq<char>)
    requires
        adds(p, a, b, reason),
        adds(p, b, c, reason),
    ensures
        adds(p, a, c, reason),
{
    assert forall|k: int| 0 <= k < a.moves.len() implies a.moves[k] == #[trigger] c.moves[k] by {
        assert(b.moves[k] == c.moves[k]);
    }
    assert forall|k: int| a.moves.len() <= k < c.moves.len() implies (
    #[trigger] c.moves[k]).reason == reason && directed(p, c.moves[k]) by {
        if k < b.moves.len() {
            assert(b.moves[k] == c.moves[k]);
        }
    }
    assert forall|i: int| 0 <= i < a.planned.len() && a.planned[i] is Some implies (
    #[trigger] c.planned[i]) is Some by {
        assert(b.planned[i] is Some);
    }
}

proof fn lemma_reasons_differ()
    ensures
        "pin"@.len() == 3,
        "aggressive"@.len() == 10,
        "quota"@.len() == 5,
        "keep-promote"@.len() == 12,
        "watermark"@.len() == 9,
{
    reveal_strlit("pin");
    reveal_strlit("aggressive");
    reveal_strlit("quota");
    reveal_strlit("keep-promote");
    reveal_strlit("watermark");
}

/// One more move in the direction of its reason.
proof fn lemma_adds_move(p: Pass, d: Draft, i: int, t: usize, reason: Seq<char>)
    requires
        0 <= i < p.files@.len() == d.planned.len(),
        plan::plannable(p, d, i, t) ==> {
            ||| reason == "pin"@
            ||| reason == "keep-promote"@ && t == 0
            ||| (reason == "aggressive"@ || reason == "quota"@ || reason == "watermark"@)
                && plan::home_tier(p, i) < t
        },
    ensures
        adds(p, d, plan::with_move(p, d, i, t, reason), reason),
{
    lemma_reasons_differ();
    let size = p.files@[i].size;
    plan::lemma_roomiest(p, d, t, size, p.branches@.len());
    assert(p.branches.len() == p.branches@.len());
    if plan::plannable(p, d, i, t) {
        let e = plan::with_move(p, d, i, t, reason);
        let dst = plan::chosen(p, d, t, size)->0;
        assert(plan::takes(p, d, t, size, dst));
        assert(directed(p, e.moves[d.moves.len() as int]));
    }
}

proof fn lemma_pins_add(p: Pass, d: Draft, n: nat)
    requires
        n <= p.files@.len() == d.planned.len(),
    ensures
        adds(p, d, plan::after_pins(p, d, n), "pin"@),
    decreases n,
{
    if n > 0 {
        lemma_pins_add(p, d, (n - 1) as nat);
        let e = plan::after_pins(p, d, (n - 1) as nat);
        if let Some(r) = plan::rule_at(p, n - 1) {
            if let Some(t) = r.pin {
                lemma_adds_move(p, e, n - 1, t, "pin"@);
                lemma_adds_on(p, d, e, plan::with_move(p, e, n - 1, t, "pin"@), "pin"@);
            }
        }
    }
}

proof fn lemma_push_adds(p: Pass, d: Draft, todo: Seq<usize>)
    requires
        p.files@.len() == d.planned.len(),
        all_files(p, todo, |i: usize| plan::is_pushed(p, d, i)),
    ensures
        adds(p, d, plan::after_push(p, d, todo), "aggressive"@),
    decreases todo.len(),
{
    if todo.len() > 0 {
        let front = todo.drop_last();
        assert forall|k: int| 0 <= k < front.len() implies (#[trigger] front[k]) < p.files@.len()
            && plan::is_pushed(p, d, front[k]) by {
            assert(front[k] == todo[k]);
        }
        lemma_push_adds(p, d, front);
        let e = plan::after_push(p, d, front);
        let i = todo.last();
        assert(todo[todo.len() - 1] == i);
        assert(plan::is_pushed(p, d, i));
        if let Some(t) = plan::push_target(p, i as int) {
            assert(d.planned[i as int] is Some ==> e.planned[i as int] is Some);
            lemma_adds_move(p, e, i as int, t, "aggressive"@);
            lemma_adds_on(
                p,
                d,
                e,
                plan::with_move(p, e, i as int, t, "aggressive"@),
                "aggressive"@,
            );
        }
    }
}

proof fn lemma_cap_adds(p: Pass, d: Draft, ri: int, used: int, quota: u64, todo: Seq<usize>)
    requires
        p.files@.len() == d.planned.len(),
        all_files(p, todo, |i: usize| plan::is_surplus(p, d, ri, i)),
    ensures
        adds(p, d, plan::after_cap(p, d, used, quota, todo).0, "quota"@),
    decreases todo.len(),
{
    if todo.len() > 0 {
        let front = todo.drop_last();
        assert forall|k: int| 0 <= k < front.len() implies (#[trigger] front[k]) < p.files@.len()
            && plan::is_surplus(p, d, ri, front[k]) by {
            assert(front[k] == todo[k]);
        }
        lemma_cap_adds(p, d, ri, used, quota, front);
        let e = plan::after_cap(p, d, used, quota, front).0;
        let i = todo.last();
        let last = p.last() as usize;
        assert(todo[todo.len() - 1] == i);
        assert(plan::is_surplus(p, d, ri, i));
        assert(p.cfg.tiers.len() == p.cfg.tiers@.len());
        assert(d.planned[i as int] is Some ==> e.planned[i as int] is Some);
        lemma_adds_move(p, e, i as int, last, "quota"@);
        lemma_adds_on(p, d, e, plan::with_move(p, e, i as int, last, "quota"@), "quota"@);
    }
}

proof fn lemma_quotas_add(p: Pass, d: Draft, n: nat)
    requires
        p.files@.len() == d.planned.len(),
    ensures
        adds(p, d, plan::after_quotas(p, d, n), "quota"@),
    decreases n,
{
    if n > 0 {
        lemma_quotas_add(p, d, (n - 1) as nat);
        let e = plan::after_quotas(p, d, (n - 1) as nat);
        if let Some(q) = p.cfg.rules@[n - 1].quota {
            let used = plan::fast_bytes(p, e, n - 1, p.files@.len());
            let todo = plan::surplus(p, e, n - 1);
            lemma_candidates(
                p,
                |i: usize| plan::is_surplus(p, e, n - 1, i),
                plan::coldest_first(p),
            );
            lemma_cap_adds(p, e, n - 1, used, q, todo);
            lemma_adds_on(p, d, e, plan::after_cap(p, e, used, q, todo).0, "quota"@);
        }
    }
}

proof fn lemma_promotion_adds(p: Pass, d: Draft, todo: Seq<usize>)
    requires
        p.files@.len() == d.planned.len(),
        forall|k: int| 0 <= k < todo.len() ==> (#[trigger] todo[k]) < p.files@.len(),
    ensures
        adds(p, d, plan::after_promotion(p, d, todo), "keep-promote"@),
    decreases todo.len(),
{
    if todo.len() > 0 {
        let i = todo[0];
        let e = plan::with_move(p, d, i as int, 0, "keep-promote"@);
        let rest = todo.skip(1);
        lemma_adds_move(p, d, i as int, 0, "keep-promote"@);
        assert forall|k: int| 0 <= k < rest.len() implies (#[trigger] rest[k])
            < p.files@.len() by {
            assert(rest[k] == todo[k + 1]);
        }
        lemma_promotion_adds(p, e, rest);
        lemma_adds_on(p, d, e, plan::after_promotion(p, e, rest), "keep-promote"@);
    }
}

proof fn lemma_drain_adds(p: Pass, d: Draft, t: usize, start: Draft, todo: Seq<usize>)
    requires
        p.files@.len() == d.planned.len(),
        t < p.last(),
        all_files(p, todo, |i: usize| plan::is_load(p, start, t, i)),
    ensures
        adds(p, d, plan::after_drain(p, d, t, todo), "watermark"@),
    decreases todo.len(),
{
    if todo.len() > 0 {
        let front = todo.drop_last();
        assert forall|k: int| 0 <= k < front.len() implies (#[trigger] front[k]) < p.files@.len()
            && plan::is_load(p, start, t, front[k]) by {
            assert(front[k] == todo[k]);
        }
        lemma_drain_adds(p, d, t, start, front);
        let e = plan::after_drain(p, d, t, front);
        let i = todo.last();
        assert(todo[todo.len() - 1] == i);
        assert(plan::is_load(p, start, t, i));
        assert(p.cfg.tiers.len() == p.cfg.tiers@.len());
        let next = (t + 1) as usize;
        lemma_adds_move(p, e, i as int, next, "watermark"@);
        lemma_adds_on(
            p,
            d,
            e,
            plan::with_move(p, e, i as int, next, "watermark"@),
            "watermark"@,
        );
    }
}

proof fn lemma_watermarks_add(p: Pass, d: Draft, n: nat)
    requires
        p.files@.len() == d.planned.len(),
        n <= p.last(),
    ensures
        adds(p, d, plan::after_watermarks(p, d, n), "watermark"@),
    decreases n,
{
    if n > 0 {
        lemma_watermarks_add(p, d, (n - 1) as nat);
        let e = plan::after_watermarks(p, d, (n - 1) as nat);
        assert(p.cfg.tiers.len() == p.cfg.tiers@.len());
        let t = (n - 1) as usize;
        lemma_candidates(p, |i: usize| plan::is_load(p, e, t, i), plan::coldest_first(p));
        lemma_drain_adds(p, e, t, e, plan::load(p, e, t));
        lemma_adds_on(p, d, e, plan::after_drain(p, e, t, plan::load(p, e, t)), "watermark"@);
    }
}

/// The moves come in the order of the passes: pins, aggressive subtrees, quotas,
/// promotions, watermarks. Promotions go to the fastest tier, and all but them and
/// pins to a slower tier than the file is on.
pub proof fn moves_come_in_stages(p: Pass, j: int, k: int)
    requires
        p.wf(),
        0 <= j <= k < plan::drafted(p).moves.len(),
    ensures
        stage(plan::drafted(p).moves[j].reason) <= stage(plan::drafted(p).moves[k].reason),
        directed(p, plan::drafted(p).moves[k]),
{
    lemma_reasons_differ();
    let (a, b, c, d, e, f) = (
        plan::blank(p),
        plan::gathered(p),
        plan::lowered(p),
        plan::curbed(p),
        plan::promoted(p),
        plan::drafted(p),
    );
    plan::lemma_blank_shaped(p);
    lemma_pins_add(p, a, p.files@.len());
    lemma_candidates(p, |i: usize| plan::is_pushed(p, b, i), plan::coldest_first(p));
    lemma_push_adds(p, b, plan::pushed(p, b));
    lemma_quotas_add(p, c, p.cfg.rules@.len());
    lemma_candidates(p, |i: usize| plan::is_wanted(p, d, i), plan::hottest_first(p));
    lemma_promotion_adds(p, d, plan::wanted(p, d));
    lemma_watermarks_add(p, e, p.last() as nat);
    assert forall|i: int| 0 <= i < f.moves.len() implies directed(p, #[trigger] f.moves[i]) && stage(
        f.moves[i].reason,
    ) == (if i < b.moves.len() {
        0int
    } else if i < c.moves.len() {
        1
    } else if i < d.moves.len() {
        2
    } else if i < e.moves.len() {
        3
    } else {
        4
    }) by {
        if i < e.moves.len() {
            assert(e.moves[i] == f.moves[i]);
            if i < d.moves.len() {
                assert(d.moves[i] == e.moves[i]);
                if i < c.moves.len() {
                    assert(c.moves[i] == d.moves[i]);
                    if i < b.moves.len() {
                        assert(b.moves[i] == c.moves[i]);
                    }
                }
            }
        }
    }
    assert(stage(f.moves[j].reason) <= stage(f.moves[k].reason));
}

} // verus!
