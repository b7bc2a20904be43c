//! What holds of every plan of the access-time policy.

use super::access_time;
use super::access_time::Projection;
use super::{MoveView, PolicyContext};
use crate::config;
use crate::config::Rule;
use crate::mergerfs::BranchMode;
use crate::order;
use vstd::prelude::*;
#[allow(unused_imports)]
use vstd::relations::*;

verus! {

/// Every attempt to demote keeps `inv`.
pub open spec fn stable(ctx: PolicyContext, inv: spec_fn(Projection) -> bool) -> bool {
    forall|s: Projection, idx: int, min_tier: int, reason: Seq<char>|
        access_time::shaped(ctx, s) && inv(s) && 0 <= idx < access_time::files_of(ctx).len()
            && !access_time::pinned(ctx, idx) ==> inv(
            #[trigger] access_time::demoted(ctx, s, idx, min_tier, reason),
        )
}

pub proof fn lemma_eager_keeps(
    ctx: PolicyContext,
    inv: spec_fn(Projection) -> bool,
    s: Projection,
    todo: Seq<usize>,
)
    requires
        stable(ctx, inv),
        access_time::shaped(ctx, s),
        inv(s),
        forall|k: int|
            0 <= k < todo.len() ==> (#[trigger] todo[k]) < access_time::files_of(ctx).len()
                && !access_time::pinned(ctx, todo[k] as int),
    ensures
        inv(access_time::after_eager(ctx, s, todo)),
        access_time::shaped(ctx, access_time::after_eager(ctx, s, todo)),
    decreases todo.len(),
{
    if todo.len() > 0 {
        assert forall|k: int| 0 <= k < todo.drop_last().len() implies (
        #[trigger] todo.drop_last()[k]) < access_time::files_of(ctx).len() && !access_time::pinned(
            ctx,
            todo.drop_last()[k] as int,
        ) by {
            assert(todo.drop_last()[k] == todo[k]);
        }
        lemma_eager_keeps(ctx, inv, s, todo.drop_last());
        let t = access_time::after_eager(ctx, s, todo.drop_last());
        let idx = todo.last() as int;
        assert(todo[todo.len() - 1] == todo.last());
        let m = access_time::target_below(access_time::rule_of(ctx, idx), t.tier[idx] as int);
        access_time::lemma_demoted_shaped(ctx, t, idx, m, "eager"@);
    }
}

pub proof fn lemma_overdue_keeps(
    ctx: PolicyContext,
    inv: spec_fn(Projection) -> bool,
    s: Projection,
    n: nat,
)
    requires
        stable(ctx, inv),
        access_time::shaped(ctx, s),
        inv(s),
    ensures
        inv(access_time::after_overdue(ctx, s, n)),
        access_time::shaped(ctx, access_time::after_overdue(ctx, s, n)),
    decreases n,
{
    if n > 0 {
        lemma_overdue_keeps(ctx, inv, s, (n - 1) as nat);
        access_time::lemma_overdue(ctx, n - 1);
        lemma_eager_keeps(
            ctx,
            inv,
            access_time::after_overdue(ctx, s, (n - 1) as nat),
            access_time::overdue(ctx, n - 1),
        );
    }
}

pub proof fn lemma_quota_keeps(
    ctx: PolicyContext,
    inv: spec_fn(Projection) -> bool,
    s: Projection,
    rule: Rule,
    todo: Seq<usize>,
)
    requires
        stable(ctx, inv),
        access_time::shaped(ctx, s),
        inv(s),
        forall|k: int|
            0 <= k < todo.len() ==> (#[trigger] todo[k]) < access_time::files_of(ctx).len()
                && !access_time::pinned(ctx, todo[k] as int),
    ensures
        inv(access_time::after_quota(ctx, s, rule, todo)),
        access_time::shaped(ctx, access_time::after_quota(ctx, s, rule, todo)),
    decreases todo.len(),
{
    if todo.len() > 0 {
        assert forall|k: int| 0 <= k < todo.drop_last().len() implies (
        #[trigger] todo.drop_last()[k]) < access_time::files_of(ctx).len() && !access_time::pinned(
            ctx,
            todo.drop_last()[k] as int,
        ) by {
            assert(todo.drop_last()[k] == todo[k]);
        }
        lemma_quota_keeps(ctx, inv, s, rule, todo.drop_last());
        let t = access_time::after_quota(ctx, s, rule, todo.drop_last());
        let idx = todo.last() as int;
        assert(todo[todo.len() - 1] == todo.last());
        let m = access_time::target_below(rule, rule.quota_max_tier as int);
        access_time::lemma_demoted_shaped(ctx, t, idx, m, "quota"@);
    }
}

pub proof fn lemma_rules_keep(
    ctx: PolicyContext,
    inv: spec_fn(Projection) -> bool,
    s: Projection,
    rules: Seq<Rule>,
)
    requires
        stable(ctx, inv),
        access_time::shaped(ctx, s),
        inv(s),
    ensures
        inv(access_time::after_rules(ctx, s, rules)),
        access_time::shaped(ctx, access_time::after_rules(ctx, s, rules)),
    decreases rules.len(),
{
    if rules.len() > 0 {
        lemma_rules_keep(ctx, inv, s, rules.drop_last());
        let t = access_time::after_rules(ctx, s, rules.drop_last());
        let rule = rules.last();
        access_time::lemma_excess(ctx, t, rule);
        lemma_quota_keeps(ctx, inv, t, rule, access_time::excess(ctx, t, rule));
    }
}

pub proof fn lemma_relief_keeps(
    ctx: PolicyContext,
    inv: spec_fn(Projection) -> bool,
    s: Projection,
    b: usize,
)
    requires
        stable(ctx, inv),
        access_time::shaped(ctx, s),
        inv(s),
    ensures
        inv(access_time::relieved(ctx, s, b)),
        access_time::shaped(ctx, access_time::relieved(ctx, s, b)),
    decreases access_time::unmoved(s.moved),
{
    assert(ctx.inventory.files.len() == access_time::files_of(ctx).len());
    let todo = access_time::ballast(ctx, s, b);
    access_time::lemma_ballast(ctx, s, b);
    if s.free[b as int] >= ctx.minfreespace || s.exhausted || todo.len() == 0 {
    } else {
        let idx = todo[0] as int;
        assert(access_time::is_ballast(ctx, s, b, todo[0]));
        let m = access_time::target_below(access_time::rule_of(ctx, idx), s.tier[idx] as int);
        let t = access_time::demoted(ctx, s, idx, m, "minfreespace"@);
        access_time::lemma_demoted_shaped(ctx, s, idx, m, "minfreespace"@);
        if access_time::demotes(ctx, s, idx, m) {
            access_time::lemma_unmoved_update(s.moved, idx);
            lemma_relief_keeps(ctx, inv, t, b);
        }
    }
}

pub proof fn lemma_branches_keep(
    ctx: PolicyContext,
    inv: spec_fn(Projection) -> bool,
    s: Projection,
    order: Seq<usize>,
)
    requires
        stable(ctx, inv),
        access_time::shaped(ctx, s),
        inv(s),
    ensures
        inv(access_time::after_branches(ctx, s, order)),
        access_time::shaped(ctx, access_time::after_branches(ctx, s, order)),
    decreases order.len(),
{
    if order.len() > 0 {
        lemma_branches_keep(ctx, inv, s, order.drop_last());
        lemma_relief_keeps(
            ctx,
            inv,
            access_time::after_branches(ctx, s, order.drop_last()),
            order.last(),
        );
    }
}

/// What holds of the pool as it was found and is kept by every attempt to
/// demote a file holds of the plan.
pub proof fn lemma_plan_keeps(ctx: PolicyContext, inv: spec_fn(Projection) -> bool)
    requires
        ctx.wf(),
        stable(ctx, inv),
        inv(access_time::initial(ctx)),
    ensures
        inv(access_time::projected(ctx)),
        access_time::shaped(ctx, access_time::projected(ctx)),
{
    let s = access_time::initial(ctx);
    access_time::lemma_initial_shaped(ctx);
    let n = access_time::all_rules(ctx).len();
    lemma_overdue_keeps(ctx, inv, s, n);
    let eager = access_time::after_overdue(ctx, s, n);
    lemma_rules_keep(ctx, inv, eager, access_time::all_rules(ctx));
    let capped = access_time::after_rules(ctx, eager, access_time::all_rules(ctx));
    lemma_branches_keep(ctx, inv, capped, access_time::branches_by_speed(ctx));
}

// ---- soundness of the moves --------------------------------------------------------

/// Move `k` of the plan takes its file off the branch where it was found, to
/// another, writable branch on a slower tier, and the file is not pinned.
pub open spec fn sound_move(ctx: PolicyContext, s: Projection, k: int) -> bool {
    let idx = s.who[k] as int;
    let f = access_time::files_of(ctx)[idx];
    let m = s.moves[k];
    let dst = ctx.tiers.branches@[m.dst_branch_idx as int];
    &&& 0 <= idx < access_time::files_of(ctx).len()
    &&& s.moved[idx]
    &&& !access_time::pinned(ctx, idx)
    &&& m.rel == f.rel@
    &&& m.size == f.size
    &&& m.atime == f.atime
    &&& m.mtime == f.mtime
    &&& m.src_branch_idx == f.branch_idx
    &&& m.dst_branch_idx < ctx.tiers.branches@.len()
    &&& m.dst_branch_idx != m.src_branch_idx
    &&& dst.branch.mode == BranchMode::ReadWrite
    &&& f.tier < dst.tier <= ctx.tiers.max_tier
}

/// Every move is sound, no file has two, and a file without one is projected
/// to be where it was found.
pub open spec fn sound(ctx: PolicyContext, s: Projection) -> bool {
    &&& s.who.len() == s.moves.len()
    &&& s.who.no_duplicates()
    &&& forall|k: int| 0 <= k < s.who.len() ==> #[trigger] sound_move(ctx, s, k)
    &&& forall|i: int|
        0 <= i < s.moved.len() && !#[trigger] s.moved[i] ==> s.tier[i] == access_time::files_of(
            ctx,
        )[i].tier && s.branch[i] == access_time::files_of(ctx)[i].branch_idx
}

pub proof fn lemma_sound_step(
    ctx: PolicyContext,
    s: Projection,
    idx: int,
    min_tier: int,
    reason: Seq<char>,
)
    requires
        access_time::shaped(ctx, s),
        sound(ctx, s),
        0 <= idx < access_time::files_of(ctx).len(),
        !access_time::pinned(ctx, idx),
    ensures
        sound(ctx, access_time::demoted(ctx, s, idx, min_tier, reason)),
{
    let t = access_time::demoted(ctx, s, idx, min_tier, reason);
    let size = access_time::files_of(ctx)[idx].size;
    assert(ctx.inventory.files.len() == access_time::files_of(ctx).len());
    assert(ctx.tiers.branches.len() == ctx.tiers.branches@.len());
    access_time::lemma_best_of(ctx, s.free, min_tier, size, ctx.tiers.branches@.len());
    if access_time::demotes(ctx, s, idx, min_tier) {
        let n = s.who.len();
        assert forall|k: int| 0 <= k < t.who.len() implies #[trigger] sound_move(ctx, t, k) by {
            if k < n {
                assert(sound_move(ctx, s, k));
                assert(t.who[k] == s.who[k] && t.moves[k] == s.moves[k]);
            } else {
                assert(t.who[k] == idx && !s.moved[idx]);
            }
        }
        assert forall|j: int, k: int| 0 <= j < k < t.who.len() implies t.who[j] != t.who[k] by {
            assert(sound_move(ctx, s, j));
            if k == n {
                assert(s.moved[s.who[j] as int] && !s.moved[idx]);
            }
        }
        assert forall|i: int| 0 <= i < t.moved.len() && !#[trigger] t.moved[i] implies t.tier[i]
            == access_time::files_of(ctx)[i].tier && t.branch[i] == access_time::files_of(
            ctx,
        )[i].branch_idx by {
            assert(!s.moved[i]);
        }
    } else {
        assert forall|k: int| 0 <= k < t.who.len() implies #[trigger] sound_move(ctx, t, k) by {
            assert(sound_move(ctx, s, k));
        }
    }
}

/// Every planned move takes a file that is not pinned off the branch where it
/// was found, to another, writable branch on a slower tier; and no file is
/// moved twice.
pub proof fn plan_is_sound(ctx: PolicyContext)
    requires
        ctx.wf(),
    ensures
        sound(ctx, access_time::projected(ctx)),
{
    let inv = |s: Projection| sound(ctx, s);
    assert forall|s: Projection, idx: int, min_tier: int, reason: Seq<char>|
        access_time::shaped(ctx, s) && inv(s) && 0 <= idx < access_time::files_of(ctx).len()
            && !access_time::pinned(ctx, idx) implies inv(
        #[trigger] access_time::demoted(ctx, s, idx, min_tier, reason),
    ) by {
        lemma_sound_step(ctx, s, idx, min_tier, reason);
    }
    lemma_plan_keeps(ctx, inv);
}

/// A file is left where it is if its rule pins it, if it was modified more
/// recently than `settle`, or if it was accessed within its rule's `min_age`.
pub proof fn protected_files_stay(ctx: PolicyContext, i: int)
    requires
        ctx.wf(),
        0 <= i < access_time::files_of(ctx).len(),
        ({
            let f = access_time::files_of(ctx)[i];
            let rule = config::governing(*ctx.config, f.rel@);
            ||| rule.pin
            ||| access_time::age(ctx.now, f.mtime) < ctx.config.settle
            ||| (rule.min_age matches Some(min) && access_time::age(ctx.now, f.atime) < min)
        }),
    ensures
        !access_time::projected(ctx).who.contains(i as usize),
{
    plan_is_sound(ctx);
    let s = access_time::projected(ctx);
    assert(ctx.inventory.files.len() == access_time::files_of(ctx).len());
    assert forall|k: int| 0 <= k < s.who.len() implies s.who[k] != i by {
        assert(sound_move(ctx, s, k));
    }
}

// ---- the move budget ---------------------------------------------------------------

/// The sizes of the moves, summed up.
pub open spec fn total_size(moves: Seq<MoveView>) -> int
    decreases moves.len(),
{
    if moves.len() == 0 {
        0
    } else {
        total_size(moves.drop_last()) + moves.last().size
    }
}

/// The moves of one cycle stay within `max_move_bytes_per_cycle`.
pub proof fn plan_within_budget(ctx: PolicyContext)
    requires
        ctx.wf(),
    ensures
        ctx.config.max_move_bytes_per_cycle matches Some(limit) ==> total_size(
            access_time::projected(ctx).moves,
        ) <= limit,
{
    let inv = |s: Projection|
        s.bytes == total_size(s.moves) && (ctx.config.max_move_bytes_per_cycle matches Some(
            limit,
        ) ==> s.bytes <= limit);
    assert forall|s: Projection, idx: int, min_tier: int, reason: Seq<char>|
        access_time::shaped(ctx, s) && inv(s) && 0 <= idx < access_time::files_of(ctx).len()
            && !access_time::pinned(ctx, idx) implies inv(
        #[trigger] access_time::demoted(ctx, s, idx, min_tier, reason),
    ) by {
        let t = access_time::demoted(ctx, s, idx, min_tier, reason);
        if access_time::demotes(ctx, s, idx, min_tier) {
            assert(t.moves.drop_last() =~= s.moves);
        }
    }
    lemma_plan_keeps(ctx, inv);
}

/// Once a move has been turned down for want of budget, none is planned any more.
pub proof fn exhaustion_ends_planning(
    ctx: PolicyContext,
    s: Projection,
    idx: int,
    min_tier: int,
    reason: Seq<char>,
)
    requires
        s.exhausted,
    ensures
        access_time::demoted(ctx, s, idx, min_tier, reason) == s,
{
}

// ---- free space --------------------------------------------------------------------

/// Branch `b` has kept its free space or is still at or above the floor.
pub open spec fn above_floor(ctx: PolicyContext, s: Projection, b: int) -> bool {
    s.free[b] >= ctx.free@[b] || s.free[b] >= ctx.minfreespace
}

/// No plan pushes a branch below the free-space floor.
pub proof fn plan_respects_floor(ctx: PolicyContext, b: int)
    requires
        ctx.wf(),
        0 <= b < ctx.tiers.branches@.len(),
    ensures
        above_floor(ctx, access_time::projected(ctx), b),
{
    let inv = |s: Projection| above_floor(ctx, s, b);
    assert forall|s: Projection, idx: int, min_tier: int, reason: Seq<char>|
        access_time::shaped(ctx, s) && inv(s) && 0 <= idx < access_time::files_of(ctx).len()
            && !access_time::pinned(ctx, idx) implies inv(
        #[trigger] access_time::demoted(ctx, s, idx, min_tier, reason),
    ) by {
        let size = access_time::files_of(ctx)[idx].size;
        access_time::lemma_best_of(ctx, s.free, min_tier, size, ctx.tiers.branches@.len());
        assert(s.branch[idx] < s.free.len());
    }
    lemma_plan_keeps(ctx, inv);
}

// ---- quotas ------------------------------------------------------------------------

/// The free space of the branches once the moves have been made, in turn.
pub open spec fn free_after(ctx: PolicyContext, moves: Seq<MoveView>) -> Seq<u64>
    decreases moves.len(),
{
    if moves.len() == 0 {
        ctx.free@
    } else {
        let m = moves.last();
        let (src, dst) = (m.src_branch_idx as int, m.dst_branch_idx as int);
        let free = free_after(ctx, moves.drop_last());
        let freed = free.update(src, access_time::plus_saturating(free[src], m.size));
        freed.update(dst, access_time::minus_saturating(freed[dst], m.size))
    }
}

/// Every move leaves its destination at or above the floor when it is made.
pub open spec fn each_above_floor(ctx: PolicyContext, moves: Seq<MoveView>) -> bool {
    forall|k: int|
        0 <= k < moves.len() ==> free_after(ctx, #[trigger] moves.take(k + 1))[
            moves[k].dst_branch_idx as int
        ] >= ctx.minfreespace
}

/// No move takes its destination below the free-space floor at its turn.
pub proof fn moves_respect_floor(ctx: PolicyContext)
    requires
        ctx.wf(),
    ensures
        each_above_floor(ctx, access_time::projected(ctx).moves),
        free_after(ctx, access_time::projected(ctx).moves) == access_time::projected(ctx).free,
{
    let inv = |s: Projection|
        each_above_floor(ctx, s.moves) && free_after(ctx, s.moves) == s.free;
    assert forall|s: Projection, idx: int, min_tier: int, reason: Seq<char>|
        access_time::shaped(ctx, s) && inv(s) && 0 <= idx < access_time::files_of(ctx).len()
            && !access_time::pinned(ctx, idx) implies inv(
        #[trigger] access_time::demoted(ctx, s, idx, min_tier, reason),
    ) by {
        let size = access_time::files_of(ctx)[idx].size;
        let t = access_time::demoted(ctx, s, idx, min_tier, reason);
        access_time::lemma_best_of(ctx, s.free, min_tier, size, ctx.tiers.branches@.len());
        assert(ctx.tiers.branches.len() == ctx.tiers.branches@.len());
        assert(s.branch[idx] < s.free.len());
        if access_time::demotes(ctx, s, idx, min_tier) {
            let n = s.moves.len() as int;
            assert(t.moves.drop_last() =~= s.moves);
            assert forall|k: int| 0 <= k < t.moves.len() implies free_after(
                ctx,
                #[trigger] t.moves.take(k + 1),
            )[t.moves[k].dst_branch_idx as int] >= ctx.minfreespace by {
                if k < n {
                    assert(t.moves.take(k + 1) =~= s.moves.take(k + 1));
                } else {
                    assert(t.moves.take(k + 1) =~= t.moves);
                }
            }
        }
    }
    lemma_plan_keeps(ctx, inv);
}

proof fn lemma_usage_step(
    ctx: PolicyContext,
    s: Projection,
    t: Projection,
    rule: Rule,
    n: nat,
)
    requires
        n <= access_time::files_of(ctx).len(),
        forall|i: int| 0 <= i < n ==> #[trigger] t.tier[i] >= s.tier[i],
    ensures
        access_time::usage_of(ctx, t, rule, n) <= access_time::usage_of(ctx, s, rule, n),
    decreases n,
{
    if n > 0 {
        lemma_usage_step(ctx, s, t, rule, (n - 1) as nat);
        assert(t.tier[n - 1] >= s.tier[n - 1]);
    }
}

/// Files only ever go to slower tiers, so that what counts toward any quota
/// never grows in the course of a plan.
pub proof fn plan_never_adds_usage(ctx: PolicyContext, rule: Rule)
    requires
        ctx.wf(),
    ensures
        access_time::usage(ctx, access_time::projected(ctx), rule) <= access_time::usage(
            ctx,
            access_time::initial(ctx),
            rule,
        ),
{
    let first = access_time::initial(ctx);
    let inv = |s: Projection|
        forall|i: int| 0 <= i < s.tier.len() ==> #[trigger] s.tier[i] >= first.tier[i];
    assert forall|s: Projection, idx: int, min_tier: int, reason: Seq<char>|
        access_time::shaped(ctx, s) && inv(s) && 0 <= idx < access_time::files_of(ctx).len()
            && !access_time::pinned(ctx, idx) implies inv(
        #[trigger] access_time::demoted(ctx, s, idx, min_tier, reason),
    ) by {
        let size = access_time::files_of(ctx)[idx].size;
        let t = access_time::demoted(ctx, s, idx, min_tier, reason);
        access_time::lemma_best_of(ctx, s.free, min_tier, size, ctx.tiers.branches@.len());
        assert forall|i: int| 0 <= i < t.tier.len() implies #[trigger] t.tier[i] >= first.tier[i] by {
            assert(s.tier[i] >= first.tier[i]);
        }
    }
    lemma_plan_keeps(ctx, inv);
    lemma_usage_step(
        ctx,
        first,
        access_time::projected(ctx),
        rule,
        access_time::files_of(ctx).len(),
    );
}

/// The enforcement of a quota stops as soon as the subtree is within it.
pub proof fn quota_stops_when_met(
    ctx: PolicyContext,
    s: Projection,
    rule: Rule,
    todo: Seq<usize>,
    k: int,
)
    requires
        rule.quota is Some,
        0 <= k <= todo.len(),
        access_time::usage(ctx, access_time::after_quota(ctx, s, rule, todo.take(k)), rule)
            <= rule.quota->0,
    ensures
        access_time::after_quota(ctx, s, rule, todo) == access_time::after_quota(
            ctx,
            s,
            rule,
            todo.take(k),
        ),
    decreases todo.len(),
{
    if k == todo.len() {
        assert(todo.take(k) =~= todo);
    } else {
        assert(todo.drop_last().take(k) =~= todo.take(k));
        quota_stops_when_met(ctx, s, rule, todo.drop_last(), k);
    }
}

/// Where a subtree is still over its quota after enforcement, every candidate
/// was tried, and none was passed over that could have been moved.
pub proof fn quota_tries_every_candidate(
    ctx: PolicyContext,
    s: Projection,
    rule: Rule,
    todo: Seq<usize>,
    k: int,
)
    requires
        rule.quota is Some,
        0 <= k < todo.len(),
        access_time::usage(ctx, access_time::after_quota(ctx, s, rule, todo), rule)
            > rule.quota->0,
    ensures
        access_time::after_quota(ctx, s, rule, todo.take(k + 1)) == access_time::demoted(
            ctx,
            access_time::after_quota(ctx, s, rule, todo.take(k)),
            todo[k] as int,
            access_time::target_below(rule, rule.quota_max_tier as int),
            "quota"@,
        ),
{
    assert(todo.take(k + 1).drop_last() =~= todo.take(k));
    assert(todo.take(k + 1).last() == todo[k]);
    if access_time::usage(ctx, access_time::after_quota(ctx, s, rule, todo.take(k)), rule)
        <= rule.quota->0 {
        quota_stops_when_met(ctx, s, rule, todo, k);
    }
}

/// Every file is on the tier of its branch.
pub open spec fn in_place(ctx: PolicyContext) -> bool {
    forall|i: int|
        0 <= i < access_time::files_of(ctx).len() ==> (#[trigger] access_time::files_of(
            ctx,
        )[i]).tier == ctx.tiers.branches@[access_time::files_of(ctx)[i].branch_idx as int].tier
}

/// Every file is projected to be on the tier of its branch.
spec fn consistent(ctx: PolicyContext, s: Projection) -> bool {
    forall|i: int|
        0 <= i < s.branch.len() ==> s.tier[i] == ctx.tiers.branches@[#[trigger] s.branch[i] as int].tier
}

/// The subtree of `rule` is within its quota, or the budget is exhausted, or
/// none of the files that could still relieve it has anywhere to go.
pub open spec fn quota_settled(ctx: PolicyContext, s: Projection, rule: Rule) -> bool {
    rule.quota matches Some(q) ==> {
        ||| access_time::usage(ctx, s, rule) <= q
        ||| s.exhausted
        ||| forall|i: usize|
            i < access_time::files_of(ctx).len() && #[trigger] access_time::is_excess(
                ctx,
                s,
                rule,
                i,
            ) ==> access_time::destination(
                ctx,
                s.free,
                access_time::target_below(rule, rule.quota_max_tier as int),
                access_time::files_of(ctx)[i as int].size,
            ) is None
    }
}

/// What has nowhere to go stays so while files leave faster tiers.
proof fn lemma_no_room_stays(
    ctx: PolicyContext,
    before: Seq<u64>,
    after: Seq<u64>,
    min_tier: int,
    size: u64,
)
    requires
        forall|b: int|
            0 <= b < ctx.tiers.branches@.len() && ctx.tiers.branches@[b].tier >= min_tier
                ==> after[b] <= #[trigger] before[b],
        access_time::destination(ctx, before, min_tier, size) is None,
    ensures
        access_time::destination(ctx, after, min_tier, size) is None,
{
    let n = ctx.tiers.branches@.len();
    access_time::lemma_best_of(ctx, before, min_tier, size, n);
    access_time::lemma_best_of(ctx, after, min_tier, size, n);
    if let Some(b) = access_time::destination(ctx, after, min_tier, size) {
        assert(after[b] <= before[b]);
        assert(access_time::has_room(ctx, before, min_tier, size, b));
    }
}

proof fn lemma_tried(ctx: PolicyContext, s: Projection, rule: Rule, todo: Seq<usize>)
    requires
        rule.quota is Some,
        access_time::shaped(ctx, s),
        consistent(ctx, s),
        forall|k: int|
            0 <= k < todo.len() ==> (#[trigger] todo[k]) < access_time::files_of(ctx).len()
                && s.tier[todo[k] as int] <= rule.quota_max_tier,
    ensures
        ({
            let t = access_time::after_quota(ctx, s, rule, todo);
            let m = access_time::target_below(rule, rule.quota_max_tier as int);
            &&& access_time::shaped(ctx, t)
            &&& consistent(ctx, t)
            &&& forall|i: int|
                0 <= i < t.moved.len() && !#[trigger] t.moved[i] ==> !s.moved[i] && t.tier[i]
                    == s.tier[i]
            &&& access_time::usage(ctx, t, rule) > rule.quota->0 && !t.exhausted ==> forall|k: int|
                0 <= k < todo.len() ==> t.moved[#[trigger] todo[k] as int]
                    || access_time::destination(
                    ctx,
                    t.free,
                    m,
                    access_time::files_of(ctx)[todo[k] as int].size,
                ) is None
        }),
    decreases todo.len(),
{
    if todo.len() > 0 {
        let front = todo.drop_last();
        assert forall|k: int| 0 <= k < front.len() implies (#[trigger] front[k])
            < access_time::files_of(ctx).len() && s.tier[front[k] as int]
            <= rule.quota_max_tier by {
            assert(front[k] == todo[k]);
        }
        lemma_tried(ctx, s, rule, front);
        let t0 = access_time::after_quota(ctx, s, rule, front);
        let t = access_time::after_quota(ctx, s, rule, todo);
        let m = access_time::target_below(rule, rule.quota_max_tier as int);
        assert(todo[todo.len() - 1] == todo.last());
        let idx = todo.last() as int;
        let size = access_time::files_of(ctx)[idx].size;
        if access_time::usage(ctx, t0, rule) > rule.quota->0 {
            access_time::lemma_demoted_shaped(ctx, t0, idx, m, "quota"@);
            access_time::lemma_best_of(ctx, t0.free, m, size, ctx.tiers.branches@.len());
            assert(ctx.tiers.branches.len() == ctx.tiers.branches@.len());
            let src = t0.branch[idx] as int;
            if access_time::demotes(ctx, t0, idx, m) {
                assert(!t0.moved[idx]);
                assert(ctx.tiers.branches@[src].tier <= rule.quota_max_tier);
                assert forall|b: int|
                    0 <= b < ctx.tiers.branches@.len() && ctx.tiers.branches@[b].tier
                        >= m implies t.free[b] <= #[trigger] t0.free[b] by {
                    assert(b != src);
                }
            }
            if access_time::usage(ctx, t, rule) > rule.quota->0 && !t.exhausted {
                assert forall|k: int| 0 <= k < todo.len() implies t.moved[#[trigger] todo[k] as int]
                    || access_time::destination(
                    ctx,
                    t.free,
                    m,
                    access_time::files_of(ctx)[todo[k] as int].size,
                ) is None by {
                    let i = todo[k] as int;
                    if k < front.len() {
                        assert(front[k] == todo[k]);
                        if !t0.moved[i] {
                            lemma_no_room_stays(
                                ctx,
                                t0.free,
                                t.free,
                                m,
                                access_time::files_of(ctx)[i].size,
                            );
                        }
                    } else if !t.moved[i] {
                        assert(!t0.moved[i]);
                        assert(t == t0);
                    }
                }
            }
        }
    }
}

/// Once its quota has been enforced a subtree is within it, unless the budget
/// is exhausted or none of the files that could still leave it has anywhere to
/// go. (A file that is on record on another tier than its branch is left out:
/// its move would make room where none is expected.)
pub proof fn quotas_are_settled(ctx: PolicyContext, k: int)
    requires
        ctx.wf(),
        in_place(ctx),
        0 <= k < access_time::all_rules(ctx).len(),
    ensures
        quota_settled(
            ctx,
            access_time::after_rules(
                ctx,
                access_time::after_overdue(
                    ctx,
                    access_time::initial(ctx),
                    access_time::all_rules(ctx).len(),
                ),
                access_time::all_rules(ctx).take(k + 1),
            ),
            access_time::all_rules(ctx)[k],
        ),
{
    let inv = |s: Projection| access_time::shaped(ctx, s) ==> consistent(ctx, s);
    assert forall|s: Projection, idx: int, min_tier: int, reason: Seq<char>|
        access_time::shaped(ctx, s) && inv(s) && 0 <= idx < access_time::files_of(ctx).len()
            && !access_time::pinned(ctx, idx) implies inv(
        #[trigger] access_time::demoted(ctx, s, idx, min_tier, reason),
    ) by {
        let size = access_time::files_of(ctx)[idx].size;
        assert(ctx.tiers.branches.len() == ctx.tiers.branches@.len());
        access_time::lemma_best_of(ctx, s.free, min_tier, size, ctx.tiers.branches@.len());
    }
    let first = access_time::initial(ctx);
    access_time::lemma_initial_shaped(ctx);
    assert(consistent(ctx, first)) by {
        assert forall|i: int| 0 <= i < first.branch.len() implies first.tier[i]
            == ctx.tiers.branches@[#[trigger] first.branch[i] as int].tier by {
            assert(access_time::files_of(ctx)[i].tier == first.tier[i]);
        }
    }
    let count = access_time::all_rules(ctx).len();
    lemma_overdue_keeps(ctx, inv, first, count);
    let eager = access_time::after_overdue(ctx, first, count);
    let rules = access_time::all_rules(ctx);
    lemma_rules_keep(ctx, inv, eager, rules.take(k));
    let s = access_time::after_rules(ctx, eager, rules.take(k));
    assert(rules.take(k + 1).drop_last() =~= rules.take(k));
    assert(rules.take(k + 1).last() == rules[k]);
    let rule = rules[k];
    if rule.quota is Some {
        let todo = access_time::excess(ctx, s, rule);
        access_time::lemma_excess(ctx, s, rule);
        lemma_tried(ctx, s, rule, todo);
        let t = access_time::after_quota(ctx, s, rule, todo);
        let n = access_time::files_of(ctx).len();
        let pred = |i: usize| access_time::is_excess(ctx, s, rule, i);
        let leq = access_time::dispatch_order(access_time::files_of(ctx), rule.dispatch_sort);
        assert(ctx.inventory.files.len() == n);
        order::lemma_select(n, pred);
        access_time::lemma_dispatch_order_total(access_time::files_of(ctx), rule.dispatch_sort);
        order::lemma_sorted_members(order::select(n, pred), leq);
        assert forall|i: usize|
            i < n && #[trigger] access_time::is_excess(ctx, t, rule, i) implies todo.contains(
            i,
        ) by {
            assert(access_time::is_excess(ctx, s, rule, i));
            assert(order::select(n, pred).contains(i));
        }
    }
}

/// Branch `b` is back at the free-space floor, or the budget is exhausted, or no
/// file can be taken off it, or the first of those has nowhere to go.
pub open spec fn branch_settled(ctx: PolicyContext, s: Projection, b: usize) -> bool {
    let todo = access_time::ballast(ctx, s, b);
    ||| s.free[b as int] >= ctx.minfreespace
    ||| s.exhausted
    ||| todo.len() == 0
    ||| !access_time::demotes(
        ctx,
        s,
        todo[0] as int,
        access_time::target_below(
            access_time::rule_of(ctx, todo[0] as int),
            s.tier[todo[0] as int] as int,
        ),
    )
}

proof fn lemma_relief_settles(ctx: PolicyContext, s: Projection, b: usize)
    requires
        access_time::shaped(ctx, s),
    ensures
        branch_settled(ctx, access_time::relieved(ctx, s, b), b),
    decreases access_time::unmoved(s.moved),
{
    assert(ctx.inventory.files.len() == access_time::files_of(ctx).len());
    let todo = access_time::ballast(ctx, s, b);
    access_time::lemma_ballast(ctx, s, b);
    if s.free[b as int] >= ctx.minfreespace || s.exhausted || todo.len() == 0 {
    } else {
        let idx = todo[0] as int;
        assert(access_time::is_ballast(ctx, s, b, todo[0]));
        let m = access_time::target_below(access_time::rule_of(ctx, idx), s.tier[idx] as int);
        let t = access_time::demoted(ctx, s, idx, m, "minfreespace"@);
        access_time::lemma_demoted_shaped(ctx, s, idx, m, "minfreespace"@);
        if access_time::demotes(ctx, s, idx, m) {
            access_time::lemma_unmoved_update(s.moved, idx);
            lemma_relief_settles(ctx, t, b);
        }
    }
}

/// Once it is a branch's turn it is brought back to the free-space floor, unless
/// the budget is exhausted, no file can be taken off it, or the first file in
/// the order of dispatch has nowhere to go.
pub proof fn branches_are_settled(ctx: PolicyContext, k: int)
    requires
        ctx.wf(),
        0 <= k < access_time::branches_by_speed(ctx).len(),
    ensures
        branch_settled(
            ctx,
            access_time::after_branches(
                ctx,
                access_time::after_rules(
                    ctx,
                    access_time::after_overdue(
                        ctx,
                        access_time::initial(ctx),
                        access_time::all_rules(ctx).len(),
                    ),
                    access_time::all_rules(ctx),
                ),
                access_time::branches_by_speed(ctx).take(k + 1),
            ),
            access_time::branches_by_speed(ctx)[k],
        ),
{
    let inv = |s: Projection| true;
    let first = access_time::initial(ctx);
    access_time::lemma_initial_shaped(ctx);
    let n = access_time::all_rules(ctx).len();
    lemma_overdue_keeps(ctx, inv, first, n);
    let eager = access_time::after_overdue(ctx, first, n);
    lemma_rules_keep(ctx, inv, eager, access_time::all_rules(ctx));
    let capped = access_time::after_rules(ctx, eager, access_time::all_rules(ctx));
    let order = access_time::branches_by_speed(ctx);
    lemma_branches_keep(ctx, inv, capped, order.take(k));
    assert(order.take(k + 1).drop_last() =~= order.take(k));
    assert(order.take(k + 1).last() == order[k]);
    lemma_relief_settles(ctx, access_time::after_branches(ctx, capped, order.take(k)), order[k]);
}

// ---- the order of dispatch -----------------------------------------------------------

/// The files moved between `s` and `t` were taken from `todo`, in its order.
pub open spec fn taken_in_order(
    s: Projection,
    t: Projection,
    todo: Seq<usize>,
    leq: spec_fn(usize, usize) -> bool,
) -> bool {
    &&& s.who.len() <= t.who.len()
    &&& t.who.take(s.who.len() as int) == s.who
    &&& sorted_by(t.who.skip(s.who.len() as int), leq)
    &&& forall|k: int| s.who.len() <= k < t.who.len() ==> todo.contains(#[trigger] t.who[k])
}

proof fn lemma_taken_step(
    ctx: PolicyContext,
    s: Projection,
    t: Projection,
    todo: Seq<usize>,
    leq: spec_fn(usize, usize) -> bool,
    min_tier: int,
    reason: Seq<char>,
)
    requires
        todo.len() > 0,
        sorted_by(todo, leq),
        taken_in_order(s, t, todo.drop_last(), leq),
    ensures
        taken_in_order(
            s,
            access_time::demoted(ctx, t, todo.last() as int, min_tier, reason),
            todo,
            leq,
        ),
        taken_in_order(s, t, todo, leq),
{
    let n = s.who.len() as int;
    let front = todo.drop_last();
    let u = access_time::demoted(ctx, t, todo.last() as int, min_tier, reason);
    assert forall|k: int| n <= k < t.who.len() implies todo.contains(#[trigger] t.who[k]) && leq(
        t.who[k],
        todo.last(),
    ) by {
        assert(front.contains(t.who[k]));
        let j = choose|j: int| 0 <= j < front.len() && front[j] == t.who[k];
        assert(todo[j] == t.who[k]);
        assert(leq(todo[j], todo[todo.len() - 1]));
    }
    if u.who.len() > t.who.len() {
        assert(u.who == t.who.push(todo.last()));
        assert(u.who.take(n) =~= s.who);
        let tail = u.who.skip(n);
        assert(tail =~= t.who.skip(n).push(todo.last()));
        assert forall|i: int, j: int| 0 <= i < j < tail.len() implies #[trigger] leq(
            tail[i],
            tail[j],
        ) by {
            if j < tail.len() - 1 {
                assert(leq(t.who.skip(n)[i], t.who.skip(n)[j]));
            } else {
                assert(tail[i] == t.who[n + i]);
            }
        }
        assert(todo.contains(todo[todo.len() - 1]));
        assert forall|k: int| n <= k < u.who.len() implies todo.contains(#[trigger] u.who[k]) by {
            if k < t.who.len() {
                assert(u.who[k] == t.who[k]);
            }
        }
    }
}

proof fn lemma_quota_in_order(
    ctx: PolicyContext,
    s: Projection,
    rule: Rule,
    todo: Seq<usize>,
    leq: spec_fn(usize, usize) -> bool,
)
    requires
        sorted_by(todo, leq),
    ensures
        taken_in_order(s, access_time::after_quota(ctx, s, rule, todo), todo, leq),
    decreases todo.len(),
{
    if todo.len() == 0 {
        assert(s.who.take(s.who.len() as int) =~= s.who);
        assert(s.who.skip(s.who.len() as int) =~= Seq::<usize>::empty());
    } else {
        lemma_quota_in_order(ctx, s, rule, todo.drop_last(), leq);
        lemma_taken_step(
            ctx,
            s,
            access_time::after_quota(ctx, s, rule, todo.drop_last()),
            todo,
            leq,
            access_time::target_below(rule, rule.quota_max_tier as int),
            "quota"@,
        );
    }
}

/// The moves made for a quota are of its candidates, in the rule's order of
/// dispatch.
pub proof fn quota_moves_in_dispatch_order(ctx: PolicyContext, s: Projection, rule: Rule)
    ensures
        rule.quota is Some ==> taken_in_order(
            s,
            access_time::enforced(ctx, s, rule),
            access_time::excess(ctx, s, rule),
            access_time::dispatch_order(access_time::files_of(ctx), rule.dispatch_sort),
        ),
{
    let leq = access_time::dispatch_order(access_time::files_of(ctx), rule.dispatch_sort);
    let pred = |i: usize| access_time::is_excess(ctx, s, rule, i);
    access_time::lemma_dispatch_order_total(access_time::files_of(ctx), rule.dispatch_sort);
    order::select(access_time::files_of(ctx).len(), pred).lemma_sort_by_ensures(leq);
    lemma_quota_in_order(ctx, s, rule, access_time::excess(ctx, s, rule), leq);
}

proof fn lemma_eager_in_order(
    ctx: PolicyContext,
    s: Projection,
    todo: Seq<usize>,
    leq: spec_fn(usize, usize) -> bool,
)
    requires
        sorted_by(todo, leq),
    ensures
        taken_in_order(s, access_time::after_eager(ctx, s, todo), todo, leq),
    decreases todo.len(),
{
    if todo.len() == 0 {
        assert(s.who.take(s.who.len() as int) =~= s.who);
        assert(s.who.skip(s.who.len() as int) =~= Seq::<usize>::empty());
    } else {
        lemma_eager_in_order(ctx, s, todo.drop_last(), leq);
        let t = access_time::after_eager(ctx, s, todo.drop_last());
        let idx = todo.last() as int;
        lemma_taken_step(
            ctx,
            s,
            t,
            todo,
            leq,
            access_time::target_below(access_time::rule_of(ctx, idx), t.tier[idx] as int),
            "eager"@,
        );
    }
}

/// The eager moves made for a rule are of the overdue files that it governs, in
/// the rule's order of dispatch.
pub proof fn eager_moves_in_dispatch_order(ctx: PolicyContext, s: Projection, k: int)
    requires
        0 <= k < access_time::all_rules(ctx).len(),
    ensures
        taken_in_order(
            s,
            access_time::after_eager(ctx, s, access_time::overdue(ctx, k)),
            access_time::overdue(ctx, k),
            access_time::dispatch_order(
                access_time::files_of(ctx),
                access_time::all_rules(ctx)[k].dispatch_sort,
            ),
        ),
{
    let sort = access_time::all_rules(ctx)[k].dispatch_sort;
    let leq = access_time::dispatch_order(access_time::files_of(ctx), sort);
    let pred = |i: usize|
        access_time::is_overdue(ctx, i) && access_time::governor(ctx, i as int) == k;
    access_time::lemma_dispatch_order_total(access_time::files_of(ctx), sort);
    order::select(access_time::files_of(ctx).len(), pred).lemma_sort_by_ensures(leq);
    lemma_eager_in_order(ctx, s, access_time::overdue(ctx, k), leq);
}

/// Every overdue file is a candidate of the rule in force for it, and of no
/// other.
pub proof fn overdue_files_have_their_turn(ctx: PolicyContext, i: usize, k: int)
    requires
        i < access_time::files_of(ctx).len(),
        0 <= k < access_time::all_rules(ctx).len(),
    ensures
        0 <= access_time::governor(ctx, i as int) < access_time::all_rules(ctx).len(),
        access_time::all_rules(ctx)[access_time::governor(ctx, i as int)] == access_time::rule_of(
            ctx,
            i as int,
        ),
        access_time::overdue(ctx, k).contains(i) <==> access_time::is_overdue(ctx, i)
            && access_time::governor(ctx, i as int) == k,
{
    config::lemma_deepest(ctx.config.rules@, access_time::files_of(ctx)[i as int].rel@);
    access_time::lemma_overdue(ctx, k);
    if access_time::overdue(ctx, k).contains(i) {
        let j = choose|j: int|
            0 <= j < access_time::overdue(ctx, k).len() && access_time::overdue(ctx, k)[j] == i;
        assert(access_time::overdue(ctx, k)[j] == i);
    }
}

// ---- a pool at rest ------------------------------------------------------------------

/// Nothing calls for a move: no file is overdue, every quota is kept, and
/// every branch is at or above the free-space floor.
pub open spec fn at_rest(ctx: PolicyContext) -> bool {
    let s = access_time::initial(ctx);
    let rules = access_time::all_rules(ctx);
    &&& forall|i: usize| i < access_time::files_of(ctx).len() ==> !access_time::is_overdue(ctx, i)
    &&& forall|r: int|
        0 <= r < rules.len() && (#[trigger] rules[r]).quota is Some ==> access_time::usage(
            ctx,
            s,
            rules[r],
        ) <= rules[r].quota->0
    &&& forall|b: int| 0 <= b < ctx.free@.len() ==> #[trigger] ctx.free@[b] >= ctx.minfreespace
}

proof fn lemma_overdue_at_rest(ctx: PolicyContext, s: Projection, n: nat)
    requires
        forall|i: usize|
            i < access_time::files_of(ctx).len() ==> !access_time::is_overdue(ctx, i),
    ensures
        access_time::after_overdue(ctx, s, n) == s,
    decreases n,
{
    if n > 0 {
        lemma_overdue_at_rest(ctx, s, (n - 1) as nat);
        access_time::lemma_overdue(ctx, n - 1);
        if access_time::overdue(ctx, n - 1).len() > 0 {
            assert(access_time::is_overdue(ctx, access_time::overdue(ctx, n - 1)[0]));
        }
    }
}

proof fn lemma_rules_at_rest(ctx: PolicyContext, s: Projection, rules: Seq<Rule>)
    requires
        forall|r: int|
            0 <= r < rules.len() && (#[trigger] rules[r]).quota is Some ==> access_time::usage(
                ctx,
                s,
                rules[r],
            ) <= rules[r].quota->0,
    ensures
        access_time::after_rules(ctx, s, rules) == s,
    decreases rules.len(),
{
    if rules.len() > 0 {
        assert forall|r: int|
            0 <= r < rules.drop_last().len() && (
            #[trigger] rules.drop_last()[r]).quota is Some implies access_time::usage(
            ctx,
            s,
            rules.drop_last()[r],
        ) <= rules.drop_last()[r].quota->0 by {
            assert(rules[r] == rules.drop_last()[r]);
        }
        lemma_rules_at_rest(ctx, s, rules.drop_last());
        assert(rules[rules.len() - 1] == rules.last());
        if rules.last().quota is Some {
            access_time::lemma_within_quota(
                ctx,
                s,
                rules.last(),
                access_time::excess(ctx, s, rules.last()),
            );
        }
    }
}

proof fn lemma_branches_at_rest(ctx: PolicyContext, s: Projection, order: Seq<usize>)
    requires
        access_time::shaped(ctx, s),
        forall|b: int| 0 <= b < s.free.len() ==> #[trigger] s.free[b] >= ctx.minfreespace,
        forall|k: int| 0 <= k < order.len() ==> (#[trigger] order[k]) < s.free.len(),
    ensures
        access_time::after_branches(ctx, s, order) == s,
    decreases order.len(),
{
    assert(ctx.inventory.files.len() == access_time::files_of(ctx).len());
    if order.len() > 0 {
        assert forall|k: int| 0 <= k < order.drop_last().len() implies (
        #[trigger] order.drop_last()[k]) < s.free.len() by {
            assert(order[k] == order.drop_last()[k]);
        }
        lemma_branches_at_rest(ctx, s, order.drop_last());
        assert(order[order.len() - 1] == order.last());
        assert(s.free[order.last() as int] >= ctx.minfreespace);
    }
}

/// A pool at rest is left alone.
pub proof fn rest_is_undisturbed(ctx: PolicyContext)
    requires
        ctx.wf(),
        at_rest(ctx),
    ensures
        access_time::projected(ctx).moves.len() == 0,
{
    let s = access_time::initial(ctx);
    access_time::lemma_initial_shaped(ctx);
    lemma_overdue_at_rest(ctx, s, access_time::all_rules(ctx).len());
    lemma_rules_at_rest(ctx, s, access_time::all_rules(ctx));
    let n = ctx.tiers.branches@.len();
    let all = |i: usize| true;
    let leq = access_time::speed_order(ctx.tiers.branches@);
    assert(ctx.tiers.branches.len() == n);
    order::lemma_select(n, all);
    order::lemma_sorted_members(order::select(n, all), leq);
    assert forall|k: int| 0 <= k < access_time::branches_by_speed(ctx).len() implies (
    #[trigger] access_time::branches_by_speed(ctx)[k]) < s.free.len() by {
        let x = access_time::branches_by_speed(ctx)[k];
        assert(order::select(n, all).contains(x));
    }
    lemma_branches_at_rest(ctx, s, access_time::branches_by_speed(ctx));
}

} // verus!
