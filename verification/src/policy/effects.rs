//! What the moves of a plan are for, in terms of the files, the rules and the
//! branches.

use super::access_time;
use super::access_time::Projection;
use super::laws;
use super::{MoveView, PolicyContext};
use crate::config;
use crate::config::{DispatchSorting, Rule};
use crate::inventory::FileInstance;
use crate::mergerfs::BranchMode;
use crate::order;
use crate::paths;
use vstd::prelude::*;
#[allow(unused_imports)]
use vstd::relations::*;
#[allow(unused_imports)]
use vstd::seq_lib::*;

verus! {

// ---- what is asked of a file -------------------------------------------------------

/// The rule in force for file `i`.
pub open spec fn rule_in_force(ctx: PolicyContext, i: int) -> Rule {
    config::governing(*ctx.config, ctx.inventory.files@[i].rel@)
}

/// Rule `k` of the configuration; the default rule comes after the others.
pub open spec fn rule_at(ctx: PolicyContext, k: int) -> Rule {
    if k < ctx.config.rules@.len() {
        ctx.config.rules@[k]
    } else {
        ctx.config.default_rule
    }
}

/// File `i` is to stay: its rule pins it, it was modified less than `settle` ago,
/// or it was accessed less than the rule's `min_age` ago.
pub open spec fn is_protected(ctx: PolicyContext, i: int) -> bool {
    let f = ctx.inventory.files@[i];
    let rule = rule_in_force(ctx, i);
    ||| rule.pin
    ||| ctx.config.settle > 0 && ctx.now - f.mtime < ctx.config.settle
    ||| (rule.min_age matches Some(min) && min > 0 && ctx.now - f.atime < min)
}

/// File `i` is to go: its rule is aggressive, or it was last accessed more than
/// the rule's `max_age` ago.
pub open spec fn is_due(ctx: PolicyContext, i: int) -> bool {
    let rule = rule_in_force(ctx, i);
    ||| rule.aggressive
    ||| (rule.max_age matches Some(max) && ctx.now - ctx.inventory.files@[i].atime > max)
}

proof fn lemma_protected(ctx: PolicyContext, i: int)
    ensures
        access_time::pinned(ctx, i) == is_protected(ctx, i),
        0 <= i <= usize::MAX ==> access_time::is_overdue(ctx, i as usize) == (!is_protected(ctx, i)
            && is_due(ctx, i)),
{
}

/// A file is a candidate of the eager pass, on behalf of the rule in force for
/// it, exactly if it is due and not protected; and on behalf of no other rule.
pub proof fn eager_candidates_are_due(ctx: PolicyContext, i: usize, k: int)
    requires
        i < ctx.inventory.files@.len(),
        0 <= k <= ctx.config.rules@.len(),
    ensures
        access_time::overdue(ctx, k).contains(i) <==> {
            &&& match config::deepest(ctx.config.rules@, ctx.inventory.files@[i as int].rel@) {
                Some(j) => k == j,
                None => k == ctx.config.rules@.len(),
            }
            &&& !is_protected(ctx, i as int)
            &&& is_due(ctx, i as int)
        },
{
    laws::overdue_files_have_their_turn(ctx, i, k);
    lemma_protected(ctx, i as int);
}

/// Under a rule that is not aggressive a file that is not protected is a
/// candidate of the eager pass exactly if the rule has a `max_age` and the last
/// access lies further back than that.
pub proof fn max_age_is_since_the_last_access(ctx: PolicyContext, i: usize)
    requires
        i < ctx.inventory.files@.len(),
        !is_protected(ctx, i as int),
        !rule_in_force(ctx, i as int).aggressive,
    ensures
        (exists|k: int|
            0 <= k <= ctx.config.rules@.len() && #[trigger] access_time::overdue(ctx, k).contains(
                i,
            )) <==> (rule_in_force(ctx, i as int).max_age matches Some(max) && ctx.now
            - ctx.inventory.files@[i as int].atime > max),
{
    config::lemma_deepest(ctx.config.rules@, ctx.inventory.files@[i as int].rel@);
    let g = match config::deepest(ctx.config.rules@, ctx.inventory.files@[i as int].rel@) {
        Some(j) => j,
        None => ctx.config.rules@.len() as int,
    };
    assert forall|k: int|
        0 <= k <= ctx.config.rules@.len() && #[trigger] access_time::overdue(ctx, k).contains(
            i,
        ) implies is_due(ctx, i as int) by {
        eager_candidates_are_due(ctx, i, k);
    }
    eager_candidates_are_due(ctx, i, g);
    if is_due(ctx, i as int) {
        assert(access_time::overdue(ctx, g).contains(i));
    }
}

// ---- what counts toward a quota ----------------------------------------------------

/// File `i`, on the given tier, weighs on the quota of `rule`: it is in the
/// rule's subtree, on one of the tiers up to `quota_max_tier`, and the rule in
/// force for it does not pin it.
pub open spec fn weighs_on(ctx: PolicyContext, rule: Rule, tier: int, i: int) -> bool {
    &&& tier <= rule.quota_max_tier
    &&& config::covered_by(ctx.inventory.files@[i].rel@, rule.path@)
    &&& !rule_in_force(ctx, i).pin
}

/// The sizes of those of the first `n` files that weigh on the quota of `rule`,
/// given the tier of each file.
pub open spec fn weight(ctx: PolicyContext, rule: Rule, tiers: Seq<int>, n: nat) -> int
    decreases n,
{
    if n == 0 {
        0
    } else {
        let rest = weight(ctx, rule, tiers, (n - 1) as nat);
        if weighs_on(ctx, rule, tiers[n - 1], n - 1) {
            rest + ctx.inventory.files@[n - 1].size
        } else {
            rest
        }
    }
}

/// The projected tiers as integers.
pub open spec fn tiers_of(s: Projection) -> Seq<int> {
    Seq::new(s.tier.len(), |i: int| s.tier[i] as int)
}

proof fn lemma_weight(ctx: PolicyContext, s: Projection, rule: Rule, n: nat)
    requires
        n <= s.tier.len(),
    ensures
        access_time::usage_of(ctx, s, rule, n) == weight(ctx, rule, tiers_of(s), n),
        access_time::usage_of(ctx, s, rule, n) >= 0,
        forall|i: int|
            0 <= i < n && #[trigger] weighs_on(ctx, rule, s.tier[i] as int, i)
                ==> access_time::usage_of(ctx, s, rule, n) >= ctx.inventory.files@[i].size,
        (forall|i: int| 0 <= i < n ==> !#[trigger] weighs_on(ctx, rule, s.tier[i] as int, i))
            ==> access_time::usage_of(ctx, s, rule, n) == 0,
    decreases n,
{
    if n > 0 {
        lemma_weight(ctx, s, rule, (n - 1) as nat);
        assert(tiers_of(s)[n - 1] == s.tier[n - 1]);
        assert(access_time::counts(ctx, s, rule, n - 1) == weighs_on(
            ctx,
            rule,
            s.tier[n - 1] as int,
            n - 1,
        ));
    }
}

/// What is used of a quota is the sum of the sizes of the files in the subtree, on
/// any of the tiers up to `quota_max_tier`, that are not pinned by their own rule.
/// So each of them makes it at least its size, and without any it is nothing.
pub proof fn usage_is_the_sum_of_sizes(ctx: PolicyContext, s: Projection, rule: Rule)
    requires
        s.tier.len() == ctx.inventory.files@.len(),
    ensures
        access_time::usage(ctx, s, rule) == weight(
            ctx,
            rule,
            tiers_of(s),
            ctx.inventory.files@.len(),
        ),
        forall|i: int|
            0 <= i < s.tier.len() && s.tier[i] <= rule.quota_max_tier && config::covered_by(
                (#[trigger] ctx.inventory.files@[i]).rel@,
                rule.path@,
            ) && !rule_in_force(ctx, i).pin ==> access_time::usage(ctx, s, rule)
                >= ctx.inventory.files@[i].size,
        (forall|i: int|
            0 <= i < s.tier.len() ==> s.tier[i] > rule.quota_max_tier || !config::covered_by(
                (#[trigger] ctx.inventory.files@[i]).rel@,
                rule.path@,
            ) || rule_in_force(ctx, i).pin) ==> access_time::usage(ctx, s, rule) == 0,
{
    let n = ctx.inventory.files@.len();
    lemma_weight(ctx, s, rule, n);
    assert forall|i: int|
        0 <= i < s.tier.len() && s.tier[i] <= rule.quota_max_tier && config::covered_by(
            (#[trigger] ctx.inventory.files@[i]).rel@,
            rule.path@,
        ) && !rule_in_force(ctx, i).pin implies access_time::usage(ctx, s, rule)
        >= ctx.inventory.files@[i].size by {
        assert(weighs_on(ctx, rule, s.tier[i] as int, i));
    }
    if forall|i: int|
        0 <= i < s.tier.len() ==> s.tier[i] > rule.quota_max_tier || !config::covered_by(
            (#[trigger] ctx.inventory.files@[i]).rel@,
            rule.path@,
        ) || rule_in_force(ctx, i).pin {
        assert forall|i: int| 0 <= i < n implies !#[trigger] weighs_on(
            ctx,
            rule,
            s.tier[i] as int,
            i,
        ) by {
            assert(ctx.inventory.files@[i].size >= 0);
        }
    }
}

/// A file is a candidate under a quota exactly if it has not been given a move,
/// weighs on the quota and is not protected.
pub proof fn quota_candidates_are_what_weighs(
    ctx: PolicyContext,
    s: Projection,
    rule: Rule,
    i: usize,
)
    requires
        i < ctx.inventory.files@.len(),
    ensures
        access_time::excess(ctx, s, rule).contains(i) <==> {
            &&& !s.moved[i as int]
            &&& s.tier[i as int] <= rule.quota_max_tier
            &&& config::covered_by(ctx.inventory.files@[i as int].rel@, rule.path@)
            &&& !is_protected(ctx, i as int)
        },
{
    lemma_protected(ctx, i as int);
    access_time::lemma_excess(ctx, s, rule);
    let n = ctx.inventory.files@.len();
    let pred = |j: usize| access_time::is_excess(ctx, s, rule, j);
    assert(ctx.inventory.files.len() == n);
    order::lemma_select(n, pred);
    access_time::lemma_dispatch_order_total(ctx.inventory.files@, rule.dispatch_sort);
    order::lemma_sorted_members(
        order::select(n, pred),
        access_time::dispatch_order(ctx.inventory.files@, rule.dispatch_sort),
    );
    let todo = access_time::excess(ctx, s, rule);
    if todo.contains(i) {
        let j = choose|j: int| 0 <= j < todo.len() && todo[j] == i;
        assert(access_time::is_excess(ctx, s, rule, todo[j]));
    }
    if pred(i) {
        assert(order::select(n, pred).contains(i));
    }
}

/// A file can be taken off a branch exactly if it is on it, has not been given a
/// move and is not protected.
pub proof fn ballast_is_what_may_leave(ctx: PolicyContext, s: Projection, b: usize, i: usize)
    requires
        i < ctx.inventory.files@.len(),
    ensures
        access_time::ballast(ctx, s, b).contains(i) <==> {
            &&& !s.moved[i as int]
            &&& s.branch[i as int] == b
            &&& !is_protected(ctx, i as int)
        },
{
    lemma_protected(ctx, i as int);
    let n = ctx.inventory.files@.len();
    let pred = |j: usize| access_time::is_ballast(ctx, s, b, j);
    let sort = ctx.config.default_rule.dispatch_sort;
    assert(ctx.inventory.files.len() == n);
    access_time::lemma_ballast(ctx, s, b);
    order::lemma_select(n, pred);
    access_time::lemma_dispatch_order_total(ctx.inventory.files@, sort);
    order::lemma_sorted_members(
        order::select(n, pred),
        access_time::dispatch_order(ctx.inventory.files@, sort),
    );
    let todo = access_time::ballast(ctx, s, b);
    if todo.contains(i) {
        let j = choose|j: int| 0 <= j < todo.len() && todo[j] == i;
        assert(access_time::is_ballast(ctx, s, b, todo[j]));
    }
    if pred(i) {
        assert(order::select(n, pred).contains(i));
    }
}

/// The quotas of all rules are enforced, that of the default rule last.
pub proof fn every_rule_is_enforced(ctx: PolicyContext)
    ensures
        access_time::all_rules(ctx).len() == ctx.config.rules@.len() + 1,
        forall|k: int|
            0 <= k <= ctx.config.rules@.len() ==> #[trigger] access_time::all_rules(ctx)[k]
                == rule_at(ctx, k),
{
}

// ---- the order of dispatch ---------------------------------------------------------

/// File `a` goes before file `b` by what the sorting is about: the time of the last
/// access or modification, or the size.
pub open spec fn goes_first(sort: DispatchSorting, a: FileInstance, b: FileInstance) -> bool {
    match sort {
        DispatchSorting::AscendingAccess => a.atime < b.atime,
        DispatchSorting::DescendingAccess => b.atime < a.atime,
        DispatchSorting::AscendingModification => a.mtime < b.mtime,
        DispatchSorting::DescendingModification => b.mtime < a.mtime,
        DispatchSorting::AscendingSize => a.size < b.size,
        DispatchSorting::DescendingSize => b.size < a.size,
    }
}

/// Of two files the one that goes first by the sorting is dispatched first, and of
/// two that are alike the one with the lesser path.
pub proof fn dispatch_follows_the_sorting(
    files: Seq<FileInstance>,
    sort: DispatchSorting,
    a: usize,
    b: usize,
)
    requires
        a < files.len(),
        b < files.len(),
    ensures
        goes_first(sort, files[a as int], files[b as int]) ==> access_time::dispatched_before(
            files,
            sort,
            a,
            b,
        ) && !access_time::dispatched_before(files, sort, b, a),
        !goes_first(sort, files[a as int], files[b as int]) && !goes_first(
            sort,
            files[b as int],
            files[a as int],
        ) && paths::components(files[a as int].rel@) != paths::components(files[b as int].rel@)
            ==> access_time::dispatched_before(files, sort, a, b) == paths::path_le(
            files[a as int].rel@,
            files[b as int].rel@,
        ),
        !goes_first(sort, files[a as int], files[b as int]) && !goes_first(
            sort,
            files[b as int],
            files[a as int],
        ) && paths::components(files[a as int].rel@) == paths::components(files[b as int].rel@)
            ==> access_time::dispatched_before(files, sort, a, b) == (a <= b),
{
}

/// The branches get their turn once each, those on faster tiers first and those on
/// one tier in their own order.
pub proof fn fast_branches_come_first(ctx: PolicyContext)
    ensures
        access_time::branches_by_speed(ctx).len() == ctx.tiers.branches@.len(),
        forall|b: usize|
            b < ctx.tiers.branches@.len() ==> #[trigger] access_time::branches_by_speed(
                ctx,
            ).contains(b),
        forall|j: int, k: int|
            #![trigger access_time::branches_by_speed(ctx)[j], access_time::branches_by_speed(ctx)[k]]
            0 <= j < k < ctx.tiers.branches@.len() ==> {
                let x = access_time::branches_by_speed(ctx)[j];
                let y = access_time::branches_by_speed(ctx)[k];
                ||| ctx.tiers.branches@[x as int].tier < ctx.tiers.branches@[y as int].tier
                ||| ctx.tiers.branches@[x as int].tier == ctx.tiers.branches@[y as int].tier && x
                    <= y
            },
{
    let n = ctx.tiers.branches@.len();
    let all = |i: usize| true;
    let leq = access_time::speed_order(ctx.tiers.branches@);
    assert(ctx.tiers.branches.len() == n);
    order::lemma_select(n, all);
    order::lemma_sorted_members(order::select(n, all), leq);
    order::select(n, all).lemma_sort_by_ensures(leq);
    lemma_select_all(n, all);
    let sorted = access_time::branches_by_speed(ctx);
    assert forall|b: usize| b < n implies #[trigger] sorted.contains(b) by {
        assert(all(b));
        assert(order::select(n, all).contains(b));
    }
    assert forall|j: int, k: int| 0 <= j < k < n implies leq(
        #[trigger] sorted[j],
        #[trigger] sorted[k],
    ) by {}
}

proof fn lemma_select_all(n: nat, all: spec_fn(usize) -> bool)
    requires
        forall|i: usize| #[trigger] all(i),
    ensures
        order::select(n, all).len() == n,
    decreases n,
{
    if n > 0 {
        lemma_select_all((n - 1) as nat, all);
    }
}

// ---- what each move is for ---------------------------------------------------------

/// The pool in the course of a plan.
pub struct Pool {
    /// Free bytes per branch.
    pub free: Seq<int>,
    /// The tier of each file.
    pub tier: Seq<int>,
    /// Which files have been given a move.
    pub gone: Seq<bool>,
}

/// Free bytes that a move of `size` bytes leaves behind, off or onto the branch.
pub open spec fn free_then(free: int, off: bool, onto: bool, size: int) -> int {
    let more = if !off {
        free
    } else if free + size <= u64::MAX {
        free + size
    } else {
        u64::MAX as int
    };
    if !onto {
        more
    } else if size <= more {
        more - size
    } else {
        0
    }
}

/// The pool once the given moves, of the given files, have been made in turn.
pub open spec fn pool_after(ctx: PolicyContext, who: Seq<usize>, moves: Seq<MoveView>) -> Pool
    decreases moves.len(),
{
    if moves.len() == 0 {
        Pool {
            free: Seq::new(ctx.free@.len(), |b: int| ctx.free@[b] as int),
            tier: Seq::new(
                ctx.inventory.files@.len(),
                |i: int| ctx.inventory.files@[i].tier as int,
            ),
            gone: Seq::new(ctx.inventory.files@.len(), |i: int| false),
        }
    } else {
        let p = pool_after(ctx, who.drop_last(), moves.drop_last());
        let m = moves.last();
        Pool {
            free: Seq::new(
                p.free.len(),
                |b: int|
                    free_then(p.free[b], b == m.src_branch_idx, b == m.dst_branch_idx, m.size as int),
            ),
            tier: p.tier.update(
                who.last() as int,
                ctx.tiers.branches@[m.dst_branch_idx as int].tier as int,
            ),
            gone: p.gone.update(who.last() as int, true),
        }
    }
}

/// Branch `b` can take a file of the given size that `rule` sends off the tiers up
/// to `top`: it is writable, on a slower tier, no faster than the rule's
/// `target_tier`, and keeps `minfreespace`.
pub open spec fn can_take(
    ctx: PolicyContext,
    p: Pool,
    rule: Rule,
    top: int,
    size: u64,
    b: int,
) -> bool {
    &&& 0 <= b < ctx.tiers.branches@.len()
    &&& ctx.tiers.branches@[b].branch.mode == BranchMode::ReadWrite
    &&& top < ctx.tiers.branches@[b].tier <= ctx.tiers.max_tier
    &&& rule.target_tier matches Some(t) ==> t <= ctx.tiers.branches@[b].tier
    &&& p.free[b] - size >= ctx.minfreespace
}

/// Of the branches that can take the file, `d` is the one on the fastest tier, of
/// those the one with the most free space, and of those the first.
pub open spec fn best_place(
    ctx: PolicyContext,
    p: Pool,
    rule: Rule,
    top: int,
    size: u64,
    d: int,
) -> bool {
    &&& can_take(ctx, p, rule, top, size, d)
    &&& forall|b: int| #[trigger]
        can_take(ctx, p, rule, top, size, b) ==> {
            let (td, tb) = (ctx.tiers.branches@[d].tier, ctx.tiers.branches@[b].tier);
            ||| td < tb
            ||| td == tb && p.free[d] > p.free[b]
            ||| td == tb && p.free[d] == p.free[b] && d <= b
        }
}

/// The subtree of `rule` has more than its quota.
pub open spec fn over_quota(ctx: PolicyContext, p: Pool, rule: Rule) -> bool {
    rule.quota matches Some(q) && weight(ctx, rule, p.tier, ctx.inventory.files@.len()) > q
}

/// File `i` is the first to be taken off its branch: it goes before every other
/// file there that has not been given a move and is not protected.
pub open spec fn first_to_go(ctx: PolicyContext, p: Pool, i: int) -> bool {
    forall|j: int|
        0 <= j < ctx.inventory.files@.len() && !#[trigger] p.gone[j] && !is_protected(ctx, j)
            && ctx.inventory.files@[j].branch_idx == ctx.inventory.files@[i].branch_idx
            ==> access_time::dispatched_before(
            ctx.inventory.files@,
            ctx.config.default_rule.dispatch_sort,
            i as usize,
            j as usize,
        )
}

/// A move that demotes a file eagerly: the file is due.
pub open spec fn eager_move(ctx: PolicyContext, p: Pool, i: int, m: MoveView) -> bool {
    let f = ctx.inventory.files@[i];
    &&& m.reason == "eager"@
    &&& is_due(ctx, i)
    &&& best_place(
        ctx,
        p,
        rule_in_force(ctx, i),
        f.tier as int,
        f.size,
        m.dst_branch_idx as int,
    )
}

/// A move made for the quota of `rule`: the subtree is over it, and the file weighs
/// on it.
pub open spec fn quota_move(
    ctx: PolicyContext,
    p: Pool,
    i: int,
    m: MoveView,
    rule: Rule,
) -> bool {
    let f = ctx.inventory.files@[i];
    &&& m.reason == "quota"@
    &&& over_quota(ctx, p, rule)
    &&& weighs_on(ctx, rule, f.tier as int, i)
    &&& best_place(ctx, p, rule, rule.quota_max_tier as int, f.size, m.dst_branch_idx as int)
}

/// A move made for the free space of the file's branch: it is below the floor, and
/// the file is the first to be taken off it.
pub open spec fn relief_move(ctx: PolicyContext, p: Pool, i: int, m: MoveView) -> bool {
    let f = ctx.inventory.files@[i];
    &&& m.reason == "minfreespace"@
    &&& p.free[f.branch_idx as int] < ctx.minfreespace
    &&& first_to_go(ctx, p, i)
    &&& best_place(
        ctx,
        p,
        rule_in_force(ctx, i),
        f.tier as int,
        f.size,
        m.dst_branch_idx as int,
    )
}

/// The move is of file `i`, which has none yet and is not protected, off the branch
/// where it was found; and one of the three passes calls for it.
pub open spec fn called_for(ctx: PolicyContext, p: Pool, i: int, m: MoveView) -> bool {
    let f = ctx.inventory.files@[i];
    &&& 0 <= i < ctx.inventory.files@.len()
    &&& !p.gone[i]
    &&& !is_protected(ctx, i)
    &&& m.rel == f.rel@ && m.size == f.size && m.atime == f.atime && m.mtime == f.mtime
    &&& m.src_branch_idx == f.branch_idx && m.dst_branch_idx != f.branch_idx
    &&& {
        ||| eager_move(ctx, p, i, m)
        ||| exists|k: int|
            0 <= k <= ctx.config.rules@.len() && quota_move(
                ctx,
                p,
                i,
                m,
                #[trigger] rule_at(ctx, k),
            )
        ||| relief_move(ctx, p, i, m)
    }
}

/// The projection is what the planned moves come to.
spec fn mirrors(ctx: PolicyContext, s: Projection) -> bool {
    let p = pool_after(ctx, s.who, s.moves);
    &&& s.who.len() == s.moves.len()
    &&& p.free.len() == s.free.len()
    &&& p.tier.len() == s.tier.len()
    &&& p.gone == s.moved
    &&& forall|b: int| 0 <= b < s.free.len() ==> p.free[b] == #[trigger] s.free[b]
    &&& p.tier == tiers_of(s)
}

proof fn lemma_place(ctx: PolicyContext, s: Projection, rule: Rule, top: int, size: u64)
    requires
        access_time::shaped(ctx, s),
        mirrors(ctx, s),
    ensures
        ({
            let p = pool_after(ctx, s.who, s.moves);
            let min_tier = access_time::target_below(rule, top);
            match access_time::destination(ctx, s.free, min_tier, size) {
                Some(d) => 0 <= d < ctx.tiers.branches@.len() && best_place(
                    ctx,
                    p,
                    rule,
                    top,
                    size,
                    d,
                ),
                None => forall|b: int| !#[trigger] can_take(ctx, p, rule, top, size, b),
            }
        }),
{
    let p = pool_after(ctx, s.who, s.moves);
    let min_tier = access_time::target_below(rule, top);
    access_time::lemma_best_of(ctx, s.free, min_tier, size, ctx.tiers.branches@.len());
    assert forall|b: int| 0 <= b < ctx.tiers.branches@.len() implies can_take(
        ctx,
        p,
        rule,
        top,
        size,
        b,
    ) == #[trigger] access_time::has_room(ctx, s.free, min_tier, size, b) by {
        assert(p.free[b] == s.free[b]);
    }
    if let Some(d) = access_time::destination(ctx, s.free, min_tier, size) {
        assert forall|b: int| #[trigger] can_take(ctx, p, rule, top, size, b) implies {
            let (td, tb) = (ctx.tiers.branches@[d].tier, ctx.tiers.branches@[b].tier);
            ||| td < tb
            ||| td == tb && p.free[d] > p.free[b]
            ||| td == tb && p.free[d] == p.free[b] && d <= b
        } by {
            assert(access_time::has_room(ctx, s.free, min_tier, size, b));
            assert(p.free[b] == s.free[b] && p.free[d] == s.free[d]);
        }
    } else {
        assert forall|b: int| !#[trigger] can_take(ctx, p, rule, top, size, b) by {
            if 0 <= b < ctx.tiers.branches@.len() {
                assert(!access_time::has_room(ctx, s.free, min_tier, size, b));
            }
        }
    }
}

/// An attempt on behalf of the quota of `rule`.
pub open spec fn quota_attempt(
    ctx: PolicyContext,
    s: Projection,
    idx: int,
    min_tier: int,
    rule: Rule,
) -> bool {
    &&& rule.quota is Some
    &&& access_time::usage(ctx, s, rule) > rule.quota->0
    &&& !s.moved[idx] ==> access_time::counts(ctx, s, rule, idx)
    &&& min_tier == access_time::target_below(rule, rule.quota_max_tier as int)
}

/// An attempt that the given pass makes: the eager one, that for quotas, or that
/// for free space.
pub open spec fn attempt(
    ctx: PolicyContext,
    pass: int,
    s: Projection,
    idx: int,
    min_tier: int,
    reason: Seq<char>,
) -> bool {
    &&& 0 <= idx < access_time::files_of(ctx).len()
    &&& !access_time::pinned(ctx, idx)
    &&& pass == 0 ==> {
        &&& reason == "eager"@
        &&& access_time::is_overdue(ctx, idx as usize)
        &&& min_tier == access_time::target_below(
            access_time::rule_of(ctx, idx),
            s.tier[idx] as int,
        )
    }
    &&& pass == 1 ==> {
        &&& reason == "quota"@
        &&& exists|k: int|
            0 <= k < access_time::all_rules(ctx).len() && quota_attempt(
                ctx,
                s,
                idx,
                min_tier,
                #[trigger] access_time::all_rules(ctx)[k],
            )
    }
    &&& pass == 2 ==> {
        let todo = access_time::ballast(ctx, s, s.branch[idx]);
        &&& reason == "minfreespace"@
        &&& !s.moved[idx]
        &&& s.free[s.branch[idx] as int] < ctx.minfreespace
        &&& todo.len() > 0 && todo[0] == idx
        &&& min_tier == access_time::target_below(
            access_time::rule_of(ctx, idx),
            s.tier[idx] as int,
        )
    }
}

/// Every attempt of the pass keeps `inv`.
pub open spec fn pass_keeps(
    ctx: PolicyContext,
    pass: int,
    inv: spec_fn(Projection) -> bool,
) -> bool {
    forall|s: Projection, idx: int, min_tier: int, reason: Seq<char>|
        access_time::shaped(ctx, s) && laws::sound(ctx, s) && inv(s) && attempt(
            ctx,
            pass,
            s,
            idx,
            min_tier,
            reason,
        ) ==> inv(#[trigger] access_time::demoted(ctx, s, idx, min_tier, reason))
}

/// The projection has the right shape, its moves are sound, and `inv` holds of it.
spec fn good(ctx: PolicyContext, inv: spec_fn(Projection) -> bool, s: Projection) -> bool {
    access_time::shaped(ctx, s) && laws::sound(ctx, s) && inv(s)
}

proof fn lemma_attempt(
    ctx: PolicyContext,
    pass: int,
    inv: spec_fn(Projection) -> bool,
    s: Projection,
    idx: int,
    min_tier: int,
    reason: Seq<char>,
)
    requires
        pass_keeps(ctx, pass, inv),
        good(ctx, inv, s),
        attempt(ctx, pass, s, idx, min_tier, reason),
    ensures
        good(ctx, inv, access_time::demoted(ctx, s, idx, min_tier, reason)),
{
    access_time::lemma_demoted_shaped(ctx, s, idx, min_tier, reason);
    laws::lemma_sound_step(ctx, s, idx, min_tier, reason);
}

proof fn lemma_eager_pass(
    ctx: PolicyContext,
    inv: spec_fn(Projection) -> bool,
    s: Projection,
    todo: Seq<usize>,
)
    requires
        pass_keeps(ctx, 0, inv),
        good(ctx, inv, s),
        forall|k: int|
            0 <= k < todo.len() ==> (#[trigger] todo[k]) < access_time::files_of(ctx).len()
                && access_time::is_overdue(ctx, todo[k]),
    ensures
        good(ctx, inv, access_time::after_eager(ctx, s, todo)),
    decreases todo.len(),
{
    if todo.len() > 0 {
        let front = todo.drop_last();
        assert forall|k: int| 0 <= k < front.len() implies (#[trigger] front[k])
            < access_time::files_of(ctx).len() && access_time::is_overdue(ctx, front[k]) by {
            assert(front[k] == todo[k]);
        }
        lemma_eager_pass(ctx, inv, s, front);
        let t = access_time::after_eager(ctx, s, front);
        let idx = todo.last() as int;
        assert(todo[todo.len() - 1] == todo.last());
        lemma_attempt(
            ctx,
            0,
            inv,
            t,
            idx,
            access_time::target_below(access_time::rule_of(ctx, idx), t.tier[idx] as int),
            "eager"@,
        );
    }
}

proof fn lemma_overdue_pass(
    ctx: PolicyContext,
    inv: spec_fn(Projection) -> bool,
    s: Projection,
    n: nat,
)
    requires
        pass_keeps(ctx, 0, inv),
        good(ctx, inv, s),
    ensures
        good(ctx, inv, access_time::after_overdue(ctx, s, n)),
    decreases n,
{
    if n > 0 {
        lemma_overdue_pass(ctx, inv, s, (n - 1) as nat);
        access_time::lemma_overdue(ctx, n - 1);
        lemma_eager_pass(
            ctx,
            inv,
            access_time::after_overdue(ctx, s, (n - 1) as nat),
            access_time::overdue(ctx, n - 1),
        );
    }
}

proof fn lemma_quota_pass(
    ctx: PolicyContext,
    inv: spec_fn(Projection) -> bool,
    s: Projection,
    k: int,
    todo: Seq<usize>,
)
    requires
        pass_keeps(ctx, 1, inv),
        good(ctx, inv, s),
        0 <= k < access_time::all_rules(ctx).len(),
        access_time::all_rules(ctx)[k].quota is Some,
        forall|j: int|
            0 <= j < todo.len() ==> (#[trigger] todo[j]) < access_time::files_of(ctx).len()
                && access_time::is_excess(ctx, s, access_time::all_rules(ctx)[k], todo[j]),
    ensures
        good(ctx, inv, access_time::after_quota(ctx, s, access_time::all_rules(ctx)[k], todo)),
    decreases todo.len(),
{
    if todo.len() > 0 {
        let rule = access_time::all_rules(ctx)[k];
        let front = todo.drop_last();
        assert forall|j: int| 0 <= j < front.len() implies (#[trigger] front[j])
            < access_time::files_of(ctx).len() && access_time::is_excess(
            ctx,
            s,
            rule,
            front[j],
        ) by {
            assert(front[j] == todo[j]);
        }
        lemma_quota_pass(ctx, inv, s, k, front);
        let t = access_time::after_quota(ctx, s, rule, front);
        let idx = todo.last() as int;
        assert(todo[todo.len() - 1] == todo.last());
        assert(access_time::is_excess(ctx, s, rule, todo[todo.len() - 1]));
        let m = access_time::target_below(rule, rule.quota_max_tier as int);
        if access_time::usage(ctx, t, rule) > rule.quota->0 {
            assert(!s.moved[idx]);
            if !t.moved[idx] {
                assert(t.tier[idx] == s.tier[idx]);
            }
            assert(quota_attempt(ctx, t, idx, m, access_time::all_rules(ctx)[k]));
            lemma_attempt(ctx, 1, inv, t, idx, m, "quota"@);
        }
    }
}

proof fn lemma_rules_pass(
    ctx: PolicyContext,
    inv: spec_fn(Projection) -> bool,
    s: Projection,
    n: nat,
)
    requires
        pass_keeps(ctx, 1, inv),
        good(ctx, inv, s),
        n <= access_time::all_rules(ctx).len(),
    ensures
        good(
            ctx,
            inv,
            access_time::after_rules(ctx, s, access_time::all_rules(ctx).take(n as int)),
        ),
    decreases n,
{
    if n > 0 {
        let rules = access_time::all_rules(ctx);
        lemma_rules_pass(ctx, inv, s, (n - 1) as nat);
        assert(rules.take(n as int).drop_last() =~= rules.take(n - 1));
        assert(rules.take(n as int).last() == rules[n - 1]);
        let t = access_time::after_rules(ctx, s, rules.take(n - 1));
        access_time::lemma_excess(ctx, t, rules[n - 1]);
        if rules[n - 1].quota is Some {
            lemma_quota_pass(ctx, inv, t, n - 1, access_time::excess(ctx, t, rules[n - 1]));
        }
    }
}

proof fn lemma_relief_pass(
    ctx: PolicyContext,
    inv: spec_fn(Projection) -> bool,
    s: Projection,
    b: usize,
)
    requires
        pass_keeps(ctx, 2, inv),
        good(ctx, inv, s),
    ensures
        good(ctx, inv, access_time::relieved(ctx, s, b)),
    decreases access_time::unmoved(s.moved),
{
    assert(ctx.inventory.files.len() == access_time::files_of(ctx).len());
    let todo = access_time::ballast(ctx, s, b);
    access_time::lemma_ballast(ctx, s, b);
    if s.free[b as int] >= ctx.minfreespace || s.exhausted || todo.len() == 0 {
    } else {
        let idx = todo[0] as int;
        assert(access_time::is_ballast(ctx, s, b, todo[0]));
        let m = access_time::target_below(access_time::rule_of(ctx, idx), s.tier[idx] as int);
        let t = access_time::demoted(ctx, s, idx, m, "minfreespace"@);
        lemma_attempt(ctx, 2, inv, s, idx, m, "minfreespace"@);
        if access_time::demotes(ctx, s, idx, m) {
            access_time::lemma_unmoved_update(s.moved, idx);
            lemma_relief_pass(ctx, inv, t, b);
        }
    }
}

proof fn lemma_branches_pass(
    ctx: PolicyContext,
    inv: spec_fn(Projection) -> bool,
    s: Projection,
    order: Seq<usize>,
)
    requires
        pass_keeps(ctx, 2, inv),
        good(ctx, inv, s),
    ensures
        good(ctx, inv, access_time::after_branches(ctx, s, order)),
    decreases order.len(),
{
    if order.len() > 0 {
        lemma_branches_pass(ctx, inv, s, order.drop_last());
        lemma_relief_pass(
            ctx,
            inv,
            access_time::after_branches(ctx, s, order.drop_last()),
            order.last(),
        );
    }
}

/// What holds of the pool as it was found, and is kept by each pass in its turn,
/// holds of the plan.
proof fn lemma_passes(
    ctx: PolicyContext,
    first: spec_fn(Projection) -> bool,
    second: spec_fn(Projection) -> bool,
    third: spec_fn(Projection) -> bool,
)
    requires
        ctx.wf(),
        pass_keeps(ctx, 0, first),
        pass_keeps(ctx, 1, second),
        pass_keeps(ctx, 2, third),
        first(access_time::initial(ctx)),
        forall|s: Projection| #[trigger] first(s) ==> second(s),
        forall|s: Projection| #[trigger] second(s) ==> third(s),
    ensures
        third(access_time::projected(ctx)),
{
    let s = access_time::initial(ctx);
    access_time::lemma_initial_shaped(ctx);
    let rules = access_time::all_rules(ctx);
    lemma_overdue_pass(ctx, first, s, rules.len());
    let eager = access_time::after_overdue(ctx, s, rules.len());
    lemma_rules_pass(ctx, second, eager, rules.len());
    assert(rules.take(rules.len() as int) =~= rules);
    let capped = access_time::after_rules(ctx, eager, rules);
    lemma_branches_pass(ctx, third, capped, access_time::branches_by_speed(ctx));
}

/// Every move is called for by the pool as the moves before it leave it.
spec fn all_called_for(ctx: PolicyContext, s: Projection) -> bool {
    &&& mirrors(ctx, s)
    &&& forall|k: int|
        0 <= k < s.moves.len() ==> called_for(
            ctx,
            pool_after(ctx, s.who.take(k), s.moves.take(k)),
            s.who[k] as int,
            #[trigger] s.moves[k],
        )
}

proof fn lemma_first_to_go(ctx: PolicyContext, s: Projection, idx: int)
    requires
        access_time::shaped(ctx, s),
        laws::sound(ctx, s),
        mirrors(ctx, s),
        0 <= idx < access_time::files_of(ctx).len(),
        !s.moved[idx],
        access_time::ballast(ctx, s, s.branch[idx]).len() > 0,
        access_time::ballast(ctx, s, s.branch[idx])[0] == idx,
    ensures
        first_to_go(ctx, pool_after(ctx, s.who, s.moves), idx),
{
    let p = pool_after(ctx, s.who, s.moves);
    let files = ctx.inventory.files@;
    let sort = ctx.config.default_rule.dispatch_sort;
    let b = s.branch[idx];
    let pred = |j: usize| access_time::is_ballast(ctx, s, b, j);
    let leq = access_time::dispatch_order(files, sort);
    assert(ctx.inventory.files.len() == files.len());
    let todo = access_time::ballast(ctx, s, b);
    access_time::lemma_dispatch_order_total(files, sort);
    order::select(files.len(), pred).lemma_sort_by_ensures(leq);
    assert forall|j: int|
        0 <= j < files.len() && !#[trigger] p.gone[j] && !is_protected(ctx, j)
            && files[j].branch_idx == files[idx].branch_idx implies access_time::dispatched_before(
        files,
        sort,
        idx as usize,
        j as usize,
    ) by {
        assert(!s.moved[j]);
        ballast_is_what_may_leave(ctx, s, b, j as usize);
        let q = choose|q: int| 0 <= q < todo.len() && todo[q] == j as usize;
        assert(leq(todo[0], todo[0]));
        if q > 0 {
            assert(leq(todo[0], todo[q]));
        }
    }
}

proof fn lemma_mirrors_step(
    ctx: PolicyContext,
    s: Projection,
    idx: int,
    min_tier: int,
    reason: Seq<char>,
)
    requires
        access_time::shaped(ctx, s),
        mirrors(ctx, s),
        0 <= idx < access_time::files_of(ctx).len(),
    ensures
        mirrors(ctx, access_time::demoted(ctx, s, idx, min_tier, reason)),
{
    let t = access_time::demoted(ctx, s, idx, min_tier, reason);
    let p = pool_after(ctx, s.who, s.moves);
    let size = access_time::files_of(ctx)[idx].size;
    assert(ctx.inventory.files.len() == access_time::files_of(ctx).len());
    assert(ctx.tiers.branches.len() == ctx.tiers.branches@.len());
    if access_time::demotes(ctx, s, idx, min_tier) {
        assert(t.moves.drop_last() =~= s.moves);
        assert(t.who.drop_last() =~= s.who);
        assert(s.branch[idx] < s.free.len());
        access_time::lemma_best_of(ctx, s.free, min_tier, size, ctx.tiers.branches@.len());
        let q = pool_after(ctx, t.who, t.moves);
        assert(q.tier =~= tiers_of(t));
        assert(q.gone =~= t.moved);
        assert forall|b: int| 0 <= b < t.free.len() implies q.free[b] == #[trigger] t.free[b] by {
            assert(p.free[b] == s.free[b]);
        }
    } else {
        assert(tiers_of(t) =~= tiers_of(s));
    }
}

/// The move that an attempt of the pass makes is called for.
proof fn lemma_move_called_for(
    ctx: PolicyContext,
    pass: int,
    s: Projection,
    idx: int,
    min_tier: int,
    reason: Seq<char>,
)
    requires
        access_time::shaped(ctx, s),
        laws::sound(ctx, s),
        mirrors(ctx, s),
        attempt(ctx, pass, s, idx, min_tier, reason),
        access_time::demotes(ctx, s, idx, min_tier),
        0 <= pass < 3,
    ensures
        called_for(
            ctx,
            pool_after(ctx, s.who, s.moves),
            idx,
            access_time::demoted(ctx, s, idx, min_tier, reason).moves.last(),
        ),
{
    let p = pool_after(ctx, s.who, s.moves);
    let files = ctx.inventory.files@;
    let size = files[idx].size;
    let m = access_time::demoted(ctx, s, idx, min_tier, reason).moves.last();
    assert(ctx.inventory.files.len() == files.len());
    assert(ctx.tiers.branches.len() == ctx.tiers.branches@.len());
    lemma_protected(ctx, idx);
    assert(!s.moved[idx]);
    assert(s.tier[idx] == files[idx].tier && s.branch[idx] == files[idx].branch_idx);
    let d = access_time::destination(ctx, s.free, min_tier, size)->0;
    if pass == 1 {
        let k = choose|k: int|
            0 <= k < access_time::all_rules(ctx).len() && quota_attempt(
                ctx,
                s,
                idx,
                min_tier,
                #[trigger] access_time::all_rules(ctx)[k],
            );
        let rule = access_time::all_rules(ctx)[k];
        assert(rule == rule_at(ctx, k));
        lemma_place(ctx, s, rule, rule.quota_max_tier as int, size);
        lemma_weight(ctx, s, rule, files.len());
        assert(m.dst_branch_idx == d);
        assert(quota_move(ctx, p, idx, m, rule_at(ctx, k)));
    } else {
        lemma_place(ctx, s, rule_in_force(ctx, idx), files[idx].tier as int, size);
        assert(m.dst_branch_idx == d);
        if pass == 0 {
            assert(eager_move(ctx, p, idx, m));
        } else {
            lemma_first_to_go(ctx, s, idx);
            assert(p.free[s.branch[idx] as int] == s.free[s.branch[idx] as int]);
            assert(relief_move(ctx, p, idx, m));
        }
    }
}

proof fn lemma_called_for_step(
    ctx: PolicyContext,
    pass: int,
    s: Projection,
    idx: int,
    min_tier: int,
    reason: Seq<char>,
)
    requires
        access_time::shaped(ctx, s),
        laws::sound(ctx, s),
        all_called_for(ctx, s),
        attempt(ctx, pass, s, idx, min_tier, reason),
        0 <= pass < 3,
    ensures
        all_called_for(ctx, access_time::demoted(ctx, s, idx, min_tier, reason)),
{
    let t = access_time::demoted(ctx, s, idx, min_tier, reason);
    let n = s.moves.len() as int;
    assert(ctx.inventory.files.len() == access_time::files_of(ctx).len());
    lemma_mirrors_step(ctx, s, idx, min_tier, reason);
    if access_time::demotes(ctx, s, idx, min_tier) {
        lemma_move_called_for(ctx, pass, s, idx, min_tier, reason);
    }
    assert forall|k: int| 0 <= k < t.moves.len() implies called_for(
        ctx,
        pool_after(ctx, t.who.take(k), t.moves.take(k)),
        t.who[k] as int,
        #[trigger] t.moves[k],
    ) by {
        if k < n {
            assert(t.who.take(k) =~= s.who.take(k));
            assert(t.moves.take(k) =~= s.moves.take(k));
            assert(t.moves[k] == s.moves[k]);
            assert(t.who[k] == s.who[k]);
        } else {
            assert(t.who.take(k) =~= s.who);
            assert(t.moves.take(k) =~= s.moves);
            assert(t.moves[k] == t.moves.last());
        }
    }
}

proof fn lemma_initial_mirrors(ctx: PolicyContext)
    requires
        ctx.wf(),
    ensures
        all_called_for(ctx, access_time::initial(ctx)),
{
    let s = access_time::initial(ctx);
    let p = pool_after(ctx, s.who, s.moves);
    assert(p.gone =~= s.moved);
    assert(p.tier =~= tiers_of(s));
}

proof fn lemma_plan_called_for(ctx: PolicyContext)
    requires
        ctx.wf(),
    ensures
        all_called_for(ctx, access_time::projected(ctx)),
{
    let inv = |s: Projection| all_called_for(ctx, s);
    lemma_all_called_for_kept(ctx);
    lemma_initial_mirrors(ctx);
    lemma_passes(ctx, inv, inv, inv);
}

/// Every move of a plan is of a file that is not protected, is as the file was
/// found, and is called for by the pool as the moves before it leave it: the file is
/// due; or it weighs on a quota that is exceeded; or its branch is short of free
/// space and it is the first to be taken off. It goes to the best place there is.
pub proof fn every_move_is_called_for(ctx: PolicyContext, k: int)
    requires
        ctx.wf(),
        0 <= k < access_time::projected(ctx).moves.len(),
    ensures
        access_time::projected(ctx).who.len() == access_time::projected(ctx).moves.len(),
        called_for(
            ctx,
            pool_after(
                ctx,
                access_time::projected(ctx).who.take(k),
                access_time::projected(ctx).moves.take(k),
            ),
            access_time::projected(ctx).who[k] as int,
            access_time::projected(ctx).moves[k],
        ),
{
    lemma_plan_called_for(ctx);
    assert(access_time::projected(ctx).moves[k].size >= 0);
}

/// The reasons differ from each other.
proof fn lemma_reasons_differ()
    ensures
        "eager"@ != "quota"@,
        "eager"@ != "minfreespace"@,
        "quota"@ != "minfreespace"@,
{
    reveal_strlit("eager");
    reveal_strlit("quota");
    reveal_strlit("minfreespace");
    assert("eager"@[0] == 'e');
    assert("quota"@[0] == 'q');
    assert("minfreespace"@[0] == 'm');
}

/// A file whose rule is not aggressive, and whose last access lies no further back
/// than the rule's `max_age`, is not moved eagerly; nor is one without a `max_age`.
pub proof fn recent_files_are_not_moved_eagerly(ctx: PolicyContext, k: int)
    requires
        ctx.wf(),
        0 <= k < access_time::projected(ctx).moves.len(),
        access_time::projected(ctx).moves[k].reason == "eager"@,
    ensures
        ({
            let i = access_time::projected(ctx).who[k] as int;
            let f = ctx.inventory.files@[i];
            let rule = config::governing(*ctx.config, f.rel@);
            &&& 0 <= i < ctx.inventory.files@.len()
            &&& access_time::projected(ctx).moves[k].rel == f.rel@
            &&& !rule.aggressive ==> (rule.max_age matches Some(max) && ctx.now - f.atime > max)
        }),
{
    every_move_is_called_for(ctx, k);
    lemma_reasons_differ();
}

/// The pass that a reason belongs to.
spec fn pass_of(reason: Seq<char>) -> int {
    if reason == "eager"@ {
        0
    } else if reason == "quota"@ {
        1
    } else {
        2
    }
}

/// The passes follow each other, and none after `pass` has begun.
spec fn in_turn(s: Projection, pass: int) -> bool {
    &&& forall|k: int| 0 <= k < s.moves.len() ==> pass_of((#[trigger] s.moves[k]).reason) <= pass
    &&& forall|j: int, k: int|
        0 <= j < k < s.moves.len() ==> pass_of((#[trigger] s.moves[j]).reason) <= pass_of(
            (#[trigger] s.moves[k]).reason,
        )
}

proof fn lemma_in_turn(ctx: PolicyContext, pass: int)
    requires
        0 <= pass < 3,
    ensures
        pass_keeps(ctx, pass, |s: Projection| in_turn(s, pass)),
{
    lemma_reasons_differ();
    let inv = |s: Projection| in_turn(s, pass);
    assert forall|s: Projection, idx: int, min_tier: int, reason: Seq<char>|
        access_time::shaped(ctx, s) && laws::sound(ctx, s) && inv(s) && attempt(
            ctx,
            pass,
            s,
            idx,
            min_tier,
            reason,
        ) implies inv(#[trigger] access_time::demoted(ctx, s, idx, min_tier, reason)) by {
        let t = access_time::demoted(ctx, s, idx, min_tier, reason);
        assert(pass_of(reason) == pass);
        assert(in_turn(s, pass));
        if access_time::demotes(ctx, s, idx, min_tier) {
            let n = s.moves.len() as int;
            assert forall|k: int| 0 <= k < t.moves.len() implies pass_of(
                (#[trigger] t.moves[k]).reason,
            ) <= pass by {
                if k < n {
                    assert(t.moves[k] == s.moves[k]);
                }
            }
            assert forall|j: int, k: int| 0 <= j < k < t.moves.len() implies pass_of(
                (#[trigger] t.moves[j]).reason,
            ) <= pass_of((#[trigger] t.moves[k]).reason) by {
                assert(t.moves[j] == s.moves[j]);
                if k < n {
                    assert(t.moves[k] == s.moves[k]);
                }
            }
        }
    }
}

/// The moves of the eager pass come first, then those made for quotas, then those
/// made for free space.
pub proof fn passes_follow_each_other(ctx: PolicyContext, j: int, k: int)
    requires
        ctx.wf(),
        0 <= j < k < access_time::projected(ctx).moves.len(),
    ensures
        access_time::projected(ctx).moves[k].reason == "eager"@ ==> access_time::projected(
            ctx,
        ).moves[j].reason == "eager"@,
        access_time::projected(ctx).moves[j].reason == "minfreespace"@ ==> access_time::projected(
            ctx,
        ).moves[k].reason == "minfreespace"@,
{
    let first = |s: Projection| in_turn(s, 0);
    let second = |s: Projection| in_turn(s, 1);
    let third = |s: Projection| in_turn(s, 2);
    lemma_in_turn(ctx, 0);
    lemma_in_turn(ctx, 1);
    lemma_in_turn(ctx, 2);
    lemma_passes(ctx, first, second, third);
    lemma_reasons_differ();
    every_move_is_called_for(ctx, j);
    every_move_is_called_for(ctx, k);
    let s = access_time::projected(ctx);
    assert(pass_of(s.moves[j].reason) <= pass_of(s.moves[k].reason));
}

// ---- the order of the moves --------------------------------------------------------

/// Under the sorting file `b` does not go before file `a`, neither by what the sorting is
/// about nor, where they are alike in that, by their paths.
pub open spec fn in_sequence(ctx: PolicyContext, sort: DispatchSorting, a: int, b: int) -> bool {
    let (x, y) = (ctx.inventory.files@[a], ctx.inventory.files@[b]);
    &&& !goes_first(sort, y, x)
    &&& goes_first(sort, x, y) || paths::path_le(x.rel@, y.rel@)
}

/// The place, among all rules, of the one in force for file `i`.
pub open spec fn place_of_rule(ctx: PolicyContext, i: int) -> int {
    match config::deepest(ctx.config.rules@, ctx.inventory.files@[i].rel@) {
        Some(k) => k,
        None => ctx.config.rules@.len() as int,
    }
}

proof fn lemma_sorted_files(
    ctx: PolicyContext,
    sort: DispatchSorting,
    chosen: Seq<usize>,
    todo: Seq<usize>,
)
    requires
        todo == chosen.sort_by(access_time::dispatch_order(ctx.inventory.files@, sort)),
        forall|k: int|
            0 <= k < todo.len() ==> (#[trigger] todo[k]) < ctx.inventory.files@.len(),
    ensures
        forall|j: int, k: int|
            0 <= j < k < todo.len() ==> in_sequence(
                ctx,
                sort,
                (#[trigger] todo[j]) as int,
                (#[trigger] todo[k]) as int,
            ),
{
    let files = ctx.inventory.files@;
    let leq = access_time::dispatch_order(files, sort);
    access_time::lemma_dispatch_order_total(files, sort);
    chosen.lemma_sort_by_ensures(leq);
    assert forall|j: int, k: int| 0 <= j < k < todo.len() implies in_sequence(
        ctx,
        sort,
        (#[trigger] todo[j]) as int,
        (#[trigger] todo[k]) as int,
    ) by {
        assert(leq(todo[j], todo[k]));
        dispatch_follows_the_sorting(files, sort, todo[j], todo[k]);
        dispatch_follows_the_sorting(files, sort, todo[k], todo[j]);
        paths::lemma_path_le_total(files[todo[j] as int].rel@, files[todo[k] as int].rel@);
    }
}

/// The candidates of each pass are taken in an order: those that are due in that of the
/// rule in force for them, those under a quota in that of its rule, and those on a branch
/// in that of the default rule.
pub proof fn candidates_are_in_sequence(
    ctx: PolicyContext,
    s: Projection,
    rule: Rule,
    n: int,
    b: usize,
)
    requires
        0 <= n <= ctx.config.rules@.len(),
    ensures
        forall|j: int, k: int|
            0 <= j < k < access_time::overdue(ctx, n).len() ==> in_sequence(
                ctx,
                rule_at(ctx, n).dispatch_sort,
                (#[trigger] access_time::overdue(ctx, n)[j]) as int,
                (#[trigger] access_time::overdue(ctx, n)[k]) as int,
            ),
        forall|j: int, k: int|
            0 <= j < k < access_time::excess(ctx, s, rule).len() ==> in_sequence(
                ctx,
                rule.dispatch_sort,
                (#[trigger] access_time::excess(ctx, s, rule)[j]) as int,
                (#[trigger] access_time::excess(ctx, s, rule)[k]) as int,
            ),
        forall|j: int, k: int|
            0 <= j < k < access_time::ballast(ctx, s, b).len() ==> in_sequence(
                ctx,
                ctx.config.default_rule.dispatch_sort,
                (#[trigger] access_time::ballast(ctx, s, b)[j]) as int,
                (#[trigger] access_time::ballast(ctx, s, b)[k]) as int,
            ),
{
    let files = ctx.inventory.files@;
    assert(ctx.inventory.files.len() == files.len());
    access_time::lemma_overdue(ctx, n);
    access_time::lemma_excess(ctx, s, rule);
    access_time::lemma_ballast(ctx, s, b);
    lemma_sorted_files(
        ctx,
        rule_at(ctx, n).dispatch_sort,
        order::select(
            files.len(),
            |i: usize|
                access_time::is_overdue(ctx, i) && access_time::governor(ctx, i as int) == n,
        ),
        access_time::overdue(ctx, n),
    );
    lemma_sorted_files(
        ctx,
        rule.dispatch_sort,
        order::select(files.len(), |i: usize| access_time::is_excess(ctx, s, rule, i)),
        access_time::excess(ctx, s, rule),
    );
    lemma_sorted_files(
        ctx,
        ctx.config.default_rule.dispatch_sort,
        order::select(files.len(), |i: usize| access_time::is_ballast(ctx, s, b, i)),
        access_time::ballast(ctx, s, b),
    );
}

proof fn lemma_quota_sequence(ctx: PolicyContext, s: Projection, rule: Rule, todo: Seq<usize>)
    requires
        forall|j: int, k: int|
            0 <= j < k < todo.len() ==> in_sequence(
                ctx,
                rule.dispatch_sort,
                (#[trigger] todo[j]) as int,
                (#[trigger] todo[k]) as int,
            ),
    ensures
        ({
            let t = access_time::after_quota(ctx, s, rule, todo);
            &&& s.who.len() <= t.who.len()
            &&& forall|k: int|
                s.who.len() <= k < t.who.len() ==> todo.contains(#[trigger] t.who[k])
            &&& forall|j: int, k: int|
                s.who.len() <= j < k < t.who.len() ==> in_sequence(
                    ctx,
                    rule.dispatch_sort,
                    (#[trigger] t.who[j]) as int,
                    (#[trigger] t.who[k]) as int,
                )
        }),
    decreases todo.len(),
{
    if todo.len() > 0 {
        let front = todo.drop_last();
        assert forall|j: int, k: int| 0 <= j < k < front.len() implies in_sequence(
            ctx,
            rule.dispatch_sort,
            (#[trigger] front[j]) as int,
            (#[trigger] front[k]) as int,
        ) by {
            assert(front[j] == todo[j] && front[k] == todo[k]);
        }
        lemma_quota_sequence(ctx, s, rule, front);
        let t = access_time::after_quota(ctx, s, rule, front);
        let u = access_time::after_quota(ctx, s, rule, todo);
        assert(u.who == t.who || u.who == t.who.push(todo.last()));
        assert forall|k: int| s.who.len() <= k < t.who.len() implies todo.contains(
            #[trigger] t.who[k],
        ) by {
            let q = choose|q: int| 0 <= q < front.len() && front[q] == t.who[k];
            assert(todo[q] == t.who[k]);
        }
        assert(todo[todo.len() - 1] == todo.last());
        assert forall|k: int| s.who.len() <= k < u.who.len() implies todo.contains(
            #[trigger] u.who[k],
        ) by {
            if k < t.who.len() {
                assert(u.who[k] == t.who[k]);
            }
        }
        assert forall|j: int, k: int| s.who.len() <= j < k < u.who.len() implies in_sequence(
            ctx,
            rule.dispatch_sort,
            (#[trigger] u.who[j]) as int,
            (#[trigger] u.who[k]) as int,
        ) by {
            assert(u.who[j] == t.who[j]);
            if k < t.who.len() {
                assert(u.who[k] == t.who[k]);
            } else {
                let q = choose|q: int| 0 <= q < front.len() && front[q] == t.who[j];
                assert(todo[q] == t.who[j]);
                assert(todo[todo.len() - 1] == u.who[k]);
            }
        }
    }
}

/// The moves made for the quota of a rule are made in the rule's order.
pub proof fn quota_moves_are_in_sequence(
    ctx: PolicyContext,
    s: Projection,
    rule: Rule,
    j: int,
    k: int,
)
    requires
        s.who.len() <= j < k < access_time::enforced(ctx, s, rule).who.len(),
    ensures
        in_sequence(
            ctx,
            rule.dispatch_sort,
            access_time::enforced(ctx, s, rule).who[j] as int,
            access_time::enforced(ctx, s, rule).who[k] as int,
        ),
{
    if rule.quota is Some {
        candidates_are_in_sequence(ctx, s, rule, 0, 0);
        lemma_quota_sequence(ctx, s, rule, access_time::excess(ctx, s, rule));
    }
}

/// File `a` has its turn in the eager pass no later than file `b`.
pub open spec fn eager_sequence(ctx: PolicyContext, a: int, b: int) -> bool {
    ||| place_of_rule(ctx, a) < place_of_rule(ctx, b)
    ||| place_of_rule(ctx, a) == place_of_rule(ctx, b) && in_sequence(
        ctx,
        rule_in_force(ctx, a).dispatch_sort,
        a,
        b,
    )
}

/// The moves so far are in the sequence of the eager pass, in which rule `n` has come as
/// far as `todo`.
spec fn eager_so_far(ctx: PolicyContext, s: Projection, n: int, todo: Seq<usize>) -> bool {
    &&& forall|k: int|
        0 <= k < s.who.len() ==> place_of_rule(ctx, (#[trigger] s.who[k]) as int) < n
            || todo.contains(s.who[k])
    &&& forall|j: int, k: int|
        0 <= j < k < s.who.len() ==> eager_sequence(
            ctx,
            (#[trigger] s.who[j]) as int,
            (#[trigger] s.who[k]) as int,
        )
}

proof fn lemma_eager_block(ctx: PolicyContext, s: Projection, n: int, m: int)
    requires
        0 <= n <= ctx.config.rules@.len(),
        0 <= m <= access_time::overdue(ctx, n).len(),
        eager_so_far(ctx, s, n, Seq::empty()),
    ensures
        eager_so_far(
            ctx,
            access_time::after_eager(ctx, s, access_time::overdue(ctx, n).take(m)),
            n,
            access_time::overdue(ctx, n).take(m),
        ),
    decreases m,
{
    let all = access_time::overdue(ctx, n);
    if m == 0 {
        assert(all.take(0) =~= Seq::<usize>::empty());
    } else {
        lemma_eager_block(ctx, s, n, m - 1);
        let (front, todo) = (all.take(m - 1), all.take(m));
        assert(todo.drop_last() =~= front);
        let t = access_time::after_eager(ctx, s, front);
        let u = access_time::after_eager(ctx, s, todo);
        let x = todo.last();
        assert(x == all[m - 1]);
        assert(u.who == t.who || u.who == t.who.push(x));
        access_time::lemma_overdue(ctx, n);
        candidates_are_in_sequence(ctx, s, rule_at(ctx, n), n, 0);
        assert(access_time::governor(ctx, x as int) == n);
        assert(todo[m - 1] == x);
        assert forall|k: int| 0 <= k < t.who.len() && front.contains(
            #[trigger] t.who[k],
        ) implies todo.contains(t.who[k]) && eager_sequence(ctx, t.who[k] as int, x as int) by {
            let q = choose|q: int| 0 <= q < front.len() && front[q] == t.who[k];
            assert(todo[q] == t.who[k]);
            assert(all[q] == t.who[k]);
            assert(access_time::governor(ctx, all[q] as int) == n);
            config::lemma_deepest(ctx.config.rules@, ctx.inventory.files@[t.who[k] as int].rel@);
            assert(rule_in_force(ctx, t.who[k] as int) == rule_at(ctx, n));
            assert(in_sequence(ctx, rule_at(ctx, n).dispatch_sort, all[q] as int, all[m - 1] as int));
        }
        assert forall|k: int| 0 <= k < u.who.len() implies place_of_rule(
            ctx,
            (#[trigger] u.who[k]) as int,
        ) < n || todo.contains(u.who[k]) by {
            if k < t.who.len() {
                assert(u.who[k] == t.who[k]);
            }
        }
        assert forall|j: int, k: int| 0 <= j < k < u.who.len() implies eager_sequence(
            ctx,
            (#[trigger] u.who[j]) as int,
            (#[trigger] u.who[k]) as int,
        ) by {
            assert(u.who[j] == t.who[j]);
            if k < t.who.len() {
                assert(u.who[k] == t.who[k]);
            }
        }
    }
}

proof fn lemma_eager_blocks(ctx: PolicyContext, n: nat)
    requires
        n <= ctx.config.rules@.len() + 1,
    ensures
        eager_so_far(
            ctx,
            access_time::after_overdue(ctx, access_time::initial(ctx), n),
            n as int,
            Seq::empty(),
        ),
    decreases n,
{
    if n > 0 {
        lemma_eager_blocks(ctx, (n - 1) as nat);
        let s = access_time::after_overdue(ctx, access_time::initial(ctx), (n - 1) as nat);
        let all = access_time::overdue(ctx, n - 1);
        lemma_eager_block(ctx, s, n - 1, all.len() as int);
        assert(all.take(all.len() as int) =~= all);
        access_time::lemma_overdue(ctx, n - 1);
        let t = access_time::after_overdue(ctx, access_time::initial(ctx), n);
        assert forall|k: int| 0 <= k < t.who.len() implies place_of_rule(
            ctx,
            (#[trigger] t.who[k]) as int,
        ) < n by {
            if all.contains(t.who[k]) {
                let q = choose|q: int| 0 <= q < all.len() && all[q] == t.who[k];
                assert(access_time::governor(ctx, all[q] as int) == n - 1);
            }
        }
    }
}

/// The moves of the eager pass among those so far are in its sequence.
spec fn eager_in_sequence(ctx: PolicyContext, s: Projection) -> bool {
    forall|j: int, k: int|
        0 <= j < k < s.who.len() && s.moves[j].reason == "eager"@ && s.moves[k].reason
            == "eager"@ ==> eager_sequence(
            ctx,
            (#[trigger] s.who[j]) as int,
            (#[trigger] s.who[k]) as int,
        )
}

proof fn lemma_eager_in_sequence(ctx: PolicyContext, pass: int)
    requires
        1 <= pass < 3,
    ensures
        pass_keeps(ctx, pass, |s: Projection| eager_in_sequence(ctx, s)),
{
    lemma_reasons_differ();
    let inv = |s: Projection| eager_in_sequence(ctx, s);
    assert forall|s: Projection, idx: int, min_tier: int, reason: Seq<char>|
        access_time::shaped(ctx, s) && laws::sound(ctx, s) && inv(s) && attempt(
            ctx,
            pass,
            s,
            idx,
            min_tier,
            reason,
        ) implies inv(#[trigger] access_time::demoted(ctx, s, idx, min_tier, reason)) by {
        let t = access_time::demoted(ctx, s, idx, min_tier, reason);
        assert(reason != "eager"@);
        assert(eager_in_sequence(ctx, s));
        assert forall|j: int, k: int|
            0 <= j < k < t.who.len() && t.moves[j].reason == "eager"@ && t.moves[k].reason
                == "eager"@ implies eager_sequence(
            ctx,
            (#[trigger] t.who[j]) as int,
            (#[trigger] t.who[k]) as int,
        ) by {
            if k < s.who.len() {
                assert(t.who[j] == s.who[j] && t.who[k] == s.who[k]);
                assert(t.moves[j] == s.moves[j] && t.moves[k] == s.moves[k]);
            }
        }
    }
}

/// The moves of the eager pass are made rule by rule, and those of one rule in its order.
pub proof fn eager_moves_are_in_sequence(ctx: PolicyContext, j: int, k: int)
    requires
        ctx.wf(),
        0 <= j < k < access_time::projected(ctx).moves.len(),
        access_time::projected(ctx).moves[k].reason == "eager"@,
    ensures
        eager_sequence(
            ctx,
            access_time::projected(ctx).who[j] as int,
            access_time::projected(ctx).who[k] as int,
        ),
{
    let rules = access_time::all_rules(ctx);
    let first = access_time::initial(ctx);
    let eager = access_time::after_overdue(ctx, first, rules.len());
    let yes = |s: Projection| true;
    let inv = |s: Projection| eager_in_sequence(ctx, s);
    access_time::lemma_initial_shaped(ctx);
    lemma_overdue_pass(ctx, yes, first, rules.len());
    lemma_eager_blocks(ctx, rules.len());
    assert(inv(eager));
    lemma_eager_in_sequence(ctx, 1);
    lemma_eager_in_sequence(ctx, 2);
    lemma_rules_pass(ctx, inv, eager, rules.len());
    assert(rules.take(rules.len() as int) =~= rules);
    let capped = access_time::after_rules(ctx, eager, rules);
    lemma_branches_pass(ctx, inv, capped, access_time::branches_by_speed(ctx));
    passes_follow_each_other(ctx, j, k);
    let s = access_time::projected(ctx);
    assert(good(ctx, inv, s));
    assert(s.who.len() == s.moves.len());
}

// ---- what a plan leaves undone -----------------------------------------------------

/// Plan `t` begins with the moves of plan `s`, and is out of budget where that is.
spec fn goes_on(s: Projection, t: Projection) -> bool {
    &&& s.moves.len() <= t.moves.len()
    &&& s.who.len() <= t.who.len()
    &&& t.moves.take(s.moves.len() as int) == s.moves
    &&& t.who.take(s.who.len() as int) == s.who
    &&& s.exhausted ==> t.exhausted
}

proof fn lemma_goes_on_reflexive(s: Projection)
    ensures
        goes_on(s, s),
{
    assert(s.moves.take(s.moves.len() as int) =~= s.moves);
    assert(s.who.take(s.who.len() as int) =~= s.who);
}

proof fn lemma_goes_on_transitive(s: Projection, t: Projection, u: Projection)
    requires
        goes_on(s, t),
        goes_on(t, u),
    ensures
        goes_on(s, u),
{
    assert(u.moves.take(s.moves.len() as int) =~= t.moves.take(s.moves.len() as int)) by {
        assert(u.moves.take(t.moves.len() as int).take(s.moves.len() as int) =~= u.moves.take(
            s.moves.len() as int,
        ));
    }
    assert(u.who.take(s.who.len() as int) =~= t.who.take(s.who.len() as int)) by {
        assert(u.who.take(t.who.len() as int).take(s.who.len() as int) =~= u.who.take(
            s.who.len() as int,
        ));
    }
}

proof fn lemma_goes_on_step(
    ctx: PolicyContext,
    s: Projection,
    idx: int,
    min_tier: int,
    reason: Seq<char>,
)
    ensures
        goes_on(s, access_time::demoted(ctx, s, idx, min_tier, reason)),
{
    let t = access_time::demoted(ctx, s, idx, min_tier, reason);
    assert(t.moves.take(s.moves.len() as int) =~= s.moves);
    assert(t.who.take(s.who.len() as int) =~= s.who);
}

proof fn lemma_goes_on_stable(ctx: PolicyContext, t: Projection)
    ensures
        laws::stable(ctx, |s: Projection| goes_on(t, s)),
{
    let inv = |s: Projection| goes_on(t, s);
    assert forall|s: Projection, idx: int, min_tier: int, reason: Seq<char>|
        access_time::shaped(ctx, s) && inv(s) && 0 <= idx < access_time::files_of(ctx).len()
            && !access_time::pinned(ctx, idx) implies inv(
        #[trigger] access_time::demoted(ctx, s, idx, min_tier, reason),
    ) by {
        lemma_goes_on_step(ctx, s, idx, min_tier, reason);
        lemma_goes_on_transitive(t, s, access_time::demoted(ctx, s, idx, min_tier, reason));
    }
}

proof fn lemma_eager_goes_on(ctx: PolicyContext, s: Projection, todo: Seq<usize>, q: int)
    requires
        0 <= q <= todo.len(),
    ensures
        goes_on(
            access_time::after_eager(ctx, s, todo.take(q)),
            access_time::after_eager(ctx, s, todo),
        ),
    decreases todo.len(),
{
    if q == todo.len() {
        assert(todo.take(q) =~= todo);
        lemma_goes_on_reflexive(access_time::after_eager(ctx, s, todo));
    } else {
        let front = todo.drop_last();
        assert(front.take(q) =~= todo.take(q));
        lemma_eager_goes_on(ctx, s, front, q);
        let t = access_time::after_eager(ctx, s, front);
        let idx = todo.last() as int;
        let m = access_time::target_below(access_time::rule_of(ctx, idx), t.tier[idx] as int);
        lemma_goes_on_step(ctx, t, idx, m, "eager"@);
        lemma_goes_on_transitive(
            access_time::after_eager(ctx, s, todo.take(q)),
            t,
            access_time::after_eager(ctx, s, todo),
        );
    }
}

proof fn lemma_overdue_goes_on(ctx: PolicyContext, s: Projection, k: nat, n: nat)
    requires
        k <= n,
    ensures
        goes_on(access_time::after_overdue(ctx, s, k), access_time::after_overdue(ctx, s, n)),
    decreases n,
{
    if k == n {
        lemma_goes_on_reflexive(access_time::after_overdue(ctx, s, n));
    } else {
        lemma_overdue_goes_on(ctx, s, k, (n - 1) as nat);
        let t = access_time::after_overdue(ctx, s, (n - 1) as nat);
        let todo = access_time::overdue(ctx, n - 1);
        lemma_eager_goes_on(ctx, t, todo, 0);
        assert(todo.take(0) =~= Seq::<usize>::empty());
        lemma_goes_on_transitive(
            access_time::after_overdue(ctx, s, k),
            t,
            access_time::after_overdue(ctx, s, n),
        );
    }
}

/// The plan goes on from the pool after the eager pass.
proof fn lemma_plan_goes_on(ctx: PolicyContext, t: Projection)
    requires
        ctx.wf(),
        goes_on(
            t,
            access_time::after_overdue(
                ctx,
                access_time::initial(ctx),
                access_time::all_rules(ctx).len(),
            ),
        ),
    ensures
        goes_on(t, access_time::projected(ctx)),
{
    let inv = |s: Projection| goes_on(t, s);
    let rules = access_time::all_rules(ctx);
    let any = |s: Projection| true;
    access_time::lemma_initial_shaped(ctx);
    laws::lemma_overdue_keeps(ctx, any, access_time::initial(ctx), rules.len());
    let eager = access_time::after_overdue(ctx, access_time::initial(ctx), rules.len());
    lemma_goes_on_stable(ctx, t);
    laws::lemma_rules_keep(ctx, inv, eager, rules);
    laws::lemma_branches_keep(
        ctx,
        inv,
        access_time::after_rules(ctx, eager, rules),
        access_time::branches_by_speed(ctx),
    );
}

/// Once the first `p` moves of a plan have been made, file `i`, which is due, has
/// its turn: it is moved next, or it has nowhere to go but where it is.
pub open spec fn has_its_turn(ctx: PolicyContext, s: Projection, i: int, p: int) -> bool {
    let f = ctx.inventory.files@[i];
    &&& 0 <= p <= s.moves.len()
    &&& {
        ||| p < s.moves.len() && s.who[p] == i && s.moves[p].reason == "eager"@
        ||| forall|d: int| #[trigger]
            best_place(
                ctx,
                pool_after(ctx, s.who.take(p), s.moves.take(p)),
                rule_in_force(ctx, i),
                f.tier as int,
                f.size,
                d,
            ) ==> d == f.branch_idx
    }
}

/// Every file that is due and not protected is moved eagerly, unless the budget is
/// exhausted or the file has nowhere to go when its turn comes.
#[verifier::rlimit(50)]
pub proof fn due_files_are_moved(ctx: PolicyContext, i: int)
    requires
        ctx.wf(),
        0 <= i < ctx.inventory.files@.len(),
        is_due(ctx, i),
        !is_protected(ctx, i),
    ensures
        access_time::projected(ctx).exhausted || exists|p: int| #[trigger]
            has_its_turn(ctx, access_time::projected(ctx), i, p),
{
    let files = ctx.inventory.files@;
    assert(ctx.inventory.files.len() == files.len());
    assert(ctx.tiers.branches.len() == ctx.tiers.branches@.len());
    config::lemma_deepest(ctx.config.rules@, files[i].rel@);
    lemma_protected(ctx, i);
    let k = access_time::governor(ctx, i);
    let first = access_time::initial(ctx);
    let rules = access_time::all_rules(ctx);
    access_time::lemma_overdue(ctx, k);
    let todo = access_time::overdue(ctx, k);
    assert(todo.contains(i as usize));
    let q = choose|q: int| 0 <= q < todo.len() && todo[q] == i as usize;
    let before = access_time::after_overdue(ctx, first, k as nat);
    let t = access_time::after_eager(ctx, before, todo.take(q));
    let u = access_time::after_eager(ctx, before, todo.take(q + 1));
    assert(todo.take(q + 1).drop_last() =~= todo.take(q));
    assert(todo.take(q + 1).last() == todo[q]);
    let rule = rule_in_force(ctx, i);
    let m = access_time::target_below(rule, t.tier[i] as int);
    assert(u == access_time::demoted(ctx, t, i, m, "eager"@));
    // What holds of the pool at the file's turn.
    let inv = |s: Projection| all_called_for(ctx, s) && in_turn(s, 0);
    lemma_in_turn(ctx, 0);
    let turns = |s: Projection| in_turn(s, 0);
    assert forall|s: Projection, idx: int, min_tier: int, reason: Seq<char>|
        access_time::shaped(ctx, s) && laws::sound(ctx, s) && inv(s) && attempt(
            ctx,
            0,
            s,
            idx,
            min_tier,
            reason,
        ) implies inv(#[trigger] access_time::demoted(ctx, s, idx, min_tier, reason)) by {
        lemma_called_for_step(ctx, 0, s, idx, min_tier, reason);
        assert(turns(s));
        assert(turns(access_time::demoted(ctx, s, idx, min_tier, reason)));
    }
    access_time::lemma_initial_shaped(ctx);
    lemma_initial_mirrors(ctx);
    lemma_overdue_pass(ctx, inv, first, k as nat);
    assert forall|j: int| 0 <= j < todo.take(q).len() implies (#[trigger] todo.take(q)[j])
        < access_time::files_of(ctx).len() && access_time::is_overdue(ctx, todo.take(q)[j]) by {
        assert(todo.take(q)[j] == todo[j]);
    }
    lemma_eager_pass(ctx, inv, before, todo.take(q));
    // The plan goes on from there.
    let s = access_time::projected(ctx);
    lemma_eager_goes_on(ctx, before, todo, q + 1);
    lemma_overdue_goes_on(ctx, first, (k + 1) as nat, rules.len());
    lemma_goes_on_transitive(
        u,
        access_time::after_overdue(ctx, first, (k + 1) as nat),
        access_time::after_overdue(ctx, first, rules.len()),
    );
    lemma_plan_goes_on(ctx, u);
    lemma_goes_on_step(ctx, t, i, m, "eager"@);
    lemma_goes_on_transitive(t, u, s);
    lemma_plan_called_for(ctx);
    lemma_reasons_differ();
    let p = t.moves.len() as int;
    if !s.exhausted {
        if t.moved[i] {
            let j = lemma_moved_has_move(ctx, t, i);
            assert(t.moves[j] == s.moves[j]) by {
                assert(s.moves.take(p)[j] == s.moves[j]);
            }
            assert(t.who[j] == s.who[j]) by {
                assert(s.who.take(p)[j] == s.who[j]);
            }
            assert(pass_of(t.moves[j].reason) <= 0);
            assert(has_its_turn(ctx, s, i, j));
        } else {
            assert(t.tier[i] == files[i].tier && t.branch[i] == files[i].branch_idx);
            lemma_place(ctx, t, rule, files[i].tier as int, files[i].size);
            if access_time::demotes(ctx, t, i, m) {
                assert(u.moves[p] == s.moves[p]) by {
                    assert(s.moves.take(u.moves.len() as int)[p] == s.moves[p]);
                }
                assert(u.who[p] == s.who[p]) by {
                    assert(s.who.take(u.who.len() as int)[p] == s.who[p]);
                }
                assert(has_its_turn(ctx, s, i, p));
            } else {
                let pool = pool_after(ctx, t.who, t.moves);
                assert(s.who.take(p) == t.who && s.moves.take(p) == t.moves);
                assert forall|d: int| #[trigger]
                    best_place(
                        ctx,
                        pool,
                        rule,
                        files[i].tier as int,
                        files[i].size,
                        d,
                    ) implies d == files[i].branch_idx by {
                    assert(can_take(ctx, pool, rule, files[i].tier as int, files[i].size, d));
                    let e = access_time::destination(ctx, t.free, m, files[i].size)->0;
                    assert(can_take(ctx, pool, rule, files[i].tier as int, files[i].size, e));
                }
                assert(has_its_turn(ctx, s, i, p));
            }
        }
    }
}

/// A file that counts as moved has a move.
proof fn lemma_moved_has_move(ctx: PolicyContext, s: Projection, i: int) -> (j: int)
    requires
        mirrors(ctx, s),
        laws::sound(ctx, s),
        0 <= i < ctx.inventory.files@.len(),
        s.moved[i],
    ensures
        0 <= j < s.who.len(),
        s.who[j] == i,
{
    assert forall|k: int| 0 <= k < s.who.len() implies (#[trigger] s.who[k])
        < ctx.inventory.files@.len() by {
        assert(laws::sound_move(ctx, s, k));
    }
    lemma_gone_has_move(ctx, s.who, s.moves, i)
}

proof fn lemma_gone_has_move(
    ctx: PolicyContext,
    who: Seq<usize>,
    moves: Seq<MoveView>,
    i: int,
) -> (j: int)
    requires
        who.len() == moves.len(),
        forall|k: int| 0 <= k < who.len() ==> (#[trigger] who[k]) < ctx.inventory.files@.len(),
        0 <= i < ctx.inventory.files@.len(),
        pool_after(ctx, who, moves).gone[i],
    ensures
        0 <= j < who.len(),
        who[j] == i,
    decreases moves.len(),
{
    lemma_gone_len(ctx, who, moves);
    if who.last() == i {
        who.len() - 1
    } else {
        lemma_gone_len(ctx, who.drop_last(), moves.drop_last());
        assert(who[who.len() - 1] == who.last());
        lemma_gone_has_move(ctx, who.drop_last(), moves.drop_last(), i)
    }
}

proof fn lemma_gone_len(ctx: PolicyContext, who: Seq<usize>, moves: Seq<MoveView>)
    requires
        who.len() == moves.len(),
        forall|k: int| 0 <= k < who.len() ==> (#[trigger] who[k]) < ctx.inventory.files@.len(),
    ensures
        pool_after(ctx, who, moves).gone.len() == ctx.inventory.files@.len(),
    decreases moves.len(),
{
    if moves.len() > 0 {
        lemma_gone_len(ctx, who.drop_last(), moves.drop_last());
        assert(who[who.len() - 1] == who.last());
    }
}

/// The budget is exhausted only where there is one, and some file that is not
/// protected would have taken the moves beyond it.
pub proof fn exhaustion_has_a_cause(ctx: PolicyContext)
    requires
        ctx.wf(),
        access_time::projected(ctx).exhausted,
    ensures
        ctx.config.max_move_bytes_per_cycle is Some,
        exists|i: int|
            0 <= i < ctx.inventory.files@.len() && !is_protected(ctx, i) && laws::total_size(
                access_time::projected(ctx).moves,
            ) + (#[trigger] ctx.inventory.files@[i]).size
                > ctx.config.max_move_bytes_per_cycle->0,
{
    let inv = |s: Projection|
        s.bytes == laws::total_size(s.moves) && (s.exhausted
            ==> ctx.config.max_move_bytes_per_cycle is Some && exists|i: int|
            0 <= i < ctx.inventory.files@.len() && !is_protected(ctx, i) && s.bytes + (
            #[trigger] ctx.inventory.files@[i]).size > ctx.config.max_move_bytes_per_cycle->0);
    assert forall|s: Projection, idx: int, min_tier: int, reason: Seq<char>|
        access_time::shaped(ctx, s) && inv(s) && 0 <= idx < access_time::files_of(ctx).len()
            && !access_time::pinned(ctx, idx) implies inv(
        #[trigger] access_time::demoted(ctx, s, idx, min_tier, reason),
    ) by {
        let t = access_time::demoted(ctx, s, idx, min_tier, reason);
        lemma_protected(ctx, idx);
        assert(ctx.inventory.files@[idx].size >= 0);
        if access_time::demotes(ctx, s, idx, min_tier) {
            assert(t.moves.drop_last() =~= s.moves);
        }
    }
    laws::lemma_plan_keeps(ctx, inv);
}

proof fn lemma_rules_go_on(ctx: PolicyContext, s: Projection, k: nat, n: nat)
    requires
        access_time::shaped(ctx, s),
        k <= n <= access_time::all_rules(ctx).len(),
    ensures
        goes_on(
            access_time::after_rules(ctx, s, access_time::all_rules(ctx).take(k as int)),
            access_time::after_rules(ctx, s, access_time::all_rules(ctx).take(n as int)),
        ),
    decreases n,
{
    let rules = access_time::all_rules(ctx);
    let t = access_time::after_rules(ctx, s, rules.take(k as int));
    lemma_goes_on_reflexive(t);
    if k < n {
        lemma_rules_go_on(ctx, s, k, (n - 1) as nat);
        assert(rules.take(n as int).drop_last() =~= rules.take(n - 1));
        let u = access_time::after_rules(ctx, s, rules.take(n - 1));
        let any = |v: Projection| true;
        laws::lemma_rules_keep(ctx, any, s, rules.take(n - 1));
        let rule = rules.take(n as int).last();
        access_time::lemma_excess(ctx, u, rule);
        lemma_goes_on_stable(ctx, t);
        laws::lemma_quota_keeps(
            ctx,
            |v: Projection| goes_on(t, v),
            u,
            rule,
            access_time::excess(ctx, u, rule),
        );
    }
}

/// Once the first `p` moves of a plan have been made, the subtree of `rule` is within
/// its quota, or nothing that may still leave it has anywhere to go.
pub open spec fn quota_is_done(ctx: PolicyContext, s: Projection, rule: Rule, p: int) -> bool {
    let pool = pool_after(ctx, s.who.take(p), s.moves.take(p));
    &&& 0 <= p <= s.moves.len()
    &&& {
        ||| !over_quota(ctx, pool, rule)
        ||| forall|i: int, b: int|
            0 <= i < ctx.inventory.files@.len() && weighs_on(ctx, rule, pool.tier[i], i)
                && !pool.gone[i] && !is_protected(ctx, i) ==> !#[trigger] can_take(
                ctx,
                pool,
                rule,
                rule.quota_max_tier as int,
                ctx.inventory.files@[i].size,
                b,
            )
    }
}

/// The quota of every rule is enforced: at some point of the plan its subtree is
/// within it, or nothing that may still leave it has anywhere to go; unless the
/// budget is exhausted. (A file that is on record on another tier than its branch is
/// left out: its move would make room where none is expected.)
#[verifier::rlimit(50)]
pub proof fn every_quota_is_enforced(ctx: PolicyContext, k: int)
    requires
        ctx.wf(),
        laws::in_place(ctx),
        0 <= k <= ctx.config.rules@.len(),
        rule_at(ctx, k).quota is Some,
    ensures
        access_time::projected(ctx).exhausted || exists|p: int| #[trigger]
            quota_is_done(ctx, access_time::projected(ctx), rule_at(ctx, k), p),
{
    let rule = rule_at(ctx, k);
    let files = ctx.inventory.files@;
    let rules = access_time::all_rules(ctx);
    assert(ctx.inventory.files.len() == files.len());
    assert(rules[k] == rule);
    let first = access_time::initial(ctx);
    let eager = access_time::after_overdue(ctx, first, rules.len());
    let t = access_time::after_rules(ctx, eager, rules.take(k + 1));
    let s = access_time::projected(ctx);
    laws::quotas_are_settled(ctx, k);
    let inv = |v: Projection| all_called_for(ctx, v);
    lemma_all_called_for_kept(ctx);
    access_time::lemma_initial_shaped(ctx);
    lemma_initial_mirrors(ctx);
    lemma_overdue_pass(ctx, inv, first, rules.len());
    lemma_rules_pass(ctx, inv, eager, (k + 1) as nat);
    lemma_rules_go_on(ctx, eager, (k + 1) as nat, rules.len());
    assert(rules.take(rules.len() as int) =~= rules);
    lemma_rules_pass(ctx, inv, eager, rules.len());
    lemma_goes_on_stable(ctx, t);
    laws::lemma_branches_keep(
        ctx,
        |v: Projection| goes_on(t, v),
        access_time::after_rules(ctx, eager, rules),
        access_time::branches_by_speed(ctx),
    );
    let p = t.moves.len() as int;
    assert(s.who.take(p) == t.who && s.moves.take(p) == t.moves);
    let pool = pool_after(ctx, t.who, t.moves);
    lemma_weight(ctx, t, rule, files.len());
    if !s.exhausted && over_quota(ctx, pool, rule) {
        assert forall|i: int, b: int|
            0 <= i < files.len() && weighs_on(ctx, rule, pool.tier[i], i) && !pool.gone[i]
                && !is_protected(ctx, i) implies !#[trigger] can_take(
            ctx,
            pool,
            rule,
            rule.quota_max_tier as int,
            files[i].size,
            b,
        ) by {
            lemma_protected(ctx, i);
            assert(tiers_of(t)[i] == t.tier[i]);
            assert(access_time::is_excess(ctx, t, rule, i as usize));
            lemma_place(ctx, t, rule, rule.quota_max_tier as int, files[i].size);
        }
    }
    assert(s.exhausted || quota_is_done(ctx, s, rule, p));
}

proof fn lemma_all_called_for_kept(ctx: PolicyContext)
    ensures
        pass_keeps(ctx, 0, |s: Projection| all_called_for(ctx, s)),
        pass_keeps(ctx, 1, |s: Projection| all_called_for(ctx, s)),
        pass_keeps(ctx, 2, |s: Projection| all_called_for(ctx, s)),
{
    let inv = |s: Projection| all_called_for(ctx, s);
    assert forall|pass: int| 0 <= pass < 3 implies #[trigger] pass_keeps(ctx, pass, inv) by {
        assert forall|s: Projection, idx: int, min_tier: int, reason: Seq<char>|
            access_time::shaped(ctx, s) && laws::sound(ctx, s) && inv(s) && attempt(
                ctx,
                pass,
                s,
                idx,
                min_tier,
                reason,
            ) implies inv(#[trigger] access_time::demoted(ctx, s, idx, min_tier, reason)) by {
            lemma_called_for_step(ctx, pass, s, idx, min_tier, reason);
        }
    }
}

/// What the relief of branch `b` comes to.
spec fn relief_is_over(ctx: PolicyContext, s: Projection, b: usize) -> bool {
    let todo = access_time::ballast(ctx, s, b);
    let i = todo[0] as int;
    let size = access_time::files_of(ctx)[i].size;
    let m = access_time::target_below(access_time::rule_of(ctx, i), s.tier[i] as int);
    ||| s.free[b as int] >= ctx.minfreespace
    ||| s.exhausted
    ||| todo.len() == 0
    ||| access_time::destination(ctx, s.free, m, size) is None
    ||| access_time::destination(ctx, s.free, m, size) == Some(b as int)
}

proof fn lemma_relief_is_over(ctx: PolicyContext, s: Projection, b: usize)
    requires
        access_time::shaped(ctx, s),
    ensures
        relief_is_over(ctx, access_time::relieved(ctx, s, b), b),
    decreases access_time::unmoved(s.moved),
{
    assert(ctx.inventory.files.len() == access_time::files_of(ctx).len());
    let todo = access_time::ballast(ctx, s, b);
    access_time::lemma_ballast(ctx, s, b);
    if s.free[b as int] >= ctx.minfreespace || s.exhausted || todo.len() == 0 {
    } else {
        let idx = todo[0] as int;
        assert(access_time::is_ballast(ctx, s, b, todo[0]));
        let m = access_time::target_below(access_time::rule_of(ctx, idx), s.tier[idx] as int);
        let t = access_time::demoted(ctx, s, idx, m, "minfreespace"@);
        access_time::lemma_demoted_shaped(ctx, s, idx, m, "minfreespace"@);
        if access_time::demotes(ctx, s, idx, m) {
            access_time::lemma_unmoved_update(s.moved, idx);
            lemma_relief_is_over(ctx, t, b);
        }
    }
}

proof fn lemma_branches_go_on(ctx: PolicyContext, s: Projection, order: Seq<usize>, k: int)
    requires
        access_time::shaped(ctx, s),
        0 <= k <= order.len(),
    ensures
        goes_on(
            access_time::after_branches(ctx, s, order.take(k)),
            access_time::after_branches(ctx, s, order),
        ),
    decreases order.len(),
{
    let t = access_time::after_branches(ctx, s, order.take(k));
    lemma_goes_on_reflexive(t);
    if k == order.len() {
        assert(order.take(k) =~= order);
    } else {
        let front = order.drop_last();
        assert(front.take(k) =~= order.take(k));
        lemma_branches_go_on(ctx, s, front, k);
        let any = |v: Projection| true;
        laws::lemma_branches_keep(ctx, any, s, front);
        lemma_goes_on_stable(ctx, t);
        laws::lemma_relief_keeps(
            ctx,
            |v: Projection| goes_on(t, v),
            access_time::after_branches(ctx, s, front),
            order.last(),
        );
    }
}

/// Once the first `p` moves of a plan have been made, branch `b` is back at the
/// free-space floor, or the first file to be taken off it, if any, has nowhere else
/// to go.
pub open spec fn relief_is_done(ctx: PolicyContext, s: Projection, b: int, p: int) -> bool {
    let pool = pool_after(ctx, s.who.take(p), s.moves.take(p));
    &&& 0 <= p <= s.moves.len()
    &&& {
        ||| pool.free[b] >= ctx.minfreespace
        ||| forall|i: int, d: int|
            0 <= i < ctx.inventory.files@.len() && ctx.inventory.files@[i].branch_idx == b
                && !pool.gone[i] && !is_protected(ctx, i) && first_to_go(ctx, pool, i)
                && #[trigger] best_place(
                ctx,
                pool,
                rule_in_force(ctx, i),
                ctx.inventory.files@[i].tier as int,
                ctx.inventory.files@[i].size,
                d,
            ) ==> d == b
    }
}

/// Every branch is relieved: at some point of the plan it is back at the free-space
/// floor, or the first file to be taken off it, if there is one, has nowhere else to
/// go; unless the budget is exhausted. (A file that has been given a move onto the
/// branch stays there.)
#[verifier::rlimit(50)]
pub proof fn every_branch_is_relieved(ctx: PolicyContext, b: int)
    requires
        ctx.wf(),
        0 <= b < ctx.tiers.branches@.len(),
    ensures
        access_time::projected(ctx).exhausted || exists|p: int| #[trigger]
            relief_is_done(ctx, access_time::projected(ctx), b, p),
{
    let files = ctx.inventory.files@;
    let rules = access_time::all_rules(ctx);
    let order = access_time::branches_by_speed(ctx);
    assert(ctx.inventory.files.len() == files.len());
    assert(ctx.tiers.branches.len() == ctx.tiers.branches@.len());
    fast_branches_come_first(ctx);
    assert(order.contains(b as usize));
    let k = choose|k: int| 0 <= k < order.len() && order[k] == b as usize;
    let first = access_time::initial(ctx);
    let eager = access_time::after_overdue(ctx, first, rules.len());
    let capped = access_time::after_rules(ctx, eager, rules);
    let before = access_time::after_branches(ctx, capped, order.take(k));
    let t = access_time::after_branches(ctx, capped, order.take(k + 1));
    let s = access_time::projected(ctx);
    assert(order.take(k + 1).drop_last() =~= order.take(k));
    assert(order.take(k + 1).last() == order[k]);
    let inv = |v: Projection| all_called_for(ctx, v);
    lemma_all_called_for_kept(ctx);
    access_time::lemma_initial_shaped(ctx);
    lemma_initial_mirrors(ctx);
    lemma_overdue_pass(ctx, inv, first, rules.len());
    assert(rules.take(rules.len() as int) =~= rules);
    lemma_rules_pass(ctx, inv, eager, rules.len());
    lemma_branches_pass(ctx, inv, capped, order.take(k));
    lemma_branches_pass(ctx, inv, capped, order.take(k + 1));
    lemma_relief_is_over(ctx, before, b as usize);
    lemma_branches_go_on(ctx, capped, order, k + 1);
    let p = t.moves.len() as int;
    assert(s.who.take(p) == t.who && s.moves.take(p) == t.moves);
    let pool = pool_after(ctx, t.who, t.moves);
    assert(pool.free[b] == t.free[b]);
    if !s.exhausted && t.free[b] < ctx.minfreespace {
        let todo = access_time::ballast(ctx, t, b as usize);
        assert forall|i: int, d: int|
            0 <= i < files.len() && files[i].branch_idx == b && !pool.gone[i] && !is_protected(
                ctx,
                i,
            ) && first_to_go(ctx, pool, i) && #[trigger] best_place(
                ctx,
                pool,
                rule_in_force(ctx, i),
                files[i].tier as int,
                files[i].size,
                d,
            ) implies d == b by {
            assert(!t.moved[i]);
            assert(t.tier[i] == files[i].tier && t.branch[i] == files[i].branch_idx);
            ballast_is_what_may_leave(ctx, t, b as usize, i as usize);
            assert(todo.contains(i as usize));
            let a = todo[0];
            access_time::lemma_ballast(ctx, t, b as usize);
            assert(access_time::is_ballast(ctx, t, b as usize, a));
            lemma_protected(ctx, a as int);
            assert(!pool.gone[a as int]);
            assert(t.branch[a as int] == files[a as int].branch_idx);
            lemma_first_to_go(ctx, t, a as int);
            assert(access_time::dispatched_before(
                files,
                ctx.config.default_rule.dispatch_sort,
                i as usize,
                a,
            ));
            assert(access_time::dispatched_before(
                files,
                ctx.config.default_rule.dispatch_sort,
                a,
                i as usize,
            ));
            access_time::lemma_dispatch_order_total(files, ctx.config.default_rule.dispatch_sort);
            let leq = access_time::dispatch_order(files, ctx.config.default_rule.dispatch_sort);
            assert(leq(i as usize, a) && leq(a, i as usize));
            assert(a == i);
            let rule = rule_in_force(ctx, i);
            lemma_place(ctx, t, rule, files[i].tier as int, files[i].size);
            let m = access_time::target_below(rule, files[i].tier as int);
            assert(can_take(ctx, pool, rule, files[i].tier as int, files[i].size, d));
            let e = access_time::destination(ctx, t.free, m, files[i].size)->0;
            assert(can_take(ctx, pool, rule, files[i].tier as int, files[i].size, e));
        }
    }
    assert(s.exhausted || relief_is_done(ctx, s, b, p));
}

} // verus!
