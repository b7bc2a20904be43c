//! Default policy: tier by access time.
//!
//! Three passes, all sharing one move budget:
//!   1. Eager demotion of files matched by `aggressive`/`max_age` rules, rule
//!      by rule, in each rule's configured `dispatch_sort` order.
//!   2. Per-subtree quota enforcement, dispatching moves in each subtree's
//!      configured `dispatch_sort` order (oldest-atime-first by default).
//!   3. `minfreespace` maintenance, demoting files off any branch that has
//!      dropped below the free-space floor, in the `dispatch_sort` order of the
//!      default rule (the coldest first, unless it says otherwise).
//!
//! All passes work against a projected view of tiers and free space so that
//! cascading demotions and the move budget stay consistent.

use super::{Move, MoveView, PolicyContext, TieringPolicy};
use crate::config;
use crate::config::{path_under, DispatchSorting, Rule};
use crate::inventory::FileInstance;
use crate::mergerfs::BranchMode;
use crate::order;
use crate::order::{sort_indices, Precedence};
use crate::paths;
use crate::paths::{path_ordered, same_path};
use crate::text::copy_of;
use crate::tier::TierBranch;
use vstd::prelude::*;
#[allow(unused_imports)]
use vstd::relations::*;
#[allow(unused_imports)]
use vstd::seq_lib::*;

verus! {

// ---- the order of dispatch -------------------------------------------------------

/// What a sorting compares first; the smaller is dispatched earlier.
pub open spec fn sort_key(f: FileInstance, sort: DispatchSorting) -> int {
    match sort {
        DispatchSorting::AscendingAccess => f.atime as int,
        DispatchSorting::DescendingAccess => -f.atime,
        DispatchSorting::AscendingModification => f.mtime as int,
        DispatchSorting::DescendingModification => -f.mtime,
        DispatchSorting::AscendingSize => f.size as int,
        DispatchSorting::DescendingSize => -f.size,
    }
}

/// File `a` is dispatched no later than file `b`: by the key, then by path,
/// then in the order of the inventory.
pub open spec fn dispatched_before(
    files: Seq<FileInstance>,
    sort: DispatchSorting,
    a: usize,
    b: usize,
) -> bool {
    let fa = files[a as int];
    let fb = files[b as int];
    if sort_key(fa, sort) != sort_key(fb, sort) {
        sort_key(fa, sort) < sort_key(fb, sort)
    } else if paths::components(fa.rel@) != paths::components(fb.rel@) {
        paths::path_le(fa.rel@, fb.rel@)
    } else {
        a <= b
    }
}

/// The order of dispatch under a sorting.
pub open spec fn dispatch_order(files: Seq<FileInstance>, sort: DispatchSorting) -> spec_fn(
    usize,
    usize,
) -> bool {
    |a: usize, b: usize| dispatched_before(files, sort, a, b)
}

pub struct FileOrder<'a> {
    pub files: &'a Vec<FileInstance>,
    pub sort: DispatchSorting,
}

/// The order of dispatch is total under every sorting.
pub proof fn lemma_dispatch_order_total(files: Seq<FileInstance>, sort: DispatchSorting)
    ensures
        total_ordering(dispatch_order(files, sort)),
{
    let r = dispatch_order(files, sort);
    assert forall|a: usize, b: usize| #[trigger] r(a, b) && #[trigger] r(b, a) implies a == b by {
        paths::lemma_path_le_total(files[a as int].rel@, files[b as int].rel@);
    }
    assert forall|a: usize, b: usize| #[trigger] r(a, b) || #[trigger] r(b, a) by {
        paths::lemma_path_le_total(files[a as int].rel@, files[b as int].rel@);
    }
    assert forall|a: usize, b: usize, c: usize| #[trigger] r(a, b) && #[trigger] r(b, c) implies r(
        a,
        c,
    ) by {
        let (x, y, z) = (files[a as int].rel@, files[b as int].rel@, files[c as int].rel@);
        paths::lemma_path_le_total(x, y);
        paths::lemma_path_le_total(y, z);
        paths::lemma_path_le_total(x, z);
        if paths::path_le(x, y) && paths::path_le(y, z) {
            paths::lemma_path_le_transitive(x, y, z);
        }
        if paths::path_le(y, z) && paths::path_le(z, x) {
            paths::lemma_path_le_transitive(y, z, x);
        }
    }
}

impl<'a> Precedence for FileOrder<'a> {
    open spec fn leq(&self) -> spec_fn(usize, usize) -> bool {
        dispatch_order(self.files@, self.sort)
    }

    open spec fn covers(&self, i: usize) -> bool {
        i < self.files@.len()
    }

    proof fn lemma_total(&self) {
        lemma_dispatch_order_total(self.files@, self.sort);
    }

    fn precedes(&self, a: usize, b: usize) -> (r: bool) {
        let fa = &self.files[a];
        let fb = &self.files[b];
        let (less, more) = match self.sort {
            DispatchSorting::AscendingAccess => (fa.atime < fb.atime, fa.atime > fb.atime),
            DispatchSorting::DescendingAccess => (fa.atime > fb.atime, fa.atime < fb.atime),
            DispatchSorting::AscendingModification => (fa.mtime < fb.mtime, fa.mtime > fb.mtime),
            DispatchSorting::DescendingModification => (fa.mtime > fb.mtime, fa.mtime < fb.mtime),
            DispatchSorting::AscendingSize => (fa.size < fb.size, fa.size > fb.size),
            DispatchSorting::DescendingSize => (fa.size > fb.size, fa.size < fb.size),
        };
        if less || more {
            return less;
        }
        if !same_path(fa.rel.as_slice(), fb.rel.as_slice()) {
            return path_ordered(fa.rel.as_slice(), fb.rel.as_slice());
        }
        a <= b
    }
}

/// The branches, fastest tier first, otherwise in their own order.
pub open spec fn speed_order(branches: Seq<TierBranch>) -> spec_fn(usize, usize) -> bool {
    |a: usize, b: usize|
        branches[a as int].tier < branches[b as int].tier || (branches[a as int].tier
            == branches[b as int].tier && a <= b)
}

pub struct BranchOrder<'a> {
    pub branches: &'a Vec<TierBranch>,
}

impl<'a> Precedence for BranchOrder<'a> {
    open spec fn leq(&self) -> spec_fn(usize, usize) -> bool {
        speed_order(self.branches@)
    }

    open spec fn covers(&self, i: usize) -> bool {
        i < self.branches@.len()
    }

    proof fn lemma_total(&self) {
    }

    fn precedes(&self, a: usize, b: usize) -> (r: bool) {
        let ta = self.branches[a].tier;
        let tb = self.branches[b].tier;
        ta < tb || (ta == tb && a <= b)
    }
}

// ---- the planning model ----------------------------------------------------------

/// The projected state of the pool while a plan is being made.
pub struct Projection {
    /// Free bytes per branch.
    pub free: Seq<u64>,
    /// The tier of each file.
    pub tier: Seq<usize>,
    /// The branch of each file.
    pub branch: Seq<usize>,
    /// Which files have been given a move.
    pub moved: Seq<bool>,
    pub moves: Seq<MoveView>,
    /// The file that each move is of.
    pub who: Seq<usize>,
    /// The sizes of the planned moves, summed up.
    pub bytes: int,
    /// A move was turned down for want of budget; none is planned any more.
    pub exhausted: bool,
}

/// The files under consideration.
pub open spec fn files_of(ctx: PolicyContext) -> Seq<FileInstance> {
    ctx.inventory.files@
}

/// The pool as it was found.
pub open spec fn initial(ctx: PolicyContext) -> Projection {
    Projection {
        free: ctx.free@,
        tier: files_of(ctx).map_values(|f: FileInstance| f.tier),
        branch: files_of(ctx).map_values(|f: FileInstance| f.branch_idx),
        moved: files_of(ctx).map_values(|f: FileInstance| false),
        moves: Seq::empty(),
        who: Seq::empty(),
        bytes: 0,
        exhausted: false,
    }
}

/// How long before `now` the time `t` was; zero for the future.
pub open spec fn age(now: i128, t: i128) -> int {
    if t < now {
        now - t
    } else {
        0
    }
}

/// The rule in force for a file.
pub open spec fn rule_of(ctx: PolicyContext, idx: int) -> Rule {
    config::governing(*ctx.config, files_of(ctx)[idx].rel@)
}

/// The file is not to be moved: its rule pins it, it was modified too recently
/// and may be in use, or it was accessed within its rule's `min_age`.
pub open spec fn pinned(ctx: PolicyContext, idx: int) -> bool {
    let f = files_of(ctx)[idx];
    let rule = rule_of(ctx, idx);
    ||| rule.pin
    ||| age(ctx.now, f.mtime) < ctx.config.settle
    ||| (rule.min_age matches Some(min) && age(ctx.now, f.atime) < min)
}

/// Branch `b` can take `size` more bytes, is writable, and its tier is at
/// least `min_tier`.
pub open spec fn has_room(
    ctx: PolicyContext,
    free: Seq<u64>,
    min_tier: int,
    size: u64,
    b: int,
) -> bool {
    let br = ctx.tiers.branches@[b];
    &&& br.branch.mode == BranchMode::ReadWrite
    &&& min_tier <= br.tier <= ctx.tiers.max_tier
    &&& free[b] >= size + ctx.minfreespace
}

/// Branch `a` is a better destination than branch `b`: a faster tier, or as
/// fast with more free space.
pub open spec fn better(ctx: PolicyContext, free: Seq<u64>, a: int, b: int) -> bool {
    let ta = ctx.tiers.branches@[a].tier;
    let tb = ctx.tiers.branches@[b].tier;
    ta < tb || (ta == tb && free[a] > free[b])
}

/// The best of the first `n` branches that have room.
pub open spec fn best_of(
    ctx: PolicyContext,
    free: Seq<u64>,
    min_tier: int,
    size: u64,
    n: nat,
) -> Option<int>
    decreases n,
{
    if n == 0 {
        None
    } else {
        let best = best_of(ctx, free, min_tier, size, (n - 1) as nat);
        if has_room(ctx, free, min_tier, size, n - 1) && (best is None || better(
            ctx,
            free,
            n - 1,
            best->0,
        )) {
            Some(n - 1)
        } else {
            best
        }
    }
}

/// The destination for `size` bytes on a tier no faster than `min_tier`.
pub open spec fn destination(
    ctx: PolicyContext,
    free: Seq<u64>,
    min_tier: int,
    size: u64,
) -> Option<int> {
    best_of(ctx, free, min_tier, size, ctx.tiers.branches@.len())
}

/// A destination has room and no branch with room is better; of equally good
/// ones it is the first. There is none exactly where no branch has room.
pub proof fn lemma_best_of(ctx: PolicyContext, free: Seq<u64>, min_tier: int, size: u64, n: nat)
    ensures
        match best_of(ctx, free, min_tier, size, n) {
            Some(b) => {
                &&& 0 <= b < n
                &&& has_room(ctx, free, min_tier, size, b)
                &&& forall|j: int|
                    0 <= j < n && #[trigger] has_room(ctx, free, min_tier, size, j) ==> !better(
                        ctx,
                        free,
                        j,
                        b,
                    ) && (j < b ==> better(ctx, free, b, j))
            },
            None => forall|j: int|
                0 <= j < n ==> !#[trigger] has_room(ctx, free, min_tier, size, j),
        },
    decreases n,
{
    if n > 0 {
        lemma_best_of(ctx, free, min_tier, size, (n - 1) as nat);
    }
}

/// The move of file `idx` from its projected branch to branch `dst`.
pub open spec fn move_of(
    ctx: PolicyContext,
    s: Projection,
    idx: int,
    dst: int,
    reason: Seq<char>,
) -> MoveView {
    let f = files_of(ctx)[idx];
    MoveView {
        rel: f.rel@,
        size: f.size,
        src_branch_idx: s.branch[idx],
        dst_branch_idx: dst as usize,
        atime: f.atime,
        mtime: f.mtime,
        reason: reason,
    }
}

pub open spec fn plus_saturating(a: u64, b: u64) -> u64 {
    if a + b > u64::MAX {
        u64::MAX
    } else {
        (a + b) as u64
    }
}

pub open spec fn minus_saturating(a: u64, b: u64) -> u64 {
    if a < b {
        0
    } else {
        (a - b) as u64
    }
}

/// The pool once the file has been given the move.
pub open spec fn relocated(
    ctx: PolicyContext,
    s: Projection,
    idx: int,
    dst: int,
    reason: Seq<char>,
) -> Projection {
    let size = files_of(ctx)[idx].size;
    let src = s.branch[idx] as int;
    let freed = s.free.update(src, plus_saturating(s.free[src], size));
    Projection {
        free: freed.update(dst, minus_saturating(freed[dst], size)),
        tier: s.tier.update(idx, ctx.tiers.branches@[dst].tier),
        branch: s.branch.update(idx, dst as usize),
        moved: s.moved.update(idx, true),
        moves: s.moves.push(move_of(ctx, s, idx, dst, reason)),
        who: s.who.push(idx as usize),
        bytes: s.bytes + size,
        exhausted: s.exhausted,
    }
}

/// The move budget does not allow for `size` more bytes.
pub open spec fn over_budget(ctx: PolicyContext, s: Projection, size: u64) -> bool {
    ctx.config.max_move_bytes_per_cycle matches Some(limit) && s.bytes + size > limit
}

/// File `idx` may be demoted to a tier no faster than `min_tier`, were there
/// budget and room.
pub open spec fn eligible(s: Projection, idx: int, min_tier: int) -> bool {
    !s.exhausted && !s.moved[idx] && min_tier > s.tier[idx]
}

/// A demotion of file `idx` to a tier no faster than `min_tier` succeeds.
pub open spec fn demotes(ctx: PolicyContext, s: Projection, idx: int, min_tier: int) -> bool {
    let size = files_of(ctx)[idx].size;
    &&& eligible(s, idx, min_tier)
    &&& !over_budget(ctx, s, size)
    &&& destination(ctx, s.free, min_tier, size) matches Some(d) && d != s.branch[idx]
}

/// The outcome of an attempt to demote file `idx` to a tier no faster than
/// `min_tier`. A lack of budget ends all planning; a lack of room does not.
pub open spec fn demoted(
    ctx: PolicyContext,
    s: Projection,
    idx: int,
    min_tier: int,
    reason: Seq<char>,
) -> Projection {
    let size = files_of(ctx)[idx].size;
    if demotes(ctx, s, idx, min_tier) {
        relocated(ctx, s, idx, destination(ctx, s.free, min_tier, size)->0, reason)
    } else if eligible(s, idx, min_tier) && over_budget(ctx, s, size) {
        Projection { exhausted: true, ..s }
    } else {
        s
    }
}

pub open spec fn larger(a: int, b: int) -> int {
    if a >= b {
        a
    } else {
        b
    }
}

/// The fastest tier a rule sends files to that must leave the tiers up to `top`.
pub open spec fn target_below(rule: Rule, top: int) -> int {
    match rule.target_tier {
        Some(t) => larger(t as int, top + 1),
        None => top + 1,
    }
}

/// The rules in the order in which they are enforced: the subtree rules in
/// their order, then the default rule, whose quota is on the whole pool.
pub open spec fn all_rules(ctx: PolicyContext) -> Seq<Rule> {
    ctx.config.rules@.push(ctx.config.default_rule)
}

/// The position, among all rules, of the one in force for a file.
pub open spec fn governor(ctx: PolicyContext, idx: int) -> int {
    match config::deepest(ctx.config.rules@, files_of(ctx)[idx].rel@) {
        Some(k) => k,
        None => ctx.config.rules@.len() as int,
    }
}

// The eager pass.

/// The file is to be demoted whatever the quotas are.
pub open spec fn is_overdue(ctx: PolicyContext, idx: usize) -> bool {
    let rule = rule_of(ctx, idx as int);
    &&& !pinned(ctx, idx as int)
    &&& rule.aggressive || (rule.max_age matches Some(max) && age(
        ctx.now,
        files_of(ctx)[idx as int].atime,
    ) > max)
}

/// The overdue files that rule `k` governs, in the rule's order of dispatch.
pub open spec fn overdue(ctx: PolicyContext, k: int) -> Seq<usize> {
    order::select(
        files_of(ctx).len(),
        |i: usize| is_overdue(ctx, i) && governor(ctx, i as int) == k,
    ).sort_by(dispatch_order(files_of(ctx), all_rules(ctx)[k].dispatch_sort))
}

/// The pool once the given files have been demoted eagerly, in turn.
pub open spec fn after_eager(ctx: PolicyContext, s: Projection, todo: Seq<usize>) -> Projection
    decreases todo.len(),
{
    if todo.len() == 0 {
        s
    } else {
        let t = after_eager(ctx, s, todo.drop_last());
        let idx = todo.last() as int;
        demoted(ctx, t, idx, target_below(rule_of(ctx, idx), t.tier[idx] as int), "eager"@)
    }
}

/// The pool once the overdue files that the first `n` rules govern have been
/// demoted, rule by rule.
pub open spec fn after_overdue(ctx: PolicyContext, s: Projection, n: nat) -> Projection
    decreases n,
{
    if n == 0 {
        s
    } else {
        after_eager(ctx, after_overdue(ctx, s, (n - 1) as nat), overdue(ctx, n - 1))
    }
}

// The quota pass.

/// File `idx` counts toward the quota of `rule`: it is in the subtree, on a
/// tier that counts, and no rule pins it there.
pub open spec fn counts(ctx: PolicyContext, s: Projection, rule: Rule, idx: int) -> bool {
    &&& s.tier[idx] <= rule.quota_max_tier
    &&& config::covered_by(files_of(ctx)[idx].rel@, rule.path@)
    &&& !rule_of(ctx, idx).pin
}

/// The bytes of the first `n` files that count toward the quota of `rule`.
pub open spec fn usage_of(ctx: PolicyContext, s: Projection, rule: Rule, n: nat) -> int
    decreases n,
{
    if n == 0 {
        0
    } else {
        usage_of(ctx, s, rule, (n - 1) as nat) + if counts(ctx, s, rule, n - 1) {
            files_of(ctx)[n - 1].size as int
        } else {
            0
        }
    }
}

/// The bytes that count toward the quota of `rule`.
pub open spec fn usage(ctx: PolicyContext, s: Projection, rule: Rule) -> int {
    usage_of(ctx, s, rule, files_of(ctx).len())
}

/// The files whose removal would relieve the quota of `rule`.
pub open spec fn is_excess(ctx: PolicyContext, s: Projection, rule: Rule, idx: usize) -> bool {
    !s.moved[idx as int] && counts(ctx, s, rule, idx as int) && !pinned(ctx, idx as int)
}

/// The candidates under the quota of `rule`, in the order of dispatch.
pub open spec fn excess(ctx: PolicyContext, s: Projection, rule: Rule) -> Seq<usize> {
    order::select(files_of(ctx).len(), |i: usize| is_excess(ctx, s, rule, i)).sort_by(
        dispatch_order(files_of(ctx), rule.dispatch_sort),
    )
}

/// The pool once the given files have been demoted in turn, as long as the
/// subtree was over its quota.
pub open spec fn after_quota(
    ctx: PolicyContext,
    s: Projection,
    rule: Rule,
    todo: Seq<usize>,
) -> Projection
    recommends
        rule.quota is Some,
    decreases todo.len(),
{
    if todo.len() == 0 {
        s
    } else {
        let t = after_quota(ctx, s, rule, todo.drop_last());
        if usage(ctx, t, rule) <= rule.quota->0 {
            t
        } else {
            demoted(
                ctx,
                t,
                todo.last() as int,
                target_below(rule, rule.quota_max_tier as int),
                "quota"@,
            )
        }
    }
}

/// The pool once the quota of one rule has been enforced.
pub open spec fn enforced(ctx: PolicyContext, s: Projection, rule: Rule) -> Projection {
    match rule.quota {
        Some(_) => after_quota(ctx, s, rule, excess(ctx, s, rule)),
        None => s,
    }
}

/// The pool once the quotas of the given rules have been enforced, in turn.
pub open spec fn after_rules(ctx: PolicyContext, s: Projection, rules: Seq<Rule>) -> Projection
    decreases rules.len(),
{
    if rules.len() == 0 {
        s
    } else {
        enforced(ctx, after_rules(ctx, s, rules.drop_last()), rules.last())
    }
}

// The free-space pass.

/// File `idx` can be taken off branch `b`.
pub open spec fn is_ballast(ctx: PolicyContext, s: Projection, b: usize, idx: usize) -> bool {
    !s.moved[idx as int] && s.branch[idx as int] == b && !pinned(ctx, idx as int)
}

/// The files that can be taken off branch `b`, in the order of dispatch.
pub open spec fn ballast(ctx: PolicyContext, s: Projection, b: usize) -> Seq<usize> {
    order::select(files_of(ctx).len(), |i: usize| is_ballast(ctx, s, b, i)).sort_by(
        dispatch_order(files_of(ctx), ctx.config.default_rule.dispatch_sort),
    )
}

/// The number of files without a move.
pub open spec fn unmoved(moved: Seq<bool>) -> nat
    decreases moved.len(),
{
    if moved.len() == 0 {
        0
    } else {
        unmoved(moved.drop_last()) + if moved.last() {
            0nat
        } else {
            1nat
        }
    }
}

pub proof fn lemma_unmoved_update(moved: Seq<bool>, i: int)
    requires
        0 <= i < moved.len(),
        !moved[i],
    ensures
        unmoved(moved.update(i, true)) < unmoved(moved),
    decreases moved.len(),
{
    let after = moved.update(i, true);
    if i == moved.len() - 1 {
        assert(after.drop_last() =~= moved.drop_last());
    } else {
        assert(after.drop_last() =~= moved.drop_last().update(i, true));
        lemma_unmoved_update(moved.drop_last(), i);
    }
}

/// The pool once files have been demoted off branch `b` until it is back
/// above the floor, no file is left to take, or one could not be placed.
pub open spec fn relieved(ctx: PolicyContext, s: Projection, b: usize) -> Projection
    decreases unmoved(s.moved),
    when files_of(ctx).len() <= usize::MAX && s.moved.len() == files_of(ctx).len()
    via relieved_decreases
{
    let todo = ballast(ctx, s, b);
    if s.free[b as int] >= ctx.minfreespace || s.exhausted || todo.len() == 0 {
        s
    } else {
        let idx = todo[0] as int;
        let min_tier = target_below(rule_of(ctx, idx), s.tier[idx] as int);
        let t = demoted(ctx, s, idx, min_tier, "minfreespace"@);
        if demotes(ctx, s, idx, min_tier) {
            relieved(ctx, t, b)
        } else {
            t
        }
    }
}

pub proof fn lemma_ballast(ctx: PolicyContext, s: Projection, b: usize)
    requires
        files_of(ctx).len() <= usize::MAX,
    ensures
        forall|k: int|
            0 <= k < ballast(ctx, s, b).len() ==> (#[trigger] ballast(ctx, s, b)[k])
                < files_of(ctx).len() && is_ballast(ctx, s, b, ballast(ctx, s, b)[k]),
{
    let pred = |i: usize| is_ballast(ctx, s, b, i);
    let n = files_of(ctx).len();
    order::lemma_select(n, pred);
    lemma_dispatch_order_total(files_of(ctx), ctx.config.default_rule.dispatch_sort);
    order::lemma_sorted_members(
        order::select(n, pred),
        dispatch_order(files_of(ctx), ctx.config.default_rule.dispatch_sort),
    );
}

/// The candidates under a quota count toward it and are not pinned.
pub proof fn lemma_excess(ctx: PolicyContext, s: Projection, rule: Rule)
    ensures
        forall|k: int|
            0 <= k < excess(ctx, s, rule).len() ==> (#[trigger] excess(ctx, s, rule)[k])
                < files_of(ctx).len() && is_excess(ctx, s, rule, excess(ctx, s, rule)[k])
                && !pinned(ctx, excess(ctx, s, rule)[k] as int),
{
    let pred = |i: usize| is_excess(ctx, s, rule, i);
    let n = files_of(ctx).len();
    assert(ctx.inventory.files.len() == n);
    order::lemma_select(n, pred);
    lemma_dispatch_order_total(files_of(ctx), rule.dispatch_sort);
    order::lemma_sorted_members(order::select(n, pred), dispatch_order(files_of(ctx), rule.dispatch_sort));
    assert forall|k: int| 0 <= k < excess(ctx, s, rule).len() implies (
    #[trigger] excess(ctx, s, rule)[k]) < n && is_excess(ctx, s, rule, excess(ctx, s, rule)[k])
        && !pinned(ctx, excess(ctx, s, rule)[k] as int) by {
        let x = excess(ctx, s, rule)[k];
        assert(order::select(n, pred).contains(x));
        let j = choose|j: int| 0 <= j < order::select(n, pred).len() && order::select(n, pred)[j] == x;
        assert(pred(order::select(n, pred)[j]));
    }
}

/// The overdue files that a rule governs are not pinned.
pub proof fn lemma_overdue(ctx: PolicyContext, r: int)
    ensures
        forall|k: int|
            0 <= k < overdue(ctx, r).len() ==> (#[trigger] overdue(ctx, r)[k]) < files_of(
                ctx,
            ).len() && is_overdue(ctx, overdue(ctx, r)[k]) && governor(
                ctx,
                overdue(ctx, r)[k] as int,
            ) == r && !pinned(ctx, overdue(ctx, r)[k] as int),
        forall|i: usize|
            i < files_of(ctx).len() && is_overdue(ctx, i) && governor(ctx, i as int) == r
                ==> #[trigger] overdue(ctx, r).contains(i),
{
    let pred = |i: usize| is_overdue(ctx, i) && governor(ctx, i as int) == r;
    let n = files_of(ctx).len();
    let sort = all_rules(ctx)[r].dispatch_sort;
    let chosen = order::select(n, pred);
    assert(ctx.inventory.files.len() == n);
    order::lemma_select(n, pred);
    lemma_dispatch_order_total(files_of(ctx), sort);
    order::lemma_sorted_members(chosen, dispatch_order(files_of(ctx), sort));
    assert forall|k: int| 0 <= k < overdue(ctx, r).len() implies (#[trigger] overdue(ctx, r)[k]) < n
        && pred(overdue(ctx, r)[k]) by {
        let x = overdue(ctx, r)[k];
        assert(chosen.contains(x));
        let j = choose|j: int| 0 <= j < chosen.len() && chosen[j] == x;
        assert(pred(chosen[j]));
    }
    assert forall|i: usize|
        i < n && is_overdue(ctx, i) && governor(ctx, i as int) == r implies #[trigger] overdue(
        ctx,
        r,
    ).contains(i) by {
        assert(pred(i));
        assert(chosen.contains(i));
    }
}

#[via_fn]
proof fn relieved_decreases(ctx: PolicyContext, s: Projection, b: usize) {
    lemma_ballast(ctx, s, b);
    let todo = ballast(ctx, s, b);
    if todo.len() > 0 {
        let idx = todo[0] as int;
        assert(is_ballast(ctx, s, b, todo[0]));
        lemma_unmoved_update(s.moved, idx);
    }
}

/// All branches, fastest tier first.
pub open spec fn branches_by_speed(ctx: PolicyContext) -> Seq<usize> {
    order::select(ctx.tiers.branches@.len(), |i: usize| true).sort_by(
        speed_order(ctx.tiers.branches@),
    )
}

/// The pool once the given branches have been relieved, in turn.
pub open spec fn after_branches(ctx: PolicyContext, s: Projection, order: Seq<usize>) -> Projection
    decreases order.len(),
{
    if order.len() == 0 {
        s
    } else {
        relieved(ctx, after_branches(ctx, s, order.drop_last()), order.last())
    }
}

// The plan.

/// The pool after the three passes.
pub open spec fn projected(ctx: PolicyContext) -> Projection {
    let eager = after_overdue(ctx, initial(ctx), all_rules(ctx).len());
    let capped = after_rules(ctx, eager, all_rules(ctx));
    after_branches(ctx, capped, branches_by_speed(ctx))
}

// ---- the planner -----------------------------------------------------------------

/// The shape that every projection of `ctx` has.
pub open spec fn shaped(ctx: PolicyContext, s: Projection) -> bool {
    &&& ctx.wf()
    &&& s.free.len() == ctx.tiers.branches@.len()
    &&& s.tier.len() == files_of(ctx).len()
    &&& s.branch.len() == files_of(ctx).len()
    &&& s.moved.len() == files_of(ctx).len()
    &&& forall|i: int| 0 <= i < s.branch.len() ==> #[trigger] s.branch[i] < s.free.len()
    &&& 0 <= s.bytes <= (s.moved.len() - unmoved(s.moved)) * u64::MAX
}

proof fn lemma_unmoved_bound(moved: Seq<bool>)
    ensures
        unmoved(moved) <= moved.len(),
    decreases moved.len(),
{
    if moved.len() > 0 {
        lemma_unmoved_bound(moved.drop_last());
    }
}

proof fn lemma_unmoved_none(moved: Seq<bool>)
    requires
        forall|i: int| 0 <= i < moved.len() ==> !moved[i],
    ensures
        unmoved(moved) == moved.len(),
    decreases moved.len(),
{
    if moved.len() > 0 {
        lemma_unmoved_none(moved.drop_last());
    }
}

/// The pool as it was found has the right shape.
pub proof fn lemma_initial_shaped(ctx: PolicyContext)
    requires
        ctx.wf(),
    ensures
        shaped(ctx, initial(ctx)),
{
    lemma_unmoved_none(initial(ctx).moved);
}

/// An attempt to demote keeps the shape.
pub proof fn lemma_demoted_shaped(
    ctx: PolicyContext,
    s: Projection,
    idx: int,
    min_tier: int,
    reason: Seq<char>,
)
    requires
        shaped(ctx, s),
        0 <= idx < files_of(ctx).len(),
    ensures
        shaped(ctx, demoted(ctx, s, idx, min_tier, reason)),
{
    let t = demoted(ctx, s, idx, min_tier, reason);
    let size = files_of(ctx)[idx].size;
    lemma_best_of(ctx, s.free, min_tier, size, ctx.tiers.branches@.len());
    if demotes(ctx, s, idx, min_tier) {
        lemma_unmoved_update(s.moved, idx);
        let k = s.moved.len() - unmoved(s.moved);
        let k2 = t.moved.len() - unmoved(t.moved);
        assert(k2 * u64::MAX >= (k + 1) * u64::MAX) by (nonlinear_arith)
            requires
                k2 >= k + 1,
        ;
        assert((k + 1) * u64::MAX == k * u64::MAX + u64::MAX) by (nonlinear_arith);
    }
}

/// The bytes of a plan fit in 128 bits with room for one more file.
proof fn lemma_bytes_fit(ctx: PolicyContext, s: Projection)
    requires
        shaped(ctx, s),
        files_of(ctx).len() <= usize::MAX,
    ensures
        s.bytes + u64::MAX <= u128::MAX,
{
    lemma_unmoved_bound(s.moved);
    let k = s.moved.len() - unmoved(s.moved);
    assert(k * u64::MAX <= 0xffff_ffff_ffff_ffff * u64::MAX) by (nonlinear_arith)
        requires
            k <= 0xffff_ffff_ffff_ffff,
    ;
}

/// The usage stays within 128 bits.
proof fn lemma_usage_bound(ctx: PolicyContext, s: Projection, rule: Rule, n: nat)
    requires
        n <= files_of(ctx).len(),
    ensures
        0 <= usage_of(ctx, s, rule, n) <= n * u64::MAX,
    decreases n,
{
    if n > 0 {
        lemma_usage_bound(ctx, s, rule, (n - 1) as nat);
        assert(n * u64::MAX == (n - 1) * u64::MAX + u64::MAX) by (nonlinear_arith);
    }
}

/// Nothing is demoted on behalf of a quota that is kept.
pub proof fn lemma_within_quota(ctx: PolicyContext, s: Projection, rule: Rule, todo: Seq<usize>)
    requires
        rule.quota is Some,
        usage(ctx, s, rule) <= rule.quota->0,
    ensures
        after_quota(ctx, s, rule, todo) == s,
    decreases todo.len(),
{
    if todo.len() > 0 {
        lemma_within_quota(ctx, s, rule, todo.drop_last());
    }
}

/// How long before `now` the time `t` was; zero for the future.
fn age_at(now: i128, t: i128) -> (r: u128)
    ensures
        r == age(now, t),
{
    if t >= now {
        0
    } else if t >= 0 || now < 0 {
        (now - t) as u128
    } else {
        (now as u128) + ((-(t + 1)) as u128) + 1
    }
}

/// The fastest tier a rule sends files to that must leave the tiers up to `top`.
fn below(rule: &Rule, top: usize) -> (r: u128)
    ensures
        r == target_below(*rule, top as int),
{
    let next: u128 = top as u128 + 1;
    match rule.target_tier {
        Some(t) => if t as u128 >= next {
            t as u128
        } else {
            next
        },
        None => next,
    }
}

struct Planner<'a> {
    ctx: &'a PolicyContext<'a>,
    free: Vec<u64>,
    proj_tier: Vec<usize>,
    proj_branch: Vec<usize>,
    moved: Vec<bool>,
    moves: Vec<Move>,
    who: Ghost<Seq<usize>>,
    bytes_moved: u128,
    budget_exhausted: bool,
}

impl<'a> Planner<'a> {
    spec fn state(&self) -> Projection {
        Projection {
            free: self.free@,
            tier: self.proj_tier@,
            branch: self.proj_branch@,
            moved: self.moved@,
            moves: super::move_views(self.moves@),
            who: self.who@,
            bytes: self.bytes_moved as int,
            exhausted: self.budget_exhausted,
        }
    }

    spec fn wf(&self) -> bool {
        shaped(*self.ctx, self.state())
    }

    fn new(ctx: &'a PolicyContext<'a>) -> (r: Self)
        requires
            ctx.wf(),
        ensures
            r.ctx == ctx,
            r.wf(),
            r.state() == initial(*ctx),
    {
        let n = ctx.inventory.files.len();
        let mut proj_tier: Vec<usize> = Vec::new();
        let mut proj_branch: Vec<usize> = Vec::new();
        let mut moved: Vec<bool> = Vec::new();
        let mut i: usize = 0;
        while i < n
            invariant
                i <= n == ctx.inventory.files.len(),
                proj_tier@ =~= initial(*ctx).tier.take(i as int),
                proj_branch@ =~= initial(*ctx).branch.take(i as int),
                moved@ =~= initial(*ctx).moved.take(i as int),
            decreases n - i,
        {
            let f = &ctx.inventory.files[i];
            proj_tier.push(f.tier);
            proj_branch.push(f.branch_idx);
            moved.push(false);
            i = i + 1;
        }
        let r = Planner {
            ctx,
            free: ctx.free.clone(),
            proj_tier,
            proj_branch,
            moved,
            moves: Vec::new(),
            who: Ghost(Seq::empty()),
            bytes_moved: 0,
            budget_exhausted: false,
        };
        proof {
            assert(r.free@ =~= ctx.free@);
            assert(r.proj_tier@ =~= initial(*ctx).tier);
            assert(r.proj_branch@ =~= initial(*ctx).branch);
            assert(r.moved@ =~= initial(*ctx).moved);
            assert(super::move_views(r.moves@) =~= Seq::<MoveView>::empty());
            lemma_initial_shaped(*ctx);
        }
        r
    }

    fn age(&self, t: i128) -> (r: u128)
        ensures
            r == age(self.ctx.now, t),
    {
        age_at(self.ctx.now, t)
    }

    fn rule_for(&self, idx: usize) -> (r: &Rule)
        requires
            idx < files_of(*self.ctx).len(),
        ensures
            *r == rule_of(*self.ctx, idx as int),
    {
        self.ctx.config.rule_for(&self.ctx.inventory.files[idx].rel)
    }

    fn pinned(&self, idx: usize) -> (r: bool)
        requires
            idx < files_of(*self.ctx).len(),
        ensures
            r == pinned(*self.ctx, idx as int),
    {
        let rule = self.rule_for(idx);
        if rule.pin {
            return true;
        }
        // Files modified too recently are likely in use; let them settle.
        if self.age(self.ctx.inventory.files[idx].mtime) < self.ctx.config.settle {
            return true;
        }
        match rule.min_age {
            Some(min) => self.age(self.ctx.inventory.files[idx].atime) < min,
            None => false,
        }
    }

    /// Pick a destination branch on a tier `>= min_tier` with room for `size`.
    /// Cascades to slower tiers if the preferred tier is full.
    fn find_dest(&self, min_tier: u128, size: u64) -> (r: Option<usize>)
        requires
            self.wf(),
        ensures
            match r {
                Some(d) => destination(*self.ctx, self.free@, min_tier as int, size) == Some(
                    d as int,
                ) && d < self.free@.len(),
                None => destination(*self.ctx, self.free@, min_tier as int, size) is None,
            },
    {
        let need: u128 = size as u128 + self.ctx.minfreespace as u128;
        let mut best: Option<usize> = None;
        let mut b: usize = 0;
        let n = self.ctx.tiers.branches.len();
        while b < n
            invariant
                b <= n == self.ctx.tiers.branches@.len(),
                self.free@.len() == n,
                need == size + self.ctx.minfreespace,
                match best {
                    Some(d) => d < b && best_of(
                        *self.ctx,
                        self.free@,
                        min_tier as int,
                        size,
                        b as nat,
                    ) == Some(d as int),
                    None => best_of(*self.ctx, self.free@, min_tier as int, size, b as nat) is None,
                },
            decreases n - b,
        {
            let tb = &self.ctx.tiers.branches[b];
            if tb.branch.mode.writable() && min_tier <= tb.tier as u128 && tb.tier
                <= self.ctx.tiers.max_tier && self.free[b] as u128 >= need {
                match best {
                    Some(d) => {
                        let held = self.ctx.tiers.branches[d].tier;
                        if tb.tier < held || (tb.tier == held && self.free[b] > self.free[d]) {
                            best = Some(b);
                        }
                    },
                    None => {
                        best = Some(b);
                    },
                }
            }
            b = b + 1;
        }
        best
    }

    /// Plan a demotion of file `idx` to a tier at or below `min_tier`.
    /// Returns true if a move was planned.
    fn demote(&mut self, idx: usize, min_tier: u128, reason: &str) -> (r: bool)
        requires
            old(self).wf(),
            idx < files_of(*old(self).ctx).len(),
        ensures
            final(self).ctx == old(self).ctx,
            final(self).wf(),
            final(self).state() == demoted(
                *old(self).ctx,
                old(self).state(),
                idx as int,
                min_tier as int,
                reason@,
            ),
            r == demotes(*old(self).ctx, old(self).state(), idx as int, min_tier as int),
    {
        let ghost s = self.state();
        let ghost ctx = *self.ctx;
        proof {
            lemma_demoted_shaped(ctx, s, idx as int, min_tier as int, reason@);
            assert(ctx.inventory.files.len() == files_of(ctx).len());
            lemma_bytes_fit(ctx, s);
            lemma_best_of(
                ctx,
                s.free,
                min_tier as int,
                files_of(ctx)[idx as int].size,
                ctx.tiers.branches@.len(),
            );
        }
        if self.budget_exhausted || self.moved[idx] {
            return false;
        }
        let f = &self.ctx.inventory.files[idx];
        if min_tier <= self.proj_tier[idx] as u128 {
            return false;  // not actually slower
        }
        if let Some(limit) = self.ctx.config.max_move_bytes_per_cycle {
            if self.bytes_moved + f.size as u128 > limit as u128 {
                self.budget_exhausted = true;
                return false;
            }
        }
        let dst = match self.find_dest(min_tier, f.size) {
            Some(d) => d,
            None => {
                return false;
            },
        };
        let src = self.proj_branch[idx];
        if dst == src {
            return false;
        }
        assert(s.branch[idx as int] < s.free.len());
        let freed = self.free[src].saturating_add(f.size);
        self.free.set(src, freed);
        let taken = self.free[dst].saturating_sub(f.size);
        self.free.set(dst, taken);
        self.proj_tier.set(idx, self.ctx.tiers.branches[dst].tier);
        self.proj_branch.set(idx, dst);
        self.moved.set(idx, true);
        self.bytes_moved = self.bytes_moved + f.size as u128;
        let m = Move {
            rel: copy_of(f.rel.as_slice()),
            size: f.size,
            src_branch_idx: src,
            dst_branch_idx: dst,
            atime: f.atime,
            mtime: f.mtime,
            reason: reason.to_string(),
        };
        let ghost before = self.moves@;
        self.moves.push(m);
        proof {
            self.who@ = self.who@.push(idx);
            assert(super::move_views(self.moves@) =~= super::move_views(before).push(m@));
        }
        true
    }

    /// The position, among all rules, of the one that has file `idx` demoted
    /// whatever the quotas are.
    fn overdue_under(&self, idx: usize) -> (r: Option<usize>)
        requires
            idx < files_of(*self.ctx).len(),
        ensures
            match r {
                Some(k) => is_overdue(*self.ctx, idx) && governor(*self.ctx, idx as int) == k,
                None => !is_overdue(*self.ctx, idx),
            },
    {
        if self.pinned(idx) {
            return None;
        }
        let rule = self.rule_for(idx);
        let overdue = rule.aggressive || match rule.max_age {
            Some(max) => self.age(self.ctx.inventory.files[idx].atime) > max,
            None => false,
        };
        if !overdue {
            return None;
        }
        match self.ctx.config.deepest_rule(&self.ctx.inventory.files[idx].rel) {
            Some(k) => Some(k),
            None => Some(self.ctx.config.rules.len()),
        }
    }

    fn eager_pass(&mut self)
        requires
            old(self).wf(),
        ensures
            final(self).ctx == old(self).ctx,
            final(self).wf(),
            final(self).state() == after_overdue(
                *old(self).ctx,
                old(self).state(),
                all_rules(*old(self).ctx).len(),
            ),
    {
        let ghost s = self.state();
        let ctx = self.ctx;
        let n = ctx.inventory.files.len();
        let mut under: Vec<Option<usize>> = Vec::new();
        let mut idx: usize = 0;
        while idx < n
            invariant
                idx <= n == files_of(*ctx).len(),
                self.ctx == ctx,
                under@.len() == idx,
                forall|i: int|
                    0 <= i < idx ==> match #[trigger] under@[i] {
                        Some(k) => is_overdue(*ctx, i as usize) && governor(*ctx, i) == k,
                        None => !is_overdue(*ctx, i as usize),
                    },
            decreases n - idx,
        {
            under.push(self.overdue_under(idx));
            idx = idx + 1;
        }
        assert(self.state() == s);
        let rules = ctx.config.rules.len();
        let mut r: usize = 0;
        while r < rules
            invariant
                r <= rules == ctx.config.rules@.len(),
                n == files_of(*ctx).len() == under@.len(),
                self.ctx == ctx,
                ctx == old(self).ctx,
                self.wf(),
                forall|i: int|
                    0 <= i < n ==> match #[trigger] under@[i] {
                        Some(k) => is_overdue(*ctx, i as usize) && governor(*ctx, i) == k,
                        None => !is_overdue(*ctx, i as usize),
                    },
                self.state() == after_overdue(*ctx, s, r as nat),
            decreases rules - r,
        {
            self.demote_overdue(r, &ctx.config.rules[r], &under);
            r = r + 1;
        }
        self.demote_overdue(rules, &ctx.config.default_rule, &under);
    }

    /// Demotes the overdue files that a rule governs, in its order of dispatch.
    fn demote_overdue(&mut self, r: usize, rule: &Rule, under: &Vec<Option<usize>>)
        requires
            old(self).wf(),
            r < all_rules(*old(self).ctx).len(),
            *rule == all_rules(*old(self).ctx)[r as int],
            under@.len() == files_of(*old(self).ctx).len(),
            forall|i: int|
                0 <= i < under@.len() ==> match #[trigger] under@[i] {
                    Some(k) => is_overdue(*old(self).ctx, i as usize) && governor(
                        *old(self).ctx,
                        i,
                    ) == k,
                    None => !is_overdue(*old(self).ctx, i as usize),
                },
        ensures
            final(self).ctx == old(self).ctx,
            final(self).wf(),
            final(self).state() == after_eager(
                *old(self).ctx,
                old(self).state(),
                overdue(*old(self).ctx, r as int),
            ),
    {
        let ghost ctx = *self.ctx;
        let ghost pred = |i: usize| is_overdue(ctx, i) && governor(ctx, i as int) == r as int;
        let n = self.ctx.inventory.files.len();
        let mut candidates: Vec<usize> = Vec::new();
        let mut idx: usize = 0;
        while idx < n
            invariant
                idx <= n == files_of(ctx).len() == under@.len(),
                pred == (|i: usize| is_overdue(ctx, i) && governor(ctx, i as int) == r as int),
                forall|i: int|
                    0 <= i < under@.len() ==> match #[trigger] under@[i] {
                        Some(k) => is_overdue(ctx, i as usize) && governor(ctx, i) == k,
                        None => !is_overdue(ctx, i as usize),
                    },
                candidates@ == order::select(idx as nat, pred),
                forall|k: int| 0 <= k < candidates.len() ==> (#[trigger] candidates@[k]) < n,
            decreases n - idx,
        {
            match under[idx] {
                Some(k) => {
                    if k == r {
                        candidates.push(idx);
                    }
                },
                None => {},
            }
            idx = idx + 1;
        }
        let by = FileOrder { files: &self.ctx.inventory.files, sort: rule.dispatch_sort };
        let candidates = sort_indices(&by, candidates);
        assert(candidates@ == overdue(ctx, r as int));
        let ghost s = self.state();
        let mut k: usize = 0;
        assert(candidates@.take(0) =~= Seq::<usize>::empty());
        while k < candidates.len()
            invariant
                k <= candidates.len(),
                n == files_of(ctx).len(),
                ctx == *self.ctx,
                self.ctx == old(self).ctx,
                self.wf(),
                order::all_covered(&by, candidates@),
                by.files@ == files_of(ctx),
                self.state() == after_eager(ctx, s, candidates@.take(k as int)),
            decreases candidates.len() - k,
        {
            let idx = candidates[k];
            assert(by.covers(candidates@[k as int]));
            assert(candidates@.take(k + 1).drop_last() =~= candidates@.take(k as int));
            let min_tier = below(self.rule_for(idx), self.proj_tier[idx]);
            self.demote(idx, min_tier, "eager");
            k = k + 1;
        }
        assert(candidates@.take(k as int) =~= candidates@);
    }

    /// The bytes that count toward the quota of `rule`.
    fn usage(&self, rule: &Rule) -> (r: u128)
        requires
            self.wf(),
        ensures
            r == usage(*self.ctx, self.state(), *rule),
    {
        let ghost ctx = *self.ctx;
        let ghost s = self.state();
        let n = self.ctx.inventory.files.len();
        let mut sum: u128 = 0;
        let mut idx: usize = 0;
        while idx < n
            invariant
                idx <= n == files_of(ctx).len(),
                ctx == *self.ctx,
                s == self.state(),
                self.wf(),
                sum == usage_of(ctx, s, *rule, idx as nat),
            decreases n - idx,
        {
            proof {
                lemma_usage_bound(ctx, s, *rule, idx as nat);
                assert(idx * u64::MAX <= 0xffff_ffff_ffff_ffff * u64::MAX) by (nonlinear_arith)
                    requires
                        idx <= 0xffff_ffff_ffff_ffff,
                ;
            }
            let f = &self.ctx.inventory.files[idx];
            if self.proj_tier[idx] <= rule.quota_max_tier && path_under(&f.rel, &rule.path)
                && !self.rule_for(idx).pin {
                sum = sum + f.size as u128;
            }
            idx = idx + 1;
        }
        sum
    }

    fn quota_pass(&mut self)
        requires
            old(self).wf(),
        ensures
            final(self).ctx == old(self).ctx,
            final(self).wf(),
            final(self).state() == after_rules(
                *old(self).ctx,
                old(self).state(),
                all_rules(*old(self).ctx),
            ),
    {
        // Subtree rules (already sorted deepest/highest-priority first), then
        // the default rule as a whole-pool quota.
        let ghost s = self.state();
        let ctx = self.ctx;
        let ghost rules = ctx.config.rules@;
        let mut i: usize = 0;
        assert(rules.take(0) =~= Seq::<Rule>::empty());
        while i < ctx.config.rules.len()
            invariant
                i <= rules.len(),
                rules == ctx.config.rules@,
                self.ctx == ctx,
                ctx == old(self).ctx,
                self.wf(),
                self.state() == after_rules(*ctx, s, rules.take(i as int)),
            decreases rules.len() - i,
        {
            assert(rules.take(i + 1).drop_last() =~= rules.take(i as int));
            self.enforce_quota(&ctx.config.rules[i]);
            i = i + 1;
        }
        assert(rules.take(i as int) =~= rules);
        assert(all_rules(*ctx).drop_last() =~= rules);
        self.enforce_quota(&ctx.config.default_rule);
    }

    fn enforce_quota(&mut self, rule: &Rule)
        requires
            old(self).wf(),
        ensures
            final(self).ctx == old(self).ctx,
            final(self).wf(),
            final(self).state() == enforced(*old(self).ctx, old(self).state(), *rule),
    {
        let quota = match rule.quota {
            Some(q) => q,
            None => {
                return;
            },
        };
        let ghost ctx = *self.ctx;
        let ghost s = self.state();
        let ghost pred = |i: usize| is_excess(ctx, s, *rule, i);
        let n = self.ctx.inventory.files.len();
        let mut candidates: Vec<usize> = Vec::new();
        if self.usage(rule) > quota as u128 {
            let mut idx: usize = 0;
            while idx < n
                invariant
                    idx <= n == files_of(ctx).len(),
                    ctx == *self.ctx,
                    s == self.state(),
                    self.wf(),
                    pred == (|i: usize| is_excess(ctx, s, *rule, i)),
                    candidates@ == order::select(idx as nat, pred),
                    forall|k: int| 0 <= k < candidates.len() ==> (#[trigger] candidates@[k]) < n,
                decreases n - idx,
            {
                let f = &self.ctx.inventory.files[idx];
                if !self.moved[idx] && self.proj_tier[idx] <= rule.quota_max_tier && path_under(
                    &f.rel,
                    &rule.path,
                ) && !self.pinned(idx) {
                    candidates.push(idx);
                }
                idx = idx + 1;
            }
            let by = FileOrder { files: &self.ctx.inventory.files, sort: rule.dispatch_sort };
            let candidates = sort_indices(&by, candidates);
            assert(candidates@ == excess(ctx, s, *rule));
            let target = below(rule, rule.quota_max_tier);
            let mut k: usize = 0;
            assert(candidates@.take(0) =~= Seq::<usize>::empty());
            while k < candidates.len()
                invariant
                    k <= candidates.len(),
                    ctx == *self.ctx,
                    self.ctx == old(self).ctx,
                    self.wf(),
                    rule.quota == Some(quota),
                    target == target_below(*rule, rule.quota_max_tier as int),
                    order::all_covered(&by, candidates@),
                    by.files@ == files_of(ctx),
                    self.state() == after_quota(ctx, s, *rule, candidates@.take(k as int)),
                decreases candidates.len() - k,
            {
                let idx = candidates[k];
                assert(by.covers(candidates@[k as int]));
                assert(candidates@.take(k + 1).drop_last() =~= candidates@.take(k as int));
                if self.usage(rule) > quota as u128 {
                    self.demote(idx, target, "quota");
                }
                k = k + 1;
            }
            assert(candidates@.take(k as int) =~= candidates@);
        } else {
            proof {
                lemma_within_quota(ctx, s, *rule, excess(ctx, s, *rule));
            }
        }
    }

    fn minfreespace_pass(&mut self)
        requires
            old(self).wf(),
        ensures
            final(self).ctx == old(self).ctx,
            final(self).wf(),
            final(self).state() == after_branches(
                *old(self).ctx,
                old(self).state(),
                branches_by_speed(*old(self).ctx),
            ),
    {
        let ghost s = self.state();
        let ghost ctx = *self.ctx;
        // Fastest tiers first.
        let n = self.ctx.tiers.branches.len();
        let mut branch_order: Vec<usize> = Vec::new();
        let mut b: usize = 0;
        let ghost all = |i: usize| true;
        while b < n
            invariant
                b <= n,
                all == (|i: usize| true),
                branch_order@ == order::select(b as nat, all),
                forall|k: int| 0 <= k < branch_order.len() ==> (#[trigger] branch_order@[k]) < n,
            decreases n - b,
        {
            branch_order.push(b);
            b = b + 1;
        }
        let by = BranchOrder { branches: &self.ctx.tiers.branches };
        let branch_order = sort_indices(&by, branch_order);
        assert(branch_order@ == branches_by_speed(ctx));
        let mut k: usize = 0;
        assert(branch_order@.take(0) =~= Seq::<usize>::empty());
        while k < branch_order.len()
            invariant
                k <= branch_order.len(),
                ctx == *self.ctx,
                self.ctx == old(self).ctx,
                self.wf(),
                order::all_covered(&by, branch_order@),
                by.branches@ == ctx.tiers.branches@,
                self.state() == after_branches(ctx, s, branch_order@.take(k as int)),
            decreases branch_order.len() - k,
        {
            assert(by.covers(branch_order@[k as int]));
            assert(branch_order@.take(k + 1).drop_last() =~= branch_order@.take(k as int));
            self.relieve(branch_order[k]);
            k = k + 1;
        }
        assert(branch_order@.take(k as int) =~= branch_order@);
    }

    /// The first file to take off branch `b`, in the order of dispatch.
    fn pick(&self, b: usize) -> (r: Option<usize>)
        requires
            self.wf(),
            b < self.free@.len(),
        ensures
            match r {
                Some(idx) => idx < files_of(*self.ctx).len() && ballast(
                    *self.ctx,
                    self.state(),
                    b,
                ).len() > 0 && ballast(*self.ctx, self.state(), b)[0] == idx,
                None => ballast(*self.ctx, self.state(), b).len() == 0,
            },
    {
        let ghost ctx = *self.ctx;
        let ghost s = self.state();
        let ghost pred = |i: usize| is_ballast(ctx, s, b, i);
        let by = FileOrder {
            files: &self.ctx.inventory.files,
            sort: self.ctx.config.default_rule.dispatch_sort,
        };
        let ghost leq = by.leq();
        proof {
            by.lemma_total();
        }
        let n = self.ctx.inventory.files.len();
        let mut best: Option<usize> = None;
        let mut idx: usize = 0;
        while idx < n
            invariant
                idx <= n == files_of(ctx).len(),
                ctx == *self.ctx,
                s == self.state(),
                self.wf(),
                leq == by.leq(),
                by.files@ == files_of(ctx),
                total_ordering(leq),
                pred == (|i: usize| is_ballast(ctx, s, b, i)),
                match best {
                    Some(p) => p < n && order::select(idx as nat, pred).contains(p) && forall|k: int|
                        0 <= k < order::select(idx as nat, pred).len() ==> leq(
                            p,
                            #[trigger] order::select(idx as nat, pred)[k],
                        ),
                    None => order::select(idx as nat, pred).len() == 0,
                },
            decreases n - idx,
        {
            let ghost front = order::select(idx as nat, pred);
            let ghost whole = order::select((idx + 1) as nat, pred);
            if !self.moved[idx] && self.proj_branch[idx] == b && !self.pinned(idx) {
                assert(whole == front.push(idx));
                assert(whole.last() == idx);
                match best {
                    Some(p) => {
                        let ghost at = choose|k: int| 0 <= k < front.len() && front[k] == p;
                        if by.precedes(p, idx) {
                            assert(whole[at] == p);
                            assert forall|k: int| 0 <= k < whole.len() implies leq(
                                p,
                                #[trigger] whole[k],
                            ) by {
                                if k < front.len() {
                                    assert(leq(p, front[k]));
                                }
                            }
                        } else {
                            assert(leq(idx, p));
                            assert forall|k: int| 0 <= k < whole.len() implies leq(
                                idx,
                                #[trigger] whole[k],
                            ) by {
                                if k < front.len() {
                                    assert(leq(p, front[k]));
                                }
                            }
                            best = Some(idx);
                        }
                    },
                    None => {
                        best = Some(idx);
                    },
                }
            } else {
                assert(whole == front);
            }
            idx = idx + 1;
        }
        proof {
            match best {
                Some(p) => {
                    order::lemma_least_first(order::select(n as nat, pred), leq, p);
                },
                None => {
                    order::lemma_sorted_members(order::select(n as nat, pred), leq);
                },
            }
        }
        best
    }

    /// Demotes files off branch `b` until it is above the floor again.
    fn relieve(&mut self, b: usize)
        requires
            old(self).wf(),
            b < old(self).free@.len(),
        ensures
            final(self).ctx == old(self).ctx,
            final(self).wf(),
            final(self).state() == relieved(*old(self).ctx, old(self).state(), b),
    {
        let ghost ctx = *self.ctx;
        let ghost s = self.state();
        let floor = self.ctx.minfreespace;
        assert(ctx.inventory.files.len() == files_of(ctx).len());
        while self.free[b] < floor && !self.budget_exhausted
            invariant_except_break
                relieved(ctx, s, b) == relieved(ctx, self.state(), b),
            invariant
                ctx == *self.ctx,
                self.ctx == old(self).ctx,
                self.wf(),
                b < self.free@.len(),
                floor == ctx.minfreespace,
                files_of(ctx).len() <= usize::MAX,
            ensures
                self.state() == relieved(ctx, s, b),
            decreases unmoved(self.moved@),
        {
            match self.pick(b) {
                None => {
                    break;
                },
                Some(idx) => {
                    let ghost t = self.state();
                    proof {
                        lemma_ballast(ctx, t, b);
                        assert(is_ballast(ctx, t, b, ballast(ctx, t, b)[0]));
                        lemma_unmoved_update(t.moved, idx as int);
                    }
                    let min_tier = below(self.rule_for(idx), self.proj_tier[idx]);
                    if !self.demote(idx, min_tier, "minfreespace") {
                        break;  // nowhere slower to put it
                    }
                },
            }
        }
    }
}

/// The default policy.
pub struct AccessTimePolicy;

impl TieringPolicy for AccessTimePolicy {
    open spec fn planned(&self, ctx: PolicyContext) -> Seq<MoveView> {
        projected(ctx).moves
    }

    open spec fn called(&self) -> Seq<char> {
        "access_time"@
    }

    fn name(&self) -> (r: &str) {
        "access_time"
    }

    fn plan(&self, ctx: &PolicyContext) -> (r: Vec<Move>) {
        let mut p = Planner::new(ctx);
        p.eager_pass();
        p.quota_pass();
        p.minfreespace_pass();
        p.moves
    }
}

} // verus!
