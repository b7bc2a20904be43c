//! What the moves of a pass are for, in terms of the files, the rules and the
//! branches.

use super::laws;
use super::{Draft, MoveView, Pass, SubtreeRule};
use crate::order;
use crate::paths;
use crate::plan;
use vstd::prelude::*;
#[allow(unused_imports)]
use vstd::relations::*;
#[allow(unused_imports)]
use vstd::seq_lib::*;

verus! {

// ---- what is asked of a file -------------------------------------------------------

/// The rule in force for file `i`: the one with the longest matching prefix.
pub open spec fn rule_in_force(p: Pass, i: int) -> Option<SubtreeRule> {
    match plan::longest_match(p.cfg.rules@, p.files@[i].rel@) {
        Some(r) => Some(p.cfg.rules@[r]),
        None => None,
    }
}

/// File `i` has one name, and no other file has the same path.
pub open spec fn is_single(p: Pass, i: int) -> bool {
    &&& p.files@[i].nlink == 1
    &&& forall|j: int|
        0 <= j < p.files@.len() && j != i ==> paths::components((#[trigger] p.files@[j]).rel@)
            != paths::components(p.files@[i].rel@)
}

/// File `i` was modified less than the cooldown ago.
pub open spec fn is_fresh(p: Pass, i: int) -> bool {
    p.now - p.files@[i].mtime < p.cfg.mtime_cooldown_secs
}

/// File `i` was accessed less than its rule's window ago.
pub open spec fn is_recent(p: Pass, i: int) -> bool {
    rule_in_force(p, i) matches Some(r) && r.keep_secs matches Some(k) && p.now - p.files@[i].atime
        < k
}

/// File `i` may go to a slower tier: it is single, neither fresh nor recent, and no
/// rule pins it.
pub open spec fn may_sink(p: Pass, i: int) -> bool {
    &&& is_single(p, i)
    &&& !is_fresh(p, i)
    &&& !is_recent(p, i)
    &&& rule_in_force(p, i) matches Some(r) ==> r.pin is None
}

/// The tier of the branch that file `i` was found on.
pub open spec fn home(p: Pass, i: int) -> int {
    p.branches@[p.files@[i].branch as int].tier as int
}

proof fn lemma_asked(p: Pass, i: int)
    ensures
        plan::rule_at(p, i) == rule_in_force(p, i),
        plan::movable(p, i) == is_single(p, i),
        plan::cooling(p, i) == is_fresh(p, i),
        plan::kept(p, i) == is_recent(p, i),
        (plan::may_demote(p, i) && !plan::is_dup(p, i)) == may_sink(p, i),
        plan::home_tier(p, i) == home(p, i),
{
    if is_single(p, i) {
        assert(!plan::is_dup(p, i));
    }
    if p.files@[i].nlink == 1 && !plan::is_dup(p, i) {
        assert forall|j: int| 0 <= j < p.files@.len() && j != i implies paths::components(
            (#[trigger] p.files@[j]).rel@,
        ) != paths::components(p.files@[i].rel@) by {}
    }
}

/// The rule in force has the longest of the matching prefixes, and is the first that
/// has it.
pub proof fn first_longest_prefix_wins(rules: Seq<SubtreeRule>, rel: Seq<u8>, j: int)
    requires
        0 <= j < rules.len(),
        paths::is_under(rel, rules[j].rel@),
    ensures
        plan::longest_match(rules, rel) is Some,
        ({
            let g = plan::longest_match(rules, rel)->0;
            &&& 0 <= g < rules.len()
            &&& paths::is_under(rel, rules[g].rel@)
            &&& paths::components(rules[j].rel@).len() <= paths::components(rules[g].rel@).len()
            &&& j < g ==> paths::components(rules[j].rel@).len() < paths::components(
                rules[g].rel@,
            ).len()
        }),
    decreases rules.len(),
{
    plan::lemma_longest_match(rules, rel);
    let front = rules.drop_last();
    if j < rules.len() - 1 {
        assert(front[j] == rules[j]);
        first_longest_prefix_wins(front, rel, j);
        let b = plan::longest_match(front, rel)->0;
        assert(rules[b] == front[b]);
    }
}

// ---- candidates --------------------------------------------------------------------

proof fn lemma_contains(
    p: Pass,
    pred: spec_fn(usize) -> bool,
    leq: spec_fn(usize, usize) -> bool,
    i: usize,
)
    requires
        total_ordering(leq),
        i < p.files@.len(),
    ensures
        order::select(p.files@.len(), pred).sort_by(leq).contains(i) == pred(i),
{
    laws::lemma_candidates(p, pred, leq);
    let s = order::select(p.files@.len(), pred).sort_by(leq);
    if s.contains(i) {
        let k = choose|k: int| 0 <= k < s.len() && s[k] == i;
        assert(pred(s[k]));
    }
}

/// The files to be pushed down are those that may sink and are on a faster tier than
/// their rule's target.
pub proof fn pushed_are_above_their_target(p: Pass, d: Draft, i: usize)
    requires
        i < p.files@.len(),
    ensures
        plan::pushed(p, d).contains(i) <==> {
            &&& may_sink(p, i as int)
            &&& rule_in_force(p, i as int) matches Some(r) && r.aggressive_target matches Some(t)
                && plan::eff_tier(p, d, i as int) < t
        },
{
    lemma_asked(p, i as int);
    lemma_contains(p, |j: usize| plan::is_pushed(p, d, j), plan::coldest_first(p), i);
}

/// The files that can relieve a quota are those of the rule that may sink and are
/// not on the slowest tier.
pub proof fn surplus_is_above_the_slowest(p: Pass, d: Draft, ri: int, i: usize)
    requires
        i < p.files@.len(),
    ensures
        plan::surplus(p, d, ri).contains(i) <==> {
            &&& may_sink(p, i as int)
            &&& plan::longest_match(p.cfg.rules@, p.files@[i as int].rel@) == Some(ri)
            &&& plan::eff_tier(p, d, i as int) < p.cfg.tiers@.len() - 1
        },
{
    lemma_asked(p, i as int);
    lemma_contains(p, |j: usize| plan::is_surplus(p, d, ri, j), plan::coldest_first(p), i);
}

/// The files to bring back are those that were accessed within their rule's window,
/// are not on the fastest tier, are single and not fresh.
pub proof fn wanted_are_recent(p: Pass, d: Draft, i: usize)
    requires
        i < p.files@.len(),
    ensures
        plan::wanted(p, d).contains(i) <==> {
            &&& is_recent(p, i as int)
            &&& is_single(p, i as int)
            &&& !is_fresh(p, i as int)
            &&& plan::eff_tier(p, d, i as int) > 0
        },
{
    lemma_asked(p, i as int);
    lemma_contains(p, |j: usize| plan::is_wanted(p, d, j), plan::hottest_first(p), i);
}

/// The files that can relieve a tier are those found on it that have no move and may
/// sink.
pub proof fn load_is_what_may_sink(p: Pass, d: Draft, t: usize, i: usize)
    requires
        i < p.files@.len(),
    ensures
        plan::load(p, d, t).contains(i) <==> {
            &&& may_sink(p, i as int)
            &&& home(p, i as int) == t
            &&& d.planned[i as int] matches Some(u) ==> u == t
        },
{
    lemma_asked(p, i as int);
    lemma_contains(p, |j: usize| plan::is_load(p, d, t, j), plan::coldest_first(p), i);
}

/// Demotions take the coldest file first, promotions the hottest, and of files that
/// are equally warm the one that was found first.
pub proof fn temperature_decides(p: Pass, a: usize, b: usize)
    requires
        a < p.files@.len(),
        b < p.files@.len(),
    ensures
        p.temps@[a as int] < p.temps@[b as int] ==> plan::coldest_first(p)(a, b)
            && !plan::coldest_first(p)(b, a) && plan::hottest_first(p)(b, a)
            && !plan::hottest_first(p)(a, b),
        p.temps@[a as int] == p.temps@[b as int] ==> plan::coldest_first(p)(a, b) == (a <= b)
            && plan::hottest_first(p)(a, b) == (a <= b),
{
}

// ---- what the moves come to --------------------------------------------------------

/// The bytes that a list of moves takes off branch `b`.
pub open spec fn sent(moves: Seq<MoveView>, b: int) -> int
    decreases moves.len(),
{
    if moves.len() == 0 {
        0
    } else {
        sent(moves.drop_last(), b) + if moves.last().from == b {
            moves.last().size as int
        } else {
            0
        }
    }
}

/// The tier of each file once the moves, of the given files, have been made.
pub open spec fn tiers_after(p: Pass, who: Seq<usize>, moves: Seq<MoveView>) -> Seq<int>
    decreases moves.len(),
{
    if moves.len() == 0 {
        Seq::new(p.files@.len(), |i: int| home(p, i))
    } else {
        tiers_after(p, who.drop_last(), moves.drop_last()).update(
            who.last() as int,
            p.branches@[moves.last().to as int].tier as int,
        )
    }
}

/// What is left of the free space of branch `b` once it has received its moves; what
/// leaves it is not counted.
pub open spec fn free_left(p: Pass, moves: Seq<MoveView>, b: int) -> int {
    let left = p.usage@[b].free - laws::received(moves, b);
    if left < 0 {
        0
    } else {
        left
    }
}

/// The bytes in use on branch `b` once the moves have been made; the count stays
/// within its range.
pub open spec fn in_use(p: Pass, moves: Seq<MoveView>, b: int) -> int {
    let u = p.usage@[b];
    let now = if u.free <= u.total {
        u.total - u.free
    } else {
        0
    };
    let most = if now + laws::received(moves, b) <= u64::MAX {
        now + laws::received(moves, b)
    } else {
        u64::MAX as int
    };
    if sent(moves, b) <= most {
        most - sent(moves, b)
    } else {
        0
    }
}

/// The bytes in use on a tier, over the first `n` branches.
pub open spec fn tier_in_use(p: Pass, moves: Seq<MoveView>, tier: int, n: nat) -> int
    decreases n,
{
    if n == 0 {
        0
    } else if p.branches@[n - 1].tier == tier {
        tier_in_use(p, moves, tier, (n - 1) as nat) + in_use(p, moves, n - 1)
    } else {
        tier_in_use(p, moves, tier, (n - 1) as nat)
    }
}

/// The bytes that a tier can hold, over the first `n` branches.
pub open spec fn tier_bytes(p: Pass, tier: int, n: nat) -> int
    decreases n,
{
    if n == 0 {
        0
    } else if p.branches@[n - 1].tier == tier {
        tier_bytes(p, tier, (n - 1) as nat) + p.usage@[n - 1].total
    } else {
        tier_bytes(p, tier, (n - 1) as nat)
    }
}

/// The tier is filled, once the moves have been made, above so many percent.
pub open spec fn filled_above(p: Pass, moves: Seq<MoveView>, tier: int, percent: u32) -> bool {
    tier_in_use(p, moves, tier, p.branches@.len()) > tier_bytes(p, tier, p.branches@.len()) / 100
        * percent
}

/// The bytes of rule `ri` that are not on the slowest tier, over the first `n` files,
/// given the tier of each file.
pub open spec fn held_up(p: Pass, tiers: Seq<int>, ri: int, n: nat) -> int
    decreases n,
{
    if n == 0 {
        0
    } else if plan::longest_match(p.cfg.rules@, p.files@[n - 1].rel@) == Some(ri) && tiers[n - 1]
        < p.cfg.tiers@.len() - 1 {
        held_up(p, tiers, ri, (n - 1) as nat) + p.files@[n - 1].size
    } else {
        held_up(p, tiers, ri, (n - 1) as nat)
    }
}

/// Branch `b` of the tier keeps its headroom with the file.
pub open spec fn fits(p: Pass, moves: Seq<MoveView>, tier: int, size: u64, b: int) -> bool {
    &&& 0 <= b < p.branches@.len()
    &&& p.branches@[b].tier == tier
    &&& free_left(p, moves, b) >= size + p.cfg.min_free || free_left(p, moves, b) == u64::MAX
}

/// Of the branches that the file fits on, `d` has the most free space left; of equals
/// it is the last.
pub open spec fn best_branch(p: Pass, moves: Seq<MoveView>, tier: int, size: u64, d: int) -> bool {
    &&& fits(p, moves, tier, size, d)
    &&& forall|b: int| #[trigger]
        fits(p, moves, tier, size, b) ==> {
            ||| free_left(p, moves, b) < free_left(p, moves, d)
            ||| free_left(p, moves, b) == free_left(p, moves, d) && b <= d
        }
}

/// The budget allows for the file. (One beyond the signed range lets nothing through.)
pub open spec fn in_budget(p: Pass, moves: Seq<MoveView>, size: u64) -> bool {
    p.cfg.max_move_per_pass matches Some(max) ==> max <= i64::MAX && laws::carried(moves) + size
        <= max
}

/// The plan is what its moves come to.
spec fn mirrors(p: Pass, d: Draft) -> bool {
    &&& d.who.len() == d.moves.len()
    &&& tiers_after(p, d.who, d.moves).len() == p.files@.len()
    &&& forall|b: int|
        0 <= b < p.branches@.len() ==> #[trigger] d.incoming[b] == laws::received(d.moves, b)
            && d.outgoing[b] == sent(d.moves, b)
    &&& forall|i: int|
        0 <= i < p.files@.len() ==> plan::eff_tier(p, d, i) == #[trigger] tiers_after(
            p,
            d.who,
            d.moves,
        )[i]
    &&& forall|i: int|
        0 <= i < p.files@.len() && #[trigger] d.planned[i] is Some ==> d.who.contains(i as usize)
    &&& match p.cfg.max_move_per_pass {
        Some(max) => d.budget == Some((plan::signed(max) - laws::carried(d.moves)) as i64) && (if max
            <= i64::MAX {
            laws::carried(d.moves) <= max
        } else {
            d.moves.len() == 0
        }),
        None => d.budget is None,
    }
    &&& laws::carried(d.moves) >= 0
}

proof fn lemma_blank_mirrors(p: Pass)
    requires
        p.wf(),
    ensures
        mirrors(p, plan::blank(p)),
{
}

proof fn lemma_mirrors_step(p: Pass, d: Draft, i: int, t: usize, reason: Seq<char>)
    requires
        plan::shaped(p, d),
        mirrors(p, d),
        0 <= i < p.files@.len(),
    ensures
        mirrors(p, plan::with_move(p, d, i, t, reason)),
{
    let e = plan::with_move(p, d, i, t, reason);
    plan::lemma_with_move(p, d, i, t, reason);
    assert(p.files.len() == p.files@.len());
    assert(p.branches.len() == p.branches@.len());
    if plan::plannable(p, d, i, t) {
        let size = p.files@[i].size;
        plan::lemma_roomiest(p, d, t, size, p.branches@.len());
        let dst = plan::chosen(p, d, t, size)->0;
        assert(plan::takes(p, d, t, size, dst));
        assert(e.moves.drop_last() =~= d.moves);
        assert(e.who.drop_last() =~= d.who);
        assert forall|b: int| 0 <= b < p.branches@.len() implies #[trigger] e.incoming[b]
            == laws::received(e.moves, b) && e.outgoing[b] == sent(e.moves, b) by {
            assert(d.incoming[b] == laws::received(d.moves, b));
        }
        assert forall|j: int| 0 <= j < p.files@.len() implies plan::eff_tier(p, e, j)
            == #[trigger] tiers_after(p, e.who, e.moves)[j] by {
            assert(plan::eff_tier(p, d, j) == tiers_after(p, d.who, d.moves)[j]);
        }
        assert forall|j: int|
            0 <= j < p.files@.len() && #[trigger] e.planned[j] is Some implies e.who.contains(
            j as usize,
        ) by {
            if j == i {
                assert(e.who[d.who.len() as int] == j);
            } else {
                assert(d.planned[j] is Some);
                let k = choose|k: int| 0 <= k < d.who.len() && d.who[k] == j as usize;
                assert(e.who[k] == j as usize);
            }
        }
    }
}

proof fn lemma_used(p: Pass, d: Draft, tier: usize, n: nat)
    requires
        plan::shaped(p, d),
        mirrors(p, d),
        n <= p.branches@.len(),
    ensures
        plan::tier_use(p, d, tier, n) == tier_in_use(p, d.moves, tier as int, n),
        plan::tier_size(p, tier, n) == tier_bytes(p, tier as int, n),
    decreases n,
{
    if n > 0 {
        lemma_used(p, d, tier, (n - 1) as nat);
        assert(d.incoming[n - 1] == laws::received(d.moves, n - 1));
        assert(plan::projected_use(p, d, n - 1) == in_use(p, d.moves, n - 1));
    }
}

proof fn lemma_filled(p: Pass, d: Draft, tier: usize, percent: u32)
    requires
        plan::shaped(p, d),
        mirrors(p, d),
    ensures
        filled_above(p, d.moves, tier as int, percent) == (plan::used_on(p, d, tier) > plan::mark(
            p,
            tier,
            percent,
        )),
{
    lemma_used(p, d, tier, p.branches@.len());
}

proof fn lemma_held_up(p: Pass, d: Draft, ri: int, n: nat)
    requires
        plan::shaped(p, d),
        mirrors(p, d),
        n <= p.files@.len(),
    ensures
        plan::fast_bytes(p, d, ri, n) == held_up(p, tiers_after(p, d.who, d.moves), ri, n),
    decreases n,
{
    if n > 0 {
        lemma_held_up(p, d, ri, (n - 1) as nat);
        assert(plan::eff_tier(p, d, n - 1) == tiers_after(p, d.who, d.moves)[n - 1]);
    }
}

proof fn lemma_branch(p: Pass, d: Draft, t: usize, size: u64)
    requires
        plan::shaped(p, d),
        mirrors(p, d),
    ensures
        match plan::chosen(p, d, t, size) {
            Some(b) => 0 <= b < p.branches@.len() && best_branch(p, d.moves, t as int, size, b),
            None => forall|b: int| !#[trigger] fits(p, d.moves, t as int, size, b),
        },
{
    plan::lemma_roomiest(p, d, t, size, p.branches@.len());
    assert forall|b: int| 0 <= b < p.branches@.len() implies fits(p, d.moves, t as int, size, b)
        == #[trigger] plan::takes(p, d, t, size, b) && free_left(p, d.moves, b)
        == plan::projected_free(p, d, b) by {
        assert(d.incoming[b] == laws::received(d.moves, b));
    }
    match plan::chosen(p, d, t, size) {
        Some(x) => {
            assert(plan::takes(p, d, t, size, x));
            assert forall|b: int| #[trigger] fits(p, d.moves, t as int, size, b) implies {
                ||| free_left(p, d.moves, b) < free_left(p, d.moves, x)
                ||| free_left(p, d.moves, b) == free_left(p, d.moves, x) && b <= x
            } by {
                assert(plan::takes(p, d, t, size, b));
            }
        },
        None => {
            assert forall|b: int| !#[trigger] fits(p, d.moves, t as int, size, b) by {
                if 0 <= b < p.branches@.len() {
                    assert(!plan::takes(p, d, t, size, b));
                }
            }
        },
    }
}

/// A move can be planned exactly if the file has none, is on another tier, the budget
/// allows for it and some branch of the tier has room.
pub proof fn plannable_means_room(p: Pass, i: int, t: usize)
    requires
        p.wf(),
        0 <= i < p.files@.len(),
    ensures
        ({
            let d = plan::drafted(p);
            plan::plannable(p, d, i, t) <==> {
                &&& d.planned[i] is None
                &&& home(p, i) != t
                &&& in_budget(p, d.moves, p.files@[i].size)
                &&& exists|b: int| #[trigger] fits(p, d.moves, t as int, p.files@[i].size, b)
            }
        }),
{
    lemma_drafted_mirrors(p);
    lemma_plannable(p, plan::drafted(p), i, t);
}

proof fn lemma_plannable(p: Pass, d: Draft, i: int, t: usize)
    requires
        plan::shaped(p, d),
        mirrors(p, d),
        0 <= i < p.files@.len(),
    ensures
        plan::plannable(p, d, i, t) <==> {
            &&& d.planned[i] is None
            &&& home(p, i) != t
            &&& in_budget(p, d.moves, p.files@[i].size)
            &&& exists|b: int| #[trigger] fits(p, d.moves, t as int, p.files@[i].size, b)
        },
{
    let size = p.files@[i].size;
    lemma_branch(p, d, t, size);
    if let Some(b) = plan::chosen(p, d, t, size) {
        assert(fits(p, d.moves, t as int, size, b));
    }
    if d.moves.len() == 0 {
        assert(laws::carried(d.moves) == 0);
    }
}

proof fn lemma_drafted_mirrors(p: Pass)
    requires
        p.wf(),
    ensures
        plan::shaped(p, plan::drafted(p)),
        mirrors(p, plan::drafted(p)),
{
    let inv = |d: Draft| mirrors(p, d);
    assert forall|d: Draft, i: int, to_tier: usize, reason: Seq<char>|
        plan::shaped(p, d) && inv(d) && 0 <= i < p.files@.len() && plan::movable(p, i)
            && laws::justified(p, i, to_tier, reason) implies inv(
        #[trigger] plan::with_move(p, d, i, to_tier, reason),
    ) by {
        lemma_mirrors_step(p, d, i, to_tier, reason);
    }
    lemma_blank_mirrors(p);
    laws::lemma_pass_keeps(p, inv);
}

// ---- what each move is for ---------------------------------------------------------

/// A move onto the tier that the file's rule pins it to.
pub open spec fn pin_move(p: Pass, i: int, m: MoveView) -> bool {
    &&& m.reason == "pin"@
    &&& rule_in_force(p, i) matches Some(r) && r.pin == Some(p.branches@[m.to as int].tier)
}

/// A move down to the target of the file's rule.
pub open spec fn push_move(p: Pass, i: int, m: MoveView) -> bool {
    &&& m.reason == "aggressive"@
    &&& may_sink(p, i)
    &&& rule_in_force(p, i) matches Some(r) && r.aggressive_target == Some(
        p.branches@[m.to as int].tier,
    )
    &&& home(p, i) < p.branches@[m.to as int].tier
}

/// A move down to the slowest tier, because what the file's rule holds above it
/// exceeds the rule's quota.
pub open spec fn quota_move(
    p: Pass,
    who: Seq<usize>,
    moves: Seq<MoveView>,
    i: int,
    m: MoveView,
) -> bool {
    &&& m.reason == "quota"@
    &&& may_sink(p, i)
    &&& home(p, i) < p.cfg.tiers@.len() - 1 == p.branches@[m.to as int].tier
    &&& plan::longest_match(p.cfg.rules@, p.files@[i].rel@) matches Some(ri)
        && p.cfg.rules@[ri].quota matches Some(q) && held_up(
        p,
        tiers_after(p, who, moves),
        ri,
        p.files@.len(),
    ) > q
}

/// A move up to the fastest tier, because the file was accessed recently; the tier
/// stays within its high watermark. (Sums are cut off at the end of the range.)
pub open spec fn keep_move(p: Pass, moves: Seq<MoveView>, i: int, m: MoveView) -> bool {
    let all = p.branches@.len();
    let then = tier_in_use(p, moves, 0, all) + m.size;
    &&& m.reason == "keep-promote"@
    &&& is_recent(p, i)
    &&& !is_fresh(p, i)
    &&& home(p, i) > 0
    &&& p.branches@[m.to as int].tier == 0
    &&& (if then <= u64::MAX {
        then
    } else {
        u64::MAX as int
    }) <= tier_bytes(p, 0, all) / 100 * p.cfg.tiers@[0].high
}

/// A move one tier down, because the file's tier is above its low watermark and was
/// above its high one.
pub open spec fn drain_move(p: Pass, moves: Seq<MoveView>, i: int, m: MoveView) -> bool {
    let t = home(p, i);
    &&& m.reason == "watermark"@
    &&& may_sink(p, i)
    &&& t < p.cfg.tiers@.len() - 1
    &&& p.branches@[m.to as int].tier == t + 1
    &&& tier_bytes(p, t, p.branches@.len()) != 0
    &&& filled_above(p, moves, t, p.cfg.tiers@[t].low)
    &&& exists|q: int|
        0 <= q <= moves.len() && filled_above(
            p,
            #[trigger] moves.take(q),
            t,
            p.cfg.tiers@[t].high,
        )
}

/// The move is of file `i`, which is single and has none yet, off the branch where it
/// was found onto the best branch of another tier; the budget allows for it, and one
/// of the steps of a pass calls for it.
pub open spec fn called_for(
    p: Pass,
    who: Seq<usize>,
    moves: Seq<MoveView>,
    i: int,
    m: MoveView,
) -> bool {
    let f = p.files@[i];
    &&& 0 <= i < p.files@.len()
    &&& !who.contains(i as usize)
    &&& is_single(p, i)
    &&& m.rel == f.rel@ && m.size == f.size && m.from == f.branch
    &&& m.to < p.branches@.len() && p.branches@[m.to as int].tier != home(p, i)
    &&& best_branch(p, moves, p.branches@[m.to as int].tier as int, f.size, m.to as int)
    &&& in_budget(p, moves, f.size)
    &&& {
        ||| pin_move(p, i, m)
        ||| push_move(p, i, m)
        ||| quota_move(p, who, moves, i, m)
        ||| keep_move(p, moves, i, m)
        ||| drain_move(p, moves, i, m)
    }
}

/// The step plans a move of file `i` to the tier.
pub open spec fn attempt(p: Pass, step: int, d: Draft, i: int, t: usize, reason: Seq<char>) -> bool {
    &&& 0 <= i < p.files@.len()
    &&& is_single(p, i)
    &&& step == 0 ==> {
        &&& reason == "pin"@
        &&& rule_in_force(p, i) matches Some(r) && r.pin == Some(t)
    }
    &&& step == 1 ==> {
        &&& reason == "aggressive"@
        &&& may_sink(p, i)
        &&& rule_in_force(p, i) matches Some(r) && r.aggressive_target == Some(t)
        &&& d.planned[i] is None ==> home(p, i) < t
    }
    &&& step == 2 ==> {
        &&& reason == "quota"@
        &&& may_sink(p, i)
        &&& t == p.last()
        &&& d.planned[i] is None ==> home(p, i) < t
        &&& plan::longest_match(p.cfg.rules@, p.files@[i].rel@) matches Some(ri)
            && p.cfg.rules@[ri].quota matches Some(q) && plan::fast_bytes(
            p,
            d,
            ri,
            p.files@.len(),
        ) > q
    }
    &&& step == 3 ==> {
        &&& reason == "keep-promote"@
        &&& is_recent(p, i)
        &&& !is_fresh(p, i)
        &&& t == 0
        &&& d.planned[i] is None ==> home(p, i) > 0
        &&& plan::capped(plan::used_on(p, d, 0) + p.files@[i].size) <= plan::mark(
            p,
            0,
            p.cfg.tiers@[0].high,
        )
    }
    &&& step == 4 ==> {
        &&& reason == "watermark"@
        &&& may_sink(p, i)
        &&& home(p, i) < p.last()
        &&& t == home(p, i) + 1
        &&& plan::size_of(p, home(p, i) as usize) != 0
        &&& plan::used_on(p, d, home(p, i) as usize) > plan::mark(
            p,
            home(p, i) as usize,
            p.cfg.tiers@[home(p, i)].low,
        )
        &&& exists|q: int|
            0 <= q <= d.moves.len() && filled_above(
                p,
                #[trigger] d.moves.take(q),
                home(p, i),
                p.cfg.tiers@[home(p, i)].high,
            )
    }
}

/// Every attempt of the step keeps `inv`.
pub open spec fn step_keeps(p: Pass, step: int, inv: spec_fn(Draft) -> bool) -> bool {
    forall|d: Draft, i: int, t: usize, reason: Seq<char>|
        plan::shaped(p, d) && inv(d) && attempt(p, step, d, i, t, reason) ==> inv(
            #[trigger] plan::with_move(p, d, i, t, reason),
        )
}

/// The plan has the right shape, is what its moves come to, and `inv` holds of it.
spec fn good(p: Pass, inv: spec_fn(Draft) -> bool, d: Draft) -> bool {
    plan::shaped(p, d) && mirrors(p, d) && inv(d)
}

proof fn lemma_attempt(
    p: Pass,
    step: int,
    inv: spec_fn(Draft) -> bool,
    d: Draft,
    i: int,
    t: usize,
    reason: Seq<char>,
)
    requires
        step_keeps(p, step, inv),
        good(p, inv, d),
        attempt(p, step, d, i, t, reason),
    ensures
        good(p, inv, plan::with_move(p, d, i, t, reason)),
{
    plan::lemma_with_move(p, d, i, t, reason);
    lemma_mirrors_step(p, d, i, t, reason);
}

proof fn lemma_pins_step(p: Pass, inv: spec_fn(Draft) -> bool, d: Draft, n: nat)
    requires
        step_keeps(p, 0, inv),
        good(p, inv, d),
        n <= p.files@.len(),
    ensures
        good(p, inv, plan::after_pins(p, d, n)),
    decreases n,
{
    if n > 0 {
        lemma_pins_step(p, inv, d, (n - 1) as nat);
        let e = plan::after_pins(p, d, (n - 1) as nat);
        lemma_asked(p, n - 1);
        if let Some(r) = plan::rule_at(p, n - 1) {
            if let Some(t) = r.pin {
                if plan::eff_tier(p, e, n - 1) != t && plan::movable(p, n - 1) {
                    lemma_attempt(p, 0, inv, e, n - 1, t, "pin"@);
                }
            }
        }
    }
}

/// What was planned stays planned.
spec fn plans_on(d: Draft, e: Draft) -> bool {
    &&& d.planned.len() == e.planned.len()
    &&& forall|i: int| 0 <= i < d.planned.len() && d.planned[i] is Some ==> e.planned[i]
        == #[trigger] d.planned[i]
    &&& d.moves.len() <= e.moves.len()
    &&& e.moves.take(d.moves.len() as int) == d.moves
    &&& d.who.len() <= e.who.len()
    &&& e.who.take(d.who.len() as int) == d.who
}

proof fn lemma_plans_on_reflexive(d: Draft)
    ensures
        plans_on(d, d),
{
    assert(d.moves.take(d.moves.len() as int) =~= d.moves);
    assert(d.who.take(d.who.len() as int) =~= d.who);
}

proof fn lemma_plans_on_transitive(d: Draft, e: Draft, f: Draft)
    requires
        plans_on(d, e),
        plans_on(e, f),
    ensures
        plans_on(d, f),
{
    assert(f.moves.take(e.moves.len() as int).take(d.moves.len() as int) =~= f.moves.take(
        d.moves.len() as int,
    ));
    assert(f.who.take(e.who.len() as int).take(d.who.len() as int) =~= f.who.take(
        d.who.len() as int,
    ));
    assert forall|i: int| 0 <= i < d.planned.len() && d.planned[i] is Some implies f.planned[i]
        == #[trigger] d.planned[i] by {
        assert(e.planned[i] == d.planned[i]);
    }
}

proof fn lemma_plans_on_step(p: Pass, d: Draft, i: int, t: usize, reason: Seq<char>)
    requires
        0 <= i < d.planned.len(),
    ensures
        plans_on(d, plan::with_move(p, d, i, t, reason)),
{
    let e = plan::with_move(p, d, i, t, reason);
    assert(e.moves.take(d.moves.len() as int) =~= d.moves);
    assert(e.who.take(d.who.len() as int) =~= d.who);
}

/// A file that is still without a move is where it was found.
proof fn lemma_unplanned_home(p: Pass, start: Draft, d: Draft, i: int)
    requires
        plans_on(start, d),
        0 <= i < start.planned.len(),
        d.planned[i] is None,
    ensures
        plan::eff_tier(p, start, i) == home(p, i),
{
    if start.planned[i] is Some {
        assert(d.planned[i] == start.planned[i]);
    }
}

proof fn lemma_push_step(
    p: Pass,
    inv: spec_fn(Draft) -> bool,
    start: Draft,
    todo: Seq<usize>,
)
    requires
        step_keeps(p, 1, inv),
        good(p, inv, start),
        laws::all_files(p, todo, |i: usize| plan::is_pushed(p, start, i)),
    ensures
        good(p, inv, plan::after_push(p, start, todo)),
        plans_on(start, plan::after_push(p, start, todo)),
    decreases todo.len(),
{
    lemma_plans_on_reflexive(start);
    if todo.len() > 0 {
        let front = todo.drop_last();
        assert forall|k: int| 0 <= k < front.len() implies (#[trigger] front[k]) < p.files@.len()
            && plan::is_pushed(p, start, front[k]) by {
            assert(front[k] == todo[k]);
        }
        lemma_push_step(p, inv, start, front);
        let e = plan::after_push(p, start, front);
        let i = todo.last() as int;
        assert(todo[todo.len() - 1] == todo.last());
        assert(plan::is_pushed(p, start, todo[todo.len() - 1]));
        lemma_asked(p, i);
        let t = plan::push_target(p, i)->0;
        if e.planned[i] is None {
            lemma_unplanned_home(p, start, e, i);
        }
        lemma_attempt(p, 1, inv, e, i, t, "aggressive"@);
        lemma_plans_on_step(p, e, i, t, "aggressive"@);
        lemma_plans_on_transitive(start, e, plan::after_push(p, start, todo));
    }
}

proof fn lemma_cap_step(
    p: Pass,
    inv: spec_fn(Draft) -> bool,
    start: Draft,
    ri: int,
    quota: u64,
    todo: Seq<usize>,
)
    requires
        step_keeps(p, 2, inv),
        good(p, inv, start),
        0 <= ri < p.cfg.rules@.len(),
        p.cfg.rules@[ri].quota == Some(quota),
        laws::all_files(p, todo, |i: usize| plan::is_surplus(p, start, ri, i)),
    ensures
        ({
            let used = plan::fast_bytes(p, start, ri, p.files@.len());
            let e = plan::after_cap(p, start, used, quota, todo).0;
            good(p, inv, e) && plans_on(start, e)
        }),
    decreases todo.len(),
{
    lemma_plans_on_reflexive(start);
    if todo.len() > 0 {
        let used = plan::fast_bytes(p, start, ri, p.files@.len());
        let front = todo.drop_last();
        assert forall|k: int| 0 <= k < front.len() implies (#[trigger] front[k]) < p.files@.len()
            && plan::is_surplus(p, start, ri, front[k]) by {
            assert(front[k] == todo[k]);
        }
        lemma_cap_step(p, inv, start, ri, quota, front);
        laws::lemma_cap_done(p, start, ri, quota, front);
        let (e, left) = plan::after_cap(p, start, used, quota, front);
        let i = todo.last() as int;
        assert(todo[todo.len() - 1] == todo.last());
        assert(plan::is_surplus(p, start, ri, todo[todo.len() - 1]));
        assert(p.cfg.tiers.len() == p.cfg.tiers@.len());
        lemma_asked(p, i);
        let last = p.last() as usize;
        if !(left <= quota || !plan::plannable(p, e, i, last)) {
            lemma_unplanned_home(p, start, e, i);
            lemma_attempt(p, 2, inv, e, i, last, "quota"@);
            lemma_plans_on_step(p, e, i, last, "quota"@);
            lemma_plans_on_transitive(start, e, plan::with_move(p, e, i, last, "quota"@));
        }
    }
}

proof fn lemma_quotas_step(p: Pass, inv: spec_fn(Draft) -> bool, d: Draft, n: nat)
    requires
        step_keeps(p, 2, inv),
        good(p, inv, d),
        n <= p.cfg.rules@.len(),
    ensures
        good(p, inv, plan::after_quotas(p, d, n)),
        plans_on(d, plan::after_quotas(p, d, n)),
    decreases n,
{
    lemma_plans_on_reflexive(d);
    if n > 0 {
        lemma_quotas_step(p, inv, d, (n - 1) as nat);
        let e = plan::after_quotas(p, d, (n - 1) as nat);
        if let Some(q) = p.cfg.rules@[n - 1].quota {
            laws::lemma_candidates(
                p,
                |i: usize| plan::is_surplus(p, e, n - 1, i),
                plan::coldest_first(p),
            );
            lemma_cap_step(p, inv, e, n - 1, q, plan::surplus(p, e, n - 1));
            lemma_plans_on_transitive(d, e, plan::after_quotas(p, d, n));
        }
    }
}

proof fn lemma_promotion_step(
    p: Pass,
    inv: spec_fn(Draft) -> bool,
    start: Draft,
    d: Draft,
    todo: Seq<usize>,
)
    requires
        step_keeps(p, 3, inv),
        good(p, inv, d),
        plans_on(start, d),
        start.planned.len() == p.files@.len(),
        laws::all_files(p, todo, |i: usize| plan::is_wanted(p, start, i)),
    ensures
        good(p, inv, plan::after_promotion(p, d, todo)),
        plans_on(start, plan::after_promotion(p, d, todo)),
    decreases todo.len(),
{
    if todo.len() > 0 && !(plan::capped(plan::used_on(p, d, 0) + p.files@[todo[0] as int].size)
        > plan::mark(p, 0, p.cfg.tiers@[0].high)) {
        let i = todo[0] as int;
        assert(plan::is_wanted(p, start, todo[0]));
        lemma_asked(p, i);
        if d.planned[i] is None {
            lemma_unplanned_home(p, start, d, i);
        }
        let e = plan::with_move(p, d, i, 0, "keep-promote"@);
        lemma_attempt(p, 3, inv, d, i, 0, "keep-promote"@);
        lemma_plans_on_step(p, d, i, 0, "keep-promote"@);
        lemma_plans_on_transitive(start, d, e);
        let rest = todo.skip(1);
        assert forall|k: int| 0 <= k < rest.len() implies (#[trigger] rest[k]) < p.files@.len()
            && plan::is_wanted(p, start, rest[k]) by {
            assert(rest[k] == todo[k + 1]);
        }
        lemma_promotion_step(p, inv, start, e, rest);
    }
}

proof fn lemma_drain_step(
    p: Pass,
    inv: spec_fn(Draft) -> bool,
    start: Draft,
    t: usize,
    todo: Seq<usize>,
)
    requires
        step_keeps(p, 4, inv),
        good(p, inv, start),
        t < p.last(),
        plan::size_of(p, t) != 0,
        plan::used_on(p, start, t) > plan::mark(p, t, p.cfg.tiers@[t as int].high),
        laws::all_files(p, todo, |i: usize| plan::is_load(p, start, t, i)),
    ensures
        good(p, inv, plan::after_drain(p, start, t, todo)),
        plans_on(start, plan::after_drain(p, start, t, todo)),
    decreases todo.len(),
{
    lemma_plans_on_reflexive(start);
    if todo.len() > 0 {
        let front = todo.drop_last();
        assert forall|k: int| 0 <= k < front.len() implies (#[trigger] front[k]) < p.files@.len()
            && plan::is_load(p, start, t, front[k]) by {
            assert(front[k] == todo[k]);
        }
        lemma_drain_step(p, inv, start, t, front);
        let e = plan::after_drain(p, start, t, front);
        let i = todo.last() as int;
        assert(todo[todo.len() - 1] == todo.last());
        assert(plan::is_load(p, start, t, todo[todo.len() - 1]));
        assert(p.cfg.tiers.len() == p.cfg.tiers@.len());
        lemma_asked(p, i);
        if !(plan::used_on(p, e, t) <= plan::mark(p, t, p.cfg.tiers@[t as int].low)) {
            let next = (t + 1) as usize;
            lemma_filled(p, start, t, p.cfg.tiers@[t as int].high);
            let q = start.moves.len() as int;
            assert(e.moves.take(q) == start.moves);
            assert(filled_above(p, e.moves.take(q), home(p, i), p.cfg.tiers@[home(p, i)].high));
            lemma_attempt(p, 4, inv, e, i, next, "watermark"@);
            lemma_plans_on_step(p, e, i, next, "watermark"@);
            lemma_plans_on_transitive(start, e, plan::with_move(p, e, i, next, "watermark"@));
        }
    }
}

proof fn lemma_watermarks_step(p: Pass, inv: spec_fn(Draft) -> bool, d: Draft, n: nat)
    requires
        step_keeps(p, 4, inv),
        good(p, inv, d),
        n <= p.last(),
    ensures
        good(p, inv, plan::after_watermarks(p, d, n)),
        plans_on(d, plan::after_watermarks(p, d, n)),
    decreases n,
{
    lemma_plans_on_reflexive(d);
    if n > 0 {
        lemma_watermarks_step(p, inv, d, (n - 1) as nat);
        let e = plan::after_watermarks(p, d, (n - 1) as nat);
        assert(p.cfg.tiers.len() == p.cfg.tiers@.len());
        let t = (n - 1) as usize;
        laws::lemma_candidates(p, |i: usize| plan::is_load(p, e, t, i), plan::coldest_first(p));
        if !(plan::size_of(p, t) == 0 || plan::used_on(p, e, t) <= plan::mark(
            p,
            t,
            p.cfg.tiers@[n - 1].high,
        )) {
            lemma_drain_step(p, inv, e, t, plan::load(p, e, t));
            lemma_plans_on_transitive(d, e, plan::after_watermarks(p, d, n));
        }
    }
}

/// What holds of the empty plan, and is kept by each step, holds of the whole plan;
/// and the steps build on each other.
proof fn lemma_steps(p: Pass, inv: spec_fn(Draft) -> bool)
    requires
        p.wf(),
        step_keeps(p, 0, inv),
        step_keeps(p, 1, inv),
        step_keeps(p, 2, inv),
        step_keeps(p, 3, inv),
        step_keeps(p, 4, inv),
        inv(plan::blank(p)),
    ensures
        good(p, inv, plan::gathered(p)),
        good(p, inv, plan::lowered(p)),
        good(p, inv, plan::curbed(p)),
        good(p, inv, plan::promoted(p)),
        good(p, inv, plan::drafted(p)),
        plans_on(plan::gathered(p), plan::lowered(p)),
        plans_on(plan::lowered(p), plan::curbed(p)),
        plans_on(plan::curbed(p), plan::promoted(p)),
        plans_on(plan::promoted(p), plan::drafted(p)),
{
    plan::lemma_blank_shaped(p);
    lemma_blank_mirrors(p);
    lemma_pins_step(p, inv, plan::blank(p), p.files@.len());
    let pins = plan::gathered(p);
    laws::lemma_candidates(p, |i: usize| plan::is_pushed(p, pins, i), plan::coldest_first(p));
    lemma_push_step(p, inv, pins, plan::pushed(p, pins));
    lemma_quotas_step(p, inv, plan::lowered(p), p.cfg.rules@.len());
    let curbed = plan::curbed(p);
    laws::lemma_candidates(p, |i: usize| plan::is_wanted(p, curbed, i), plan::hottest_first(p));
    lemma_plans_on_reflexive(curbed);
    lemma_promotion_step(p, inv, curbed, curbed, plan::wanted(p, curbed));
    lemma_watermarks_step(p, inv, plan::promoted(p), p.last() as nat);
}

/// Every move is called for by what the moves before it come to.
spec fn all_called_for(p: Pass, d: Draft) -> bool {
    &&& mirrors(p, d)
    &&& forall|k: int| 0 <= k < d.who.len() ==> d.planned[#[trigger] d.who[k] as int] is Some
    &&& forall|k: int|
        0 <= k < d.moves.len() ==> called_for(
            p,
            d.who.take(k),
            d.moves.take(k),
            d.who[k] as int,
            #[trigger] d.moves[k],
        )
}

proof fn lemma_move_called_for(
    p: Pass,
    step: int,
    d: Draft,
    i: int,
    t: usize,
    reason: Seq<char>,
)
    requires
        plan::shaped(p, d),
        all_called_for(p, d),
        attempt(p, step, d, i, t, reason),
        plan::plannable(p, d, i, t),
        0 <= step < 5,
    ensures
        called_for(p, d.who, d.moves, i, plan::with_move(p, d, i, t, reason).moves.last()),
{
    let m = plan::with_move(p, d, i, t, reason).moves.last();
    let size = p.files@[i].size;
    assert(p.files.len() == p.files@.len());
    assert(p.branches.len() == p.branches@.len());
    assert(p.cfg.tiers.len() == p.cfg.tiers@.len());
    lemma_plannable(p, d, i, t);
    lemma_branch(p, d, t, size);
    let dst = plan::chosen(p, d, t, size)->0;
    assert(m.to == dst);
    assert(fits(p, d.moves, t as int, size, dst));
    assert(!d.who.contains(i as usize)) by {
        if d.who.contains(i as usize) {
            let k = choose|k: int| 0 <= k < d.who.len() && d.who[k] == i as usize;
            assert(d.planned[d.who[k] as int] is Some);
        }
    }
    if step == 0 {
        assert(pin_move(p, i, m));
    } else if step == 1 {
        assert(push_move(p, i, m));
    } else if step == 2 {
        let ri = plan::longest_match(p.cfg.rules@, p.files@[i].rel@)->0;
        lemma_held_up(p, d, ri, p.files@.len());
        assert(quota_move(p, d.who, d.moves, i, m));
    } else if step == 3 {
        lemma_used(p, d, 0, p.branches@.len());
        lemma_in_use_bound(p, d.moves, 0, p.branches@.len());
        assert(keep_move(p, d.moves, i, m));
    } else {
        lemma_used(p, d, home(p, i) as usize, p.branches@.len());
        lemma_filled(p, d, home(p, i) as usize, p.cfg.tiers@[home(p, i)].low);
        assert(drain_move(p, d.moves, i, m));
    }
}

proof fn lemma_in_use_bound(p: Pass, moves: Seq<MoveView>, tier: int, n: nat)
    ensures
        tier_in_use(p, moves, tier, n) >= 0,
    decreases n,
{
    if n > 0 {
        lemma_in_use_bound(p, moves, tier, (n - 1) as nat);
    }
}

proof fn lemma_called_for_kept(p: Pass, step: int)
    requires
        0 <= step < 5,
    ensures
        step_keeps(p, step, |d: Draft| all_called_for(p, d)),
{
    let inv = |d: Draft| all_called_for(p, d);
    assert forall|d: Draft, i: int, t: usize, reason: Seq<char>|
        plan::shaped(p, d) && inv(d) && attempt(p, step, d, i, t, reason) implies inv(
        #[trigger] plan::with_move(p, d, i, t, reason),
    ) by {
        let e = plan::with_move(p, d, i, t, reason);
        lemma_mirrors_step(p, d, i, t, reason);
        if plan::plannable(p, d, i, t) {
            lemma_move_called_for(p, step, d, i, t, reason);
            assert(p.files.len() == p.files@.len());
            let n = d.moves.len() as int;
            assert forall|k: int| 0 <= k < e.who.len() implies e.planned[
                #[trigger] e.who[k] as int
            ] is Some by {
                if k < n {
                    assert(e.who[k] == d.who[k]);
                    assert(d.planned[d.who[k] as int] is Some);
                    assert(called_for(p, d.who.take(k), d.moves.take(k), d.who[k] as int, d.moves[k]));
                }
            }
            assert forall|k: int| 0 <= k < e.moves.len() implies called_for(
                p,
                e.who.take(k),
                e.moves.take(k),
                e.who[k] as int,
                #[trigger] e.moves[k],
            ) by {
                if k < n {
                    assert(e.who.take(k) =~= d.who.take(k));
                    assert(e.moves.take(k) =~= d.moves.take(k));
                    assert(e.moves[k] == d.moves[k]);
                    assert(e.who[k] == d.who[k]);
                } else {
                    assert(e.who.take(k) =~= d.who);
                    assert(e.moves.take(k) =~= d.moves);
                    assert(e.moves[k] == e.moves.last());
                }
            }
        }
    }
}

proof fn lemma_all_steps(p: Pass)
    requires
        p.wf(),
    ensures
        good(p, |d: Draft| all_called_for(p, d), plan::gathered(p)),
        good(p, |d: Draft| all_called_for(p, d), plan::lowered(p)),
        good(p, |d: Draft| all_called_for(p, d), plan::curbed(p)),
        good(p, |d: Draft| all_called_for(p, d), plan::promoted(p)),
        good(p, |d: Draft| all_called_for(p, d), plan::drafted(p)),
        plans_on(plan::gathered(p), plan::lowered(p)),
        plans_on(plan::lowered(p), plan::curbed(p)),
        plans_on(plan::curbed(p), plan::promoted(p)),
        plans_on(plan::promoted(p), plan::drafted(p)),
{
    let inv = |d: Draft| all_called_for(p, d);
    lemma_called_for_kept(p, 0);
    lemma_called_for_kept(p, 1);
    lemma_called_for_kept(p, 2);
    lemma_called_for_kept(p, 3);
    lemma_called_for_kept(p, 4);
    lemma_blank_mirrors(p);
    lemma_steps(p, inv);
}

/// Every move of a pass is of a single file, as it was found, to the best branch of
/// another tier; and it is called for by what the moves before it come to: a rule pins
/// the file to that tier; or pushes it down; or holds more than its quota above the
/// slowest tier; or the file was accessed recently and the fastest tier has room; or
/// its tier is too full. A file only goes down if it is neither fresh, recent nor
/// pinned.
pub proof fn every_move_is_called_for(p: Pass, k: int)
    requires
        p.wf(),
        0 <= k < plan::drafted(p).moves.len(),
    ensures
        plan::drafted(p).who.len() == plan::drafted(p).moves.len(),
        called_for(
            p,
            plan::drafted(p).who.take(k),
            plan::drafted(p).moves.take(k),
            plan::drafted(p).who[k] as int,
            plan::drafted(p).moves[k],
        ),
{
    lemma_all_steps(p);
    assert(plan::drafted(p).moves[k].size >= 0);
}

// ---- what a pass leaves undone -----------------------------------------------------

/// At the end of a pass a tier is within one of its watermarks, or every file on it
/// that may still sink lacks budget or room on the next tier.
pub proof fn full_tiers_are_drained(p: Pass, t: int)
    requires
        p.wf(),
        0 <= t < p.cfg.tiers@.len() - 1,
        tier_bytes(p, t, p.branches@.len()) != 0,
        filled_above(p, plan::drafted(p).moves, t, p.cfg.tiers@[t].high),
        filled_above(p, plan::drafted(p).moves, t, p.cfg.tiers@[t].low),
    ensures
        forall|i: int, b: int|
            0 <= i < p.files@.len() && home(p, i) == t && may_sink(p, i)
                && !plan::drafted(p).who.contains(i as usize) && in_budget(
                p,
                plan::drafted(p).moves,
                p.files@[i].size,
            ) ==> !#[trigger] fits(p, plan::drafted(p).moves, t + 1, p.files@[i].size, b),
{
    let d = plan::drafted(p);
    assert(p.files.len() == p.files@.len());
    assert(p.cfg.tiers.len() == p.cfg.tiers@.len());
    lemma_drafted_mirrors(p);
    laws::tiers_are_settled(p, t);
    lemma_used(p, d, t as usize, p.branches@.len());
    lemma_filled(p, d, t as usize, p.cfg.tiers@[t].high);
    lemma_filled(p, d, t as usize, p.cfg.tiers@[t].low);
    assert forall|i: int, b: int|
        0 <= i < p.files@.len() && home(p, i) == t && may_sink(p, i) && !d.who.contains(i as usize)
            && in_budget(p, d.moves, p.files@[i].size) implies !#[trigger] fits(
        p,
        d.moves,
        t + 1,
        p.files@[i].size,
        b,
    ) by {
        lemma_asked(p, i);
        lemma_plannable(p, d, i, (t + 1) as usize);
        if d.planned[i] is Some {
            assert(d.who.contains(i as usize));
        }
        assert(plan::is_load(p, d, t as usize, i as usize));
    }
}

/// A tier that is above its high watermark when its turn comes is drained down to its low
/// one; unless every file on it that may still sink lacks budget or room on the next
/// tier.
pub proof fn full_tiers_reach_the_low_mark(p: Pass, t: int)
    requires
        p.wf(),
        0 <= t < p.cfg.tiers@.len() - 1,
        tier_bytes(p, t, p.branches@.len()) != 0,
        filled_above(
            p,
            plan::after_watermarks(p, plan::promoted(p), t as nat).moves,
            t,
            p.cfg.tiers@[t].high,
        ),
    ensures
        ({
            let e = plan::after_watermarks(p, plan::promoted(p), (t + 1) as nat);
            ||| !filled_above(p, e.moves, t, p.cfg.tiers@[t].low)
            ||| forall|i: int, b: int|
                0 <= i < p.files@.len() && home(p, i) == t && may_sink(p, i) && !e.who.contains(
                    i as usize,
                ) && in_budget(p, e.moves, p.files@[i].size) ==> !#[trigger] fits(
                    p,
                    e.moves,
                    t + 1,
                    p.files@[i].size,
                    b,
                )
        }),
{
    let inv = |x: Draft| all_called_for(p, x);
    let d = plan::after_watermarks(p, plan::promoted(p), t as nat);
    let e = plan::after_watermarks(p, plan::promoted(p), (t + 1) as nat);
    let u = t as usize;
    assert(p.files.len() == p.files@.len());
    assert(p.cfg.tiers.len() == p.cfg.tiers@.len());
    lemma_all_steps(p);
    lemma_called_for_kept(p, 4);
    lemma_watermarks_step(p, inv, plan::promoted(p), t as nat);
    lemma_watermarks_step(p, inv, plan::promoted(p), (t + 1) as nat);
    lemma_used(p, d, u, p.branches@.len());
    lemma_filled(p, d, u, p.cfg.tiers@[t].high);
    lemma_filled(p, e, u, p.cfg.tiers@[t].low);
    let pred = |i: usize| plan::is_load(p, d, u, i);
    laws::lemma_candidates(p, pred, plan::coldest_first(p));
    let todo = plan::load(p, d, u);
    assert(e == plan::after_drain(p, d, u, todo));
    laws::lemma_drain_done(p, d, u, todo);
    lemma_drain_step(p, inv, d, u, todo);
    if filled_above(p, e.moves, t, p.cfg.tiers@[t].low) {
        assert forall|i: int, b: int|
            0 <= i < p.files@.len() && home(p, i) == t && may_sink(p, i) && !e.who.contains(
                i as usize,
            ) && in_budget(p, e.moves, p.files@[i].size) implies !#[trigger] fits(
            p,
            e.moves,
            t + 1,
            p.files@[i].size,
            b,
        ) by {
            lemma_asked(p, i);
            lemma_plannable(p, e, i, (t + 1) as usize);
            if e.planned[i] is Some {
                assert(e.who.contains(i as usize));
            }
            lemma_unplanned_home(p, d, e, i);
            assert(pred(i as usize));
            assert(todo.contains(i as usize));
            let k = choose|k: int| 0 <= k < todo.len() && todo[k] == i as usize;
            assert(!plan::plannable(p, e, todo[k] as int, (t + 1) as usize));
        }
    }
}

/// After `n` moves of the plan the files of rule `ri` above the slowest tier are
/// within its quota, or none of them that may sink can still be moved down.
pub open spec fn quota_is_done(p: Pass, d: Draft, ri: int, n: int) -> bool {
    let moves = d.moves.take(n);
    let who = d.who.take(n);
    let tiers = tiers_after(p, who, moves);
    &&& 0 <= n <= d.moves.len()
    &&& p.cfg.rules@[ri].quota matches Some(q) ==> {
        ||| held_up(p, tiers, ri, p.files@.len()) <= q
        ||| forall|i: int, b: int|
            0 <= i < p.files@.len() && plan::longest_match(p.cfg.rules@, p.files@[i].rel@) == Some(
                ri,
            ) && home(p, i) < p.cfg.tiers@.len() - 1 && may_sink(p, i) && !who.contains(i as usize)
                && in_budget(p, moves, p.files@[i].size) ==> !#[trigger] fits(
                p,
                moves,
                p.cfg.tiers@.len() - 1,
                p.files@[i].size,
                b,
            )
    }
}

/// The quota of every rule is enforced: at some point of the plan its files above the
/// slowest tier are within it, or none of them that may sink can still be moved down.
#[verifier::rlimit(50)]
pub proof fn every_quota_is_enforced(p: Pass, ri: int)
    requires
        p.wf(),
        0 <= ri < p.cfg.rules@.len(),
    ensures
        exists|n: int| #[trigger] quota_is_done(p, plan::drafted(p), ri, n),
{
    let d = plan::drafted(p);
    let e = plan::curbed(p);
    assert(p.files.len() == p.files@.len());
    assert(p.cfg.tiers.len() == p.cfg.tiers@.len());
    lemma_all_steps(p);
    lemma_plans_on_transitive(e, plan::promoted(p), d);
    laws::quotas_are_settled(p, ri);
    lemma_held_up(p, e, ri, p.files@.len());
    let n = e.moves.len() as int;
    assert(d.moves.take(n) == e.moves && d.who.take(n) == e.who);
    if let Some(q) = p.cfg.rules@[ri].quota {
        if plan::fast_bytes(p, e, ri, p.files@.len()) > q {
            assert forall|i: int, b: int|
                0 <= i < p.files@.len() && plan::longest_match(p.cfg.rules@, p.files@[i].rel@)
                    == Some(ri) && home(p, i) < p.cfg.tiers@.len() - 1 && may_sink(p, i)
                    && !e.who.contains(i as usize) && in_budget(
                    p,
                    e.moves,
                    p.files@[i].size,
                ) implies !#[trigger] fits(
                p,
                e.moves,
                p.cfg.tiers@.len() - 1,
                p.files@[i].size,
                b,
            ) by {
                lemma_asked(p, i);
                lemma_plannable(p, e, i, p.last() as usize);
                if e.planned[i] is Some {
                    assert(e.who.contains(i as usize));
                }
                assert(plan::is_surplus(p, e, ri, i as usize));
            }
        }
    }
    assert(quota_is_done(p, d, ri, n));
}

/// After `n` moves of the plan file `i` has its turn to go to the tier: it is moved
/// next, for this reason, or there is no budget or no room for it.
pub open spec fn has_its_turn(
    p: Pass,
    d: Draft,
    i: int,
    t: int,
    reason: Seq<char>,
    n: int,
) -> bool {
    &&& 0 <= n <= d.moves.len()
    &&& {
        ||| n < d.moves.len() && d.who[n] == i && d.moves[n].reason == reason
            && p.branches@[d.moves[n].to as int].tier == t
        ||| !in_budget(p, d.moves.take(n), p.files@[i].size)
        ||| forall|b: int| !#[trigger] fits(p, d.moves.take(n), t, p.files@[i].size, b)
    }
}

proof fn lemma_turn(p: Pass, e: Draft, d: Draft, i: int, t: usize, reason: Seq<char>)
    requires
        plan::shaped(p, e),
        mirrors(p, e),
        0 <= i < p.files@.len(),
        e.planned[i] is None,
        home(p, i) != t,
        plans_on(plan::with_move(p, e, i, t, reason), d),
    ensures
        has_its_turn(p, d, i, t as int, reason, e.moves.len() as int),
{
    let n = e.moves.len() as int;
    let f = plan::with_move(p, e, i, t, reason);
    assert(p.files.len() == p.files@.len());
    assert(p.branches.len() == p.branches@.len());
    lemma_plannable(p, e, i, t);
    lemma_branch(p, e, t, p.files@[i].size);
    lemma_plans_on_step(p, e, i, t, reason);
    lemma_plans_on_transitive(e, f, d);
    if plan::plannable(p, e, i, t) {
        assert(d.moves[n] == f.moves[n]) by {
            assert(d.moves.take(f.moves.len() as int)[n] == d.moves[n]);
        }
        assert(d.who[n] == f.who[n]) by {
            assert(d.who.take(f.who.len() as int)[n] == d.who[n]);
        }
    } else if in_budget(p, e.moves, p.files@[i].size) {
        assert forall|b: int| !#[trigger] fits(
            p,
            d.moves.take(n),
            t as int,
            p.files@[i].size,
            b,
        ) by {
            assert(d.moves.take(n) == e.moves);
        }
    }
}

proof fn lemma_pins_go_on(p: Pass, d: Draft, k: nat, n: nat)
    requires
        plan::shaped(p, d),
        k <= n <= p.files@.len(),
    ensures
        plans_on(plan::after_pins(p, d, k), plan::after_pins(p, d, n)),
    decreases n,
{
    if k == n {
        lemma_plans_on_reflexive(plan::after_pins(p, d, n));
    } else {
        lemma_pins_go_on(p, d, k, (n - 1) as nat);
        let e = plan::after_pins(p, d, (n - 1) as nat);
        laws::lemma_pins_keep(p, |x: Draft| true, d, (n - 1) as nat);
        lemma_plans_on_reflexive(e);
        if let Some(r) = plan::rule_at(p, n - 1) {
            if let Some(t) = r.pin {
                lemma_plans_on_step(p, e, n - 1, t, "pin"@);
            }
        }
        lemma_plans_on_transitive(plan::after_pins(p, d, k), e, plan::after_pins(p, d, n));
    }
}

/// The first `n` files only are given a move.
proof fn lemma_pins_ahead(p: Pass, n: nat, i: int)
    requires
        p.wf(),
        n <= i < p.files@.len(),
    ensures
        plan::after_pins(p, plan::blank(p), n).planned[i] is None,
        plan::after_pins(p, plan::blank(p), n).planned.len() == p.files@.len(),
    decreases n,
{
    if n > 0 {
        lemma_pins_ahead(p, (n - 1) as nat, i);
    }
}

/// Every single file that is found on another tier than its rule pins it to is moved
/// there, unless there is no budget or no room when its turn comes.
#[verifier::rlimit(50)]
pub proof fn strays_are_gathered(p: Pass, i: int, t: usize)
    requires
        p.wf(),
        0 <= i < p.files@.len(),
        is_single(p, i),
        rule_in_force(p, i) matches Some(r) && r.pin == Some(t),
        home(p, i) != t,
    ensures
        exists|n: int| #[trigger]
            has_its_turn(p, plan::drafted(p), i, t as int, "pin"@, n),
{
    let blank = plan::blank(p);
    let d = plan::drafted(p);
    let e = plan::after_pins(p, blank, i as nat);
    let f = plan::after_pins(p, blank, (i + 1) as nat);
    lemma_asked(p, i);
    lemma_pins_ahead(p, i as nat, i);
    plan::lemma_blank_shaped(p);
    lemma_all_steps(p);
    lemma_called_for_kept(p, 0);
    lemma_blank_mirrors(p);
    lemma_pins_step(p, |x: Draft| all_called_for(p, x), blank, i as nat);
    assert(f == plan::with_move(p, e, i, t, "pin"@));
    lemma_pins_go_on(p, blank, (i + 1) as nat, p.files@.len());
    lemma_plans_on_transitive(f, plan::gathered(p), plan::lowered(p));
    lemma_plans_on_transitive(f, plan::lowered(p), plan::curbed(p));
    lemma_plans_on_transitive(f, plan::curbed(p), plan::promoted(p));
    lemma_plans_on_transitive(f, plan::promoted(p), d);
    lemma_turn(p, e, d, i, t, "pin"@);
}

proof fn lemma_push_goes_on(p: Pass, start: Draft, todo: Seq<usize>, q: int)
    requires
        plan::shaped(p, start),
        0 <= q <= todo.len(),
        laws::all_files(p, todo, |i: usize| plan::is_pushed(p, start, i)),
    ensures
        plans_on(plan::after_push(p, start, todo.take(q)), plan::after_push(p, start, todo)),
    decreases todo.len(),
{
    if q == todo.len() {
        assert(todo.take(q) =~= todo);
        lemma_plans_on_reflexive(plan::after_push(p, start, todo));
    } else {
        let front = todo.drop_last();
        assert forall|k: int| 0 <= k < front.len() implies (#[trigger] front[k]) < p.files@.len()
            && plan::is_pushed(p, start, front[k]) by {
            assert(front[k] == todo[k]);
        }
        assert(front.take(q) =~= todo.take(q));
        lemma_push_goes_on(p, start, front, q);
        let e = plan::after_push(p, start, front);
        laws::lemma_push_keeps(p, |x: Draft| true, start, start, front);
        assert(todo[todo.len() - 1] == todo.last());
        let i = todo.last() as int;
        assert(plan::is_pushed(p, start, todo[todo.len() - 1]));
        lemma_plans_on_step(p, e, i, plan::push_target(p, i)->0, "aggressive"@);
        lemma_plans_on_transitive(
            plan::after_push(p, start, todo.take(q)),
            e,
            plan::after_push(p, start, todo),
        );
    }
}

/// Every file that may sink and is found on a faster tier than the one its rule
/// pushes it down to is moved there, unless there is no budget or no room when its turn
/// comes.
#[verifier::rlimit(50)]
pub proof fn aggressive_subtrees_are_pushed(p: Pass, i: int, t: usize)
    requires
        p.wf(),
        0 <= i < p.files@.len(),
        may_sink(p, i),
        rule_in_force(p, i) matches Some(r) && r.aggressive_target == Some(t),
        home(p, i) < t,
    ensures
        exists|n: int| #[trigger]
            has_its_turn(p, plan::drafted(p), i, t as int, "aggressive"@, n),
{
    let d = plan::drafted(p);
    let start = plan::gathered(p);
    assert(p.files.len() == p.files@.len());
    lemma_asked(p, i);
    lemma_all_steps(p);
    lemma_unpinned(p, i, p.files@.len());
    assert(start.planned[i] is None);
    let pred = |j: usize| plan::is_pushed(p, start, j);
    laws::lemma_candidates(p, pred, plan::coldest_first(p));
    let todo = plan::pushed(p, start);
    assert(pred(i as usize));
    assert(todo.contains(i as usize));
    let q = lemma_first_at(todo, i as usize);
    let e = plan::after_push(p, start, todo.take(q));
    let f = plan::after_push(p, start, todo.take(q + 1));
    assert(todo.take(q + 1).drop_last() =~= todo.take(q));
    assert(todo.take(q + 1).last() == todo[q]);
    assert(f == plan::with_move(p, e, i, t, "aggressive"@));
    lemma_called_for_kept(p, 1);
    assert forall|k: int| 0 <= k < todo.take(q).len() implies (#[trigger] todo.take(q)[k])
        < p.files@.len() && plan::is_pushed(p, start, todo.take(q)[k]) by {
        assert(todo.take(q)[k] == todo[k]);
    }
    lemma_push_step(p, |x: Draft| all_called_for(p, x), start, todo.take(q));
    lemma_push_ahead(p, start, todo.take(q), i);
    lemma_push_goes_on(p, start, todo, q + 1);
    lemma_plans_on_transitive(f, plan::lowered(p), plan::curbed(p));
    lemma_plans_on_transitive(f, plan::curbed(p), plan::promoted(p));
    lemma_plans_on_transitive(f, plan::promoted(p), d);
    lemma_turn(p, e, d, i, t, "aggressive"@);
}

/// Where an entry stands first.
proof fn lemma_first_at(s: Seq<usize>, x: usize) -> (q: int)
    requires
        s.contains(x),
    ensures
        0 <= q < s.len(),
        s[q] == x,
        forall|k: int| 0 <= k < q ==> s[k] != x,
    decreases s.len(),
{
    if s.drop_last().contains(x) {
        let q = lemma_first_at(s.drop_last(), x);
        assert forall|k: int| 0 <= k < q implies s[k] != x by {
            assert(s.drop_last()[k] == s[k]);
        }
        q
    } else {
        let j = choose|j: int| 0 <= j < s.len() && s[j] == x;
        assert forall|k: int| 0 <= k < s.len() - 1 implies s[k] != x by {
            assert(s.drop_last()[k] == s[k]);
        }
        s.len() - 1
    }
}

proof fn lemma_push_ahead(p: Pass, start: Draft, todo: Seq<usize>, i: int)
    requires
        0 <= i < start.planned.len(),
        start.planned[i] is None,
        forall|k: int| 0 <= k < todo.len() ==> (#[trigger] todo[k]) != i && todo[k]
            < start.planned.len(),
    ensures
        plan::after_push(p, start, todo).planned[i] is None,
        plan::after_push(p, start, todo).planned.len() == start.planned.len(),
    decreases todo.len(),
{
    if todo.len() > 0 {
        let front = todo.drop_last();
        assert forall|k: int| 0 <= k < front.len() implies (#[trigger] front[k]) != i && front[k]
            < start.planned.len() by {
            assert(front[k] == todo[k]);
        }
        lemma_push_ahead(p, start, front, i);
        assert(todo[todo.len() - 1] == todo.last());
    }
}

/// A file that no rule pins is not gathered.
proof fn lemma_unpinned(p: Pass, i: int, n: nat)
    requires
        p.wf(),
        0 <= i < p.files@.len(),
        n <= p.files@.len(),
        rule_in_force(p, i) matches Some(r) ==> r.pin is None,
    ensures
        plan::after_pins(p, plan::blank(p), n).planned[i] is None,
        plan::after_pins(p, plan::blank(p), n).planned.len() == p.files@.len(),
    decreases n,
{
    if n > 0 {
        lemma_unpinned(p, i, (n - 1) as nat);
    }
}

proof fn lemma_cap_ahead(
    p: Pass,
    start: Draft,
    used: int,
    quota: u64,
    todo: Seq<usize>,
    i: int,
)
    requires
        0 <= i < start.planned.len(),
        start.planned[i] is None,
        forall|k: int| 0 <= k < todo.len() ==> (#[trigger] todo[k]) != i && todo[k]
            < start.planned.len(),
    ensures
        plan::after_cap(p, start, used, quota, todo).0.planned[i] is None,
        plan::after_cap(p, start, used, quota, todo).0.planned.len() == start.planned.len(),
    decreases todo.len(),
{
    if todo.len() > 0 {
        let front = todo.drop_last();
        assert forall|k: int| 0 <= k < front.len() implies (#[trigger] front[k]) != i && front[k]
            < start.planned.len() by {
            assert(front[k] == todo[k]);
        }
        lemma_cap_ahead(p, start, used, quota, front, i);
        assert(todo[todo.len() - 1] == todo.last());
    }
}

/// A file that may not sink is given no move on behalf of quotas.
proof fn lemma_uncapped(p: Pass, d: Draft, n: nat, i: int)
    requires
        0 <= i < p.files@.len() == d.planned.len(),
        n <= p.cfg.rules@.len(),
        d.planned[i] is None,
        !may_sink(p, i),
    ensures
        plan::after_quotas(p, d, n).planned[i] is None,
        plan::after_quotas(p, d, n).planned.len() == p.files@.len(),
    decreases n,
{
    if n > 0 {
        lemma_uncapped(p, d, (n - 1) as nat, i);
        let e = plan::after_quotas(p, d, (n - 1) as nat);
        if let Some(q) = p.cfg.rules@[n - 1].quota {
            let pred = |j: usize| plan::is_surplus(p, e, n - 1, j);
            laws::lemma_candidates(p, pred, plan::coldest_first(p));
            let todo = plan::surplus(p, e, n - 1);
            lemma_asked(p, i);
            assert forall|k: int| 0 <= k < todo.len() implies (#[trigger] todo[k]) != i && todo[k]
                < e.planned.len() by {
                assert(pred(todo[k]));
            }
            lemma_cap_ahead(p, e, plan::fast_bytes(p, e, n - 1, p.files@.len()), q, todo, i);
        }
    }
}

/// After `n` moves of the plan the fastest tier has no room within its high watermark
/// for file `j`, which was accessed recently.
pub open spec fn promotion_is_over(p: Pass, d: Draft, j: int, n: int) -> bool {
    let then = tier_in_use(p, d.moves.take(n), 0, p.branches@.len()) + p.files@[j].size;
    &&& 0 <= n <= d.moves.len()
    &&& 0 <= j < p.files@.len()
    &&& is_recent(p, j)
    &&& then > tier_bytes(p, 0, p.branches@.len()) / 100 * p.cfg.tiers@[0].high
}

proof fn lemma_promotion_turn(
    p: Pass,
    start: Draft,
    d: Draft,
    todo: Seq<usize>,
    i: int,
    done: Draft,
)
    requires
        good(p, |x: Draft| all_called_for(p, x), d),
        plans_on(start, d),
        start.planned.len() == p.files@.len(),
        laws::all_files(p, todo, |j: usize| plan::is_wanted(p, start, j)),
        0 <= i < p.files@.len(),
        d.planned[i] is None,
        home(p, i) != 0,
        todo.contains(i as usize),
        plans_on(plan::after_promotion(p, d, todo), done),
    ensures
        (exists|n: int| #[trigger] has_its_turn(p, done, i, 0, "keep-promote"@, n)) || (exists|
            j: int,
            n: int,
        | #[trigger]
            promotion_is_over(p, done, j, n)),
    decreases todo.len(),
{
    let inv = |x: Draft| all_called_for(p, x);
    let j = todo[0] as int;
    assert(plan::is_wanted(p, start, todo[0]));
    lemma_asked(p, j);
    assert(p.files.len() == p.files@.len());
    let after = plan::after_promotion(p, d, todo);
    if plan::capped(plan::used_on(p, d, 0) + p.files@[j].size) > plan::mark(
        p,
        0,
        p.cfg.tiers@[0].high,
    ) {
        lemma_used(p, d, 0, p.branches@.len());
        let n = d.moves.len() as int;
        lemma_in_use_bound(p, d.moves, 0, p.branches@.len());
        assert(done.moves.take(n) == d.moves);
        assert(promotion_is_over(p, done, j, n));
    } else {
        let e = plan::with_move(p, d, j, 0, "keep-promote"@);
        let rest = todo.skip(1);
        assert forall|k: int| 0 <= k < rest.len() implies (#[trigger] rest[k]) < p.files@.len()
            && plan::is_wanted(p, start, rest[k]) by {
            assert(rest[k] == todo[k + 1]);
        }
        lemma_called_for_kept(p, 3);
        if d.planned[j] is None {
            lemma_unplanned_home(p, start, d, j);
        }
        lemma_attempt(p, 3, inv, d, j, 0, "keep-promote"@);
        lemma_plans_on_step(p, d, j, 0, "keep-promote"@);
        lemma_plans_on_transitive(start, d, e);
        lemma_plans_on_reflexive(e);
        if j == i {
            assert(e.planned.len() == p.files@.len());
            assert forall|k: int| 0 <= k < rest.len() implies (#[trigger] rest[k]) < p.files@.len()
                && plan::is_wanted(p, start, rest[k]) by {}
            lemma_promotion_goes_on(p, start, e, e, rest);
            lemma_plans_on_transitive(e, after, done);
            lemma_turn(p, d, done, i, 0, "keep-promote"@);
        } else {
            let k = choose|k: int| 0 <= k < todo.len() && todo[k] == i as usize;
            assert(rest[k - 1] == i as usize);
            lemma_promotion_turn(p, start, e, rest, i, done);
        }
    }
}

proof fn lemma_promotion_goes_on(
    p: Pass,
    start: Draft,
    first: Draft,
    d: Draft,
    todo: Seq<usize>,
)
    requires
        plans_on(first, d),
        d.planned.len() == p.files@.len(),
        laws::all_files(p, todo, |j: usize| plan::is_wanted(p, start, j)),
    ensures
        plans_on(first, plan::after_promotion(p, d, todo)),
    decreases todo.len(),
{
    if todo.len() > 0 && !(plan::capped(plan::used_on(p, d, 0) + p.files@[todo[0] as int].size)
        > plan::mark(p, 0, p.cfg.tiers@[0].high)) {
        let i = todo[0] as int;
        assert(todo[0] < p.files@.len());
        let e = plan::with_move(p, d, i, 0, "keep-promote"@);
        lemma_plans_on_step(p, d, i, 0, "keep-promote"@);
        lemma_plans_on_transitive(first, d, e);
        let rest = todo.skip(1);
        assert forall|k: int| 0 <= k < rest.len() implies (#[trigger] rest[k]) < p.files@.len()
            && plan::is_wanted(p, start, rest[k]) by {
            assert(rest[k] == todo[k + 1]);
        }
        lemma_promotion_goes_on(p, start, first, e, rest);
    }
}

/// Every single file that was accessed recently, is not fresh and not pinned, and was
/// found on another than the fastest tier is brought back to it, unless there is no
/// budget or no room when its turn comes, or the fastest tier is full up to its high
/// watermark before.
#[verifier::rlimit(50)]
pub proof fn recent_files_are_brought_back(p: Pass, i: int)
    requires
        p.wf(),
        0 <= i < p.files@.len(),
        is_recent(p, i),
        is_single(p, i),
        !is_fresh(p, i),
        rule_in_force(p, i) matches Some(r) ==> r.pin is None,
        home(p, i) > 0,
    ensures
        (exists|n: int| #[trigger]
            has_its_turn(p, plan::drafted(p), i, 0, "keep-promote"@, n)) || (exists|
            j: int,
            n: int,
        | #[trigger]
            promotion_is_over(p, plan::drafted(p), j, n)),
{
    let d = plan::drafted(p);
    let curbed = plan::curbed(p);
    let pins = plan::gathered(p);
    assert(p.files.len() == p.files@.len());
    lemma_asked(p, i);
    lemma_all_steps(p);
    lemma_unpinned(p, i, p.files@.len());
    let push = |j: usize| plan::is_pushed(p, pins, j);
    laws::lemma_candidates(p, push, plan::coldest_first(p));
    let down = plan::pushed(p, pins);
    assert forall|k: int| 0 <= k < down.len() implies (#[trigger] down[k]) != i && down[k]
        < pins.planned.len() by {
        assert(push(down[k]));
    }
    lemma_push_ahead(p, pins, down, i);
    lemma_uncapped(p, plan::lowered(p), p.cfg.rules@.len(), i);
    let pred = |j: usize| plan::is_wanted(p, curbed, j);
    laws::lemma_candidates(p, pred, plan::hottest_first(p));
    let todo = plan::wanted(p, curbed);
    assert(pred(i as usize));
    lemma_plans_on_reflexive(curbed);
    lemma_promotion_turn(p, curbed, curbed, todo, i, d);
}

// ---- the order within a step -------------------------------------------------------

/// The files that `e` moves beyond `d` are among the given ones, and in the order.
pub open spec fn in_order(
    d: Draft,
    e: Draft,
    todo: Seq<usize>,
    leq: spec_fn(usize, usize) -> bool,
) -> bool {
    &&& d.who.len() <= e.who.len()
    &&& e.who.take(d.who.len() as int) == d.who
    &&& forall|k: int| d.who.len() <= k < e.who.len() ==> todo.contains(#[trigger] e.who[k])
    &&& forall|j: int, k: int|
        d.who.len() <= j < k < e.who.len() ==> leq(#[trigger] e.who[j], #[trigger] e.who[k])
}

proof fn lemma_in_order_none(d: Draft, todo: Seq<usize>, leq: spec_fn(usize, usize) -> bool)
    ensures
        in_order(d, d, todo, leq),
{
    assert(d.who.take(d.who.len() as int) =~= d.who);
}

proof fn lemma_in_order_step(
    p: Pass,
    d: Draft,
    e: Draft,
    todo: Seq<usize>,
    leq: spec_fn(usize, usize) -> bool,
    t: usize,
    reason: Seq<char>,
)
    requires
        todo.len() > 0,
        sorted_by(todo, leq),
        in_order(d, e, todo.drop_last(), leq),
    ensures
        in_order(d, e, todo, leq),
        in_order(d, plan::with_move(p, e, todo.last() as int, t, reason), todo, leq),
{
    let n = d.who.len() as int;
    let front = todo.drop_last();
    let f = plan::with_move(p, e, todo.last() as int, t, reason);
    assert forall|k: int| n <= k < e.who.len() implies todo.contains(#[trigger] e.who[k]) && leq(
        e.who[k],
        todo.last(),
    ) by {
        assert(front.contains(e.who[k]));
        let j = choose|j: int| 0 <= j < front.len() && front[j] == e.who[k];
        assert(todo[j] == e.who[k]);
        assert(leq(todo[j], todo[todo.len() - 1]));
    }
    if f.who.len() > e.who.len() {
        assert(f.who == e.who.push(todo.last()));
        assert(f.who.take(n) =~= d.who);
        assert(todo.contains(todo[todo.len() - 1]));
        assert forall|k: int| n <= k < f.who.len() implies todo.contains(#[trigger] f.who[k]) by {
            if k < e.who.len() {
                assert(f.who[k] == e.who[k]);
            }
        }
        assert forall|j: int, k: int| n <= j < k < f.who.len() implies leq(
            #[trigger] f.who[j],
            #[trigger] f.who[k],
        ) by {
            assert(f.who[j] == e.who[j]);
            if k < e.who.len() {
                assert(f.who[k] == e.who[k]);
            }
        }
    }
}

proof fn lemma_push_in_order(
    p: Pass,
    d: Draft,
    todo: Seq<usize>,
    leq: spec_fn(usize, usize) -> bool,
)
    requires
        sorted_by(todo, leq),
    ensures
        in_order(d, plan::after_push(p, d, todo), todo, leq),
    decreases todo.len(),
{
    lemma_in_order_none(d, todo, leq);
    if todo.len() > 0 {
        lemma_push_in_order(p, d, todo.drop_last(), leq);
        let e = plan::after_push(p, d, todo.drop_last());
        let t = plan::push_target(p, todo.last() as int)->0;
        lemma_in_order_step(p, d, e, todo, leq, t, "aggressive"@);
    }
}

proof fn lemma_cap_in_order(
    p: Pass,
    d: Draft,
    used: int,
    quota: u64,
    todo: Seq<usize>,
    leq: spec_fn(usize, usize) -> bool,
)
    requires
        sorted_by(todo, leq),
    ensures
        in_order(d, plan::after_cap(p, d, used, quota, todo).0, todo, leq),
    decreases todo.len(),
{
    lemma_in_order_none(d, todo, leq);
    if todo.len() > 0 {
        lemma_cap_in_order(p, d, used, quota, todo.drop_last(), leq);
        let e = plan::after_cap(p, d, used, quota, todo.drop_last()).0;
        lemma_in_order_step(p, d, e, todo, leq, p.last() as usize, "quota"@);
    }
}

proof fn lemma_drain_in_order(
    p: Pass,
    d: Draft,
    t: usize,
    todo: Seq<usize>,
    leq: spec_fn(usize, usize) -> bool,
)
    requires
        sorted_by(todo, leq),
    ensures
        in_order(d, plan::after_drain(p, d, t, todo), todo, leq),
    decreases todo.len(),
{
    lemma_in_order_none(d, todo, leq);
    if todo.len() > 0 {
        lemma_drain_in_order(p, d, t, todo.drop_last(), leq);
        let e = plan::after_drain(p, d, t, todo.drop_last());
        lemma_in_order_step(p, d, e, todo, leq, (t + 1) as usize, "watermark"@);
    }
}

proof fn lemma_promotion_in_order(
    p: Pass,
    d: Draft,
    todo: Seq<usize>,
    leq: spec_fn(usize, usize) -> bool,
)
    requires
        sorted_by(todo, leq),
    ensures
        in_order(d, plan::after_promotion(p, d, todo), todo, leq),
    decreases todo.len(),
{
    lemma_in_order_none(d, todo, leq);
    let f = plan::after_promotion(p, d, todo);
    if todo.len() > 0 && !(plan::capped(plan::used_on(p, d, 0) + p.files@[todo[0] as int].size)
        > plan::mark(p, 0, p.cfg.tiers@[0].high)) {
        let e = plan::with_move(p, d, todo[0] as int, 0, "keep-promote"@);
        let rest = todo.skip(1);
        assert forall|j: int, k: int| 0 <= j < k < rest.len() implies #[trigger] leq(
            rest[j],
            rest[k],
        ) by {
            assert(leq(todo[j + 1], todo[k + 1]));
        }
        lemma_promotion_in_order(p, e, rest, leq);
        let n = d.who.len() as int;
        let m = e.who.len() as int;
        assert(n <= m <= n + 1);
        assert(f.who.take(m) == e.who);
        assert forall|k: int| 0 <= k < m implies f.who[k] == #[trigger] e.who[k] by {
            assert(f.who.take(m)[k] == f.who[k]);
        }
        assert(f.who.take(n) =~= d.who) by {
            assert forall|k: int| 0 <= k < n implies f.who.take(n)[k] == d.who[k] by {
                assert(f.who[k] == e.who[k]);
            }
        }
        assert forall|k: int| n <= k < f.who.len() implies todo.contains(#[trigger] f.who[k]) by {
            if k < m {
                assert(f.who[k] == e.who[k]);
                assert(todo.contains(todo[0]));
            } else {
                assert(rest.contains(f.who[k]));
                let j = choose|j: int| 0 <= j < rest.len() && rest[j] == f.who[k];
                assert(todo[j + 1] == f.who[k]);
            }
        }
        assert forall|j: int, k: int| n <= j < k < f.who.len() implies leq(
            #[trigger] f.who[j],
            #[trigger] f.who[k],
        ) by {
            if j < m {
                assert(f.who[j] == todo[0]) by {
                    assert(f.who[j] == e.who[j]);
                }
                assert(rest.contains(f.who[k]));
                let q = choose|q: int| 0 <= q < rest.len() && rest[q] == f.who[k];
                assert(todo[q + 1] == f.who[k]);
                assert(leq(todo[0], todo[q + 1]));
            }
        }
    }
}

/// Files are pushed down the coldest first.
pub proof fn coldest_are_pushed_first(p: Pass, j: int, k: int)
    requires
        p.wf(),
        plan::gathered(p).who.len() <= j < k < plan::lowered(p).who.len(),
    ensures
        p.temps@[plan::lowered(p).who[j] as int] <= p.temps@[plan::lowered(p).who[k] as int],
{
    let leq = plan::coldest_first(p);
    let d = plan::gathered(p);
    order::select(p.files@.len(), |i: usize| plan::is_pushed(p, d, i)).lemma_sort_by_ensures(leq);
    lemma_push_in_order(p, d, plan::pushed(p, d), leq);
    assert(leq(plan::lowered(p).who[j], plan::lowered(p).who[k]));
}

/// On behalf of a quota the coldest files go first.
pub proof fn coldest_relieve_a_quota_first(p: Pass, d: Draft, n: nat, j: int, k: int)
    requires
        0 < n <= p.cfg.rules@.len(),
        plan::after_quotas(p, d, (n - 1) as nat).who.len() <= j < k < plan::after_quotas(
            p,
            d,
            n,
        ).who.len(),
    ensures
        p.temps@[plan::after_quotas(p, d, n).who[j] as int] <= p.temps@[plan::after_quotas(
            p,
            d,
            n,
        ).who[k] as int],
{
    let leq = plan::coldest_first(p);
    let e = plan::after_quotas(p, d, (n - 1) as nat);
    order::select(
        p.files@.len(),
        |i: usize| plan::is_surplus(p, e, n - 1, i),
    ).lemma_sort_by_ensures(leq);
    if let Some(q) = p.cfg.rules@[n - 1].quota {
        lemma_cap_in_order(
            p,
            e,
            plan::fast_bytes(p, e, n - 1, p.files@.len()),
            q,
            plan::surplus(p, e, n - 1),
            leq,
        );
        assert(leq(plan::after_quotas(p, d, n).who[j], plan::after_quotas(p, d, n).who[k]));
    }
}

/// Files are brought back the hottest first.
pub proof fn hottest_are_promoted_first(p: Pass, j: int, k: int)
    requires
        p.wf(),
        plan::curbed(p).who.len() <= j < k < plan::promoted(p).who.len(),
    ensures
        p.temps@[plan::promoted(p).who[j] as int] >= p.temps@[plan::promoted(p).who[k] as int],
{
    let leq = plan::hottest_first(p);
    let d = plan::curbed(p);
    order::select(p.files@.len(), |i: usize| plan::is_wanted(p, d, i)).lemma_sort_by_ensures(leq);
    lemma_promotion_in_order(p, d, plan::wanted(p, d), leq);
    assert(leq(plan::promoted(p).who[j], plan::promoted(p).who[k]));
}

/// A tier that is too full is drained of its coldest files first.
pub proof fn coldest_are_drained_first(p: Pass, d: Draft, n: nat, j: int, k: int)
    requires
        0 < n,
        plan::after_watermarks(p, d, (n - 1) as nat).who.len() <= j < k < plan::after_watermarks(
            p,
            d,
            n,
        ).who.len(),
    ensures
        p.temps@[plan::after_watermarks(p, d, n).who[j] as int]
            <= p.temps@[plan::after_watermarks(p, d, n).who[k] as int],
{
    let leq = plan::coldest_first(p);
    let e = plan::after_watermarks(p, d, (n - 1) as nat);
    let t = (n - 1) as usize;
    order::select(p.files@.len(), |i: usize| plan::is_load(p, e, t, i)).lemma_sort_by_ensures(leq);
    lemma_drain_in_order(p, e, t, plan::load(p, e, t), leq);
    lemma_in_order_none(e, plan::load(p, e, t), leq);
    assert(leq(plan::after_watermarks(p, d, n).who[j], plan::after_watermarks(p, d, n).who[k]));
}

// ---- the list of branches ----------------------------------------------------------

/// How many branches the first `n` tiers have.
pub open spec fn branches_before(tiers: Seq<plan::PoolTier>, n: nat) -> nat
    decreases n,
{
    if n == 0 {
        0
    } else {
        branches_before(tiers, (n - 1) as nat) + tiers[n - 1].branches@.len()
    }
}

proof fn lemma_branches_before(tiers: Seq<plan::PoolTier>, n: nat)
    requires
        n < tiers.len(),
    ensures
        branches_before(tiers.drop_last(), n) == branches_before(tiers, n),
    decreases n,
{
    if n > 0 {
        lemma_branches_before(tiers, (n - 1) as nat);
        assert(tiers.drop_last()[n - 1] == tiers[n - 1]);
    }
}

/// Branch `k` of tier `t` is on the list, under the tier's number, after those of the
/// tiers before and those before it on its own.
pub open spec fn is_listed(tiers: Seq<plan::PoolTier>, t: int, k: int) -> bool {
    let at = branches_before(tiers, t as nat) + k;
    &&& 0 <= at < plan::flattened(tiers).len()
    &&& plan::flattened(tiers)[at].tier == t
    &&& plan::flattened(tiers)[at].path == tiers[t].branches@[k]@
}

/// The list has every branch of every tier, under the tier's number, tier by tier and
/// in the order of each tier, and nothing else.
pub proof fn branches_are_listed_by_tier(tiers: Seq<plan::PoolTier>)
    ensures
        plan::flattened(tiers).len() == branches_before(tiers, tiers.len()),
        forall|t: int, k: int|
            0 <= t < tiers.len() && 0 <= k < tiers[t].branches@.len() ==> #[trigger] is_listed(
                tiers,
                t,
                k,
            ),
    decreases tiers.len(),
{
    if tiers.len() > 0 {
        let front = tiers.drop_last();
        let n = front.len();
        branches_are_listed_by_tier(front);
        lemma_branches_before(tiers, n);
        assert forall|t: int, k: int|
            0 <= t < tiers.len() && 0 <= k < tiers[t].branches@.len() implies #[trigger] is_listed(
            tiers,
            t,
            k,
        ) by {
            if t < n {
                lemma_branches_before(tiers, t as nat);
                assert(front[t] == tiers[t]);
                assert(is_listed(front, t, k));
            }
        }
    }
}

} // verus!
