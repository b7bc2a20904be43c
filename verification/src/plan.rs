//! Planning by watermarks: one pass over the pool.
//!
//! A pass gathers strays onto the tier that a rule pins them to, pushes
//! aggressive subtrees down, caps subtrees at their quotas, brings recently
//! used files back to the fastest tier, and relieves tiers that are filled
//! above their high watermark, in this order.

use crate::order;
use crate::order::{sort_indices, Precedence};
use crate::paths;
use crate::paths::{depth_of, path_ordered, same_path, under};
use crate::scan::FileMeta;
use crate::text::copy_of;
use vstd::prelude::*;
#[allow(unused_imports)]
use vstd::relations::*;
#[allow(unused_imports)]
use vstd::seq_lib::*;

pub mod effects;
pub mod laws;

verus! {

// ---- the pool --------------------------------------------------------------------

/// A speed class with its branches and its watermarks, in percent.
#[derive(Debug)]
pub struct PoolTier {
    pub name: String,
    pub branches: Vec<Vec<u8>>,
    pub high: u32,
    pub low: u32,
}

/// How the files of a subtree are treated.
#[derive(Debug)]
pub struct SubtreeRule {
    /// The subtree, relative to the pool root.
    pub rel: Vec<u8>,
    /// The tier that the subtree is kept on.
    pub pin: Option<usize>,
    /// The tier that the subtree is pushed down to, whatever the watermarks.
    pub aggressive_target: Option<usize>,
    /// The bytes that the subtree may take up above the slowest tier.
    pub quota: Option<u64>,
    /// Files accessed within this many seconds belong on the fastest tier.
    pub keep_secs: Option<i64>,
}

#[derive(Debug)]
pub struct PoolConfig {
    /// The tiers, fastest first.
    pub tiers: Vec<PoolTier>,
    pub rules: Vec<SubtreeRule>,
    /// The headroom that a branch keeps after receiving a file.
    pub min_free: u64,
    /// Files modified within this many seconds may still be written to.
    pub mtime_cooldown_secs: i64,
    /// The bytes that one pass may move.
    pub max_move_per_pass: Option<u64>,
}

/// A branch of the flattened list.
#[derive(Debug)]
pub struct Branch {
    pub tier: usize,
    pub path: Vec<u8>,
}

/// The size and the free space of the filesystem that holds a branch.
#[derive(Debug, Clone, Copy)]
pub struct FsUsage {
    pub free: u64,
    pub total: u64,
}

/// A planned move between two branches of the flattened list.
#[derive(Debug)]
pub struct Move {
    pub rel: Vec<u8>,
    pub from: usize,
    pub to: usize,
    pub size: u64,
    pub reason: &'static str,
}

/// A move with its path and reason as sequences.
pub struct MoveView {
    pub rel: Seq<u8>,
    pub from: usize,
    pub to: usize,
    pub size: u64,
    pub reason: Seq<char>,
}

impl View for Move {
    type V = MoveView;

    open spec fn view(&self) -> MoveView {
        MoveView {
            rel: self.rel@,
            from: self.from,
            to: self.to,
            size: self.size,
            reason: self.reason@,
        }
    }
}

/// The views of a list of moves.
pub open spec fn move_views(v: Seq<Move>) -> Seq<MoveView> {
    v.map_values(|m: Move| m@)
}

/// A branch with its path as a sequence.
pub struct BranchView {
    pub tier: int,
    pub path: Seq<u8>,
}

impl View for Branch {
    type V = BranchView;

    open spec fn view(&self) -> BranchView {
        BranchView { tier: self.tier as int, path: self.path@ }
    }
}

/// The views of a list of branches.
pub open spec fn branch_views(v: Seq<Branch>) -> Seq<BranchView> {
    v.map_values(|b: Branch| b@)
}

/// The branches of one tier.
pub open spec fn branches_of(tier: PoolTier, ti: int) -> Seq<BranchView> {
    tier.branches@.map_values(|p: Vec<u8>| BranchView { tier: ti, path: p@ })
}

/// The branches of the tiers, one tier after the other.
pub open spec fn flattened(tiers: Seq<PoolTier>) -> Seq<BranchView>
    decreases tiers.len(),
{
    if tiers.len() == 0 {
        Seq::empty()
    } else {
        flattened(tiers.drop_last()) + branches_of(tiers.last(), tiers.len() - 1)
    }
}

/// Flatten config tiers into a single branch list.
pub fn flatten_branches(cfg: &PoolConfig) -> (v: Vec<Branch>)
    ensures
        branch_views(v@) == flattened(cfg.tiers@),
{
    let mut v: Vec<Branch> = Vec::new();
    let mut ti: usize = 0;
    assert(cfg.tiers@.take(0) =~= Seq::<PoolTier>::empty());
    assert(branch_views(v@) =~= Seq::<BranchView>::empty());
    while ti < cfg.tiers.len()
        invariant
            ti <= cfg.tiers.len(),
            branch_views(v@) == flattened(cfg.tiers@.take(ti as int)),
        decreases cfg.tiers.len() - ti,
    {
        let t = &cfg.tiers[ti];
        let ghost front = branch_views(v@);
        let ghost mine = branches_of(*t, ti as int);
        let mut k: usize = 0;
        assert(front + mine.take(0) =~= front);
        while k < t.branches.len()
            invariant
                k <= t.branches.len(),
                mine == branches_of(*t, ti as int),
                branch_views(v@) == front + mine.take(k as int),
            decreases t.branches.len() - k,
        {
            let ghost before = branch_views(v@);
            let b = Branch { tier: ti, path: copy_of(t.branches[k].as_slice()) };
            v.push(b);
            assert(branch_views(v@) =~= before.push(b@));
            k = k + 1;
            assert(branch_views(v@) =~= front + mine.take(k as int));
        }
        assert(mine.take(k as int) =~= mine);
        assert(cfg.tiers@.take(ti + 1).drop_last() =~= cfg.tiers@.take(ti as int));
        ti = ti + 1;
    }
    assert(cfg.tiers@.take(ti as int) =~= cfg.tiers@);
    v
}

/// The position of the rule with the longest matching prefix; of equally long
/// ones the first.
pub open spec fn longest_match(rules: Seq<SubtreeRule>, rel: Seq<u8>) -> Option<int>
    decreases rules.len(),
{
    if rules.len() == 0 {
        None
    } else {
        let best = longest_match(rules.drop_last(), rel);
        let r = rules.last();
        if paths::is_under(rel, r.rel@) && (best is None || paths::components(
            rules[best->0].rel@,
        ).len() < paths::components(r.rel@).len()) {
            Some(rules.len() - 1)
        } else {
            best
        }
    }
}

/// The rule in force matches, and no matching rule has a longer prefix; there
/// is none exactly where no rule matches.
pub proof fn lemma_longest_match(rules: Seq<SubtreeRule>, rel: Seq<u8>)
    ensures
        match longest_match(rules, rel) {
            Some(i) => {
                &&& 0 <= i < rules.len()
                &&& paths::is_under(rel, rules[i].rel@)
                &&& forall|j: int|
                    0 <= j < rules.len() && paths::is_under(rel, #[trigger] rules[j].rel@)
                        ==> paths::components(rules[j].rel@).len() <= paths::components(
                        rules[i].rel@,
                    ).len()
            },
            None => forall|j: int|
                0 <= j < rules.len() ==> !paths::is_under(rel, #[trigger] rules[j].rel@),
        },
    decreases rules.len(),
{
    if rules.len() > 0 {
        lemma_longest_match(rules.drop_last(), rel);
        let best = longest_match(rules.drop_last(), rel);
        if best is Some {
            assert(rules[best->0] == rules.drop_last()[best->0]);
        }
        assert forall|j: int|
            0 <= j < rules.len() - 1 && paths::is_under(rel, #[trigger] rules[j].rel@) implies best
            is Some && paths::components(rules[j].rel@).len() <= paths::components(
            rules[best->0].rel@,
        ).len() by {
            assert(rules[j] == rules.drop_last()[j]);
        }
    }
}

impl PoolConfig {
    /// Resolve the rule for a relative path by longest-prefix match.
    pub fn find_rule(&self, rel: &Vec<u8>) -> (r: Option<usize>)
        ensures
            match r {
                Some(i) => i < self.rules@.len() && longest_match(self.rules@, rel@) == Some(
                    i as int,
                ),
                None => longest_match(self.rules@, rel@) is None,
            },
    {
        let mut best: Option<usize> = None;
        let mut i: usize = 0;
        while i < self.rules.len()
            invariant
                i <= self.rules.len(),
                match best {
                    Some(b) => b < i && longest_match(self.rules@.take(i as int), rel@) == Some(
                        b as int,
                    ),
                    None => longest_match(self.rules@.take(i as int), rel@) is None,
                },
            decreases self.rules.len() - i,
        {
            assert(self.rules@.take(i + 1).drop_last() =~= self.rules@.take(i as int));
            let r = &self.rules[i];
            if under(rel.as_slice(), r.rel.as_slice()) {
                match best {
                    Some(b) => {
                        if depth_of(self.rules[b].rel.as_slice()) < depth_of(r.rel.as_slice()) {
                            best = Some(i);
                        }
                    },
                    None => {
                        best = Some(i);
                    },
                }
            }
            i = i + 1;
        }
        assert(self.rules@.take(i as int) =~= self.rules@);
        best
    }
}

// ---- the model of a pass -----------------------------------------------------------

/// What a pass works on.
pub struct Pass<'a> {
    pub cfg: &'a PoolConfig,
    pub branches: &'a Vec<Branch>,
    pub files: &'a Vec<FileMeta>,
    /// The temperature of each file; the colder it is, the earlier it is demoted.
    pub temps: &'a Vec<i64>,
    /// The filesystem usage of each branch.
    pub usage: &'a Vec<FsUsage>,
    /// Seconds since the epoch.
    pub now: i64,
}

impl<'a> Pass<'a> {
    /// There is a tier; usage is known of every branch and temperature of every
    /// file; every file is on one of the branches, and no file is larger than a
    /// file offset can tell.
    pub open spec fn wf(self) -> bool {
        &&& self.cfg.tiers@.len() >= 1
        &&& self.usage@.len() == self.branches@.len()
        &&& self.temps@.len() == self.files@.len()
        &&& forall|i: int|
            0 <= i < self.files@.len() ==> (#[trigger] self.files@[i]).branch
                < self.branches@.len() && self.files@[i].size <= i64::MAX
    }

    /// The slowest tier.
    pub open spec fn last(self) -> int {
        self.cfg.tiers@.len() - 1
    }
}

/// The plan in the making.
pub struct Draft {
    /// Bytes planned into each branch.
    pub incoming: Seq<u64>,
    /// Bytes planned out of each branch.
    pub outgoing: Seq<u128>,
    /// The tier that each file is planned to go to.
    pub planned: Seq<Option<usize>>,
    pub moves: Seq<MoveView>,
    /// The file that each move is of.
    pub who: Seq<usize>,
    /// The bytes that may still be moved.
    pub budget: Option<i64>,
}

/// The budget in the signed form that is counted down: beyond the signed
/// range it wraps around and lets nothing through.
pub open spec fn signed(b: u64) -> i64 {
    if b <= i64::MAX {
        b as i64
    } else {
        (b - 0x1_0000_0000_0000_0000) as i64
    }
}

/// The empty plan.
pub open spec fn blank(p: Pass) -> Draft {
    Draft {
        incoming: p.branches@.map_values(|b: Branch| 0u64),
        outgoing: p.branches@.map_values(|b: Branch| 0u128),
        planned: p.files@.map_values(|f: FileMeta| None::<usize>),
        moves: Seq::empty(),
        who: Seq::empty(),
        budget: match p.cfg.max_move_per_pass {
            Some(b) => Some(signed(b)),
            None => None,
        },
    }
}

/// The tier of the branch that a file is on.
pub open spec fn home_tier(p: Pass, i: int) -> usize {
    p.branches@[p.files@[i].branch as int].tier
}

/// The tier of a file once the plan so far is carried out.
pub open spec fn eff_tier(p: Pass, d: Draft, i: int) -> usize {
    match d.planned[i] {
        Some(t) => t,
        None => home_tier(p, i),
    }
}

pub open spec fn capped(x: int) -> u64 {
    if x > u64::MAX {
        u64::MAX
    } else if x < 0 {
        0
    } else {
        x as u64
    }
}

/// The free space of a branch once it has received what is planned.
pub open spec fn projected_free(p: Pass, d: Draft, b: int) -> u64 {
    capped(p.usage@[b].free - d.incoming[b])
}

/// Branch `b` is on the tier and keeps its headroom after receiving `size` bytes.
pub open spec fn takes(p: Pass, d: Draft, tier: usize, size: u64, b: int) -> bool {
    p.branches@[b].tier == tier && projected_free(p, d, b) >= capped(size + p.cfg.min_free)
}

/// Of the first `n` branches that can take the file, the one with the most
/// projected free space; of equals the last.
pub open spec fn roomiest(p: Pass, d: Draft, tier: usize, size: u64, n: nat) -> Option<int>
    decreases n,
{
    if n == 0 {
        None
    } else {
        let best = roomiest(p, d, tier, size, (n - 1) as nat);
        if takes(p, d, tier, size, n - 1) && (best is None || projected_free(p, d, n - 1)
            >= projected_free(p, d, best->0)) {
            Some(n - 1)
        } else {
            best
        }
    }
}

/// The destination on a tier for `size` bytes.
pub open spec fn chosen(p: Pass, d: Draft, tier: usize, size: u64) -> Option<int> {
    roomiest(p, d, tier, size, p.branches@.len())
}

/// The destination can take the file and no branch that can has more projected
/// free space; there is none exactly where no branch can take the file.
pub proof fn lemma_roomiest(p: Pass, d: Draft, tier: usize, size: u64, n: nat)
    ensures
        match roomiest(p, d, tier, size, n) {
            Some(b) => {
                &&& 0 <= b < n
                &&& takes(p, d, tier, size, b)
                &&& forall|j: int|
                    0 <= j < n && #[trigger] takes(p, d, tier, size, j) ==> projected_free(p, d, j)
                        <= projected_free(p, d, b) && (j > b ==> projected_free(p, d, j)
                        < projected_free(p, d, b))
            },
            None => forall|j: int| 0 <= j < n ==> !#[trigger] takes(p, d, tier, size, j),
        },
    decreases n,
{
    if n > 0 {
        lemma_roomiest(p, d, tier, size, (n - 1) as nat);
    }
}

/// The bytes in use on branch `b` once the plan so far is carried out.
pub open spec fn projected_use(p: Pass, d: Draft, b: int) -> u64 {
    let u = p.usage@[b];
    capped(capped(capped(u.total - u.free) + d.incoming[b]) - d.outgoing[b])
}

/// The projected use of a tier, over the first `n` branches.
pub open spec fn tier_use(p: Pass, d: Draft, tier: usize, n: nat) -> int
    decreases n,
{
    if n == 0 {
        0
    } else {
        tier_use(p, d, tier, (n - 1) as nat) + if p.branches@[n - 1].tier == tier {
            projected_use(p, d, n - 1) as int
        } else {
            0
        }
    }
}

/// The size of a tier, over the first `n` branches.
pub open spec fn tier_size(p: Pass, tier: usize, n: nat) -> int
    decreases n,
{
    if n == 0 {
        0
    } else {
        tier_size(p, tier, (n - 1) as nat) + if p.branches@[n - 1].tier == tier {
            p.usage@[n - 1].total as int
        } else {
            0
        }
    }
}

/// The projected use of a tier.
pub open spec fn used_on(p: Pass, d: Draft, tier: usize) -> int {
    tier_use(p, d, tier, p.branches@.len())
}

/// The size of a tier.
pub open spec fn size_of(p: Pass, tier: usize) -> int {
    tier_size(p, tier, p.branches@.len())
}

/// A watermark in bytes.
pub open spec fn mark(p: Pass, tier: usize, percent: u32) -> int {
    size_of(p, tier) / 100 * percent
}

/// A move of file `i` to the tier can be planned.
pub open spec fn plannable(p: Pass, d: Draft, i: int, to_tier: usize) -> bool {
    let f = p.files@[i];
    &&& d.planned[i] is None
    &&& home_tier(p, i) != to_tier
    &&& d.budget matches Some(b) ==> f.size <= b
    &&& chosen(p, d, to_tier, f.size) is Some
}

/// The plan with a move of file `i` to the tier, if one can be planned.
pub open spec fn with_move(p: Pass, d: Draft, i: int, to_tier: usize, reason: Seq<char>) -> Draft {
    if plannable(p, d, i, to_tier) {
        let f = p.files@[i];
        let dst = chosen(p, d, to_tier, f.size)->0;
        let src = f.branch as int;
        Draft {
            incoming: d.incoming.update(dst, (d.incoming[dst] + f.size) as u64),
            outgoing: d.outgoing.update(src, (d.outgoing[src] + f.size) as u128),
            planned: d.planned.update(i, Some(to_tier)),
            moves: d.moves.push(
                MoveView {
                    rel: f.rel@,
                    from: f.branch,
                    to: dst as usize,
                    size: f.size,
                    reason: reason,
                },
            ),
            who: d.who.push(i as usize),
            budget: match d.budget {
                Some(b) => Some((b - f.size) as i64),
                None => None,
            },
        }
    } else {
        d
    }
}

/// The rule of a file.
pub open spec fn rule_at(p: Pass, i: int) -> Option<SubtreeRule> {
    match longest_match(p.cfg.rules@, p.files@[i].rel@) {
        Some(r) => Some(p.cfg.rules@[r]),
        None => None,
    }
}

/// Another file has the same path: the file exists on more than one branch.
pub open spec fn is_dup(p: Pass, i: int) -> bool {
    exists|j: int|
        0 <= j < p.files@.len() && j != i && paths::components((#[trigger] p.files@[j]).rel@)
            == paths::components(p.files@[i].rel@)
}

/// The file is on one branch only and has one name there.
pub open spec fn movable(p: Pass, i: int) -> bool {
    !is_dup(p, i) && p.files@[i].nlink == 1
}

/// The file may still be written to.
pub open spec fn cooling(p: Pass, i: int) -> bool {
    p.now - p.files@[i].mtime < p.cfg.mtime_cooldown_secs
}

/// The file was accessed within its rule's window.
pub open spec fn kept(p: Pass, i: int) -> bool {
    rule_at(p, i) matches Some(r) && r.keep_secs matches Some(k) && p.now - p.files@[i].atime < k
}

/// The file may be moved to a slower tier.
pub open spec fn may_demote(p: Pass, i: int) -> bool {
    &&& p.files@[i].nlink == 1
    &&& !cooling(p, i)
    &&& rule_at(p, i) matches Some(r) ==> r.pin is None
    &&& !kept(p, i)
}

pub open spec fn coldest_first(p: Pass) -> spec_fn(usize, usize) -> bool {
    |a: usize, b: usize|
        p.temps@[a as int] < p.temps@[b as int] || (p.temps@[a as int] == p.temps@[b as int] && a
            <= b)
}

pub open spec fn hottest_first(p: Pass) -> spec_fn(usize, usize) -> bool {
    |a: usize, b: usize|
        p.temps@[a as int] > p.temps@[b as int] || (p.temps@[a as int] == p.temps@[b as int] && a
            <= b)
}

// Pins.

/// The plan once the first `n` files have been gathered onto their pinned tiers.
pub open spec fn after_pins(p: Pass, d: Draft, n: nat) -> Draft
    decreases n,
{
    if n == 0 {
        d
    } else {
        let e = after_pins(p, d, (n - 1) as nat);
        let i = n - 1;
        match rule_at(p, i) {
            Some(r) => match r.pin {
                Some(t) => if eff_tier(p, e, i) != t && movable(p, i) {
                    with_move(p, e, i, t, "pin"@)
                } else {
                    e
                },
                None => e,
            },
            None => e,
        }
    }
}

// Aggressive subtrees.

/// The tier that the file's subtree is pushed down to.
pub open spec fn push_target(p: Pass, i: int) -> Option<usize> {
    match rule_at(p, i) {
        Some(r) => r.aggressive_target,
        None => None,
    }
}

pub open spec fn is_pushed(p: Pass, d: Draft, i: usize) -> bool {
    &&& push_target(p, i as int) matches Some(t) && eff_tier(p, d, i as int) < t
    &&& may_demote(p, i as int)
    &&& !is_dup(p, i as int)
}

/// The files to be pushed down, coldest first.
pub open spec fn pushed(p: Pass, d: Draft) -> Seq<usize> {
    order::select(p.files@.len(), |i: usize| is_pushed(p, d, i)).sort_by(coldest_first(p))
}

/// The plan once the given files have been pushed down.
pub open spec fn after_push(p: Pass, d: Draft, todo: Seq<usize>) -> Draft
    decreases todo.len(),
{
    if todo.len() == 0 {
        d
    } else {
        let e = after_push(p, d, todo.drop_last());
        let i = todo.last() as int;
        match push_target(p, i) {
            Some(t) => with_move(p, e, i, t, "aggressive"@),
            None => e,
        }
    }
}

// Quotas.

/// Rule `ri` is the file's longest match.
pub open spec fn owned_by(p: Pass, ri: int, i: int) -> bool {
    longest_match(p.cfg.rules@, p.files@[i].rel@) == Some(ri)
}

/// The bytes of rule `ri` above the slowest tier, over the first `n` files.
pub open spec fn fast_bytes(p: Pass, d: Draft, ri: int, n: nat) -> int
    decreases n,
{
    if n == 0 {
        0
    } else {
        fast_bytes(p, d, ri, (n - 1) as nat) + if owned_by(p, ri, n - 1) && eff_tier(p, d, n - 1)
            < p.last() {
            p.files@[n - 1].size as int
        } else {
            0
        }
    }
}

pub open spec fn is_surplus(p: Pass, d: Draft, ri: int, i: usize) -> bool {
    &&& owned_by(p, ri, i as int)
    &&& eff_tier(p, d, i as int) < p.last()
    &&& may_demote(p, i as int)
    &&& !is_dup(p, i as int)
}

/// The files that can relieve the quota of rule `ri`, coldest first.
pub open spec fn surplus(p: Pass, d: Draft, ri: int) -> Seq<usize> {
    order::select(p.files@.len(), |i: usize| is_surplus(p, d, ri, i)).sort_by(coldest_first(p))
}

/// What is left of a count, never below zero.
pub open spec fn lessened(count: int, by: u64) -> int {
    if count >= by {
        count - by
    } else {
        0
    }
}

/// The plan, and the bytes that still count, once the given files have been
/// sent to the slowest tier in turn, as long as the quota was exceeded.
pub open spec fn after_cap(
    p: Pass,
    d: Draft,
    used: int,
    quota: u64,
    todo: Seq<usize>,
) -> (Draft, int)
    decreases todo.len(),
{
    if todo.len() == 0 {
        (d, used)
    } else {
        let (e, left) = after_cap(p, d, used, quota, todo.drop_last());
        let i = todo.last() as int;
        let last = p.last() as usize;
        if left <= quota || !plannable(p, e, i, last) {
            (e, left)
        } else {
            (with_move(p, e, i, last, "quota"@), lessened(left, p.files@[i].size))
        }
    }
}

/// The plan once the quotas of the first `n` rules have been enforced.
pub open spec fn after_quotas(p: Pass, d: Draft, n: nat) -> Draft
    decreases n,
{
    if n == 0 {
        d
    } else {
        let e = after_quotas(p, d, (n - 1) as nat);
        match p.cfg.rules@[n - 1].quota {
            Some(q) => after_cap(
                p,
                e,
                fast_bytes(p, e, n - 1, p.files@.len()),
                q,
                surplus(p, e, n - 1),
            ).0,
            None => e,
        }
    }
}

// Promotion of recently used files.

pub open spec fn is_wanted(p: Pass, d: Draft, i: usize) -> bool {
    &&& kept(p, i as int)
    &&& eff_tier(p, d, i as int) > 0
    &&& p.files@[i as int].nlink == 1
    &&& !cooling(p, i as int)
    &&& !is_dup(p, i as int)
}

/// The files to bring back to the fastest tier, hottest first.
pub open spec fn wanted(p: Pass, d: Draft) -> Seq<usize> {
    order::select(p.files@.len(), |i: usize| is_wanted(p, d, i)).sort_by(hottest_first(p))
}

/// The plan once the given files have been promoted in turn, up to the first
/// that would fill the fastest tier above its high watermark.
pub open spec fn after_promotion(p: Pass, d: Draft, todo: Seq<usize>) -> Draft
    decreases todo.len(),
{
    if todo.len() == 0 || capped(used_on(p, d, 0) + p.files@[todo[0] as int].size) > mark(
        p,
        0,
        p.cfg.tiers@[0].high,
    ) {
        d
    } else {
        after_promotion(p, with_move(p, d, todo[0] as int, 0, "keep-promote"@), todo.skip(1))
    }
}

// Watermarks.

pub open spec fn is_load(p: Pass, d: Draft, t: usize, i: usize) -> bool {
    &&& eff_tier(p, d, i as int) == t
    &&& home_tier(p, i as int) == t
    &&& may_demote(p, i as int)
    &&& !is_dup(p, i as int)
}

/// The files that can relieve the tier, coldest first.
pub open spec fn load(p: Pass, d: Draft, t: usize) -> Seq<usize> {
    order::select(p.files@.len(), |i: usize| is_load(p, d, t, i)).sort_by(coldest_first(p))
}

/// The plan once the given files have been sent one tier down in turn, as long
/// as the tier was above its low watermark.
pub open spec fn after_drain(p: Pass, d: Draft, t: usize, todo: Seq<usize>) -> Draft
    decreases todo.len(),
{
    if todo.len() == 0 {
        d
    } else {
        let e = after_drain(p, d, t, todo.drop_last());
        if used_on(p, e, t) <= mark(p, t, p.cfg.tiers@[t as int].low) {
            e
        } else {
            with_move(p, e, todo.last() as int, (t + 1) as usize, "watermark"@)
        }
    }
}

/// The plan once the first `n` tiers have been relieved.
pub open spec fn after_watermarks(p: Pass, d: Draft, n: nat) -> Draft
    decreases n,
{
    if n == 0 {
        d
    } else {
        let e = after_watermarks(p, d, (n - 1) as nat);
        let t = (n - 1) as usize;
        if size_of(p, t) == 0 || used_on(p, e, t) <= mark(p, t, p.cfg.tiers@[n - 1].high) {
            e
        } else {
            after_drain(p, e, t, load(p, e, t))
        }
    }
}

/// The plan once strays are gathered onto their pinned tiers.
pub open spec fn gathered(p: Pass) -> Draft {
    after_pins(p, blank(p), p.files@.len())
}

/// The plan once aggressive subtrees are pushed down as well.
pub open spec fn lowered(p: Pass) -> Draft {
    after_push(p, gathered(p), pushed(p, gathered(p)))
}

/// The plan once quotas are enforced as well.
pub open spec fn curbed(p: Pass) -> Draft {
    after_quotas(p, lowered(p), p.cfg.rules@.len())
}

/// The plan once recently used files are promoted as well.
pub open spec fn promoted(p: Pass) -> Draft {
    after_promotion(p, curbed(p), wanted(p, curbed(p)))
}

/// The plan of a pass: the last step relieves the tiers that are too full.
pub open spec fn drafted(p: Pass) -> Draft {
    after_watermarks(p, promoted(p), p.last() as nat)
}

// ---- the planner -------------------------------------------------------------------

/// The number of files without a move.
pub open spec fn unplanned(planned: Seq<Option<usize>>) -> nat
    decreases planned.len(),
{
    if planned.len() == 0 {
        0
    } else {
        unplanned(planned.drop_last()) + if planned.last() is Some {
            0nat
        } else {
            1nat
        }
    }
}

proof fn lemma_unplanned_update(planned: Seq<Option<usize>>, i: int, t: usize)
    requires
        0 <= i < planned.len(),
        planned[i] is None,
    ensures
        unplanned(planned.update(i, Some(t))) + 1 == unplanned(planned),
    decreases planned.len(),
{
    let after = planned.update(i, Some(t));
    if i == planned.len() - 1 {
        assert(after.drop_last() =~= planned.drop_last());
    } else {
        assert(after.drop_last() =~= planned.drop_last().update(i, Some(t)));
        lemma_unplanned_update(planned.drop_last(), i, t);
    }
}

proof fn lemma_unplanned_bound(planned: Seq<Option<usize>>)
    ensures
        unplanned(planned) <= planned.len(),
        (forall|i: int| 0 <= i < planned.len() ==> planned[i] is None) ==> unplanned(planned)
            == planned.len(),
    decreases planned.len(),
{
    if planned.len() > 0 {
        lemma_unplanned_bound(planned.drop_last());
        if forall|i: int| 0 <= i < planned.len() ==> planned[i] is None {
            assert forall|i: int| 0 <= i < planned.drop_last().len() implies planned.drop_last()[i]
                is None by {
                assert(planned[i] is None);
            }
        }
    }
}

/// The shape that every plan of `p` has.
pub open spec fn shaped(p: Pass, d: Draft) -> bool {
    &&& p.wf()
    &&& d.incoming.len() == p.branches@.len()
    &&& d.outgoing.len() == p.branches@.len()
    &&& d.planned.len() == p.files@.len()
    &&& forall|b: int|
        0 <= b < d.outgoing.len() ==> #[trigger] d.outgoing[b] <= (d.planned.len() - unplanned(
            d.planned,
        )) * u64::MAX
}

/// The empty plan has the right shape.
pub proof fn lemma_blank_shaped(p: Pass)
    requires
        p.wf(),
    ensures
        shaped(p, blank(p)),
{
    lemma_unplanned_bound(blank(p).planned);
}

/// What a planned move does to the counts of bytes, without overflow.
pub proof fn lemma_with_move(p: Pass, d: Draft, i: int, to_tier: usize, reason: Seq<char>)
    requires
        shaped(p, d),
        0 <= i < p.files@.len(),
    ensures
        shaped(p, with_move(p, d, i, to_tier, reason)),
        plannable(p, d, i, to_tier) ==> {
            let f = p.files@[i];
            let dst = chosen(p, d, to_tier, f.size)->0;
            &&& 0 <= dst < p.branches@.len()
            &&& d.incoming[dst] + f.size <= u64::MAX
            &&& d.outgoing[f.branch as int] + f.size <= u128::MAX
        },
{
    let f = p.files@[i];
    let e = with_move(p, d, i, to_tier, reason);
    lemma_roomiest(p, d, to_tier, f.size, p.branches@.len());
    if plannable(p, d, i, to_tier) {
        lemma_unplanned_update(d.planned, i, to_tier);
        lemma_unplanned_bound(d.planned);
        assert(p.files.len() == p.files@.len());
        let k = d.planned.len() - unplanned(d.planned);
        assert((k + 1) * u64::MAX == k * u64::MAX + u64::MAX) by (nonlinear_arith);
        assert((k + 1) * u64::MAX <= 0xffff_ffff_ffff_ffff * u64::MAX) by (nonlinear_arith)
            requires
                k + 1 <= 0xffff_ffff_ffff_ffff,
        ;
        assert(d.outgoing[f.branch as int] <= k * u64::MAX);
        assert forall|b: int| 0 <= b < e.outgoing.len() implies #[trigger] e.outgoing[b] <= (
        e.planned.len() - unplanned(e.planned)) * u64::MAX by {
            assert(d.outgoing[b] <= k * u64::MAX);
        }
    }
}

struct TempOrder<'a> {
    temps: &'a Vec<i64>,
    pass: Ghost<Pass<'a>>,
    hot: bool,
}

impl<'a> TempOrder<'a> {
    spec fn wf(&self) -> bool {
        self.temps@ == self.pass@.temps@
    }
}

impl<'a> Precedence for TempOrder<'a> {
    closed spec fn leq(&self) -> spec_fn(usize, usize) -> bool {
        if self.hot {
            hottest_first(self.pass@)
        } else {
            coldest_first(self.pass@)
        }
    }

    closed spec fn covers(&self, i: usize) -> bool {
        i < self.temps@.len() && self.wf()
    }

    proof fn lemma_total(&self) {
    }

    fn precedes(&self, a: usize, b: usize) -> (r: bool) {
        let ta = self.temps[a];
        let tb = self.temps[b];
        if ta == tb {
            a <= b
        } else {
            (ta > tb) == self.hot
        }
    }
}

/// Paths in their order, equal ones by index.
pub open spec fn path_order(files: Seq<FileMeta>) -> spec_fn(usize, usize) -> bool {
    |a: usize, b: usize|
        {
            let x = files[a as int].rel@;
            let y = files[b as int].rel@;
            if paths::components(x) != paths::components(y) {
                paths::path_le(x, y)
            } else {
                a <= b
            }
        }
}

struct PathOrder<'a> {
    files: &'a Vec<FileMeta>,
}

impl<'a> Precedence for PathOrder<'a> {
    closed spec fn leq(&self) -> spec_fn(usize, usize) -> bool {
        path_order(self.files@)
    }

    closed spec fn covers(&self, i: usize) -> bool {
        i < self.files@.len()
    }

    proof fn lemma_total(&self) {
        let files = self.files@;
        let r = self.leq();
        assert forall|a: usize, b: usize| #[trigger] r(a, b) && #[trigger] r(b, a) implies a == b by {
            paths::lemma_path_le_total(files[a as int].rel@, files[b as int].rel@);
        }
        assert forall|a: usize, b: usize| #[trigger] r(a, b) || #[trigger] r(b, a) by {
            paths::lemma_path_le_total(files[a as int].rel@, files[b as int].rel@);
        }
        assert forall|a: usize, b: usize, c: usize| #[trigger] r(a, b) && #[trigger] r(b, c) implies r(
            a,
            c,
        ) by {
            let (x, y, z) = (files[a as int].rel@, files[b as int].rel@, files[c as int].rel@);
            paths::lemma_path_le_total(x, y);
            paths::lemma_path_le_total(y, z);
            paths::lemma_path_le_total(x, z);
            if paths::path_le(x, y) && paths::path_le(y, z) {
                paths::lemma_path_le_transitive(x, y, z);
            }
            if paths::path_le(y, z) && paths::path_le(z, x) {
                paths::lemma_path_le_transitive(y, z, x);
            }
        }
    }

    fn precedes(&self, a: usize, b: usize) -> (r: bool) {
        let x = self.files[a].rel.as_slice();
        let y = self.files[b].rel.as_slice();
        if !same_path(x, y) {
            path_ordered(x, y)
        } else {
            a <= b
        }
    }
}

/// Which files exist on more than one branch.
fn duplicates(p: &Pass) -> (dup: Vec<bool>)
    ensures
        dup@.len() == p.files@.len(),
        forall|i: int| 0 <= i < dup@.len() ==> #[trigger] dup@[i] == is_dup(*p, i),
{
    broadcast use group_to_multiset_ensures;

    let n = p.files.len();
    let mut all: Vec<usize> = Vec::new();
    let mut dup: Vec<bool> = Vec::new();
    let mut i: usize = 0;
    while i < n
        invariant
            i <= n,
            all@.len() == i,
            dup@.len() == i,
            forall|k: int| 0 <= k < i ==> all@[k] == k,
            forall|k: int| 0 <= k < i ==> !dup@[k],
        decreases n - i,
    {
        all.push(i);
        dup.push(false);
        i = i + 1;
    }
    let by = PathOrder { files: p.files };
    let ghost numbers = all@;
    let sorted = sort_indices(&by, all);
    let ghost leq = by.leq();
    proof {
        by.lemma_total();
        order::lemma_sorted_members(numbers, leq);
        assert forall|x: usize| x < n implies #[trigger] sorted@.contains(x) by {
            assert(numbers[x as int] == x);
            assert(numbers.contains(x));
        }
        assert(numbers.no_duplicates());
        lemma_sorted_no_duplicates(numbers, leq);
    }
    let ghost comps = |k: int| paths::components(p.files@[sorted@[k] as int].rel@);
    let mut k: usize = 1;
    while k < n
        invariant
            1 <= k,
            n == p.files@.len() == dup@.len() == sorted@.len(),
            n > 0 ==> k <= n,
            comps == (|k: int| paths::components(p.files@[sorted@[k] as int].rel@)),
            by.files == p.files,
            order::all_covered(&by, sorted@),
            sorted@.no_duplicates(),
            forall|j: int|
                0 <= j < n ==> (#[trigger] dup@[sorted@[j] as int] <==> (0 < j < k && comps(j - 1)
                    == comps(j)) || (j + 1 < k && comps(j) == comps(j + 1))),
        decreases n - k,
    {
        let a = sorted[k - 1];
        let b = sorted[k];
        assert(by.covers(sorted@[k - 1]));
        assert(by.covers(sorted@[k as int]));
        let ghost before = dup@;
        if same_path(p.files[a].rel.as_slice(), p.files[b].rel.as_slice()) {
            dup.set(a, true);
            dup.set(b, true);
        }
        assert forall|j: int| 0 <= j < n implies (#[trigger] dup@[sorted@[j] as int] <==> (0 < j < k
            + 1 && comps(j - 1) == comps(j)) || (j + 1 < k + 1 && comps(j) == comps(j + 1))) by {
            assert(by.covers(sorted@[j]));
            assert(before[sorted@[j] as int] <==> (0 < j < k && comps(j - 1) == comps(j)) || (j + 1
                < k && comps(j) == comps(j + 1)));
            assert(j != k ==> sorted@[j] != b);
            assert(j != k - 1 ==> sorted@[j] != a);
        }
        k = k + 1;
    }
    assert forall|i: int| 0 <= i < dup@.len() implies #[trigger] dup@[i] == is_dup(*p, i) by {
        assert(sorted@.contains(i as usize));
        let j = choose|j: int| 0 <= j < sorted@.len() && sorted@[j] == i as usize;
        assert(dup@[sorted@[j] as int] == dup@[i]);
        if dup@[i] {
            let o = if 0 < j && comps(j - 1) == comps(j) {
                j - 1
            } else {
                j + 1
            };
            assert(by.covers(sorted@[o]));
            assert(sorted@[o] != sorted@[j]);
            assert(paths::components(p.files@[sorted@[o] as int].rel@) == paths::components(
                p.files@[i].rel@,
            ));
        }
        if is_dup(*p, i) {
            let o = choose|o: int|
                0 <= o < p.files@.len() && o != i && paths::components(
                    (#[trigger] p.files@[o]).rel@,
                ) == paths::components(p.files@[i].rel@);
            assert(sorted@.contains(o as usize));
            let q = choose|q: int| 0 <= q < sorted@.len() && sorted@[q] == o as usize;
            let (lo, hi) = if j < q {
                (j, q)
            } else {
                (q, j)
            };
            lemma_neighbours(p.files@, sorted@, lo, hi, lo + 1);
            lemma_neighbours(p.files@, sorted@, lo, hi, hi - 1);
        }
    }
    dup
}

/// Between two equal paths in sorted order there are only equal ones.
proof fn lemma_neighbours(files: Seq<FileMeta>, sorted: Seq<usize>, lo: int, hi: int, m: int)
    requires
        sorted_by(sorted, path_order(files)),
        0 <= lo < hi < sorted.len(),
        lo <= m <= hi,
        paths::components(files[sorted[lo] as int].rel@) == paths::components(
            files[sorted[hi] as int].rel@,
        ),
    ensures
        paths::components(files[sorted[m] as int].rel@) == paths::components(
            files[sorted[lo] as int].rel@,
        ),
{
    let leq = path_order(files);
    let x = files[sorted[lo] as int].rel@;
    let y = files[sorted[m] as int].rel@;
    let z = files[sorted[hi] as int].rel@;
    if lo < m && m < hi {
        assert(leq(sorted[lo], sorted[m]));
        assert(leq(sorted[m], sorted[hi]));
        if paths::components(x) != paths::components(y) {
            assert(paths::path_le(x, y));
            assert(paths::path_le(y, z));
            paths::lemma_path_le_total(x, y);
        }
    }
}

proof fn lemma_sorted_no_duplicates(s: Seq<usize>, leq: spec_fn(usize, usize) -> bool)
    requires
        total_ordering(leq),
        s.no_duplicates(),
    ensures
        s.sort_by(leq).no_duplicates(),
{
    s.lemma_sort_by_ensures(leq);
    s.lemma_multiset_has_no_duplicates();
    s.sort_by(leq).lemma_multiset_has_no_duplicates_conv();
}

struct PlanState<'a> {
    p: &'a Pass<'a>,
    dup: Vec<bool>,
    rule_of: Vec<Option<usize>>,
    incoming: Vec<u64>,
    outgoing: Vec<u128>,
    planned: Vec<Option<usize>>,
    moves: Vec<Move>,
    who: Ghost<Seq<usize>>,
    budget: Option<i64>,
}

proof fn lemma_tier_bounds(p: Pass, d: Draft, tier: usize, n: nat)
    ensures
        0 <= tier_use(p, d, tier, n) <= n * u64::MAX,
        0 <= tier_size(p, tier, n) <= n * u64::MAX,
    decreases n,
{
    if n > 0 {
        lemma_tier_bounds(p, d, tier, (n - 1) as nat);
        assert(n * u64::MAX == (n - 1) * u64::MAX + u64::MAX) by (nonlinear_arith);
    }
}

/// The bytes of a rule are counted without overflow.
pub proof fn lemma_fast_bytes_bound(p: Pass, d: Draft, ri: int, n: nat)
    ensures
        0 <= fast_bytes(p, d, ri, n) <= n * u64::MAX,
    decreases n,
{
    if n > 0 {
        lemma_fast_bytes_bound(p, d, ri, (n - 1) as nat);
        assert(n * u64::MAX == (n - 1) * u64::MAX + u64::MAX) by (nonlinear_arith);
    }
}

impl<'a> PlanState<'a> {
    spec fn draft(&self) -> Draft {
        Draft {
            incoming: self.incoming@,
            outgoing: self.outgoing@,
            planned: self.planned@,
            moves: move_views(self.moves@),
            who: self.who@,
            budget: self.budget,
        }
    }

    /// The plan has its shape, and duplicates and rules were looked up rightly.
    spec fn wf(&self) -> bool {
        &&& shaped(*self.p, self.draft())
        &&& self.dup@.len() == self.p.files@.len()
        &&& forall|i: int|
            0 <= i < self.dup@.len() ==> #[trigger] self.dup@[i] == is_dup(*self.p, i)
        &&& self.rule_of@.len() == self.p.files@.len()
        &&& forall|i: int|
            0 <= i < self.rule_of@.len() ==> match #[trigger] self.rule_of@[i] {
                Some(r) => r < self.p.cfg.rules@.len() && longest_match(
                    self.p.cfg.rules@,
                    self.p.files@[i].rel@,
                ) == Some(r as int),
                None => longest_match(self.p.cfg.rules@, self.p.files@[i].rel@) is None,
            }
    }

    /// Nothing but the plan differs from `other`.
    spec fn same_inputs(&self, other: &Self) -> bool {
        &&& self.p == other.p
        &&& self.dup@ == other.dup@
        &&& self.rule_of@ == other.rule_of@
    }

    fn new(p: &'a Pass<'a>) -> (r: Self)
        requires
            p.wf(),
        ensures
            r.p == p,
            r.wf(),
            r.draft() == blank(*p),
    {
        let n = p.files.len();
        let m = p.branches.len();
        let mut rule_of: Vec<Option<usize>> = Vec::new();
        let mut planned: Vec<Option<usize>> = Vec::new();
        let mut i: usize = 0;
        while i < n
            invariant
                i <= n == p.files@.len(),
                rule_of@.len() == i,
                planned@ =~= blank(*p).planned.take(i as int),
                forall|k: int|
                    0 <= k < i ==> match #[trigger] rule_of@[k] {
                        Some(r) => r < p.cfg.rules@.len() && longest_match(
                            p.cfg.rules@,
                            p.files@[k].rel@,
                        ) == Some(r as int),
                        None => longest_match(p.cfg.rules@, p.files@[k].rel@) is None,
                    },
            decreases n - i,
        {
            rule_of.push(p.cfg.find_rule(&p.files[i].rel));
            planned.push(None);
            i = i + 1;
        }
        let mut incoming: Vec<u64> = Vec::new();
        let mut outgoing: Vec<u128> = Vec::new();
        let mut b: usize = 0;
        while b < m
            invariant
                b <= m == p.branches@.len(),
                incoming@ =~= blank(*p).incoming.take(b as int),
                outgoing@ =~= blank(*p).outgoing.take(b as int),
            decreases m - b,
        {
            incoming.push(0);
            outgoing.push(0);
            b = b + 1;
        }
        let budget = match p.cfg.max_move_per_pass {
            Some(b) => if b <= 0x7fff_ffff_ffff_ffff {
                Some(b as i64)
            } else {
                Some((b as i128 - 0x1_0000_0000_0000_0000) as i64)
            },
            None => None,
        };
        let r = PlanState {
            p,
            dup: duplicates(p),
            rule_of,
            incoming,
            outgoing,
            planned,
            moves: Vec::new(),
            who: Ghost(Seq::empty()),
            budget,
        };
        proof {
            assert(r.planned@ =~= blank(*p).planned);
            assert(r.incoming@ =~= blank(*p).incoming);
            assert(r.outgoing@ =~= blank(*p).outgoing);
            assert(move_views(r.moves@) =~= Seq::<MoveView>::empty());
            lemma_blank_shaped(*p);
        }
        r
    }

    fn eff_tier(&self, i: usize) -> (r: usize)
        requires
            self.wf(),
            i < self.p.files@.len(),
        ensures
            r == eff_tier(*self.p, self.draft(), i as int),
    {
        match self.planned[i] {
            Some(t) => t,
            None => self.p.branches[self.p.files[i].branch].tier,
        }
    }

    fn room(&self, b: usize) -> (r: u64)
        requires
            self.wf(),
            b < self.p.branches@.len(),
        ensures
            r == projected_free(*self.p, self.draft(), b as int),
    {
        self.p.usage[b].free.saturating_sub(self.incoming[b])
    }

    /// Pick the destination branch within a tier: most projected free space,
    /// and must keep `min_free` headroom after receiving the file.
    fn choose_branch(&self, tier: usize, size: u64) -> (r: Option<usize>)
        requires
            self.wf(),
        ensures
            match r {
                Some(b) => b < self.p.branches@.len() && chosen(
                    *self.p,
                    self.draft(),
                    tier,
                    size,
                ) == Some(b as int),
                None => chosen(*self.p, self.draft(), tier, size) is None,
            },
    {
        let need = size.saturating_add(self.p.cfg.min_free);
        let n = self.p.branches.len();
        let mut best: Option<usize> = None;
        let mut b: usize = 0;
        while b < n
            invariant
                b <= n == self.p.branches@.len(),
                self.wf(),
                need == capped(size + self.p.cfg.min_free),
                match best {
                    Some(x) => x < b && roomiest(*self.p, self.draft(), tier, size, b as nat)
                        == Some(x as int),
                    None => roomiest(*self.p, self.draft(), tier, size, b as nat) is None,
                },
            decreases n - b,
        {
            if self.p.branches[b].tier == tier && self.room(b) >= need {
                match best {
                    Some(x) => {
                        if self.room(b) >= self.room(x) {
                            best = Some(b);
                        }
                    },
                    None => {
                        best = Some(b);
                    },
                }
            }
            b = b + 1;
        }
        best
    }

    /// Projected (used, total) bytes for a tier after the plan so far.
    fn tier_projected(&self, tier: usize) -> (r: (u128, u128))
        requires
            self.wf(),
        ensures
            r.0 == used_on(*self.p, self.draft(), tier),
            r.1 == size_of(*self.p, tier),
            r.0 <= 0xffff_ffff_ffff_ffff * u64::MAX,
            r.1 <= 0xffff_ffff_ffff_ffff * u64::MAX,
    {
        let ghost d = self.draft();
        let n = self.p.branches.len();
        let mut used: u128 = 0;
        let mut total: u128 = 0;
        let mut b: usize = 0;
        while b < n
            invariant
                b <= n == self.p.branches@.len(),
                self.wf(),
                d == self.draft(),
                used == tier_use(*self.p, d, tier, b as nat),
                total == tier_size(*self.p, tier, b as nat),
            decreases n - b,
        {
            proof {
                lemma_tier_bounds(*self.p, d, tier, b as nat);
                assert(b * u64::MAX <= 0xffff_ffff_ffff_ffff * u64::MAX) by (nonlinear_arith)
                    requires
                        b <= 0xffff_ffff_ffff_ffff,
                ;
            }
            if self.p.branches[b].tier == tier {
                let u = self.p.usage[b];
                let filled = u.total.saturating_sub(u.free).saturating_add(self.incoming[b]);
                let gone = self.outgoing[b];
                let rest = if filled as u128 >= gone {
                    filled - gone as u64
                } else {
                    0
                };
                total = total + u.total as u128;
                used = used + rest as u128;
            }
            b = b + 1;
        }
        proof {
            lemma_tier_bounds(*self.p, d, tier, n as nat);
            assert(n * u64::MAX <= 0xffff_ffff_ffff_ffff * u64::MAX) by (nonlinear_arith)
                requires
                    n <= 0xffff_ffff_ffff_ffff,
            ;
        }
        (used, total)
    }

    /// Plan a move of file `i` to a tier. Returns true if one was planned.
    fn plan(&mut self, i: usize, to_tier: usize, reason: &'static str) -> (r: bool)
        requires
            old(self).wf(),
            i < old(self).p.files@.len(),
        ensures
            final(self).same_inputs(old(self)),
            final(self).wf(),
            final(self).draft() == with_move(
                *old(self).p,
                old(self).draft(),
                i as int,
                to_tier,
                reason@,
            ),
            r == plannable(*old(self).p, old(self).draft(), i as int, to_tier),
    {
        let ghost d = self.draft();
        proof {
            lemma_with_move(*self.p, d, i as int, to_tier, reason@);
        }
        if self.planned[i].is_some() {
            return false;
        }
        let f = &self.p.files[i];
        if self.p.branches[f.branch].tier == to_tier {
            return false;
        }
        if let Some(b) = self.budget {
            if f.size as i64 > b {
                return false;
            }
        }
        let dst = match self.choose_branch(to_tier, f.size) {
            Some(x) => x,
            None => {
                return false;
            },
        };
        let received = self.incoming[dst] + f.size;
        self.incoming.set(dst, received);
        let sent = self.outgoing[f.branch] + f.size as u128;
        self.outgoing.set(f.branch, sent);
        if let Some(b) = self.budget {
            self.budget = Some(b - f.size as i64);
        }
        self.planned.set(i, Some(to_tier));
        let m = Move {
            rel: copy_of(f.rel.as_slice()),
            from: f.branch,
            to: dst,
            size: f.size,
            reason,
        };
        let ghost before = self.moves@;
        self.moves.push(m);
        proof {
            self.who@ = self.who@.push(i);
            assert(move_views(self.moves@) =~= move_views(before).push(m@));
        }
        true
    }

    fn cooling(&self, i: usize) -> (r: bool)
        requires
            self.wf(),
            i < self.p.files@.len(),
        ensures
            r == cooling(*self.p, i as int),
    {
        (self.p.now as i128 - self.p.files[i].mtime as i128) < self.p.cfg.mtime_cooldown_secs as i128
    }

    fn kept(&self, i: usize) -> (r: bool)
        requires
            self.wf(),
            i < self.p.files@.len(),
        ensures
            r == kept(*self.p, i as int),
    {
        match self.rule_of[i] {
            Some(r) => match self.p.cfg.rules[r].keep_secs {
                Some(k) => (self.p.now as i128 - self.p.files[i].atime as i128) < k as i128,
                None => false,
            },
            None => false,
        }
    }

    fn demotable(&self, i: usize) -> (r: bool)
        requires
            self.wf(),
            i < self.p.files@.len(),
        ensures
            r == may_demote(*self.p, i as int),
    {
        if self.p.files[i].nlink != 1 {
            return false;  // moving would break the hardlink
        }
        if self.cooling(i) {
            return false;  // possibly still being written
        }
        if let Some(r) = self.rule_of[i] {
            if self.p.cfg.rules[r].pin.is_some() {
                return false;
            }
        }
        !self.kept(i)
    }

    fn push_target(&self, i: usize) -> (r: Option<usize>)
        requires
            self.wf(),
            i < self.p.files@.len(),
        ensures
            r == push_target(*self.p, i as int),
    {
        match self.rule_of[i] {
            Some(r) => self.p.cfg.rules[r].aggressive_target,
            None => None,
        }
    }

    /// Pins: gather strays onto the pinned tier (either direction).
    fn gather_pinned(&mut self)
        requires
            old(self).wf(),
        ensures
            final(self).same_inputs(old(self)),
            final(self).wf(),
            final(self).draft() == after_pins(
                *old(self).p,
                old(self).draft(),
                old(self).p.files@.len(),
            ),
    {
        let ghost d = self.draft();
        let n = self.p.files.len();
        let mut i: usize = 0;
        while i < n
            invariant
                i <= n == self.p.files@.len(),
                self.same_inputs(old(self)),
                self.wf(),
                self.draft() == after_pins(*self.p, d, i as nat),
            decreases n - i,
        {
            if let Some(r) = self.rule_of[i] {
                if let Some(t) = self.p.cfg.rules[r].pin {
                    if self.eff_tier(i) != t && self.p.files[i].nlink == 1 && !self.dup[i] {
                        self.plan(i, t, "pin");
                    }
                }
            }
            i = i + 1;
        }
    }

    /// Aggressive subtrees: push down regardless of watermarks.
    fn push_down(&mut self)
        requires
            old(self).wf(),
        ensures
            final(self).same_inputs(old(self)),
            final(self).wf(),
            final(self).draft() == after_push(
                *old(self).p,
                old(self).draft(),
                pushed(*old(self).p, old(self).draft()),
            ),
    {
        let ghost p = *self.p;
        let ghost d = self.draft();
        let ghost pred = |i: usize| is_pushed(p, d, i);
        let n = self.p.files.len();
        let mut cands: Vec<usize> = Vec::new();
        let mut i: usize = 0;
        while i < n
            invariant
                i <= n == self.p.files@.len(),
                self.wf(),
                p == *self.p,
                d == self.draft(),
                pred == (|i: usize| is_pushed(p, d, i)),
                cands@ == order::select(i as nat, pred),
                forall|k: int| 0 <= k < cands@.len() ==> (#[trigger] cands@[k]) < n,
            decreases n - i,
        {
            if let Some(t) = self.push_target(i) {
                if self.eff_tier(i) < t && self.demotable(i) && !self.dup[i] {
                    cands.push(i);
                }
            }
            i = i + 1;
        }
        let cands = self.sorted(cands, false);
        let mut k: usize = 0;
        assert(cands@.take(0) =~= Seq::<usize>::empty());
        while k < cands.len()
            invariant
                k <= cands.len(),
                p == *self.p,
                self.same_inputs(old(self)),
                self.wf(),
                forall|k: int| 0 <= k < cands@.len() ==> (#[trigger] cands@[k]) < p.files@.len(),
                self.draft() == after_push(p, d, cands@.take(k as int)),
            decreases cands.len() - k,
        {
            let i = cands[k];
            assert(cands@.take(k + 1).drop_last() =~= cands@.take(k as int));
            assert(cands@.take(k + 1).last() == i);
            if let Some(t) = self.push_target(i) {
                self.plan(i, t, "aggressive");
            }
            k = k + 1;
        }
        assert(cands@.take(k as int) =~= cands@);
    }

    /// The given files by temperature.
    fn sorted(&self, v: Vec<usize>, hot: bool) -> (r: Vec<usize>)
        requires
            self.wf(),
            forall|k: int| 0 <= k < v@.len() ==> (#[trigger] v@[k]) < self.p.files@.len(),
        ensures
            r@ == v@.sort_by(
                if hot {
                    hottest_first(*self.p)
                } else {
                    coldest_first(*self.p)
                },
            ),
            forall|k: int| 0 <= k < r@.len() ==> (#[trigger] r@[k]) < self.p.files@.len(),
    {
        let by = TempOrder { temps: self.p.temps, pass: Ghost(*self.p), hot };
        assert(order::all_covered(&by, v@));
        let r = sort_indices(&by, v);
        assert forall|k: int| 0 <= k < r@.len() implies (#[trigger] r@[k]) < self.p.files@.len() by {
            assert(by.covers(r@[k]));
        }
        r
    }

    fn owned_by(&self, ri: usize, i: usize) -> (r: bool)
        requires
            self.wf(),
            i < self.p.files@.len(),
        ensures
            r == owned_by(*self.p, ri as int, i as int),
    {
        match self.rule_of[i] {
            Some(r) => r == ri,
            None => false,
        }
    }

    /// The bytes of a rule above the slowest tier.
    fn fast_bytes(&self, ri: usize) -> (r: u128)
        requires
            self.wf(),
        ensures
            r == fast_bytes(*self.p, self.draft(), ri as int, self.p.files@.len()),
    {
        let n = self.p.files.len();
        let last = self.p.cfg.tiers.len() - 1;
        let ghost d = self.draft();
        let mut used: u128 = 0;
        let mut i: usize = 0;
        while i < n
            invariant
                i <= n == self.p.files@.len(),
                last == self.p.last(),
                self.wf(),
                d == self.draft(),
                used == fast_bytes(*self.p, d, ri as int, i as nat),
            decreases n - i,
        {
            proof {
                lemma_fast_bytes_bound(*self.p, d, ri as int, i as nat);
                assert(i * u64::MAX <= 0xffff_ffff_ffff_ffff * u64::MAX) by (nonlinear_arith)
                    requires
                        i <= 0xffff_ffff_ffff_ffff,
                ;
            }
            if self.owned_by(ri, i) && self.eff_tier(i) < last {
                used = used + self.p.files[i].size as u128;
            }
            i = i + 1;
        }
        used
    }

    /// The files that can relieve the quota of a rule, coldest first.
    fn surplus(&self, ri: usize) -> (r: Vec<usize>)
        requires
            self.wf(),
        ensures
            r@ == surplus(*self.p, self.draft(), ri as int),
            forall|k: int| 0 <= k < r@.len() ==> (#[trigger] r@[k]) < self.p.files@.len(),
    {
        let ghost p = *self.p;
        let ghost d = self.draft();
        let ghost pred = |i: usize| is_surplus(p, d, ri as int, i);
        let n = self.p.files.len();
        let last = self.p.cfg.tiers.len() - 1;
        let mut cands: Vec<usize> = Vec::new();
        let mut i: usize = 0;
        while i < n
            invariant
                i <= n == self.p.files@.len(),
                self.wf(),
                p == *self.p,
                d == self.draft(),
                last == p.last(),
                pred == (|i: usize| is_surplus(p, d, ri as int, i)),
                cands@ == order::select(i as nat, pred),
                forall|k: int| 0 <= k < cands@.len() ==> (#[trigger] cands@[k]) < n,
            decreases n - i,
        {
            if self.owned_by(ri, i) && self.eff_tier(i) < last && self.demotable(i) && !self.dup[i] {
                cands.push(i);
            }
            i = i + 1;
        }
        self.sorted(cands, false)
    }

    /// Quotas: cap subtree footprint on the fast tiers.
    fn cap_subtrees(&mut self)
        requires
            old(self).wf(),
        ensures
            final(self).same_inputs(old(self)),
            final(self).wf(),
            final(self).draft() == after_quotas(
                *old(self).p,
                old(self).draft(),
                old(self).p.cfg.rules@.len(),
            ),
    {
        let ghost d = self.draft();
        let n = self.p.cfg.rules.len();
        let mut ri: usize = 0;
        while ri < n
            invariant
                ri <= n == self.p.cfg.rules@.len(),
                self.same_inputs(old(self)),
                self.wf(),
                self.draft() == after_quotas(*self.p, d, ri as nat),
            decreases n - ri,
        {
            if let Some(quota) = self.p.cfg.rules[ri].quota {
                let used = self.fast_bytes(ri);
                let cands = self.surplus(ri);
                self.cap(used, quota, &cands);
            }
            ri = ri + 1;
        }
    }

    /// Sends the given files to the slowest tier in turn, as long as the quota
    /// is exceeded.
    fn cap(&mut self, used: u128, quota: u64, cands: &Vec<usize>)
        requires
            old(self).wf(),
            forall|k: int| 0 <= k < cands@.len() ==> (#[trigger] cands@[k]) < old(
                self,
            ).p.files@.len(),
        ensures
            final(self).same_inputs(old(self)),
            final(self).wf(),
            final(self).draft() == after_cap(
                *old(self).p,
                old(self).draft(),
                used as int,
                quota,
                cands@,
            ).0,
    {
        let ghost p = *self.p;
        let ghost d = self.draft();
        let last = self.p.cfg.tiers.len() - 1;
        let mut left = used;
        let mut k: usize = 0;
        assert(cands@.take(0) =~= Seq::<usize>::empty());
        while k < cands.len()
            invariant
                k <= cands.len(),
                p == *self.p,
                last == p.last(),
                self.same_inputs(old(self)),
                self.wf(),
                forall|k: int| 0 <= k < cands@.len() ==> (#[trigger] cands@[k]) < p.files@.len(),
                (self.draft(), left as int) == after_cap(
                    p,
                    d,
                    used as int,
                    quota,
                    cands@.take(k as int),
                ),
            decreases cands.len() - k,
        {
            let i = cands[k];
            assert(cands@.take(k + 1).drop_last() =~= cands@.take(k as int));
            assert(cands@.take(k + 1).last() == i);
            if left > quota as u128 {
                let size = self.p.files[i].size as u128;
                if self.plan(i, last, "quota") {
                    left = if left >= size {
                        left - size
                    } else {
                        0
                    };
                }
            }
            k = k + 1;
        }
        assert(cands@.take(k as int) =~= cands@);
    }

    /// The files to bring back to the fastest tier, hottest first.
    fn wanted(&self) -> (r: Vec<usize>)
        requires
            self.wf(),
        ensures
            r@ == wanted(*self.p, self.draft()),
            forall|k: int| 0 <= k < r@.len() ==> (#[trigger] r@[k]) < self.p.files@.len(),
    {
        let ghost p = *self.p;
        let ghost d = self.draft();
        let ghost pred = |i: usize| is_wanted(p, d, i);
        let n = self.p.files.len();
        let mut cands: Vec<usize> = Vec::new();
        let mut i: usize = 0;
        while i < n
            invariant
                i <= n == self.p.files@.len(),
                self.wf(),
                p == *self.p,
                d == self.draft(),
                pred == (|i: usize| is_wanted(p, d, i)),
                cands@ == order::select(i as nat, pred),
                forall|k: int| 0 <= k < cands@.len() ==> (#[trigger] cands@[k]) < n,
            decreases n - i,
        {
            if self.kept(i) && self.eff_tier(i) > 0 && self.p.files[i].nlink == 1 && !self.cooling(i)
                && !self.dup[i] {
                cands.push(i);
            }
            i = i + 1;
        }
        self.sorted(cands, true)
    }

    /// Promote recently used files back to the fastest tier.
    fn promote(&mut self)
        requires
            old(self).wf(),
        ensures
            final(self).same_inputs(old(self)),
            final(self).wf(),
            final(self).draft() == after_promotion(
                *old(self).p,
                old(self).draft(),
                wanted(*old(self).p, old(self).draft()),
            ),
    {
        let ghost p = *self.p;
        let cands = self.wanted();
        let total = self.tier_projected(0).1;
        let high = self.p.cfg.tiers[0].high;
        let ghost end = after_promotion(p, self.draft(), cands@);
        let mut k: usize = 0;
        assert(cands@.skip(0) =~= cands@);
        while k < cands.len()
            invariant_except_break
                end == after_promotion(p, self.draft(), cands@.skip(k as int)),
            invariant
                k <= cands.len(),
                p == *self.p,
                total == size_of(p, 0),
                high == p.cfg.tiers@[0].high,
                self.same_inputs(old(self)),
                self.wf(),
                forall|k: int| 0 <= k < cands@.len() ==> (#[trigger] cands@[k]) < p.files@.len(),
            ensures
                self.draft() == end,
            decreases cands.len() - k,
        {
            let i = cands[k];
            assert(cands@.skip(k as int)[0] == i);
            assert(cands@.skip(k as int).skip(1) =~= cands@.skip(k + 1));
            let used = self.tier_projected(0).0;
            let size = self.p.files[i].size;
            let filled = if used > (u64::MAX - size) as u128 {
                u64::MAX
            } else {
                used as u64 + size
            };
            if !within(filled as u128, total, high) {
                break ;  // don't promote past the high watermark
            }
            self.plan(i, 0, "keep-promote");
            k = k + 1;
        }
    }

    /// The files that can relieve a tier, coldest first.
    fn load(&self, t: usize) -> (r: Vec<usize>)
        requires
            self.wf(),
        ensures
            r@ == load(*self.p, self.draft(), t),
            forall|k: int| 0 <= k < r@.len() ==> (#[trigger] r@[k]) < self.p.files@.len(),
    {
        let ghost p = *self.p;
        let ghost d = self.draft();
        let ghost pred = |i: usize| is_load(p, d, t, i);
        let n = self.p.files.len();
        let mut cands: Vec<usize> = Vec::new();
        let mut i: usize = 0;
        while i < n
            invariant
                i <= n == self.p.files@.len(),
                self.wf(),
                p == *self.p,
                d == self.draft(),
                pred == (|i: usize| is_load(p, d, t, i)),
                cands@ == order::select(i as nat, pred),
                forall|k: int| 0 <= k < cands@.len() ==> (#[trigger] cands@[k]) < n,
            decreases n - i,
        {
            // not a file merely planned into the tier
            if self.eff_tier(i) == t && self.p.branches[self.p.files[i].branch].tier == t
                && self.demotable(i) && !self.dup[i] {
                cands.push(i);
            }
            i = i + 1;
        }
        self.sorted(cands, false)
    }

    /// Sends the given files one tier down in turn, as long as the tier is above
    /// its low watermark.
    fn drain(&mut self, t: usize, total: u128, cands: &Vec<usize>)
        requires
            old(self).wf(),
            t < old(self).p.last(),
            total == size_of(*old(self).p, t),
            forall|k: int| 0 <= k < cands@.len() ==> (#[trigger] cands@[k]) < old(
                self,
            ).p.files@.len(),
        ensures
            final(self).same_inputs(old(self)),
            final(self).wf(),
            final(self).draft() == after_drain(*old(self).p, old(self).draft(), t, cands@),
    {
        let ghost p = *self.p;
        let ghost d = self.draft();
        let low = self.p.cfg.tiers[t].low;
        assert(t + 1 < self.p.cfg.tiers.len());
        let below = t + 1;
        let mut k: usize = 0;
        assert(cands@.take(0) =~= Seq::<usize>::empty());
        while k < cands.len()
            invariant
                k <= cands.len(),
                p == *self.p,
                t < p.last(),
                total == size_of(p, t),
                low == p.cfg.tiers@[t as int].low,
                below == t + 1,
                self.same_inputs(old(self)),
                self.wf(),
                forall|k: int| 0 <= k < cands@.len() ==> (#[trigger] cands@[k]) < p.files@.len(),
                self.draft() == after_drain(p, d, t, cands@.take(k as int)),
            decreases cands.len() - k,
        {
            let i = cands[k];
            assert(cands@.take(k + 1).drop_last() =~= cands@.take(k as int));
            assert(cands@.take(k + 1).last() == i);
            let used = self.tier_projected(t).0;
            if !within(used, total, low) {
                self.plan(i, below, "watermark");
            }
            k = k + 1;
        }
        assert(cands@.take(k as int) =~= cands@);
    }

    /// Watermarks: per-tier pressure relief, coldest first.
    fn relieve(&mut self)
        requires
            old(self).wf(),
        ensures
            final(self).same_inputs(old(self)),
            final(self).wf(),
            final(self).draft() == after_watermarks(
                *old(self).p,
                old(self).draft(),
                old(self).p.last() as nat,
            ),
    {
        let ghost d = self.draft();
        let last = self.p.cfg.tiers.len() - 1;
        let mut t: usize = 0;
        while t < last
            invariant
                t <= last == self.p.last(),
                self.same_inputs(old(self)),
                self.wf(),
                self.draft() == after_watermarks(*self.p, d, t as nat),
            decreases last - t,
        {
            let (used, total) = self.tier_projected(t);
            if total != 0 && !within(used, total, self.p.cfg.tiers[t].high) {
                let cands = self.load(t);
                self.drain(t, total, &cands);
            }
            t = t + 1;
        }
    }
}

/// `used` bytes of `total` are at most so many percent.
fn within(used: u128, total: u128, percent: u32) -> (r: bool)
    ensures
        r == (used <= total as int / 100 * percent),
{
    match (total / 100).checked_mul(percent as u128) {
        Some(mark) => used <= mark,
        None => true,
    }
}

/// The moves of one pass.
///
/// `temps` holds the temperature of each file and `usage` the filesystem usage
/// of each branch.
pub fn build_plan(
    cfg: &PoolConfig,
    branches: &Vec<Branch>,
    files: &Vec<FileMeta>,
    temps: &Vec<i64>,
    usage: &Vec<FsUsage>,
    now: i64,
) -> (r: Vec<Move>)
    requires
        (Pass { cfg, branches, files, temps, usage, now }).wf(),
    ensures
        move_views(r@) == drafted(Pass { cfg, branches, files, temps, usage, now }).moves,
{
    let pass = Pass { cfg, branches, files, temps, usage, now };
    let mut st = PlanState::new(&pass);
    st.gather_pinned();
    st.push_down();
    st.cap_subtrees();
    st.promote();
    st.relieve();
    st.moves
}

} // verus!
