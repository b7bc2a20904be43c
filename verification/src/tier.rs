//! Tier ordering over mergerfs branches.
//!
//! mergerfs branch order is not inherently a speed ranking, so tiers are
//! assigned explicitly from config when provided. Tier 0 is the fastest;
//! "demote" means moving to a higher tier index. When config gives no tier
//! mapping, branch order is used as the ranking (first branch = fastest).

use crate::config::TierSpec;
use crate::mergerfs::{Branch, MergerfsMount};
use crate::order;
use crate::paths;
use crate::paths::same_path;
use crate::text;
use crate::text::{
    bytes_of, chars_of, copy_of, copy_range, ends_with, same_string, shown, starts_with, to_decimal,
};
use vstd::prelude::*;
#[allow(unused_imports)]
use vstd::utf8::*;

verus! {

/// A branch with its tier.
#[derive(Debug)]
pub struct TierBranch {
    pub branch: Branch,
    pub tier: usize,
    pub label: String,
}

#[derive(Debug)]
pub struct TierMap {
    pub branches: Vec<TierBranch>,
    pub max_tier: usize,
}

/// A branch belongs to a tier by this entry: one that ends in `*` stands for all
/// paths that begin like it, any other for its own path.
pub open spec fn path_belongs(path: Seq<u8>, entry: Seq<char>) -> bool {
    let shown = text::lossy_text(path);
    if text::has_suffix(entry, "/*"@) {
        text::has_prefix(shown, entry.take(entry.len() - 2))
    } else if text::has_suffix(entry, "*"@) {
        text::has_prefix(shown, entry.take(entry.len() - 1))
    } else {
        shown == entry || paths::components(path) == paths::components(encode_utf8(entry))
    }
}

/// A branch belongs to a tier.
pub open spec fn belongs(path: Seq<u8>, spec: TierSpec) -> bool {
    exists|k: int| 0 <= k < spec.paths@.len() && path_belongs(path, #[trigger] spec.paths@[k]@)
}

/// The first tier that a branch belongs to.
pub open spec fn tier_found(path: Seq<u8>, specs: Seq<TierSpec>) -> Option<TierSpec>
    decreases specs.len(),
{
    if specs.len() == 0 {
        None
    } else if belongs(path, specs[0]) {
        Some(specs[0])
    } else {
        tier_found(path, specs.skip(1))
    }
}

/// The slowest level of the tiers.
pub open spec fn slowest(specs: Seq<TierSpec>) -> usize
    decreases specs.len(),
{
    if specs.len() == 0 {
        0
    } else {
        let m = slowest(specs.drop_last());
        if specs.last().level > m {
            specs.last().level
        } else {
            m
        }
    }
}

/// The name of a tier that has none.
pub open spec fn plain_label(tier: int) -> Seq<char> {
    "tier"@ + text::decimal(tier as nat)
}

/// The tier of a branch: its place in the list where no tiers are given, the
/// first tier that it belongs to, or else one below all tiers.
pub open spec fn assigned(path: Seq<u8>, idx: int, specs: Seq<TierSpec>) -> (int, Seq<char>) {
    if specs.len() == 0 {
        (idx, plain_label(idx))
    } else {
        match tier_found(path, specs) {
            Some(s) => (
                s.level as int,
                match s.label {
                    Some(l) => l@,
                    None => plain_label(s.level as int),
                },
            ),
            // Unmatched branches sink below all configured tiers.
            None => (slowest(specs) + 1, plain_label(slowest(specs) + 1)),
        }
    }
}

/// A level below all tiers can be told wherever one is needed.
pub open spec fn levels_fit(branches: Seq<Branch>, specs: Seq<TierSpec>) -> bool {
    specs.len() == 0 || slowest(specs) < usize::MAX || forall|i: int|
        0 <= i < branches.len() ==> tier_found((#[trigger] branches[i]).path@, specs) is Some
}

/// The slowest tier of the branches.
pub open spec fn max_of(branches: Seq<TierBranch>) -> usize
    decreases branches.len(),
{
    if branches.len() == 0 {
        0
    } else {
        let m = max_of(branches.drop_last());
        if branches.last().tier > m {
            branches.last().tier
        } else {
            m
        }
    }
}

fn label_for(tier: usize) -> (r: String)
    ensures
        r@ == plain_label(tier as int),
{
    let mut r = "tier".to_string();
    r.append(to_decimal(tier as u128).as_str());
    r
}

/// Whether a branch belongs to a tier by this entry.
pub fn path_matches(path: &[u8], spec: &str) -> (r: bool)
    ensures
        r == path_belongs(path@, spec@),
{
    let entry = chars_of(spec);
    let name = shown(path);
    let all = chars_of("/*");
    let star = chars_of("*");
    proof {
        reveal_strlit("/*");
        reveal_strlit("*");
    }
    if ends_with(entry.as_slice(), all.as_slice()) {
        let prefix = copy_range(entry.as_slice(), 0, entry.len() - 2);
        assert(prefix@ =~= entry@.take(entry@.len() - 2));
        starts_with(name.as_slice(), prefix.as_slice())
    } else if ends_with(entry.as_slice(), star.as_slice()) {
        let prefix = copy_range(entry.as_slice(), 0, entry.len() - 1);
        assert(prefix@ =~= entry@.take(entry@.len() - 1));
        starts_with(name.as_slice(), prefix.as_slice())
    } else {
        same_string(name.as_slice(), entry.as_slice()) || same_path(
            path,
            bytes_of(spec).as_slice(),
        )
    }
}

fn is_member(path: &[u8], spec: &TierSpec) -> (r: bool)
    ensures
        r == belongs(path@, *spec),
{
    let mut k: usize = 0;
    while k < spec.paths.len()
        invariant
            k <= spec.paths.len(),
            forall|j: int| 0 <= j < k ==> !path_belongs(path@, #[trigger] spec.paths@[j]@),
        decreases spec.paths.len() - k,
    {
        if path_matches(path, spec.paths[k].as_str()) {
            return true;
        }
        k = k + 1;
    }
    false
}

/// Finds the first tier that a branch belongs to.
fn find_tier(path: &[u8], specs: &Vec<TierSpec>) -> (r: Option<usize>)
    ensures
        match r {
            Some(i) => i < specs@.len() && tier_found(path@, specs@) == Some(specs@[i as int]),
            None => tier_found(path@, specs@) is None,
        },
{
    let mut i: usize = 0;
    assert(specs@.skip(0) =~= specs@);
    while i < specs.len()
        invariant
            i <= specs.len(),
            tier_found(path@, specs@) == tier_found(path@, specs@.skip(i as int)),
        decreases specs.len() - i,
    {
        let ghost rest = specs@.skip(i as int);
        assert(rest[0] == specs@[i as int]);
        assert(rest.skip(1) =~= specs@.skip(i + 1));
        if is_member(path, &specs[i]) {
            return Some(i);
        }
        i = i + 1;
    }
    None
}

fn slowest_of(specs: &Vec<TierSpec>) -> (r: usize)
    ensures
        r == slowest(specs@),
{
    let mut m: usize = 0;
    let mut i: usize = 0;
    assert(specs@.take(0) =~= Seq::<TierSpec>::empty());
    while i < specs.len()
        invariant
            i <= specs.len(),
            m == slowest(specs@.take(i as int)),
        decreases specs.len() - i,
    {
        assert(specs@.take(i + 1).drop_last() =~= specs@.take(i as int));
        if specs[i].level > m {
            m = specs[i].level;
        }
        i = i + 1;
    }
    assert(specs@.take(i as int) =~= specs@);
    m
}

/// The tier of a branch and the name of the tier.
pub fn assign(path: &[u8], order_idx: usize, specs: &Vec<TierSpec>) -> (r: (usize, String))
    requires
        specs@.len() == 0 || slowest(specs@) < usize::MAX || tier_found(path@, specs@) is Some,
    ensures
        (r.0 as int, r.1@) == assigned(path@, order_idx as int, specs@),
{
    if specs.len() == 0 {
        return (order_idx, label_for(order_idx));
    }
    match find_tier(path, specs) {
        Some(i) => {
            let s = &specs[i];
            let label = match &s.label {
                Some(l) => l.clone(),
                None => label_for(s.level),
            };
            (s.level, label)
        },
        None => {
            let fallback = slowest_of(specs) + 1;
            (fallback, label_for(fallback))
        },
    }
}

impl TierMap {
    /// Whether a level below all tiers can be told wherever one is needed.
    pub fn can_build(mount: &MergerfsMount, specs: &Vec<TierSpec>) -> (r: bool)
        ensures
            r == levels_fit(mount.branches@, specs@),
    {
        if specs.len() == 0 || slowest_of(specs) < usize::MAX {
            return true;
        }
        let mut i: usize = 0;
        while i < mount.branches.len()
            invariant
                i <= mount.branches.len(),
                specs@.len() > 0,
                slowest(specs@) == usize::MAX,
                forall|k: int|
                    0 <= k < i ==> tier_found((#[trigger] mount.branches@[k]).path@, specs@)
                        is Some,
            decreases mount.branches.len() - i,
        {
            if find_tier(mount.branches[i].path.as_slice(), specs).is_none() {
                assert(tier_found(mount.branches@[i as int].path@, specs@) is None);
                return false;
            }
            i = i + 1;
        }
        true
    }

    /// Assigns a tier to every branch.
    pub fn build(mount: &MergerfsMount, specs: &Vec<TierSpec>) -> (r: TierMap)
        requires
            levels_fit(mount.branches@, specs@),
        ensures
            r.branches@.len() == mount.branches@.len(),
            forall|i: int|
                0 <= i < r.branches@.len() ==> {
                    let b = #[trigger] r.branches@[i];
                    &&& b.branch@ == mount.branches@[i]@
                    &&& (b.tier as int, b.label@) == assigned(
                        mount.branches@[i].path@,
                        i,
                        specs@,
                    )
                },
            r.max_tier == max_of(r.branches@),
    {
        let mut branches: Vec<TierBranch> = Vec::new();
        let mut max_tier: usize = 0;
        let mut i: usize = 0;
        while i < mount.branches.len()
            invariant
                i <= mount.branches@.len(),
                branches@.len() == i,
                levels_fit(mount.branches@, specs@),
                forall|k: int|
                    0 <= k < branches@.len() ==> {
                        let b = #[trigger] branches@[k];
                        &&& b.branch@ == mount.branches@[k]@
                        &&& (b.tier as int, b.label@) == assigned(
                            mount.branches@[k].path@,
                            k,
                            specs@,
                        )
                    },
                max_tier == max_of(branches@),
            decreases mount.branches.len() - i,
        {
            let b = &mount.branches[i];
            assert(specs@.len() == 0 || slowest(specs@) < usize::MAX || tier_found(
                mount.branches@[i as int].path@,
                specs@,
            ) is Some);
            let (tier, label) = assign(b.path.as_slice(), i, specs);
            let ghost before = branches@;
            branches.push(
                TierBranch {
                    branch: Branch { path: copy_of(b.path.as_slice()), mode: b.mode },
                    tier,
                    label,
                },
            );
            assert(branches@.drop_last() =~= before);
            if tier > max_tier {
                max_tier = tier;
            }
            i = i + 1;
        }
        TierMap { branches, max_tier }
    }

    /// The branch with the given index.
    pub fn branch(&self, idx: usize) -> (r: &TierBranch)
        requires
            idx < self.branches@.len(),
        ensures
            *r == self.branches@[idx as int],
    {
        &self.branches[idx]
    }

    /// Indices of branches at a given tier.
    pub fn at_tier(&self, tier: usize) -> (r: Vec<usize>)
        ensures
            r@ == order::select(
                self.branches@.len(),
                |i: usize| self.branches@[i as int].tier == tier,
            ),
    {
        let ghost pred = |i: usize| self.branches@[i as int].tier == tier;
        let mut r: Vec<usize> = Vec::new();
        let mut i: usize = 0;
        while i < self.branches.len()
            invariant
                i <= self.branches.len(),
                pred == (|i: usize| self.branches@[i as int].tier == tier),
                r@ == order::select(i as nat, pred),
            decreases self.branches.len() - i,
        {
            if self.branches[i].tier == tier {
                r.push(i);
            }
            i = i + 1;
        }
        r
    }
}

/// No tier is slower than the slowest.
pub proof fn lemma_slowest(specs: Seq<TierSpec>)
    ensures
        forall|k: int| 0 <= k < specs.len() ==> (#[trigger] specs[k]).level <= slowest(specs),
    decreases specs.len(),
{
    if specs.len() > 0 {
        lemma_slowest(specs.drop_last());
        assert forall|k: int| 0 <= k < specs.len() implies (#[trigger] specs[k]).level <= slowest(
            specs,
        ) by {
            if k < specs.len() - 1 {
                assert(specs.drop_last()[k] == specs[k]);
            }
        }
    }
}

/// A branch that belongs to no tier is slower than all tiers.
pub proof fn unmatched_branches_sink(path: Seq<u8>, idx: int, specs: Seq<TierSpec>, k: int)
    requires
        tier_found(path, specs) is None,
        0 <= k < specs.len(),
    ensures
        assigned(path, idx, specs).0 > specs[k].level,
{
    lemma_slowest(specs);
}

/// Where no tiers are given the first branch is the fastest.
pub proof fn branch_order_ranks(path: Seq<u8>, idx: int, specs: Seq<TierSpec>)
    requires
        specs.len() == 0,
    ensures
        assigned(path, idx, specs).0 == idx,
{
}

/// No branch is slower than the slowest tier of the map.
pub proof fn max_tier_is_slowest(branches: Seq<TierBranch>)
    ensures
        forall|k: int| 0 <= k < branches.len() ==> (#[trigger] branches[k]).tier <= max_of(branches),
        branches.len() > 0 ==> exists|k: int|
            0 <= k < branches.len() && (#[trigger] branches[k]).tier == max_of(branches),
    decreases branches.len(),
{
    if branches.len() > 0 {
        let front = branches.drop_last();
        max_tier_is_slowest(front);
        assert forall|k: int| 0 <= k < branches.len() implies (#[trigger] branches[k]).tier
            <= max_of(branches) by {
            if k < front.len() {
                assert(front[k] == branches[k]);
            }
        }
        if branches.last().tier > max_of(front) || front.len() == 0 {
            assert(branches[branches.len() - 1].tier == max_of(branches));
        } else {
            let k = choose|k: int|
                0 <= k < front.len() && (#[trigger] front[k]).tier == max_of(front);
            assert(branches[k].tier == max_of(branches));
        }
    }
}

/// A branch that one of the entries of a tier matches is on that tier, under its
/// label, where no entry of an earlier tier matches it.
pub proof fn first_matching_tier_wins(
    path: Seq<u8>,
    idx: int,
    specs: Seq<TierSpec>,
    t: int,
    k: int,
)
    requires
        0 <= t < specs.len(),
        0 <= k < specs[t].paths@.len(),
        path_belongs(path, specs[t].paths@[k]@),
        forall|u: int, j: int|
            0 <= u < t && 0 <= j < specs[u].paths@.len() ==> !path_belongs(
                path,
                #[trigger] specs[u].paths@[j]@,
            ),
    ensures
        assigned(path, idx, specs).0 == specs[t].level,
        specs[t].label matches Some(l) ==> assigned(path, idx, specs).1 == l@,
        specs[t].label is None ==> assigned(path, idx, specs).1 == "tier"@ + text::decimal(
            specs[t].level as nat,
        ),
{
    lemma_found_at(path, specs, t, k);
}

proof fn lemma_found_at(path: Seq<u8>, specs: Seq<TierSpec>, t: int, k: int)
    requires
        0 <= t < specs.len(),
        0 <= k < specs[t].paths@.len(),
        path_belongs(path, specs[t].paths@[k]@),
        forall|u: int, j: int|
            0 <= u < t && 0 <= j < specs[u].paths@.len() ==> !path_belongs(
                path,
                #[trigger] specs[u].paths@[j]@,
            ),
    ensures
        tier_found(path, specs) == Some(specs[t]),
    decreases specs.len(),
{
    if t > 0 {
        let rest = specs.skip(1);
        assert(rest[t - 1] == specs[t]);
        assert forall|u: int, j: int|
            0 <= u < t - 1 && 0 <= j < rest[u].paths@.len() implies !path_belongs(
            path,
            #[trigger] rest[u].paths@[j]@,
        ) by {
            assert(rest[u] == specs[u + 1]);
            assert(!path_belongs(path, specs[u + 1].paths@[j]@));
        }
        lemma_found_at(path, rest, t - 1, k);
        assert(!belongs(path, specs[0])) by {
            assert forall|j: int| 0 <= j < specs[0].paths@.len() implies !path_belongs(
                path,
                #[trigger] specs[0].paths@[j]@,
            ) by {}
        }
    }
}

proof fn lemma_found_nowhere(path: Seq<u8>, specs: Seq<TierSpec>)
    requires
        forall|u: int, j: int|
            0 <= u < specs.len() && 0 <= j < specs[u].paths@.len() ==> !path_belongs(
                path,
                #[trigger] specs[u].paths@[j]@,
            ),
    ensures
        tier_found(path, specs) is None,
    decreases specs.len(),
{
    if specs.len() > 0 {
        let rest = specs.skip(1);
        assert forall|u: int, j: int|
            0 <= u < rest.len() && 0 <= j < rest[u].paths@.len() implies !path_belongs(
            path,
            #[trigger] rest[u].paths@[j]@,
        ) by {
            assert(rest[u] == specs[u + 1]);
            assert(!path_belongs(path, specs[u + 1].paths@[j]@));
        }
        lemma_found_nowhere(path, rest);
        assert(!belongs(path, specs[0])) by {
            assert forall|j: int| 0 <= j < specs[0].paths@.len() implies !path_belongs(
                path,
                #[trigger] specs[0].paths@[j]@,
            ) by {}
        }
    }
}

/// A branch that no entry of any tier matches is one below the slowest tier.
pub proof fn unmatched_branch_is_slowest(path: Seq<u8>, idx: int, specs: Seq<TierSpec>)
    requires
        specs.len() > 0,
        forall|u: int, j: int|
            0 <= u < specs.len() && 0 <= j < specs[u].paths@.len() ==> !path_belongs(
                path,
                #[trigger] specs[u].paths@[j]@,
            ),
    ensures
        forall|u: int|
            0 <= u < specs.len() ==> (#[trigger] specs[u]).level < assigned(path, idx, specs).0,
        exists|u: int|
            0 <= u < specs.len() && (#[trigger] specs[u]).level + 1 == assigned(path, idx, specs).0,
        assigned(path, idx, specs).1 == "tier"@ + text::decimal(
            assigned(path, idx, specs).0 as nat,
        ),
{
    lemma_found_nowhere(path, specs);
    lemma_slowest(specs);
    lemma_slowest_is_one(specs);
}

proof fn lemma_slowest_is_one(specs: Seq<TierSpec>)
    requires
        specs.len() > 0,
    ensures
        exists|u: int| 0 <= u < specs.len() && (#[trigger] specs[u]).level == slowest(specs),
    decreases specs.len(),
{
    let front = specs.drop_last();
    if specs.last().level > slowest(front) || front.len() == 0 {
        assert(specs[specs.len() - 1].level == slowest(specs));
    } else {
        lemma_slowest_is_one(front);
        let u = choose|u: int| 0 <= u < front.len() && (#[trigger] front[u]).level == slowest(
            front,
        );
        assert(specs[u].level == slowest(specs));
    }
}

/// An entry without wildcard matches the branch that it names, in whatever way
/// the path is written, and no other.
pub proof fn plain_entry_matches_its_path(path: Seq<u8>, entry: Seq<char>)
    requires
        entry.len() == 0 || entry.last() != '*',
    ensures
        path == encode_utf8(entry) ==> path_belongs(path, entry),
        paths::components(path) == paths::components(encode_utf8(entry)) ==> path_belongs(
            path,
            entry,
        ),
        path_belongs(path, entry) ==> text::lossy_text(path) == entry || paths::components(path)
            == paths::components(encode_utf8(entry)),
{
    reveal_strlit("/*");
    reveal_strlit("*");
    if text::has_suffix(entry, "*"@) {
        assert(entry.skip(entry.len() - 1)[0] == '*');
    }
    if text::has_suffix(entry, "/*"@) {
        assert(entry.skip(entry.len() - 2)[1] == '*');
    }
}

/// An entry that ends in a wildcard matches the branches that begin like what
/// stands before it; a slash before the wildcard does not count.
pub proof fn wildcard_entry_matches_what_begins_like_it(path: Seq<u8>, head: Seq<char>)
    ensures
        path_belongs(path, head + seq!['/', '*']) <==> head.len() <= text::lossy_text(path).len()
            && forall|i: int|
            0 <= i < head.len() ==> #[trigger] text::lossy_text(path)[i] == head[i],
        head.len() == 0 || head.last() != '/' ==> (path_belongs(path, head.push('*'))
            <==> head.len() <= text::lossy_text(path).len() && forall|i: int|
            0 <= i < head.len() ==> #[trigger] text::lossy_text(path)[i] == head[i]),
{
    reveal_strlit("/*");
    reveal_strlit("*");
    let shown = text::lossy_text(path);
    let a = head + seq!['/', '*'];
    assert(a.skip(a.len() - 2) =~= "/*"@);
    assert(a.take(a.len() - 2) =~= head);
    let b = head.push('*');
    assert(b.skip(b.len() - 1) =~= "*"@);
    assert(b.take(b.len() - 1) =~= head);
    if text::has_suffix(b, "/*"@) {
        assert(b.skip(b.len() - 2)[0] == '/');
        assert(b[b.len() - 2] == '/');
    }
    if head.len() <= shown.len() {
        if forall|i: int| 0 <= i < head.len() ==> #[trigger] shown[i] == head[i] {
            assert(shown.take(head.len() as int) =~= head);
        }
        if shown.take(head.len() as int) == head {
            assert forall|i: int| 0 <= i < head.len() implies #[trigger] shown[i] == head[i] by {
                assert(shown.take(head.len() as int)[i] == shown[i]);
            }
        }
    }
}

/// Without tiers the branches rank by their place, and are named after it.
pub proof fn places_rank_without_tiers(path: Seq<u8>, idx: int, specs: Seq<TierSpec>)
    requires
        specs.len() == 0,
    ensures
        assigned(path, idx, specs) == (idx, "tier"@ + text::decimal(idx as nat)),
{
}

} // verus!
