//! Configuration schema.
//!
//! Paths are byte strings; durations are counts of nanoseconds.

use crate::paths;
use crate::paths::under;
use crate::text::copy_of;
use vstd::prelude::*;

pub mod compile;
pub mod laws;

verus! {

/// Operation order inside of a correction pass.
#[derive(Debug, Clone, Copy, PartialEq, Eq, Structural)]
pub enum DispatchSorting {
    AscendingAccess,
    DescendingAccess,
    AscendingModification,
    DescendingModification,
    AscendingSize,
    DescendingSize,
}

impl Default for DispatchSorting {
    fn default() -> (r: DispatchSorting)
        ensures
            r == DispatchSorting::AscendingAccess,
    {
        DispatchSorting::AscendingAccess
    }
}

// ---- raw schema ----------------------------------------------------------------

/// A configuration as it is written.
#[derive(Debug)]
pub struct RawConfig {
    pub mount: Option<String>,
    pub interval: Option<String>,
    pub policy: Option<String>,
    pub max_move_bytes_per_cycle: Option<String>,
    pub settle: Option<String>,
    pub dry_run: bool,
    pub tiers: Vec<RawTier>,
    pub rules: Vec<RawRule>,
    pub exclude: Vec<String>,
}

#[derive(Debug)]
pub struct RawTier {
    pub level: usize,
    pub label: Option<String>,
    pub paths: Vec<String>,
}

#[derive(Debug)]
pub struct RawRule {
    /// Subtree path relative to the mount root, NO leading slash.
    /// Absent: this is the default rule.
    pub path: Option<String>,
    pub quota: Option<String>,
    /// Files on tiers up to this index count toward the quota (default 0).
    pub quota_max_tier: Option<usize>,
    /// Keep files accessed within this window on fast storage (pin).
    pub min_age: Option<String>,
    /// Eagerly demote files older than this regardless of quota.
    pub max_age: Option<String>,
    /// Demote everything not pinned by `min_age` (equivalent to max_age=0).
    pub aggressive: bool,
    /// Destination tier for demotions (default: one tier slower).
    pub target_tier: Option<usize>,
    /// Never move files in this subtree.
    pub pin: bool,
    /// Move ordering for this subtree's quota/demotion pass.
    pub dispatch_sort: Option<DispatchSorting>,
    /// Cross-subtree ordering weight (higher = enforced earlier).
    pub priority: i32,
}

// ---- compiled forms ----------------------------------------------------------

/// A speed class and the branches that belong to it.
#[derive(Debug)]
pub struct TierSpec {
    pub level: usize,
    pub label: Option<String>,
    pub paths: Vec<String>,
}

/// The characters of each text of a list.
pub open spec fn texts(v: Seq<String>) -> Seq<Seq<char>> {
    v.map_values(|s: String| s@)
}

/// The characters of a text, if there is one.
pub open spec fn text_in(o: Option<String>) -> Option<Seq<char>> {
    match o {
        Some(s) => Some(s@),
        None => None,
    }
}

/// A tier with its texts as sequences.
#[verifier::ext_equal]
pub struct TierSpecView {
    pub level: usize,
    pub label: Option<Seq<char>>,
    pub paths: Seq<Seq<char>>,
}

impl View for TierSpec {
    type V = TierSpecView;

    open spec fn view(&self) -> TierSpecView {
        TierSpecView { level: self.level, label: text_in(self.label), paths: texts(self.paths@) }
    }
}

impl View for RawTier {
    type V = TierSpecView;

    open spec fn view(&self) -> TierSpecView {
        TierSpecView { level: self.level, label: text_in(self.label), paths: texts(self.paths@) }
    }
}

/// How the files of a subtree are treated.
#[derive(Debug)]
pub struct Rule {
    /// Empty for the default rule; otherwise the relative subtree path.
    pub path: Vec<u8>,
    pub quota: Option<u64>,
    pub quota_max_tier: usize,
    pub min_age: Option<u128>,
    pub max_age: Option<u128>,
    pub aggressive: bool,
    pub target_tier: Option<usize>,
    pub pin: bool,
    pub dispatch_sort: DispatchSorting,
    pub priority: i32,
    /// Number of path components, for longest-prefix matching.
    pub depth: usize,
}

/// A rule with its path as a sequence.
#[verifier::ext_equal]
pub struct RuleView {
    pub path: Seq<u8>,
    pub quota: Option<u64>,
    pub quota_max_tier: usize,
    pub min_age: Option<u128>,
    pub max_age: Option<u128>,
    pub aggressive: bool,
    pub target_tier: Option<usize>,
    pub pin: bool,
    pub dispatch_sort: DispatchSorting,
    pub priority: i32,
    pub depth: usize,
}

impl View for Rule {
    type V = RuleView;

    open spec fn view(&self) -> RuleView {
        RuleView {
            path: self.path@,
            quota: self.quota,
            quota_max_tier: self.quota_max_tier,
            min_age: self.min_age,
            max_age: self.max_age,
            aggressive: self.aggressive,
            target_tier: self.target_tier,
            pin: self.pin,
            dispatch_sort: self.dispatch_sort,
            priority: self.priority,
            depth: self.depth,
        }
    }
}

impl Clone for Rule {
    fn clone(&self) -> (r: Self)
        ensures
            r@ == self@,
    {
        Rule {
            path: copy_of(self.path.as_slice()),
            quota: self.quota,
            quota_max_tier: self.quota_max_tier,
            min_age: self.min_age,
            max_age: self.max_age,
            aggressive: self.aggressive,
            target_tier: self.target_tier,
            pin: self.pin,
            dispatch_sort: self.dispatch_sort,
            priority: self.priority,
            depth: self.depth,
        }
    }
}

/// The views of a list of rules.
pub open spec fn rule_views(v: Seq<Rule>) -> Seq<RuleView> {
    v.map_values(|r: Rule| r@)
}

/// The views of a list of tiers.
pub open spec fn tier_views(v: Seq<TierSpec>) -> Seq<TierSpecView> {
    v.map_values(|t: TierSpec| t@)
}

#[derive(Debug)]
pub struct Config {
    pub mount: Option<Vec<u8>>,
    pub interval: u128,
    pub policy: String,
    pub max_move_bytes_per_cycle: Option<u64>,
    pub settle: u128,
    pub dry_run: bool,
    pub tiers: Vec<TierSpec>,
    pub rules: Vec<Rule>,
    pub default_rule: Rule,
    pub exclude: Vec<String>,
}

/// A configuration with its texts and lists as sequences.
#[verifier::ext_equal]
pub struct ConfigView {
    pub mount: Option<Seq<u8>>,
    pub interval: u128,
    pub policy: Seq<char>,
    pub max_move_bytes_per_cycle: Option<u64>,
    pub settle: u128,
    pub dry_run: bool,
    pub tiers: Seq<TierSpecView>,
    pub rules: Seq<RuleView>,
    pub default_rule: RuleView,
    pub exclude: Seq<Seq<char>>,
}

impl View for Config {
    type V = ConfigView;

    open spec fn view(&self) -> ConfigView {
        ConfigView {
            mount: match self.mount {
                Some(m) => Some(m@),
                None => None,
            },
            interval: self.interval,
            policy: self.policy@,
            max_move_bytes_per_cycle: self.max_move_bytes_per_cycle,
            settle: self.settle,
            dry_run: self.dry_run,
            tiers: tier_views(self.tiers@),
            rules: rule_views(self.rules@),
            default_rule: self.default_rule@,
            exclude: texts(self.exclude@),
        }
    }
}

/// The depth of a rule is the number of components of its path.
pub open spec fn measured(r: RuleView) -> bool {
    r.depth == paths::components(r.path).len()
}

impl Config {
    /// The depths of all rules are right.
    pub open spec fn wf(self) -> bool {
        forall|i: int| 0 <= i < self.rules@.len() ==> measured(#[trigger] self.rules@[i]@)
    }
}

/// `rel` is at or below `base`. The empty base, that of the default rule,
/// is above everything.
pub open spec fn covered_by(rel: Seq<u8>, base: Seq<u8>) -> bool {
    base.len() == 0 || paths::is_under(rel, base)
}

/// The position of the deepest rule whose subtree holds `rel`; of equally deep
/// ones the first.
pub open spec fn deepest(rules: Seq<Rule>, rel: Seq<u8>) -> Option<int>
    decreases rules.len(),
{
    if rules.len() == 0 {
        None
    } else {
        let best = deepest(rules.drop_last(), rel);
        let r = rules.last();
        if covered_by(rel, r.path@) && (best is None || rules[best->0].depth < r.depth) {
            Some(rules.len() - 1)
        } else {
            best
        }
    }
}

/// The rule in force for `rel`: the deepest matching subtree rule, or else the
/// default rule.
pub open spec fn governing(config: Config, rel: Seq<u8>) -> Rule {
    match deepest(config.rules@, rel) {
        Some(i) => config.rules@[i],
        None => config.default_rule,
    }
}

/// The rule in force matches, no matching rule is deeper, and no earlier one
/// is as deep; the default rule is in force exactly where no rule matches.
pub proof fn lemma_deepest(rules: Seq<Rule>, rel: Seq<u8>)
    ensures
        match deepest(rules, rel) {
            Some(i) => {
                &&& 0 <= i < rules.len()
                &&& covered_by(rel, rules[i].path@)
                &&& forall|j: int|
                    0 <= j < rules.len() && covered_by(rel, #[trigger] rules[j].path@)
                        ==> rules[j].depth <= rules[i].depth && (j < i ==> rules[j].depth
                        < rules[i].depth)
            },
            None => forall|j: int|
                0 <= j < rules.len() ==> !covered_by(rel, #[trigger] rules[j].path@),
        },
    decreases rules.len(),
{
    if rules.len() > 0 {
        lemma_deepest(rules.drop_last(), rel);
        assert forall|j: int| 0 <= j < rules.len() - 1 implies rules[j]
            == #[trigger] rules.drop_last()[j] by {}
        let best = deepest(rules.drop_last(), rel);
        if best is Some {
            assert(rules[best->0] == rules.drop_last()[best->0]);
        }
        assert forall|j: int| 0 <= j < rules.len() - 1 && covered_by(rel, #[trigger] rules[j].path@)
            implies best is Some && rules[j].depth <= rules[best->0].depth && (j < best->0
            ==> rules[j].depth < rules[best->0].depth) by {
            assert(covered_by(rel, rules.drop_last()[j].path@));
        }
    }
}

/// Whether `rel` is at or below `base` (component-wise prefix). Empty base
/// (the default rule) matches everything.
pub fn path_under(rel: &Vec<u8>, base: &Vec<u8>) -> (r: bool)
    ensures
        r == covered_by(rel@, base@),
{
    if base.len() == 0 {
        return true;
    }
    under(rel.as_slice(), base.as_slice())
}

impl Config {
    /// The position of the deepest subtree rule that matches a relative path.
    pub fn deepest_rule(&self, rel: &Vec<u8>) -> (r: Option<usize>)
        ensures
            match r {
                Some(i) => i < self.rules@.len() && deepest(self.rules@, rel@) == Some(i as int),
                None => deepest(self.rules@, rel@) is None,
            },
    {
        let mut best: Option<usize> = None;
        let mut i: usize = 0;
        while i < self.rules.len()
            invariant
                i <= self.rules.len(),
                match best {
                    Some(b) => b < i && deepest(self.rules@.take(i as int), rel@) == Some(
                        b as int,
                    ),
                    None => deepest(self.rules@.take(i as int), rel@) is None,
                },
            decreases self.rules.len() - i,
        {
            assert(self.rules@.take(i + 1).drop_last() =~= self.rules@.take(i as int));
            let r = &self.rules[i];
            if path_under(rel, &r.path) {
                match best {
                    Some(b) => {
                        if self.rules[b].depth < r.depth {
                            best = Some(i);
                        }
                    },
                    None => {
                        best = Some(i);
                    },
                }
            }
            i = i + 1;
        }
        assert(self.rules@.take(i as int) =~= self.rules@);
        best
    }

    /// Resolve the effective rule for a relative path: the deepest matching
    /// subtree rule, falling back to the default rule.
    pub fn rule_for(&self, rel: &Vec<u8>) -> (r: &Rule)
        ensures
            *r == governing(*self, rel@),
    {
        match self.deepest_rule(rel) {
            Some(b) => &self.rules[b],
            None => &self.default_rule,
        }
    }
}

} // verus!
