//! From the written configuration to the compiled one.
//!
//! Durations are read first, each text keeping its reading; everything else is
//! decided by [`ConfigReading::compile`], which reports the first fault in the
//! order in which the parts are compiled.

use super::{
    Config, ConfigView, DispatchSorting, RawConfig, RawRule, RawTier, Rule, RuleView, TierSpec,
    TierSpecView,
};
use crate::config;
use crate::order;
use crate::order::{sort_indices, Precedence};
use crate::paths;
use crate::paths::{depth_of, path_ordered, same_path};
use crate::text;
use crate::text::{bytes_of, chars_of};
use crate::util;
use crate::util::{
    duration_in_range, parse_duration, parse_size, SizeError, SizeErrorView,
};
use vstd::prelude::*;
#[allow(unused_imports)]
use vstd::relations::*;
#[allow(unused_imports)]
use vstd::seq_lib::*;
#[allow(unused_imports)]
use vstd::utf8::*;

verus! {

/// Five minutes, in nanoseconds.
pub const FIVE_MINUTES: u128 = 300_000_000_000;

// ---- readings ------------------------------------------------------------------

/// A duration as written, with the nanoseconds that it stands for, if any.
#[derive(Debug)]
pub struct Reading {
    pub text: String,
    pub nanos: Option<u128>,
}

/// A reading with its text as a sequence.
pub struct ReadingView {
    pub text: Seq<char>,
    pub nanos: Option<u128>,
}

impl View for Reading {
    type V = ReadingView;

    open spec fn view(&self) -> ReadingView {
        ReadingView { text: self.text@, nanos: self.nanos }
    }
}

/// The view of a reading, if there is one.
pub open spec fn reading_in(o: Option<Reading>) -> Option<ReadingView> {
    match o {
        Some(r) => Some(r@),
        None => None,
    }
}

/// A rule with its durations read.
#[derive(Debug)]
pub struct RuleReading {
    pub path: Option<String>,
    pub quota: Option<String>,
    pub quota_max_tier: Option<usize>,
    pub min_age: Option<Reading>,
    pub max_age: Option<Reading>,
    pub aggressive: bool,
    pub target_tier: Option<usize>,
    pub pin: bool,
    pub dispatch_sort: Option<DispatchSorting>,
    pub priority: i32,
}

/// A rule reading with its texts as sequences.
#[verifier::ext_equal]
pub struct RuleReadingView {
    pub path: Option<Seq<char>>,
    pub quota: Option<Seq<char>>,
    pub quota_max_tier: Option<usize>,
    pub min_age: Option<ReadingView>,
    pub max_age: Option<ReadingView>,
    pub aggressive: bool,
    pub target_tier: Option<usize>,
    pub pin: bool,
    pub dispatch_sort: Option<DispatchSorting>,
    pub priority: i32,
}

impl View for RuleReading {
    type V = RuleReadingView;

    open spec fn view(&self) -> RuleReadingView {
        RuleReadingView {
            path: config::text_in(self.path),
            quota: config::text_in(self.quota),
            quota_max_tier: self.quota_max_tier,
            min_age: reading_in(self.min_age),
            max_age: reading_in(self.max_age),
            aggressive: self.aggressive,
            target_tier: self.target_tier,
            pin: self.pin,
            dispatch_sort: self.dispatch_sort,
            priority: self.priority,
        }
    }
}

/// A configuration with its durations read.
#[derive(Debug)]
pub struct ConfigReading {
    pub mount: Option<String>,
    pub interval: Option<Reading>,
    pub policy: Option<String>,
    pub max_move_bytes_per_cycle: Option<String>,
    pub settle: Option<Reading>,
    pub dry_run: bool,
    pub tiers: Vec<RawTier>,
    pub rules: Vec<RuleReading>,
    pub exclude: Vec<String>,
}

/// A configuration reading with its texts and lists as sequences.
#[verifier::ext_equal]
pub struct ConfigReadingView {
    pub mount: Option<Seq<char>>,
    pub interval: Option<ReadingView>,
    pub policy: Option<Seq<char>>,
    pub max_move_bytes_per_cycle: Option<Seq<char>>,
    pub settle: Option<ReadingView>,
    pub dry_run: bool,
    pub tiers: Seq<TierSpecView>,
    pub rules: Seq<RuleReadingView>,
    pub exclude: Seq<Seq<char>>,
}

/// The views of a list of rule readings.
pub open spec fn rule_readings(v: Seq<RuleReading>) -> Seq<RuleReadingView> {
    v.map_values(|r: RuleReading| r@)
}

/// The views of a list of tiers.
pub open spec fn raw_tiers(v: Seq<RawTier>) -> Seq<TierSpecView> {
    v.map_values(|t: RawTier| t@)
}

impl View for ConfigReading {
    type V = ConfigReadingView;

    open spec fn view(&self) -> ConfigReadingView {
        ConfigReadingView {
            mount: config::text_in(self.mount),
            interval: reading_in(self.interval),
            policy: config::text_in(self.policy),
            max_move_bytes_per_cycle: config::text_in(self.max_move_bytes_per_cycle),
            settle: reading_in(self.settle),
            dry_run: self.dry_run,
            tiers: raw_tiers(self.tiers@),
            rules: rule_readings(self.rules@),
            exclude: config::texts(self.exclude@),
        }
    }
}

// ---- faults --------------------------------------------------------------------

/// What is wrong with a configuration.
#[derive(Debug)]
pub enum ConfigError {
    /// There is more than one rule without a path.
    SecondDefault,
    /// A rule's path has a leading slash.
    LeadingSlash(String),
    Size(SizeError),
    /// This text is no duration.
    Duration(String),
}

/// What is wrong with a configuration, with texts as sequences.
pub enum ConfigErrorView {
    SecondDefault,
    LeadingSlash(Seq<char>),
    Size(SizeErrorView),
    Duration(Seq<char>),
}

impl View for ConfigError {
    type V = ConfigErrorView;

    open spec fn view(&self) -> ConfigErrorView {
        match self {
            ConfigError::SecondDefault => ConfigErrorView::SecondDefault,
            ConfigError::LeadingSlash(p) => ConfigErrorView::LeadingSlash(p@),
            ConfigError::Size(e) => ConfigErrorView::Size(e@),
            ConfigError::Duration(t) => ConfigErrorView::Duration(t@),
        }
    }
}

// ---- what is compiled ------------------------------------------------------------

/// A duration, if one is given.
pub open spec fn duration_given(o: Option<ReadingView>) -> Result<Option<u128>, ConfigErrorView> {
    match o {
        Some(r) => match r.nanos {
            Some(n) => Ok(Some(n)),
            None => Err(ConfigErrorView::Duration(r.text)),
        },
        None => Ok(None),
    }
}

/// A size, if one is given.
pub open spec fn size_given(o: Option<Seq<char>>) -> Result<Option<u64>, ConfigErrorView> {
    match o {
        Some(t) => match util::size_reading(t) {
            Ok(n) => Ok(Some(n)),
            Err(e) => Err(ConfigErrorView::Size(e)),
        },
        None => Ok(None),
    }
}

/// What a rule gives, or else what the default rule has.
pub open spec fn inherited<T>(own: Option<T>, default: Option<T>) -> Option<T> {
    match own {
        Some(x) => Some(x),
        None => default,
    }
}

/// The path that a rule is for; empty for the default rule.
pub open spec fn path_of(r: RuleReadingView) -> Seq<char> {
    match r.path {
        Some(p) => p,
        None => Seq::empty(),
    }
}

/// The compiled form of a rule. Age limits, target tier and sorting are
/// inherited from the default rule where they are not given.
pub open spec fn rule_compiled(r: RuleReadingView, default: Option<RuleView>) -> Result<
    RuleView,
    ConfigErrorView,
> {
    let path = path_of(r);
    let bytes = encode_utf8(path);
    if path.len() > 0 && path[0] == '/' {
        Err(ConfigErrorView::LeadingSlash(path))
    } else {
        match (size_given(r.quota), duration_given(r.min_age), duration_given(r.max_age)) {
            (Err(e), _, _) => Err(e),
            (Ok(_), Err(e), _) => Err(e),
            (Ok(_), Ok(_), Err(e)) => Err(e),
            (Ok(quota), Ok(min_age), Ok(max_age)) => Ok(
                RuleView {
                    path: bytes,
                    quota,
                    quota_max_tier: match r.quota_max_tier {
                        Some(t) => t,
                        None => 0,
                    },
                    min_age: inherited(
                        min_age,
                        match default {
                            Some(d) => d.min_age,
                            None => None,
                        },
                    ),
                    max_age: inherited(
                        max_age,
                        match default {
                            Some(d) => d.max_age,
                            None => None,
                        },
                    ),
                    aggressive: r.aggressive,
                    target_tier: inherited(
                        r.target_tier,
                        match default {
                            Some(d) => d.target_tier,
                            None => None,
                        },
                    ),
                    pin: r.pin,
                    dispatch_sort: match inherited(
                        r.dispatch_sort,
                        match default {
                            Some(d) => Some(d.dispatch_sort),
                            None => None,
                        },
                    ) {
                        Some(s) => s,
                        None => DispatchSorting::AscendingAccess,
                    },
                    priority: r.priority,
                    depth: if path.len() == 0 {
                        0
                    } else {
                        paths::components(bytes).len() as usize
                    },
                },
            ),
        }
    }
}

/// The default rule where none is given.
pub open spec fn builtin_default() -> RuleView {
    RuleView {
        path: Seq::empty(),
        quota: None,
        quota_max_tier: 0,
        min_age: None,
        max_age: None,
        aggressive: false,
        target_tier: None,
        pin: false,
        dispatch_sort: DispatchSorting::AscendingAccess,
        priority: 0,
        depth: 0,
    }
}

/// A rule without a path is the default rule.
pub open spec fn is_default(r: RuleReadingView) -> bool {
    path_of(r).len() == 0
}

/// The default rules that are given.
pub open spec fn defaults_of(rules: Seq<RuleReadingView>) -> Seq<RuleReadingView> {
    rules.filter(|r: RuleReadingView| is_default(r))
}

/// The other rules.
pub open spec fn subtrees_of(rules: Seq<RuleReadingView>) -> Seq<RuleReadingView> {
    rules.filter(|r: RuleReadingView| !is_default(r))
}

/// The default rule in force.
pub open spec fn default_compiled(rules: Seq<RuleReadingView>) -> Result<
    RuleView,
    ConfigErrorView,
> {
    let given = defaults_of(rules);
    if given.len() > 1 {
        Err(ConfigErrorView::SecondDefault)
    } else if given.len() == 1 {
        rule_compiled(given[0], None)
    } else {
        Ok(builtin_default())
    }
}

/// The compiled forms of rules, up to the first fault.
pub open spec fn all_compiled(rules: Seq<RuleReadingView>, default: RuleView) -> Result<
    Seq<RuleView>,
    ConfigErrorView,
>
    decreases rules.len(),
{
    if rules.len() == 0 {
        Ok(Seq::empty())
    } else {
        match all_compiled(rules.drop_last(), default) {
            Ok(front) => match rule_compiled(rules.last(), Some(default)) {
                Ok(r) => Ok(front.push(r)),
                Err(e) => Err(e),
            },
            Err(e) => Err(e),
        }
    }
}

/// The order in which rules are enforced: higher priority first, then deeper
/// paths, then by path, and at last as they are written.
pub open spec fn rule_order(rules: Seq<RuleView>) -> spec_fn(usize, usize) -> bool {
    |a: usize, b: usize|
        {
            let x = rules[a as int];
            let y = rules[b as int];
            if x.priority != y.priority {
                x.priority > y.priority
            } else if x.depth != y.depth {
                x.depth > y.depth
            } else if paths::components(x.path) != paths::components(y.path) {
                paths::path_le(x.path, y.path)
            } else {
                a <= b
            }
        }
}

/// The rules in the order in which they are enforced.
pub open spec fn in_order(rules: Seq<RuleView>) -> Seq<RuleView> {
    order::select(rules.len(), |i: usize| true).sort_by(rule_order(rules)).map_values(
        |i: usize| rules[i as int],
    )
}

/// The compiled form of a configuration, or its first fault.
pub open spec fn compiled(raw: ConfigReadingView) -> Result<ConfigView, ConfigErrorView> {
    match (
        duration_given(raw.interval),
        duration_given(raw.settle),
        size_given(raw.max_move_bytes_per_cycle),
        default_compiled(raw.rules),
    ) {
        (Err(e), _, _, _) => Err(e),
        (Ok(_), Err(e), _, _) => Err(e),
        (Ok(_), Ok(_), Err(e), _) => Err(e),
        (Ok(_), Ok(_), Ok(_), Err(e)) => Err(e),
        (Ok(interval), Ok(settle), Ok(max_move), Ok(default_rule)) => match all_compiled(
            subtrees_of(raw.rules),
            default_rule,
        ) {
            Err(e) => Err(e),
            Ok(rules) => Ok(
                ConfigView {
                    mount: match raw.mount {
                        Some(m) => Some(encode_utf8(m)),
                        None => None,
                    },
                    interval: match interval {
                        Some(n) => n,
                        None => FIVE_MINUTES,
                    },
                    policy: match raw.policy {
                        Some(p) => p,
                        None => "access_time"@,
                    },
                    max_move_bytes_per_cycle: max_move,
                    settle: match settle {
                        Some(n) => n,
                        None => FIVE_MINUTES,
                    },
                    dry_run: raw.dry_run,
                    tiers: raw.tiers,
                    rules: in_order(rules),
                    default_rule,
                    exclude: raw.exclude,
                },
            ),
        },
    }
}

// ---- compiling -------------------------------------------------------------------

fn copy_text(o: &Option<String>) -> (r: Option<String>)
    ensures
        config::text_in(r) == config::text_in(*o),
{
    match o {
        Some(s) => Some(s.clone()),
        None => None,
    }
}

fn copy_texts(v: &Vec<String>) -> (r: Vec<String>)
    ensures
        config::texts(r@) == config::texts(v@),
{
    let mut r: Vec<String> = Vec::new();
    let mut i: usize = 0;
    assert(config::texts(r@) =~= config::texts(v@).take(0));
    while i < v.len()
        invariant
            i <= v.len(),
            config::texts(r@) == config::texts(v@).take(i as int),
        decreases v.len() - i,
    {
        let ghost before = config::texts(r@);
        let s = v[i].clone();
        r.push(s);
        i = i + 1;
        assert(config::texts(r@) =~= config::texts(v@).take(i as int)) by {
            assert(config::texts(r@) =~= before.push(s@));
        }
    }
    assert(config::texts(v@).take(i as int) =~= config::texts(v@));
    r
}

fn copy_tiers(v: &Vec<RawTier>) -> (r: Vec<TierSpec>)
    ensures
        config::tier_views(r@) == raw_tiers(v@),
{
    let mut r: Vec<TierSpec> = Vec::new();
    let mut i: usize = 0;
    assert(config::tier_views(r@) =~= raw_tiers(v@).take(0));
    while i < v.len()
        invariant
            i <= v.len(),
            config::tier_views(r@) == raw_tiers(v@).take(i as int),
        decreases v.len() - i,
    {
        let ghost before = config::tier_views(r@);
        let t = TierSpec {
            level: v[i].level,
            label: copy_text(&v[i].label),
            paths: copy_texts(&v[i].paths),
        };
        r.push(t);
        i = i + 1;
        assert(config::tier_views(r@) =~= raw_tiers(v@).take(i as int)) by {
            assert(config::tier_views(r@) =~= before.push(t@));
        }
    }
    assert(raw_tiers(v@).take(i as int) =~= raw_tiers(v@));
    r
}

fn given_duration(o: &Option<Reading>) -> (r: Result<Option<u128>, ConfigError>)
    ensures
        match r {
            Ok(n) => duration_given(reading_in(*o)) == Ok::<Option<u128>, ConfigErrorView>(n),
            Err(e) => duration_given(reading_in(*o)) == Err::<Option<u128>, ConfigErrorView>(e@),
        },
{
    match o {
        Some(r) => match r.nanos {
            Some(n) => Ok(Some(n)),
            None => Err(ConfigError::Duration(r.text.clone())),
        },
        None => Ok(None),
    }
}

fn given_size(o: &Option<String>) -> (r: Result<Option<u64>, ConfigError>)
    ensures
        match r {
            Ok(n) => size_given(config::text_in(*o)) == Ok::<Option<u64>, ConfigErrorView>(n),
            Err(e) => size_given(config::text_in(*o)) == Err::<Option<u64>, ConfigErrorView>(e@),
        },
{
    match o {
        Some(t) => match parse_size(t.as_str()) {
            Ok(n) => Ok(Some(n)),
            Err(e) => Err(ConfigError::Size(e)),
        },
        None => Ok(None),
    }
}

/// The default rule where none is given.
fn builtin_default_rule() -> (r: Rule)
    ensures
        r@ == builtin_default(),
{
    let r = Rule {
        path: Vec::new(),
        quota: None,
        quota_max_tier: 0,
        min_age: None,
        max_age: None,
        aggressive: false,
        target_tier: None,
        pin: false,
        dispatch_sort: DispatchSorting::AscendingAccess,
        priority: 0,
        depth: 0,
    };
    assert(r@ =~= builtin_default());
    r
}

fn inheritance(default: Option<&Rule>) -> (r: (Option<u128>, Option<u128>, Option<usize>, DispatchSorting))
    ensures
        match default {
            Some(d) => r == (d.min_age, d.max_age, d.target_tier, d.dispatch_sort),
            None => r == (None::<u128>, None::<u128>, None::<usize>, DispatchSorting::AscendingAccess),
        },
{
    match default {
        Some(d) => (d.min_age, d.max_age, d.target_tier, d.dispatch_sort),
        None => (None, None, None, DispatchSorting::default()),
    }
}

/// Compiles a rule, given the default rule unless it is that itself.
pub fn compile_rule(raw: &RuleReading, default: Option<&Rule>) -> (r: Result<Rule, ConfigError>)
    ensures
        ({
            let d = match default {
                Some(d) => Some(d@),
                None => None,
            };
            match r {
                Ok(c) => rule_compiled(raw@, d) == Ok::<RuleView, ConfigErrorView>(c@),
                Err(e) => rule_compiled(raw@, d) == Err::<RuleView, ConfigErrorView>(e@),
            }
        }),
        r matches Ok(c) ==> config::measured(c@),
{
    let path_str = match &raw.path {
        Some(p) => p.clone(),
        None => String::new(),
    };
    assert(path_str@ =~= path_of(raw@));
    let chars = chars_of(path_str.as_str());
    if chars.len() > 0 && chars[0] == '/' {
        return Err(ConfigError::LeadingSlash(path_str));
    }
    let path = bytes_of(path_str.as_str());
    let depth = if chars.len() == 0 {
        0
    } else {
        depth_of(path.as_slice())
    };
    proof {
        if chars.len() == 0 {
            lemma_empty_path(path@);
        }
    }
    let (min_default, max_default, target_default, sort_default) = inheritance(default);
    let quota = match given_size(&raw.quota) {
        Ok(q) => q,
        Err(e) => {
            return Err(e);
        },
    };
    let min_age = match given_duration(&raw.min_age) {
        Ok(n) => n,
        Err(e) => {
            return Err(e);
        },
    };
    let max_age = match given_duration(&raw.max_age) {
        Ok(n) => n,
        Err(e) => {
            return Err(e);
        },
    };
    let r = Rule {
        path,
        quota,
        quota_max_tier: match raw.quota_max_tier {
            Some(t) => t,
            None => 0,
        },
        min_age: match min_age {
            Some(n) => Some(n),
            None => min_default,
        },
        max_age: match max_age {
            Some(n) => Some(n),
            None => max_default,
        },
        aggressive: raw.aggressive,
        target_tier: match raw.target_tier {
            Some(t) => Some(t),
            None => target_default,
        },
        pin: raw.pin,
        dispatch_sort: match raw.dispatch_sort {
            Some(s) => s,
            None => sort_default,
        },
        priority: raw.priority,
        depth,
    };
    Ok(r)
}

/// The empty path has no components.
pub proof fn lemma_empty_path(p: Seq<u8>)
    requires
        p.len() == 0,
    ensures
        paths::components(p).len() == 0,
{
    text::lemma_pieces_nonempty(p, paths::SLASH);
    let parts = text::pieces(p, paths::SLASH);
    assert(parts.len() == 1);
    assert(parts.last().len() == 0);
    assert(parts.drop_last() =~= Seq::<Seq<u8>>::empty());
    assert(paths::named(parts.drop_last()).len() == 0);
    assert(paths::named(parts).len() == 0);
    assert(parts[0].len() != seq![paths::DOT].len());
}

/// All of the rules have the right depth.
spec fn all_measured(rules: Seq<Rule>) -> bool {
    forall|i: int| 0 <= i < rules.len() ==> config::measured(#[trigger] rules[i]@)
}

struct RuleOrder<'a> {
    rules: &'a Vec<Rule>,
}

impl<'a> Precedence for RuleOrder<'a> {
    closed spec fn leq(&self) -> spec_fn(usize, usize) -> bool {
        rule_order(config::rule_views(self.rules@))
    }

    closed spec fn covers(&self, i: usize) -> bool {
        i < self.rules@.len()
    }

    proof fn lemma_total(&self) {
        lemma_rule_order_total(config::rule_views(self.rules@));
    }

    fn precedes(&self, a: usize, b: usize) -> (r: bool) {
        let x = &self.rules[a];
        let y = &self.rules[b];
        assert(config::rule_views(self.rules@)[a as int] == x@);
        assert(config::rule_views(self.rules@)[b as int] == y@);
        if x.priority != y.priority {
            x.priority > y.priority
        } else if x.depth != y.depth {
            x.depth > y.depth
        } else if !same_path(x.path.as_slice(), y.path.as_slice()) {
            path_ordered(x.path.as_slice(), y.path.as_slice())
        } else {
            a <= b
        }
    }
}

/// The order of rules is total.
pub proof fn lemma_rule_order_total(rules: Seq<RuleView>)
    ensures
        total_ordering(rule_order(rules)),
{
    let r = rule_order(rules);
    assert forall|a: usize, b: usize| #[trigger] r(a, b) && #[trigger] r(b, a) implies a == b by {
        paths::lemma_path_le_total(rules[a as int].path, rules[b as int].path);
    }
    assert forall|a: usize, b: usize| #[trigger] r(a, b) || #[trigger] r(b, a) by {
        paths::lemma_path_le_total(rules[a as int].path, rules[b as int].path);
    }
    assert forall|a: usize, b: usize, c: usize| #[trigger] r(a, b) && #[trigger] r(b, c) implies r(
        a,
        c,
    ) by {
        let (x, y, z) = (rules[a as int].path, rules[b as int].path, rules[c as int].path);
        paths::lemma_path_le_total(x, y);
        paths::lemma_path_le_total(y, z);
        paths::lemma_path_le_total(x, z);
        if paths::path_le(x, y) && paths::path_le(y, z) {
            paths::lemma_path_le_transitive(x, y, z);
        }
        if paths::path_le(y, z) && paths::path_le(z, x) {
            paths::lemma_path_le_transitive(y, z, x);
        }
    }
}

/// Puts rules in the order in which they are enforced.
fn sort_rules(rules: Vec<Rule>) -> (r: Vec<Rule>)
    ensures
        config::rule_views(r@) == in_order(config::rule_views(rules@)),
        all_measured(rules@) ==> all_measured(r@),
{
    let ghost views = config::rule_views(rules@);
    let n = rules.len();
    let mut all: Vec<usize> = Vec::new();
    let mut i: usize = 0;
    while i < n
        invariant
            i <= n,
            all@ == order::select(i as nat, |i: usize| true),
            forall|k: int| 0 <= k < all@.len() ==> (#[trigger] all@[k]) < n,
        decreases n - i,
    {
        all.push(i);
        i = i + 1;
    }
    let by = RuleOrder { rules: &rules };
    assert(order::all_covered(&by, all@));
    let sorted = sort_indices(&by, all);
    let mut r: Vec<Rule> = Vec::new();
    let mut k: usize = 0;
    assert(config::rule_views(r@) =~= in_order(views).take(0));
    while k < sorted.len()
        invariant
            k <= sorted.len(),
            by.rules == rules,
            views == config::rule_views(rules@),
            in_order(views) == sorted@.map_values(|i: usize| views[i as int]),
            order::all_covered(&by, sorted@),
            config::rule_views(r@) == in_order(views).take(k as int),
            all_measured(rules@) ==> all_measured(r@),
        decreases sorted.len() - k,
    {
        assert(by.covers(sorted@[k as int]));
        assert(all_measured(rules@) ==> config::measured(rules@[sorted@[k as int] as int]@));
        let ghost before = config::rule_views(r@);
        let c = rules[sorted[k]].clone();
        r.push(c);
        k = k + 1;
        assert(config::rule_views(r@) =~= in_order(views).take(k as int)) by {
            assert(config::rule_views(r@) =~= before.push(c@));
        }
    }
    assert(in_order(views).take(k as int) =~= in_order(views));
    r
}

impl ConfigReading {
    /// The default rule: the one without a path, or the built-in one.
    fn default_rule(&self) -> (r: Result<Rule, ConfigError>)
        ensures
            match r {
                Ok(c) => default_compiled(rule_readings(self.rules@)) == Ok::<
                    RuleView,
                    ConfigErrorView,
                >(c@),
                Err(e) => default_compiled(rule_readings(self.rules@)) == Err::<
                    RuleView,
                    ConfigErrorView,
                >(e@),
            },
    {
        reveal(Seq::filter);
        let ghost all = rule_readings(self.rules@);
        let ghost pred = |r: RuleReadingView| is_default(r);
        let mut found: Option<usize> = None;
        let mut i: usize = 0;
        assert(all.take(0) =~= Seq::<RuleReadingView>::empty());
        assert(defaults_of(all.take(0)) =~= Seq::<RuleReadingView>::empty());
        while i < self.rules.len()
            invariant
                i <= self.rules.len(),
                all == rule_readings(self.rules@),
                pred == (|r: RuleReadingView| is_default(r)),
                match found {
                    Some(k) => k < i && defaults_of(all.take(i as int)) == seq![
                        self.rules@[k as int]@,
                    ],
                    None => defaults_of(all.take(i as int)) == Seq::<RuleReadingView>::empty(),
                },
            decreases self.rules.len() - i,
        {
            reveal(Seq::filter);
            let ghost before = defaults_of(all.take(i as int));
            assert(all.take(i + 1).drop_last() =~= all.take(i as int));
            assert(all.take(i + 1).last() == self.rules@[i as int]@);
            if is_default_rule(&self.rules[i]) {
                if found.is_some() {
                    proof {
                        assert(defaults_of(all.take(i + 1)).len() > 1);
                        lemma_defaults_grow(all, i + 1);
                    }
                    return Err(ConfigError::SecondDefault);
                }
                found = Some(i);
                assert(defaults_of(all.take(i + 1)) =~= seq![self.rules@[i as int]@]);
            } else {
                assert(defaults_of(all.take(i + 1)) =~= before);
            }
            i = i + 1;
        }
        assert(all.take(i as int) =~= all);
        match found {
            Some(k) => compile_rule(&self.rules[k], None),
            None => Ok(builtin_default_rule()),
        }
    }

    /// The other rules, compiled.
    fn subtree_rules(&self, default: &Rule) -> (r: Result<Vec<Rule>, ConfigError>)
        ensures
            ({
                let want = all_compiled(subtrees_of(rule_readings(self.rules@)), default@);
                match r {
                    Ok(v) => want == Ok::<Seq<RuleView>, ConfigErrorView>(config::rule_views(v@)),
                    Err(e) => want == Err::<Seq<RuleView>, ConfigErrorView>(e@),
                }
            }),
            r matches Ok(v) ==> all_measured(v@),
    {
        reveal(Seq::filter);
        let ghost all = rule_readings(self.rules@);
        let ghost pred = |r: RuleReadingView| !is_default(r);
        let mut v: Vec<Rule> = Vec::new();
        let mut i: usize = 0;
        assert(all.take(0) =~= Seq::<RuleReadingView>::empty());
        assert(subtrees_of(all.take(0)) =~= Seq::<RuleReadingView>::empty());
        assert(config::rule_views(v@) =~= Seq::<RuleView>::empty());
        while i < self.rules.len()
            invariant
                i <= self.rules.len(),
                all == rule_readings(self.rules@),
                pred == (|r: RuleReadingView| !is_default(r)),
                all_measured(v@),
                all_compiled(subtrees_of(all.take(i as int)), default@) == Ok::<
                    Seq<RuleView>,
                    ConfigErrorView,
                >(config::rule_views(v@)),
            decreases self.rules.len() - i,
        {
            reveal(Seq::filter);
            let ghost before = subtrees_of(all.take(i as int));
            assert(all.take(i + 1).drop_last() =~= all.take(i as int));
            assert(all.take(i + 1).last() == self.rules@[i as int]@);
            if !is_default_rule(&self.rules[i]) {
                assert(subtrees_of(all.take(i + 1)) =~= before.push(self.rules@[i as int]@));
                assert(before.push(self.rules@[i as int]@).drop_last() =~= before);
                let ghost done = config::rule_views(v@);
                match compile_rule(&self.rules[i], Some(default)) {
                    Ok(c) => {
                        v.push(c);
                        assert(config::rule_views(v@) =~= done.push(c@));
                    },
                    Err(e) => {
                        proof {
                            lemma_fault_stays(all, default@, i + 1);
                        }
                        return Err(e);
                    },
                }
            } else {
                assert(subtrees_of(all.take(i + 1)) =~= before);
            }
            i = i + 1;
        }
        assert(all.take(i as int) =~= all);
        Ok(v)
    }

    /// Compiles a configuration whose durations have been read.
    pub fn compile(&self) -> (r: Result<Config, ConfigError>)
        ensures
            match r {
                Ok(c) => compiled(self@) == Ok::<ConfigView, ConfigErrorView>(c@),
                Err(e) => compiled(self@) == Err::<ConfigView, ConfigErrorView>(e@),
            },
            r matches Ok(c) ==> c.wf(),
    {
        let interval = match given_duration(&self.interval) {
            Ok(n) => n,
            Err(e) => {
                return Err(e);
            },
        };
        let settle = match given_duration(&self.settle) {
            Ok(n) => n,
            Err(e) => {
                return Err(e);
            },
        };
        let max_move = match given_size(&self.max_move_bytes_per_cycle) {
            Ok(n) => n,
            Err(e) => {
                return Err(e);
            },
        };
        let default_rule = match self.default_rule() {
            Ok(r) => r,
            Err(e) => {
                return Err(e);
            },
        };
        let rules = match self.subtree_rules(&default_rule) {
            Ok(v) => v,
            Err(e) => {
                return Err(e);
            },
        };
        let c = Config {
            mount: match &self.mount {
                Some(m) => Some(bytes_of(m.as_str())),
                None => None,
            },
            interval: match interval {
                Some(n) => n,
                None => FIVE_MINUTES,
            },
            policy: match &self.policy {
                Some(p) => p.clone(),
                None => "access_time".to_string(),
            },
            max_move_bytes_per_cycle: max_move,
            settle: match settle {
                Some(n) => n,
                None => FIVE_MINUTES,
            },
            dry_run: self.dry_run,
            tiers: copy_tiers(&self.tiers),
            rules: sort_rules(rules),
            default_rule,
            exclude: copy_texts(&self.exclude),
        };
        assert(compiled(self@) matches Ok(want) && c@ =~= want);
        Ok(c)
    }
}

fn is_default_rule(r: &RuleReading) -> (b: bool)
    ensures
        b == is_default(r@),
{
    match &r.path {
        Some(p) => chars_of(p.as_str()).len() == 0,
        None => true,
    }
}

proof fn lemma_defaults_grow(all: Seq<RuleReadingView>, n: int)
    requires
        0 <= n <= all.len(),
    ensures
        defaults_of(all.take(n)).len() <= defaults_of(all).len(),
    decreases all.len() - n,
{
    reveal(Seq::filter);
    if n < all.len() {
        assert(all.take(n + 1).drop_last() =~= all.take(n));
        lemma_defaults_grow(all, n + 1);
    } else {
        assert(all.take(n) =~= all);
    }
}

proof fn lemma_fault_stays(all: Seq<RuleReadingView>, default: RuleView, n: int)
    requires
        0 <= n <= all.len(),
        all_compiled(subtrees_of(all.take(n)), default) is Err,
    ensures
        all_compiled(subtrees_of(all), default) == all_compiled(subtrees_of(all.take(n)), default),
    decreases all.len() - n,
{
    reveal(Seq::filter);
    if n < all.len() {
        let before = subtrees_of(all.take(n));
        let r = all[n];
        assert(all.take(n + 1).drop_last() =~= all.take(n));
        assert(all.take(n + 1).last() == r);
        if !is_default(r) {
            assert(subtrees_of(all.take(n + 1)) =~= before.push(r));
            assert(before.push(r).drop_last() =~= before);
        } else {
            assert(subtrees_of(all.take(n + 1)) =~= before);
        }
        lemma_fault_stays(all, default, n + 1);
    } else {
        assert(all.take(n) =~= all);
    }
}

// ---- reading -----------------------------------------------------------------------

/// A duration with what it is read as.
pub open spec fn read_text(o: Option<String>) -> Option<ReadingView> {
    match o {
        Some(t) => Some(
            ReadingView {
                text: t@,
                nanos: match util::duration_reading(t@) {
                    Some(n) => Some(n as u128),
                    None => None,
                },
            },
        ),
        None => None,
    }
}

/// A rule with its durations read.
pub open spec fn read_rule(r: RawRule) -> RuleReadingView {
    RuleReadingView {
        path: config::text_in(r.path),
        quota: config::text_in(r.quota),
        quota_max_tier: r.quota_max_tier,
        min_age: read_text(r.min_age),
        max_age: read_text(r.max_age),
        aggressive: r.aggressive,
        target_tier: r.target_tier,
        pin: r.pin,
        dispatch_sort: r.dispatch_sort,
        priority: r.priority,
    }
}

/// A configuration with its durations read.
pub open spec fn read_config(c: RawConfig) -> ConfigReadingView {
    ConfigReadingView {
        mount: config::text_in(c.mount),
        interval: read_text(c.interval),
        policy: config::text_in(c.policy),
        max_move_bytes_per_cycle: config::text_in(c.max_move_bytes_per_cycle),
        settle: read_text(c.settle),
        dry_run: c.dry_run,
        tiers: raw_tiers(c.tiers@),
        rules: c.rules@.map_values(|r: RawRule| read_rule(r)),
        exclude: config::texts(c.exclude@),
    }
}

/// The duration can be read.
pub open spec fn readable(o: Option<String>) -> bool {
    o matches Some(t) ==> util::is_readable(text::trimmed(t@))
}

/// Every duration can be read.
pub open spec fn all_readable(c: RawConfig) -> bool {
    &&& readable(c.interval)
    &&& readable(c.settle)
    &&& forall|i: int|
        0 <= i < c.rules@.len() ==> readable((#[trigger] c.rules@[i]).min_age) && readable(
            c.rules@[i].max_age,
        )
}

fn is_readable(o: &Option<String>) -> (r: bool)
    ensures
        r == readable(*o),
{
    match o {
        Some(t) => duration_in_range(t.as_str()),
        None => true,
    }
}

fn read_duration(o: &Option<String>) -> (r: Option<Reading>)
    requires
        readable(*o),
    ensures
        reading_in(r) == read_text(*o),
{
    match o {
        Some(t) => {
            let nanos = match parse_duration(t.as_str()) {
                Ok(n) => Some(n),
                Err(_) => None,
            };
            Some(Reading { text: t.clone(), nanos })
        },
        None => None,
    }
}

impl Default for RawConfig {
    fn default() -> (r: Self)
        ensures
            read_config(r) == empty(),
            all_readable(r),
    {
        let r = RawConfig {
            mount: None,
            interval: None,
            policy: None,
            max_move_bytes_per_cycle: None,
            settle: None,
            dry_run: false,
            tiers: Vec::new(),
            rules: Vec::new(),
            exclude: Vec::new(),
        };
        assert(read_config(r) =~= empty());
        r
    }
}

/// The configuration in which nothing is given.
pub open spec fn empty() -> ConfigReadingView {
    ConfigReadingView {
        mount: None,
        interval: None,
        policy: None,
        max_move_bytes_per_cycle: None,
        settle: None,
        dry_run: false,
        tiers: Seq::empty(),
        rules: Seq::empty(),
        exclude: Seq::empty(),
    }
}

/// What an empty configuration is compiled to.
pub open spec fn default_config() -> ConfigView {
    ConfigView {
        mount: None,
        interval: FIVE_MINUTES,
        policy: "access_time"@,
        max_move_bytes_per_cycle: None,
        settle: FIVE_MINUTES,
        dry_run: false,
        tiers: Seq::empty(),
        rules: Seq::empty(),
        default_rule: builtin_default(),
        exclude: Seq::empty(),
    }
}

/// The empty configuration compiles.
pub proof fn empty_config_compiles()
    ensures
        compiled(empty()) == Ok::<ConfigView, ConfigErrorView>(default_config()),
{
    reveal(Seq::filter);
    let none = Seq::<RuleReadingView>::empty();
    assert(defaults_of(none) =~= none);
    assert(subtrees_of(none) =~= none);
    let rules = Seq::<RuleView>::empty();
    let all = order::select(0, |i: usize| true);
    lemma_rule_order_total(rules);
    order::lemma_sorted_members(all, rule_order(rules));
    assert(in_order(rules) =~= rules);
}

impl RawConfig {
    /// Whether every duration can be read.
    pub fn durations_in_range(&self) -> (r: bool)
        ensures
            r == all_readable(*self),
    {
        if !is_readable(&self.interval) || !is_readable(&self.settle) {
            return false;
        }
        let mut i: usize = 0;
        while i < self.rules.len()
            invariant
                i <= self.rules.len(),
                forall|k: int|
                    0 <= k < i ==> readable((#[trigger] self.rules@[k]).min_age) && readable(
                        self.rules@[k].max_age,
                    ),
            decreases self.rules.len() - i,
        {
            if !is_readable(&self.rules[i].min_age) || !is_readable(&self.rules[i].max_age) {
                assert(!(readable(self.rules@[i as int].min_age) && readable(
                    self.rules@[i as int].max_age,
                )));
                return false;
            }
            i = i + 1;
        }
        true
    }

    /// Reads the durations.
    pub fn read(self) -> (r: ConfigReading)
        requires
            all_readable(self),
        ensures
            r@ == read_config(self),
    {
        let interval = read_duration(&self.interval);
        let settle = read_duration(&self.settle);
        let mut rules: Vec<RuleReading> = Vec::new();
        let ghost want = self.rules@.map_values(|r: RawRule| read_rule(r));
        let mut i: usize = 0;
        assert(rule_readings(rules@) =~= want.take(0));
        while i < self.rules.len()
            invariant
                i <= self.rules.len(),
                all_readable(self),
                want == self.rules@.map_values(|r: RawRule| read_rule(r)),
                rule_readings(rules@) == want.take(i as int),
            decreases self.rules.len() - i,
        {
            let ghost before = rule_readings(rules@);
            let raw = &self.rules[i];
            assert(readable(self.rules@[i as int].min_age));
            let r = RuleReading {
                path: copy_text(&raw.path),
                quota: copy_text(&raw.quota),
                quota_max_tier: raw.quota_max_tier,
                min_age: read_duration(&raw.min_age),
                max_age: read_duration(&raw.max_age),
                aggressive: raw.aggressive,
                target_tier: raw.target_tier,
                pin: raw.pin,
                dispatch_sort: raw.dispatch_sort,
                priority: raw.priority,
            };
            rules.push(r);
            i = i + 1;
            assert(r@ =~= read_rule(*raw));
            assert(rule_readings(rules@) =~= before.push(r@));
            assert(rule_readings(rules@) =~= want.take(i as int));
        }
        assert(want.take(i as int) =~= want);
        let r = ConfigReading {
            mount: self.mount,
            interval,
            policy: self.policy,
            max_move_bytes_per_cycle: self.max_move_bytes_per_cycle,
            settle,
            dry_run: self.dry_run,
            tiers: self.tiers,
            rules,
            exclude: self.exclude,
        };
        assert(r@ =~= read_config(self));
        r
    }

    /// Compiles a configuration.
    pub fn compile(self) -> (r: Result<Config, ConfigError>)
        requires
            all_readable(self),
        ensures
            match r {
                Ok(c) => compiled(read_config(self)) == Ok::<ConfigView, ConfigErrorView>(c@),
                Err(e) => compiled(read_config(self)) == Err::<ConfigView, ConfigErrorView>(e@),
            },
            r matches Ok(c) ==> c.wf(),
    {
        self.read().compile()
    }
}

impl Config {
    /// The configuration in which nothing is given.
    pub fn defaults() -> (r: Config)
        ensures
            r@ == default_config(),
            r.wf(),
    {
        let c = RawConfig::default().compile();
        proof {
            empty_config_compiles();
        }
        match c {
            Ok(c) => c,
            Err(_) => vstd::pervasive::unreached(),
        }
    }
}

// ---- faults in words -----------------------------------------------------------------

/// A text in quotes, as `Debug` writes it.
pub uninterp spec fn quoted_text(text: Seq<char>) -> Seq<char>;

/// `std`'s `Debug` of a text: the text in quotes, by name.
#[verifier::external_body]
fn quote(text: &str) -> (r: String)
    ensures
        r@ == quoted_text(text@),
{
    format!("{:?}", text)
}

/// A fault in words.
pub open spec fn worded(e: ConfigErrorView) -> Seq<char> {
    match e {
        ConfigErrorView::SecondDefault =>
            "more than one default rule (a rule with no `path`) defined"@,
        ConfigErrorView::LeadingSlash(p) => "rule path "@ + quoted_text(p)
            + " must be relative (no leading slash); the rule with no path is the default that used to be \"/\""@,
        ConfigErrorView::Size(SizeErrorView::Empty) => "empty size"@,
        ConfigErrorView::Size(SizeErrorView::Number(t)) => "invalid size number in "@
            + quoted_text(t),
        ConfigErrorView::Size(SizeErrorView::Unit(u, t)) => "unknown size unit "@ + quoted_text(u)
            + " in "@ + quoted_text(t),
        ConfigErrorView::Duration(t) => "invalid duration "@ + quoted_text(t),
    }
}

impl ConfigError {
    /// The fault in words.
    pub fn message(&self) -> (r: String)
        ensures
            r@ == worded(self@),
    {
        match self {
            ConfigError::SecondDefault =>
                "more than one default rule (a rule with no `path`) defined".to_string(),
            ConfigError::LeadingSlash(p) => {
                let mut r = "rule path ".to_string();
                r.append(quote(p.as_str()).as_str());
                r.append(
                    " must be relative (no leading slash); the rule with no path is the default that used to be \"/\"",
                );
                r
            },
            ConfigError::Size(SizeError::Empty) => "empty size".to_string(),
            ConfigError::Size(SizeError::Number(t)) => {
                let mut r = "invalid size number in ".to_string();
                r.append(quote(t.as_str()).as_str());
                r
            },
            ConfigError::Size(SizeError::Unit(u, t)) => {
                let mut r = "unknown size unit ".to_string();
                r.append(quote(u.as_str()).as_str());
                r.append(" in ");
                r.append(quote(t.as_str()).as_str());
                r
            },
            ConfigError::Duration(t) => {
                let mut r = "invalid duration ".to_string();
                r.append(quote(t.as_str()).as_str());
                r
            },
        }
    }
}

} // verus!
