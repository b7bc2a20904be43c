//! What holds of every compiled configuration.

use super::compile::{ConfigErrorView, ConfigReadingView, RuleReadingView};
use super::{Config, ConfigView, DispatchSorting, RawConfig, RawRule, Rule, RuleView, TierSpec};
use crate::config;
use crate::config::compile;
use crate::order;
use crate::paths;
use crate::util;
use vstd::prelude::*;
#[allow(unused_imports)]
use vstd::relations::*;
#[allow(unused_imports)]
use vstd::seq_lib::*;
#[allow(unused_imports)]
use vstd::utf8::*;

verus! {

proof fn lemma_in_order(rules: Seq<RuleView>)
    requires
        rules.len() <= usize::MAX,
    ensures
        compile::in_order(rules).len() == rules.len(),
        forall|i: int|
            0 <= i < rules.len() ==> compile::in_order(rules).contains(#[trigger] rules[i]),
        forall|i: int|
            0 <= i < rules.len() ==> rules.contains(#[trigger] compile::in_order(rules)[i]),
        forall|i: int, j: int|
            0 <= i < j < rules.len() ==> enforced_before(
                #[trigger] compile::in_order(rules)[i],
                #[trigger] compile::in_order(rules)[j],
            ),
{
    let leq = compile::rule_order(rules);
    let all = order::select(rules.len(), |i: usize| true);
    let sorted = all.sort_by(leq);
    let done = compile::in_order(rules);
    compile::lemma_rule_order_total(rules);
    order::lemma_sorted_members(all, leq);
    order::lemma_select(rules.len(), |i: usize| true);
    lemma_select_all(rules.len());
    all.lemma_sort_by_ensures(leq);
    assert forall|i: int| 0 <= i < rules.len() implies done.contains(#[trigger] rules[i]) by {
        assert(all.contains(i as usize));
        assert(sorted.contains(i as usize));
        let k = choose|k: int| 0 <= k < sorted.len() && sorted[k] == i as usize;
        assert(done[k] == rules[i]);
    }
    assert forall|i: int| 0 <= i < rules.len() implies rules.contains(#[trigger] done[i]) by {
        assert(all.contains(sorted[i]));
        let k = choose|k: int| 0 <= k < all.len() && all[k] == sorted[i];
        assert(all[k] < rules.len());
        assert(done[i] == rules[sorted[i] as int]);
    }
    assert forall|i: int, j: int| 0 <= i < j < rules.len() implies enforced_before(
        #[trigger] done[i],
        #[trigger] done[j],
    ) by {
        assert(leq(sorted[i], sorted[j]));
        let (x, y) = (rules[sorted[i] as int].path, rules[sorted[j] as int].path);
        paths::lemma_path_le_total(x, y);
    }
}

proof fn lemma_select_all(n: nat)
    ensures
        order::select(n, |i: usize| true).len() == n,
    decreases n,
{
    if n > 0 {
        lemma_select_all((n - 1) as nat);
    }
}

/// `a` is enforced no later than `b`: by priority, then by depth, then by path.
pub open spec fn enforced_before(a: RuleView, b: RuleView) -> bool {
    ||| a.priority > b.priority
    ||| a.priority == b.priority && a.depth > b.depth
    ||| a.priority == b.priority && a.depth == b.depth && paths::path_le(a.path, b.path)
}

proof fn lemma_all_compiled(rules: Seq<RuleReadingView>, default: RuleView)
    requires
        compile::all_compiled(rules, default) is Ok,
    ensures
        compile::all_compiled(rules, default)->Ok_0.len() == rules.len(),
        forall|i: int|
            0 <= i < rules.len() ==> compile::rule_compiled(#[trigger] rules[i], Some(default))
                == Ok::<RuleView, ConfigErrorView>(
                compile::all_compiled(rules, default)->Ok_0[i],
            ),
    decreases rules.len(),
{
    if rules.len() > 0 {
        lemma_all_compiled(rules.drop_last(), default);
        let front = rules.drop_last();
        let done = compile::all_compiled(rules, default)->Ok_0;
        assert forall|i: int| 0 <= i < rules.len() implies compile::rule_compiled(
            #[trigger] rules[i],
            Some(default),
        ) == Ok::<RuleView, ConfigErrorView>(done[i]) by {
            if i < front.len() {
                assert(front[i] == rules[i]);
            }
        }
    }
}

proof fn lemma_filter_members(
    rules: Seq<RuleReadingView>,
    pred: spec_fn(RuleReadingView) -> bool,
)
    ensures
        forall|i: int|
            0 <= i < rules.len() && pred(rules[i]) ==> rules.filter(pred).contains(
                #[trigger] rules[i],
            ),
        forall|k: int|
            0 <= k < rules.filter(pred).len() ==> rules.contains(#[trigger] rules.filter(pred)[k])
                && pred(rules.filter(pred)[k]),
        rules.filter(pred).len() <= rules.len(),
    decreases rules.len(),
{
    reveal(Seq::filter);
    if rules.len() > 0 {
        let front = rules.drop_last();
        lemma_filter_members(front, pred);
        let f = rules.filter(pred);
        let g = front.filter(pred);
        assert forall|i: int| 0 <= i < rules.len() && pred(rules[i]) implies f.contains(
            #[trigger] rules[i],
        ) by {
            if i < front.len() {
                assert(front[i] == rules[i]);
                assert(g.contains(front[i]));
                let k = choose|k: int| 0 <= k < g.len() && g[k] == front[i];
                assert(f[k] == rules[i]);
            } else {
                assert(f.last() == rules[i]);
            }
        }
        assert forall|k: int| 0 <= k < f.len() implies rules.contains(#[trigger] f[k]) && pred(
            f[k],
        ) by {
            if k < g.len() {
                assert(f[k] == g[k]);
                assert(front.contains(g[k]));
                let i = choose|i: int| 0 <= i < front.len() && front[i] == g[k];
                assert(rules[i] == f[k]);
            } else {
                assert(rules[rules.len() - 1] == f[k]);
            }
        }
    }
}

/// Higher priority is enforced earlier, and at equal priority the deeper rule.
pub proof fn rules_are_in_order(raw: ConfigReadingView, c: ConfigView, i: int, j: int)
    requires
        compile::compiled(raw) == Ok::<ConfigView, ConfigErrorView>(c),
        raw.rules.len() <= usize::MAX,
        0 <= i < j < c.rules.len(),
    ensures
        enforced_before(c.rules[i], c.rules[j]),
{
    let subtrees = compile::subtrees_of(raw.rules);
    lemma_filter_members(raw.rules, |r: RuleReadingView| !compile::is_default(r));
    lemma_all_compiled(subtrees, c.default_rule);
    let rules = compile::all_compiled(subtrees, c.default_rule)->Ok_0;
    lemma_in_order(rules);
}

/// Every rule with a path is in force in its compiled form, with what it does
/// not give taken from the default rule.
pub proof fn every_rule_is_compiled(raw: ConfigReadingView, c: ConfigView, k: int)
    requires
        compile::compiled(raw) == Ok::<ConfigView, ConfigErrorView>(c),
        raw.rules.len() <= usize::MAX,
        0 <= k < raw.rules.len(),
        !compile::is_default(raw.rules[k]),
    ensures
        compile::rule_compiled(raw.rules[k], Some(c.default_rule)) is Ok,
        ({
            let r = compile::rule_compiled(raw.rules[k], Some(c.default_rule))->Ok_0;
            &&& c.rules.contains(r)
            &&& raw.rules[k].dispatch_sort is None ==> r.dispatch_sort
                == c.default_rule.dispatch_sort
            &&& raw.rules[k].min_age is None ==> r.min_age == c.default_rule.min_age
            &&& raw.rules[k].max_age is None ==> r.max_age == c.default_rule.max_age
            &&& raw.rules[k].target_tier is None ==> r.target_tier == c.default_rule.target_tier
            &&& raw.rules[k].quota is None ==> r.quota is None
        }),
{
    let subtrees = compile::subtrees_of(raw.rules);
    let pred = |r: RuleReadingView| !compile::is_default(r);
    lemma_filter_members(raw.rules, pred);
    lemma_all_compiled(subtrees, c.default_rule);
    let rules = compile::all_compiled(subtrees, c.default_rule)->Ok_0;
    lemma_in_order(rules);
    assert(pred(raw.rules[k]));
    assert(subtrees.contains(raw.rules[k]));
    let i = choose|i: int| 0 <= i < subtrees.len() && subtrees[i] == raw.rules[k];
    assert(compile::rule_compiled(subtrees[i], Some(c.default_rule)) == Ok::<
        RuleView,
        ConfigErrorView,
    >(rules[i]));
}

/// Nothing is in force but what is written: every rule in force is the compiled
/// form of one with a path.
pub proof fn every_rule_is_written(raw: ConfigReadingView, c: ConfigView, i: int)
    requires
        compile::compiled(raw) == Ok::<ConfigView, ConfigErrorView>(c),
        raw.rules.len() <= usize::MAX,
        0 <= i < c.rules.len(),
    ensures
        exists|k: int|
            0 <= k < raw.rules.len() && !compile::is_default(#[trigger] raw.rules[k])
                && compile::rule_compiled(raw.rules[k], Some(c.default_rule)) == Ok::<
                RuleView,
                ConfigErrorView,
            >(c.rules[i]),
{
    let subtrees = compile::subtrees_of(raw.rules);
    let pred = |r: RuleReadingView| !compile::is_default(r);
    lemma_filter_members(raw.rules, pred);
    lemma_all_compiled(subtrees, c.default_rule);
    let rules = compile::all_compiled(subtrees, c.default_rule)->Ok_0;
    lemma_in_order(rules);
    assert(rules.contains(c.rules[i]));
    let m = choose|m: int| 0 <= m < rules.len() && rules[m] == c.rules[i];
    assert(compile::rule_compiled(subtrees[m], Some(c.default_rule)) == Ok::<
        RuleView,
        ConfigErrorView,
    >(rules[m]));
    assert(raw.rules.contains(subtrees[m]));
    let k = choose|k: int| 0 <= k < raw.rules.len() && raw.rules[k] == subtrees[m];
    assert(!compile::is_default(raw.rules[k]));
}

/// The default rule has no path.
pub proof fn default_rule_is_pathless(raw: ConfigReadingView, c: ConfigView)
    requires
        compile::compiled(raw) == Ok::<ConfigView, ConfigErrorView>(c),
    ensures
        c.default_rule.path.len() == 0,
        c.default_rule.depth == 0,
{
    let given = compile::defaults_of(raw.rules);
    if given.len() == 1 {
        lemma_filter_members(raw.rules, |r: RuleReadingView| compile::is_default(r));
        assert(compile::is_default(given[0]));
    }
}

proof fn lemma_two_defaults(rules: Seq<RuleReadingView>, j: int, k: int)
    requires
        0 <= j < k < rules.len(),
        compile::is_default(rules[j]),
        compile::is_default(rules[k]),
    ensures
        compile::defaults_of(rules).len() > 1,
    decreases rules.len(),
{
    reveal(Seq::filter);
    let front = rules.drop_last();
    let pred = |r: RuleReadingView| compile::is_default(r);
    if k < rules.len() - 1 {
        lemma_two_defaults(front, j, k);
    } else {
        lemma_filter_members(front, pred);
        assert(pred(front[j]));
        assert(front.filter(pred).contains(front[j]));
    }
}

/// Two rules without a path are refused, where nothing that comes first is.
pub proof fn second_default_is_refused(raw: ConfigReadingView, j: int, k: int)
    requires
        0 <= j < k < raw.rules.len(),
        compile::is_default(raw.rules[j]),
        compile::is_default(raw.rules[k]),
        compile::duration_given(raw.interval) is Ok,
        compile::duration_given(raw.settle) is Ok,
        compile::size_given(raw.max_move_bytes_per_cycle) is Ok,
    ensures
        compile::compiled(raw) == Err::<ConfigView, ConfigErrorView>(
            ConfigErrorView::SecondDefault,
        ),
{
    lemma_two_defaults(raw.rules, j, k);
}

/// A path with a leading slash is refused.
pub proof fn leading_slash_is_refused(raw: ConfigReadingView, k: int)
    requires
        raw.rules.len() <= usize::MAX,
        0 <= k < raw.rules.len(),
        raw.rules[k].path matches Some(p) && p.len() > 0 && p[0] == '/',
    ensures
        compile::compiled(raw) is Err,
{
    if let Ok(c) = compile::compiled(raw) {
        every_rule_is_compiled(raw, c, k);
    }
}

/// The rule in force for a path is one with the longest matching prefix, and the
/// default rule only where no prefix matches.
pub proof fn longest_prefix_wins(c: Config, rel: Seq<u8>)
    requires
        c.wf(),
    ensures
        forall|i: int|
            0 <= i < c.rules@.len() && paths::is_under(rel, #[trigger] c.rules@[i].path@) ==> {
                let g = config::governing(c, rel);
                &&& paths::is_under(rel, g.path@)
                &&& paths::components(c.rules@[i].path@).len() <= paths::components(g.path@).len()
            },
        (forall|i: int|
            0 <= i < c.rules@.len() ==> !paths::is_under(rel, #[trigger] c.rules@[i].path@))
            ==> config::governing(c, rel) == c.default_rule,
{
    config::lemma_deepest(c.rules@, rel);
    assert forall|i: int| 0 <= i < c.rules@.len() implies config::covered_by(
        rel,
        (#[trigger] c.rules@[i]).path@,
    ) == paths::is_under(rel, c.rules@[i].path@) by {
        let p = c.rules@[i].path@;
        if p.len() == 0 {
            compile::lemma_empty_path(p);
            assert(paths::components(rel).take(0) =~= paths::components(p));
        }
    }
    if let Some(b) = config::deepest(c.rules@, rel) {
        assert(config::measured(c.rules@[b]@));
        assert(paths::is_under(rel, c.rules@[b].path@));
        assert forall|i: int|
            0 <= i < c.rules@.len() && paths::is_under(
                rel,
                #[trigger] c.rules@[i].path@,
            ) implies paths::components(c.rules@[i].path@).len() <= paths::components(
            c.rules@[b].path@,
        ).len() by {
            assert(config::measured(c.rules@[i]@));
            assert(config::covered_by(rel, c.rules@[i].path@));
        }
    }
}

// ---- what is written is in force ---------------------------------------------------

/// The rule is one for a subtree.
pub open spec fn has_path(r: RawRule) -> bool {
    r.path matches Some(p) && p@.len() > 0
}

/// What a rule gives itself is in force, whatever the default rule says.
pub open spec fn has_its_own(raw: RawRule, r: Rule) -> bool {
    &&& raw.path matches Some(p) ==> r.path@ == encode_utf8(p@)
    &&& raw.quota matches Some(t) ==> r.quota is Some && util::size_reading(t@) == Ok::<
        u64,
        util::SizeErrorView,
    >(r.quota->0)
    &&& raw.quota is None ==> r.quota is None
    &&& raw.quota_max_tier matches Some(n) ==> r.quota_max_tier == n
    &&& raw.quota_max_tier is None ==> r.quota_max_tier == 0
    &&& raw.min_age matches Some(t) ==> util::duration_reading(t@) is Some && r.min_age == Some(
        util::duration_reading(t@)->0 as u128,
    )
    &&& raw.max_age matches Some(t) ==> util::duration_reading(t@) is Some && r.max_age == Some(
        util::duration_reading(t@)->0 as u128,
    )
    &&& raw.target_tier matches Some(n) ==> r.target_tier == Some(n)
    &&& raw.dispatch_sort matches Some(o) ==> r.dispatch_sort == o
    &&& r.aggressive == raw.aggressive
    &&& r.pin == raw.pin
    &&& r.priority == raw.priority
    &&& r.depth == paths::components(r.path@).len()
}

/// What a rule does not give is that of the default rule: the age limits, the target
/// tier and the sorting.
pub open spec fn has_the_rest(raw: RawRule, default: Rule, r: Rule) -> bool {
    &&& raw.min_age is None ==> r.min_age == default.min_age
    &&& raw.max_age is None ==> r.max_age == default.max_age
    &&& raw.target_tier is None ==> r.target_tier == default.target_tier
    &&& raw.dispatch_sort is None ==> r.dispatch_sort == default.dispatch_sort
}

proof fn lemma_own(raw: RawRule, r: Rule, default: Option<RuleView>)
    requires
        compile::rule_compiled(compile::read_rule(raw), default) == Ok::<
            RuleView,
            ConfigErrorView,
        >(r@),
        r.depth == paths::components(r.path@).len(),
    ensures
        has_its_own(raw, r),
        raw.path matches Some(p) ==> p@.len() == 0 || p@[0] != '/',
{
}

/// Every rule with a path is in force: with all that it gives itself, and with what
/// it does not give taken from the default rule.
pub proof fn own_values_are_in_force(raw: RawConfig, c: Config, k: int)
    requires
        compile::compiled(compile::read_config(raw)) == Ok::<ConfigView, ConfigErrorView>(c@),
        c.wf(),
        0 <= k < raw.rules@.len(),
        has_path(raw.rules@[k]),
    ensures
        exists|i: int|
            0 <= i < c.rules@.len() && has_its_own(raw.rules@[k], #[trigger] c.rules@[i])
                && has_the_rest(raw.rules@[k], c.default_rule, c.rules@[i]),
        raw.rules@[k].path->0@[0] != '/',
{
    let read = compile::read_config(raw);
    assert(raw.rules.len() == raw.rules@.len());
    assert(read.rules[k] == compile::read_rule(raw.rules@[k]));
    every_rule_is_compiled(read, c@, k);
    let r = compile::rule_compiled(read.rules[k], Some(c@.default_rule))->Ok_0;
    let i = choose|i: int| 0 <= i < c@.rules.len() && c@.rules[i] == r;
    assert(c@.rules[i] == c.rules@[i]@);
    assert(config::measured(c.rules@[i]@));
    lemma_own(raw.rules@[k], c.rules@[i], Some(c@.default_rule));
    assert(has_the_rest(raw.rules@[k], c.default_rule, c.rules@[i]));
}

/// Nothing is in force but what is written: every rule in force has what some rule
/// with a path gives, and the rest from the default rule.
pub proof fn rules_in_force_are_written(raw: RawConfig, c: Config, i: int)
    requires
        compile::compiled(compile::read_config(raw)) == Ok::<ConfigView, ConfigErrorView>(c@),
        c.wf(),
        0 <= i < c.rules@.len(),
    ensures
        exists|k: int|
            0 <= k < raw.rules@.len() && has_path(#[trigger] raw.rules@[k]) && has_its_own(
                raw.rules@[k],
                c.rules@[i],
            ) && has_the_rest(raw.rules@[k], c.default_rule, c.rules@[i]),
{
    let read = compile::read_config(raw);
    assert(raw.rules.len() == raw.rules@.len());
    every_rule_is_written(read, c@, i);
    let k = choose|k: int|
        0 <= k < read.rules.len() && !compile::is_default(#[trigger] read.rules[k])
            && compile::rule_compiled(read.rules[k], Some(c@.default_rule)) == Ok::<
            RuleView,
            ConfigErrorView,
        >(c@.rules[i]);
    assert(read.rules[k] == compile::read_rule(raw.rules@[k]));
    assert(c@.rules[i] == c.rules@[i]@);
    assert(config::measured(c.rules@[i]@));
    lemma_own(raw.rules@[k], c.rules@[i], Some(c@.default_rule));
    assert(has_path(raw.rules@[k]));
}

/// How many of the rules have a path.
pub open spec fn count_with_path(rules: Seq<RawRule>) -> nat
    decreases rules.len(),
{
    if rules.len() == 0 {
        0
    } else if has_path(rules.last()) {
        count_with_path(rules.drop_last()) + 1
    } else {
        count_with_path(rules.drop_last())
    }
}

proof fn lemma_count_with_path(rules: Seq<RawRule>)
    ensures
        compile::subtrees_of(rules.map_values(|r: RawRule| compile::read_rule(r))).len()
            == count_with_path(rules),
    decreases rules.len(),
{
    reveal(Seq::filter);
    let read = rules.map_values(|r: RawRule| compile::read_rule(r));
    if rules.len() > 0 {
        lemma_count_with_path(rules.drop_last());
        assert(read.drop_last() =~= rules.drop_last().map_values(
            |r: RawRule| compile::read_rule(r),
        ));
    }
}

/// As many rules are in force as have a path.
pub proof fn each_rule_is_in_force_once(raw: RawConfig, c: Config)
    requires
        compile::compiled(compile::read_config(raw)) == Ok::<ConfigView, ConfigErrorView>(c@),
    ensures
        c.rules@.len() == count_with_path(raw.rules@),
{
    let read = compile::read_config(raw);
    let subtrees = compile::subtrees_of(read.rules);
    assert(raw.rules.len() == raw.rules@.len());
    lemma_filter_members(read.rules, |r: RuleReadingView| !compile::is_default(r));
    lemma_all_compiled(subtrees, c@.default_rule);
    lemma_in_order(compile::all_compiled(subtrees, c@.default_rule)->Ok_0);
    lemma_count_with_path(raw.rules@);
    assert(c@.rules.len() == c.rules@.len());
}

/// A rule without a path is the default rule, with all that it gives itself; what it
/// does not give is left open, and the files that were accessed longest ago go first.
pub proof fn default_rule_has_its_own(raw: RawConfig, c: Config, k: int)
    requires
        compile::compiled(compile::read_config(raw)) == Ok::<ConfigView, ConfigErrorView>(c@),
        0 <= k < raw.rules@.len(),
        !has_path(raw.rules@[k]),
    ensures
        has_its_own(raw.rules@[k], c.default_rule),
        c.default_rule.path@.len() == 0,
        raw.rules@[k].min_age is None ==> c.default_rule.min_age is None,
        raw.rules@[k].max_age is None ==> c.default_rule.max_age is None,
        raw.rules@[k].target_tier is None ==> c.default_rule.target_tier is None,
        raw.rules@[k].dispatch_sort is None ==> c.default_rule.dispatch_sort
            == DispatchSorting::AscendingAccess,
        forall|j: int| 0 <= j < raw.rules@.len() && j != k ==> has_path(#[trigger] raw.rules@[j]),
{
    let read = compile::read_config(raw);
    let pred = |r: RuleReadingView| compile::is_default(r);
    let given = compile::defaults_of(read.rules);
    assert(read.rules[k] == compile::read_rule(raw.rules@[k]));
    lemma_filter_members(read.rules, pred);
    assert(pred(read.rules[k]));
    assert(given.contains(read.rules[k]));
    assert(given[0] == read.rules[k]);
    default_rule_is_pathless(read, c@);
    compile::lemma_empty_path(c.default_rule.path@);
    lemma_own(raw.rules@[k], c.default_rule, None);
    assert forall|j: int| 0 <= j < raw.rules@.len() && j != k implies has_path(
        #[trigger] raw.rules@[j],
    ) by {
        assert(read.rules[j] == compile::read_rule(raw.rules@[j]));
        if !has_path(raw.rules@[j]) {
            if j < k {
                lemma_two_defaults(read.rules, j, k);
            } else {
                lemma_two_defaults(read.rules, k, j);
            }
        }
    }
}

/// Where every rule has a path the default rule asks for nothing.
pub proof fn missing_default_asks_for_nothing(raw: RawConfig, c: Config)
    requires
        compile::compiled(compile::read_config(raw)) == Ok::<ConfigView, ConfigErrorView>(c@),
        forall|k: int| 0 <= k < raw.rules@.len() ==> has_path(#[trigger] raw.rules@[k]),
    ensures
        c.default_rule.path@.len() == 0,
        c.default_rule.quota is None,
        c.default_rule.min_age is None,
        c.default_rule.max_age is None,
        !c.default_rule.aggressive,
        c.default_rule.target_tier is None,
        !c.default_rule.pin,
        c.default_rule.dispatch_sort == DispatchSorting::AscendingAccess,
{
    let read = compile::read_config(raw);
    let pred = |r: RuleReadingView| compile::is_default(r);
    let given = compile::defaults_of(read.rules);
    lemma_filter_members(read.rules, pred);
    if given.len() > 0 {
        assert(read.rules.contains(given[0]) && pred(given[0]));
        let k = choose|k: int| 0 <= k < read.rules.len() && read.rules[k] == given[0];
        assert(read.rules[k] == compile::read_rule(raw.rules@[k]));
        assert(has_path(raw.rules@[k]));
    }
}

/// A tier is compiled as it is written.
pub open spec fn same_tier(level: usize, label: Option<String>, paths: Seq<String>, t: TierSpec) -> bool {
    &&& t.level == level
    &&& label matches Some(l) ==> (t.label matches Some(m) && m@ == l@)
    &&& label is None ==> t.label is None
    &&& t.paths@.len() == paths.len()
    &&& forall|j: int| 0 <= j < paths.len() ==> (#[trigger] t.paths@[j])@ == paths[j]@
}

/// The settings of a configuration are those written, and otherwise: a cycle every
/// five minutes, files settle for five minutes, the access-time policy, no limit on
/// the moves, and a mount that is looked up.
pub proof fn settings_are_as_written(raw: RawConfig, c: Config)
    requires
        compile::compiled(compile::read_config(raw)) == Ok::<ConfigView, ConfigErrorView>(c@),
    ensures
        raw.interval matches Some(t) ==> util::duration_reading(t@) is Some && c.interval
            == util::duration_reading(t@)->0 as u128,
        raw.interval is None ==> c.interval == 5 * 60 * 1_000_000_000,
        raw.settle matches Some(t) ==> util::duration_reading(t@) is Some && c.settle
            == util::duration_reading(t@)->0 as u128,
        raw.settle is None ==> c.settle == 5 * 60 * 1_000_000_000,
        raw.max_move_bytes_per_cycle matches Some(t) ==> c.max_move_bytes_per_cycle is Some
            && util::size_reading(t@) == Ok::<u64, util::SizeErrorView>(
            c.max_move_bytes_per_cycle->0,
        ),
        raw.max_move_bytes_per_cycle is None ==> c.max_move_bytes_per_cycle is None,
        raw.policy matches Some(p) ==> c.policy@ == p@,
        raw.policy is None ==> c.policy@ == "access_time"@,
        raw.mount matches Some(m) ==> (c.mount matches Some(n) && n@ == encode_utf8(m@)),
        raw.mount is None ==> c.mount is None,
        c.dry_run == raw.dry_run,
        c.exclude@.len() == raw.exclude@.len(),
        forall|j: int|
            0 <= j < raw.exclude@.len() ==> (#[trigger] c.exclude@[j])@ == raw.exclude@[j]@,
        c.tiers@.len() == raw.tiers@.len(),
        forall|j: int|
            0 <= j < raw.tiers@.len() ==> same_tier(
                raw.tiers@[j].level,
                raw.tiers@[j].label,
                raw.tiers@[j].paths@,
                #[trigger] c.tiers@[j],
            ),
{
    let read = compile::read_config(raw);
    assert(c@.exclude == read.exclude && c@.tiers == read.tiers);
    assert(c@.exclude.len() == c.exclude@.len() && c@.tiers.len() == c.tiers@.len());
    assert forall|j: int| 0 <= j < raw.exclude@.len() implies (#[trigger] c.exclude@[j])@
        == raw.exclude@[j]@ by {
        assert(c@.exclude[j] == read.exclude[j]);
    }
    assert forall|j: int| 0 <= j < raw.tiers@.len() implies same_tier(
        raw.tiers@[j].level,
        raw.tiers@[j].label,
        raw.tiers@[j].paths@,
        #[trigger] c.tiers@[j],
    ) by {
        let (t, w) = (c.tiers@[j], raw.tiers@[j]);
        assert(c@.tiers[j] == read.tiers[j]);
        assert(t@ == w@);
        assert(t@.paths.len() == t.paths@.len() && w@.paths.len() == w.paths@.len());
        assert forall|i: int| 0 <= i < w.paths@.len() implies (#[trigger] t.paths@[i])@
            == w.paths@[i]@ by {
            assert(t@.paths[i] == w@.paths[i]);
        }
    }
}

/// A fault is one that the configuration has: a duration or a size that cannot be
/// read, a path with a leading slash, or a second rule without a path.
pub open spec fn is_at_fault(raw: RawConfig, e: ConfigErrorView) -> bool {
    match e {
        ConfigErrorView::SecondDefault => exists|j: int, k: int|
            0 <= j < k < raw.rules@.len() && !has_path(#[trigger] raw.rules@[j]) && !has_path(
                #[trigger] raw.rules@[k],
            ),
        ConfigErrorView::LeadingSlash(p) => p.len() > 0 && p[0] == '/' && exists|k: int|
            0 <= k < raw.rules@.len() && (#[trigger] raw.rules@[k]).path is Some
                && raw.rules@[k].path->0@ == p,
        ConfigErrorView::Size(s) => {
            ||| (raw.max_move_bytes_per_cycle matches Some(t) && util::size_reading(t@) == Err::<
                u64,
                util::SizeErrorView,
            >(s))
            ||| exists|k: int|
                0 <= k < raw.rules@.len() && (#[trigger] raw.rules@[k]).quota is Some
                    && util::size_reading(raw.rules@[k].quota->0@) == Err::<
                    u64,
                    util::SizeErrorView,
                >(s)
        },
        ConfigErrorView::Duration(t) => util::duration_reading(t) is None && {
            ||| (raw.interval matches Some(u) && u@ == t)
            ||| (raw.settle matches Some(u) && u@ == t)
            ||| exists|k: int|
                0 <= k < raw.rules@.len() && {
                    ||| ((#[trigger] raw.rules@[k]).min_age matches Some(u) && u@ == t)
                    ||| (raw.rules@[k].max_age matches Some(u) && u@ == t)
                }
        },
    }
}

proof fn lemma_rule_fault(
    raw: RawConfig,
    k: int,
    default: Option<RuleView>,
    e: ConfigErrorView,
)
    requires
        0 <= k < raw.rules@.len(),
        compile::rule_compiled(compile::read_rule(raw.rules@[k]), default) == Err::<
            RuleView,
            ConfigErrorView,
        >(e),
    ensures
        is_at_fault(raw, e),
{
    let r = raw.rules@[k];
    assert(raw.rules@[k] == r);
}

proof fn lemma_first_fault(rules: Seq<RuleReadingView>, default: RuleView, e: ConfigErrorView) -> (k:
    int)
    requires
        compile::all_compiled(rules, default) == Err::<Seq<RuleView>, ConfigErrorView>(e),
    ensures
        0 <= k < rules.len(),
        compile::rule_compiled(rules[k], Some(default)) == Err::<RuleView, ConfigErrorView>(e),
    decreases rules.len(),
{
    if compile::all_compiled(rules.drop_last(), default) is Err {
        let k = lemma_first_fault(rules.drop_last(), default, e);
        assert(rules[k] == rules.drop_last()[k]);
        k
    } else {
        rules.len() - 1
    }
}

proof fn lemma_defaults_apart(rules: Seq<RuleReadingView>)
    requires
        compile::defaults_of(rules).len() > 1,
    ensures
        exists|j: int, k: int|
            0 <= j < k < rules.len() && compile::is_default(#[trigger] rules[j])
                && compile::is_default(#[trigger] rules[k]),
    decreases rules.len(),
{
    reveal(Seq::filter);
    let front = rules.drop_last();
    let pred = |r: RuleReadingView| compile::is_default(r);
    if compile::defaults_of(front).len() > 1 {
        lemma_defaults_apart(front);
        let (j, k) = choose|j: int, k: int|
            0 <= j < k < front.len() && compile::is_default(#[trigger] front[j])
                && compile::is_default(#[trigger] front[k]);
        assert(rules[j] == front[j] && rules[k] == front[k]);
    } else {
        lemma_filter_members(front, pred);
        let given = front.filter(pred);
        assert(front.contains(given[0]));
        let j = choose|j: int| 0 <= j < front.len() && front[j] == given[0];
        let last = rules.len() - 1;
        assert(compile::is_default(rules[j]) && compile::is_default(rules[last]));
    }
}

/// A configuration is refused only for a fault that it has, and the error names it.
pub proof fn refusals_name_a_fault(raw: RawConfig, e: ConfigErrorView)
    requires
        compile::compiled(compile::read_config(raw)) == Err::<ConfigView, ConfigErrorView>(e),
    ensures
        is_at_fault(raw, e),
{
    let read = compile::read_config(raw);
    let given = compile::defaults_of(read.rules);
    let is_def = |r: RuleReadingView| compile::is_default(r);
    let is_sub = |r: RuleReadingView| !compile::is_default(r);
    lemma_filter_members(read.rules, is_def);
    lemma_filter_members(read.rules, is_sub);
    if compile::duration_given(read.interval) is Err || compile::duration_given(read.settle) is Err
        || compile::size_given(read.max_move_bytes_per_cycle) is Err {
    } else if given.len() > 1 {
        lemma_defaults_apart(read.rules);
        let (j, k) = choose|j: int, k: int|
            0 <= j < k < read.rules.len() && compile::is_default(#[trigger] read.rules[j])
                && compile::is_default(#[trigger] read.rules[k]);
        assert(read.rules[j] == compile::read_rule(raw.rules@[j]));
        assert(read.rules[k] == compile::read_rule(raw.rules@[k]));
        assert(!has_path(raw.rules@[j]) && !has_path(raw.rules@[k]));
    } else if compile::default_compiled(read.rules) is Err {
        assert(read.rules.contains(given[0]));
        let k = choose|k: int| 0 <= k < read.rules.len() && read.rules[k] == given[0];
        assert(read.rules[k] == compile::read_rule(raw.rules@[k]));
        lemma_rule_fault(raw, k, None, e);
    } else {
        let default = compile::default_compiled(read.rules)->Ok_0;
        let subtrees = compile::subtrees_of(read.rules);
        let m = lemma_first_fault(subtrees, default, e);
        assert(read.rules.contains(subtrees[m]));
        let k = choose|k: int| 0 <= k < read.rules.len() && read.rules[k] == subtrees[m];
        assert(read.rules[k] == compile::read_rule(raw.rules@[k]));
        lemma_rule_fault(raw, k, Some(default), e);
    }
}

/// The words for a fault hold, in quotes, the text that is at fault.
pub proof fn faults_are_quoted(e: ConfigErrorView)
    ensures
        ({
            let words = compile::worded(e);
            match e {
                ConfigErrorView::LeadingSlash(p) => holds(words, compile::quoted_text(p)),
                ConfigErrorView::Duration(t) => holds(words, compile::quoted_text(t)),
                ConfigErrorView::Size(util::SizeErrorView::Number(t)) => holds(
                    words,
                    compile::quoted_text(t),
                ),
                ConfigErrorView::Size(util::SizeErrorView::Unit(u, t)) => holds(
                    words,
                    compile::quoted_text(u),
                ) && holds(words, compile::quoted_text(t)),
                _ => true,
            }
        }),
{
    let words = compile::worded(e);
    match e {
        ConfigErrorView::LeadingSlash(p) => {
            lemma_holds(
                words,
                "rule path "@,
                compile::quoted_text(p),
                " must be relative (no leading slash); the rule with no path is the default that used to be \"/\""@,
            );
        },
        ConfigErrorView::Duration(t) => {
            lemma_holds(words, "invalid duration "@, compile::quoted_text(t), Seq::empty());
        },
        ConfigErrorView::Size(util::SizeErrorView::Number(t)) => {
            lemma_holds(words, "invalid size number in "@, compile::quoted_text(t), Seq::empty());
        },
        ConfigErrorView::Size(util::SizeErrorView::Unit(u, t)) => {
            lemma_holds(
                words,
                "unknown size unit "@,
                compile::quoted_text(u),
                " in "@ + compile::quoted_text(t),
            );
            lemma_holds(
                words,
                "unknown size unit "@ + compile::quoted_text(u) + " in "@,
                compile::quoted_text(t),
                Seq::empty(),
            );
        },
        _ => {},
    }
}

/// One text stands somewhere in another.
pub open spec fn holds(all: Seq<char>, part: Seq<char>) -> bool {
    exists|i: int| 0 <= i <= all.len() - part.len() && #[trigger] all.subrange(i, i + part.len()) == part
}

proof fn lemma_holds(all: Seq<char>, head: Seq<char>, part: Seq<char>, tail: Seq<char>)
    requires
        all =~= head + part + tail,
    ensures
        holds(all, part),
{
    let i = head.len() as int;
    assert(all.subrange(i, i + part.len()) =~= part);
}

} // verus!
