use patrick::config::compile::{ConfigError, ConfigReading, Reading, RuleReading};
use patrick::config::{Config, DispatchSorting, RawConfig, RawRule, RawTier, Rule};
use patrick::util::SizeError;

fn text(v: &toml::Value, key: &str) -> Option<String> {
    v.get(key).map(|x| x.as_str().unwrap().to_string())
}

fn texts(v: &toml::Value, key: &str) -> Vec<String> {
    match v.get(key) {
        Some(a) => a.as_array().unwrap().iter().map(|x| x.as_str().unwrap().to_string()).collect(),
        None => Vec::new(),
    }
}

fn number(v: &toml::Value, key: &str) -> Option<usize> {
    v.get(key).map(|x| x.as_integer().unwrap() as usize)
}

fn flag(v: &toml::Value, key: &str) -> bool {
    v.get(key).map(|x| x.as_bool().unwrap()).unwrap_or(false)
}

fn sorting(name: &str) -> DispatchSorting {
    match name {
        "ascending_access" => DispatchSorting::AscendingAccess,
        "descending_access" => DispatchSorting::DescendingAccess,
        "ascending_modification" => DispatchSorting::AscendingModification,
        "descending_modification" => DispatchSorting::DescendingModification,
        "ascending_size" => DispatchSorting::AscendingSize,
        "descending_size" => DispatchSorting::DescendingSize,
        _ => panic!("unknown sorting"),
    }
}

fn tables(v: &toml::Value, key: &str) -> Vec<toml::Value> {
    v.get(key).map(|x| x.as_array().unwrap().clone()).unwrap_or_default()
}

fn raw(source: &str) -> RawConfig {
    let v: toml::Value = toml::from_str(source).unwrap();
    RawConfig {
        mount: text(&v, "mount"),
        interval: text(&v, "interval"),
        policy: text(&v, "policy"),
        max_move_bytes_per_cycle: text(&v, "max_move_bytes_per_cycle"),
        settle: text(&v, "settle"),
        dry_run: flag(&v, "dry_run"),
        tiers: tables(&v, "tier")
            .iter()
            .map(|t| RawTier {
                level: number(t, "level").unwrap(),
                label: text(t, "label"),
                paths: texts(t, "paths"),
            })
            .collect(),
        rules: tables(&v, "rule")
            .iter()
            .map(|r| RawRule {
                path: text(r, "path"),
                quota: text(r, "quota"),
                quota_max_tier: number(r, "quota_max_tier"),
                min_age: text(r, "min_age"),
                max_age: text(r, "max_age"),
                aggressive: flag(r, "aggressive"),
                target_tier: number(r, "target_tier"),
                pin: flag(r, "pin"),
                dispatch_sort: text(r, "dispatch_sort").map(|s| sorting(&s)),
                priority: r.get("priority").map(|x| x.as_integer().unwrap() as i32).unwrap_or(0),
            })
            .collect(),
        exclude: texts(&v, "exclude"),
    }
}

fn compile(source: &str) -> Result<Config, ConfigError> {
    let raw = raw(source);
    assert!(raw.durations_in_range());
    raw.compile()
}

fn secs(n: u64) -> u128 {
    n as u128 * 1_000_000_000
}

fn path(s: &str) -> Vec<u8> {
    s.as_bytes().to_vec()
}

#[test]
fn rejects_leading_slash() {
    let err = compile("[[rule]]\npath = \"/media\"\n").unwrap_err();
    assert!(err.message().contains("relative"), "{err:?}");
}

#[test]
fn default_rule_is_pathless() {
    let c = compile("[[rule]]\nmin_age = \"7d\"\n").unwrap();
    assert!(c.default_rule.path.is_empty());
    assert_eq!(c.default_rule.min_age, Some(secs(7 * 86400)));
    // A path with no matching rule resolves to the default.
    let r = c.rule_for(&path("whatever/here"));
    assert!(r.path.is_empty());
}

#[test]
fn rejects_two_default_rules() {
    let err = compile("[[rule]]\nmin_age=\"1d\"\n[[rule]]\nmax_age=\"2d\"\n").unwrap_err();
    assert!(err.message().contains("default rule"), "{err:?}");
}

#[test]
fn subtree_inherits_default_dispatch_sort() {
    let c = compile(&format!(
        "{}{}",
        "[[rule]]\ndispatch_sort = \"descending_size\"\n",
        "[[rule]]\npath = \"media\"\nquota = \"1G\"\n",
    ))
    .unwrap();
    let r = c.rule_for(&path("media/x"));
    assert_eq!(r.dispatch_sort, DispatchSorting::DescendingSize);
}

#[test]
fn longest_prefix_wins() {
    let c = compile(&format!(
        "{}{}",
        "[[rule]]\npath = \"a\"\nquota=\"1G\"\n",
        "[[rule]]\npath = \"a/b/c\"\nquota=\"2G\"\n",
    ))
    .unwrap();
    assert_eq!(c.rule_for(&path("a/b/c/f")).quota, Some(2 * 1024u64.pow(3)));
    assert_eq!(c.rule_for(&path("a/x")).quota, Some(1024u64.pow(3)));
}

#[test]
fn prefixes_count_whole_components() {
    let c = compile("[[rule]]\npath = \"media\"\nquota=\"1\"\n").unwrap();
    assert_eq!(c.rule_for(&path("media")).quota, Some(1));
    assert_eq!(c.rule_for(&path("media/a")).quota, Some(1));
    assert_eq!(c.rule_for(&path("mediaeval/a")).quota, None);
}

#[test]
fn defaults() {
    let c = Config::defaults();
    assert_eq!(c.mount, None);
    assert_eq!(c.interval, secs(300));
    assert_eq!(c.settle, secs(300));
    assert_eq!(c.policy, "access_time");
    assert_eq!(c.max_move_bytes_per_cycle, None);
    assert!(!c.dry_run);
    assert!(c.tiers.is_empty() && c.rules.is_empty() && c.exclude.is_empty());
    assert_eq!(c.default_rule.depth, 0);
    assert_eq!(c.default_rule.dispatch_sort, DispatchSorting::AscendingAccess);
}

#[test]
fn every_key_is_taken_over() {
    let c = compile(
        "mount = \"/pool\"\ninterval = \"90min\"\npolicy = \"atime\"\nmax_move_bytes_per_cycle = \"1.5K\"\n\
         settle = \"2w\"\ndry_run = true\nexclude = [\"*.part\"]\n\
         [[tier]]\nlevel = 3\nlabel = \"slow\"\npaths = [\"/b1\", \"/b2*\"]\n\
         [[rule]]\npath = \"m/n\"\nquota = \"10\"\nquota_max_tier = 2\nmin_age = \"1h\"\nmax_age = \"36h\"\n\
         aggressive = true\ntarget_tier = 4\npin = true\ndispatch_sort = \"ascending_size\"\npriority = -7\n",
    )
    .unwrap();
    assert_eq!(c.mount, Some(path("/pool")));
    assert_eq!(c.interval, secs(90 * 60));
    assert_eq!(c.policy, "atime");
    assert_eq!(c.max_move_bytes_per_cycle, Some(1536));
    assert_eq!(c.settle, secs(14 * 86400));
    assert!(c.dry_run);
    assert_eq!(c.exclude, vec!["*.part".to_string()]);
    assert_eq!(c.tiers.len(), 1);
    assert_eq!(c.tiers[0].level, 3);
    assert_eq!(c.tiers[0].label, Some("slow".to_string()));
    assert_eq!(c.tiers[0].paths, vec!["/b1".to_string(), "/b2*".to_string()]);
    let r = &c.rules[0];
    assert_eq!(r.path, path("m/n"));
    assert_eq!(r.quota, Some(10));
    assert_eq!(r.quota_max_tier, 2);
    assert_eq!(r.min_age, Some(secs(3600)));
    assert_eq!(r.max_age, Some(secs(36 * 3600)));
    assert!(r.aggressive && r.pin);
    assert_eq!(r.target_tier, Some(4));
    assert_eq!(r.dispatch_sort, DispatchSorting::AscendingSize);
    assert_eq!(r.priority, -7);
    assert_eq!(r.depth, 2);
}

#[test]
fn ages_and_target_are_inherited_but_quota_is_not() {
    let c = compile(
        "[[rule]]\nquota = \"5\"\nmin_age = \"1s\"\nmax_age = \"2s\"\ntarget_tier = 9\npin = true\npriority = 3\n\
         [[rule]]\npath = \"a\"\n[[rule]]\npath = \"b\"\nmin_age = \"7s\"\n",
    )
    .unwrap();
    let a = c.rule_for(&path("a"));
    assert_eq!((a.min_age, a.max_age, a.target_tier), (Some(secs(1)), Some(secs(2)), Some(9)));
    assert_eq!((a.quota, a.pin, a.priority), (None, false, 0));
    assert_eq!(c.rule_for(&path("b")).min_age, Some(secs(7)));
}

#[test]
fn rules_are_enforced_by_priority_depth_and_path() {
    let c = compile(
        "[[rule]]\npath = \"b\"\n[[rule]]\npath = \"x/y\"\n[[rule]]\npath = \"a\"\n\
         [[rule]]\npath = \"low\"\npriority = -1\n[[rule]]\npath = \"high\"\npriority = 1\n",
    )
    .unwrap();
    let order: Vec<Vec<u8>> = c.rules.iter().map(|r: &Rule| r.path.clone()).collect();
    assert_eq!(order, vec![path("high"), path("x/y"), path("a"), path("b"), path("low")]);
}

#[test]
fn empty_path_is_the_default_rule() {
    let c = compile("[[rule]]\npath = \"\"\nquota = \"8\"\n").unwrap();
    assert_eq!(c.default_rule.quota, Some(8));
    assert!(c.rules.is_empty());
}

#[test]
fn faults_in_words() {
    let words = |s: &str| compile(s).unwrap_err().message();
    assert_eq!(words("interval = \"soon\""), "invalid duration \"soon\"");
    assert_eq!(words("settle = \"3 \""), "invalid duration \"3 \"");
    assert_eq!(words("max_move_bytes_per_cycle = \" \""), "empty size");
    assert_eq!(words("[[rule]]\nquota = \"x\"\n"), "invalid size number in \"x\"");
    assert_eq!(words("[[rule]]\nquota = \"3 Q\"\n"), "unknown size unit \"q\" in \"3 Q\"");
    assert_eq!(
        words("[[rule]]\npath = \"/a\\\"b\"\n"),
        "rule path \"/a\\\"b\" must be relative (no leading slash); the rule with no path is the default that used to be \"/\""
    );
    assert_eq!(
        words("[[rule]]\n[[rule]]\n"),
        "more than one default rule (a rule with no `path`) defined"
    );
}

#[test]
fn the_first_fault_is_reported() {
    let kind = |s: &str| compile(s).unwrap_err();
    assert!(matches!(
        kind("interval = \"?\"\nsettle = \"!\"\n"),
        ConfigError::Duration(t) if t == "?"
    ));
    assert!(matches!(
        kind("settle = \"!\"\nmax_move_bytes_per_cycle = \"\"\n"),
        ConfigError::Duration(t) if t == "!"
    ));
    assert!(matches!(
        kind("max_move_bytes_per_cycle = \"\"\n[[rule]]\n[[rule]]\n"),
        ConfigError::Size(SizeError::Empty)
    ));
    assert!(matches!(
        kind("[[rule]]\npath = \"/a\"\n[[rule]]\n[[rule]]\n"),
        ConfigError::SecondDefault
    ));
    assert!(matches!(
        kind("[[rule]]\npath = \"/a\"\n[[rule]]\nquota = \"z\"\n"),
        ConfigError::Size(SizeError::Number(t)) if t == "z"
    ));
    assert!(matches!(
        kind("[[rule]]\npath = \"/a\"\nquota = \"z\"\n"),
        ConfigError::LeadingSlash(p) if p == "/a"
    ));
    assert!(matches!(
        kind("[[rule]]\npath = \"a\"\nquota = \"z\"\nmin_age = \"?\"\n"),
        ConfigError::Size(SizeError::Number(_))
    ));
    assert!(matches!(
        kind("[[rule]]\npath = \"a\"\nmin_age = \"?\"\nmax_age = \"!\"\n"),
        ConfigError::Duration(t) if t == "?"
    ));
}

fn bare(min_age: Option<u128>) -> RuleReading {
    RuleReading {
        path: Some("a".to_string()),
        quota: None,
        quota_max_tier: None,
        min_age: Some(Reading { text: "T".to_string(), nanos: min_age }),
        max_age: None,
        aggressive: false,
        target_tier: None,
        pin: false,
        dispatch_sort: None,
        priority: 0,
    }
}

fn reading(interval: Option<u128>, rule: RuleReading) -> ConfigReading {
    ConfigReading {
        mount: None,
        interval: Some(Reading { text: "I".to_string(), nanos: interval }),
        policy: None,
        max_move_bytes_per_cycle: None,
        settle: None,
        dry_run: false,
        tiers: Vec::new(),
        rules: vec![rule],
        exclude: Vec::new(),
    }
}

#[test]
fn readings_are_compiled_whatever_they_are() {
    let c = reading(Some(17), bare(Some(4))).compile().unwrap();
    assert_eq!(c.interval, 17);
    assert_eq!(c.rules[0].min_age, Some(4));
    assert!(matches!(
        reading(None, bare(None)).compile().unwrap_err(),
        ConfigError::Duration(t) if t == "I"
    ));
    assert!(matches!(
        reading(Some(1), bare(None)).compile().unwrap_err(),
        ConfigError::Duration(t) if t == "T"
    ));
}

#[test]
fn long_durations_are_out_of_range() {
    assert!(!raw("interval = \"18446744073709551615s 1000ms\"").durations_in_range());
    assert!(!raw("[[rule]]\nmax_age = \"1234567890123456y 1ms\"\n").durations_in_range());
    assert!(raw("[[rule]]\nmax_age = \"1234567890123456s\"\n").durations_in_range());
    assert!(raw("[[rule]]\nmax_age = \"123456789012345s\"\n").durations_in_range());
}
