use patrick::config::{Config, DispatchSorting, RawConfig, RawRule, RawTier};
use patrick::inventory::{FileInstance, Inventory};
use patrick::mergerfs::{Branch, BranchMode, MergerfsMount};
use patrick::options::MountOptions;
use patrick::policy::access_time::AccessTimePolicy;
use patrick::policy::{by_name, Move, PolicyContext, TieringPolicy};
use patrick::tier::TierMap;

const NOW: i128 = 1_700_000_000_000_000_000;

const TIERS: &str = r#"
settle = "0s"
[[tier]]
level = 0
paths = ["/b0"]
[[tier]]
level = 1
paths = ["/b1"]
"#;

fn text(v: &toml::Value, key: &str) -> Option<String> {
    v.get(key).map(|x| x.as_str().unwrap().to_string())
}

fn number(v: &toml::Value, key: &str) -> Option<usize> {
    v.get(key).map(|x| x.as_integer().unwrap() as usize)
}

fn flag(v: &toml::Value, key: &str) -> bool {
    v.get(key).map(|x| x.as_bool().unwrap()).unwrap_or(false)
}

fn tables(v: &toml::Value, key: &str) -> Vec<toml::Value> {
    v.get(key).map(|x| x.as_array().unwrap().clone()).unwrap_or_default()
}

fn sorting(name: &str) -> DispatchSorting {
    match name {
        "ascending_access" => DispatchSorting::AscendingAccess,
        "descending_access" => DispatchSorting::DescendingAccess,
        "ascending_modification" => DispatchSorting::AscendingModification,
        "descending_modification" => DispatchSorting::DescendingModification,
        "ascending_size" => DispatchSorting::AscendingSize,
        "descending_size" => DispatchSorting::DescendingSize,
        _ => panic!("unknown sorting"),
    }
}

fn cfg(source: &str) -> Config {
    let v: toml::Value = toml::from_str(source).unwrap();
    let raw = RawConfig {
        mount: text(&v, "mount"),
        interval: text(&v, "interval"),
        policy: text(&v, "policy"),
        max_move_bytes_per_cycle: text(&v, "max_move_bytes_per_cycle"),
        settle: text(&v, "settle"),
        dry_run: flag(&v, "dry_run"),
        tiers: tables(&v, "tier")
            .iter()
            .map(|t| RawTier {
                level: number(t, "level").unwrap(),
                label: text(t, "label"),
                paths: t
                    .get("paths")
                    .unwrap()
                    .as_array()
                    .unwrap()
                    .iter()
                    .map(|x| x.as_str().unwrap().to_string())
                    .collect(),
            })
            .collect(),
        rules: tables(&v, "rule")
            .iter()
            .map(|r| RawRule {
                path: text(r, "path"),
                quota: text(r, "quota"),
                quota_max_tier: number(r, "quota_max_tier"),
                min_age: text(r, "min_age"),
                max_age: text(r, "max_age"),
                aggressive: flag(r, "aggressive"),
                target_tier: number(r, "target_tier"),
                pin: flag(r, "pin"),
                dispatch_sort: text(r, "dispatch_sort").map(|s| sorting(&s)),
                priority: r.get("priority").map(|x| x.as_integer().unwrap() as i32).unwrap_or(0),
            })
            .collect(),
        exclude: Vec::new(),
    };
    assert!(raw.durations_in_range());
    raw.compile().unwrap()
}

fn branch(path: &str) -> Branch {
    Branch { path: path.as_bytes().to_vec(), mode: BranchMode::ReadWrite }
}

fn mount() -> MergerfsMount {
    MergerfsMount {
        mountpoint: b"/pool".to_vec(),
        branches: vec![branch("/b0"), branch("/b1")],
        minfreespace: 0,
        raw_options: MountOptions { entries: Vec::new() },
    }
}

fn file(rel: &str, branch: usize, tier: usize, size: u64, age_secs: u64) -> FileInstance {
    let t = NOW - age_secs as i128 * 1_000_000_000;
    FileInstance {
        rel: rel.as_bytes().to_vec(),
        branch_idx: branch,
        tier,
        size,
        atime: t,
        mtime: t,
    }
}

fn plan_with(
    config: &Config,
    m: &MergerfsMount,
    files: Vec<FileInstance>,
    minfreespace: u64,
    free: Vec<u64>,
) -> Vec<Move> {
    let tiers = TierMap::build(m, &config.tiers);
    let inv = Inventory { files };
    let ctx = PolicyContext {
        config,
        tiers: &tiers,
        inventory: &inv,
        minfreespace,
        free,
        now: NOW,
    };
    AccessTimePolicy.plan(&ctx)
}

fn plan(config: &Config, m: &MergerfsMount, files: Vec<FileInstance>) -> Vec<Move> {
    plan_with(config, m, files, 0, vec![0u64, 1_000_000_000_000]) // b0 full-ish, b1 huge
}

fn rels(moves: &[Move]) -> Vec<String> {
    moves.iter().map(|m| String::from_utf8(m.rel.clone()).unwrap()).collect()
}

#[test]
fn quota_dispatch_oldest_first() {
    let config = cfg(&format!(
        r#"
{TIERS}
[[rule]]
path = "media"
quota = "300"
dispatch_sort = "ascending_access"
"#
    ));
    let m = mount();
    // 4 files of 100 each on tier0: 400 used, quota 300, must move 100 (1 file).
    let files = vec![
        file("media/a", 0, 0, 100, 10), // newest
        file("media/b", 0, 0, 100, 100),
        file("media/c", 0, 0, 100, 1000),
        file("media/d", 0, 0, 100, 10000), // oldest
    ];
    let moves = plan(&config, &m, files);
    assert_eq!(
        moves.len(),
        1,
        "should move exactly one file to satisfy quota"
    );
    assert_eq!(
        moves[0].rel,
        b"media/d".to_vec(),
        "oldest dispatched first"
    );
    assert_eq!(moves[0].dst_branch_idx, 1);
}

#[test]
fn quota_dispatch_descending_size() {
    let config = cfg(&format!(
        r#"
{TIERS}
[[rule]]
path = "media"
quota = "300"
dispatch_sort = "descending_size"
"#
    ));
    let m = mount();
    let files = vec![
        file("media/a", 0, 0, 50, 10),
        file("media/big", 0, 0, 250, 10),
        file("media/c", 0, 0, 50, 10),
        file("media/d", 0, 0, 50, 10),
    ]; // total 400, quota 300: largest first moves big(250), under quota in one move
    let moves = plan(&config, &m, files);
    assert_eq!(moves.len(), 1);
    assert_eq!(moves[0].rel, b"media/big".to_vec());
}

#[test]
fn min_age_pins_recent_files() {
    let config = cfg(&format!(
        r#"
{TIERS}
[[rule]]
path = "media"
quota = "0"
min_age = "1h"
dispatch_sort = "ascending_access"
"#
    ));
    let m = mount();
    // quota 0 means everything not pinned must leave tier0. Recent file is pinned.
    let files = vec![
        file("media/recent", 0, 0, 100, 60), // 1min old, pinned by min_age=1h
        file("media/old", 0, 0, 100, 7200),  // 2h old, eligible
    ];
    let moves = plan(&config, &m, files);
    assert_eq!(moves.len(), 1);
    assert_eq!(moves[0].rel, b"media/old".to_vec());
}

#[test]
fn default_rule_applies_when_no_subtree_matches() {
    let config = cfg(&format!(
        r#"
{TIERS}
[[rule]]
quota = "150"
dispatch_sort = "ascending_access"
"#
    ));
    let m = mount();
    let files = vec![
        file("anything/x", 0, 0, 100, 10000),
        file("other/y", 0, 0, 100, 5),
    ]; // whole-pool quota 150, total 200: one file (oldest)
    let moves = plan(&config, &m, files);
    assert_eq!(moves.len(), 1);
    assert_eq!(moves[0].rel, b"anything/x".to_vec());
}

fn sorted_by(name: &str, files: Vec<FileInstance>) -> Vec<String> {
    let config = cfg(&format!(
        "{TIERS}\n[[rule]]\npath = \"m\"\nquota = \"0\"\ndispatch_sort = \"{name}\"\n"
    ));
    rels(&plan(&config, &mount(), files))
}

fn three() -> Vec<FileInstance> {
    let mut a = file("m/a", 0, 0, 30, 100);
    let mut b = file("m/b", 0, 0, 10, 300);
    let mut c = file("m/c", 0, 0, 20, 200);
    a.mtime = NOW - 3_000_000_000_000;
    b.mtime = NOW - 1_000_000_000_000;
    c.mtime = NOW - 2_000_000_000_000;
    vec![a, b, c]
}

#[test]
fn each_dispatch_sorting() {
    assert_eq!(sorted_by("ascending_access", three()), vec!["m/b", "m/c", "m/a"]);
    assert_eq!(sorted_by("descending_access", three()), vec!["m/a", "m/c", "m/b"]);
    assert_eq!(sorted_by("ascending_modification", three()), vec!["m/a", "m/c", "m/b"]);
    assert_eq!(sorted_by("descending_modification", three()), vec!["m/b", "m/c", "m/a"]);
    assert_eq!(sorted_by("ascending_size", three()), vec!["m/b", "m/c", "m/a"]);
    assert_eq!(sorted_by("descending_size", three()), vec!["m/a", "m/c", "m/b"]);
}

#[test]
fn no_file_is_moved_twice() {
    let config = cfg(&format!(
        "{TIERS}\n[[rule]]\npath = \"m\"\nquota = \"0\"\naggressive = true\n[[rule]]\nquota = \"0\"\n"
    ));
    let moves = plan(&config, &mount(), three());
    assert_eq!(rels(&moves), vec!["m/b", "m/c", "m/a"]);
    assert!(moves.iter().all(|m| m.reason == "eager" && m.src_branch_idx == 0 && m.dst_branch_idx == 1));
    assert_eq!(moves[0].size, 10);
    assert_eq!(moves[0].atime, NOW - 300_000_000_000);
    assert_eq!(moves[0].mtime, NOW - 1_000_000_000_000);
}

#[test]
fn the_budget_is_kept() {
    let config = cfg(&format!(
        "max_move_bytes_per_cycle = \"25\"\n{TIERS}\n[[rule]]\npath = \"m\"\nquota = \"0\"\n"
    ));
    let moves = plan(&config, &mount(), three());
    assert!(moves.iter().map(|m| m.size).sum::<u64>() <= 25);
    assert_eq!(moves[0].rel, b"m/b".to_vec());
}

#[test]
fn pinned_subtrees_are_left_alone() {
    let config = cfg(&format!(
        "{TIERS}\n[[rule]]\npath = \"m\"\nquota = \"0\"\npin = true\n"
    ));
    assert!(plan(&config, &mount(), three()).is_empty());
}

#[test]
fn settling_files_are_in_use() {
    let config = cfg(
        "settle = \"1h\"\n[[tier]]\nlevel = 0\npaths = [\"/b0\"]\n[[tier]]\nlevel = 1\npaths = [\"/b1\"]\n\
         [[rule]]\nquota = \"0\"\n",
    );
    let moves = plan(
        &config,
        &mount(),
        vec![file("young", 0, 0, 5, 60), file("old", 0, 0, 5, 4000)],
    );
    assert_eq!(rels(&moves), vec!["old"]);
}

#[test]
fn parent_quotas_count_child_files_unless_pinned() {
    let rules = |pin: bool| {
        format!(
            "{TIERS}\n[[rule]]\npath = \"m\"\nquota = \"150\"\n[[rule]]\npath = \"m/deep\"\npin = {pin}\n"
        )
    };
    let files = || vec![file("m/x", 0, 0, 100, 500), file("m/deep/y", 0, 0, 100, 400)];
    let counted = plan(&cfg(&rules(false)), &mount(), files());
    assert_eq!(rels(&counted), vec!["m/x"]);
    assert!(plan(&cfg(&rules(true)), &mount(), files()).is_empty());
}

#[test]
fn old_files_are_demoted_eagerly() {
    let config = cfg(&format!("{TIERS}\n[[rule]]\nmax_age = \"1h\"\n"));
    let moves = plan(
        &config,
        &mount(),
        vec![file("new", 0, 0, 1, 100), file("older", 0, 0, 1, 9000), file("oldest", 0, 0, 1, 9999)],
    );
    assert_eq!(rels(&moves), vec!["oldest", "older"]);
}

#[test]
fn full_branches_are_relieved() {
    let config = cfg(TIERS);
    let moves = plan_with(
        &config,
        &mount(),
        vec![file("a", 0, 0, 40, 10), file("b", 0, 0, 40, 1000)],
        100,
        vec![80, 1000],
    );
    assert_eq!(rels(&moves), vec!["b"]);
}

#[test]
fn destinations_keep_their_reserve() {
    let config = cfg(&format!("{TIERS}\n[[rule]]\nquota = \"0\"\n"));
    let files = || vec![file("a", 0, 0, 40, 10)];
    assert!(plan_with(&config, &mount(), files(), 100, vec![500, 139]).is_empty());
    assert_eq!(plan_with(&config, &mount(), files(), 100, vec![500, 140]).len(), 1);
}

#[test]
fn policies_by_name() {
    assert_eq!(by_name("access_time").unwrap().name(), "access_time");
    assert_eq!(by_name("atime").unwrap().name(), "access_time");
    assert!(by_name("random").is_none());
}

#[test]
fn quotas_pass_over_what_has_nowhere_to_go() {
    let config = cfg(&format!("{TIERS}\n[[rule]]\nquota = \"0\"\n"));
    let files = vec![file("large", 0, 0, 500, 1000), file("small", 0, 0, 40, 10)];
    assert_eq!(rels(&plan_with(&config, &mount(), files, 0, vec![0, 100])), vec!["small"]);
}

#[test]
fn relief_ends_where_the_coldest_has_nowhere_to_go() {
    let config = cfg(TIERS);
    let files = vec![file("large", 0, 0, 500, 1000), file("small", 0, 0, 40, 10)];
    assert!(plan_with(&config, &mount(), files, 100, vec![0, 300]).is_empty());
}

#[test]
fn eager_demotion_follows_the_order_of_dispatch() {
    let files = || vec![file("m/s", 0, 0, 10, 2000), file("m/l", 0, 0, 100, 1000)];
    let rule = |sort: &str| {
        cfg(&format!(
            "{TIERS}\n[[rule]]\npath = \"m\"\naggressive = true\ndispatch_sort = \"{sort}\"\n"
        ))
    };
    assert_eq!(rels(&plan(&rule("descending_size"), &mount(), files())), vec!["m/l", "m/s"]);
    assert_eq!(rels(&plan(&rule("ascending_access"), &mount(), files())), vec!["m/s", "m/l"]);
}

#[test]
fn eager_demotion_goes_rule_by_rule() {
    let config = cfg(&format!(
        "{TIERS}\n[[rule]]\naggressive = true\n\
         [[rule]]\npath = \"a\"\naggressive = true\n\
         [[rule]]\npath = \"b\"\naggressive = true\npriority = 1\n"
    ));
    let files = vec![
        file("x", 0, 0, 1, 9000),
        file("a/1", 0, 0, 1, 500),
        file("b/1", 0, 0, 1, 100),
        file("a/2", 0, 0, 1, 700),
    ];
    assert_eq!(rels(&plan(&config, &mount(), files)), vec!["b/1", "a/2", "a/1", "x"]);
}

#[test]
fn relief_sends_files_to_their_target_tier() {
    let m = MergerfsMount {
        mountpoint: b"/pool".to_vec(),
        branches: vec![branch("/b0"), branch("/b1"), branch("/b2")],
        minfreespace: 100,
        raw_options: MountOptions { entries: Vec::new() },
    };
    let tiers = format!("{TIERS}\n[[tier]]\nlevel = 2\npaths = [\"/b2\"]\n");
    let files = || vec![file("f", 0, 0, 60, 1000)];
    let free = || vec![50, 1000, 1000];
    let moves = plan_with(&cfg(&format!("{tiers}\n[[rule]]\ntarget_tier = 2\n")), &m, files(), 100, free());
    assert_eq!((moves.len(), moves[0].dst_branch_idx), (1, 2));
    let moves = plan_with(&cfg(&tiers), &m, files(), 100, free());
    assert_eq!((moves.len(), moves[0].dst_branch_idx), (1, 1));
}

#[test]
fn no_move_takes_its_destination_below_the_floor() {
    let config = cfg(&format!("{TIERS}\n[[rule]]\nquota = \"0\"\n"));
    let files = vec![file("a", 0, 0, 40, 30), file("b", 0, 0, 40, 20), file("c", 0, 0, 40, 10)];
    let moves = plan_with(&config, &mount(), files, 100, vec![500, 190]);
    assert_eq!(rels(&moves), vec!["a", "b"]);
}
