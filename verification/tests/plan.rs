use patrick::plan::{
    build_plan, flatten_branches, Branch, FsUsage, Move, PoolConfig, PoolTier, SubtreeRule,
};
use patrick::scan::FileMeta;

const NOW: i64 = 1_000_000;

fn rule(rel: &str) -> SubtreeRule {
    SubtreeRule {
        rel: rel.as_bytes().to_vec(),
        pin: None,
        aggressive_target: None,
        quota: None,
        keep_secs: None,
    }
}

fn pool(rules: Vec<SubtreeRule>) -> PoolConfig {
    let tier = |name: &str, paths: &[&str]| PoolTier {
        name: name.to_string(),
        branches: paths.iter().map(|p| p.as_bytes().to_vec()).collect(),
        high: 80,
        low: 50,
    };
    PoolConfig {
        tiers: vec![tier("fast", &["/f"]), tier("slow", &["/s0", "/s1"])],
        rules,
        min_free: 10,
        mtime_cooldown_secs: 100,
        max_move_per_pass: None,
    }
}

fn file(rel: &str, branch: usize, size: u64, age: i64) -> FileMeta {
    FileMeta {
        rel: rel.as_bytes().to_vec(),
        branch,
        size,
        atime: NOW - age,
        mtime: NOW - age,
        nlink: 1,
    }
}

fn usage(free: &[u64]) -> Vec<FsUsage> {
    free.iter().map(|f| FsUsage { free: *f, total: 1000 }).collect()
}

fn plan(cfg: &PoolConfig, files: Vec<FileMeta>, free: &[u64]) -> Vec<Move> {
    let branches = flatten_branches(cfg);
    let temps: Vec<i64> = files.iter().map(|f| f.atime).collect();
    build_plan(cfg, &branches, &files, &temps, &usage(free), NOW)
}

fn shown(moves: &[Move]) -> Vec<(String, usize, usize, &'static str)> {
    moves
        .iter()
        .map(|m| (String::from_utf8(m.rel.clone()).unwrap(), m.from, m.to, m.reason))
        .collect()
}

fn one(rel: &str, from: usize, to: usize, reason: &'static str) -> (String, usize, usize, &'static str) {
    (rel.to_string(), from, to, reason)
}

#[test]
fn branches_are_flattened() {
    let b: Vec<Branch> = flatten_branches(&pool(Vec::new()));
    let got: Vec<(usize, &[u8])> = b.iter().map(|b| (b.tier, b.path.as_slice())).collect();
    assert_eq!(got, vec![(0, b"/f".as_slice()), (1, b"/s0".as_slice()), (1, b"/s1".as_slice())]);
}

#[test]
fn rules_by_longest_prefix() {
    let cfg = pool(vec![rule("a"), rule("a/b"), rule("a/b/")]);
    assert_eq!(cfg.find_rule(&b"a/b/c".to_vec()), Some(1));
    assert_eq!(cfg.find_rule(&b"a/x".to_vec()), Some(0));
    assert_eq!(cfg.find_rule(&b"ab".to_vec()), None);
}

#[test]
fn strays_are_gathered_onto_their_pinned_tier() {
    let mut r = rule("p");
    r.pin = Some(0);
    let cfg = pool(vec![r]);
    let moves = plan(&cfg, vec![file("p/x", 2, 30, 5), file("p/y", 0, 30, 5)], &[500, 500, 500]);
    assert_eq!(shown(&moves), vec![one("p/x", 2, 0, "pin")]);
}

#[test]
fn aggressive_subtrees_go_down_coldest_first() {
    let mut r = rule("d");
    r.aggressive_target = Some(1);
    let cfg = pool(vec![r]);
    let files = vec![file("d/warm", 0, 30, 500), file("d/cold", 0, 30, 900), file("d/hot", 0, 30, 50)];
    let moves = plan(&cfg, files, &[500, 300, 400]);
    // the roomiest branch first; what is planned counts; what cools is left alone
    assert_eq!(
        shown(&moves),
        vec![one("d/cold", 0, 2, "aggressive"), one("d/warm", 0, 2, "aggressive")]
    );
}

#[test]
fn of_equally_roomy_branches_the_last_is_taken() {
    let mut r = rule("d");
    r.aggressive_target = Some(1);
    let moves = plan(&pool(vec![r]), vec![file("d/a", 0, 30, 500)], &[500, 300, 300]);
    assert_eq!(shown(&moves), vec![one("d/a", 0, 2, "aggressive")]);
}

#[test]
fn quotas_are_settled() {
    let mut r = rule("q");
    r.quota = Some(50);
    let cfg = pool(vec![r]);
    let files = vec![file("q/a", 0, 30, 500), file("q/b", 0, 30, 700), file("q/c", 1, 30, 900)];
    let moves = plan(&cfg, files, &[900, 300, 200]);
    assert_eq!(shown(&moves), vec![one("q/b", 0, 1, "quota")]);
}

#[test]
fn recently_used_files_are_promoted_below_the_watermark() {
    let mut r = rule("k");
    r.keep_secs = Some(1000);
    let cfg = pool(vec![r]);
    let files = || vec![file("k/a", 1, 100, 300), file("k/b", 1, 100, 200), file("k/old", 1, 1, 5000)];
    let moves = plan(&cfg, files(), &[400, 500, 500]);
    assert_eq!(
        shown(&moves),
        vec![one("k/b", 1, 0, "keep-promote"), one("k/a", 1, 0, "keep-promote")]
    );
    // 650 of 1000 in use: the first reaches 750, the second would pass 800
    let moves = plan(&cfg, files(), &[350, 500, 500]);
    assert_eq!(shown(&moves), vec![one("k/b", 1, 0, "keep-promote")]);
}

#[test]
fn full_tiers_are_drained_to_the_low_watermark() {
    let cfg = pool(Vec::new());
    let files = vec![file("a", 0, 200, 300), file("b", 0, 200, 900), file("c", 0, 200, 600)];
    // 850 in use, high 800, low 500: two moves bring it to 450
    let moves = plan(&cfg, files, &[150, 900, 900]);
    assert_eq!(shown(&moves), vec![one("b", 0, 2, "watermark"), one("c", 0, 1, "watermark")]);
}

#[test]
fn tiers_below_the_high_watermark_are_left_alone() {
    let moves = plan(&pool(Vec::new()), vec![file("a", 0, 200, 300)], &[200, 900, 900]);
    assert!(moves.is_empty());
}

#[test]
fn ambiguous_and_hardlinked_files_are_never_moved() {
    let mut r = rule("d");
    r.aggressive_target = Some(1);
    let cfg = pool(vec![r]);
    let mut linked = file("d/l", 0, 10, 500);
    linked.nlink = 2;
    let files = vec![file("d/x", 0, 10, 500), file("d//x", 1, 10, 500), linked, file("d/y", 0, 10, 500)];
    assert_eq!(shown(&plan(&cfg, files, &[500, 500, 400])), vec![one("d/y", 0, 1, "aggressive")]);
}

#[test]
fn headroom_is_kept() {
    let mut r = rule("d");
    r.aggressive_target = Some(1);
    let cfg = pool(vec![r]);
    assert!(plan(&cfg, vec![file("d/x", 0, 30, 500)], &[500, 39, 39]).is_empty());
    assert_eq!(plan(&cfg, vec![file("d/x", 0, 30, 500)], &[500, 40, 39]).len(), 1);
}

#[test]
fn a_pass_keeps_its_budget() {
    let mut r = rule("d");
    r.aggressive_target = Some(1);
    let mut cfg = pool(vec![r]);
    cfg.max_move_per_pass = Some(50);
    let files = || vec![file("d/a", 0, 40, 900), file("d/b", 0, 40, 800), file("d/c", 0, 10, 700)];
    let moves = plan(&cfg, files(), &[500, 500, 500]);
    assert_eq!(
        shown(&moves).iter().map(|m| m.0.clone()).collect::<Vec<_>>(),
        vec!["d/a", "d/c"]
    );
    cfg.max_move_per_pass = Some(u64::MAX);
    assert!(plan(&cfg, files(), &[500, 500, 500]).is_empty());
}

#[test]
fn moves_come_in_the_order_of_the_passes() {
    let mut pin = rule("p");
    pin.pin = Some(1);
    let mut push = rule("d");
    push.aggressive_target = Some(1);
    let mut cap = rule("q");
    cap.quota = Some(0);
    let mut keep = rule("k");
    keep.keep_secs = Some(1000);
    let files = vec![
        file("z", 0, 500, 9000),
        file("k/a", 1, 10, 500),
        file("q/a", 0, 10, 500),
        file("d/a", 0, 10, 500),
        file("p/a", 0, 10, 5),
    ];
    let mut cfg = pool(vec![pin, push, cap, keep]);
    cfg.tiers[0].high = 90;
    // 900 in use: 870 after three moves, 880 with the one that comes back
    let moves = plan(&cfg, files, &[100, 900, 900]);
    let reasons: Vec<&str> = moves.iter().map(|m| m.reason).collect();
    assert_eq!(reasons, vec!["pin", "aggressive", "quota", "keep-promote"]);
    assert_eq!((moves[3].from, moves[3].to), (1, 0));
}

#[test]
fn kept_files_are_not_demoted() {
    let mut r = rule("k");
    r.keep_secs = Some(1000);
    let moves = plan(&pool(vec![r]), vec![file("k/a", 0, 500, 500), file("z", 0, 100, 400)], &[100, 900, 900]);
    assert_eq!(shown(&moves), vec![one("z", 0, 2, "watermark")]);
}
