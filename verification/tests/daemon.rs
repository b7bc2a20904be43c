use patrick::config::Config;
use patrick::daemon::{
    after_cycle, after_sleep, compute_plan, override_dry_run, resolve_mount, status_line, Step,
};
use patrick::dispatch::DispatchStats;
use patrick::inventory::Inventory;
use patrick::tier::TierMap;

#[test]
fn the_command_line_overrides_the_mount() {
    let mut cfg = Config::defaults();
    assert_eq!(resolve_mount(&cfg, &None), None);
    assert_eq!(resolve_mount(&cfg, &Some(b"/cli".to_vec())), Some(b"/cli".to_vec()));
    cfg.mount = Some(b"/cfg".to_vec());
    assert_eq!(resolve_mount(&cfg, &None), Some(b"/cfg".to_vec()));
    assert_eq!(resolve_mount(&cfg, &Some(b"/cli".to_vec())), Some(b"/cli".to_vec()));
}

#[test]
fn a_dry_run_cannot_be_revoked() {
    assert!(!override_dry_run(Config::defaults(), false).dry_run);
    let c = override_dry_run(Config::defaults(), true);
    assert!(c.dry_run);
    assert!(override_dry_run(c, false).dry_run);
}

#[test]
fn what_follows_a_cycle() {
    assert_eq!(after_cycle(true, false, 9, None), Step::Stop);
    assert_eq!(after_cycle(false, true, 9, None), Step::Stop);
    assert_eq!(after_cycle(false, false, 9, None), Step::Sleep(9));
    assert_eq!(after_cycle(false, false, 9, Some(4)), Step::Sleep(4));
    assert_eq!(after_cycle(false, false, 9, Some(40)), Step::Sleep(9));
    assert_eq!(after_sleep(true, Some(1)), Step::Stop);
    assert_eq!(after_sleep(false, Some(1)), Step::Ping);
    assert_eq!(after_sleep(false, None), Step::Cycle);
}

#[test]
fn the_status_of_a_cycle() {
    let s = DispatchStats { moved: 3, bytes: 1024, failed: 1 };
    assert_eq!(
        status_line(&s, "2.5s"),
        "STATUS=last cycle: 3 moved, 1 failed, 1024 bytes in 2.5s\nWATCHDOG=1"
    );
}

#[test]
fn plans_need_a_known_policy() {
    let mut cfg = Config::defaults();
    let tiers = TierMap { branches: Vec::new(), max_tier: 0 };
    let inv = Inventory { files: Vec::new() };
    assert!(compute_plan(&cfg, &tiers, &inv, 0, Vec::new(), 0).unwrap().is_empty());
    cfg.policy = "none".to_string();
    assert!(compute_plan(&cfg, &tiers, &inv, 0, Vec::new(), 0).is_none());
}
