//! The daemon's cycle.

use crate::config::Config;
use crate::dispatch::DispatchStats;
use crate::inventory::Inventory;
use crate::policy;
use crate::policy::access_time;
use crate::policy::{by_name, Move, PolicyContext};
use crate::text;
use crate::text::{copy_of, to_decimal};
use crate::tier::TierMap;
use vstd::prelude::*;

verus! {

/// The mount point: the one given on the command line, or else the configured
/// one.
pub fn resolve_mount(cfg: &Config, cli_mount: &Option<Vec<u8>>) -> (r: Option<Vec<u8>>)
    ensures
        match (*cli_mount, cfg.mount) {
            (Some(m), _) => r matches Some(x) && x@ == m@,
            (None, Some(m)) => r matches Some(x) && x@ == m@,
            (None, None) => r is None,
        },
{
    match (cli_mount, &cfg.mount) {
        (Some(m), _) => Some(copy_of(m.as_slice())),
        (None, Some(m)) => Some(copy_of(m.as_slice())),
        (None, None) => None,
    }
}

/// The command line can ask for a dry run, but not revoke one.
pub fn override_dry_run(cfg: Config, dry_run: bool) -> (r: Config)
    ensures
        r == (Config { dry_run: cfg.dry_run || dry_run, ..cfg }),
{
    let mut c = cfg;
    if dry_run {
        c.dry_run = true;
    }
    c
}

/// What the daemon does next.
#[derive(Debug, Clone, Copy, PartialEq, Eq, Structural)]
pub enum Step {
    /// One cycle of planning and moving.
    Cycle,
    /// Sleep for so many nanoseconds.
    Sleep(u128),
    /// Tell the watchdog that the daemon lives, and go on with a cycle.
    Ping,
    Stop,
}

/// What follows a cycle: the end, if only one was asked for or a shutdown was
/// requested, or else the interval, but never longer than the watchdog wants.
pub fn after_cycle(once: bool, shutdown: bool, interval: u128, watchdog: Option<u128>) -> (r: Step)
    ensures
        once || shutdown ==> r == Step::Stop,
        !once && !shutdown ==> r == Step::Sleep(
            match watchdog {
                Some(w) => if w < interval {
                    w
                } else {
                    interval
                },
                None => interval,
            },
        ),
        r matches Step::Sleep(n) ==> n <= interval && (watchdog matches Some(w) ==> n <= w) && (n
            == interval || watchdog == Some(n)),
{
    if once || shutdown {
        return Step::Stop;
    }
    let nap = match watchdog {
        Some(w) => if w < interval {
            w
        } else {
            interval
        },
        None => interval,
    };
    Step::Sleep(nap)
}

/// What follows a sleep.
pub fn after_sleep(shutdown: bool, watchdog: Option<u128>) -> (r: Step)
    ensures
        r == if shutdown {
            Step::Stop
        } else if watchdog is Some {
            Step::Ping
        } else {
            Step::Cycle
        },
{
    if shutdown {
        Step::Stop
    } else if watchdog.is_some() {
        Step::Ping
    } else {
        Step::Cycle
    }
}

/// The status of a cycle that went through, as systemd shows it.
pub open spec fn status_of(s: DispatchStats, elapsed: Seq<char>) -> Seq<char> {
    "STATUS=last cycle: "@ + text::decimal(s.moved as nat) + " moved, "@ + text::decimal(
        s.failed as nat,
    ) + " failed, "@ + text::decimal(s.bytes as nat) + " bytes in "@ + elapsed + "\nWATCHDOG=1"@
}

/// The status of a cycle that went through, with the time it took in words.
pub fn status_line(s: &DispatchStats, elapsed: &str) -> (r: String)
    ensures
        r@ == status_of(*s, elapsed@),
{
    let mut r = "STATUS=last cycle: ".to_string();
    r.append(to_decimal(s.moved as u128).as_str());
    r.append(" moved, ");
    r.append(to_decimal(s.failed as u128).as_str());
    r.append(" failed, ");
    r.append(to_decimal(s.bytes as u128).as_str());
    r.append(" bytes in ");
    r.append(elapsed);
    r.append("\nWATCHDOG=1");
    r
}

/// The moves of a cycle; `None` where the configured policy is unknown.
pub fn compute_plan(
    cfg: &Config,
    tiers: &TierMap,
    inventory: &Inventory,
    minfreespace: u64,
    free: Vec<u64>,
    now: i128,
) -> (r: Option<Vec<Move>>)
    requires
        (PolicyContext { config: cfg, tiers, inventory, minfreespace, free, now }).wf(),
    ensures
        r is Some <==> policy::names_access_time(cfg.policy@),
        r matches Some(v) ==> policy::move_views(v@) == access_time::projected(
            PolicyContext { config: cfg, tiers, inventory, minfreespace, free, now },
        ).moves,
{
    match by_name(cfg.policy.as_str()) {
        Some(p) => {
            let ctx = PolicyContext { config: cfg, tiers, inventory, minfreespace, free, now };
            Some(p.plan(&ctx))
        },
        None => None,
    }
}

/// The status tells the number of moves made, then of those that failed, then the bytes,
/// each before the word for it, and at last the time that it took.
pub proof fn status_tells_the_counts(s: DispatchStats, elapsed: Seq<char>)
    ensures
        exists|a: Seq<char>, b: Seq<char>, c: Seq<char>, d: Seq<char>, e: Seq<char>| #[trigger]
            status_reads(s, elapsed, a, b, c, d, e),
{
    assert(status_reads(
        s,
        elapsed,
        "STATUS=last cycle: "@,
        " moved, "@,
        " failed, "@,
        " bytes in "@,
        "\nWATCHDOG=1"@,
    ));
}

/// The status is made up of these texts with the counts and the time between them.
pub open spec fn status_reads(
    s: DispatchStats,
    elapsed: Seq<char>,
    a: Seq<char>,
    b: Seq<char>,
    c: Seq<char>,
    d: Seq<char>,
    e: Seq<char>,
) -> bool {
    &&& status_of(s, elapsed) == a + text::decimal(s.moved as nat) + b + text::decimal(
        s.failed as nat,
    ) + c + text::decimal(s.bytes as nat) + d + elapsed + e
    &&& b == " moved, "@
    &&& c == " failed, "@
    &&& d == " bytes in "@
}

} // verus!
