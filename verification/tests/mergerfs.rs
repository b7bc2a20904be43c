use patrick::mergerfs::{
    detect, expand_glob, find_backing_pid, glob_parts, minfreespace_from_opts, parse_args,
    parse_branches, Branch, BranchMode, DetectError, Detection, DirListing, Evidence, MergerfsMount,
    Process, Request, DEFAULT_MINFREESPACE,
};
use patrick::options::parse_opt_string;
use patrick::tier::{assign, path_matches, TierMap};
use patrick::config::TierSpec;

fn chars(s: &str) -> Vec<char> {
    s.chars().collect()
}

fn shown(b: &Branch) -> (String, BranchMode) {
    (String::from_utf8(b.path.clone()).unwrap(), b.mode)
}

fn branches(s: &str, dirs: Vec<DirListing>) -> Vec<(String, BranchMode)> {
    parse_branches(&chars(s), &dirs).unwrap().iter().map(shown).collect()
}

fn listing(dir: &str, names: &[&str]) -> DirListing {
    DirListing {
        dir: dir.as_bytes().to_vec(),
        names: names.iter().map(|n| n.as_bytes().to_vec()).collect(),
    }
}

fn rw(p: &str) -> (String, BranchMode) {
    (p.to_string(), BranchMode::ReadWrite)
}

#[test]
fn branch_modes() {
    assert_eq!(
        branches(" /a=RO : /b=nc::/c=rw:/d=x:/e=ro=Rw", Vec::new()),
        vec![
            ("/a".to_string(), BranchMode::ReadOnly),
            ("/b".to_string(), BranchMode::NoCreate),
            rw("/c"),
            rw("/d=x"),
            rw("/e=ro"),
        ]
    );
    assert!(BranchMode::ReadWrite.writable());
    assert!(!BranchMode::ReadOnly.writable() && !BranchMode::NoCreate.writable());
    assert_eq!(BranchMode::parse(&chars("what")), BranchMode::ReadWrite);
}

#[test]
fn repeated_branches_count_once() {
    assert_eq!(branches("/a:/b:/a/=RO:/b", Vec::new()), vec![rw("/a"), rw("/b")]);
}

#[test]
fn wildcards_range_over_a_directory() {
    let dirs = || vec![listing("/mnt", &["disk2", "other", "disk10", "disk1"])];
    assert_eq!(
        branches("/mnt/disk*=NC:/x", dirs()),
        vec![
            ("/mnt/disk1".to_string(), BranchMode::NoCreate),
            ("/mnt/disk10".to_string(), BranchMode::NoCreate),
            ("/mnt/disk2".to_string(), BranchMode::NoCreate),
            rw("/x"),
        ]
    );
    assert_eq!(branches("/mnt/tape*", dirs()), vec![rw("/mnt/tape*")]);
    assert_eq!(branches("/*/x", vec![listing("/*", &[])]), vec![rw("/*/x")]);
    assert_eq!(parse_branches(&chars("/mnt/d*"), &Vec::new()).unwrap_err(), b"/mnt".to_vec());
    assert_eq!(glob_parts(&chars("/mnt/d*")), Some((b"/mnt".to_vec(), b"d*".to_vec())));
    assert_eq!(glob_parts(&chars("/mnt/d")), None);
    assert_eq!(glob_parts(&chars("/*/..")), None);
    assert_eq!(expand_glob(&chars("*"), &vec![listing("", &["q"])]), vec![b"q".to_vec()]);
}

#[test]
fn names_that_are_no_text_are_matched_loosely() {
    let dirs = vec![DirListing { dir: b"/m".to_vec(), names: vec![vec![b'd', 0xff, b'k']] }];
    assert_eq!(expand_glob(&chars("/m/d*k"), &dirs), vec![vec![b'/', b'm', b'/', b'd', 0xff, b'k']]);
    assert_eq!(expand_glob(&chars("/m/d\u{fffd}*"), &dirs), vec![vec![b'/', b'm', b'/', b'd', 0xff, b'k']]);
}

#[test]
fn reserves() {
    let of = |s: &str| minfreespace_from_opts(&parse_opt_string(&chars(s)));
    assert_eq!(of("rw,minfreespace=2G"), 2 << 30);
    assert_eq!(of("rw"), 4 << 30);
    assert_eq!(of("minfreespace"), 4 << 30);
    assert_eq!(of("minfreespace=lots"), 4 << 30);
    assert_eq!(DEFAULT_MINFREESPACE, 4 << 30);
}

const TABLE: &str = "40 1 0:50 / /pool rw - fuse.mergerfs /s0:/s1 rw,minfreespace=3G\n\
    41 1 0:51 / /ext rw - ext4 /dev/sda1 rw\n\
    42 1 0:52 / /void rw - mergerfs : rw\n";

fn evidence(mountpoint: &str) -> Evidence {
    Evidence {
        mountpoint: mountpoint.as_bytes().to_vec(),
        mountinfo: Some(Some(TABLE.to_string())),
        xattrs: Some((None, None)),
        processes: Some(Some(Vec::new())),
        cmdline: None,
        dirs: Vec::new(),
    }
}

fn found(e: &Evidence) -> MergerfsMount {
    match detect(e) {
        Detection::Found(m) => m,
        other => panic!("{other:?}"),
    }
}

fn failure(e: &Evidence) -> DetectError {
    match detect(e) {
        Detection::Fails(x) => x,
        other => panic!("{other:?}"),
    }
}

fn request(e: &Evidence) -> Request {
    match detect(e) {
        Detection::Needs(x) => x,
        other => panic!("{other:?}"),
    }
}

fn names(m: &MergerfsMount) -> Vec<String> {
    m.branches.iter().map(|b| shown(b).0).collect()
}

fn process(pid: i32, args: &[&str]) -> Process {
    let mut cmdline = Vec::new();
    for a in args {
        cmdline.extend_from_slice(a.as_bytes());
        cmdline.push(0);
    }
    Process { pid, cmdline }
}

#[test]
fn the_control_file_is_authoritative() {
    let mut e = evidence("/pool");
    e.xattrs = Some((Some(b"/x0=RW:/x1=RO\0".to_vec()), Some(b"5G".to_vec())));
    e.processes = None;
    let m = found(&e);
    assert_eq!(names(&m), vec!["/x0", "/x1"]);
    assert_eq!(m.minfreespace, 5 << 30);
    assert_eq!(m.raw_options.to_text(), "minfreespace=3G,rw");
    assert_eq!(m.mountpoint, b"/pool".to_vec());
    e.xattrs = Some((Some(b"/x0".to_vec()), Some(b"?".to_vec())));
    assert_eq!(found(&e).minfreespace, 4 << 30);
    e.xattrs = Some((Some(b"/x*".to_vec()), None));
    assert!(matches!(request(&e), Request::Dir(d) if d == b"/".to_vec()));
    e.dirs = vec![listing("/", &["x7", "y"])];
    assert_eq!(names(&found(&e)), vec!["/x7"]);
}

#[test]
fn the_command_line_comes_second() {
    let mut e = evidence("/pool");
    let args = ["/usr/bin/mergerfs", "-o", "rw,minfreespace=7G", "-ocache", "-f", "/c0:/c1", "/pool"];
    e.processes = Some(Some(vec![
        process(1, &["init", "/pool"]),
        process(2, &["mergerfs", "/z", "/elsewhere"]),
        process(77, &args),
    ]));
    assert!(matches!(request(&e), Request::Cmdline(77)));
    e.cmdline = Some(Some(process(0, &args).cmdline));
    let m = found(&e);
    assert_eq!(names(&m), vec!["/c0", "/c1"]);
    assert_eq!(m.minfreespace, 7 << 30);
    assert_eq!(m.raw_options.to_text(), "minfreespace=3G,rw");
    e.cmdline = Some(Some(process(0, &["mergerfs", "-o", "minfreespace=0", "/c0", "/pool"]).cmdline));
    assert_eq!(found(&e).minfreespace, 3 << 30);
    e.cmdline = Some(Some(process(0, &["mergerfs", "/pool"]).cmdline));
    assert_eq!(names(&found(&e)), vec!["/pool"]);
    e.cmdline = Some(Some(process(0, &["mergerfs", "-o"]).cmdline));
    assert_eq!(names(&found(&e)), vec!["/s0", "/s1"]);
    e.cmdline = Some(Some(Vec::new()));
    assert_eq!(names(&found(&e)), vec!["/s0", "/s1"]);
}

#[test]
fn the_mount_table_comes_last() {
    let m = found(&evidence("/pool"));
    assert_eq!(names(&m), vec!["/s0", "/s1"]);
    assert_eq!(m.minfreespace, 3 << 30);
    assert_eq!(m.raw_options.to_text(), "minfreespace=3G,rw");
}

#[test]
fn what_is_missing_is_asked_for() {
    let mut e = evidence("/pool");
    e.mountinfo = None;
    assert!(matches!(request(&e), Request::Mountinfo));
    let mut e = evidence("/pool");
    e.xattrs = None;
    assert!(matches!(request(&e), Request::Xattrs));
    let mut e = evidence("/pool");
    e.processes = None;
    assert!(matches!(request(&e), Request::Processes));
}

#[test]
fn why_detection_fails() {
    let mut e = evidence("/pool");
    e.mountinfo = Some(None);
    assert!(matches!(failure(&e), DetectError::NoMountinfo));
    assert!(matches!(failure(&evidence("/nowhere")), DetectError::NotMounted));
    assert!(matches!(failure(&evidence("/ext")), DetectError::NotMergerfs(t) if t == "ext4"));
    assert!(matches!(failure(&evidence("/void")), DetectError::NoBranches));
    let mut e = evidence("/pool");
    e.processes = Some(None);
    assert!(matches!(failure(&e), DetectError::NoProcesses));
    let mut e = evidence("/pool");
    e.processes = Some(Some(vec![process(3, &["mergerfs", "/a", "/pool"])]));
    e.cmdline = Some(None);
    assert!(matches!(failure(&e), DetectError::NoCmdline));
}

#[test]
fn command_lines() {
    let args: Vec<String> = parse_args(b"a\0\0b c\0\xffd").iter().map(|a| a.iter().collect()).collect();
    assert_eq!(args, vec!["a", "b c", "\u{fffd}d"]);
    let ps = vec![process(9, &["mergerfs", "/q"]), process(8, &["x/mergerfs", "/p"])];
    assert_eq!(find_backing_pid(&ps, &chars("/p")), Some(8));
    assert_eq!(find_backing_pid(&ps, &chars("/r")), None);
}

fn spec(level: usize, label: Option<&str>, paths: &[&str]) -> TierSpec {
    TierSpec {
        level,
        label: label.map(|l| l.to_string()),
        paths: paths.iter().map(|p| p.to_string()).collect(),
    }
}

#[test]
fn tiers_of_branches() {
    let m = MergerfsMount {
        mountpoint: Vec::new(),
        branches: ["/ssd1", "/hdd/1", "/tape"]
            .iter()
            .map(|p| Branch { path: p.as_bytes().to_vec(), mode: BranchMode::NoCreate })
            .collect(),
        minfreespace: 0,
        raw_options: parse_opt_string(&Vec::new()),
    };
    let specs = vec![spec(0, Some("fast"), &["/ssd*"]), spec(4, None, &["/hdd/*"])];
    assert!(TierMap::can_build(&m, &specs));
    let t = TierMap::build(&m, &specs);
    let got: Vec<(usize, &str)> = t.branches.iter().map(|b| (b.tier, b.label.as_str())).collect();
    assert_eq!(got, vec![(0, "fast"), (4, "tier4"), (5, "tier5")]);
    assert_eq!(t.max_tier, 5);
    assert_eq!(t.branch(1).branch.path, b"/hdd/1".to_vec());
    assert_eq!(t.branch(1).branch.mode, BranchMode::NoCreate);
    assert_eq!(t.at_tier(4), vec![1]);
    assert!(t.at_tier(1).is_empty());
    let plain = TierMap::build(&m, &Vec::new());
    let got: Vec<(usize, &str)> = plain.branches.iter().map(|b| (b.tier, b.label.as_str())).collect();
    assert_eq!(got, vec![(0, "tier0"), (1, "tier1"), (2, "tier2")]);
    assert!(!TierMap::can_build(&m, &vec![spec(usize::MAX, None, &["/ssd*"])]));
    assert!(TierMap::can_build(&m, &vec![spec(usize::MAX, None, &["*"])]));
}

#[test]
fn tiers_are_matched_by_path() {
    assert!(path_matches(b"/a", "/a") && path_matches(b"/a", "/a/") && !path_matches(b"/a", "/ab"));
    assert!(path_matches(b"/a/b", "/a/*") && path_matches(b"/ab", "/a/*") && path_matches(b"/ab", "/a*"));
    assert!(path_matches(&[b'/', 0xff], "/\u{fffd}"));
    assert_eq!(assign(b"/q", 3, &vec![spec(1, None, &["/a"]), spec(0, None, &["/b"])]).0, 2);
    assert_eq!(assign(b"/q", 3, &vec![spec(1, None, &["/q"]), spec(0, None, &["/q"])]).0, 1);
}
