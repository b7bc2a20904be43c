use patrick::inventory::{Found, Inventory};
use patrick::mergerfs::{Branch, BranchMode};
use patrick::scan::{Entry, Kind, Scan};
use patrick::tier::{TierBranch, TierMap};

const NOW: i64 = 1_000_000;

fn entry(path: &str, kind: Kind, mtime: i64) -> Entry {
    let name = path.rsplit('/').next().unwrap();
    Entry {
        path: path.as_bytes().to_vec(),
        name: name.as_bytes().to_vec(),
        kind,
        size: 9,
        atime: 4,
        mtime,
        nlink: 2,
    }
}

fn listing() -> Vec<Entry> {
    vec![
        entry("/b/d1", Kind::Dir, 1),
        entry("/b/f", Kind::File, 2),
        entry("/b/link", Kind::Other, 3),
        entry("/b/.tierd.tmp.1.2", Kind::File, NOW - 86_401),
        entry("/b/.tierd.tmp.1.3", Kind::File, NOW - 86_400),
        entry("/b/.tierd.tmp.d", Kind::Dir, 0),
        entry("/elsewhere/g", Kind::File, 0),
        entry("/b/d2", Kind::Dir, 1),
    ]
}

#[test]
fn a_walk_over_a_branch() {
    let mut s = Scan::begin(NOW, false);
    assert!(s.next_dir().is_none());
    s.enter_branch(3, b"/b");
    assert!(s.is_fatal());
    assert_eq!(s.next_dir(), Some(b"/b".to_vec()));
    assert_eq!(s.take_listing(&listing()), vec![b"/b/.tierd.tmp.1.2".to_vec()]);
    assert!(!s.is_fatal());
    assert_eq!(s.files.len(), 1);
    let f = &s.files[0];
    assert_eq!((f.rel.as_slice(), f.branch, f.size), (b"f".as_slice(), 3, 9));
    assert_eq!((f.atime, f.mtime, f.nlink), (4, 2, 2));
    assert_eq!(s.next_dir(), Some(b"/b/d2".to_vec()));
    assert!(s.take_listing(&vec![entry("/b/d2/x", Kind::File, 0)]).is_empty());
    assert_eq!(s.files[1].rel, b"d2/x".to_vec());
    assert_eq!(s.next_dir(), Some(b"/b/.tierd.tmp.d".to_vec()));
    assert_eq!(s.next_dir(), Some(b"/b/d1".to_vec()));
    assert!(s.next_dir().is_none());
}

#[test]
fn a_dry_run_removes_nothing() {
    let mut s = Scan::begin(NOW, true);
    s.enter_branch(0, b"/b");
    assert!(s.take_listing(&listing()).is_empty());
}

fn found(path: &str, is_file: bool) -> Found {
    Found { path: path.as_bytes().to_vec(), is_file, size: 7, atime: Some(5), mtime: None }
}

#[test]
fn an_inventory_of_the_branches() {
    let tb = |path: &str, tier: usize| TierBranch {
        branch: Branch { path: path.as_bytes().to_vec(), mode: BranchMode::ReadWrite },
        tier,
        label: String::new(),
    };
    let tiers = TierMap { branches: vec![tb("/b0", 2), tb("/gone", 3), tb("/b2", 4)], max_tier: 4 };
    let walks = vec![
        Some(vec![found("/b0", false), found("/b0/x/a", true), found("/b0/x/a.part", true)]),
        None,
        Some(vec![found("/b2/keep/me", true), found("/b2/x", true), found("/other", true)]),
    ];
    let excludes = vec!["*.part".to_string(), "x".to_string()];
    let inv = Inventory::scan(&tiers, &excludes, &walks);
    let got: Vec<(&[u8], usize, usize)> =
        inv.files.iter().map(|f| (f.rel.as_slice(), f.branch_idx, f.tier)).collect();
    assert_eq!(got, vec![(b"x/a".as_slice(), 0, 2), (b"keep/me".as_slice(), 2, 4)]);
    let f = &inv.files[0];
    assert_eq!((f.size, f.atime, f.mtime), (7, 5, 0));
}

#[test]
fn names_that_are_no_text_can_be_excluded() {
    let tiers = TierMap {
        branches: vec![TierBranch {
            branch: Branch { path: b"/b".to_vec(), mode: BranchMode::ReadWrite },
            tier: 0,
            label: String::new(),
        }],
        max_tier: 0,
    };
    let odd = Found { path: b"/b/\xff".to_vec(), is_file: true, size: 0, atime: None, mtime: None };
    let walks = vec![Some(vec![odd])];
    assert_eq!(Inventory::scan(&tiers, &vec!["\u{fffd}".to_string()], &walks).files.len(), 0);
    assert_eq!(Inventory::scan(&tiers, &vec!["?".to_string()], &walks).files.len(), 1);
}
