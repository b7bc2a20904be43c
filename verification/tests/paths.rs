use patrick::globs::glob_match;
use patrick::lineage::{ancestors, directories, parent, strip_prefix, with_file_name};
use patrick::mountinfo::{find_entry, unescape_octal, MountInfoLine};
use patrick::options::parse_opt_string;
use patrick::paths::{depth_of, file_name, join, path_ordered, same_path, under};
use patrick::text::{split_lines, split_words, to_decimal, to_signed_decimal};
use std::path::Path;

fn chars(s: &str) -> Vec<char> {
    s.chars().collect()
}

fn text(v: &[char]) -> String {
    v.iter().collect()
}

const SAMPLES: [&str; 27] = [
    "", "/", "//", "a", "a/", "a//", "/a", "//a", "a/b", "a//b", "/a/b/", ".", "./", "./a", "a/.", "a/./b", "..",
    "../a", "a/..", "/.", "/..", "a/./.", "/a/./", ".a", "a./b", "a/b/c.d", "./.",
];

#[test]
fn paths_agree_with_the_system() {
    for s in SAMPLES {
        let p = Path::new(s);
        assert_eq!(depth_of(s.as_bytes()), p.components().count(), "{s}");
        let name = file_name(s.as_bytes()).map(|n| String::from_utf8(n).unwrap());
        assert_eq!(name, p.file_name().map(|n| n.to_str().unwrap().to_string()), "{s}");
        let up = parent(s.as_bytes()).map(|n| String::from_utf8(n).unwrap());
        assert_eq!(up, p.parent().map(|n| n.to_str().unwrap().to_string()), "{s}");
        let all: Vec<String> =
            ancestors(s.as_bytes()).into_iter().map(|n| String::from_utf8(n).unwrap()).collect();
        let want: Vec<String> = p.ancestors().map(|n| n.to_str().unwrap().to_string()).collect();
        assert_eq!(all, want, "{s}");
        let named = String::from_utf8(with_file_name(s.as_bytes(), b"x")).unwrap();
        assert_eq!(named, p.with_file_name("x").to_str().unwrap(), "{s}");
        for t in SAMPLES {
            let q = Path::new(t);
            assert_eq!(under(s.as_bytes(), t.as_bytes()), p.starts_with(q), "{s} {t}");
            assert_eq!(same_path(s.as_bytes(), t.as_bytes()), p == q, "{s} {t}");
            assert_eq!(path_ordered(s.as_bytes(), t.as_bytes()), p <= q, "{s} {t}");
            assert_eq!(join(s.as_bytes(), t.as_bytes()), p.join(q).to_str().unwrap().as_bytes(), "{s} {t}");
            match (strip_prefix(s.as_bytes(), t.as_bytes()), p.strip_prefix(q)) {
                (Some(rel), Ok(want)) => {
                    assert!(same_path(&rel, want.to_str().unwrap().as_bytes()), "{s} {t}")
                }
                (None, Err(_)) => {}
                _ => panic!("{s} {t}"),
            }
        }
    }
}

#[test]
fn the_way_down() {
    assert_eq!(
        directories(b"/b0", b"a/b/f"),
        vec![b"/b0/a".to_vec(), b"/b0/a/b".to_vec()]
    );
    assert!(directories(b"/b0", b"f").is_empty());
    assert!(directories(b"/b0", b"").is_empty());
}

#[test]
fn patterns_with_one_wildcard() {
    let m = |p: &str, n: &str| glob_match(&chars(p), &chars(n));
    assert!(m("disk*", "disk1") && m("disk*", "disk") && !m("disk*", "dis"));
    assert!(m("*.part", "a/b.part") && !m("*.part", "b.party"));
    assert!(m("a*a", "aba") && m("a*a", "aa") && !m("a*a", "a"));
    assert!(m("x", "x") && !m("x", "xx"));
    assert!(m("a*b*", "azb*") && !m("a*b*", "azbz"));
    assert!(m("*", ""));
}

#[test]
fn lines_and_words() {
    let lines = |s: &str| -> Vec<String> { split_lines(&chars(s)).iter().map(|l| text(l)).collect() };
    let words = |s: &str| -> Vec<String> { split_words(&chars(s)).iter().map(|l| text(l)).collect() };
    for s in ["", "\n", "a", "a\n", "a\nb", "a\r\nb\r", "\r\n\n", "a\n\nb\n"] {
        assert_eq!(lines(s), s.lines().map(|l| l.to_string()).collect::<Vec<_>>(), "{s:?}");
    }
    for s in ["", " ", "a", " a  bc\t\u{3000}d ", "x y"] {
        assert_eq!(words(s), s.split_whitespace().map(|l| l.to_string()).collect::<Vec<_>>(), "{s:?}");
    }
}

#[test]
fn decimal_numbers() {
    assert_eq!(to_decimal(0), "0");
    assert_eq!(to_decimal(1205), "1205");
    assert_eq!(to_signed_decimal(-30), "-30");
    assert_eq!(to_signed_decimal(i64::MIN), i64::MIN.to_string());
}

#[test]
fn octal_escapes() {
    let u = |s: &str| text(&unescape_octal(s));
    assert_eq!(u("/mnt/a\\040b"), "/mnt/a b");
    assert_eq!(u("\\134\\011"), "\\\t");
    assert_eq!(u("a\\04"), "a\\04");
    assert_eq!(u("\\400x"), "\\400x");
    assert_eq!(u("\\+12"), "\\+12");
    assert_eq!(u("/mnt/é"), "/mnt/é");
    assert_eq!(u("/mnt/日本\\040語\\012"), "/mnt/日本 語\n");
    assert_eq!(u("\\089"), "\\089");
    assert_eq!(u("\\"), "\\");
}

const TABLE: &str = "22 1 0:20 / /proc rw - proc proc rw\n\
    garbage\n\
    40 1 0:50 / /mnt/my\\040pool rw,relatime shared:1 - fuse.mergerfs /b0:/b1 rw,minfreespace=1G\n\
    41 1 0:51 / /bare rw - mergerfs src\n";

#[test]
fn mount_table_entries() {
    let m = find_entry(TABLE, &chars("/mnt/my pool")).unwrap();
    assert_eq!(text(&m.fstype), "fuse.mergerfs");
    assert_eq!(text(&m.source), "/b0:/b1");
    assert_eq!(text(&m.super_opts), "rw,minfreespace=1G");
    let m = find_entry(TABLE, &chars("/bare")).unwrap();
    assert_eq!((text(&m.source), text(&m.super_opts)), ("src".to_string(), String::new()));
    assert!(find_entry(TABLE, &chars("/none")).is_none());
    let table = "40 1 0:50 / /mnt/d\u{e9}p\u{f4}t\\0401 rw - mergerfs src rw\n";
    assert!(find_entry(table, &chars("/mnt/d\u{e9}p\u{f4}t 1")).is_some());
    assert!(MountInfoLine::parse(&chars("1 2 3 4 - a b")).is_none());
    assert!(MountInfoLine::parse(&chars("1 2 3 4 5 - a")).is_none());
    assert!(MountInfoLine::parse(&chars("1 2 3 4 5 a b")).is_none());
}

#[test]
fn option_strings() {
    let o = parse_opt_string(&chars("z,b=2,,a=1=2,b=3,c="));
    assert_eq!(o.to_text(), "a=1=2,b=3,c=,z");
    assert_eq!(o.get("a"), Some("1=2".to_string()));
    assert_eq!(o.get("b"), Some("3".to_string()));
    assert_eq!(o.get("c"), Some(String::new()));
    assert_eq!(o.get("z"), None);
    assert_eq!(o.get("y"), None);
    assert!(!o.is_empty());
    assert!(parse_opt_string(&chars(",")).is_empty());
}
