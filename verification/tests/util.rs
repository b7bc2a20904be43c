use patrick::sdnotify::{bare_address, notify_address};
use patrick::sizes::to_bytes;
use patrick::util::{
    duration_in_range, getxattr_str, parse_duration, parse_pid, parse_size, to_timespec,
    watchdog_interval, SizeError, Sleep, Timespec,
};

#[test]
fn sizes_with_and_without_units() {
    assert_eq!(parse_size("4096").unwrap(), 4096);
    assert_eq!(parse_size("200G").unwrap(), 200 << 30);
    assert_eq!(parse_size("1.5TiB").unwrap(), 3 << 39);
    assert_eq!(parse_size("512M").unwrap(), 512 << 20);
    assert_eq!(parse_size(" 1_000 kb ").unwrap(), 1_024_000);
    assert_eq!(parse_size("2p").unwrap(), 2 << 50);
    assert_eq!(parse_size("7b").unwrap(), 7);
    assert_eq!(parse_size("5.").unwrap(), 5);
    assert_eq!(parse_size(".5k").unwrap(), 512);
    assert_eq!(parse_size("0").unwrap(), 0);
}

#[test]
fn faulty_sizes() {
    assert!(matches!(parse_size(" \t"), Err(SizeError::Empty)));
    assert!(matches!(parse_size("."), Err(SizeError::Number(t)) if t == "."));
    assert!(matches!(parse_size("1.2.3"), Err(SizeError::Number(t)) if t == "1.2.3"));
    assert!(matches!(parse_size("G"), Err(SizeError::Number(_))));
    assert!(matches!(parse_size("-1"), Err(SizeError::Number(_))));
    assert!(matches!(parse_size(" 5 XB "), Err(SizeError::Unit(u, t)) if u == "xb" && t == "5 XB"));
}

fn by_float(number: &str, unit: u64) -> u64 {
    let val: f64 = number.parse().unwrap();
    (val * unit as f64) as u64
}

fn by_digits(number: &str, unit: u64) -> u64 {
    let (whole, frac) = number.split_once('.').unwrap_or((number, ""));
    let whole: Vec<char> = whole.chars().collect();
    let frac: Vec<char> = frac.chars().collect();
    to_bytes(&whole, &frac, unit)
}

#[test]
fn numbers_are_rounded_like_floats() {
    let long = "9".repeat(400);
    let tail = format!("0.{}1", "0".repeat(330));
    let mut numbers: Vec<String> = vec![
        "0", "1", "0.1", "0.3", "1.1", "2.675", "123456789.987654321", "9007199254740991",
        "9007199254740992", "9007199254740993", "9007199254740995", "9007199254740993.5",
        "18014398509481985", "18014398509481986", "18014398509481987", "4503599627370496.5",
        "4503599627370497.5", "4503599627370495.75", "18446744073709551615",
        "18446744073709551616", "18446744073709550591.9", "18446744073709550592",
        "0.0000000000000008881784197001252", "0.00000000000000088817841970012523",
        "0.00000000000000088817841970012524", "0.999999999999999944488848768742172978818416595458984375",
        "0.99999999999999994448884876874217297881841659545898437501", "7.", ".125",
    ]
    .into_iter()
    .map(|s| s.to_string())
    .collect();
    numbers.push(long.clone());
    numbers.push(format!("0.{}", long));
    numbers.push(tail);
    let mut seed: u64 = 88172645463325252;
    for _ in 0..400 {
        seed ^= seed << 13;
        seed ^= seed >> 7;
        seed ^= seed << 17;
        numbers.push(format!("{}.{}", seed % 100_000, seed));
        numbers.push(format!("{}", seed));
        numbers.push(format!("{}.{:05}", seed >> 11, seed % 100_000));
    }
    for n in &numbers {
        for k in 0..6 {
            let unit = 1u64 << (10 * k);
            assert_eq!(by_digits(n, unit), by_float(n, unit), "{n} times {unit}");
        }
    }
}

#[test]
fn durations_in_humantime_forms() {
    let secs = |s: &str| parse_duration(s).unwrap() / 1_000_000_000;
    assert_eq!(secs("14d"), 14 * 86400);
    assert_eq!(secs(" 2w "), 14 * 86400);
    assert_eq!(secs("36h"), 36 * 3600);
    assert_eq!(secs("90min"), 5400);
    assert_eq!(secs("5m"), 300);
    assert_eq!(parse_duration("1s 5ns").unwrap(), 1_000_000_005);
}

#[test]
fn faulty_durations() {
    assert_eq!(parse_duration(" soon").unwrap_err().text, " soon");
    assert_eq!(parse_duration("").unwrap_err().text, "");
    assert_eq!(parse_duration("5").unwrap_err().text, "5");
}

#[test]
fn digits_of_durations() {
    assert!(duration_in_range("99999999999999s 1ms"));
    assert!(!duration_in_range("1 2 3 4 5 6 7 8 9 0 1 2 3 4 5 6y 0.5s"));
    assert!(!duration_in_range("1 0000000000000000y 1\u{b5}s"));
    assert!(duration_in_range("0000000000000000001s 00000000000000000001ms"));
    assert!(duration_in_range("1000000000000000000ns"));
    assert!(duration_in_range("584542046090y 20000000s 99999999min"));
    // the most digits that are read, in the largest unit, with a carry at the end
    assert!(parse_duration("99999999999y 1000ms").is_ok());
    assert!(parse_duration("584542046090y 999ms").is_ok());
    assert!(parse_duration("999999999999999y").is_err());
    assert_eq!(parse_duration("1000000000000000000ns").unwrap(), 1_000_000_000_000_000_000);
    assert_eq!(parse_duration("00000000000000000007d 00000000000000000001ms").unwrap(), 604_800_001_000_000);
    assert_eq!(parse_duration("18446744073709551615s").unwrap(), u64::MAX as u128 * 1_000_000_000);
    assert!(parse_duration("18446744073709551615s 1s").is_err());
}

#[test]
fn lengths_of_durations() {
    assert_eq!(
        parse_duration("365days 5h 59m 59s 999ms 999us 999ns").unwrap(),
        31_557_599_999_999_999
    );
    assert_eq!(parse_duration("1000000000000s 500ms 1.000000001s").unwrap(), 1_000_000_000_001_500_000_001);
    assert!(duration_in_range("1.0000000000000000s 1s"));
    assert!(duration_in_range("18446744073709551609s 1ms"));
    assert!(!duration_in_range("18446744073709551610s 1ms"));
    assert!(!duration_in_range("18446744073709551615s 1000ms"));
    assert!(duration_in_range("307445734561825857min 1ms"));
    assert!(!duration_in_range("307445734561825857hours 1ms"));
    assert!(!duration_in_range("1844674407370955161s8446744073709551615s0.5s0.5s9446744073709551615s"));
}

#[test]
fn xattrs_as_text() {
    assert_eq!(getxattr_str(&Some(b"/a:/b\0".to_vec())), Some("/a:/b".to_string()));
    assert_eq!(getxattr_str(&Some(b"x\0\0".to_vec())), Some("x\0".to_string()));
    assert_eq!(getxattr_str(&Some(Vec::new())), Some(String::new()));
    assert_eq!(getxattr_str(&Some(vec![0xff, 0])), None);
    assert_eq!(getxattr_str(&None), None);
}

#[test]
fn watchdog_settings() {
    let var = |s: &str| watchdog_interval(Some(s.to_string()));
    assert_eq!(var("30000000"), Some(15_000_000_000));
    assert_eq!(var("+5"), Some(2000));
    assert_eq!(var("1"), Some(0));
    assert_eq!(var("0"), None);
    assert_eq!(var(""), None);
    assert_eq!(var("+"), None);
    assert_eq!(var("-3"), None);
    assert_eq!(var("3 "), None);
    assert_eq!(var("18446744073709551615"), Some(9223372036854775807 * 1000));
    assert_eq!(var("18446744073709551616"), None);
    assert_eq!(watchdog_interval(None), None);
}

#[test]
fn process_numbers() {
    for s in ["1", "0042", "+7", "-7", "2147483647", "2147483648", "-2147483648", "-2147483649", "self",
        "", "-", "+", "-+1", "+-1", "1 "]
    {
        assert_eq!(parse_pid(s), s.parse::<i32>().ok(), "{s}");
    }
}

#[test]
fn times_for_the_system() {
    assert_eq!(to_timespec(1_500_000_000), Timespec { sec: 1, nsec: 500_000_000 });
    assert_eq!(to_timespec(-1), Timespec { sec: 0, nsec: 0 });
    assert_eq!(to_timespec(0), Timespec { sec: 0, nsec: 0 });
}

#[test]
fn sleep_goes_in_steps() {
    let mut s = Sleep { remaining: 450_000_000 };
    assert_eq!(s.next(false), Some(200_000_000));
    assert_eq!(s.next(false), Some(200_000_000));
    assert_eq!(s.next(true), None);
    assert_eq!(s.next(false), Some(50_000_000));
    assert_eq!(s.next(false), None);
}

#[test]
fn socket_addresses() {
    let a = notify_address(b"/run/notify", 108, 2).unwrap();
    assert_eq!((a.path, a.len), (b"/run/notify".to_vec(), 14));
    let a = notify_address(b"@abc", 108, 2).unwrap();
    assert_eq!((a.path, a.len), (b"\0abc".to_vec(), 6));
    let a = bare_address(b"/run/notify", 108, 2).unwrap();
    assert_eq!((a.path, a.len), (b"/run/notify".to_vec(), 13));
    let a = bare_address(b"@abc", 108, 2).unwrap();
    assert_eq!((a.path, a.len), (b"\0abc".to_vec(), 6));
    assert!(notify_address(b"", 108, 2).is_none());
    assert!(notify_address(&[65; 108], 108, 2).is_none());
    assert!(notify_address(&[65; 107], 108, 2).is_some());
    assert!(bare_address(b"", 108, 2).is_none());
}
