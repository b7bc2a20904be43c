//! Parsing utilities, and the decisions around low-level calls.

use crate::sizes;
use crate::sizes::to_bytes;
use crate::text;
use crate::text::{
    chars_of, copy_range, find_first, spells, split_words, strict, text_of, to_lower, trim, white,
};
use vstd::prelude::*;
#[allow(unused_imports)]
use vstd::utf8::*;

pub mod laws;

verus! {

// ---- sizes -------------------------------------------------------------------------

/// What is wrong with a size.
#[derive(Debug)]
pub enum SizeError {
    Empty,
    /// The number in this text is none.
    Number(String),
    /// This unit, in this text, is unknown.
    Unit(String, String),
}

/// What is wrong with a size, with texts as sequences.
pub enum SizeErrorView {
    Empty,
    Number(Seq<char>),
    Unit(Seq<char>, Seq<char>),
}

impl View for SizeError {
    type V = SizeErrorView;

    open spec fn view(&self) -> SizeErrorView {
        match self {
            SizeError::Empty => SizeErrorView::Empty,
            SizeError::Number(t) => SizeErrorView::Number(t@),
            SizeError::Unit(u, t) => SizeErrorView::Unit(u@, t@),
        }
    }
}

/// The characters that the number of a size is made of.
pub open spec fn is_numeric(c: char) -> bool {
    sizes::is_digit(c) || c == '.' || c == '_'
}

/// The length of the number that the text begins with.
pub open spec fn numeric_len(s: Seq<char>) -> nat
    decreases s.len(),
{
    if s.len() > 0 && is_numeric(s[0]) {
        1 + numeric_len(s.skip(1))
    } else {
        0
    }
}

/// The number of bytes that a unit stands for: suffix multipliers are base-2
/// (K=1024, M=1024^2, ...), matching mergerfs.
pub open spec fn unit_factor(unit: Seq<char>) -> Option<u64> {
    if unit == ""@ || unit == "b"@ {
        Some(1)
    } else if unit == "k"@ || unit == "kib"@ || unit == "kb"@ {
        Some(0x400)
    } else if unit == "m"@ || unit == "mib"@ || unit == "mb"@ {
        Some(0x10_0000)
    } else if unit == "g"@ || unit == "gib"@ || unit == "gb"@ {
        Some(0x4000_0000)
    } else if unit == "t"@ || unit == "tib"@ || unit == "tb"@ {
        Some(0x100_0000_0000)
    } else if unit == "p"@ || unit == "pib"@ || unit == "pb"@ {
        Some(0x4_0000_0000_0000)
    } else {
        None
    }
}

/// What a size stands for: a number, which may have a decimal point and
/// underscores, and a unit, in either case and set off by white space or not.
pub open spec fn size_reading(s: Seq<char>) -> Result<u64, SizeErrorView> {
    let t = text::trimmed(s);
    let k = numeric_len(t) as int;
    let num = t.take(k).filter(|c: char| c != '_');
    let unit = text::lowered(text::trimmed(t.skip(k)));
    let dot = text::first_of(num, '.');
    let whole = num.take(dot);
    let frac = if dot < num.len() {
        num.skip(dot + 1)
    } else {
        Seq::empty()
    };
    if t.len() == 0 {
        Err(SizeErrorView::Empty)
    } else if whole.len() + frac.len() == 0 || frac.contains('.') {
        Err(SizeErrorView::Number(t))
    } else {
        match unit_factor(unit) {
            Some(u) => Ok(sizes::byte_count(sizes::number(whole + frac), frac.len(), u as nat)),
            None => Err(SizeErrorView::Unit(unit, t)),
        }
    }
}

/// The result of a parse, with the error by its view.
pub open spec fn size_outcome(r: Result<u64, SizeError>) -> Result<u64, SizeErrorView> {
    match r {
        Ok(n) => Ok(n),
        Err(e) => Err(e@),
    }
}

fn factor_of(unit: &[char]) -> (r: Option<u64>)
    ensures
        r == unit_factor(unit@),
        r matches Some(u) ==> 0 < u <= 0x4_0000_0000_0000,
{
    if spells(unit, "") || spells(unit, "b") {
        Some(1)
    } else if spells(unit, "k") || spells(unit, "kib") || spells(unit, "kb") {
        Some(0x400)
    } else if spells(unit, "m") || spells(unit, "mib") || spells(unit, "mb") {
        Some(0x10_0000)
    } else if spells(unit, "g") || spells(unit, "gib") || spells(unit, "gb") {
        Some(0x4000_0000)
    } else if spells(unit, "t") || spells(unit, "tib") || spells(unit, "tb") {
        Some(0x100_0000_0000)
    } else if spells(unit, "p") || spells(unit, "pib") || spells(unit, "pb") {
        Some(0x4_0000_0000_0000)
    } else {
        None
    }
}

/// The length of the number that the text begins with.
fn number_len(s: &[char]) -> (r: usize)
    ensures
        r == numeric_len(s@),
        r <= s.len(),
        forall|i: int| 0 <= i < r ==> is_numeric(#[trigger] s@[i]),
{
    let mut i: usize = 0;
    assert(s@.skip(0) =~= s@);
    while i < s.len() && ((s[i] >= '0' && s[i] <= '9') || s[i] == '.' || s[i] == '_')
        invariant
            i <= s.len(),
            i + numeric_len(s@.skip(i as int)) == numeric_len(s@),
            forall|j: int| 0 <= j < i ==> is_numeric(#[trigger] s@[j]),
        decreases s.len() - i,
    {
        assert(s@.skip(i as int)[0] == s@[i as int]);
        assert(s@.skip(i as int).skip(1) =~= s@.skip(i + 1));
        i = i + 1;
    }
    assert(i < s.len() ==> s@.skip(i as int)[0] == s@[i as int]);
    i
}

/// The first `k` characters without underscores.
fn without_underscores(s: &[char], k: usize) -> (r: Vec<char>)
    requires
        k <= s.len(),
        forall|i: int| 0 <= i < k ==> is_numeric(#[trigger] s@[i]),
    ensures
        r@ == s@.take(k as int).filter(|c: char| c != '_'),
        forall|i: int| 0 <= i < r@.len() ==> sizes::is_digit(#[trigger] r@[i]) || r@[i] == '.',
{
    reveal(Seq::filter);
    let ghost pred = |c: char| c != '_';
    let mut r: Vec<char> = Vec::new();
    let mut i: usize = 0;
    assert(s@.take(0) =~= Seq::<char>::empty());
    assert(r@ =~= s@.take(0).filter(pred));
    while i < k
        invariant
            i <= k <= s.len(),
            pred == (|c: char| c != '_'),
            r@ == s@.take(i as int).filter(pred),
            forall|i: int| 0 <= i < k ==> is_numeric(#[trigger] s@[i]),
            forall|i: int| 0 <= i < r@.len() ==> sizes::is_digit(#[trigger] r@[i]) || r@[i] == '.',
        decreases k - i,
    {
        reveal(Seq::filter);
        let c = s[i];
        assert(is_numeric(s@[i as int]));
        assert(s@.take(i + 1).drop_last() =~= s@.take(i as int));
        assert(s@.take(i + 1).last() == c);
        if c != '_' {
            r.push(c);
        }
        i = i + 1;
    }
    r
}

/// Parse a human size string such as `200G`, `1.5TiB`, `512M`, `4096`.
/// Suffix multipliers are base-2 (K=1024, M=1024^2, ...), matching mergerfs.
pub fn parse_size(s: &str) -> (r: Result<u64, SizeError>)
    ensures
        size_outcome(r) == size_reading(s@),
{
    let all = chars_of(s);
    let t = trim(all.as_slice());
    if t.len() == 0 {
        return Err(SizeError::Empty);
    }
    let k = number_len(t.as_slice());
    let num = without_underscores(t.as_slice(), k);
    let unit = to_lower(trim(copy_range(t.as_slice(), k, t.len()).as_slice()).as_slice());
    assert(t@.subrange(k as int, t@.len() as int) =~= t@.skip(k as int));
    let (whole, frac) = match find_first(num.as_slice(), '.') {
        Some(i) => (
            copy_range(num.as_slice(), 0, i),
            copy_range(num.as_slice(), i + 1, num.len()),
        ),
        None => (copy_range(num.as_slice(), 0, num.len()), Vec::new()),
    };
    let ghost dot = text::first_of(num@, '.');
    proof {
        text::lemma_first_of(num@, '.');
        assert(whole@ =~= num@.take(dot));
        if dot < num@.len() {
            assert(frac@ =~= num@.skip(dot + 1));
        }
        assert(sizes::all_digits(whole@)) by {
            assert forall|i: int| 0 <= i < whole@.len() implies sizes::is_digit(
                #[trigger] whole@[i],
            ) by {
                assert(whole@[i] == num@[i]);
            }
        }
        text::lemma_first_of(frac@, '.');
    }
    let more = find_first(frac.as_slice(), '.');
    proof {
        if more is Some {
            assert(frac@[text::first_of(frac@, '.')] == '.');
            assert(frac@.contains('.'));
        }
    }
    if whole.len() + frac.len() == 0 || more.is_some() {
        return Err(SizeError::Number(text_of(t.as_slice())));
    }
    assert(sizes::all_digits(frac@)) by {
        assert forall|i: int| 0 <= i < frac@.len() implies sizes::is_digit(#[trigger] frac@[i]) by {
            assert(frac@[i] == num@[dot + 1 + i]);
        }
    }
    assert(!frac@.contains('.'));
    match factor_of(unit.as_slice()) {
        Some(u) => Ok(to_bytes(whole.as_slice(), frac.as_slice(), u)),
        None => Err(SizeError::Unit(text_of(unit.as_slice()), text_of(t.as_slice()))),
    }
}

// ---- durations ---------------------------------------------------------------------

/// The error of `humantime::parse_duration`.
#[verifier::external_type_specification]
#[verifier::external_body]
pub struct ExDurationError(humantime::DurationError);

/// What `humantime::parse_duration` makes of a text: a number of nanoseconds, or
/// nothing where it reports an error.
pub uninterp spec fn humantime_nanos(text: Seq<char>) -> Option<nat>;

/// The number of digits that make a difference: all but those zeros that a
/// number begins with and that another digit follows. `fresh` says that a number
/// has not begun yet. White space does not end a number; a unit does.
pub open spec fn significant(s: Seq<char>, fresh: bool) -> nat
    decreases s.len(),
{
    if s.len() == 0 {
        0
    } else if sizes::is_digit(s[0]) {
        if fresh && s[0] == '0' && s.len() > 1 && sizes::is_digit(s[1]) {
            significant(s.skip(1), true)
        } else {
            1 + significant(s.skip(1), false)
        }
    } else if s[0] == '.' {
        significant(s.skip(1), false)
    } else {
        significant(s.skip(1), fresh || !text::is_white(s[0]))
    }
}

/// The character, or a space in place of what numbers are made of.
pub open spec fn unit_char(c: char) -> char {
    if sizes::is_digit(c) || c == '.' {
        ' '
    } else {
        c
    }
}

/// The units in a duration: what stands between numbers and white space.
pub open spec fn units(s: Seq<char>) -> Seq<Seq<char>> {
    text::words(s.map_values(|c: char| unit_char(c)))
}

/// A unit shorter than a second.
pub open spec fn is_brief(unit: Seq<char>) -> bool {
    ||| unit == "nanos"@ || unit == "nsec"@ || unit == "ns"@
    ||| unit == "usec"@ || unit == "us"@ || unit == "\u{b5}s"@
    ||| unit == "millis"@ || unit == "msec"@ || unit == "ms"@
}

/// The duration speaks of parts of a second, or may do so.
pub open spec fn has_fraction(s: Seq<char>) -> bool {
    s.contains('.') || exists|k: int|
        0 <= k < units(s).len() && is_brief(#[trigger] units(s)[k])
}

/// The most digits that a duration of several units with parts of a second may
/// have.
pub const DURATION_DIGITS: usize = 15;

/// At least the seconds that a unit is long: those of a year for all that is
/// longer than a day.
pub open spec fn unit_seconds(unit: Seq<char>) -> nat {
    if is_brief(unit) || unit == "seconds"@ || unit == "second"@ || unit == "secs"@ || unit
        == "sec"@ || unit == "s"@ {
        1
    } else if unit == "minutes"@ || unit == "minute"@ || unit == "mins"@ || unit == "min"@ || unit
        == "m"@ {
        60
    } else if unit == "hours"@ || unit == "hour"@ || unit == "hrs"@ || unit == "hr"@ || unit
        == "h"@ {
        3_600
    } else if unit == "days"@ || unit == "day"@ || unit == "d"@ {
        86_400
    } else {
        31_557_600
    }
}

/// At least the seconds that a number of units is long, with a fraction of one
/// more and what is carried.
pub open spec fn span(n: nat, unit: Seq<char>) -> nat {
    if unit.len() == 0 {
        0
    } else {
        (n + 2) * unit_seconds(unit)
    }
}

/// At least the seconds that a duration comes to, of which `n` has been read of
/// the number in hand, with its decimal point to come if `whole`, and `unit` of
/// its unit. White space does not end a number.
pub open spec fn tally(s: Seq<char>, n: nat, whole: bool, unit: Seq<char>) -> nat
    decreases s.len(),
{
    if s.len() == 0 {
        span(n, unit)
    } else {
        let c = s[0];
        let rest = s.skip(1);
        if sizes::is_digit(c) {
            let d = (c as nat - '0' as nat) as nat;
            if unit.len() > 0 {
                span(n, unit) + tally(rest, d, true, Seq::empty())
            } else if whole {
                tally(rest, 10 * n + d, true, unit)
            } else {
                tally(rest, n, false, unit)
            }
        } else if c == '.' {
            tally(rest, n, false, unit)
        } else if !text::is_white(c) {
            tally(rest, n, whole, unit.push(c))
        } else if unit.len() > 0 {
            span(n, unit) + tally(rest, 0, true, Seq::empty())
        } else {
            tally(rest, n, whole, unit)
        }
    }
}

/// The duration can be read: of those with several units, only one that speaks of
/// parts of a second is limited, either in its digits or in its length.
pub open spec fn is_readable(s: Seq<char>) -> bool {
    ||| units(s).len() <= 1
    ||| !has_fraction(s)
    ||| significant(s, true) <= DURATION_DIGITS
    ||| tally(s, 0, true, Seq::empty()) < u64::MAX
}

/// `humantime::parse_duration`: the number of nanoseconds that the text stands
/// for, by name, or an error.
///
/// It panics where the seconds sum up to the largest `u64` and the nanoseconds to
/// exactly one more second. One number never does both. Whole seconds leave no
/// nanoseconds. And it takes at least twelve digits for the seconds, even in
/// years, and at least four more for the nanoseconds, where zeros that a number
/// begins with do not help. What is left out are texts that are neither of one
/// unit nor of whole seconds, have more than fifteen digits, and may come to as
/// many seconds.
#[verifier::external_body]
fn read_duration(text: &str) -> (r: Result<u128, humantime::DurationError>)
    requires
        is_readable(text@),
    ensures
        match r {
            Ok(n) => humantime_nanos(text@) == Some(n as nat),
            Err(_) => humantime_nanos(text@) is None,
        },
{
    humantime::parse_duration(text).map(|d| d.as_nanos())
}

/// A text that does not stand for a duration.
#[derive(Debug)]
pub struct BadDuration {
    pub text: String,
}

/// The number of nanoseconds that a duration stands for, white space around it
/// left out.
pub open spec fn duration_reading(s: Seq<char>) -> Option<nat> {
    humantime_nanos(text::trimmed(s))
}

fn count_significant(s: &[char]) -> (r: usize)
    ensures
        r == significant(s@, true),
        r <= s.len(),
{
    let mut n: usize = 0;
    let mut fresh = true;
    let mut i: usize = 0;
    assert(s@.skip(0) =~= s@);
    while i < s.len()
        invariant
            n <= i <= s.len(),
            n + significant(s@.skip(i as int), fresh) == significant(s@, true),
        decreases s.len() - i,
    {
        let ghost rest = s@.skip(i as int);
        assert(rest[0] == s@[i as int]);
        assert(i + 1 < s@.len() ==> rest[1] == s@[i + 1]);
        assert(rest.skip(1) =~= s@.skip(i + 1));
        let c = s[i];
        if c >= '0' && c <= '9' {
            let follows = i + 1 < s.len() && s[i + 1] >= '0' && s[i + 1] <= '9';
            if !(fresh && c == '0' && follows) {
                n = n + 1;
                fresh = false;
            }
        } else if c == '.' {
            fresh = false;
        } else {
            fresh = fresh || !white(c);
        }
        i = i + 1;
    }
    n
}

fn split_units(s: &[char]) -> (r: Vec<Vec<char>>)
    ensures
        text::views(r@) == units(s@),
{
    let ghost all = s@.map_values(|c: char| unit_char(c));
    let mut spaced: Vec<char> = Vec::new();
    let mut i: usize = 0;
    while i < s.len()
        invariant
            i <= s.len(),
            all == s@.map_values(|c: char| unit_char(c)),
            spaced@ =~= all.take(i as int),
        decreases s.len() - i,
    {
        let c = s[i];
        if (c >= '0' && c <= '9') || c == '.' {
            spaced.push(' ');
        } else {
            spaced.push(c);
        }
        i = i + 1;
    }
    assert(spaced@ =~= all);
    split_words(spaced.as_slice())
}

fn brief(unit: &[char]) -> (r: bool)
    ensures
        r == is_brief(unit@),
{
    spells(unit, "nanos") || spells(unit, "nsec") || spells(unit, "ns") || spells(unit, "usec")
        || spells(unit, "us") || spells(unit, "\u{b5}s") || spells(unit, "millis") || spells(
        unit,
        "msec",
    ) || spells(unit, "ms")
}

fn seconds_of(unit: &[char]) -> (r: u128)
    ensures
        r == unit_seconds(unit@),
        1 <= r <= 31_557_600,
{
    if brief(unit) || spells(unit, "seconds") || spells(unit, "second") || spells(unit, "secs")
        || spells(unit, "sec") || spells(unit, "s") {
        1
    } else if spells(unit, "minutes") || spells(unit, "minute") || spells(unit, "mins") || spells(
        unit,
        "min",
    ) || spells(unit, "m") {
        60
    } else if spells(unit, "hours") || spells(unit, "hour") || spells(unit, "hrs") || spells(
        unit,
        "hr",
    ) || spells(unit, "h") {
        3_600
    } else if spells(unit, "days") || spells(unit, "day") || spells(unit, "d") {
        86_400
    } else {
        31_557_600
    }
}

/// A count, cut off at the largest `u64`.
spec fn cut(n: nat) -> nat {
    if n < u64::MAX {
        n
    } else {
        u64::MAX as nat
    }
}

fn cut_off(n: u128) -> (r: u128)
    ensures
        r == cut(n as nat),
{
    if n < u64::MAX as u128 {
        n
    } else {
        u64::MAX as u128
    }
}

/// A sum of seconds with one more span, cut off.
fn add_span(sum: u128, n: u128, unit: &[char], Ghost(all): Ghost<nat>, Ghost(count): Ghost<nat>) -> (r:
    u128)
    requires
        sum == cut(all),
        n == cut(count),
    ensures
        r == cut(all + span(count, unit@)),
{
    if unit.len() == 0 {
        return sum;
    }
    let w = seconds_of(unit);
    proof {
        assert((n + 2) * w <= (u64::MAX + 2) * 31_557_600) by (nonlinear_arith)
            requires
                n <= u64::MAX,
                w <= 31_557_600,
        ;
        if count >= u64::MAX {
            assert((count + 2) * w >= u64::MAX) by (nonlinear_arith)
                requires
                    count >= u64::MAX,
                    w >= 1,
            ;
            assert((n + 2) * w >= u64::MAX) by (nonlinear_arith)
                requires
                    n >= u64::MAX,
                    w >= 1,
            ;
        }
    }
    cut_off(sum + (n + 2) * w)
}

/// Whether the seconds that a duration may come to are few enough.
fn is_short(s: &[char]) -> (r: bool)
    ensures
        r == (tally(s@, 0, true, Seq::empty()) < u64::MAX),
{
    let mut sum: u128 = 0;
    let mut n: u128 = 0;
    let mut whole = true;
    let mut unit: Vec<char> = Vec::new();
    let ghost mut all: nat = 0;
    let ghost mut count: nat = 0;
    let mut i: usize = 0;
    assert(s@.skip(0) =~= s@);
    assert(unit@ =~= Seq::<char>::empty());
    while i < s.len()
        invariant
            i <= s.len(),
            sum == cut(all),
            n == cut(count),
            all + tally(s@.skip(i as int), count, whole, unit@) == tally(
                s@,
                0,
                true,
                Seq::empty(),
            ),
        decreases s.len() - i,
    {
        let ghost rest = s@.skip(i as int);
        assert(rest[0] == s@[i as int]);
        assert(rest.skip(1) =~= s@.skip(i + 1));
        let c = s[i];
        if c >= '0' && c <= '9' {
            let d: u128 = (c as u32 - 48) as u128;
            if unit.len() > 0 {
                sum = add_span(sum, n, unit.as_slice(), Ghost(all), Ghost(count));
                proof {
                    all = all + span(count, unit@);
                    count = d as nat;
                }
                n = d;
                whole = true;
                unit = Vec::new();
                assert(unit@ =~= Seq::<char>::empty());
            } else if whole {
                n = cut_off(10 * n + d);
                proof {
                    count = 10 * count + d as nat;
                }
            }
        } else if c == '.' {
            whole = false;
        } else if !white(c) {
            unit.push(c);
        } else if unit.len() > 0 {
            sum = add_span(sum, n, unit.as_slice(), Ghost(all), Ghost(count));
            proof {
                all = all + span(count, unit@);
                count = 0;
            }
            n = 0;
            whole = true;
            unit = Vec::new();
            assert(unit@ =~= Seq::<char>::empty());
        }
        i = i + 1;
    }
    assert(s@.skip(i as int).len() == 0);
    add_span(sum, n, unit.as_slice(), Ghost(all), Ghost(count)) < u64::MAX as u128
}

/// Whether a duration, white space around it left out, can be read.
pub fn duration_in_range(s: &str) -> (r: bool)
    ensures
        r == is_readable(text::trimmed(s@)),
{
    let all = chars_of(s);
    let t = trim(all.as_slice());
    if count_significant(t.as_slice()) <= DURATION_DIGITS || is_short(t.as_slice()) {
        return true;
    }
    let parts = split_units(t.as_slice());
    let ghost u = units(t@);
    assert(u.len() == parts@.len());
    if parts.len() <= 1 {
        return true;
    }
    proof {
        text::lemma_first_of(t@, '.');
    }
    if find_first(t.as_slice(), '.').is_some() {
        assert(t@[text::first_of(t@, '.')] == '.');
        return false;
    }
    assert(!t@.contains('.'));
    let mut i: usize = 0;
    while i < parts.len()
        invariant
            i <= parts.len(),
            u == text::views(parts@),
            u == units(t@),
            u.len() == parts@.len(),
            !t@.contains('.'),
            significant(t@, true) > DURATION_DIGITS,
            tally(t@, 0, true, Seq::empty()) >= u64::MAX,
            u.len() > 1,
            t@ == text::trimmed(s@),
            forall|k: int| 0 <= k < i ==> !is_brief(#[trigger] u[k]),
        decreases parts.len() - i,
    {
        assert(u[i as int] == parts@[i as int]@);
        if brief(parts[i].as_slice()) {
            return false;
        }
        i = i + 1;
    }
    true
}

/// Parse a human duration such as `14d`, `2w`, `36h`, `90min`, in nanoseconds.
pub fn parse_duration(s: &str) -> (r: Result<u128, BadDuration>)
    requires
        is_readable(text::trimmed(s@)),
    ensures
        match r {
            Ok(n) => duration_reading(s@) == Some(n as nat),
            Err(e) => duration_reading(s@) is None && e.text@ == s@,
        },
{
    let all = chars_of(s);
    let t = text_of(trim(all.as_slice()).as_slice());
    match read_duration(t.as_str()) {
        Ok(n) => Ok(n),
        Err(_) => Err(BadDuration { text: text_of(all.as_slice()) }),
    }
}

// ---- extended attributes -------------------------------------------------------------

/// What an extended attribute says as text: without a trailing NUL, and only if
/// it is UTF-8.
pub open spec fn xattr_string(raw: Seq<u8>) -> Option<Seq<char>> {
    let b = if raw.len() > 0 && raw.last() == 0 {
        raw.drop_last()
    } else {
        raw
    };
    if valid_utf8(b) {
        Some(decode_utf8(b))
    } else {
        None
    }
}

/// Takes an xattr, if it could be read, as a UTF-8 string (trimming a trailing
/// NUL if present).
pub fn getxattr_str(raw: &Option<Vec<u8>>) -> (r: Option<String>)
    ensures
        match r {
            Some(s) => *raw matches Some(b) && xattr_string(b@) == Some(s@),
            None => *raw matches Some(b) ==> xattr_string(b@) is None,
        },
{
    match raw {
        Some(b) => {
            let n = if b.len() > 0 && b[b.len() - 1] == 0 {
                b.len() - 1
            } else {
                b.len()
            };
            let v = copy_range(b.as_slice(), 0, n);
            assert(v@ =~= if b@.len() > 0 && b@.last() == 0 {
                b@.drop_last()
            } else {
                b@
            });
            strict(v)
        },
        None => None,
    }
}

// ---- numbers -------------------------------------------------------------------------

/// The number that a text stands for: digits, behind which nothing else may
/// follow; a plus sign may come first.
pub open spec fn unsigned_reading(s: Seq<char>) -> Option<nat> {
    let digits = if s.len() > 0 && s[0] == '+' {
        s.skip(1)
    } else {
        s
    };
    if digits.len() > 0 && sizes::all_digits(digits) {
        Some(sizes::number(digits))
    } else {
        None
    }
}

/// Reads a number, if the text stands for one that is no larger than `max`.
fn read_unsigned(s: &[char], max: u64) -> (r: Option<u64>)
    ensures
        match r {
            Some(n) => unsigned_reading(s@) == Some(n as nat) && n <= max,
            None => unsigned_reading(s@) matches Some(n) ==> n > max,
        },
{
    let from: usize = if s.len() > 0 && s[0] == '+' {
        1
    } else {
        0
    };
    let ghost digits = s@.skip(from as int);
    proof {
        if from == 0 {
            assert(digits =~= s@);
        }
    }
    if from == s.len() {
        assert(digits.len() == 0);
        return None;
    }
    let mut n: u128 = 0;
    let mut over = false;
    let mut i = from;
    assert(digits.take(0) =~= Seq::<char>::empty());
    while i < s.len()
        invariant
            from <= i <= s.len(),
            digits == s@.skip(from as int),
            forall|k: int| 0 <= k < i - from ==> sizes::is_digit(#[trigger] digits[k]),
            !over ==> n == sizes::number(digits.take(i - from)) && n <= max,
            over ==> sizes::number(digits.take(i - from)) > max,
            digits == if s@.len() > 0 && s@[0] == '+' {
                s@.skip(1)
            } else {
                s@
            },
        decreases s.len() - i,
    {
        let c = s[i];
        assert(digits[i - from] == c);
        if c < '0' || c > '9' {
            assert(!sizes::is_digit(digits[i - from]));
            return None;
        }
        assert(digits.take(i - from + 1).drop_last() =~= digits.take(i - from));
        if !over {
            n = n * 10 + (c as u32 - 48) as u128;
            if n > max as u128 {
                over = true;
            }
        }
        i = i + 1;
    }
    assert(digits.take(i - from) =~= digits);
    if over {
        None
    } else {
        Some(n as u64)
    }
}

/// The process that an entry of `/proc` is named after, if it is named after one.
pub open spec fn pid_reading(s: Seq<char>) -> Option<int> {
    if s.len() > 0 && s[0] == '-' {
        match unsigned_reading(s.skip(1)) {
            Some(n) => if n <= 0x8000_0000 && s[1] != '+' {
                Some(-(n as int))
            } else {
                None
            },
            None => None,
        }
    } else {
        match unsigned_reading(s) {
            Some(n) => if n <= 0x7fff_ffff {
                Some(n as int)
            } else {
                None
            },
            None => None,
        }
    }
}

/// Reads the number of a process.
pub fn parse_pid(s: &str) -> (r: Option<i32>)
    ensures
        match r {
            Some(n) => pid_reading(s@) == Some(n as int),
            None => pid_reading(s@) is None,
        },
{
    let c = chars_of(s);
    if c.len() > 0 && c[0] == '-' {
        let rest = copy_range(c.as_slice(), 1, c.len());
        assert(rest@ =~= c@.skip(1));
        if rest.len() > 0 && rest[0] == '+' {
            assert(c@[1] == rest@[0]);
            return None;
        }
        assert(rest@.len() > 0 ==> c@[1] == rest@[0]);
        match read_unsigned(rest.as_slice(), 0x8000_0000) {
            Some(n) => Some((0 - n as i64) as i32),
            None => None,
        }
    } else {
        match read_unsigned(c.as_slice(), 0x7fff_ffff) {
            Some(n) => Some(n as i32),
            None => None,
        }
    }
}

// ---- time ----------------------------------------------------------------------------

/// The nanoseconds between pings that a watchdog setting asks for: half of what
/// it says, and none where it says nothing, no number or zero.
pub open spec fn watchdog_setting(var: Option<Seq<char>>) -> Option<nat> {
    match var {
        Some(t) => match unsigned_reading(t) {
            Some(usec) => if 0 < usec <= u64::MAX {
                Some(usec / 2 * 1000)
            } else {
                None
            },
            None => None,
        },
        None => None,
    }
}

/// Watchdog interval requested by systemd (`WATCHDOG_USEC`), halved per the
/// systemd convention of pinging at least twice per interval, in nanoseconds.
pub fn watchdog_interval(var: Option<String>) -> (r: Option<u128>)
    ensures
        match r {
            Some(n) => var matches Some(t) && watchdog_setting(Some(t@)) == Some(n as nat),
            None => var matches Some(t) ==> watchdog_setting(Some(t@)) is None,
        },
{
    match var {
        Some(t) => match read_unsigned(chars_of(t.as_str()).as_slice(), u64::MAX) {
            Some(usec) => {
                if usec == 0 {
                    None
                } else {
                    Some((usec / 2) as u128 * 1000)
                }
            },
            None => None,
        },
        None => None,
    }
}

pub const NANOS_PER_SEC: i128 = 1_000_000_000;

/// A time as the system takes it.
#[derive(Debug, Clone, Copy, PartialEq, Eq, Structural)]
pub struct Timespec {
    pub sec: i64,
    pub nsec: i64,
}

/// A time, in nanoseconds since the epoch, as the system takes it; what lies
/// before the epoch becomes the epoch.
pub fn to_timespec(t: i128) -> (r: Timespec)
    requires
        t < (i64::MAX + 1) * NANOS_PER_SEC,
    ensures
        r.sec * NANOS_PER_SEC + r.nsec == if t < 0 {
            0
        } else {
            t as int
        },
        0 <= r.sec,
        0 <= r.nsec < NANOS_PER_SEC,
{
    let n = if t < 0 {
        0
    } else {
        t
    };
    Timespec { sec: (n / NANOS_PER_SEC) as i64, nsec: (n % NANOS_PER_SEC) as i64 }
}

/// The longest that is slept without looking for a shutdown: 200 ms.
pub const SLEEP_STEP: u128 = 200_000_000;

/// A sleep that a shutdown cuts short, in nanoseconds.
#[derive(Debug)]
pub struct Sleep {
    pub remaining: u128,
}

impl Sleep {
    /// Tells how long to sleep next; `None` once the time is up or a shutdown
    /// was requested.
    pub fn next(&mut self, shutdown: bool) -> (r: Option<u128>)
        ensures
            r is None <==> shutdown || old(self).remaining == 0,
            r is None ==> *final(self) == *old(self),
            r matches Some(n) ==> {
                &&& 0 < n <= SLEEP_STEP
                &&& n == SLEEP_STEP || final(self).remaining == 0
                &&& final(self).remaining + n == old(self).remaining
            },
    {
        if shutdown || self.remaining == 0 {
            return None;
        }
        let n = if self.remaining < SLEEP_STEP {
            self.remaining
        } else {
            SLEEP_STEP
        };
        self.remaining = self.remaining - n;
        Some(n)
    }
}

} // verus!
