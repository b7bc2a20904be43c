//! What holds of sizes, numbers and times that are read.

use super::SizeErrorView;
use crate::sizes;
use crate::text;
use crate::util;
use vstd::prelude::*;
#[allow(unused_imports)]
use vstd::seq_lib::*;
#[allow(unused_imports)]
use vstd::utf8::*;

verus! {

// ---- sizes -------------------------------------------------------------------------

/// The power of 1024 that a letter stands for.
pub open spec fn scale(c: char) -> nat {
    if c == 'k' {
        1024
    } else if c == 'm' {
        1024 * 1024
    } else if c == 'g' {
        1024 * 1024 * 1024
    } else if c == 't' {
        1024 * 1024 * 1024 * 1024
    } else {
        1024 * 1024 * 1024 * 1024 * 1024
    }
}

/// The units are powers of 1024, by their letter, with or without `b` or `ib`; no unit
/// is a byte.
pub proof fn units_are_powers_of_1024(c: char)
    ensures
        c == 'k' || c == 'm' || c == 'g' || c == 't' || c == 'p' ==> {
            &&& util::unit_factor(seq![c]) matches Some(n) && n == scale(c)
            &&& util::unit_factor(seq![c, 'b']) matches Some(n) && n == scale(c)
            &&& util::unit_factor(seq![c, 'i', 'b']) matches Some(n) && n == scale(c)
        },
        util::unit_factor(seq!['b']) == Some(1u64),
        util::unit_factor(Seq::<char>::empty()) == Some(1u64),
{
    reveal_strlit("");
    reveal_strlit("b");
    reveal_strlit("k");
    reveal_strlit("kib");
    reveal_strlit("kb");
    reveal_strlit("m");
    reveal_strlit("mib");
    reveal_strlit("mb");
    reveal_strlit("g");
    reveal_strlit("gib");
    reveal_strlit("gb");
    reveal_strlit("t");
    reveal_strlit("tib");
    reveal_strlit("tb");
    reveal_strlit("p");
    reveal_strlit("pib");
    reveal_strlit("pb");
    assert(""@ =~= Seq::<char>::empty());
    assert("b"@ =~= seq!['b']);
    assert("k"@ =~= seq!['k'] && "kb"@ =~= seq!['k', 'b'] && "kib"@ =~= seq!['k', 'i', 'b']);
    assert("m"@ =~= seq!['m'] && "mb"@ =~= seq!['m', 'b'] && "mib"@ =~= seq!['m', 'i', 'b']);
    assert("g"@ =~= seq!['g'] && "gb"@ =~= seq!['g', 'b'] && "gib"@ =~= seq!['g', 'i', 'b']);
    assert("t"@ =~= seq!['t'] && "tb"@ =~= seq!['t', 'b'] && "tib"@ =~= seq!['t', 'i', 'b']);
    assert("p"@ =~= seq!['p'] && "pb"@ =~= seq!['p', 'b'] && "pib"@ =~= seq!['p', 'i', 'b']);
    let (one, two, three) = (seq![c], seq![c, 'b'], seq![c, 'i', 'b']);
    assert(one[0] == c && two[0] == c && three[0] == c);
    assert(one.len() == 1 && two.len() == 2 && three.len() == 3);
    assert(seq!['b'][0] == 'b');
    assert(seq!['k'][0] == 'k' && seq!['m'][0] == 'm' && seq!['g'][0] == 'g' && seq!['t'][0] == 't'
        && seq!['p'][0] == 'p');
    assert(seq!['k', 'b'][0] == 'k' && seq!['m', 'b'][0] == 'm' && seq!['g', 'b'][0] == 'g' && seq![
        't',
        'b',
    ][0] == 't' && seq!['p', 'b'][0] == 'p');
    assert(seq!['k', 'i', 'b'][0] == 'k' && seq!['m', 'i', 'b'][0] == 'm' && seq![
        'g',
        'i',
        'b',
    ][0] == 'g' && seq!['t', 'i', 'b'][0] == 't' && seq!['p', 'i', 'b'][0] == 'p');
}

proof fn lemma_numeric_len(num: Seq<char>, rest: Seq<char>)
    requires
        forall|k: int| 0 <= k < num.len() ==> util::is_numeric(#[trigger] num[k]),
        rest.len() > 0 ==> !util::is_numeric(rest[0]),
    ensures
        util::numeric_len(num + rest) == num.len(),
    decreases num.len(),
{
    let s = num + rest;
    if num.len() == 0 {
        assert(s =~= rest);
    } else {
        assert(util::is_numeric(num[0]));
        let more = num.skip(1);
        assert forall|k: int| 0 <= k < more.len() implies util::is_numeric(#[trigger] more[k]) by {
            assert(more[k] == num[k + 1]);
        }
        lemma_numeric_len(more, rest);
        assert(s.skip(1) =~= more + rest);
        assert(s[0] == num[0]);
    }
}

proof fn lemma_filter_all(s: Seq<char>, pred: spec_fn(char) -> bool)
    requires
        forall|k: int| 0 <= k < s.len() ==> pred(#[trigger] s[k]),
    ensures
        s.filter(pred) == s,
    decreases s.len(),
{
    reveal(Seq::filter);
    if s.len() > 0 {
        let front = s.drop_last();
        assert forall|k: int| 0 <= k < front.len() implies pred(#[trigger] front[k]) by {
            assert(front[k] == s[k]);
        }
        lemma_filter_all(front, pred);
        assert(pred(s[s.len() - 1]));
        assert(front.push(s.last()) =~= s);
    } else {
        assert(s.filter(pred) =~= s);
    }
}

/// A number with a unit is its digits, of which those behind the point, if there is
/// one, are decimal places, times the unit; underscores among them do not count, nor
/// does the case of the unit.
pub proof fn sizes_are_digits_times_the_unit(
    whole: Seq<char>,
    frac: Seq<char>,
    num: Seq<char>,
    unit: Seq<char>,
    factor: u64,
)
    requires
        num.len() > 0,
        whole.len() + frac.len() > 0,
        sizes::all_digits(whole),
        sizes::all_digits(frac),
        num.filter(|c: char| c != '_') == whole || num.filter(|c: char| c != '_') == whole.push('.')
            + frac,
        num.filter(|c: char| c != '_') == whole ==> frac.len() == 0,
        forall|k: int| 0 <= k < num.len() ==> util::is_numeric(#[trigger] num[k]),
        unit.len() > 0 ==> !util::is_numeric(unit[0]) && !text::is_white(unit[0]) && !text::is_white(
            unit.last(),
        ),
        util::unit_factor(text::lowered(unit)) == Some(factor),
    ensures
        util::size_reading(num + unit) == Ok::<u64, SizeErrorView>(
            sizes::byte_count(sizes::number(whole + frac), frac.len(), factor as nat),
        ),
{
    let t = num + unit;
    assert forall|k: int| 0 <= k < num.len() implies !text::is_white(#[trigger] num[k]) by {
        assert(util::is_numeric(num[k]));
    }
    assert(t[0] == num[0]);
    assert(t.last() == if unit.len() > 0 {
        unit.last()
    } else {
        num.last()
    });
    assert(num.last() == num[num.len() - 1]);
    assert(text::trimmed(t) == t);
    lemma_numeric_len(num, unit);
    assert(t.take(num.len() as int) =~= num);
    assert(t.skip(num.len() as int) =~= unit);
    assert(text::trimmed(unit) == unit);
    let kept = num.filter(|c: char| c != '_');
    text::lemma_first_of(kept, '.');
    let dot = text::first_of(kept, '.');
    assert forall|k: int| 0 <= k < whole.len() implies whole[k] != '.' by {
        assert(sizes::is_digit(whole[k]));
    }
    assert forall|k: int| 0 <= k < frac.len() implies frac[k] != '.' by {
        assert(sizes::is_digit(frac[k]));
    }
    assert(dot == whole.len()) by {
        if dot < whole.len() {
            assert(kept[dot] == whole[dot]);
        } else if dot > whole.len() {
            assert(kept[whole.len() as int] == '.');
        }
    }
    assert(kept.take(dot) =~= whole);
    if dot < kept.len() {
        assert(kept.skip(dot + 1) =~= frac);
        assert(!frac.contains('.'));
    } else {
        assert(frac =~= Seq::<char>::empty());
        assert(!Seq::<char>::empty().contains('.'));
    }
}

/// A whole number with a unit is that many units, in bytes. (Numbers with more than 53
/// bits are rounded, and products beyond the range cut off: they are left out.)
pub proof fn whole_sizes_are_multiplied(digits: Seq<char>, unit: Seq<char>, factor: u64)
    requires
        digits.len() > 0,
        sizes::all_digits(digits),
        unit.len() > 0 ==> !util::is_numeric(unit[0]) && !text::is_white(unit[0]) && !text::is_white(
            unit.last(),
        ),
        util::unit_factor(text::lowered(unit)) == Some(factor),
        factor <= 0x4_0000_0000_0000,
        sizes::number(digits) < sizes::ABOVE,
        sizes::number(digits) * factor <= u64::MAX,
    ensures
        util::size_reading(digits + unit) == Ok::<u64, SizeErrorView>(
            (sizes::number(digits) * factor) as u64,
        ),
{
    let none = Seq::<char>::empty();
    assert forall|k: int| 0 <= k < digits.len() implies util::is_numeric(#[trigger] digits[k])
        && digits[k] != '_' by {
        assert(sizes::is_digit(digits[k]));
    }
    lemma_filter_all(digits, |c: char| c != '_');
    sizes_are_digits_times_the_unit(digits, none, digits, unit, factor);
    assert(digits + none =~= digits);
    sizes::whole_numbers_are_exact(sizes::number(digits), factor as nat);
}

/// A size of which no digit stands in front, or which has a unit that is unknown, is
/// refused, and so is an empty one.
pub proof fn faulty_sizes_are_refused(num: Seq<char>, unit: Seq<char>)
    requires
        forall|k: int| 0 <= k < num.len() ==> sizes::is_digit(#[trigger] num[k]),
        unit.len() > 0 ==> !util::is_numeric(unit[0]) && !text::is_white(unit[0]) && !text::is_white(
            unit.last(),
        ),
    ensures
        num.len() == 0 && unit.len() == 0 ==> util::size_reading(num + unit) == Err::<
            u64,
            SizeErrorView,
        >(SizeErrorView::Empty),
        num.len() == 0 && unit.len() > 0 ==> util::size_reading(num + unit) == Err::<
            u64,
            SizeErrorView,
        >(SizeErrorView::Number(unit)),
        num.len() > 0 && util::unit_factor(text::lowered(unit)) is None ==> util::size_reading(
            num + unit,
        ) == Err::<u64, SizeErrorView>(SizeErrorView::Unit(text::lowered(unit), num + unit)),
{
    reveal(Seq::filter);
    let t = num + unit;
    assert forall|k: int| 0 <= k < num.len() implies util::is_numeric(#[trigger] num[k])
        && !text::is_white(num[k]) && num[k] != '_' && num[k] != '.' by {
        assert(sizes::is_digit(num[k]));
    }
    if t.len() > 0 {
        assert(t[0] == if num.len() > 0 {
            num[0]
        } else {
            unit[0]
        });
        assert(t.last() == if unit.len() > 0 {
            unit.last()
        } else {
            num[num.len() - 1]
        });
        assert(text::trimmed(t) == t);
    }
    lemma_numeric_len(num, unit);
    assert(t.take(num.len() as int) =~= num);
    assert(t.skip(num.len() as int) =~= unit);
    if unit.len() > 0 {
        assert(text::trimmed(unit) == unit);
    }
    lemma_filter_all(num, |c: char| c != '_');
    text::lemma_first_of(num, '.');
    assert(text::first_of(num, '.') == num.len());
    assert(num.take(num.len() as int) =~= num);
    assert(!Seq::<char>::empty().contains('.'));
    if num.len() == 0 {
        assert(t =~= unit);
    }
}

/// White space around a size is of no account, and nothing else is no size.
pub proof fn size_text_is_trimmed(s: Seq<char>)
    ensures
        util::size_reading(text::trimmed(s)) == util::size_reading(s),
        text::trimmed(s).len() == 0 ==> util::size_reading(s) == Err::<u64, SizeErrorView>(
            SizeErrorView::Empty,
        ),
{
    text::laws::trimming_takes_white_space_off(s);
    assert(text::trimmed(text::trimmed(s)) == text::trimmed(s));
}

// ---- durations ---------------------------------------------------------------------

/// The text neither begins nor ends with white space.
pub open spec fn is_bare(s: Seq<char>) -> bool {
    s.len() > 0 ==> !text::is_white(s[0]) && !text::is_white(s.last())
}

/// What is read as a duration is the text without the white space around it, and all
/// of that.
pub proof fn duration_text_is_trimmed(s: Seq<char>)
    ensures
        exists|a: Seq<char>, t: Seq<char>, b: Seq<char>|
            #![trigger text::laws::all_white(a), is_bare(t), text::laws::all_white(b)]
            text::laws::all_white(a) && text::laws::all_white(b) && is_bare(t) && s == (a + t) + b
                && util::duration_reading(s) == util::humantime_nanos(t),
{
    text::laws::trimming_takes_white_space_off(s);
    let (a, b) = choose|a: Seq<char>, b: Seq<char>| #[trigger]
        text::laws::all_white(a) && #[trigger] text::laws::all_white(b) && s == (a + text::trimmed(
            s,
        )) + b;
    assert(is_bare(text::trimmed(s)));
}

proof fn lemma_significant(s: Seq<char>, fresh: bool)
    ensures
        util::significant(s, fresh) <= s.len(),
    decreases s.len(),
{
    if s.len() > 0 {
        lemma_significant(s.skip(1), true);
        lemma_significant(s.skip(1), false);
    }
}

/// A duration of one unit can be read, and so can one of whole seconds and longer
/// units, and one of up to fifteen characters.
pub proof fn usual_durations_are_readable(s: Seq<char>)
    ensures
        util::units(s).len() <= 1 ==> util::is_readable(s),
        !s.contains('.') && (forall|k: int|
            0 <= k < util::units(s).len() ==> !util::is_brief(#[trigger] util::units(s)[k]))
            ==> util::is_readable(s),
        s.len() <= 15 ==> util::is_readable(s),
{
    lemma_significant(s, true);
}

// ---- numbers -----------------------------------------------------------------------

proof fn lemma_number(s: Seq<char>)
    requires
        sizes::all_digits(s),
    ensures
        sizes::number(s) == text::laws::number_of(s),
    decreases s.len(),
{
    if s.len() > 0 {
        let front = s.drop_last();
        assert forall|k: int| 0 <= k < front.len() implies sizes::is_digit(#[trigger] front[k]) by {
            assert(front[k] == s[k]);
        }
        lemma_number(front);
        assert(sizes::is_digit(s[s.len() - 1]));
    }
}

/// A number that is written in decimal is read back, with or without a plus sign; and
/// what holds anything but digits is no number.
pub proof fn decimal_numbers_are_read_back(n: nat, s: Seq<char>)
    ensures
        util::unsigned_reading(text::decimal(n)) == Some(n),
        util::unsigned_reading(seq!['+'] + text::decimal(n)) == Some(n),
        (exists|k: int| 0 < k < s.len() && !sizes::is_digit(#[trigger] s[k]))
            ==> util::unsigned_reading(s) is None,
        s.len() == 0 ==> util::unsigned_reading(s) is None,
{
    let d = text::decimal(n);
    text::laws::decimal_form_stands_for_the_number(n);
    assert(sizes::all_digits(d)) by {
        assert forall|k: int| 0 <= k < d.len() implies sizes::is_digit(#[trigger] d[k]) by {}
    }
    lemma_number(d);
    assert((seq!['+'] + d).skip(1) =~= d);
    if exists|k: int| 0 < k < s.len() && !sizes::is_digit(#[trigger] s[k]) {
        let k = choose|k: int| 0 < k < s.len() && !sizes::is_digit(#[trigger] s[k]);
        if s[0] == '+' {
            assert(s.skip(1)[k - 1] == s[k]);
        }
    }
}

/// The number of a process is read back, as far as it fits, with a plus or a minus sign
/// too; but not with both.
pub proof fn process_numbers_are_read_back(n: nat)
    ensures
        n <= i32::MAX ==> util::pid_reading(seq!['+'] + text::decimal(n)) == Some(n as int),
        n <= -(i32::MIN) ==> util::pid_reading(seq!['-'] + text::decimal(n)) == Some(-(n as int)),
        n > -(i32::MIN) ==> util::pid_reading(seq!['-'] + text::decimal(n)) is None,
        util::pid_reading(seq!['-'] + (seq!['+'] + text::decimal(n))) is None,
        n <= i32::MAX ==> util::pid_reading(text::decimal(n)) == Some(n as int),
        n > i32::MAX ==> util::pid_reading(text::decimal(n)) is None,
{
    decimal_numbers_are_read_back(n, Seq::empty());
    text::laws::decimal_form_stands_for_the_number(n);
    assert('0' <= text::decimal(n)[0] <= '9');
    let minus = seq!['-'] + text::decimal(n);
    assert(minus.skip(1) =~= text::decimal(n));
    assert(minus[1] == text::decimal(n)[0]);
    let both = seq!['-'] + (seq!['+'] + text::decimal(n));
    assert(both.skip(1) =~= seq!['+'] + text::decimal(n));
    assert(both[1] == '+');
}

// ---- time --------------------------------------------------------------------------

/// A watchdog is pinged twice in the time, in microseconds, that is set for it; one
/// that is set to nothing is not pinged.
pub proof fn watchdog_is_pinged_twice(usec: nat)
    ensures
        0 < usec <= u64::MAX ==> (util::watchdog_setting(Some(text::decimal(usec))) matches Some(n)
            && usec * 1000 - 1000 <= 2 * n <= usec * 1000),
        usec == 0 || usec > u64::MAX ==> util::watchdog_setting(Some(text::decimal(usec))) is None,
        util::watchdog_setting(None) is None,
{
    decimal_numbers_are_read_back(usec, Seq::empty());
}

// ---- extended attributes -----------------------------------------------------------

/// An extended attribute gives back the text that was written to it, with or without a
/// NUL behind it.
pub proof fn attribute_text_is_read_back(s: Seq<char>)
    ensures
        util::xattr_string(encode_utf8(s).push(0u8)) == Some(s),
        encode_utf8(s).len() == 0 || encode_utf8(s).last() != 0 ==> util::xattr_string(
            encode_utf8(s),
        ) == Some(s),
{
    broadcast use {encode_utf8_valid_utf8, encode_utf8_decode_utf8};

    assert(encode_utf8(s).push(0u8).drop_last() =~= encode_utf8(s));
}

} // verus!
