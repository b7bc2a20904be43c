//! What holds of texts that are taken apart and written.

use crate::text;
use vstd::prelude::*;
#[allow(unused_imports)]
use vstd::seq_lib::*;

verus! {

// ---- pieces ------------------------------------------------------------------------

/// The parts, with a separator between each two.
pub open spec fn glued<T>(parts: Seq<Seq<T>>, sep: T) -> Seq<T>
    decreases parts.len(),
{
    if parts.len() == 0 {
        Seq::empty()
    } else if parts.len() == 1 {
        parts[0]
    } else {
        glued(parts.drop_last(), sep).push(sep) + parts.last()
    }
}

/// The pieces of a text, with a separator between each two, make up the text, and
/// none of them holds a separator.
pub proof fn pieces_make_up_the_text<T>(s: Seq<T>, sep: T)
    ensures
        text::pieces(s, sep).len() >= 1,
        glued(text::pieces(s, sep), sep) == s,
        forall|k: int|
            0 <= k < text::pieces(s, sep).len() ==> !(#[trigger] text::pieces(s, sep)[k]).contains(
                sep,
            ),
    decreases s.len(),
{
    text::lemma_pieces_nonempty(s, sep);
    if s.len() > 0 {
        let front = s.drop_last();
        pieces_make_up_the_text(front, sep);
        let r = text::pieces(front, sep);
        let all = text::pieces(s, sep);
        assert(s =~= front.push(s.last()));
        if s.last() == sep {
            assert(all.drop_last() =~= r);
            assert(glued(all, sep) =~= s);
        } else {
            assert(all.drop_last() =~= r.drop_last());
            if all.len() == 1 {
                assert(all[0] =~= s);
            } else {
                assert(glued(all, sep) =~= glued(r, sep).push(s.last()));
            }
            assert(!all.last().contains(sep)) by {
                assert(!r[r.len() - 1].contains(sep));
                let last = all.last();
                if last.contains(sep) {
                    let j = choose|j: int| 0 <= j < last.len() && last[j] == sep;
                    assert(r.last()[j] == sep);
                }
            }
        }
        assert forall|k: int| 0 <= k < all.len() implies !(#[trigger] all[k]).contains(sep) by {
            if k < all.len() - 1 {
                assert(all[k] == r[k]);
            } else if s.last() == sep {
                assert(all[k].len() == 0);
            }
        }
    }
}

/// A text without separator is one piece.
pub proof fn one_piece<T>(s: Seq<T>, sep: T)
    requires
        !s.contains(sep),
    ensures
        text::pieces(s, sep) == seq![s],
    decreases s.len(),
{
    if s.len() > 0 {
        let front = s.drop_last();
        assert forall|j: int| 0 <= j < front.len() implies front[j] != sep by {
            assert(s.contains(s[j]));
        }
        one_piece(front, sep);
        assert(s.contains(s[s.len() - 1]));
        assert(front.push(s.last()) =~= s);
        assert(text::pieces(s, sep) =~= seq![s]);
    } else {
        assert(s =~= Seq::empty());
    }
}

/// The pieces of two texts with a separator between them are those of the first and
/// those of the second.
pub proof fn pieces_on_both_sides<T>(a: Seq<T>, sep: T, b: Seq<T>)
    ensures
        text::pieces(a.push(sep) + b, sep) == text::pieces(a, sep) + text::pieces(b, sep),
    decreases b.len(),
{
    let s = a.push(sep) + b;
    text::lemma_pieces_nonempty(b, sep);
    if b.len() == 0 {
        assert(s =~= a.push(sep));
        assert(s.drop_last() =~= a);
        assert(b =~= Seq::empty());
        assert(text::pieces(s, sep) =~= text::pieces(a, sep) + text::pieces(b, sep));
    } else {
        let c = b.drop_last();
        pieces_on_both_sides(a, sep, c);
        text::lemma_pieces_nonempty(c, sep);
        assert(s.drop_last() =~= a.push(sep) + c);
        assert(s.last() == b.last());
        assert(text::pieces(s, sep) =~= text::pieces(a, sep) + text::pieces(b, sep));
    }
}

/// The filled pieces of two texts with a separator between them are those of the first
/// and those of the second.
pub proof fn filled_on_both_sides<T>(a: Seq<T>, sep: T, b: Seq<T>)
    ensures
        text::filled(a.push(sep) + b, sep) == text::filled(a, sep) + text::filled(b, sep),
{
    pieces_on_both_sides(a, sep, b);
    let full = |p: Seq<T>| p.len() > 0;
    lemma_filter_on(text::pieces(a, sep), text::pieces(b, sep), full);
}

pub proof fn lemma_filter_on<T>(a: Seq<T>, b: Seq<T>, pred: spec_fn(T) -> bool)
    ensures
        (a + b).filter(pred) == a.filter(pred) + b.filter(pred),
    decreases b.len(),
{
    reveal(Seq::filter);
    if b.len() == 0 {
        assert(a + b =~= a);
        assert(b.filter(pred) =~= Seq::empty());
        assert((a + b).filter(pred) =~= a.filter(pred) + b.filter(pred));
    } else {
        lemma_filter_on(a, b.drop_last(), pred);
        assert((a + b).drop_last() =~= a + b.drop_last());
        assert((a + b).filter(pred) =~= a.filter(pred) + b.filter(pred));
    }
}

/// A text without separator is one filled piece, unless it is empty.
pub proof fn one_filled_piece<T>(s: Seq<T>, sep: T)
    requires
        !s.contains(sep),
    ensures
        s.len() > 0 ==> text::filled(s, sep) == seq![s],
        s.len() == 0 ==> text::filled(s, sep).len() == 0,
{
    reveal(Seq::filter);
    one_piece(s, sep);
    let full = |p: Seq<T>| p.len() > 0;
    assert(seq![s].drop_last() =~= Seq::empty());
    assert(seq![s].drop_last().filter(full) =~= Seq::empty());
    assert(text::filled(s, sep) =~= if s.len() > 0 {
        seq![s]
    } else {
        Seq::empty()
    });
}

/// A text begins with its first line, which goes up to the first line end, without the
/// carriage return before it; the other lines are those of what follows.
pub proof fn first_line_goes_to_its_end(line: Seq<char>, rest: Seq<char>)
    requires
        !line.contains('\n'),
    ensures
        text::lines(line.push('\n') + rest) == seq![
            if line.len() > 0 && line.last() == '\r' {
                line.drop_last()
            } else {
                line
            },
        ] + text::lines(rest),
        line.len() > 0 ==> text::lines(line) == seq![line],
        text::lines(Seq::<char>::empty()).len() == 0,
{
    let s = line.push('\n') + rest;
    one_piece(line, '\n');
    one_piece(Seq::<char>::empty(), '\n');
    pieces_on_both_sides(line, '\n', rest);
    text::lemma_pieces_nonempty(rest, '\n');
    let parts = text::pieces(s, '\n');
    let more = text::pieces(rest, '\n');
    assert(parts.last() == more.last());
    assert(parts.drop_last() =~= seq![line] + more.drop_last());
    assert(text::lines(s) =~= seq![text::unreturned(line)] + text::lines(rest));
    assert(text::lines(line) =~= if line.len() > 0 {
        seq![line]
    } else {
        Seq::empty()
    });
}

// ---- white space -------------------------------------------------------------------

/// All of the text is white space.
pub open spec fn all_white(s: Seq<char>) -> bool {
    forall|k: int| 0 <= k < s.len() ==> text::is_white(#[trigger] s[k])
}

proof fn lemma_trim_start(s: Seq<char>) -> (n: int)
    ensures
        0 <= n <= s.len(),
        text::trim_start(s) == s.skip(n),
        all_white(s.take(n)),
        n < s.len() ==> !text::is_white(s[n]),
    decreases s.len(),
{
    if s.len() > 0 && text::is_white(s[0]) {
        let m = lemma_trim_start(s.skip(1));
        assert(s.skip(1).skip(m) =~= s.skip(m + 1));
        assert forall|k: int| 0 <= k < m + 1 implies text::is_white(
            #[trigger] s.take(m + 1)[k],
        ) by {
            if k > 0 {
                assert(s.skip(1).take(m)[k - 1] == s[k]);
            }
        }
        m + 1
    } else {
        assert(s.skip(0) =~= s);
        0
    }
}

proof fn lemma_trim_end(s: Seq<char>) -> (n: int)
    ensures
        0 <= n <= s.len(),
        text::trim_end(s) == s.take(n),
        all_white(s.skip(n)),
        n > 0 ==> !text::is_white(s[n - 1]),
    decreases s.len(),
{
    if s.len() > 0 && text::is_white(s.last()) {
        let m = lemma_trim_end(s.drop_last());
        assert(s.drop_last().take(m) =~= s.take(m));
        assert forall|k: int| 0 <= k < s.len() - m implies text::is_white(
            #[trigger] s.skip(m)[k],
        ) by {
            if k < s.len() - m - 1 {
                assert(s.drop_last().skip(m)[k] == s[m + k]);
            }
        }
        m
    } else {
        assert(s.take(s.len() as int) =~= s);
        s.len() as int
    }
}

/// Trimming takes off white space at both ends, all of it and nothing else.
pub proof fn trimming_takes_white_space_off(s: Seq<char>)
    ensures
        exists|a: Seq<char>, b: Seq<char>| #[trigger]
            all_white(a) && #[trigger] all_white(b) && s == (a + text::trimmed(s)) + b,
        text::trimmed(s).len() > 0 ==> !text::is_white(text::trimmed(s)[0]) && !text::is_white(
            text::trimmed(s).last(),
        ),
{
    let m = lemma_trim_start(s);
    let t = s.skip(m);
    let n = lemma_trim_end(t);
    let a = s.take(m);
    let b = t.skip(n);
    assert(s =~= (a + text::trimmed(s)) + b);
}

/// Words are not empty and hold no white space.
pub proof fn words_hold_no_white_space(s: Seq<char>)
    ensures
        forall|k: int|
            0 <= k < text::words(s).len() ==> (#[trigger] text::words(s)[k]).len() > 0 && forall|
                j: int,
            |
                0 <= j < text::words(s)[k].len() ==> !text::is_white(
                    #[trigger] text::words(s)[k][j],
                ),
        s.len() > 0 && !text::is_white(s.last()) ==> text::words(s).len() > 0,
    decreases s.len(),
{
    if s.len() > 0 {
        words_hold_no_white_space(s.drop_last());
        let front = text::words(s.drop_last());
        let c = s.last();
        if !text::is_white(c) && !(s.len() == 1 || text::is_white(s[s.len() - 2])) {
            assert(s.drop_last().last() == s[s.len() - 2]);
            let w = front.last().push(c);
            assert(front[front.len() - 1] == front.last());
            assert forall|j: int| 0 <= j < w.len() implies !text::is_white(#[trigger] w[j]) by {
                if j < w.len() - 1 {
                    assert(w[j] == front.last()[j]);
                }
            }
        }
    }
}

/// A word, white space behind it and more words make up a text whose words are that
/// word and the others.
pub proof fn words_stand_between_white_space(a: Seq<char>, c: char, b: Seq<char>)
    requires
        text::is_white(c),
    ensures
        text::words(a.push(c) + b) == text::words(a) + text::words(b),
    decreases b.len(),
{
    let s = a.push(c) + b;
    if b.len() == 0 {
        assert(s =~= a.push(c));
        assert(s.drop_last() =~= a);
        assert(text::words(s) =~= text::words(a) + text::words(b));
    } else {
        let d = b.drop_last();
        words_stand_between_white_space(a, c, d);
        assert(s.drop_last() =~= a.push(c) + d);
        assert(s.last() == b.last());
        if b.len() > 1 {
            assert(s[s.len() - 2] == b[b.len() - 2]);
            words_hold_no_white_space(d);
            assert(d.last() == b[b.len() - 2]);
        } else {
            assert(s[s.len() - 2] == c);
            assert(d =~= Seq::empty());
        }
        assert(text::words(s) =~= text::words(a) + text::words(b));
    }
}

/// A text without white space is one word.
pub proof fn one_word(s: Seq<char>)
    requires
        s.len() > 0,
        forall|k: int| 0 <= k < s.len() ==> !text::is_white(#[trigger] s[k]),
    ensures
        text::words(s) == seq![s],
    decreases s.len(),
{
    let front = s.drop_last();
    assert(!text::is_white(s[s.len() - 1]));
    assert(front.push(s.last()) =~= s);
    if s.len() > 1 {
        assert forall|k: int| 0 <= k < front.len() implies !text::is_white(#[trigger] front[k]) by {
            assert(front[k] == s[k]);
        }
        one_word(front);
        assert(!text::is_white(s[s.len() - 2]));
        assert(text::words(s) =~= seq![s]);
    } else {
        assert(text::words(front).len() == 0);
        assert(seq![s.last()] =~= s);
        assert(text::words(s) =~= seq![s]);
    }
}

// ---- letters and numbers -----------------------------------------------------------

/// Lower case changes capital letters to small ones, each by its place in the alphabet,
/// and leaves all else.
pub proof fn lower_case_keeps_the_letter(s: Seq<char>, k: int)
    requires
        0 <= k < s.len(),
    ensures
        text::lowered(s).len() == s.len(),
        'A' <= s[k] <= 'Z' ==> text::lowered(s)[k] as int - 'a' as int == s[k] as int - 'A' as int,
        !('A' <= s[k] <= 'Z') ==> text::lowered(s)[k] == s[k],
{
}

/// The number that decimal digits stand for.
pub open spec fn number_of(s: Seq<char>) -> int
    decreases s.len(),
{
    if s.len() == 0 {
        0
    } else {
        10 * number_of(s.drop_last()) + (s.last() as int - '0' as int)
    }
}

/// The decimal form of a number is made of digits, does not begin with a zero but for
/// zero itself, and stands for the number.
pub proof fn decimal_form_stands_for_the_number(n: nat)
    ensures
        text::decimal(n).len() > 0,
        forall|k: int|
            0 <= k < text::decimal(n).len() ==> '0' <= #[trigger] text::decimal(n)[k] <= '9',
        number_of(text::decimal(n)) == n,
        n > 0 ==> text::decimal(n)[0] != '0',
    decreases n,
{
    let s = text::decimal(n);
    if n < 10 {
        assert(s.drop_last() =~= Seq::empty());
        assert(number_of(s.drop_last()) == 0);
    } else {
        decimal_form_stands_for_the_number(n / 10);
        assert(s.drop_last() =~= text::decimal(n / 10));
        assert(10 * (n / 10) + n % 10 == n);
        assert forall|k: int| 0 <= k < s.len() implies '0' <= #[trigger] s[k] <= '9' by {
            if k < s.len() - 1 {
                assert(s[k] == text::decimal(n / 10)[k]);
            }
        }
    }
}

/// A negative number is written with a minus sign before its decimal form.
pub proof fn negative_numbers_have_a_sign(n: int)
    ensures
        n < 0 ==> text::signed_decimal(n).len() > 0 && text::signed_decimal(n)[0] == '-'
            && number_of(text::signed_decimal(n).skip(1)) == -n,
        n >= 0 ==> number_of(text::signed_decimal(n)) == n,
{
    if n < 0 {
        decimal_form_stands_for_the_number((-n) as nat);
        assert(text::signed_decimal(n).skip(1) =~= text::decimal((-n) as nat));
    } else {
        decimal_form_stands_for_the_number(n as nat);
    }
}

// ---- searching ---------------------------------------------------------------------

/// A text is found at the first position from which it stands there, and nowhere only
/// if it stands nowhere.
pub proof fn first_occurrence_is_found<T>(s: Seq<T>, p: Seq<T>)
    ensures
        match text::first_at(s, p) {
            Some(i) => {
                &&& 0 <= i
                &&& i + p.len() <= s.len()
                &&& s.subrange(i, i + p.len()) == p
                &&& forall|j: int| 0 <= j < i ==> #[trigger] s.subrange(j, j + p.len()) != p
            },
            None => forall|j: int|
                0 <= j <= s.len() - p.len() ==> #[trigger] s.subrange(j, j + p.len()) != p,
        },
    decreases s.len(),
{
    if text::has_prefix(s, p) {
        assert(s.subrange(0, p.len() as int) =~= s.take(p.len() as int));
    } else if s.len() > 0 {
        let rest = s.skip(1);
        first_occurrence_is_found(rest, p);
        assert(p.len() <= s.len() ==> s.subrange(0, p.len() as int) =~= s.take(p.len() as int));
        assert forall|j: int| 1 <= j <= s.len() - p.len() implies #[trigger] s.subrange(
            j,
            j + p.len(),
        ) == rest.subrange(j - 1, j - 1 + p.len()) by {
            assert(s.subrange(j, j + p.len()) =~= rest.subrange(j - 1, j - 1 + p.len()));
        }
    } else {
        assert forall|j: int| 0 <= j <= s.len() - p.len() implies #[trigger] s.subrange(
            j,
            j + p.len(),
        ) != p by {
            assert(p.len() == 0);
            assert(s.take(0) =~= p);
        }
    }
}

} // verus!
