//! Splitting, trimming and comparing of byte strings and text.
//!
//! A byte string is a `Vec<u8>`; text is a `String`, taken apart as its
//! sequence of characters.

use vstd::prelude::*;
#[allow(unused_imports)]
use vstd::utf8::*;

pub mod laws;

verus! {

/// `String::push`: the character is added at the end of the text.
pub assume_specification[ String::push ](s: &mut String, c: char)
    ensures
        final(s)@ == old(s)@.push(c),
;

/// The elements that strings are made of.
pub trait Symbol: Copy {
    fn same(self, other: Self) -> (r: bool)
        ensures
            r == (self == other),
    ;
}

impl Symbol for u8 {
    fn same(self, other: u8) -> (r: bool) {
        self == other
    }
}

impl Symbol for char {
    fn same(self, other: char) -> (r: bool) {
        self == other
    }
}

// ---- comparison ----------------------------------------------------------------

/// Whether the two strings are equal.
pub fn same_string<T: Symbol>(a: &[T], b: &[T]) -> (r: bool)
    ensures
        r == (a@ == b@),
{
    if a.len() != b.len() {
        return false;
    }
    let mut i: usize = 0;
    while i < a.len()
        invariant
            a.len() == b.len(),
            i <= a.len(),
            forall|k: int| 0 <= k < i ==> a@[k] == b@[k],
        decreases a.len() - i,
    {
        if !a[i].same(b[i]) {
            assert(a@[i as int] != b@[i as int]);
            return false;
        }
        i = i + 1;
    }
    assert(a@ =~= b@);
    true
}

/// `s` begins with `p`.
pub open spec fn has_prefix<T>(s: Seq<T>, p: Seq<T>) -> bool {
    p.len() <= s.len() && s.take(p.len() as int) == p
}

/// `s` ends with `p`.
pub open spec fn has_suffix<T>(s: Seq<T>, p: Seq<T>) -> bool {
    p.len() <= s.len() && s.skip(s.len() - p.len()) == p
}

/// Whether `s` holds `p` from position `at` on.
pub fn holds_at<T: Symbol>(s: &[T], p: &[T], at: usize) -> (r: bool)
    requires
        at + p.len() <= s.len(),
    ensures
        r == (s@.subrange(at as int, at + p.len()) == p@),
{
    let mut i: usize = 0;
    while i < p.len()
        invariant
            i <= p.len(),
            at + p.len() <= s.len(),
            forall|k: int| 0 <= k < i ==> #[trigger] p@[k] == s@[at + k],
        decreases p.len() - i,
    {
        if !s[at + i].same(p[i]) {
            assert(s@.subrange(at as int, at + p.len())[i as int] != p@[i as int]);
            return false;
        }
        i = i + 1;
    }
    assert(s@.subrange(at as int, at + p.len()) =~= p@);
    true
}

/// Whether `s` begins with `p`.
pub fn starts_with<T: Symbol>(s: &[T], p: &[T]) -> (r: bool)
    ensures
        r == has_prefix(s@, p@),
{
    if p.len() > s.len() {
        return false;
    }
    assert(s@.take(p@.len() as int) =~= s@.subrange(0, 0 + p.len()));
    holds_at(s, p, 0)
}

/// Whether `s` ends with `p`.
pub fn ends_with<T: Symbol>(s: &[T], p: &[T]) -> (r: bool)
    ensures
        r == has_suffix(s@, p@),
{
    if p.len() > s.len() {
        return false;
    }
    let at = s.len() - p.len();
    assert(s@.skip(at as int) =~= s@.subrange(at as int, at + p.len()));
    holds_at(s, p, at)
}

/// A copy of `s[from..to]`.
pub fn copy_range<T: Symbol>(s: &[T], from: usize, to: usize) -> (r: Vec<T>)
    requires
        from <= to <= s.len(),
    ensures
        r@ == s@.subrange(from as int, to as int),
{
    let mut r: Vec<T> = Vec::new();
    let mut i = from;
    while i < to
        invariant
            from <= i <= to <= s.len(),
            r@ == s@.subrange(from as int, i as int),
        decreases to - i,
    {
        r.push(s[i]);
        i = i + 1;
        assert(r@ =~= s@.subrange(from as int, i as int));
    }
    r
}

/// A copy of all of `s`.
pub fn copy_of<T: Symbol>(s: &[T]) -> (r: Vec<T>)
    ensures
        r@ == s@,
{
    let r = copy_range(s, 0, s.len());
    assert(s@.subrange(0, s@.len() as int) =~= s@);
    r
}

/// Appends `more` to `v`.
pub fn extend<T: Symbol>(v: &mut Vec<T>, more: &[T])
    ensures
        final(v)@ == old(v)@ + more@,
{
    let ghost start = v@;
    let mut i: usize = 0;
    assert(start + more@.take(0) =~= start);
    while i < more.len()
        invariant
            i <= more.len(),
            v@ == start + more@.take(i as int),
        decreases more.len() - i,
    {
        v.push(more[i]);
        i = i + 1;
        assert(v@ =~= start + more@.take(i as int));
    }
    assert(more@.take(i as int) =~= more@);
}

/// The bytes of a text.
pub fn bytes_of(s: &str) -> (r: Vec<u8>)
    ensures
        r@ == encode_utf8(s@),
{
    copy_of(s.as_bytes())
}

// ---- searching and splitting ---------------------------------------------------

/// The position of the first `x` in `s`, or the length of `s` where there is none.
pub open spec fn first_of<T>(s: Seq<T>, x: T) -> int
    decreases s.len(),
{
    if s.len() == 0 || s[0] == x {
        0
    } else {
        1 + first_of(s.skip(1), x)
    }
}

/// The position of the last `x` in `s`, or -1 where there is none.
pub open spec fn last_of<T>(s: Seq<T>, x: T) -> int
    decreases s.len(),
{
    if s.len() == 0 {
        -1
    } else if s.last() == x {
        s.len() - 1
    } else {
        last_of(s.drop_last(), x)
    }
}

/// `first_of` is the position before which there is no `x` and at which there is one.
pub proof fn lemma_first_of<T>(s: Seq<T>, x: T)
    ensures
        0 <= first_of(s, x) <= s.len(),
        first_of(s, x) < s.len() ==> s[first_of(s, x)] == x,
        forall|j: int| 0 <= j < first_of(s, x) ==> s[j] != x,
    decreases s.len(),
{
    if s.len() == 0 || s[0] == x {
    } else {
        lemma_first_of(s.skip(1), x);
        let r = first_of(s.skip(1), x);
        assert forall|j: int| 0 <= j < 1 + r implies s[j] != x by {
            if j > 0 {
                assert(s.skip(1)[j - 1] == s[j]);
            }
        }
        if r < s.skip(1).len() {
            assert(s.skip(1)[r] == s[r + 1]);
        }
    }
}

/// `last_of` is the position behind which there is no `x` and at which there is one.
pub proof fn lemma_last_of<T>(s: Seq<T>, x: T)
    ensures
        -1 <= last_of(s, x) < s.len(),
        last_of(s, x) >= 0 ==> s[last_of(s, x)] == x,
        forall|j: int| last_of(s, x) < j < s.len() ==> s[j] != x,
    decreases s.len(),
{
    if s.len() == 0 || s.last() == x {
    } else {
        lemma_last_of(s.drop_last(), x);
        let r = last_of(s.drop_last(), x);
        assert forall|j: int| r < j < s.len() implies s[j] != x by {
            if j < s.len() - 1 {
                assert(s.drop_last()[j] == s[j]);
            }
        }
        if r >= 0 {
            assert(s.drop_last()[r] == s[r]);
        }
    }
}

/// The position of the first `x`.
pub fn find_first<T: Symbol>(s: &[T], x: T) -> (r: Option<usize>)
    ensures
        match r {
            Some(i) => i == first_of(s@, x) && i < s.len(),
            None => first_of(s@, x) == s.len(),
        },
{
    proof {
        lemma_first_of(s@, x);
    }
    let mut i: usize = 0;
    while i < s.len()
        invariant
            i <= s.len(),
            i <= first_of(s@, x),
            first_of(s@, x) <= s.len(),
            first_of(s@, x) < s.len() ==> s@[first_of(s@, x)] == x,
            forall|j: int| 0 <= j < first_of(s@, x) ==> s@[j] != x,
        decreases s.len() - i,
    {
        if s[i].same(x) {
            return Some(i);
        }
        i = i + 1;
    }
    None
}

/// The position of the last `x`.
pub fn find_last<T: Symbol>(s: &[T], x: T) -> (r: Option<usize>)
    ensures
        match r {
            Some(i) => i == last_of(s@, x) && i < s.len(),
            None => last_of(s@, x) == -1,
        },
{
    proof {
        lemma_last_of(s@, x);
    }
    let mut i: usize = s.len();
    while i > 0
        invariant
            i <= s.len(),
            last_of(s@, x) < i,
            -1 <= last_of(s@, x),
            last_of(s@, x) >= 0 ==> s@[last_of(s@, x)] == x,
            forall|j: int| last_of(s@, x) < j < s.len() ==> s@[j] != x,
        decreases i,
    {
        i = i - 1;
        if s[i].same(x) {
            return Some(i);
        }
    }
    None
}

/// The pieces of `s` between the separators: one more than there are separators.
pub open spec fn pieces<T>(s: Seq<T>, sep: T) -> Seq<Seq<T>>
    decreases s.len(),
{
    if s.len() == 0 {
        seq![Seq::empty()]
    } else {
        let r = pieces(s.drop_last(), sep);
        if s.last() == sep {
            r.push(Seq::empty())
        } else {
            r.drop_last().push(r.last().push(s.last()))
        }
    }
}

/// Even the empty string has one piece.
pub proof fn lemma_pieces_nonempty<T>(s: Seq<T>, sep: T)
    ensures
        pieces(s, sep).len() >= 1,
    decreases s.len(),
{
    if s.len() > 0 {
        lemma_pieces_nonempty(s.drop_last(), sep);
    }
}

/// The views of a vector of strings.
pub open spec fn views<T>(v: Seq<Vec<T>>) -> Seq<Seq<T>> {
    v.map_values(|p: Vec<T>| p@)
}

/// The pieces of `s` between the separators.
pub fn split<T: Symbol>(s: &[T], sep: T) -> (r: Vec<Vec<T>>)
    ensures
        views(r@) == pieces(s@, sep),
{
    let mut done: Vec<Vec<T>> = Vec::new();
    let mut cur: Vec<T> = Vec::new();
    let mut i: usize = 0;
    proof {
        assert(s@.take(0) =~= Seq::<T>::empty());
        assert(views(done@).push(cur@) =~= pieces(s@.take(0), sep));
    }
    while i < s.len()
        invariant
            i <= s.len(),
            views(done@).push(cur@) == pieces(s@.take(i as int), sep),
        decreases s.len() - i,
    {
        let c = s[i];
        let ghost before = views(done@);
        let ghost last = cur@;
        assert(s@.take(i + 1).drop_last() =~= s@.take(i as int));
        assert(s@.take(i + 1).last() == c);
        assert(before.push(last).drop_last() =~= before);
        if c.same(sep) {
            done.push(cur);
            cur = Vec::new();
            assert(views(done@) =~= before.push(last));
            assert(cur@ =~= Seq::<T>::empty());
        } else {
            cur.push(c);
        }
        i = i + 1;
        assert(views(done@).push(cur@) =~= pieces(s@.take(i as int), sep));
    }
    let ghost before = views(done@);
    let ghost last = cur@;
    done.push(cur);
    assert(views(done@) =~= before.push(last));
    assert(s@.take(s@.len() as int) =~= s@);
    done
}

// ---- text ----------------------------------------------------------------------

/// The characters of a text.
pub fn chars_of(s: &str) -> (r: Vec<char>)
    ensures
        r@ == s@,
{
    let mut r: Vec<char> = Vec::new();
    for c in it: s.chars()
        invariant
            it.seq() == s@,
            r@ == it.seq().take(it.index() as int),
    {
        r.push(c);
        assert(r@ =~= it.seq().take(it.index() + 1));
    }
    assert(r@ =~= s@);
    r
}

/// The text made of the given characters.
pub fn text_of(v: &[char]) -> (r: String)
    ensures
        r@ == v@,
{
    let mut r = String::new();
    let mut i: usize = 0;
    while i < v.len()
        invariant
            i <= v.len(),
            r@ == v@.take(i as int),
        decreases v.len() - i,
    {
        r.push(v[i]);
        i = i + 1;
        assert(r@ =~= v@.take(i as int));
    }
    assert(v@.take(v@.len() as int) =~= v@);
    r
}

/// Whether the characters spell the given literal.
pub fn spells(v: &[char], literal: &str) -> (r: bool)
    ensures
        r == (v@ == literal@),
{
    same_string(v, chars_of(literal).as_slice())
}

/// The Unicode `White_Space` property.
pub open spec fn is_white(c: char) -> bool {
    ||| 0x09 <= c as u32 <= 0x0d
    ||| c as u32 == 0x20
    ||| c as u32 == 0x85
    ||| c as u32 == 0xa0
    ||| c as u32 == 0x1680
    ||| 0x2000 <= c as u32 <= 0x200a
    ||| c as u32 == 0x2028
    ||| c as u32 == 0x2029
    ||| c as u32 == 0x202f
    ||| c as u32 == 0x205f
    ||| c as u32 == 0x3000
}

/// Whether the character is white space.
pub fn white(c: char) -> (r: bool)
    ensures
        r == is_white(c),
{
    let n: u32 = c as u32;
    (0x09 <= n && n <= 0x0d) || n == 0x20 || n == 0x85 || n == 0xa0 || n == 0x1680 || (0x2000 <= n
        && n <= 0x200a) || n == 0x2028 || n == 0x2029 || n == 0x202f || n == 0x205f || n == 0x3000
}

/// `s` without leading white space.
pub open spec fn trim_start(s: Seq<char>) -> Seq<char>
    decreases s.len(),
{
    if s.len() > 0 && is_white(s[0]) {
        trim_start(s.skip(1))
    } else {
        s
    }
}

/// `s` without trailing white space.
pub open spec fn trim_end(s: Seq<char>) -> Seq<char>
    decreases s.len(),
{
    if s.len() > 0 && is_white(s.last()) {
        trim_end(s.drop_last())
    } else {
        s
    }
}

/// `s` without white space at either end.
pub open spec fn trimmed(s: Seq<char>) -> Seq<char> {
    trim_end(trim_start(s))
}

/// Removes white space at both ends.
pub fn trim(s: &[char]) -> (r: Vec<char>)
    ensures
        r@ == trimmed(s@),
{
    let mut from: usize = 0;
    assert(s@.skip(0) =~= s@);
    while from < s.len() && white(s[from])
        invariant
            from <= s.len(),
            trim_start(s@) == trim_start(s@.skip(from as int)),
        decreases s.len() - from,
    {
        assert(s@.skip(from as int)[0] == s@[from as int]);
        assert(s@.skip(from as int).skip(1) =~= s@.skip(from + 1));
        from = from + 1;
    }
    if from < s.len() {
        assert(s@.skip(from as int)[0] == s@[from as int]);
    }
    assert(trim_start(s@) == s@.skip(from as int));
    let mut to: usize = s.len();
    assert(s@.subrange(from as int, to as int) =~= s@.skip(from as int));
    while to > from && white(s[to - 1])
        invariant
            from <= to <= s.len(),
            trim_end(s@.skip(from as int)) == trim_end(s@.subrange(from as int, to as int)),
        decreases to,
    {
        let ghost cur = s@.subrange(from as int, to as int);
        assert(cur.last() == s@[to - 1]);
        assert(cur.drop_last() =~= s@.subrange(from as int, to - 1));
        to = to - 1;
    }
    let ghost cur = s@.subrange(from as int, to as int);
    if to > from {
        assert(cur.last() == s@[to - 1]);
    }
    copy_range(s, from, to)
}

/// The lower-case form of an ASCII letter; any other character is its own.
pub open spec fn lower(c: char) -> char {
    if 'A' <= c && c <= 'Z' {
        ((c as u8) + 32) as char
    } else {
        c
    }
}

/// `s` with its ASCII letters in lower case.
pub open spec fn lowered(s: Seq<char>) -> Seq<char> {
    s.map_values(|c: char| lower(c))
}

/// Puts the ASCII letters in lower case.
pub fn to_lower(s: &[char]) -> (r: Vec<char>)
    ensures
        r@ == lowered(s@),
{
    let mut r: Vec<char> = Vec::new();
    let mut i: usize = 0;
    while i < s.len()
        invariant
            i <= s.len(),
            r@ == lowered(s@).take(i as int),
        decreases s.len() - i,
    {
        let c = s[i];
        if 'A' <= c && c <= 'Z' {
            r.push(((c as u8) + 32) as char);
        } else {
            r.push(c);
        }
        i = i + 1;
        assert(r@ =~= lowered(s@).take(i as int));
    }
    assert(lowered(s@).take(s@.len() as int) =~= lowered(s@));
    r
}

/// The decimal digit for a number below ten.
pub open spec fn digit(d: nat) -> char {
    ((48 + d) as u8) as char
}

/// The decimal form of a number, without leading zeros.
pub open spec fn decimal(n: nat) -> Seq<char>
    decreases n,
{
    if n < 10 {
        seq![digit(n)]
    } else {
        decimal(n / 10).push(digit(n % 10))
    }
}

/// Writes a number in decimal.
pub fn to_decimal(n: u128) -> (r: String)
    ensures
        r@ == decimal(n as nat),
    decreases n,
{
    if n < 10 {
        let mut r = String::new();
        r.push((48 + n as u8) as char);
        assert(r@ =~= decimal(n as nat));
        r
    } else {
        let mut r = to_decimal(n / 10);
        r.push((48 + (n % 10) as u8) as char);
        r
    }
}

/// The decimal form of a number that may be negative.
pub open spec fn signed_decimal(n: int) -> Seq<char> {
    if n < 0 {
        seq!['-'] + decimal((-n) as nat)
    } else {
        decimal(n as nat)
    }
}

/// Writes a number that may be negative in decimal.
pub fn to_signed_decimal(n: i64) -> (r: String)
    ensures
        r@ == signed_decimal(n as int),
{
    if n < 0 {
        let mut r = String::new();
        r.push('-');
        let digits = to_decimal((-(n as i128)) as u128);
        r.append(digits.as_str());
        assert(r@ =~= signed_decimal(n as int));
        r
    } else {
        to_decimal(n as u128)
    }
}

// ---- fields, lines and words ---------------------------------------------------------

/// The pieces of `s` between the separators that are not empty.
pub open spec fn filled<T>(s: Seq<T>, sep: T) -> Seq<Seq<T>> {
    pieces(s, sep).filter(|p: Seq<T>| p.len() > 0)
}

/// The pieces of `s` between the separators that are not empty.
pub fn split_filled<T: Symbol>(s: &[T], sep: T) -> (r: Vec<Vec<T>>)
    ensures
        views(r@) == filled(s@, sep),
{
    reveal(Seq::filter);
    let parts = split(s, sep);
    let ghost all = views(parts@);
    let ghost pred = |p: Seq<T>| p.len() > 0;
    let mut r: Vec<Vec<T>> = Vec::new();
    let mut i: usize = 0;
    assert(all.take(0) =~= Seq::<Seq<T>>::empty());
    assert(views(r@) =~= all.take(0).filter(pred));
    while i < parts.len()
        invariant
            i <= parts.len(),
            all == views(parts@),
            pred == (|p: Seq<T>| p.len() > 0),
            views(r@) == all.take(i as int).filter(pred),
        decreases parts.len() - i,
    {
        reveal(Seq::filter);
        let ghost before = views(r@);
        assert(all.take(i + 1).drop_last() =~= all.take(i as int));
        assert(all.take(i + 1).last() == parts@[i as int]@);
        if parts[i].len() > 0 {
            r.push(copy_of(parts[i].as_slice()));
            assert(views(r@) =~= before.push(parts@[i as int]@));
        }
        i = i + 1;
    }
    assert(all.take(i as int) =~= all);
    r
}

/// A line without the carriage return that belongs to its end.
pub open spec fn unreturned(line: Seq<char>) -> Seq<char> {
    if line.len() > 0 && line.last() == '\r' {
        line.drop_last()
    } else {
        line
    }
}

/// The lines of a text: what stands before each line end, and what follows the
/// last one, unless it is nothing.
pub open spec fn lines(s: Seq<char>) -> Seq<Seq<char>> {
    let parts = pieces(s, '\n');
    let ended = parts.drop_last().map_values(|p: Seq<char>| unreturned(p));
    if parts.last().len() > 0 {
        ended.push(parts.last())
    } else {
        ended
    }
}

/// Takes a text apart into lines.
pub fn split_lines(s: &[char]) -> (r: Vec<Vec<char>>)
    ensures
        views(r@) == lines(s@),
{
    let mut parts = split(s, '\n');
    let ghost all = views(parts@);
    proof {
        lemma_pieces_nonempty(s@, '\n');
        assert(all.len() == parts@.len());
    }
    let n = parts.len() - 1;
    let mut r: Vec<Vec<char>> = Vec::new();
    let ghost ended = all.drop_last().map_values(|p: Seq<char>| unreturned(p));
    let mut i: usize = 0;
    assert(views(r@) =~= ended.take(0));
    while i < n
        invariant
            i <= n,
            n + 1 == parts@.len(),
            all == views(parts@),
            ended == all.drop_last().map_values(|p: Seq<char>| unreturned(p)),
            views(r@) == ended.take(i as int),
        decreases n - i,
    {
        let ghost before = views(r@);
        let p = &parts[i];
        assert(all.drop_last()[i as int] == p@);
        let m = if p.len() > 0 && p[p.len() - 1] == '\r' {
            p.len() - 1
        } else {
            p.len()
        };
        let line = copy_range(p.as_slice(), 0, m);
        assert(line@ =~= unreturned(p@));
        r.push(line);
        i = i + 1;
        assert(views(r@) =~= before.push(line@));
        assert(views(r@) =~= ended.take(i as int));
    }
    assert(ended.take(i as int) =~= ended);
    assert(all.last() == parts@[n as int]@);
    if parts[n].len() > 0 {
        let line = copy_of(parts[n].as_slice());
        r.push(line);
        assert(views(r@) =~= ended.push(line@));
    }
    r
}

/// The words of a text: what stands between white space.
pub open spec fn words(s: Seq<char>) -> Seq<Seq<char>>
    decreases s.len(),
{
    if s.len() == 0 {
        Seq::empty()
    } else {
        let front = words(s.drop_last());
        let c = s.last();
        if is_white(c) {
            front
        } else if s.len() == 1 || is_white(s[s.len() - 2]) {
            front.push(seq![c])
        } else {
            front.drop_last().push(front.last().push(c))
        }
    }
}

/// Takes a text apart into words.
pub fn split_words(s: &[char]) -> (r: Vec<Vec<char>>)
    ensures
        views(r@) == words(s@),
{
    let mut r: Vec<Vec<char>> = Vec::new();
    // the word that is being read, which is not among those read
    let mut word: Vec<char> = Vec::new();
    let mut i: usize = 0;
    assert(s@.take(0) =~= Seq::<char>::empty());
    assert(views(r@) =~= Seq::<Seq<char>>::empty());
    while i < s.len()
        invariant
            i <= s.len(),
            word@.len() > 0 <==> i > 0 && !is_white(s@[i - 1]),
            word@.len() > 0 ==> words(s@.take(i as int)) == views(r@).push(word@),
            word@.len() == 0 ==> words(s@.take(i as int)) == views(r@),
        decreases s.len() - i,
    {
        let c = s[i];
        assert(s@.take(i + 1).drop_last() =~= s@.take(i as int));
        assert(s@.take(i + 1).last() == c);
        let ghost before = views(r@);
        let ghost w = word@;
        if white(c) {
            if word.len() > 0 {
                r.push(word);
                assert(views(r@) =~= before.push(w));
                word = Vec::new();
            }
        } else {
            word.push(c);
            proof {
                assert(i > 0 ==> s@.take(i + 1)[i - 1] == s@[i - 1]);
                if w.len() > 0 {
                    assert(before.push(w).drop_last() =~= before);
                } else {
                    assert(word@ =~= seq![c]);
                }
            }
        }
        i = i + 1;
    }
    assert(s@.take(i as int) =~= s@);
    let ghost before = views(r@);
    let ghost w = word@;
    if word.len() > 0 {
        r.push(word);
        assert(views(r@) =~= before.push(w));
    }
    r
}

/// The position from which `s` holds `p` first, or none.
pub open spec fn first_at<T>(s: Seq<T>, p: Seq<T>) -> Option<int>
    decreases s.len(),
{
    if has_prefix(s, p) {
        Some(0)
    } else if s.len() == 0 {
        None
    } else {
        match first_at(s.skip(1), p) {
            Some(i) => Some(i + 1),
            None => None,
        }
    }
}

/// The position from which `s` holds `p` first.
pub fn find_at<T: Symbol>(s: &[T], p: &[T]) -> (r: Option<usize>)
    ensures
        match r {
            Some(i) => first_at(s@, p@) == Some(i as int) && i + p@.len() <= s@.len(),
            None => first_at(s@, p@) is None,
        },
{
    let mut i: usize = 0;
    assert(s@.skip(0) =~= s@);
    while i < s.len()
        invariant
            i <= s.len(),
            match first_at(s@.skip(i as int), p@) {
                Some(k) => first_at(s@, p@) == Some(k + i),
                None => first_at(s@, p@) is None,
            },
        decreases s.len() - i,
    {
        let ghost rest = s@.skip(i as int);
        if p.len() <= s.len() - i {
            assert(rest.take(p@.len() as int) =~= s@.subrange(i as int, i + p@.len()));
            if holds_at(s, p, i) {
                return Some(i);
            }
        }
        assert(rest.skip(1) =~= s@.skip(i + 1));
        i = i + 1;
    }
    let ghost rest = s@.skip(i as int);
    assert(rest.len() == 0);
    if p.len() == 0 {
        assert(rest.take(0) =~= p@);
        return Some(i);
    }
    None
}

// ---- bytes as text -------------------------------------------------------------------

/// What `String::from_utf8_lossy` makes of bytes.
pub uninterp spec fn lossy_text(bytes: Seq<u8>) -> Seq<char>;

/// `String::from_utf8_lossy`: the text that the bytes encode, by name, with
/// replacement characters in place of what is no UTF-8; where all of it is, the
/// text itself.
#[verifier::external_body]
fn lossy(bytes: &[u8]) -> (r: String)
    ensures
        r@ == lossy_text(bytes@),
        valid_utf8(bytes@) ==> r@ == decode_utf8(bytes@),
{
    String::from_utf8_lossy(bytes).into_owned()
}

/// The characters that bytes are shown as: those that they encode, where they
/// are UTF-8, with replacement characters in place of what is not.
pub fn shown(bytes: &[u8]) -> (r: Vec<char>)
    ensures
        r@ == lossy_text(bytes@),
        valid_utf8(bytes@) ==> lossy_text(bytes@) == decode_utf8(bytes@),
{
    chars_of(lossy(bytes).as_str())
}

/// `String::from_utf8`: the text that the bytes encode, if they are UTF-8.
#[verifier::external_body]
pub(crate) fn strict(bytes: Vec<u8>) -> (r: Option<String>)
    ensures
        match r {
            Some(s) => valid_utf8(bytes@) && s@ == decode_utf8(bytes@),
            None => !valid_utf8(bytes@),
        },
{
    String::from_utf8(bytes).ok()
}

} // verus!
