//! Patterns with one wildcard.

use crate::text;
use crate::text::{copy_range, ends_with, find_first, same_string, starts_with};
use vstd::prelude::*;

verus! {

/// The pattern matches the whole name: the first `*` stands for anything, even
/// nothing; all else stands for itself.
pub open spec fn matched(pat: Seq<char>, name: Seq<char>) -> bool {
    let i = text::first_of(pat, '*');
    if i < pat.len() {
        let pre = pat.take(i);
        let suf = pat.skip(i + 1);
        &&& text::has_prefix(name, pre)
        &&& text::has_suffix(name, suf)
        &&& name.len() >= pre.len() + suf.len()
    } else {
        pat == name
    }
}

/// `*`-only glob match (single wildcard splitting prefix/suffix).
pub fn glob_match(pat: &[char], name: &[char]) -> (r: bool)
    ensures
        r == matched(pat@, name@),
{
    match find_first(pat, '*') {
        Some(i) => {
            let pre = copy_range(pat, 0, i);
            let suf = copy_range(pat, i + 1, pat.len());
            assert(pre@ =~= pat@.take(i as int));
            assert(suf@ =~= pat@.skip(i + 1));
            starts_with(name, pre.as_slice()) && ends_with(name, suf.as_slice()) && name.len()
                - pre.len() >= suf.len()
        },
        None => same_string(pat, name),
    }
}

/// A pattern without wildcard matches nothing but itself.
pub proof fn plain_pattern_matches_itself(pat: Seq<char>, name: Seq<char>)
    requires
        !pat.contains('*'),
    ensures
        matched(pat, name) <==> pat == name,
{
    text::lemma_first_of(pat, '*');
}

/// What a pattern with a wildcard matches is its head, anything, and its tail.
pub proof fn wildcard_stands_for_anything(head: Seq<char>, tail: Seq<char>, name: Seq<char>)
    requires
        !head.contains('*'),
    ensures
        matched(head.push('*') + tail, name) <==> exists|middle: Seq<char>|
            name == #[trigger] (head + middle) + tail,
{
    let pat = head.push('*') + tail;
    text::lemma_first_of(pat, '*');
    let i = text::first_of(pat, '*');
    assert(pat[head.len() as int] == '*');
    if i < head.len() {
        assert(head[i] == pat[i]);
    }
    assert(pat.take(i) =~= head);
    assert(pat.skip(i + 1) =~= tail);
    if matched(pat, name) {
        let middle = name.subrange(head.len() as int, name.len() - tail.len());
        assert(name.take(head.len() as int) =~= head);
        assert(name.skip(name.len() - tail.len()) =~= tail);
        assert(name =~= (head + middle) + tail);
    }
    assert forall|middle: Seq<char>| name == #[trigger] (head + middle) + tail implies matched(
        pat,
        name,
    ) by {
        assert(name.take(head.len() as int) =~= head);
        assert(name.skip(name.len() - tail.len()) =~= tail);
    }
}

} // verus!
