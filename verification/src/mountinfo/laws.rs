//! What holds of the mount table.

use super::MountInfoView;
use crate::mountinfo;
use crate::text;
use vstd::prelude::*;
#[allow(unused_imports)]
use vstd::seq_lib::*;

verus! {

/// The text is a word.
pub open spec fn is_word(s: Seq<char>) -> bool {
    s.len() > 0 && forall|k: int| 0 <= k < s.len() ==> !text::is_white(#[trigger] s[k])
}

proof fn lemma_words(parts: Seq<Seq<char>>)
    requires
        parts.len() > 0,
        forall|k: int| 0 <= k < parts.len() ==> is_word(#[trigger] parts[k]),
    ensures
        text::words(text::laws::glued(parts, ' ')) == parts,
    decreases parts.len(),
{
    if parts.len() == 1 {
        assert(is_word(parts[0]));
        text::laws::one_word(parts[0]);
        assert(parts =~= seq![parts[0]]);
    } else {
        let front = parts.drop_last();
        assert forall|k: int| 0 <= k < front.len() implies is_word(#[trigger] front[k]) by {
            assert(front[k] == parts[k]);
        }
        lemma_words(front);
        assert(is_word(parts[parts.len() - 1]));
        text::laws::one_word(parts.last());
        text::laws::words_stand_between_white_space(
            text::laws::glued(front, ' '),
            ' ',
            parts.last(),
        );
        assert(parts =~= front + seq![parts.last()]);
    }
}

/// A line gives back the fields that it was written with: behind four others the mount
/// point, escaped; and behind the dash the type, the source and, if there are any, the
/// options of the filesystem.
pub proof fn fields_are_read_back(
    left: Seq<Seq<char>>,
    right: Seq<Seq<char>>,
    mount_point: Seq<char>,
)
    requires
        left.len() >= 5,
        right.len() >= 2,
        forall|k: int| 0 <= k < left.len() ==> is_word(#[trigger] left[k]),
        forall|k: int| 0 <= k < right.len() ==> is_word(#[trigger] right[k]),
        left[4] == mountinfo::escaped(mount_point),
        text::first_at(
            text::laws::glued(left, ' ') + " - "@ + text::laws::glued(right, ' '),
            " - "@,
        ) == Some(text::laws::glued(left, ' ').len() as int),
    ensures
        ({
            let line = text::laws::glued(left, ' ') + " - "@ + text::laws::glued(right, ' ');
            mountinfo::line_parsed(line) == Some(
                MountInfoView {
                    mount_point,
                    fstype: right[0],
                    source: right[1],
                    super_opts: if right.len() > 2 {
                        right[2]
                    } else {
                        Seq::empty()
                    },
                },
            )
        }),
{
    let (a, b) = (text::laws::glued(left, ' '), text::laws::glued(right, ' '));
    let line = a + " - "@ + b;
    assert(line.take(a.len() as int) =~= a);
    assert(line.skip((a.len() + " - "@.len()) as int) =~= b);
    lemma_words(left);
    lemma_words(right);
    mountinfo::escapes_are_undone(mount_point);
}

/// What the mount table says of a mount point is in the first line that is about it;
/// and it says nothing only if no line is.
pub proof fn first_line_about_it_counts(lines: Seq<Seq<char>>, want: Seq<char>)
    ensures
        match mountinfo::entry_in(lines, want) {
            Some(m) => m.mount_point == want && exists|k: int|
                0 <= k < lines.len() && mountinfo::line_parsed(#[trigger] lines[k]) == Some(m)
                    && forall|j: int| 0 <= j < k ==> !is_about(#[trigger] lines[j], want),
            None => forall|j: int| 0 <= j < lines.len() ==> !is_about(#[trigger] lines[j], want),
        },
    decreases lines.len(),
{
    if lines.len() > 0 {
        let rest = lines.skip(1);
        first_line_about_it_counts(rest, want);
        if is_about(lines[0], want) {
            assert(mountinfo::line_parsed(lines[0]) == mountinfo::entry_in(lines, want));
        } else {
            match mountinfo::entry_in(rest, want) {
                Some(m) => {
                    let k = choose|k: int|
                        0 <= k < rest.len() && mountinfo::line_parsed(#[trigger] rest[k]) == Some(m)
                            && forall|j: int|
                            0 <= j < k ==> !is_about(#[trigger] rest[j], want);
                    assert(lines[k + 1] == rest[k]);
                    assert forall|j: int| 0 <= j < k + 1 implies !is_about(
                        #[trigger] lines[j],
                        want,
                    ) by {
                        if j > 0 {
                            assert(rest[j - 1] == lines[j]);
                        }
                    }
                },
                None => {
                    assert forall|j: int| 0 <= j < lines.len() implies !is_about(
                        #[trigger] lines[j],
                        want,
                    ) by {
                        if j > 0 {
                            assert(rest[j - 1] == lines[j]);
                        }
                    }
                },
            }
        }
    }
}

/// The octal digit for a number below eight.
pub open spec fn digit(n: int) -> char {
    (48 + n) as char
}

/// A backslash and three octal digits stand for the character with that number, up to
/// 255; and all else stands for itself, a backslash too that no such digits follow.
pub proof fn octal_numbers_are_characters(n: int, s: Seq<char>)
    ensures
        0 <= n < 256 ==> mountinfo::unescaped(
            seq!['\\', digit(n / 64), digit(n / 8 % 8), digit(n % 8)] + s,
        ) == seq![n as char] + mountinfo::unescaped(s),
        s.len() > 0 && s[0] != '\\' ==> mountinfo::unescaped(s) == seq![s[0]]
            + mountinfo::unescaped(s.skip(1)),
        s.len() > 0 && s.len() <= 3 ==> mountinfo::unescaped(s) == seq![s[0]]
            + mountinfo::unescaped(s.skip(1)),
        s.len() > 3 && !('0' <= s[1] <= '3' && '0' <= s[2] <= '7' && '0' <= s[3] <= '7')
            ==> mountinfo::unescaped(s) == seq![s[0]] + mountinfo::unescaped(s.skip(1)),
        mountinfo::unescaped(Seq::empty()) == Seq::<char>::empty(),
{
    if 0 <= n < 256 {
        let t = seq!['\\', digit(n / 64), digit(n / 8 % 8), digit(n % 8)] + s;
        assert(t.skip(4) =~= s);
        assert(n / 64 * 64 + n / 8 % 8 * 8 + n % 8 == n);
    }
}

/// The line is about the mount point.
pub open spec fn is_about(line: Seq<char>, want: Seq<char>) -> bool {
    mountinfo::line_parsed(line) matches Some(m) && m.mount_point == want
}

} // verus!
