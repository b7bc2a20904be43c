//! `/proc/self/mountinfo`.

use crate::options;
use crate::options::{parse_opt_string, MountOptions};
use crate::text;
use crate::text::{
    chars_of, copy_of, copy_range, find_at, same_string, split_lines, split_words, text_of,
};
use vstd::prelude::*;

pub mod laws;

verus! {

/// What a line of the mount table says.
pub struct MountInfoLine {
    pub mount_point: Vec<char>,
    pub fstype: Vec<char>,
    pub source: Vec<char>,
    pub super_opts: Vec<char>,
}

/// What a line says, as sequences.
#[verifier::ext_equal]
pub struct MountInfoView {
    pub mount_point: Seq<char>,
    pub fstype: Seq<char>,
    pub source: Seq<char>,
    pub super_opts: Seq<char>,
}

impl View for MountInfoLine {
    type V = MountInfoView;

    open spec fn view(&self) -> MountInfoView {
        MountInfoView {
            mount_point: self.mount_point@,
            fstype: self.fstype@,
            source: self.source@,
            super_opts: self.super_opts@,
        }
    }
}

// ---- octal escapes -----------------------------------------------------------------

/// An octal digit.
pub open spec fn is_octal(c: char) -> bool {
    '0' <= c <= '7'
}

/// The character whose number three octal digits give.
pub open spec fn octal(a: char, b: char, c: char) -> Option<char> {
    if '0' <= a <= '3' && is_octal(b) && is_octal(c) {
        Some(((a as int - 48) * 64 + (b as int - 48) * 8 + (c as int - 48)) as char)
    } else {
        None
    }
}

/// What an escaped text stands for: mountinfo escapes
/// space/tab/newline/backslash as octal `\NNN`, and all other characters stand
/// for themselves.
pub open spec fn unescaped(s: Seq<char>) -> Seq<char>
    decreases s.len(),
{
    if s.len() == 0 {
        Seq::empty()
    } else if s[0] == '\\' && s.len() > 3 && octal(s[1], s[2], s[3]) is Some {
        seq![octal(s[1], s[2], s[3])->0] + unescaped(s.skip(4))
    } else {
        seq![s[0]] + unescaped(s.skip(1))
    }
}

/// A character as mountinfo writes it.
pub open spec fn escape_of(c: char) -> Seq<char> {
    if c == ' ' {
        seq!['\\', '0', '4', '0']
    } else if c == '\t' {
        seq!['\\', '0', '1', '1']
    } else if c == '\n' {
        seq!['\\', '0', '1', '2']
    } else if c == '\\' {
        seq!['\\', '1', '3', '4']
    } else {
        seq![c]
    }
}

/// A text as mountinfo writes it.
pub open spec fn escaped(s: Seq<char>) -> Seq<char>
    decreases s.len(),
{
    if s.len() == 0 {
        Seq::empty()
    } else {
        escape_of(s[0]) + escaped(s.skip(1))
    }
}

/// Undoing the escapes of a text gives the text back.
pub proof fn escapes_are_undone(s: Seq<char>)
    ensures
        unescaped(escaped(s)) == s,
    decreases s.len(),
{
    if s.len() > 0 {
        let rest = s.skip(1);
        escapes_are_undone(rest);
        let head = escape_of(s[0]);
        assert((head + escaped(rest)).skip(head.len() as int) =~= escaped(rest));
        assert(s =~= seq![s[0]] + rest);
        assert(unescaped(head + escaped(rest)) =~= seq![s[0]] + unescaped(escaped(rest)));
    }
}

fn octal_of(a: char, b: char, c: char) -> (r: Option<char>)
    ensures
        r == octal(a, b, c),
{
    if '0' <= a && a <= '3' && '0' <= b && b <= '7' && '0' <= c && c <= '7' {
        let n: u32 = (a as u32 - 48) * 64 + (b as u32 - 48) * 8 + (c as u32 - 48);
        Some(n as u8 as char)
    } else {
        None
    }
}

/// Undoes octal escapes.
pub fn unescape_octal(s: &str) -> (r: Vec<char>)
    ensures
        r@ == unescaped(s@),
{
    let b = chars_of(s);
    let mut out: Vec<char> = Vec::new();
    let mut i: usize = 0;
    assert(b@.skip(0) =~= b@);
    assert(out@ + unescaped(b@) =~= unescaped(b@));
    while i < b.len()
        invariant
            i <= b.len(),
            out@ + unescaped(b@.skip(i as int)) == unescaped(b@),
        decreases b.len() - i,
    {
        let ghost rest = b@.skip(i as int);
        let ghost before = out@;
        let code = if b[i] == '\\' && b.len() - i > 3 {
            octal_of(b[i + 1], b[i + 2], b[i + 3])
        } else {
            None
        };
        match code {
            Some(c) => {
                out.push(c);
                assert(rest.skip(4) =~= b@.skip(i + 4));
                assert(before + unescaped(rest) =~= out@ + unescaped(b@.skip(i + 4)));
                i = i + 4;
            },
            None => {
                out.push(b[i]);
                assert(rest.skip(1) =~= b@.skip(i + 1));
                assert(before + unescaped(rest) =~= out@ + unescaped(b@.skip(i + 1)));
                i = i + 1;
            },
        }
    }
    assert(out@ + unescaped(b@.skip(i as int)) =~= out@);
    out
}

// ---- lines -------------------------------------------------------------------------

/// What a line says: fields before " - " are mount fields; after are fstype,
/// source, super-options.
pub open spec fn line_parsed(line: Seq<char>) -> Option<MountInfoView> {
    match text::first_at(line, " - "@) {
        Some(i) => {
            let left = text::words(line.take(i));
            let right = text::words(line.skip(i + " - "@.len()));
            if left.len() < 5 || right.len() < 2 {
                None
            } else {
                Some(
                    MountInfoView {
                        mount_point: unescaped(left[4]),
                        fstype: right[0],
                        source: right[1],
                        super_opts: if right.len() > 2 {
                            right[2]
                        } else {
                            Seq::empty()
                        },
                    },
                )
            }
        },
        None => None,
    }
}

impl MountInfoLine {
    /// Takes a line of the mount table apart.
    pub fn parse(line: &[char]) -> (r: Option<MountInfoLine>)
        ensures
            match r {
                Some(m) => line_parsed(line@) == Some(m@),
                None => line_parsed(line@) is None,
            },
    {
        let mark = chars_of(" - ");
        let i = match find_at(line, mark.as_slice()) {
            Some(i) => i,
            None => {
                return None;
            },
        };
        assert(i + mark.len() <= line.len());
        let head = copy_range(line, 0, i);
        let tail = copy_range(line, i + mark.len(), line.len());
        assert(head@ =~= line@.take(i as int));
        assert(tail@ =~= line@.skip(i + " - "@.len()));
        let left = split_words(head.as_slice());
        let right = split_words(tail.as_slice());
        let ghost lv = text::views(left@);
        let ghost rv = text::views(right@);
        assert(lv.len() == left@.len() && rv.len() == right@.len());
        if left.len() < 5 || right.len() < 2 {
            return None;
        }
        assert(lv[4] == left@[4]@);
        assert(rv[0] == right@[0]@);
        assert(rv[1] == right@[1]@);
        assert(right@.len() > 2 ==> rv[2] == right@[2]@);
        Some(
            MountInfoLine {
                mount_point: unescape_octal(text_of(left[4].as_slice()).as_str()),
                fstype: copy_of(right[0].as_slice()),
                source: copy_of(right[1].as_slice()),
                super_opts: if right.len() > 2 {
                    copy_of(right[2].as_slice())
                } else {
                    Vec::new()
                },
            },
        )
    }
}

/// The first of the lines that is about the mount point.
pub open spec fn entry_in(lines: Seq<Seq<char>>, want: Seq<char>) -> Option<MountInfoView>
    decreases lines.len(),
{
    if lines.len() == 0 {
        None
    } else {
        match line_parsed(lines[0]) {
            Some(m) => if m.mount_point == want {
                Some(m)
            } else {
                entry_in(lines.skip(1), want)
            },
            None => entry_in(lines.skip(1), want),
        }
    }
}

/// What the mount table says about a mount point.
pub open spec fn entry_of(table: Seq<char>, want: Seq<char>) -> Option<MountInfoView> {
    entry_in(text::lines(table), want)
}

/// Finds what the mount table says about a mount point.
pub fn find_entry(table: &str, want: &[char]) -> (r: Option<MountInfoLine>)
    ensures
        match r {
            Some(m) => entry_of(table@, want@) == Some(m@),
            None => entry_of(table@, want@) is None,
        },
{
    let all = chars_of(table);
    let lines = split_lines(all.as_slice());
    let ghost lv = text::views(lines@);
    let mut i: usize = 0;
    assert(lv.skip(0) =~= lv);
    while i < lines.len()
        invariant
            i <= lines.len(),
            lv == text::views(lines@),
            entry_in(lv, want@) == entry_in(lv.skip(i as int), want@),
            lv == text::lines(table@),
        decreases lines.len() - i,
    {
        let ghost rest = lv.skip(i as int);
        assert(rest[0] == lines@[i as int]@);
        assert(rest.skip(1) =~= lv.skip(i + 1));
        if let Some(m) = MountInfoLine::parse(lines[i].as_slice()) {
            if same_string(m.mount_point.as_slice(), want) {
                return Some(m);
            }
        }
        i = i + 1;
    }
    None
}

/// What the mount table says about the options of a mount point.
pub open spec fn options_of(entry: Option<MountInfoView>) -> Map<Seq<char>, Option<Seq<char>>> {
    match entry {
        Some(m) => options::option_string(m.super_opts),
        None => Map::empty(),
    }
}

/// The options of a mount, none where it is not in the table.
pub fn mountinfo_options(entry: &Option<MountInfoLine>) -> (r: MountOptions)
    ensures
        r.wf(),
        r@ == options_of(
            match *entry {
                Some(m) => Some(m@),
                None => None,
            },
        ),
{
    match entry {
        Some(m) => parse_opt_string(m.super_opts.as_slice()),
        None => MountOptions::none(),
    }
}

} // verus!
