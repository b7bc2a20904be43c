//! Mount options: names with or without a value, kept in the order of the names.

use crate::text;
use crate::text::{chars_of, copy_of, copy_range, find_first, same_string, split_filled, text_of};
use vstd::prelude::*;

pub mod laws;

verus! {

/// An option with its value, if it has one.
#[derive(Debug)]
pub struct MountOption {
    pub name: String,
    pub value: Option<String>,
}

/// The options of a mount.
#[derive(Debug)]
pub struct MountOptions {
    /// The options, in the order of their names.
    pub entries: Vec<MountOption>,
}

/// Texts in dictionary order.
pub open spec fn text_le(a: Seq<char>, b: Seq<char>) -> bool
    decreases a.len(),
{
    if a.len() == 0 {
        true
    } else if b.len() == 0 {
        false
    } else if a[0] != b[0] {
        a[0] < b[0]
    } else {
        text_le(a.skip(1), b.skip(1))
    }
}

proof fn lemma_text_le_total(a: Seq<char>, b: Seq<char>)
    ensures
        text_le(a, a),
        text_le(a, b) || text_le(b, a),
        text_le(a, b) && text_le(b, a) ==> a == b,
    decreases a.len(),
{
    if a.len() > 0 {
        lemma_text_le_total(
            a.skip(1),
            if b.len() > 0 {
                b.skip(1)
            } else {
                b
            },
        );
        if b.len() > 0 && a[0] == b[0] && a.skip(1) == b.skip(1) {
            assert(a =~= seq![a[0]] + a.skip(1));
            assert(b =~= seq![b[0]] + b.skip(1));
        }
    } else if b.len() == 0 {
        assert(a =~= b);
    }
}

proof fn lemma_text_le_transitive(a: Seq<char>, b: Seq<char>, c: Seq<char>)
    requires
        text_le(a, b),
        text_le(b, c),
    ensures
        text_le(a, c),
    decreases a.len(),
{
    if a.len() > 0 && a[0] == b[0] && b[0] == c[0] {
        lemma_text_le_transitive(a.skip(1), b.skip(1), c.skip(1));
    }
}

/// Whether the first text comes no later in dictionary order.
fn text_ordered(a: &[char], b: &[char]) -> (r: bool)
    ensures
        r == text_le(a@, b@),
{
    let mut i: usize = 0;
    assert(a@.skip(0) =~= a@);
    assert(b@.skip(0) =~= b@);
    while i < a.len() && i < b.len()
        invariant
            i <= a.len(),
            i <= b.len(),
            text_le(a@, b@) == text_le(a@.skip(i as int), b@.skip(i as int)),
        decreases a.len() - i,
    {
        assert(a@.skip(i as int).skip(1) =~= a@.skip(i + 1));
        assert(b@.skip(i as int).skip(1) =~= b@.skip(i + 1));
        if a[i] != b[i] {
            return a[i] < b[i];
        }
        i = i + 1;
    }
    i >= a.len()
}

/// The value of an option, by its characters.
pub open spec fn value_of(o: MountOption) -> Option<Seq<char>> {
    match o.value {
        Some(v) => Some(v@),
        None => None,
    }
}

/// What a list of options says: later ones override earlier ones.
pub open spec fn meaning(entries: Seq<MountOption>) -> Map<Seq<char>, Option<Seq<char>>>
    decreases entries.len(),
{
    if entries.len() == 0 {
        Map::empty()
    } else {
        meaning(entries.drop_last()).insert(entries.last().name@, value_of(entries.last()))
    }
}

impl View for MountOptions {
    type V = Map<Seq<char>, Option<Seq<char>>>;

    open spec fn view(&self) -> Map<Seq<char>, Option<Seq<char>>> {
        meaning(self.entries@)
    }
}

impl MountOptions {
    /// The options are in the order of their names, and no name occurs twice.
    pub open spec fn wf(self) -> bool {
        forall|i: int, j: int|
            0 <= i < j < self.entries@.len() ==> text_le(
                (#[trigger] self.entries@[i]).name@,
                (#[trigger] self.entries@[j]).name@,
            ) && self.entries@[i].name@ != self.entries@[j].name@
    }

    /// No options.
    pub fn none() -> (r: Self)
        ensures
            r@ == Map::<Seq<char>, Option<Seq<char>>>::empty(),
            r.wf(),
    {
        MountOptions { entries: Vec::new() }
    }

    /// Whether there are no options.
    pub fn is_empty(&self) -> (r: bool)
        ensures
            r == (self@ == Map::<Seq<char>, Option<Seq<char>>>::empty()),
    {
        let r = self.entries.len() == 0;
        proof {
            if !r {
                assert(self@.dom().contains(self.entries@.last().name@));
            }
        }
        r
    }

    /// Sets an option.
    pub fn set(&mut self, o: MountOption)
        requires
            old(self).wf(),
        ensures
            final(self).wf(),
            final(self)@ == old(self)@.insert(o.name@, value_of(o)),
    {
        let ghost before = self.entries@;
        let name = chars_of(o.name.as_str());
        let mut i: usize = 0;
        while i < self.entries.len() && !text_ordered(
            name.as_slice(),
            chars_of(self.entries[i].name.as_str()).as_slice(),
        )
            invariant
                i <= before.len(),
                self.entries@ == before,
                name@ == o.name@,
                forall|k: int| 0 <= k < i ==> !text_le(name@, (#[trigger] before[k]).name@),
            decreases before.len() - i,
        {
            i = i + 1;
        }
        proof {
            assert forall|k: int| 0 <= k < before.len() implies {
                &&& k < i ==> text_le(before[k].name@, name@) && before[k].name@ != name@
                &&& k > i ==> text_le(name@, (#[trigger] before[k]).name@) && before[k].name@
                    != name@
            } by {
                lemma_text_le_total(name@, before[k].name@);
                if k > i {
                    lemma_text_le_transitive(name@, before[i as int].name@, before[k].name@);
                    lemma_text_le_total(name@, before[i as int].name@);
                    lemma_text_le_total(before[i as int].name@, before[k].name@);
                }
            }
        }
        if i < self.entries.len() && same_string(
            name.as_slice(),
            chars_of(self.entries[i].name.as_str()).as_slice(),
        ) {
            self.entries.set(i, o);
            proof {
                lemma_meaning_update(before, i as int, o);
            }
        } else {
            self.entries.insert(i, o);
            proof {
                assert(i < before.len() ==> before[i as int].name@ != name@);
                lemma_meaning_insert(before, i as int, o);
                assert forall|a: int, b: int| 0 <= a < b < self.entries@.len() implies text_le(
                    (#[trigger] self.entries@[a]).name@,
                    (#[trigger] self.entries@[b]).name@,
                ) && self.entries@[a].name@ != self.entries@[b].name@ by {
                    let x = if a < i {
                        a
                    } else {
                        a - 1
                    };
                    let y = if b < i {
                        b
                    } else {
                        b - 1
                    };
                    if a != i && b != i {
                        assert(self.entries@[a] == before[x]);
                        assert(self.entries@[b] == before[y]);
                    } else if a == i {
                        assert(self.entries@[b] == before[y]);
                    } else {
                        assert(self.entries@[a] == before[x]);
                    }
                }
            }
        }
    }

    /// The value of an option, if it is set and has one.
    pub fn get(&self, name: &str) -> (r: Option<String>)
        requires
            self.wf(),
        ensures
            match r {
                Some(v) => self@.dom().contains(name@) && self@[name@] == Some(v@),
                None => !self@.dom().contains(name@) || self@[name@] is None,
            },
    {
        let want = chars_of(name);
        let mut i: usize = 0;
        while i < self.entries.len()
            invariant
                i <= self.entries.len(),
                self.wf(),
                want@ == name@,
                forall|k: int| 0 <= k < i ==> (#[trigger] self.entries@[k]).name@ != name@,
            decreases self.entries.len() - i,
        {
            let o = &self.entries[i];
            if same_string(want.as_slice(), chars_of(o.name.as_str()).as_slice()) {
                proof {
                    lemma_meaning_at(self.entries@, i as int);
                }
                return match &o.value {
                    Some(v) => Some(v.clone()),
                    None => None,
                };
            }
            i = i + 1;
        }
        proof {
            lemma_meaning_absent(self.entries@, name@);
        }
        None
    }
}

proof fn lemma_meaning_absent(s: Seq<MountOption>, name: Seq<char>)
    requires
        forall|k: int| 0 <= k < s.len() ==> (#[trigger] s[k]).name@ != name,
    ensures
        !meaning(s).dom().contains(name),
    decreases s.len(),
{
    if s.len() > 0 {
        assert forall|k: int| 0 <= k < s.drop_last().len() implies (
        #[trigger] s.drop_last()[k]).name@ != name by {
            assert(s.drop_last()[k] == s[k]);
        }
        lemma_meaning_absent(s.drop_last(), name);
        assert(s.last() == s[s.len() - 1]);
    }
}

proof fn lemma_meaning_at(s: Seq<MountOption>, i: int)
    requires
        0 <= i < s.len(),
        forall|k: int| i < k < s.len() ==> (#[trigger] s[k]).name@ != s[i].name@,
    ensures
        meaning(s).dom().contains(s[i].name@),
        meaning(s)[s[i].name@] == value_of(s[i]),
    decreases s.len(),
{
    if i < s.len() - 1 {
        let f = s.drop_last();
        assert(f[i] == s[i]);
        assert forall|k: int| i < k < f.len() implies (#[trigger] f[k]).name@ != f[i].name@ by {
            assert(f[k] == s[k]);
        }
        lemma_meaning_at(f, i);
        assert(s.last() == s[s.len() - 1]);
    }
}

proof fn lemma_meaning_update(s: Seq<MountOption>, i: int, o: MountOption)
    requires
        0 <= i < s.len(),
        s[i].name@ == o.name@,
        forall|k: int| i < k < s.len() ==> (#[trigger] s[k]).name@ != o.name@,
    ensures
        meaning(s.update(i, o)) == meaning(s).insert(o.name@, value_of(o)),
    decreases s.len(),
{
    let t = s.update(i, o);
    if i == s.len() - 1 {
        assert(t.drop_last() =~= s.drop_last());
        assert(meaning(t) =~= meaning(s).insert(o.name@, value_of(o)));
    } else {
        let f = s.drop_last();
        assert forall|k: int| i < k < f.len() implies (#[trigger] f[k]).name@ != o.name@ by {
            assert(f[k] == s[k]);
        }
        lemma_meaning_update(f, i, o);
        assert(t.drop_last() =~= f.update(i, o));
        assert(s.last() == s[s.len() - 1]);
        assert(meaning(t) =~= meaning(s).insert(o.name@, value_of(o)));
    }
}

proof fn lemma_meaning_insert(s: Seq<MountOption>, i: int, o: MountOption)
    requires
        0 <= i <= s.len(),
        forall|k: int| i <= k < s.len() ==> (#[trigger] s[k]).name@ != o.name@,
    ensures
        meaning(s.insert(i, o)) == meaning(s).insert(o.name@, value_of(o)),
    decreases s.len(),
{
    let t = s.insert(i, o);
    if i == s.len() {
        assert(t.drop_last() =~= s);
    } else {
        let f = s.drop_last();
        assert forall|k: int| i <= k < f.len() implies (#[trigger] f[k]).name@ != o.name@ by {
            assert(f[k] == s[k]);
        }
        lemma_meaning_insert(f, i, o);
        assert(t.drop_last() =~= f.insert(i, o));
        assert(t.last() == s.last());
        assert(s.last() == s[s.len() - 1]);
        assert(meaning(t) =~= meaning(s).insert(o.name@, value_of(o)));
    }
}

// ---- parsing -----------------------------------------------------------------------

/// The name and the value in one piece of an option string.
pub open spec fn pair_in(kv: Seq<char>) -> (Seq<char>, Option<Seq<char>>) {
    let i = text::first_of(kv, '=');
    if i < kv.len() {
        (kv.take(i), Some(kv.skip(i + 1)))
    } else {
        (kv, None)
    }
}

/// What pieces of an option string say.
pub open spec fn options_in(parts: Seq<Seq<char>>) -> Map<Seq<char>, Option<Seq<char>>>
    decreases parts.len(),
{
    if parts.len() == 0 {
        Map::empty()
    } else {
        let (k, v) = pair_in(parts.last());
        options_in(parts.drop_last()).insert(k, v)
    }
}

/// What an option string says: `name=value` or `name`, separated by commas.
pub open spec fn option_string(s: Seq<char>) -> Map<Seq<char>, Option<Seq<char>>> {
    options_in(text::filled(s, ','))
}

/// Takes an option string apart.
pub fn parse_opt_string(s: &[char]) -> (r: MountOptions)
    ensures
        r.wf(),
        r@ == option_string(s@),
{
    let parts = split_filled(s, ',');
    let ghost all = text::views(parts@);
    let mut r = MountOptions::none();
    let mut i: usize = 0;
    assert(all.take(0) =~= Seq::<Seq<char>>::empty());
    while i < parts.len()
        invariant
            i <= parts.len(),
            all == text::views(parts@),
            r.wf(),
            r@ == options_in(all.take(i as int)),
        decreases parts.len() - i,
    {
        assert(all.take(i + 1).drop_last() =~= all.take(i as int));
        assert(all.take(i + 1).last() == parts@[i as int]@);
        let kv = parts[i].as_slice();
        let o = match find_first(kv, '=') {
            Some(j) => {
                let k = copy_range(kv, 0, j);
                let v = copy_range(kv, j + 1, kv.len());
                assert(k@ =~= kv@.take(j as int));
                assert(v@ =~= kv@.skip(j + 1));
                MountOption {
                    name: text_of(k.as_slice()),
                    value: Some(text_of(v.as_slice())),
                }
            },
            None => MountOption { name: text_of(copy_of(kv).as_slice()), value: None },
        };
        r.set(o);
        i = i + 1;
    }
    assert(all.take(i as int) =~= all);
    r
}

/// An option as it is written.
pub open spec fn written(o: MountOption) -> Seq<char> {
    match o.value {
        Some(v) => o.name@ + seq!['='] + v@,
        None => o.name@,
    }
}

/// Options as they are written, separated by commas.
pub open spec fn listed(entries: Seq<MountOption>) -> Seq<char>
    decreases entries.len(),
{
    if entries.len() == 0 {
        Seq::empty()
    } else if entries.len() == 1 {
        written(entries[0])
    } else {
        listed(entries.drop_last()) + seq![','] + written(entries.last())
    }
}

impl MountOptions {
    /// The options as they are written, separated by commas.
    pub fn to_text(&self) -> (r: String)
        ensures
            r@ == listed(self.entries@),
    {
        let mut r = String::new();
        let mut i: usize = 0;
        assert(self.entries@.take(0) =~= Seq::<MountOption>::empty());
        assert(r@ =~= Seq::<char>::empty());
        while i < self.entries.len()
            invariant
                i <= self.entries.len(),
                r@ == listed(self.entries@.take(i as int)),
            decreases self.entries.len() - i,
        {
            let ghost before = r@;
            assert(self.entries@.take(i + 1).drop_last() =~= self.entries@.take(i as int));
            let o = &self.entries[i];
            assert(self.entries@.take(i + 1).last() == *o);
            if i > 0 {
                r.push(',');
            }
            let ghost start = r@;
            r.append(o.name.as_str());
            if let Some(v) = &o.value {
                r.push('=');
                r.append(v.as_str());
                assert(r@ =~= start + written(*o));
            }
            i = i + 1;
            assert(r@ =~= listed(self.entries@.take(i as int))) by {
                if i == 1 {
                    assert(r@ =~= written(*o));
                } else {
                    assert(r@ =~= before + seq![','] + written(*o));
                }
            }
        }
        assert(self.entries@.take(i as int) =~= self.entries@);
        r
    }
}

} // verus!
