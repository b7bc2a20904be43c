//! What holds of option strings.

use super::MountOption;
use crate::options;
use crate::text;
use vstd::prelude::*;
#[allow(unused_imports)]
use vstd::seq_lib::*;

verus! {

proof fn lemma_options_on(a: Seq<Seq<char>>, b: Seq<Seq<char>>)
    ensures
        options::options_in(a + b) == options::options_in(a).union_prefer_right(
            options::options_in(b),
        ),
    decreases b.len(),
{
    if b.len() == 0 {
        assert(a + b =~= a);
        assert(options::options_in(a + b) =~= options::options_in(a).union_prefer_right(
            options::options_in(b),
        ));
    } else {
        lemma_options_on(a, b.drop_last());
        assert((a + b).drop_last() =~= a + b.drop_last());
        assert((a + b).last() == b.last());
        assert(options::options_in(a + b) =~= options::options_in(a).union_prefer_right(
            options::options_in(b),
        ));
    }
}

/// Two option strings with a comma between them say what both say; where both speak of
/// an option the second holds.
pub proof fn later_options_hold(a: Seq<char>, b: Seq<char>)
    ensures
        options::option_string(a.push(',') + b) == options::option_string(a).union_prefer_right(
            options::option_string(b),
        ),
{
    text::laws::filled_on_both_sides(a, ',', b);
    lemma_options_on(text::filled(a, ','), text::filled(b, ','));
}

/// One option: a name, and what stands behind the first `=`, if there is one, as its
/// value.
pub proof fn value_stands_behind_the_name(name: Seq<char>, value: Seq<char>)
    requires
        !name.contains(','),
        !name.contains('='),
        !value.contains(','),
    ensures
        options::option_string(name.push('=') + value) == Map::<
            Seq<char>,
            Option<Seq<char>>,
        >::empty().insert(name, Some(value)),
        name.len() > 0 ==> options::option_string(name) == Map::<
            Seq<char>,
            Option<Seq<char>>,
        >::empty().insert(name, None),
        options::option_string(Seq::empty()) == Map::<Seq<char>, Option<Seq<char>>>::empty(),
{
    let kv = name.push('=') + value;
    assert(!kv.contains(',')) by {
        if kv.contains(',') {
            let j = choose|j: int| 0 <= j < kv.len() && kv[j] == ',';
            if j < name.len() {
                assert(name[j] == ',');
            } else if j > name.len() {
                assert(value[j - name.len() - 1] == ',');
            }
        }
    }
    text::laws::one_filled_piece(kv, ',');
    text::laws::one_filled_piece(name, ',');
    text::laws::one_filled_piece(Seq::<char>::empty(), ',');
    text::lemma_first_of(kv, '=');
    text::lemma_first_of(name, '=');
    let i = text::first_of(kv, '=');
    assert(kv[name.len() as int] == '=');
    if i < name.len() {
        assert(name[i] == '=');
    }
    assert(kv.take(i) =~= name);
    assert(kv.skip(i + 1) =~= value);
    let n = text::first_of(name, '=');
    if n < name.len() {
        assert(name.contains(name[n]));
    }
    assert(seq![kv].drop_last() =~= Seq::<Seq<char>>::empty());
    assert(seq![name].drop_last() =~= Seq::<Seq<char>>::empty());
    assert(options::options_in(Seq::<Seq<char>>::empty()) == Map::<
        Seq<char>,
        Option<Seq<char>>,
    >::empty());
    assert(options::options_in(seq![kv].drop_last()) == Map::<
        Seq<char>,
        Option<Seq<char>>,
    >::empty());
    assert(options::options_in(seq![name].drop_last()) == Map::<
        Seq<char>,
        Option<Seq<char>>,
    >::empty());
}

/// The option can be written: its name has neither comma nor `=` and is not empty, and
/// its value has no comma.
pub open spec fn is_writable(o: MountOption) -> bool {
    &&& o.name@.len() > 0
    &&& !o.name@.contains(',')
    &&& !o.name@.contains('=')
    &&& o.value matches Some(v) ==> !v@.contains(',')
}

proof fn lemma_written(o: MountOption)
    requires
        is_writable(o),
    ensures
        options::option_string(options::written(o)) == Map::<
            Seq<char>,
            Option<Seq<char>>,
        >::empty().insert(o.name@, options::value_of(o)),
{
    match o.value {
        Some(v) => {
            value_stands_behind_the_name(o.name@, v@);
            assert(options::written(o) =~= o.name@.push('=') + v@);
        },
        None => {
            value_stands_behind_the_name(o.name@, Seq::empty());
        },
    }
}

/// Options that are written and read again say the same.
pub proof fn written_options_are_read_back(entries: Seq<MountOption>)
    requires
        forall|k: int| 0 <= k < entries.len() ==> is_writable(#[trigger] entries[k]),
    ensures
        options::option_string(options::listed(entries)) == options::meaning(entries),
    decreases entries.len(),
{
    if entries.len() == 0 {
        value_stands_behind_the_name(Seq::empty(), Seq::empty());
    } else {
        let front = entries.drop_last();
        assert forall|k: int| 0 <= k < front.len() implies is_writable(#[trigger] front[k]) by {
            assert(front[k] == entries[k]);
        }
        written_options_are_read_back(front);
        assert(entries[entries.len() - 1] == entries.last());
        lemma_written(entries.last());
        let one = options::written(entries.last());
        if entries.len() == 1 {
            assert(entries[0] == entries.last());
            assert(front =~= Seq::<MountOption>::empty());
            assert(options::meaning(front) == Map::<Seq<char>, Option<Seq<char>>>::empty());
        } else {
            assert(options::listed(entries) =~= options::listed(front).push(',') + one);
            later_options_hold(options::listed(front), one);
            assert(options::option_string(options::listed(entries)) =~= options::meaning(
                front,
            ).insert(entries.last().name@, options::value_of(entries.last())));
        }
    }
}

/// An option has the value that was given to it last.
pub proof fn last_value_holds(entries: Seq<MountOption>, k: int)
    requires
        0 <= k < entries.len(),
        forall|j: int| k < j < entries.len() ==> (#[trigger] entries[j]).name@ != entries[k].name@,
    ensures
        options::meaning(entries).dom().contains(entries[k].name@),
        entries[k].value matches Some(v) ==> options::meaning(entries)[entries[k].name@] == Some(
            v@,
        ),
        entries[k].value is None ==> options::meaning(entries)[entries[k].name@] is None,
    decreases entries.len(),
{
    if k < entries.len() - 1 {
        let front = entries.drop_last();
        assert(front[k] == entries[k]);
        assert forall|j: int| k < j < front.len() implies (#[trigger] front[j]).name@
            != front[k].name@ by {
            assert(front[j] == entries[j]);
        }
        last_value_holds(front, k);
        assert(entries[entries.len() - 1] == entries.last());
    }
}

} // verus!
