//! Stable ordering of indices.
//!
//! The planners never reorder their records; they order indices into them. A
//! [`Precedence`] breaks every tie by the index itself, so that the order is
//! total and the sorted sequence is the one a stable sort produces.

use vstd::prelude::*;
#[allow(unused_imports)]
use vstd::relations::*;
#[allow(unused_imports)]
use vstd::seq_lib::*;

verus! {

/// A total order on the indices of some table.
pub trait Precedence {
    /// The order: `leq()(a, b)` says that `a` comes no later than `b`.
    spec fn leq(&self) -> spec_fn(usize, usize) -> bool;

    /// The indices that may be compared.
    spec fn covers(&self, i: usize) -> bool;

    proof fn lemma_total(&self)
        ensures
            total_ordering(self.leq()),
    ;

    fn precedes(&self, a: usize, b: usize) -> (r: bool)
        requires
            self.covers(a),
            self.covers(b),
        ensures
            r == self.leq()(a, b),
    ;
}

/// Every entry of `s` may be compared.
pub open spec fn all_covered<P: Precedence>(p: &P, s: Seq<usize>) -> bool {
    forall|i: int| 0 <= i < s.len() ==> #[trigger] p.covers(s[i])
}

/// Merges two sorted runs, taking from the left one on equal footing.
fn merge<P: Precedence>(p: &P, a: &Vec<usize>, b: &Vec<usize>) -> (out: Vec<usize>)
    requires
        sorted_by(a@, p.leq()),
        sorted_by(b@, p.leq()),
        all_covered(p, a@),
        all_covered(p, b@),
    ensures
        sorted_by(out@, p.leq()),
        all_covered(p, out@),
        out@.to_multiset() == a@.to_multiset().add(b@.to_multiset()),
{
    broadcast use group_to_multiset_ensures;

    let ghost leq = p.leq();
    let mut out: Vec<usize> = Vec::new();
    let mut i: usize = 0;
    let mut j: usize = 0;
    proof {
        p.lemma_total();
        assert(a@.take(0) =~= Seq::<usize>::empty());
        assert(b@.take(0) =~= Seq::<usize>::empty());
        assert(out@.to_multiset() =~= a@.take(0).to_multiset().add(b@.take(0).to_multiset()));
    }
    while i < a.len() || j < b.len()
        invariant
            i <= a.len(),
            j <= b.len(),
            leq == p.leq(),
            total_ordering(leq),
            sorted_by(a@, leq),
            sorted_by(b@, leq),
            all_covered(p, a@),
            all_covered(p, b@),
            sorted_by(out@, leq),
            all_covered(p, out@),
            forall|k: int, m: int|
                0 <= k < out.len() && i <= m < a.len() ==> #[trigger] leq(out@[k], a@[m]),
            forall|k: int, m: int|
                0 <= k < out.len() && j <= m < b.len() ==> #[trigger] leq(out@[k], b@[m]),
            out@.to_multiset() == a@.take(i as int).to_multiset().add(
                b@.take(j as int).to_multiset(),
            ),
        decreases a.len() - i + b.len() - j,
    {
        broadcast use group_to_multiset_ensures;

        if j >= b.len() || (i < a.len() && p.precedes(a[i], b[j])) {
            assert(p.covers(a@[i as int]));
            out.push(a[i]);
            assert(a@.take(i + 1) =~= a@.take(i as int).push(a@[i as int]));
            assert(out@.to_multiset() =~= a@.take(i + 1).to_multiset().add(
                b@.take(j as int).to_multiset(),
            ));
            assert forall|m: int| i + 1 <= m < a.len() implies leq(a@[i as int], #[trigger] a@[m]) by {}
            assert forall|m: int| j <= m < b.len() implies leq(a@[i as int], #[trigger] b@[m]) by {
                assert(m == j || leq(b@[j as int], b@[m]));
            }
            i = i + 1;
        } else {
            assert(p.covers(b@[j as int]));
            out.push(b[j]);
            assert(b@.take(j + 1) =~= b@.take(j as int).push(b@[j as int]));
            assert(out@.to_multiset() =~= a@.take(i as int).to_multiset().add(
                b@.take(j + 1).to_multiset(),
            ));
            assert forall|m: int| j + 1 <= m < b.len() implies leq(b@[j as int], #[trigger] b@[m]) by {}
            assert forall|m: int| i <= m < a.len() implies leq(b@[j as int], #[trigger] a@[m]) by {
                assert(leq(b@[j as int], a@[i as int]));
                assert(m == i || leq(a@[i as int], a@[m]));
            }
            j = j + 1;
        }
    }
    assert(a@.take(i as int) =~= a@);
    assert(b@.take(j as int) =~= b@);
    out
}

/// The entries of `v` in the order of `p`.
pub fn sort_indices<P: Precedence>(p: &P, v: Vec<usize>) -> (out: Vec<usize>)
    requires
        all_covered(p, v@),
    ensures
        out@ == v@.sort_by(p.leq()),
        all_covered(p, out@),
        out@.to_multiset() == v@.to_multiset(),
        sorted_by(out@, p.leq()),
    decreases v.len(),
{
    broadcast use group_to_multiset_ensures;

    let n = v.len();
    let out = if n <= 1 {
        v
    } else {
        let ghost all = v@;
        let mut left = v;
        let right = left.split_off(n / 2);
        assert(left@ + right@ =~= all);
        proof {
            lemma_multiset_commutative(left@, right@);
            assert forall|i: int| 0 <= i < left@.len() implies #[trigger] p.covers(left@[i]) by {
                assert(p.covers(all[i]));
            }
            assert forall|i: int| 0 <= i < right@.len() implies #[trigger] p.covers(right@[i]) by {
                assert(p.covers(all[i + n / 2]));
            }
        }
        let left = sort_indices(p, left);
        let right = sort_indices(p, right);
        merge(p, &left, &right)
    };
    proof {
        p.lemma_total();
        v@.lemma_sort_by_ensures(p.leq());
        lemma_sorted_unique(out@, v@.sort_by(p.leq()), p.leq());
    }
    out
}

/// The numbers below `n` that satisfy the predicate, in ascending order.
pub open spec fn select(n: nat, pred: spec_fn(usize) -> bool) -> Seq<usize>
    decreases n,
{
    if n == 0 {
        Seq::empty()
    } else {
        let front = select((n - 1) as nat, pred);
        if pred((n - 1) as usize) {
            front.push((n - 1) as usize)
        } else {
            front
        }
    }
}

/// A selection holds exactly the numbers that satisfy the predicate.
pub proof fn lemma_select(n: nat, pred: spec_fn(usize) -> bool)
    requires
        n <= usize::MAX,
    ensures
        forall|k: int|
            0 <= k < select(n, pred).len() ==> #[trigger] select(n, pred)[k] < n && pred(
                select(n, pred)[k],
            ),
        forall|i: usize| i < n && pred(i) ==> #[trigger] select(n, pred).contains(i),
    decreases n,
{
    if n > 0 {
        lemma_select((n - 1) as nat, pred);
        let front = select((n - 1) as nat, pred);
        let all = select(n, pred);
        assert forall|i: usize| i < n && pred(i) implies #[trigger] all.contains(i) by {
            if i < n - 1 {
                assert(front.contains(i));
                let k = choose|k: int| 0 <= k < front.len() && front[k] == i;
                assert(all[k] == i);
            } else {
                assert(all.last() == i);
            }
        }
    }
}

/// Sorting keeps the entries of a sequence.
pub proof fn lemma_sorted_members(s: Seq<usize>, leq: spec_fn(usize, usize) -> bool)
    requires
        total_ordering(leq),
    ensures
        s.sort_by(leq).len() == s.len(),
        forall|k: int| 0 <= k < s.len() ==> s.contains(#[trigger] s.sort_by(leq)[k]),
        forall|x: usize| s.contains(x) ==> s.sort_by(leq).contains(x),
{
    broadcast use group_to_multiset_ensures;

    s.lemma_sort_by_ensures(leq);
    let t = s.sort_by(leq);
    assert(t.len() == t.to_multiset().len());
    assert(s.len() == s.to_multiset().len());
    assert forall|k: int| 0 <= k < s.len() implies s.contains(#[trigger] t[k]) by {
        assert(t.contains(t[k]));
    }
    assert forall|x: usize| s.contains(x) implies t.contains(x) by {
        assert(s.to_multiset().count(x) > 0);
    }
}

/// The least entry is the first of the sorted ones.
pub proof fn lemma_least_first(s: Seq<usize>, leq: spec_fn(usize, usize) -> bool, x: usize)
    requires
        total_ordering(leq),
        s.contains(x),
        forall|k: int| 0 <= k < s.len() ==> leq(x, #[trigger] s[k]),
    ensures
        s.sort_by(leq).len() > 0,
        s.sort_by(leq)[0] == x,
{
    let t = s.sort_by(leq);
    lemma_sorted_members(s, leq);
    s.lemma_sort_by_ensures(leq);
    assert(s.len() > 0);
    assert(s.contains(t[0]));
    let j = choose|j: int| 0 <= j < s.len() && s[j] == t[0];
    assert(leq(x, s[j]));
    assert(t.contains(x));
    let k = choose|k: int| 0 <= k < t.len() && t[k] == x;
    assert(k == 0 || leq(t[0], t[k]));
}

/// A selection is in ascending order, so that no number occurs twice.
pub proof fn selections_ascend(n: nat, pred: spec_fn(usize) -> bool)
    requires
        n <= usize::MAX,
    ensures
        forall|j: int, k: int|
            0 <= j < k < select(n, pred).len() ==> (#[trigger] select(n, pred)[j]) < (
            #[trigger] select(n, pred)[k]),
    decreases n,
{
    if n > 0 {
        selections_ascend((n - 1) as nat, pred);
        lemma_select((n - 1) as nat, pred);
        let front = select((n - 1) as nat, pred);
        let all = select(n, pred);
        assert forall|j: int, k: int| 0 <= j < k < all.len() implies (#[trigger] all[j]) < (
        #[trigger] all[k]) by {
            assert(all[j] == front[j]);
            if k < front.len() {
                assert(all[k] == front[k]);
            }
        }
    }
}

} // verus!
