//! Ascending order of value numbers, used to give the operands of a
//! commutative operator one canonical arrangement.

use crate::expr::numbers_of;
use vstd::prelude::*;
use vstd::relations::{sorted_by, total_ordering};
use vstd::seq_lib::{lemma_sorted_unique, to_multiset_update};

verus! {

/// The usual order of value numbers.
pub open spec fn number_le() -> spec_fn(nat, nat) -> bool {
    |a: nat, b: nat| a <= b
}

/// The numbers of `s` in ascending order.
pub open spec fn ascending(s: Seq<nat>) -> Seq<nat> {
    s.sort_by(number_le())
}

/// The ascending arrangement is in order and holds the same numbers, each
/// as often as before.
pub proof fn lemma_ascending(s: Seq<nat>)
    ensures
        forall|i: int, j: int| 0 <= i < j < s.len() ==> ascending(s)[i] <= ascending(s)[j],
        ascending(s).to_multiset() == s.to_multiset(),
        ascending(s).len() == s.len(),
{
    assert(total_ordering(number_le()));
    s.lemma_sort_by_ensures(number_le());
    s.to_multiset_ensures();
    ascending(s).to_multiset_ensures();
    assert forall|i: int, j: int| 0 <= i < j < s.len() implies ascending(s)[i] <= ascending(
        s,
    )[j] by {
        assert(number_le()(ascending(s)[i], ascending(s)[j]));
    }
}

/// An arrangement that is in order and holds the same numbers is the
/// ascending one.
pub proof fn lemma_ascending_unique(s: Seq<nat>, r: Seq<nat>)
    requires
        forall|i: int, j: int| 0 <= i < j < r.len() ==> r[i] <= r[j],
        r.to_multiset() == s.to_multiset(),
    ensures
        r == ascending(s),
{
    assert(total_ordering(number_le()));
    s.lemma_sort_by_ensures(number_le());
    assert(sorted_by(r, number_le()));
    lemma_sorted_unique(r, ascending(s), number_le());
}

/// Puts the value numbers of `v` in ascending order.
pub fn sort_numbers(v: &mut Vec<usize>)
    ensures
        numbers_of(final(v)@) == ascending(numbers_of(old(v)@)),
{
    let n = v.len();
    let ghost start = numbers_of(v@);
    let mut i: usize = 0;
    while i < n
        invariant
            v.len() == n,
            i <= n,
            numbers_of(v@).to_multiset() == start.to_multiset(),
            forall|a: int, b: int| 0 <= a < b < i ==> v@[a] <= v@[b],
        decreases n - i,
    {
        let mut j: usize = i;
        while j > 0 && v[j - 1] > v[j]
            invariant
                v.len() == n,
                j <= i < n,
                numbers_of(v@).to_multiset() == start.to_multiset(),
                forall|a: int, b: int| 0 <= a < b <= i && b != j ==> v@[a] <= v@[b],
            decreases j,
        {
            let x = v[j - 1];
            let y = v[j];
            let ghost s0 = numbers_of(v@);
            v.set(j - 1, y);
            v.set(j, x);
            proof {
                let s1 = s0.update(j - 1, y as nat);
                let s2 = s1.update(j as int, x as nat);
                assert(numbers_of(v@) =~= s2);
                to_multiset_update(s0, j - 1, y as nat);
                to_multiset_update(s1, j as int, x as nat);
                assert(s0[j - 1] == x as nat);
                assert(s1[j as int] == y as nat);
                s0.to_multiset_ensures();
                assert(s0.contains(x as nat));
                assert(s0.contains(s0[j as int]));
                assert(s2.to_multiset() =~= s0.to_multiset());
            }
            j = j - 1;
        }
        i = i + 1;
    }
    proof {
        let r = numbers_of(v@);
        assert forall|a: int, b: int| 0 <= a < b < r.len() implies r[a] <= r[b] by {
            assert(v@[a] <= v@[b]);
        }
        lemma_ascending_unique(start, r);
    }
}

} // verus!
