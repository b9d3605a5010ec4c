use vstd::prelude::*;
use vstd::relations::{sorted_by, total_ordering};

verus! {

/// The order "not smaller than", by which indices are sorted from the
/// largest down.
pub open spec fn not_below() -> spec_fn(u64, u64) -> bool {
    |a: u64, b: u64| a >= b
}

/// The middle of `s` sorted from the largest down: the largest value that
/// more than half of `s` reaches when `s` holds the match index of every
/// peer but one that already has everything.
pub open spec fn median_desc(s: Seq<u64>) -> u64 {
    s.sort_by(not_below())[(s.len() - 1) / 2]
}

proof fn lemma_not_below_total()
    ensures
        total_ordering(not_below()),
{
}

/// Sorts `v` from the largest value down.
pub fn sort_desc(v: &mut Vec<u64>)
    ensures
        sorted_by(final(v)@, not_below()),
        final(v)@.to_multiset() == old(v)@.to_multiset(),
{
    broadcast use vstd::seq_lib::group_to_multiset_ensures;
    broadcast use vstd::multiset::group_multiset_axioms;

    let n = v.len();
    let mut i: usize = 1;
    while i < n
        invariant
            n == v@.len(),
            1 <= i,
            i <= n || n == 0,
            forall|a: int, b: int| 0 <= a < b < i && b < n ==> v@[a] >= v@[b],
            v@.to_multiset() == old(v)@.to_multiset(),
        decreases n - i,
    {
        let mut j = i;
        while j > 0 && v[j - 1] < v[j]
            invariant
                n == v@.len(),
                0 <= j <= i < n,
                forall|a: int, b: int| 0 <= a < b < j ==> v@[a] >= v@[b],
                forall|a: int, b: int| j <= a < b <= i ==> v@[a] >= v@[b],
                forall|a: int, b: int| 0 <= a < j < b <= i ==> v@[a] >= v@[b],
                v@.to_multiset() == old(v)@.to_multiset(),
            decreases j,
        {
            let x = v[j];
            let y = v[j - 1];
            let ghost s0 = v@;
            v.set(j - 1, x);
            v.set(j, y);
            proof {
                let s1 = s0.update(j - 1, x);
                vstd::seq_lib::to_multiset_update(s0, j - 1, x);
                vstd::seq_lib::to_multiset_update(s1, j as int, y);
                assert(s1.update(j as int, y) =~= v@);
                assert(s0[j - 1] == y);
                assert(s0.contains(y));
                vstd::seq_lib::to_multiset_contains(s0, y);
                assert(s0.to_multiset().insert(x).remove(y).insert(y).remove(x) =~= s0.to_multiset());
            }
            j -= 1;
        }
        i += 1;
    }
    proof {
        assert forall|a: int, b: int| 0 <= a < b < v@.len() implies #[trigger] (not_below())(v@[a], v@[b]) by {}
    }
}

/// The middle of `items` sorted from the largest down; `items` is left so
/// sorted.
pub fn mid(items: &mut Vec<u64>) -> (r: u64)
    requires
        old(items)@.len() >= 1,
    ensures
        final(items)@ == old(items)@.sort_by(not_below()),
        sorted_by(final(items)@, not_below()),
        final(items)@.to_multiset() == old(items)@.to_multiset(),
        r == final(items)@[(final(items)@.len() - 1) / 2],
        r == median_desc(old(items)@),
{
    broadcast use vstd::seq_lib::group_to_multiset_ensures;

    let ghost s = items@;
    sort_desc(items);
    proof {
        vstd::seq_lib::to_multiset_len(s);
        vstd::seq_lib::to_multiset_len(items@);
        lemma_not_below_total();
        s.lemma_sort_by_ensures(not_below());
        vstd::seq_lib::lemma_sorted_unique(items@, s.sort_by(not_below()), not_below());
    }
    let m = (items.len() - 1) / 2;
    items[m]
}

} // verus!
