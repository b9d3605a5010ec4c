use vstd::prelude::*;

use super::checker::{lemma_split_item, whole};
use super::complete::{calls_returned, ids_unique, returns_answer, well_formed};
use super::entries::{first_ret, is_call, lemma_first_ret, returns_for, Entry};
use super::history::{call_entry, entries_of, lemma_sort_multiset, lemma_sorted_entries, return_entry, sort_by_time, upper};
use super::model::{splits, Operation, Value};

verus! {

/// Every operation of the history returned after it was called.
pub open spec fn well_timed<I, O>(h: Seq<Operation<I, O>>) -> bool {
    forall|i: int| 0 <= i < h.len() ==> (#[trigger] h[i]).call < h[i].finish
}

/// The entries are in order of time.
#[verifier::opaque]
pub open spec fn sorted_by_time<T>(s: Seq<Entry<T>>) -> bool {
    forall|i: int, j: int| 0 <= i <= j < s.len() ==> (#[trigger] s[i]).time <= (#[trigger] s[j]).time
}

/// In entries in order of time, those before `upper` are not later than
/// `t`, and the others are.
proof fn lemma_upper_split<T>(s: Seq<Entry<T>>, t: i64)
    requires
        sorted_by_time(s),
    ensures
        0 <= upper(s, t) <= s.len(),
        forall|i: int| 0 <= i < upper(s, t) ==> (#[trigger] s[i]).time <= t,
        forall|i: int| upper(s, t) <= i < s.len() ==> (#[trigger] s[i]).time > t,
    decreases s.len(),
{
    reveal(sorted_by_time);
    if s.len() > 0 {
        if s.last().time <= t {
            assert forall|i: int| 0 <= i < s.len() implies (#[trigger] s[i]).time <= t by {
                assert(s[i].time <= s[s.len() - 1].time);
            }
        } else {
            let d = s.drop_last();
            assert(sorted_by_time(d)) by {
                assert forall|i: int, j: int| 0 <= i <= j < d.len() implies (#[trigger] d[i]).time <= (#[trigger] d[j]).time by {
                    assert(d[i] == s[i] && d[j] == s[j]);
                }
            }
            lemma_upper_split(d, t);
            assert forall|i: int| upper(s, t) <= i < s.len() implies (#[trigger] s[i]).time > t by {
                if i < s.len() - 1 {
                    assert(s[i] == d[i]);
                }
            }
            assert forall|i: int| 0 <= i < upper(s, t) implies (#[trigger] s[i]).time <= t by {
                assert(s[i] == d[i]);
            }
        }
    }
}

/// Sorting puts the entries in order of time.
proof fn lemma_sort_sorted<T>(s: Seq<Entry<T>>)
    ensures
        sorted_by_time(sort_by_time(s)),
    decreases s.len(),
{
    if s.len() == 0 {
        reveal(sorted_by_time);
    } else {
        lemma_sort_sorted(s.drop_last());
        let sorted = sort_by_time(s.drop_last());
        let t = s.last().time;
        lemma_upper_split(sorted, t);
        reveal(sorted_by_time);
        let u = upper(sorted, t);
        let r = sorted.insert(u, s.last());
        assert(r == sort_by_time(s));
        assert forall|i: int, j: int| 0 <= i <= j < r.len() implies (#[trigger] r[i]).time <= (#[trigger] r[j]).time by {
            if i < u && j < u {
                assert(r[i] == sorted[i] && r[j] == sorted[j]);
            } else if i < u && j == u {
                assert(r[i] == sorted[i]);
            } else if i < u {
                assert(r[i] == sorted[i] && r[j] == sorted[j - 1]);
            } else if i == u && j > u {
                assert(r[j] == sorted[j - 1]);
            } else if i > u {
                assert(r[i] == sorted[i - 1] && r[j] == sorted[j - 1]);
            }
        }
    }
}

/// The entries of a history: the call and the return of each operation,
/// each once, and no others.
proof fn lemma_entries_shape<I, O>(h: Seq<Operation<I, O>>)
    requires
        h.len() <= usize::MAX,
    ensures
        entries_of(h).len() == 2 * h.len(),
        forall|k: int| 0 <= k < h.len() ==> entries_of(h)[2 * k] == call_entry(k, h[k]) && entries_of(h)[2 * k + 1]
            == return_entry(k, h[k]),
        entries_of(h).no_duplicates(),
    decreases h.len(),
{
    if h.len() > 0 {
        let d = h.drop_last();
        lemma_entries_shape(d);
        let n = h.len() - 1;
        let prev = entries_of(d);
        let e = entries_of(h);
        assert(e == prev.push(call_entry(n, h.last())).push(return_entry(n, h.last())));
        assert forall|k: int| 0 <= k < h.len() implies e[2 * k] == call_entry(k, h[k]) && e[2 * k + 1] == return_entry(k, h[k]) by {
            if k < n {
                assert(d[k] == h[k]);
            }
        }
        assert forall|a: int, b: int| 0 <= a < e.len() && 0 <= b < e.len() && a != b implies e[a] != e[b] by {
            let ka = a / 2;
            let kb = b / 2;
            assert(a == 2 * ka + a % 2 && 0 <= ka < h.len()) by (nonlinear_arith)
                requires
                    0 <= a < 2 * h.len(),
                    ka == a / 2,
            ;
            assert(b == 2 * kb + b % 2 && 0 <= kb < h.len()) by (nonlinear_arith)
                requires
                    0 <= b < 2 * h.len(),
                    kb == b / 2,
            ;
            assert(e[2 * ka] == call_entry(ka, h[ka]) && e[2 * ka + 1] == return_entry(ka, h[ka]));
            assert(e[2 * kb] == call_entry(kb, h[kb]) && e[2 * kb + 1] == return_entry(kb, h[kb]));
            assert(e[a].id == ka as usize);
            assert(e[b].id == kb as usize);
        }
    }
}

/// Each entry is the call or the return of an operation of `h`, with the
/// operation's position as its id.
#[verifier::opaque]
pub open spec fn entries_are_ops<I, O>(h: Seq<Operation<I, O>>, s: Seq<Entry<Value<I, O>>>) -> bool {
    forall|j: int| 0 <= j < s.len() ==> {
        let k = (#[trigger] s[j]).id as int;
        &&& 0 <= k < h.len()
        &&& s[j] == call_entry(k, h[k]) || s[j] == return_entry(k, h[k])
    }
}

/// The call and the return of each operation of `h` are there.
#[verifier::opaque]
pub open spec fn ops_are_entries<I, O>(h: Seq<Operation<I, O>>, s: Seq<Entry<Value<I, O>>>) -> bool {
    &&& forall|k: int| #![trigger h[k]] 0 <= k < h.len() ==> exists|j: int| 0 <= j < s.len() && #[trigger] s[j] == call_entry(k, h[k])
    &&& forall|k: int| #![trigger h[k]] 0 <= k < h.len() ==> exists|j: int| 0 <= j < s.len() && #[trigger] s[j] == return_entry(k, h[k])
}

/// No entry occurs twice.
#[verifier::opaque]
pub open spec fn once_each<T>(s: Seq<Entry<T>>) -> bool {
    s.no_duplicates()
}

/// What the sorted entries of a well-timed history hold.
pub open spec fn shaped<I, O>(h: Seq<Operation<I, O>>, s: Seq<Entry<Value<I, O>>>) -> bool {
    &&& once_each(s)
    &&& sorted_by_time(s)
    &&& entries_are_ops(h, s)
    &&& ops_are_entries(h, s)
}

proof fn lemma_shaped<I, O>(h: Seq<Operation<I, O>>)
    requires
        h.len() <= usize::MAX,
    ensures
        shaped(h, sort_by_time(entries_of(h))),
{
    let e = entries_of(h);
    let s = sort_by_time(e);
    lemma_entries_shape(h);
    lemma_sort_sorted(e);
    lemma_sort_multiset(e);
    assert(once_each(s)) by {
        reveal(once_each);
        e.lemma_multiset_has_no_duplicates();
        s.lemma_multiset_has_no_duplicates_conv();
    }
    assert(entries_are_ops(h, s)) by {
        reveal(entries_are_ops);
        assert forall|j: int| 0 <= j < s.len() implies {
            let k = (#[trigger] s[j]).id as int;
            &&& 0 <= k < h.len()
            &&& s[j] == call_entry(k, h[k]) || s[j] == return_entry(k, h[k])
        } by {
            lemma_in_sorted(e, s, j);
            let i = choose|i: int| 0 <= i < e.len() && e[i] == s[j];
            let k = i / 2;
            assert(i == 2 * k + i % 2 && 0 <= k < h.len()) by (nonlinear_arith)
                requires
                    0 <= i < 2 * h.len(),
                    k == i / 2,
            ;
            assert(e[2 * k] == call_entry(k, h[k]) && e[2 * k + 1] == return_entry(k, h[k]));
        }
    }
    assert(ops_are_entries(h, s)) by {
        reveal(ops_are_entries);
        assert forall|k: int| #![trigger h[k]] 0 <= k < h.len() implies exists|j: int| 0 <= j < s.len() && #[trigger] s[j] == call_entry(k, h[k]) by {
            assert(e[2 * k] == call_entry(k, h[k]));
            lemma_in_unsorted(e, s, 2 * k);
        }
        assert forall|k: int| #![trigger h[k]] 0 <= k < h.len() implies exists|j: int| 0 <= j < s.len() && #[trigger] s[j] == return_entry(k, h[k]) by {
            assert(e[2 * k + 1] == return_entry(k, h[k]));
            lemma_in_unsorted(e, s, 2 * k + 1);
        }
    }
}

/// An entry of the sorted entries is an entry of the history.
proof fn lemma_in_sorted<T>(e: Seq<Entry<T>>, s: Seq<Entry<T>>, j: int)
    requires
        s.to_multiset() == e.to_multiset(),
        0 <= j < s.len(),
    ensures
        exists|i: int| 0 <= i < e.len() && e[i] == s[j],
{
    broadcast use vstd::seq_lib::group_to_multiset_ensures;

    assert(s.to_multiset().count(s[j]) > 0);
    assert(e.contains(s[j]));
}

/// An entry of the history is an entry of the sorted entries.
proof fn lemma_in_unsorted<T>(e: Seq<Entry<T>>, s: Seq<Entry<T>>, i: int)
    requires
        s.to_multiset() == e.to_multiset(),
        0 <= i < e.len(),
    ensures
        exists|j: int| 0 <= j < s.len() && #[trigger] s[j] == e[i],
{
    broadcast use vstd::seq_lib::group_to_multiset_ensures;

    assert(e.to_multiset().count(e[i]) > 0);
    assert(s.contains(e[i]));
}

proof fn lemma_entry_at<I, O>(h: Seq<Operation<I, O>>, s: Seq<Entry<Value<I, O>>>, j: int)
    requires
        entries_are_ops(h, s),
        0 <= j < s.len(),
    ensures
        0 <= s[j].id < h.len(),
        s[j] == call_entry(s[j].id as int, h[s[j].id as int]) || s[j] == return_entry(s[j].id as int, h[s[j].id as int]),
{
    reveal(entries_are_ops);
}

proof fn lemma_call_at<I, O>(h: Seq<Operation<I, O>>, s: Seq<Entry<Value<I, O>>>, k: int) -> (p: int)
    requires
        ops_are_entries(h, s),
        0 <= k < h.len(),
    ensures
        0 <= p < s.len(),
        s[p] == call_entry(k, h[k]),
{
    reveal(ops_are_entries);
    assert(exists|j: int| 0 <= j < s.len() && #[trigger] s[j] == call_entry(k, h[k]));
    choose|j: int| 0 <= j < s.len() && #[trigger] s[j] == call_entry(k, h[k])
}

proof fn lemma_return_at<I, O>(h: Seq<Operation<I, O>>, s: Seq<Entry<Value<I, O>>>, k: int) -> (q: int)
    requires
        ops_are_entries(h, s),
        0 <= k < h.len(),
    ensures
        0 <= q < s.len(),
        s[q] == return_entry(k, h[k]),
{
    reveal(ops_are_entries);
    assert(exists|j: int| 0 <= j < s.len() && #[trigger] s[j] == return_entry(k, h[k]));
    choose|j: int| 0 <= j < s.len() && #[trigger] s[j] == return_entry(k, h[k])
}

proof fn lemma_distinct_at<T>(s: Seq<Entry<T>>, a: int, b: int)
    requires
        once_each(s),
        0 <= a < s.len(),
        0 <= b < s.len(),
        s[a] == s[b],
    ensures
        a == b,
{
    reveal(once_each);
}

proof fn lemma_time_order<T>(s: Seq<Entry<T>>, a: int, b: int)
    requires
        sorted_by_time(s),
        0 <= a <= b < s.len(),
    ensures
        s[a].time <= s[b].time,
{
    reveal(sorted_by_time);
}

/// The first return after the call of an operation is its return.
proof fn lemma_return_follows<I, O>(h: Seq<Operation<I, O>>, s: Seq<Entry<Value<I, O>>>, p: int) -> (q: int)
    requires
        well_timed(h),
        shaped(h, s),
        0 <= p < s.len(),
        is_call(s[p]),
    ensures
        0 <= q < s.len(),
        s[q] == return_entry(s[p].id as int, h[s[p].id as int]),
        p < q,
        first_ret(s, p) == Some(q),
{
    lemma_entry_at(h, s, p);
    let k = s[p].id as int;
    assert(s[p] == call_entry(k, h[k]));
    let q = lemma_return_at(h, s, k);
    if q <= p {
        lemma_time_order(s, q, p);
        assert(h[k].call < h[k].finish);
    }
    assert(returns_for(s, p, q));
    assert forall|x: int| p < x < q implies !returns_for(s, p, x) by {
        if returns_for(s, p, x) {
            lemma_entry_at(h, s, x);
            assert(s[x] == s[q]);
            lemma_distinct_at(s, x, q);
        }
    }
    lemma_first_ret(s, p, q);
    q
}

/// Entries in order of time with the call and the return of each operation
/// of a well-timed history, each once and no others, are whole.
pub proof fn lemma_well_timed_whole<I, O>(h: Seq<Operation<I, O>>)
    requires
        well_timed(h),
        h.len() <= usize::MAX,
    ensures
        well_formed(sort_by_time(entries_of(h))),
{
    let s = sort_by_time(entries_of(h));
    lemma_shaped(h);
    assert(calls_returned(s)) by {
        reveal(calls_returned);
        assert forall|p: int| 0 <= p < s.len() && is_call(#[trigger] s[p]) implies first_ret(s, p) is Some by {
            lemma_return_follows(h, s, p);
        }
    }
    assert(returns_answer(s)) by {
        reveal(returns_answer);
        assert forall|j: int| 0 <= j < s.len() && !is_call(#[trigger] s[j]) implies exists|p: int|
            0 <= p < s.len() && is_call(s[p]) && first_ret(s, p) == Some(j) by {
            lemma_entry_at(h, s, j);
            let k = s[j].id as int;
            let p = lemma_call_at(h, s, k);
            let q = lemma_return_follows(h, s, p);
            lemma_distinct_at(s, q, j);
        }
    }
    assert(ids_unique(s)) by {
        reveal(ids_unique);
        assert forall|p: int, j: int| 0 <= p < s.len() && 0 <= j < s.len() && is_call(#[trigger] s[p])
            && #[trigger] s[j].id == s[p].id implies j == p || first_ret(s, p) == Some(j) by {
            lemma_entry_at(h, s, p);
            lemma_entry_at(h, s, j);
            if is_call(s[j]) {
                lemma_distinct_at(s, j, p);
            } else {
                let q = lemma_return_follows(h, s, p);
                lemma_distinct_at(s, q, j);
            }
        }
    }
}

/// Each part of a split of a well-timed history is well timed, and, of a
/// history of at most `usize::MAX / 4` operations, made of whole operations.
pub proof fn lemma_parts_whole<I, O>(h: Seq<Operation<I, O>>, parts: Seq<Seq<Operation<I, O>>>, j: int)
    requires
        well_timed(h),
        h.len() <= usize::MAX / 4,
        splits(h, parts),
        0 <= j < parts.len(),
    ensures
        whole(sort_by_time(entries_of(parts[j]))),
{
    broadcast use vstd::seq_lib::group_to_multiset_ensures;

    let p = parts[j];
    assert forall|i: int| 0 <= i < p.len() implies (#[trigger] p[i]).call < p[i].finish by {
        lemma_split_item(h, parts, j, i);
        let k = choose|k: int| 0 <= k < h.len() && h[k] == p[i];
        assert(h[k].call < h[k].finish);
    }
    parts.lemma_flatten_length_ge_single_element_length(j);
    parts.lemma_flatten_and_flatten_alt_are_equivalent();
    assert(parts.flatten().to_multiset().len() == h.to_multiset().len());
    assert(p.len() <= h.len());
    lemma_well_timed_whole(p);
    lemma_sorted_entries(p);
}

} // verus!
