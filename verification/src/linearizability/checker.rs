use std::collections::HashMap;
use std::sync::atomic::AtomicBool;
use vstd::prelude::*;

use super::bitset::{lemma_popcount_bound, popcount, xor_fold, Bitset};
use super::timing::{lemma_parts_whole, well_timed};
use super::complete::{
    calls_returned, closed_under_calls, completable, completion, dead_below, exact, first_facts, grows, lawful,
    lemma_after_child, lemma_empty_completion, lemma_equal_cached, lemma_first_step, lemma_grows_trans,
    lemma_present_closed, lemma_present_of_empty, lemma_present_of_set, lemma_push, lemma_root, lemma_take_first,
    lemma_transfer, present_of, remaining, well_formed,
};
use super::entries::{as_int, first_ret, is_call, lemma_first_ret_props, match_returns, values_match, Entry};
use super::history::{convert_entries, entries_of, entry_of_event, ids_of, lemma_sorted_entries, make_entries, renumber, renumbering, sort_by_time};
use super::model::{events_paired, splits, views, Event, EventKind, Events, Model, Operation, Operations, Value};

verus! {

broadcast use vstd::std_specs::hash::group_hash_axioms;

/// Whether entry `j` starts an operation that is later returned.
pub open spec fn call_like<T>(e: Seq<Entry<T>>, j: int) -> bool {
    0 <= j < e.len() && is_call(e[j]) && first_ret(e, j) is Some
}

/// The position of the return of the call at `p`.
pub open spec fn ret<T>(e: Seq<Entry<T>>, p: int) -> int {
    first_ret(e, p)->0
}

/// Entry `j` belongs to one of the first `k` operations of `order`.
pub open spec fn lifted_before<T>(e: Seq<Entry<T>>, order: Seq<int>, k: int, j: int) -> bool {
    exists|k2: int| 0 <= k2 < k && (j == order[k2] || j == ret(e, order[k2]))
}

/// The input of the call at `p`.
pub open spec fn input_at<I, O>(e: Seq<Entry<Value<I, O>>>, p: int) -> I {
    e[p].value->Input_0
}

/// The output of the return of the call at `p`.
pub open spec fn output_at<I, O>(e: Seq<Entry<Value<I, O>>>, p: int) -> O {
    e[ret(e, p)].value->Output_0
}

/// The operations `order` (call positions), taken in turn from the initial
/// state through `states`, are each a valid step of the model.
#[verifier::opaque]
pub open spec fn valid_trace<M: Model>(model: M, e: Seq<Entry<Value<M::Input, M::Output>>>, order: Seq<int>, states: Seq<M::State>) -> bool {
    &&& states.len() == order.len() + 1
    &&& model.init_spec(states[0])
    &&& forall|k: int| 0 <= k < order.len() ==> call_like(e, #[trigger] order[k])
    &&& forall|a: int, b: int| 0 <= a < order.len() && 0 <= b < order.len() && a != b ==> order[a] != order[b] && ret(e, order[a]) != ret(e, order[b])
    &&& forall|k: int| 0 <= k < order.len() ==> model.steps_to(states[k], input_at(e, #[trigger] order[k]), output_at(e, order[k]), states[k + 1])
}

/// When each operation of `order` was taken, all entries before its call were
/// calls or belonged to earlier operations.
pub open spec fn taken_in_order<T>(e: Seq<Entry<T>>, order: Seq<int>) -> bool {
    forall|k: int, j: int| 0 <= k < order.len() && 0 <= j < order[k] ==> call_like(e, j) || #[trigger] lifted_before(e, order, k, j)
}

/// A prefix of a linearization.
pub open spec fn partial_linearization<M: Model>(model: M, e: Seq<Entry<Value<M::Input, M::Output>>>, order: Seq<int>, states: Seq<M::State>) -> bool {
    &&& valid_trace(model, e, order, states)
    &&& taken_in_order(e, order)
}

/// `order` linearizes the history `e`: it takes every operation once, as a
/// valid sequence of steps of the model, and an operation that returned
/// before another was called comes first.
pub open spec fn linearization<M: Model>(model: M, e: Seq<Entry<Value<M::Input, M::Output>>>, order: Seq<int>, states: Seq<M::State>) -> bool {
    &&& valid_trace(model, e, order, states)
    &&& forall|j: int| 0 <= j < e.len() ==> #[trigger] lifted_before(e, order, order.len() as int, j)
    &&& forall|a: int, b: int| 0 <= a < order.len() && 0 <= b < order.len() && ret(e, order[a]) < order[b] ==> a < b
}

/// The history `e` is linearizable with respect to `model`.
pub open spec fn linearizable<M: Model>(model: M, e: Seq<Entry<Value<M::Input, M::Output>>>) -> bool {
    exists|order: Seq<int>, states: Seq<M::State>| linearization(model, e, order, states)
}

/// Number of `true` flags.
pub open spec fn count_true(s: Seq<bool>) -> nat
    decreases s.len(),
{
    if s.len() == 0 {
        0
    } else {
        count_true(s.drop_last()) + if s.last() { 1nat } else { 0nat }
    }
}

pub proof fn lemma_count_clear(s: Seq<bool>, i: int)
    requires
        0 <= i < s.len(),
        s[i],
    ensures
        count_true(s.update(i, false)) + 1 == count_true(s),
    decreases s.len(),
{
    if i == s.len() - 1 {
        assert(s.update(i, false).drop_last() =~= s.drop_last());
    } else {
        lemma_count_clear(s.drop_last(), i);
        assert(s.update(i, false).drop_last() =~= s.drop_last().update(i, false));
    }
}

/// A partial linearization that takes every entry is a linearization.
proof fn lemma_complete<M: Model>(model: M, e: Seq<Entry<Value<M::Input, M::Output>>>, order: Seq<int>, states: Seq<M::State>)
    requires
        partial_linearization(model, e, order, states),
        forall|j: int| 0 <= j < e.len() ==> #[trigger] lifted_before(e, order, order.len() as int, j),
    ensures
        linearization(model, e, order, states),
{
    reveal(valid_trace);
    assert forall|a: int, b: int| 0 <= a < order.len() && 0 <= b < order.len() && ret(e, order[a]) < order[b] implies a < b by {
        let j = ret(e, order[a]);
        assert(call_like(e, order[a]));
        lemma_first_ret_props(e, order[a]);
        if a >= b {
            assert(!call_like(e, j));
            assert(lifted_before(e, order, b, j));
            let k2 = choose|k2: int| 0 <= k2 < b && (j == order[k2] || j == ret(e, order[k2]));
            assert(call_like(e, order[k2]));
            assert(k2 != a);
        }
    }
}

/// A cached search state: the operations taken and the state they lead to.
pub struct CacheEntry<T> {
    pub linearized: Bitset,
    pub state: T,
}

/// The search states cached under hash `h`.
pub open spec fn bucket<T>(cache: Map<u64, Vec<CacheEntry<T>>>, h: u64) -> Seq<CacheEntry<T>> {
    if cache.contains_key(h) {
        cache[h]@
    } else {
        Seq::empty()
    }
}

/// The hash of the set of operations taken.
pub open spec fn hash_of(b: Bitset) -> u64 {
    xor_fold(popcount(b.0@) as u64, b.0@)
}

/// Whether the cache holds a search state with the same operations taken and
/// an equal state.
pub fn cache_contains<M: Model>(model: &M, cache: &HashMap<u64, Vec<CacheEntry<M::State>>>, entry: &CacheEntry<M::State>) -> (r: bool)
    requires
        entry.linearized.capacity() <= usize::MAX,
    ensures
        r == exists|i: int| 0 <= i < bucket(cache@, hash_of(entry.linearized)).len() && {
            let c = #[trigger] bucket(cache@, hash_of(entry.linearized))[i];
            c.linearized.0@ == entry.linearized.0@ && model.equal_spec(entry.state, c.state)
        },
{
    proof {
        lemma_popcount_bound(entry.linearized.0@);
    }
    let h = entry.linearized.hash();
    match cache.get(&h) {
        Some(elems) => {
            let mut i: usize = 0;
            while i < elems.len()
                invariant
                    elems@ == bucket(cache@, h),
                    h == hash_of(entry.linearized),
                    i <= elems@.len(),
                    forall|j: int| 0 <= j < i ==> !(elems@[j].linearized.0@ == entry.linearized.0@ && model.equal_spec(entry.state, elems@[j].state)),
                decreases elems@.len() - i,
            {
                let elem = &elems[i];
                if entry.linearized.equals(&elem.linearized) && model.equal(&entry.state, &elem.state) {
                    return true;
                }
                i = i + 1;
            }
            false
        },
        None => false,
    }
}

/// Whether the search was asked to stop.
fn killed(kill: &AtomicBool) -> bool {
    kill.load(std::sync::atomic::Ordering::SeqCst)
}

proof fn lemma_order_extend<T>(e: Seq<Entry<T>>, order: Seq<int>, before: Seq<bool>, pos: int, r: int)
    requires
        taken_in_order(e, order),
        before.len() == e.len(),
        forall|j: int| 0 <= j < e.len() ==> before[j] == !lifted_before(e, order, order.len() as int, j),
        0 <= pos < e.len(),
        ret(e, pos) == r,
        forall|j: int| 0 <= j < pos && #[trigger] before[j] ==> call_like(e, j),
    ensures
        taken_in_order(e, order.push(pos)),
{
    let order2 = order.push(pos);
    let m = order.len() as int;
    lemma_lifted_extend(e, order, pos, r);
    assert forall|k: int, j: int| 0 <= k < order2.len() && 0 <= j < order2[k] implies call_like(e, j) || #[trigger] lifted_before(e, order2, k, j) by {
        if k < m {
            assert(order2[k] == order[k]);
            assert(call_like(e, j) || lifted_before(e, order, k, j));
            assert(lifted_before(e, order2, k, j) == lifted_before(e, order, k, j));
        } else {
            assert(k == m);
            assert(order2[k] == pos);
            assert(j < pos);
            if !call_like(e, j) {
                assert(!before[j]);
                assert(lifted_before(e, order, m, j));
                assert(lifted_before(e, order2, m, j) == lifted_before(e, order, m, j));
            }
        }
    }
}

/// Taking the operation called at `pos`, whose return is at `r`, extends a
/// partial linearization when every entry before `pos` still untaken is a call.
proof fn lemma_lifted_extend<T>(e: Seq<Entry<T>>, order: Seq<int>, pos: int, r: int)
    requires
        ret(e, pos) == r,
    ensures
        forall|k: int, j: int| 0 <= k <= order.len() ==> #[trigger] lifted_before(e, order.push(pos), k, j) == lifted_before(e, order, k, j),
        forall|j: int| 0 <= j < e.len() ==> #[trigger] lifted_before(e, order.push(pos), order.len() + 1int, j) == (lifted_before(e, order, order.len() as int, j) || j == pos || j == r),
{
    let order2 = order.push(pos);
    let m = order.len() as int;
    assert forall|k: int, j: int| 0 <= k <= m implies #[trigger] lifted_before(e, order2, k, j) == lifted_before(e, order, k, j) by {
        if lifted_before(e, order, k, j) {
            let k2 = choose|k2: int| 0 <= k2 < k && (j == order[k2] || j == ret(e, order[k2]));
            assert(order2[k2] == order[k2]);
        }
        if lifted_before(e, order2, k, j) {
            let k2 = choose|k2: int| 0 <= k2 < k && (j == order2[k2] || j == ret(e, order2[k2]));
            assert(order2[k2] == order[k2]);
        }
    }
    assert forall|j: int| 0 <= j < e.len() implies #[trigger] lifted_before(e, order2, m + 1, j) == (lifted_before(e, order, m, j) || j == pos || j == r) by {
        if lifted_before(e, order, m, j) {
            let k2 = choose|k2: int| 0 <= k2 < m && (j == order[k2] || j == ret(e, order[k2]));
            assert(order2[k2] == order[k2]);
        }
        if lifted_before(e, order2, m + 1, j) {
            let k2 = choose|k2: int| 0 <= k2 < m + 1 && (j == order2[k2] || j == ret(e, order2[k2]));
            if k2 < m {
                assert(order2[k2] == order[k2]);
            }
        }
        if j == pos || j == r {
            assert(order2[m] == pos);
        }
    }
}

proof fn lemma_trace_extend<M: Model>(
    model: M,
    e: Seq<Entry<Value<M::Input, M::Output>>>,
    order: Seq<int>,
    states: Seq<M::State>,
    pos: int,
    ns: M::State,
)
    requires
        valid_trace(model, e, order, states),
        call_like(e, pos),
        forall|a: int| 0 <= a < order.len() ==> order[a] != pos && ret(e, order[a]) != ret(e, pos),
        model.steps_to(states[order.len() as int], input_at(e, pos), output_at(e, pos), ns),
    ensures
        valid_trace(model, e, order.push(pos), states.push(ns)),
{
    reveal(valid_trace);
    let order2 = order.push(pos);
    let states2 = states.push(ns);
    let m = order.len() as int;
    assert forall|k: int| 0 <= k < order2.len() implies call_like(e, #[trigger] order2[k]) by {
        if k < m {
            assert(order2[k] == order[k]);
        }
    }
    assert forall|a: int, b: int| 0 <= a < order2.len() && 0 <= b < order2.len() && a != b implies order2[a] != order2[b] && ret(e, order2[a]) != ret(e, order2[b]) by {
        if a < m && b < m {
            assert(order2[a] == order[a] && order2[b] == order[b]);
        }
        if a < m && b == m {
            assert(order2[a] == order[a]);
        }
        if b < m && a == m {
            assert(order2[b] == order[b]);
        }
    }
    assert forall|k: int| 0 <= k < order2.len() implies model.steps_to(states2[k], input_at(e, #[trigger] order2[k]), output_at(e, order2[k]), states2[k + 1]) by {
        if k < m {
            assert(order2[k] == order[k]);
        }
    }
}

/// Taking the operation called at `pos`, whose return is at `r`, extends a
/// partial linearization when every entry before `pos` still untaken is a call.
proof fn lemma_take<M: Model>(
    model: M,
    e: Seq<Entry<Value<M::Input, M::Output>>>,
    order: Seq<int>,
    states: Seq<M::State>,
    before: Seq<bool>,
    pos: int,
    r: int,
    ns: M::State,
)
    requires
        partial_linearization(model, e, order, states),
        before.len() == e.len(),
        forall|j: int| 0 <= j < e.len() ==> before[j] == !lifted_before(e, order, order.len() as int, j),
        0 <= pos < r < e.len(),
        before[pos],
        before[r],
        call_like(e, pos),
        ret(e, pos) == r,
        !is_call(e[r]),
        forall|j: int| 0 <= j < pos && #[trigger] before[j] ==> call_like(e, j),
        model.steps_to(states[order.len() as int], input_at(e, pos), output_at(e, pos), ns),
    ensures
        partial_linearization(model, e, order.push(pos), states.push(ns)),
        forall|j: int| 0 <= j < e.len() ==> before.update(pos, false).update(r, false)[j] == !lifted_before(e, order.push(pos), order.len() + 1int, j),
        count_true(before.update(pos, false).update(r, false)) < count_true(before),
{
    let order2 = order.push(pos);
    let m = order.len() as int;
    let after = before.update(pos, false).update(r, false);
    lemma_count_clear(before, pos);
    lemma_count_clear(before.update(pos, false), r);
    lemma_lifted_extend(e, order, pos, r);
    assert forall|a: int| 0 <= a < m implies order[a] != pos && ret(e, order[a]) != ret(e, pos) by {
        assert(lifted_before(e, order, m, order[a]));
        assert(lifted_before(e, order, m, ret(e, order[a])));
    }
    lemma_trace_extend(model, e, order, states, pos, ns);
    lemma_order_extend(e, order, before, pos, r);
    assert forall|j: int| 0 <= j < e.len() implies after[j] == !lifted_before(e, order2, m + 1, j) by {
        assert(lifted_before(e, order2, m + 1, j) == (lifted_before(e, order, m, j) || j == pos || j == r));
    }
}

/// When the scan finds no untaken entry left, the partial linearization is a
/// linearization.
proof fn lemma_search_done<M: Model>(model: M, e: Seq<Entry<Value<M::Input, M::Output>>>, order: Seq<int>, states: Seq<M::State>, present: Seq<bool>)
    requires
        partial_linearization(model, e, order, states),
        present.len() == e.len(),
        forall|j: int| 0 <= j < e.len() ==> present[j] == !lifted_before(e, order, order.len() as int, j),
        forall|j: int| 0 <= j < e.len() && #[trigger] present[j] ==> call_like(e, j) && present[ret(e, j)],
    ensures
        linearizable(model, e),
{
    let m = order.len() as int;
    assert forall|j: int| 0 <= j < e.len() implies #[trigger] lifted_before(e, order, m, j) by {
        if present[j] {
            let q = ret(e, j);
            lemma_first_ret_props(e, j);
            assert(present[q]);
            assert(!is_call(e[q]));
        }
    }
    lemma_complete(model, e, order, states);
}

/// Depth-first search for a linearization of `e` that extends `order`:
/// `present` marks the entries of the operations not taken yet, and
/// `linearized` the ids of those taken. The cache holds the search states
/// already reached; a search that `kill` can stop answers `false` once
/// stopped. A search that cannot be stopped, of a history of whole
/// operations with a lawful model, answers `false` only when no
/// linearization extends `order`, and leaves every cached state with fewer
/// entries left than its own dead.
#[verifier::rlimit(80)]
#[verifier::spinoff_prover]
fn search<M: Model>(
    model: &M,
    e: &Vec<Entry<Value<M::Input, M::Output>>>,
    ret_of: &Vec<Option<usize>>,
    present: &mut Vec<bool>,
    linearized: &mut Bitset,
    cache: &mut HashMap<u64, Vec<CacheEntry<M::State>>>,
    kill: Option<&AtomicBool>,
    state: M::State,
    Ghost(order): Ghost<Seq<int>>,
    Ghost(states): Ghost<Seq<M::State>>,
) -> (r: bool)
    requires
        values_match(e@),
        ret_of@.len() == e@.len(),
        forall|p: int| 0 <= p < e@.len() ==> as_int(#[trigger] ret_of@[p]) == if is_call(e@[p]) { first_ret(e@, p) } else { None },
        forall|j: int| 0 <= j < e@.len() ==> (#[trigger] e@[j].id) < old(linearized).capacity(),
        old(linearized).capacity() <= usize::MAX,
        old(present)@.len() == e@.len(),
        partial_linearization(*model, e@, order, states),
        states.len() == order.len() + 1,
        states[order.len() as int] == state,
        forall|j: int| 0 <= j < e@.len() ==> old(present)@[j] == !lifted_before(e@, order, order.len() as int, j),
        exact(*model, e@, kill is Some) ==> present_of(e@, *old(linearized)) == old(present)@,
        exact(*model, e@, kill is Some) ==> dead_below(*model, e@, old(cache)@, count_true(old(present)@)),
    ensures
        r ==> linearizable(*model, e@),
        e@.len() == 0 ==> r,
        !r ==> final(present)@ == old(present)@,
        final(linearized).0@.len() == old(linearized).0@.len(),
        exact(*model, e@, kill is Some) && !r ==> forall|x: int| 0 <= x < old(linearized).capacity() ==> final(linearized).has(x) == old(linearized).has(x),
        exact(*model, e@, kill is Some) ==> grows(e@, old(cache)@, final(cache)@, count_true(old(present)@)),
        exact(*model, e@, kill is Some) && !r ==> !completable(*model, e@, old(present)@, state)
            && dead_below(*model, e@, final(cache)@, count_true(old(present)@)),
    decreases count_true(old(present)@), 1nat,
{
    let ghost ex = exact(*model, e@, kill is Some);
    let ghost p0 = old(present)@;
    let ghost cur = count_true(p0);
    let ghost ok = ex && completable(*model, e@, p0, state);
    let ghost wit: (Seq<int>, Seq<M::State>) = if ok {
        choose|rest: Seq<int>, sts: Seq<M::State>| completion(*model, e@, p0, state, rest, sts)
    } else {
        (Seq::empty(), Seq::empty())
    };
    proof {
        if ex {
            lemma_present_closed(*model, e@, order, states, p0);
        }
        if ok {
            if wit.0.len() > 0 {
                lemma_first_step(*model, e@, p0, state, wit.0, wit.1);
            } else {
                lemma_empty_completion(*model, e@, p0, state, wit.0, wit.1);
            }
        }
    }
    let len = e.len();
    let mut pos: usize = 0;
    while pos < len
        invariant
            len == e@.len(),
            pos <= len,
            present@ == old(present)@,
            p0 == old(present)@,
            cur == count_true(p0),
            old(present)@.len() == e@.len(),
            linearized.0@.len() == old(linearized).0@.len(),
            ex ==> forall|x: int| 0 <= x < old(linearized).capacity() ==> linearized.has(x) == old(linearized).has(x),
            values_match(e@),
            ret_of@.len() == e@.len(),
            forall|p: int| 0 <= p < e@.len() ==> as_int(#[trigger] ret_of@[p]) == if is_call(e@[p]) { first_ret(e@, p) } else { None },
            forall|j: int| 0 <= j < e@.len() ==> (#[trigger] e@[j].id) < old(linearized).capacity(),
            old(linearized).capacity() <= usize::MAX,
            partial_linearization(*model, e@, order, states),
            states.len() == order.len() + 1,
            states[order.len() as int] == state,
            forall|j: int| 0 <= j < e@.len() ==> old(present)@[j] == !lifted_before(e@, order, order.len() as int, j),
            forall|j: int| 0 <= j < pos && #[trigger] present@[j] ==> call_like(e@, j) && present@[ret(e@, j)],
            ex == exact(*model, e@, kill is Some),
            ex ==> present_of(e@, *linearized) == p0,
            ex ==> grows(e@, old(cache)@, cache@, cur),
            ex ==> dead_below(*model, e@, cache@, cur),
            ex ==> well_formed(e@) && lawful(*model),
            ex ==> closed_under_calls(e@, p0),
            ex ==> forall|p: int| 0 <= p < e@.len() && #[trigger] p0[p] && is_call(e@[p]) ==> p0[ret(e@, p)] && 0 <= ret(e@, p) < e@.len(),
            ok == (ex && completable(*model, e@, p0, state)),
            ok && wit.0.len() > 0 ==> pos <= wit.0[0] && first_facts(*model, e@, p0, state, wit.0, wit.1),
            ok && wit.0.len() == 0 ==> forall|j: int| 0 <= j < e@.len() ==> !p0[j],
        decreases len - pos,
    {
        if let Some(k) = kill {
            if killed(k) {
                return false;
            }
        }
        if !present[pos] {
            pos = pos + 1;
            continue;
        }
        if !matches!(e[pos].kind, super::entries::EntryKind::CallEntry) {
            return false;
        }
        let r = match ret_of[pos] {
            Some(r) => r,
            None => {
                proof {
                    if ex {
                        reveal(calls_returned);
                    }
                }
                return false;
            },
        };
        proof {
            lemma_first_ret_props(e@, pos as int);
            assert(ret(e@, pos as int) == r as int);
            assert(!is_call(e@[r as int]));
        }
        if !present[r] {
            return false;
        }
        let found = take(model, e, ret_of, present, linearized, cache, kill, &state, pos, r, Ghost(order), Ghost(states));
        if found {
            return true;
        }
        proof {
            if ok && pos == wit.0[0] {
                assert(exists|t: M::State| model.steps_to(state, input_at(e@, pos as int), output_at(e@, pos as int), t)
                    && completable(*model, e@, p0.update(pos as int, false).update(r as int, false), t)) by {
                    lemma_take_first(*model, e@, p0, state, wit.0, wit.1, wit.1[1]);
                }
            }
        }
        pos = pos + 1;
    }
    proof {
        lemma_search_done(*model, e@, order, states, present@);
    }
    true
}

/// Takes the operation called at `pos`, whose return is at `r`, if the
/// model can step with it and the search state it reaches is not cached,
/// and searches on from there; `true` when a linearization was found. A
/// search that cannot be stopped, of a history of whole operations with a
/// lawful model, finds one whenever one extends the order with this
/// operation.
fn take<M: Model>(
    model: &M,
    e: &Vec<Entry<Value<M::Input, M::Output>>>,
    ret_of: &Vec<Option<usize>>,
    present: &mut Vec<bool>,
    linearized: &mut Bitset,
    cache: &mut HashMap<u64, Vec<CacheEntry<M::State>>>,
    kill: Option<&AtomicBool>,
    state: &M::State,
    pos: usize,
    r: usize,
    Ghost(order): Ghost<Seq<int>>,
    Ghost(states): Ghost<Seq<M::State>>,
) -> (found: bool)
    requires
        values_match(e@),
        ret_of@.len() == e@.len(),
        forall|p: int| 0 <= p < e@.len() ==> as_int(#[trigger] ret_of@[p]) == if is_call(e@[p]) { first_ret(e@, p) } else { None },
        forall|j: int| 0 <= j < e@.len() ==> (#[trigger] e@[j].id) < old(linearized).capacity(),
        old(linearized).capacity() <= usize::MAX,
        old(present)@.len() == e@.len(),
        partial_linearization(*model, e@, order, states),
        states.len() == order.len() + 1,
        states[order.len() as int] == *state,
        forall|j: int| 0 <= j < e@.len() ==> old(present)@[j] == !lifted_before(e@, order, order.len() as int, j),
        0 <= pos < r < e@.len(),
        old(present)@[pos as int],
        old(present)@[r as int],
        call_like(e@, pos as int),
        ret(e@, pos as int) == r,
        !is_call(e@[r as int]),
        forall|j: int| 0 <= j < pos && #[trigger] old(present)@[j] ==> call_like(e@, j),
        exact(*model, e@, kill is Some) ==> present_of(e@, *old(linearized)) == old(present)@,
        exact(*model, e@, kill is Some) ==> dead_below(*model, e@, old(cache)@, count_true(old(present)@)),
    ensures
        found ==> linearizable(*model, e@),
        !found ==> final(present)@ == old(present)@,
        final(linearized).0@.len() == old(linearized).0@.len(),
        exact(*model, e@, kill is Some) && !found ==> forall|x: int| 0 <= x < old(linearized).capacity() ==> final(linearized).has(x) == old(linearized).has(x),
        exact(*model, e@, kill is Some) ==> grows(e@, old(cache)@, final(cache)@, count_true(old(present)@)),
        exact(*model, e@, kill is Some) && !found ==> dead_below(*model, e@, final(cache)@, count_true(old(present)@)),
        exact(*model, e@, kill is Some) && (exists|t: M::State| model.steps_to(*state, input_at(e@, pos as int), output_at(e@, pos as int), t)
            && completable(*model, e@, old(present)@.update(pos as int, false).update(r as int, false), t)) ==> found,
    decreases count_true(old(present)@), 0nat,
{
    let ghost ex = exact(*model, e@, kill is Some);
    let ghost p0 = old(present)@;
    let ghost cur = count_true(p0);
    let ghost p1 = p0.update(pos as int, false).update(r as int, false);
    let ghost can = ex && exists|t: M::State| model.steps_to(*state, input_at(e@, pos as int), output_at(e@, pos as int), t)
        && completable(*model, e@, p1, t);
    let res = model.step(state, e[pos].value.input(), e[r].value.output());
    if !res.0 {
        return false;
    }
    let new_state = res.1;
    let ghost ns = new_state;
    let id = e[pos].id;
    let mut new_lin = linearized.clone();
    new_lin.set(id);
    let new_cache_entry = CacheEntry { linearized: new_lin, state: new_state.clone() };
    proof {
        assert(vstd::pervasive::strictly_cloned(ns, new_cache_entry.state));
        if ex {
            lemma_present_of_set(e@, *linearized, new_cache_entry.linearized, pos as int);
            lemma_count_clear(p0, pos as int);
            lemma_count_clear(p0.update(pos as int, false), r as int);
            assert(remaining(e@, new_cache_entry) == cur - 2);
        }
        if can {
            let t = choose|t: M::State| model.steps_to(*state, input_at(e@, pos as int), output_at(e@, pos as int), t)
                && completable(*model, e@, p1, t);
            assert(model.equal_spec(t, ns));
            lemma_transfer(*model, e@, p1, t, ns);
        }
    }
    if cache_contains(model, cache, &new_cache_entry) {
        proof {
            if can {
                let cs = new_cache_entry.state;
                assert(model.equal_spec(ns, cs));
                lemma_transfer(*model, e@, p1, ns, cs);
                let hh = hash_of(new_cache_entry.linearized);
                let i = choose|i: int| 0 <= i < bucket(cache@, hh).len() && {
                    let c = #[trigger] bucket(cache@, hh)[i];
                    c.linearized.0@ == new_cache_entry.linearized.0@ && model.equal_spec(new_cache_entry.state, c.state)
                };
                let c = bucket(cache@, hh)[i];
                assert(present_of(e@, c.linearized) =~= present_of(e@, new_cache_entry.linearized));
                lemma_equal_cached(*model, e@, p1, cs, c);
            }
        }
        return false;
    }
    let ghost before = cache@;
    let ghost entry = new_cache_entry;
    proof {
        lemma_popcount_bound(new_cache_entry.linearized.0@);
    }
    let h = new_cache_entry.linearized.hash();
    let mut b = match cache.remove(&h) {
        Some(b) => b,
        None => Vec::new(),
    };
    b.push(new_cache_entry);
    cache.insert(h, b);
    let ghost mid = cache@;
    proof {
        assert(mid.contains_key(h));
        assert(mid[h]@ == bucket(before, h).push(entry));
        assert forall|k: u64| k != h implies bucket(mid, k) == #[trigger] bucket(before, k) by {}
        if ex {
            lemma_push(*model, e@, before, mid, h, entry, cur, (cur - 2) as nat);
        }
    }
    let ghost lin_before = *linearized;
    linearized.set(id);
    let ghost before_present = present@;
    present.set(pos, false);
    present.set(r, false);
    let ghost order2 = order.push(pos as int);
    let ghost states2 = states.push(ns);
    proof {
        lemma_take(*model, e@, order, states, before_present, pos as int, r as int, ns);
        assert(present@ =~= before_present.update(pos as int, false).update(r as int, false));
        if ex {
            lemma_present_of_set(e@, lin_before, *linearized, pos as int);
            assert(present@ == p1);
            assert(count_true(present@) == (cur - 2) as nat);
        }
    }
    let found = search(model, e, ret_of, present, linearized, cache, kill, new_state, Ghost(order2), Ghost(states2));
    if found {
        proof {
            if ex {
                lemma_grows_trans(e@, old(cache)@, before, mid, cur, cur, cur);
                lemma_grows_trans(e@, old(cache)@, mid, cache@, cur, (cur - 2) as nat, cur);
            }
        }
        return true;
    }
    linearized.clear(id);
    present.set(pos, true);
    present.set(r, true);
    assert(present@ =~= old(present)@);
    proof {
        if ex {
            assert(present_of(e@, *linearized) =~= p0) by {
                assert forall|j: int| 0 <= j < e@.len() implies #[trigger] present_of(e@, *linearized)[j] == p0[j] by {
                    assert(e@[j].id < old(linearized).capacity());
                }
            }
            lemma_after_child(*model, e@, before, mid, cache@, h, entry, ns, cur);
            lemma_grows_trans(e@, old(cache)@, before, cache@, cur, cur, cur);
        }
    }
    false
}

/// Whether the history `e` is linearizable with respect to `model`; a search
/// that is asked to stop through `kill` answers `false`. The flag is read
/// before each entry is looked at, so only the empty history is sure to be
/// answered `true`.
pub fn check_single<M: Model>(model: &M, e: &Vec<Entry<Value<M::Input, M::Output>>>, kill: &AtomicBool) -> (r: bool)
    requires
        values_match(e@),
        forall|j: int| 0 <= j < e@.len() ==> (#[trigger] e@[j].id) < e@.len(),
    ensures
        r ==> linearizable(*model, e@),
        e@.len() == 0 ==> r,
{
    check_entries(model, e, Some(kill))
}

/// Whether the history `e` is linearizable with respect to `model`, by a
/// search that runs to its end. Of a history of whole operations and a
/// lawful model, the answer is exact.
pub fn check_history<M: Model>(model: &M, e: &Vec<Entry<Value<M::Input, M::Output>>>) -> (r: bool)
    requires
        values_match(e@),
        forall|j: int| 0 <= j < e@.len() ==> (#[trigger] e@[j].id) < e@.len(),
    ensures
        r ==> linearizable(*model, e@),
        well_formed(e@) && lawful(*model) && e@.len() <= usize::MAX / 2 ==> (r <==> linearizable(*model, e@)),
{
    check_entries(model, e, None)
}

/// The search from the start, with no operation taken and nothing cached.
fn check_entries<M: Model>(model: &M, e: &Vec<Entry<Value<M::Input, M::Output>>>, kill: Option<&AtomicBool>) -> (r: bool)
    requires
        values_match(e@),
        forall|j: int| 0 <= j < e@.len() ==> (#[trigger] e@[j].id) < e@.len(),
    ensures
        r ==> linearizable(*model, e@),
        e@.len() == 0 ==> r,
        exact(*model, e@, kill is Some) && e@.len() <= usize::MAX / 2 ==> (r <==> linearizable(*model, e@)),
{
    let len = e.len();
    if len > usize::MAX / 2 {
        return false;
    }
    let mut bits = len / 2;
    let mut j: usize = 0;
    while j < len
        invariant
            len == e@.len(),
            len <= usize::MAX / 2,
            j <= len,
            bits <= len,
            forall|q: int| 0 <= q < j ==> (#[trigger] e@[q].id) < bits,
            forall|q: int| 0 <= q < e@.len() ==> (#[trigger] e@[q].id) < e@.len(),
        decreases len - j,
    {
        if e[j].id >= bits {
            bits = e[j].id + 1;
        }
        j = j + 1;
    }
    let mut linearized = Bitset::new(bits);
    let ret_of = match_returns(e);
    let mut present: Vec<bool> = Vec::new();
    let mut k: usize = 0;
    while k < len
        invariant
            k <= len,
            present@.len() == k,
            forall|q: int| 0 <= q < k ==> present@[q],
        decreases len - k,
    {
        present.push(true);
        k = k + 1;
    }
    let mut cache: HashMap<u64, Vec<CacheEntry<M::State>>> = HashMap::new();
    let state = model.init();
    let ghost order = Seq::<int>::empty();
    let ghost states = seq![state];
    let ghost all = present@;
    proof {
        reveal(valid_trace);
        assert forall|q: int| 0 <= q < e@.len() implies present@[q] == !lifted_before(e@, order, 0, q) by {}
        lemma_present_of_empty(e@, linearized);
        assert(all =~= Seq::new(e@.len(), |q: int| true));
        assert(dead_below(*model, e@, cache@, count_true(all))) by {
            assert forall|h: u64| #[trigger] bucket(cache@, h).len() == 0 by {}
        }
        if exact(*model, e@, kill is Some) && linearizable(*model, e@) {
            lemma_root(*model, e@, state);
        }
    }
    search(model, e, &ret_of, &mut present, &mut linearized, &mut cache, kill, state, Ghost(order), Ghost(states))
}

/// An item of a part of a split is an item of the whole.
pub proof fn lemma_split_item<T>(whole: Seq<T>, parts: Seq<Seq<T>>, j: int, i: int)
    requires
        splits(whole, parts),
        0 <= j < parts.len(),
        0 <= i < parts[j].len(),
    ensures
        whole.contains(parts[j][i]),
{
    broadcast use vstd::seq_lib::group_to_multiset_ensures;

    lemma_flatten_item(parts, j, i);
    assert(parts.flatten().to_multiset().count(parts[j][i]) > 0);
}

pub proof fn lemma_flatten_item<T>(parts: Seq<Seq<T>>, j: int, i: int)
    requires
        0 <= j < parts.len(),
        0 <= i < parts[j].len(),
    ensures
        parts.flatten().contains(parts[j][i]),
    decreases j,
{
    if j == 0 {
        assert(parts.flatten() == parts[0] + parts.drop_first().flatten());
        assert(parts.flatten()[i] == parts[0][i]);
    } else {
        lemma_flatten_item(parts.drop_first(), j - 1, i);
        let rest = parts.drop_first().flatten();
        let k = choose|k: int| 0 <= k < rest.len() && rest[k] == parts[j][i];
        assert(parts.flatten() == parts[0] + rest);
        assert(parts.flatten()[parts[0].len() + k] == rest[k]);
    }
}

/// Whether one part of a history of operations is linearizable with respect
/// to `model`; a search that is asked to stop through `kill` answers `false`,
/// so only an empty part is sure to be answered `true`.
pub fn check_operations_part<M: Model>(model: &M, part: Operations<M::Input, M::Output>, kill: &AtomicBool) -> (r: bool)
    ensures
        r ==> linearizable(*model, sort_by_time(entries_of(part@))),
        part@.len() == 0 ==> r,
{
    check_operations_with(model, part, Some(kill))
}

/// A history of whole operations that the checker can hold.
pub open spec fn whole<T>(e: Seq<Entry<T>>) -> bool {
    well_formed(e) && e.len() <= usize::MAX / 2
}

fn check_operations_with<M: Model>(model: &M, part: Operations<M::Input, M::Output>, kill: Option<&AtomicBool>) -> (r: bool)
    ensures
        r ==> linearizable(*model, sort_by_time(entries_of(part@))),
        part@.len() == 0 ==> r,
        kill is None && lawful(*model) && whole(sort_by_time(entries_of(part@))) ==> (r <==> linearizable(
            *model,
            sort_by_time(entries_of(part@)),
        )),
{
    proof {
        lemma_sorted_entries(part@);
    }
    let l = make_entries(part);
    check_entries(model, &l, kill)
}

/// Each call of `h` carries an input and each return an output.
pub open spec fn values_paired<I, O>(h: Seq<Event<Value<I, O>>>) -> bool {
    forall|j: int| 0 <= j < h.len() ==> match (#[trigger] h[j]).kind {
        EventKind::CallEvent => h[j].value is Input,
        EventKind::ReturnEvent => h[j].value is Output,
    }
}

/// Whether one part of a history of events is linearizable with respect to
/// `model`; a search that is asked to stop through `kill` answers `false`,
/// so only an empty part is sure to be answered `true`.
pub fn check_events_part<M: Model>(model: &M, part: Events<M::Input, M::Output>, kill: &AtomicBool) -> (r: bool)
    requires
        values_paired(part@),
    ensures
        r ==> linearizable(*model, event_entries(part@)),
        part@.len() == 0 ==> r,
{
    check_events_with(model, part, Some(kill))
}

fn check_events_with<M: Model>(model: &M, part: Events<M::Input, M::Output>, kill: Option<&AtomicBool>) -> (r: bool)
    requires
        values_paired(part@),
    ensures
        r ==> linearizable(*model, event_entries(part@)),
        part@.len() == 0 ==> r,
        kill is None && lawful(*model) && whole(event_entries(part@)) ==> (r <==> linearizable(*model, event_entries(part@))),
{
    let ghost p = part@;
    let renumbered = renumber(part);
    let l = convert_entries(renumbered);
    proof {
        assert(l@ =~= event_entries(p));
        assert forall|i: int| 0 <= i < l@.len() implies if is_call(#[trigger] l@[i]) { l@[i].value is Input } else { l@[i].value is Output } by {
            assert(l@[i].kind is CallEntry <==> p[i].kind is CallEvent);
        }
    }
    check_entries(model, &l, kill)
}

/// `r` answers for the history `h` of operations split by the model into
/// `parts`: a `true` answer means that every part is linearizable, and a
/// `false` answer of a lawful model whose parts are made of whole operations
/// (as those of a history whose every operation returned after it was called
/// are) means that some part is not.
pub open spec fn operations_answer<M: Model>(
    model: M,
    h: Seq<Operation<M::Input, M::Output>>,
    parts: Seq<Seq<Operation<M::Input, M::Output>>>,
    r: bool,
) -> bool {
    &&& model.partitioned(h, parts)
    &&& splits(h, parts)
    &&& r ==> forall|j: int| 0 <= j < parts.len() ==> linearizable(model, #[trigger] sort_by_time(entries_of(parts[j])))
    &&& !r && lawful(model) && (forall|j: int| 0 <= j < parts.len() ==> whole(#[trigger] sort_by_time(entries_of(parts[j]))))
        ==> exists|j: int| 0 <= j < parts.len() && !linearizable(model, #[trigger] sort_by_time(entries_of(parts[j])))
    &&& !r && lawful(model) && well_timed(h) && h.len() <= usize::MAX / 4
        ==> exists|j: int| 0 <= j < parts.len() && !linearizable(model, #[trigger] sort_by_time(entries_of(parts[j])))
}

/// `r` answers for the history `h` of events split by the model into
/// `parts`, as for a history of operations.
pub open spec fn events_answer<M: Model>(
    model: M,
    h: Seq<Event<Value<M::Input, M::Output>>>,
    parts: Seq<Seq<Event<Value<M::Input, M::Output>>>>,
    r: bool,
) -> bool {
    &&& model.partitioned_events(h, parts)
    &&& splits(h, parts)
    &&& r ==> forall|j: int| 0 <= j < parts.len() ==> linearizable(model, #[trigger] event_entries(parts[j]))
    &&& !r && lawful(model) && (forall|j: int| 0 <= j < parts.len() ==> whole(#[trigger] event_entries(parts[j])))
        ==> exists|j: int| 0 <= j < parts.len() && !linearizable(model, #[trigger] event_entries(parts[j]))
}

/// Whether the history of operations is linearizable with respect to
/// `model`: each part of the history that the model's partition splits it
/// into must be. When the model is lawful and each part is made of whole
/// operations, or the history is well timed, the answer is exact.
pub fn check_operations<M: Model>(model: M, history: Operations<M::Input, M::Output>) -> (r: bool)
    ensures
        exists|parts: Seq<Seq<Operation<M::Input, M::Output>>>| #[trigger] operations_answer(model, history@, parts, r),
{
    let ghost h = history@;
    let parts = model.partition(history);
    let ghost ps = views(parts@);
    let ghost pv = parts@;
    for part in it: parts.into_iter()
        invariant
            it.seq() == pv,
            ps == views(pv),
            splits(h, ps),
            model.partitioned(h, ps),
            h == history@,
            forall|j: int| 0 <= j < it.index() ==> linearizable(model, #[trigger] sort_by_time(entries_of(ps[j]))),
    {
        assert(it.index() < it.seq().len());
        let ghost jj = it.index();
        assert(part@ == ps[jj]);
        if !check_operations_with(&model, part, None) {
            proof {
                assert(lawful(model) && (forall|j: int| 0 <= j < ps.len() ==> whole(#[trigger] sort_by_time(entries_of(ps[j]))))
                    ==> exists|j: int| 0 <= j < ps.len() && !linearizable(model, #[trigger] sort_by_time(entries_of(ps[j])))) by {
                    if lawful(model) && (forall|j: int| 0 <= j < ps.len() ==> whole(#[trigger] sort_by_time(entries_of(ps[j])))) {
                        assert(whole(sort_by_time(entries_of(ps[jj]))));
                        assert(!linearizable(model, sort_by_time(entries_of(ps[jj]))));
                    }
                }
                if lawful(model) && well_timed(h) && h.len() <= usize::MAX / 4 {
                    lemma_parts_whole(h, ps, jj);
                    assert(!linearizable(model, sort_by_time(entries_of(ps[jj]))));
                }
                assert(operations_answer(model, h, ps, false));
            }
            return false;
        }
    }
    assert(operations_answer(model, h, ps, true));
    true
}

/// The entries the checker makes of a part of a history of events.
pub open spec fn event_entries<I, O>(p: Seq<Event<Value<I, O>>>) -> Seq<Entry<Value<I, O>>> {
    Seq::new(p.len(), |i: int| entry_of_event(Event { kind: p[i].kind, value: p[i].value, id: renumbering(ids_of(p).take(i + 1))[p[i].id] }))
}

/// Whether the history of events is linearizable with respect to `model`:
/// each part of the history that the model's partition splits it into must
/// be. When the model is lawful and each part is made of whole operations,
/// the answer is exact.
pub fn check_events<M: Model>(model: M, history: Events<M::Input, M::Output>) -> (r: bool)
    requires
        events_paired(history@),
    ensures
        exists|parts: Seq<Seq<Event<Value<M::Input, M::Output>>>>| #[trigger] events_answer(model, history@, parts, r),
{
    let ghost h = history@;
    let parts = model.partition_event(history);
    let ghost ps = views(parts@);
    let ghost pv = parts@;
    for part in it: parts.into_iter()
        invariant
            it.seq() == pv,
            ps == views(pv),
            splits(h, ps),
            model.partitioned_events(h, ps),
            h == history@,
            events_paired(h),
            forall|j: int| 0 <= j < it.index() ==> linearizable(model, #[trigger] event_entries(ps[j])),
    {
        assert(it.index() < it.seq().len());
        let ghost p = part@;
        let ghost jj = it.index();
        proof {
            assert(p == ps[jj]);
            assert forall|i: int| 0 <= i < p.len() implies match (#[trigger] p[i]).kind {
                EventKind::CallEvent => p[i].value is Input,
                EventKind::ReturnEvent => p[i].value is Output,
            } by {
                lemma_split_item(h, ps, jj, i);
                let k = choose|k: int| 0 <= k < h.len() && h[k] == ps[jj][i];
                assert(h[k] == p[i]);
            }
        }
        if !check_events_with(&model, part, None) {
            proof {
                assert(lawful(model) && (forall|j: int| 0 <= j < ps.len() ==> whole(#[trigger] event_entries(ps[j])))
                    ==> exists|j: int| 0 <= j < ps.len() && !linearizable(model, #[trigger] event_entries(ps[j]))) by {
                    if lawful(model) && (forall|j: int| 0 <= j < ps.len() ==> whole(#[trigger] event_entries(ps[j]))) {
                        assert(whole(event_entries(ps[jj])));
                        assert(!linearizable(model, event_entries(ps[jj])));
                    }
                }
                assert(events_answer(model, h, ps, false));
            }
            return false;
        }
    }
    assert(events_answer(model, h, ps, true));
    true
}

} // verus!
