use vstd::prelude::*;

use super::bitset::{bit_of, Bitset};
use super::checker::{
    bucket, call_like, count_true, input_at, lifted_before, linearizable, linearization, output_at, ret, valid_trace, CacheEntry,
};
use super::entries::{first_ret, is_call, lemma_first_ret_props, Entry};
use super::model::{Model, Value};

verus! {

/// Every call is returned later.
#[verifier::opaque]
pub open spec fn calls_returned<T>(e: Seq<Entry<T>>) -> bool {
    forall|p: int| 0 <= p < e.len() && is_call(#[trigger] e[p]) ==> first_ret(e, p) is Some
}

/// Every return answers a call before it.
#[verifier::opaque]
pub open spec fn returns_answer<T>(e: Seq<Entry<T>>) -> bool {
    forall|j: int| 0 <= j < e.len() && !is_call(#[trigger] e[j]) ==> exists|p: int|
        0 <= p < e.len() && is_call(e[p]) && first_ret(e, p) == Some(j)
}

/// The call and the return of an operation are the only entries with its id.
#[verifier::opaque]
pub open spec fn ids_unique<T>(e: Seq<Entry<T>>) -> bool {
    forall|p: int, j: int| 0 <= p < e.len() && 0 <= j < e.len() && is_call(#[trigger] e[p])
        && #[trigger] e[j].id == e[p].id ==> j == p || first_ret(e, p) == Some(j)
}

/// The history is made of whole operations: every call is returned later,
/// every return answers a call before it, and the call and the return of an
/// operation are the only entries with its id.
pub open spec fn well_formed<T>(e: Seq<Entry<T>>) -> bool {
    &&& calls_returned(e)
    &&& returns_answer(e)
    &&& ids_unique(e)
}

/// The model behaves as a function of its states up to `equal_spec`: equal
/// states step alike, a step has one outcome up to equality, initial states
/// are equal, and a clone of a state equals it.
pub open spec fn lawful<M: Model>(model: M) -> bool {
    &&& forall|a: M::State| #[trigger] model.equal_spec(a, a)
    &&& forall|a: M::State, b: M::State| #[trigger] vstd::pervasive::strictly_cloned(a, b) ==> model.equal_spec(a, b) && model.equal_spec(b, a)
    &&& forall|a: M::State, b: M::State| model.init_spec(a) && model.init_spec(b) ==> #[trigger] model.equal_spec(a, b)
    &&& forall|a: M::State, b: M::State, i: M::Input, o: M::Output, a2: M::State|
        #![trigger model.equal_spec(a, b), model.steps_to(a, i, o, a2)]
        model.equal_spec(a, b) && model.steps_to(a, i, o, a2) ==> exists|b2: M::State|
            model.steps_to(b, i, o, b2) && model.equal_spec(a2, b2)
    &&& forall|s: M::State, i: M::Input, o: M::Output, x: M::State, y: M::State|
        #![trigger model.steps_to(s, i, o, x), model.steps_to(s, i, o, y)]
        model.steps_to(s, i, o, x) && model.steps_to(s, i, o, y) ==> model.equal_spec(x, y)
}

/// Each operation of `rest` is a present call.
#[verifier::opaque]
pub open spec fn takes_present_calls<T>(e: Seq<Entry<T>>, present: Seq<bool>, rest: Seq<int>) -> bool {
    forall|k: int| 0 <= k < rest.len() ==> 0 <= #[trigger] rest[k] < e.len() && present[rest[k]] && is_call(e[rest[k]])
}

/// No operation is taken twice.
#[verifier::opaque]
pub open spec fn distinct(rest: Seq<int>) -> bool {
    forall|a: int, b: int| 0 <= a < rest.len() && 0 <= b < rest.len() && a != b ==> rest[a] != rest[b]
}

/// Every present call is taken.
#[verifier::opaque]
pub open spec fn covers<T>(e: Seq<Entry<T>>, present: Seq<bool>, rest: Seq<int>) -> bool {
    forall|p: int| 0 <= p < e.len() && #[trigger] present[p] && is_call(e[p]) ==> exists|k: int| 0 <= k < rest.len() && rest[k] == p
}

/// Taken in turn through `sts`, the operations of `rest` are valid steps.
#[verifier::opaque]
pub open spec fn steps_valid<M: Model>(model: M, e: Seq<Entry<Value<M::Input, M::Output>>>, rest: Seq<int>, sts: Seq<M::State>) -> bool {
    forall|k: int| 0 <= k < rest.len() ==> model.steps_to(sts[k], input_at(e, #[trigger] rest[k]), output_at(e, rest[k]), sts[k + 1])
}

/// An operation that returned before another was called comes first.
#[verifier::opaque]
pub open spec fn in_real_time<T>(e: Seq<Entry<T>>, rest: Seq<int>) -> bool {
    forall|a: int, b: int| 0 <= a < rest.len() && 0 <= b < rest.len() && ret(e, #[trigger] rest[a]) < #[trigger] rest[b] ==> a < b
}

/// `rest`, taken in turn from `s` through `sts`, completes a search that has
/// the entries `present` still to take: it takes each remaining operation
/// once, as valid steps of the model, an operation that returned before
/// another was called coming first.
pub open spec fn completion<M: Model>(
    model: M,
    e: Seq<Entry<Value<M::Input, M::Output>>>,
    present: Seq<bool>,
    s: M::State,
    rest: Seq<int>,
    sts: Seq<M::State>,
) -> bool {
    &&& sts.len() == rest.len() + 1
    &&& sts[0] == s
    &&& takes_present_calls(e, present, rest)
    &&& distinct(rest)
    &&& covers(e, present, rest)
    &&& steps_valid(model, e, rest, sts)
    &&& in_real_time(e, rest)
}

/// The search with the entries `present` still to take, from state `s`, can
/// be completed.
pub open spec fn completable<M: Model>(model: M, e: Seq<Entry<Value<M::Input, M::Output>>>, present: Seq<bool>, s: M::State) -> bool {
    exists|rest: Seq<int>, sts: Seq<M::State>| completion(model, e, present, s, rest, sts)
}

/// The entries still to take when the operations with ids in `b` are taken.
pub open spec fn present_of<T>(e: Seq<Entry<T>>, b: Bitset) -> Seq<bool> {
    Seq::new(e.len(), |j: int| !b.has(e[j].id as int))
}

/// Every present return answers a present call.
pub open spec fn closed_under_calls<T>(e: Seq<Entry<T>>, present: Seq<bool>) -> bool {
    forall|j: int| 0 <= j < e.len() && #[trigger] present[j] && !is_call(e[j]) ==> exists|p: int|
        0 <= p < e.len() && present[p] && is_call(e[p]) && first_ret(e, p) == Some(j)
}

/// A completion from a state is one from any equal state.
pub proof fn lemma_transfer<M: Model>(
    model: M,
    e: Seq<Entry<Value<M::Input, M::Output>>>,
    present: Seq<bool>,
    s1: M::State,
    s2: M::State,
)
    requires
        lawful(model),
        completable(model, e, present, s1),
        model.equal_spec(s1, s2),
    ensures
        completable(model, e, present, s2),
{
    let (rest, sts) = choose|rest: Seq<int>, sts: Seq<M::State>| completion(model, e, present, s1, rest, sts);
    reveal(steps_valid);
    let sts2 = lemma_transfer_states(model, e, rest, sts, s2, rest.len() as int);
    assert(completion(model, e, present, s2, rest, sts2));
}

/// States from `s2` that follow the steps of `rest` for its first `n`
/// operations, each equal to the matching state of `sts`.
proof fn lemma_transfer_states<M: Model>(
    model: M,
    e: Seq<Entry<Value<M::Input, M::Output>>>,
    rest: Seq<int>,
    sts: Seq<M::State>,
    s2: M::State,
    n: int,
) -> (sts2: Seq<M::State>)
    requires
        lawful(model),
        0 <= n <= rest.len(),
        sts.len() == rest.len() + 1,
        model.equal_spec(sts[0], s2),
        forall|k: int| 0 <= k < rest.len() ==> model.steps_to(sts[k], input_at(e, #[trigger] rest[k]), output_at(e, rest[k]), sts[k + 1]),
    ensures
        sts2.len() == n + 1,
        sts2[0] == s2,
        forall|k: int| 0 <= k <= n ==> model.equal_spec(sts[k], #[trigger] sts2[k]),
        forall|k: int| 0 <= k < n ==> model.steps_to(sts2[k], input_at(e, #[trigger] rest[k]), output_at(e, rest[k]), sts2[k + 1]),
    decreases n,
{
    if n == 0 {
        seq![s2]
    } else {
        let prev = lemma_transfer_states(model, e, rest, sts, s2, n - 1);
        let k = n - 1;
        assert(model.steps_to(sts[k], input_at(e, rest[k]), output_at(e, rest[k]), sts[k + 1]));
        assert(model.equal_spec(sts[k], prev[k]));
        let next = choose|b2: M::State| model.steps_to(prev[k], input_at(e, rest[k]), output_at(e, rest[k]), b2)
            && model.equal_spec(sts[k + 1], b2);
        let sts2 = prev.push(next);
        assert forall|j: int| 0 <= j < n implies model.steps_to(sts2[j], input_at(e, #[trigger] rest[j]), output_at(e, rest[j]), sts2[j + 1]) by {
            if j < k {
                assert(sts2[j] == prev[j] && sts2[j + 1] == prev[j + 1]);
            }
        }
        assert forall|j: int| 0 <= j <= n implies model.equal_spec(sts[j], #[trigger] sts2[j]) by {
            if j < n {
                assert(sts2[j] == prev[j]);
            }
        }
        sts2
    }
}

/// A linearizable history can be completed from the start, from any initial
/// state.
pub proof fn lemma_root<M: Model>(model: M, e: Seq<Entry<Value<M::Input, M::Output>>>, s0: M::State)
    requires
        lawful(model),
        linearizable(model, e),
        model.init_spec(s0),
    ensures
        completable(model, e, Seq::new(e.len(), |j: int| true), s0),
{
    let (order, states) = choose|order: Seq<int>, states: Seq<M::State>| linearization(model, e, order, states);
    let all = Seq::new(e.len(), |j: int| true);
    reveal(valid_trace);
    reveal(takes_present_calls);
    reveal(distinct);
    reveal(covers);
    reveal(steps_valid);
    reveal(in_real_time);
    assert forall|p: int| 0 <= p < e.len() && #[trigger] all[p] && is_call(e[p]) implies exists|k: int|
        0 <= k < order.len() && order[k] == p by {
        assert(lifted_before(e, order, order.len() as int, p));
        let k = choose|k: int| 0 <= k < order.len() && (p == order[k] || p == ret(e, order[k]));
        if p != order[k] {
            assert(call_like(e, order[k]));
            lemma_first_ret_props(e, order[k]);
        }
    }
    assert forall|k: int| 0 <= k < order.len() implies 0 <= #[trigger] order[k] < e.len() && all[order[k]] && is_call(e[order[k]]) by {
        assert(call_like(e, order[k]));
    }
    assert(completion(model, e, all, states[0], order, states));
    assert(model.equal_spec(states[0], s0));
    lemma_transfer(model, e, all, states[0], s0);
}

/// With nothing left to take, no entry is present.
pub proof fn lemma_empty_completion<M: Model>(
    model: M,
    e: Seq<Entry<Value<M::Input, M::Output>>>,
    present: Seq<bool>,
    s: M::State,
    rest: Seq<int>,
    sts: Seq<M::State>,
)
    requires
        present.len() == e.len(),
        closed_under_calls(e, present),
        completion(model, e, present, s, rest, sts),
        rest.len() == 0,
    ensures
        forall|j: int| 0 <= j < e.len() ==> !present[j],
{
    reveal(covers);
    assert forall|j: int| 0 <= j < e.len() implies !present[j] by {
        if present[j] {
            if is_call(e[j]) {
                let k = choose|k: int| 0 <= k < rest.len() && rest[k] == j;
            } else {
                let p = choose|p: int| 0 <= p < e.len() && present[p] && is_call(e[p]) && first_ret(e, p) == Some(j);
                let k = choose|k: int| 0 <= k < rest.len() && rest[k] == p;
            }
        }
    }
}

/// What the first operation of a completion shows: every present entry
/// before its call is a call, its return is present, and the rest completes
/// the search that took it, from the state after it.
pub open spec fn first_facts<M: Model>(
    model: M,
    e: Seq<Entry<Value<M::Input, M::Output>>>,
    present: Seq<bool>,
    s: M::State,
    rest: Seq<int>,
    sts: Seq<M::State>,
) -> bool {
    let o = rest[0];
    let q = ret(e, o);
    &&& 0 <= o < q < e.len()
    &&& present[o] && is_call(e[o]) && present[q] && !is_call(e[q])
    &&& first_ret(e, o) == Some(q)
    &&& forall|j: int| 0 <= j < o && #[trigger] present[j] ==> is_call(e[j])
    &&& model.steps_to(s, input_at(e, o), output_at(e, o), sts[1])
    &&& completion(model, e, present.update(o, false).update(q, false), sts[1], rest.drop_first(), sts.drop_first())
}

/// The first operation of a completion: every present entry before its call
/// is a call, its return is present, and the rest completes the search that
/// took it, from the state after it.
pub proof fn lemma_first_step<M: Model>(
    model: M,
    e: Seq<Entry<Value<M::Input, M::Output>>>,
    present: Seq<bool>,
    s: M::State,
    rest: Seq<int>,
    sts: Seq<M::State>,
)
    requires
        present.len() == e.len(),
        well_formed(e),
        closed_under_calls(e, present),
        forall|p: int| 0 <= p < e.len() && #[trigger] present[p] && is_call(e[p]) ==> present[ret(e, p)],
        completion(model, e, present, s, rest, sts),
        rest.len() > 0,
    ensures
        first_facts(model, e, present, s, rest, sts),
{
    lemma_first_call(model, e, present, s, rest, sts);
    lemma_rest_completes(model, e, present, s, rest, sts);
}

/// Every present entry before the first call of a completion is a call,
/// and its return is present.
proof fn lemma_first_call<M: Model>(
    model: M,
    e: Seq<Entry<Value<M::Input, M::Output>>>,
    present: Seq<bool>,
    s: M::State,
    rest: Seq<int>,
    sts: Seq<M::State>,
)
    requires
        present.len() == e.len(),
        well_formed(e),
        closed_under_calls(e, present),
        forall|p: int| 0 <= p < e.len() && #[trigger] present[p] && is_call(e[p]) ==> present[ret(e, p)],
        completion(model, e, present, s, rest, sts),
        rest.len() > 0,
    ensures
        ({
            let o = rest[0];
            let q = ret(e, o);
            &&& 0 <= o < q < e.len()
            &&& present[o] && is_call(e[o]) && present[q] && !is_call(e[q])
            &&& first_ret(e, o) == Some(q)
            &&& forall|j: int| 0 <= j < o && #[trigger] present[j] ==> is_call(e[j])
            &&& model.steps_to(s, input_at(e, o), output_at(e, o), sts[1])
        }),
{
    reveal(takes_present_calls);
    reveal(covers);
    reveal(steps_valid);
    reveal(in_real_time);
    let o = rest[0];
    assert(0 <= rest[0] < e.len() && present[rest[0]] && is_call(e[rest[0]]));
    assert(first_ret(e, o) is Some) by {
        reveal(calls_returned);
    }
    lemma_first_ret_props(e, o);
    assert forall|j: int| 0 <= j < o && #[trigger] present[j] implies is_call(e[j]) by {
        if !is_call(e[j]) {
            let p = choose|p: int| 0 <= p < e.len() && present[p] && is_call(e[p]) && first_ret(e, p) == Some(j);
            let a = choose|a: int| 0 <= a < rest.len() && rest[a] == p;
            assert(ret(e, rest[a]) == j);
            assert(ret(e, rest[a]) < rest[0]);
        }
    }
    assert(model.steps_to(sts[0], input_at(e, rest[0]), output_at(e, rest[0]), sts[1]));
}

/// The rest of a completion completes the search that took its first
/// operation, from the state after it.
proof fn lemma_rest_completes<M: Model>(
    model: M,
    e: Seq<Entry<Value<M::Input, M::Output>>>,
    present: Seq<bool>,
    s: M::State,
    rest: Seq<int>,
    sts: Seq<M::State>,
)
    requires
        present.len() == e.len(),
        completion(model, e, present, s, rest, sts),
        rest.len() > 0,
        0 <= ret(e, rest[0]) < e.len(),
        !is_call(e[ret(e, rest[0])]),
    ensures
        completion(model, e, present.update(rest[0], false).update(ret(e, rest[0]), false), sts[1], rest.drop_first(), sts.drop_first()),
{
    reveal(takes_present_calls);
    assert(0 <= rest[0] < e.len());
    lemma_rest_takes(e, present, rest);
    lemma_rest_covers(e, present, rest);
    lemma_rest_steps(model, e, rest, sts);
    lemma_rest_in_real_time(e, rest);
    lemma_rest_distinct(rest);
}

proof fn lemma_rest_takes<T>(e: Seq<Entry<T>>, present: Seq<bool>, rest: Seq<int>)
    requires
        present.len() == e.len(),
        takes_present_calls(e, present, rest),
        distinct(rest),
        rest.len() > 0,
        0 <= ret(e, rest[0]) < e.len(),
        !is_call(e[ret(e, rest[0])]),
    ensures
        takes_present_calls(e, present.update(rest[0], false).update(ret(e, rest[0]), false), rest.drop_first()),
{
    reveal(takes_present_calls);
    reveal(distinct);
    let p2 = present.update(rest[0], false).update(ret(e, rest[0]), false);
    let rest2 = rest.drop_first();
    assert forall|k: int| 0 <= k < rest2.len() implies 0 <= #[trigger] rest2[k] < e.len() && p2[rest2[k]] && is_call(e[rest2[k]]) by {
        assert(rest2[k] == rest[k + 1]);
        assert(rest[k + 1] != rest[0]);
        assert(0 <= rest[k + 1] < e.len() && present[rest[k + 1]] && is_call(e[rest[k + 1]]));
    }
}

proof fn lemma_rest_covers<T>(e: Seq<Entry<T>>, present: Seq<bool>, rest: Seq<int>)
    requires
        present.len() == e.len(),
        covers(e, present, rest),
        rest.len() > 0,
        0 <= rest[0] < e.len(),
        0 <= ret(e, rest[0]) < e.len(),
    ensures
        covers(e, present.update(rest[0], false).update(ret(e, rest[0]), false), rest.drop_first()),
{
    reveal(covers);
    let p2 = present.update(rest[0], false).update(ret(e, rest[0]), false);
    let rest2 = rest.drop_first();
    assert forall|p: int| 0 <= p < e.len() && #[trigger] p2[p] && is_call(e[p]) implies exists|k: int| 0 <= k < rest2.len() && rest2[k] == p by {
        assert(p != rest[0]);
        assert(present[p]);
        let k = choose|k: int| 0 <= k < rest.len() && rest[k] == p;
        assert(k != 0);
        assert(rest2[k - 1] == p);
    }
}

proof fn lemma_rest_steps<M: Model>(model: M, e: Seq<Entry<Value<M::Input, M::Output>>>, rest: Seq<int>, sts: Seq<M::State>)
    requires
        steps_valid(model, e, rest, sts),
        sts.len() == rest.len() + 1,
        rest.len() > 0,
    ensures
        steps_valid(model, e, rest.drop_first(), sts.drop_first()),
{
    reveal(steps_valid);
    let rest2 = rest.drop_first();
    let sts2 = sts.drop_first();
    assert forall|k: int| 0 <= k < rest2.len() implies model.steps_to(sts2[k], input_at(e, #[trigger] rest2[k]), output_at(e, rest2[k]), sts2[k + 1]) by {
        assert(rest2[k] == rest[k + 1]);
        assert(model.steps_to(sts[k + 1], input_at(e, rest[k + 1]), output_at(e, rest[k + 1]), sts[k + 2]));
    }
}

proof fn lemma_rest_in_real_time<T>(e: Seq<Entry<T>>, rest: Seq<int>)
    requires
        in_real_time(e, rest),
        rest.len() > 0,
    ensures
        in_real_time(e, rest.drop_first()),
{
    reveal(in_real_time);
    let rest2 = rest.drop_first();
    assert forall|a: int, b: int| 0 <= a < rest2.len() && 0 <= b < rest2.len() && ret(e, #[trigger] rest2[a]) < #[trigger] rest2[b] implies a < b by {
        assert(rest2[a] == rest[a + 1] && rest2[b] == rest[b + 1]);
    }
}

proof fn lemma_rest_distinct(rest: Seq<int>)
    requires
        distinct(rest),
        rest.len() > 0,
    ensures
        distinct(rest.drop_first()),
{
    reveal(distinct);
    let rest2 = rest.drop_first();
    assert forall|a: int, b: int| 0 <= a < rest2.len() && 0 <= b < rest2.len() && a != b implies rest2[a] != rest2[b] by {
        assert(rest2[a] == rest[a + 1] && rest2[b] == rest[b + 1]);
    }
}

/// The entries a cached search state has still to take.
pub open spec fn remaining<T, S>(e: Seq<Entry<T>>, c: CacheEntry<S>) -> nat {
    count_true(present_of(e, c.linearized))
}

/// A cached search state from which no linearization can be completed.
pub open spec fn dead<M: Model>(model: M, e: Seq<Entry<Value<M::Input, M::Output>>>, c: CacheEntry<M::State>) -> bool {
    !completable(model, e, present_of(e, c.linearized), c.state)
}

/// Every cached search state with fewer than `cur` entries left to take is
/// dead.
pub open spec fn dead_below<M: Model>(
    model: M,
    e: Seq<Entry<Value<M::Input, M::Output>>>,
    cache: Map<u64, Vec<CacheEntry<M::State>>>,
    cur: nat,
) -> bool {
    forall|h: u64, i: int|
        0 <= i < bucket(cache, h).len() && remaining(e, #[trigger] bucket(cache, h)[i]) < cur ==> dead(model, e, bucket(cache, h)[i])
}

/// The cache `new` keeps every state of `old` in place, and the states it
/// added have fewer than `cur` entries left to take.
pub open spec fn grows<T, S>(e: Seq<Entry<T>>, old: Map<u64, Vec<CacheEntry<S>>>, new: Map<u64, Vec<CacheEntry<S>>>, cur: nat) -> bool {
    forall|h: u64| {
        &&& #[trigger] bucket(new, h).len() >= bucket(old, h).len()
        &&& forall|i: int| 0 <= i < bucket(old, h).len() ==> bucket(new, h)[i] == bucket(old, h)[i]
        &&& forall|i: int| bucket(old, h).len() <= i < bucket(new, h).len() ==> remaining(e, bucket(new, h)[i]) < cur
    }
}

/// Growing is transitive, and a bound on what was added can be raised.
pub proof fn lemma_grows_trans<T, S>(
    e: Seq<Entry<T>>,
    a: Map<u64, Vec<CacheEntry<S>>>,
    b: Map<u64, Vec<CacheEntry<S>>>,
    c: Map<u64, Vec<CacheEntry<S>>>,
    n1: nat,
    n2: nat,
    n: nat,
)
    requires
        grows(e, a, b, n1),
        grows(e, b, c, n2),
        n1 <= n,
        n2 <= n,
    ensures
        grows(e, a, c, n),
{
    assert forall|h: u64| {
        &&& #[trigger] bucket(c, h).len() >= bucket(a, h).len()
        &&& forall|i: int| 0 <= i < bucket(a, h).len() ==> bucket(c, h)[i] == bucket(a, h)[i]
        &&& forall|i: int| bucket(a, h).len() <= i < bucket(c, h).len() ==> remaining(e, bucket(c, h)[i]) < n
    } by {
        assert(bucket(b, h).len() >= bucket(a, h).len());
        assert(bucket(c, h).len() >= bucket(b, h).len());
        assert forall|i: int| bucket(a, h).len() <= i < bucket(c, h).len() implies remaining(e, bucket(c, h)[i]) < n by {
            if i < bucket(b, h).len() {
                assert(bucket(c, h)[i] == bucket(b, h)[i]);
            }
        }
    }
}

/// Of the entries still to take in a search, each present call has its
/// return present, and each present return its call.
pub proof fn lemma_present_closed<M: Model>(
    model: M,
    e: Seq<Entry<Value<M::Input, M::Output>>>,
    order: Seq<int>,
    states: Seq<M::State>,
    present: Seq<bool>,
)
    requires
        well_formed(e),
        valid_trace(model, e, order, states),
        present.len() == e.len(),
        forall|j: int| 0 <= j < e.len() ==> present[j] == !lifted_before(e, order, order.len() as int, j),
    ensures
        closed_under_calls(e, present),
        forall|p: int| 0 <= p < e.len() && #[trigger] present[p] && is_call(e[p]) ==> present[ret(e, p)] && 0 <= ret(e, p) < e.len(),
{
    assert(forall|k: int| 0 <= k < order.len() ==> call_like(e, #[trigger] order[k])) by {
        reveal(valid_trace);
    }
    lemma_present_returns(e, order, present);
    lemma_present_calls(e, order, present);
}

proof fn lemma_present_returns<T>(e: Seq<Entry<T>>, order: Seq<int>, present: Seq<bool>)
    requires
        calls_returned(e),
        ids_unique(e),
        forall|k: int| 0 <= k < order.len() ==> call_like(e, #[trigger] order[k]),
        present.len() == e.len(),
        forall|j: int| 0 <= j < e.len() ==> present[j] == !lifted_before(e, order, order.len() as int, j),
    ensures
        forall|p: int| 0 <= p < e.len() && #[trigger] present[p] && is_call(e[p]) ==> present[ret(e, p)] && 0 <= ret(e, p) < e.len(),
{
    let m = order.len() as int;
    assert forall|p: int| 0 <= p < e.len() && #[trigger] present[p] && is_call(e[p]) implies present[ret(e, p)] && 0 <= ret(e, p) < e.len() by {
        assert(first_ret(e, p) is Some) by {
            reveal(calls_returned);
        }
        lemma_first_ret_props(e, p);
        let q = ret(e, p);
        if lifted_before(e, order, m, q) {
            let k = choose|k: int| 0 <= k < m && (q == order[k] || q == ret(e, order[k]));
            let o = order[k];
            assert(call_like(e, o));
            lemma_first_ret_props(e, o);
            if q != o {
                assert(e[p].id == e[o].id);
                assert(p == o || first_ret(e, o) == Some(p)) by {
                    reveal(ids_unique);
                }
                assert(lifted_before(e, order, m, p));
            }
        }
    }
}

proof fn lemma_present_calls<T>(e: Seq<Entry<T>>, order: Seq<int>, present: Seq<bool>)
    requires
        returns_answer(e),
        forall|k: int| 0 <= k < order.len() ==> call_like(e, #[trigger] order[k]),
        present.len() == e.len(),
        forall|j: int| 0 <= j < e.len() ==> present[j] == !lifted_before(e, order, order.len() as int, j),
    ensures
        closed_under_calls(e, present),
{
    let m = order.len() as int;
    assert forall|j: int| 0 <= j < e.len() && #[trigger] present[j] && !is_call(e[j]) implies exists|p: int|
        0 <= p < e.len() && present[p] && is_call(e[p]) && first_ret(e, p) == Some(j) by {
        assert(exists|p: int| 0 <= p < e.len() && is_call(e[p]) && first_ret(e, p) == Some(j)) by {
            reveal(returns_answer);
        }
        let p = choose|p: int| 0 <= p < e.len() && is_call(e[p]) && first_ret(e, p) == Some(j);
        if lifted_before(e, order, m, p) {
            let k = choose|k: int| 0 <= k < m && (p == order[k] || p == ret(e, order[k]));
            let o = order[k];
            assert(call_like(e, o));
            lemma_first_ret_props(e, o);
            if p == o {
                assert(j == ret(e, o));
                assert(lifted_before(e, order, m, j));
            } else {
                assert(!is_call(e[ret(e, o)]));
            }
        }
        assert(present[p]);
    }
}

/// Setting the id of the call at `pos` takes that call and its return.
pub proof fn lemma_present_of_set<T>(e: Seq<Entry<T>>, lin: Bitset, lin2: Bitset, pos: int)
    requires
        well_formed(e),
        0 <= pos < e.len(),
        is_call(e[pos]),
        lin.with_bit(e[pos].id as int, lin2),
        forall|j: int| 0 <= j < e.len() ==> (#[trigger] e[j].id) < lin.capacity(),
    ensures
        first_ret(e, pos) is Some,
        present_of(e, lin2) == present_of(e, lin).update(pos, false).update(ret(e, pos), false),
{
    assert(first_ret(e, pos) is Some) by {
        reveal(calls_returned);
    }
    lemma_first_ret_props(e, pos);
    let q = ret(e, pos);
    assert(0 <= q < e.len());
    assert forall|j: int| 0 <= j < e.len() implies #[trigger] present_of(e, lin2)[j] == present_of(e, lin).update(pos, false).update(q, false)[j] by {
        assert(e[j].id < lin2.capacity());
        if e[j].id == e[pos].id {
            assert(j == pos || first_ret(e, pos) == Some(j)) by {
                reveal(ids_unique);
            }
        } else {
            assert(j != q);
        }
    }
    assert(present_of(e, lin2) =~= present_of(e, lin).update(pos, false).update(q, false));
}

/// A set of zero words takes nothing.
pub proof fn lemma_present_of_empty<T>(e: Seq<Entry<T>>, lin: Bitset)
    requires
        forall|i: int| 0 <= i < lin.0@.len() ==> lin.0@[i] == 0,
        forall|j: int| 0 <= j < e.len() ==> (#[trigger] e[j].id) < lin.capacity(),
    ensures
        present_of(e, lin) == Seq::new(e.len(), |j: int| true),
{
    assert forall|j: int| 0 <= j < e.len() implies #[trigger] present_of(e, lin)[j] by {
        let p = e[j].id as int;
        let w = lin.0@[p / 64];
        let s = (p % 64) as u64;
        assert(w == 0);
        assert((0u64 >> s) & 1u64 == 0u64) by (bit_vector);
        assert(!bit_of(lin.0@, p));
    }
    assert(present_of(e, lin) =~= Seq::new(e.len(), |j: int| true));
}

/// Adding `c` at the end of the bucket of `h` keeps the cache in place and
/// adds only `c`.
pub proof fn lemma_bucket_push<S>(old: Map<u64, Vec<CacheEntry<S>>>, new: Map<u64, Vec<CacheEntry<S>>>, h: u64, c: CacheEntry<S>)
    requires
        new.contains_key(h),
        new[h]@ == bucket(old, h).push(c),
        forall|k: u64| k != h ==> bucket(new, k) == #[trigger] bucket(old, k),
    ensures
        forall|k: u64| #[trigger] bucket(new, k).len() >= bucket(old, k).len(),
        forall|k: u64, i: int| 0 <= i < bucket(old, k).len() ==> #[trigger] bucket(new, k)[i] == bucket(old, k)[i],
        forall|k: u64, i: int| bucket(old, k).len() <= i < bucket(new, k).len() ==> k == h && i == bucket(old, h).len() && #[trigger] bucket(new, k)[i] == c,
{
    assert(bucket(new, h) == bucket(old, h).push(c));
}

/// Whether the search is exact: it cannot be stopped, the history is made
/// of whole operations, and the model is lawful.
pub open spec fn exact<M: Model>(model: M, e: Seq<Entry<Value<M::Input, M::Output>>>, stoppable: bool) -> bool {
    !stoppable && well_formed(e) && lawful(model)
}

/// Taking the first operation of a completion, a step of the model to any
/// state leaves a search that can be completed.
pub proof fn lemma_take_first<M: Model>(
    model: M,
    e: Seq<Entry<Value<M::Input, M::Output>>>,
    present: Seq<bool>,
    s: M::State,
    rest: Seq<int>,
    sts: Seq<M::State>,
    next: M::State,
)
    requires
        lawful(model),
        rest.len() > 0,
        first_facts(model, e, present, s, rest, sts),
        model.steps_to(s, input_at(e, rest[0]), output_at(e, rest[0]), next),
    ensures
        completable(model, e, present.update(rest[0], false).update(ret(e, rest[0]), false), next),
{
    let o = rest[0];
    let p1 = present.update(o, false).update(ret(e, o), false);
    assert(model.equal_spec(sts[1], next));
    assert(completion(model, e, p1, sts[1], rest.drop_first(), sts.drop_first()));
    lemma_transfer(model, e, p1, sts[1], next);
}

/// A cached state with the same operations taken as a search that can be
/// completed, and a state equal to its own, can be completed too.
pub proof fn lemma_equal_cached<M: Model>(
    model: M,
    e: Seq<Entry<Value<M::Input, M::Output>>>,
    present: Seq<bool>,
    s: M::State,
    c: CacheEntry<M::State>,
)
    requires
        lawful(model),
        completable(model, e, present, s),
        present_of(e, c.linearized) == present,
        model.equal_spec(s, c.state),
    ensures
        !dead(model, e, c),
{
    lemma_transfer(model, e, present, s, c.state);
}

/// Adding a state with `n` or more entries left to a cache whose states
/// with fewer than `cur >= n` left are dead keeps those with fewer than `n`
/// left dead, and grows the cache by a state with fewer than `cur` left.
pub proof fn lemma_push<M: Model>(
    model: M,
    e: Seq<Entry<Value<M::Input, M::Output>>>,
    old: Map<u64, Vec<CacheEntry<M::State>>>,
    new: Map<u64, Vec<CacheEntry<M::State>>>,
    h: u64,
    c: CacheEntry<M::State>,
    cur: nat,
    n: nat,
)
    requires
        new.contains_key(h),
        new[h]@ == bucket(old, h).push(c),
        forall|k: u64| k != h ==> bucket(new, k) == #[trigger] bucket(old, k),
        dead_below(model, e, old, cur),
        n <= remaining(e, c) < cur,
    ensures
        dead_below(model, e, new, n),
        grows(e, old, new, cur),
{
    lemma_bucket_push(old, new, h, c);
}

/// After a search from the state `c` just cached failed, every cached state
/// with fewer than `cur` entries left is dead.
pub proof fn lemma_after_child<M: Model>(
    model: M,
    e: Seq<Entry<Value<M::Input, M::Output>>>,
    before: Map<u64, Vec<CacheEntry<M::State>>>,
    mid: Map<u64, Vec<CacheEntry<M::State>>>,
    after: Map<u64, Vec<CacheEntry<M::State>>>,
    h: u64,
    c: CacheEntry<M::State>,
    child_state: M::State,
    cur: nat,
)
    requires
        lawful(model),
        mid.contains_key(h),
        mid[h]@ == bucket(before, h).push(c),
        forall|k: u64| k != h ==> bucket(mid, k) == #[trigger] bucket(before, k),
        dead_below(model, e, before, cur),
        remaining(e, c) < cur,
        grows(e, mid, after, remaining(e, c)),
        dead_below(model, e, after, remaining(e, c)),
        !completable(model, e, present_of(e, c.linearized), child_state),
        vstd::pervasive::strictly_cloned(child_state, c.state),
    ensures
        dead_below(model, e, after, cur),
        grows(e, before, after, cur),
{
    lemma_bucket_push(before, mid, h, c);
    assert(model.equal_spec(c.state, child_state));
    if completable(model, e, present_of(e, c.linearized), c.state) {
        lemma_transfer(model, e, present_of(e, c.linearized), c.state, child_state);
    }
    assert forall|k: u64, i: int| 0 <= i < bucket(after, k).len() && remaining(e, #[trigger] bucket(after, k)[i]) < cur implies dead(model, e, bucket(after, k)[i]) by {
        assert(bucket(after, k).len() >= bucket(mid, k).len());
        if i < bucket(mid, k).len() {
            assert(bucket(after, k)[i] == bucket(mid, k)[i]);
            if i < bucket(before, k).len() {
                assert(bucket(mid, k)[i] == bucket(before, k)[i]);
            } else {
                assert(bucket(mid, k)[i] == c);
            }
        }
    }
    assert(grows(e, before, mid, cur));
    lemma_grows_trans(e, before, mid, after, cur, remaining(e, c), cur);
}

} // verus!
