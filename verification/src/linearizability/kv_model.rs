use std::collections::HashMap;
use vstd::hash_map::StringHashMap;
use vstd::prelude::*;
use vstd::string::StringExecFns;

use super::model::{events_paired, views, Event, EventKind, Events, Model, Operation, Operations, Value};

verus! {

broadcast use vstd::std_specs::hash::group_hash_axioms;

/// The kind of a key/value operation.
#[derive(Clone, Debug)]
pub enum Op {
    GET,
    PUT,
    APPEND,
}

/// A key/value operation.
#[derive(Clone, Debug)]
pub struct KvInput {
    pub op: Op,
    pub key: String,
    pub value: String,
}

/// The value a key/value operation returned.
#[derive(Clone, Debug)]
pub struct KvOutput {
    pub value: String,
}

/// A model of a key/value store, one key at a time: the state is the value of
/// a single key, and histories are partitioned by key.
#[derive(Clone, Default)]
pub struct KvModel {}

/// The keys of a history of operations, position by position.
pub open spec fn op_keys(h: Seq<Operation<KvInput, KvOutput>>) -> Seq<Seq<char>> {
    h.map_values(|op: Operation<KvInput, KvOutput>| op.input.key@)
}

/// The key of the latest call with id `id` among the first `n` events of `h`.
pub open spec fn call_key(h: Seq<Event<Value<KvInput, KvOutput>>>, n: int, id: usize) -> Seq<char>
    decreases n,
{
    if n <= 0 {
        Seq::empty()
    } else if h[n - 1].kind is CallEvent && h[n - 1].id == id {
        h[n - 1].value->Input_0.key@
    } else {
        call_key(h, n - 1, id)
    }
}

/// The key of event `i` of `h`: that of its input for a call, that of the
/// latest call of the same operation for a return.
pub open spec fn event_key(h: Seq<Event<Value<KvInput, KvOutput>>>, i: int) -> Seq<char> {
    if h[i].kind is CallEvent {
        h[i].value->Input_0.key@
    } else {
        call_key(h, i, h[i].id)
    }
}

/// The keys of a history of events, position by position.
pub open spec fn event_keys(h: Seq<Event<Value<KvInput, KvOutput>>>) -> Seq<Seq<char>> {
    Seq::new(h.len(), |i: int| event_key(h, i))
}

/// The items of `h` whose key is `k`, in the order of `h`, where `keys[i]` is
/// the key of `h[i]`.
pub open spec fn with_key<T>(h: Seq<T>, keys: Seq<Seq<char>>, k: Seq<char>) -> Seq<T>
    decreases h.len(),
{
    if h.len() == 0 {
        Seq::empty()
    } else if keys[h.len() - 1] == k {
        with_key(h.drop_last(), keys, k).push(h.last())
    } else {
        with_key(h.drop_last(), keys, k)
    }
}

/// `parts` groups `h` by the keys `ks`: part `j` holds, in the order of `h`,
/// the items whose key is `ks[j]` and is not empty; no key comes twice, and
/// the key of each item of `h` is among `ks`.
pub open spec fn keyed_as<T>(h: Seq<T>, keys: Seq<Seq<char>>, parts: Seq<Seq<T>>, ks: Seq<Seq<char>>) -> bool {
    &&& ks.len() == parts.len()
    &&& ks.no_duplicates()
    &&& forall|j: int| 0 <= j < ks.len() ==> #[trigger] parts[j] == with_key(h, keys, ks[j]) && parts[j].len() > 0
    &&& forall|i: int| 0 <= i < h.len() ==> ks.contains(#[trigger] keys[i])
}

/// `parts` groups `h` by key: one part for each key that occurs in `h`,
/// holding the items with that key in the order of `h`.
pub open spec fn grouped_by<T>(h: Seq<T>, keys: Seq<Seq<char>>, parts: Seq<Seq<T>>) -> bool {
    exists|ks: Seq<Seq<char>>| #[trigger] keyed_as(h, keys, parts, ks)
}

/// Taking one more item of `h` adds it to the items of its key.
proof fn lemma_with_key_take<T>(h: Seq<T>, keys: Seq<Seq<char>>, n: int, k: Seq<char>)
    requires
        0 <= n < h.len(),
    ensures
        with_key(h.take(n + 1), keys, k) == if keys[n] == k {
            with_key(h.take(n), keys, k).push(h[n])
        } else {
            with_key(h.take(n), keys, k)
        },
{
    assert(h.take(n + 1).drop_last() =~= h.take(n));
}

/// A key that no item of `h` has selects nothing.
proof fn lemma_with_key_absent<T>(h: Seq<T>, keys: Seq<Seq<char>>, k: Seq<char>)
    requires
        forall|i: int| 0 <= i < h.len() ==> keys[i] != k,
    ensures
        with_key(h, keys, k) == Seq::<T>::empty(),
    decreases h.len(),
{
    if h.len() > 0 {
        lemma_with_key_absent(h.drop_last(), keys, k);
    }
}

/// A key that selects something is the key of some item of `h`.
pub(crate) proof fn lemma_with_key_present<T>(h: Seq<T>, keys: Seq<Seq<char>>, k: Seq<char>)
    requires
        with_key(h, keys, k).len() > 0,
    ensures
        exists|i: int| 0 <= i < h.len() && keys[i] == k,
    decreases h.len(),
{
    if h.len() > 0 && keys[h.len() - 1] != k {
        lemma_with_key_present(h.drop_last(), keys, k);
        let i = choose|i: int| 0 <= i < h.drop_last().len() && keys[i] == k;
        assert(0 <= i < h.len() && keys[i] == k);
    }
}

/// Adding item `n` of `h` to the grouping of the first `n` items, in the part
/// of its key or in a new part, groups the first `n + 1` items.
proof fn lemma_group_step<T>(
    h: Seq<T>,
    keys: Seq<Seq<char>>,
    n: int,
    ps: Seq<Seq<T>>,
    ks: Seq<Seq<char>>,
    ps2: Seq<Seq<T>>,
) -> (ks2: Seq<Seq<char>>)
    requires
        0 <= n < h.len(),
        keyed_as(h.take(n), keys, ps, ks),
        ks.contains(keys[n]) ==> ps2 == ps.update(ks.index_of(keys[n]), ps[ks.index_of(keys[n])].push(h[n])),
        !ks.contains(keys[n]) ==> ps2 == ps.push(seq![h[n]]),
    ensures
        keyed_as(h.take(n + 1), keys, ps2, ks2),
        ks.contains(keys[n]) ==> ks2 == ks,
        !ks.contains(keys[n]) ==> ks2 == ks.push(keys[n]),
{
    let k = keys[n];
    assert forall|kk: Seq<char>| true implies #[trigger] with_key(h.take(n + 1), keys, kk) == if keys[n] == kk {
        with_key(h.take(n), keys, kk).push(h[n])
    } else {
        with_key(h.take(n), keys, kk)
    } by {
        lemma_with_key_take(h, keys, n, kk);
    }
    if ks.contains(k) {
        let j0 = ks.index_of(k);
        assert forall|j: int| 0 <= j < ks.len() implies #[trigger] ps2[j] == with_key(h.take(n + 1), keys, ks[j]) && ps2[j].len() > 0 by {
            assert(ps[j] == with_key(h.take(n), keys, ks[j]));
            if j != j0 {
                assert(ks[j] != ks[j0]);
            }
        }
        assert forall|i: int| 0 <= i < h.take(n + 1).len() implies ks.contains(#[trigger] keys[i]) by {
            if i < n {
                assert(ks.contains(keys[i]));
            }
        }
        ks
    } else {
        let ks2 = ks.push(k);
        assert forall|i: int| 0 <= i < h.take(n).len() implies keys[i] != k by {
            assert(ks.contains(keys[i]));
        }
        lemma_with_key_absent(h.take(n), keys, k);
        assert forall|j: int| 0 <= j < ks2.len() implies #[trigger] ps2[j] == with_key(h.take(n + 1), keys, ks2[j]) && ps2[j].len() > 0 by {
            if j < ks.len() {
                assert(ps[j] == with_key(h.take(n), keys, ks[j]));
                assert(ks[j] != k);
            } else {
                assert(with_key(h.take(n), keys, k).push(h[n]) =~= seq![h[n]]);
            }
        }
        assert forall|a: int, b: int| 0 <= a < ks2.len() && 0 <= b < ks2.len() && a != b implies ks2[a] != ks2[b] by {
            if a < ks.len() && b < ks.len() {
            } else if a < ks.len() {
                assert(ks.contains(ks[a]));
            } else {
                assert(ks.contains(ks[b]));
            }
        }
        assert forall|i: int| 0 <= i < h.take(n + 1).len() implies ks2.contains(#[trigger] keys[i]) by {
            if i < n {
                assert(ks.contains(keys[i]));
                let w = choose|w: int| 0 <= w < ks.len() && ks[w] == keys[i];
                assert(ks2[w] == keys[i]);
            } else {
                assert(ks2[ks.len() as int] == keys[i]);
            }
        }
        ks2
    }
}

/// Adding `x` to part `j` adds it to the whole.
proof fn lemma_push_into_part<T>(ps: Seq<Seq<T>>, j: int, x: T)
    requires
        0 <= j < ps.len(),
    ensures
        ps.update(j, ps[j].push(x)).flatten().to_multiset() == ps.flatten().to_multiset().insert(x),
    decreases ps.len(),
{
    broadcast use vstd::seq_lib::group_to_multiset_ensures;
    broadcast use vstd::seq_lib::lemma_multiset_commutative;
    broadcast use vstd::multiset::group_multiset_axioms;

    let ps2 = ps.update(j, ps[j].push(x));
    assert(ps.flatten() == ps[0] + ps.drop_first().flatten());
    assert(ps2.flatten() == ps2[0] + ps2.drop_first().flatten());
    if j == 0 {
        assert(ps2.drop_first() =~= ps.drop_first());
        assert(ps[0].push(x).to_multiset() =~= ps[0].to_multiset().insert(x));
        assert(ps2.flatten().to_multiset() =~= ps.flatten().to_multiset().insert(x));
    } else {
        lemma_push_into_part(ps.drop_first(), j - 1, x);
        assert(ps2.drop_first() =~= ps.drop_first().update(j - 1, ps[j].push(x)));
        assert(ps2.flatten().to_multiset() =~= ps.flatten().to_multiset().insert(x));
    }
}

/// Adding a part of one item adds the item to the whole.
proof fn lemma_push_part<T>(ps: Seq<Seq<T>>, x: T)
    ensures
        ps.push(seq![x]).flatten().to_multiset() == ps.flatten().to_multiset().insert(x),
{
    broadcast use vstd::seq_lib::group_to_multiset_ensures;
    broadcast use vstd::seq_lib::lemma_multiset_commutative;
    broadcast use vstd::multiset::group_multiset_axioms;

    ps.lemma_flatten_push(seq![x]);
    assert(ps.flatten() + seq![x] =~= ps.flatten().push(x));
}

/// No parts hold nothing of a history.
proof fn lemma_nothing_split<T>(ps: Seq<Seq<T>>, h: Seq<T>)
    requires
        ps.len() == 0,
    ensures
        ps.flatten().to_multiset() == h.take(0).to_multiset(),
{
    broadcast use vstd::seq_lib::group_to_multiset_ensures;
    assert(ps.flatten() =~= Seq::<T>::empty());
    assert(h.take(0) =~= Seq::<T>::empty());
}

/// Adds `x` to the part of key `key`, where `index` maps each key to the
/// position of its part.
fn add_to_part<T>(parts: &mut Vec<Vec<T>>, index: &mut StringHashMap<usize>, key: &String, x: T)
    requires
        forall|k: Seq<char>| #[trigger] old(index)@.contains_key(k) ==> old(index)@[k] < old(parts)@.len(),
    ensures
        forall|k: Seq<char>| #[trigger] final(index)@.contains_key(k) ==> final(index)@[k] < final(parts)@.len(),
        views(final(parts)@).flatten().to_multiset() == views(old(parts)@).flatten().to_multiset().insert(x),
        old(index)@.contains_key(key@) ==> final(index)@ == old(index)@ && views(final(parts)@) == views(old(parts)@).update(
            old(index)@[key@] as int,
            views(old(parts)@)[old(index)@[key@] as int].push(x),
        ),
        !old(index)@.contains_key(key@) ==> final(index)@ == old(index)@.insert(key@, old(parts).len())
            && views(final(parts)@) == views(old(parts)@).push(seq![x]),
{
    match index.get(key.as_str()) {
        Some(j) => {
            let j = *j;
            let mut part = parts.remove(j);
            let ghost old_ps = views(old(parts)@);
            part.push(x);
            parts.insert(j, part);
            proof {
                assert(views(parts@) =~= old_ps.update(j as int, old_ps[j as int].push(x)));
                lemma_push_into_part(old_ps, j as int, x);
            }
        },
        None => {
            let j = parts.len();
            let ghost old_ps = views(parts@);
            let mut part = Vec::new();
            part.push(x);
            parts.push(part);
            index.insert(key.clone(), j);
            proof {
                assert(views(parts@) =~= old_ps.push(seq![x]));
                lemma_push_part(old_ps, x);
            }
        },
    }
}

impl Model for KvModel {
    type State = String;
    type Input = KvInput;
    type Output = KvOutput;

    open spec fn init_spec(&self, s: String) -> bool {
        s@ == Seq::<char>::empty()
    }

    open spec fn steps_to(&self, state: String, input: KvInput, output: KvOutput, next: String) -> bool {
        match input.op {
            Op::GET => output.value@ == state@ && next@ == state@,
            Op::PUT => next@ == input.value@,
            Op::APPEND => next@ == state@ + input.value@,
        }
    }

    open spec fn equal_spec(&self, state1: String, state2: String) -> bool {
        state1@ == state2@
    }

    open spec fn partitioned(&self, whole: Seq<Operation<KvInput, KvOutput>>, parts: Seq<Seq<Operation<KvInput, KvOutput>>>) -> bool {
        grouped_by(whole, op_keys(whole), parts)
    }

    open spec fn partitioned_events(&self, whole: Seq<Event<Value<KvInput, KvOutput>>>, parts: Seq<Seq<Event<Value<KvInput, KvOutput>>>>) -> bool {
        grouped_by(whole, event_keys(whole), parts)
    }

    fn partition(&self, history: Operations<KvInput, KvOutput>) -> (parts: Vec<Operations<KvInput, KvOutput>>) {
        let ghost h = history@;
        let ghost keys = op_keys(h);
        let mut index: StringHashMap<usize> = StringHashMap::new();
        let mut parts: Vec<Vec<Operation<KvInput, KvOutput>>> = Vec::new();
        let ghost mut ks: Seq<Seq<char>> = Seq::empty();
        proof {
            lemma_nothing_split(views(parts@), h);
            assert(keyed_as(h.take(0), keys, views(parts@), ks));
        }
        for op in it: history.into_iter()
            invariant
                it.seq() == h,
                keys == op_keys(h),
                forall|k: Seq<char>| #[trigger] index@.contains_key(k) ==> index@[k] < parts@.len(),
                views(parts@).flatten().to_multiset() == h.take(it.index()).to_multiset(),
                keyed_as(h.take(it.index()), keys, views(parts@), ks),
                forall|k: Seq<char>| #[trigger] index@.contains_key(k) <==> ks.contains(k),
                forall|j: int| 0 <= j < ks.len() ==> index@[#[trigger] ks[j]] == j,
        {
            assert(it.index() < it.seq().len());
            let ghost n = it.index();
            proof {
                broadcast use vstd::seq_lib::group_to_multiset_ensures;
                assert(h.take(n + 1) =~= h.take(n).push(h[n]));
            }
            let key = op.input.key.clone();
            let ghost ps = views(parts@);
            let ghost old_index = index@;
            let ghost old_len = parts.len();
            add_to_part(&mut parts, &mut index, &key, op);
            proof {
                assert(key@ == keys[n]);
                if ks.contains(key@) {
                    let j0 = ks.index_of(key@);
                    assert(old_index[ks[j0]] == j0);
                }
                let ks2 = lemma_group_step(h, keys, n, ps, ks, views(parts@));
                if !ks.contains(key@) {
                    assert forall|j: int| 0 <= j < ks2.len() implies index@[#[trigger] ks2[j]] == j by {
                        if j < ks.len() {
                            assert(ks[j] != key@);
                            assert(ks2[j] == ks[j]);
                            assert(old_index[ks[j]] == j);
                        } else {
                            assert(ks2[j] == key@);
                            assert(ps.len() == ks.len());
                            assert(old_len == ps.len());
                            assert(index@ == old_index.insert(key@, old_len));
                            assert(index@[key@] == ks.len());
                        }
                    }
                    assert forall|k: Seq<char>| #[trigger] index@.contains_key(k) <==> ks2.contains(k) by {
                        if ks.contains(k) {
                            let w = choose|w: int| 0 <= w < ks.len() && ks[w] == k;
                            assert(ks2[w] == k);
                        }
                        if ks2.contains(k) && k != key@ {
                            let w = choose|w: int| 0 <= w < ks2.len() && ks2[w] == k;
                            assert(ks[w] == k);
                        }
                        if k == key@ {
                            assert(ks2[ks.len() as int] == k);
                        }
                    }
                }
                ks = ks2;
            }
        }
        proof {
            assert(h.take(h.len() as int) =~= h);
            assert(keyed_as(h, op_keys(h), views(parts@), ks));
        }
        parts
    }

    fn partition_event(&self, history: Events<KvInput, KvOutput>) -> (parts: Vec<Events<KvInput, KvOutput>>) {
        let ghost h = history@;
        let ghost keys = event_keys(h);
        let mut index: StringHashMap<usize> = StringHashMap::new();
        let mut matched: HashMap<usize, String> = HashMap::new();
        let mut parts: Vec<Vec<Event<Value<KvInput, KvOutput>>>> = Vec::new();
        let ghost mut ks: Seq<Seq<char>> = Seq::empty();
        proof {
            lemma_nothing_split(views(parts@), h);
            assert(keyed_as(h.take(0), keys, views(parts@), ks));
        }
        for event in it: history.into_iter()
            invariant
                it.seq() == h,
                keys == event_keys(h),
                events_paired(h),
                forall|k: Seq<char>| #[trigger] index@.contains_key(k) ==> index@[k] < parts@.len(),
                forall|i: int| 0 <= i < it.index() && (#[trigger] h[i]).kind is CallEvent ==> matched@.contains_key(h[i].id),
                forall|id: usize| #[trigger] matched@.contains_key(id) ==> matched@[id]@ == call_key(h, it.index() as int, id),
                views(parts@).flatten().to_multiset() == h.take(it.index()).to_multiset(),
                keyed_as(h.take(it.index()), keys, views(parts@), ks),
                forall|k: Seq<char>| #[trigger] index@.contains_key(k) <==> ks.contains(k),
                forall|j: int| 0 <= j < ks.len() ==> index@[#[trigger] ks[j]] == j,
        {
            assert(it.index() < it.seq().len());
            let ghost n = it.index();
            proof {
                broadcast use vstd::seq_lib::group_to_multiset_ensures;
                assert(h.take(n + 1) =~= h.take(n).push(h[n]));
                assert(event == h[n]);
            }
            let key = match event.kind {
                EventKind::CallEvent => {
                    let key = event.value.input().key.clone();
                    matched.insert(event.id, key.clone());
                    key
                },
                EventKind::ReturnEvent => {
                    proof {
                        let i = choose|i: int| 0 <= i < n && h[i].kind is CallEvent && h[i].id == h[n].id;
                        assert(matched@.contains_key(h[i].id));
                    }
                    match matched.get(&event.id) {
                        Some(k) => k.clone(),
                        None => vstd::pervasive::unreached(),
                    }
                },
            };
            proof {
                assert(key@ == keys[n]);
                assert forall|id: usize| #[trigger] matched@.contains_key(id) implies matched@[id]@ == call_key(h, n + 1, id) by {
                    if h[n].kind is CallEvent && h[n].id == id {
                    } else {
                        assert(call_key(h, n + 1, id) == call_key(h, n, id));
                    }
                }
            }
            let ghost ps = views(parts@);
            let ghost old_index = index@;
            let ghost old_len = parts.len();
            add_to_part(&mut parts, &mut index, &key, event);
            proof {
                if ks.contains(key@) {
                    let j0 = ks.index_of(key@);
                    assert(old_index[ks[j0]] == j0);
                }
                let ks2 = lemma_group_step(h, keys, n, ps, ks, views(parts@));
                if !ks.contains(key@) {
                    assert forall|j: int| 0 <= j < ks2.len() implies index@[#[trigger] ks2[j]] == j by {
                        if j < ks.len() {
                            assert(ks[j] != key@);
                            assert(ks2[j] == ks[j]);
                            assert(old_index[ks[j]] == j);
                        } else {
                            assert(ks2[j] == key@);
                            assert(ps.len() == ks.len());
                            assert(old_len == ps.len());
                            assert(index@ == old_index.insert(key@, old_len));
                            assert(index@[key@] == ks.len());
                        }
                    }
                    assert forall|k: Seq<char>| #[trigger] index@.contains_key(k) <==> ks2.contains(k) by {
                        if ks.contains(k) {
                            let w = choose|w: int| 0 <= w < ks.len() && ks[w] == k;
                            assert(ks2[w] == k);
                        }
                        if ks2.contains(k) && k != key@ {
                            let w = choose|w: int| 0 <= w < ks2.len() && ks2[w] == k;
                            assert(ks[w] == k);
                        }
                        if k == key@ {
                            assert(ks2[ks.len() as int] == k);
                        }
                    }
                }
                ks = ks2;
            }
        }
        proof {
            assert(h.take(h.len() as int) =~= h);
            assert(keyed_as(h, event_keys(h), views(parts@), ks));
        }
        parts
    }

    fn init(&self) -> (s: String) {
        String::new()
    }

    fn step(&self, state: &String, input: &KvInput, output: &KvOutput) -> (r: (bool, String))
        ensures
            r.0 == (input.op is GET ==> output.value@ == state@),
            r.1@ == match input.op {
                Op::GET => state@,
                Op::PUT => input.value@,
                Op::APPEND => state@ + input.value@,
            },
    {
        match input.op {
            Op::GET => {
                let ok = output.value == *state;
                let next = state.clone();
                proof {
                    if ok {
                        assert(self.steps_to(*state, *input, *output, next));
                    }
                }
                (ok, next)
            },
            Op::PUT => {
                let next = input.value.clone();
                assert(self.steps_to(*state, *input, *output, next));
                (true, next)
            },
            Op::APPEND => {
                let next = state.clone().concat(input.value.as_str());
                assert(self.steps_to(*state, *input, *output, next));
                (true, next)
            },
        }
    }

    fn equal(&self, state1: &String, state2: &String) -> (r: bool) {
        *state1 == *state2
    }
}

} // verus!
