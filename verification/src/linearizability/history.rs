use std::collections::HashMap;
use vstd::prelude::*;

use super::entries::{is_call, values_match, Entry, EntryKind};
use super::model::{Event, EventKind, Operation, Value};

verus! {

broadcast use vstd::std_specs::hash::group_hash_axioms;

/// The call entry of operation `id`.
pub open spec fn call_entry<I, O>(id: int, op: Operation<I, O>) -> Entry<Value<I, O>> {
    Entry { kind: EntryKind::CallEntry, value: Value::Input(op.input), id: id as usize, time: op.call }
}

/// The return entry of operation `id`.
pub open spec fn return_entry<I, O>(id: int, op: Operation<I, O>) -> Entry<Value<I, O>> {
    Entry { kind: EntryKind::ReturnEntry, value: Value::Output(op.output), id: id as usize, time: op.finish }
}

/// The call and return entries of each operation, in the order of the history.
pub open spec fn entries_of<I, O>(h: Seq<Operation<I, O>>) -> Seq<Entry<Value<I, O>>>
    decreases h.len(),
{
    if h.len() == 0 {
        Seq::empty()
    } else {
        let id = h.len() - 1;
        entries_of(h.drop_last()).push(call_entry(id, h.last())).push(return_entry(id, h.last()))
    }
}

/// The position just after the last entry of `s` that is not later than `t`.
pub open spec fn upper<T>(s: Seq<Entry<T>>, t: i64) -> int
    decreases s.len(),
{
    if s.len() == 0 {
        0
    } else if s.last().time <= t {
        s.len() as int
    } else {
        upper(s.drop_last(), t)
    }
}

/// `s` sorted by time; entries of equal time keep their order.
pub open spec fn sort_by_time<T>(s: Seq<Entry<T>>) -> Seq<Entry<T>>
    decreases s.len(),
{
    if s.len() == 0 {
        Seq::empty()
    } else {
        let sorted = sort_by_time(s.drop_last());
        sorted.insert(upper(sorted, s.last().time), s.last())
    }
}

proof fn lemma_upper_bound<T>(s: Seq<Entry<T>>, t: i64)
    ensures
        0 <= upper(s, t) <= s.len(),
    decreases s.len(),
{
    if s.len() > 0 {
        lemma_upper_bound(s.drop_last(), t);
    }
}

proof fn lemma_sort_len<T>(s: Seq<Entry<T>>)
    ensures
        sort_by_time(s).len() == s.len(),
    decreases s.len(),
{
    if s.len() > 0 {
        lemma_sort_len(s.drop_last());
        lemma_upper_bound(sort_by_time(s.drop_last()), s.last().time);
    }
}

/// Inserts `x` after the last entry of `v` that is not later than it.
fn insert_by_time<T>(v: &mut Vec<Entry<T>>, x: Entry<T>)
    ensures
        final(v)@ == old(v)@.insert(upper(old(v)@, x.time), x),
{
    let t = x.time;
    let mut k = v.len();
    assert(v@.take(k as int) =~= v@);
    while k > 0 && v[k - 1].time > t
        invariant
            k <= v@.len(),
            v@ == old(v)@,
            upper(v@, t) == upper(v@.take(k as int), t),
        decreases k,
    {
        proof {
            assert(v@.take(k as int).drop_last() =~= v@.take(k - 1));
        }
        k = k - 1;
    }
    proof {
        if k > 0 {
            assert(v@.take(k as int).last() == v@[k - 1]);
        }
        assert(upper(v@.take(k as int), t) == k);
        assert(v@.take(v@.len() as int) =~= v@);
    }
    v.insert(k, x);
}

/// The call and return entries of each operation of the history, the id of an
/// operation being its position in the history, sorted by time; entries of
/// equal time keep the order of the history.
pub fn make_entries<I, O>(history: Vec<Operation<I, O>>) -> (r: Vec<Entry<Value<I, O>>>)
    ensures
        r@ == sort_by_time(entries_of(history@)),
{
    let ghost h = history@;
    let n = history.len();
    let mut entries: Vec<Entry<Value<I, O>>> = Vec::new();
    let mut id: usize = 0;
    for elem in it: history.into_iter()
        invariant
            it.seq() == h,
            h.len() == n,
            id == it.index(),
            id <= n,
            entries@ == sort_by_time(entries_of(h.take(id as int))),
    {
        let Operation { input, call, output, finish } = elem;
        let ghost base = entries_of(h.take(id as int));
        let ghost ce = call_entry(id as int, h[id as int]);
        let ghost re = return_entry(id as int, h[id as int]);
        proof {
            assert(h.take(id + 1).drop_last() =~= h.take(id as int));
            assert(h.take(id + 1).last() == h[id as int]);
            assert(entries_of(h.take(id + 1)) == base.push(ce).push(re));
            assert(base.push(ce).drop_last() =~= base);
            assert(base.push(ce).push(re).drop_last() =~= base.push(ce));
            assert(sort_by_time(base.push(ce)) == sort_by_time(base).insert(upper(sort_by_time(base), ce.time), ce));
            assert(sort_by_time(base.push(ce).push(re)) == sort_by_time(base.push(ce)).insert(upper(sort_by_time(base.push(ce)), re.time), re));
        }
        insert_by_time(&mut entries, Entry { kind: EntryKind::CallEntry, value: Value::Input(input), id, time: call });
        insert_by_time(&mut entries, Entry { kind: EntryKind::ReturnEntry, value: Value::Output(output), id, time: finish });
        id = id + 1;
    }
    proof {
        assert(h.take(h.len() as int) =~= h);
    }
    entries
}

/// Sorting keeps the entries.
pub proof fn lemma_sort_multiset<T>(s: Seq<Entry<T>>)
    ensures
        sort_by_time(s).to_multiset() == s.to_multiset(),
    decreases s.len(),
{
    broadcast use vstd::seq_lib::group_to_multiset_ensures;

    if s.len() > 0 {
        lemma_sort_multiset(s.drop_last());
        let sorted = sort_by_time(s.drop_last());
        lemma_upper_bound(sorted, s.last().time);
        vstd::seq_lib::to_multiset_insert(sorted, upper(sorted, s.last().time), s.last());
        assert(s.drop_last().push(s.last()) =~= s);
    }
}

/// Every entry of a history names an operation of it and carries the value
/// of its kind.
pub proof fn lemma_entries_of<I, O>(h: Seq<Operation<I, O>>)
    ensures
        entries_of(h).len() == 2 * h.len(),
        forall|i: int| 0 <= i < entries_of(h).len() ==> {
            let x = #[trigger] entries_of(h)[i];
            &&& (x.id as int) < h.len()
            &&& if is_call(x) { x.value is Input } else { x.value is Output }
        },
    decreases h.len(),
{
    if h.len() > 0 {
        lemma_entries_of(h.drop_last());
    }
}

/// Sorted entries of a history are well formed for the checker.
pub proof fn lemma_sorted_entries<I, O>(h: Seq<Operation<I, O>>)
    ensures
        values_match(sort_by_time(entries_of(h))),
        sort_by_time(entries_of(h)).len() == 2 * h.len(),
        forall|j: int| 0 <= j < sort_by_time(entries_of(h)).len() ==> (#[trigger] sort_by_time(entries_of(h))[j].id as int) < h.len(),
{
    broadcast use vstd::seq_lib::group_to_multiset_ensures;

    let e = entries_of(h);
    let s = sort_by_time(e);
    lemma_entries_of(h);
    lemma_sort_len(e);
    lemma_sort_multiset(e);
    assert forall|j: int| 0 <= j < s.len() implies (#[trigger] s[j].id as int) < h.len() && (if is_call(s[j]) { s[j].value is Input } else { s[j].value is Output }) by {
        assert(s.contains(s[j]));
        assert(s.to_multiset().count(s[j]) > 0);
        assert(e.contains(s[j]));
        let i = choose|i: int| 0 <= i < e.len() && e[i] == s[j];
        assert(e[i] == s[j]);
    }
    assert forall|j: int| 0 <= j < s.len() implies (if is_call(#[trigger] s[j]) { s[j].value is Input } else { s[j].value is Output }) by {
        assert((s[j].id as int) < h.len());
    }
}

/// The new numbers of the ids `ids`: each id gets the number of distinct ids
/// before its first occurrence.
pub open spec fn renumbering(ids: Seq<usize>) -> Map<usize, usize>
    decreases ids.len(),
{
    if ids.len() == 0 {
        Map::empty()
    } else {
        let m = renumbering(ids.drop_last());
        if m.contains_key(ids.last()) {
            m
        } else {
            m.insert(ids.last(), m.len() as usize)
        }
    }
}

/// The ids of the events.
pub open spec fn ids_of<T>(ev: Seq<Event<T>>) -> Seq<usize> {
    ev.map_values(|x: Event<T>| x.id)
}

proof fn lemma_renumbering<T>(ev: Seq<Event<T>>, i: int)
    requires
        0 <= i <= ev.len(),
    ensures
        renumbering(ids_of(ev).take(i)).dom().finite(),
        renumbering(ids_of(ev).take(i)).len() <= i,
        forall|x: usize| renumbering(ids_of(ev).take(i)).contains_key(x) ==> (renumbering(ids_of(ev).take(i))[x] as int) < renumbering(ids_of(ev).take(i)).len(),
    decreases i,
{
    if i > 0 {
        lemma_renumbering(ev, i - 1);
        assert(ids_of(ev).take(i).drop_last() =~= ids_of(ev).take(i - 1));
    }
}

/// Numbers the operations of the events from 0, in the order of their first
/// event.
pub fn renumber<T>(events: Vec<Event<T>>) -> (r: Vec<Event<T>>)
    ensures
        r@.len() == events@.len(),
        forall|i: int| 0 <= i < r@.len() ==> {
            &&& (#[trigger] r@[i]).kind == events@[i].kind
            &&& r@[i].value == events@[i].value
            &&& r@[i].id == renumbering(ids_of(events@).take(i + 1))[events@[i].id]
            &&& (r@[i].id as int) < r@.len()
        },
{
    let ghost ev = events@;
    let ghost ids = ids_of(ev);
    let n = events.len();
    let mut e: Vec<Event<T>> = Vec::new();
    let mut m: HashMap<usize, usize> = HashMap::new();
    let mut id: usize = 0;
    let mut i: usize = 0;
    for event in it: events.into_iter()
        invariant
            it.seq() == ev,
            ids == ids_of(ev),
            ev.len() == n,
            i == it.index(),
            i <= n,
            e@.len() == i,
            m@ == renumbering(ids.take(i as int)),
            id as int == m@.len(),
            forall|k: int| 0 <= k < i ==> {
                &&& (#[trigger] e@[k]).kind == ev[k].kind
                &&& e@[k].value == ev[k].value
                &&& e@[k].id == renumbering(ids.take(k + 1))[ev[k].id]
                &&& (e@[k].id as int) < n
            },
    {
        assert(it.index() < it.seq().len());
        proof {
            lemma_renumbering(ev, i as int);
            lemma_renumbering(ev, i + 1);
            assert(ids.take(i + 1).drop_last() =~= ids.take(i as int));
            assert(ids.take(i + 1).last() == ev[i as int].id);
        }
        let Event { kind, value, id: old_id } = event;
        let new_id = match m.get(&old_id) {
            Some(v) => *v,
            None => {
                let v = id;
                m.insert(old_id, v);
                id = id + 1;
                v
            },
        };
        proof {
            assert(m@ == renumbering(ids.take(i + 1)));
        }
        e.push(Event { kind, value, id: new_id });
        i = i + 1;
    }
    e
}

/// The entry of an event, placed at no particular time.
pub open spec fn entry_of_event<T>(x: Event<T>) -> Entry<T> {
    Entry {
        kind: match x.kind {
            EventKind::CallEvent => EntryKind::CallEntry,
            EventKind::ReturnEvent => EntryKind::ReturnEntry,
        },
        value: x.value,
        id: x.id,
        time: -1i64,
    }
}

/// The entries of the events, in the order of the events.
pub fn convert_entries<T>(events: Vec<Event<T>>) -> (r: Vec<Entry<T>>)
    ensures
        r@ == events@.map_values(|x: Event<T>| entry_of_event(x)),
{
    let ghost ev = events@;
    let mut entries: Vec<Entry<T>> = Vec::new();
    for event in it: events.into_iter()
        invariant
            it.seq() == ev,
            entries@ == ev.take(it.index()).map_values(|x: Event<T>| entry_of_event(x)),
    {
        proof {
            assert(ev.take(it.index() + 1).map_values(|x: Event<T>| entry_of_event(x)) =~= ev.take(it.index()).map_values(|x: Event<T>| entry_of_event(x)).push(entry_of_event(ev[it.index()])));
        }
        let Event { kind, value, id } = event;
        let entry = match kind {
            EventKind::CallEvent => Entry { kind: EntryKind::CallEntry, value, id, time: -1 },
            EventKind::ReturnEvent => Entry { kind: EntryKind::ReturnEntry, value, id, time: -1 },
        };
        entries.push(entry);
    }
    proof {
        assert(ev.take(ev.len() as int) =~= ev);
    }
    entries
}

} // verus!
