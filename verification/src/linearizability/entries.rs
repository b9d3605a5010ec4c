use std::collections::HashMap;
use vstd::prelude::*;

use super::model::Value;

verus! {

broadcast use vstd::std_specs::hash::group_hash_axioms;

/// Whether an entry invokes or completes an operation.
pub enum EntryKind {
    CallEntry,
    ReturnEntry,
}

/// An event of a history placed in time.
pub struct Entry<T> {
    pub kind: EntryKind,
    pub value: T,
    pub id: usize,
    pub time: i64,
}

/// Whether `e` invokes an operation.
pub open spec fn is_call<T>(e: Entry<T>) -> bool {
    e.kind is CallEntry
}

/// Whether `j` is a return of the same operation as the call at `p`, after it.
pub open spec fn returns_for<T>(e: Seq<Entry<T>>, p: int, j: int) -> bool {
    p < j < e.len() && !is_call(e[j]) && e[j].id == e[p].id
}

/// The position of the first return after `p` of the operation of entry `p`.
pub open spec fn first_ret<T>(e: Seq<Entry<T>>, p: int) -> Option<int> {
    if exists|j: int| returns_for(e, p, j) {
        Some(choose|j: int| returns_for(e, p, j) && forall|q: int| p < q < j ==> !returns_for(e, p, q))
    } else {
        None
    }
}

/// The first return after `p` is `j`.
pub proof fn lemma_first_ret<T>(e: Seq<Entry<T>>, p: int, j: int)
    requires
        returns_for(e, p, j),
        forall|q: int| p < q < j ==> !returns_for(e, p, q),
    ensures
        first_ret(e, p) == Some(j),
{
    let c = choose|c: int| returns_for(e, p, c) && forall|q: int| p < q < c ==> !returns_for(e, p, q);
    assert(returns_for(e, p, c) && forall|q: int| p < q < c ==> !returns_for(e, p, q));
    if c < j {
        assert(!returns_for(e, p, c));
    } else if c > j {
        assert(!returns_for(e, p, j));
    }
}

/// Some return after `p` is the first.
proof fn lemma_min_ret<T>(e: Seq<Entry<T>>, p: int, j: int)
    requires
        returns_for(e, p, j),
    ensures
        exists|m: int| returns_for(e, p, m) && forall|q: int| p < q < m ==> !returns_for(e, p, q),
    decreases j - p,
{
    if exists|q: int| p < q < j && returns_for(e, p, q) {
        let q = choose|q: int| p < q < j && returns_for(e, p, q);
        lemma_min_ret(e, p, q);
    } else {
        assert(returns_for(e, p, j) && forall|q: int| p < q < j ==> !returns_for(e, p, q));
    }
}

/// The first return after `p`, where there is one, is a return of the operation
/// of `p`, and no earlier one is.
pub proof fn lemma_first_ret_props<T>(e: Seq<Entry<T>>, p: int)
    ensures
        first_ret(e, p) is Some <==> exists|j: int| returns_for(e, p, j),
        first_ret(e, p) is Some ==> returns_for(e, p, first_ret(e, p)->0)
            && forall|q: int| p < q < first_ret(e, p)->0 ==> !returns_for(e, p, q),
{
    if exists|j: int| returns_for(e, p, j) {
        let j = choose|j: int| returns_for(e, p, j);
        lemma_min_ret(e, p, j);
    }
}

/// Every call carries an input and every return an output.
pub open spec fn values_match<I, O>(e: Seq<Entry<Value<I, O>>>) -> bool {
    forall|j: int| 0 <= j < e.len() ==> if is_call(#[trigger] e[j]) { e[j].value is Input } else { e[j].value is Output }
}

/// The position of a return as an integer.
pub open spec fn as_int(o: Option<usize>) -> Option<int> {
    match o {
        Some(j) => Some(j as int),
        None => None,
    }
}

/// For each call, the position of the first return after it of the same
/// operation; `None` for returns and for calls that are never returned.
pub fn match_returns<T>(e: &Vec<Entry<T>>) -> (r: Vec<Option<usize>>)
    ensures
        r@.len() == e@.len(),
        forall|p: int| 0 <= p < e@.len() ==> as_int(#[trigger] r@[p]) == if is_call(e@[p]) { first_ret(e@, p) } else { None },
{
    let len = e.len();
    let mut r: Vec<Option<usize>> = Vec::new();
    let mut k: usize = 0;
    while k < len
        invariant
            k <= len,
            r@.len() == k,
            forall|p: int| 0 <= p < k ==> r@[p] is None,
        decreases len - k,
    {
        r.push(None);
        k = k + 1;
    }
    let mut last: HashMap<usize, usize> = HashMap::new();
    let mut i: usize = len;
    while i > 0
        invariant
            len == e@.len(),
            i <= len,
            r@.len() == len,
            forall|p: int| 0 <= p < i ==> r@[p] is None,
            forall|x: usize| #[trigger] last@.contains_key(x) ==> {
                let j = last@[x] as int;
                &&& i <= j < len
                &&& !is_call(e@[j])
                &&& e@[j].id == x
                &&& forall|q: int| i <= q < j ==> !(e@[q].id == x && !is_call(e@[q]))
            },
            forall|q: int| i <= q < len && !last@.contains_key(#[trigger] e@[q].id) ==> is_call(e@[q]),
            forall|p: int| i <= p < len ==> as_int(#[trigger] r@[p]) == if is_call(e@[p]) { first_ret(e@, p) } else { None },
        decreases i,
    {
        i = i - 1;
        let id = e[i].id;
        match e[i].kind {
            EntryKind::CallEntry => {
                let found = last.get(&id);
                match found {
                    Some(j) => {
                        let j = *j;
                        proof {
                            lemma_first_ret(e@, i as int, j as int);
                        }
                        r.set(i, Some(j));
                    },
                    None => {
                        proof {
                            assert forall|j: int| !returns_for(e@, i as int, j) by {
                                if returns_for(e@, i as int, j) {
                                    assert(e@[j].id == id);
                                }
                            }
                        }
                        r.set(i, None);
                    },
                }
            },
            EntryKind::ReturnEntry => {
                last.insert(id, i);
            },
        }
    }
    r
}

} // verus!
