use vstd::hash_map::StringHashMap;
use vstd::prelude::*;

verus! {

broadcast use vstd::std_specs::hash::group_hash_axioms;

/// A map keyed by strings that also lists its keys, each once, so that it
/// can be walked.
#[verifier::reject_recursive_types(V)]
pub struct Table<V> {
    map: StringHashMap<V>,
    keys: Vec<String>,
}

impl<V> Table<V> {
    /// What the table maps each key to.
    pub closed spec fn view(&self) -> Map<Seq<char>, V> {
        self.map@
    }

    /// The listed keys.
    pub closed spec fn key_list(&self) -> Seq<Seq<char>> {
        self.keys@.map_values(|k: String| k@)
    }

    /// The keys are listed each once, and they are exactly those mapped.
    pub closed spec fn wf(&self) -> bool {
        &&& self.key_list().no_duplicates()
        &&& forall|k: Seq<char>| self.map@.contains_key(k) <==> self.key_list().contains(k)
    }

    /// An empty table.
    pub fn new() -> (t: Table<V>)
        ensures
            t.wf(),
            t.view() == Map::<Seq<char>, V>::empty(),
    {
        let t = Table { map: StringHashMap::new(), keys: Vec::new() };
        assert(t.key_list() =~= Seq::<Seq<char>>::empty());
        t
    }

    /// The value of `k`.
    pub fn get(&self, k: &str) -> (r: Option<&V>)
        requires
            self.wf(),
        ensures
            r == (if self.view().contains_key(k@) { Some(&self.view()[k@]) } else { None }),
    {
        self.map.get(k)
    }

    /// Maps `k` to `v`.
    pub fn insert(&mut self, k: String, v: V)
        requires
            old(self).wf(),
        ensures
            final(self).wf(),
            final(self).view() == old(self).view().insert(k@, v),
            old(self).view().contains_key(k@) ==> final(self).key_list() == old(self).key_list(),
            !old(self).view().contains_key(k@) ==> final(self).key_list() == old(self).key_list().push(k@),
    {
        let ghost before = self.key_list();
        let ghost kv = k@;
        let fresh = !self.map.contains_key(k.as_str());
        if fresh {
            self.keys.push(k.clone());
            proof {
                assert(self.key_list() =~= before.push(kv));
                assert forall|i: int, j: int| 0 <= i < j < self.key_list().len() implies self.key_list()[i] != self.key_list()[j] by {
                    if j == before.len() {
                        assert(before.contains(before[i]));
                    }
                }
            }
        }
        self.map.insert(k, v);
        proof {
            assert forall|x: Seq<char>| self.map@.contains_key(x) <==> self.key_list().contains(x) by {
                assert(old(self).map@.contains_key(x) <==> before.contains(x));
                assert(self.map@ == old(self).map@.insert(kv, v));
                if fresh {
                    if x == kv {
                        assert(self.key_list()[before.len() as int] == kv);
                    } else if self.key_list().contains(x) {
                        let i = choose|i: int| 0 <= i < self.key_list().len() && self.key_list()[i] == x;
                        assert(before[i] == x);
                    } else if before.contains(x) {
                        let i = choose|i: int| 0 <= i < before.len() && before[i] == x;
                        assert(self.key_list()[i] == x);
                    }
                } else {
                    assert(self.key_list() == before);
                }
            }
        }
    }

    /// The keys, each once.
    pub fn keys(&self) -> (r: &Vec<String>)
        requires
            self.wf(),
        ensures
            r@.map_values(|k: String| k@) == self.key_list(),
    {
        &self.keys
    }

    /// The listed keys are each once, and exactly the mapped ones.
    pub proof fn lemma_keys(&self)
        requires
            self.wf(),
        ensures
            self.key_list().no_duplicates(),
            forall|k: Seq<char>| self.view().contains_key(k) <==> self.key_list().contains(k),
    {
    }
}

} // verus!
