use vstd::prelude::*;

use super::node::{declined_count, granted_count};

verus! {

/// Number of pairs of `s` whose vote is `granted`.
pub open spec fn count_votes(s: Seq<(u64, bool)>, granted: bool) -> nat
    decreases s.len(),
{
    if s.len() == 0 {
        0
    } else {
        count_votes(s.drop_last(), granted) + if s.last().1 == granted { 1nat } else { 0nat }
    }
}

/// Counting the votes of any listing of a map's pairs, each once, counts the
/// votes of the map.
pub proof fn lemma_count_votes(s: Seq<(u64, bool)>, m: Map<u64, bool>)
    requires
        s.no_duplicates(),
        s.to_set() == m.kv_pairs(),
        m.dom().finite(),
    ensures
        count_votes(s, true) == granted_count(m),
        count_votes(s, false) == declined_count(m),
    decreases s.len(),
{
    let yes = |k: u64| m[k];
    let no = |k: u64| !m[k];
    if s.len() == 0 {
        assert(m.dom() =~= Set::empty()) by {
            assert forall|k: u64| !m.dom().contains(k) by {
                if m.dom().contains(k) {
                    assert(m.kv_pairs().contains((k, m[k])));
                    assert(s.to_set().contains((k, m[k])));
                }
            }
        }
        assert(m.dom().filter(yes) =~= Set::empty());
        assert(m.dom().filter(no) =~= Set::empty());
    } else {
        let x = s.last();
        let s2 = s.drop_last();
        let m2 = m.remove(x.0);
        assert(s.to_set().contains(x)) by {
            assert(s[s.len() - 1] == x);
        }
        assert(m.dom().contains(x.0) && m[x.0] == x.1);
        assert(s2.no_duplicates()) by {
            assert forall|i: int, j: int| 0 <= i < s2.len() && 0 <= j < s2.len() && i != j implies s2[i] != s2[j] by {
                assert(s2[i] == s[i] && s2[j] == s[j]);
            }
        }
        assert(s2.to_set() =~= m2.kv_pairs()) by {
            assert forall|p: (u64, bool)| s2.to_set().contains(p) implies m2.kv_pairs().contains(p) by {
                let i = choose|i: int| 0 <= i < s2.len() && s2[i] == p;
                assert(s[i] == p);
                assert(s.to_set().contains(p));
                assert(p != x) by {
                    assert(s[s.len() - 1] == x);
                    assert(i != s.len() - 1);
                }
                assert(p.0 != x.0);
            }
            assert forall|p: (u64, bool)| m2.kv_pairs().contains(p) implies s2.to_set().contains(p) by {
                assert(m.kv_pairs().contains(p));
                assert(s.to_set().contains(p));
                let i = choose|i: int| 0 <= i < s.len() && s[i] == p;
                assert(i != s.len() - 1);
                assert(s2[i] == p);
            }
        }
        lemma_count_votes(s2, m2);
        let yes2 = |k: u64| m2[k];
        let no2 = |k: u64| !m2[k];
        assert(m2.dom().filter(yes2) =~= m.dom().filter(yes).remove(x.0));
        assert(m2.dom().filter(no2) =~= m.dom().filter(no).remove(x.0));
        broadcast use vstd::set_lib::group_set_properties;
        if x.1 {
            assert(m.dom().filter(yes).contains(x.0));
            assert(!m.dom().filter(no).contains(x.0));
        } else {
            assert(!m.dom().filter(yes).contains(x.0));
            assert(m.dom().filter(no).contains(x.0));
        }
    }
}

} // verus!
