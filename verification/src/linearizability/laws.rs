use vstd::prelude::*;

use super::bitset::{clear_words, set_words, Bitset};
use super::complete::lawful;
use super::checker::linearizable;
use super::history::{entries_of, sort_by_time};
use super::kv_model::{grouped_by, keyed_as, lemma_with_key_present, op_keys, with_key, KvInput, KvModel, KvOutput};
use super::model::Operation;
use super::model::Model;

verus! {

/// Setting a bit that was clear and clearing it again leaves the set as it
/// was: every word, not only every bit in range, comes back.
pub proof fn law_set_then_clear_restores(a: Bitset, pos: int)
    requires
        0 <= pos < a.capacity(),
        !a.has(pos),
    ensures
        clear_words(set_words(a.0@, pos), pos) == a.0@,
{
    let i = pos / 64;
    let m = (pos % 64) as u64;
    let w = a.0@[i];
    assert(m < 64);
    assert((w >> m) & 1u64 != 1u64);
    assert((w | (1u64 << m)) & !(1u64 << m) == w) by (bit_vector)
        requires
            m < 64,
            (w >> m) & 1u64 != 1u64,
    ;
    assert(clear_words(set_words(a.0@, pos), pos) =~= a.0@);
}

/// Sets holding the same words hash alike, so a cache keyed by the hash
/// finds a set again.
pub proof fn law_equal_sets_hash_alike(a: Bitset, b: Bitset)
    requires
        a.0@ == b.0@,
    ensures
        a.hash_value() == b.hash_value(),
{
}

/// The key/value model splits a history in one way only, up to the order of
/// the parts: two groupings of a history by key hold the same parts, so what
/// the checker answers over them does not depend on the order they come in.
pub proof fn law_kv_grouping_unique<T>(h: Seq<T>, keys: Seq<Seq<char>>, p1: Seq<Seq<T>>, p2: Seq<Seq<T>>)
    requires
        grouped_by(h, keys, p1),
        grouped_by(h, keys, p2),
    ensures
        p1.len() == p2.len(),
        p1.to_set() == p2.to_set(),
{
    let ks1 = choose|ks: Seq<Seq<char>>| #[trigger] keyed_as(h, keys, p1, ks);
    let ks2 = choose|ks: Seq<Seq<char>>| #[trigger] keyed_as(h, keys, p2, ks);
    lemma_grouping_covered(h, keys, p1, ks1, p2, ks2);
    lemma_grouping_covered(h, keys, p2, ks2, p1, ks1);
    assert(ks1.to_set() =~= ks2.to_set());
    ks1.unique_seq_to_set();
    ks2.unique_seq_to_set();
    assert(p1.to_set() =~= p2.to_set());
}

/// Where every item has the key `k`, the items with key `k` are all of them.
proof fn lemma_with_key_all<T>(h: Seq<T>, keys: Seq<Seq<char>>, k: Seq<char>)
    requires
        forall|i: int| 0 <= i < h.len() ==> keys[i] == k,
    ensures
        with_key(h, keys, k) == h,
    decreases h.len(),
{
    if h.len() > 0 {
        lemma_with_key_all(h.drop_last(), keys, k);
        assert(h.drop_last().push(h.last()) =~= h);
    }
}

/// For a history whose operations all have one key, the partition law holds
/// of the key/value model: it splits the history into one part, the history
/// itself, so the history is linearizable if and only if every part is.
pub proof fn law_kv_one_key_partition(
    model: KvModel,
    h: Seq<Operation<KvInput, KvOutput>>,
    parts: Seq<Seq<Operation<KvInput, KvOutput>>>,
)
    requires
        model.partitioned(h, parts),
        h.len() > 0,
        forall|i: int| 0 <= i < h.len() ==> (#[trigger] h[i]).input.key@ == h[0].input.key@,
    ensures
        parts == seq![h],
        (forall|j: int| 0 <= j < parts.len() ==> linearizable(model, #[trigger] sort_by_time(entries_of(parts[j]))))
            <==> linearizable(model, sort_by_time(entries_of(h))),
{
    let keys = op_keys(h);
    let k = keys[0];
    let ks = choose|ks: Seq<Seq<char>>| #[trigger] keyed_as(h, keys, parts, ks);
    assert forall|i: int| 0 <= i < h.len() implies keys[i] == k by {
        assert(h[i].input.key@ == h[0].input.key@);
    }
    lemma_with_key_all(h, keys, k);
    assert(ks.contains(keys[0]));
    let w = choose|w: int| 0 <= w < ks.len() && ks[w] == k;
    assert forall|j: int| 0 <= j < ks.len() implies ks[j] == k by {
        assert(parts[j] == with_key(h, keys, ks[j]) && parts[j].len() > 0);
        lemma_with_key_present(h, keys, ks[j]);
    }
    if ks.len() > 1 {
        let other = if w == 0 { 1int } else { 0int };
        assert(ks[other] == ks[w]);
    }
    assert(ks.len() == 1);
    assert(parts[0] == h);
    assert(parts =~= seq![h]);
    if linearizable(model, sort_by_time(entries_of(h))) {
        assert forall|j: int| 0 <= j < parts.len() implies linearizable(model, #[trigger] sort_by_time(entries_of(parts[j]))) by {
            assert(parts[j] == h);
        }
    }
    if forall|j: int| 0 <= j < parts.len() ==> linearizable(model, #[trigger] sort_by_time(entries_of(parts[j]))) {
        assert(linearizable(model, sort_by_time(entries_of(parts[0]))));
    }
}

/// Each part and key of one grouping of `h` is a part and key of another.
proof fn lemma_grouping_covered<T>(
    h: Seq<T>,
    keys: Seq<Seq<char>>,
    p1: Seq<Seq<T>>,
    ks1: Seq<Seq<char>>,
    p2: Seq<Seq<T>>,
    ks2: Seq<Seq<char>>,
)
    requires
        keyed_as(h, keys, p1, ks1),
        keyed_as(h, keys, p2, ks2),
    ensures
        forall|j: int| 0 <= j < p1.len() ==> p2.contains(#[trigger] p1[j]),
        forall|j: int| 0 <= j < ks1.len() ==> ks2.contains(#[trigger] ks1[j]),
{
    assert forall|j: int| 0 <= j < ks1.len() implies ks2.contains(#[trigger] ks1[j]) && p2.contains(p1[j]) by {
        assert(p1[j] == with_key(h, keys, ks1[j]) && p1[j].len() > 0);
        lemma_with_key_present(h, keys, ks1[j]);
        let i = choose|i: int| 0 <= i < h.len() && keys[i] == ks1[j];
        assert(ks2.contains(keys[i]));
        let w = choose|w: int| 0 <= w < ks2.len() && ks2[w] == keys[i];
        assert(p2[w] == with_key(h, keys, ks2[w]));
    }
}

/// The key/value model is lawful: its states are strings compared by
/// content, a step's outcome depends only on the content of the state, and
/// there is one initial content; so the checker's answer for it is exact on
/// histories of whole operations.
pub proof fn law_kv_model_lawful(model: KvModel)
    ensures
        lawful(model),
{
    assert forall|a: String, b: String| #[trigger] vstd::pervasive::strictly_cloned(a, b) implies model.equal_spec(a, b)
        && model.equal_spec(b, a) by {
        assert(b@ == a@);
    }
    assert forall|a: String, b: String, i: KvInput, o: KvOutput, a2: String|
        #![trigger model.equal_spec(a, b), model.steps_to(a, i, o, a2)]
        model.equal_spec(a, b) && model.steps_to(a, i, o, a2) implies exists|b2: String|
            model.steps_to(b, i, o, b2) && model.equal_spec(a2, b2) by {
        assert(model.steps_to(b, i, o, a2) && model.equal_spec(a2, a2));
    }
}

} // verus!
