use vstd::prelude::*;

verus! {

/// Number of one bits among the `k` lowest bits of a word.
pub open spec fn ones_below(v: u64, k: nat) -> nat
    decreases k,
{
    if k == 0 {
        0
    } else {
        ones_below(v, (k - 1) as nat) + ((v >> ((k - 1) as u64)) & 1u64) as nat
    }
}

/// Number of one bits of a word.
pub open spec fn ones(v: u64) -> nat {
    ones_below(v, 64)
}

/// Total number of one bits of the words `w`.
pub open spec fn popcount(w: Seq<u64>) -> nat
    decreases w.len(),
{
    if w.len() == 0 {
        0
    } else {
        popcount(w.drop_last()) + ones(w.last()) as nat
    }
}

/// `h` combined by exclusive or with each of the words `w` in turn.
pub open spec fn xor_fold(h: u64, w: Seq<u64>) -> u64
    decreases w.len(),
{
    if w.len() == 0 {
        h
    } else {
        xor_fold(h, w.drop_last()) ^ w.last()
    }
}

/// Whether bit `pos` of the words `w` is set.
pub open spec fn bit_of(w: Seq<u64>, pos: int) -> bool {
    (w[pos / 64] >> ((pos % 64) as u64)) & 1u64 == 1u64
}

/// The words `w` with bit `pos` set.
pub open spec fn set_words(w: Seq<u64>, pos: int) -> Seq<u64> {
    w.update(pos / 64, w[pos / 64] | (1u64 << ((pos % 64) as u64)))
}

/// The words `w` with bit `pos` cleared.
pub open spec fn clear_words(w: Seq<u64>, pos: int) -> Seq<u64> {
    w.update(pos / 64, w[pos / 64] & !(1u64 << ((pos % 64) as u64)))
}

/// A set of bit positions, stored in 64-bit words.
pub struct Bitset(pub Vec<u64>);

impl Clone for Bitset {
    fn clone(&self) -> (r: Bitset)
        ensures
            r.0@ == self.0@,
    {
        let words = self.0.clone();
        assert(words@ =~= self.0@);
        Bitset(words)
    }
}

/// The word and the bit within it of position `pos`.
fn bitset_index(pos: usize) -> (r: (usize, usize))
    ensures
        r.0 == pos / 64,
        r.1 == pos % 64,
{
    (pos / 64, pos % 64)
}

proof fn lemma_set_bit(w: u64, minor: u64, other: u64)
    requires
        minor < 64,
        other < 64,
    ensures
        ((w | (1u64 << minor)) >> other) & 1u64 == (if other == minor { 1u64 } else { (w >> other) & 1u64 }),
        ((w & !(1u64 << minor)) >> other) & 1u64 == (if other == minor { 0u64 } else { (w >> other) & 1u64 }),
{
    assert(((w | (1u64 << minor)) >> other) & 1u64 == (if other == minor { 1u64 } else { (w >> other) & 1u64 })) by (bit_vector)
        requires
            minor < 64,
            other < 64,
    ;
    assert(((w & !(1u64 << minor)) >> other) & 1u64 == (if other == minor { 0u64 } else { (w >> other) & 1u64 })) by (bit_vector)
        requires
            minor < 64,
            other < 64,
    ;
}

/// A word has at most 64 one bits.
proof fn lemma_ones_bound(w: u64)
    ensures
        ones(w) <= 64,
{
    lemma_ones_below_bound(w, 64);
}

proof fn lemma_ones_below_bound(w: u64, k: nat)
    ensures
        ones_below(w, k) <= k,
    decreases k,
{
    if k > 0 {
        lemma_ones_below_bound(w, (k - 1) as nat);
        let s = (k - 1) as u64;
        assert((w >> s) & 1u64 <= 1u64) by (bit_vector);
    }
}

/// Number of one bits of `w`.
fn count_ones(w: u64) -> (r: u64)
    ensures
        r == ones(w),
{
    let mut c: u64 = 0;
    let mut k: u64 = 0;
    while k < 64
        invariant
            k <= 64,
            c == ones_below(w, k as nat),
        decreases 64 - k,
    {
        proof {
            lemma_ones_below_bound(w, (k + 1) as nat);
        }
        c = c + ((w >> k) & 1u64);
        k = k + 1;
    }
    c
}

/// The count of a prefix grows by the ones of its last word.
proof fn lemma_popcount_prefix(w: Seq<u64>, i: int)
    requires
        0 < i <= w.len(),
    ensures
        popcount(w.take(i)) == popcount(w.take(i - 1)) + ones(w[i - 1]) as nat,
{
    assert(w.take(i).drop_last() =~= w.take(i - 1));
}

/// A prefix of the words has no more one bits than all of them.
proof fn lemma_popcount_prefix_bound(w: Seq<u64>, i: int)
    requires
        0 <= i <= w.len(),
    ensures
        popcount(w.take(i)) <= popcount(w),
    decreases w.len() - i,
{
    if i < w.len() {
        lemma_popcount_prefix(w, i + 1);
        lemma_popcount_prefix_bound(w, i + 1);
    } else {
        assert(w.take(i) =~= w);
    }
}

/// The words `w` have at most `64 * w.len()` one bits.
pub proof fn lemma_popcount_bound(w: Seq<u64>)
    ensures
        popcount(w) <= 64 * w.len(),
    decreases w.len(),
{
    if w.len() > 0 {
        lemma_popcount_bound(w.drop_last());
        lemma_ones_bound(w.last());
    }
}

impl Bitset {
    /// Whether bit `pos` is set.
    pub open spec fn has(&self, pos: int) -> bool {
        bit_of(self.0@, pos)
    }

    /// The hash of the set: the number of set bits, combined by exclusive or
    /// with each word.
    pub open spec fn hash_value(&self) -> u64 {
        xor_fold(popcount(self.0@) as u64, self.0@)
    }

    /// Whether `next` is this set with bit `pos` set, and no other change.
    pub open spec fn with_bit(&self, pos: int, next: Bitset) -> bool {
        &&& next.0@.len() == self.0@.len()
        &&& forall|p: int| 0 <= p < next.capacity() ==> next.has(p) == (p == pos || self.has(p))
    }

    /// Whether `next` is this set with bit `pos` cleared, and no other change.
    pub open spec fn without_bit(&self, pos: int, next: Bitset) -> bool {
        &&& next.0@.len() == self.0@.len()
        &&& forall|p: int| 0 <= p < next.capacity() ==> next.has(p) == (p != pos && self.has(p))
    }

    /// Number of positions the set can hold.
    pub open spec fn capacity(&self) -> nat {
        64 * self.0@.len()
    }

    /// An empty set that can hold positions below `bits`.
    pub fn new(bits: usize) -> (r: Bitset)
        ensures
            r.0@.len() == bits / 64 + (if bits % 64 != 0 { 1int } else { 0int }),
            forall|i: int| 0 <= i < r.0@.len() ==> r.0@[i] == 0,
            r.capacity() >= bits,
    {
        let extra: usize = if bits % 64 != 0 { 1 } else { 0 };
        let len = bits / 64 + extra;
        let mut words: Vec<u64> = Vec::new();
        let mut i: usize = 0;
        while i < len
            invariant
                i <= len,
                words@.len() == i,
                forall|j: int| 0 <= j < i ==> words@[j] == 0,
            decreases len - i,
        {
            words.push(0);
            i = i + 1;
        }
        Bitset(words)
    }

    /// Sets bit `pos`.
    pub fn set(&mut self, pos: usize)
        requires
            pos < old(self).capacity(),
        ensures
            final(self).0@ == set_words(old(self).0@, pos as int),
            old(self).with_bit(pos as int, *final(self)),
    {
        let (major, minor) = bitset_index(pos);
        let w = self.0[major];
        self.0.set(major, w | (1u64 << (minor as u64)));
        proof {
            assert forall|p: int| 0 <= p < self.capacity() implies self.has(p) == (p == pos || old(self).has(p)) by {
                lemma_set_bit(w, minor as u64, (p % 64) as u64);
                if p / 64 != major {
                    assert(self.0@[p / 64] == old(self).0@[p / 64]);
                }
            }
        }
    }

    /// Clears bit `pos`.
    pub fn clear(&mut self, pos: usize)
        requires
            pos < old(self).capacity(),
        ensures
            final(self).0@ == clear_words(old(self).0@, pos as int),
            old(self).without_bit(pos as int, *final(self)),
    {
        let (major, minor) = bitset_index(pos);
        let w = self.0[major];
        self.0.set(major, w & !(1u64 << (minor as u64)));
        proof {
            assert forall|p: int| 0 <= p < self.capacity() implies self.has(p) == (p != pos && old(self).has(p)) by {
                lemma_set_bit(w, minor as u64, (p % 64) as u64);
                if p / 64 != major {
                    assert(self.0@[p / 64] == old(self).0@[p / 64]);
                }
            }
        }
    }

    /// Number of set bits.
    pub fn popcnt(&self) -> (r: usize)
        requires
            popcount(self.0@) <= usize::MAX,
        ensures
            r == popcount(self.0@),
    {
        let mut total: usize = 0;
        let mut i: usize = 0;
        while i < self.0.len()
            invariant
                i <= self.0@.len(),
                total == popcount(self.0@.take(i as int)),
                popcount(self.0@) <= usize::MAX,
            decreases self.0@.len() - i,
        {
            let w = self.0[i];
            proof {
                lemma_ones_bound(w);
                lemma_popcount_prefix(self.0@, i + 1);
                lemma_popcount_prefix_bound(self.0@, i + 1);
            }
            let c = count_ones(w);
            total = total + c as usize;
            i = i + 1;
        }
        assert(self.0@.take(self.0@.len() as int) =~= self.0@);
        total
    }

    /// The hash of the set: the number of set bits, combined by exclusive or
    /// with each word.
    pub fn hash(&self) -> (r: u64)
        requires
            popcount(self.0@) <= usize::MAX,
        ensures
            r == self.hash_value(),
    {
        let mut hash = self.popcnt() as u64;
        let ghost h0 = hash;
        let mut i: usize = 0;
        while i < self.0.len()
            invariant
                i <= self.0@.len(),
                hash == xor_fold(h0, self.0@.take(i as int)),
            decreases self.0@.len() - i,
        {
            assert(self.0@.take(i + 1).drop_last() =~= self.0@.take(i as int));
            hash = hash ^ self.0[i];
            i = i + 1;
        }
        assert(self.0@.take(self.0@.len() as int) =~= self.0@);
        hash
    }

    /// Whether both sets hold the same words.
    pub fn equals(&self, b2: &Bitset) -> (r: bool)
        ensures
            r == (self.0@ == b2.0@),
    {
        let b = &self.0;
        let c = &b2.0;
        if b.len() != c.len() {
            return false;
        }
        let mut i: usize = 0;
        while i < b.len()
            invariant
                b == &self.0,
                c == &b2.0,
                i <= b@.len(),
                b@.len() == c@.len(),
                forall|j: int| 0 <= j < i ==> b@[j] == c@[j],
            decreases b@.len() - i,
        {
            if b[i] != c[i] {
                assert(self.0@[i as int] != b2.0@[i as int]);
                return false;
            }
            i = i + 1;
        }
        assert(b@ =~= c@);
        true
    }
}

} // verus!
