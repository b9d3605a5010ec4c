use vstd::prelude::*;

verus! {

/// The views of a sequence of byte strings.
pub open spec fn byte_views(s: Seq<Vec<u8>>) -> Seq<Seq<u8>> {
    s.map_values(|c: Vec<u8>| c@)
}

/// A copy of the byte strings `strings`.
pub fn clone_byte_strings(strings: &Vec<Vec<u8>>) -> (r: Vec<Vec<u8>>)
    ensures
        byte_views(r@) == byte_views(strings@),
{
    let mut r: Vec<Vec<u8>> = Vec::new();
    let mut k: usize = 0;
    while k < strings.len()
        invariant
            k <= strings@.len(),
            byte_views(r@) == byte_views(strings@.take(k as int)),
        decreases strings@.len() - k,
    {
        let c = strings[k].clone();
        assert(c@ =~= strings@[k as int]@);
        let ghost before = r@;
        r.push(c);
        assert(byte_views(r@) =~= byte_views(before).push(strings@[k as int]@));
        assert(strings@.take(k + 1) =~= strings@.take(k as int).push(strings@[k as int]));
        assert(byte_views(strings@.take(k + 1)) =~= byte_views(strings@.take(k as int)).push(strings@[k as int]@));
        k += 1;
    }
    assert(strings@.take(k as int) =~= strings@);
    r
}

/// Whether the byte strings `a` and `b` are the same.
pub fn byte_strings_equal(a: &Vec<Vec<u8>>, b: &Vec<Vec<u8>>) -> (r: bool)
    ensures
        r == (byte_views(a@) == byte_views(b@)),
{
    if a.len() != b.len() {
        assert(byte_views(a@).len() != byte_views(b@).len());
        return false;
    }
    let mut k: usize = 0;
    while k < a.len()
        invariant
            a@.len() == b@.len(),
            k <= a@.len(),
            forall|i: int| 0 <= i < k ==> a@[i]@ == b@[i]@,
        decreases a@.len() - k,
    {
        let x = &a[k];
        let y = &b[k];
        if x.len() != y.len() {
            assert(byte_views(a@)[k as int] != byte_views(b@)[k as int]);
            return false;
        }
        let mut j: usize = 0;
        while j < x.len()
            invariant
                a@.len() == b@.len(),
                k < a@.len(),
                x@ == a@[k as int]@,
                y@ == b@[k as int]@,
                x@.len() == y@.len(),
                j <= x@.len(),
                forall|i: int| 0 <= i < j ==> x@[i] == y@[i],
            decreases x@.len() - j,
        {
            if x[j] != y[j] {
                assert(byte_views(a@)[k as int] == x@);
                assert(byte_views(b@)[k as int] == y@);
                assert(byte_views(a@)[k as int][j as int] != byte_views(b@)[k as int][j as int]);
                return false;
            }
            j += 1;
        }
        assert(x@ =~= y@);
        k += 1;
    }
    assert(byte_views(a@) =~= byte_views(b@));
    true
}

} // verus!
