use vstd::prelude::*;

verus! {

/// True when `p` is a prefix of `s`.
pub open spec fn is_prefix_of(p: Seq<u8>, s: Seq<u8>) -> bool {
    p.len() <= s.len() && p == s.subrange(0, p.len() as int)
}

/// Copies a byte vector.
pub fn copy_bytes(src: &Vec<u8>) -> (r: Vec<u8>)
    ensures
        r@ == src@,
{
    let mut out: Vec<u8> = Vec::new();
    let mut i: usize = 0;
    while i < src.len()
        invariant
            i <= src.len(),
            out@ == src@.subrange(0, i as int),
        decreases src.len() - i,
    {
        out.push(src[i]);
        assert(out@ =~= src@.subrange(0, i as int + 1));
        i = i + 1;
    }
    assert(out@ =~= src@);
    out
}

/// Appends all of `src` to `dst`.
pub fn push_all(dst: &mut Vec<u8>, src: &Vec<u8>)
    ensures
        final(dst)@ == old(dst)@ + src@,
{
    let mut i: usize = 0;
    while i < src.len()
        invariant
            i <= src.len(),
            dst@ == old(dst)@ + src@.subrange(0, i as int),
        decreases src.len() - i,
    {
        dst.push(src[i]);
        assert(dst@ =~= old(dst)@ + src@.subrange(0, i as int + 1));
        i = i + 1;
    }
    assert(dst@ =~= old(dst)@ + src@);
}

/// Byte-wise equality of two vectors.
pub fn bytes_eq(a: &Vec<u8>, b: &Vec<u8>) -> (r: bool)
    ensures
        r <==> a@ == b@,
{
    if a.len() != b.len() {
        return false;
    }
    let mut i: usize = 0;
    while i < a.len()
        invariant
            i <= a.len(),
            a@.len() == b@.len(),
            forall|j: int| 0 <= j < i ==> a@[j] == b@[j],
        decreases a.len() - i,
    {
        if a[i] != b[i] {
            assert(a@[i as int] != b@[i as int]);
            return false;
        }
        i = i + 1;
    }
    assert(a@ =~= b@);
    true
}

/// True when `p` is a prefix of `k`, byte for byte.
pub fn has_prefix(k: &Vec<u8>, p: &Vec<u8>) -> (r: bool)
    ensures
        r <==> is_prefix_of(p@, k@),
{
    if p.len() > k.len() {
        return false;
    }
    let mut i: usize = 0;
    while i < p.len()
        invariant
            i <= p.len(),
            p@.len() <= k@.len(),
            forall|j: int| 0 <= j < i ==> p@[j] == k@[j],
        decreases p.len() - i,
    {
        if p[i] != k[i] {
            assert(p@[i as int] != k@.subrange(0, p@.len() as int)[i as int]);
            return false;
        }
        i = i + 1;
    }
    assert(p@ =~= k@.subrange(0, p@.len() as int));
    true
}

} // verus!
