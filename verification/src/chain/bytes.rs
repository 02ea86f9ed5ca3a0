use vstd::prelude::*;

verus! {

/// The `n` least significant bytes of `x`, least significant first
/// (the layout of Rust's `to_le_bytes` for an `n`-byte integer).
pub open spec fn le_bytes(x: nat, n: nat) -> Seq<u8>
    decreases n,
{
    if n == 0 {
        Seq::<u8>::empty()
    } else {
        seq![(x % 256) as u8] + le_bytes(x / 256, (n - 1) as nat)
    }
}

/// Concatenation of a sequence of 32-byte hashes.
pub open spec fn concat_hashes(s: Seq<[u8; 32]>) -> Seq<u8>
    decreases s.len(),
{
    if s.len() == 0 {
        Seq::<u8>::empty()
    } else {
        concat_hashes(s.drop_last()) + s.last()@
    }
}

/// Appends the `n`-byte little-endian encoding of `x`.
pub fn push_le(out: &mut Vec<u8>, x: u64, n: usize)
    requires
        n <= 8,
    ensures
        final(out)@ == old(out)@ + le_bytes(x as nat, n as nat),
{
    let ghost start = out@;
    let mut v: u64 = x;
    let mut k: usize = 0;
    while k < n
        invariant
            k <= n,
            start + le_bytes(x as nat, n as nat) == out@ + le_bytes(v as nat, (n - k) as nat),
        decreases n - k,
    {
        let ghost before = out@;
        let b: u8 = (v % 256) as u8;
        out.push(b);
        assert(le_bytes(v as nat, (n - k) as nat) == seq![b] + le_bytes((v / 256) as nat, (n - k - 1) as nat));
        assert(before + (seq![b] + le_bytes((v / 256) as nat, (n - k - 1) as nat)) =~= out@ + le_bytes((v / 256) as nat, (n - k - 1) as nat));
        v = v / 256;
        k = k + 1;
    }
    assert(le_bytes(v as nat, 0) =~= Seq::<u8>::empty());
    assert(out@ + Seq::<u8>::empty() =~= out@);
}

/// Appends all bytes of `src`.
pub fn push_slice(out: &mut Vec<u8>, src: &[u8])
    ensures
        final(out)@ == old(out)@ + src@,
{
    let ghost start = out@;
    let mut i: usize = 0;
    while i < src.len()
        invariant
            i <= src@.len(),
            out@ == start + src@.subrange(0, i as int),
        decreases src@.len() - i,
    {
        out.push(src[i]);
        i = i + 1;
        assert(out@ =~= start + src@.subrange(0, i as int));
    }
    assert(src@.subrange(0, src@.len() as int) =~= src@);
}

/// Appends the concatenation of the given hashes.
pub fn push_hashes(out: &mut Vec<u8>, hashes: &Vec<[u8; 32]>)
    ensures
        final(out)@ == old(out)@ + concat_hashes(hashes@),
{
    let ghost start = out@;
    let mut i: usize = 0;
    while i < hashes.len()
        invariant
            i <= hashes@.len(),
            out@ == start + concat_hashes(hashes@.subrange(0, i as int)),
        decreases hashes@.len() - i,
    {
        let h: [u8; 32] = hashes[i];
        push_slice(out, h.as_slice());
        proof {
            let s = hashes@.subrange(0, i + 1);
            assert(s.drop_last() =~= hashes@.subrange(0, i as int));
            assert(s.last() == h);
        }
        i = i + 1;
        assert(out@ =~= start + concat_hashes(hashes@.subrange(0, i as int)));
    }
    assert(hashes@.subrange(0, hashes@.len() as int) =~= hashes@);
}

/// Byte-wise equality of two 32-byte hashes.
pub fn hash_eq(a: &[u8; 32], b: &[u8; 32]) -> (r: bool)
    ensures
        r == (*a == *b),
{
    let mut i: usize = 0;
    while i < 32
        invariant
            i <= 32,
            forall|j: int| 0 <= j < i ==> a[j] == b[j],
        decreases 32 - i,
    {
        if a[i] != b[i] {
            return false;
        }
        i = i + 1;
    }
    assert(*a =~= *b);
    true
}

/// Byte-wise equality of two 20-byte addresses.
pub fn addr_eq(a: &[u8; 20], b: &[u8; 20]) -> (r: bool)
    ensures
        r == (*a == *b),
{
    let mut i: usize = 0;
    while i < 20
        invariant
            i <= 20,
            forall|j: int| 0 <= j < i ==> a[j] == b[j],
        decreases 20 - i,
    {
        if a[i] != b[i] {
            return false;
        }
        i = i + 1;
    }
    assert(*a =~= *b);
    true
}

/// A copy of a vector of `Copy` values.
pub fn copy_vec<T: Copy>(v: &Vec<T>) -> (r: Vec<T>)
    ensures
        r@ == v@,
{
    let mut r: Vec<T> = Vec::new();
    let mut i: usize = 0;
    while i < v.len()
        invariant
            i <= v@.len(),
            r@ == v@.subrange(0, i as int),
        decreases v@.len() - i,
    {
        r.push(v[i]);
        i = i + 1;
        assert(r@ =~= v@.subrange(0, i as int));
    }
    assert(v@.subrange(0, v@.len() as int) =~= v@);
    r
}

} // verus!
