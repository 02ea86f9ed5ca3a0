use vstd::prelude::*;
use crate::chain::block::BlockHash;

verus! {

/// Lexicographic "less than" on byte strings (the order of `Ord` on byte
/// arrays): at the first position where they differ, `a` has the smaller byte.
pub open spec fn lex_lt(a: Seq<u8>, b: Seq<u8>) -> bool {
    exists|i: int|
        0 <= i < a.len() && i < b.len() && (forall|j: int| 0 <= j < i ==> a[j] == b[j]) && #[trigger] a[i] < #[trigger] b[i]
}

/// Lexicographic "at most".
pub open spec fn lex_le(a: Seq<u8>, b: Seq<u8>) -> bool {
    a == b || lex_lt(a, b)
}

/// Whether a sequence of hashes is in ascending lexicographic order.
pub open spec fn hashes_sorted(s: Seq<BlockHash>) -> bool {
    forall|i: int, j: int| 0 <= i < j < s.len() ==> lex_le(#[trigger] s[i]@, #[trigger] s[j]@)
}

pub proof fn lemma_lex_lt_asym(a: Seq<u8>, b: Seq<u8>)
    requires
        lex_lt(a, b),
    ensures
        !lex_lt(b, a),
        a != b,
{
    let i = choose|i: int|
        0 <= i < a.len() && i < b.len() && (forall|j: int| 0 <= j < i ==> a[j] == b[j]) && #[trigger] a[i] < #[trigger] b[i];
    if lex_lt(b, a) {
        let j = choose|j: int|
            0 <= j < b.len() && j < a.len() && (forall|k: int| 0 <= k < j ==> b[k] == a[k]) && #[trigger] b[j] < #[trigger] a[j];
        if i < j {
            assert(b[i] == a[i]);
        } else if j < i {
            assert(a[j] == b[j]);
        }
    }
}

/// Two hashes with the same bytes are equal.
pub proof fn lemma_hash_view_eq(a: BlockHash, b: BlockHash)
    requires
        a@ == b@,
    ensures
        a == b,
{
    assert forall|i: int| 0 <= i < 32 implies a[i] == b[i] by {
        assert(a@[i] == b@[i]);
    }
    assert(a =~= b);
}

/// Two hashes each at most the other are equal.
pub proof fn lemma_hash_le_antisym(a: BlockHash, b: BlockHash)
    requires
        lex_le(a@, b@),
        lex_le(b@, a@),
    ensures
        a == b,
{
    if a@ != b@ {
        lemma_lex_lt_asym(a@, b@);
    }
    lemma_hash_view_eq(a, b);
}

pub proof fn lemma_lex_lt_trans(a: Seq<u8>, b: Seq<u8>, c: Seq<u8>)
    requires
        lex_lt(a, b),
        lex_lt(b, c),
    ensures
        lex_lt(a, c),
{
    let i = choose|i: int|
        0 <= i < a.len() && i < b.len() && (forall|j: int| 0 <= j < i ==> a[j] == b[j]) && #[trigger] a[i] < #[trigger] b[i];
    let j = choose|j: int|
        0 <= j < b.len() && j < c.len() && (forall|k: int| 0 <= k < j ==> b[k] == c[k]) && #[trigger] b[j] < #[trigger] c[j];
    if i < j {
        assert(b[i] == c[i]);
        assert(forall|k: int| 0 <= k < i ==> a[k] == c[k]);
        assert(a[i] < c[i]);
    } else if j < i {
        assert(a[j] == b[j]);
        assert(forall|k: int| 0 <= k < j ==> a[k] == c[k]);
        assert(a[j] < c[j]);
    } else {
        assert(forall|k: int| 0 <= k < i ==> a[k] == c[k]);
        assert(a[i] < c[i]);
    }
}

pub proof fn lemma_lex_le_trans(a: Seq<u8>, b: Seq<u8>, c: Seq<u8>)
    requires
        lex_le(a, b),
        lex_le(b, c),
    ensures
        lex_le(a, c),
{
    if a != b && b != c {
        lemma_lex_lt_trans(a, b, c);
    }
}

proof fn lemma_lex_total_from(a: Seq<u8>, b: Seq<u8>, k: int)
    requires
        a.len() == b.len(),
        0 <= k <= a.len(),
        forall|j: int| 0 <= j < k ==> a[j] == b[j],
    ensures
        a == b || lex_lt(a, b) || lex_lt(b, a),
    decreases a.len() - k,
{
    if k == a.len() {
        assert(a =~= b);
    } else if a[k] == b[k] {
        lemma_lex_total_from(a, b, k + 1);
    } else if a[k] < b[k] {
        assert(lex_lt(a, b));
    } else {
        assert(forall|j: int| 0 <= j < k ==> b[j] == a[j]);
        assert(lex_lt(b, a));
    }
}

/// Byte strings of one length are ordered totally.
pub proof fn lemma_lex_total(a: Seq<u8>, b: Seq<u8>)
    requires
        a.len() == b.len(),
    ensures
        a == b || lex_lt(a, b) || lex_lt(b, a),
{
    lemma_lex_total_from(a, b, 0);
}

/// A sorted list of hashes with the same elements, counted with
/// multiplicity, as a duplicate-free list is strictly ascending and holds the
/// same set of hashes.
pub proof fn lemma_sorted_permutation_strict(a: Seq<BlockHash>, b: Seq<BlockHash>)
    requires
        hashes_sorted(a),
        a.to_multiset() == b.to_multiset(),
        b.no_duplicates(),
    ensures
        forall|i: int, j: int| 0 <= i < j < a.len() ==> lex_lt(#[trigger] a[i]@, #[trigger] a[j]@),
        a.no_duplicates(),
        a.to_set() == b.to_set(),
{
    broadcast use vstd::seq_lib::group_to_multiset_ensures;
    b.lemma_multiset_has_no_duplicates();
    a.lemma_multiset_has_no_duplicates_conv();
    assert forall|i: int, j: int| 0 <= i < j < a.len() implies lex_lt(#[trigger] a[i]@, #[trigger] a[j]@) by {
        assert(lex_le(a[i]@, a[j]@));
        if a[i]@ == a[j]@ {
            lemma_hash_view_eq(a[i], a[j]);
        }
    }
    assert forall|x: BlockHash| a.to_set().contains(x) == b.to_set().contains(x) by {
        assert(a.contains(x) <==> a.to_multiset().count(x) > 0);
        assert(b.contains(x) <==> b.to_multiset().count(x) > 0);
    }
    assert(a.to_set() =~= b.to_set());
}


/// Lexicographic comparison of two hashes.
pub fn hash_lt(a: &BlockHash, b: &BlockHash) -> (r: bool)
    ensures
        r == lex_lt(a@, b@),
{
    let mut i: usize = 0;
    while i < 32
        invariant
            i <= 32,
            forall|j: int| 0 <= j < i ==> a@[j] == b@[j],
        decreases 32 - i,
    {
        if a[i] < b[i] {
            assert(a@[i as int] < b@[i as int]);
            return true;
        }
        if a[i] > b[i] {
            proof {
                assert(forall|j: int| 0 <= j < i ==> b@[j] == a@[j]);
                assert(b@[i as int] < a@[i as int]);
                assert(lex_lt(b@, a@));
                lemma_lex_lt_asym(b@, a@);
            }
            return false;
        }
        i = i + 1;
    }
    proof {
        assert(a@ =~= b@);
        if lex_lt(a@, b@) {
            lemma_lex_lt_asym(a@, b@);
        }
    }
    false
}

/// Sort hashes in ascending lexicographic order.
pub fn sort_hashes(v: &Vec<BlockHash>) -> (r: Vec<BlockHash>)
    ensures
        hashes_sorted(r@),
        r@.to_multiset() == v@.to_multiset(),
{
    broadcast use vstd::seq_lib::group_to_multiset_ensures;
    let mut out: Vec<BlockHash> = Vec::new();
    let mut i: usize = 0;
    while i < v.len()
        invariant
            i <= v@.len(),
            hashes_sorted(out@),
            out@.to_multiset() == v@.take(i as int).to_multiset(),
        decreases v@.len() - i,
    {
        let e: BlockHash = v[i];
        let mut p: usize = 0;
        while p < out.len() && !hash_lt(&e, &out[p])
            invariant
                p <= out@.len(),
                forall|q: int| 0 <= q < p ==> lex_le(#[trigger] out@[q]@, e@),
            decreases out@.len() - p,
        {
            proof {
                lemma_lex_total(e@, out@[p as int]@);
            }
            p = p + 1;
        }
        let ghost before = out@;
        proof {
            if p < before.len() {
                assert(lex_lt(e@, before[p as int]@));
                assert forall|j: int| p <= j < before.len() implies lex_le(e@, #[trigger] before[j]@) by {
                    if j > p {
                        assert(lex_le(before[p as int]@, before[j]@));
                        lemma_lex_le_trans(e@, before[p as int]@, before[j]@);
                    }
                }
            }
        }
        out.insert(p, e);
        proof {
            broadcast use vstd::seq_lib::group_to_multiset_ensures;
            let t = out@;
            assert(t =~= before.insert(p as int, e));
            assert forall|a: int, b: int| 0 <= a < b < t.len() implies lex_le(#[trigger] t[a]@, #[trigger] t[b]@) by {
                if b < p {
                    assert(t[a] == before[a] && t[b] == before[b]);
                } else if b == p {
                    assert(t[a] == before[a]);
                } else if a < p {
                    assert(t[a] == before[a] && t[b] == before[b - 1]);
                    assert(lex_le(before[a]@, e@));
                    if p < before.len() {
                        assert(lex_le(e@, before[b - 1]@));
                        lemma_lex_le_trans(before[a]@, e@, before[b - 1]@);
                    }
                } else if a == p {
                    assert(t[b] == before[b - 1]);
                } else {
                    assert(t[a] == before[a - 1] && t[b] == before[b - 1]);
                }
            }
            assert(t.remove(p as int) =~= before);
            assert(t[p as int] == e);
            assert(t.remove(p as int).to_multiset() =~= t.to_multiset().remove(e));
            assert(t.contains(e));
            assert(t.to_multiset().count(e) > 0);
            assert(t.to_multiset() =~= before.to_multiset().insert(e)) by {
                broadcast use vstd::multiset::group_multiset_axioms;
            }
            assert(v@.take(i + 1) =~= v@.take(i as int).push(e));
            assert(v@.take(i + 1).to_multiset() =~= v@.take(i as int).to_multiset().insert(e));
        }
        i = i + 1;
    }
    assert(v@.take(v@.len() as int) =~= v@);
    out
}

} // verus!
