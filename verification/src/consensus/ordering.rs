use vstd::prelude::*;
use crate::chain::block::BlockHash;
use crate::chain::hash_order::{hash_lt, lemma_lex_lt_asym, lemma_lex_lt_trans, lemma_lex_total, lex_lt};

verus! {

/// Entry `a` comes before entry `b`: a higher score, or an equal score and a
/// smaller hash.
pub open spec fn pair_before(a: (BlockHash, u64), b: (BlockHash, u64)) -> bool {
    a.1 > b.1 || (a.1 == b.1 && lex_lt(a.0@, b.0@))
}

/// No two entries share a hash.
pub open spec fn distinct_hashes(v: Seq<(BlockHash, u64)>) -> bool {
    forall|i: int, j: int| 0 <= i < j < v.len() ==> (#[trigger] v[i]).0 != (#[trigger] v[j]).0
}

/// Entries in strictly increasing `pair_before` order.
pub open spec fn pairs_sorted(v: Seq<(BlockHash, u64)>) -> bool {
    forall|i: int, j: int| 0 <= i < j < v.len() ==> pair_before(#[trigger] v[i], #[trigger] v[j])
}

/// The score order on (hash, score) pairs is transitive.
pub proof fn lemma_pair_before_trans(a: (BlockHash, u64), b: (BlockHash, u64), c: (BlockHash, u64))
    requires
        pair_before(a, b),
        pair_before(b, c),
    ensures
        pair_before(a, c),
{
    if a.1 == b.1 && b.1 == c.1 {
        lemma_lex_lt_trans(a.0@, b.0@, c.0@);
    }
}

/// The score order on (hash, score) pairs is asymmetric.
pub proof fn lemma_pair_before_irrefl(a: (BlockHash, u64), b: (BlockHash, u64))
    requires
        pair_before(a, b),
    ensures
        !pair_before(b, a),
{
    if a.1 == b.1 {
        lemma_lex_lt_asym(a.0@, b.0@);
    }
}

/// Pairs with different hashes are ordered one way or the other.
pub proof fn lemma_pair_total(a: (BlockHash, u64), b: (BlockHash, u64))
    requires
        a.0 != b.0,
    ensures
        pair_before(a, b) || pair_before(b, a),
{
    lemma_lex_total(a.0@, b.0@);
    if a.0@ == b.0@ {
        assert(a.0 =~= b.0);
    }
}

/// Whether entry `a` comes before entry `b`.
pub fn pair_lt(a: &(BlockHash, u64), b: &(BlockHash, u64)) -> (r: bool)
    ensures
        r == pair_before(*a, *b),
{
    a.1 > b.1 || (a.1 == b.1 && hash_lt(&a.0, &b.0))
}

/// Sort entries by score, highest first, ties broken by the smaller hash.
pub fn sort_by_score(v: Vec<(BlockHash, u64)>) -> (r: Vec<(BlockHash, u64)>)
    requires
        distinct_hashes(v@),
    ensures
        r@.len() == v@.len(),
        forall|x: (BlockHash, u64)| r@.contains(x) <==> v@.contains(x),
        pairs_sorted(r@),
{
    let ghost orig = v@;
    let mut rest = v;
    let mut out: Vec<(BlockHash, u64)> = Vec::new();
    while rest.len() > 0
        invariant
            out@.len() + rest@.len() == orig.len(),
            forall|x: (BlockHash, u64)| orig.contains(x) <==> (out@.contains(x) || rest@.contains(x)),
            distinct_hashes(rest@),
            pairs_sorted(out@),
            forall|t: int, j: int|
                0 <= t < out@.len() && 0 <= j < rest@.len() ==> pair_before(#[trigger] out@[t], #[trigger] rest@[j]),
        decreases rest@.len(),
    {
        let mut b: usize = 0;
        let mut i: usize = 1;
        while i < rest.len()
            invariant
                distinct_hashes(rest@),
                1 <= i <= rest@.len(),
                b < i,
                forall|j: int| 0 <= j < i && j != b ==> pair_before(rest@[b as int], #[trigger] rest@[j]),
            decreases rest@.len() - i,
        {
            if pair_lt(&rest[i], &rest[b]) {
                proof {
                    assert forall|j: int| 0 <= j < i + 1 && j != i implies pair_before(rest@[i as int], #[trigger] rest@[j]) by {
                        if j != b {
                            lemma_pair_before_trans(rest@[i as int], rest@[b as int], rest@[j]);
                        }
                    }
                }
                b = i;
            } else {
                proof {
                    assert(rest@[b as int].0 != rest@[i as int].0);
                    lemma_pair_total(rest@[i as int], rest@[b as int]);
                }
            }
            i = i + 1;
        }
        let ghost before = rest@;
        let ghost out_before = out@;
        let x = rest.remove(b);
        proof {
            assert(rest@ =~= before.remove(b as int));
            assert forall|j: int| 0 <= j < rest@.len() implies pair_before(x, #[trigger] rest@[j]) by {
                if j < b {
                    assert(rest@[j] == before[j]);
                } else {
                    assert(rest@[j] == before[j + 1]);
                }
            }
        }
        out.push(x);
        proof {
            assert(out@ =~= out_before.push(x));
            assert forall|y: (BlockHash, u64)| orig.contains(y) <==> (out@.contains(y) || rest@.contains(y)) by {
                if orig.contains(y) {
                    if out_before.contains(y) {
                        let t = choose|t: int| 0 <= t < out_before.len() && out_before[t] == y;
                        assert(out@[t] == y);
                    } else {
                        let j = choose|j: int| 0 <= j < before.len() && before[j] == y;
                        if j == b {
                            assert(out@[out_before.len() as int] == y);
                        } else if j < b {
                            assert(rest@[j] == y);
                        } else {
                            assert(rest@[j - 1] == y);
                        }
                    }
                }
                if out@.contains(y) {
                    let t = choose|t: int| 0 <= t < out@.len() && out@[t] == y;
                    if t < out_before.len() {
                        assert(out_before[t] == y);
                    } else {
                        assert(before[b as int] == y);
                    }
                }
                if rest@.contains(y) {
                    let j = choose|j: int| 0 <= j < rest@.len() && rest@[j] == y;
                    if j < b {
                        assert(before[j] == y);
                    } else {
                        assert(before[j + 1] == y);
                    }
                }
            }
            assert forall|t: int, j: int|
                0 <= t < out@.len() && 0 <= j < rest@.len() implies pair_before(#[trigger] out@[t], #[trigger] rest@[j]) by {
                if t < out_before.len() {
                    if j < b {
                        assert(rest@[j] == before[j]);
                    } else {
                        assert(rest@[j] == before[j + 1]);
                    }
                }
            }
            assert forall|p: int, q: int| 0 <= p < q < out@.len() implies pair_before(#[trigger] out@[p], #[trigger] out@[q]) by {
                if q == out_before.len() {
                    assert(out@[q] == before[b as int]);
                }
            }
            assert forall|p: int, q: int| 0 <= p < q < rest@.len() implies (#[trigger] rest@[p]).0 != (#[trigger] rest@[q]).0 by {
                let pp = if p < b { p } else { p + 1 };
                let qq = if q < b { q } else { q + 1 };
                assert(rest@[p] == before[pp] && rest@[q] == before[qq]);
            }
        }
    }
    out
}

/// A duplicate-free sequence whose entries all occur in `b` is no longer than `b`.
pub proof fn lemma_no_dup_len_le<A>(a: Seq<A>, b: Seq<A>)
    requires
        a.no_duplicates(),
        forall|i: int| 0 <= i < a.len() ==> b.contains(#[trigger] a[i]),
    ensures
        a.len() <= b.len(),
{
    a.unique_seq_to_set();
    b.lemma_cardinality_of_set();
    assert(a.to_set().subset_of(b.to_set())) by {
        assert forall|x: A| a.to_set().contains(x) implies b.to_set().contains(x) by {
            let i = choose|i: int| 0 <= i < a.len() && a[i] == x;
            assert(b.contains(a[i]));
        }
    }
    vstd::set_lib::lemma_len_subset(a.to_set(), b.to_set());
}


/// Filtering a duplicate-free sequence keeps it duplicate-free.
pub proof fn lemma_filter_no_dup<A>(s: Seq<A>, p: spec_fn(A) -> bool)
    requires
        s.no_duplicates(),
    ensures
        s.filter(p).no_duplicates(),
    decreases s.len(),
{
    reveal_with_fuel(Seq::filter, 1);
    if s.len() > 0 {
        let rest = s.drop_last();
        assert(rest.no_duplicates());
        lemma_filter_no_dup(rest, p);
        if p(s.last()) {
            let f = rest.filter(p);
            assert(s.filter(p) == f.push(s.last()));
            if f.contains(s.last()) {
                rest.lemma_filter_contains_rev(p, s.last());
                let i = choose|i: int| 0 <= i < rest.len() && rest[i] == s.last();
                assert(s[i] == s[s.len() - 1]);
            }
            assert forall|a: int, b: int| 0 <= a < f.len() + 1 && 0 <= b < f.len() + 1 && a != b implies f.push(s.last())[a]
                != f.push(s.last())[b] by {
                if a == f.len() {
                    assert(f.push(s.last())[b] == f[b]);
                    assert(f.contains(f[b]));
                } else if b == f.len() {
                    assert(f.push(s.last())[a] == f[a]);
                    assert(f.contains(f[a]));
                }
            }
        }
    }
}

} // verus!
