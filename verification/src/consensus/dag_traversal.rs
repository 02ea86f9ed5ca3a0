use vstd::prelude::*;
use crate::chain::block::BlockHash;
use crate::dag::{
    anticone_pred, anticone_seq, ancestor_pred, ancestors_seq, hash_index, hashes_of, in_closed_past, is_anc,
    lemma_pick_empty, lemma_pick_none, lemma_pick_step, pick_upto, related_to, BlockDAG,
};

verus! {

/// Traversal queries over a `BlockDAG`.
pub struct DAGTraversal;

/// Whether the block with hash `a` is a proper ancestor of the block with
/// hash `b`; false when either is missing.
pub open spec fn is_ancestor_spec(s: Seq<crate::chain::block::Block>, a: BlockHash, b: BlockHash) -> bool {
    match (hash_index(s, a), hash_index(s, b)) {
        (Some(ia), Some(ib)) => is_anc(s, ia, ib),
        _ => false,
    }
}

impl DAGTraversal {
    /// All block hashes in topological (insertion) order.
    pub fn get_all_blocks(dag: &BlockDAG) -> (r: Vec<BlockHash>)
        ensures
            r@ == hashes_of(dag@),
    {
        let n = dag.block_count();
        let mut out: Vec<BlockHash> = Vec::new();
        let mut i: usize = 0;
        while i < n
            invariant
                n == dag@.len(),
                i <= n,
                out@ == hashes_of(dag@).take(i as int),
            decreases n - i,
        {
            out.push(dag.block_at(i).hash);
            i = i + 1;
            assert(out@ =~= hashes_of(dag@).take(i as int));
        }
        assert(hashes_of(dag@).take(n as int) =~= hashes_of(dag@));
        out
    }

    /// The parent hashes of the block with hash `h`; empty when it is missing.
    pub fn get_parents(dag: &BlockDAG, h: &BlockHash) -> (r: Vec<BlockHash>)
        requires
            dag.wf(),
        ensures
            r@ == match hash_index(dag@, *h) {
                Some(i) => dag@[i].header.parent_hashes@,
                None => Seq::<BlockHash>::empty(),
            },
    {
        let mut out: Vec<BlockHash> = Vec::new();
        match dag.find_index(h) {
            None => {},
            Some(i) => {
                let ps = &dag.block_at(i).header.parent_hashes;
                let mut k: usize = 0;
                while k < ps.len()
                    invariant
                        k <= ps@.len(),
                        out@ == ps@.take(k as int),
                    decreases ps@.len() - k,
                {
                    out.push(ps[k]);
                    k = k + 1;
                    assert(out@ =~= ps@.take(k as int));
                }
                assert(ps@.take(ps@.len() as int) =~= ps@);
            },
        }
        assert(match hash_index(dag@, *h) {
            Some(i) => true,
            None => out@ =~= Seq::<BlockHash>::empty(),
        });
        out
    }

    /// Whether the block with hash `a` is a proper ancestor of the block
    /// with hash `b`.
    pub fn is_ancestor(dag: &BlockDAG, a: &BlockHash, b: &BlockHash) -> (r: bool)
        requires
            dag.wf(),
        ensures
            r == is_ancestor_spec(dag@, *a, *b),
    {
        let ia = dag.find_index(a);
        let ib = dag.find_index(b);
        match (ia, ib) {
            (Some(x), Some(y)) => {
                let marks = dag.ancestor_marks(y);
                marks[x]
            },
            _ => false,
        }
    }

    /// Proper ancestors of the block with hash `h`, in topological order.
    pub fn get_ancestors(dag: &BlockDAG, h: &BlockHash) -> (r: Vec<BlockHash>)
        requires
            dag.wf(),
        ensures
            r@ == ancestors_seq(dag@, *h),
    {
        let n = dag.block_count();
        let ghost s = dag@;
        let ghost pred = ancestor_pred(s, *h);
        let mut out: Vec<BlockHash> = Vec::new();
        proof {
            lemma_pick_empty(s, pred);
        }
        match dag.find_index(h) {
            None => {
                proof {
                    lemma_pick_none(s, pred, n as int);
                }
            },
            Some(hi) => {
                let marks = dag.ancestor_marks(hi);
                let mut x: usize = 0;
                while x < n
                    invariant
                        n == s.len(),
                        s == dag@,
                        x <= n,
                        hash_index(s, *h) == Some(hi as int),
                        marks@.len() == n,
                        forall|y: int| 0 <= y < n ==> #[trigger] marks@[y] == is_anc(s, y, hi as int),
                        pred == ancestor_pred(s, *h),
                        out@ == pick_upto(s, pred, x as int),
                    decreases n - x,
                {
                    proof {
                        lemma_pick_step(s, pred, x as int);
                    }
                    if marks[x] {
                        out.push(dag.block_at(x).hash);
                    }
                    x = x + 1;
                }
            },
        }
        out
    }

    /// The anticone of block `block` relative to `reference`: the blocks in
    /// the past of `reference` (itself included) that are neither `block`
    /// nor related to it by ancestry, in topological order.
    pub fn get_anticone(dag: &BlockDAG, block: &BlockHash, reference: &BlockHash) -> (r: Vec<BlockHash>)
        requires
            dag.wf(),
        ensures
            r@ == anticone_seq(dag@, *block, *reference),
    {
        let n = dag.block_count();
        let ghost s = dag@;
        let ghost pred = anticone_pred(s, *block, *reference);
        let mut out: Vec<BlockHash> = Vec::new();
        proof {
            lemma_pick_empty(s, pred);
        }
        let ri = match dag.find_index(reference) {
            None => {
                proof {
                    lemma_pick_none(s, pred, n as int);
                }
                return out;
            },
            Some(i) => i,
        };
        let past_r = dag.ancestor_marks(ri);
        let bi = dag.find_index(block);
        let mut past_b: Vec<bool> = Vec::new();
        let mut future_b: Vec<bool> = Vec::new();
        let mut bpos: usize = 0;
        match bi {
            Some(i) => {
                past_b = dag.ancestor_marks(i);
                future_b = dag.descendant_marks(i);
                bpos = i;
            },
            None => {},
        }
        let mut x: usize = 0;
        while x < n
            invariant
                n == s.len(),
                s == dag@,
                x <= n,
                hash_index(s, *reference) == Some(ri as int),
                bi == match hash_index(s, *block) {
                    Some(i) => Some(i as usize),
                    None => None::<usize>,
                },
                bi matches Some(i) ==> i == bpos,
                past_r@.len() == n,
                forall|y: int| 0 <= y < n ==> #[trigger] past_r@[y] == is_anc(s, y, ri as int),
                bi is Some ==> past_b@.len() == n && future_b@.len() == n,
                bi is Some ==> forall|y: int| 0 <= y < n ==> #[trigger] past_b@[y] == is_anc(s, y, bpos as int),
                bi is Some ==> forall|y: int| 0 <= y < n ==> #[trigger] future_b@[y] == is_anc(s, bpos as int, y),
                pred == anticone_pred(s, *block, *reference),
                out@ == pick_upto(s, pred, x as int),
            decreases n - x,
        {
            let in_past: bool = x == ri || past_r[x];
            let related: bool = match bi {
                Some(_) => x == bpos || past_b[x] || future_b[x],
                None => false,
            };
            proof {
                lemma_pick_step(s, pred, x as int);
                assert(in_past == in_closed_past(s, x as int, *reference));
                assert(related == related_to(s, x as int, *block));
            }
            if in_past && !related {
                out.push(dag.block_at(x).hash);
            }
            x = x + 1;
        }
        out
    }
}

} // verus!
