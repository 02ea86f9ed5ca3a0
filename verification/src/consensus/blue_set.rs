use vstd::prelude::*;
use crate::chain::block::BlockHash;
use crate::chain::bytes::hash_eq;
use crate::chain::hash_order::{hashes_sorted, lemma_sorted_permutation_strict, lex_lt, sort_hashes};
use crate::consensus::dag_traversal::{is_ancestor_spec, DAGTraversal};
use crate::dag::{
    ancestors_seq, anticone_seq, contains_hash, hash_index, hashes_of, lemma_hash_index, lemma_pick_contains,
    lemma_pick_empty, lemma_pick_no_dup, lemma_pick_step, pick, pick_upto, BlockDAG,
};

verus! {

/// Block `x` (other than the reference) has an anticone of at most `k`
/// blocks relative to `r`.
pub open spec fn blue_pred(s: Seq<crate::chain::block::Block>, r: BlockHash, k: nat) -> spec_fn(int) -> bool {
    |x: int| s[x].hash != r && anticone_seq(s, s[x].hash, r).len() <= k
}

/// Block `x` (other than the reference) has an anticone of more than `k`
/// blocks relative to `r`.
pub open spec fn red_pred(s: Seq<crate::chain::block::Block>, r: BlockHash, k: nat) -> spec_fn(int) -> bool {
    |x: int| s[x].hash != r && anticone_seq(s, s[x].hash, r).len() > k
}

/// The blue set of reference `r`: `r` itself, then every other block whose
/// anticone relative to `r` has at most `k` blocks, in topological order.
pub open spec fn blue_seq(s: Seq<crate::chain::block::Block>, r: BlockHash, k: nat) -> Seq<BlockHash> {
    seq![r] + pick(s, blue_pred(s, r, k))
}

/// The red set of reference `r`: the blocks of the DAG outside the blue set.
pub open spec fn red_seq(s: Seq<crate::chain::block::Block>, r: BlockHash, k: nat) -> Seq<BlockHash> {
    pick(s, red_pred(s, r, k))
}

/// Blue set calculation for GHOSTDAG consensus.
/// A block is in the blue set if its anticone size is <= k.
#[derive(Clone, Debug)]
pub struct BlueSet {
    /// Parameter k: maximum anticone size for blue blocks.
    pub k: usize,
}

impl BlueSet {
    /// Create new BlueSet calculator with parameter k.
    pub fn new(k: usize) -> (b: Self)
        ensures
            b.k == k,
    {
        BlueSet { k }
    }

    /// Build the blue set for a reference block.
    pub fn build_blue_set(&self, dag: &BlockDAG, reference_hash: &BlockHash) -> (r: Vec<BlockHash>)
        requires
            dag.wf(),
        ensures
            r@ == blue_seq(dag@, *reference_hash, self.k as nat),
            r@.no_duplicates(),
    {
        let ghost s = dag@;
        let ghost pred = blue_pred(s, *reference_hash, self.k as nat);
        let mut picked: Vec<BlockHash> = Vec::new();
        let all_blocks = DAGTraversal::get_all_blocks(dag);
        let n = all_blocks.len();
        proof {
            lemma_pick_empty(s, pred);
        }
        let mut x: usize = 0;
        while x < n
            invariant
                s == dag@,
                dag.wf(),
                all_blocks@ == hashes_of(s),
                n == s.len(),
                x <= n,
                pred == blue_pred(s, *reference_hash, self.k as nat),
                picked@ == pick_upto(s, pred, x as int),
            decreases n - x,
        {
            let h: BlockHash = all_blocks[x];
            proof {
                lemma_pick_step(s, pred, x as int);
                assert(h == s[x as int].hash);
            }
            if !hash_eq(&h, reference_hash) {
                let anticone = DAGTraversal::get_anticone(dag, &h, reference_hash);
                if anticone.len() <= self.k {
                    picked.push(h);
                }
            }
            x = x + 1;
        }
        let mut out: Vec<BlockHash> = Vec::new();
        out.push(*reference_hash);
        let mut i: usize = 0;
        while i < picked.len()
            invariant
                i <= picked@.len(),
                out@ == seq![*reference_hash] + picked@.take(i as int),
            decreases picked@.len() - i,
        {
            out.push(picked[i]);
            i = i + 1;
            assert(out@ =~= seq![*reference_hash] + picked@.take(i as int));
        }
        proof {
            assert(picked@.take(picked@.len() as int) =~= picked@);
            lemma_blue_seq_no_dup(s, *reference_hash, self.k as nat);
        }
        out
    }

    /// Build the red set: the blocks of the DAG outside the blue set.
    pub fn build_red_set(&self, dag: &BlockDAG, reference_hash: &BlockHash) -> (r: Vec<BlockHash>)
        requires
            dag.wf(),
        ensures
            r@ == red_seq(dag@, *reference_hash, self.k as nat),
            r@.no_duplicates(),
    {
        let ghost s = dag@;
        let ghost pred = red_pred(s, *reference_hash, self.k as nat);
        let mut out: Vec<BlockHash> = Vec::new();
        let all_blocks = DAGTraversal::get_all_blocks(dag);
        let n = all_blocks.len();
        proof {
            lemma_pick_empty(s, pred);
        }
        let mut x: usize = 0;
        while x < n
            invariant
                s == dag@,
                dag.wf(),
                all_blocks@ == hashes_of(s),
                n == s.len(),
                x <= n,
                pred == red_pred(s, *reference_hash, self.k as nat),
                out@ == pick_upto(s, pred, x as int),
            decreases n - x,
        {
            let h: BlockHash = all_blocks[x];
            proof {
                lemma_pick_step(s, pred, x as int);
                assert(h == s[x as int].hash);
            }
            if !hash_eq(&h, reference_hash) {
                let anticone = DAGTraversal::get_anticone(dag, &h, reference_hash);
                if anticone.len() > self.k {
                    out.push(h);
                }
            }
            x = x + 1;
        }
        proof {
            lemma_pick_no_dup(s, pred, s.len() as int);
        }
        out
    }

    /// Check whether a block is blue relative to a reference: it must be the
    /// reference or one of its ancestors, with an anticone of at most `k`.
    pub fn is_blue(&self, dag: &BlockDAG, block_hash: &BlockHash, reference_hash: &BlockHash) -> (r: bool)
        requires
            dag.wf(),
        ensures
            r == ((*block_hash == *reference_hash || is_ancestor_spec(dag@, *block_hash, *reference_hash))
                && anticone_seq(dag@, *block_hash, *reference_hash).len() <= self.k),
    {
        if !hash_eq(block_hash, reference_hash) && !DAGTraversal::is_ancestor(dag, block_hash, reference_hash) {
            return false;
        }
        let anticone = DAGTraversal::get_anticone(dag, block_hash, reference_hash);
        anticone.len() <= self.k
    }

    /// Number of blocks in the anticone of a block relative to a reference.
    pub fn get_anticone_size(&self, dag: &BlockDAG, block_hash: &BlockHash, reference_hash: &BlockHash) -> (n: usize)
        requires
            dag.wf(),
        ensures
            n == anticone_seq(dag@, *block_hash, *reference_hash).len(),
    {
        let anticone = DAGTraversal::get_anticone(dag, block_hash, reference_hash);
        anticone.len()
    }

    /// The anticone of a block relative to a reference.
    pub fn get_anticone(&self, dag: &BlockDAG, block_hash: &BlockHash, reference_hash: &BlockHash) -> (r: Vec<BlockHash>)
        requires
            dag.wf(),
        ensures
            r@ == anticone_seq(dag@, *block_hash, *reference_hash),
    {
        DAGTraversal::get_anticone(dag, block_hash, reference_hash)
    }

    /// Count blocks in the blue set of a reference.
    pub fn count_blue_blocks(&self, dag: &BlockDAG, reference_hash: &BlockHash) -> (n: usize)
        requires
            dag.wf(),
        ensures
            n == blue_seq(dag@, *reference_hash, self.k as nat).len(),
    {
        self.build_blue_set(dag, reference_hash).len()
    }

    /// Count blocks in the red set of a reference.
    pub fn count_red_blocks(&self, dag: &BlockDAG, reference_hash: &BlockHash) -> (n: usize)
        requires
            dag.wf(),
        ensures
            n == red_seq(dag@, *reference_hash, self.k as nat).len(),
    {
        self.build_red_set(dag, reference_hash).len()
    }

    /// The blue set, sorted in ascending order of hash.
    pub fn get_blue_blocks(&self, dag: &BlockDAG, reference_hash: &BlockHash) -> (r: Vec<BlockHash>)
        requires
            dag.wf(),
        ensures
            hashes_sorted(r@),
            r@.to_multiset() == blue_seq(dag@, *reference_hash, self.k as nat).to_multiset(),
            forall|i: int, j: int| 0 <= i < j < r@.len() ==> lex_lt(#[trigger] r@[i]@, #[trigger] r@[j]@),
            r@.to_set() == blue_seq(dag@, *reference_hash, self.k as nat).to_set(),
    {
        let blocks = self.build_blue_set(dag, reference_hash);
        let sorted = sort_hashes(&blocks);
        proof {
            lemma_sorted_permutation_strict(sorted@, blocks@);
        }
        sorted
    }

    /// The red set, sorted in ascending order of hash.
    pub fn get_red_blocks(&self, dag: &BlockDAG, reference_hash: &BlockHash) -> (r: Vec<BlockHash>)
        requires
            dag.wf(),
        ensures
            hashes_sorted(r@),
            r@.to_multiset() == red_seq(dag@, *reference_hash, self.k as nat).to_multiset(),
            forall|i: int, j: int| 0 <= i < j < r@.len() ==> lex_lt(#[trigger] r@[i]@, #[trigger] r@[j]@),
            r@.to_set() == red_seq(dag@, *reference_hash, self.k as nat).to_set(),
    {
        let blocks = self.build_red_set(dag, reference_hash);
        let sorted = sort_hashes(&blocks);
        proof {
            lemma_sorted_permutation_strict(sorted@, blocks@);
        }
        sorted
    }

    /// Check that every proper ancestor of `block_hash` is in the blue set
    /// of `reference_hash`.
    pub fn are_all_ancestors_blue(&self, dag: &BlockDAG, block_hash: &BlockHash, reference_hash: &BlockHash) -> (r: bool)
        requires
            dag.wf(),
        ensures
            r == (forall|h: BlockHash|
                ancestors_seq(dag@, *block_hash).contains(h) ==> #[trigger] blue_seq(
                    dag@,
                    *reference_hash,
                    self.k as nat,
                ).contains(h)),
    {
        let ancestors = DAGTraversal::get_ancestors(dag, block_hash);
        let blue = self.build_blue_set(dag, reference_hash);
        let mut i: usize = 0;
        while i < ancestors.len()
            invariant
                ancestors@ == ancestors_seq(dag@, *block_hash),
                blue@ == blue_seq(dag@, *reference_hash, self.k as nat),
                i <= ancestors@.len(),
                forall|j: int| 0 <= j < i ==> blue@.contains(#[trigger] ancestors@[j]),
            decreases ancestors@.len() - i,
        {
            let a: BlockHash = ancestors[i];
            let mut found: bool = false;
            let mut j: usize = 0;
            while j < blue.len()
                invariant
                    j <= blue@.len(),
                    found == exists|m: int| 0 <= m < j && blue@[m] == a,
                decreases blue@.len() - j,
            {
                if !found && hash_eq(&blue[j], &a) {
                    found = true;
                }
                j = j + 1;
            }
            if !found {
                assert(ancestors@[i as int] == a);
                assert(ancestors@.contains(a));
                assert(!blue@.contains(a));
                assert(!blue_seq(dag@, *reference_hash, self.k as nat).contains(a));
                return false;
            }
            i = i + 1;
        }
        proof {
            assert forall|h: BlockHash| ancestors@.contains(h) implies #[trigger] blue@.contains(h) by {
                let j = choose|j: int| 0 <= j < ancestors@.len() && ancestors@[j] == h;
                assert(blue@.contains(ancestors@[j]));
            }
        }
        true
    }
}

/// The blue set lists no block twice.
pub proof fn lemma_blue_seq_no_dup(s: Seq<crate::chain::block::Block>, r: BlockHash, k: nat)
    requires
        crate::dag::dag_wf(s),
    ensures
        blue_seq(s, r, k).no_duplicates(),
{
    let p = pick(s, blue_pred(s, r, k));
    lemma_pick_no_dup(s, blue_pred(s, r, k), s.len() as int);
    lemma_pick_contains(s, blue_pred(s, r, k), s.len() as int, r);
    let t = seq![r] + p;
    assert forall|i: int, j: int| 0 <= i < t.len() && 0 <= j < t.len() && i != j implies t[i] != t[j] by {
        if i == 0 {
            assert(t[j] == p[j - 1]);
            assert(p.contains(p[j - 1]));
        } else if j == 0 {
            assert(t[i] == p[i - 1]);
            assert(p.contains(p[i - 1]));
        } else {
            assert(t[i] == p[i - 1] && t[j] == p[j - 1]);
        }
    }
}

/// Blue and red counts of one reference add up to the DAG's block count,
/// plus one when the reference is not a block of the DAG (it is still
/// counted blue).
pub proof fn lemma_blue_red_counts(s: Seq<crate::chain::block::Block>, r: BlockHash, k: nat)
    requires
        crate::dag::dag_wf(s),
    ensures
        blue_seq(s, r, k).len() + red_seq(s, r, k).len() == s.len() + (if contains_hash(s, r) {
            0int
        } else {
            1int
        }),
{
    lemma_counts_upto(s, r, k, s.len() as int);
    if contains_hash(s, r) {
        let i = choose|i: int| 0 <= i < s.len() && s[i].hash == r;
        lemma_hash_index(s, i);
        assert(exists|x: int| #![trigger s[x]] 0 <= x < s.len() && s[x].hash == r);
    }
}

/// Up to `m`, every block is counted blue, red, or is the reference.
proof fn lemma_counts_upto(s: Seq<crate::chain::block::Block>, r: BlockHash, k: nat, m: int)
    requires
        crate::dag::dag_wf(s),
        0 <= m <= s.len(),
    ensures
        pick_upto(s, blue_pred(s, r, k), m).len() + pick_upto(s, red_pred(s, r, k), m).len() + (if exists|x: int|
            #![trigger s[x]]
            0 <= x < m && s[x].hash == r {
            1int
        } else {
            0int
        }) == m,
    decreases m,
{
    if m == 0 {
        lemma_pick_empty(s, blue_pred(s, r, k));
        lemma_pick_empty(s, red_pred(s, r, k));
    } else {
        lemma_counts_upto(s, r, k, m - 1);
        lemma_pick_step(s, blue_pred(s, r, k), m - 1);
        lemma_pick_step(s, red_pred(s, r, k), m - 1);
        if s[m - 1].hash == r {
            if exists|x: int| #![trigger s[x]] 0 <= x < m - 1 && s[x].hash == r {
                let x = choose|x: int| #![trigger s[x]] 0 <= x < m - 1 && s[x].hash == r;
                assert(s[x].hash != s[m - 1].hash);
            }
            assert(exists|x: int| #![trigger s[x]] 0 <= x < m && s[x].hash == r);
        } else {
            if exists|x: int| #![trigger s[x]] 0 <= x < m && s[x].hash == r {
                let x = choose|x: int| #![trigger s[x]] 0 <= x < m && s[x].hash == r;
                assert(x != m - 1);
                assert(exists|x: int| #![trigger s[x]] 0 <= x < m - 1 && s[x].hash == r);
            }
            if exists|x: int| #![trigger s[x]] 0 <= x < m - 1 && s[x].hash == r {
                let x = choose|x: int| #![trigger s[x]] 0 <= x < m - 1 && s[x].hash == r;
                assert(exists|x: int| #![trigger s[x]] 0 <= x < m && s[x].hash == r);
            }
        }
    }
}

/// Blue and red split the DAG: the reference is blue; every block of the
/// DAG is in exactly one of the two sets; red blocks are blocks of the DAG
/// other than the reference.
pub proof fn lemma_blue_red_partition(s: Seq<crate::chain::block::Block>, r: BlockHash, k: nat)
    requires
        crate::dag::dag_wf(s),
    ensures
        blue_seq(s, r, k).contains(r),
        forall|x: int|
            0 <= x < s.len() ==> (blue_seq(s, r, k).contains(#[trigger] s[x].hash) <==> !red_seq(
                s,
                r,
                k,
            ).contains(s[x].hash)),
        forall|h: BlockHash| #[trigger] red_seq(s, r, k).contains(h) ==> contains_hash(s, h) && h != r,
        forall|h: BlockHash| #[trigger] blue_seq(s, r, k).contains(h) ==> contains_hash(s, h) || h == r,
{
    let bp = blue_pred(s, r, k);
    let rp = red_pred(s, r, k);
    let n = s.len() as int;
    assert(blue_seq(s, r, k)[0] == r);
    assert forall|x: int| 0 <= x < s.len() implies (blue_seq(s, r, k).contains(#[trigger] s[x].hash)
        <==> !red_seq(s, r, k).contains(s[x].hash)) by {
        let h = s[x].hash;
        lemma_pick_contains(s, bp, n, h);
        lemma_pick_contains(s, rp, n, h);
        lemma_in_blue_seq(s, r, k, h);
        if exists|y: int| #![trigger s[y]] 0 <= y < n && bp(y) && s[y].hash == h {
            let y = choose|y: int| #![trigger s[y]] 0 <= y < n && bp(y) && s[y].hash == h;
            if y != x {
                if y < x {
                    assert(s[y].hash != s[x].hash);
                } else {
                    assert(s[x].hash != s[y].hash);
                }
            }
        }
        if exists|y: int| #![trigger s[y]] 0 <= y < n && rp(y) && s[y].hash == h {
            let y = choose|y: int| #![trigger s[y]] 0 <= y < n && rp(y) && s[y].hash == h;
            if y != x {
                if y < x {
                    assert(s[y].hash != s[x].hash);
                } else {
                    assert(s[x].hash != s[y].hash);
                }
            }
        }
        if !bp(x) && h != r {
            assert(rp(x));
        }
        if bp(x) {
            assert(exists|y: int| #![trigger s[y]] 0 <= y < n && bp(y) && s[y].hash == h);
        }
        if rp(x) {
            assert(exists|y: int| #![trigger s[y]] 0 <= y < n && rp(y) && s[y].hash == h);
        }
    }
    assert forall|h: BlockHash| #[trigger] red_seq(s, r, k).contains(h) implies contains_hash(s, h) && h != r by {
        lemma_pick_contains(s, rp, n, h);
        let y = choose|y: int| #![trigger s[y]] 0 <= y < n && rp(y) && s[y].hash == h;
    }
    assert forall|h: BlockHash| #[trigger] blue_seq(s, r, k).contains(h) implies contains_hash(s, h) || h == r by {
        lemma_pick_contains(s, bp, n, h);
        lemma_in_blue_seq(s, r, k, h);
        if h != r {
            let y = choose|y: int| #![trigger s[y]] 0 <= y < n && bp(y) && s[y].hash == h;
        }
    }
}

/// The red set is the complement of the blue set in the DAG, as sets: no
/// block is both blue and red, and, when the reference is a block of the
/// DAG, together they are exactly the DAG's blocks.
pub proof fn lemma_red_is_complement(s: Seq<crate::chain::block::Block>, r: BlockHash, k: nat)
    requires
        crate::dag::dag_wf(s),
    ensures
        blue_seq(s, r, k).to_set().disjoint(red_seq(s, r, k).to_set()),
        red_seq(s, r, k).to_set() == hashes_of(s).to_set().difference(blue_seq(s, r, k).to_set()),
        contains_hash(s, r) ==> blue_seq(s, r, k).to_set().union(red_seq(s, r, k).to_set()) == hashes_of(s).to_set(),
{
    lemma_blue_red_partition(s, r, k);
    let blue = blue_seq(s, r, k);
    let red = red_seq(s, r, k);
    let all = hashes_of(s);
    assert forall|h: BlockHash| all.contains(h) <==> contains_hash(s, h) by {
        if all.contains(h) {
            let i = choose|i: int| 0 <= i < all.len() && all[i] == h;
            assert(s[i].hash == h);
        }
        if contains_hash(s, h) {
            let i = choose|i: int| 0 <= i < s.len() && s[i].hash == h;
            assert(all[i] == h);
        }
    }
    assert forall|h: BlockHash| !(blue.contains(h) && red.contains(h)) by {
        if red.contains(h) {
            let x = choose|x: int| 0 <= x < s.len() && s[x].hash == h;
            assert(blue.contains(s[x].hash) <==> !red.contains(s[x].hash));
        }
    }
    assert(blue.to_set().disjoint(red.to_set()));
    assert forall|h: BlockHash| red.to_set().contains(h) == all.to_set().difference(blue.to_set()).contains(h) by {
        if all.contains(h) && !blue.contains(h) {
            let x = choose|x: int| 0 <= x < s.len() && s[x].hash == h;
            assert(blue.contains(s[x].hash) <==> !red.contains(s[x].hash));
        }
    }
    assert(red.to_set() =~= all.to_set().difference(blue.to_set()));
    if contains_hash(s, r) {
        assert(blue.to_set().union(red.to_set()) =~= all.to_set());
    }
}

/// The blue set grows with `k`: every block blue for `k1` is blue for any
/// `k2 >= k1`.
pub proof fn lemma_blue_set_grows_with_k(s: Seq<crate::chain::block::Block>, r: BlockHash, k1: nat, k2: nat)
    requires
        k1 <= k2,
    ensures
        blue_seq(s, r, k1).to_set().subset_of(blue_seq(s, r, k2).to_set()),
{
    assert forall|h: BlockHash| blue_seq(s, r, k1).to_set().contains(h) implies blue_seq(s, r, k2).to_set().contains(h) by {
        lemma_blue_monotone_in_k(s, r, k1, k2, h);
    }
}


/// Membership in the blue set.
pub proof fn lemma_in_blue_seq(s: Seq<crate::chain::block::Block>, r: BlockHash, k: nat, h: BlockHash)
    ensures
        blue_seq(s, r, k).contains(h) <==> (h == r || pick(s, blue_pred(s, r, k)).contains(h)),
{
    let p = pick(s, blue_pred(s, r, k));
    let t = seq![r] + p;
    if t.contains(h) && h != r {
        let i = choose|i: int| 0 <= i < t.len() && t[i] == h;
        assert(p[i - 1] == h);
    }
    if h == r {
        assert(t[0] == h);
    }
    if p.contains(h) {
        let i = choose|i: int| 0 <= i < p.len() && p[i] == h;
        assert(t[i + 1] == h);
    }
}

/// A larger `k` colors at least the same blocks blue.
pub proof fn lemma_blue_monotone_in_k(s: Seq<crate::chain::block::Block>, r: BlockHash, k1: nat, k2: nat, h: BlockHash)
    requires
        k1 <= k2,
        blue_seq(s, r, k1).contains(h),
    ensures
        blue_seq(s, r, k2).contains(h),
{
    let n = s.len() as int;
    lemma_in_blue_seq(s, r, k1, h);
    lemma_in_blue_seq(s, r, k2, h);
    if h != r {
        lemma_pick_contains(s, blue_pred(s, r, k1), n, h);
        lemma_pick_contains(s, blue_pred(s, r, k2), n, h);
        let y = choose|y: int| #![trigger s[y]] 0 <= y < n && blue_pred(s, r, k1)(y) && s[y].hash == h;
        assert(blue_pred(s, r, k2)(y));
    }
}

/// A block that `is_blue` accepts is in the blue set of the reference.
pub proof fn lemma_is_blue_in_blue_set(s: Seq<crate::chain::block::Block>, b: BlockHash, r: BlockHash, k: nat)
    requires
        crate::dag::dag_wf(s),
        b == r || is_ancestor_spec(s, b, r),
        anticone_seq(s, b, r).len() <= k,
    ensures
        blue_seq(s, r, k).contains(b),
{
    let n = s.len() as int;
    lemma_in_blue_seq(s, r, k, b);
    if b != r {
        let ib = hash_index(s, b)->0;
        assert(exists|i: int| 0 <= i < s.len() && s[i].hash == b);
        lemma_pick_contains(s, blue_pred(s, r, k), n, b);
        assert(blue_pred(s, r, k)(ib));
        assert(exists|y: int| #![trigger s[y]] 0 <= y < n && blue_pred(s, r, k)(y) && s[y].hash == b);
    }
}

/// Statistics of a blue set: sizes, the `k` used, and the share of the
/// DAG's blocks that are blue, in millionths.
#[derive(Clone, Copy, Debug)]
pub struct BlueSetStats {
    pub blue_count: usize,
    pub red_count: usize,
    pub total_blocks: usize,
    pub k_parameter: usize,
    pub blue_ratio_ppm: u64,
}

/// At most `k` blocks are picked from the first `k`.
proof fn lemma_pick_len_le(s: Seq<crate::chain::block::Block>, pred: spec_fn(int) -> bool, k: int)
    requires
        0 <= k <= s.len(),
    ensures
        pick_upto(s, pred, k).len() <= k,
    decreases k,
{
    if k == 0 {
        lemma_pick_empty(s, pred);
    } else {
        lemma_pick_len_le(s, pred, k - 1);
        lemma_pick_step(s, pred, k - 1);
    }
}

impl BlueSet {
    /// Statistics of the blue set of a reference block: the sizes of its
    /// blue and red sets, the number of blocks, `k`, and the blue share
    /// (blue count over block count, rounded down, 0 for an empty DAG).
    pub fn get_blue_set_stats(&self, dag: &BlockDAG, reference_hash: &BlockHash) -> (st: BlueSetStats)
        requires
            dag.wf(),
        ensures
            st.blue_count == blue_seq(dag@, *reference_hash, self.k as nat).len(),
            st.red_count == red_seq(dag@, *reference_hash, self.k as nat).len(),
            st.total_blocks == dag@.len(),
            st.k_parameter == self.k,
            st.blue_ratio_ppm == (if dag@.len() > 0 {
                st.blue_count * 1_000_000 / (dag@.len() as int)
            } else {
                0
            }),
    {
        let blue_set = self.build_blue_set(dag, reference_hash);
        let red_set = self.build_red_set(dag, reference_hash);
        let total_blocks = dag.block_count();
        let blue_count = blue_set.len();
        let red_count = red_set.len();
        let ratio: u64 = if total_blocks > 0 {
            proof {
                lemma_pick_len_le(dag@, blue_pred(dag@, *reference_hash, self.k as nat), dag@.len() as int);
            }
            let b: u128 = blue_count as u128;
            let n: u128 = total_blocks as u128;
            assert(b <= n + 1);
            assert(b * 1_000_000 <= (n + 1) * 1_000_000) by (nonlinear_arith)
                requires
                    b <= n + 1,
            ;
            assert((n + 1) * 1_000_000 <= 0x1_0000_0000_0000_0000u128 * 1_000_000) by (nonlinear_arith)
                requires
                    n <= 0xffff_ffff_ffff_ffffu128,
            ;
            let q: u128 = b * 1_000_000 / n;
            assert(q <= 2_000_000) by (nonlinear_arith)
                requires
                    q == (b * 1_000_000) / (n as int),
                    b <= n + 1,
                    n >= 1,
            {
                assert(b * 1_000_000 <= 2 * n * 1_000_000);
            }
            q as u64
        } else {
            0
        };
        BlueSetStats { blue_count, red_count, total_blocks, k_parameter: self.k, blue_ratio_ppm: ratio }
    }
}

} // verus!
