use vstd::prelude::*;
use crate::chain::block::{Block, BlockHash};
use crate::chain::bytes::hash_eq;

verus! {

/// Block `a` is a direct parent of block `b` (positions in insertion order).
pub open spec fn is_parent(s: Seq<Block>, a: int, b: int) -> bool {
    0 <= a < b < s.len() && s[b].header.parent_hashes@.contains(s[a].hash)
}

/// Block `a` is a proper ancestor of block `b`: a chain of parent links leads
/// from `b` down to `a`. Written by the first link out of `a`.
pub open spec fn is_anc(s: Seq<Block>, a: int, b: int) -> bool
    decreases b - a,
{
    if 0 <= a < b < s.len() {
        is_parent(s, a, b) || exists|q: int| a < q < b && #[trigger] is_parent(s, a, q) && is_anc(s, q, b)
    } else {
        false
    }
}

/// The hashes of a block sequence, in order.
pub open spec fn hashes_of(s: Seq<Block>) -> Seq<BlockHash> {
    s.map_values(|b: Block| b.hash)
}

/// Well-formedness of the DAG's block list: hashes are distinct, and every
/// parent of a block is an earlier block of the list (so the list is a
/// topological order and the graph has no cycle).
pub open spec fn dag_wf(s: Seq<Block>) -> bool {
    &&& forall|i: int, j: int| 0 <= i < j < s.len() ==> s[i].hash != s[j].hash
    &&& forall|b: int, k: int|
        0 <= b < s.len() && 0 <= k < s[b].header.parent_hashes@.len() ==> #[trigger] parent_earlier(s, b, k)
}

/// The `k`-th parent of block `b` is the hash of an earlier block.
pub open spec fn parent_earlier(s: Seq<Block>, b: int, k: int) -> bool {
    exists|a: int| 0 <= a < b && s[a].hash == s[b].header.parent_hashes@[k]
}

/// Position of the block with hash `h`, if any.
pub open spec fn hash_index(s: Seq<Block>, h: BlockHash) -> Option<int> {
    if exists|i: int| 0 <= i < s.len() && s[i].hash == h {
        Some(choose|i: int| 0 <= i < s.len() && s[i].hash == h)
    } else {
        None
    }
}

/// Whether a block with hash `h` is in the DAG.
pub open spec fn contains_hash(s: Seq<Block>, h: BlockHash) -> bool {
    exists|i: int| 0 <= i < s.len() && s[i].hash == h
}

/// Block `x` lies in the past of the block with hash `r`, `r` included.
pub open spec fn in_closed_past(s: Seq<Block>, x: int, r: BlockHash) -> bool {
    match hash_index(s, r) {
        Some(ri) => x == ri || is_anc(s, x, ri),
        None => false,
    }
}

/// Block `x` is the block with hash `b`, an ancestor or a descendant of it.
pub open spec fn related_to(s: Seq<Block>, x: int, b: BlockHash) -> bool {
    match hash_index(s, b) {
        Some(bi) => x == bi || is_anc(s, x, bi) || is_anc(s, bi, x),
        None => false,
    }
}

/// Block `x` is in the anticone of block `b` as seen from reference `r`:
/// it is in the closed past of `r` and neither `b`, an ancestor nor a
/// descendant of `b`.
pub open spec fn in_anticone(s: Seq<Block>, x: int, b: BlockHash, r: BlockHash) -> bool {
    in_closed_past(s, x, r) && !related_to(s, x, b)
}

/// The positions `0..n`.
pub open spec fn positions(n: nat) -> Seq<int> {
    Seq::new(n, |i: int| i)
}

/// Hashes of the blocks among the first `k` positions that satisfy `pred`,
/// in topological order.
pub open spec fn pick_upto(s: Seq<Block>, pred: spec_fn(int) -> bool, k: int) -> Seq<BlockHash> {
    positions(s.len()).take(k).filter(pred).map_values(|x: int| s[x].hash)
}

/// Hashes of all blocks that satisfy `pred`, in topological order.
pub open spec fn pick(s: Seq<Block>, pred: spec_fn(int) -> bool) -> Seq<BlockHash> {
    pick_upto(s, pred, s.len() as int)
}

/// Position `x` holds a block in the anticone of `b` relative to `r`.
pub open spec fn anticone_pred(s: Seq<Block>, b: BlockHash, r: BlockHash) -> spec_fn(int) -> bool {
    |x: int| in_anticone(s, x, b, r)
}

/// Position `x` holds a proper ancestor of the block with hash `h`.
pub open spec fn ancestor_pred(s: Seq<Block>, h: BlockHash) -> spec_fn(int) -> bool {
    |x: int|
        match hash_index(s, h) {
            Some(hi) => is_anc(s, x, hi),
            None => false,
        }
}

/// Position `x` holds a tip.
pub open spec fn tip_pred(s: Seq<Block>) -> spec_fn(int) -> bool {
    |x: int| is_tip(s, x)
}

/// The anticone of `b` relative to `r`, in topological order.
pub open spec fn anticone_seq(s: Seq<Block>, b: BlockHash, r: BlockHash) -> Seq<BlockHash> {
    pick(s, anticone_pred(s, b, r))
}

/// Proper ancestors of the block with hash `h`, in topological order.
pub open spec fn ancestors_seq(s: Seq<Block>, h: BlockHash) -> Seq<BlockHash> {
    pick(s, ancestor_pred(s, h))
}

/// Whether the block at position `x` has no child.
pub open spec fn is_tip(s: Seq<Block>, x: int) -> bool {
    forall|y: int| 0 <= y < s.len() ==> !#[trigger] is_parent(s, x, y)
}

/// The tips (blocks without children), in topological order.
pub open spec fn tips_seq(s: Seq<Block>) -> Seq<BlockHash> {
    pick(s, tip_pred(s))
}

/// One more position in a pick.
pub proof fn lemma_pick_step(s: Seq<Block>, pred: spec_fn(int) -> bool, k: int)
    requires
        0 <= k < s.len(),
    ensures
        pick_upto(s, pred, k + 1) == (if pred(k) {
            pick_upto(s, pred, k).push(s[k].hash)
        } else {
            pick_upto(s, pred, k)
        }),
{
    reveal_with_fuel(Seq::filter, 1);
    let p = positions(s.len());
    assert(p.take(k + 1).drop_last() =~= p.take(k));
    assert(p.take(k + 1).last() == k);
    if pred(k) {
        assert(p.take(k + 1).filter(pred) =~= p.take(k).filter(pred).push(k));
        assert(p.take(k).filter(pred).push(k).map_values(|x: int| s[x].hash) =~= p.take(k).filter(
            pred,
        ).map_values(|x: int| s[x].hash).push(s[k].hash));
    } else {
        assert(p.take(k + 1).filter(pred) =~= p.take(k).filter(pred));
    }
}

/// Nothing picked among no positions.
pub proof fn lemma_pick_empty(s: Seq<Block>, pred: spec_fn(int) -> bool)
    ensures
        pick_upto(s, pred, 0) == Seq::<BlockHash>::empty(),
{
    reveal_with_fuel(Seq::filter, 1);
    assert(positions(s.len()).take(0) =~= Seq::<int>::empty());
    assert(pick_upto(s, pred, 0) =~= Seq::<BlockHash>::empty());
}

/// A pick of a predicate that holds nowhere is empty.
pub proof fn lemma_pick_none(s: Seq<Block>, pred: spec_fn(int) -> bool, k: int)
    requires
        0 <= k <= s.len(),
        forall|x: int| 0 <= x < s.len() ==> !#[trigger] pred(x),
    ensures
        pick_upto(s, pred, k) == Seq::<BlockHash>::empty(),
    decreases k,
{
    if k == 0 {
        lemma_pick_empty(s, pred);
    } else {
        lemma_pick_none(s, pred, k - 1);
        lemma_pick_step(s, pred, k - 1);
    }
}

/// A pick leaves out every position where the predicate fails.
pub proof fn lemma_pick_len_bound(s: Seq<Block>, pred: spec_fn(int) -> bool, m: int, z: int)
    requires
        0 <= m <= s.len(),
        0 <= z < s.len(),
        !pred(z),
    ensures
        pick_upto(s, pred, m).len() + (if z < m {
            1int
        } else {
            0int
        }) <= m,
    decreases m,
{
    if m == 0 {
        lemma_pick_empty(s, pred);
    } else {
        lemma_pick_len_bound(s, pred, m - 1, z);
        lemma_pick_step(s, pred, m - 1);
    }
}

/// A block is not its own ancestor, so it has fewer ancestors than the
/// DAG has blocks.
pub proof fn lemma_ancestors_len(s: Seq<Block>, h: BlockHash)
    ensures
        ancestors_seq(s, h).len() < s.len() || ancestors_seq(s, h).len() == 0,
{
    match hash_index(s, h) {
        Some(hi) => {
            let i = choose|i: int| 0 <= i < s.len() && s[i].hash == h;
            assert(0 <= hi < s.len());
            assert(!ancestor_pred(s, h)(hi));
            lemma_pick_len_bound(s, ancestor_pred(s, h), s.len() as int, hi);
        },
        None => {
            assert forall|x: int| 0 <= x < s.len() implies !#[trigger] ancestor_pred(s, h)(x) by {}
            lemma_pick_none(s, ancestor_pred(s, h), s.len() as int);
        },
    }
}

/// Membership in a pick.
pub proof fn lemma_pick_contains(s: Seq<Block>, pred: spec_fn(int) -> bool, k: int, h: BlockHash)
    requires
        0 <= k <= s.len(),
    ensures
        pick_upto(s, pred, k).contains(h) <==> exists|x: int| #![trigger s[x]] 0 <= x < k && pred(x) && s[x].hash == h,
    decreases k,
{
    if k == 0 {
        lemma_pick_empty(s, pred);
    } else {
        lemma_pick_contains(s, pred, k - 1, h);
        lemma_pick_step(s, pred, k - 1);
        let prev = pick_upto(s, pred, k - 1);
        if pred(k - 1) {
            let t = prev.push(s[k - 1].hash);
            assert(t.contains(h) <==> (prev.contains(h) || s[k - 1].hash == h)) by {
                if t.contains(h) {
                    let i = choose|i: int| 0 <= i < t.len() && t[i] == h;
                    if i < prev.len() {
                        assert(prev[i] == h);
                    }
                }
                if prev.contains(h) {
                    let i = choose|i: int| 0 <= i < prev.len() && prev[i] == h;
                    assert(prev.push(s[k - 1].hash)[i] == h);
                }
                if s[k - 1].hash == h {
                    assert(prev.push(s[k - 1].hash)[prev.len() as int] == h);
                }
            }
        }
        if exists|x: int| #![trigger s[x]] 0 <= x < k && pred(x) && s[x].hash == h {
            let x = choose|x: int| 0 <= x < k && pred(x) && s[x].hash == h;
            if x < k - 1 {
                assert(exists|x: int| #![trigger s[x]] 0 <= x < k - 1 && pred(x) && s[x].hash == h);
            }
        }
    }
}

/// A pick of a well-formed list has no duplicates.
pub proof fn lemma_pick_no_dup(s: Seq<Block>, pred: spec_fn(int) -> bool, k: int)
    requires
        dag_wf(s),
        0 <= k <= s.len(),
    ensures
        pick_upto(s, pred, k).no_duplicates(),
    decreases k,
{
    if k == 0 {
        lemma_pick_empty(s, pred);
    } else {
        lemma_pick_no_dup(s, pred, k - 1);
        lemma_pick_step(s, pred, k - 1);
        if pred(k - 1) {
            let prev = pick_upto(s, pred, k - 1);
            lemma_pick_contains(s, pred, k - 1, s[k - 1].hash);
            if prev.contains(s[k - 1].hash) {
                let x = choose|x: int| #![trigger s[x]] 0 <= x < k - 1 && pred(x) && s[x].hash == s[k - 1].hash;
                assert(s[x].hash != s[k - 1].hash);
            }
            let t = prev.push(s[k - 1].hash);
            assert forall|i: int, j: int| 0 <= i < t.len() && 0 <= j < t.len() && i != j implies t[i] != t[j] by {
                if i == prev.len() {
                    assert(t[j] == prev[j]);
                } else if j == prev.len() {
                    assert(t[i] == prev[i]);
                } else {
                    assert(t[i] == prev[i] && t[j] == prev[j]);
                }
            }
        }
    }
}

/// Prepending a parent link to an ancestor chain.
pub proof fn lemma_anc_prepend(s: Seq<Block>, a: int, q: int, b: int)
    requires
        is_parent(s, a, q),
        is_anc(s, q, b),
    ensures
        is_anc(s, a, b),
{
}

/// Appending a parent link to an ancestor chain.
pub proof fn lemma_anc_append(s: Seq<Block>, a: int, p: int, x: int)
    requires
        is_anc(s, a, p),
        is_parent(s, p, x),
    ensures
        is_anc(s, a, x),
    decreases p - a,
{
    if is_parent(s, a, p) {
        assert(is_anc(s, p, x));
        assert(is_parent(s, a, p) && is_anc(s, p, x));
    } else {
        let q = choose|q: int| a < q < p && #[trigger] is_parent(s, a, q) && is_anc(s, q, p);
        lemma_anc_append(s, q, p, x);
        assert(is_parent(s, a, q) && is_anc(s, q, x));
    }
}

/// Ancestry is transitive.
pub proof fn lemma_anc_trans(s: Seq<Block>, a: int, b: int, c: int)
    requires
        is_anc(s, a, b),
        is_anc(s, b, c),
    ensures
        is_anc(s, a, c),
    decreases b - a,
{
    if is_parent(s, a, b) {
        lemma_anc_prepend(s, a, b, c);
    } else {
        let q = choose|q: int| a < q < b && #[trigger] is_parent(s, a, q) && is_anc(s, q, b);
        lemma_anc_trans(s, q, b, c);
        lemma_anc_prepend(s, a, q, c);
    }
}

/// The last link of an ancestor chain.
pub proof fn lemma_anc_last_link(s: Seq<Block>, a: int, x: int)
    requires
        is_anc(s, a, x),
    ensures
        is_parent(s, a, x) || exists|p: int| a < p < x && #[trigger] is_parent(s, p, x) && is_anc(s, a, p),
    decreases x - a,
{
    if !is_parent(s, a, x) {
        let q = choose|q: int| a < q < x && #[trigger] is_parent(s, a, q) && is_anc(s, q, x);
        lemma_anc_last_link(s, q, x);
        if is_parent(s, q, x) {
            assert(is_anc(s, a, q));
            assert(a < q < x && is_parent(s, q, x) && is_anc(s, a, q));
        } else {
            let p = choose|p: int| q < p < x && #[trigger] is_parent(s, p, x) && is_anc(s, q, p);
            lemma_anc_prepend(s, a, q, p);
            assert(a < p < x && is_parent(s, p, x) && is_anc(s, a, p));
        }
    }
}

/// In a well-formed list, hashes identify positions.
pub proof fn lemma_hash_index(s: Seq<Block>, i: int)
    requires
        dag_wf(s),
        0 <= i < s.len(),
    ensures
        hash_index(s, s[i].hash) == Some(i),
{
    assert(exists|j: int| 0 <= j < s.len() && s[j].hash == s[i].hash);
    let j = choose|j: int| 0 <= j < s.len() && s[j].hash == s[i].hash;
    if j != i {
        if j < i {
            assert(s[j].hash != s[i].hash);
        } else {
            assert(s[i].hash != s[j].hash);
        }
    }
}

/// The last block of a non-empty list is a tip, so a non-empty DAG has tips.
pub proof fn lemma_tips_nonempty(s: Seq<Block>)
    requires
        s.len() > 0,
    ensures
        tips_seq(s).len() > 0,
{
    let last = s.len() - 1;
    assert(is_tip(s, last));
    assert(tip_pred(s)(last));
    lemma_pick_contains(s, tip_pred(s), s.len() as int, s[last].hash);
    assert(tips_seq(s).contains(s[last].hash));
}

/// Appending a block with a new hash and present parents keeps the list
/// well-formed.
pub proof fn lemma_push_wf(s: Seq<Block>, block: Block)
    requires
        dag_wf(s),
        !contains_hash(s, block.hash),
        forall|k: int|
            0 <= k < block.header.parent_hashes@.len() ==> contains_hash(s, #[trigger] block.header.parent_hashes@[k]),
    ensures
        dag_wf(s.push(block)),
{
    let t = s.push(block);
    assert forall|i: int, j: int| 0 <= i < j < t.len() implies t[i].hash != t[j].hash by {
        if j == s.len() {
            assert(t[i] == s[i]);
        } else {
            assert(t[i] == s[i] && t[j] == s[j]);
        }
    }
    assert forall|b: int, k: int|
        0 <= b < t.len() && 0 <= k < t[b].header.parent_hashes@.len() implies #[trigger] parent_earlier(t, b, k) by {
        if b == s.len() {
            assert(t[b] == block);
            assert(contains_hash(s, block.header.parent_hashes@[k]));
            let a = choose|a: int| 0 <= a < s.len() && s[a].hash == block.header.parent_hashes@[k];
            assert(t[a] == s[a]);
            assert(0 <= a < b && t[a].hash == t[b].header.parent_hashes@[k]);
        } else {
            assert(t[b] == s[b]);
            assert(parent_earlier(s, b, k));
            let a = choose|a: int| 0 <= a < b && s[a].hash == s[b].header.parent_hashes@[k];
            assert(t[a] == s[a]);
            assert(0 <= a < b && t[a].hash == t[b].header.parent_hashes@[k]);
        }
    }
}

/// The DAG of blocks, kept in insertion order. A block is only accepted
/// when its parents are already present, so the insertion order is a
/// topological order.
#[derive(Clone, Debug)]
pub struct BlockDAG {
    blocks: Vec<Block>,
}

impl View for BlockDAG {
    type V = Seq<Block>;

    closed spec fn view(&self) -> Seq<Block> {
        self.blocks@
    }
}

impl BlockDAG {
    /// The DAG's invariant.
    pub open spec fn wf(&self) -> bool {
        dag_wf(self@)
    }

    /// An empty DAG.
    pub fn new() -> (d: Self)
        ensures
            d@ == Seq::<Block>::empty(),
            d.wf(),
    {
        BlockDAG { blocks: Vec::new() }
    }

    /// Number of blocks.
    pub fn block_count(&self) -> (n: usize)
        ensures
            n == self@.len(),
    {
        self.blocks.len()
    }

    /// Position of the block with the given hash.
    pub fn find_index(&self, h: &BlockHash) -> (r: Option<usize>)
        requires
            self.wf(),
        ensures
            r == match hash_index(self@, *h) {
                Some(i) => Some(i as usize),
                None => None::<usize>,
            },
            r matches Some(i) ==> i < self@.len() && self@[i as int].hash == *h,
            r is None <==> !contains_hash(self@, *h),
    {
        let n = self.blocks.len();
        let mut i: usize = 0;
        while i < n
            invariant
                n == self@.len(),
                self@ == self.blocks@,
                self.wf(),
                i <= n,
                forall|j: int| 0 <= j < i ==> self@[j].hash != *h,
            decreases n - i,
        {
            let hh: BlockHash = self.blocks[i].hash;
            if hash_eq(&hh, h) {
                proof {
                    lemma_hash_index(self@, i as int);
                }
                return Some(i);
            }
            i = i + 1;
        }
        None
    }

    /// The block with the given hash, if present.
    pub fn get_block(&self, h: &BlockHash) -> (r: Option<&Block>)
        requires
            self.wf(),
        ensures
            r matches Some(b) ==> contains_hash(self@, *h) && *b == self@[hash_index(self@, *h)->0],
            r is None <==> !contains_hash(self@, *h),
    {
        match self.find_index(h) {
            Some(i) => Some(&self.blocks[i]),
            None => None,
        }
    }

    /// Height of the block with the given hash, if present.
    pub fn get_block_height(&self, h: &BlockHash) -> (r: Option<u64>)
        requires
            self.wf(),
        ensures
            r matches Some(v) ==> contains_hash(self@, *h) && v == self@[hash_index(self@, *h)->0].height,
            r is None <==> !contains_hash(self@, *h),
    {
        match self.find_index(h) {
            Some(i) => Some(self.blocks[i].height),
            None => None,
        }
    }

    /// All blocks, in topological (insertion) order.
    pub fn as_slice(&self) -> (r: &[Block])
        ensures
            r@ == self@,
    {
        self.blocks.as_slice()
    }

    /// The block at a position of the topological order.
    pub fn block_at(&self, i: usize) -> (b: &Block)
        requires
            i < self@.len(),
        ensures
            *b == self@[i as int],
    {
        &self.blocks[i]
    }

    /// Insert a block whose parents are all present and whose hash is new.
    pub fn insert_block(&mut self, block: Block) -> (r: Result<(), String>)
        requires
            old(self).wf(),
        ensures
            final(self).wf(),
            r.is_ok() <==> (!contains_hash(old(self)@, block.hash) && forall|k: int|
                0 <= k < block.header.parent_hashes@.len() ==> contains_hash(
                    old(self)@,
                    #[trigger] block.header.parent_hashes@[k],
                )),
            r.is_ok() ==> final(self)@ == old(self)@.push(block),
            r.is_err() ==> final(self)@ == old(self)@,
            contains_hash(old(self)@, block.hash) ==> (r matches Err(e) && e@ == "Block already exists"@),
            !contains_hash(old(self)@, block.hash) && r.is_err() ==> (r matches Err(e) && e@ == "Parent block not found"@),
    {
        if self.find_index(&block.hash).is_some() {
            return Err("Block already exists".to_string());
        }
        let np = block.header.parent_hashes.len();
        let mut k: usize = 0;
        while k < np
            invariant
                self.wf(),
                np == block.header.parent_hashes@.len(),
                k <= np,
                !contains_hash(self@, block.hash),
                forall|m: int| 0 <= m < k ==> contains_hash(self@, #[trigger] block.header.parent_hashes@[m]),
            decreases np - k,
        {
            let p: BlockHash = block.header.parent_hashes[k];
            if self.find_index(&p).is_none() {
                return Err("Parent block not found".to_string());
            }
            k = k + 1;
        }
        let ghost s = self@;
        proof {
            lemma_push_wf(s, block);
        }
        self.blocks.push(block);
        assert(self@ =~= s.push(block));
        Ok(())
    }

    /// Insert the default genesis block (no parents, no transactions, every
    /// field zero) into an empty DAG; a non-empty DAG is left as it is.
    pub fn create_genesis_if_empty(&mut self)
        requires
            old(self).wf(),
        ensures
            final(self).wf(),
            old(self)@.len() > 0 ==> final(self)@ == old(self)@,
            old(self)@.len() == 0 ==> final(self)@.len() == 1 && final(self)@[0].header.parent_hashes@.len() == 0
                && final(self)@[0].transactions@.len() == 0,
    {
        if self.blocks.len() == 0 {
            let genesis = Block::default();
            let r = self.insert_block(genesis);
            assert(r.is_ok());
        }
    }

    /// Whether block `a` is a direct parent of block `b`.
    pub fn is_parent_at(&self, a: usize, b: usize) -> (r: bool)
        requires
            a < self@.len(),
            b < self@.len(),
        ensures
            r == is_parent(self@, a as int, b as int),
    {
        if a >= b {
            return false;
        }
        let ha: BlockHash = self.blocks[a].hash;
        let ps = &self.blocks[b].header.parent_hashes;
        let mut k: usize = 0;
        while k < ps.len()
            invariant
                a < b < self@.len(),
                ps@ == self@[b as int].header.parent_hashes@,
                ha == self@[a as int].hash,
                k <= ps@.len(),
                forall|m: int| 0 <= m < k ==> ps@[m] != ha,
            decreases ps@.len() - k,
        {
            let p: BlockHash = ps[k];
            if hash_eq(&p, &ha) {
                assert(ps@[k as int] == ha);
                return true;
            }
            k = k + 1;
        }
        false
    }

    /// Whether no block names the block at position `x` as parent.
    pub fn is_tip_at(&self, x: usize) -> (r: bool)
        requires
            x < self@.len(),
        ensures
            r == is_tip(self@, x as int),
    {
        let n = self.blocks.len();
        let mut y: usize = 0;
        while y < n
            invariant
                n == self@.len(),
                x < n,
                y <= n,
                forall|z: int| 0 <= z < y ==> !#[trigger] is_parent(self@, x as int, z),
            decreases n - y,
        {
            if self.is_parent_at(x, y) {
                return false;
            }
            y = y + 1;
        }
        true
    }

    /// Hashes of the blocks that no block names as parent, in topological order.
    pub fn get_tips(&self) -> (r: Vec<BlockHash>)
        ensures
            r@ == tips_seq(self@),
    {
        let n = self.blocks.len();
        let ghost s = self@;
        let ghost pred = tip_pred(s);
        let mut out: Vec<BlockHash> = Vec::new();
        proof {
            lemma_pick_empty(s, pred);
        }
        let mut x: usize = 0;
        while x < n
            invariant
                n == s.len(),
                s == self@,
                x <= n,
                pred == tip_pred(s),
                out@ == pick_upto(s, pred, x as int),
            decreases n - x,
        {
            let mut has_child: bool = false;
            let mut y: usize = 0;
            while y < n
                invariant
                    n == s.len(),
                    s == self@,
                    x < n,
                    y <= n,
                    has_child == exists|z: int| 0 <= z < y && #[trigger] is_parent(s, x as int, z),
                decreases n - y,
            {
                if !has_child && self.is_parent_at(x, y) {
                    has_child = true;
                }
                y = y + 1;
            }
            proof {
                lemma_pick_step(s, pred, x as int);
            }
            if !has_child {
                out.push(self.blocks[x].hash);
            }
            x = x + 1;
        }
        out
    }

    /// All block hashes in topological (insertion) order.
    pub fn get_topological_order(&self) -> (r: Vec<BlockHash>)
        ensures
            r@ == hashes_of(self@),
    {
        let n = self.blocks.len();
        let mut out: Vec<BlockHash> = Vec::new();
        let mut i: usize = 0;
        while i < n
            invariant
                n == self@.len(),
                self@ == self.blocks@,
                i <= n,
                out@ == hashes_of(self@).take(i as int),
            decreases n - i,
        {
            out.push(self.blocks[i].hash);
            i = i + 1;
            assert(out@ =~= hashes_of(self@).take(i as int));
        }
        assert(hashes_of(self@).take(n as int) =~= hashes_of(self@));
        out
    }

    /// Marks of the proper ancestors of block `t`.
    pub fn ancestor_marks(&self, t: usize) -> (m: Vec<bool>)
        requires
            t < self@.len(),
        ensures
            m@.len() == self@.len(),
            forall|x: int| 0 <= x < self@.len() ==> #[trigger] m@[x] == is_anc(self@, x, t as int),
    {
        let n = self.blocks.len();
        let mut m: Vec<bool> = Vec::new();
        let mut i: usize = 0;
        while i < n
            invariant
                n == self@.len(),
                i <= n,
                m@.len() == i,
                forall|x: int| 0 <= x < i ==> m@[x] == false,
            decreases n - i,
        {
            m.push(false);
            i = i + 1;
        }
        let mut k: usize = t;
        while k > 0
            invariant
                n == self@.len(),
                t < n,
                k <= t,
                m@.len() == n,
                forall|y: int| k <= y < n ==> #[trigger] m@[y] == is_anc(self@, y, t as int),
            decreases k,
        {
            let x: usize = k - 1;
            let mut found: bool = self.is_parent_at(x, t);
            let mut q: usize = x + 1;
            while q < t
                invariant
                    n == self@.len(),
                    t < n,
                    x < q <= t,
                    k == x + 1,
                    m@.len() == n,
                    forall|y: int| k <= y < n ==> #[trigger] m@[y] == is_anc(self@, y, t as int),
                    found == (is_parent(self@, x as int, t as int) || exists|z: int|
                        x < z < q && #[trigger] is_parent(self@, x as int, z) && is_anc(self@, z, t as int)),
                decreases t - q,
            {
                if !found && m[q] && self.is_parent_at(x, q) {
                    found = true;
                }
                q = q + 1;
            }
            m.set(x, found);
            k = x;
        }
        m
    }

    /// Marks of the proper descendants of block `t`.
    pub fn descendant_marks(&self, t: usize) -> (m: Vec<bool>)
        requires
            t < self@.len(),
        ensures
            m@.len() == self@.len(),
            forall|x: int| 0 <= x < self@.len() ==> #[trigger] m@[x] == is_anc(self@, t as int, x),
    {
        let n = self.blocks.len();
        let mut m: Vec<bool> = Vec::new();
        let mut i: usize = 0;
        while i < n
            invariant
                n == self@.len(),
                t < n,
                i <= n,
                m@.len() == i,
                forall|x: int| 0 <= x < i ==> m@[x] == false,
                i <= t + 1 ==> forall|x: int| 0 <= x < i ==> !is_anc(self@, t as int, x),
            decreases n - i,
        {
            m.push(false);
            i = i + 1;
        }
        let mut x: usize = t + 1;
        while x < n
            invariant
                n == self@.len(),
                t < n,
                t < x <= n,
                m@.len() == n,
                forall|y: int| 0 <= y < x ==> #[trigger] m@[y] == is_anc(self@, t as int, y),
            decreases n - x,
        {
            let mut found: bool = self.is_parent_at(t, x);
            let mut p: usize = t + 1;
            while p < x
                invariant
                    n == self@.len(),
                    t < x < n,
                    t < p <= x,
                    m@.len() == n,
                    forall|y: int| 0 <= y < x ==> #[trigger] m@[y] == is_anc(self@, t as int, y),
                    found == (is_parent(self@, t as int, x as int) || exists|z: int|
                        t < z < p && #[trigger] is_parent(self@, z, x as int) && is_anc(self@, t as int, z)),
                decreases x - p,
            {
                if !found && m[p] && self.is_parent_at(p, x) {
                    found = true;
                }
                p = p + 1;
            }
            proof {
                if found && !is_parent(self@, t as int, x as int) {
                    let z = choose|z: int| t < z < x && #[trigger] is_parent(self@, z, x as int) && is_anc(self@, t as int, z);
                    lemma_anc_append(self@, t as int, z, x as int);
                }
                if is_anc(self@, t as int, x as int) {
                    lemma_anc_last_link(self@, t as int, x as int);
                }
            }
            m.set(x, found);
            x = x + 1;
        }
        m
    }
}

} // verus!
