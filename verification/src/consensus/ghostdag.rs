use vstd::prelude::*;
use crate::chain::block::{keeps_content, tip_sum, Block, BlockHash, BlockHeader, ConsensusBlock};
use crate::consensus::mining::{is_submitted_block, submit_accepted, submit_block, submitted_transactions, BlockTemplate};
use crate::chain::bytes::hash_eq;
use crate::chain::hash_order::{hash_lt, lemma_lex_lt_asym, lemma_lex_lt_trans, lemma_lex_total, lex_le, lex_lt};
use crate::consensus::blue_set::{blue_seq, red_seq, BlueSet};
use crate::consensus::dag_traversal::DAGTraversal;
use crate::dag::{tips_seq, ancestors_seq, anticone_seq, contains_hash, hash_index, hashes_of, lemma_hash_index, BlockDAG};
use crate::consensus::ordering::{distinct_hashes, pair_before, pairs_sorted, sort_by_score, lemma_no_dup_len_le, lemma_pair_before_irrefl};
use crate::chain::hash_order::hashes_sorted;
use crate::events::decimal_spec;
use crate::observability::tracing::{decimal_text, framed, hash_message, hex_spec};

verus! {

/// Whether the ancestor `a` of `h` counts toward `h`'s blue score.
pub open spec fn counts_blue(s: Seq<Block>, h: BlockHash, k: nat) -> spec_fn(BlockHash) -> bool {
    |a: BlockHash| anticone_seq(s, a, h).len() <= k
}

/// Blue score of block `h`: one for `h` itself when its own anticone has at
/// most `k` blocks, plus one for each proper ancestor whose anticone
/// relative to `h` has at most `k` blocks.
pub open spec fn blue_score_spec(s: Seq<Block>, h: BlockHash, k: nat) -> nat {
    (if anticone_seq(s, h, h).len() <= k {
        1nat
    } else {
        0nat
    }) + ancestors_seq(s, h).filter(counts_blue(s, h, k)).len()
}

/// An ordering lists every block of the DAG exactly once and each block
/// after all of its parents.
pub open spec fn valid_ordering(s: Seq<Block>, o: Seq<BlockHash>) -> bool {
    &&& forall|i: int| 0 <= i < o.len() ==> contains_hash(s, #[trigger] o[i])
    &&& o.no_duplicates()
    &&& forall|i: int| 0 <= i < o.len() ==> #[trigger] parents_before(s, o, i)
    &&& o.len() == s.len()
}

/// Every parent of the block listed at `i` is listed before `i`.
pub open spec fn parents_before(s: Seq<Block>, o: Seq<BlockHash>, i: int) -> bool {
    parents_listed_before(o, parents_of(s, o[i]), i)
}

/// The parent hashes of the block with hash `h`.
pub open spec fn parents_of(s: Seq<Block>, h: BlockHash) -> Seq<BlockHash> {
    s[hash_index(s, h)->0].header.parent_hashes@
}

/// Block `h` is ready once `o` is listed: it is a block of the DAG, not
/// listed yet, and all of its parents are listed.
pub open spec fn ready_after(s: Seq<Block>, o: Seq<BlockHash>, h: BlockHash) -> bool {
    &&& contains_hash(s, h)
    &&& !o.contains(h)
    &&& forall|q: int| 0 <= q < parents_of(s, h).len() ==> o.contains(#[trigger] parents_of(s, h)[q])
}

/// The score by which the blocks of round `r` are ordered: none in the
/// first round (the genesis blocks go by hash alone), the blue score after.
pub open spec fn round_score(s: Seq<Block>, k: nat, r: int, h: BlockHash) -> nat {
    if r == 0 {
        0
    } else {
        blue_score_spec(s, h, k)
    }
}

/// In round `r`, block `a` comes before block `b`: a higher score, or an
/// equal score and a smaller hash.
pub open spec fn round_before(s: Seq<Block>, k: nat, r: int, a: BlockHash, b: BlockHash) -> bool {
    round_score(s, k, r, a) > round_score(s, k, r, b) || (round_score(s, k, r, a) == round_score(s, k, r, b)
        && lex_lt(a@, b@))
}

/// Positions `lo..hi` of `o` hold round `r`: exactly the blocks that are
/// ready once `o[..lo]` is listed, in `round_before` order.
pub open spec fn round_ok(s: Seq<Block>, k: nat, o: Seq<BlockHash>, lo: int, hi: int, r: int) -> bool {
    &&& 0 <= lo < hi <= o.len()
    &&& forall|t: int| lo <= t < hi ==> ready_after(s, o.take(lo), #[trigger] o[t])
    &&& forall|i: int|
        0 <= i < s.len() && #[trigger] ready_after(s, o.take(lo), s[i].hash) ==> o.subrange(lo, hi).contains(s[i].hash)
    &&& forall|t1: int, t2: int| lo <= t1 < t2 < hi ==> round_before(s, k, r, #[trigger] o[t1], #[trigger] o[t2])
}

/// Round `r` of `o`, between boundaries `b[r]` and `b[r + 1]`.
pub open spec fn round_at(s: Seq<Block>, k: nat, o: Seq<BlockHash>, b: Seq<int>, r: int) -> bool {
    round_ok(s, k, o, b[r], b[r + 1], r)
}

/// `o` is a succession of rounds with boundaries `b`.
pub open spec fn rounds_ok(s: Seq<Block>, k: nat, o: Seq<BlockHash>, b: Seq<int>) -> bool {
    &&& b.len() >= 1
    &&& b[0] == 0
    &&& b.last() == o.len()
    &&& forall|r: int| 0 <= r < b.len() - 1 ==> #[trigger] round_at(s, k, o, b, r)
}

/// The GHOSTDAG ordering of the DAG: rounds until every block is listed.
/// The first round lists the genesis blocks by hash; each later round lists
/// the blocks whose parents are all listed, by blue score (highest first),
/// ties broken by the smaller hash.
pub open spec fn ghostdag_order(s: Seq<Block>, k: nat, o: Seq<BlockHash>) -> bool {
    &&& exists|b: Seq<int>| #[trigger] rounds_ok(s, k, o, b)
    &&& forall|i: int| 0 <= i < s.len() ==> o.contains(#[trigger] s[i].hash)
}

/// A round stays a round when more is listed after it.
pub proof fn lemma_round_extend(s: Seq<Block>, k: nat, o: Seq<BlockHash>, o2: Seq<BlockHash>, lo: int, hi: int, r: int)
    requires
        round_ok(s, k, o, lo, hi, r),
        o.len() <= o2.len(),
        o2.take(o.len() as int) == o,
    ensures
        round_ok(s, k, o2, lo, hi, r),
{
    assert(o2.take(lo) =~= o.take(lo));
    assert(o2.subrange(lo, hi) =~= o.subrange(lo, hi));
    assert forall|t: int| 0 <= t < o.len() implies o2[t] == o[t] by {
        assert(o2.take(o.len() as int)[t] == o2[t]);
    }
}

/// Every hash of `ps` is listed in `o` before position `i`.
pub open spec fn parents_listed_before(o: Seq<BlockHash>, ps: Seq<BlockHash>, i: int) -> bool {
    forall|q: int| 0 <= q < ps.len() ==> #[trigger] listed_before(o, ps[q], i)
}

/// `p` is listed in `o` before position `i`.
pub open spec fn listed_before(o: Seq<BlockHash>, p: BlockHash, i: int) -> bool {
    exists|j: int| 0 <= j < i && o[j] == p
}

/// The fault reported for the parents `ps[q..]` of the block listed at `i`:
/// the first parent that is not listed at all, or not before `i`.
pub open spec fn parent_fault(o: Seq<BlockHash>, ps: Seq<BlockHash>, i: int, q: nat) -> Option<Seq<char>>
    decreases ps.len() - q,
{
    if q >= ps.len() {
        None
    } else if !o.contains(ps[q as int]) {
        Some("Parent "@ + hex_spec(ps[q as int]@) + " of block "@ + hex_spec(o[i]@) + " not in ordering"@)
    } else if !listed_before(o, ps[q as int], i) {
        Some("Parent "@ + hex_spec(ps[q as int]@) + " appears after child "@ + hex_spec(o[i]@) + " in ordering"@)
    } else {
        parent_fault(o, ps, i, q + 1)
    }
}

/// The fault reported for the entry at `i`: a block missing from the DAG,
/// one listed twice, or a misplaced parent.
pub open spec fn entry_fault(s: Seq<Block>, o: Seq<BlockHash>, i: int) -> Option<Seq<char>> {
    if !contains_hash(s, o[i]) {
        Some("Block "@ + hex_spec(o[i]@) + " not found in DAG"@)
    } else if listed_before(o, o[i], i) {
        Some("Duplicate block "@ + hex_spec(o[i]@) + " at position "@ + decimal_spec(i as nat))
    } else {
        parent_fault(o, parents_of(s, o[i]), i, 0)
    }
}

/// The first fault of the entries from `i` on, and then of the count.
pub open spec fn ordering_fault_from(s: Seq<Block>, o: Seq<BlockHash>, i: nat) -> Option<Seq<char>>
    decreases o.len() - i,
{
    if i >= o.len() {
        if o.len() != s.len() {
            Some("Ordering has "@ + decimal_spec(o.len()) + " blocks but DAG has "@ + decimal_spec(s.len()) + " blocks"@)
        } else {
            None
        }
    } else {
        match entry_fault(s, o, i as int) {
            Some(e) => Some(e),
            None => ordering_fault_from(s, o, i + 1),
        }
    }
}

/// The fault that `validate_ordering` reports for `o`, if any.
pub open spec fn ordering_fault(s: Seq<Block>, o: Seq<BlockHash>) -> Option<Seq<char>> {
    ordering_fault_from(s, o, 0)
}

/// `p` is a best parent among `ps` by blue score, ties broken by the
/// smaller hash.
pub open spec fn is_best_parent(s: Seq<Block>, ps: Seq<BlockHash>, p: BlockHash, k: nat) -> bool {
    &&& ps.contains(p)
    &&& forall|q: BlockHash|
        #[trigger] ps.contains(q) ==> blue_score_spec(s, q, k) < blue_score_spec(s, p, k) || (
        blue_score_spec(s, q, k) == blue_score_spec(s, p, k) && lex_le(p@, q@))
}

/// GHOSTDAG statistics.
#[derive(Clone, Debug)]
pub struct GHOSTDAGStats {
    pub k_parameter: usize,
    pub total_blocks: usize,
    pub blue_blocks: usize,
    pub red_blocks: usize,
    pub cache_size: usize,
}

/// GHOSTDAG consensus engine: generates a deterministic ordering of the
/// blocks of its DAG.
#[derive(Clone, Debug)]
pub struct GHOSTDAGEngine {
    /// Parameter k: maximum anticone size for blue blocks.
    pub k: usize,
    dag: BlockDAG,
    blue_score_cache: Vec<(BlockHash, u64)>,
    blue_set: BlueSet,
}

/// Computes the blue score of `h` by counting.
pub fn compute_blue_score(dag: &BlockDAG, h: &BlockHash, k: usize) -> (r: u64)
    requires
        dag.wf(),
    ensures
        r as nat == blue_score_spec(dag@, *h, k as nat),
{
    let ghost s = dag@;
    let ghost p = counts_blue(s, *h, k as nat);
    let mut count: usize = 0;
    let self_anticone = DAGTraversal::get_anticone(dag, h, h);
    if self_anticone.len() <= k {
        count = 1;
    }
    let ghost base = count as nat;
    let _n = dag.block_count();
    let ancestors = DAGTraversal::get_ancestors(dag, h);
    proof {
        crate::dag::lemma_ancestors_len(s, *h);
        ancestors@.lemma_filter_len(p);
        assert(ancestors@.take(0).filter(p) =~= Seq::<BlockHash>::empty()) by {
            reveal_with_fuel(Seq::filter, 1);
        }
    }
    let mut i: usize = 0;
    while i < ancestors.len()
        invariant
            s == dag@,
            dag.wf(),
            p == counts_blue(s, *h, k as nat),
            ancestors@ == ancestors_seq(s, *h),
            ancestors@.len() < s.len() || ancestors@.len() == 0,
            s.len() <= usize::MAX,
            i <= ancestors@.len(),
            base <= 1,
            count as nat == base + ancestors@.take(i as int).filter(p).len(),
            ancestors@.take(i as int).filter(p).len() <= i,
        decreases ancestors@.len() - i,
    {
        let a: BlockHash = ancestors[i];
        let anticone = DAGTraversal::get_anticone(dag, &a, h);
        proof {
            assert(ancestors@.take(i + 1) =~= ancestors@.take(i as int).push(a));
            ancestors@.take(i as int).lemma_filter_len_push(p, a);
        }
        if anticone.len() <= k {
            count = count + 1;
        }
        i = i + 1;
    }
    assert(ancestors@.take(ancestors@.len() as int) =~= ancestors@);
    count as u64
}

impl GHOSTDAGEngine {
    /// The engine's invariant: its DAG is well-formed and every cached
    /// blue score is the blue score of that block in the DAG.
    pub closed spec fn wf(&self) -> bool {
        &&& self.dag.wf()
        &&& self.blue_set.k == self.k
        &&& forall|i: int|
            0 <= i < self.blue_score_cache@.len() ==> (#[trigger] self.blue_score_cache@[i]).1 as nat
                == blue_score_spec(self.dag@, self.blue_score_cache@[i].0, self.k as nat)
    }

    /// The engine's parameter k.
    pub closed spec fn k_param(&self) -> usize {
        self.k
    }

    /// The blocks of the engine's DAG.
    pub closed spec fn blocks(&self) -> Seq<Block> {
        self.dag@
    }

    /// Number of cached blue scores.
    pub closed spec fn cache_len(&self) -> nat {
        self.blue_score_cache@.len()
    }

    /// Cached blue score of `h`, if any.
    pub closed spec fn cached_score(&self, h: BlockHash) -> Option<u64> {
        if exists|i: int| 0 <= i < self.blue_score_cache@.len() && #[trigger] self.blue_score_cache@[i].0 == h {
            Some(self.blue_score_cache@[choose|i: int| 0 <= i < self.blue_score_cache@.len() && #[trigger] self.blue_score_cache@[i].0 == h].1)
        } else {
            None
        }
    }

    /// Create new GHOSTDAG engine with parameter k and an empty DAG.
    pub fn new(k: usize) -> (e: Self)
        ensures
            e.wf(),
            e.k_param() == k,
            e.blocks() == Seq::<Block>::empty(),
            e.cache_len() == 0,
    {
        GHOSTDAGEngine { k, dag: BlockDAG::new(), blue_score_cache: Vec::new(), blue_set: BlueSet::new(k) }
    }

    /// The engine's DAG.
    pub fn get_dag(&self) -> (r: Option<&BlockDAG>)
        ensures
            r matches Some(d) && d@ == self.blocks() && (self.wf() ==> d.wf()),
    {
        Some(&self.dag)
    }

    /// Replace the engine's DAG. Cached blue scores belonged to the previous
    /// DAG and are dropped.
    pub fn attach_dag(&mut self, dag: BlockDAG)
        requires
            old(self).wf(),
            dag.wf(),
        ensures
            final(self).wf(),
            final(self).k_param() == old(self).k_param(),
            final(self).blocks() == dag@,
            final(self).cache_len() == 0,
    {
        self.dag = dag;
        self.blue_score_cache = Vec::new();
    }

    /// Insert the block mined for `header` and `template` into the engine's
    /// DAG (see `submit_block`), then order the grown DAG again. Cached blue
    /// scores belonged to the smaller DAG and are dropped. The ordering is
    /// returned; a refused block leaves the DAG as it was.
    pub fn submit_mined_block(&mut self, header: &BlockHeader, template: &BlockTemplate) -> (r: Result<
        Vec<BlockHash>,
        String,
    >)
        requires
            old(self).wf(),
            tip_sum(submitted_transactions(*template), 0) <= u64::MAX,
        ensures
            final(self).wf(),
            final(self).k_param() == old(self).k_param(),
            r.is_ok() <==> submit_accepted(old(self).blocks(), *header, *template),
            r.is_err() ==> final(self).blocks() == old(self).blocks(),
            r matches Ok(o) ==> {
                let s = final(self).blocks();
                &&& s.len() == old(self).blocks().len() + 1
                &&& s.drop_last() == old(self).blocks()
                &&& is_submitted_block(s.last(), *header, *template)
                &&& ghostdag_order(s, old(self).k_param() as nat, o@)
                &&& valid_ordering(s, o@)
                &&& final(self).cache_len() == 0
            },
    {
        let submitted = submit_block(&mut self.dag, header, template);
        self.blue_score_cache = Vec::new();
        match submitted {
            Ok(()) => self.generate_ordering(),
            Err(e) => Err(e),
        }
    }

    /// Clear blue score cache.
    pub fn clear_cache(&mut self)
        requires
            old(self).wf(),
        ensures
            final(self).wf(),
            final(self).k_param() == old(self).k_param(),
            final(self).blocks() == old(self).blocks(),
            final(self).cache_len() == 0,
    {
        self.blue_score_cache = Vec::new();
    }

    fn lookup_cache(&self, h: &BlockHash) -> (r: Option<u64>)
        requires
            self.wf(),
        ensures
            r == self.cached_score(*h),
    {
        let mut i: usize = 0;
        while i < self.blue_score_cache.len()
            invariant
                self.wf(),
                i <= self.blue_score_cache@.len(),
                forall|j: int| 0 <= j < i ==> (#[trigger] self.blue_score_cache@[j]).0 != *h,
            decreases self.blue_score_cache@.len() - i,
        {
            let e = self.blue_score_cache[i];
            if hash_eq(&e.0, h) {
                proof {
                    assert(self.blue_score_cache@[i as int].0 == *h);
                    let j = choose|j: int| 0 <= j < self.blue_score_cache@.len() && #[trigger] self.blue_score_cache@[j].0 == *h;
                    assert(self.blue_score_cache@[j].1 as nat == blue_score_spec(self.dag@, *h, self.k as nat));
                    assert(self.blue_score_cache@[i as int].1 as nat == blue_score_spec(self.dag@, *h, self.k as nat));
                }
                return Some(e.1);
            }
            i = i + 1;
        }
        None
    }
}

/// Index `b` holds a best entry: no entry has a higher score, and among
/// entries of equal score none has a smaller hash.
pub open spec fn is_best_index(ps: Seq<BlockHash>, sc: Seq<u64>, b: int) -> bool {
    &&& 0 <= b < ps.len()
    &&& forall|j: int|
        0 <= j < ps.len() ==> #[trigger] sc[j] < sc[b] || (sc[j] == sc[b] && lex_le(ps[b]@, ps[j]@))
}

/// The best entry is unique: two best positions hold the same hash.
pub proof fn lemma_best_index_unique(ps: Seq<BlockHash>, sc: Seq<u64>, b1: int, b2: int)
    requires
        is_best_index(ps, sc, b1),
        is_best_index(ps, sc, b2),
    ensures
        ps[b1] == ps[b2],
{
    assert(sc[b2] < sc[b1] || (sc[b2] == sc[b1] && lex_le(ps[b1]@, ps[b2]@)));
    assert(sc[b1] < sc[b2] || (sc[b1] == sc[b2] && lex_le(ps[b2]@, ps[b1]@)));
    crate::chain::hash_order::lemma_hash_le_antisym(ps[b1], ps[b2]);
}

/// Position of the entry with the highest score, ties broken by the
/// smallest hash.
pub fn best_by_score(ps: &[BlockHash], sc: &[u64]) -> (b: usize)
    requires
        ps@.len() > 0,
        sc@.len() == ps@.len(),
    ensures
        is_best_index(ps@, sc@, b as int),
{
    let mut b: usize = 0;
    let mut i: usize = 1;
    while i < ps.len()
        invariant
            sc@.len() == ps@.len(),
            1 <= i <= ps@.len(),
            b < i,
            forall|j: int| 0 <= j < i ==> #[trigger] sc@[j] < sc@[b as int] || (sc@[j] == sc@[b as int] && lex_le(ps@[b as int]@, ps@[j]@)),
        decreases ps@.len() - i,
    {
        let better: bool = sc[i] > sc[b] || (sc[i] == sc[b] && hash_lt(&ps[i], &ps[b]));
        proof {
            lemma_lex_total(ps@[i as int]@, ps@[b as int]@);
            if better {
                assert forall|j: int| 0 <= j < i + 1 implies #[trigger] sc@[j] < sc@[i as int] || (sc@[j] == sc@[i as int] && lex_le(ps@[i as int]@, ps@[j]@)) by {
                    if j < i && sc@[j] == sc@[i as int] {
                        assert(sc@[j] == sc@[b as int]);
                        if ps@[b as int]@ != ps@[j]@ {
                            lemma_lex_lt_trans(ps@[i as int]@, ps@[b as int]@, ps@[j]@);
                        }
                    }
                }
            }
        }
        if better {
            b = i;
        }
        i = i + 1;
    }
    b
}

impl GHOSTDAGEngine {
    /// Blue score of a block: the cached value, else computed by counting.
    fn score_of(&self, hash: &BlockHash) -> (v: u64)
        requires
            self.wf(),
        ensures
            v as nat == blue_score_spec(self.blocks(), *hash, self.k_param() as nat),
    {
        if let Some(v) = self.lookup_cache(hash) {
            proof {
                let j = choose|j: int| 0 <= j < self.blue_score_cache@.len() && #[trigger] self.blue_score_cache@[j].0 == *hash;
                assert(self.blue_score_cache@[j].1 as nat == blue_score_spec(self.dag@, self.blue_score_cache@[j].0, self.k as nat));
            }
            return v;
        }
        compute_blue_score(&self.dag, hash, self.k)
    }

    /// Blue score of a block: the cached value, else computed by counting.
    /// A score computed for a block of the DAG is cached, so that later
    /// lookups (`get_blue_score` among them) find it.
    pub fn calculate_blue_score(&mut self, hash: &BlockHash) -> (r: Result<u64, String>)
        requires
            old(self).wf(),
        ensures
            final(self).wf(),
            final(self).k_param() == old(self).k_param(),
            final(self).blocks() == old(self).blocks(),
            r matches Ok(v) && v as nat == blue_score_spec(old(self).blocks(), *hash, old(self).k_param() as nat),
            contains_hash(old(self).blocks(), *hash) ==> final(self).cached_score(*hash) == Some(r->Ok_0),
            !contains_hash(old(self).blocks(), *hash) ==> final(self).cached_score(*hash) == old(self).cached_score(*hash),
            forall|h: BlockHash| h != *hash ==> #[trigger] final(self).cached_score(h) == old(self).cached_score(h),
            final(self).cache_len() == old(self).cache_len() + (if contains_hash(old(self).blocks(), *hash)
                && old(self).cached_score(*hash) is None {
                1int
            } else {
                0int
            }),
    {
        let ghost before = *self;
        if let Some(v) = self.lookup_cache(hash) {
            proof {
                let j = choose|j: int| 0 <= j < self.blue_score_cache@.len() && #[trigger] self.blue_score_cache@[j].0 == *hash;
                assert(self.blue_score_cache@[j].1 as nat == blue_score_spec(self.dag@, self.blue_score_cache@[j].0, self.k as nat));
            }
            return Ok(v);
        }
        let v = compute_blue_score(&self.dag, hash, self.k);
        if self.dag.get_block(hash).is_some() {
            self.blue_score_cache.push((*hash, v));
            proof {
                let c = self.blue_score_cache@;
                let n = before.blue_score_cache@.len() as int;
                assert(c[n] == (*hash, v));
                assert forall|i: int| 0 <= i < c.len() implies (#[trigger] c[i]).1 as nat == blue_score_spec(
                    self.dag@,
                    c[i].0,
                    self.k as nat,
                ) by {
                    if i < n {
                        assert(c[i] == before.blue_score_cache@[i]);
                    }
                }
                assert(self.wf());
                assert forall|j: int| 0 <= j < c.len() && #[trigger] c[j].0 == *hash implies j == n by {
                    if j < n {
                        assert(c[j] == before.blue_score_cache@[j]);
                        assert(before.blue_score_cache@[j].0 == *hash);
                    }
                }
                assert(self.cached_score(*hash) == Some(v));
                assert forall|h: BlockHash| h != *hash implies #[trigger] self.cached_score(h) == before.cached_score(h) by {
                    if exists|j: int| 0 <= j < c.len() && #[trigger] c[j].0 == h {
                        let j = choose|j: int| 0 <= j < c.len() && #[trigger] c[j].0 == h;
                        assert(j < n);
                        assert(c[j] == before.blue_score_cache@[j]);
                        let jb = choose|jb: int| 0 <= jb < before.blue_score_cache@.len() && #[trigger] before.blue_score_cache@[jb].0 == h;
                        assert(c[jb] == before.blue_score_cache@[jb]);
                    }
                    if exists|jb: int| 0 <= jb < before.blue_score_cache@.len() && #[trigger] before.blue_score_cache@[jb].0 == h {
                        let jb = choose|jb: int| 0 <= jb < before.blue_score_cache@.len() && #[trigger] before.blue_score_cache@[jb].0 == h;
                        assert(c[jb] == before.blue_score_cache@[jb]);
                    }
                }
            }
        }
        Ok(v)
    }

    /// Blue score from the cache, else from the block's header; an error
    /// when the block is unknown.
    pub fn get_blue_score(&self, hash: &BlockHash) -> (r: Result<u64, String>)
        requires
            self.wf(),
        ensures
            match self.cached_score(*hash) {
                Some(v) => r == Ok::<u64, String>(v),
                None => if contains_hash(self.blocks(), *hash) {
                    r == Ok::<u64, String>(self.blocks()[hash_index(self.blocks(), *hash)->0].header.blue_score)
                } else {
                    r matches Err(e) && e@ == "Blue score for block "@ + crate::observability::tracing::hex_spec(hash@)
                        + " unavailable"@
                },
            },
    {
        if let Some(v) = self.lookup_cache(hash) {
            return Ok(v);
        }
        match self.dag.get_block(hash) {
            Some(b) => Ok(b.header.blue_score),
            None => Err(crate::observability::tracing::hash_message("Blue score for block ", hash, " unavailable")),
        }
    }

    /// Select the best parent of a block by blue score, ties broken by the
    /// smaller hash; an error when the block has no parents (or is unknown).
    pub fn select_parent(&mut self, block_hash: &BlockHash) -> (r: Result<BlockHash, String>)
        requires
            old(self).wf(),
        ensures
            *final(self) == *old(self),
            ({
                let s = old(self).blocks();
                let ps = match hash_index(s, *block_hash) {
                    Some(i) => s[i].header.parent_hashes@,
                    None => Seq::<BlockHash>::empty(),
                };
                match r {
                    Ok(p) => ps.len() > 0 && is_best_parent(s, ps, p, old(self).k_param() as nat),
                    Err(e) => ps.len() == 0 && e@ == "Block has no parents"@,
                }
            }),
    {
        let parents = DAGTraversal::get_parents(&self.dag, block_hash);
        if parents.len() == 0 {
            return Err("Block has no parents".to_string());
        }
        if parents.len() == 1 {
            proof {
                assert forall|q: BlockHash| #[trigger] parents@.contains(q) implies blue_score_spec(self.dag@, q, self.k as nat) < blue_score_spec(self.dag@, parents@[0], self.k as nat) || (
                    blue_score_spec(self.dag@, q, self.k as nat) == blue_score_spec(self.dag@, parents@[0], self.k as nat) && lex_le(parents@[0]@, q@)) by {
                    let j = choose|j: int| 0 <= j < parents@.len() && parents@[j] == q;
                    assert(j == 0);
                }
                assert(parents@.contains(parents@[0]));
            }
            return Ok(parents[0]);
        }
        let mut scores: Vec<u64> = Vec::new();
        let mut i: usize = 0;
        while i < parents.len()
            invariant
                self.wf(),
                i <= parents@.len(),
                scores@.len() == i,
                forall|j: int| 0 <= j < i ==> #[trigger] scores@[j] as nat == blue_score_spec(self.dag@, parents@[j], self.k as nat),
            decreases parents@.len() - i,
        {
            let v = self.score_of(&parents[i]);
            scores.push(v);
            i = i + 1;
        }
        let b = best_by_score(parents.as_slice(), scores.as_slice());
        proof {
            assert(parents@.contains(parents@[b as int]));
            assert forall|q: BlockHash| #[trigger] parents@.contains(q) implies blue_score_spec(self.dag@, q, self.k as nat) < blue_score_spec(self.dag@, parents@[b as int], self.k as nat) || (
                blue_score_spec(self.dag@, q, self.k as nat) == blue_score_spec(self.dag@, parents@[b as int], self.k as nat) && lex_le(parents@[b as int]@, q@)) by {
                let j = choose|j: int| 0 <= j < parents@.len() && parents@[j] == q;
                assert(scores@[j] < scores@[b as int] || (scores@[j] == scores@[b as int] && lex_le(parents@[b as int]@, parents@[j]@)));
            }
        }
        Ok(parents[b])
    }

    /// Select the best parent among candidates by their recorded blue score
    /// (`get_blue_score`, 0 when unavailable), ties broken by the smaller
    /// hash; an error when there are no candidates.
    pub fn select_parent_from_parents(&mut self, _dag: &BlockDAG, parents: &[BlockHash]) -> (r: Result<BlockHash, String>)
        requires
            old(self).wf(),
        ensures
            *final(self) == *old(self),
            parents@.len() == 0 ==> (r matches Err(e) && e@ == "No parent candidates provided"@),
            parents@.len() > 0 ==> (r matches Ok(p) && exists|b: int| #[trigger] is_best_index(
                parents@,
                old(self).recorded_scores(parents@),
                b,
            ) && parents@[b] == p),
    {
        if parents.len() == 0 {
            return Err("No parent candidates provided".to_string());
        }
        let mut scores: Vec<u64> = Vec::new();
        let mut i: usize = 0;
        while i < parents.len()
            invariant
                self.wf(),
                i <= parents@.len(),
                scores@.len() == i,
                forall|j: int| 0 <= j < i ==> #[trigger] scores@[j] == self.recorded_score(parents@[j]),
            decreases parents@.len() - i,
        {
            let v = match self.get_blue_score(&parents[i]) {
                Ok(v) => v,
                Err(_) => 0,
            };
            scores.push(v);
            i = i + 1;
        }
        let b = best_by_score(parents, scores.as_slice());
        assert(scores@ =~= self.recorded_scores(parents@));
        Ok(parents[b])
    }

    /// Recorded blue scores of a list of blocks.
    pub open spec fn recorded_scores(&self, ps: Seq<BlockHash>) -> Seq<u64> {
        Seq::new(ps.len(), |j: int| self.recorded_score(ps[j]))
    }

    /// The blue score recorded for a block: cached, else its header's,
    /// else 0.
    pub open spec fn recorded_score(&self, h: BlockHash) -> u64 {
        match self.cached_score(h) {
            Some(v) => v,
            None => if contains_hash(self.blocks(), h) {
                self.blocks()[hash_index(self.blocks(), h)->0].header.blue_score
            } else {
                0
            },
        }
    }

    /// Check an ordering: every entry is a block of the DAG, none repeats,
    /// every parent of an entry comes before it, and it lists every block.
    /// The first fault found is reported.
    pub fn validate_ordering(&self, ordering: &[BlockHash]) -> (r: Result<(), String>)
        requires
            self.wf(),
        ensures
            r.is_ok() <==> valid_ordering(self.blocks(), ordering@),
            r.is_ok() <==> ordering_fault(self.blocks(), ordering@) is None,
            r matches Err(m) ==> ordering_fault(self.blocks(), ordering@) == Some(m@),
    {
        let ghost s = self.dag@;
        let n = ordering.len();
        let mut i: usize = 0;
        while i < n
            invariant
                s == self.dag@,
                self.wf(),
                n == ordering@.len(),
                i <= n,
                forall|a: int| 0 <= a < i ==> contains_hash(s, #[trigger] ordering@[a]),
                forall|a: int, b: int| 0 <= a < b < i ==> ordering@[a] != ordering@[b],
                forall|a: int| 0 <= a < i ==> #[trigger] parents_before(s, ordering@, a),
                ordering_fault(s, ordering@) == ordering_fault_from(s, ordering@, i as nat),
            decreases n - i,
        {
            let h: BlockHash = ordering[i];
            let bi = match self.dag.find_index(&h) {
                Some(bi) => bi,
                None => {
                    return Err(hash_message("Block ", &h, " not found in DAG"));
                },
            };
            let mut j: usize = 0;
            while j < i
                invariant
                    n == ordering@.len(),
                    i < n,
                    h == ordering@[i as int],
                    j <= i,
                    forall|a: int| 0 <= a < j ==> ordering@[a] != h,
                    s == self.dag@,
                    contains_hash(s, h),
                    ordering_fault(s, ordering@) == ordering_fault_from(s, ordering@, i as nat),
                decreases i - j,
            {
                if hash_eq(&ordering[j], &h) {
                    proof {
                        assert(!ordering@.no_duplicates());
                        assert(listed_before(ordering@, h, i as int));
                    }
                    let head = hash_message("Duplicate block ", &h, " at position ");
                    let pos_text = decimal_text(i as u64);
                    let m = framed(head.as_str(), pos_text.as_str(), "");
                    proof {
                        reveal_strlit("");
                        assert(m@ =~= "Duplicate block "@ + hex_spec(h@) + " at position "@ + decimal_spec(i as nat));
                        assert(contains_hash(s, ordering@[i as int]));
                        assert(listed_before(ordering@, ordering@[i as int], i as int));
                        assert(entry_fault(s, ordering@, i as int) == Some(m@));
                        assert(ordering_fault_from(s, ordering@, i as nat) == Some(m@));
                    }
                    return Err(m);
                }
                j = j + 1;
            }
            assert(!listed_before(ordering@, h, i as int));
            let ps = &self.dag.block_at(bi).header.parent_hashes;
            let mut q: usize = 0;
            while q < ps.len()
                invariant
                    s == self.dag@,
                    self.wf(),
                    n == ordering@.len(),
                    i < n,
                    h == ordering@[i as int],
                    bi < s.len(),
                    hash_index(s, ordering@[i as int]) == Some(bi as int),
                    ps@ == s[bi as int].header.parent_hashes@,
                    q <= ps@.len(),
                    forall|qq: int| 0 <= qq < q ==> #[trigger] listed_before(ordering@, ps@[qq], i as int),
                    parent_fault(ordering@, ps@, i as int, 0) == parent_fault(ordering@, ps@, i as int, q as nat),
                    contains_hash(s, h),
                    !listed_before(ordering@, h, i as int),
                    ordering_fault(s, ordering@) == ordering_fault_from(s, ordering@, i as nat),
                decreases ps@.len() - q,
            {
                let p: BlockHash = ps[q];
                let mut pos: usize = 0;
                while pos < n && !hash_eq(&ordering[pos], &p)
                    invariant
                        n == ordering@.len(),
                        pos <= n,
                        forall|a: int| 0 <= a < pos ==> ordering@[a] != p,
                    decreases n - pos,
                {
                    pos = pos + 1;
                }
                if pos >= n {
                    proof {
                        if valid_ordering(s, ordering@) {
                            assert(parents_before(s, ordering@, i as int));
                            assert(parents_listed_before(ordering@, ps@, i as int));
                            assert(listed_before(ordering@, ps@[q as int], i as int));
                            let j = choose|j: int| 0 <= j < i && ordering@[j] == ps@[q as int];
                            assert(ordering@[j] != p);
                            assert(false);
                        }
                        if ordering@.contains(p) {
                            let j = choose|j: int| 0 <= j < ordering@.len() && ordering@[j] == p;
                            assert(ordering@[j] != p);
                        }
                    }
                    let head = hash_message("Parent ", &p, " of block ");
                    let tail = hash_message("", &h, " not in ordering");
                    let m = framed(head.as_str(), tail.as_str(), "");
                    proof {
                        reveal_strlit("");
                        assert(m@ =~= "Parent "@ + hex_spec(p@) + " of block "@ + hex_spec(h@) + " not in ordering"@);
                        assert(parent_fault(ordering@, ps@, i as int, q as nat) == Some(m@));
                        assert(parents_of(s, h) == ps@);
                        assert(entry_fault(s, ordering@, i as int) == Some(m@));
                    }
                    return Err(m);
                }
                if pos >= i {
                    proof {
                        if valid_ordering(s, ordering@) {
                            assert(parents_before(s, ordering@, i as int));
                            assert(parents_listed_before(ordering@, ps@, i as int));
                            assert(listed_before(ordering@, ps@[q as int], i as int));
                            let j = choose|j: int| 0 <= j < i && ordering@[j] == ps@[q as int];
                            assert(ordering@[j] == ordering@[pos as int]);
                            assert(j != pos);
                            assert(false);
                        }
                        assert(ordering@.contains(p)) by {
                            assert(ordering@[pos as int] == p);
                        }
                        if listed_before(ordering@, p, i as int) {
                            let j = choose|j: int| 0 <= j < i && ordering@[j] == p;
                            assert(ordering@[j] != p);
                        }
                    }
                    let head = hash_message("Parent ", &p, " appears after child ");
                    let tail = hash_message("", &h, " in ordering");
                    let m = framed(head.as_str(), tail.as_str(), "");
                    proof {
                        reveal_strlit("");
                        assert(m@ =~= "Parent "@ + hex_spec(p@) + " appears after child "@ + hex_spec(h@) + " in ordering"@);
                        assert(parent_fault(ordering@, ps@, i as int, q as nat) == Some(m@));
                        assert(parents_of(s, h) == ps@);
                        assert(entry_fault(s, ordering@, i as int) == Some(m@));
                    }
                    return Err(m);
                }
                assert(ordering@[pos as int] == p);
                assert(listed_before(ordering@, ps@[q as int], i as int));
                assert(ordering@.contains(p));
                q = q + 1;
            }
            assert(parents_listed_before(ordering@, ps@, i as int));
            assert(parents_before(s, ordering@, i as int));
            assert(parent_fault(ordering@, ps@, i as int, q as nat) is None);
            assert(entry_fault(s, ordering@, i as int) is None);
            i = i + 1;
        }
        if n != self.dag.block_count() {
            let head = decimal_text(n as u64);
            let tail = decimal_text(self.dag.block_count() as u64);
            let front = framed("Ordering has ", head.as_str(), " blocks but DAG has ");
            return Err(framed(front.as_str(), tail.as_str(), " blocks"));
        }
        Ok(())
    }
}


impl GHOSTDAGEngine {
    /// Whether every parent of the block at position `i` is listed in `o`,
    /// read off the marks `processed`, one per position.
    fn parents_done(&self, i: usize, processed: &Vec<bool>, Ghost(o): Ghost<Seq<BlockHash>>) -> (r: bool)
        requires
            self.wf(),
            i < self.dag@.len(),
            processed@.len() == self.dag@.len(),
            forall|j: int| 0 <= j < self.dag@.len() ==> #[trigger] processed@[j] == o.contains(self.dag@[j].hash),
            forall|t: int| 0 <= t < o.len() ==> contains_hash(self.dag@, #[trigger] o[t]),
        ensures
            r == forall|q: int|
                0 <= q < self.dag@[i as int].header.parent_hashes@.len() ==> o.contains(
                    #[trigger] self.dag@[i as int].header.parent_hashes@[q],
                ),
    {
        let ghost s = self.dag@;
        let ps = &self.dag.block_at(i).header.parent_hashes;
        let mut q: usize = 0;
        while q < ps.len()
            invariant
                s == self.dag@,
                self.wf(),
                i < s.len(),
                processed@.len() == s.len(),
                forall|j: int| 0 <= j < s.len() ==> #[trigger] processed@[j] == o.contains(s[j].hash),
                forall|t: int| 0 <= t < o.len() ==> contains_hash(s, #[trigger] o[t]),
                ps@ == s[i as int].header.parent_hashes@,
                q <= ps@.len(),
                forall|qq: int| 0 <= qq < q ==> o.contains(#[trigger] ps@[qq]),
            decreases ps@.len() - q,
        {
            let p: BlockHash = ps[q];
            match self.dag.find_index(&p) {
                Some(pi) => {
                    if !processed[pi] {
                        assert(!o.contains(ps@[q as int]));
                        return false;
                    }
                },
                None => {
                    proof {
                        if o.contains(p) {
                            let t = choose|t: int| 0 <= t < o.len() && o[t] == p;
                            assert(contains_hash(s, o[t]));
                        }
                    }
                    return false;
                },
            }
            q = q + 1;
        }
        true
    }
}


/// Some entry of `v` has hash `h`.
pub open spec fn has_hash(v: Seq<(BlockHash, u64)>, h: BlockHash) -> bool {
    exists|t: int| 0 <= t < v.len() && (#[trigger] v[t]).0 == h
}

impl GHOSTDAGEngine {
    /// Blue score of every block, by position.
    fn block_scores(&self) -> (r: Result<Vec<u64>, String>)
        requires
            self.wf(),
        ensures
            r matches Ok(sc) && sc@.len() == self.dag@.len() && forall|j: int|
                0 <= j < sc@.len() ==> #[trigger] sc@[j] as nat == blue_score_spec(self.dag@, self.dag@[j].hash, self.k as nat),
    {
        let n = self.dag.block_count();
        let mut scores: Vec<u64> = Vec::new();
        let mut i: usize = 0;
        while i < n
            invariant
                self.wf(),
                n == self.dag@.len(),
                i <= n,
                scores@.len() == i,
                forall|j: int| 0 <= j < i ==> #[trigger] scores@[j] as nat == blue_score_spec(self.dag@, self.dag@[j].hash, self.k as nat),
            decreases n - i,
        {
            let h: BlockHash = self.dag.block_at(i).hash;
            let v = self.score_of(&h);
            scores.push(v);
            i = i + 1;
        }
        Ok(scores)
    }

    /// The blocks that are ready once `o` is listed, each with its score for
    /// round `r` (`first` tells whether `r` is the first round), in DAG order.
    fn ready_pairs(
        &self,
        processed: &Vec<bool>,
        scores: &Vec<u64>,
        first: bool,
        Ghost(o): Ghost<Seq<BlockHash>>,
        Ghost(r): Ghost<int>,
    ) -> (pairs: Vec<(BlockHash, u64)>)
        requires
            self.wf(),
            processed@.len() == self.dag@.len(),
            forall|j: int| 0 <= j < self.dag@.len() ==> #[trigger] processed@[j] == o.contains(self.dag@[j].hash),
            forall|t: int| 0 <= t < o.len() ==> contains_hash(self.dag@, #[trigger] o[t]),
            scores@.len() == self.dag@.len(),
            forall|j: int| 0 <= j < scores@.len() ==> #[trigger] scores@[j] as nat == blue_score_spec(self.dag@, self.dag@[j].hash, self.k as nat),
            first == (r == 0),
        ensures
            distinct_hashes(pairs@),
            forall|t: int| 0 <= t < pairs@.len() ==> ready_after(self.dag@, o, (#[trigger] pairs@[t]).0)
                && pairs@[t].1 as nat == round_score(self.dag@, self.k as nat, r, pairs@[t].0),
            forall|j: int| 0 <= j < self.dag@.len() && ready_after(self.dag@, o, #[trigger] self.dag@[j].hash) ==> has_hash(pairs@, self.dag@[j].hash),
            pairs@.len() == 0 ==> forall|j: int| 0 <= j < self.dag@.len() ==> o.contains(#[trigger] self.dag@[j].hash),
    {
        let ghost s = self.dag@;
        let ghost kk = self.k as nat;
        let n = self.dag.block_count();
        let mut pairs: Vec<(BlockHash, u64)> = Vec::new();
        let ghost mut idx: Seq<int> = Seq::empty();
        let mut i: usize = 0;
        while i < n
            invariant
                s == self.dag@,
                kk == self.k as nat,
                self.wf(),
                n == s.len(),
                processed@.len() == n,
                forall|j: int| 0 <= j < n ==> #[trigger] processed@[j] == o.contains(s[j].hash),
                forall|t: int| 0 <= t < o.len() ==> contains_hash(s, #[trigger] o[t]),
                scores@.len() == n,
                forall|j: int| 0 <= j < n ==> #[trigger] scores@[j] as nat == blue_score_spec(s, s[j].hash, kk),
                first == (r == 0),
                i <= n,
                idx.len() == pairs@.len(),
                forall|t: int| 0 <= t < idx.len() ==> 0 <= #[trigger] idx[t] < i && s[idx[t]].hash == pairs@[t].0,
                forall|t: int| 0 <= t < pairs@.len() ==> ready_after(s, o, (#[trigger] pairs@[t]).0)
                    && pairs@[t].1 as nat == round_score(s, kk, r, pairs@[t].0),
                distinct_hashes(pairs@),
                forall|j: int| 0 <= j < i && ready_after(s, o, #[trigger] s[j].hash) ==> has_hash(pairs@, s[j].hash),
                pairs@.len() == 0 ==> forall|j: int| 0 <= j < i ==> #[trigger] processed@[j],
            decreases n - i,
        {
            proof {
                lemma_hash_index(s, i as int);
            }
            if !processed[i] {
                let ok = self.parents_done(i, processed, Ghost(o));
                let h: BlockHash = self.dag.block_at(i).hash;
                assert(parents_of(s, h) == s[i as int].header.parent_hashes@);
                assert(contains_hash(s, h));
                if ok {
                    let sc: u64 = if first {
                        0
                    } else {
                        scores[i]
                    };
                    let ghost before = pairs@;
                    pairs.push((h, sc));
                    proof {
                        idx = idx.push(i as int);
                        assert(ready_after(s, o, h));
                        assert forall|a: int, b: int| 0 <= a < b < pairs@.len() implies (#[trigger] pairs@[a]).0 != (#[trigger] pairs@[b]).0 by {
                            if b == before.len() {
                                assert(s[idx[a]].hash == pairs@[a].0);
                                assert(idx[a] < i);
                            } else {
                                assert(pairs@[a] == before[a] && pairs@[b] == before[b]);
                            }
                        }
                        assert forall|j: int| 0 <= j < i + 1 && ready_after(s, o, #[trigger] s[j].hash) implies has_hash(pairs@, s[j].hash) by {
                            if j == i {
                                assert(pairs@[before.len() as int].0 == s[j].hash);
                            } else {
                                let t = choose|t: int| 0 <= t < before.len() && (#[trigger] before[t]).0 == s[j].hash;
                                assert(pairs@[t] == before[t]);
                            }
                        }
                    }
                } else {
                    proof {
                        assert(!ready_after(s, o, h));
                        if pairs@.len() == 0 {
                            assert forall|q: int| 0 <= q < s[i as int].header.parent_hashes@.len() implies o.contains(
                                #[trigger] s[i as int].header.parent_hashes@[q]) by {
                                assert(crate::dag::parent_earlier(s, i as int, q));
                                let a = choose|a: int| 0 <= a < i && s[a].hash == s[i as int].header.parent_hashes@[q];
                                assert(processed@[a]);
                            }
                            assert(false);
                        }
                    }
                }
            } else {
                proof {
                    assert(o.contains(s[i as int].hash));
                }
            }
            i = i + 1;
        }
        proof {
            if pairs@.len() == 0 {
                assert forall|j: int| 0 <= j < s.len() implies o.contains(#[trigger] s[j].hash) by {
                    assert(processed@[j]);
                }
            }
        }
        pairs
    }
}


impl GHOSTDAGEngine {
    /// List the hashes of `round` after `ordering`, marking each as processed.
    fn push_round(
        &self,
        round: &Vec<(BlockHash, u64)>,
        ordering: &mut Vec<BlockHash>,
        processed: &mut Vec<bool>,
    )
        requires
            self.wf(),
            old(processed)@.len() == self.dag@.len(),
            forall|j: int| 0 <= j < self.dag@.len() ==> #[trigger] old(processed)@[j] == old(ordering)@.contains(self.dag@[j].hash),
            forall|t: int| 0 <= t < old(ordering)@.len() ==> contains_hash(self.dag@, #[trigger] old(ordering)@[t]),
            old(ordering)@.no_duplicates(),
            forall|t: int| 0 <= t < old(ordering)@.len() ==> #[trigger] parents_before(self.dag@, old(ordering)@, t),
            forall|t: int| 0 <= t < round@.len() ==> ready_after(self.dag@, old(ordering)@, (#[trigger] round@[t]).0),
            distinct_hashes(round@),
        ensures
            final(ordering)@ == old(ordering)@ + round@.map_values(|p: (BlockHash, u64)| p.0),
            final(processed)@.len() == self.dag@.len(),
            forall|j: int| 0 <= j < self.dag@.len() ==> #[trigger] final(processed)@[j] == final(ordering)@.contains(self.dag@[j].hash),
            forall|t: int| 0 <= t < final(ordering)@.len() ==> contains_hash(self.dag@, #[trigger] final(ordering)@[t]),
            final(ordering)@.no_duplicates(),
            forall|t: int| 0 <= t < final(ordering)@.len() ==> #[trigger] parents_before(self.dag@, final(ordering)@, t),
    {
        let ghost s = self.dag@;
        let ghost pre = ordering@;
        let ghost hs = round@.map_values(|p: (BlockHash, u64)| p.0);
        let mut t: usize = 0;
        while t < round.len()
            invariant
                s == self.dag@,
                self.wf(),
                hs == round@.map_values(|p: (BlockHash, u64)| p.0),
                forall|u: int| 0 <= u < round@.len() ==> ready_after(s, pre, (#[trigger] round@[u]).0),
                distinct_hashes(round@),
                forall|u: int| 0 <= u < pre.len() ==> #[trigger] parents_before(s, pre, u),
                t <= round@.len(),
                ordering@ == pre + hs.take(t as int),
                processed@.len() == s.len(),
                forall|j: int| 0 <= j < s.len() ==> #[trigger] processed@[j] == ordering@.contains(s[j].hash),
                forall|u: int| 0 <= u < ordering@.len() ==> contains_hash(s, #[trigger] ordering@[u]),
                ordering@.no_duplicates(),
                forall|u: int| 0 <= u < ordering@.len() ==> #[trigger] parents_before(s, ordering@, u),
            decreases round@.len() - t,
        {
            let h: BlockHash = round[t].0;
            let ghost before = ordering@;
            proof {
                assert(ready_after(s, pre, round@[t as int].0));
                assert(hs[t as int] == h);
            }
            let bi = match self.dag.find_index(&h) {
                Some(bi) => bi,
                None => {
                    assert(false);
                    return;
                },
            };
            proof {
                assert(!before.contains(h)) by {
                    if before.contains(h) {
                        let u = choose|u: int| 0 <= u < before.len() && before[u] == h;
                        if u >= pre.len() {
                            let w = u - pre.len();
                            assert(before[u] == hs[w]);
                            assert(round@[w].0 == round@[t as int].0);
                        } else {
                            assert(pre[u] == h);
                        }
                    }
                }
            }
            processed.set(bi, true);
            ordering.push(h);
            proof {
                let o2 = ordering@;
                assert(o2 == before.push(h));
                assert(hs.take(t + 1) =~= hs.take(t as int).push(h));
                assert(o2 =~= pre + hs.take(t + 1));
                assert forall|j: int| 0 <= j < s.len() implies #[trigger] processed@[j] == o2.contains(s[j].hash) by {
                    if j == bi {
                        assert(o2[before.len() as int] == h);
                    } else {
                        assert(s[j].hash != s[bi as int].hash) by {
                            if j < bi {
                            } else {
                            }
                        }
                        if before.contains(s[j].hash) {
                            let u = choose|u: int| 0 <= u < before.len() && before[u] == s[j].hash;
                            assert(o2[u] == s[j].hash);
                        }
                        if o2.contains(s[j].hash) {
                            let u = choose|u: int| 0 <= u < o2.len() && o2[u] == s[j].hash;
                            assert(u < before.len());
                            assert(before[u] == s[j].hash);
                        }
                    }
                }
                assert forall|u: int| 0 <= u < o2.len() implies contains_hash(s, #[trigger] o2[u]) by {
                    if u < before.len() {
                        assert(o2[u] == before[u]);
                    }
                }
                assert forall|u: int| 0 <= u < o2.len() implies #[trigger] parents_before(s, o2, u) by {
                    let ps = parents_of(s, o2[u]);
                    if u < before.len() {
                        assert(o2[u] == before[u]);
                        assert(parents_before(s, before, u));
                        assert forall|q: int| 0 <= q < ps.len() implies #[trigger] listed_before(o2, ps[q], u) by {
                            assert(listed_before(before, ps[q], u));
                            let w = choose|w: int| 0 <= w < u && before[w] == ps[q];
                            assert(o2[w] == ps[q]);
                        }
                    } else {
                        assert(o2[u] == h);
                        assert forall|q: int| 0 <= q < ps.len() implies #[trigger] listed_before(o2, ps[q], u) by {
                            assert(pre.contains(ps[q]));
                            let w = choose|w: int| 0 <= w < pre.len() && pre[w] == ps[q];
                            assert(o2[w] == pre[w]);
                        }
                    }
                }
            }
            t = t + 1;
        }
        proof {
            assert(hs.take(round@.len() as int) =~= hs);
        }
    }
}


impl GHOSTDAGEngine {
    /// Generate the GHOSTDAG ordering of the DAG: the genesis blocks by hash,
    /// then, round by round, the blocks whose parents are all listed, by blue
    /// score (highest first), ties broken by the smaller hash.
    pub fn generate_ordering(&mut self) -> (r: Result<Vec<BlockHash>, String>)
        requires
            old(self).wf(),
        ensures
            *final(self) == *old(self),
            r matches Ok(o) && ghostdag_order(old(self).blocks(), old(self).k_param() as nat, o@) && valid_ordering(
                old(self).blocks(),
                o@,
            ),
    {
        let ghost s = self.dag@;
        let ghost kk = self.k as nat;
        let n = self.dag.block_count();
        let scores = self.block_scores()?;
        let mut ordering: Vec<BlockHash> = Vec::new();
        let mut processed: Vec<bool> = Vec::new();
        let mut i: usize = 0;
        while i < n
            invariant
                i <= n,
                processed@.len() == i,
                forall|j: int| 0 <= j < i ==> !#[trigger] processed@[j],
            decreases n - i,
        {
            processed.push(false);
            i = i + 1;
        }
        let ghost mut bounds: Seq<int> = seq![0int];
        let mut first = true;
        proof {
            assert(bounds.last() == 0);
        }
        loop
            invariant
                s == self.dag@,
                kk == self.k as nat,
                self.wf(),
                n == s.len(),
                scores@.len() == n,
                forall|j: int| 0 <= j < n ==> #[trigger] scores@[j] as nat == blue_score_spec(s, s[j].hash, kk),
                processed@.len() == n,
                forall|j: int| 0 <= j < n ==> #[trigger] processed@[j] == ordering@.contains(s[j].hash),
                forall|t: int| 0 <= t < ordering@.len() ==> contains_hash(s, #[trigger] ordering@[t]),
                ordering@.no_duplicates(),
                forall|t: int| 0 <= t < ordering@.len() ==> #[trigger] parents_before(s, ordering@, t),
                ordering@.len() <= n,
                rounds_ok(s, kk, ordering@, bounds),
                first == (bounds.len() == 1),
            ensures
                forall|j: int| 0 <= j < n ==> ordering@.contains(#[trigger] s[j].hash),
            decreases n - ordering@.len(),
        {
            let ghost pre = ordering@;
            let ghost r = bounds.len() - 1;
            let pairs = self.ready_pairs(&processed, &scores, first, Ghost(pre), Ghost(r));
            if pairs.len() == 0 {
                break;
            }
            let round = sort_by_score(pairs);
            proof {
                assert forall|a: int, b: int| 0 <= a < b < round@.len() implies (#[trigger] round@[a]).0 != (#[trigger] round@[b]).0 by {
                    if round@[a].0 == round@[b].0 {
                        assert(pairs@.contains(round@[a]));
                        assert(pairs@.contains(round@[b]));
                        let pa = choose|pa: int| 0 <= pa < pairs@.len() && pairs@[pa] == round@[a];
                        let pb = choose|pb: int| 0 <= pb < pairs@.len() && pairs@[pb] == round@[b];
                        if pa != pb {
                            if pa < pb {
                                assert(pairs@[pa].0 != pairs@[pb].0);
                            } else {
                                assert(pairs@[pb].0 != pairs@[pa].0);
                            }
                        }
                        assert(pair_before(round@[a], round@[b]));
                        lemma_pair_before_irrefl(round@[a], round@[b]);
                    }
                }
                assert forall|t: int| 0 <= t < round@.len() implies ready_after(s, pre, (#[trigger] round@[t]).0)
                    && round@[t].1 as nat == round_score(s, kk, r, round@[t].0) by {
                    assert(round@.contains(round@[t]));
                    let pt = choose|pt: int| 0 <= pt < pairs@.len() && pairs@[pt] == round@[t];
                    assert(ready_after(s, pre, pairs@[pt].0));
                }
            }
            self.push_round(&round, &mut ordering, &mut processed);
            proof {
                let o2 = ordering@;
                let hs = round@.map_values(|p: (BlockHash, u64)| p.0);
                let lo = pre.len() as int;
                let hi = o2.len() as int;
                assert(o2.take(lo) =~= pre);
                assert forall|t: int| lo <= t < hi implies ready_after(s, o2.take(lo), #[trigger] o2[t]) by {
                    assert(o2[t] == hs[t - lo]);
                    assert(ready_after(s, pre, round@[t - lo].0));
                }
                assert forall|j: int| 0 <= j < s.len() && #[trigger] ready_after(s, o2.take(lo), s[j].hash) implies o2.subrange(lo, hi).contains(
                    s[j].hash) by {
                    assert(has_hash(pairs@, s[j].hash));
                    let pt = choose|pt: int| 0 <= pt < pairs@.len() && (#[trigger] pairs@[pt]).0 == s[j].hash;
                    assert(pairs@.contains(pairs@[pt]));
                    assert(round@.contains(pairs@[pt]));
                    let u = choose|u: int| 0 <= u < round@.len() && round@[u] == pairs@[pt];
                    assert(o2.subrange(lo, hi)[u] == o2[lo + u]);
                    assert(o2[lo + u] == hs[u]);
                }
                assert forall|t1: int, t2: int| lo <= t1 < t2 < hi implies round_before(s, kk, r, #[trigger] o2[t1], #[trigger] o2[t2]) by {
                    assert(o2[t1] == hs[t1 - lo] && o2[t2] == hs[t2 - lo]);
                    assert(pair_before(round@[t1 - lo], round@[t2 - lo]));
                    assert(round@[t1 - lo].1 as nat == round_score(s, kk, r, round@[t1 - lo].0));
                    assert(round@[t2 - lo].1 as nat == round_score(s, kk, r, round@[t2 - lo].0));
                }
                assert(round_ok(s, kk, o2, lo, hi, r));
                let b2 = bounds.push(hi);
                assert forall|rr: int| 0 <= rr < b2.len() - 1 implies #[trigger] round_at(s, kk, o2, b2, rr) by {
                    if rr < r {
                        assert(round_at(s, kk, pre, bounds, rr));
                        assert(b2[rr] == bounds[rr] && b2[rr + 1] == bounds[rr + 1]);
                        lemma_round_extend(s, kk, pre, o2, bounds[rr], bounds[rr + 1], rr);
                    } else {
                        assert(b2[rr] == lo && b2[rr + 1] == hi);
                    }
                }
                assert(rounds_ok(s, kk, o2, b2));
                bounds = b2;
                assert forall|t: int| 0 <= t < o2.len() implies hashes_of(s).contains(#[trigger] o2[t]) by {
                    assert(contains_hash(s, o2[t]));
                    let j = choose|j: int| 0 <= j < s.len() && s[j].hash == o2[t];
                    assert(hashes_of(s)[j] == o2[t]);
                }
                lemma_no_dup_len_le(o2, hashes_of(s));
            }
            first = false;
        }
        proof {
            let o = ordering@;
            assert(rounds_ok(s, kk, o, bounds));
            assert(hashes_of(s).no_duplicates()) by {
                assert forall|a: int, b: int| 0 <= a < hashes_of(s).len() && 0 <= b < hashes_of(s).len() && a != b implies hashes_of(s)[a] != hashes_of(s)[b] by {
                    if a < b {
                        assert(s[a].hash != s[b].hash);
                    } else {
                        assert(s[b].hash != s[a].hash);
                    }
                }
            }
            assert forall|j: int| 0 <= j < hashes_of(s).len() implies o.contains(#[trigger] hashes_of(s)[j]) by {
                assert(o.contains(s[j].hash));
            }
            lemma_no_dup_len_le(hashes_of(s), o);
        }
        Ok(ordering)
    }
}


/// The round of `b` that holds position `t`.
proof fn round_containing(s: Seq<Block>, k: nat, o: Seq<BlockHash>, b: Seq<int>, t: int) -> (r: int)
    requires
        b.len() >= 1,
        forall|rr: int| 0 <= rr < b.len() - 1 ==> #[trigger] round_at(s, k, o, b, rr),
        b[0] <= t < b.last(),
    ensures
        0 <= r < b.len() - 1,
        b[r] <= t < b[r + 1],
    decreases b.len(),
{
    let m = b.len() - 2;
    assert(round_at(s, k, o, b, m));
    if b[m] <= t {
        m
    } else {
        let b2 = b.drop_last();
        assert forall|rr: int| 0 <= rr < b2.len() - 1 implies #[trigger] round_at(s, k, o, b2, rr) by {
            assert(round_at(s, k, o, b, rr));
        }
        let r = round_containing(s, k, o, b2, t);
        assert(round_at(s, k, o, b2, r));
        r
    }
}

/// Every GHOSTDAG ordering passes `validate_ordering`: it lists each block
/// of the DAG once, after all of its parents.
pub proof fn lemma_ghostdag_order_valid(s: Seq<Block>, k: nat, o: Seq<BlockHash>)
    requires
        crate::dag::dag_wf(s),
        ghostdag_order(s, k, o),
    ensures
        valid_ordering(s, o),
{
    let b = choose|b: Seq<int>| #[trigger] rounds_ok(s, k, o, b);
    assert(rounds_ok(s, k, o, b));
    assert forall|t: int| 0 <= t < o.len() implies contains_hash(s, #[trigger] o[t]) && parents_before(s, o, t) by {
        let r = round_containing(s, k, o, b, t);
        assert(round_at(s, k, o, b, r));
        let lo = b[r];
        assert(ready_after(s, o.take(lo), o[t]));
        let ps = parents_of(s, o[t]);
        assert forall|q: int| 0 <= q < ps.len() implies #[trigger] listed_before(o, ps[q], t) by {
            assert(o.take(lo).contains(ps[q]));
            let w = choose|w: int| 0 <= w < lo && o.take(lo)[w] == ps[q];
            assert(o[w] == ps[q]);
        }
    }
    assert forall|t1: int, t2: int| 0 <= t1 < o.len() && 0 <= t2 < o.len() && t1 != t2 implies o[t1] != o[t2] by {
        let (a, c) = if t1 < t2 { (t1, t2) } else { (t2, t1) };
        let r = round_containing(s, k, o, b, c);
        assert(round_at(s, k, o, b, r));
        let lo = b[r];
        assert(ready_after(s, o.take(lo), o[c]));
        if a < lo {
            assert(o.take(lo)[a] == o[a]);
            assert(o.take(lo).contains(o[a]));
        } else {
            assert(round_before(s, k, r, o[a], o[c]));
            if o[a] == o[c] {
                if lex_lt(o[a]@, o[c]@) {
                    lemma_lex_lt_asym(o[a]@, o[c]@);
                }
            }
        }
    }
    assert(o.no_duplicates());
    assert forall|t: int| 0 <= t < o.len() implies hashes_of(s).contains(#[trigger] o[t]) by {
        assert(contains_hash(s, o[t]));
        let j = choose|j: int| 0 <= j < s.len() && s[j].hash == o[t];
        assert(hashes_of(s)[j] == o[t]);
    }
    lemma_no_dup_len_le(o, hashes_of(s));
    assert(hashes_of(s).no_duplicates()) by {
        assert forall|a: int, c: int| 0 <= a < hashes_of(s).len() && 0 <= c < hashes_of(s).len() && a != c implies hashes_of(s)[a]
            != hashes_of(s)[c] by {
            if a < c {
                assert(s[a].hash != s[c].hash);
            } else {
                assert(s[c].hash != s[a].hash);
            }
        }
    }
    assert forall|j: int| 0 <= j < hashes_of(s).len() implies o.contains(#[trigger] hashes_of(s)[j]) by {
        assert(o.contains(s[j].hash));
    }
    lemma_no_dup_len_le(hashes_of(s), o);
    assert forall|t: int| 0 <= t < o.len() implies #[trigger] parents_before(s, o, t) by {
        assert(contains_hash(s, o[t]) && parents_before(s, o, t));
    }
}


/// The order within a round is asymmetric.
proof fn lemma_round_before_asym(s: Seq<Block>, k: nat, r: int, a: BlockHash, c: BlockHash)
    requires
        round_before(s, k, r, a, c),
    ensures
        !round_before(s, k, r, c, a),
        a != c,
{
    if round_score(s, k, r, a) == round_score(s, k, r, c) {
        lemma_lex_lt_asym(a@, c@);
    }
}

/// Two sequences in strict `round_before` order with the same entries are
/// equal.
#[verifier::spinoff_prover]
proof fn lemma_round_sorted_unique(s: Seq<Block>, k: nat, r: int, x: Seq<BlockHash>, y: Seq<BlockHash>)
    requires
        forall|t1: int, t2: int| 0 <= t1 < t2 < x.len() ==> round_before(s, k, r, #[trigger] x[t1], #[trigger] x[t2]),
        forall|t1: int, t2: int| 0 <= t1 < t2 < y.len() ==> round_before(s, k, r, #[trigger] y[t1], #[trigger] y[t2]),
        forall|h: BlockHash| x.contains(h) <==> y.contains(h),
    ensures
        x == y,
    decreases x.len(),
{
    if x.len() == 0 {
        if y.len() > 0 {
            assert(y.contains(y[0]));
        }
        assert(x =~= y);
    } else {
        assert(x.contains(x[0]));
        let j = choose|j: int| 0 <= j < y.len() && y[j] == x[0];
        assert(y.contains(y[0]));
        let i = choose|i: int| 0 <= i < x.len() && x[i] == y[0];
        if j > 0 {
            assert(round_before(s, k, r, y[0], y[j]));
            if i > 0 {
                assert(round_before(s, k, r, x[0], x[i]));
                lemma_round_before_asym(s, k, r, y[0], y[j]);
            } else {
                lemma_round_before_asym(s, k, r, y[0], y[j]);
            }
        }
        assert(x[0] == y[0]);
        let x2 = x.drop_first();
        let y2 = y.drop_first();
        assert forall|h: BlockHash| x2.contains(h) <==> y2.contains(h) by {
            if x2.contains(h) {
                let a = choose|a: int| 0 <= a < x2.len() && x2[a] == h;
                assert(x[a + 1] == h);
                assert(x.contains(h));
                let c = choose|c: int| 0 <= c < y.len() && y[c] == h;
                if c == 0 {
                    lemma_round_before_asym(s, k, r, x[0], x[a + 1]);
                }
                assert(y2[c - 1] == h);
            }
            if y2.contains(h) {
                let c = choose|c: int| 0 <= c < y2.len() && y2[c] == h;
                assert(y[c + 1] == h);
                assert(y.contains(h));
                let a = choose|a: int| 0 <= a < x.len() && x[a] == h;
                if a == 0 {
                    lemma_round_before_asym(s, k, r, y[0], y[c + 1]);
                }
                assert(x2[a - 1] == h);
            }
        }
        assert forall|t1: int, t2: int| 0 <= t1 < t2 < x2.len() implies round_before(s, k, r, #[trigger] x2[t1], #[trigger] x2[t2]) by {
            assert(x2[t1] == x[t1 + 1] && x2[t2] == x[t2 + 1]);
        }
        assert forall|t1: int, t2: int| 0 <= t1 < t2 < y2.len() implies round_before(s, k, r, #[trigger] y2[t1], #[trigger] y2[t2]) by {
            assert(y2[t1] == y[t1 + 1] && y2[t2] == y[t2 + 1]);
        }
        lemma_round_sorted_unique(s, k, r, x2, y2);
        assert(x =~= seq![x[0]] + x2);
        assert(y =~= seq![y[0]] + y2);
    }
}

/// Two round structures of GHOSTDAG orderings agree up to round `r`.
proof fn lemma_rounds_agree(
    s: Seq<Block>,
    k: nat,
    o1: Seq<BlockHash>,
    b1: Seq<int>,
    o2: Seq<BlockHash>,
    b2: Seq<int>,
    r: int,
)
    requires
        rounds_ok(s, k, o1, b1),
        rounds_ok(s, k, o2, b2),
        0 <= r < b1.len(),
        r < b2.len(),
    ensures
        b1[r] == b2[r],
        o1.take(b1[r]) == o2.take(b2[r]),
    decreases r,
{
    if r == 0 {
        assert(o1.take(0) =~= o2.take(0));
    } else {
        lemma_rounds_agree(s, k, o1, b1, o2, b2, r - 1);
        assert(round_at(s, k, o1, b1, r - 1));
        assert(round_at(s, k, o2, b2, r - 1));
        let lo = b1[r - 1];
        let p = o1.take(lo);
        assert(o2.take(lo) == p);
        let x = o1.subrange(lo, b1[r]);
        let y = o2.subrange(lo, b2[r]);
        assert forall|h: BlockHash| x.contains(h) implies y.contains(h) by {
            let a = choose|a: int| 0 <= a < x.len() && x[a] == h;
            assert(o1[lo + a] == h);
            assert(ready_after(s, p, h));
            let i = choose|i: int| 0 <= i < s.len() && s[i].hash == h;
            assert(ready_after(s, o2.take(lo), s[i].hash));
        }
        assert forall|h: BlockHash| y.contains(h) implies x.contains(h) by {
            let a = choose|a: int| 0 <= a < y.len() && y[a] == h;
            assert(o2[lo + a] == h);
            assert(ready_after(s, p, h));
            let i = choose|i: int| 0 <= i < s.len() && s[i].hash == h;
            assert(ready_after(s, o1.take(lo), s[i].hash));
        }
        assert forall|t1: int, t2: int| 0 <= t1 < t2 < x.len() implies round_before(s, k, r - 1, #[trigger] x[t1], #[trigger] x[t2]) by {
            assert(x[t1] == o1[lo + t1] && x[t2] == o1[lo + t2]);
        }
        assert forall|t1: int, t2: int| 0 <= t1 < t2 < y.len() implies round_before(s, k, r - 1, #[trigger] y[t1], #[trigger] y[t2]) by {
            assert(y[t1] == o2[lo + t1] && y[t2] == o2[lo + t2]);
        }
        lemma_round_sorted_unique(s, k, r - 1, x, y);
        assert(x.len() == y.len());
        assert(o1.take(b1[r]) =~= p + x);
        assert(o2.take(b2[r]) =~= p + y);
    }
}

/// The GHOSTDAG ordering of a DAG is unique, so `generate_ordering` is
/// deterministic.
pub proof fn lemma_ghostdag_order_unique(s: Seq<Block>, k: nat, o1: Seq<BlockHash>, o2: Seq<BlockHash>)
    requires
        ghostdag_order(s, k, o1),
        ghostdag_order(s, k, o2),
    ensures
        o1 == o2,
{
    let b1 = choose|b: Seq<int>| #[trigger] rounds_ok(s, k, o1, b);
    let b2 = choose|b: Seq<int>| #[trigger] rounds_ok(s, k, o2, b);
    assert(rounds_ok(s, k, o1, b1));
    assert(rounds_ok(s, k, o2, b2));
    lemma_complete_round_count(s, k, o1, b1, o2, b2);
    lemma_complete_round_count(s, k, o2, b2, o1, b1);
    let m = b1.len() - 1;
    lemma_rounds_agree(s, k, o1, b1, o2, b2, m);
    assert(o1.take(o1.len() as int) =~= o1);
    assert(o2.take(o2.len() as int) =~= o2);
}

/// A complete GHOSTDAG ordering has at least as many rounds as any other.
proof fn lemma_complete_round_count(
    s: Seq<Block>,
    k: nat,
    o1: Seq<BlockHash>,
    b1: Seq<int>,
    o2: Seq<BlockHash>,
    b2: Seq<int>,
)
    requires
        rounds_ok(s, k, o1, b1),
        rounds_ok(s, k, o2, b2),
        forall|i: int| 0 <= i < s.len() ==> o1.contains(#[trigger] s[i].hash),
    ensures
        b2.len() <= b1.len(),
{
    if b1.len() < b2.len() {
        let m = b1.len() - 1;
        lemma_rounds_agree(s, k, o1, b1, o2, b2, m);
        assert(o1.take(b1[m]) =~= o1);
        assert(round_at(s, k, o2, b2, m));
        let lo = b2[m];
        let h = o2[lo];
        assert(ready_after(s, o2.take(lo), h));
        let i = choose|i: int| 0 <= i < s.len() && s[i].hash == h;
        assert(o1.contains(s[i].hash));
    }
}


impl GHOSTDAGEngine {
    /// Largest recorded blue score among `ps` (0 when there is none).
    pub open spec fn max_recorded(&self, ps: Seq<BlockHash>) -> u64
        decreases ps.len(),
    {
        if ps.len() == 0 {
            0
        } else {
            let m = self.max_recorded(ps.drop_last());
            let v = self.recorded_score(ps.last());
            if v > m {
                v
            } else {
                m
            }
        }
    }

    /// The largest recorded blue score of `ps` bounds the recorded score of
    /// each of them and is one of them (0 for none).
    pub proof fn lemma_max_recorded_is_max(&self, ps: Seq<BlockHash>)
        ensures
            forall|k: int| 0 <= k < ps.len() ==> self.max_recorded(ps) >= self.recorded_score(#[trigger] ps[k]),
            ps.len() > 0 ==> exists|k: int| 0 <= k < ps.len() && self.max_recorded(ps) == self.recorded_score(#[trigger] ps[k]),
            ps.len() == 0 ==> self.max_recorded(ps) == 0,
        decreases ps.len(),
    {
        if ps.len() > 0 {
            let init = ps.drop_last();
            self.lemma_max_recorded_is_max(init);
            assert forall|k: int| 0 <= k < ps.len() implies self.max_recorded(ps) >= self.recorded_score(#[trigger] ps[k]) by {
                if k < ps.len() - 1 {
                    assert(ps[k] == init[k]);
                }
            }
            if init.len() > 0 {
                let k0 = choose|k: int| 0 <= k < init.len() && self.max_recorded(init) == self.recorded_score(#[trigger] init[k]);
                assert(ps[k0] == init[k0]);
            }
            assert(ps[ps.len() - 1] == ps.last());
        }
    }

    /// The blue score given to a new block with parents `ps` (see
    /// `annotate_block`) is above the recorded blue score of every parent,
    /// unless it saturates at `u64::MAX`; it is exactly one more than the
    /// score of some parent (saturating), and 1 for a block without parents.
    pub proof fn lemma_new_block_score_above_parents(&self, ps: Seq<BlockHash>)
        ensures
            ({
                let v = if self.max_recorded(ps) == u64::MAX {
                    u64::MAX
                } else {
                    (self.max_recorded(ps) + 1) as u64
                };
                &&& forall|k: int| 0 <= k < ps.len() ==> v > self.recorded_score(#[trigger] ps[k]) || v == u64::MAX
                &&& ps.len() > 0 ==> exists|k: int|
                    0 <= k < ps.len() && (v == self.recorded_score(#[trigger] ps[k]) + 1 || (v == u64::MAX
                        && self.recorded_score(ps[k]) == u64::MAX))
                &&& ps.len() == 0 ==> v == 1
            }),
    {
        self.lemma_max_recorded_is_max(ps);
    }

    /// Blue score for a block not yet in the DAG: one more than the largest
    /// recorded blue score of its parents (saturating).
    fn calculate_blue_score_for_new_block(&self, _dag: &BlockDAG, block: &Block) -> (r: Result<u64, String>)
        requires
            self.wf(),
        ensures
            r == Ok::<u64, String>(
                if self.max_recorded(block.header.parent_hashes@) == u64::MAX {
                    u64::MAX
                } else {
                    (self.max_recorded(block.header.parent_hashes@) + 1) as u64
                },
            ),
    {
        let ps = &block.header.parent_hashes;
        let mut max_parent_score: u64 = 0;
        let mut i: usize = 0;
        while i < ps.len()
            invariant
                self.wf(),
                i <= ps@.len(),
                max_parent_score == self.max_recorded(ps@.take(i as int)),
            decreases ps@.len() - i,
        {
            let score = match self.get_blue_score(&ps[i]) {
                Ok(v) => v,
                Err(_) => 0,
            };
            proof {
                assert(ps@.take(i + 1).drop_last() =~= ps@.take(i as int));
                assert(ps@.take(i + 1).last() == ps@[i as int]);
            }
            if score > max_parent_score {
                max_parent_score = score;
            }
            i = i + 1;
        }
        proof {
            assert(ps@.take(ps@.len() as int) =~= ps@);
        }
        Ok(max_parent_score.saturating_add(1))
    }

    /// Annotate a block with GHOSTDAG metadata before it enters `dag`: its
    /// selected parent (the best parent by recorded blue score), its blue
    /// score, its chain height (one above the selected parent's height, 0 for
    /// a block without parents) and its topological index (the DAG's size).
    pub fn annotate_block(&mut self, dag: &BlockDAG, block: &mut Block) -> (r: Result<(), String>)
        requires
            old(self).wf(),
            dag.wf(),
        ensures
            *final(self) == *old(self),
            r.is_ok(),
            ({
                let ps = old(block).header.parent_hashes@;
                let sel = final(block).header.selected_parent;
                &&& ps.len() == 0 ==> sel is None
                &&& ps.len() > 0 ==> (sel matches Some(p) && exists|b: int| #[trigger] is_best_index(ps, old(self).recorded_scores(ps), b) && ps[b] == p)
                &&& final(block).header.chain_height == match sel {
                    Some(p) => match hash_index(dag@, p) {
                        Some(pi) => if dag@[pi].height == u64::MAX { u64::MAX } else { (dag@[pi].height + 1) as u64 },
                        None => 1u64,
                    },
                    None => 0u64,
                }
                &&& final(block).header.blue_score == (if old(self).max_recorded(ps) == u64::MAX {
                    u64::MAX
                } else {
                    (old(self).max_recorded(ps) + 1) as u64
                })
                &&& final(block).header.topo_index == dag@.len()
                &&& keeps_content(*old(block), *final(block))
            }),
            forall|k: int|
                0 <= k < old(block).header.parent_hashes@.len() ==> final(block).header.blue_score > old(
                    self,
                ).recorded_score(#[trigger] old(block).header.parent_hashes@[k]) || final(block).header.blue_score
                    == u64::MAX,
    {
        proof {
            self.lemma_new_block_score_above_parents(block.header.parent_hashes@);
        }
        let selected_parent = if block.header.parent_hashes.len() == 0 {
            None
        } else {
            match self.select_parent_from_parents(dag, block.header.parent_hashes.as_slice()) {
                Ok(p) => Some(p),
                Err(e) => {
                    return Err(e);
                },
            }
        };
        let chain_height: u64 = match selected_parent {
            Some(parent) => {
                let h: u64 = match dag.get_block_height(&parent) {
                    Some(h) => h,
                    None => 0,
                };
                h.saturating_add(1)
            },
            None => 0,
        };
        let blue_score = match self.calculate_blue_score_for_new_block(dag, block) {
            Ok(v) => v,
            Err(e) => {
                return Err(e);
            },
        };
        let topo_index = dag.block_count() as u64;
        block.set_consensus_metadata(selected_parent, blue_score, chain_height, topo_index);
        Ok(())
    }
}


impl GHOSTDAGEngine {
    /// Number of cached blue scores.
    pub fn cached_score_count(&self) -> (n: usize)
        ensures
            n == self.cache_len(),
    {
        self.blue_score_cache.len()
    }

    /// GHOSTDAG statistics, with the blue and red sets taken relative to the
    /// first tip of the DAG.
    pub fn get_stats(&self) -> (st: GHOSTDAGStats)
        requires
            self.wf(),
            self.blocks().len() > 0,
        ensures
            st.k_parameter == self.k_param(),
            st.total_blocks == self.blocks().len(),
            st.blue_blocks == blue_seq(self.blocks(), tips_seq(self.blocks())[0], self.k_param() as nat).len(),
            st.red_blocks == red_seq(self.blocks(), tips_seq(self.blocks())[0], self.k_param() as nat).len(),
            st.cache_size == self.cache_len(),
    {
        proof {
            crate::dag::lemma_tips_nonempty(self.dag@);
        }
        let tips = self.dag.get_tips();
        let tip: BlockHash = tips[0];
        let blue_set = self.blue_set.build_blue_set(&self.dag, &tip);
        let red_set = self.blue_set.build_red_set(&self.dag, &tip);
        GHOSTDAGStats {
            k_parameter: self.k,
            total_blocks: self.dag.block_count(),
            blue_blocks: blue_set.len(),
            red_blocks: red_set.len(),
            cache_size: self.blue_score_cache.len(),
        }
    }

    /// Blue score of every block of the DAG, in topological order.
    pub fn get_all_blue_scores(&self) -> (r: Result<Vec<(BlockHash, u64)>, String>)
        requires
            self.wf(),
        ensures
            r matches Ok(v) && v@.len() == self.blocks().len() && forall|i: int|
                0 <= i < v@.len() ==> (#[trigger] v@[i]).0 == self.blocks()[i].hash && v@[i].1 as nat == blue_score_spec(
                    self.blocks(),
                    self.blocks()[i].hash,
                    self.k_param() as nat,
                ),
    {
        let scores = self.block_scores()?;
        let n = self.dag.block_count();
        let mut out: Vec<(BlockHash, u64)> = Vec::new();
        let mut i: usize = 0;
        while i < n
            invariant
                self.wf(),
                n == self.dag@.len(),
                scores@.len() == n,
                forall|j: int| 0 <= j < n ==> #[trigger] scores@[j] as nat == blue_score_spec(self.dag@, self.dag@[j].hash, self.k as nat),
                i <= n,
                out@.len() == i,
                forall|j: int| 0 <= j < i ==> (#[trigger] out@[j]).0 == self.dag@[j].hash && out@[j].1 == scores@[j],
            decreases n - i,
        {
            out.push((self.dag.block_at(i).hash, scores[i]));
            i = i + 1;
        }
        Ok(out)
    }

    /// Blue blocks relative to a reference block, sorted by hash.
    pub fn get_blue_blocks(&self, reference_hash: &BlockHash) -> (r: Result<Vec<BlockHash>, String>)
        requires
            self.wf(),
        ensures
            r matches Ok(v) && hashes_sorted(v@) && v@.to_multiset() == blue_seq(
                self.blocks(),
                *reference_hash,
                self.k_param() as nat,
            ).to_multiset(),
    {
        Ok(self.blue_set.get_blue_blocks(&self.dag, reference_hash))
    }

    /// Red blocks relative to a reference block, sorted by hash.
    pub fn get_red_blocks(&self, reference_hash: &BlockHash) -> (r: Result<Vec<BlockHash>, String>)
        requires
            self.wf(),
        ensures
            r matches Ok(v) && hashes_sorted(v@) && v@.to_multiset() == red_seq(
                self.blocks(),
                *reference_hash,
                self.k_param() as nat,
            ).to_multiset(),
    {
        Ok(self.blue_set.get_red_blocks(&self.dag, reference_hash))
    }
}


/// A block of the DAG counts itself: its anticone relative to itself is
/// empty, so its blue score is one plus the number of its blue ancestors.
pub proof fn lemma_blue_score_counts_self(s: Seq<Block>, h: BlockHash, k: nat)
    requires
        crate::dag::dag_wf(s),
        contains_hash(s, h),
    ensures
        blue_score_spec(s, h, k) == 1 + ancestors_seq(s, h).filter(counts_blue(s, h, k)).len(),
{
    let pred = crate::dag::anticone_pred(s, h, h);
    assert forall|x: int| 0 <= x < s.len() implies !#[trigger] pred(x) by {
        if crate::dag::in_closed_past(s, x, h) {
            assert(crate::dag::related_to(s, x, h));
        }
    }
    crate::dag::lemma_pick_none(s, pred, s.len() as int);
}

} // verus!
