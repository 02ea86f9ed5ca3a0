use vstd::prelude::*;
use crate::chain::block::{Block, BlockHash};
use crate::chain::bytes::{copy_vec, hash_eq};
use crate::chain::hash_order::{hash_lt, hashes_sorted, lemma_hash_le_antisym, lemma_lex_le_trans, lemma_lex_total, lex_le, lex_lt, sort_hashes};
use crate::consensus::blue_set::{blue_seq, BlueSet};
use crate::consensus::blue_set_manager::{
    denser_than, dense_spec, entry_value, find_key, find_pair, find_score, first_entry, intersect_in_order, lemma_entry_value_remove, lemma_first_entry,
    lemma_first_entry_push, merge_key,
};
use crate::consensus::dag_traversal::DAGTraversal;
use crate::consensus::ghostdag::{best_by_score, blue_score_spec, compute_blue_score, is_best_index, lemma_best_index_unique};
use crate::observability::tracing::{decimal_text, framed, hash_message, hex_spec};
use crate::events::decimal_spec;
use crate::dag::{ancestors_seq, contains_hash, hash_index, hashes_of, lemma_tips_nonempty, tips_seq, BlockDAG};

verus! {

/// The message that refuses a block whose parents merge `d` blocks deep
/// while at most `max` is allowed.
pub open spec fn merge_depth_message(d: nat, max: nat) -> Seq<char> {
    "Merge depth "@ + decimal_spec(d) + " exceeds max "@ + decimal_spec(max)
}

/// Configuration of the GHOSTDAG manager.
#[derive(Clone, Debug)]
pub struct GhostDagConfig {
    pub k: usize,
    pub max_merge_depth: usize,
    pub safe_reorg_depth: usize,
    pub finality_threshold: u64,
    /// Largest DAG density (tip parent links per block) a new block may
    /// bring, in millionths.
    pub max_dag_density_ppm: u64,
    pub cache_size: usize,
}

impl Default for GhostDagConfig {
    fn default() -> (c: Self)
        ensures
            c.k == 2,
            c.max_merge_depth == 100,
            c.safe_reorg_depth == 10,
            c.finality_threshold == 100,
            c.max_dag_density_ppm == 500_000,
            c.cache_size == 10000,
    {
        GhostDagConfig {
            k: 2,
            max_merge_depth: 100,
            safe_reorg_depth: 10,
            finality_threshold: 100,
            max_dag_density_ppm: 500_000,
            cache_size: 10000,
        }
    }
}

/// GHOSTDAG manager: consensus queries over a DAG, with caches that keep
/// what they computed until the entry is dropped (a cached value may
/// predate later changes of the DAG).
pub struct GhostDagManager {
    config: GhostDagConfig,
    dag: BlockDAG,
    blue_score_cache: Vec<(BlockHash, u64)>,
    past_set_cache: Vec<(BlockHash, Vec<BlockHash>)>,
    future_set_cache: Vec<(BlockHash, Vec<BlockHash>)>,
    merge_set_cache: Vec<((BlockHash, BlockHash), Vec<BlockHash>)>,
    pruning_point: Option<BlockHash>,
}

impl GhostDagManager {
    /// The manager's invariant: its DAG is well-formed.
    pub closed spec fn wf(&self) -> bool {
        self.dag.wf()
    }

    /// The manager's DAG.
    pub closed spec fn blocks(&self) -> Seq<Block> {
        self.dag@
    }

    /// The manager's configuration.
    pub closed spec fn cfg(&self) -> GhostDagConfig {
        self.config
    }

    /// The recorded pruning point.
    pub closed spec fn pruning(&self) -> Option<BlockHash> {
        self.pruning_point
    }

    /// The cached blue score of `h`, if any.
    pub closed spec fn cached_blue_score(&self, h: BlockHash) -> Option<u64> {
        match first_entry(self.blue_score_cache@, h) {
            Some(t) => Some(self.blue_score_cache@[t].1),
            None => None,
        }
    }

    /// Blue score of `h`: the cached one, else the counted one.
    pub open spec fn blue_score_of(&self, h: BlockHash) -> u64 {
        match self.cached_blue_score(h) {
            Some(v) => v,
            None => blue_score_spec(self.blocks(), h, self.cfg().k as nat) as u64,
        }
    }

    /// The cached past set of `h`, if any.
    pub closed spec fn cached_past(&self, h: BlockHash) -> Option<Seq<BlockHash>> {
        match first_entry(self.past_set_cache@, h) {
            Some(t) => Some(self.past_set_cache@[t].1@),
            None => None,
        }
    }

    /// Past set of `h`: the cached one, else its proper ancestors.
    pub open spec fn past_of(&self, h: BlockHash) -> Seq<BlockHash> {
        match self.cached_past(h) {
            Some(p) => p,
            None => ancestors_seq(self.blocks(), h),
        }
    }

    /// The cached merge set of the ordered pair `key`, if any.
    pub closed spec fn cached_merge(&self, key: (BlockHash, BlockHash)) -> Option<Seq<BlockHash>> {
        match first_entry(self.merge_set_cache@, key) {
            Some(t) => Some(self.merge_set_cache@[t].1@),
            None => None,
        }
    }

    /// Merge set of `a` and `b`: the cached one for their ordered pair,
    /// else the blocks of the past of the smaller hash that are in the past
    /// of the other.
    pub open spec fn merge_of(&self, a: BlockHash, b: BlockHash) -> Seq<BlockHash> {
        let key = merge_key(a, b);
        match self.cached_merge(key) {
            Some(m) => m,
            None => self.past_of(key.0).filter(|h: BlockHash| self.past_of(key.1).contains(h)),
        }
    }

    /// `self` answers every query as `o` does: same DAG, configuration,
    /// pruning point, blue scores, past sets and merge sets.
    pub open spec fn same_views(self, o: Self) -> bool {
        &&& self.wf() == o.wf()
        &&& self.blocks() == o.blocks()
        &&& self.cfg() == o.cfg()
        &&& self.pruning() == o.pruning()
        &&& forall|h: BlockHash| #[trigger] self.blue_score_of(h) == o.blue_score_of(h)
        &&& forall|h: BlockHash| #[trigger] self.past_of(h) == o.past_of(h)
        &&& forall|a: BlockHash, b: BlockHash| #[trigger] self.merge_of(a, b) == o.merge_of(a, b)
    }

    /// Blue scores of a list of blocks.
    pub open spec fn scores_of(&self, ps: Seq<BlockHash>) -> Seq<u64> {
        Seq::new(ps.len(), |j: int| self.blue_score_of(ps[j]))
    }

    /// The block of a non-empty list with the highest blue score, ties
    /// broken by the smallest hash.
    pub open spec fn best_of(&self, ps: Seq<BlockHash>) -> BlockHash {
        ps[choose|b: int| is_best_index(ps, self.scores_of(ps), b)]
    }

    /// The parents recorded for `h`; empty when it is unknown.
    pub open spec fn parents_listed(&self, h: BlockHash) -> Seq<BlockHash> {
        match hash_index(self.blocks(), h) {
            Some(i) => self.blocks()[i].header.parent_hashes@,
            None => Seq::empty(),
        }
    }

    /// Selfish mining: the blue score of `h` exceeds that of one of its
    /// parents by more than ten.
    pub open spec fn selfish_spec(&self, h: BlockHash) -> bool {
        exists|j: int|
            0 <= j < self.parents_listed(h).len() && self.blue_score_of(h) > self.blue_score_of(
                #[trigger] self.parents_listed(h)[j],
            ) + 10
    }

    /// Parasite chain: the merge set of `h` and the virtual selected
    /// parent has fewer than five blocks.
    pub open spec fn parasite_spec(&self, h: BlockHash) -> bool {
        self.merge_of(h, self.best_of(tips_seq(self.blocks()))).len() < 5
    }

    /// `d` is the merge depth of `ps`: the largest merge set of two of its
    /// entries, 0 with fewer than two entries.
    pub open spec fn merge_depth_ok(&self, ps: Seq<BlockHash>, d: nat) -> bool {
        &&& forall|i: int, j: int| 0 <= i < j < ps.len() ==> #[trigger] self.merge_of(ps[i], ps[j]).len() <= d
        &&& ps.len() <= 1 ==> d == 0
        &&& ps.len() > 1 ==> exists|i: int, j: int| 0 <= i < j < ps.len() && #[trigger] self.merge_of(ps[i], ps[j]).len() == d
    }

    /// The merge depth of `ps`.
    pub open spec fn merge_depth(&self, ps: Seq<BlockHash>) -> nat {
        choose|d: nat| self.merge_depth_ok(ps, d)
    }

    /// Blocks whose blue score lies at least the safe reorganisation depth
    /// below `top` (the difference saturating at 0).
    pub open spec fn pruning_candidates(&self, top: u64) -> Seq<BlockHash> {
        hashes_of(self.blocks()).filter(|x: BlockHash| sat_diff(top, self.blue_score_of(x)) >= self.cfg().safe_reorg_depth)
    }

    /// The pruning point after an update from `prev`: the smallest
    /// candidate below the blue score of the virtual selected parent, or
    /// `prev` when there are no tips or no candidates.
    pub open spec fn next_pruning(&self, prev: Option<BlockHash>) -> Option<BlockHash> {
        let tips = tips_seq(self.blocks());
        if tips.len() == 0 {
            prev
        } else {
            let c = self.pruning_candidates(self.blue_score_of(self.best_of(tips)));
            if c.len() == 0 {
                prev
            } else {
                Some(choose|p: BlockHash| is_least_hash(c, p))
            }
        }
    }

    /// Every parent of `block` is in the DAG.
    pub open spec fn parents_known(&self, block: Block) -> bool {
        forall|k: int|
            0 <= k < block.header.parent_hashes@.len() ==> contains_hash(
                self.blocks(),
                #[trigger] block.header.parent_hashes@[k],
            )
    }

    /// A block passes validation: its parents are all known, their merge
    /// depth is at most the configured maximum, and the DAG is not denser
    /// than the configured density.
    pub open spec fn block_valid(&self, block: Block) -> bool {
        let ps = block.header.parent_hashes@;
        &&& self.parents_known(block)
        &&& self.merge_depth(ps) <= self.cfg().max_merge_depth
        &&& !dense_spec(self.blocks(), self.cfg().max_dag_density_ppm)
    }

    /// A manager over `dag` with empty caches and no pruning point.
    pub fn new(config: GhostDagConfig, dag: BlockDAG) -> (m: Self)
        requires
            dag.wf(),
        ensures
            m.wf(),
            m.blocks() == dag@,
            m.cfg() == config,
            m.pruning() is None,
            forall|h: BlockHash| #[trigger] m.cached_blue_score(h) is None,
            forall|h: BlockHash| #[trigger] m.cached_past(h) is None,
            forall|key: (BlockHash, BlockHash)| #[trigger] m.cached_merge(key) is None,
    {
        GhostDagManager {
            config,
            dag,
            blue_score_cache: Vec::new(),
            past_set_cache: Vec::new(),
            future_set_cache: Vec::new(),
            merge_set_cache: Vec::new(),
            pruning_point: None,
        }
    }

    /// Replace the DAG; the caches are kept.
    pub fn attach_dag(&mut self, dag: BlockDAG)
        requires
            dag.wf(),
        ensures
            final(self).wf(),
            final(self).blocks() == dag@,
            final(self).cfg() == old(self).cfg(),
            final(self).pruning() == old(self).pruning(),
            forall|h: BlockHash| #[trigger] final(self).cached_blue_score(h) == old(self).cached_blue_score(h),
            forall|h: BlockHash| #[trigger] final(self).cached_past(h) == old(self).cached_past(h),
            forall|key: (BlockHash, BlockHash)| #[trigger] final(self).cached_merge(key) == old(self).cached_merge(key),
    {
        self.dag = dag;
    }

    /// The recorded pruning point.
    pub fn get_pruning_point(&self) -> (r: Option<BlockHash>)
        ensures
            r == self.pruning(),
    {
        self.pruning_point
    }

    /// Current tips of the DAG.
    pub fn get_tips(&self) -> (r: Result<Vec<BlockHash>, String>)
        ensures
            r matches Ok(v) && v@ == tips_seq(self.blocks()),
    {
        Ok(self.dag.get_tips())
    }

    /// The first tip, or the zero hash for an empty DAG.
    pub fn get_virtual_selected_parent(&self) -> (r: BlockHash)
        ensures
            tips_seq(self.blocks()).len() > 0 ==> r == tips_seq(self.blocks())[0],
            tips_seq(self.blocks()).len() == 0 ==> r@ == seq![0u8; 32],
    {
        let tips = self.dag.get_tips();
        if tips.len() > 0 {
            tips[0]
        } else {
            let z = [0u8; 32];
            assert(z@ =~= seq![0u8; 32]);
            z
        }
    }

    /// Blue score recorded in the header of a block; an error when the
    /// block is unknown.
    pub fn get_blue_score(&self, hash: &BlockHash) -> (r: Result<u64, String>)
        requires
            self.wf(),
        ensures
            contains_hash(self.blocks(), *hash) ==> r == Ok::<u64, String>(self.blocks()[hash_index(self.blocks(), *hash)->0].header.blue_score),
            !contains_hash(self.blocks(), *hash) ==> (r matches Err(e) && e@ == "Blue score for block "@ + hex_spec(hash@)
                + " unavailable"@),
    {
        match self.dag.get_block(hash) {
            Some(b) => Ok(b.header.blue_score),
            None => Err(hash_message("Blue score for block ", hash, " unavailable")),
        }
    }

    /// Header blue score of the first tip; 0 without tips or when unknown.
    pub fn get_virtual_blue_score(&self) -> (r: u64)
        requires
            self.wf(),
        ensures
            r == (if tips_seq(self.blocks()).len() > 0 && contains_hash(self.blocks(), tips_seq(self.blocks())[0]) {
                self.blocks()[hash_index(self.blocks(), tips_seq(self.blocks())[0])->0].header.blue_score
            } else {
                0
            }),
    {
        let tips = self.dag.get_tips();
        if tips.len() > 0 {
            match self.get_blue_score(&tips[0]) {
                Ok(v) => v,
                Err(_) => 0,
            }
        } else {
            0
        }
    }

    /// Annotation of a block is left to the GHOSTDAG engine: nothing changes.
    pub fn annotate_block(&self, _dag: &BlockDAG, _block: &mut Block) -> (r: Result<(), String>)
        ensures
            r.is_ok(),
            *final(_block) == *old(_block),
    {
        Ok(())
    }

    /// Deterministic ordering: every block's hash, ascending.
    pub fn generate_ordering(&self) -> (r: Result<Vec<BlockHash>, String>)
        ensures
            r matches Ok(v) && hashes_sorted(v@) && v@.to_multiset() == hashes_of(self.blocks()).to_multiset(),
    {
        let ordering = self.dag.get_topological_order();
        Ok(sort_hashes(&ordering))
    }

    /// Blue set of a block with the configured `k`.
    pub fn select_blue_set(&self, block_hash: &BlockHash) -> (r: Result<Vec<BlockHash>, String>)
        requires
            self.wf(),
        ensures
            r matches Ok(v) && v@ == blue_seq(self.blocks(), *block_hash, self.cfg().k as nat),
    {
        let blue_set = BlueSet::new(self.config.k);
        Ok(blue_set.build_blue_set(&self.dag, block_hash))
    }
}


impl GhostDagManager {
    /// Blue score of a block: the cached one, else counted (the block
    /// itself when its anticone has at most `k` blocks, plus each proper
    /// ancestor whose anticone relative to it has at most `k` blocks) and
    /// cached.
    pub fn compute_blue_score(&mut self, block_hash: &BlockHash) -> (r: Result<u64, String>)
        requires
            old(self).wf(),
        ensures
            final(self).wf(),
            final(self).blocks() == old(self).blocks(),
            final(self).cfg() == old(self).cfg(),
            final(self).pruning() == old(self).pruning(),
            r == Ok::<u64, String>(old(self).blue_score_of(*block_hash)),
            final(self).cached_blue_score(*block_hash) == Some(old(self).blue_score_of(*block_hash)),
            forall|h: BlockHash| #[trigger] final(self).blue_score_of(h) == old(self).blue_score_of(h),
            forall|h: BlockHash| #[trigger] final(self).past_of(h) == old(self).past_of(h),
            forall|a: BlockHash, b: BlockHash| #[trigger] final(self).merge_of(a, b) == old(self).merge_of(a, b),
    {
        match find_score(&self.blue_score_cache, block_hash) {
            Some(t) => {
                proof {
                    lemma_first_entry(self.blue_score_cache@, *block_hash);
                    match first_entry(self.blue_score_cache@, *block_hash) {
                        Some(x) => {
                            if x < t {
                                assert(self.blue_score_cache@[x].0 != *block_hash);
                            } else if x > t {
                                assert(self.blue_score_cache@[t as int].0 != *block_hash);
                            }
                        },
                        None => {
                            assert(self.blue_score_cache@[t as int].0 != *block_hash);
                        },
                    }
                }
                return Ok(self.blue_score_cache[t].1);
            },
            None => {},
        }
        let score = compute_blue_score(&self.dag, block_hash, self.config.k);
        let ghost before = *self;
        proof {
            lemma_first_entry(self.blue_score_cache@, *block_hash);
            if first_entry(self.blue_score_cache@, *block_hash) is Some {
                let x = first_entry(self.blue_score_cache@, *block_hash)->0;
                assert(self.blue_score_cache@[x].0 != *block_hash);
            }
        }
        self.blue_score_cache.push((*block_hash, score));
        proof {
            assert forall|h: BlockHash| #[trigger] self.blue_score_of(h) == before.blue_score_of(h) by {
                lemma_first_entry_push(before.blue_score_cache@, (*block_hash, score), h);
                if h == *block_hash {
                    assert(self.blue_score_cache@[before.blue_score_cache@.len() as int] == (*block_hash, score));
                } else {
                    match first_entry(before.blue_score_cache@, h) {
                        Some(t) => {
                            lemma_first_entry(before.blue_score_cache@, h);
                            assert(self.blue_score_cache@[t] == before.blue_score_cache@[t]);
                        },
                        None => {},
                    }
                }
            }
            lemma_first_entry_push(before.blue_score_cache@, (*block_hash, score), *block_hash);
            assert(self.blue_score_cache@[before.blue_score_cache@.len() as int] == (*block_hash, score));
        }
        Ok(score)
    }

    /// Past set of a block: the cached one, else its proper ancestors,
    /// cached.
    fn get_past_set(&mut self, block_hash: &BlockHash) -> (r: Result<Vec<BlockHash>, String>)
        requires
            old(self).wf(),
        ensures
            final(self).wf(),
            final(self).blocks() == old(self).blocks(),
            final(self).cfg() == old(self).cfg(),
            final(self).pruning() == old(self).pruning(),
            r matches Ok(v) && v@ == old(self).past_of(*block_hash),
            final(self).blue_score_cache@ == old(self).blue_score_cache@,
            final(self).merge_set_cache@ == old(self).merge_set_cache@,
            forall|h: BlockHash| #[trigger] final(self).blue_score_of(h) == old(self).blue_score_of(h),
            forall|h: BlockHash| #[trigger] final(self).past_of(h) == old(self).past_of(h),
            forall|a: BlockHash, b: BlockHash| #[trigger] final(self).merge_of(a, b) == old(self).merge_of(a, b),
    {
        match find_key(&self.past_set_cache, block_hash) {
            Some(t) => {
                return Ok(copy_vec(&self.past_set_cache[t].1));
            },
            None => {},
        }
        let past = DAGTraversal::get_ancestors(&self.dag, block_hash);
        let ghost before = *self;
        let stored = copy_vec(&past);
        self.past_set_cache.push((*block_hash, stored));
        proof {
            assert forall|h: BlockHash| #[trigger] self.past_of(h) == before.past_of(h) by {
                lemma_first_entry_push(before.past_set_cache@, (*block_hash, stored), h);
                if h == *block_hash {
                    assert(self.past_set_cache@[before.past_set_cache@.len() as int].1@ == stored@);
                } else {
                    match first_entry(before.past_set_cache@, h) {
                        Some(t) => {
                            lemma_first_entry(before.past_set_cache@, h);
                            assert(self.past_set_cache@[t] == before.past_set_cache@[t]);
                        },
                        None => {},
                    }
                }
            }
            assert forall|a: BlockHash, b: BlockHash| #[trigger] self.merge_of(a, b) == before.merge_of(a, b) by {
                let key = merge_key(a, b);
                assert(self.past_of(key.0) == before.past_of(key.0));
                assert(self.past_of(key.1) == before.past_of(key.1));
                assert((|h: BlockHash| self.past_of(key.1).contains(h)) =~= (|h: BlockHash| before.past_of(key.1).contains(h)));
            }
        }
        Ok(past)
    }
}

impl GhostDagManager {
    /// Merge set of two blocks: the cached one for their ordered pair, else
    /// the blocks of the past of the smaller hash that are also in the past
    /// of the other, cached under the pair.
    pub fn compute_merge_set(&mut self, block_a: &BlockHash, block_b: &BlockHash) -> (r: Result<Vec<BlockHash>, String>)
        requires
            old(self).wf(),
        ensures
            final(self).wf(),
            final(self).blocks() == old(self).blocks(),
            final(self).cfg() == old(self).cfg(),
            final(self).pruning() == old(self).pruning(),
            r matches Ok(v) && v@ == old(self).merge_of(*block_a, *block_b),
            final(self).cached_merge(merge_key(*block_a, *block_b)) == Some(old(self).merge_of(*block_a, *block_b)),
            forall|h: BlockHash| #[trigger] final(self).blue_score_of(h) == old(self).blue_score_of(h),
            forall|h: BlockHash| #[trigger] final(self).past_of(h) == old(self).past_of(h),
            forall|a: BlockHash, b: BlockHash| #[trigger] final(self).merge_of(a, b) == old(self).merge_of(a, b),
    {
        let key: (BlockHash, BlockHash) = if hash_lt(block_a, block_b) {
            (*block_a, *block_b)
        } else {
            (*block_b, *block_a)
        };
        assert(key == merge_key(*block_a, *block_b));
        match find_pair(&self.merge_set_cache, &key.0, &key.1) {
            Some(t) => {
                proof {
                    lemma_first_entry(self.merge_set_cache@, key);
                    match first_entry(self.merge_set_cache@, key) {
                        Some(x) => {
                            if x < t {
                                assert(self.merge_set_cache@[x].0 != key);
                            } else if x > t {
                                assert(self.merge_set_cache@[t as int].0 != key);
                            }
                        },
                        None => {
                            assert(self.merge_set_cache@[t as int].0 != key);
                        },
                    }
                }
                return Ok(copy_vec(&self.merge_set_cache[t].1));
            },
            None => {},
        }
        proof {
            lemma_first_entry(self.merge_set_cache@, key);
            if first_entry(self.merge_set_cache@, key) is Some {
                let x = first_entry(self.merge_set_cache@, key)->0;
                assert(self.merge_set_cache@[x].0 != key);
            }
        }
        let ghost start = *self;
        let past_first = match self.get_past_set(&key.0) {
            Ok(v) => v,
            Err(e) => return Err(e),
        };
        let past_second = match self.get_past_set(&key.1) {
            Ok(v) => v,
            Err(e) => return Err(e),
        };
        let merge = intersect_in_order(&past_first, &past_second);
        let ghost before = *self;
        assert(first_entry(before.merge_set_cache@, key) is None);
        let stored = copy_vec(&merge);
        self.merge_set_cache.push((key, stored));
        proof {
            assert((|h: BlockHash| past_second@.contains(h)) =~= (|h: BlockHash| start.past_of(key.1).contains(h)));
            assert forall|a: BlockHash, b: BlockHash| #[trigger] self.merge_of(a, b) == before.merge_of(a, b) by {
                let k = merge_key(a, b);
                lemma_first_entry_push(before.merge_set_cache@, (key, stored), k);
                if k == key {
                    assert(self.merge_set_cache@[before.merge_set_cache@.len() as int].1@ == stored@);
                } else {
                    match first_entry(before.merge_set_cache@, k) {
                        Some(t) => {
                            lemma_first_entry(before.merge_set_cache@, k);
                            assert(self.merge_set_cache@[t] == before.merge_set_cache@[t]);
                        },
                        None => {},
                    }
                }
            }
            lemma_first_entry_push(before.merge_set_cache@, (key, stored), key);
            assert(self.merge_set_cache@[before.merge_set_cache@.len() as int].1@ == stored@);
            assert forall|h: BlockHash| #[trigger] self.blue_score_of(h) == start.blue_score_of(h) by {
                assert(self.cached_blue_score(h) == before.cached_blue_score(h));
                assert(before.blue_score_of(h) == start.blue_score_of(h));
            }
            assert forall|h: BlockHash| #[trigger] self.past_of(h) == start.past_of(h) by {
                assert(self.cached_past(h) == before.cached_past(h));
                assert(before.past_of(h) == start.past_of(h));
            }
        }
        Ok(merge)
    }
}

impl GhostDagManager {
    /// Virtual selected parent among tips: the tip with the highest blue
    /// score, ties broken by the smallest hash; an error without tips.
    pub fn compute_virtual_selected_parent(&mut self, tips: &[BlockHash]) -> (r: Result<BlockHash, String>)
        requires
            old(self).wf(),
        ensures
            final(self).same_views(*old(self)),
            tips@.len() == 0 ==> (r matches Err(e) && e@ == "No tips provided"@),
            tips@.len() > 0 ==> r == Ok::<BlockHash, String>(old(self).best_of(tips@)),
    {
        let ghost start = *self;
        if tips.len() == 0 {
            return Err("No tips provided".to_string());
        }
        if tips.len() == 1 {
            proof {
                assert(is_best_index(tips@, start.scores_of(tips@), 0));
                let b = choose|b: int| is_best_index(tips@, start.scores_of(tips@), b);
                lemma_best_index_unique(tips@, start.scores_of(tips@), 0, b);
            }
            return Ok(tips[0]);
        }
        let mut scores: Vec<u64> = Vec::new();
        let mut i: usize = 0;
        while i < tips.len()
            invariant
                self.wf(),
                self.same_views(start),
                i <= tips@.len(),
                scores@ == start.scores_of(tips@).take(i as int),
            decreases tips@.len() - i,
        {
            let v = match self.compute_blue_score(&tips[i]) {
                Ok(v) => v,
                Err(e) => return Err(e),
            };
            scores.push(v);
            i = i + 1;
            assert(scores@ =~= start.scores_of(tips@).take(i as int));
        }
        assert(scores@ =~= start.scores_of(tips@));
        let b = best_by_score(tips, scores.as_slice());
        proof {
            let c = choose|c: int| is_best_index(tips@, start.scores_of(tips@), c);
            lemma_best_index_unique(tips@, start.scores_of(tips@), b as int, c);
        }
        Ok(tips[b])
    }

    /// Whether a block is final: the blue score of the virtual selected
    /// parent exceeds its own by more than the finality threshold; an error
    /// without tips.
    pub fn is_final(&mut self, block_hash: &BlockHash) -> (r: Result<bool, String>)
        requires
            old(self).wf(),
        ensures
            final(self).same_views(*old(self)),
            tips_seq(old(self).blocks()).len() == 0 ==> r.is_err(),
            tips_seq(old(self).blocks()).len() > 0 ==> r == Ok::<bool, String>(
                old(self).blue_score_of(old(self).best_of(tips_seq(old(self).blocks()))) - old(self).blue_score_of(*block_hash)
                    > old(self).cfg().finality_threshold,
            ),
    {
        let ghost start = *self;
        let current = match self.compute_blue_score(block_hash) {
            Ok(v) => v,
            Err(e) => return Err(e),
        };
        let tips = match self.get_tips() {
            Ok(t) => t,
            Err(e) => return Err(e),
        };
        assert(self.scores_of(tips@) =~= start.scores_of(tips@));
        let parent = match self.compute_virtual_selected_parent(tips.as_slice()) {
            Ok(p) => p,
            Err(e) => return Err(e),
        };
        let top = match self.compute_blue_score(&parent) {
            Ok(v) => v,
            Err(e) => return Err(e),
        };
        let distance = top.saturating_sub(current);
        Ok(distance > self.config.finality_threshold)
    }
}

/// `a - b`, or 0 when `b` is larger.
pub open spec fn sat_diff(a: u64, b: u64) -> nat {
    if a >= b {
        (a - b) as nat
    } else {
        0
    }
}

/// `p` is the smallest hash of `c`.
pub open spec fn is_least_hash(c: Seq<BlockHash>, p: BlockHash) -> bool {
    &&& c.contains(p)
    &&& forall|x: BlockHash| #[trigger] c.contains(x) ==> lex_le(p@, x@)
}

/// A list has at most one smallest hash.
pub proof fn lemma_least_hash_unique(c: Seq<BlockHash>, p: BlockHash, q: BlockHash)
    requires
        is_least_hash(c, p),
        is_least_hash(c, q),
    ensures
        p == q,
{
    lemma_hash_le_antisym(p, q);
}

/// The merge depth of a list is unique.
pub proof fn lemma_merge_depth_unique(m: GhostDagManager, ps: Seq<BlockHash>, d1: nat, d2: nat)
    requires
        m.merge_depth_ok(ps, d1),
        m.merge_depth_ok(ps, d2),
    ensures
        d1 == d2,
{
    if ps.len() > 1 {
        let (i1, j1) = choose|i: int, j: int| 0 <= i < j < ps.len() && #[trigger] m.merge_of(ps[i], ps[j]).len() == d1;
        let (i2, j2) = choose|i: int, j: int| 0 <= i < j < ps.len() && #[trigger] m.merge_of(ps[i], ps[j]).len() == d2;
        assert(m.merge_of(ps[i1], ps[j1]).len() <= d2);
        assert(m.merge_of(ps[i2], ps[j2]).len() <= d1);
    }
}

/// The merge set of two blocks does not depend on their order.
pub proof fn lemma_merge_of_symmetric(m: GhostDagManager, a: BlockHash, b: BlockHash)
    ensures
        m.merge_of(a, b) == m.merge_of(b, a),
{
    crate::consensus::blue_set_manager::lemma_merge_key_symmetric(a, b);
}

/// Two managers with the same DAG and blue scores and merge sets judge
/// attacks alike.
proof fn lemma_same_attack_views(a: GhostDagManager, b: GhostDagManager, h: BlockHash)
    requires
        a.blocks() == b.blocks(),
        forall|x: BlockHash| #[trigger] a.blue_score_of(x) == b.blue_score_of(x),
        forall|x: BlockHash, y: BlockHash| #[trigger] a.merge_of(x, y) == b.merge_of(x, y),
    ensures
        a.selfish_spec(h) == b.selfish_spec(h),
        a.parasite_spec(h) == b.parasite_spec(h),
{
    let tips = tips_seq(a.blocks());
    assert(a.scores_of(tips) =~= b.scores_of(tips));
    if a.selfish_spec(h) {
        let j = choose|j: int|
            0 <= j < a.parents_listed(h).len() && a.blue_score_of(h) > a.blue_score_of(#[trigger] a.parents_listed(h)[j]) + 10;
        assert(b.blue_score_of(b.parents_listed(h)[j]) == a.blue_score_of(a.parents_listed(h)[j]));
    }
    if b.selfish_spec(h) {
        let j = choose|j: int|
            0 <= j < b.parents_listed(h).len() && b.blue_score_of(h) > b.blue_score_of(#[trigger] b.parents_listed(h)[j]) + 10;
        assert(b.blue_score_of(b.parents_listed(h)[j]) == a.blue_score_of(a.parents_listed(h)[j]));
    }
}

/// Two managers with the same DAG, configuration and blue scores move the
/// pruning point alike.
proof fn lemma_same_next_pruning(a: GhostDagManager, b: GhostDagManager, prev: Option<BlockHash>)
    requires
        a.blocks() == b.blocks(),
        a.cfg() == b.cfg(),
        forall|x: BlockHash| #[trigger] a.blue_score_of(x) == b.blue_score_of(x),
    ensures
        a.next_pruning(prev) == b.next_pruning(prev),
{
    let tips = tips_seq(a.blocks());
    assert(a.scores_of(tips) =~= b.scores_of(tips));
    let top = a.blue_score_of(a.best_of(tips));
    assert(top == b.blue_score_of(b.best_of(tips)));
    assert((|x: BlockHash| sat_diff(top, a.blue_score_of(x)) >= a.cfg().safe_reorg_depth) =~= (|x: BlockHash| sat_diff(top, b.blue_score_of(x))
        >= b.cfg().safe_reorg_depth));
    assert(a.pruning_candidates(top) == b.pruning_candidates(top));
}

/// Remove every entry with key `h`; every other key keeps its first value.
fn drop_key<V>(c: &mut Vec<(BlockHash, V)>, h: &BlockHash)
    ensures
        first_entry(final(c)@, *h) is None,
        forall|k: BlockHash| k != *h ==> #[trigger] entry_value(final(c)@, k) == entry_value(old(c)@, k),
{
    let ghost start = c@;
    loop
        invariant
            forall|k: BlockHash| k != *h ==> #[trigger] entry_value(c@, k) == entry_value(start, k),
        ensures
            first_entry(c@, *h) is None,
            forall|k: BlockHash| k != *h ==> #[trigger] entry_value(c@, k) == entry_value(start, k),
        decreases c@.len(),
    {
        match find_key(c, h) {
            Some(t) => {
                let ghost before = c@;
                c.remove(t);
                proof {
                    assert(c@ == before.remove(t as int));
                    assert forall|k: BlockHash| k != *h implies #[trigger] entry_value(c@, k) == entry_value(start, k) by {
                        lemma_entry_value_remove(before, t as int, k);
                    }
                }
            },
            None => {
                break;
            },
        }
    }
}

impl GhostDagManager {
    /// Detect attack patterns on a block: selfish mining (its blue score
    /// exceeds a parent's by more than ten), then a parasite chain (its
    /// merge set with the virtual selected parent has fewer than five
    /// blocks).
    pub fn detect_attack_patterns(&mut self, block_hash: &BlockHash) -> (r: Result<(), String>)
        requires
            old(self).wf(),
        ensures
            final(self).same_views(*old(self)),
            old(self).selfish_spec(*block_hash) ==> (r matches Err(e) && e@ == "Detected selfish mining attack"@),
            !old(self).selfish_spec(*block_hash) && tips_seq(old(self).blocks()).len() == 0 ==> (r matches Err(e) && e@
                == "No tips provided"@),
            !old(self).selfish_spec(*block_hash) && tips_seq(old(self).blocks()).len() > 0 ==> (if old(self).parasite_spec(
                *block_hash,
            ) {
                r matches Err(e) && e@ == "Detected parasite chain attack"@
            } else {
                r is Ok
            }),
    {
        let ghost start = *self;
        let blue = match self.compute_blue_score(block_hash) {
            Ok(v) => v,
            Err(e) => return Err(e),
        };
        let parents = DAGTraversal::get_parents(&self.dag, block_hash);
        assert(parents@ == start.parents_listed(*block_hash));
        let mut i: usize = 0;
        while i < parents.len()
            invariant
                self.wf(),
                self.same_views(start),
                start == *old(self),
                parents@ == start.parents_listed(*block_hash),
                blue == start.blue_score_of(*block_hash),
                i <= parents@.len(),
                forall|j: int| 0 <= j < i ==> !(blue > start.blue_score_of(#[trigger] parents@[j]) + 10),
            decreases parents@.len() - i,
        {
            let ps = match self.compute_blue_score(&parents[i]) {
                Ok(v) => v,
                Err(e) => return Err(e),
            };
            if ps <= u64::MAX - 10 && blue > ps + 10 {
                assert(start.blue_score_of(*block_hash) > start.blue_score_of(start.parents_listed(*block_hash)[i as int]) + 10);
                return Err("Detected selfish mining attack".to_string());
            }
            i = i + 1;
        }
        assert(!start.selfish_spec(*block_hash));
        let tips = match self.get_tips() {
            Ok(t) => t,
            Err(e) => return Err(e),
        };
        assert(self.scores_of(tips@) =~= start.scores_of(tips@));
        let parent = match self.compute_virtual_selected_parent(tips.as_slice()) {
            Ok(p) => p,
            Err(e) => return Err(e),
        };
        let merge = match self.compute_merge_set(block_hash, &parent) {
            Ok(m) => m,
            Err(e) => return Err(e),
        };
        if merge.len() < 5 {
            return Err("Detected parasite chain attack".to_string());
        }
        Ok(())
    }

    /// Merge depth of a list of parents: the largest merge set of two of
    /// them, 0 with fewer than two.
    fn compute_merge_depth(&mut self, parents: &[BlockHash]) -> (r: Result<usize, String>)
        requires
            old(self).wf(),
        ensures
            final(self).same_views(*old(self)),
            r matches Ok(d) && old(self).merge_depth_ok(parents@, d as nat),
    {
        let ghost start = *self;
        let n = parents.len();
        if n <= 1 {
            return Ok(0);
        }
        let mut max_depth: usize = 0;
        let ghost mut wi: int = 0;
        let ghost mut wj: int = 0;
        let ghost mut has_w: bool = false;
        let mut i: usize = 0;
        while i < n
            invariant
                self.wf(),
                self.same_views(start),
                n == parents@.len(),
                n > 1,
                i <= n,
                forall|a: int, b: int| 0 <= a < b < n && a < i ==> #[trigger] start.merge_of(parents@[a], parents@[b]).len() <= max_depth,
                has_w ==> 0 <= wi < wj < n && start.merge_of(parents@[wi], parents@[wj]).len() == max_depth,
                !has_w ==> i == 0 && max_depth == 0,
            decreases n - i,
        {
            let mut j: usize = i + 1;
            while j < n
                invariant
                    self.wf(),
                    self.same_views(start),
                    n == parents@.len(),
                    n > 1,
                    i < n,
                    i + 1 <= j <= n,
                    forall|a: int, b: int|
                        0 <= a < b < n && (a < i || (a == i && b < j)) ==> #[trigger] start.merge_of(parents@[a], parents@[b]).len() <= max_depth,
                    has_w ==> 0 <= wi < wj < n && start.merge_of(parents@[wi], parents@[wj]).len() == max_depth,
                    !has_w ==> i == 0 && j == 1 && max_depth == 0,
                decreases n - j,
            {
                let m = match self.compute_merge_set(&parents[i], &parents[j]) {
                    Ok(m) => m,
                    Err(e) => return Err(e),
                };
                if m.len() >= max_depth {
                    max_depth = m.len();
                    proof {
                        wi = i as int;
                        wj = j as int;
                        has_w = true;
                    }
                }
                j = j + 1;
            }
            i = i + 1;
        }
        Ok(max_depth)
    }

    /// Drop the cached blue score and past set of a block.
    fn update_caches(&mut self, block_hash: &BlockHash)
        requires
            old(self).wf(),
        ensures
            final(self).wf(),
            final(self).blocks() == old(self).blocks(),
            final(self).cfg() == old(self).cfg(),
            final(self).pruning() == old(self).pruning(),
            final(self).cached_blue_score(*block_hash) is None,
            final(self).cached_past(*block_hash) is None,
            forall|h: BlockHash| h != *block_hash ==> #[trigger] final(self).cached_blue_score(h) == old(self).cached_blue_score(h),
            forall|h: BlockHash| h != *block_hash ==> #[trigger] final(self).cached_past(h) == old(self).cached_past(h),
            forall|key: (BlockHash, BlockHash)| #[trigger] final(self).cached_merge(key) == old(self).cached_merge(key),
    {
        let ghost start = *self;
        drop_key(&mut self.blue_score_cache, block_hash);
        drop_key(&mut self.past_set_cache, block_hash);
        drop_key(&mut self.future_set_cache, block_hash);
        proof {
            assert forall|h: BlockHash| h != *block_hash implies #[trigger] self.cached_blue_score(h) == start.cached_blue_score(h) by {
                assert(entry_value(self.blue_score_cache@, h) == entry_value(start.blue_score_cache@, h));
            }
            assert forall|h: BlockHash| h != *block_hash implies #[trigger] self.cached_past(h) == start.cached_past(h) by {
                assert(entry_value(self.past_set_cache@, h) == entry_value(start.past_set_cache@, h));
            }
        }
    }
}

impl GhostDagManager {
    /// Move the pruning point to the smallest block whose blue score lies
    /// at least the safe reorganisation depth below that of the virtual
    /// selected parent; kept when there are no tips or no such block.
    pub fn update_pruning_point(&mut self)
        requires
            old(self).wf(),
        ensures
            final(self).wf(),
            final(self).blocks() == old(self).blocks(),
            final(self).cfg() == old(self).cfg(),
            final(self).pruning() == old(self).next_pruning(old(self).pruning()),
            forall|h: BlockHash| #[trigger] final(self).blue_score_of(h) == old(self).blue_score_of(h),
            forall|h: BlockHash| #[trigger] final(self).past_of(h) == old(self).past_of(h),
            forall|a: BlockHash, b: BlockHash| #[trigger] final(self).merge_of(a, b) == old(self).merge_of(a, b),
    {
        let ghost start = *self;
        let tips = match self.get_tips() {
            Ok(t) => t,
            Err(_) => return,
        };
        if tips.len() == 0 {
            return;
        }
        let parent = match self.compute_virtual_selected_parent(tips.as_slice()) {
            Ok(p) => p,
            Err(_) => tips[0],
        };
        let top = match self.compute_blue_score(&parent) {
            Ok(v) => v,
            Err(_) => 0,
        };
        let ghost pred = |x: BlockHash| sat_diff(top, start.blue_score_of(x)) >= start.cfg().safe_reorg_depth;
        let ghost all_h = hashes_of(start.blocks());
        let all = DAGTraversal::get_all_blocks(&self.dag);
        let depth: u64 = self.config.safe_reorg_depth as u64;
        let mut candidate: Option<BlockHash> = None;
        let mut i: usize = 0;
        proof {
            reveal_with_fuel(Seq::filter, 1);
            assert(all@.take(0) =~= Seq::<BlockHash>::empty());
        }
        while i < all.len()
            invariant
                self.wf(),
                self.same_views(start),
                all@ == all_h,
                all_h == hashes_of(start.blocks()),
                depth == start.cfg().safe_reorg_depth,
                pred == (|x: BlockHash| sat_diff(top, start.blue_score_of(x)) >= start.cfg().safe_reorg_depth),
                i <= all@.len(),
                match candidate {
                    None => all@.take(i as int).filter(pred).len() == 0,
                    Some(c) => is_least_hash(all@.take(i as int).filter(pred), c),
                },
            decreases all@.len() - i,
        {
            let h = all[i];
            let score = match self.compute_blue_score(&h) {
                Ok(v) => v,
                Err(_) => 0,
            };
            let ghost prev = all@.take(i as int).filter(pred);
            proof {
                reveal_with_fuel(Seq::filter, 1);
                assert(all@.take(i + 1).drop_last() =~= all@.take(i as int));
                assert(all@.take(i + 1).last() == h);
            }
            if top.saturating_sub(score) >= depth {
                assert(pred(h));
                assert(all@.take(i + 1).filter(pred) == prev.push(h));
                let better = match candidate {
                    None => true,
                    Some(c) => hash_lt(&h, &c),
                };
                proof {
                    let next = prev.push(h);
                    match candidate {
                        None => {
                            assert(prev =~= Seq::<BlockHash>::empty());
                            if better {
                                assert forall|x: BlockHash| #[trigger] next.contains(x) implies lex_le(h@, x@) by {
                                    let u = choose|u: int| 0 <= u < next.len() && next[u] == x;
                                }
                                assert(next[prev.len() as int] == h);
                            }
                        },
                        Some(c) => {
                            assert(next[prev.len() as int] == h);
                            if better {
                                assert forall|x: BlockHash| #[trigger] next.contains(x) implies lex_le(h@, x@) by {
                                    let u = choose|u: int| 0 <= u < next.len() && next[u] == x;
                                    if u < prev.len() {
                                        assert(prev.contains(x));
                                        lemma_lex_le_trans(h@, c@, x@);
                                    }
                                }
                            } else {
                                lemma_lex_total(h@, c@);
                                assert(prev.contains(c));
                                let v = choose|v: int| 0 <= v < prev.len() && prev[v] == c;
                                assert(next[v] == c);
                                assert forall|x: BlockHash| #[trigger] next.contains(x) implies lex_le(c@, x@) by {
                                    let u = choose|u: int| 0 <= u < next.len() && next[u] == x;
                                    if u < prev.len() {
                                        assert(prev.contains(x));
                                    }
                                }
                            }
                        },
                    }
                }
                if better {
                    candidate = Some(h);
                }
            } else {
                assert(!pred(h));
                assert(all@.take(i + 1).filter(pred) == prev);
            }
            i = i + 1;
        }
        proof {
            assert(all@.take(all@.len() as int) =~= all@);
            assert(self.scores_of(tips@) =~= start.scores_of(tips@));
            let c = start.pruning_candidates(top);
            assert((|x: BlockHash| sat_diff(top, start.blue_score_of(x)) >= start.cfg().safe_reorg_depth) == pred);
            assert(c == all@.filter(pred));
            match candidate {
                Some(p) => {
                    let q = choose|q: BlockHash| is_least_hash(c, q);
                    lemma_least_hash_unique(c, p, q);
                },
                None => {},
            }
        }
        let ghost before = *self;
        match candidate {
            Some(p) => {
                self.pruning_point = Some(p);
            },
            None => {},
        }
        proof {
            assert forall|h: BlockHash| #[trigger] self.blue_score_of(h) == start.blue_score_of(h) by {
                assert(self.cached_blue_score(h) == before.cached_blue_score(h));
                assert(before.blue_score_of(h) == start.blue_score_of(h));
            }
            assert forall|h: BlockHash| #[trigger] self.past_of(h) == start.past_of(h) by {
                assert(self.cached_past(h) == before.cached_past(h));
                assert(before.past_of(h) == start.past_of(h));
            }
            assert forall|a: BlockHash, b: BlockHash| #[trigger] self.merge_of(a, b) == start.merge_of(a, b) by {
                let key = merge_key(a, b);
                assert(self.cached_merge(key) == before.cached_merge(key));
                assert(self.past_of(key.0) == before.past_of(key.0));
                assert(self.past_of(key.1) == before.past_of(key.1));
                assert(self.merge_of(a, b) == before.merge_of(a, b));
                assert(before.merge_of(a, b) == start.merge_of(a, b));
            }
        }
    }
}

impl GhostDagManager {
    /// Validate a block before it joins the DAG: every parent is known,
    /// the merge depth of its parents is at most the maximum, and the DAG
    /// is not denser than the maximum density.
    fn validate_block(&mut self, block: &Block) -> (r: Result<(), String>)
        requires
            old(self).wf(),
        ensures
            final(self).same_views(*old(self)),
            r.is_ok() <==> old(self).block_valid(*block),
            ({
                let ps = block.header.parent_hashes@;
                forall|k: int|
                    0 <= k < ps.len() && !contains_hash(old(self).blocks(), #[trigger] ps[k]) && (forall|j: int|
                        0 <= j < k ==> contains_hash(old(self).blocks(), ps[j])) ==> (r matches Err(e) && e@ == "Parent block "@
                        + hex_spec(ps[k]@) + " not found"@)
            }),
            old(self).parents_known(*block) && old(self).merge_depth(block.header.parent_hashes@)
                > old(self).cfg().max_merge_depth ==> (r matches Err(e) && e@ == merge_depth_message(
                old(self).merge_depth(block.header.parent_hashes@),
                old(self).cfg().max_merge_depth as nat,
            )),
    {
        let ghost start = *self;
        let ps = &block.header.parent_hashes;
        let mut k: usize = 0;
        while k < ps.len()
            invariant
                self.wf(),
                *self == start,
                start == *old(self),
                *ps == block.header.parent_hashes,
                k <= ps@.len(),
                forall|m: int| 0 <= m < k ==> contains_hash(start.blocks(), #[trigger] ps@[m]),
            decreases ps@.len() - k,
        {
            if self.dag.get_block(&ps[k]).is_none() {
                assert(!contains_hash(start.blocks(), ps@[k as int]));
                proof {
                    assert forall|k2: int|
                        0 <= k2 < ps@.len() && !contains_hash(start.blocks(), #[trigger] ps@[k2]) && (forall|j: int|
                            0 <= j < k2 ==> contains_hash(start.blocks(), ps@[j])) implies k2 == k by {
                        if k2 < k {
                        } else if k2 > k {
                            assert(contains_hash(start.blocks(), ps@[k as int]));
                        }
                    }
                }
                return Err(hash_message("Parent block ", &ps[k], " not found"));
            }
            k = k + 1;
        }
        let depth = match self.compute_merge_depth(ps.as_slice()) {
            Ok(d) => d,
            Err(e) => return Err(e),
        };
        proof {
            let d = start.merge_depth(ps@);
            lemma_merge_depth_unique(start, ps@, depth as nat, d);
        }
        if depth > self.config.max_merge_depth {
            let shown = decimal_text(depth as u64);
            let limit = decimal_text(self.config.max_merge_depth as u64);
            let front = framed("Merge depth ", shown.as_str(), " exceeds max ");
            let m = framed(front.as_str(), limit.as_str(), "");
            proof {
                reveal_strlit("");
                assert(m@ =~= merge_depth_message(depth as nat, self.config.max_merge_depth as nat));
            }
            return Err(m);
        }
        if denser_than(&self.dag, self.config.max_dag_density_ppm) {
            return Err("DAG density exceeds the maximum".to_string());
        }
        Ok(())
    }

    /// Process a new block: validate it, insert it into the DAG, drop its
    /// cached blue score and past set, check it for attack patterns, and
    /// move the pruning point.
    pub fn process_block(&mut self, block: Block) -> (r: Result<(), String>)
        requires
            old(self).wf(),
        ensures
            final(self).wf(),
            final(self).cfg() == old(self).cfg(),
            !old(self).block_valid(block) || contains_hash(old(self).blocks(), block.hash) ==> (r.is_err()
                && final(self).same_views(*old(self))),
            ({
                let ps = block.header.parent_hashes@;
                forall|k: int|
                    0 <= k < ps.len() && !contains_hash(old(self).blocks(), #[trigger] ps[k]) && (forall|j: int|
                        0 <= j < k ==> contains_hash(old(self).blocks(), ps[j])) ==> (r matches Err(e) && e@ == "Parent block "@
                        + hex_spec(ps[k]@) + " not found"@)
            }),
            old(self).parents_known(block) && old(self).merge_depth(block.header.parent_hashes@)
                > old(self).cfg().max_merge_depth ==> (r matches Err(e) && e@ == merge_depth_message(
                old(self).merge_depth(block.header.parent_hashes@),
                old(self).cfg().max_merge_depth as nat,
            )),
            old(self).block_valid(block) && contains_hash(old(self).blocks(), block.hash) ==> (r matches Err(m) && m@
                == "Failed to insert block: "@ + "Block already exists"@),
            old(self).block_valid(block) && !contains_hash(old(self).blocks(), block.hash) ==> {
                let f = *final(self);
                &&& f.blocks() == old(self).blocks().push(block)
                &&& f.blue_score_of(block.hash) == blue_score_spec(f.blocks(), block.hash, f.cfg().k as nat) as u64
                &&& f.past_of(block.hash) == ancestors_seq(f.blocks(), block.hash)
                &&& forall|h: BlockHash|
                    h != block.hash ==> #[trigger] f.blue_score_of(h) == old(self).blue_score_of(h) || f.blue_score_of(h)
                        == blue_score_spec(f.blocks(), h, f.cfg().k as nat) as u64
                &&& forall|h: BlockHash|
                    h != block.hash ==> #[trigger] f.past_of(h) == old(self).past_of(h) || f.past_of(h) == ancestors_seq(
                        f.blocks(),
                        h,
                    )
                &&& r.is_ok() <==> !f.selfish_spec(block.hash) && !f.parasite_spec(block.hash)
                &&& r.is_ok() ==> f.pruning() == f.next_pruning(old(self).pruning())
                &&& r.is_err() ==> f.pruning() == old(self).pruning()
            },
    {
        let ghost start = *self;
        match self.validate_block(&block) {
            Ok(()) => {},
            Err(e) => return Err(e),
        }
        let ghost checked = *self;
        let hash = block.hash;
        match self.dag.insert_block(block) {
            Ok(()) => {},
            Err(e) => {
                proof {
                    assert forall|h: BlockHash| #[trigger] self.blue_score_of(h) == checked.blue_score_of(h) by {
                        assert(self.cached_blue_score(h) == checked.cached_blue_score(h));
                    }
                    assert forall|h: BlockHash| #[trigger] self.past_of(h) == checked.past_of(h) by {
                        assert(self.cached_past(h) == checked.cached_past(h));
                    }
                    assert forall|a: BlockHash, b: BlockHash| #[trigger] self.merge_of(a, b) == checked.merge_of(a, b) by {
                        let key = merge_key(a, b);
                        assert(self.cached_merge(key) == checked.cached_merge(key));
                        assert(self.past_of(key.0) == checked.past_of(key.0));
                        assert(self.past_of(key.1) == checked.past_of(key.1));
                    }
                }
                let m = framed("Failed to insert block: ", e.as_str(), "");
                proof {
                    reveal_strlit("");
                    assert(m@ =~= "Failed to insert block: "@ + e@);
                }
                return Err(m);
            },
        }
        self.update_caches(&hash);
        let ghost mid = *self;
        proof {
            lemma_tips_nonempty(mid.blocks());
            assert forall|h: BlockHash| h != hash implies #[trigger] mid.blue_score_of(h) == start.blue_score_of(h) || mid.blue_score_of(h)
                == blue_score_spec(mid.blocks(), h, mid.cfg().k as nat) as u64 by {
                match checked.cached_blue_score(h) {
                    Some(x) => {
                        assert(checked.blue_score_of(h) == x);
                    },
                    None => {},
                }
            }
            assert forall|h: BlockHash| h != hash implies #[trigger] mid.past_of(h) == start.past_of(h) || mid.past_of(h)
                == ancestors_seq(mid.blocks(), h) by {
                match checked.cached_past(h) {
                    Some(x) => {
                        assert(checked.past_of(h) == x);
                    },
                    None => {},
                }
            }
        }
        match self.detect_attack_patterns(&hash) {
            Ok(()) => {},
            Err(e) => {
                proof {
                    lemma_same_attack_views(*self, mid, hash);
                }
                return Err(e);
            },
        }
        let ghost scanned = *self;
        self.update_pruning_point();
        proof {
            lemma_same_attack_views(*self, mid, hash);
            lemma_same_next_pruning(*self, scanned, start.pruning());
        }
        Ok(())
    }
}

} // verus!
