use vstd::prelude::*;
use crate::chain::block::{Block, BlockHash};
use crate::chain::bytes::{copy_vec, hash_eq};
use crate::consensus::blue_set_cache::{keep_newest, BlueSetCache};
use crate::consensus::dag_traversal::DAGTraversal;
use crate::dag::{ancestors_seq, anticone_seq, contains_hash, dag_wf, hash_index, lemma_hash_index, BlockDAG};

verus! {

/// Incremental blue score of the block at position `i`: one more than the
/// largest incremental blue score of its parents.
pub open spec fn inc_score_at(s: Seq<Block>, i: int) -> nat
    decreases i, 1int,
{
    if 0 <= i < s.len() {
        1 + max_parent_score(s, i, s[i].header.parent_hashes@.len() as int)
    } else {
        1
    }
}

/// Largest incremental blue score among the first `q` parents of the block
/// at position `i` (0 for none; parents that are not earlier blocks count 0).
pub open spec fn max_parent_score(s: Seq<Block>, i: int, q: int) -> nat
    decreases i, 0int, q,
{
    if q <= 0 || !(0 <= i < s.len()) || q > s[i].header.parent_hashes@.len() {
        0
    } else {
        let m = max_parent_score(s, i, q - 1);
        let v = match hash_index(s, s[i].header.parent_hashes@[q - 1]) {
            Some(j) => if 0 <= j < i {
                inc_score_at(s, j)
            } else {
                0
            },
            None => 0,
        };
        if v > m {
            v
        } else {
            m
        }
    }
}

/// Incremental blue score of a block by hash: 1 for an unknown block.
pub open spec fn inc_score(s: Seq<Block>, h: BlockHash) -> nat {
    match hash_index(s, h) {
        Some(i) => inc_score_at(s, i),
        None => 1,
    }
}

/// The incremental score of position `i` is at most `i + 1`.
proof fn lemma_inc_score_bound(s: Seq<Block>, i: int)
    ensures
        inc_score_at(s, i) <= if i >= 0 { i + 1 } else { 1 },
    decreases i, 1int,
{
    if 0 <= i < s.len() {
        lemma_max_parent_bound(s, i, s[i].header.parent_hashes@.len() as int);
    }
}

/// The largest parent score of position `i` is at most `i`.
proof fn lemma_max_parent_bound(s: Seq<Block>, i: int, q: int)
    ensures
        max_parent_score(s, i, q) <= if i >= 0 { i } else { 0 },
    decreases i, 0int, q,
{
    if q <= 0 || !(0 <= i < s.len()) || q > s[i].header.parent_hashes@.len() {
    } else {
        lemma_max_parent_bound(s, i, q - 1);
        match hash_index(s, s[i].header.parent_hashes@[q - 1]) {
            Some(j) => {
                if 0 <= j < i {
                    lemma_inc_score_bound(s, j);
                }
            },
            None => {},
        }
    }
}

/// Over the first `q` parents of the block at position `i` of a
/// well-formed DAG, the largest parent score bounds each parent's
/// incremental score and is one of them.
proof fn lemma_max_parent_is_max(s: Seq<Block>, i: int, q: int)
    requires
        dag_wf(s),
        0 <= i < s.len(),
        0 <= q <= s[i].header.parent_hashes@.len(),
    ensures
        forall|k: int| 0 <= k < q ==> max_parent_score(s, i, q) >= inc_score(s, #[trigger] s[i].header.parent_hashes@[k]),
        q > 0 ==> exists|k: int| 0 <= k < q && max_parent_score(s, i, q) == inc_score(s, #[trigger] s[i].header.parent_hashes@[k]),
        q == 0 ==> max_parent_score(s, i, q) == 0,
    decreases q,
{
    if q > 0 {
        lemma_max_parent_is_max(s, i, q - 1);
        let ps = s[i].header.parent_hashes@;
        assert(crate::dag::parent_earlier(s, i, q - 1));
        let a = choose|a: int| 0 <= a < i && s[a].hash == ps[q - 1];
        lemma_hash_index(s, a);
        assert(inc_score(s, ps[q - 1]) == inc_score_at(s, a));
        if q > 1 {
            let k0 = choose|k: int| 0 <= k < q - 1 && max_parent_score(s, i, q - 1) == inc_score(s, #[trigger] ps[k]);
            assert(0 <= k0 < q);
        }
    }
}

/// The incremental blue score of a block of a well-formed DAG is one more
/// than the largest incremental blue score of its parents: at least one
/// more than each parent's, exactly one more than some parent's, and 1 for
/// a block without parents.
pub proof fn lemma_inc_score_above_parents(s: Seq<Block>, h: BlockHash)
    requires
        dag_wf(s),
        contains_hash(s, h),
    ensures
        ({
            let ps = s[hash_index(s, h)->0].header.parent_hashes@;
            &&& forall|k: int| 0 <= k < ps.len() ==> inc_score(s, h) >= inc_score(s, #[trigger] ps[k]) + 1
            &&& ps.len() > 0 ==> exists|k: int| 0 <= k < ps.len() && inc_score(s, h) == inc_score(s, #[trigger] ps[k]) + 1
            &&& ps.len() == 0 ==> inc_score(s, h) == 1
        }),
{
    let i = choose|i: int| 0 <= i < s.len() && s[i].hash == h;
    lemma_hash_index(s, i);
    lemma_max_parent_is_max(s, i, s[i].header.parent_hashes@.len() as int);
}

/// Every cached incremental blue score is correct for the DAG.
pub open spec fn scores_cached_ok(s: Seq<Block>, c: Seq<(BlockHash, u64)>) -> bool {
    forall|t: int| 0 <= t < c.len() ==> (#[trigger] c[t]).1 as nat == inc_score(s, c[t].0)
}

/// Every cached anticone is the anticone of its pair in the DAG.
pub open spec fn anticones_cached_ok(s: Seq<Block>, c: Seq<((BlockHash, BlockHash), Vec<BlockHash>)>) -> bool {
    forall|t: int| 0 <= t < c.len() ==> (#[trigger] c[t]).1@ == anticone_seq(s, c[t].0.0, c[t].0.1)
}

/// Position of the first entry of `c` for hash `h`.
pub(crate) fn find_score(c: &Vec<(BlockHash, u64)>, h: &BlockHash) -> (r: Option<usize>)
    ensures
        match r {
            Some(t) => t < c@.len() && c@[t as int].0 == *h && forall|u: int| 0 <= u < t ==> (#[trigger] c@[u]).0 != *h,
            None => forall|t: int| 0 <= t < c@.len() ==> (#[trigger] c@[t]).0 != *h,
        },
{
    let mut t: usize = 0;
    while t < c.len()
        invariant
            t <= c@.len(),
            forall|u: int| 0 <= u < t ==> (#[trigger] c@[u]).0 != *h,
        decreases c@.len() - t,
    {
        if hash_eq(&c[t].0, h) {
            return Some(t);
        }
        t = t + 1;
    }
    None
}

/// Position of the first entry of `c` for the pair `(a, b)`.
pub(crate) fn find_pair(c: &Vec<((BlockHash, BlockHash), Vec<BlockHash>)>, a: &BlockHash, b: &BlockHash) -> (r: Option<usize>)
    ensures
        match r {
            Some(t) => t < c@.len() && c@[t as int].0 == (*a, *b) && forall|u: int| 0 <= u < t ==> (#[trigger] c@[u]).0 != (*a, *b),
            None => forall|t: int| 0 <= t < c@.len() ==> (#[trigger] c@[t]).0 != (*a, *b),
        },
{
    let mut t: usize = 0;
    while t < c.len()
        invariant
            t <= c@.len(),
            forall|u: int| 0 <= u < t ==> (#[trigger] c@[u]).0 != (*a, *b),
        decreases c@.len() - t,
    {
        if hash_eq(&c[t].0.0, a) && hash_eq(&c[t].0.1, b) {
            return Some(t);
        }
        t = t + 1;
    }
    None
}


/// Configuration of the blue-set manager.
#[derive(Clone, Debug)]
pub struct BlueSetConfig {
    pub k: usize,
    pub max_merge_set_size: usize,
    pub blue_window_limit: usize,
    /// Largest DAG density (tip parent links per block) before blue
    /// candidates are filtered harder, in millionths.
    pub conflict_rate_threshold_ppm: u64,
    /// How old a candidate block may be, in seconds.
    pub timestamp_sanity_window: u64,
    pub cache_size: usize,
}

impl Default for BlueSetConfig {
    fn default() -> (c: Self)
        ensures
            c.k == 2,
            c.max_merge_set_size == 100,
            c.blue_window_limit == 1000,
            c.conflict_rate_threshold_ppm == 100_000,
            c.timestamp_sanity_window == 600,
            c.cache_size == 10000,
    {
        BlueSetConfig {
            k: 2,
            max_merge_set_size: 100,
            blue_window_limit: 1000,
            conflict_rate_threshold_ppm: 100_000,
            timestamp_sanity_window: 600,
            cache_size: 10000,
        }
    }
}

/// Blue-set manager: selects blue blocks for references with caching.
pub struct BlueSetManager {
    config: BlueSetConfig,
    dag: BlockDAG,
    cache: BlueSetCache,
}

impl BlueSetManager {
    /// The manager's invariant: the DAG is well-formed and every cached
    /// score and anticone is correct for it.
    pub closed spec fn wf(&self) -> bool {
        &&& self.dag.wf()
        &&& scores_cached_ok(self.dag@, self.cache.blue_scores@)
        &&& anticones_cached_ok(self.dag@, self.cache.anticone_cache@)
        &&& merges_cached_ok(self.dag@, self.config.max_merge_set_size as nat, self.cache.merge_sets@)
    }

    /// The manager's DAG.
    pub closed spec fn blocks(&self) -> Seq<Block> {
        self.dag@
    }

    /// The manager's configuration.
    pub closed spec fn cfg(&self) -> BlueSetConfig {
        self.config
    }

    /// The cached blue sets, oldest first.
    pub closed spec fn cached_blue_sets(&self) -> Seq<(BlockHash, Vec<BlockHash>)> {
        self.cache.blue_sets@
    }

    /// The cached merge sets, oldest first.
    pub closed spec fn cached_merge_sets(&self) -> Seq<((BlockHash, BlockHash), Vec<BlockHash>)> {
        self.cache.merge_sets@
    }

    /// A manager over `dag` with empty caches.
    pub fn new(config: BlueSetConfig, dag: BlockDAG) -> (m: Self)
        requires
            dag.wf(),
        ensures
            m.wf(),
            m.blocks() == dag@,
            m.cfg() == config,
            m.cached_blue_sets().len() == 0,
    {
        BlueSetManager { config, dag, cache: BlueSetCache::new() }
    }

    /// Incremental blue score of the block at position `i`, using and
    /// filling the score cache.
    fn score_at(&mut self, i: usize) -> (r: u64)
        requires
            old(self).wf(),
            i < old(self).dag@.len(),
        ensures
            final(self).wf(),
            final(self).dag@ == old(self).dag@,
            final(self).config == old(self).config,
            final(self).cache.blue_sets@ == old(self).cache.blue_sets@,
            final(self).cache.merge_sets@ == old(self).cache.merge_sets@,
            r as nat == inc_score_at(old(self).dag@, i as int),
        decreases i,
    {
        let ghost s = self.dag@;
        proof {
            lemma_hash_index(s, i as int);
            lemma_inc_score_bound(s, i as int);
        }
        let n = self.dag.block_count();
        let h: BlockHash = self.dag.block_at(i).hash;
        match find_score(&self.cache.blue_scores, &h) {
            Some(t) => {
                return self.cache.blue_scores[t].1;
            },
            None => {},
        }
        let ps = copy_vec(&self.dag.block_at(i).header.parent_hashes);
        let mut m: u64 = 0;
        let mut q: usize = 0;
        while q < ps.len()
            invariant
                self.wf(),
                self.dag@ == s,
                self.config == old(self).config,
                self.cache.blue_sets@ == old(self).cache.blue_sets@,
                self.cache.merge_sets@ == old(self).cache.merge_sets@,
                i < s.len(),
                ps@ == s[i as int].header.parent_hashes@,
                q <= ps@.len(),
                m as nat == max_parent_score(s, i as int, q as int),
                m <= i,
                i < n,
            decreases ps@.len() - q,
        {
            proof {
                lemma_max_parent_bound(s, i as int, q + 1);
                assert(crate::dag::parent_earlier(s, i as int, q as int));
            }
            let p: BlockHash = ps[q];
            let v: u64 = match self.dag.find_index(&p) {
                Some(j) => {
                    proof {
                        let a = choose|a: int| 0 <= a < i && s[a].hash == s[i as int].header.parent_hashes@[q as int];
                        lemma_hash_index(s, a);
                    }
                    self.score_at(j)
                },
                None => 0,
            };
            if v > m {
                m = v;
            }
            q = q + 1;
        }
        let score = m + 1;
        self.cache.blue_scores.push((h, score));
        proof {
            assert forall|t: int| 0 <= t < self.cache.blue_scores@.len() implies (#[trigger] self.cache.blue_scores@[t]).1 as nat
                == inc_score(s, self.cache.blue_scores@[t].0) by {
                if t == self.cache.blue_scores@.len() - 1 {
                    assert(self.cache.blue_scores@[t] == (h, score));
                }
            }
        }
        score
    }

    /// Incremental blue score of a block: one more than the largest
    /// incremental blue score of its parents, 1 for a block without
    /// parents or an unknown block. Scores are cached.
    pub fn compute_blue_score_incremental(&mut self, block_hash: &BlockHash) -> (r: Result<u64, String>)
        requires
            old(self).wf(),
        ensures
            final(self).wf(),
            final(self).blocks() == old(self).blocks(),
            final(self).cfg() == old(self).cfg(),
            final(self).cached_blue_sets() == old(self).cached_blue_sets(),
            final(self).cached_merge_sets() == old(self).cached_merge_sets(),
            r matches Ok(v) && v as nat == inc_score(old(self).blocks(), *block_hash),
    {
        let ghost s = self.dag@;
        match find_score(&self.cache.blue_scores, block_hash) {
            Some(t) => {
                return Ok(self.cache.blue_scores[t].1);
            },
            None => {},
        }
        match self.dag.find_index(block_hash) {
            Some(i) => {
                proof {
                    lemma_inc_score_bound(s, i as int);
                }
                Ok(self.score_at(i))
            },
            None => {
                self.cache.blue_scores.push((*block_hash, 1));
                proof {
                    assert forall|t: int| 0 <= t < self.cache.blue_scores@.len() implies (#[trigger] self.cache.blue_scores@[t]).1 as nat
                        == inc_score(s, self.cache.blue_scores@[t].0) by {
                        if t == self.cache.blue_scores@.len() - 1 {
                            assert(self.cache.blue_scores@[t] == (*block_hash, 1u64));
                        }
                    }
                }
                Ok(1)
            },
        }
    }
}


/// Blue work of a block, by which blue candidates are ordered.
#[derive(Clone, Copy, Debug, PartialEq, Eq, Structural)]
pub struct BlueWork {
    pub blue_score: u64,
    pub cumulative_work: u64,
    pub timestamp: u64,
}

/// `a` sorts before `b`: higher blue score first, then higher cumulative
/// work, then the older timestamp.
pub open spec fn work_before(a: BlueWork, b: BlueWork) -> bool {
    a.blue_score > b.blue_score || (a.blue_score == b.blue_score && (a.cumulative_work > b.cumulative_work || (
    a.cumulative_work == b.cumulative_work && a.timestamp < b.timestamp)))
}

impl BlueWork {
    /// Whether `self` sorts before `other`.
    pub fn comes_before(&self, other: &BlueWork) -> (r: bool)
        ensures
            r == work_before(*self, *other),
    {
        self.blue_score > other.blue_score || (self.blue_score == other.blue_score && (self.cumulative_work
            > other.cumulative_work || (self.cumulative_work == other.cumulative_work && self.timestamp
            < other.timestamp)))
    }
}

/// Timestamp of a block, 0 for an unknown block.
pub open spec fn timestamp_of(s: Seq<Block>, h: BlockHash) -> u64 {
    match hash_index(s, h) {
        Some(i) => s[i].header.timestamp,
        None => 0,
    }
}

/// Blue work of a block of the DAG.
pub open spec fn work_spec(s: Seq<Block>, h: BlockHash) -> BlueWork {
    BlueWork {
        blue_score: inc_score(s, h) as u64,
        cumulative_work: (ancestors_seq(s, h).len() + 1) as u64,
        timestamp: timestamp_of(s, h),
    }
}

/// Position of a block in the DAG (-1 for an unknown block).
pub open spec fn position_of(s: Seq<Block>, h: BlockHash) -> int {
    match hash_index(s, h) {
        Some(i) => i,
        None => -1,
    }
}

/// Candidate `a` is examined before candidate `b`: by blue work, ties kept
/// in topological order.
pub open spec fn cand_before(s: Seq<Block>, a: BlockHash, b: BlockHash) -> bool {
    work_before(work_spec(s, a), work_spec(s, b)) || (work_spec(s, a) == work_spec(s, b) && position_of(s, a)
        < position_of(s, b))
}

/// `o` lists the proper ancestors of `r` in candidate order.
pub open spec fn candidates_ordered(s: Seq<Block>, r: BlockHash, o: Seq<BlockHash>) -> bool {
    &&& o.len() == ancestors_seq(s, r).len()
    &&& forall|x: BlockHash| o.contains(x) <==> ancestors_seq(s, r).contains(x)
    &&& forall|i: int, j: int| 0 <= i < j < o.len() ==> cand_before(s, #[trigger] o[i], #[trigger] o[j])
}

/// Total parent links of the tips among the first `k` blocks.
pub open spec fn tip_edges_upto(s: Seq<Block>, k: int) -> nat
    decreases k,
{
    if k <= 0 {
        0
    } else {
        tip_edges_upto(s, k - 1) + if crate::dag::is_tip(s, k - 1) {
            s[k - 1].header.parent_hashes@.len()
        } else {
            0
        }
    }
}

/// The DAG is denser than `ppm` millionths of a tip parent link per block.
pub open spec fn dense_spec(s: Seq<Block>, ppm: u64) -> bool {
    s.len() > 0 && tip_edges_upto(s, s.len() as int) * 1_000_000 > ppm * s.len()
}

/// Number of parent links of the tips of a DAG.
pub fn tip_edge_count(dag: &BlockDAG) -> (r: u128)
    requires
        dag.wf(),
    ensures
        r == tip_edges_upto(dag@, dag@.len() as int),
{
    let n = dag.block_count();
    let mut edges: u128 = 0;
    let mut x: usize = 0;
    while x < n
        invariant
            n == dag@.len(),
            dag.wf(),
            x <= n,
            edges == tip_edges_upto(dag@, x as int),
            edges <= x * 0xffff_ffff_ffff_ffffu128,
        decreases n - x,
    {
        if dag.is_tip_at(x) {
            let np = dag.block_at(x).header.parent_hashes.len();
            assert(np <= 0xffff_ffff_ffff_ffffu128);
            assert(x * 0xffff_ffff_ffff_ffffu128 + 0xffff_ffff_ffff_ffffu128 == (x + 1) * 0xffff_ffff_ffff_ffffu128) by (nonlinear_arith);
            assert((x + 1) * 0xffff_ffff_ffff_ffffu128 <= 0xffff_ffff_ffff_ffffu128 * 0xffff_ffff_ffff_ffffu128) by (nonlinear_arith)
                requires
                    x < n,
                    n <= 0xffff_ffff_ffff_ffffu128,
            ;
            edges = edges + np as u128;
        } else {
            assert(x * 0xffff_ffff_ffff_ffffu128 <= (x + 1) * 0xffff_ffff_ffff_ffffu128) by (nonlinear_arith);
        }
        x = x + 1;
    }
    edges
}

/// Whether a DAG has more than `ppm` millionths of a tip parent link per
/// block.
pub(crate) fn denser_than(dag: &BlockDAG, ppm: u64) -> (r: bool)
    requires
        dag.wf(),
    ensures
        r == dense_spec(dag@, ppm),
{
    let edges = tip_edge_count(dag);
    let blocks = dag.block_count();
    if blocks == 0 {
        return false;
    }
    let p: u128 = ppm as u128;
    let nb: u128 = blocks as u128;
    assert(p * nb <= 0xffff_ffff_ffff_ffffu128 * 0xffff_ffff_ffff_ffffu128) by (nonlinear_arith)
        requires
            p <= 0xffff_ffff_ffff_ffffu128,
            nb <= 0xffff_ffff_ffff_ffffu128,
    ;
    let limit: u128 = p * nb / 1_000_000;
    proof {
        lemma_div_compare(edges as nat, (ppm as nat) * (blocks as nat), 1_000_000);
    }
    edges > limit
}

/// A candidate joins the blue set of `r`: it is not older than the sanity
/// window allows, its anticone relative to `r` has at most `k` blocks, and
/// at most `k / 2` when the DAG is dense.
pub open spec fn accepts(s: Seq<Block>, cfg: BlueSetConfig, r: BlockHash, now: u64, c: BlockHash) -> bool {
    let too_old = contains_hash(s, c) && timestamp_of(s, c) + cfg.timestamp_sanity_window < now;
    let a = anticone_seq(s, c, r).len();
    &&& !too_old
    &&& a <= cfg.k
    &&& !(dense_spec(s, cfg.conflict_rate_threshold_ppm) && a > cfg.k / 2)
}

/// The blue set selected for `r`: `r`, then the accepted candidates in
/// candidate order.
pub open spec fn blue_selection(s: Seq<Block>, cfg: BlueSetConfig, r: BlockHash, now: u64, o: Seq<BlockHash>) -> Seq<
    BlockHash,
> {
    seq![r] + o.filter(|c: BlockHash| accepts(s, cfg, r, now, c))
}

/// `v` is the blue set selected for `r` at time `now`.
pub open spec fn blue_selection_ok(s: Seq<Block>, cfg: BlueSetConfig, r: BlockHash, now: u64, v: Seq<BlockHash>) -> bool {
    exists|o: Seq<BlockHash>| candidates_ordered(s, r, o) && v == #[trigger] blue_selection(s, cfg, r, now, o)
}

/// `v` is what selecting the blue blocks of `r` at time `now` gives when
/// the blue-set cache held `old_sets`, and `new_sets` the cache after: the
/// first cached set of `r` (cache unchanged), or else the selection, cached
/// at the end and the cache pruned.
pub open spec fn selection_result(
    old_sets: Seq<(BlockHash, Vec<BlockHash>)>,
    s: Seq<Block>,
    cfg: BlueSetConfig,
    r: BlockHash,
    now: u64,
    v: Seq<BlockHash>,
    new_sets: Seq<(BlockHash, Vec<BlockHash>)>,
) -> bool {
    match first_entry(old_sets, r) {
        Some(t) => v == old_sets[t].1@ && new_sets == old_sets,
        None => blue_selection_ok(s, cfg, r, now, v) && exists|e: (BlockHash, Vec<BlockHash>)|
            e.0 == r && e.1@ == v && new_sets == #[trigger] keep_newest(old_sets.push(e), cfg.cache_size as nat),
    }
}

/// Index of the first entry of `c` with hash `h`.
pub open spec fn first_entry<K, V>(c: Seq<(K, V)>, h: K) -> Option<int>
    decreases c.len(),
{
    if c.len() == 0 {
        None
    } else {
        match first_entry(c.drop_last(), h) {
            Some(t) => Some(t),
            None => if c.last().0 == h {
                Some(c.len() - 1)
            } else {
                None
            },
        }
    }
}

/// `first_entry` finds the first entry with the hash, if any.
pub proof fn lemma_first_entry<K, V>(c: Seq<(K, V)>, h: K)
    ensures
        match first_entry(c, h) {
            Some(t) => 0 <= t < c.len() && c[t].0 == h && forall|u: int| 0 <= u < t ==> (#[trigger] c[u]).0 != h,
            None => forall|u: int| 0 <= u < c.len() ==> (#[trigger] c[u]).0 != h,
        },
    decreases c.len(),
{
    if c.len() > 0 {
        let p = c.drop_last();
        lemma_first_entry(p, h);
        assert forall|u: int| 0 <= u < p.len() implies #[trigger] c[u] == p[u] by {}
    }
}

/// The value of the first entry of `c` with key `k`, if any.
pub open spec fn entry_value<K, V>(c: Seq<(K, V)>, k: K) -> Option<V> {
    match first_entry(c, k) {
        Some(t) => Some(c[t].1),
        None => None,
    }
}

/// Removing an entry with another key keeps the first entry of `k`.
pub proof fn lemma_entry_value_remove<K, V>(c: Seq<(K, V)>, t: int, k: K)
    requires
        0 <= t < c.len(),
        c[t].0 != k,
    ensures
        entry_value(c.remove(t), k) == entry_value(c, k),
{
    let d = c.remove(t);
    lemma_first_entry(c, k);
    lemma_first_entry(d, k);
    match first_entry(c, k) {
        Some(x) => {
            let y = if x < t { x } else { x - 1 };
            assert(d[y] == c[x]);
            assert forall|u: int| 0 <= u < y implies (#[trigger] d[u]).0 != k by {
                if u < t {
                    assert(d[u] == c[u]);
                } else {
                    assert(d[u] == c[u + 1]);
                }
            }
            match first_entry(d, k) {
                Some(z) => {
                    if z < y {
                        assert(d[z].0 != k);
                    } else if z > y {
                        assert(d[y].0 != k);
                    }
                },
                None => {
                    assert(d[y].0 != k);
                },
            }
        },
        None => {
            match first_entry(d, k) {
                Some(z) => {
                    if z < t {
                        assert(d[z] == c[z]);
                    } else {
                        assert(d[z] == c[z + 1]);
                    }
                },
                None => {},
            }
        },
    }
}

/// The first entry of `c.push(e)` for `h`: the first one of `c`, else `e`
/// when it has key `h`.
pub proof fn lemma_first_entry_push<K, V>(c: Seq<(K, V)>, e: (K, V), h: K)
    ensures
        first_entry(c.push(e), h) == match first_entry(c, h) {
            Some(t) => Some(t),
            None => if e.0 == h {
                Some(c.len() as int)
            } else {
                None
            },
        },
{
    assert(c.push(e).drop_last() =~= c);
}

/// Replacing the first entry of `a` changes the value of `a` alone.
pub proof fn lemma_entry_value_update<K, V>(c: Seq<(K, V)>, a: K, v: V, k: K)
    requires
        first_entry(c, a) is Some,
    ensures
        entry_value(c.update(first_entry(c, a)->0, (a, v)), k) == if k == a {
            Some(v)
        } else {
            entry_value(c, k)
        },
{
    let t = first_entry(c, a)->0;
    let d = c.update(t, (a, v));
    lemma_first_entry(c, a);
    lemma_first_entry(c, k);
    lemma_first_entry(d, k);
    if k == a {
        match first_entry(d, k) {
            Some(z) => {
                if z < t {
                    assert(d[z] == c[z]);
                } else if z > t {
                    assert(d[t].0 == k);
                }
            },
            None => {
                assert(d[t].0 == k);
            },
        }
    } else {
        match first_entry(c, k) {
            Some(x) => {
                assert(d[x] == c[x]);
                match first_entry(d, k) {
                    Some(z) => {
                        if z < x {
                            assert(d[z].0 == k);
                            if z != t {
                                assert(d[z] == c[z]);
                            }
                        } else if z > x {
                            assert(d[x].0 == k);
                        }
                    },
                    None => {
                        assert(d[x].0 == k);
                    },
                }
            },
            None => {
                match first_entry(d, k) {
                    Some(z) => {
                        if z != t {
                            assert(d[z] == c[z]);
                        }
                    },
                    None => {},
                }
            },
        }
    }
}

/// Position of the first entry of `c` with key `h`.
pub(crate) fn find_key<V>(c: &Vec<(BlockHash, V)>, h: &BlockHash) -> (r: Option<usize>)
    ensures
        match r {
            Some(t) => first_entry(c@, *h) == Some(t as int) && t < c@.len() && c@[t as int].0 == *h,
            None => first_entry(c@, *h) is None,
        },
{
    let mut t: usize = 0;
    while t < c.len()
        invariant
            t <= c@.len(),
            forall|u: int| 0 <= u < t ==> (#[trigger] c@[u]).0 != *h,
        decreases c@.len() - t,
    {
        if hash_eq(&c[t].0, h) {
            proof {
                lemma_first_entry(c@, *h);
                match first_entry(c@, *h) {
                    Some(x) => {
                        if x < t {
                            assert(c@[x].0 != *h);
                        } else if x > t {
                            assert(c@[t as int].0 != *h);
                        }
                    },
                    None => {
                        assert(c@[t as int].0 != *h);
                    },
                }
            }
            return Some(t);
        }
        t = t + 1;
    }
    proof {
        lemma_first_entry(c@, *h);
        if first_entry(c@, *h) is Some {
            let x = first_entry(c@, *h)->0;
            assert(c@[x].0 != *h);
        }
    }
    None
}


/// A blue candidate with its blue work and DAG position.
pub type Candidate = (BlockHash, BlueWork, usize);

/// Candidate record `a` sorts before `b`: by blue work, then by position.
pub open spec fn rec_before(a: Candidate, b: Candidate) -> bool {
    work_before(a.1, b.1) || (a.1 == b.1 && a.2 < b.2)
}

/// No two records share a position.
pub open spec fn positions_distinct(v: Seq<Candidate>) -> bool {
    forall|i: int, j: int| 0 <= i < j < v.len() ==> (#[trigger] v[i]).2 != (#[trigger] v[j]).2
}

/// Sort candidate records by `rec_before`.
fn sort_records(v: Vec<Candidate>) -> (r: Vec<Candidate>)
    requires
        positions_distinct(v@),
    ensures
        r@.len() == v@.len(),
        forall|x: Candidate| r@.contains(x) <==> v@.contains(x),
        forall|i: int, j: int| 0 <= i < j < r@.len() ==> rec_before(#[trigger] r@[i], #[trigger] r@[j]),
{
    let ghost orig = v@;
    let mut rest = v;
    let mut out: Vec<Candidate> = Vec::new();
    while rest.len() > 0
        invariant
            out@.len() + rest@.len() == orig.len(),
            forall|x: Candidate| orig.contains(x) <==> (out@.contains(x) || rest@.contains(x)),
            positions_distinct(rest@),
            forall|i: int, j: int| 0 <= i < j < out@.len() ==> rec_before(#[trigger] out@[i], #[trigger] out@[j]),
            forall|t: int, j: int| 0 <= t < out@.len() && 0 <= j < rest@.len() ==> rec_before(#[trigger] out@[t], #[trigger] rest@[j]),
        decreases rest@.len(),
    {
        let mut b: usize = 0;
        let mut i: usize = 1;
        while i < rest.len()
            invariant
                positions_distinct(rest@),
                1 <= i <= rest@.len(),
                b < i,
                forall|j: int| 0 <= j < i && j != b ==> rec_before(rest@[b as int], #[trigger] rest@[j]),
            decreases rest@.len() - i,
        {
            let x = rest[i];
            let y = rest[b];
            let lt = x.1.comes_before(&y.1) || (x.1 == y.1 && x.2 < y.2);
            if lt {
                b = i;
            } else {
                assert(rest@[b as int].2 != rest@[i as int].2);
            }
            i = i + 1;
        }
        let ghost before = rest@;
        let ghost out_before = out@;
        let x = rest.remove(b);
        proof {
            assert(rest@ =~= before.remove(b as int));
            assert forall|j: int| 0 <= j < rest@.len() implies rec_before(x, #[trigger] rest@[j]) by {
                if j < b {
                    assert(rest@[j] == before[j]);
                } else {
                    assert(rest@[j] == before[j + 1]);
                }
            }
        }
        out.push(x);
        proof {
            assert(out@ =~= out_before.push(x));
            assert forall|y: Candidate| orig.contains(y) <==> (out@.contains(y) || rest@.contains(y)) by {
                if orig.contains(y) {
                    if out_before.contains(y) {
                        let t = choose|t: int| 0 <= t < out_before.len() && out_before[t] == y;
                        assert(out@[t] == y);
                    } else {
                        let j = choose|j: int| 0 <= j < before.len() && before[j] == y;
                        if j == b {
                            assert(out@[out_before.len() as int] == y);
                        } else if j < b {
                            assert(rest@[j] == y);
                        } else {
                            assert(rest@[j - 1] == y);
                        }
                    }
                }
                if out@.contains(y) {
                    let t = choose|t: int| 0 <= t < out@.len() && out@[t] == y;
                    if t < out_before.len() {
                        assert(out_before[t] == y);
                    } else {
                        assert(before[b as int] == y);
                    }
                }
                if rest@.contains(y) {
                    let j = choose|j: int| 0 <= j < rest@.len() && rest@[j] == y;
                    if j < b {
                        assert(before[j] == y);
                    } else {
                        assert(before[j + 1] == y);
                    }
                }
            }
            assert forall|t: int, j: int| 0 <= t < out@.len() && 0 <= j < rest@.len() implies rec_before(#[trigger] out@[t], #[trigger] rest@[j]) by {
                if t < out_before.len() {
                    if j < b {
                        assert(rest@[j] == before[j]);
                    } else {
                        assert(rest@[j] == before[j + 1]);
                    }
                }
            }
            assert forall|p: int, q: int| 0 <= p < q < out@.len() implies rec_before(#[trigger] out@[p], #[trigger] out@[q]) by {
                if q == out_before.len() {
                    assert(out@[q] == before[b as int]);
                }
            }
            assert forall|p: int, q: int| 0 <= p < q < rest@.len() implies (#[trigger] rest@[p]).2 != (#[trigger] rest@[q]).2 by {
                let pp = if p < b { p } else { p + 1 };
                let qq = if q < b { q } else { q + 1 };
                assert(rest@[p] == before[pp] && rest@[q] == before[qq]);
            }
        }
    }
    out
}


/// Comparing with a floor quotient is comparing with the product.
proof fn lemma_div_compare(a: nat, b: nat, c: nat)
    requires
        c > 0,
    ensures
        (a > b / c) <==> (a * c > b),
{
    let q = b / c;
    let r = b % c;
    assert(b == c * q + r && 0 <= r < c) by (nonlinear_arith)
        requires
            c > 0,
            q == b / c,
            r == b % c,
    ;
    if a > q {
        assert(a * c >= (q + 1) * c) by (nonlinear_arith)
            requires
                a >= q + 1,
                c > 0,
        ;
        assert((q + 1) * c == c * q + c) by (nonlinear_arith);
    } else {
        assert(a * c <= q * c) by (nonlinear_arith)
            requires
                a <= q,
                c > 0,
        ;
        assert(q * c == c * q) by (nonlinear_arith);
    }
}

/// Blocks of the DAG are known by hash.
proof fn lemma_ancestors_in_dag(s: Seq<Block>, r: BlockHash)
    requires
        dag_wf(s),
    ensures
        ancestors_seq(s, r).no_duplicates(),
        forall|t: int| 0 <= t < ancestors_seq(s, r).len() ==> contains_hash(s, #[trigger] ancestors_seq(s, r)[t]),
{
    crate::dag::lemma_pick_no_dup(s, crate::dag::ancestor_pred(s, r), s.len() as int);
    assert forall|t: int| 0 <= t < ancestors_seq(s, r).len() implies contains_hash(s, #[trigger] ancestors_seq(s, r)[t]) by {
        let h = ancestors_seq(s, r)[t];
        crate::dag::lemma_pick_contains(s, crate::dag::ancestor_pred(s, r), s.len() as int, h);
        assert(ancestors_seq(s, r).contains(h));
    }
}

impl BlueSetManager {
    /// Proper ancestors of the reference, in topological order.
    fn get_blue_candidates(&self, reference_hash: &BlockHash) -> (r: Vec<BlockHash>)
        requires
            self.wf(),
        ensures
            r@ == ancestors_seq(self.dag@, *reference_hash),
    {
        DAGTraversal::get_ancestors(&self.dag, reference_hash)
    }

    /// Cumulative work of a block: its number of proper ancestors plus one.
    fn get_cumulative_work(&self, block_hash: &BlockHash) -> (r: u64)
        requires
            self.wf(),
        ensures
            r as nat == ancestors_seq(self.dag@, *block_hash).len() + 1,
    {
        let n = self.dag.block_count();
        proof {
            crate::dag::lemma_ancestors_len(self.dag@, *block_hash);
        }
        let ancestors = DAGTraversal::get_ancestors(&self.dag, block_hash);
        ancestors.len() as u64 + 1
    }

    /// Sort candidates by blue work (highest blue score first, then highest
    /// cumulative work, then oldest timestamp), ties in topological order.
    fn sort_candidates(&mut self, candidates: &Vec<BlockHash>) -> (r: Vec<BlockHash>)
        requires
            old(self).wf(),
            candidates@.no_duplicates(),
            forall|t: int| 0 <= t < candidates@.len() ==> contains_hash(old(self).dag@, #[trigger] candidates@[t]),
        ensures
            final(self).wf(),
            final(self).dag@ == old(self).dag@,
            final(self).config == old(self).config,
            final(self).cache.blue_sets@ == old(self).cache.blue_sets@,
            final(self).cache.merge_sets@ == old(self).cache.merge_sets@,
            r@.len() == candidates@.len(),
            forall|x: BlockHash| r@.contains(x) <==> candidates@.contains(x),
            forall|i: int, j: int| 0 <= i < j < r@.len() ==> cand_before(old(self).dag@, #[trigger] r@[i], #[trigger] r@[j]),
    {
        let ghost s = self.dag@;
        let mut records: Vec<Candidate> = Vec::new();
        let mut i: usize = 0;
        while i < candidates.len()
            invariant
                self.wf(),
                self.dag@ == s,
                self.config == old(self).config,
                self.cache.blue_sets@ == old(self).cache.blue_sets@,
                self.cache.merge_sets@ == old(self).cache.merge_sets@,
                candidates@.no_duplicates(),
                forall|t: int| 0 <= t < candidates@.len() ==> contains_hash(s, #[trigger] candidates@[t]),
                i <= candidates@.len(),
                records@.len() == i,
                forall|t: int| 0 <= t < i ==> (#[trigger] records@[t]).0 == candidates@[t] && records@[t].1 == work_spec(s, records@[t].0)
                    && records@[t].2 as int == position_of(s, records@[t].0),
            decreases candidates@.len() - i,
        {
            let c: BlockHash = candidates[i];
            assert(contains_hash(s, candidates@[i as int]));
            let score = match self.compute_blue_score_incremental(&c) {
                Ok(v) => v,
                Err(_) => 0,
            };
            let cumulative_work = self.get_cumulative_work(&c);
            let pos = match self.dag.find_index(&c) {
                Some(p) => p,
                None => 0,
            };
            let timestamp = self.dag.block_at(pos).header.timestamp;
            records.push((c, BlueWork { blue_score: score, cumulative_work, timestamp }, pos));
            i = i + 1;
        }
        proof {
            assert forall|a: int, b: int| 0 <= a < b < records@.len() implies (#[trigger] records@[a]).2 != (#[trigger] records@[b]).2 by {
                assert(candidates@[a] != candidates@[b]);
                let ia = hash_index(s, candidates@[a]);
                let ib = hash_index(s, candidates@[b]);
                assert(s[ia->0].hash == candidates@[a]);
                assert(s[ib->0].hash == candidates@[b]);
            }
        }
        let sorted = sort_records(records);
        let mut out: Vec<BlockHash> = Vec::new();
        let mut j: usize = 0;
        while j < sorted.len()
            invariant
                j <= sorted@.len(),
                out@.len() == j,
                forall|t: int| 0 <= t < j ==> out@[t] == (#[trigger] sorted@[t]).0,
            decreases sorted@.len() - j,
        {
            out.push(sorted[j].0);
            j = j + 1;
        }
        proof {
            assert forall|x: Candidate| #[trigger] sorted@.contains(x) implies x.1 == work_spec(s, x.0) && x.2 as int == position_of(s, x.0) by {
                assert(records@.contains(x));
                let t = choose|t: int| 0 <= t < records@.len() && records@[t] == x;
                assert(records@[t].1 == work_spec(s, records@[t].0));
            }
            assert forall|a: int, b: int| 0 <= a < b < out@.len() implies cand_before(s, #[trigger] out@[a], #[trigger] out@[b]) by {
                assert(sorted@.contains(sorted@[a]));
                assert(sorted@.contains(sorted@[b]));
                assert(rec_before(sorted@[a], sorted@[b]));
            }
            assert forall|x: BlockHash| out@.contains(x) <==> candidates@.contains(x) by {
                if out@.contains(x) {
                    let t = choose|t: int| 0 <= t < out@.len() && out@[t] == x;
                    assert(sorted@.contains(sorted@[t]));
                    assert(records@.contains(sorted@[t]));
                    let u = choose|u: int| 0 <= u < records@.len() && records@[u] == sorted@[t];
                    assert(candidates@[u] == x);
                }
                if candidates@.contains(x) {
                    let u = choose|u: int| 0 <= u < candidates@.len() && candidates@[u] == x;
                    assert(records@.contains(records@[u]));
                    assert(sorted@.contains(records@[u]));
                    let t = choose|t: int| 0 <= t < sorted@.len() && sorted@[t] == records@[u];
                    assert(out@[t] == x);
                }
            }
        }
        out
    }

    /// Anticone of `block_hash` relative to `reference_hash`, from the cache
    /// or computed and cached.
    fn compute_anticone_cached(&mut self, block_hash: &BlockHash, reference_hash: &BlockHash) -> (r: Vec<BlockHash>)
        requires
            old(self).wf(),
        ensures
            final(self).wf(),
            final(self).dag@ == old(self).dag@,
            final(self).config == old(self).config,
            final(self).cache.blue_sets@ == old(self).cache.blue_sets@,
            final(self).cache.merge_sets@ == old(self).cache.merge_sets@,
            r@ == anticone_seq(old(self).dag@, *block_hash, *reference_hash),
    {
        match find_pair(&self.cache.anticone_cache, block_hash, reference_hash) {
            Some(t) => {
                return copy_vec(&self.cache.anticone_cache[t].1);
            },
            None => {},
        }
        let anticone = DAGTraversal::get_anticone(&self.dag, block_hash, reference_hash);
        let ghost old_cache = self.cache.anticone_cache@;
        self.cache.anticone_cache.push(((*block_hash, *reference_hash), copy_vec(&anticone)));
        proof {
            assert forall|t: int| 0 <= t < self.cache.anticone_cache@.len() implies (#[trigger] self.cache.anticone_cache@[t]).1@
                == anticone_seq(self.dag@, self.cache.anticone_cache@[t].0.0, self.cache.anticone_cache@[t].0.1) by {
                if t < old_cache.len() {
                    assert(self.cache.anticone_cache@[t] == old_cache[t]);
                }
            }
        }
        anticone
    }

    /// Parent links of the tips and number of blocks: their quotient is the
    /// DAG density.
    fn compute_dag_density(&self) -> (r: (u128, usize))
        requires
            self.wf(),
        ensures
            r.0 == tip_edges_upto(self.dag@, self.dag@.len() as int),
            r.1 == self.dag@.len(),
    {
        (tip_edge_count(&self.dag), self.dag.block_count())
    }

    /// Whether the DAG is denser than the configured conflict rate.
    fn is_dense(&self) -> (r: bool)
        requires
            self.wf(),
        ensures
            r == dense_spec(self.dag@, self.config.conflict_rate_threshold_ppm),
    {
        denser_than(&self.dag, self.config.conflict_rate_threshold_ppm)
    }

    /// Whether a candidate joins a blue set whose first member is the
    /// reference block.
    fn is_blue_candidate(&mut self, block_hash: &BlockHash, current_blue: &Vec<BlockHash>, now: u64) -> (r: Result<bool, String>)
        requires
            old(self).wf(),
            current_blue@.len() > 0,
            forall|i: int| 0 <= i < old(self).dag@.len() ==> #[trigger] old(self).dag@[i].header.timestamp + old(self).config.timestamp_sanity_window <= u64::MAX,
        ensures
            final(self).wf(),
            final(self).dag@ == old(self).dag@,
            final(self).config == old(self).config,
            final(self).cache.blue_sets@ == old(self).cache.blue_sets@,
            final(self).cache.merge_sets@ == old(self).cache.merge_sets@,
            r == Ok::<bool, String>(accepts(old(self).dag@, old(self).config, current_blue@[0], now, *block_hash)),
    {
        let ghost s = self.dag@;
        match self.dag.find_index(block_hash) {
            Some(i) => {
                let ts = self.dag.block_at(i).header.timestamp;
                assert(s[i as int].header.timestamp + self.config.timestamp_sanity_window <= u64::MAX);
                if ts + self.config.timestamp_sanity_window < now {
                    return Ok(false);
                }
            },
            None => {},
        }
        let anticone = self.compute_anticone_cached(block_hash, &current_blue[0]);
        if anticone.len() > self.config.k {
            return Ok(false);
        }
        if self.is_dense() {
            if anticone.len() > self.config.k / 2 {
                return Ok(false);
            }
        }
        Ok(true)
    }
}


/// Pruning a cache keeps only entries it had.
proof fn lemma_keep_newest_from<T>(s: Seq<T>, max: nat, i: int)
    requires
        0 <= i < keep_newest(s, max).len(),
    ensures
        keep_newest(s, max)[i] == s[i + (s.len() - keep_newest(s, max).len())],
{
}

impl BlueSetManager {
    /// Select the blue blocks of a reference at time `now`: the cached set
    /// when there is one; else the reference followed by each of its proper
    /// ancestors, in order of blue work, that passes the k-cluster check;
    /// the new set is cached (and the caches pruned to the configured size).
    pub fn select_blue_blocks(&mut self, reference_hash: &BlockHash, now: u64) -> (r: Result<Vec<BlockHash>, String>)
        requires
            old(self).wf(),
            forall|i: int|
                0 <= i < old(self).blocks().len() ==> #[trigger] old(self).blocks()[i].header.timestamp
                    + old(self).cfg().timestamp_sanity_window <= u64::MAX,
        ensures
            final(self).wf(),
            final(self).blocks() == old(self).blocks(),
            final(self).cfg() == old(self).cfg(),
            r matches Ok(v) && selection_result(
                old(self).cached_blue_sets(),
                old(self).blocks(),
                old(self).cfg(),
                *reference_hash,
                now,
                v@,
                final(self).cached_blue_sets(),
            ),
    {
        let ghost s = self.dag@;
        let ghost cfg = self.config;
        match find_key(&self.cache.blue_sets, reference_hash) {
            Some(t) => {
                return Ok(copy_vec(&self.cache.blue_sets[t].1));
            },
            None => {},
        }
        let candidates = self.get_blue_candidates(reference_hash);
        proof {
            lemma_ancestors_in_dag(s, *reference_hash);
        }
        let sorted = self.sort_candidates(&candidates);
        proof {
            assert forall|i: int| 0 <= i < s.len() implies #[trigger] s[i].header.timestamp + cfg.timestamp_sanity_window <= u64::MAX by {
                assert(old(self).blocks()[i].header.timestamp + old(self).cfg().timestamp_sanity_window <= u64::MAX);
            }
        }
        let ghost acc = |c: BlockHash| accepts(s, cfg, *reference_hash, now, c);
        let mut blue: Vec<BlockHash> = vec![*reference_hash];
        proof {
            reveal_with_fuel(Seq::filter, 1);
            assert(sorted@.take(0) =~= Seq::<BlockHash>::empty());
            assert(blue@ =~= seq![*reference_hash] + sorted@.take(0).filter(acc));
        }
        let mut t: usize = 0;
        while t < sorted.len()
            invariant
                self.wf(),
                self.dag@ == s,
                self.config == cfg,
                self.cache.blue_sets@ == old(self).cache.blue_sets@,
                forall|i: int| 0 <= i < s.len() ==> #[trigger] s[i].header.timestamp + cfg.timestamp_sanity_window <= u64::MAX,
                acc == (|c: BlockHash| accepts(s, cfg, *reference_hash, now, c)),
                t <= sorted@.len(),
                blue@.len() > 0,
                blue@[0] == *reference_hash,
                blue@ == seq![*reference_hash] + sorted@.take(t as int).filter(acc),
            decreases sorted@.len() - t,
        {
            let c: BlockHash = sorted[t];
            let ok = match self.is_blue_candidate(&c, &blue, now) {
                Ok(b) => b,
                Err(e) => {
                    return Err(e);
                },
            };
            proof {
                reveal_with_fuel(Seq::filter, 1);
                assert(sorted@.take(t + 1).drop_last() =~= sorted@.take(t as int));
                assert(sorted@.take(t + 1).last() == c);
            }
            if ok {
                blue.push(c);
                proof {
                    assert(sorted@.take(t + 1).filter(acc) =~= sorted@.take(t as int).filter(acc).push(c));
                    assert(blue@ =~= seq![*reference_hash] + sorted@.take(t + 1).filter(acc));
                }
            } else {
                proof {
                    assert(sorted@.take(t + 1).filter(acc) =~= sorted@.take(t as int).filter(acc));
                }
            }
            t = t + 1;
        }
        proof {
            assert(sorted@.take(sorted@.len() as int) =~= sorted@);
            assert(candidates_ordered(s, *reference_hash, sorted@));
            assert(blue@ == blue_selection(s, cfg, *reference_hash, now, sorted@));
        }
        let entry = (*reference_hash, copy_vec(&blue));
        let ghost before_sets = self.cache.blue_sets@;
        let ghost old_scores = self.cache.blue_scores@;
        let ghost old_anticones = self.cache.anticone_cache@;
        let ghost old_merges = self.cache.merge_sets@;
        self.cache.blue_sets.push(entry);
        self.cache.prune_old_entries(self.config.cache_size);
        proof {
            assert(self.cache.blue_sets@ == keep_newest(before_sets.push(entry), cfg.cache_size as nat));
            assert forall|i: int| 0 <= i < self.cache.blue_scores@.len() implies (#[trigger] self.cache.blue_scores@[i]).1 as nat
                == inc_score(s, self.cache.blue_scores@[i].0) by {
                lemma_keep_newest_from(old_scores, cfg.cache_size as nat, i);
                let j = i + (old_scores.len() - self.cache.blue_scores@.len());
                assert(old_scores[j].1 as nat == inc_score(s, old_scores[j].0));
            }
            assert forall|i: int| 0 <= i < self.cache.anticone_cache@.len() implies (#[trigger] self.cache.anticone_cache@[i]).1@
                == anticone_seq(s, self.cache.anticone_cache@[i].0.0, self.cache.anticone_cache@[i].0.1) by {
                lemma_keep_newest_from(old_anticones, cfg.cache_size as nat, i);
                let j = i + (old_anticones.len() - self.cache.anticone_cache@.len());
                assert(old_anticones[j].1@ == anticone_seq(s, old_anticones[j].0.0, old_anticones[j].0.1));
            }
            assert forall|i: int| 0 <= i < self.cache.merge_sets@.len() implies merge_set_ok(
                s,
                (#[trigger] self.cache.merge_sets@[i]).0.0,
                self.cache.merge_sets@[i].0.1,
                cfg.max_merge_set_size as nat,
                self.cache.merge_sets@[i].1@,
            ) by {
                lemma_keep_newest_from(old_merges, cfg.cache_size as nat, i);
                let j = i + (old_merges.len() - self.cache.merge_sets@.len());
                assert(merge_set_ok(s, old_merges[j].0.0, old_merges[j].0.1, cfg.max_merge_set_size as nat, old_merges[j].1@));
            }
            assert(before_sets == old(self).cached_blue_sets());
            assert(entry.0 == *reference_hash && entry.1@ == blue@);
            assert(self.cached_blue_sets() == keep_newest(old(self).cached_blue_sets().push(entry), old(self).cfg().cache_size as nat));
            assert(blue_selection_ok(old(self).blocks(), old(self).cfg(), *reference_hash, now, blue@));
            assert(first_entry(old(self).cached_blue_sets(), *reference_hash) is None);
        }
        Ok(blue)
    }
}


/// Index `b` of `tips` holds the first highest incremental blue score.
pub open spec fn is_first_best(s: Seq<Block>, tips: Seq<BlockHash>, b: int) -> bool {
    &&& 0 <= b < tips.len()
    &&& forall|j: int| 0 <= j < tips.len() ==> inc_score(s, #[trigger] tips[j]) <= inc_score(s, tips[b])
    &&& forall|j: int| 0 <= j < b ==> inc_score(s, #[trigger] tips[j]) < inc_score(s, tips[b])
}

impl BlueSetManager {
    /// Blue set of the virtual block over `tips`: the blue blocks selected
    /// for the first tip with the highest incremental blue score; empty
    /// without tips.
    pub fn compute_virtual_blue_set(&mut self, tips: &[BlockHash], now: u64) -> (r: Result<Vec<BlockHash>, String>)
        requires
            old(self).wf(),
            forall|i: int|
                0 <= i < old(self).blocks().len() ==> #[trigger] old(self).blocks()[i].header.timestamp
                    + old(self).cfg().timestamp_sanity_window <= u64::MAX,
        ensures
            final(self).wf(),
            final(self).blocks() == old(self).blocks(),
            final(self).cfg() == old(self).cfg(),
            tips@.len() == 0 ==> (r matches Ok(v) && v@.len() == 0 && final(self).cached_blue_sets() == old(self).cached_blue_sets()),
            tips@.len() > 0 ==> (r matches Ok(v) && exists|b: int| #[trigger] is_first_best(old(self).blocks(), tips@, b) && selection_result(
                old(self).cached_blue_sets(),
                old(self).blocks(),
                old(self).cfg(),
                tips@[b],
                now,
                v@,
                final(self).cached_blue_sets(),
            )),
    {
        let ghost s = self.dag@;
        if tips.len() == 0 {
            return Ok(Vec::new());
        }
        let mut best: usize = 0;
        let mut best_score: u64 = match self.compute_blue_score_incremental(&tips[0]) {
            Ok(v) => v,
            Err(e) => {
                return Err(e);
            },
        };
        let mut i: usize = 1;
        while i < tips.len()
            invariant
                self.wf(),
                self.dag@ == s,
                self.config == old(self).config,
                self.cache.blue_sets@ == old(self).cache.blue_sets@,
                1 <= i <= tips@.len(),
                best < i,
                best_score as nat == inc_score(s, tips@[best as int]),
                forall|j: int| 0 <= j < i ==> inc_score(s, #[trigger] tips@[j]) <= best_score,
                forall|j: int| 0 <= j < best ==> inc_score(s, #[trigger] tips@[j]) < best_score,
            decreases tips@.len() - i,
        {
            let score = match self.compute_blue_score_incremental(&tips[i]) {
                Ok(v) => v,
                Err(e) => {
                    return Err(e);
                },
            };
            if score > best_score {
                best = i;
                best_score = score;
            }
            i = i + 1;
        }
        proof {
            assert(is_first_best(s, tips@, best as int));
        }
        let best_tip: BlockHash = tips[best];
        self.select_blue_blocks(&best_tip, now)
    }
}


/// The entries of `a` that also occur in `b`, in the order of `a`.
pub(crate) fn intersect_in_order(a: &Vec<BlockHash>, b: &Vec<BlockHash>) -> (r: Vec<BlockHash>)
    ensures
        r@ == a@.filter(|h: BlockHash| b@.contains(h)),
{
    let ghost keep = |h: BlockHash| b@.contains(h);
    let mut inter: Vec<BlockHash> = Vec::new();
    let mut i: usize = 0;
    proof {
        reveal_with_fuel(Seq::filter, 1);
        assert(a@.take(0) =~= Seq::<BlockHash>::empty());
    }
    while i < a.len()
        invariant
            keep == (|h: BlockHash| b@.contains(h)),
            i <= a@.len(),
            inter@ == a@.take(i as int).filter(keep),
        decreases a@.len() - i,
    {
        let h: BlockHash = a[i];
        let mut found = false;
        let mut j: usize = 0;
        while j < b.len()
            invariant
                j <= b@.len(),
                found == exists|u: int| 0 <= u < j && b@[u] == h,
            decreases b@.len() - j,
        {
            if !found && hash_eq(&b[j], &h) {
                found = true;
            }
            j = j + 1;
        }
        proof {
            reveal_with_fuel(Seq::filter, 1);
            assert(a@.take(i + 1).drop_last() =~= a@.take(i as int));
            assert(a@.take(i + 1).last() == h);
            assert(found == b@.contains(h));
        }
        if found {
            inter.push(h);
            assert(a@.take(i + 1).filter(keep) =~= a@.take(i as int).filter(keep).push(h));
        } else {
            assert(a@.take(i + 1).filter(keep) =~= a@.take(i as int).filter(keep));
        }
        i = i + 1;
    }
    assert(a@.take(a@.len() as int) =~= a@);
    inter
}

/// Proper ancestors shared by `a` and `b`, in topological order.
pub open spec fn common_past(s: Seq<Block>, a: BlockHash, b: BlockHash) -> Seq<BlockHash> {
    ancestors_seq(s, a).filter(|h: BlockHash| ancestors_seq(s, b).contains(h))
}

/// `o` lists the blocks of `inter` newest first: latest timestamp first,
/// later blocks first among equal timestamps.
pub open spec fn newest_first(s: Seq<Block>, inter: Seq<BlockHash>, o: Seq<BlockHash>) -> bool {
    &&& o.len() == inter.len()
    &&& forall|x: BlockHash| o.contains(x) <==> inter.contains(x)
    &&& forall|i: int, j: int|
        0 <= i < j < o.len() ==> timestamp_of(s, #[trigger] o[i]) > timestamp_of(s, #[trigger] o[j]) || (timestamp_of(
            s,
            o[i],
        ) == timestamp_of(s, o[j]) && position_of(s, o[i]) > position_of(s, o[j]))
}

/// `v` is the merge set of `a` and `b` under the size guard `max`: their
/// common past, or its `max` newest blocks when it is larger.
pub open spec fn merge_set_ok(s: Seq<Block>, a: BlockHash, b: BlockHash, max: nat, v: Seq<BlockHash>) -> bool {
    let inter = common_past(s, a, b);
    if inter.len() <= max {
        v == inter
    } else {
        exists|o: Seq<BlockHash>| newest_first(s, inter, o) && v == #[trigger] o.take(max as int)
    }
}

/// The merge-set cache key: the two hashes in ascending order.
pub open spec fn merge_key(a: BlockHash, b: BlockHash) -> (BlockHash, BlockHash) {
    if crate::chain::hash_order::lex_lt(a@, b@) {
        (a, b)
    } else {
        (b, a)
    }
}

/// The merge-set key does not depend on the order of the two hashes, so
/// the merge set of `a` and `b` is that of `b` and `a`.
pub proof fn lemma_merge_key_symmetric(a: BlockHash, b: BlockHash)
    ensures
        merge_key(a, b) == merge_key(b, a),
{
    crate::chain::hash_order::lemma_lex_total(a@, b@);
    if crate::chain::hash_order::lex_lt(a@, b@) {
        crate::chain::hash_order::lemma_lex_lt_asym(a@, b@);
    } else if !crate::chain::hash_order::lex_lt(b@, a@) {
        crate::chain::hash_order::lemma_hash_view_eq(a, b);
    }
}

/// Every cached merge set is a merge set of its key.
pub open spec fn merges_cached_ok(s: Seq<Block>, max: nat, c: Seq<((BlockHash, BlockHash), Vec<BlockHash>)>) -> bool {
    forall|t: int| 0 <= t < c.len() ==> merge_set_ok(s, (#[trigger] c[t]).0.0, c[t].0.1, max, c[t].1@)
}

impl BlueSetManager {
    /// The newest `max` blocks of a list of blocks of the DAG.
    fn newest_blocks(&self, inter: &Vec<BlockHash>, max: usize) -> (r: Vec<BlockHash>)
        requires
            self.wf(),
            inter@.no_duplicates(),
            forall|t: int| 0 <= t < inter@.len() ==> contains_hash(self.dag@, #[trigger] inter@[t]),
            max <= inter@.len(),
        ensures
            exists|o: Seq<BlockHash>| newest_first(self.dag@, inter@, o) && r@ == #[trigger] o.take(max as int),
    {
        let ghost s = self.dag@;
        let n = self.dag.block_count();
        let mut records: Vec<Candidate> = Vec::new();
        let mut i: usize = 0;
        while i < inter.len()
            invariant
                self.wf(),
                s == self.dag@,
                n == s.len(),
                inter@.no_duplicates(),
                forall|t: int| 0 <= t < inter@.len() ==> contains_hash(s, #[trigger] inter@[t]),
                i <= inter@.len(),
                records@.len() == i,
                forall|t: int| 0 <= t < i ==> (#[trigger] records@[t]).0 == inter@[t] && records@[t].1 == (BlueWork {
                    blue_score: timestamp_of(s, records@[t].0),
                    cumulative_work: 0,
                    timestamp: 0,
                }) && records@[t].2 as int == n - 1 - position_of(s, records@[t].0) && 0 <= position_of(s, records@[t].0) < n,
            decreases inter@.len() - i,
        {
            let h: BlockHash = inter[i];
            assert(contains_hash(s, inter@[i as int]));
            let pos = match self.dag.find_index(&h) {
                Some(p) => p,
                None => 0,
            };
            let ts = self.dag.block_at(pos).header.timestamp;
            records.push((h, BlueWork { blue_score: ts, cumulative_work: 0, timestamp: 0 }, n - 1 - pos));
            i = i + 1;
        }
        proof {
            assert forall|a: int, b: int| 0 <= a < b < records@.len() implies (#[trigger] records@[a]).2 != (#[trigger] records@[b]).2 by {
                assert(inter@[a] != inter@[b]);
                let ia = hash_index(s, inter@[a]);
                let ib = hash_index(s, inter@[b]);
                assert(s[ia->0].hash == inter@[a]);
                assert(s[ib->0].hash == inter@[b]);
            }
        }
        let sorted = sort_records(records);
        let mut out: Vec<BlockHash> = Vec::new();
        let mut j: usize = 0;
        while j < sorted.len()
            invariant
                j <= sorted@.len(),
                out@.len() == j,
                forall|t: int| 0 <= t < j ==> out@[t] == (#[trigger] sorted@[t]).0,
            decreases sorted@.len() - j,
        {
            out.push(sorted[j].0);
            j = j + 1;
        }
        proof {
            assert forall|x: Candidate| #[trigger] sorted@.contains(x) implies x.1 == (BlueWork {
                blue_score: timestamp_of(s, x.0),
                cumulative_work: 0,
                timestamp: 0,
            }) && x.2 as int == n - 1 - position_of(s, x.0) by {
                assert(records@.contains(x));
                let t = choose|t: int| 0 <= t < records@.len() && records@[t] == x;
                assert(records@[t].2 as int == n - 1 - position_of(s, records@[t].0));
            }
            assert forall|a: int, b: int| 0 <= a < b < out@.len() implies timestamp_of(s, #[trigger] out@[a]) > timestamp_of(s, #[trigger] out@[b])
                || (timestamp_of(s, out@[a]) == timestamp_of(s, out@[b]) && position_of(s, out@[a]) > position_of(s, out@[b])) by {
                assert(sorted@.contains(sorted@[a]));
                assert(sorted@.contains(sorted@[b]));
                assert(rec_before(sorted@[a], sorted@[b]));
            }
            assert forall|x: BlockHash| out@.contains(x) <==> inter@.contains(x) by {
                if out@.contains(x) {
                    let t = choose|t: int| 0 <= t < out@.len() && out@[t] == x;
                    assert(sorted@.contains(sorted@[t]));
                    assert(records@.contains(sorted@[t]));
                    let u = choose|u: int| 0 <= u < records@.len() && records@[u] == sorted@[t];
                    assert(inter@[u] == x);
                }
                if inter@.contains(x) {
                    let u = choose|u: int| 0 <= u < inter@.len() && inter@[u] == x;
                    assert(records@.contains(records@[u]));
                    assert(sorted@.contains(records@[u]));
                    let t = choose|t: int| 0 <= t < sorted@.len() && sorted@[t] == records@[u];
                    assert(out@[t] == x);
                }
            }
            assert(newest_first(s, inter@, out@));
        }
        let mut r: Vec<BlockHash> = Vec::new();
        let mut k: usize = 0;
        while k < max
            invariant
                max <= out@.len(),
                k <= max,
                r@ == out@.take(k as int),
            decreases max - k,
        {
            r.push(out[k]);
            k = k + 1;
            assert(r@ =~= out@.take(k as int));
        }
        r
    }
}


/// Size of the merge set of `a` and `b` under the size guard `max`.
pub open spec fn merge_size(s: Seq<Block>, a: BlockHash, b: BlockHash, max: nat) -> nat {
    let k = merge_key(a, b);
    let n = common_past(s, k.0, k.1).len();
    if n <= max {
        n
    } else {
        max
    }
}

impl BlueSetManager {
    /// Merge set of two blocks: their common past, cut to the newest
    /// `max_merge_set_size` blocks; cached by the pair in ascending order.
    pub fn compute_merge_set(&mut self, block_a: &BlockHash, block_b: &BlockHash) -> (r: Result<Vec<BlockHash>, String>)
        requires
            old(self).wf(),
        ensures
            final(self).wf(),
            final(self).blocks() == old(self).blocks(),
            final(self).cfg() == old(self).cfg(),
            final(self).cached_blue_sets() == old(self).cached_blue_sets(),
            r matches Ok(v) && merge_set_ok(
                old(self).blocks(),
                merge_key(*block_a, *block_b).0,
                merge_key(*block_a, *block_b).1,
                old(self).cfg().max_merge_set_size as nat,
                v@,
            ),
    {
        let ghost s = self.dag@;
        let max = self.config.max_merge_set_size;
        let (x, y) = if crate::chain::hash_order::hash_lt(block_a, block_b) {
            (*block_a, *block_b)
        } else {
            (*block_b, *block_a)
        };
        match find_pair(&self.cache.merge_sets, &x, &y) {
            Some(t) => {
                if self.cache.merge_sets[t].1.len() <= max {
                    return Ok(copy_vec(&self.cache.merge_sets[t].1));
                }
            },
            None => {},
        }
        let past_a = DAGTraversal::get_ancestors(&self.dag, &x);
        let past_b = DAGTraversal::get_ancestors(&self.dag, &y);
        let inter = intersect_in_order(&past_a, &past_b);
        let ghost keep = |h: BlockHash| past_b@.contains(h);
        assert(inter@ == common_past(s, x, y));
        let result = if inter.len() > max {
            proof {
                lemma_ancestors_in_dag(s, x);
                let ca = ancestors_seq(s, x);
                crate::consensus::ordering::lemma_filter_no_dup(ca, keep);
                assert forall|t: int| 0 <= t < inter@.len() implies contains_hash(s, #[trigger] inter@[t]) by {
                    assert(inter@.contains(inter@[t]));
                    ca.lemma_filter_contains_rev(keep, inter@[t]);
                    let u = choose|u: int| 0 <= u < ca.len() && ca[u] == inter@[t];
                    assert(contains_hash(s, ca[u]));
                }
            }
            self.newest_blocks(&inter, max)
        } else {
            inter
        };
        let ghost old_merges = self.cache.merge_sets@;
        self.cache.merge_sets.push(((x, y), copy_vec(&result)));
        proof {
            assert(merge_set_ok(s, x, y, max as nat, result@));
            assert forall|t: int| 0 <= t < self.cache.merge_sets@.len() implies merge_set_ok(
                s,
                (#[trigger] self.cache.merge_sets@[t]).0.0,
                self.cache.merge_sets@[t].0.1,
                max as nat,
                self.cache.merge_sets@[t].1@,
            ) by {
                if t < old_merges.len() {
                    assert(self.cache.merge_sets@[t] == old_merges[t]);
                }
            }
        }
        Ok(result)
    }
}


/// Parent hashes of a block, none for an unknown block.
pub open spec fn parents_or_none(s: Seq<Block>, h: BlockHash) -> Seq<BlockHash> {
    match hash_index(s, h) {
        Some(i) => s[i].header.parent_hashes@,
        None => Seq::<BlockHash>::empty(),
    }
}

/// Anticone size of a block relative to the first tip (0 without tips).
pub open spec fn tip_anticone_size(s: Seq<Block>, h: BlockHash) -> nat {
    let tips = crate::dag::tips_seq(s);
    if tips.len() == 0 {
        0
    } else {
        anticone_seq(s, h, tips[0]).len()
    }
}

impl BlueSetManager {
    /// Check a block for attack patterns: a parent whose merge set with the
    /// block has fewer than 3 blocks (parasite cluster), or an anticone
    /// relative to the first tip of more than `2 k` blocks (spam).
    pub fn detect_attack_patterns(&mut self, block_hash: &BlockHash) -> (r: Result<(), String>)
        requires
            old(self).wf(),
            old(self).cfg().k * 2 <= usize::MAX,
        ensures
            final(self).wf(),
            final(self).blocks() == old(self).blocks(),
            final(self).cfg() == old(self).cfg(),
            final(self).cached_blue_sets() == old(self).cached_blue_sets(),
            r.is_ok() <==> ((forall|q: int|
                0 <= q < parents_or_none(old(self).blocks(), *block_hash).len() ==> merge_size(
                    old(self).blocks(),
                    *block_hash,
                    #[trigger] parents_or_none(old(self).blocks(), *block_hash)[q],
                    old(self).cfg().max_merge_set_size as nat,
                ) >= 3) && tip_anticone_size(old(self).blocks(), *block_hash) <= 2 * old(self).cfg().k),
            (exists|q: int|
                0 <= q < parents_or_none(old(self).blocks(), *block_hash).len() && merge_size(
                    old(self).blocks(),
                    *block_hash,
                    #[trigger] parents_or_none(old(self).blocks(), *block_hash)[q],
                    old(self).cfg().max_merge_set_size as nat,
                ) < 3) ==> (r matches Err(e) && e@ == "Detected parasite cluster attack"@),
            (forall|q: int|
                0 <= q < parents_or_none(old(self).blocks(), *block_hash).len() ==> merge_size(
                    old(self).blocks(),
                    *block_hash,
                    #[trigger] parents_or_none(old(self).blocks(), *block_hash)[q],
                    old(self).cfg().max_merge_set_size as nat,
                ) >= 3) && tip_anticone_size(old(self).blocks(), *block_hash) > 2 * old(self).cfg().k ==> (r matches Err(e)
                && e@ == "Detected spam conflicting blocks"@),
    {
        let ghost s = self.dag@;
        let parents = DAGTraversal::get_parents(&self.dag, block_hash);
        let mut q: usize = 0;
        while q < parents.len()
            invariant
                self.wf(),
                self.dag@ == s,
                self.config == old(self).config,
                self.cache.blue_sets@ == old(self).cache.blue_sets@,
                s == old(self).dag@,
                parents@ == parents_or_none(s, *block_hash),
                q <= parents@.len(),
                forall|u: int| 0 <= u < q ==> merge_size(s, *block_hash, #[trigger] parents@[u], self.config.max_merge_set_size as nat) >= 3,
            decreases parents@.len() - q,
        {
            let ms = match self.compute_merge_set(block_hash, &parents[q]) {
                Ok(v) => v,
                Err(e) => {
                    return Err(e);
                },
            };
            proof {
                let k = merge_key(*block_hash, parents@[q as int]);
                let inter = common_past(s, k.0, k.1);
                if inter.len() > self.config.max_merge_set_size {
                    let o = choose|o: Seq<BlockHash>| newest_first(s, inter, o) && ms@ == #[trigger] o.take(self.config.max_merge_set_size as int);
                    assert(ms@.len() == self.config.max_merge_set_size);
                }
            }
            if ms.len() < 3 {
                return Err("Detected parasite cluster attack".to_string());
            }
            q = q + 1;
        }
        let tips = self.dag.get_tips();
        let anticone_size: usize = if tips.len() == 0 {
            0
        } else {
            self.compute_anticone_cached(block_hash, &tips[0]).len()
        };
        if anticone_size > self.config.k * 2 {
            return Err("Detected spam conflicting blocks".to_string());
        }
        Ok(())
    }
}


/// The entries of `s` whose mark in `m` is set, in order.
pub open spec fn keep_marked<T>(s: Seq<T>, m: Seq<bool>) -> Seq<T>
    decreases s.len(),
{
    if s.len() == 0 || m.len() == 0 {
        Seq::<T>::empty()
    } else {
        (if m[0] {
            seq![s[0]]
        } else {
            Seq::<T>::empty()
        }) + keep_marked(s.drop_first(), m.drop_first())
    }
}

/// Every kept entry is an entry of `s`.
proof fn lemma_keep_marked_from<T>(s: Seq<T>, m: Seq<bool>)
    ensures
        forall|i: int| 0 <= i < keep_marked(s, m).len() ==> s.contains(#[trigger] keep_marked(s, m)[i]),
    decreases s.len(),
{
    if s.len() > 0 && m.len() > 0 {
        lemma_keep_marked_from(s.drop_first(), m.drop_first());
        let rest = keep_marked(s.drop_first(), m.drop_first());
        assert forall|i: int| 0 <= i < keep_marked(s, m).len() implies s.contains(#[trigger] keep_marked(s, m)[i]) by {
            if m[0] {
                if i == 0 {
                    assert(keep_marked(s, m)[0] == s[0]);
                } else {
                    assert(keep_marked(s, m)[i] == rest[i - 1]);
                    let j = choose|j: int| 0 <= j < s.drop_first().len() && s.drop_first()[j] == rest[i - 1];
                    assert(s[j + 1] == rest[i - 1]);
                }
            } else {
                assert(keep_marked(s, m)[i] == rest[i]);
                let j = choose|j: int| 0 <= j < s.drop_first().len() && s.drop_first()[j] == rest[i];
                assert(s[j + 1] == rest[i]);
            }
        }
    }
}

/// Keep the entries of `v` whose mark is set.
fn retain_marked<T>(v: &mut Vec<T>, marks: &Vec<bool>)
    requires
        marks@.len() == old(v)@.len(),
    ensures
        final(v)@ == keep_marked(old(v)@, marks@),
{
    let ghost o = v@;
    let mut i: usize = v.len();
    proof {
        assert(o.skip(i as int) =~= Seq::<T>::empty());
        assert(o.take(i as int) =~= o);
        assert(v@ =~= o.take(i as int) + keep_marked(o.skip(i as int), marks@.skip(i as int)));
    }
    while i > 0
        invariant
            marks@.len() == o.len(),
            i <= o.len(),
            v@ == o.take(i as int) + keep_marked(o.skip(i as int), marks@.skip(i as int)),
        decreases i,
    {
        i = i - 1;
        let ghost k = keep_marked(o.skip(i + 1), marks@.skip(i + 1));
        proof {
            assert(o.skip(i as int).drop_first() =~= o.skip(i + 1));
            assert(marks@.skip(i as int).drop_first() =~= marks@.skip(i + 1));
            assert(o.skip(i as int)[0] == o[i as int]);
            assert(marks@.skip(i as int)[0] == marks@[i as int]);
            assert(o.take(i + 1) =~= o.take(i as int).push(o[i as int]));
        }
        if !marks[i] {
            v.remove(i);
            assert(v@ =~= o.take(i as int) + k);
        } else {
            assert(v@ =~= o.take(i as int) + (seq![o[i as int]] + k));
        }
    }
    assert(o.take(0) =~= Seq::<T>::empty());
    assert(o.skip(0) =~= o);
    assert(marks@.skip(0) =~= marks@);
    assert(v@ =~= keep_marked(o, marks@));
}

/// Marks of the entries of `s` that satisfy `p`.
pub open spec fn marks_of<T>(s: Seq<T>, p: spec_fn(T) -> bool) -> Seq<bool> {
    Seq::new(s.len(), |i: int| p(s[i]))
}

impl BlueSetManager {
    /// Forget cached results about blocks in the past of a pruning point:
    /// blue sets of such references and their cached scores, and anticones
    /// and merge sets that involve such a block.
    pub fn prune_blue_history(&mut self, pruning_point: &BlockHash)
        requires
            old(self).wf(),
        ensures
            final(self).wf(),
            final(self).blocks() == old(self).blocks(),
            final(self).cfg() == old(self).cfg(),
            final(self).cached_blue_sets() == keep_marked(
                old(self).cached_blue_sets(),
                marks_of(
                    old(self).cached_blue_sets(),
                    |e: (BlockHash, Vec<BlockHash>)| !crate::consensus::dag_traversal::is_ancestor_spec(old(self).blocks(), e.0, *pruning_point),
                ),
            ),
    {
        let ghost s = self.dag@;
        let pp: BlockHash = *pruning_point;
        let n_sets = self.cache.blue_sets.len();
        let mut set_marks: Vec<bool> = Vec::new();
        let mut i: usize = 0;
        while i < n_sets
            invariant
                self.wf(),
                self.dag@ == s,
                n_sets == self.cache.blue_sets@.len(),
                i <= n_sets,
                set_marks@.len() == i,
                forall|j: int| 0 <= j < i ==> #[trigger] set_marks@[j] == !crate::consensus::dag_traversal::is_ancestor_spec(s, self.cache.blue_sets@[j].0, pp),
            decreases n_sets - i,
        {
            let key: BlockHash = self.cache.blue_sets[i].0;
            let anc = DAGTraversal::is_ancestor(&self.dag, &key, &pp);
            set_marks.push(!anc);
            i = i + 1;
        }
        let n_scores = self.cache.blue_scores.len();
        let mut score_marks: Vec<bool> = Vec::new();
        let mut i: usize = 0;
        while i < n_scores
            invariant
                self.wf(),
                self.dag@ == s,
                n_scores == self.cache.blue_scores@.len(),
                i <= n_scores,
                score_marks@.len() == i,
            decreases n_scores - i,
        {
            let key: BlockHash = self.cache.blue_scores[i].0;
            let anc = DAGTraversal::is_ancestor(&self.dag, &key, &pp);
            let listed = find_key(&self.cache.blue_sets, &key).is_some();
            score_marks.push(!(anc && listed));
            i = i + 1;
        }
        let n_anti = self.cache.anticone_cache.len();
        let mut anti_marks: Vec<bool> = Vec::new();
        let mut i: usize = 0;
        while i < n_anti
            invariant
                self.wf(),
                self.dag@ == s,
                n_anti == self.cache.anticone_cache@.len(),
                i <= n_anti,
                anti_marks@.len() == i,
            decreases n_anti - i,
        {
            let a: BlockHash = self.cache.anticone_cache[i].0.0;
            let b: BlockHash = self.cache.anticone_cache[i].0.1;
            let keep = !DAGTraversal::is_ancestor(&self.dag, &a, &pp) && !DAGTraversal::is_ancestor(&self.dag, &b, &pp);
            anti_marks.push(keep);
            i = i + 1;
        }
        let n_merge = self.cache.merge_sets.len();
        let mut merge_marks: Vec<bool> = Vec::new();
        let mut i: usize = 0;
        while i < n_merge
            invariant
                self.wf(),
                self.dag@ == s,
                n_merge == self.cache.merge_sets@.len(),
                i <= n_merge,
                merge_marks@.len() == i,
            decreases n_merge - i,
        {
            let a: BlockHash = self.cache.merge_sets[i].0.0;
            let b: BlockHash = self.cache.merge_sets[i].0.1;
            let keep = !DAGTraversal::is_ancestor(&self.dag, &a, &pp) && !DAGTraversal::is_ancestor(&self.dag, &b, &pp);
            merge_marks.push(keep);
            i = i + 1;
        }
        let ghost old_sets = self.cache.blue_sets@;
        let ghost old_scores = self.cache.blue_scores@;
        let ghost old_anti = self.cache.anticone_cache@;
        let ghost old_merge = self.cache.merge_sets@;
        retain_marked(&mut self.cache.blue_sets, &set_marks);
        retain_marked(&mut self.cache.blue_scores, &score_marks);
        retain_marked(&mut self.cache.anticone_cache, &anti_marks);
        retain_marked(&mut self.cache.merge_sets, &merge_marks);
        proof {
            lemma_keep_marked_from(old_scores, score_marks@);
            lemma_keep_marked_from(old_anti, anti_marks@);
            lemma_keep_marked_from(old_merge, merge_marks@);
            assert forall|t: int| 0 <= t < self.cache.blue_scores@.len() implies (#[trigger] self.cache.blue_scores@[t]).1 as nat
                == inc_score(s, self.cache.blue_scores@[t].0) by {
                assert(old_scores.contains(self.cache.blue_scores@[t]));
                let u = choose|u: int| 0 <= u < old_scores.len() && old_scores[u] == self.cache.blue_scores@[t];
                assert(old_scores[u].1 as nat == inc_score(s, old_scores[u].0));
            }
            assert forall|t: int| 0 <= t < self.cache.anticone_cache@.len() implies (#[trigger] self.cache.anticone_cache@[t]).1@
                == anticone_seq(s, self.cache.anticone_cache@[t].0.0, self.cache.anticone_cache@[t].0.1) by {
                assert(old_anti.contains(self.cache.anticone_cache@[t]));
                let u = choose|u: int| 0 <= u < old_anti.len() && old_anti[u] == self.cache.anticone_cache@[t];
                assert(old_anti[u].1@ == anticone_seq(s, old_anti[u].0.0, old_anti[u].0.1));
            }
            assert forall|t: int| 0 <= t < self.cache.merge_sets@.len() implies merge_set_ok(
                s,
                (#[trigger] self.cache.merge_sets@[t]).0.0,
                self.cache.merge_sets@[t].0.1,
                self.config.max_merge_set_size as nat,
                self.cache.merge_sets@[t].1@,
            ) by {
                assert(old_merge.contains(self.cache.merge_sets@[t]));
                let u = choose|u: int| 0 <= u < old_merge.len() && old_merge[u] == self.cache.merge_sets@[t];
                assert(merge_set_ok(s, old_merge[u].0.0, old_merge[u].0.1, self.config.max_merge_set_size as nat, old_merge[u].1@));
            }
            assert(set_marks@ =~= marks_of(
                old_sets,
                |e: (BlockHash, Vec<BlockHash>)| !crate::consensus::dag_traversal::is_ancestor_spec(s, e.0, pp),
            ));
        }
    }
}

} // verus!
