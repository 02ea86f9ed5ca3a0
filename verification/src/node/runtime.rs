use vstd::prelude::*;
use crate::chain::block::{Block, BlockHash};
use crate::dag::{is_tip, tips_seq, BlockDAG};

verus! {

/// Largest chain height among the tips of the first `k` blocks (0 when
/// there is none).
pub open spec fn tip_height_upto(s: Seq<Block>, k: int) -> u64
    decreases k,
{
    if k <= 0 {
        0
    } else {
        let prev = tip_height_upto(s, k - 1);
        if is_tip(s, k - 1) && s[k - 1].header.chain_height > prev {
            s[k - 1].header.chain_height
        } else {
            prev
        }
    }
}

/// Latest timestamp among the tips of the first `k` blocks.
pub open spec fn tip_timestamp_upto(s: Seq<Block>, k: int) -> Option<u64>
    decreases k,
{
    if k <= 0 {
        None
    } else {
        let prev = tip_timestamp_upto(s, k - 1);
        if is_tip(s, k - 1) {
            match prev {
                Some(t) => if s[k - 1].header.timestamp > t {
                    Some(s[k - 1].header.timestamp)
                } else {
                    Some(t)
                },
                None => Some(s[k - 1].header.timestamp),
            }
        } else {
            prev
        }
    }
}

/// Hash of the first genesis block (one without parents) at or after
/// position `i` of the topological order.
pub open spec fn first_genesis_from(s: Seq<Block>, i: int) -> Option<BlockHash>
    decreases s.len() - i,
{
    if i < 0 || i >= s.len() {
        None
    } else if s[i].header.parent_hashes@.len() == 0 {
        Some(s[i].hash)
    } else {
        first_genesis_from(s, i + 1)
    }
}

/// Snapshot of DAG state that can be safely used across async boundaries.
///
/// It only holds primitive values and block hashes.
#[derive(Clone, Debug)]
pub struct DagSnapshot {
    pub tip_count: usize,
    pub height: u64,
    pub last_block_timestamp: Option<u64>,
    pub genesis_hash: Option<BlockHash>,
    pub tip_hashes: Vec<BlockHash>,
}

impl DagSnapshot {
    /// Snapshot of a DAG: its tips, the largest chain height and the latest
    /// timestamp among them, and its first genesis block.
    pub fn of_dag(dag: &BlockDAG) -> (snap: Self)
        ensures
            snap.tip_hashes@ == tips_seq(dag@),
            snap.tip_count == tips_seq(dag@).len(),
            snap.height == tip_height_upto(dag@, dag@.len() as int),
            snap.last_block_timestamp == tip_timestamp_upto(dag@, dag@.len() as int),
            snap.genesis_hash == first_genesis_from(dag@, 0),
    {
        let ghost s = dag@;
        let tip_hashes = dag.get_tips();
        let n = dag.block_count();
        let mut height: u64 = 0;
        let mut last: Option<u64> = None;
        let mut x: usize = 0;
        while x < n
            invariant
                s == dag@,
                n == s.len(),
                x <= n,
                height == tip_height_upto(s, x as int),
                last == tip_timestamp_upto(s, x as int),
            decreases n - x,
        {
            if dag.is_tip_at(x) {
                let b = dag.block_at(x);
                if b.header.chain_height > height {
                    height = b.header.chain_height;
                }
                last = match last {
                    Some(t) => if b.header.timestamp > t {
                        Some(b.header.timestamp)
                    } else {
                        Some(t)
                    },
                    None => Some(b.header.timestamp),
                };
            }
            x = x + 1;
        }
        let mut genesis_hash: Option<BlockHash> = None;
        let mut i: usize = n;
        while i > 0
            invariant
                s == dag@,
                n == s.len(),
                i <= n,
                genesis_hash == first_genesis_from(s, i as int),
            decreases i,
        {
            i = i - 1;
            let b = dag.block_at(i);
            if b.is_genesis() {
                genesis_hash = Some(b.hash);
            }
        }
        DagSnapshot { tip_count: tip_hashes.len(), height, last_block_timestamp: last, genesis_hash, tip_hashes }
    }
}

/// Whether a production round makes a block: mining is enabled, and the
/// mempool holds a transaction or empty blocks are allowed.
pub fn should_produce_block(mining_enabled: bool, mempool_size: usize, allow_empty_blocks: bool) -> (r: bool)
    ensures
        r == (mining_enabled && (mempool_size > 0 || allow_empty_blocks)),
{
    if !mining_enabled {
        return false;
    }
    if mempool_size == 0 && !allow_empty_blocks {
        return false;
    }
    true
}

} // verus!
