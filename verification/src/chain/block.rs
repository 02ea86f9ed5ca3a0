use vstd::prelude::*;
use crate::chain::bytes::{concat_hashes, le_bytes, push_hashes, push_le, push_slice, hash_eq};
use crate::chain::hashing::{sha256, sha256_digest};
use crate::chain::reward::{calculate_expected_block_reward, expected_block_reward, RewardConfig};
use crate::chain::transaction::{tx_hash_spec, Transaction};
use crate::consensus::mining::{meets_difficulty, meets_difficulty_spec};

verus! {

/// A 32-byte block identifier.
pub type BlockHash = [u8; 32];

/// Identifier of a transaction as text.
pub type TransactionId = String;

/// Interface through which consensus reads and annotates blocks.
pub trait ConsensusBlock {
    fn hash(&self) -> BlockHash;

    fn parent_hashes(&self) -> &[BlockHash];

    fn blue_score(&self) -> u64;

    fn chain_height(&self) -> u64;

    fn apply_consensus_metadata(
        &mut self,
        selected_parent: Option<BlockHash>,
        blue_score: u64,
        chain_height: u64,
        topo_index: u64,
    );
}

/// `after` is `before` with only its consensus metadata set: the same
/// content, its height equal to its chain height, and its hash recomputed.
pub open spec fn keeps_content(before: Block, after: Block) -> bool {
    &&& after.header.parent_hashes == before.header.parent_hashes
    &&& after.header.timestamp == before.header.timestamp
    &&& after.header.nonce == before.header.nonce
    &&& after.header.difficulty == before.header.difficulty
    &&& after.header.base_fee == before.header.base_fee
    &&& after.header.state_root == before.header.state_root
    &&& after.header.version == before.header.version
    &&& after.transactions == before.transactions
    &&& after.producer == before.producer
    &&& after.reward == before.reward
    &&& after.height == after.header.chain_height
    &&& after.hash@ == before.content_hash()
}

/// Header portion of a block which is used for hashing and PoW.
#[derive(Clone, Debug, PartialEq)]
pub struct BlockHeader {
    pub parent_hashes: Vec<BlockHash>,
    pub timestamp: u64,
    pub nonce: u64,
    /// Expressed as leading-zero bits requirement.
    pub difficulty: u32,
    /// EIP-1559 style base fee burned per gas unit.
    pub base_fee: u64,
    /// Merkle root of state after applying this block.
    pub state_root: [u8; 32],
    pub version: u32,
    pub blue_score: u64,
    pub selected_parent: Option<BlockHash>,
    pub chain_height: u64,
    pub topo_index: u64,
}

#[derive(Clone, Debug, PartialEq)]
pub struct Block {
    pub hash: BlockHash,
    pub header: BlockHeader,
    pub transactions: Vec<Transaction>,
    pub producer: [u8; 20],
    pub reward: u64,
    pub height: u64,
}

/// Concatenated hashes of a transaction list.
pub open spec fn concat_tx_hashes(txs: Seq<Transaction>) -> Seq<u8>
    decreases txs.len(),
{
    if txs.len() == 0 {
        Seq::<u8>::empty()
    } else {
        concat_tx_hashes(txs.drop_last()) + tx_hash_spec(txs.last())
    }
}

/// The tip a transaction pays above the base fee, 0 when it pays less.
pub open spec fn tip_of(tx: Transaction, base_fee: u64) -> nat {
    if tx.gas_price >= base_fee {
        (tx.gas_price - base_fee) as nat
    } else {
        0
    }
}

/// Sum of the tips of the transactions above the base fee.
pub open spec fn tip_sum(txs: Seq<Transaction>, base_fee: u64) -> nat
    decreases txs.len(),
{
    if txs.len() == 0 {
        0
    } else {
        tip_sum(txs.drop_last(), base_fee) + tip_of(txs.last(), base_fee)
    }
}

/// The reward of a new block: the base reward at zero emitted supply plus
/// the tips of its transactions, saturating at `u64::MAX`.
pub open spec fn new_block_reward(txs: Seq<Transaction>, base_fee: u64) -> nat {
    let base = expected_block_reward(0, RewardConfig::default_spec());
    if base + tip_sum(txs, base_fee) <= u64::MAX {
        base + tip_sum(txs, base_fee)
    } else {
        u64::MAX as nat
    }
}

/// The bytes a block's hash is computed over: parent hashes, transaction
/// hashes, timestamp, nonce, difficulty, base fee, state root, version and
/// producer. GhostDAG metadata (blue score, selected parent, chain height,
/// topological index) is left out so that it does not change the block id.
pub open spec fn block_preimage(h: BlockHeader, txs: Seq<Transaction>, producer: [u8; 20]) -> Seq<u8> {
    concat_hashes(h.parent_hashes@) + concat_tx_hashes(txs) + le_bytes(h.timestamp as nat, 8)
        + le_bytes(h.nonce as nat, 8) + le_bytes(h.difficulty as nat, 4) + le_bytes(
        h.base_fee as nat,
        8,
    ) + h.state_root@ + le_bytes(h.version as nat, 4) + producer@
}

/// The hash a block with this content has.
pub open spec fn block_hash_spec(h: BlockHeader, txs: Seq<Transaction>, producer: [u8; 20]) -> Seq<u8> {
    sha256_digest(block_preimage(h, txs, producer))
}

/// Whether two transactions of the list share a hash.
pub open spec fn has_duplicate_tx(txs: Seq<Transaction>) -> bool {
    exists|i: int, j: int| 0 <= i < j < txs.len() && tx_hash_spec(txs[i]) == tx_hash_spec(txs[j])
}

/// The size estimate of `Block::size_estimate` for the given counts.
pub open spec fn size_estimate_spec(parents: nat, txs: nat) -> nat {
    32 + parents * 32 + txs * (vstd::layout::size_of::<String>() + 256 + 8) + 8 + 8 + 4 + 4 + 20 + 8
}

impl Block {
    pub open spec fn content_hash(self) -> Seq<u8> {
        block_hash_spec(self.header, self.transactions@, self.producer)
    }

    /// Create a new block; its reward is the base reward at zero emitted
    /// supply plus each transaction's tip (gas price less the base fee, at
    /// least 0), saturating, and its hash is computed from its content.
    pub fn new(
        parent_hashes: Vec<BlockHash>,
        timestamp: u64,
        transactions: Vec<Transaction>,
        nonce: u64,
        difficulty: u32,
        base_fee: u64,
        producer: [u8; 20],
        state_root: [u8; 32],
    ) -> (b: Self)
        requires
            tip_sum(transactions@, base_fee) <= u64::MAX,
        ensures
            b.header.parent_hashes@ == parent_hashes@,
            b.header.timestamp == timestamp,
            b.header.nonce == nonce,
            b.header.difficulty == difficulty,
            b.header.base_fee == base_fee,
            b.header.state_root == state_root,
            b.header.version == 1,
            b.header.blue_score == 0,
            b.header.selected_parent.is_none(),
            b.header.chain_height == 0,
            b.header.topo_index == 0,
            b.transactions@ == transactions@,
            b.producer == producer,
            b.height == 0,
            b.reward as nat == new_block_reward(transactions@, base_fee),
            b.hash@ == b.content_hash(),
    {
        let config = RewardConfig::default();
        let base: u64 = calculate_expected_block_reward(0, &config);
        let mut tx_fee: u64 = 0;
        let mut i: usize = 0;
        while i < transactions.len()
            invariant
                i <= transactions@.len(),
                tip_sum(transactions@, base_fee) <= u64::MAX,
                tx_fee as nat == tip_sum(transactions@.subrange(0, i as int), base_fee),
            decreases transactions@.len() - i,
        {
            proof {
                lemma_tip_sum_prefix(transactions@, base_fee, i as int + 1);
                let s = transactions@.subrange(0, i + 1);
                assert(s.drop_last() =~= transactions@.subrange(0, i as int));
            }
            tx_fee = tx_fee + transactions[i].gas_price.saturating_sub(base_fee);
            i = i + 1;
        }
        assert(transactions@.subrange(0, transactions@.len() as int) =~= transactions@);
        let reward = base.saturating_add(tx_fee);
        let header = BlockHeader {
            parent_hashes,
            timestamp,
            nonce,
            difficulty,
            base_fee,
            state_root,
            version: 1,
            blue_score: 0,
            selected_parent: None,
            chain_height: 0,
            topo_index: 0,
        };
        let mut block = Block { hash: [0u8; 32], header, transactions, producer, reward, height: 0 };
        block.hash = block.calculate_hash();
        block
    }

    /// Calculate SHA-256 hash of the block's content.
    pub fn calculate_hash(&self) -> (h: BlockHash)
        ensures
            h@ == self.content_hash(),
    {
        let mut bytes: Vec<u8> = Vec::new();
        push_hashes(&mut bytes, &self.header.parent_hashes);
        let ghost after_parents = bytes@;
        let mut i: usize = 0;
        while i < self.transactions.len()
            invariant
                i <= self.transactions@.len(),
                bytes@ == after_parents + concat_tx_hashes(self.transactions@.subrange(0, i as int)),
            decreases self.transactions@.len() - i,
        {
            let th = self.transactions[i].hash();
            push_slice(&mut bytes, th.as_slice());
            proof {
                let s = self.transactions@.subrange(0, i + 1);
                assert(s.drop_last() =~= self.transactions@.subrange(0, i as int));
            }
            i = i + 1;
            assert(bytes@ =~= after_parents + concat_tx_hashes(self.transactions@.subrange(0, i as int)));
        }
        assert(self.transactions@.subrange(0, self.transactions@.len() as int) =~= self.transactions@);
        push_le(&mut bytes, self.header.timestamp, 8);
        push_le(&mut bytes, self.header.nonce, 8);
        push_le(&mut bytes, self.header.difficulty as u64, 4);
        push_le(&mut bytes, self.header.base_fee, 8);
        push_slice(&mut bytes, self.header.state_root.as_slice());
        push_le(&mut bytes, self.header.version as u64, 4);
        push_slice(&mut bytes, self.producer.as_slice());
        assert(bytes@ =~= block_preimage(self.header, self.transactions@, self.producer));
        sha256(&bytes)
    }

    /// Validate basic block structure: no two transactions share a hash,
    /// and the block hash meets the block's proof-of-work difficulty.
    pub fn validate_basic(&self) -> (r: Result<(), String>)
        ensures
            r.is_ok() <==> (!has_duplicate_tx(self.transactions@) && meets_difficulty_spec(
                self.hash@,
                self.header.difficulty as nat,
            )),
    {
        let n = self.transactions.len();
        let mut hashes: Vec<[u8; 32]> = Vec::new();
        let mut k: usize = 0;
        while k < n
            invariant
                n == self.transactions@.len(),
                k <= n,
                hashes@.len() == k,
                forall|m: int| 0 <= m < k ==> #[trigger] hashes@[m]@ == tx_hash_spec(self.transactions@[m]),
            decreases n - k,
        {
            hashes.push(self.transactions[k].hash());
            k = k + 1;
        }
        let mut i: usize = 0;
        while i < n
            invariant
                n == self.transactions@.len(),
                hashes@.len() == n,
                i <= n,
                forall|m: int| 0 <= m < n ==> #[trigger] hashes@[m]@ == tx_hash_spec(self.transactions@[m]),
                forall|a: int, b: int| 0 <= a < i && a < b < n ==> tx_hash_spec(self.transactions@[a]) != tx_hash_spec(self.transactions@[b]),
            decreases n - i,
        {
            let mut j: usize = i + 1;
            while j < n
                invariant
                    n == self.transactions@.len(),
                    hashes@.len() == n,
                    i < n,
                    i < j <= n,
                    forall|m: int| 0 <= m < n ==> #[trigger] hashes@[m]@ == tx_hash_spec(self.transactions@[m]),
                    forall|b: int| i < b < j ==> tx_hash_spec(self.transactions@[i as int]) != tx_hash_spec(self.transactions@[b]),
                decreases n - j,
            {
                let same = hash_eq(&hashes[i], &hashes[j]);
                proof {
                    assert(hashes@[i as int]@ == tx_hash_spec(self.transactions@[i as int]));
                    assert(hashes@[j as int]@ == tx_hash_spec(self.transactions@[j as int]));
                    if hashes@[i as int]@ == hashes@[j as int]@ {
                        assert(hashes@[i as int] =~= hashes@[j as int]);
                    }
                }
                if same {
                    return Err("Duplicate transaction in block".to_string());
                }
                j = j + 1;
            }
            i = i + 1;
        }
        if !meets_difficulty(&self.hash, self.header.difficulty) {
            return Err("Block hash does not meet difficulty".to_string());
        }
        Ok(())
    }

    /// Validate the block's parent references: no parent is listed twice
    /// and the block does not reference itself.
    pub fn validate_references(&self) -> (r: Result<(), String>)
        ensures
            r.is_ok() <==> (self.header.parent_hashes@.no_duplicates()
                && !self.header.parent_hashes@.contains(self.hash)),
    {
        let ps = &self.header.parent_hashes;
        let n = ps.len();
        let mut i: usize = 0;
        while i < n
            invariant
                n == ps@.len(),
                ps@ == self.header.parent_hashes@,
                i <= n,
                forall|a: int, b: int| 0 <= a < i && 0 <= b < n && a != b ==> ps@[a] != ps@[b],
                forall|a: int| 0 <= a < i ==> ps@[a] != self.hash,
            decreases n - i,
        {
            let pi: BlockHash = ps[i];
            let self_ref = hash_eq(&pi, &self.hash);
            if self_ref {
                assert(self.header.parent_hashes@[i as int] == self.hash);
                assert(self.header.parent_hashes@.contains(self.hash));
                return Err("Block references itself as parent".to_string());
            }
            let mut j: usize = 0;
            while j < n
                invariant
                    n == ps@.len(),
                    ps@ == self.header.parent_hashes@,
                    i < n,
                    j <= n,
                    forall|b: int| 0 <= b < j && b != i ==> ps@[i as int] != ps@[b],
                decreases n - j,
            {
                let pj: BlockHash = ps[j];
                let pi2: BlockHash = ps[i];
                if j != i && hash_eq(&pi2, &pj) {
                    assert(ps@[i as int] == ps@[j as int]);
                    assert(!self.header.parent_hashes@.no_duplicates());
                    return Err("Duplicate parent reference".to_string());
                }
                j = j + 1;
            }
            i = i + 1;
        }
        Ok(())
    }

    /// Update GhostDAG-specific metadata and recompute the hash.
    pub fn set_consensus_metadata(
        &mut self,
        selected_parent: Option<BlockHash>,
        blue_score: u64,
        chain_height: u64,
        topo_index: u64,
    )
        ensures
            final(self).header.selected_parent == selected_parent,
            final(self).header.blue_score == blue_score,
            final(self).header.chain_height == chain_height,
            final(self).header.topo_index == topo_index,
            final(self).height == chain_height,
            final(self).header.parent_hashes == old(self).header.parent_hashes,
            final(self).header.timestamp == old(self).header.timestamp,
            final(self).header.nonce == old(self).header.nonce,
            final(self).header.difficulty == old(self).header.difficulty,
            final(self).header.base_fee == old(self).header.base_fee,
            final(self).header.state_root == old(self).header.state_root,
            final(self).header.version == old(self).header.version,
            final(self).transactions == old(self).transactions,
            final(self).producer == old(self).producer,
            final(self).reward == old(self).reward,
            final(self).hash@ == old(self).content_hash(),
    {
        self.header.selected_parent = selected_parent;
        self.header.blue_score = blue_score;
        self.header.chain_height = chain_height;
        self.header.topo_index = topo_index;
        self.height = chain_height;
        self.hash = self.calculate_hash();
    }

    /// A genesis block has no parents.
    pub fn is_genesis(&self) -> (g: bool)
        ensures
            g == (self.header.parent_hashes@.len() == 0),
    {
        self.header.parent_hashes.len() == 0
    }

    /// Hexadecimal text of the hash of each transaction, in block order.
    pub fn transaction_hashes(&self) -> (r: Vec<String>)
        ensures
            r@.len() == self.transactions@.len(),
            forall|i: int|
                0 <= i < r@.len() ==> (#[trigger] r@[i])@ == crate::observability::tracing::hex_spec(
                    crate::chain::transaction::tx_hash_spec(self.transactions@[i]),
                ),
    {
        let mut out: Vec<String> = Vec::new();
        let mut i: usize = 0;
        while i < self.transactions.len()
            invariant
                i <= self.transactions@.len(),
                out@.len() == i,
                forall|j: int|
                    0 <= j < i ==> (#[trigger] out@[j])@ == crate::observability::tracing::hex_spec(
                        crate::chain::transaction::tx_hash_spec(self.transactions@[j]),
                    ),
            decreases self.transactions@.len() - i,
        {
            let h = self.transactions[i].hash();
            out.push(crate::observability::tracing::hex_encode(&h));
            i = i + 1;
        }
        out
    }

    /// Get size estimate in bytes.
    pub fn size_estimate(&self) -> (s: usize)
        requires
            size_estimate_spec(self.header.parent_hashes@.len(), self.transactions@.len()) <= usize::MAX,
        ensures
            s as nat == size_estimate_spec(self.header.parent_hashes@.len(), self.transactions@.len()),
    {
        let string_size: usize = core::mem::size_of::<String>();
        let ntx: usize = self.transactions.len();
        proof {
            let t = ntx as int;
            let sz = vstd::layout::size_of::<String>() as int;
            assert(t * (sz + 256 + 8) == t * sz + t * 264) by (nonlinear_arith);
            assert(t * sz >= 0 && t * 264 >= 0) by (nonlinear_arith)
                requires
                    t >= 0,
                    sz >= 0,
            ;
        }
        32 + self.header.parent_hashes.len() * 32 + (ntx * string_size + ntx * 264) + 8 + 8 + 4 + 4 + 20
            + 8
    }
}

proof fn lemma_tip_sum_prefix(txs: Seq<Transaction>, base_fee: u64, k: int)
    requires
        0 <= k <= txs.len(),
    ensures
        tip_sum(txs.subrange(0, k), base_fee) <= tip_sum(txs, base_fee),
    decreases txs.len(),
{
    if k < txs.len() {
        assert(txs.drop_last() =~= txs.subrange(0, txs.len() - 1));
        assert(txs.subrange(0, k) =~= txs.drop_last().subrange(0, k));
        lemma_tip_sum_prefix(txs.drop_last(), base_fee, k);
    } else {
        assert(txs.subrange(0, k) =~= txs);
    }
}

impl ConsensusBlock for Block {
    fn hash(&self) -> (h: BlockHash)
        ensures
            h == self.hash,
    {
        self.hash
    }

    fn parent_hashes(&self) -> (p: &[BlockHash])
        ensures
            p@ == self.header.parent_hashes@,
    {
        self.header.parent_hashes.as_slice()
    }

    fn blue_score(&self) -> (s: u64)
        ensures
            s == self.header.blue_score,
    {
        self.header.blue_score
    }

    fn chain_height(&self) -> (h: u64)
        ensures
            h == self.height,
    {
        self.height
    }

    fn apply_consensus_metadata(
        &mut self,
        selected_parent: Option<BlockHash>,
        blue_score: u64,
        chain_height: u64,
        topo_index: u64,
    )
        ensures
            final(self).header.selected_parent == selected_parent,
            final(self).header.blue_score == blue_score,
            final(self).header.chain_height == chain_height,
            final(self).header.topo_index == topo_index,
            final(self).height == chain_height,
            final(self).header.parent_hashes == old(self).header.parent_hashes,
            final(self).header.timestamp == old(self).header.timestamp,
            final(self).header.nonce == old(self).header.nonce,
            final(self).header.difficulty == old(self).header.difficulty,
            final(self).header.base_fee == old(self).header.base_fee,
            final(self).header.state_root == old(self).header.state_root,
            final(self).header.version == old(self).header.version,
            final(self).transactions == old(self).transactions,
            final(self).producer == old(self).producer,
            final(self).reward == old(self).reward,
            final(self).hash@ == old(self).content_hash(),
    {
        self.set_consensus_metadata(selected_parent, blue_score, chain_height, topo_index);
    }
}


impl Default for Block {
    /// The block with no parents, no transactions and every field zero.
    fn default() -> (b: Self)
        ensures
            b.header.parent_hashes@.len() == 0,
            b.transactions@.len() == 0,
            b.header.timestamp == 0,
            b.header.nonce == 0,
            b.header.difficulty == 0,
            b.header.base_fee == 0,
            b.hash@ == b.content_hash(),
    {
        Block::new(Vec::new(), 0, Vec::new(), 0, 0, 0, [0u8; 20], [0u8; 32])
    }
}

} // verus!
