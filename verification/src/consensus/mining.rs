use vstd::prelude::*;
use crate::chain::block::{concat_tx_hashes, new_block_reward, tip_sum, Block, BlockHash, BlockHeader};
use crate::chain::bytes::{concat_hashes, copy_vec, le_bytes, push_hashes, push_le, push_slice};
use crate::chain::hashing::{sha256, sha256_digest};
use crate::chain::transaction::{tx_hash_spec, Transaction, TxPayload};
use crate::dag::{contains_hash, hash_index, tips_seq, BlockDAG};
use crate::chain::reward::{calculate_expected_block_reward, expected_block_reward, RewardConfig};

verus! {

/// The proof-of-work condition of `meets_difficulty`: the hash has at least
/// `d` leading zero bits. Read on the bytes: `d` is at most the number of
/// bits of the hash, the first `d / 8` bytes are zero, and when `d` is not a
/// multiple of eight, the top `d % 8` bits of the byte after them are zero.
pub open spec fn meets_difficulty_spec(h: Seq<u8>, d: nat) -> bool {
    let zb = d / 8;
    let rem = d % 8;
    &&& d <= 8 * h.len()
    &&& forall|j: int| 0 <= j < zb && j < h.len() ==> h[j] == 0u8
    &&& rem != 0 ==> (zb < h.len() && (h[zb as int] >> ((8 - rem) as u8)) == 0u8)
}

/// Masking the bits at and above `s` of a byte tests its shift by `s`.
proof fn lemma_mask_top_bits(b: u8, s: u8)
    requires
        1 <= s <= 7,
    ensures
        ((b & ((0xFFu8 << s) as u8)) == 0u8) <==> ((b >> s) == 0u8),
{
    assert(((b & ((0xFFu8 << s) as u8)) == 0u8) <==> ((b >> s) == 0u8)) by (bit_vector)
        requires
            1 <= s <= 7,
    ;
}

/// Difficulty counts leading zero bits: a 32-byte hash that meets difficulty
/// `d + 1` meets difficulty `d`, and no difficulty above 256 is ever met.
pub proof fn lemma_meets_difficulty_monotone(h: Seq<u8>, d: nat)
    requires
        h.len() == 32,
    ensures
        meets_difficulty_spec(h, d + 1) ==> meets_difficulty_spec(h, d),
        d > 256 ==> !meets_difficulty_spec(h, d),
{
    if meets_difficulty_spec(h, d + 1) {
        lemma_meets_difficulty_step(h, d);
    }
}

/// One step of the monotonicity law.
proof fn lemma_meets_difficulty_step(h: Seq<u8>, d: nat)
    requires
        h.len() == 32,
        meets_difficulty_spec(h, d + 1),
    ensures
        meets_difficulty_spec(h, d),
{
    let zb = d / 8;
    let rem = d % 8;
    if (d + 1) % 8 == 0 {
        assert((d + 1) / 8 == zb + 1);
        assert(rem == 7);
        let b = h[zb as int];
        assert(b == 0u8);
        assert((b >> 1u8) == 0u8) by (bit_vector)
            requires
                b == 0u8,
        ;
    } else {
        assert((d + 1) / 8 == zb);
        assert((d + 1) % 8 == rem + 1);
        if rem != 0 {
            let b = h[zb as int];
            let sh = (8 - (rem + 1)) as u8;
            assert((b >> sh) == 0u8);
            assert((b >> sh) == 0u8 ==> (b >> ((sh + 1) as u8)) == 0u8) by (bit_vector)
                requires
                    sh < 7,
            ;
            assert(((8 - rem) as u8) == ((sh + 1) as u8));
        }
    }
}

/// Check whether a hash satisfies the given difficulty expressed as leading-zero bits.
/// A difficulty of 0 always returns true (no PoW requirement); one above 256,
/// the bits of a hash, is never met.
pub fn meets_difficulty(hash: &[u8; 32], difficulty: u32) -> (ok: bool)
    ensures
        ok == meets_difficulty_spec(hash@, difficulty as nat),
{
    if difficulty == 0 {
        return true;
    }
    if difficulty > 256 {
        return false;
    }
    let zero_bytes: usize = (difficulty / 8) as usize;
    let mut j: usize = 0;
    while j < zero_bytes && j < 32
        invariant
            j <= 32,
            hash@.len() == 32,
            zero_bytes == difficulty / 8,
            forall|i: int| 0 <= i < j ==> hash@[i] == 0u8,
        decreases 32 - j,
    {
        if hash[j] != 0 {
            return false;
        }
        j = j + 1;
    }
    let rem_bits: u8 = (difficulty % 8) as u8;
    if rem_bits > 0 {
        if zero_bytes >= 32 {
            return false;
        }
        let s: u8 = 8 - rem_bits;
        let mask: u8 = 0xFFu8 << s;
        let b: u8 = hash[zero_bytes];
        proof {
            lemma_mask_top_bits(b, s);
        }
        if b & mask != 0 {
            return false;
        }
    }
    true
}


/// Block template for mining.
#[derive(Clone, Debug)]
pub struct BlockTemplate {
    pub parents: Vec<BlockHash>,
    pub transactions: Vec<Transaction>,
    pub timestamp: u64,
    pub difficulty: u32,
    pub blue_score: u64,
    pub daa_score: u64,
    pub merkle_root: [u8; 32],
    pub coinbase: Transaction,
    pub state_root: [u8; 32],
    pub producer: [u8; 20],
}

/// Reachability index hook of the node state.
pub struct ReachabilityManager;

/// UTXO hook of the node state.
pub struct UtxoManager;

/// Event hook of the node state.
pub struct EventEmitter;

impl ReachabilityManager {
    /// Record a new block; nothing to update.
    pub fn update(&self, _hash: &BlockHash) -> (r: Result<(), String>)
        ensures
            r.is_ok(),
    {
        Ok(())
    }
}

impl UtxoManager {
    /// Reward the miner of a block; nothing to record.
    pub fn reward_miner(&self, _hash: &BlockHash, _score: u64) -> (r: Result<(), String>)
        ensures
            r.is_ok(),
    {
        Ok(())
    }
}

impl EventEmitter {
    /// Announce a new block; nobody listens.
    pub fn emit_new_block(&self, _block: &Block) {
    }
}

/// Mining state machine.
#[derive(Clone, Copy, Debug, PartialEq)]
pub enum MiningState {
    Idle,
    BuildingTemplate,
    Hashing,
    BlockFound,
    Broadcasting,
    RestartMining,
}

/// Select mining parents: the tips when there are any, else the genesis
/// block when known, else none.
pub fn select_mining_parents(tip_hashes: &[BlockHash], genesis_hash: Option<BlockHash>) -> (r: Vec<BlockHash>)
    ensures
        tip_hashes@.len() > 0 ==> r@ == tip_hashes@,
        tip_hashes@.len() == 0 ==> r@ == match genesis_hash {
            Some(g) => seq![g],
            None => Seq::<BlockHash>::empty(),
        },
{
    if tip_hashes.len() > 0 {
        let mut r: Vec<BlockHash> = Vec::new();
        let mut i: usize = 0;
        while i < tip_hashes.len()
            invariant
                i <= tip_hashes@.len(),
                r@ == tip_hashes@.subrange(0, i as int),
            decreases tip_hashes@.len() - i,
        {
            r.push(tip_hashes[i]);
            i = i + 1;
            assert(r@ =~= tip_hashes@.subrange(0, i as int));
        }
        assert(tip_hashes@.subrange(0, tip_hashes@.len() as int) =~= tip_hashes@);
        return r;
    }
    match genesis_hash {
        Some(g) => {
            let r = vec![g];
            assert(r@ =~= seq![g]);
            r
        },
        None => Vec::new(),
    }
}

/// The bytes a mining worker hashes for a template and nonce: the header
/// (parents, timestamp, nonce, difficulty, a zero base fee, state root,
/// version 1, blue score, the first parent as selected parent, chain height,
/// a zero topological index), then the merkle root, the producer and the
/// hashes of the coinbase and the transactions.
pub open spec fn mining_preimage(t: BlockTemplate, nonce: u64, chain_height: u64) -> Seq<u8> {
    concat_hashes(t.parents@) + le_bytes(t.timestamp as nat, 8) + le_bytes(nonce as nat, 8) + le_bytes(
        t.difficulty as nat,
        4,
    ) + le_bytes(0, 8) + t.state_root@ + le_bytes(1, 4) + le_bytes(t.blue_score as nat, 8) + t.parents@[0]@
        + le_bytes(chain_height as nat, 8) + le_bytes(0, 8) + t.merkle_root@ + t.producer@ + tx_hash_spec(t.coinbase)
        + concat_tx_hashes(t.transactions@)
}

/// Chain height of a block mined on `parent`: one above the parent's height,
/// 1 when the parent is unknown.
pub open spec fn child_height(s: Seq<Block>, parent: BlockHash) -> u64 {
    match hash_index(s, parent) {
        Some(i) => (s[i].height + 1) as u64,
        None => 1,
    }
}

/// The parent's height leaves room for one more.
pub open spec fn parent_height_ok(s: Seq<Block>, parent: BlockHash) -> bool {
    match hash_index(s, parent) {
        Some(i) => s[i].height < u64::MAX,
        None => true,
    }
}

/// The bytes of the quick proof-of-work hash of a template: merkle root,
/// timestamp and nonce.
pub open spec fn pow_preimage(t: BlockTemplate, nonce: u64) -> Seq<u8> {
    t.merkle_root@ + le_bytes(t.timestamp as nat, 8) + le_bytes(nonce as nat, 8)
}

/// The amount a coinbase transaction mints (0 for any other transaction).
pub open spec fn coinbase_amount(tx: Transaction) -> u64 {
    match tx.payload {
        TxPayload::Coinbase { amount, .. } => amount,
        _ => 0,
    }
}

impl BlockTemplate {
    /// Height for a block mined on the template's selected parent.
    pub fn child_chain_height(&self, dag: &BlockDAG) -> (h: u64)
        requires
            dag.wf(),
            self.parents@.len() > 0,
            parent_height_ok(dag@, self.parents@[0]),
        ensures
            h == child_height(dag@, self.parents@[0]),
    {
        let h = match dag.get_block_height(&self.parents[0]) {
            Some(h) => h,
            None => 0,
        };
        h + 1
    }

    /// Proof-of-work hash of a candidate header for this template and nonce.
    pub fn header_hash(&self, nonce: u64, dag: &BlockDAG) -> (h: BlockHash)
        requires
            dag.wf(),
            self.parents@.len() > 0,
            parent_height_ok(dag@, self.parents@[0]),
        ensures
            h@ == sha256_digest(mining_preimage(*self, nonce, child_height(dag@, self.parents@[0]))),
    {
        let chain_height = self.child_chain_height(dag);
        let mut bytes: Vec<u8> = Vec::new();
        push_hashes(&mut bytes, &self.parents);
        push_le(&mut bytes, self.timestamp, 8);
        push_le(&mut bytes, nonce, 8);
        push_le(&mut bytes, self.difficulty as u64, 4);
        push_le(&mut bytes, 0, 8);
        push_slice(&mut bytes, self.state_root.as_slice());
        push_le(&mut bytes, 1, 4);
        push_le(&mut bytes, self.blue_score, 8);
        push_slice(&mut bytes, self.parents[0].as_slice());
        push_le(&mut bytes, chain_height, 8);
        push_le(&mut bytes, 0, 8);
        push_slice(&mut bytes, self.merkle_root.as_slice());
        push_slice(&mut bytes, self.producer.as_slice());
        let ch = self.coinbase.hash();
        push_slice(&mut bytes, ch.as_slice());
        let ghost before_txs = bytes@;
        let mut i: usize = 0;
        while i < self.transactions.len()
            invariant
                i <= self.transactions@.len(),
                bytes@ == before_txs + concat_tx_hashes(self.transactions@.subrange(0, i as int)),
            decreases self.transactions@.len() - i,
        {
            let th = self.transactions[i].hash();
            push_slice(&mut bytes, th.as_slice());
            proof {
                let sub = self.transactions@.subrange(0, i + 1);
                assert(sub.drop_last() =~= self.transactions@.subrange(0, i as int));
            }
            i = i + 1;
            assert(bytes@ =~= before_txs + concat_tx_hashes(self.transactions@.subrange(0, i as int)));
        }
        assert(self.transactions@.subrange(0, self.transactions@.len() as int) =~= self.transactions@);
        assert(bytes@ =~= mining_preimage(*self, nonce, chain_height));
        sha256(&bytes)
    }

    /// Search the nonces `from..to` in order for the first whose header hash
    /// meets the template's difficulty.
    pub fn search_nonce(&self, dag: &BlockDAG, from: u64, to: u64) -> (r: Option<(u64, BlockHash)>)
        requires
            dag.wf(),
            self.parents@.len() > 0,
            parent_height_ok(dag@, self.parents@[0]),
        ensures
            match r {
                Some((n, h)) => from <= n < to && h@ == sha256_digest(mining_preimage(*self, n, child_height(dag@, self.parents@[0])))
                    && meets_difficulty_spec(h@, self.difficulty as nat) && forall|m: u64|
                    from <= m < n ==> !meets_difficulty_spec(
                        #[trigger] sha256_digest(mining_preimage(*self, m, child_height(dag@, self.parents@[0]))),
                        self.difficulty as nat,
                    ),
                None => forall|m: u64|
                    from <= m < to ==> !meets_difficulty_spec(
                        #[trigger] sha256_digest(mining_preimage(*self, m, child_height(dag@, self.parents@[0]))),
                        self.difficulty as nat,
                    ),
            },
    {
        let mut nonce = from;
        while nonce < to
            invariant
                dag.wf(),
                self.parents@.len() > 0,
                parent_height_ok(dag@, self.parents@[0]),
                from <= nonce,
                forall|m: u64|
                    from <= m < nonce ==> !meets_difficulty_spec(
                        #[trigger] sha256_digest(mining_preimage(*self, m, child_height(dag@, self.parents@[0]))),
                        self.difficulty as nat,
                    ),
            decreases to - nonce,
        {
            let h = self.header_hash(nonce, dag);
            if meets_difficulty(&h, self.difficulty) {
                return Some((nonce, h));
            }
            nonce = nonce + 1;
        }
        None
    }

    /// Quick proof-of-work hash over the merkle root, timestamp and nonce.
    pub fn pow_hash(&self, nonce: u64) -> (h: BlockHash)
        ensures
            h@ == sha256_digest(pow_preimage(*self, nonce)),
    {
        let mut bytes: Vec<u8> = Vec::new();
        push_slice(&mut bytes, self.merkle_root.as_slice());
        push_le(&mut bytes, self.timestamp, 8);
        push_le(&mut bytes, nonce, 8);
        assert(bytes@ =~= pow_preimage(*self, nonce));
        sha256(&bytes)
    }

    /// The block a worker reports for this template once `nonce` gave the
    /// proof-of-work hash `hash`.
    pub fn mined_block(&self, nonce: u64, hash: BlockHash, base_fee: u64) -> (b: Block)
        requires
            self.parents@.len() > 0,
        ensures
            b.hash == hash,
            b.header.parent_hashes@ == self.parents@,
            b.header.timestamp == self.timestamp,
            b.header.nonce == nonce,
            b.header.difficulty == self.difficulty,
            b.header.base_fee == base_fee,
            b.header.state_root == self.state_root,
            b.header.version == 1,
            b.header.blue_score == self.blue_score,
            b.header.selected_parent == Some(self.parents@[0]),
            b.header.chain_height == self.blue_score,
            b.header.topo_index == self.daa_score,
            b.transactions@ == self.transactions@,
            b.producer == self.producer,
            b.reward == coinbase_amount(self.coinbase),
            b.height == self.blue_score,
    {
        let reward = match &self.coinbase.payload {
            TxPayload::Coinbase { amount, .. } => *amount,
            _ => 0,
        };
        Block {
            hash,
            header: BlockHeader {
                parent_hashes: copy_vec(&self.parents),
                timestamp: self.timestamp,
                nonce,
                difficulty: self.difficulty,
                base_fee,
                state_root: self.state_root,
                version: 1,
                blue_score: self.blue_score,
                selected_parent: Some(self.parents[0]),
                chain_height: self.blue_score,
                topo_index: self.daa_score,
            },
            transactions: copy_vec(&self.transactions),
            producer: self.producer,
            reward,
            height: self.blue_score,
        }
    }
}

/// Nanoseconds after which a mining worker with a template holding
/// transactions rebuilds it: 30 seconds.
pub const TEMPLATE_REFRESH_NANOS: u128 = 30_000_000_000u128;

/// How long a mining worker keeps its template before rebuilding it: the
/// block interval while it has no template or an empty one (so that idle
/// mining does not spam empty blocks), 30 seconds otherwise.
pub open spec fn rebuild_interval_spec(current: Option<BlockTemplate>, block_interval_nanos: u128) -> u128 {
    match current {
        Some(t) => if t.transactions@.len() == 0 {
            block_interval_nanos
        } else {
            TEMPLATE_REFRESH_NANOS
        },
        None => block_interval_nanos,
    }
}

/// The rebuild interval of a mining worker's template, in nanoseconds.
pub fn rebuild_interval(current: Option<&BlockTemplate>, block_interval_nanos: u128) -> (r: u128)
    ensures
        r == rebuild_interval_spec(
            match current {
                Some(t) => Some(*t),
                None => None,
            },
            block_interval_nanos,
        ),
{
    match current {
        Some(t) => if t.transactions.len() == 0 {
            block_interval_nanos
        } else {
            TEMPLATE_REFRESH_NANOS
        },
        None => block_interval_nanos,
    }
}

/// One decision of a mining worker's loop: build a new template when it has
/// none, or when the time since the last build exceeds the rebuild interval.
pub fn template_needs_rebuild(current: Option<&BlockTemplate>, elapsed_nanos: u128, block_interval_nanos: u128) -> (r: bool)
    ensures
        r == (current is None || elapsed_nanos > rebuild_interval_spec(
            match current {
                Some(t) => Some(*t),
                None => None,
            },
            block_interval_nanos,
        )),
{
    match current {
        None => true,
        Some(_) => elapsed_nanos > rebuild_interval(current, block_interval_nanos),
    }
}

/// A template is stale once the virtual selected parent or the difficulty
/// changed, or the virtual blue score moved more than 10 past it.
pub fn is_template_stale(
    current_virtual: &BlockHash,
    current_difficulty: u32,
    current_blue_score: u64,
    template: &BlockTemplate,
) -> (r: bool)
    requires
        template.parents@.len() > 0,
    ensures
        r == (*current_virtual != template.parents@[0] || current_difficulty != template.difficulty || (
        current_blue_score > template.blue_score && current_blue_score - template.blue_score > 10)),
{
    if !crate::chain::bytes::hash_eq(current_virtual, &template.parents[0]) {
        return true;
    }
    if current_difficulty != template.difficulty {
        return true;
    }
    if current_blue_score.saturating_sub(template.blue_score) > 10 {
        return true;
    }
    false
}


/// Transactions of a submitted block: the template's coinbase, then its
/// transactions.
pub open spec fn submitted_transactions(template: BlockTemplate) -> Seq<Transaction> {
    seq![template.coinbase] + template.transactions@
}

/// The bytes the id of a submitted block is computed over (see
/// `block_preimage`): the header's parents, timestamp, nonce and difficulty,
/// a zero base fee, the header's state root, version 1, and the template's
/// transactions and producer.
pub open spec fn submitted_preimage(header: BlockHeader, template: BlockTemplate) -> Seq<u8> {
    concat_hashes(header.parent_hashes@) + concat_tx_hashes(submitted_transactions(template)) + le_bytes(
        header.timestamp as nat,
        8,
    ) + le_bytes(header.nonce as nat, 8) + le_bytes(header.difficulty as nat, 4) + le_bytes(0, 8)
        + header.state_root@ + le_bytes(1, 4) + template.producer@
}

/// `b` is the block submitted for `header` and `template`.
pub open spec fn is_submitted_block(b: Block, header: BlockHeader, template: BlockTemplate) -> bool {
    &&& b.hash@ == sha256_digest(submitted_preimage(header, template))
    &&& b.header.parent_hashes@ == header.parent_hashes@
    &&& b.header.timestamp == header.timestamp
    &&& b.header.nonce == header.nonce
    &&& b.header.difficulty == header.difficulty
    &&& b.header.base_fee == 0
    &&& b.header.state_root == header.state_root
    &&& b.header.version == 1
    &&& b.header.selected_parent == header.selected_parent
    &&& b.header.blue_score == header.blue_score
    &&& b.header.chain_height == header.chain_height
    &&& b.header.topo_index == header.topo_index
    &&& b.transactions@ == submitted_transactions(template)
    &&& b.producer == template.producer
    &&& b.reward as nat == new_block_reward(submitted_transactions(template), 0)
    &&& b.height == 0
}

/// Whether the DAG `s` takes the block submitted for `header` and
/// `template`: no two of its transactions share a hash, its id meets the
/// difficulty, no block of the DAG has that id, and its parents are blocks
/// of the DAG.
pub open spec fn submit_accepted(s: Seq<Block>, header: BlockHeader, template: BlockTemplate) -> bool {
    let id = sha256_digest(submitted_preimage(header, template));
    &&& !crate::chain::block::has_duplicate_tx(submitted_transactions(template))
    &&& meets_difficulty_spec(id, header.difficulty as nat)
    &&& !exists|i: int| 0 <= i < s.len() && #[trigger] s[i].hash@ == id
    &&& forall|k: int| 0 <= k < header.parent_hashes@.len() ==> contains_hash(s, #[trigger] header.parent_hashes@[k])
}

/// Assemble the block found for a header and template, check it and insert
/// it into the DAG. It is refused when two of its transactions share a hash,
/// when its id misses the difficulty, or when the DAG refuses it.
pub fn submit_block(dag: &mut BlockDAG, header: &BlockHeader, template: &BlockTemplate) -> (r: Result<(), String>)
    requires
        old(dag).wf(),
        tip_sum(submitted_transactions(*template), 0) <= u64::MAX,
    ensures
        final(dag).wf(),
        r.is_ok() <==> submit_accepted(old(dag)@, *header, *template),
        r.is_ok() ==> final(dag)@.len() == old(dag)@.len() + 1 && final(dag)@.drop_last() == old(dag)@
            && is_submitted_block(final(dag)@.last(), *header, *template),
        r.is_err() ==> final(dag)@ == old(dag)@,
{
    let mut transactions: Vec<Transaction> = vec![template.coinbase];
    let mut i: usize = 0;
    while i < template.transactions.len()
        invariant
            i <= template.transactions@.len(),
            transactions@ == seq![template.coinbase] + template.transactions@.subrange(0, i as int),
        decreases template.transactions@.len() - i,
    {
        transactions.push(template.transactions[i]);
        i = i + 1;
        assert(transactions@ =~= seq![template.coinbase] + template.transactions@.subrange(0, i as int));
    }
    assert(template.transactions@.subrange(0, template.transactions@.len() as int) =~= template.transactions@);
    assert(transactions@ == submitted_transactions(*template));
    let mut block = Block::new(
        copy_vec(&header.parent_hashes),
        header.timestamp,
        transactions,
        header.nonce,
        header.difficulty,
        0,
        template.producer,
        header.state_root,
    );
    block.header.selected_parent = header.selected_parent;
    block.header.blue_score = header.blue_score;
    block.header.chain_height = header.chain_height;
    block.header.topo_index = header.topo_index;
    block.hash = block.calculate_hash();
    proof {
        assert(block.content_hash() =~= sha256_digest(submitted_preimage(*header, *template)));
        assert(is_submitted_block(block, *header, *template));
    }
    if let Err(e) = block.validate_basic() {
        return Err(e);
    }
    let ghost before = dag@;
    let ghost b = block;
    proof {
        if exists|i: int| 0 <= i < before.len() && #[trigger] before[i].hash@ == b.hash@ {
            let i = choose|i: int| 0 <= i < before.len() && #[trigger] before[i].hash@ == b.hash@;
            assert(before[i].hash =~= b.hash);
        }
        if contains_hash(before, b.hash) {
            let i = choose|i: int| 0 <= i < before.len() && before[i].hash == b.hash;
            assert(before[i].hash@ == b.hash@);
        }
    }
    let r = dag.insert_block(block);
    proof {
        if r.is_ok() {
            assert(dag@.drop_last() =~= before);
        }
    }
    r
}


/// Parents a refresh round mines on: the tips, else the genesis block.
pub open spec fn mining_parents_spec(tips: Seq<BlockHash>, genesis: Option<BlockHash>) -> Seq<BlockHash> {
    if tips.len() > 0 {
        tips
    } else {
        match genesis {
            Some(g) => seq![g],
            None => Seq::<BlockHash>::empty(),
        }
    }
}

/// The template a refresh round builds from the DAG and the node's mempool
/// transactions, emitted supply, producer, state root and clock: parents from
/// the tips, the DAG's next difficulty, blue and DAA score one above the
/// tips' chain height, a coinbase transfer of the expected block reward from
/// the zero address to the producer, and as merkle root the SHA-256 of the
/// coinbase hash followed by the transaction hashes.
pub fn build_refresh_template(
    dag: &BlockDAG,
    transactions: Vec<Transaction>,
    emitted_supply: u64,
    producer: [u8; 20],
    state_root: [u8; 32],
    timestamp: u64,
) -> (t: BlockTemplate)
    requires
        dag.wf(),
        crate::node::runtime::tip_height_upto(dag@, dag@.len() as int) < u64::MAX,
    ensures
        t.parents@ == mining_parents_spec(tips_seq(dag@), crate::node::runtime::first_genesis_from(dag@, 0)),
        t.transactions@ == transactions@,
        t.timestamp == timestamp,
        t.difficulty as nat == (if crate::consensus::daa::next_difficulty_spec(dag@) == 0 {
            1
        } else {
            crate::consensus::daa::next_difficulty_spec(dag@)
        }),
        t.blue_score == crate::node::runtime::tip_height_upto(dag@, dag@.len() as int) + 1,
        t.daa_score == t.blue_score,
        crate::chain::transaction::is_zero_address(t.coinbase.from),
        t.coinbase.payload == (TxPayload::Transfer {
            to: producer,
            amount: expected_block_reward(emitted_supply as nat, RewardConfig::default_spec()) as u64,
        }),
        t.coinbase.nonce == 0 && t.coinbase.gas_limit == 0 && t.coinbase.gas_price == 0,
        t.merkle_root@ == sha256_digest(tx_hash_spec(t.coinbase) + concat_tx_hashes(transactions@)),
        t.state_root == state_root,
        t.producer == producer,
{
    let snapshot = crate::node::runtime::DagSnapshot::of_dag(dag);
    let parents = select_mining_parents(snapshot.tip_hashes.as_slice(), snapshot.genesis_hash);
    let difficulty = crate::consensus::daa::next_difficulty(dag);
    let reward = calculate_expected_block_reward(emitted_supply, &RewardConfig::default());
    let coinbase = Transaction::new_transfer([0u8; 20], producer, reward, 0, 0, 0);
    let mut bytes: Vec<u8> = Vec::new();
    let ch = coinbase.hash();
    push_slice(&mut bytes, ch.as_slice());
    let ghost start = bytes@;
    let mut i: usize = 0;
    while i < transactions.len()
        invariant
            i <= transactions@.len(),
            bytes@ == start + concat_tx_hashes(transactions@.subrange(0, i as int)),
        decreases transactions@.len() - i,
    {
        let th = transactions[i].hash();
        push_slice(&mut bytes, th.as_slice());
        proof {
            let sub = transactions@.subrange(0, i + 1);
            assert(sub.drop_last() =~= transactions@.subrange(0, i as int));
        }
        i = i + 1;
        assert(bytes@ =~= start + concat_tx_hashes(transactions@.subrange(0, i as int)));
    }
    assert(transactions@.subrange(0, transactions@.len() as int) =~= transactions@);
    let merkle_root = sha256(&bytes);
    BlockTemplate {
        parents,
        transactions,
        timestamp,
        difficulty,
        blue_score: snapshot.height + 1,
        daa_score: snapshot.height + 1,
        merkle_root,
        coinbase,
        state_root,
        producer,
    }
}

/// The coinbase transaction of a block template: the reward minted to
/// the miner at the block's blue score, with the blue score as its nonce.
pub fn build_coinbase(miner_address: [u8; 20], reward: u64, blue_score: u64) -> (r: Result<Transaction, String>)
    ensures
        r matches Ok(tx) && crate::chain::transaction::is_zero_address(tx.from) && tx.payload == (TxPayload::Coinbase {
            to: miner_address,
            amount: reward,
            blue_score,
        }) && tx.nonce == blue_score && tx.gas_limit == 0 && tx.gas_price == 0,
{
    Ok(Transaction::new_coinbase(miner_address, reward, blue_score, blue_score))
}

} // verus!
