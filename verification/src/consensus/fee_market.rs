use vstd::prelude::*;
use crate::chain::block::Block;
use crate::chain::bytes::{addr_eq, hash_eq};
use crate::chain::hash_order::lemma_hash_view_eq;
use crate::chain::transaction::{tx_hash_spec, Address, Transaction};
use crate::consensus::blue_set_manager::{entry_value, first_entry, lemma_entry_value_update, lemma_first_entry, lemma_first_entry_push};
use crate::dag::BlockDAG;

verus! {

/// Smallest base fee.
pub const BASE_FEE_MIN: u64 = 1;

/// Base fee for the block after `last`: 10% more than its base fee (at
/// least `BASE_FEE_MIN`) when it carried more than half of a 1000
/// transaction target, 10% less otherwise, and never below `BASE_FEE_MIN`.
pub open spec fn base_fee_after(last: Block) -> nat {
    let prev = if last.header.base_fee < BASE_FEE_MIN {
        BASE_FEE_MIN as nat
    } else {
        last.header.base_fee as nat
    };
    let next = if last.transactions@.len() * 2 > 1000 {
        prev + prev * 10 / 100
    } else {
        (prev - prev * 10 / 100) as nat
    };
    if next < BASE_FEE_MIN {
        BASE_FEE_MIN as nat
    } else {
        next
    }
}

/// Base fee for the next block of a DAG: `BASE_FEE_MIN` for an empty DAG,
/// else the fee after its most recent block.
pub open spec fn next_base_fee_spec(s: Seq<Block>) -> nat {
    if s.len() == 0 {
        BASE_FEE_MIN as nat
    } else {
        base_fee_after(s.last())
    }
}

/// Base fee for the next block, from the most recent block of the DAG.
pub fn next_base_fee(dag: &BlockDAG) -> (fee: u64)
    requires
        dag@.len() > 0 ==> dag@.last().header.base_fee <= u64::MAX / 10,
    ensures
        fee as nat == next_base_fee_spec(dag@),
{
    let n = dag.block_count();
    if n == 0 {
        return BASE_FEE_MIN;
    }
    let last_block = dag.block_at(n - 1);
    let prev_base: u64 = if last_block.header.base_fee < BASE_FEE_MIN {
        BASE_FEE_MIN
    } else {
        last_block.header.base_fee
    };
    let tx_count = last_block.transactions.len() as u64;
    let target: u64 = 1000;
    let next: u64 = if tx_count > target / 2 {
        prev_base + prev_base * 10 / 100
    } else {
        prev_base.saturating_sub(prev_base * 10 / 100)
    };
    if next < BASE_FEE_MIN {
        BASE_FEE_MIN
    } else {
        next
    }
}


/// The base fee moves by at most a tenth of the previous one (itself at
/// least `BASE_FEE_MIN`) from one block to the next, and never drops below
/// `BASE_FEE_MIN`.
pub proof fn lemma_base_fee_step_bounded(last: Block)
    ensures
        base_fee_after(last) >= BASE_FEE_MIN,
        ({
            let prev = if last.header.base_fee < BASE_FEE_MIN {
                BASE_FEE_MIN as nat
            } else {
                last.header.base_fee as nat
            };
            &&& base_fee_after(last) <= prev + prev / 10
            &&& base_fee_after(last) + prev / 10 >= prev
        }),
{
    let prev: nat = if last.header.base_fee < BASE_FEE_MIN {
        BASE_FEE_MIN as nat
    } else {
        last.header.base_fee as nat
    };
    assert(prev * 10 / 100 == prev / 10) by (nonlinear_arith);
}

/// The base fee follows the load of the most recent block: when it carried
/// at most half of the 1000-transaction target the next base fee is not
/// above the previous one (a tenth lower, at least `BASE_FEE_MIN`); when it
/// carried more, the next base fee is a tenth higher, never lower.
pub proof fn lemma_base_fee_direction(last: Block)
    ensures
        ({
            let prev = if last.header.base_fee < BASE_FEE_MIN {
                BASE_FEE_MIN as nat
            } else {
                last.header.base_fee as nat
            };
            &&& last.transactions@.len() * 2 <= 1000 ==> base_fee_after(last) <= prev
            &&& last.transactions@.len() * 2 <= 1000 ==> base_fee_after(last) == if prev - prev / 10
                < BASE_FEE_MIN {
                BASE_FEE_MIN as nat
            } else {
                (prev - prev / 10) as nat
            }
            &&& last.transactions@.len() * 2 > 1000 ==> base_fee_after(last) >= prev
            &&& last.transactions@.len() * 2 > 1000 ==> base_fee_after(last) == prev + prev / 10
        }),
{
    let prev: nat = if last.header.base_fee < BASE_FEE_MIN {
        BASE_FEE_MIN as nat
    } else {
        last.header.base_fee as nat
    };
    assert(prev * 10 / 100 == prev / 10) by (nonlinear_arith);
}

/// Of two blocks with the same base fee, the one carrying more transactions
/// never leads to a lower next base fee.
pub proof fn lemma_base_fee_monotone_in_load(a: Block, b: Block)
    requires
        a.header.base_fee == b.header.base_fee,
        a.transactions@.len() <= b.transactions@.len(),
    ensures
        base_fee_after(a) <= base_fee_after(b),
{
    lemma_base_fee_direction(a);
    lemma_base_fee_direction(b);
}

/// Fee market configuration. The fractions of the market (target block
/// utilisation, smoothing factor, congestion threshold) are held in
/// millionths.
#[derive(Clone, Debug)]
pub struct FeeConfig {
    pub target_block_utilization_ppm: u64,
    pub base_fee_adjust_up_percent: u64,
    pub base_fee_adjust_down_percent: u64,
    pub base_fee_min: u64,
    pub base_fee_max: u64,
    pub ema_alpha_ppm: u64,
    pub congestion_threshold_ppm: u64,
    pub max_mempool_size: usize,
    pub min_fee_threshold: u64,
    pub tx_per_address_limit: usize,
    /// Length of the per-address rate window, in seconds.
    pub address_limit_window: u64,
}

impl Default for FeeConfig {
    fn default() -> (c: Self)
        ensures
            c.target_block_utilization_ppm == 750_000,
            c.base_fee_adjust_up_percent == 115,
            c.base_fee_adjust_down_percent == 95,
            c.base_fee_min == 1,
            c.base_fee_max == 1_000_000,
            c.ema_alpha_ppm == 200_000,
            c.congestion_threshold_ppm == 900_000,
            c.max_mempool_size == 50000,
            c.min_fee_threshold == 1,
            c.tx_per_address_limit == 100,
            c.address_limit_window == 60,
    {
        FeeConfig {
            target_block_utilization_ppm: 750_000,
            base_fee_adjust_up_percent: 115,
            base_fee_adjust_down_percent: 95,
            base_fee_min: 1,
            base_fee_max: 1_000_000,
            ema_alpha_ppm: 200_000,
            congestion_threshold_ppm: 900_000,
            max_mempool_size: 50000,
            min_fee_threshold: 1,
            tx_per_address_limit: 100,
            address_limit_window: 60,
        }
    }
}

/// Estimated size of a transaction in the fee market, in bytes.
pub const ENTRY_SIZE_BYTES: usize = 200;

/// Age after which an entry leaves the fee market, in seconds.
pub const ENTRY_MAX_AGE_SECS: u64 = 3600;

/// `a - b`, or 0 when `b` is larger.
pub open spec fn sat_sub_spec(a: u64, b: u64) -> u64 {
    if a >= b {
        (a - b) as u64
    } else {
        0
    }
}

/// A transaction waiting in the fee market with its fee figures; the
/// insertion time is in seconds.
#[derive(Clone, Copy, Debug, PartialEq)]
pub struct MempoolEntry {
    pub transaction: Transaction,
    pub effective_fee_per_byte: u64,
    pub priority_fee: u64,
    pub max_fee: u64,
    pub size_bytes: usize,
    pub inserted_at: u64,
    pub sender: Address,
}

/// `a` is served before `b`: a higher fee per byte, or the same fee and
/// an earlier insertion.
pub open spec fn entry_precedes(a: MempoolEntry, b: MempoolEntry) -> bool {
    a.effective_fee_per_byte > b.effective_fee_per_byte || (a.effective_fee_per_byte == b.effective_fee_per_byte
        && a.inserted_at < b.inserted_at)
}

/// The hash of an entry's transaction.
pub open spec fn entry_hash(e: MempoolEntry) -> Seq<u8> {
    tx_hash_spec(e.transaction)
}

/// The entry of `tx` inserted at `inserted_at` under `base_fee`.
pub open spec fn entry_spec(tx: Transaction, base_fee: u64, inserted_at: u64) -> MempoolEntry {
    MempoolEntry {
        transaction: tx,
        effective_fee_per_byte: if tx.gas_limit > 0 {
            (sat_sub_spec(tx.gas_price, base_fee) / 200) as u64
        } else {
            0
        },
        priority_fee: sat_sub_spec(tx.gas_price, base_fee),
        max_fee: tx.gas_price,
        size_bytes: ENTRY_SIZE_BYTES,
        inserted_at,
        sender: tx.from,
    }
}

impl MempoolEntry {
    /// The entry of a transaction inserted at `inserted_at` under the base
    /// fee: the priority fee is what the gas price exceeds the base fee by,
    /// spread over the estimated size for the fee per byte (0 without gas).
    pub fn new(tx: Transaction, base_fee: u64, inserted_at: u64) -> (e: Self)
        ensures
            e == entry_spec(tx, base_fee, inserted_at),
            e.transaction == tx,
            e.priority_fee == sat_sub_spec(tx.gas_price, base_fee),
            e.effective_fee_per_byte == (if tx.gas_limit > 0 {
                sat_sub_spec(tx.gas_price, base_fee) / 200
            } else {
                0
            }),
            e.max_fee == tx.gas_price,
            e.size_bytes == ENTRY_SIZE_BYTES,
            e.inserted_at == inserted_at,
            e.sender == tx.from,
    {
        let size_bytes = ENTRY_SIZE_BYTES;
        let priority_fee = tx.gas_price.saturating_sub(base_fee);
        let effective_fee_per_byte = if tx.gas_limit > 0 {
            priority_fee / 200
        } else {
            0
        };
        MempoolEntry {
            transaction: tx,
            effective_fee_per_byte,
            priority_fee,
            max_fee: tx.gas_price,
            size_bytes,
            inserted_at,
            sender: tx.from,
        }
    }

    /// Whether this entry is served before `other`.
    pub fn precedes(&self, other: &MempoolEntry) -> (r: bool)
        ensures
            r == entry_precedes(*self, *other),
    {
        self.effective_fee_per_byte > other.effective_fee_per_byte || (self.effective_fee_per_byte
            == other.effective_fee_per_byte && self.inserted_at < other.inserted_at)
    }
}

/// The entries of `s` whose transaction hash differs from `h`.
pub open spec fn without_hash(s: Seq<MempoolEntry>, h: Seq<u8>) -> Seq<MempoolEntry> {
    s.filter(|e: MempoolEntry| entry_hash(e) != h)
}

/// The entries of `s` with a transaction hash outside `fin`.
pub open spec fn without_finalized(s: Seq<MempoolEntry>, fin: Seq<[u8; 32]>) -> Seq<MempoolEntry> {
    s.filter(|e: MempoolEntry| forall|k: int| 0 <= k < fin.len() ==> #[trigger] fin[k]@ != entry_hash(e))
}

/// How many entries from the front of `s` fit, one after the other, in
/// `room` bytes: the walk stops at the first that does not fit.
pub open spec fn fit_count(s: Seq<MempoolEntry>, room: int) -> nat
    decreases s.len(),
{
    if s.len() == 0 || s[0].size_bytes > room {
        0
    } else {
        1 + fit_count(s.drop_first(), room - s[0].size_bytes)
    }
}

/// The transactions of a sequence of entries.
pub open spec fn transactions_of(s: Seq<MempoolEntry>) -> Seq<Transaction> {
    s.map_values(|e: MempoolEntry| e.transaction)
}

/// What the miner keeps of a transaction's gas under the base fee.
pub open spec fn miner_fee(tx: Transaction, base_fee: u64) -> nat {
    let cost = tx.gas_limit * tx.gas_price;
    let burned = base_fee * tx.gas_limit;
    if cost >= burned {
        (cost - burned) as nat
    } else {
        0
    }
}

/// Sum of the miner fees of `txs`, saturating at `u64::MAX`.
pub open spec fn fee_total(txs: Seq<Transaction>, base_fee: u64) -> nat
    decreases txs.len(),
{
    if txs.len() == 0 {
        0
    } else {
        let sum = fee_total(txs.drop_last(), base_fee) + miner_fee(txs.last(), base_fee);
        if sum > u64::MAX {
            u64::MAX as nat
        } else {
            sum
        }
    }
}

/// The fee market: the base fee, the last recorded network congestion, the
/// waiting entries and a per-address transaction counter over a time window.
pub struct FeeMarket {
    config: FeeConfig,
    base_fee: u64,
    network_congestion_ppm: u64,
    entries: Vec<MempoolEntry>,
    address_tx_count: Vec<(Address, (usize, u64))>,
}

impl FeeMarket {
    /// The configuration.
    pub closed spec fn cfg(&self) -> FeeConfig {
        self.config
    }

    /// The current base fee.
    pub closed spec fn base(&self) -> u64 {
        self.base_fee
    }

    /// The last recorded network congestion, in millionths.
    pub closed spec fn congestion(&self) -> u64 {
        self.network_congestion_ppm
    }

    /// The waiting entries, in insertion order.
    pub closed spec fn pending(&self) -> Seq<MempoolEntry> {
        self.entries@
    }

    /// The counter of `a`: transactions counted and the start of its window.
    pub closed spec fn count_record(&self, a: Address) -> Option<(usize, u64)> {
        entry_value(self.address_tx_count@, a)
    }

    /// A market with the minimal base fee, no congestion and no entries.
    pub fn new(config: FeeConfig) -> (m: Self)
        ensures
            m.cfg() == config,
            m.base() == config.base_fee_min,
            m.congestion() == 0,
            m.pending().len() == 0,
            forall|a: Address| #[trigger] m.count_record(a) is None,
    {
        let base_fee = config.base_fee_min;
        FeeMarket { config, base_fee, network_congestion_ppm: 0, entries: Vec::new(), address_tx_count: Vec::new() }
    }

    /// Number of waiting entries.
    pub fn pending_len(&self) -> (n: usize)
        ensures
            n == self.pending().len(),
    {
        self.entries.len()
    }

    /// The last recorded network congestion, in millionths.
    pub fn network_congestion_ppm(&self) -> (c: u64)
        ensures
            c == self.congestion(),
    {
        self.network_congestion_ppm
    }

    /// The configuration.
    pub fn config(&self) -> (c: &FeeConfig)
        ensures
            *c == self.cfg(),
    {
        &self.config
    }

    /// The current base fee.
    pub fn get_base_fee(&self) -> (r: u64)
        ensures
            r == self.base(),
    {
        self.base_fee
    }

    /// Record the network congestion measured over the DAG and the market,
    /// in millionths.
    pub fn record_network_congestion(&mut self, congestion_ppm: u64)
        ensures
            final(self).congestion() == congestion_ppm,
            final(self).cfg() == old(self).cfg(),
            final(self).base() == old(self).base(),
            final(self).pending() == old(self).pending(),
            forall|a: Address| #[trigger] final(self).count_record(a) == old(self).count_record(a),
    {
        self.network_congestion_ppm = congestion_ppm;
    }

    /// Set the base fee to a smoothed value clamped to the configured range.
    pub fn commit_base_fee(&mut self, smoothed_fee: u64) -> (r: u64)
        requires
            old(self).cfg().base_fee_min <= old(self).cfg().base_fee_max,
        ensures
            r == (if smoothed_fee < old(self).cfg().base_fee_min {
                old(self).cfg().base_fee_min
            } else if smoothed_fee > old(self).cfg().base_fee_max {
                old(self).cfg().base_fee_max
            } else {
                smoothed_fee
            }),
            final(self).base() == r,
            final(self).cfg() == old(self).cfg(),
            final(self).congestion() == old(self).congestion(),
            final(self).pending() == old(self).pending(),
            forall|a: Address| #[trigger] final(self).count_record(a) == old(self).count_record(a),
    {
        let new_fee = if smoothed_fee < self.config.base_fee_min {
            self.config.base_fee_min
        } else if smoothed_fee > self.config.base_fee_max {
            self.config.base_fee_max
        } else {
            smoothed_fee
        };
        self.base_fee = new_fee;
        new_fee
    }

    /// The transactions of the waiting entries, walked in stored order,
    /// that fit one after the other in `max_size` bytes; the walk stops at
    /// the first that does not fit.
    pub fn select_transactions_for_block(&self, max_size: usize) -> (r: Result<Vec<Transaction>, String>)
        ensures
            r matches Ok(v) && v@ == transactions_of(self.pending().take(fit_count(self.pending(), max_size as int) as int)),
    {
        let ghost s = self.entries@;
        let mut selected: Vec<Transaction> = Vec::new();
        let mut current_size: usize = 0;
        let mut i: usize = 0;
        assert(s.skip(0) =~= s);
        while i < self.entries.len()
            invariant
                s == self.entries@,
                i <= s.len(),
                current_size <= max_size,
                fit_count(s, max_size as int) == i + fit_count(s.skip(i as int), max_size - current_size),
                selected@ == transactions_of(s.take(i as int)),
            ensures
                selected@ == transactions_of(s.take(fit_count(s, max_size as int) as int)),
            decreases s.len() - i,
        {
            let e = &self.entries[i];
            assert(s.skip(i as int)[0] == s[i as int]);
            assert(s.skip(i as int).drop_first() =~= s.skip(i + 1));
            if e.size_bytes > max_size - current_size {
                break;
            }
            selected.push(e.transaction);
            current_size = current_size + e.size_bytes;
            i = i + 1;
            assert(selected@ =~= transactions_of(s.take(i as int)));
            proof {
                if i == s.len() {
                    assert(s.skip(i as int).len() == 0);
                }
            }
        }
        Ok(selected)
    }

    /// Miner fee reward of a block's transactions under the current base
    /// fee: each pays gas limit times gas price, less the base fee burned
    /// per unit of gas (at least 0), summed with saturation.
    pub fn estimate_block_fee_reward(&self, transactions: &[Transaction]) -> (r: Result<u64, String>)
        requires
            forall|i: int|
                0 <= i < transactions@.len() ==> #[trigger] transactions@[i].gas_limit * transactions@[i].gas_price <= u64::MAX
                    && self.base() * transactions@[i].gas_limit <= u64::MAX,
        ensures
            r matches Ok(v) && v as nat == fee_total(transactions@, self.base()),
    {
        let base_fee = self.base_fee;
        let mut total: u64 = 0;
        let mut i: usize = 0;
        while i < transactions.len()
            invariant
                base_fee == self.base(),
                i <= transactions@.len(),
                total as nat == fee_total(transactions@.take(i as int), base_fee),
                forall|j: int|
                    0 <= j < transactions@.len() ==> #[trigger] transactions@[j].gas_limit * transactions@[j].gas_price <= u64::MAX
                        && base_fee * transactions@[j].gas_limit <= u64::MAX,
            decreases transactions@.len() - i,
        {
            let tx = &transactions[i];
            assert(transactions@[i as int].gas_limit * transactions@[i as int].gas_price <= u64::MAX);
            let gas_cost = tx.gas_limit * tx.gas_price;
            let burned = base_fee * tx.gas_limit;
            let miner = gas_cost.saturating_sub(burned);
            total = total.saturating_add(miner);
            assert(transactions@.take(i + 1).drop_last() =~= transactions@.take(i as int));
            i = i + 1;
        }
        assert(transactions@.take(transactions@.len() as int) =~= transactions@);
        Ok(total)
    }
}

/// `g` is the first entry of `s` served last: no entry is served after
/// it, and every earlier entry is served before it.
pub open spec fn is_first_last_served(s: Seq<MempoolEntry>, g: int) -> bool {
    &&& 0 <= g < s.len()
    &&& forall|j: int| 0 <= j < s.len() ==> !entry_precedes(s[g], #[trigger] s[j])
    &&& forall|j: int| 0 <= j < g ==> entry_precedes(#[trigger] s[j], s[g])
}

/// Position of the first entry served last.
pub open spec fn last_served_index(s: Seq<MempoolEntry>) -> int {
    choose|g: int| is_first_last_served(s, g)
}

/// Evict entries until at most `max` remain: each round drops every entry
/// with the transaction hash of the first entry served last.
pub open spec fn evict_to(s: Seq<MempoolEntry>, max: nat) -> Seq<MempoolEntry>
    decreases s.len(),
{
    if s.len() <= max {
        s
    } else {
        let r = without_hash(s, entry_hash(s[last_served_index(s)]));
        if r.len() < s.len() {
            evict_to(r, max)
        } else {
            s
        }
    }
}

/// The entries left after eviction down to `max` and after dropping those
/// inserted an hour or more before `now`.
pub open spec fn evicted(s: Seq<MempoolEntry>, max: nat, now: u64) -> Seq<MempoolEntry> {
    evict_to(s, max).filter(|e: MempoolEntry| e.inserted_at > now - ENTRY_MAX_AGE_SECS)
}

/// A filter drops an entry that fails its predicate.
proof fn lemma_filter_shrinks<T>(s: Seq<T>, p: spec_fn(T) -> bool, i: int)
    requires
        0 <= i < s.len(),
        !p(s[i]),
    ensures
        s.filter(p).len() < s.len(),
    decreases s.len(),
{
    reveal_with_fuel(Seq::filter, 1);
    let d = s.drop_last();
    d.lemma_filter_len(p);
    if i < s.len() - 1 {
        assert(d[i] == s[i]);
        lemma_filter_shrinks(d, p, i);
    }
}

/// There is at most one first entry served last.
proof fn lemma_last_served_unique(s: Seq<MempoolEntry>, g1: int, g2: int)
    requires
        is_first_last_served(s, g1),
        is_first_last_served(s, g2),
    ensures
        g1 == g2,
{
    if g1 < g2 {
        assert(entry_precedes(s[g1], s[g2]));
    } else if g2 < g1 {
        assert(entry_precedes(s[g2], s[g1]));
    }
}

/// Position of the first entry served last.
fn find_last_served(s: &Vec<MempoolEntry>) -> (g: usize)
    requires
        s@.len() > 0,
    ensures
        is_first_last_served(s@, g as int),
        g as int == last_served_index(s@),
{
    let mut g: usize = 0;
    let mut i: usize = 1;
    while i < s.len()
        invariant
            1 <= i <= s@.len(),
            g < i,
            forall|j: int| 0 <= j < i ==> !entry_precedes(s@[g as int], #[trigger] s@[j]),
            forall|j: int| 0 <= j < g ==> entry_precedes(#[trigger] s@[j], s@[g as int]),
        decreases s@.len() - i,
    {
        if s[g].precedes(&s[i]) {
            g = i;
        }
        i = i + 1;
    }
    proof {
        let c = choose|c: int| is_first_last_served(s@, c);
        lemma_last_served_unique(s@, g as int, c);
    }
    g
}

/// The entries of `entries` whose transaction hash differs from `h`.
fn keep_other_hashes(entries: &Vec<MempoolEntry>, h: &[u8; 32]) -> (r: Vec<MempoolEntry>)
    ensures
        r@ == without_hash(entries@, h@),
{
    let ghost keep = |e: MempoolEntry| entry_hash(e) != h@;
    let mut out: Vec<MempoolEntry> = Vec::new();
    let mut i: usize = 0;
    proof {
        reveal_with_fuel(Seq::filter, 1);
        assert(entries@.take(0) =~= Seq::<MempoolEntry>::empty());
    }
    while i < entries.len()
        invariant
            keep == (|e: MempoolEntry| entry_hash(e) != h@),
            i <= entries@.len(),
            out@ == entries@.take(i as int).filter(keep),
        decreases entries@.len() - i,
    {
        let e = entries[i];
        let eh = e.transaction.hash();
        let same = hash_eq(&eh, h);
        proof {
            reveal_with_fuel(Seq::filter, 1);
            assert(entries@.take(i + 1).drop_last() =~= entries@.take(i as int));
            assert(entries@.take(i + 1).last() == e);
            if eh@ == h@ {
                lemma_hash_view_eq(eh, *h);
            }
            assert(same == !keep(e));
        }
        if !same {
            out.push(e);
            assert(entries@.take(i + 1).filter(keep) =~= entries@.take(i as int).filter(keep).push(e));
        } else {
            assert(entries@.take(i + 1).filter(keep) =~= entries@.take(i as int).filter(keep));
        }
        i = i + 1;
    }
    assert(entries@.take(entries@.len() as int) =~= entries@);
    out
}

/// Position of the first counter of `a`.
fn find_address(c: &Vec<(Address, (usize, u64))>, a: &Address) -> (r: Option<usize>)
    ensures
        match r {
            Some(t) => first_entry(c@, *a) == Some(t as int) && t < c@.len(),
            None => first_entry(c@, *a) is None,
        },
{
    let mut t: usize = 0;
    while t < c.len()
        invariant
            t <= c@.len(),
            forall|u: int| 0 <= u < t ==> (#[trigger] c@[u]).0 != *a,
        decreases c@.len() - t,
    {
        if addr_eq(&c[t].0, a) {
            proof {
                lemma_first_entry(c@, *a);
                match first_entry(c@, *a) {
                    Some(x) => {
                        if x < t {
                            assert(c@[x].0 != *a);
                        } else if x > t {
                            assert(c@[t as int].0 != *a);
                        }
                    },
                    None => {
                        assert(c@[t as int].0 != *a);
                    },
                }
            }
            return Some(t);
        }
        t = t + 1;
    }
    proof {
        lemma_first_entry(c@, *a);
        if first_entry(c@, *a) is Some {
            let x = first_entry(c@, *a)->0;
            assert(c@[x].0 != *a);
        }
    }
    None
}

/// Set the counter of `a` to `v`; every other counter is kept.
fn put_count(c: &mut Vec<(Address, (usize, u64))>, a: &Address, v: (usize, u64))
    ensures
        forall|k: Address| #[trigger] entry_value(final(c)@, k) == if k == *a {
            Some(v)
        } else {
            entry_value(old(c)@, k)
        },
{
    match find_address(c, a) {
        Some(t) => {
            let ghost before = c@;
            c.set(t, (*a, v));
            proof {
                assert(c@ == before.update(t as int, (*a, v)));
                assert forall|k: Address| #[trigger] entry_value(c@, k) == if k == *a {
                    Some(v)
                } else {
                    entry_value(before, k)
                } by {
                    lemma_entry_value_update(before, *a, v, k);
                }
            }
        },
        None => {
            let ghost before = c@;
            c.push((*a, v));
            proof {
                assert forall|k: Address| #[trigger] entry_value(c@, k) == if k == *a {
                    Some(v)
                } else {
                    entry_value(before, k)
                } by {
                    lemma_first_entry_push(before, (*a, v), k);
                    if first_entry(before, k) is None && k == *a {
                        assert(c@[before.len() as int] == (*a, v));
                    }
                    lemma_first_entry(before, k);
                    match first_entry(before, k) {
                        Some(t) => {
                            assert(c@[t] == before[t]);
                        },
                        None => {},
                    }
                }
            }
        },
    }
}

impl FeeMarket {
    /// The counter of `a` at time `now` after an expired window is
    /// restarted: (transactions counted, start of the window).
    pub open spec fn record_at(&self, a: Address, now: u64) -> (usize, u64) {
        let (c, s) = match self.count_record(a) {
            Some(r) => r,
            None => (0usize, now),
        };
        if now - s > self.cfg().address_limit_window {
            (0usize, now)
        } else {
            (c, s)
        }
    }

    /// Drop every entry whose transaction has the given hash.
    pub fn remove_transaction(&mut self, tx_hash: &[u8; 32]) -> (r: Result<(), String>)
        ensures
            r is Ok,
            final(self).pending() == without_hash(old(self).pending(), tx_hash@),
            final(self).cfg() == old(self).cfg(),
            final(self).base() == old(self).base(),
            final(self).congestion() == old(self).congestion(),
            forall|a: Address| #[trigger] final(self).count_record(a) == old(self).count_record(a),
    {
        self.entries = keep_other_hashes(&self.entries, tx_hash);
        Ok(())
    }

    /// Drop every entry whose transaction hash is among the finalized ones.
    pub fn prune_finalized(&mut self, finalized_txs: &[[u8; 32]])
        ensures
            final(self).pending() == without_finalized(old(self).pending(), finalized_txs@),
            final(self).cfg() == old(self).cfg(),
            final(self).base() == old(self).base(),
            final(self).congestion() == old(self).congestion(),
            forall|a: Address| #[trigger] final(self).count_record(a) == old(self).count_record(a),
    {
        let ghost s = self.entries@;
        let ghost fin = finalized_txs@;
        let ghost keep = |e: MempoolEntry| forall|k: int| 0 <= k < fin.len() ==> #[trigger] fin[k]@ != entry_hash(e);
        let mut out: Vec<MempoolEntry> = Vec::new();
        let mut i: usize = 0;
        proof {
            reveal_with_fuel(Seq::filter, 1);
            assert(s.take(0) =~= Seq::<MempoolEntry>::empty());
        }
        while i < self.entries.len()
            invariant
                s == self.entries@,
                fin == finalized_txs@,
                keep == (|e: MempoolEntry| forall|k: int| 0 <= k < fin.len() ==> #[trigger] fin[k]@ != entry_hash(e)),
                i <= s.len(),
                out@ == s.take(i as int).filter(keep),
            decreases s.len() - i,
        {
            let e = self.entries[i];
            let eh = e.transaction.hash();
            let mut listed = false;
            let mut k: usize = 0;
            while k < finalized_txs.len()
                invariant
                    k <= fin.len(),
                    fin == finalized_txs@,
                    eh@ == entry_hash(e),
                    listed == exists|m: int| 0 <= m < k && fin[m]@ == eh@,
                decreases fin.len() - k,
            {
                if !listed && hash_eq(&finalized_txs[k], &eh) {
                    listed = true;
                }
                proof {
                    if fin[k as int]@ == eh@ {
                        lemma_hash_view_eq(fin[k as int], eh);
                    }
                }
                k = k + 1;
            }
            proof {
                reveal_with_fuel(Seq::filter, 1);
                assert(s.take(i + 1).drop_last() =~= s.take(i as int));
                assert(s.take(i + 1).last() == e);
                if listed {
                    let m = choose|m: int| 0 <= m < k && fin[m]@ == eh@;
                    assert(!keep(e));
                } else {
                    assert(keep(e));
                }
            }
            if !listed {
                out.push(e);
                assert(s.take(i + 1).filter(keep) =~= s.take(i as int).filter(keep).push(e));
            } else {
                assert(s.take(i + 1).filter(keep) =~= s.take(i as int).filter(keep));
            }
            i = i + 1;
        }
        proof {
            assert(s.take(s.len() as int) =~= s);
            assert(keep == (|e: MempoolEntry| forall|k: int| 0 <= k < fin.len() ==> #[trigger] fin[k]@ != entry_hash(e)));
        }
        self.entries = out;
    }

    /// Evict entries while more than the configured maximum wait: each
    /// round drops every entry with the transaction hash of the entry served
    /// last; then drop the entries inserted an hour or more before `now`.
    pub fn evict_low_fee_transactions(&mut self, now: u64)
        requires
            now >= ENTRY_MAX_AGE_SECS,
        ensures
            final(self).pending() == evicted(old(self).pending(), old(self).cfg().max_mempool_size as nat, now),
            final(self).pending().len() <= old(self).cfg().max_mempool_size,
            final(self).cfg() == old(self).cfg(),
            final(self).base() == old(self).base(),
            final(self).congestion() == old(self).congestion(),
            forall|a: Address| #[trigger] final(self).count_record(a) == old(self).count_record(a),
    {
        let ghost start = self.entries@;
        let max = self.config.max_mempool_size;
        while self.entries.len() > max
            invariant
                max == self.config.max_mempool_size,
                self.config == old(self).config,
                self.base_fee == old(self).base_fee,
                self.network_congestion_ppm == old(self).network_congestion_ppm,
                self.address_tx_count == old(self).address_tx_count,
                start == old(self).entries@,
                evict_to(self.entries@, max as nat) == evict_to(start, max as nat),
            decreases self.entries@.len(),
        {
            let ghost cur = self.entries@;
            let g = find_last_served(&self.entries);
            let h = self.entries[g].transaction.hash();
            let kept = keep_other_hashes(&self.entries, &h);
            proof {
                let keep = |e: MempoolEntry| entry_hash(e) != h@;
                lemma_filter_shrinks(cur, keep, g as int);
            }
            self.entries = kept;
        }
        let cutoff: u64 = now - ENTRY_MAX_AGE_SECS;
        let ghost left = self.entries@;
        let ghost young = |e: MempoolEntry| e.inserted_at > now - ENTRY_MAX_AGE_SECS;
        let mut out: Vec<MempoolEntry> = Vec::new();
        let mut i: usize = 0;
        proof {
            reveal_with_fuel(Seq::filter, 1);
            assert(left.take(0) =~= Seq::<MempoolEntry>::empty());
        }
        while i < self.entries.len()
            invariant
                left == self.entries@,
                young == (|e: MempoolEntry| e.inserted_at > now - ENTRY_MAX_AGE_SECS),
                cutoff == now - ENTRY_MAX_AGE_SECS,
                i <= left.len(),
                out@ == left.take(i as int).filter(young),
            decreases left.len() - i,
        {
            let e = self.entries[i];
            proof {
                reveal_with_fuel(Seq::filter, 1);
                assert(left.take(i + 1).drop_last() =~= left.take(i as int));
                assert(left.take(i + 1).last() == e);
            }
            if e.inserted_at > cutoff {
                out.push(e);
                assert(left.take(i + 1).filter(young) =~= left.take(i as int).filter(young).push(e));
            } else {
                assert(left.take(i + 1).filter(young) =~= left.take(i as int).filter(young));
            }
            i = i + 1;
        }
        proof {
            assert(left.take(left.len() as int) =~= left);
            lemma_evicted_within(start, max as nat, now);
        }
        self.entries = out;
    }
}

impl FeeMarket {
    /// Anti-spam rule: restart the sender's window when it has expired, then
    /// refuse the transaction when the sender has reached the limit, else
    /// count it.
    fn check_anti_spam(&mut self, tx: &Transaction, now: u64) -> (r: Result<(), String>)
        requires
            old(self).count_record(tx.from) matches Some(c) ==> c.1 <= now,
        ensures
            final(self).cfg() == old(self).cfg(),
            final(self).base() == old(self).base(),
            final(self).congestion() == old(self).congestion(),
            final(self).pending() == old(self).pending(),
            forall|a: Address| a != tx.from ==> #[trigger] final(self).count_record(a) == old(self).count_record(a),
            ({
                let rec = old(self).record_at(tx.from, now);
                if rec.0 >= old(self).cfg().tx_per_address_limit {
                    &&& r matches Err(e) && e@ == "Too many transactions from this address"@
                    &&& final(self).count_record(tx.from) == Some(rec)
                } else {
                    &&& r is Ok
                    &&& final(self).count_record(tx.from) == Some(((rec.0 + 1) as usize, rec.1))
                }
            }),
    {
        let (count, start): (usize, u64) = match find_address(&self.address_tx_count, &tx.from) {
            Some(t) => self.address_tx_count[t].1,
            None => (0, now),
        };
        let (count, start): (usize, u64) = if now - start > self.config.address_limit_window {
            (0, now)
        } else {
            (count, start)
        };
        if count >= self.config.tx_per_address_limit {
            put_count(&mut self.address_tx_count, &tx.from, (count, start));
            return Err("Too many transactions from this address".to_string());
        }
        put_count(&mut self.address_tx_count, &tx.from, (count + 1, start));
        Ok(())
    }

    /// Count a transaction of `address`: the window restarts with it when
    /// it has expired.
    fn update_address_tx_count(&mut self, address: &Address, now: u64)
        requires
            old(self).count_record(*address) matches Some(c) ==> c.1 <= now && c.0 < usize::MAX,
        ensures
            final(self).cfg() == old(self).cfg(),
            final(self).base() == old(self).base(),
            final(self).congestion() == old(self).congestion(),
            final(self).pending() == old(self).pending(),
            forall|a: Address| a != *address ==> #[trigger] final(self).count_record(a) == old(self).count_record(a),
            final(self).count_record(*address) == Some(
                match old(self).count_record(*address) {
                    Some(c) => if now - c.1 > old(self).cfg().address_limit_window {
                        (1usize, now)
                    } else {
                        ((c.0 + 1) as usize, c.1)
                    },
                    None => (1usize, now),
                },
            ),
    {
        let (count, start): (usize, u64) = match find_address(&self.address_tx_count, address) {
            Some(t) => self.address_tx_count[t].1,
            None => (0, now),
        };
        if now - start > self.config.address_limit_window {
            put_count(&mut self.address_tx_count, address, (1, now));
        } else {
            put_count(&mut self.address_tx_count, address, (count + 1, start));
        }
    }

    /// Insert a transaction at time `now`: the anti-spam rule first, then a
    /// fee per byte under the minimum is refused while the network is
    /// congested; else the entry joins the market, its sender is counted
    /// again, and entries are evicted.
    pub fn insert_transaction(&mut self, tx: Transaction, now: u64) -> (r: Result<(), String>)
        requires
            now >= ENTRY_MAX_AGE_SECS,
            old(self).cfg().tx_per_address_limit < usize::MAX,
            old(self).count_record(tx.from) matches Some(c) ==> c.1 <= now,
        ensures
            final(self).cfg() == old(self).cfg(),
            final(self).base() == old(self).base(),
            final(self).congestion() == old(self).congestion(),
            forall|a: Address| a != tx.from ==> #[trigger] final(self).count_record(a) == old(self).count_record(a),
            ({
                let rec = old(self).record_at(tx.from, now);
                let e = entry_spec(tx, old(self).base(), now);
                if rec.0 >= old(self).cfg().tx_per_address_limit {
                    &&& r matches Err(m) && m@ == "Too many transactions from this address"@
                    &&& final(self).pending() == old(self).pending()
                    &&& final(self).count_record(tx.from) == Some(rec)
                } else if e.effective_fee_per_byte < old(self).cfg().min_fee_threshold && old(self).congestion()
                    > old(self).cfg().congestion_threshold_ppm {
                    &&& r matches Err(m) && m@ == "Fee too low during network congestion"@
                    &&& final(self).pending() == old(self).pending()
                    &&& final(self).count_record(tx.from) == Some(((rec.0 + 1) as usize, rec.1))
                } else {
                    &&& r is Ok
                    &&& final(self).pending().len() <= old(self).cfg().max_mempool_size
                    &&& final(self).pending() == evicted(
                        old(self).pending().push(e),
                        old(self).cfg().max_mempool_size as nat,
                        now,
                    )
                    &&& final(self).count_record(tx.from) == Some(((rec.0 + 2) as usize, rec.1))
                }
            }),
    {
        match self.check_anti_spam(&tx, now) {
            Ok(()) => {},
            Err(e) => return Err(e),
        }
        let entry = MempoolEntry::new(tx, self.base_fee, now);
        if entry.effective_fee_per_byte < self.config.min_fee_threshold {
            if self.network_congestion_ppm > self.config.congestion_threshold_ppm {
                return Err("Fee too low during network congestion".to_string());
            }
        }
        let ghost checked = *self;
        self.entries.push(entry);
        assert forall|a: Address| #[trigger] self.count_record(a) == checked.count_record(a) by {}
        self.update_address_tx_count(&tx.from, now);
        self.evict_low_fee_transactions(now);
        Ok(())
    }
}

/// Total size of a sequence of entries, in bytes.
pub open spec fn total_size(s: Seq<MempoolEntry>) -> nat
    decreases s.len(),
{
    if s.len() == 0 {
        0
    } else {
        s[0].size_bytes as nat + total_size(s.drop_first())
    }
}

/// No more entries fit than there are.
proof fn lemma_fit_count_le(s: Seq<MempoolEntry>, room: int)
    ensures
        fit_count(s, room) <= s.len(),
    decreases s.len(),
{
    if s.len() > 0 && s[0].size_bytes <= room {
        lemma_fit_count_le(s.drop_first(), room - s[0].size_bytes);
    }
}

/// The entries selected for a block fit in the room they were selected for.
pub proof fn lemma_selection_fits(s: Seq<MempoolEntry>, room: int)
    requires
        room >= 0,
    ensures
        total_size(s.take(fit_count(s, room) as int)) <= room,
    decreases s.len(),
{
    let k = fit_count(s, room);
    if k == 0 {
        assert(s.take(0).len() == 0);
    } else {
        let rest = s.drop_first();
        let room2 = room - s[0].size_bytes;
        lemma_selection_fits(rest, room2);
        lemma_fit_count_le(rest, room2);
        let f = fit_count(rest, room2);
        assert(k == 1 + f);
        assert(s.take(k as int).drop_first() =~= rest.take(f as int));
        assert(s.take(k as int)[0] == s[0]);
    }
}

/// A non-empty sequence of entries has a first entry served last.
pub proof fn lemma_last_served_exists(s: Seq<MempoolEntry>)
    requires
        s.len() > 0,
    ensures
        is_first_last_served(s, last_served_index(s)),
    decreases s.len(),
{
    let n = s.len() - 1;
    if n == 0 {
        assert(is_first_last_served(s, 0));
    } else {
        let d = s.drop_last();
        lemma_last_served_exists(d);
        let g = last_served_index(d);
        assert forall|j: int| 0 <= j < n implies #[trigger] s[j] == d[j] by {}
        if entry_precedes(s[g], s[n]) {
            assert forall|j: int| 0 <= j < n implies entry_precedes(#[trigger] s[j], s[n]) by {
                assert(s[j] == d[j]);
                if j < g {
                    assert(entry_precedes(d[j], d[g]));
                } else if j > g {
                    assert(!entry_precedes(d[g], d[j]));
                }
            }
            assert(is_first_last_served(s, n));
        } else {
            assert(is_first_last_served(s, g)) by {
                assert forall|j: int| 0 <= j < s.len() implies !entry_precedes(s[g], #[trigger] s[j]) by {
                    if j < n {
                        assert(s[j] == d[j]);
                        assert(!entry_precedes(d[g], d[j]));
                    }
                }
                assert forall|j: int| 0 <= j < g implies entry_precedes(#[trigger] s[j], s[g]) by {
                    assert(s[j] == d[j]);
                    assert(entry_precedes(d[j], d[g]));
                }
            }
        }
    }
    let c = choose|c: int| is_first_last_served(s, c);
    assert(is_first_last_served(s, c));
}

/// Eviction leaves at most `max` entries, each one of those it had before.
pub proof fn lemma_evict_within(s: Seq<MempoolEntry>, max: nat)
    ensures
        evict_to(s, max).len() <= max,
        forall|e: MempoolEntry| #[trigger] evict_to(s, max).contains(e) ==> s.contains(e),
    decreases s.len(),
{
    if s.len() > max {
        lemma_last_served_exists(s);
        let g = last_served_index(s);
        let keep = |e: MempoolEntry| entry_hash(e) != entry_hash(s[g]);
        let r = without_hash(s, entry_hash(s[g]));
        lemma_filter_shrinks(s, keep, g);
        assert(r.len() < s.len());
        lemma_evict_within(r, max);
        assert forall|e: MempoolEntry| #[trigger] evict_to(s, max).contains(e) implies s.contains(e) by {
            s.lemma_filter_contains_rev(keep, e);
        }
    }
}

/// After eviction and aging the market holds at most `max` entries, each
/// one it held before.
pub proof fn lemma_evicted_within(s: Seq<MempoolEntry>, max: nat, now: u64)
    ensures
        evicted(s, max, now).len() <= max,
        forall|e: MempoolEntry| #[trigger] evicted(s, max, now).contains(e) ==> s.contains(e),
{
    let young = |e: MempoolEntry| e.inserted_at > now - ENTRY_MAX_AGE_SECS;
    lemma_evict_within(s, max);
    evict_to(s, max).lemma_filter_len(young);
    assert forall|e: MempoolEntry| #[trigger] evicted(s, max, now).contains(e) implies s.contains(e) by {
        evict_to(s, max).lemma_filter_contains_rev(young, e);
    }
}

} // verus!
