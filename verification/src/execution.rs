use vstd::prelude::*;
use crate::chain::transaction::Transaction;

verus! {

/// What the transaction executor reports of one transaction: whether it
/// succeeded and the gas it used.
#[derive(Clone, Copy, Debug)]
pub struct TransactionReceipt {
    pub success: bool,
    pub gas_used: u64,
}

/// Outcome of executing a block.
#[derive(Clone, Copy, Debug)]
pub struct ExecutionResult {
    pub new_state_root: [u8; 32],
    pub executed_transactions: usize,
    pub success: bool,
    pub total_fees: u64,
}

/// `a * b`, saturating at `u64::MAX`.
pub open spec fn sat_mul(a: u64, b: u64) -> nat {
    if a * b > u64::MAX {
        u64::MAX as nat
    } else {
        (a * b) as nat
    }
}

/// Fees paid by the successful receipts: gas used times the gas price of
/// the transaction at the same position, each product saturating.
pub open spec fn fees_of(receipts: Seq<TransactionReceipt>, txs: Seq<Transaction>) -> nat
    decreases receipts.len(),
{
    if receipts.len() == 0 {
        0
    } else {
        let i = receipts.len() - 1;
        fees_of(receipts.drop_last(), txs) + if receipts[i].success {
            sat_mul(receipts[i].gas_used, txs[i].gas_price)
        } else {
            0
        }
    }
}

impl ExecutionResult {
    /// The result of a block's execution from the executor's receipts, in
    /// the order of the block's transactions, and the state root after it:
    /// the number of receipts, whether all succeeded, and the fees of the
    /// successful ones.
    pub fn from_receipts(receipts: &[TransactionReceipt], transactions: &[Transaction], new_state_root: [u8; 32]) -> (r: Self)
        requires
            forall|i: int| 0 <= i < receipts@.len() && (#[trigger] receipts@[i]).success ==> i < transactions@.len(),
            fees_of(receipts@, transactions@) <= u64::MAX,
        ensures
            r.new_state_root == new_state_root,
            r.executed_transactions == receipts@.len(),
            r.success == (forall|i: int| 0 <= i < receipts@.len() ==> (#[trigger] receipts@[i]).success),
            r.total_fees == fees_of(receipts@, transactions@),
    {
        let mut success = true;
        let mut total: u64 = 0;
        let mut i: usize = 0;
        while i < receipts.len()
            invariant
                i <= receipts@.len(),
                forall|j: int| 0 <= j < receipts@.len() && (#[trigger] receipts@[j]).success ==> j < transactions@.len(),
                fees_of(receipts@, transactions@) <= u64::MAX,
                success == (forall|j: int| 0 <= j < i ==> (#[trigger] receipts@[j]).success),
                total as nat == fees_of(receipts@.take(i as int), transactions@),
            decreases receipts@.len() - i,
        {
            proof {
                lemma_fees_prefix_le(receipts@, transactions@, i as int + 1);
                assert(receipts@.take(i + 1).drop_last() =~= receipts@.take(i as int));
            }
            let rc = receipts[i];
            if rc.success {
                let fee: u64 = match rc.gas_used.checked_mul(transactions[i].gas_price) {
                    Some(v) => v,
                    None => u64::MAX,
                };
                total = total + fee;
            } else {
                success = false;
            }
            i = i + 1;
        }
        assert(receipts@.take(receipts@.len() as int) =~= receipts@);
        ExecutionResult { new_state_root, executed_transactions: receipts.len(), success, total_fees: total }
    }
}

/// The fees of a prefix of the receipts are at most those of all of them.
proof fn lemma_fees_prefix_le(receipts: Seq<TransactionReceipt>, txs: Seq<Transaction>, k: int)
    requires
        0 <= k <= receipts.len(),
    ensures
        fees_of(receipts.take(k), txs) <= fees_of(receipts, txs),
    decreases receipts.len() - k,
{
    if k < receipts.len() {
        lemma_fees_prefix_le(receipts, txs, k + 1);
        assert(receipts.take(k + 1).drop_last() =~= receipts.take(k));
    } else {
        assert(receipts.take(k) =~= receipts);
    }
}

} // verus!
