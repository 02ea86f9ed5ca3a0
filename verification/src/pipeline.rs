use vstd::prelude::*;
use crate::chain::transaction::Transaction;
use crate::execution::ExecutionResult;
use crate::observability::tracing::{entry_of, framed, keys_distinct, put_entry};

verus! {

/// Result of a pipeline stage, or of a transaction's whole run through the
/// pipeline. The metadata is a map from keys to values, each key once.
#[derive(Debug)]
pub struct PipelineResult {
    pub success: bool,
    pub transaction_hash: Option<[u8; 32]>,
    pub error_message: Option<String>,
    pub metadata: Vec<(String, String)>,
}

/// State handed from stage to stage.
#[derive(Clone, Copy, Debug)]
pub struct PipelineContext {
    pub transaction: Transaction,
    pub block_hash: Option<[u8; 32]>,
    pub gas_used: u64,
    pub execution_result: Option<ExecutionResult>,
}

/// How a stage's run ended, as its caller saw it.
#[derive(Debug)]
pub enum StageOutcome {
    /// The stage returned a result.
    Completed(PipelineResult),
    /// The stage returned an error.
    Failed(String),
    /// The stage did not finish in its time limit.
    TimedOut,
}

/// What the pipeline does after a stage.
#[derive(Debug)]
pub enum StageAction {
    /// Go on with the next stage.
    Next,
    /// Stop; the pipeline result is final.
    Stop,
    /// Abandon the transaction with this error.
    Abort(String),
}

/// The value stored under `key` in a metadata map, by its text.
pub open spec fn lookup(md: Seq<(String, String)>, key: Seq<char>) -> Option<Seq<char>> {
    match entry_of(md, key) {
        Some(v) => Some(v@),
        None => None,
    }
}

impl PipelineContext {
    /// The context a transaction enters the pipeline with.
    pub fn new(transaction: Transaction) -> (c: Self)
        ensures
            c.transaction == transaction,
            c.block_hash is None,
            c.gas_used == 0,
            c.execution_result is None,
    {
        PipelineContext { transaction, block_hash: None, gas_used: 0, execution_result: None }
    }
}

impl PipelineResult {
    /// The result a transaction's run starts from: successful, with the
    /// transaction's hash, no error and no metadata.
    pub fn for_transaction(transaction: &Transaction) -> (r: Self)
        ensures
            r.success,
            r.transaction_hash matches Some(h) && h@ == crate::chain::transaction::tx_hash_spec(*transaction),
            r.error_message is None,
            r.metadata@.len() == 0,
    {
        PipelineResult { success: true, transaction_hash: Some(transaction.hash()), error_message: None, metadata: Vec::new() }
    }
}

/// Fold one stage's outcome into the pipeline's result. A failed or timed
/// out stage aborts the run when it is required and is skipped otherwise;
/// an unsuccessful result of a required stage ends the run as unsuccessful
/// with the stage's error message; any other result adds its metadata.
pub fn apply_stage_outcome(
    final_result: &mut PipelineResult,
    stage_name: &str,
    required: bool,
    outcome: StageOutcome,
) -> (a: StageAction)
    requires
        keys_distinct(old(final_result).metadata@),
        outcome matches StageOutcome::Completed(res) ==> keys_distinct(res.metadata@),
    ensures
        keys_distinct(final(final_result).metadata@),
        final(final_result).transaction_hash == old(final_result).transaction_hash,
        match outcome {
            StageOutcome::Failed(e) => {
                &&& *final(final_result) == *old(final_result)
                &&& if required {
                    a matches StageAction::Abort(m) && m@ == "Stage "@ + stage_name@ + " failed: "@ + e@
                } else {
                    a is Next
                }
            },
            StageOutcome::TimedOut => {
                &&& *final(final_result) == *old(final_result)
                &&& if required {
                    a matches StageAction::Abort(m) && m@ == "Stage "@ + stage_name@ + " timed out"@
                } else {
                    a is Next
                }
            },
            StageOutcome::Completed(res) => if !res.success && required {
                &&& a is Stop
                &&& !final(final_result).success
                &&& final(final_result).error_message == res.error_message
                &&& final(final_result).metadata == old(final_result).metadata
            } else {
                &&& a is Next
                &&& final(final_result).success == old(final_result).success
                &&& final(final_result).error_message == old(final_result).error_message
                &&& forall|key: Seq<char>| #[trigger]
                    lookup(final(final_result).metadata@, key) == match lookup(res.metadata@, key) {
                        Some(v) => Some(v),
                        None => lookup(old(final_result).metadata@, key),
                    }
            },
        },
{
    match outcome {
        StageOutcome::Failed(e) => {
            if required {
                {
                    let head = framed("Stage ", stage_name, " failed: ");
                    let m = framed(head.as_str(), e.as_str(), "");
                    proof {
                        reveal_strlit("");
                        assert(m@ =~= "Stage "@ + stage_name@ + " failed: "@ + e@);
                    }
                    StageAction::Abort(m)
                }
            } else {
                StageAction::Next
            }
        },
        StageOutcome::TimedOut => {
            if required {
                StageAction::Abort(framed("Stage ", stage_name, " timed out"))
            } else {
                StageAction::Next
            }
        },
        StageOutcome::Completed(res) => {
            if !res.success && required {
                final_result.success = false;
                final_result.error_message = res.error_message;
                return StageAction::Stop;
            }
            let ghost start = final_result.metadata@;
            let ghost md = res.metadata@;
            let mut i: usize = 0;
            while i < res.metadata.len()
                invariant
                    md == res.metadata@,
                    keys_distinct(md),
                    keys_distinct(final_result.metadata@),
                    final_result.transaction_hash == old(final_result).transaction_hash,
                    final_result.success == old(final_result).success,
                    final_result.error_message == old(final_result).error_message,
                    start == old(final_result).metadata@,
                    i <= md.len(),
                    forall|key: Seq<char>| #[trigger]
                        lookup(final_result.metadata@, key) == match lookup(md.take(i as int), key) {
                            Some(v) => Some(v),
                            None => lookup(start, key),
                        },
                decreases md.len() - i,
            {
                let k = res.metadata[i].0.clone();
                let v = res.metadata[i].1.clone();
                let ghost before = final_result.metadata@;
                put_entry(&mut final_result.metadata, k, v);
                proof {
                    let t1 = md.take(i + 1);
                    let t0 = md.take(i as int);
                    assert forall|key: Seq<char>| #[trigger]
                        lookup(final_result.metadata@, key) == match lookup(t1, key) {
                            Some(w) => Some(w),
                            None => lookup(start, key),
                        } by {
                        assert(lookup(final_result.metadata@, key) == if key == md[i as int].0@ {
                            Some(md[i as int].1@)
                        } else {
                            lookup(before, key)
                        });
                        assert(lookup(before, key) == match lookup(t0, key) {
                            Some(w) => Some(w),
                            None => lookup(start, key),
                        });
                        if key == md[i as int].0@ {
                            assert(t1[i as int] == md[i as int]);
                            assert(keys_distinct(t1)) by {
                                assert forall|a: int, b: int| 0 <= a < b < t1.len() implies (#[trigger] t1[a]).0@ != (#[trigger] t1[b]).0@ by {
                                    assert(t1[a] == md[a] && t1[b] == md[b]);
                                }
                            }
                            assert(entry_of(t1, key) == Some(t1[i as int].1)) by {
                                let j = choose|j: int| 0 <= j < t1.len() && (#[trigger] t1[j]).0@ == key;
                                assert(j == i);
                            }
                        } else {
                            if exists|j: int| 0 <= j < t1.len() && (#[trigger] t1[j]).0@ == key {
                                let j = choose|j: int| 0 <= j < t1.len() && (#[trigger] t1[j]).0@ == key;
                                assert(t0[j] == t1[j]);
                                assert(entry_of(t0, key) is Some);
                                let j0 = choose|j: int| 0 <= j < t0.len() && (#[trigger] t0[j]).0@ == key;
                                assert(t1[j0] == t0[j0]);
                                assert(keys_distinct(md));
                                assert(md[j] == t1[j] && md[j0] == t0[j0]);
                                assert(j == j0);
                            } else {
                                assert forall|j: int| 0 <= j < t0.len() implies (#[trigger] t0[j]).0@ != key by {
                                    assert(t0[j] == t1[j]);
                                }
                            }
                        }
                    }
                }
                i = i + 1;
            }
            proof {
                assert(md.take(md.len() as int) =~= md);
            }
            StageAction::Next
        },
    }
}

} // verus!
