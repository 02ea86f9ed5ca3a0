use siput_core::chain::transaction::Transaction;
use siput_core::consensus::daa::{DaaConfig, DaaManager};
use siput_core::consensus::fee_market::{FeeConfig, FeeMarket, MempoolEntry};
use siput_core::execution::{ExecutionResult, TransactionReceipt};
use siput_core::pipeline::{apply_stage_outcome, PipelineContext, PipelineResult, StageAction, StageOutcome};

fn tx(from: u8, nonce: u64, gas_price: u64) -> Transaction {
    Transaction::new([from; 20], [9; 20], 10, nonce, 21000, gas_price)
}

#[test]
fn fee_config_defaults() {
    let c = FeeConfig::default();
    assert_eq!(c.base_fee_min, 1);
    assert_eq!(c.base_fee_max, 1_000_000);
    assert_eq!(c.max_mempool_size, 50000);
    assert_eq!(c.tx_per_address_limit, 100);
    assert_eq!(c.address_limit_window, 60);
    assert_eq!(c.congestion_threshold_ppm, 900_000);
}

#[test]
fn mempool_entry_fees() {
    let e = MempoolEntry::new(tx(1, 0, 1001), 1, 5000);
    assert_eq!(e.priority_fee, 1000);
    assert_eq!(e.effective_fee_per_byte, 5);
    assert_eq!(e.max_fee, 1001);
    assert_eq!(e.size_bytes, 200);
    assert_eq!(e.inserted_at, 5000);
    assert_eq!(e.sender, [1; 20]);
    let cheap = MempoolEntry::new(tx(1, 1, 1), 10, 5000);
    assert_eq!(cheap.priority_fee, 0);
    assert_eq!(cheap.effective_fee_per_byte, 0);
    let no_gas = MempoolEntry::new(Transaction::new([1; 20], [2; 20], 1, 0, 0, 500), 1, 0);
    assert_eq!(no_gas.effective_fee_per_byte, 0);
    // Higher fee first, then earlier insertion.
    let later = MempoolEntry::new(tx(2, 0, 1001), 1, 6000);
    assert!(e.precedes(&cheap));
    assert!(e.precedes(&later));
    assert!(!later.precedes(&e));
}

#[test]
fn fee_market_inserts_and_selects() {
    let mut m = FeeMarket::new(FeeConfig::default());
    assert_eq!(m.get_base_fee(), 1);
    let a = tx(1, 0, 1001);
    let b = tx(2, 0, 401);
    assert_eq!(m.insert_transaction(a, 10_000), Ok(()));
    assert_eq!(m.insert_transaction(b, 10_001), Ok(()));
    assert_eq!(m.select_transactions_for_block(1000), Ok(vec![a, b]));
    assert_eq!(m.select_transactions_for_block(399), Ok(vec![a]));
    assert_eq!(m.select_transactions_for_block(199), Ok(vec![]));
    assert_eq!(m.remove_transaction(&a.hash()), Ok(()));
    assert_eq!(m.select_transactions_for_block(1000), Ok(vec![b]));
    m.prune_finalized(&[b.hash()]);
    assert_eq!(m.select_transactions_for_block(1000), Ok(vec![]));
}

#[test]
fn fee_market_rate_limits_senders() {
    let config = FeeConfig { tx_per_address_limit: 3, ..FeeConfig::default() };
    let mut m = FeeMarket::new(config);
    // Each accepted transaction counts twice against its sender.
    assert_eq!(m.insert_transaction(tx(1, 0, 1001), 10_000), Ok(()));
    assert_eq!(m.insert_transaction(tx(1, 1, 1001), 10_000), Ok(()));
    assert_eq!(
        m.insert_transaction(tx(1, 2, 1001), 10_000),
        Err("Too many transactions from this address".to_string())
    );
    // Another sender is not affected, and the window restarts after 60 s.
    assert_eq!(m.insert_transaction(tx(2, 0, 1001), 10_000), Ok(()));
    assert_eq!(m.insert_transaction(tx(1, 3, 1001), 10_061), Ok(()));
}

#[test]
fn fee_market_refuses_cheap_transactions_when_congested() {
    let mut m = FeeMarket::new(FeeConfig::default());
    m.record_network_congestion(950_000);
    assert_eq!(
        m.insert_transaction(tx(1, 0, 100), 10_000),
        Err("Fee too low during network congestion".to_string())
    );
    assert_eq!(m.insert_transaction(tx(1, 1, 1001), 10_000), Ok(()));
    m.record_network_congestion(500_000);
    assert_eq!(m.insert_transaction(tx(1, 2, 100), 10_000), Ok(()));
}

#[test]
fn fee_market_evicts_lowest_fee_and_old_entries() {
    let config = FeeConfig { max_mempool_size: 2, ..FeeConfig::default() };
    let mut m = FeeMarket::new(config);
    let high = tx(1, 0, 5001);
    let low = tx(2, 0, 1001);
    let mid = tx(3, 0, 3001);
    m.insert_transaction(high, 10_000).unwrap();
    m.insert_transaction(low, 10_000).unwrap();
    m.insert_transaction(mid, 10_000).unwrap();
    assert_eq!(m.select_transactions_for_block(10_000), Ok(vec![high, mid]));
    // Entries an hour old leave the market.
    m.evict_low_fee_transactions(13_600);
    assert_eq!(m.select_transactions_for_block(10_000), Ok(vec![]));
}

#[test]
fn fee_market_base_fee_and_reward() {
    let mut m = FeeMarket::new(FeeConfig::default());
    assert_eq!(m.commit_base_fee(0), 1);
    assert_eq!(m.commit_base_fee(2_000_000), 1_000_000);
    assert_eq!(m.commit_base_fee(5), 5);
    assert_eq!(m.get_base_fee(), 5);
    // 21000 gas at price 7 costs 147000; the base fee burns 105000.
    let t = tx(1, 0, 7);
    assert_eq!(m.estimate_block_fee_reward(&[t, t]), Ok(84_000));
    let cheap = tx(1, 1, 3);
    assert_eq!(m.estimate_block_fee_reward(&[cheap]), Ok(0));
}

#[test]
fn daa_median_and_burst() {
    let m = DaaManager::new(DaaConfig::default());
    assert_eq!(m.median_timestamp(&[]), Err("Empty window data".to_string()));
    assert_eq!(m.median_timestamp(&[(30, 0), (10, 1), (20, 2)]), Ok(20));
    assert_eq!(m.median_timestamp(&[(40, 0), (10, 1), (30, 2), (20, 3)]), Ok(30));
    let window: Vec<(u64, u64)> = (0..10u64).map(|i| (1000 + i, i)).collect();
    // Ten blocks should take 300 s; they took 10 s: burst.
    assert_eq!(m.compute_burst_adjustment(&window, 1010), Ok(2_000_000));
    assert_eq!(m.compute_burst_adjustment(&window, 1150), Ok(1_000_000));
    assert_eq!(m.compute_burst_adjustment(&window[..9], 1010), Ok(1_000_000));
}

#[test]
fn execution_result_from_receipts() {
    let txs = [tx(1, 0, 2), tx(1, 1, 3), tx(1, 2, 5)];
    let receipts = [
        TransactionReceipt { success: true, gas_used: 100 },
        TransactionReceipt { success: false, gas_used: 50 },
        TransactionReceipt { success: true, gas_used: 10 },
    ];
    let r = ExecutionResult::from_receipts(&receipts, &txs, [7; 32]);
    assert_eq!(r.executed_transactions, 3);
    assert!(!r.success);
    assert_eq!(r.total_fees, 250);
    assert_eq!(r.new_state_root, [7; 32]);
    let empty = ExecutionResult::from_receipts(&[], &txs, [0; 32]);
    assert!(empty.success);
    assert_eq!(empty.total_fees, 0);
}

#[test]
fn pipeline_stage_outcomes() {
    let t = tx(1, 0, 2);
    let ctx = PipelineContext::new(t);
    assert_eq!(ctx.gas_used, 0);
    assert!(ctx.block_hash.is_none());
    let mut result = PipelineResult::for_transaction(&t);
    assert!(result.success);
    assert_eq!(result.transaction_hash, Some(t.hash()));

    let stage = PipelineResult {
        success: true,
        transaction_hash: None,
        error_message: None,
        metadata: vec![("mempool_added".to_string(), "true".to_string())],
    };
    assert!(matches!(apply_stage_outcome(&mut result, "mempool", true, StageOutcome::Completed(stage)), StageAction::Next));
    assert_eq!(result.metadata, vec![("mempool_added".to_string(), "true".to_string())]);

    match apply_stage_outcome(&mut result, "validation", true, StageOutcome::Failed("bad".to_string())) {
        StageAction::Abort(m) => assert_eq!(m, "Stage validation failed: bad"),
        _ => panic!("a required stage that fails aborts"),
    }
    match apply_stage_outcome(&mut result, "execution", true, StageOutcome::TimedOut) {
        StageAction::Abort(m) => assert_eq!(m, "Stage execution timed out"),
        _ => panic!("a required stage that times out aborts"),
    }
    assert!(matches!(apply_stage_outcome(&mut result, "finality", false, StageOutcome::TimedOut), StageAction::Next));

    let failed = PipelineResult {
        success: false,
        transaction_hash: None,
        error_message: Some("rejected".to_string()),
        metadata: vec![],
    };
    assert!(matches!(apply_stage_outcome(&mut result, "state", true, StageOutcome::Completed(failed)), StageAction::Stop));
    assert!(!result.success);
    assert_eq!(result.error_message, Some("rejected".to_string()));
}
