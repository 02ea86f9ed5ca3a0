use siput_core::chain::block::{Block, BlockHash, BlockHeader};
use siput_core::chain::transaction::{Transaction, TxPayload};
use siput_core::consensus::blue_set_cache::BlueSetCache;
use siput_core::consensus::daa::{calculate_next_difficulty, next_difficulty, DaaConfig, DaaManager, DAA_WINDOW};
use siput_core::consensus::fee_market::next_base_fee;
use siput_core::consensus::mining::{
    build_refresh_template, is_template_stale, rebuild_interval, template_needs_rebuild, meets_difficulty, select_mining_parents, submit_block, BlockTemplate,
    EventEmitter, ReachabilityManager, UtxoManager,
};
use siput_core::dag::BlockDAG;
use siput_core::node::runtime::{should_produce_block, DagSnapshot};

fn block_at(ts: u64, difficulty: u32) -> Block {
    Block::new(vec![], ts, vec![], 0, difficulty, 0, [0; 20], [0; 32])
}

fn chain(n: usize, step: u64, difficulty: u32) -> Vec<Block> {
    (0..n).map(|i| block_at(1000 + i as u64 * step, difficulty)).collect()
}

#[test]
fn difficulty_unchanged_with_short_history() {
    assert_eq!(calculate_next_difficulty(&[]), 1);
    let blocks = chain(10, 1, 77);
    assert_eq!(calculate_next_difficulty(&blocks), 77);
}

#[test]
fn difficulty_keeps_when_blocks_arrive_on_time() {
    // 262 gaps of one second against 263 expected: 1000 * 262 / 263 rounds to 996.
    let blocks = chain(DAA_WINDOW, 1, 1000);
    assert_eq!(calculate_next_difficulty(&blocks), 996);
}

#[test]
fn difficulty_grows_when_blocks_are_slow_and_gaps_are_clamped() {
    // gaps of 10 s count as 4 s: 1000 * 1048 / 263 = 3984.79..., rounded 3985.
    let blocks = chain(DAA_WINDOW, 10, 1000);
    assert_eq!(calculate_next_difficulty(&blocks), 3985);
}

#[test]
fn difficulty_drops_at_most_fourfold_and_stays_positive() {
    let blocks = chain(DAA_WINDOW + 5, 0, 1000);
    assert_eq!(calculate_next_difficulty(&blocks), 250);
    let blocks = chain(DAA_WINDOW, 0, 2);
    assert_eq!(calculate_next_difficulty(&blocks), 1);
    let blocks = chain(DAA_WINDOW, 0, 1);
    assert_eq!(calculate_next_difficulty(&blocks), 1);
}

#[test]
fn difficulty_saturates_at_u32_max() {
    let blocks = chain(DAA_WINDOW, 4, u32::MAX);
    assert_eq!(calculate_next_difficulty(&blocks), u32::MAX);
}

#[test]
fn next_difficulty_of_dag_is_never_zero() {
    let mut dag = BlockDAG::new();
    assert_eq!(next_difficulty(&dag), 1);
    dag.create_genesis_if_empty();
    assert_eq!(next_difficulty(&dag), 1);
}

#[test]
fn base_fee_follows_last_block_load() {
    let mut dag = BlockDAG::new();
    assert_eq!(next_base_fee(&dag), 1);
    let light = Block::new(vec![], 0, vec![], 0, 0, 100, [0; 20], [0; 32]);
    dag.insert_block(light.clone()).unwrap();
    assert_eq!(next_base_fee(&dag), 90);
    let txs: Vec<Transaction> = (0..501).map(|i| Transaction::new([1; 20], [2; 20], 1, i, 0, 0)).collect();
    let heavy = Block::new(vec![light.hash], 1, txs, 0, 0, 100, [0; 20], [0; 32]);
    dag.insert_block(heavy).unwrap();
    assert_eq!(next_base_fee(&dag), 110);
}

#[test]
fn base_fee_floor_is_one() {
    let mut dag = BlockDAG::new();
    dag.insert_block(Block::new(vec![], 0, vec![], 0, 0, 0, [0; 20], [0; 32])).unwrap();
    assert_eq!(next_base_fee(&dag), 1);
}

#[test]
fn daa_window_is_capped_and_pruned() {
    let mut m = DaaManager::new(DaaConfig { window_size: 3, ..DaaConfig::default() });
    for i in 0..5u64 {
        m.update_window(100 + i, i).unwrap();
    }
    assert_eq!(m.collect_daa_window(), vec![(102, 2), (103, 3), (104, 4)]);
    assert_eq!(m.get_current_daa_score(), 4);
    m.config.window_size = 1;
    m.prune_window(&[0; 32]);
    assert_eq!(m.collect_daa_window(), vec![(104, 4)]);
    m.update_difficulty_state(9, 55).unwrap();
    assert_eq!(m.get_current_difficulty(), 9);
    assert_eq!(m.block_count_since_adjustment, 1);
}

#[test]
fn daa_timestamp_limits() {
    let m = DaaManager::new(DaaConfig { window_size: 10, ..DaaConfig::default() });
    assert!(m.validate_timestamp(100_000, 100_000).is_ok());
    assert!(m.validate_timestamp(100_000 + 7200, 100_000).is_ok());
    assert!(m.validate_timestamp(100_000 + 7201, 100_000).is_err());
    assert!(m.validate_timestamp(100_000 - 86400, 100_000).is_ok());
    assert!(m.validate_timestamp(100_000 - 86401, 100_000).is_err());
}

#[test]
fn block_reward_halves() {
    let m = DaaManager::new(DaaConfig { window_size: 10, timestamp_future_limit: 0, timestamp_past_limit: 0, ..DaaConfig::default() });
    assert_eq!(m.calculate_block_reward(0), 500);
    assert_eq!(m.calculate_block_reward(209_999), 500);
    assert_eq!(m.calculate_block_reward(210_000), 250);
    assert_eq!(m.calculate_block_reward(210_000 * 9), 0);
    assert_eq!(m.calculate_block_reward(u64::MAX), 0);
}

#[test]
fn cache_pruning_keeps_newest() {
    let mut c = BlueSetCache::new();
    for i in 0..5u8 {
        c.blue_scores.push(([i; 32], i as u64));
        c.blue_sets.push(([i; 32], vec![[i; 32]]));
    }
    c.prune_old_entries(2);
    assert_eq!(c.blue_scores, vec![([3; 32], 3), ([4; 32], 4)]);
    assert_eq!(c.blue_sets.len(), 2);
    c.prune_old_entries(2);
    assert_eq!(c.blue_scores.len(), 2);
    c.clear();
    assert!(c.blue_scores.is_empty() && c.blue_sets.is_empty());
}

#[test]
fn mining_parents_fall_back_to_genesis() {
    let tips: Vec<BlockHash> = vec![[1; 32], [2; 32]];
    assert_eq!(select_mining_parents(&tips, Some([9; 32])), tips);
    assert_eq!(select_mining_parents(&[], Some([9; 32])), vec![[9; 32]]);
    assert!(select_mining_parents(&[], None).is_empty());
}

#[test]
fn placeholder_managers_succeed() {
    assert!(ReachabilityManager.update(&[0; 32]).is_ok());
    assert!(UtxoManager.reward_miner(&[0; 32], 3).is_ok());
    EventEmitter.emit_new_block(&Block::default());
}

fn template(parents: Vec<BlockHash>, difficulty: u32) -> BlockTemplate {
    BlockTemplate {
        parents,
        transactions: vec![],
        timestamp: 10,
        difficulty,
        blue_score: 5,
        daa_score: 5,
        merkle_root: [3; 32],
        coinbase: Transaction::new_coinbase([4; 20], 50, 5, 5),
        state_root: [0; 32],
        producer: [4; 20],
    }
}

#[test]
fn stale_templates() {
    let t = template(vec![[1; 32]], 3);
    assert!(!is_template_stale(&[1; 32], 3, 15, &t));
    assert!(is_template_stale(&[2; 32], 3, 5, &t));
    assert!(is_template_stale(&[1; 32], 4, 5, &t));
    assert!(is_template_stale(&[1; 32], 3, 16, &t));
    assert!(!is_template_stale(&[1; 32], 3, 0, &t));
}

#[test]
fn nonce_search_finds_first_match() {
    let mut dag = BlockDAG::new();
    dag.create_genesis_if_empty();
    let g = dag.get_tips()[0];
    let t = template(vec![g], 4);
    let found = t.search_nonce(&dag, 0, 10_000).expect("a nonce in range");
    assert!(meets_difficulty(&found.1, 4));
    assert_eq!(t.header_hash(found.0, &dag), found.1);
    for n in 0..found.0 {
        assert!(!meets_difficulty(&t.header_hash(n, &dag), 4));
    }
    assert!(t.search_nonce(&dag, found.0, found.0).is_none());
    let p = t.pow_hash(7);
    assert_ne!(p, t.pow_hash(8));
    let b = t.mined_block(7, p, 3);
    assert_eq!(b.reward, 50);
    assert_eq!(b.header.selected_parent, Some(g));
    assert_eq!(b.header.topo_index, 5);
}

#[test]
fn submitted_blocks_enter_the_dag() {
    let mut dag = BlockDAG::new();
    dag.create_genesis_if_empty();
    let g = dag.get_tips()[0];
    let t = template(vec![g], 0);
    let header = BlockHeader {
        parent_hashes: vec![g],
        timestamp: 11,
        nonce: 3,
        difficulty: 0,
        base_fee: 0,
        state_root: [0; 32],
        version: 1,
        blue_score: 1,
        selected_parent: Some(g),
        chain_height: 1,
        topo_index: 0,
    };
    assert!(submit_block(&mut dag, &header, &t).is_ok());
    assert_eq!(dag.block_count(), 2);
    let tip = dag.get_tips()[0];
    let mined = dag.get_block(&tip).unwrap();
    assert_eq!(mined.height, 0);
    assert_eq!(mined.header.chain_height, 1);
    let expected = Block::new(vec![g], 11, vec![t.coinbase.clone()], 3, 0, 0, [4; 20], [0; 32]);
    assert_eq!(mined.reward, expected.reward);
    assert!(submit_block(&mut dag, &header, &t).is_err());
    let mut orphan = header.clone();
    orphan.parent_hashes = vec![[8; 32]];
    assert!(submit_block(&mut dag, &orphan, &t).is_err());
    assert_eq!(dag.block_count(), 2);
}

#[test]
fn refresh_template_from_dag() {
    let mut dag = BlockDAG::new();
    let t0 = build_refresh_template(&dag, vec![], 0, [5; 20], [6; 32], 99);
    assert!(t0.parents.is_empty());
    dag.create_genesis_if_empty();
    let g = dag.get_tips()[0];
    let tx = Transaction::new([1; 20], [2; 20], 3, 0, 21000, 1);
    let t = build_refresh_template(&dag, vec![tx], 499_999_990, [5; 20], [6; 32], 99);
    assert_eq!(t.parents, vec![g]);
    assert_eq!(t.blue_score, 1);
    assert_eq!(t.daa_score, 1);
    assert_eq!(t.difficulty, 1);
    assert_eq!(t.timestamp, 99);
    match t.coinbase.payload {
        TxPayload::Transfer { to, amount } => {
            assert_eq!(to, [5; 20]);
            assert_eq!(amount, 10);
        },
        _ => panic!("coinbase should be a transfer"),
    }
}

#[test]
fn snapshot_of_dag() {
    let mut dag = BlockDAG::new();
    let empty = DagSnapshot::of_dag(&dag);
    assert_eq!(empty.tip_count, 0);
    assert_eq!(empty.genesis_hash, None);
    assert_eq!(empty.last_block_timestamp, None);
    dag.create_genesis_if_empty();
    let g = dag.get_tips()[0];
    let mut a = Block::new(vec![g], 30, vec![], 0, 0, 0, [0; 20], [0; 32]);
    a.set_consensus_metadata(Some(g), 1, 1, 1);
    let mut b = Block::new(vec![g], 20, vec![], 1, 0, 0, [0; 20], [0; 32]);
    b.set_consensus_metadata(Some(g), 1, 7, 2);
    dag.insert_block(a.clone()).unwrap();
    dag.insert_block(b.clone()).unwrap();
    let snap = DagSnapshot::of_dag(&dag);
    assert_eq!(snap.tip_count, 2);
    assert_eq!(snap.tip_hashes, vec![a.hash, b.hash]);
    assert_eq!(snap.height, 7);
    assert_eq!(snap.last_block_timestamp, Some(30));
    assert_eq!(snap.genesis_hash, Some(g));
}

#[test]
fn production_gate() {
    assert!(!should_produce_block(false, 5, true));
    assert!(!should_produce_block(true, 0, false));
    assert!(should_produce_block(true, 0, true));
    assert!(should_produce_block(true, 3, false));
}

#[test]
fn mining_worker_rebuild_decision() {
    let empty = template(vec![[1; 32]], 3);
    let mut full = template(vec![[1; 32]], 3);
    full.transactions.push(Transaction::new([1; 20], [2; 20], 5, 0, 21000, 1));
    let interval: u128 = 2_000_000_000;
    assert!(template_needs_rebuild(None, 0, interval));
    assert_eq!(rebuild_interval(None, interval), interval);
    assert_eq!(rebuild_interval(Some(&empty), interval), interval);
    assert_eq!(rebuild_interval(Some(&full), interval), 30_000_000_000);
    assert!(!template_needs_rebuild(Some(&empty), interval, interval));
    assert!(template_needs_rebuild(Some(&empty), interval + 1, interval));
    assert!(!template_needs_rebuild(Some(&full), interval + 1, interval));
    assert!(template_needs_rebuild(Some(&full), 30_000_000_001, interval));
}

#[test]
fn mined_blocks_are_submitted_and_ordered() {
    let mut dag = BlockDAG::new();
    dag.create_genesis_if_empty();
    let g = dag.get_tips()[0];
    let mut engine = siput_core::consensus::ghostdag::GHOSTDAGEngine::new(2);
    engine.attach_dag(dag);
    let t = template(vec![g], 0);
    let header = BlockHeader {
        parent_hashes: vec![g],
        timestamp: 11,
        nonce: 3,
        difficulty: 0,
        base_fee: 0,
        state_root: [0; 32],
        version: 1,
        blue_score: 1,
        selected_parent: Some(g),
        chain_height: 1,
        topo_index: 0,
    };
    let order = engine.submit_mined_block(&header, &t).unwrap();
    assert_eq!(order.len(), 2);
    assert_eq!(order[0], g);
    assert_eq!(engine.get_dag().unwrap().block_count(), 2);
    // The same block again is refused and the DAG stays as it is.
    assert!(engine.submit_mined_block(&header, &t).is_err());
    assert_eq!(engine.get_dag().unwrap().block_count(), 2);
}
