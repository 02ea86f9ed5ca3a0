use siput_core::chain::block::{Block, BlockHash};
use siput_core::chain::transaction::Transaction;
use siput_core::consensus::ghostdag::GHOSTDAGEngine;
use siput_core::dag::BlockDAG;

fn create_test_block(hash_seed: &str, parents: Vec<BlockHash>) -> Block {
    let seed_bytes = hash_seed.as_bytes();
    let mut from: [u8; 20] = [1; 20];
    let mut to: [u8; 20] = [2; 20];
    for (i, &b) in seed_bytes.iter().take(20).enumerate() {
        from[i] = from[i].wrapping_add(b);
    }
    for (i, &b) in seed_bytes.iter().skip(20).take(20).enumerate() {
        to[i] = to[i].wrapping_add(b);
    }
    let amount = 100 + seed_bytes.len() as u64;
    let tx = Transaction::new(from, to, amount, 0, 21000, 1);
    Block::new(parents, 1000 + hash_seed.len() as u64, vec![tx], 42, 0, 0, [0; 20], [0; 32])
}

#[test]
fn test_ghostdag_engine_creation() {
    let engine = GHOSTDAGEngine::new(3);
    assert_eq!(engine.k, 3);
    assert_eq!(engine.cached_score_count(), 0);
}

#[test]
fn test_attach_dag() {
    let mut engine = GHOSTDAGEngine::new(3);
    let dag = BlockDAG::new();
    engine.attach_dag(dag);
    assert!(engine.get_dag().is_some());
}

#[test]
fn test_blue_score_calculation() {
    let mut engine = GHOSTDAGEngine::new(2);
    let mut dag = BlockDAG::new();

    let genesis = create_test_block("genesis", vec![]);
    let child = create_test_block("child", vec![genesis.hash.clone()]);

    dag.insert_block(genesis.clone()).unwrap();
    dag.insert_block(child.clone()).unwrap();

    engine.attach_dag(dag);

    let genesis_score = engine.calculate_blue_score(&genesis.hash).unwrap();
    let child_score = engine.calculate_blue_score(&child.hash).unwrap();

    assert!(genesis_score > 0);
    assert!(child_score > 0);
}

#[test]
fn test_select_parent() {
    let mut engine = GHOSTDAGEngine::new(2);
    let mut dag = BlockDAG::new();

    dag.create_genesis_if_empty();
    let genesis_hash = dag.get_tips()[0].clone();

    let parent1 = create_test_block("parent1", vec![genesis_hash.clone()]);
    let parent2 = create_test_block("parent2", vec![genesis_hash.clone()]);
    let child = create_test_block("child", vec![parent1.hash.clone(), parent2.hash.clone()]);

    dag.insert_block(parent1.clone()).unwrap();
    dag.insert_block(parent2.clone()).unwrap();
    dag.insert_block(child.clone()).unwrap();

    engine.attach_dag(dag);

    let best_parent = engine.select_parent(&child.hash).unwrap();
    assert!(best_parent == parent1.hash || best_parent == parent2.hash);
}

#[test]
fn test_generate_ordering() {
    let mut engine = GHOSTDAGEngine::new(2);
    let mut dag = BlockDAG::new();

    let genesis = create_test_block("genesis", vec![]);
    let child1 = create_test_block("child1", vec![genesis.hash.clone()]);
    let child2 = create_test_block("child2", vec![genesis.hash.clone()]);

    dag.insert_block(genesis.clone()).unwrap();
    dag.insert_block(child1.clone()).unwrap();
    dag.insert_block(child2.clone()).unwrap();

    engine.attach_dag(dag);

    let ordering = engine.generate_ordering().unwrap();
    assert_eq!(ordering.len(), 3);

    assert_eq!(ordering[0], genesis.hash);
}

#[test]
fn test_validate_ordering() {
    let mut engine = GHOSTDAGEngine::new(2);
    let mut dag = BlockDAG::new();

    let genesis = create_test_block("genesis", vec![]);
    let child = create_test_block("child", vec![genesis.hash.clone()]);

    dag.insert_block(genesis.clone()).unwrap();
    dag.insert_block(child.clone()).unwrap();

    engine.attach_dag(dag);

    let ordering = vec![genesis.hash.clone(), child.hash.clone()];
    let result = engine.validate_ordering(&ordering);
    assert!(result.is_ok());
}

#[test]
fn test_validate_ordering_invalid() {
    let mut engine = GHOSTDAGEngine::new(2);
    let mut dag = BlockDAG::new();

    let genesis = create_test_block("genesis", vec![]);
    let child = create_test_block("child", vec![genesis.hash.clone()]);

    dag.insert_block(genesis.clone()).unwrap();
    dag.insert_block(child.clone()).unwrap();

    engine.attach_dag(dag);

    let invalid_ordering = vec![child.hash.clone(), genesis.hash.clone()];
    let result = engine.validate_ordering(&invalid_ordering);
    assert!(result.is_err());
}

#[test]
fn test_get_stats() {
    let mut engine = GHOSTDAGEngine::new(2);
    let mut dag = BlockDAG::new();

    let genesis = create_test_block("genesis", vec![]);
    dag.insert_block(genesis).unwrap();

    engine.attach_dag(dag);

    let stats = engine.get_stats();
    assert_eq!(stats.k_parameter, 2);
    assert!(stats.total_blocks > 0);
}

#[test]
fn test_cache_effectiveness() {
    let mut engine = GHOSTDAGEngine::new(2);
    let mut dag = BlockDAG::new();

    let genesis = create_test_block("genesis", vec![]);
    dag.insert_block(genesis.clone()).unwrap();

    engine.attach_dag(dag);

    // Calculate same block twice
    let _ = engine.calculate_blue_score(&genesis.hash);
    let _ = engine.get_blue_score(&genesis.hash);

    assert_eq!(engine.cached_score_count(), 1);
    // A block outside the DAG is not cached.
    let _ = engine.calculate_blue_score(&[5; 32]);
    assert_eq!(engine.cached_score_count(), 1);
    assert!(engine.get_blue_score(&[5; 32]).is_err());
}

#[test]
fn test_all_blue_scores() {
    let mut engine = GHOSTDAGEngine::new(2);
    let mut dag = BlockDAG::new();

    let genesis = create_test_block("genesis", vec![]);
    let child = create_test_block("child", vec![genesis.hash.clone()]);

    dag.insert_block(genesis).unwrap();
    dag.insert_block(child).unwrap();

    engine.attach_dag(dag);

    let scores = engine.get_all_blue_scores().unwrap();
    assert_eq!(scores.len(), 2);
}

fn diamond() -> (BlockDAG, Vec<Block>) {
    let mut dag = BlockDAG::new();
    let genesis = create_test_block("genesis", vec![]);
    let a = create_test_block("a", vec![genesis.hash]);
    let b = create_test_block("bb", vec![genesis.hash]);
    let m = create_test_block("merge", vec![a.hash, b.hash]);
    let t = create_test_block("tail", vec![m.hash]);
    for blk in [&genesis, &a, &b, &m, &t] {
        dag.insert_block((*blk).clone()).unwrap();
    }
    (dag, vec![genesis, a, b, m, t])
}

#[test]
fn generated_ordering_passes_validation_and_is_deterministic() {
    let (dag, blocks) = diamond();
    let mut engine = GHOSTDAGEngine::new(1);
    engine.attach_dag(dag);
    let first = engine.generate_ordering().unwrap();
    let second = engine.generate_ordering().unwrap();
    assert_eq!(first, second);
    assert!(engine.validate_ordering(&first).is_ok());
    assert_eq!(first.len(), 5);
    assert_eq!(first[0], blocks[0].hash);
    // a and bb have equal blue scores, so the smaller hash comes first.
    let (x, y) = if blocks[1].hash < blocks[2].hash { (blocks[1].hash, blocks[2].hash) } else { (blocks[2].hash, blocks[1].hash) };
    assert_eq!(first[1], x);
    assert_eq!(first[2], y);
    assert_eq!(first[3], blocks[3].hash);
    assert_eq!(first[4], blocks[4].hash);
}

#[test]
fn blue_scores_count_blue_past() {
    let (dag, blocks) = diamond();
    let mut engine = GHOSTDAGEngine::new(1);
    engine.attach_dag(dag);
    // genesis: itself only.
    assert_eq!(engine.calculate_blue_score(&blocks[0].hash).unwrap(), 1);
    // merge: itself, genesis, a, bb (each anticone at most one block).
    assert_eq!(engine.calculate_blue_score(&blocks[3].hash).unwrap(), 4);
    let mut engine0 = GHOSTDAGEngine::new(0);
    let (dag0, _) = diamond();
    engine0.attach_dag(dag0);
    // With k = 0, a and bb see each other in their anticone.
    assert_eq!(engine0.calculate_blue_score(&blocks[3].hash).unwrap(), 2);
    let all = engine.get_all_blue_scores().unwrap();
    assert_eq!(all[3], (blocks[3].hash, 4));
}

#[test]
fn validate_ordering_reports_each_fault() {
    let (dag, blocks) = diamond();
    let mut engine = GHOSTDAGEngine::new(1);
    engine.attach_dag(dag);
    let h: Vec<BlockHash> = blocks.iter().map(|b| b.hash).collect();
    let x: Vec<String> = h.iter().map(hex::encode).collect();
    assert_eq!(
        engine.validate_ordering(&[h[0], h[1], h[2], h[3]]),
        Err("Ordering has 4 blocks but DAG has 5 blocks".to_string())
    );
    assert_eq!(
        engine.validate_ordering(&[h[0], h[1], h[1], h[2], h[3], h[4]]),
        Err(format!("Duplicate block {} at position 2", x[1]))
    );
    assert_eq!(
        engine.validate_ordering(&[h[0], h[1], h[3], h[2], h[4]]),
        Err(format!("Parent {} appears after child {} in ordering", x[2], x[3]))
    );
    assert_eq!(
        engine.validate_ordering(&[h[0], h[1], h[3], h[4]]),
        Err(format!("Parent {} of block {} not in ordering", x[2], x[3]))
    );
    assert_eq!(
        engine.validate_ordering(&[[9; 32]]),
        Err(format!("Block {} not found in DAG", "09".repeat(32)))
    );
    assert!(engine.validate_ordering(&[h[0], h[2], h[1], h[3], h[4]]).is_ok());
}

#[test]
fn select_parent_prefers_higher_blue_score() {
    let mut dag = BlockDAG::new();
    let genesis = create_test_block("genesis", vec![]);
    let a = create_test_block("a", vec![genesis.hash]);
    let a2 = create_test_block("a2", vec![a.hash]);
    let b = create_test_block("bb", vec![genesis.hash]);
    let m = create_test_block("merge", vec![b.hash, a2.hash]);
    for blk in [&genesis, &a, &a2, &b, &m] {
        dag.insert_block((*blk).clone()).unwrap();
    }
    let mut engine = GHOSTDAGEngine::new(3);
    engine.attach_dag(dag);
    assert_eq!(engine.select_parent(&m.hash).unwrap(), a2.hash);
    assert!(engine.select_parent(&genesis.hash).is_err());
}

#[test]
fn annotate_block_sets_metadata() {
    let (dag, blocks) = diamond();
    let mut engine = GHOSTDAGEngine::new(1);
    let mut dag_for_engine = BlockDAG::new();
    for b in &blocks {
        dag_for_engine.insert_block(b.clone()).unwrap();
    }
    engine.attach_dag(dag_for_engine);
    let mut block = create_test_block("new", vec![blocks[4].hash]);
    engine.annotate_block(&dag, &mut block).unwrap();
    assert_eq!(block.header.selected_parent, Some(blocks[4].hash));
    assert_eq!(block.header.topo_index, 5);
    // The tail's recorded blue score is 0 in its header, so the new block gets 1.
    assert_eq!(block.header.blue_score, 1);
    assert_eq!(block.header.chain_height, 1);
    let mut genesis_like = create_test_block("lonely", vec![]);
    engine.annotate_block(&dag, &mut genesis_like).unwrap();
    assert_eq!(genesis_like.header.selected_parent, None);
    assert_eq!(genesis_like.header.chain_height, 0);
}

#[test]
fn consensus_engine_view_of_the_ghostdag_engine() {
    let mut engine = GHOSTDAGEngine::new(2);
    assert_eq!(siput_core::consensus::engine::ConsensusEngine::get_virtual_selected_parent(&engine), [0u8; 32]);
    assert_eq!(siput_core::consensus::engine::ConsensusEngine::get_virtual_blue_score(&engine), 0);
    let mut dag = BlockDAG::new();
    let genesis = create_test_block("genesis", vec![]);
    let child = create_test_block("child", vec![genesis.hash]);
    dag.insert_block(genesis.clone()).unwrap();
    dag.insert_block(child.clone()).unwrap();
    siput_core::consensus::engine::ConsensusEngine::attach_dag(&mut engine, dag);
    assert_eq!(siput_core::consensus::engine::ConsensusEngine::get_virtual_selected_parent(&engine), child.hash);
    assert_eq!(siput_core::consensus::engine::ConsensusEngine::get_virtual_blue_score(&engine), child.header.blue_score);
    assert_eq!(siput_core::consensus::engine::ConsensusEngine::calculate_blue_score(&engine, &genesis.hash), Ok(genesis.header.blue_score));
    assert!(siput_core::consensus::engine::ConsensusEngine::calculate_blue_score(&engine, &[3u8; 32]).is_err());
    let mut next = create_test_block("next", vec![child.hash]);
    let snapshot = engine.get_dag().unwrap().clone();
    assert_eq!(siput_core::consensus::engine::ConsensusEngine::annotate_block(&mut engine, &snapshot, &mut next), Ok(()));
    assert_eq!(next.header.selected_parent, Some(child.hash));
    assert_eq!(next.header.chain_height, child.height + 1);
    assert_eq!(next.height, next.header.chain_height);
    assert_eq!(next.header.topo_index, 2);
}
