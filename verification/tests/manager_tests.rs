use siput_core::chain::block::{Block, BlockHash};
use siput_core::chain::transaction::Transaction;
use siput_core::consensus::blue_set_manager::{BlueSetConfig, BlueSetManager};
use siput_core::consensus::ghostdag::compute_blue_score;
use siput_core::consensus::ghostdag_manager::{GhostDagConfig, GhostDagManager};
use siput_core::dag::BlockDAG;

fn block(seed: &str, parents: Vec<BlockHash>, timestamp: u64) -> Block {
    let seed_bytes = seed.as_bytes();
    let mut from: [u8; 20] = [1; 20];
    for (i, &b) in seed_bytes.iter().take(20).enumerate() {
        from[i] = from[i].wrapping_add(b);
    }
    let tx = Transaction::new(from, [2; 20], 100 + seed_bytes.len() as u64, 0, 21000, 1);
    Block::new(parents, timestamp, vec![tx], 42, 0, 0, [0; 20], [0; 32])
}

/// A chain of `n` blocks, each the child of the one before.
fn chain(n: usize) -> (BlockDAG, Vec<Block>) {
    let mut dag = BlockDAG::new();
    let mut blocks: Vec<Block> = Vec::new();
    for i in 0..n {
        let parents = match blocks.last() {
            Some(p) => vec![p.hash],
            None => vec![],
        };
        let b = block(&format!("chain{}", i), parents, 1000 + i as u64);
        dag.insert_block(b.clone()).unwrap();
        blocks.push(b);
    }
    (dag, blocks)
}

/// Genesis `g`, two children `a` and `b`, and `c` merging them.
fn diamond() -> (BlockDAG, Block, Block, Block, Block) {
    let mut dag = BlockDAG::new();
    let g = block("genesis", vec![], 1000);
    let a = block("left", vec![g.hash], 1001);
    let b = block("right", vec![g.hash], 1002);
    let c = block("merge", vec![a.hash, b.hash], 1003);
    for x in [&g, &a, &b, &c] {
        dag.insert_block(x.clone()).unwrap();
    }
    (dag, g, a, b, c)
}

fn ghostdag_manager(dag: BlockDAG) -> GhostDagManager {
    GhostDagManager::new(GhostDagConfig::default(), dag)
}

#[test]
fn ghostdag_config_defaults() {
    let c = GhostDagConfig::default();
    assert_eq!(c.k, 2);
    assert_eq!(c.max_merge_depth, 100);
    assert_eq!(c.safe_reorg_depth, 10);
    assert_eq!(c.finality_threshold, 100);
    assert_eq!(c.max_dag_density_ppm, 500_000);
    assert_eq!(c.cache_size, 10000);
}

#[test]
fn ghostdag_manager_blue_scores_count_a_chain() {
    let (dag, blocks) = chain(5);
    let expected = compute_blue_score(&dag, &blocks[4].hash, 2);
    let mut m = ghostdag_manager(dag);
    for (i, b) in blocks.iter().enumerate() {
        assert_eq!(m.compute_blue_score(&b.hash), Ok(i as u64 + 1));
    }
    assert_eq!(expected, 5);
    // A second call answers from the cache with the same value.
    assert_eq!(m.compute_blue_score(&blocks[4].hash), Ok(5));
}

#[test]
fn ghostdag_manager_virtual_selected_parent() {
    let (dag, _g, a, b, _c) = diamond();
    let mut m = ghostdag_manager(dag);
    assert_eq!(m.compute_virtual_selected_parent(&[]), Err("No tips provided".to_string()));
    assert_eq!(m.compute_virtual_selected_parent(&[b.hash]), Ok(b.hash));
    // Equal blue scores: the smaller hash wins.
    let smaller = if a.hash < b.hash { a.hash } else { b.hash };
    assert_eq!(m.compute_virtual_selected_parent(&[a.hash, b.hash]), Ok(smaller));
    assert_eq!(m.compute_virtual_selected_parent(&[b.hash, a.hash]), Ok(smaller));
}

#[test]
fn ghostdag_manager_higher_score_wins_virtual_parent() {
    let (dag, blocks) = chain(4);
    let mut m = ghostdag_manager(dag);
    assert_eq!(m.compute_virtual_selected_parent(&[blocks[1].hash, blocks[3].hash, blocks[2].hash]), Ok(blocks[3].hash));
}

#[test]
fn ghostdag_manager_finality() {
    let (dag, blocks) = chain(6);
    let config = GhostDagConfig { finality_threshold: 3, ..GhostDagConfig::default() };
    let mut m = GhostDagManager::new(config, dag);
    // The tip scores 6: the genesis lies 5 below it, the third block 3.
    assert_eq!(m.is_final(&blocks[0].hash), Ok(true));
    assert_eq!(m.is_final(&blocks[2].hash), Ok(false));
    assert_eq!(m.is_final(&blocks[5].hash), Ok(false));
    let mut empty = ghostdag_manager(BlockDAG::new());
    assert!(empty.is_final(&blocks[0].hash).is_err());
}

#[test]
fn ghostdag_manager_merge_sets() {
    let (dag, g, a, b, c) = diamond();
    let mut m = ghostdag_manager(dag);
    assert_eq!(m.compute_merge_set(&a.hash, &b.hash), Ok(vec![g.hash]));
    assert_eq!(m.compute_merge_set(&b.hash, &a.hash), Ok(vec![g.hash]));
    assert_eq!(m.compute_merge_set(&c.hash, &a.hash), Ok(vec![g.hash]));
    let both = m.compute_merge_set(&c.hash, &c.hash).unwrap();
    assert_eq!(both.len(), 3);
    assert!(both.contains(&g.hash) && both.contains(&a.hash) && both.contains(&b.hash));
}

#[test]
fn ghostdag_manager_detects_parasite_chain() {
    let (dag, _g, _a, _b, c) = diamond();
    let mut m = ghostdag_manager(dag);
    // The merge set of the tip with itself has 3 blocks, fewer than 5.
    assert_eq!(m.detect_attack_patterns(&c.hash), Err("Detected parasite chain attack".to_string()));
}

#[test]
fn ghostdag_manager_accepts_well_merged_block() {
    let (dag, blocks) = chain(7);
    let mut m = ghostdag_manager(dag);
    // The tip is the virtual selected parent; its past has 6 blocks.
    assert_eq!(m.detect_attack_patterns(&blocks[6].hash), Ok(()));
}

#[test]
fn ghostdag_manager_process_block() {
    let (dag, blocks) = chain(7);
    let mut m = ghostdag_manager(dag);
    let next = block("next", vec![blocks[6].hash], 2000);
    assert_eq!(m.process_block(next.clone()), Ok(()));
    assert_eq!(m.get_tips(), Ok(vec![next.hash]));
    assert_eq!(m.compute_blue_score(&next.hash), Ok(8));
    // The same block again is refused and changes nothing.
    assert_eq!(m.process_block(next.clone()), Err("Failed to insert block: Block already exists".to_string()));
    assert_eq!(m.get_tips(), Ok(vec![next.hash]));
    // A block with an unknown parent is refused.
    let orphan = block("orphan", vec![[9u8; 32]], 2001);
    assert_eq!(m.process_block(orphan), Err(format!("Parent block {} not found", "09".repeat(32))));
    assert_eq!(m.get_tips(), Ok(vec![next.hash]));
}

#[test]
fn ghostdag_manager_process_block_reports_attack_after_insert() {
    let mut dag = BlockDAG::new();
    let g = block("genesis", vec![], 1000);
    dag.insert_block(g.clone()).unwrap();
    let mut m = ghostdag_manager(dag);
    let child = block("child", vec![g.hash], 1001);
    assert_eq!(m.process_block(child.clone()), Err("Detected parasite chain attack".to_string()));
    assert_eq!(m.get_tips(), Ok(vec![child.hash]));
}

#[test]
fn ghostdag_manager_pruning_point() {
    let (dag, blocks) = chain(15);
    let mut m = ghostdag_manager(dag);
    assert_eq!(m.get_pruning_point(), None);
    m.update_pruning_point();
    // The tip scores 15; blocks scoring at most 5 lie 10 or more below it.
    let mut low: Vec<BlockHash> = blocks[..5].iter().map(|b| b.hash).collect();
    low.sort();
    assert_eq!(m.get_pruning_point(), Some(low[0]));
    let mut short = ghostdag_manager(chain(3).0);
    short.update_pruning_point();
    assert_eq!(short.get_pruning_point(), None);
}

#[test]
fn ghostdag_manager_queries() {
    let (dag, g, a, b, c) = diamond();
    let m = ghostdag_manager(dag);
    assert_eq!(m.get_tips(), Ok(vec![c.hash]));
    assert_eq!(m.get_virtual_selected_parent(), c.hash);
    assert_eq!(m.get_blue_score(&c.hash), Ok(c.header.blue_score));
    assert_eq!(
        m.get_blue_score(&[7u8; 32]),
        Err(format!("Blue score for block {} unavailable", "07".repeat(32)))
    );
    assert_eq!(m.get_virtual_blue_score(), c.header.blue_score);
    let mut sorted = vec![g.hash, a.hash, b.hash, c.hash];
    sorted.sort();
    assert_eq!(m.generate_ordering(), Ok(sorted));
    let empty = ghostdag_manager(BlockDAG::new());
    assert_eq!(empty.get_virtual_selected_parent(), [0u8; 32]);
    assert_eq!(empty.get_virtual_blue_score(), 0);
}

#[test]
fn blue_set_manager_incremental_scores() {
    let (dag, blocks) = chain(4);
    let mut m = BlueSetManager::new(BlueSetConfig::default(), dag);
    for (i, b) in blocks.iter().enumerate() {
        assert_eq!(m.compute_blue_score_incremental(&b.hash), Ok(i as u64 + 1));
    }
    assert_eq!(m.compute_blue_score_incremental(&[3u8; 32]), Ok(1));
}

#[test]
fn blue_set_manager_merge_set_and_attacks() {
    let (dag, g, a, b, c) = diamond();
    let mut m = BlueSetManager::new(BlueSetConfig::default(), dag);
    assert_eq!(m.compute_merge_set(&a.hash, &b.hash), Ok(vec![g.hash]));
    // The merge sets of the merging block with its parents have one block.
    assert!(m.detect_attack_patterns(&c.hash).is_err());
}

#[test]
fn blue_set_manager_selects_reference_first() {
    let (dag, blocks) = chain(4);
    let mut m = BlueSetManager::new(BlueSetConfig::default(), dag);
    let blue = m.select_blue_blocks(&blocks[3].hash, 1003).unwrap();
    assert_eq!(blue[0], blocks[3].hash);
    for b in &blocks {
        assert!(blue.contains(&b.hash));
    }
    // The virtual blue set over the tip is the same selection.
    assert_eq!(m.compute_virtual_blue_set(&[blocks[3].hash], 1003), Ok(blue));
    assert_eq!(m.compute_virtual_blue_set(&[], 1003), Ok(vec![]));
}

#[test]
fn ghostdag_manager_refuses_deep_merges_and_dense_dags() {
    let (dag, _g, a, b, _c) = diamond();
    // The parents' merge set holds the genesis block: depth 1.
    let config = GhostDagConfig { max_merge_depth: 0, ..GhostDagConfig::default() };
    let mut m = GhostDagManager::new(config, dag);
    let merged = block("merged", vec![a.hash, b.hash], 2000);
    assert_eq!(m.process_block(merged), Err("Merge depth 1 exceeds max 0".to_string()));

    let (dag, _g, _a, _b, c) = diamond();
    // One tip with two parent links over four blocks: half a link per block.
    let config = GhostDagConfig { max_dag_density_ppm: 400_000, ..GhostDagConfig::default() };
    let mut m = GhostDagManager::new(config, dag);
    let next = block("next", vec![c.hash], 2000);
    assert!(m.process_block(next).is_err());
    assert_eq!(m.get_tips(), Ok(vec![c.hash]));
}
