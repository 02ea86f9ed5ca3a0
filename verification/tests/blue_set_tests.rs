use siput_core::chain::block::{Block, BlockHash};
use siput_core::chain::transaction::Transaction;
use siput_core::consensus::blue_set::BlueSet;
use siput_core::dag::BlockDAG;

fn create_test_block(hash_seed: &str, parents: Vec<BlockHash>) -> Block {
    let seed_bytes = hash_seed.as_bytes();
    let mut from: [u8; 20] = [1; 20];
    let mut to: [u8; 20] = [2; 20];
    for (i, &b) in seed_bytes.iter().take(20).enumerate() {
        from[i] = from[i].wrapping_add(b);
    }
    for (i, &b) in seed_bytes.iter().skip(20).take(20).enumerate() {
        to[i] = to[i].wrapping_add(b);
    }
    let amount = 100 + seed_bytes.len() as u64;
    let tx = Transaction::new(from, to, amount, 0, 21000, 1);
    Block::new(parents, 1000 + hash_seed.len() as u64, vec![tx], 42, 0, 0, [0; 20], [0; 32])
}

#[test]
fn test_build_blue_set_linear_chain() {
    let mut dag = BlockDAG::new();
    let genesis = create_test_block("genesis", vec![]);
    let child = create_test_block("child", vec![genesis.hash.clone()]);
    let grandchild = create_test_block("grandchild", vec![child.hash.clone()]);

    dag.insert_block(genesis.clone()).unwrap();
    dag.insert_block(child.clone()).unwrap();
    dag.insert_block(grandchild.clone()).unwrap();

    let blue_set = BlueSet::new(1);
    let blue_blocks = blue_set.build_blue_set(&dag, &grandchild.hash);

    assert!(blue_blocks.contains(&genesis.hash));
    assert!(blue_blocks.contains(&child.hash));
    assert!(blue_blocks.contains(&grandchild.hash));
}

#[test]
fn test_blue_set_with_branches() {
    let mut dag = BlockDAG::new();
    let genesis = create_test_block("genesis", vec![]);
    let branch1 = create_test_block("branch1", vec![genesis.hash.clone()]);
    let branch2 = create_test_block("branch2", vec![genesis.hash.clone()]);
    let merge = create_test_block("merge", vec![branch1.hash.clone(), branch2.hash.clone()]);

    dag.insert_block(genesis).unwrap();
    dag.insert_block(branch1.clone()).unwrap();
    dag.insert_block(branch2).unwrap();
    dag.insert_block(merge.clone()).unwrap();

    let blue_set = BlueSet::new(2);
    let blue_blocks = blue_set.get_blue_blocks(&dag, &merge.hash);

    assert!(blue_blocks.len() >= 2);
}

#[test]
fn test_is_blue_simple() {
    let mut dag = BlockDAG::new();
    let genesis = create_test_block("genesis", vec![]);
    let child = create_test_block("child", vec![genesis.hash.clone()]);

    dag.insert_block(genesis.clone()).unwrap();
    dag.insert_block(child.clone()).unwrap();

    let blue_set = BlueSet::new(1);
    assert!(blue_set.is_blue(&dag, &genesis.hash, &child.hash));
    assert!(blue_set.is_blue(&dag, &child.hash, &child.hash));
}

#[test]
fn test_anticone_size_calculation() {
    let mut dag = BlockDAG::new();
    let genesis = create_test_block("genesis", vec![]);
    let branch1 = create_test_block("branch1", vec![genesis.hash.clone()]);
    let branch2 = create_test_block("branch2", vec![genesis.hash.clone()]);

    dag.insert_block(genesis).unwrap();
    dag.insert_block(branch1.clone()).unwrap();
    dag.insert_block(branch2.clone()).unwrap();

    let blue_set = BlueSet::new(5);
    let anticone_size = blue_set.get_anticone_size(&dag, &branch1.hash, &branch2.hash);

    assert!(anticone_size <= 10);
}

#[test]
fn test_all_ancestors_blue() {
    let mut dag = BlockDAG::new();
    let genesis = create_test_block("genesis", vec![]);
    let child = create_test_block("child", vec![genesis.hash.clone()]);
    let grandchild = create_test_block("grandchild", vec![child.hash.clone()]);

    dag.insert_block(genesis).unwrap();
    dag.insert_block(child).unwrap();
    dag.insert_block(grandchild.clone()).unwrap();

    let blue_set = BlueSet::new(10);
    let result = blue_set.are_all_ancestors_blue(&dag, &grandchild.hash, &grandchild.hash);

    assert!(result);
}

#[test]
fn blue_and_red_sets_partition_the_dag() {
    let mut dag = BlockDAG::new();
    let genesis = create_test_block("genesis", vec![]);
    let a = create_test_block("a", vec![genesis.hash]);
    let b = create_test_block("bb", vec![genesis.hash]);
    let c = create_test_block("ccc", vec![genesis.hash]);
    let d = create_test_block("dddd", vec![a.hash]);
    dag.insert_block(genesis.clone()).unwrap();
    dag.insert_block(a.clone()).unwrap();
    dag.insert_block(b.clone()).unwrap();
    dag.insert_block(c.clone()).unwrap();
    dag.insert_block(d.clone()).unwrap();

    let blue_set = BlueSet::new(0);
    let blue = blue_set.build_blue_set(&dag, &d.hash);
    let red = blue_set.build_red_set(&dag, &d.hash);
    assert_eq!(blue.len() + red.len(), 5);
    for h in &blue {
        assert!(!red.contains(h));
    }
    // With k = 0 only the chain genesis -> a -> d is blue.
    assert_eq!(blue, vec![d.hash, genesis.hash, a.hash]);
    assert_eq!(red, vec![b.hash, c.hash]);
    assert_eq!(blue_set.count_blue_blocks(&dag, &d.hash), 3);
    assert_eq!(blue_set.count_red_blocks(&dag, &d.hash), 2);
}

#[test]
fn larger_k_keeps_blue_blocks_blue() {
    let mut dag = BlockDAG::new();
    let genesis = create_test_block("genesis", vec![]);
    let a = create_test_block("a", vec![genesis.hash]);
    let b = create_test_block("bb", vec![genesis.hash]);
    let m = create_test_block("merge", vec![a.hash, b.hash]);
    for blk in [&genesis, &a, &b, &m] {
        dag.insert_block((*blk).clone()).unwrap();
    }
    for k in 0..4usize {
        let small = BlueSet::new(k).build_blue_set(&dag, &m.hash);
        let large = BlueSet::new(k + 1).build_blue_set(&dag, &m.hash);
        for h in &small {
            assert!(large.contains(h));
        }
    }
}

#[test]
fn anticone_of_parallel_branches() {
    let mut dag = BlockDAG::new();
    let genesis = create_test_block("genesis", vec![]);
    let branch1 = create_test_block("branch1", vec![genesis.hash]);
    let branch2 = create_test_block("branch2", vec![genesis.hash]);
    let merge = create_test_block("merge", vec![branch1.hash, branch2.hash]);
    for blk in [&genesis, &branch1, &branch2, &merge] {
        dag.insert_block((*blk).clone()).unwrap();
    }
    let blue_set = BlueSet::new(1);
    assert_eq!(blue_set.get_anticone(&dag, &branch1.hash, &merge.hash), vec![branch2.hash]);
    assert_eq!(blue_set.get_anticone_size(&dag, &genesis.hash, &merge.hash), 0);
    let sorted = blue_set.get_blue_blocks(&dag, &merge.hash);
    let mut expected = vec![genesis.hash, branch1.hash, branch2.hash, merge.hash];
    expected.sort();
    assert_eq!(sorted, expected);
    assert!(blue_set.get_red_blocks(&dag, &merge.hash).is_empty());
}

#[test]
fn test_blue_set_statistics() {
    let mut dag = BlockDAG::new();
    let genesis = create_test_block("genesis", vec![]);
    let child = create_test_block("child", vec![genesis.hash.clone()]);
    let child_hash = child.hash.clone();

    dag.insert_block(genesis).unwrap();
    dag.insert_block(child).unwrap();

    let blue_set = BlueSet::new(1);
    let stats = blue_set.get_blue_set_stats(&dag, &child_hash);

    assert_eq!(stats.total_blocks, 2);
    assert!(stats.blue_count > 0);
    assert!(stats.blue_ratio_ppm > 0);
}
