use siput_core::chain::block::{Block, BlockHash, ConsensusBlock};
use siput_core::chain::reward::{calculate_expected_block_reward, RewardConfig};
use siput_core::chain::transaction::{Transaction, TxPayload};
use siput_core::consensus::mining::meets_difficulty;

#[test]
fn test_transaction_creation() {
    let from: [u8; 20] = [1; 20];
    let to: [u8; 20] = [2; 20];
    let tx = Transaction::new_transfer(from, to, 100, 1, 21000, 1);
    if let TxPayload::Transfer { amount, .. } = tx.payload {
        assert_eq!(amount, 100);
    } else {
        panic!("Expected transfer payload, got {:?}", tx.payload);
    }
    assert_eq!(tx.nonce, 1);
}

#[test]
fn test_block_hash_calculation() {
    let from: [u8; 20] = [1; 20];
    let to: [u8; 20] = [2; 20];
    let tx = Transaction::new(from, to, 100, 0, 21000, 1);
    let block = Block::new(vec![], 1000, vec![tx], 42, 0, 0, [0; 20], [0; 32]);

    assert_eq!(block.hash.len(), 32);
}

#[test]
fn test_block_validation_basic() {
    let from: [u8; 20] = [1; 20];
    let to: [u8; 20] = [2; 20];
    let tx = Transaction::new(from, to, 100, 0, 21000, 1);
    let block = Block::new(vec![], 1000, vec![tx], 42, 0, 0, [0; 20], [0; 32]);

    assert!(block.validate_basic().is_ok());
}

#[test]
fn test_block_genesis_detection() {
    let block = Block::new(vec![], 1000, vec![], 0, 0, 0, [0; 20], [0; 32]);
    assert!(block.is_genesis());
}

#[test]
fn test_block_with_multiple_parents() {
    let parent1: BlockHash = [1; 32];
    let parent2: BlockHash = [2; 32];
    let from: [u8; 20] = [1; 20];
    let to: [u8; 20] = [2; 20];
    let tx = Transaction::new(from, to, 100, 0, 21000, 1);

    let block = Block::new(vec![parent1, parent2], 1000, vec![tx], 42, 0, 0, [0; 20], [0; 32]);
    assert_eq!(block.header.parent_hashes.len(), 2);
    assert!(block.validate_basic().is_ok());
}

#[test]
fn test_duplicate_transaction_detection() {
    let from: [u8; 20] = [1; 20];
    let to: [u8; 20] = [2; 20];
    let tx1 = Transaction::new(from, to, 100, 0, 21000, 1);
    let tx2 = Transaction::new(from, to, 100, 0, 21000, 1);

    let block = Block::new(vec![], 1000, vec![tx1, tx2], 42, 0, 0, [0; 20], [0; 32]);
    assert!(block.validate_basic().is_err());
}

#[test]
fn test_hash_consistency() {
    let from: [u8; 20] = [1; 20];
    let to: [u8; 20] = [2; 20];
    let tx = Transaction::new(from, to, 100, 0, 21000, 1);
    let parent: BlockHash = [4; 32];
    let block1 = Block::new(vec![parent], 1000, vec![tx.clone()], 42, 0, 0, [0; 20], [0; 32]);
    let block2 = Block::new(vec![parent], 1000, vec![tx], 42, 0, 0, [0; 20], [0; 32]);

    assert_eq!(block1.hash, block2.hash);
}

#[test]
fn test_reward_calculation_matches_consensus() {
    let from: [u8; 20] = [1; 20];
    let to: [u8; 20] = [2; 20];
    let b0 = Block::new(vec![], 1000, vec![], 0, 0, 0, [0; 20], [0; 32]);
    assert_eq!(b0.reward, calculate_expected_block_reward(0, &RewardConfig::default()));
    let mut txs = Vec::new();
    for i in 0..50 {
        txs.push(Transaction::new(from, to, 100, i, 21000, 1));
    }
    let b1 = Block::new(vec![], 1000, txs.clone(), 0, 0, 0, [0; 20], [0; 32]);
    let expected = calculate_expected_block_reward(0, &RewardConfig::default()) + 50u64;
    assert_eq!(b1.reward, expected);
}

#[test]
fn test_pow_check_in_validation() {
    let from: [u8; 20] = [1; 20];
    let to: [u8; 20] = [2; 20];
    let tx = Transaction::new(from, to, 100, 0, 21000, 1);
    let mut block = Block::new(vec![], 1000, vec![tx], 0, 1, 0, [0; 20], [0; 32]);
    let mut nonce = 0;
    while !meets_difficulty(&block.hash, block.header.difficulty) && nonce < 1000 {
        nonce += 1;
        block.header.nonce = nonce;
        block.hash = block.calculate_hash();
    }
    assert!(meets_difficulty(&block.hash, 1));
    assert!(block.validate_basic().is_ok());
}

#[test]
fn block_hash_changes_with_nonce_but_not_with_metadata() {
    let mut block = Block::new(vec![[7; 32]], 5, vec![], 1, 0, 0, [3; 20], [9; 32]);
    let before = block.hash;
    block.set_consensus_metadata(Some([7; 32]), 12, 4, 9);
    assert_eq!(block.hash, before);
    assert_eq!(block.header.blue_score, 12);
    assert_eq!(block.header.chain_height, 4);
    assert_eq!(block.height, 4);
    assert_eq!(block.header.topo_index, 9);
    block.header.nonce = 2;
    assert_ne!(block.calculate_hash(), before);
}

#[test]
fn block_reward_is_base_plus_tips() {
    let txs = vec![
        Transaction::new([1; 20], [2; 20], 5, 0, 21000, 7),
        Transaction::new([1; 20], [2; 20], 5, 1, 21000, 11),
    ];
    let block = Block::new(vec![], 0, txs.clone(), 0, 0, 0, [0; 20], [0; 32]);
    assert_eq!(block.reward, 100 + 18);
    // With base fee 8 only the second transaction tips (11 - 8).
    let block = Block::new(vec![], 0, txs.clone(), 0, 0, 8, [0; 20], [0; 32]);
    assert_eq!(block.reward, 100 + 3);
    // Base fee 3, gas price 5: a tip of 2.
    let one = vec![Transaction::new([1; 20], [2; 20], 5, 0, 21000, 5)];
    let block = Block::new(vec![], 0, one, 0, 0, 3, [0; 20], [0; 32]);
    assert_eq!(block.reward, 102);
}

#[test]
fn expected_reward_is_capped_by_remaining_supply() {
    let config = RewardConfig::default();
    assert_eq!(calculate_expected_block_reward(0, &config), 100);
    assert_eq!(calculate_expected_block_reward(500_000_000 - 40, &config), 40);
    assert_eq!(calculate_expected_block_reward(500_000_000, &config), 0);
    assert_eq!(calculate_expected_block_reward(u64::MAX, &config), 0);
}

#[test]
fn validate_references_rejects_duplicate_and_self_parents() {
    let block = Block::new(vec![[1; 32], [1; 32]], 0, vec![], 0, 0, 0, [0; 20], [0; 32]);
    assert!(block.validate_references().is_err());
    let mut selfref = Block::new(vec![], 0, vec![], 0, 0, 0, [0; 20], [0; 32]);
    selfref.header.parent_hashes = vec![selfref.hash];
    assert!(selfref.validate_references().is_err());
    let ok = Block::new(vec![[1; 32], [2; 32]], 0, vec![], 0, 0, 0, [0; 20], [0; 32]);
    assert!(ok.validate_references().is_ok());
}

#[test]
fn difficulty_bits_are_counted_from_the_front() {
    let mut h = [0u8; 32];
    h[1] = 0b0001_0000;
    assert!(meets_difficulty(&h, 0));
    assert!(meets_difficulty(&h, 8));
    assert!(meets_difficulty(&h, 11));
    assert!(!meets_difficulty(&h, 12));
    assert!(meets_difficulty(&[0u8; 32], 256));
    assert!(!meets_difficulty(&[0u8; 32], 257));
    assert!(!meets_difficulty(&[0u8; 32], 264));
    assert!(!meets_difficulty(&[0u8; 32], u32::MAX));
    let full = [0xffu8; 32];
    assert!(!meets_difficulty(&full, 1));
}

#[test]
fn coinbase_and_transfer_hashes_differ() {
    let cb = Transaction::new_coinbase([2; 20], 100, 5, 5);
    let tr = Transaction::new_transfer([0; 20], [2; 20], 100, 5, 0, 0);
    assert_ne!(cb.hash(), tr.hash());
    assert_eq!(cb.amount(), 100);
    assert_eq!(tr.amount(), 100);
}

#[test]
fn size_estimate_counts_parents_and_transactions() {
    let block = Block::new(vec![[1; 32]], 0, vec![Transaction::new([1; 20], [2; 20], 1, 0, 1, 1)], 0, 0, 0, [0; 20], [0; 32]);
    let s = std::mem::size_of::<String>();
    assert_eq!(block.size_estimate(), 32 + 32 + (s + 256 + 8) + 8 + 8 + 4 + 4 + 20 + 8);
}

#[test]
fn transaction_hashes_are_hex_of_each_hash() {
    let t1 = Transaction::new([1; 20], [2; 20], 5, 0, 21000, 1);
    let t2 = Transaction::new([3; 20], [4; 20], 6, 1, 21000, 1);
    let block = Block::new(vec![], 1000, vec![t1, t2], 0, 0, 0, [0; 20], [0; 32]);
    let hashes = block.transaction_hashes();
    let expected: Vec<String> = [t1.hash(), t2.hash()]
        .iter()
        .map(|h| h.iter().map(|b| format!("{:02x}", b)).collect())
        .collect();
    assert_eq!(hashes, expected);
}

#[test]
fn consensus_block_trait_sets_metadata() {
    let mut block = Block::new(vec![[7; 32]], 5, vec![], 1, 0, 0, [3; 20], [9; 32]);
    let before = block.hash;
    ConsensusBlock::apply_consensus_metadata(&mut block, Some([7; 32]), 12, 4, 9);
    assert_eq!(block.header.selected_parent, Some([7; 32]));
    assert_eq!(ConsensusBlock::blue_score(&block), 12);
    assert_eq!(ConsensusBlock::chain_height(&block), 4);
    assert_eq!(block.header.topo_index, 9);
    assert_eq!(ConsensusBlock::hash(&block), before);
}
