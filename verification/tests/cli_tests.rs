use siput_core::chain::transaction::{Transaction, TxPayload};
use siput_core::cli::{
    abi_encode_args, decode_contract_result, encode_contract_call, format_address, parse_hash_hex, parse_wallet_address,
    transaction_status_from_word, validate_chain_id, validate_transaction_collection, validate_transaction_format,
    HashTextError, HexFault,
};
use siput_core::events::TransactionStatus;
use siput_core::consensus::error::ConsensusError;
use siput_core::consensus::mining::build_coinbase;

#[test]
fn wallet_address_parses_prefixed_hex() {
    let mut expected = [0u8; 20];
    for (i, b) in expected.iter_mut().enumerate() {
        *b = i as u8 * 13;
    }
    let text = format!("spt{}", expected.iter().map(|b| format!("{:02x}", b)).collect::<String>());
    assert_eq!(parse_wallet_address(&text), Some(expected));
    assert_eq!(parse_wallet_address(&text.to_uppercase().replacen("SPT", "spt", 1)), Some(expected));
}

#[test]
fn wallet_address_refuses_other_text() {
    let hex40 = "00".repeat(20);
    assert_eq!(parse_wallet_address(&format!("spt{}", hex40)), Some([0u8; 20]));
    assert_eq!(parse_wallet_address(&hex40), None);
    assert_eq!(parse_wallet_address(&format!("sp{}", hex40)), None);
    assert_eq!(parse_wallet_address(&format!("spt{}", "00".repeat(19))), None);
    assert_eq!(parse_wallet_address(&format!("spt{}0", hex40)), None);
    assert_eq!(parse_wallet_address(&format!("spt{}zz", "00".repeat(19))), None);
    assert_eq!(parse_wallet_address(""), None);
}

#[test]
fn coinbase_mints_reward_at_blue_score() {
    let tx = build_coinbase([5; 20], 500, 42).unwrap();
    assert_eq!(tx.from, [0; 20]);
    assert_eq!(tx.payload, TxPayload::Coinbase { to: [5; 20], amount: 500, blue_score: 42 });
    assert_eq!(tx.nonce, 42);
    assert_eq!(tx.gas_limit, 0);
    assert_eq!(tx.gas_price, 0);
}

#[test]
fn consensus_error_texts() {
    assert_eq!(ConsensusError::InvalidState("bad tip".to_string()).message(), "Consensus state error: bad tip");
    assert_eq!(ConsensusError::Io("disk".to_string()).message(), "IO error: disk");
    assert_eq!(ConsensusError::Other("plain".to_string()).message(), "plain");
    let e: ConsensusError = "converted".to_string().into();
    assert_eq!(e.message(), "converted");
}

#[test]
fn contract_results_decode_from_hex() {
    assert_eq!(decode_contract_result("00ff10"), Ok(vec![0, 255, 16]));
    assert_eq!(decode_contract_result("ABcd"), Ok(vec![0xab, 0xcd]));
    assert_eq!(decode_contract_result(""), Ok(vec![]));
    assert_eq!(decode_contract_result("123"), Err("Odd number of digits".to_string()));
    assert_eq!(decode_contract_result("12zz"), Err("Invalid character 'z' at position 2".to_string()));
    assert_eq!(decode_contract_result("0\n"), Err("Invalid character '\\n' at position 1".to_string()));
}

#[test]
fn hashes_parse_from_hex() {
    let text = "ab".repeat(32);
    assert_eq!(parse_hash_hex(&text), Ok([0xab; 32]));
    assert_eq!(parse_hash_hex(&"AB".repeat(32)), Ok([0xab; 32]));
    let short = parse_hash_hex("abcd").unwrap_err();
    assert_eq!(short, HashTextError::WrongLength(2));
    assert_eq!(short.transaction_message(), "Transaction hash must be 32 bytes");
    assert_eq!(short.block_message(), "Block hash must be 32 bytes");
    assert_eq!(short.status_message(), "Invalid tx hash length");
    let bad = parse_hash_hex("xy").unwrap_err();
    assert_eq!(bad, HashTextError::InvalidHex(HexFault::InvalidHexCharacter { c: 'x', index: 0 }));
    assert_eq!(bad.transaction_message(), "Invalid transaction hash");
    assert_eq!(bad.block_message(), "Invalid block hash");
    assert_eq!(bad.status_message(), "Invalid character 'x' at position 0");
    assert_eq!(parse_hash_hex("abc").unwrap_err(), HashTextError::InvalidHex(HexFault::OddLength));
}

#[test]
fn status_words_map_to_statuses() {
    assert_eq!(transaction_status_from_word("pending"), TransactionStatus::Pending);
    assert_eq!(transaction_status_from_word("confirmed"), TransactionStatus::Confirmed);
    assert_eq!(transaction_status_from_word("failed"), TransactionStatus::Failed);
    assert_eq!(transaction_status_from_word("unknown"), TransactionStatus::Pending);
    assert_eq!(transaction_status_from_word(""), TransactionStatus::Pending);
}

#[test]
fn addresses_format_as_wallet_text() {
    let a = [0xab; 20];
    let text = format_address(a);
    assert_eq!(text, format!("spt{}", "ab".repeat(20)));
    assert_eq!(parse_wallet_address(&text), Some(a));
}

#[test]
fn contract_calls_and_arguments_encode() {
    assert_eq!(encode_contract_call("mint", &[1, 2]), b"mint::\x01\x02".to_vec());
    assert_eq!(encode_contract_call("", &[]), b"::".to_vec());
    let args: [(&str, &[u8]); 2] = [("to", b"bob"), ("n", b"7")];
    assert_eq!(abi_encode_args(&args), b"to=bob;n=7;".to_vec());
    assert_eq!(abi_encode_args(&[]), Vec::<u8>::new());
}

#[test]
fn transaction_batches_and_formats_are_checked() {
    let ok = Transaction::new([1; 20], [2; 20], 5, 0, 21000, 1);
    let no_limit = Transaction::new([1; 20], [2; 20], 5, 0, 0, 1);
    let no_price = Transaction::new([1; 20], [2; 20], 5, 0, 21000, 0);
    assert_eq!(validate_transaction_collection(&[ok.clone()]), Ok(()));
    assert_eq!(validate_transaction_collection(&[]), Ok(()));
    assert_eq!(
        validate_transaction_collection(&[ok.clone(), no_price.clone(), no_limit.clone()]),
        Err("Gas price must be > 0".to_string())
    );
    assert_eq!(validate_transaction_collection(&[no_limit, no_price]), Err("Gas limit must be > 0".to_string()));
    assert!(validate_chain_id(1));
    assert!(validate_chain_id(1_000_000));
    assert!(!validate_chain_id(0));
    assert!(!validate_chain_id(1_000_001));
    assert_eq!(validate_transaction_format(131072, 1, u64::MAX / 2), Ok(()));
    assert_eq!(validate_transaction_format(131073, 0, u64::MAX), Err("Transaction data too large".to_string()));
    assert_eq!(validate_transaction_format(0, 0, 0), Err("Invalid gas limit".to_string()));
    assert_eq!(validate_transaction_format(0, 10_000_001, 0), Err("Invalid gas limit".to_string()));
    assert_eq!(validate_transaction_format(0, 10_000_000, u64::MAX / 2 + 1), Err("Amount too large".to_string()));
}
