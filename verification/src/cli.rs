use vstd::prelude::*;
use crate::chain::block::BlockHash;
use crate::chain::transaction::{Address, Transaction};
use crate::events::TransactionStatus;
use vstd::string::StrSliceExecFns;
use vstd::string::StringSliceAdditionalSpecFns;
use crate::events::decimal_spec;
use crate::observability::tracing::{decimal_text, framed, hex_encode, hex_spec};

verus! {

/// Value of a hexadecimal digit in either case, if the byte is one.
pub open spec fn hex_value(c: u8) -> Option<u8> {
    if 65 <= c <= 70 {
        Some((c - 55) as u8)
    } else if 97 <= c <= 102 {
        Some((c - 87) as u8)
    } else if 48 <= c <= 57 {
        Some((c - 48) as u8)
    } else {
        None
    }
}

/// Hexadecimal text: an even number of hexadecimal digits.
pub open spec fn hex_decodable(b: Seq<u8>) -> bool {
    &&& b.len() % 2 == 0
    &&& forall|i: int| 0 <= i < b.len() ==> (#[trigger] hex_value(b[i])) is Some
}

/// The bytes that hexadecimal text stands for: one per pair of digits,
/// the high nibble first.
pub open spec fn hex_decoded(b: Seq<u8>) -> Seq<u8> {
    Seq::new(b.len() / 2, |i: int| (hex_value(b[2 * i])->0 * 16 + hex_value(b[2 * i + 1])->0) as u8)
}

/// Why text is not hexadecimal, as `hex::decode` reports it.
#[derive(Clone, Copy, Debug, PartialEq, Eq)]
pub enum HexFault {
    /// A byte that is not a hexadecimal digit, and its position.
    InvalidHexCharacter { c: char, index: usize },
    /// An odd number of digits.
    OddLength,
    /// A length that does not fit a fixed-size output.
    InvalidStringLength,
}

/// Position of the first byte from `i` on that is not a hexadecimal digit
/// (the length when there is none).
pub open spec fn first_non_hex(b: Seq<u8>, i: nat) -> nat
    decreases b.len() - i,
{
    if i >= b.len() {
        b.len()
    } else if hex_value(b[i as int]) is None {
        i
    } else {
        first_non_hex(b, i + 1)
    }
}

/// The fault `hex::decode` reports for text that is not hexadecimal: an odd
/// length first, else the first byte that is not a digit.
pub open spec fn hex_fault_spec(b: Seq<u8>) -> HexFault {
    if b.len() % 2 != 0 {
        HexFault::OddLength
    } else {
        let i = first_non_hex(b, 0);
        HexFault::InvalidHexCharacter { c: b[i as int] as char, index: i as usize }
    }
}

/// Calls `hex::decode` on a byte string. The contract claims what the
/// crate's source shows: text of an even number of hexadecimal digits
/// (either case) decodes to one byte per pair, high nibble first; text of
/// odd length is refused as such; otherwise the first byte that is not a
/// digit is reported, as a character, with its position.
#[verifier::external_body]
fn hex_decode(data: &[u8]) -> (r: Result<Vec<u8>, HexFault>)
    ensures
        match r {
            Ok(v) => hex_decodable(data@) && v@ == hex_decoded(data@),
            Err(f) => !hex_decodable(data@) && f == hex_fault_spec(data@),
        },
{
    match hex::decode(data) {
        Ok(v) => Ok(v),
        Err(hex::FromHexError::InvalidHexCharacter { c, index }) => Err(HexFault::InvalidHexCharacter { c, index }),
        Err(hex::FromHexError::OddLength) => Err(HexFault::OddLength),
        Err(hex::FromHexError::InvalidStringLength) => Err(HexFault::InvalidStringLength),
    }
}

/// What `format!("{:?}", c)` gives for a character.
pub uninterp spec fn char_debug(c: char) -> Seq<char>;

/// Formats a character with `Debug` through `format!`: the character
/// between single quotes, escaped where needed.
#[verifier::external_body]
fn char_debug_text(c: char) -> (s: String)
    ensures
        s@ == char_debug(c),
{
    format!("{:?}", c)
}

/// The text of a hexadecimal fault, as `hex` displays it.
pub open spec fn hex_fault_text(f: HexFault) -> Seq<char> {
    match f {
        HexFault::InvalidHexCharacter { c, index } => "Invalid character "@ + char_debug(c) + " at position "@
            + decimal_spec(index as nat),
        HexFault::OddLength => "Odd number of digits"@,
        HexFault::InvalidStringLength => "Invalid string length"@,
    }
}

impl HexFault {
    /// The fault's text, as `hex` displays it.
    pub fn message(&self) -> (s: String)
        ensures
            s@ == hex_fault_text(*self),
    {
        match self {
            HexFault::InvalidHexCharacter { c, index } => {
                let shown = char_debug_text(*c);
                let pos = decimal_text(*index as u64);
                let front = framed("Invalid character ", shown.as_str(), " at position ");
                let m = framed(front.as_str(), pos.as_str(), "");
                proof {
                    reveal_strlit("");
                    assert(m@ =~= hex_fault_text(*self));
                }
                m
            },
            HexFault::OddLength => "Odd number of digits".to_string(),
            HexFault::InvalidStringLength => "Invalid string length".to_string(),
        }
    }
}

/// The address that wallet text names: "spt" followed by the hexadecimal
/// text of 20 bytes.
pub open spec fn wallet_address_spec(s: Seq<u8>) -> Option<Seq<u8>> {
    if s.len() >= 3 && s[0] == 115 && s[1] == 112 && s[2] == 116 && hex_decodable(s.skip(3)) && hex_decoded(
        s.skip(3),
    ).len() == 20 {
        Some(hex_decoded(s.skip(3)))
    } else {
        None
    }
}

/// Parse a wallet address of the form "spt" followed by 40 hexadecimal
/// digits; `None` for anything else.
pub fn parse_wallet_address(address: &str) -> (r: Option<Address>)
    ensures
        match r {
            Some(a) => wallet_address_spec(address.spec_bytes()) == Some(a@),
            None => wallet_address_spec(address.spec_bytes()) is None,
        },
{
    let b = address.as_bytes();
    if b.len() < 3 || b[0] != 115 || b[1] != 112 || b[2] != 116 {
        return None;
    }
    let mut rest: Vec<u8> = Vec::new();
    let mut i: usize = 3;
    while i < b.len()
        invariant
            3 <= i <= b@.len(),
            rest@ == b@.subrange(3, i as int),
        decreases b@.len() - i,
    {
        rest.push(b[i]);
        i = i + 1;
        assert(rest@ =~= b@.subrange(3, i as int));
    }
    assert(rest@ =~= b@.skip(3));
    let bytes = match hex_decode(rest.as_slice()) {
        Ok(v) => v,
        Err(_) => return None,
    };
    if bytes.len() != 20 {
        return None;
    }
    let mut addr: [u8; 20] = [0u8; 20];
    let mut k: usize = 0;
    while k < 20
        invariant
            bytes@.len() == 20,
            k <= 20,
            forall|j: int| 0 <= j < k ==> addr@[j] == bytes@[j],
        decreases 20 - k,
    {
        addr[k] = bytes[k];
        k = k + 1;
    }
    assert(addr@ =~= bytes@);
    Some(addr)
}

/// Decode a contract call result given as hexadecimal text; an error with
/// the decoder's text when it is not hexadecimal.
pub fn decode_contract_result(result: &str) -> (r: Result<Vec<u8>, String>)
    ensures
        r is Ok <==> hex_decodable(result.spec_bytes()),
        r matches Ok(v) ==> v@ == hex_decoded(result.spec_bytes()),
        r matches Err(e) ==> e@ == hex_fault_text(hex_fault_spec(result.spec_bytes())),
{
    match hex_decode(result.as_bytes()) {
        Ok(v) => Ok(v),
        Err(f) => Err(f.message()),
    }
}

/// Why hexadecimal text does not name a 32-byte hash.
#[derive(Clone, Copy, Debug, PartialEq, Eq)]
pub enum HashTextError {
    /// The text is not hexadecimal.
    InvalidHex(HexFault),
    /// The text decodes to this many bytes, not 32.
    WrongLength(usize),
}

/// Parse a 32-byte hash from hexadecimal text (either case).
pub fn parse_hash_hex(text: &str) -> (r: Result<BlockHash, HashTextError>)
    ensures
        r is Ok <==> (hex_decodable(text.spec_bytes()) && hex_decoded(text.spec_bytes()).len() == 32),
        r matches Ok(h) ==> h@ == hex_decoded(text.spec_bytes()),
        !hex_decodable(text.spec_bytes()) ==> r == Err::<BlockHash, HashTextError>(
            HashTextError::InvalidHex(hex_fault_spec(text.spec_bytes())),
        ),
        hex_decodable(text.spec_bytes()) && hex_decoded(text.spec_bytes()).len() != 32 ==> r == Err::<
            BlockHash,
            HashTextError,
        >(HashTextError::WrongLength(hex_decoded(text.spec_bytes()).len() as usize)),
{
    let bytes = match hex_decode(text.as_bytes()) {
        Ok(v) => v,
        Err(f) => return Err(HashTextError::InvalidHex(f)),
    };
    if bytes.len() != 32 {
        return Err(HashTextError::WrongLength(bytes.len()));
    }
    let mut hash: [u8; 32] = [0u8; 32];
    let mut k: usize = 0;
    while k < 32
        invariant
            bytes@.len() == 32,
            k <= 32,
            forall|j: int| 0 <= j < k ==> hash@[j] == bytes@[j],
        decreases 32 - k,
    {
        hash[k] = bytes[k];
        k = k + 1;
    }
    assert(hash@ =~= bytes@);
    Ok(hash)
}

impl HashTextError {
    /// The message for a transaction hash given as text.
    pub fn transaction_message(&self) -> (s: String)
        ensures
            s@ == match *self {
                HashTextError::InvalidHex(_) => "Invalid transaction hash"@,
                HashTextError::WrongLength(_) => "Transaction hash must be 32 bytes"@,
            },
    {
        match self {
            HashTextError::InvalidHex(_) => "Invalid transaction hash".to_string(),
            HashTextError::WrongLength(_) => "Transaction hash must be 32 bytes".to_string(),
        }
    }

    /// The message for a block hash given as text.
    pub fn block_message(&self) -> (s: String)
        ensures
            s@ == match *self {
                HashTextError::InvalidHex(_) => "Invalid block hash"@,
                HashTextError::WrongLength(_) => "Block hash must be 32 bytes"@,
            },
    {
        match self {
            HashTextError::InvalidHex(_) => "Invalid block hash".to_string(),
            HashTextError::WrongLength(_) => "Block hash must be 32 bytes".to_string(),
        }
    }

    /// The message for a transaction hash whose status is asked for: the
    /// decoder's text, or a length complaint.
    pub fn status_message(&self) -> (s: String)
        ensures
            s@ == match *self {
                HashTextError::InvalidHex(f) => hex_fault_text(f),
                HashTextError::WrongLength(_) => "Invalid tx hash length"@,
            },
    {
        match self {
            HashTextError::InvalidHex(f) => f.message(),
            HashTextError::WrongLength(_) => "Invalid tx hash length".to_string(),
        }
    }
}

/// Whether two texts are the same characters.
fn same_text(a: &str, b: &str) -> (r: bool)
    ensures
        r == (a@ == b@),
{
    let n = a.unicode_len();
    if n != b.unicode_len() {
        return false;
    }
    let mut i: usize = 0;
    while i < n
        invariant
            n == a@.len(),
            n == b@.len(),
            i <= n,
            forall|j: int| 0 <= j < i ==> a@[j] == b@[j],
        decreases n - i,
    {
        if a.get_char(i) != b.get_char(i) {
            return false;
        }
        i = i + 1;
    }
    assert(a@ =~= b@);
    true
}

/// The status a node reports for a transaction, read from its status word:
/// "confirmed" and "failed" name those states, anything else is pending.
pub open spec fn status_of_word(word: Seq<char>) -> TransactionStatus {
    if word == "confirmed"@ {
        TransactionStatus::Confirmed
    } else if word == "failed"@ {
        TransactionStatus::Failed
    } else {
        TransactionStatus::Pending
    }
}

/// Read a transaction status from a node's status word: "pending",
/// "confirmed" or "failed"; any other word reads as pending.
pub fn transaction_status_from_word(word: &str) -> (r: TransactionStatus)
    ensures
        r == status_of_word(word@),
{
    proof {
        reveal_strlit("pending");
        reveal_strlit("confirmed");
        reveal_strlit("failed");
        assert("pending"@[0] != "confirmed"@[0]);
        assert("pending"@[0] != "failed"@[0]);
    }
    if same_text(word, "pending") {
        TransactionStatus::Pending
    } else if same_text(word, "confirmed") {
        TransactionStatus::Confirmed
    } else if same_text(word, "failed") {
        TransactionStatus::Failed
    } else {
        TransactionStatus::Pending
    }
}

/// Wallet text of an address: "spt" followed by its 40 lowercase
/// hexadecimal digits.
pub fn format_address(address: Address) -> (s: String)
    ensures
        s@ == "spt"@ + hex_spec(address@),
{
    let digits = hex_encode(&address);
    let s = framed("spt", digits.as_str(), "");
    proof {
        reveal_strlit("");
        assert(s@ =~= "spt"@ + hex_spec(address@));
    }
    s
}

/// The payload of a contract call: the method's bytes, "::", then the
/// argument bytes.
pub fn encode_contract_call(method: &str, args: &[u8]) -> (r: Vec<u8>)
    ensures
        r@ == method.spec_bytes() + seq![58u8, 58u8] + args@,
{
    let m = method.as_bytes();
    let mut payload: Vec<u8> = Vec::new();
    let mut i: usize = 0;
    while i < m.len()
        invariant
            i <= m@.len(),
            payload@ == m@.take(i as int),
        decreases m@.len() - i,
    {
        payload.push(m[i]);
        i = i + 1;
        assert(payload@ =~= m@.take(i as int));
    }
    assert(m@.take(m@.len() as int) =~= m@);
    payload.push(58u8);
    payload.push(58u8);
    let ghost head = payload@;
    let mut j: usize = 0;
    while j < args.len()
        invariant
            j <= args@.len(),
            payload@ == head + args@.take(j as int),
        decreases args@.len() - j,
    {
        payload.push(args[j]);
        j = j + 1;
        assert(payload@ =~= head + args@.take(j as int));
    }
    assert(args@.take(args@.len() as int) =~= args@);
    payload
}

/// The checks of a batch of transactions: the first one with a zero gas
/// limit, or else with a zero gas price, is reported.
pub open spec fn collection_fault(txs: Seq<Transaction>) -> Option<Seq<char>>
    decreases txs.len(),
{
    if txs.len() == 0 {
        None
    } else if txs[0].gas_limit == 0 {
        Some("Gas limit must be > 0"@)
    } else if txs[0].gas_price == 0 {
        Some("Gas price must be > 0"@)
    } else {
        collection_fault(txs.drop_first())
    }
}

/// Check a batch of transactions: every one needs a nonzero gas limit and
/// a nonzero gas price; the first fault, in order, is reported.
pub fn validate_transaction_collection(txs: &[Transaction]) -> (r: Result<(), String>)
    ensures
        r is Ok <==> collection_fault(txs@) is None,
        r matches Err(e) ==> collection_fault(txs@) == Some(e@),
{
    let mut i: usize = 0;
    assert(txs@.skip(0) =~= txs@);
    while i < txs.len()
        invariant
            i <= txs@.len(),
            collection_fault(txs@) == collection_fault(txs@.skip(i as int)),
        decreases txs@.len() - i,
    {
        assert(txs@.skip(i as int).drop_first() =~= txs@.skip(i + 1));
        assert(txs@.skip(i as int)[0] == txs@[i as int]);
        if txs[i].gas_limit == 0 {
            return Err("Gas limit must be > 0".to_string());
        }
        if txs[i].gas_price == 0 {
            return Err("Gas price must be > 0".to_string());
        }
        i = i + 1;
    }
    assert(txs@.skip(i as int).len() == 0);
    Ok(())
}

/// Whether a chain id is in the accepted range 1 to 1,000,000.
pub fn validate_chain_id(chain_id: u64) -> (r: bool)
    ensures
        r == (0 < chain_id && chain_id <= 1_000_000),
{
    chain_id > 0 && chain_id <= 1_000_000
}

/// Format checks of a transaction, on its data size, gas limit and amount:
/// data of at most 128 KiB, a gas limit from 1 to 10,000,000, and an amount
/// of at most half of `u64::MAX`, checked in that order.
pub fn validate_transaction_format(data_len: usize, gas_limit: u64, amount: u64) -> (r: Result<(), String>)
    ensures
        data_len > 131072 ==> (r matches Err(e) && e@ == "Transaction data too large"@),
        data_len <= 131072 && (gas_limit == 0 || gas_limit > 10_000_000) ==> (r matches Err(e) && e@
            == "Invalid gas limit"@),
        data_len <= 131072 && 0 < gas_limit <= 10_000_000 && amount > u64::MAX / 2 ==> (r matches Err(e) && e@
            == "Amount too large"@),
        r is Ok <==> (data_len <= 131072 && 0 < gas_limit <= 10_000_000 && amount <= u64::MAX / 2),
{
    if data_len > 128 * 1024 {
        return Err("Transaction data too large".to_string());
    }
    if gas_limit == 0 || gas_limit > 10_000_000 {
        return Err("Invalid gas limit".to_string());
    }
    if amount > u64::MAX / 2 {
        return Err("Amount too large".to_string());
    }
    Ok(())
}

/// The key-value encoding of call arguments: for each, its name's bytes,
/// '=', its value, then ';'.
pub open spec fn abi_args_spec(args: Seq<(&str, &[u8])>) -> Seq<u8>
    decreases args.len(),
{
    if args.len() == 0 {
        Seq::empty()
    } else {
        abi_args_spec(args.drop_last()) + args.last().0.spec_bytes() + seq![61u8] + args.last().1@ + seq![59u8]
    }
}

/// Append the bytes of `src` to `dst`.
fn push_all(dst: &mut Vec<u8>, src: &[u8])
    ensures
        final(dst)@ == old(dst)@ + src@,
{
    let ghost head = dst@;
    let mut j: usize = 0;
    while j < src.len()
        invariant
            j <= src@.len(),
            dst@ == head + src@.take(j as int),
        decreases src@.len() - j,
    {
        dst.push(src[j]);
        j = j + 1;
        assert(dst@ =~= head + src@.take(j as int));
    }
    assert(src@.take(src@.len() as int) =~= src@);
}

/// Encode call arguments as key-value pairs: each name, '=', its value and
/// ';', in order.
pub fn abi_encode_args(args: &[(&str, &[u8])]) -> (r: Vec<u8>)
    ensures
        r@ == abi_args_spec(args@),
{
    let mut result: Vec<u8> = Vec::new();
    let mut i: usize = 0;
    while i < args.len()
        invariant
            i <= args@.len(),
            result@ == abi_args_spec(args@.take(i as int)),
        decreases args@.len() - i,
    {
        let (name, value) = args[i];
        push_all(&mut result, name.as_bytes());
        result.push(61u8);
        push_all(&mut result, value);
        result.push(59u8);
        proof {
            assert(args@.take(i + 1).drop_last() =~= args@.take(i as int));
            assert(result@ =~= abi_args_spec(args@.take(i + 1)));
        }
        i = i + 1;
    }
    assert(args@.take(args@.len() as int) =~= args@);
    result
}

} // verus!
