use vstd::prelude::*;
use crate::chain::bytes::{le_bytes, push_le, push_slice};
use crate::chain::hashing::{sha256, sha256_digest};

verus! {

/// A 20-byte account address.
pub type Address = [u8; 20];

/// What a transaction does.
#[derive(Clone, Copy, Debug, PartialEq)]
pub enum TxPayload {
    /// Move `amount` from the sender to `to`.
    Transfer { to: Address, amount: u64 },
    /// Mint a block reward of `amount` to `to` at the given blue score.
    Coinbase { to: Address, amount: u64, blue_score: u64 },
}

/// Whether every byte of the address is zero.
pub open spec fn is_zero_address(a: Address) -> bool {
    forall|i: int| 0 <= i < 20 ==> a[i] == 0u8
}

/// A transaction as carried by blocks.
#[derive(Clone, Copy, Debug, PartialEq)]
pub struct Transaction {
    pub from: Address,
    pub payload: TxPayload,
    pub nonce: u64,
    pub gas_limit: u64,
    pub gas_price: u64,
}

/// The bytes that a transaction's hash is computed over: sender, payload
/// tag and fields, nonce, gas limit and gas price, integers little-endian.
pub open spec fn tx_preimage(tx: Transaction) -> Seq<u8> {
    let body = match tx.payload {
        TxPayload::Transfer { to, amount } => seq![0u8] + to@ + le_bytes(amount as nat, 8),
        TxPayload::Coinbase { to, amount, blue_score } => seq![1u8] + to@ + le_bytes(amount as nat, 8)
            + le_bytes(blue_score as nat, 8),
    };
    tx.from@ + body + le_bytes(tx.nonce as nat, 8) + le_bytes(tx.gas_limit as nat, 8) + le_bytes(
        tx.gas_price as nat,
        8,
    )
}

/// The identifier of a transaction: SHA-256 of its preimage.
pub open spec fn tx_hash_spec(tx: Transaction) -> Seq<u8> {
    sha256_digest(tx_preimage(tx))
}

impl Transaction {
    /// A plain value transfer.
    pub fn new(from: Address, to: Address, amount: u64, nonce: u64, gas_limit: u64, gas_price: u64) -> (tx: Self)
        ensures
            tx == (Transaction {
                from,
                payload: TxPayload::Transfer { to, amount },
                nonce,
                gas_limit,
                gas_price,
            }),
    {
        Transaction { from, payload: TxPayload::Transfer { to, amount }, nonce, gas_limit, gas_price }
    }

    /// A plain value transfer (same as `new`).
    pub fn new_transfer(
        from: Address,
        to: Address,
        amount: u64,
        nonce: u64,
        gas_limit: u64,
        gas_price: u64,
    ) -> (tx: Self)
        ensures
            tx == (Transaction {
                from,
                payload: TxPayload::Transfer { to, amount },
                nonce,
                gas_limit,
                gas_price,
            }),
    {
        Transaction::new(from, to, amount, nonce, gas_limit, gas_price)
    }

    /// A coinbase paying `amount` to `to`, sent from the zero address, with
    /// no gas.
    pub fn new_coinbase(to: Address, amount: u64, blue_score: u64, nonce: u64) -> (tx: Self)
        ensures
            is_zero_address(tx.from),
            tx.payload == (TxPayload::Coinbase { to, amount, blue_score }),
            tx.nonce == nonce,
            tx.gas_limit == 0,
            tx.gas_price == 0,
    {
        Transaction {
            from: [0u8; 20],
            payload: TxPayload::Coinbase { to, amount, blue_score },
            nonce,
            gas_limit: 0,
            gas_price: 0,
        }
    }

    /// The bytes that are hashed to identify this transaction.
    pub fn preimage(&self) -> (out: Vec<u8>)
        ensures
            out@ == tx_preimage(*self),
    {
        let mut out: Vec<u8> = Vec::new();
        push_slice(&mut out, self.from.as_slice());
        match &self.payload {
            TxPayload::Transfer { to, amount } => {
                out.push(0u8);
                push_slice(&mut out, to.as_slice());
                push_le(&mut out, *amount, 8);
            },
            TxPayload::Coinbase { to, amount, blue_score } => {
                out.push(1u8);
                push_slice(&mut out, to.as_slice());
                push_le(&mut out, *amount, 8);
                push_le(&mut out, *blue_score, 8);
            },
        }
        push_le(&mut out, self.nonce, 8);
        push_le(&mut out, self.gas_limit, 8);
        push_le(&mut out, self.gas_price, 8);
        proof {
            let body = match self.payload {
                TxPayload::Transfer { to, amount } => seq![0u8] + to@ + le_bytes(amount as nat, 8),
                TxPayload::Coinbase { to, amount, blue_score } => seq![1u8] + to@ + le_bytes(amount as nat, 8)
                    + le_bytes(blue_score as nat, 8),
            };
            assert(out@ =~= self.from@ + body + le_bytes(self.nonce as nat, 8) + le_bytes(
                self.gas_limit as nat,
                8,
            ) + le_bytes(self.gas_price as nat, 8));
        }
        out
    }

    /// SHA-256 of the transaction's preimage.
    pub fn hash(&self) -> (h: [u8; 32])
        ensures
            h@ == tx_hash_spec(*self),
    {
        let bytes = self.preimage();
        sha256(&bytes)
    }

    /// The amount moved or minted by this transaction.
    pub fn amount(&self) -> (a: u64)
        ensures
            a == match self.payload {
                TxPayload::Transfer { amount, .. } => amount,
                TxPayload::Coinbase { amount, .. } => amount,
            },
    {
        match &self.payload {
            TxPayload::Transfer { amount, .. } => *amount,
            TxPayload::Coinbase { amount, .. } => *amount,
        }
    }
}

} // verus!
