use vstd::prelude::*;
use crate::chain::block::{Block, BlockHash};
use crate::chain::transaction::{Address, Transaction};
use crate::observability::tracing::{decimal_text, framed};
use vstd::string::StringExecFns;

verus! {

/// A JSON value, carried through custom events.
#[verifier::external_type_specification]
#[verifier::external_body]
pub struct ExJsonValue(serde_json::Value);

/// Status of a transaction in an event.
#[derive(Clone, Copy, Debug, PartialEq, Eq)]
pub enum TransactionStatus {
    /// Added to the mempool.
    Pending,
    /// Confirmed in a block.
    Confirmed,
    /// Failed.
    Failed,
}

/// Status of a node in an event.
#[derive(Clone, Copy, Debug, PartialEq, Eq)]
pub enum NodeStatus {
    Starting,
    Running,
    Syncing,
    Error,
    ShuttingDown,
}

/// What an event reports.
#[derive(Debug)]
pub enum EventType {
    /// A block joined the DAG.
    NewBlock { block: Block, block_height: u64 },
    /// A transaction entered the mempool or was confirmed.
    NewTransaction { transaction: Transaction, status: TransactionStatus },
    /// A contract emitted an event.
    ContractEvent {
        contract_address: Address,
        event_name: String,
        event_data: Vec<u8>,
        block_hash: BlockHash,
        transaction_hash: String,
    },
    /// A peer connected.
    PeerConnected { peer_id: String, address: String },
    /// A peer disconnected.
    PeerDisconnected { peer_id: String, reason: Option<String> },
    /// The node's status changed.
    NodeStatusChanged { status: NodeStatus },
    /// A block was produced.
    BlockCreated { block: Block, block_height: u64 },
    /// A transaction was confirmed in a block.
    TransactionConfirmed { transaction: Transaction, block_hash: BlockHash, block_height: u64 },
    /// A contract call completed.
    ContractExecuted { contract_address: Address, method: String, result: Vec<u8>, gas_used: u64 },
    /// An application-defined event.
    Custom { event_name: String, data: serde_json::Value },
}

/// An event with its identifier, time (seconds since the Unix epoch) and
/// source node.
#[derive(Debug)]
pub struct Event {
    pub id: String,
    pub event_type: EventType,
    pub timestamp: u64,
    pub source_node: String,
}

/// Decimal text of a number.
pub open spec fn decimal_spec(n: nat) -> Seq<char>
    decreases n,
{
    if n < 10 {
        seq![(48 + n) as char]
    } else {
        decimal_spec(n / 10) + seq![(48 + n % 10) as char]
    }
}

/// Reads the system clock: seconds since the Unix epoch, 0 before it.
/// Nothing is claimed of the value.
#[verifier::external_body]
fn unix_time_secs() -> (t: u64) {
    std::time::SystemTime::now().duration_since(std::time::UNIX_EPOCH).unwrap_or_default().as_secs()
}

/// Text made of lowercase hexadecimal digits only.
pub open spec fn lower_hex_text(t: Seq<char>) -> bool {
    forall|i: int| 0 <= i < t.len() ==> ('0' <= #[trigger] t[i] <= '9' || 'a' <= t[i] <= 'f')
}

/// Calls `uuid::Uuid::new_v4` and formats it with `simple`: the UUID's 16
/// bytes as 32 lowercase hexadecimal digits. The bytes are random, so only
/// that shape is claimed.
#[verifier::external_body]
fn random_uuid_text() -> (s: String)
    ensures
        s@.len() == 32,
        lower_hex_text(s@),
{
    uuid::Uuid::new_v4().simple().to_string()
}

/// An event identifier: the timestamp in decimal, an underscore, and the
/// given text.
fn event_id_text(timestamp: u64, suffix: &str) -> (s: String)
    ensures
        s@ == decimal_spec(timestamp as nat) + seq!['_'] + suffix@,
{
    let digits = decimal_text(timestamp);
    let s = framed(digits.as_str(), "_", suffix);
    proof {
        reveal_strlit("_");
        assert(s@ =~= decimal_spec(timestamp as nat) + seq!['_'] + suffix@);
    }
    s
}

/// The routing name of an event type.
pub open spec fn event_type_name(t: EventType) -> Seq<char> {
    match t {
        EventType::NewBlock { .. } => "new_block"@,
        EventType::NewTransaction { .. } => "new_transaction"@,
        EventType::ContractEvent { .. } => "contract_event"@,
        EventType::PeerConnected { .. } => "peer_connected"@,
        EventType::PeerDisconnected { .. } => "peer_disconnected"@,
        EventType::NodeStatusChanged { .. } => "node_status"@,
        EventType::BlockCreated { .. } => "block_created"@,
        EventType::TransactionConfirmed { .. } => "transaction_confirmed"@,
        EventType::ContractExecuted { .. } => "contract_executed"@,
        EventType::Custom { event_name, .. } => event_name@,
    }
}

impl Event {
    /// An event of the given type from `source_node`, stamped with the
    /// current time; its identifier is the timestamp, an underscore and a
    /// random UUID as 32 lowercase hexadecimal digits.
    pub fn new(event_type: EventType, source_node: String) -> (e: Self)
        ensures
            e.event_type == event_type,
            e.source_node == source_node,
            exists|u: Seq<char>| u.len() == 32 && lower_hex_text(u) && e.id@ == decimal_spec(e.timestamp as nat) + seq!['_'] + u,
    {
        let timestamp = unix_time_secs();
        let uuid = random_uuid_text();
        let id = event_id_text(timestamp, uuid.as_str());

        Event { id, event_type, timestamp, source_node }
    }

    /// A new-block event.
    pub fn new_block(block: Block, block_height: u64, source_node: String) -> (e: Self)
        ensures
            e.event_type == (EventType::NewBlock { block, block_height }),
            e.source_node == source_node,
    {
        Self::new(EventType::NewBlock { block, block_height }, source_node)
    }

    /// A new-transaction event.
    pub fn new_transaction(transaction: Transaction, status: TransactionStatus, source_node: String) -> (e: Self)
        ensures
            e.event_type == (EventType::NewTransaction { transaction, status }),
            e.source_node == source_node,
    {
        Self::new(EventType::NewTransaction { transaction, status }, source_node)
    }

    /// A contract event.
    pub fn contract_event(
        contract_address: Address,
        event_name: String,
        event_data: Vec<u8>,
        block_hash: BlockHash,
        transaction_hash: String,
        source_node: String,
    ) -> (e: Self)
        ensures
            e.event_type == (EventType::ContractEvent {
                contract_address,
                event_name,
                event_data,
                block_hash,
                transaction_hash,
            }),
            e.source_node == source_node,
    {
        Self::new(EventType::ContractEvent { contract_address, event_name, event_data, block_hash, transaction_hash }, source_node)
    }

    /// A peer-connected event.
    pub fn peer_connected(peer_id: String, address: String, source_node: String) -> (e: Self)
        ensures
            e.event_type == (EventType::PeerConnected { peer_id, address }),
            e.source_node == source_node,
    {
        Self::new(EventType::PeerConnected { peer_id, address }, source_node)
    }

    /// A peer-disconnected event.
    pub fn peer_disconnected(peer_id: String, reason: Option<String>, source_node: String) -> (e: Self)
        ensures
            e.event_type == (EventType::PeerDisconnected { peer_id, reason }),
            e.source_node == source_node,
    {
        Self::new(EventType::PeerDisconnected { peer_id, reason }, source_node)
    }

    /// A node-status event.
    pub fn node_status_changed(status: NodeStatus, source_node: String) -> (e: Self)
        ensures
            e.event_type == (EventType::NodeStatusChanged { status }),
            e.source_node == source_node,
    {
        Self::new(EventType::NodeStatusChanged { status }, source_node)
    }

    /// A block-created event.
    pub fn new_block_created(block: Block, block_height: u64, source_node: String) -> (e: Self)
        ensures
            e.event_type == (EventType::BlockCreated { block, block_height }),
            e.source_node == source_node,
    {
        Self::new(EventType::BlockCreated { block, block_height }, source_node)
    }

    /// A transaction-confirmed event; its block height is 0, for the caller
    /// to set.
    pub fn new_transaction_confirmed(transaction: Transaction, block_hash: BlockHash, source_node: String) -> (e: Self)
        ensures
            e.event_type == (EventType::TransactionConfirmed { transaction, block_hash, block_height: 0 }),
            e.source_node == source_node,
    {
        Self::new(EventType::TransactionConfirmed { transaction, block_hash, block_height: 0 }, source_node)
    }

    /// A contract-executed event.
    pub fn new_contract_executed(
        contract_address: Address,
        method: String,
        result: Vec<u8>,
        gas_used: u64,
        source_node: String,
    ) -> (e: Self)
        ensures
            e.event_type == (EventType::ContractExecuted { contract_address, method, result, gas_used }),
            e.source_node == source_node,
    {
        Self::new(EventType::ContractExecuted { contract_address, method, result, gas_used }, source_node)
    }

    /// A custom event.
    pub fn new_custom(event_name: String, data: serde_json::Value, source_node: String) -> (e: Self)
        ensures
            e.event_type == (EventType::Custom { event_name, data }),
            e.source_node == source_node,
    {
        Self::new(EventType::Custom { event_name, data }, source_node)
    }

    /// The routing name of the event's type: a fixed name per kind, and
    /// the event name for a custom event.
    pub fn event_type_string(&self) -> (s: String)
        ensures
            s@ == event_type_name(self.event_type),
    {
        match &self.event_type {
            EventType::NewBlock { .. } => "new_block".to_string(),
            EventType::NewTransaction { .. } => "new_transaction".to_string(),
            EventType::ContractEvent { .. } => "contract_event".to_string(),
            EventType::PeerConnected { .. } => "peer_connected".to_string(),
            EventType::PeerDisconnected { .. } => "peer_disconnected".to_string(),
            EventType::NodeStatusChanged { .. } => "node_status".to_string(),
            EventType::BlockCreated { .. } => "block_created".to_string(),
            EventType::TransactionConfirmed { .. } => "transaction_confirmed".to_string(),
            EventType::ContractExecuted { .. } => "contract_executed".to_string(),
            EventType::Custom { event_name, .. } => event_name.clone(),
        }
    }
}

} // verus!
