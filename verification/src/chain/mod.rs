pub mod bytes;
pub mod hashing;
pub mod hash_order;
pub mod transaction;
pub mod block;
pub mod reward;
