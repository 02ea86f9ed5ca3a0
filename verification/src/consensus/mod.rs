pub mod blue_set;
pub mod blue_set_cache;
pub mod blue_set_manager;
pub mod daa;
pub mod fee_market;
pub mod dag_traversal;
pub mod engine;
pub mod error;
pub mod ghostdag;
pub mod ghostdag_manager;
pub mod mining;
pub mod ordering;
