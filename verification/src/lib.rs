//! Core data structures and consensus rules of the Siput BlockDAG node:
//! blocks and transactions, the block DAG with its ancestry relation,
//! GHOSTDAG blue-set coloring and ordering, the GHOSTDAG and blue-set
//! managers with their caches, difficulty and base-fee adjustment, the fee
//! market, mining helpers, block execution results, node events, tracing
//! contexts, the transaction pipeline's stage decisions and wallet address
//! parsing.
pub mod chain;
pub mod cli;
pub mod dag;
pub mod events;
pub mod node;
pub mod consensus;
pub mod execution;
pub mod interfaces;
pub mod observability;
pub mod pipeline;
