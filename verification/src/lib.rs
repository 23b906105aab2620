//! Pruning of the state Merkle tree of a ledger database, and the resources
//! that transactions write.
pub mod node;
pub mod schemadb;
pub mod state_merkle_db;
pub mod batch;
pub mod pruner;
pub mod resource;
pub mod laws;
