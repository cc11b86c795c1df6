//! The ledger data model: transactions, blocks and the blockchain.
pub mod transaction;
pub mod block;
pub mod blockchain;
pub mod utxo;
