//! A pedagogical proof-of-work cryptocurrency ledger: blockchain state,
//! block validation, UTXO tracking, mempool policy, difficulty retargeting,
//! and the wire protocol that coordinates nodes, miners and wallets.
use vstd::prelude::*;

pub mod codec;
pub mod crypto;
pub mod error;
pub mod hash;
pub mod laws;
pub mod merkle;
pub mod network;
pub mod node;
pub mod numeric;
pub mod types;
pub mod u256;
pub mod wallet;

verus! {

/// Initial block reward in whole coins; multiplied by 10^8 for satoshis.
pub const INITIAL_REWARD: u64 = 50;

/// Number of blocks between halvings of the block reward.
pub const HALVING_INTERVAL: u64 = 210;

/// Ideal time between consecutive blocks, in seconds.
pub const IDEAL_BLOCK_TIME: u64 = 10;

/// Number of blocks between difficulty adjustments.
pub const DIFFICULTY_UPDATE_INTERVAL: u64 = 50;

/// Maximum age of a mempool entry, in seconds.
pub const MAX_MEMPOOL_TRANSACTION_AGE: u64 = 600;

/// Maximum number of transactions allowed in a block template.
pub const BLOCK_TRANSACTION_CAP: usize = 20;

} // verus!
