//! Error kinds surfaced by ledger validation and key handling.
use vstd::prelude::*;

verus! {

/// Everything that can go wrong when validating blocks, transactions,
/// signatures or keys.
#[derive(Clone, Copy, Debug, PartialEq, Eq, Structural)]
pub enum BtcError {
    InvalidTransaction,
    InvalidBlock,
    InvalidBlockHeader,
    InvalidTransactionInput,
    InvalidTransactionOutput,
    InvalidMerkleRoot,
    InvalidHash,
    InvalidSignature,
    InvalidPublicKey,
    InvalidPrivateKey,
    InsufficientFunds,
}

impl BtcError {
    /// A short human-readable description.
    pub fn message(&self) -> (r: &'static str)
        ensures
            r@.len() > 0,
    {
        proof {
            reveal_strlit("invalid transaction");
            reveal_strlit("invalid block");
            reveal_strlit("invalid block header");
            reveal_strlit("invalid transaction input");
            reveal_strlit("invalid transaction output");
            reveal_strlit("invalid merkle root");
            reveal_strlit("invalid hash");
            reveal_strlit("invalid signature");
            reveal_strlit("invalid public key");
            reveal_strlit("invalid private key");
            reveal_strlit("insufficient funds");
        }
        match self {
            BtcError::InvalidTransaction => "invalid transaction",
            BtcError::InvalidBlock => "invalid block",
            BtcError::InvalidBlockHeader => "invalid block header",
            BtcError::InvalidTransactionInput => "invalid transaction input",
            BtcError::InvalidTransactionOutput => "invalid transaction output",
            BtcError::InvalidMerkleRoot => "invalid merkle root",
            BtcError::InvalidHash => "invalid hash",
            BtcError::InvalidSignature => "invalid signature",
            BtcError::InvalidPublicKey => "invalid public key",
            BtcError::InvalidPrivateKey => "invalid private key",
            BtcError::InsufficientFunds => "insufficient funds",
        }
    }
}

} // verus!
