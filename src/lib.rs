//! A minimal proof-of-work ledger: content-addressed blocks, a hash-linked
//! chain, UTXO-style transactions and a derived unspent-output index.

pub mod block;
pub mod blockchain;
pub mod codec;
pub mod errors;
pub mod hashing;
pub mod transaction;
pub mod utxoset;
pub mod wallet;
