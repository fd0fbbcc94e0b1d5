//! An in-memory account-model proof-of-work blockchain core: chain state and
//! fork choice, account ledger, mempool and block builder, Merkle trees, and
//! the proof-of-work search, with machine-checked contracts throughout.
pub mod account;
pub mod alist;
pub mod block;
pub mod chain;
pub mod codec;
pub mod crypto;
pub mod encoding;
pub mod ledger;
pub mod miner;
pub mod network;
pub mod transaction;
pub mod u256;

use vstd::prelude::*;

verus! {

} // verus!
