//! A small proof-of-work ledger: blocks of signed transactions, an
//! unspent-output set with a pool of pending transactions, difficulty
//! retargeting, a canonical binary encoding, and a wallet that assembles
//! transactions.
pub mod codec;
pub mod crypto;
pub mod error;
pub mod network;
pub mod node;
pub mod sha256;
pub mod types;
pub mod u256;
pub mod util;
pub mod wallet;

use vstd::prelude::*;

verus! {

/// Initial block reward in whole coins; one coin is 10^8 sats.
pub const INITIAL_REWARD: u64 = 50;

/// Number of sats in one coin.
pub const SATS_PER_COIN: u64 = 100_000_000;

/// Number of blocks between two halvings of the reward.
pub const HALVING_INTERVAL: u64 = 210;

/// Ideal time between two blocks, in seconds.
pub const IDEAL_BLOCK_TIME: u64 = 10;

/// Number of blocks between two adjustments of the target.
pub const DIFFICULTY_UPDATE_INTERVAL: u64 = 50;

/// Greatest age of a pending transaction, in seconds.
pub const MAX_MEMPOOL_TRANSACTION_AGE: u64 = 600;

/// The greatest target that the chain permits, which makes for the easiest
/// puzzle: 2^200 - 1.
pub open spec fn spec_min_target() -> crate::u256::U256 {
    crate::u256::U256 {
        w3: 0x0000_0000_0000_00FF,
        w2: 0xFFFF_FFFF_FFFF_FFFF,
        w1: 0xFFFF_FFFF_FFFF_FFFF,
        w0: 0xFFFF_FFFF_FFFF_FFFF,
    }
}

/// The greatest target that the chain permits.
pub fn min_target() -> (t: crate::u256::U256)
    ensures
        t == spec_min_target(),
{
    crate::u256::U256 {
        w3: 0x0000_0000_0000_00FF,
        w2: 0xFFFF_FFFF_FFFF_FFFF,
        w1: 0xFFFF_FFFF_FFFF_FFFF,
        w0: 0xFFFF_FFFF_FFFF_FFFF,
    }
}

} // verus!
