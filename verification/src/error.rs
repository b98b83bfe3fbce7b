//! The errors that the ledger and the wallet report.
use vstd::prelude::*;

verus! {

/// Why an operation was refused.
#[derive(Clone, Copy, Debug, PartialEq, Eq, Structural, Hash)]
pub enum BtcError {
    /// A transaction breaks a rule of admission or of block verification.
    InvalidTransaction,
    /// A block breaks a rule of acceptance other than the Merkle root.
    InvalidBlock,
    /// The Merkle root in a block's header is not that of its transactions.
    InvalidMerkleRoot,
    /// A signature does not verify, or could not be made.
    InvalidSignature,
    /// The wallet's unspent outputs do not cover amount and fee.
    InsufficientFunds,
    /// A stream or a file failed.
    Io,
    /// Bytes are not the canonical encoding of the value asked for.
    Codec,
    /// A message is not one that the request allows as its answer.
    Protocol,
}

} // verus!
