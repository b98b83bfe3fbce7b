//! The chain's data: transactions, blocks, and the chain itself.
pub mod block;
pub mod blockchain;
pub mod mempool;
pub mod snapshot;
pub mod transaction;
pub mod utxo;

pub use block::{Block, BlockHeader};
pub use blockchain::Blockchain;
pub use transaction::{Transaction, TransactionInput, TransactionOutput};
