//! The Merkle root of a block's transactions, and the clock.
use crate::codec::{enc_hash, enc_head, write_hash, write_head, TAG_ARRAY};
use crate::sha256::hash_of;
use crate::types::transaction::{Transaction, TransactionView};
use vstd::prelude::*;

verus! {

/// Calls `chrono::Utc::now` and `DateTime::timestamp`: the seconds since the
/// epoch on the machine's clock. Nothing is stated of the result. The call
/// does not return on a machine whose clock stands before the epoch.
#[verifier::external_body]
fn utc_timestamp() -> i64 {
    chrono::Utc::now().timestamp()
}

/// The time now, in seconds since the epoch; zero before the epoch.
pub fn now_seconds() -> (seconds: u64)
    ensures
        exists|timestamp: i64| seconds == #[trigger] spec_seconds_since_epoch(timestamp),
{
    let t: i64 = utc_timestamp();
    seconds_since_epoch(t)
}

/// The seconds since the epoch that a signed timestamp stands for: the
/// timestamp itself, and zero for a time before the epoch.
pub open spec fn spec_seconds_since_epoch(timestamp: i64) -> u64 {
    if timestamp < 0 {
        0
    } else {
        timestamp as u64
    }
}

/// The seconds since the epoch that a signed timestamp stands for. The clock
/// hands its timestamp to this function; which timestamp that is cannot be
/// stated.
pub fn seconds_since_epoch(timestamp: i64) -> (seconds: u64)
    ensures
        seconds == spec_seconds_since_epoch(timestamp),
{
    if timestamp < 0 {
        0
    } else {
        timestamp as u64
    }
}

/// The hash of a pair of hashes: that of the encoding of an array of the
/// two.
pub open spec fn pair_hash(left: crate::sha256::Hash, right: crate::sha256::Hash) -> crate::sha256::Hash {
    hash_of(enc_head(TAG_ARRAY, 2) + enc_hash(left) + enc_hash(right))
}

/// The hashes of a sequence of transactions.
pub open spec fn transaction_hashes(txs: Seq<TransactionView>) -> Seq<crate::sha256::Hash> {
    Seq::new(txs.len(), |i: int| txs[i].spec_hash())
}

/// The next layer of a Merkle tree: the hashes of consecutive pairs, the
/// last hash paired with itself where the layer has an odd length.
pub open spec fn merkle_fold(layer: Seq<crate::sha256::Hash>) -> Seq<crate::sha256::Hash> {
    Seq::new(
        ((layer.len() + 1) / 2) as nat,
        |i: int|
            pair_hash(
                layer[2 * i],
                if 2 * i + 1 < layer.len() {
                    layer[2 * i + 1]
                } else {
                    layer[2 * i]
                },
            ),
    )
}

/// The hash that is left when a layer is folded until one hash remains.
pub open spec fn merkle_reduce(layer: Seq<crate::sha256::Hash>) -> crate::sha256::Hash
    recommends
        layer.len() > 0,
    decreases layer.len(),
{
    if layer.len() <= 1 {
        layer[0]
    } else {
        merkle_reduce(merkle_fold(layer))
    }
}

/// The Merkle root of a sequence of transactions, of which there is at least
/// one.
pub open spec fn merkle_root(txs: Seq<TransactionView>) -> crate::sha256::Hash
    recommends
        txs.len() > 0,
{
    merkle_reduce(transaction_hashes(txs))
}

/// A hash that commits to the transactions of a block.
#[derive(Clone, Copy, Debug, PartialEq, Eq, Structural)]
pub struct MerkleRoot(pub crate::sha256::Hash);

/// The hash of a pair of hashes.
fn hash_pair(left: &crate::sha256::Hash, right: &crate::sha256::Hash) -> (h: crate::sha256::Hash)
    ensures
        h == pair_hash(*left, *right),
{
    let mut bytes: Vec<u8> = Vec::new();
    write_head(&mut bytes, TAG_ARRAY, 2);
    write_hash(&mut bytes, left);
    write_hash(&mut bytes, right);
    assert(bytes@ =~= enc_head(TAG_ARRAY, 2) + enc_hash(*left) + enc_hash(*right));
    crate::sha256::Hash::hash(bytes.as_slice())
}

impl MerkleRoot {
    /// The Merkle root of the transactions of a block: their hashes, folded
    /// pair by pair until one is left. There is at least one transaction.
    pub fn calculate(transactions: &[Transaction]) -> (root: MerkleRoot)
        requires
            transactions@.len() > 0,
        ensures
            root == MerkleRoot(merkle_root(crate::codec::views(transactions@))),
    {
        let ghost txs = crate::codec::views(transactions@);
        let mut layer: Vec<crate::sha256::Hash> = Vec::new();
        let mut i: usize = 0;
        while i < transactions.len()
            invariant
                i <= transactions@.len(),
                txs == crate::codec::views(transactions@),
                layer@ == transaction_hashes(txs).take(i as int),
            decreases transactions@.len() - i,
        {
            layer.push(transactions[i].hash());
            assert(layer@ =~= transaction_hashes(txs).take(i + 1));
            i += 1;
        }
        assert(layer@ =~= transaction_hashes(txs));
        while layer.len() > 1
            invariant
                layer@.len() > 0,
                merkle_reduce(layer@) == merkle_root(txs),
            decreases layer@.len(),
        {
            let mut next: Vec<crate::sha256::Hash> = Vec::new();
            let mut k: usize = 0;
            let half: usize = layer.len() / 2 + layer.len() % 2;
            while k < half
                invariant
                    k <= half,
                    half == (layer@.len() + 1) / 2,
                    layer@.len() <= usize::MAX,
                    next@ == merkle_fold(layer@).take(k as int),
                decreases half - k,
            {
                let left = layer[2 * k];
                let right = if 2 * k + 1 < layer.len() {
                    layer[2 * k + 1]
                } else {
                    layer[2 * k]
                };
                next.push(hash_pair(&left, &right));
                assert(next@ =~= merkle_fold(layer@).take(k + 1));
                k += 1;
            }
            assert(next@ =~= merkle_fold(layer@));
            layer = next;
        }
        MerkleRoot(layer[0])
    }
}

} // verus!
