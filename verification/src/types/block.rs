//! Blocks and their headers: hashing, mining, and the rules that the
//! transactions of a block obey.
use crate::codec::{
    enc_array, enc_hash, enc_head, enc_u256, enc_u64, lemma_array_round_trip,
    lemma_hash_round_trip, lemma_head_round_trip, lemma_u256_round_trip,
    parse_array, parse_hash, parse_head, parse_u256, parse_u64, read_array, read_hash, read_head,
    read_u256, read_u64, views, write_array, write_hash, write_head, write_u256, write_u64,
    Canonical, TAG_ARRAY, TAG_UINT,
};
use crate::error::BtcError;
use crate::sha256::hash_of;
use crate::types::transaction::{Transaction, TransactionInput, TransactionView};
use crate::types::utxo::{input_sum, output_sum, sum_outputs, UtxoMap, UtxoSet};
use crate::u256::U256;
use crate::util::MerkleRoot;
use vstd::prelude::*;

verus! {

/// The header of a block. Mining changes `nonce`, and `timestamp` when the
/// nonce is used up.
#[derive(Clone, Copy, Debug, PartialEq, Eq, Structural)]
pub struct BlockHeader {
    /// When the block was made, in seconds since the epoch.
    pub timestamp: u64,
    /// The number that mining counts up.
    pub nonce: u64,
    /// The hash of the header of the block before this one; the zero hash
    /// in the first block.
    pub prev_block_hash: crate::sha256::Hash,
    /// The Merkle root of the block's transactions.
    pub merkle_root: MerkleRoot,
    /// The number that the header's hash must not exceed.
    pub target: U256,
}

/// A block: a header and transactions, the first of them the coinbase.
#[derive(Debug, PartialEq, Eq)]
pub struct Block {
    pub header: BlockHeader,
    pub transactions: Vec<Transaction>,
}

/// What a block holds.
pub struct BlockView {
    pub header: BlockHeader,
    pub transactions: Seq<TransactionView>,
}

impl View for BlockHeader {
    type V = BlockHeader;

    open spec fn view(&self) -> BlockHeader {
        *self
    }
}

impl View for Block {
    type V = BlockView;

    open spec fn view(&self) -> BlockView {
        BlockView { header: self.header, transactions: views(self.transactions@) }
    }
}

impl Canonical for BlockHeader {
    open spec fn spec_valid(v: BlockHeader) -> bool {
        true
    }

    /// An array of the timestamp, the nonce, the hash of the block before,
    /// the Merkle root and the target.
    open spec fn spec_encode(v: BlockHeader) -> Seq<u8> {
        enc_head(TAG_ARRAY, 5) + enc_u64(v.timestamp) + enc_u64(v.nonce) + enc_hash(
            v.prev_block_hash,
        ) + enc_hash(v.merkle_root.0) + enc_u256(v.target)
    }

    open spec fn spec_parse(s: Seq<u8>) -> Option<(BlockHeader, Seq<u8>)> {
        match parse_head(TAG_ARRAY, s) {
            Some((n, r0)) => match parse_u64(r0) {
                Some((timestamp, r1)) => match parse_u64(r1) {
                    Some((nonce, r2)) => match parse_hash(r2) {
                        Some((prev_block_hash, r3)) => match parse_hash(r3) {
                            Some((root, r4)) => match parse_u256(r4) {
                                Some((target, r5)) => if n == 5 {
                                    Some(
                                        (
                                            BlockHeader {
                                                timestamp,
                                                nonce,
                                                prev_block_hash,
                                                merkle_root: MerkleRoot(root),
                                                target,
                                            },
                                            r5,
                                        ),
                                    )
                                } else {
                                    None
                                },
                                None => None,
                            },
                            None => None,
                        },
                        None => None,
                    },
                    None => None,
                },
                None => None,
            },
            None => None,
        }
    }

    proof fn lemma_round_trip(v: BlockHeader, rest: Seq<u8>) {
        let e5 = enc_u256(v.target) + rest;
        let e4 = enc_hash(v.merkle_root.0) + e5;
        let e3 = enc_hash(v.prev_block_hash) + e4;
        let e2 = enc_u64(v.nonce) + e3;
        let e1 = enc_u64(v.timestamp) + e2;
        assert(Self::spec_encode(v) + rest =~= enc_head(TAG_ARRAY, 5) + e1);
        lemma_head_round_trip(TAG_ARRAY, 5, e1);
        lemma_head_round_trip(TAG_UINT, v.timestamp, e2);
        lemma_head_round_trip(TAG_UINT, v.nonce, e3);
        lemma_hash_round_trip(v.prev_block_hash, e4);
        lemma_hash_round_trip(v.merkle_root.0, e5);
        lemma_u256_round_trip(v.target, rest);
    }

    fn encode_into(&self, out: &mut Vec<u8>) {
        write_head(out, TAG_ARRAY, 5);
        write_u64(out, self.timestamp);
        write_u64(out, self.nonce);
        write_hash(out, &self.prev_block_hash);
        write_hash(out, &self.merkle_root.0);
        write_u256(out, &self.target);
        assert(out@ =~= old(out)@ + Self::spec_encode(*self));
    }

    fn decode_at(data: &[u8], pos: usize) -> (r: Option<(Self, usize)>) {
        let (n, at0) = match read_head(data, pos, TAG_ARRAY) {
            Some(x) => x,
            None => { return None; },
        };
        let (timestamp, at1) = match read_u64(data, at0) {
            Some(x) => x,
            None => { return None; },
        };
        let (nonce, at2) = match read_u64(data, at1) {
            Some(x) => x,
            None => { return None; },
        };
        let (prev_block_hash, at3) = match read_hash(data, at2) {
            Some(x) => x,
            None => { return None; },
        };
        let (root, at4) = match read_hash(data, at3) {
            Some(x) => x,
            None => { return None; },
        };
        let (target, at5) = match read_u256(data, at4) {
            Some(x) => x,
            None => { return None; },
        };
        if n != 5 {
            return None;
        }
        Some(
            (BlockHeader { timestamp, nonce, prev_block_hash, merkle_root: MerkleRoot(root), target }, at5),
        )
    }
}

impl Canonical for Block {
    open spec fn spec_valid(v: BlockView) -> bool {
        v.transactions.len() <= usize::MAX && crate::codec::all_valid::<Transaction>(v.transactions)
    }


    /// An array of the header and the array of transactions.
    open spec fn spec_encode(v: BlockView) -> Seq<u8> {
        enc_head(TAG_ARRAY, 2) + BlockHeader::spec_encode(v.header) + enc_array::<Transaction>(
            v.transactions,
        )
    }

    open spec fn spec_parse(s: Seq<u8>) -> Option<(BlockView, Seq<u8>)> {
        match parse_head(TAG_ARRAY, s) {
            Some((n, r0)) => match BlockHeader::spec_parse(r0) {
                Some((header, r1)) => match parse_array::<Transaction>(r1) {
                    Some((transactions, r2)) => if n == 2 {
                        Some((BlockView { header, transactions }, r2))
                    } else {
                        None
                    },
                    None => None,
                },
                None => None,
            },
            None => None,
        }
    }

    proof fn lemma_round_trip(v: BlockView, rest: Seq<u8>) {
        let e2 = enc_array::<Transaction>(v.transactions) + rest;
        let e1 = BlockHeader::spec_encode(v.header) + e2;
        assert(Self::spec_encode(v) + rest =~= enc_head(TAG_ARRAY, 2) + e1);
        lemma_head_round_trip(TAG_ARRAY, 2, e1);
        BlockHeader::lemma_round_trip(v.header, e2);
        lemma_array_round_trip::<Transaction>(v.transactions, rest);
    }

    fn encode_into(&self, out: &mut Vec<u8>) {
        write_head(out, TAG_ARRAY, 2);
        self.header.encode_into(out);
        write_array(out, &self.transactions);
        assert(out@ =~= old(out)@ + Self::spec_encode(self@));
    }

    fn decode_at(data: &[u8], pos: usize) -> (r: Option<(Self, usize)>) {
        let (n, at0) = match read_head(data, pos, TAG_ARRAY) {
            Some(x) => x,
            None => { return None; },
        };
        let (header, at1) = match BlockHeader::decode_at(data, at0) {
            Some(x) => x,
            None => { return None; },
        };
        let (transactions, at2) = match read_array::<Transaction>(data, at1) {
            Some(x) => x,
            None => { return None; },
        };
        if n != 2 {
            return None;
        }
        Some((Block { header, transactions }, at2))
    }
}

/// The header `h` with another nonce.
pub open spec fn with_nonce(h: BlockHeader, nonce: u64) -> BlockHeader {
    BlockHeader { nonce, ..h }
}

/// Whether the hash of a header is at most the header's own target.
pub open spec fn header_solved(h: BlockHeader) -> bool {
    h.spec_hash().spec_matches_target(h.target)
}

impl BlockHeader {
    /// A header of the given fields.
    pub fn new(
        timestamp: u64,
        nonce: u64,
        prev_block_hash: crate::sha256::Hash,
        merkle_root: MerkleRoot,
        target: U256,
    ) -> (h: BlockHeader)
        ensures
            h == (BlockHeader { timestamp, nonce, prev_block_hash, merkle_root, target }),
    {
        BlockHeader { timestamp, nonce, prev_block_hash, merkle_root, target }
    }

    /// The hash of the header: that of its encoding.
    pub open spec fn spec_hash(self) -> crate::sha256::Hash {
        hash_of(Self::spec_encode(self))
    }

    /// The hash of the header.
    pub fn hash(&self) -> (h: crate::sha256::Hash)
        ensures
            h == self.spec_hash(),
    {
        let bytes = crate::codec::encode(self);
        crate::sha256::Hash::hash(bytes.as_slice())
    }

    /// Searches for a nonce with which the header's hash is at most its
    /// target. The nonce as it stands is tried first, then at most `steps`
    /// nonces that follow it. Returns `true` with the first nonce that
    /// solves the header. Where the nonce cannot be counted up any further
    /// before `steps` are used, the timestamp is set to `now`, the nonce to
    /// zero, and `false` is returned. Else `false` is returned with the
    /// nonce counted up by `steps`.
    pub fn mine_at(&mut self, steps: usize, now: u64) -> (found: bool)
        ensures
            found ==> header_solved(*final(self)) && final(self).nonce >= old(self).nonce
                && final(self).nonce - old(self).nonce <= steps && *final(self) == with_nonce(
                *old(self),
                final(self).nonce,
            ),
            forall|n: u64|
                old(self).nonce <= n && n - old(self).nonce <= steps && (found ==> n < final(self).nonce) ==> !header_solved(#[trigger] with_nonce(*old(self), n)),
            !found && old(self).nonce + steps <= u64::MAX ==> *final(self) == with_nonce(
                *old(self),
                (old(self).nonce + steps) as u64,
            ),
            !found && old(self).nonce + steps > u64::MAX ==> *final(self) == (BlockHeader {
                timestamp: now,
                nonce: 0,
                ..*old(self)
            }),
    {
        let target = self.target;
        if self.hash().matches_target(target) {
            return true;
        }
        let mut done: usize = 0;
        while done < steps
            invariant
                done <= steps,
                target == old(self).target,
                *self == with_nonce(*old(self), self.nonce),
                self.nonce == old(self).nonce + done,
                forall|n: u64|
                    old(self).nonce <= n <= self.nonce ==> !header_solved(
                        #[trigger] with_nonce(*old(self), n),
                    ),
            decreases steps - done,
        {
            if self.nonce == u64::MAX {
                self.timestamp = now;
                self.nonce = 0;
                return false;
            }
            self.nonce = self.nonce + 1;
            done += 1;
            if self.hash().matches_target(target) {
                return true;
            }
        }
        false
    }

    /// Searches for a nonce as `mine_at` does, with the time now for the
    /// timestamp that is set when the nonce is used up.
    pub fn mine(&mut self, steps: usize) -> (found: bool)
        ensures
            found ==> header_solved(*final(self)) && final(self).nonce >= old(self).nonce
                && final(self).nonce - old(self).nonce <= steps && *final(self) == with_nonce(
                *old(self),
                final(self).nonce,
            ),
            forall|n: u64|
                old(self).nonce <= n && n - old(self).nonce <= steps && (found ==> n < final(self).nonce) ==> !header_solved(#[trigger] with_nonce(*old(self), n)),
            !found && old(self).nonce + steps <= u64::MAX ==> *final(self) == with_nonce(
                *old(self),
                (old(self).nonce + steps) as u64,
            ),
            !found && old(self).nonce + steps > u64::MAX ==> final(self).nonce == 0
                && final(self).prev_block_hash == old(self).prev_block_hash && final(self).merkle_root == old(self).merkle_root && final(self).target == old(self).target,
    {
        let now = crate::util::now_seconds();
        self.mine_at(steps, now)
    }
}

/// The reward of a block at the given height: the initial reward in sats,
/// halved once for every `HALVING_INTERVAL` blocks before it.
pub open spec fn spec_reward(height: u64) -> u64 {
    let halvings = height / crate::HALVING_INTERVAL;
    if halvings >= 64 {
        0
    } else {
        ((crate::INITIAL_REWARD * crate::SATS_PER_COIN) as u64) >> halvings
    }
}

/// The reward at a height, for heights of any size.
pub open spec fn reward_at(height: nat) -> nat {
    let halvings = height / (crate::HALVING_INTERVAL as nat);
    if halvings >= 64 {
        0
    } else {
        (((crate::INITIAL_REWARD * crate::SATS_PER_COIN) as u64) >> (halvings as u64)) as nat
    }
}

/// The sum of the rewards of the first `n` heights.
pub open spec fn total_reward(n: nat) -> nat
    decreases n,
{
    if n == 0 {
        0
    } else {
        total_reward((n - 1) as nat) + reward_at((n - 1) as nat)
    }
}

/// What is left of the supply after the first `n` heights, counted
/// generously: the rest of the running period, and as much again as a whole
/// period at the running reward.
proof fn lemma_total_reward_budget(n: nat)
    ensures
        total_reward(n) + (210 - n % 210) * reward_at(n) + 210 * (if reward_at(n) >= 1 {
            reward_at(n)
        } else {
            1
        }) <= 420 * 5_000_000_000,
        reward_at(n) >= 0,
    decreases n,
{
    if n == 0 {
        assert(5_000_000_000u64 >> 0u64 == 5_000_000_000u64) by (bit_vector);
    } else {
        let m = (n - 1) as nat;
        lemma_total_reward_budget(m);
        let r = reward_at(m);
        let next = reward_at(n);
        let rem = 210 - m % 210;
        if n % 210 != 0 {
            assert(n / 210 == m / 210);
            assert(next == r);
            assert((rem - 1) * r == rem * r - r) by (nonlinear_arith);
        } else {
            assert(m % 210 == 209);
            assert(n / 210 == m / 210 + 1);
            let k = m / 210;
            if k + 1 < 64 {
                let k0 = k as u64;
                let k1 = (k + 1) as u64;
                assert(2 * (5_000_000_000u64 >> k1) <= (5_000_000_000u64 >> k0)) by (bit_vector)
                    requires
                        k0 < 63,
                        k1 == k0 + 1,
                ;
            }
            assert(rem * r == r) by (nonlinear_arith)
                requires
                    rem == 1,
            ;
            assert((210 - n % 210) * next == 210 * next);
        }
    }
}

/// However many blocks are made, the sum of their rewards stays below twice
/// the initial reward in sats times the number of blocks in a period.
pub proof fn lemma_total_reward_bound(n: nat)
    ensures
        total_reward(n) < 2 * crate::INITIAL_REWARD * crate::SATS_PER_COIN * crate::HALVING_INTERVAL,
{
    lemma_total_reward_budget(n);
    let rem = 210 - n % 210;
    let r = reward_at(n);
    assert(rem * r >= 0) by (nonlinear_arith)
        requires
            rem >= 0,
            r >= 0,
    ;
}

/// The reward of a block at a height that fits in 64 bits is the reward at
/// that height.
pub proof fn lemma_reward_at(height: u64)
    ensures
        spec_reward(height) == reward_at(height as nat),
{
}

/// The reward of a block at the given height.
pub fn block_reward(height: u64) -> (r: u64)
    ensures
        r == spec_reward(height),
{
    let halvings: u64 = height / crate::HALVING_INTERVAL;
    if halvings >= 64 {
        0
    } else {
        (crate::INITIAL_REWARD * crate::SATS_PER_COIN) >> halvings
    }
}

impl Clone for Block {
    fn clone(&self) -> (block: Block)
        ensures
            block@ == self@,
    {
        self.duplicate()
    }
}

/// Whether exactly one coinbase leads the transactions: there is a first
/// transaction, it has no inputs, and every other has some.
pub open spec fn structure_ok(txs: Seq<TransactionView>) -> bool {
    &&& txs.len() >= 1
    &&& txs[0].inputs.len() == 0
    &&& forall|i: int| 1 <= i < txs.len() ==> (#[trigger] txs[i]).inputs.len() > 0
}

/// Whether the output that an input names is unspent.
pub open spec fn input_resolves(input: TransactionInput, utxos: UtxoMap) -> bool {
    utxos.dom().contains(input.prev_transaction_output_hash)
}

/// Whether the signature of an input verifies the hash that the input names
/// under the key of the output with that hash.
pub open spec fn input_signed(input: TransactionInput, utxos: UtxoMap) -> bool {
    input.signature.spec_verify(
        input.prev_transaction_output_hash,
        utxos[input.prev_transaction_output_hash].0.pubkey,
    )
}

/// Whether every input of every transaction names an unspent output.
pub open spec fn inputs_resolve(txs: Seq<TransactionView>, utxos: UtxoMap) -> bool {
    forall|i: int, j: int|
        0 <= i < txs.len() && 0 <= j < txs[i].inputs.len() ==> input_resolves(
            #[trigger] txs[i].inputs[j],
            utxos,
        )
}

/// Whether every input of every transaction is signed.
pub open spec fn signatures_verify(txs: Seq<TransactionView>, utxos: UtxoMap) -> bool {
    forall|i: int, j: int|
        0 <= i < txs.len() && 0 <= j < txs[i].inputs.len() ==> input_signed(
            #[trigger] txs[i].inputs[j],
            utxos,
        )
}

/// The hashes that the inputs of a transaction name, in order.
pub open spec fn spent_of(tx: TransactionView) -> Seq<crate::sha256::Hash> {
    Seq::new(tx.inputs.len(), |j: int| tx.inputs[j].prev_transaction_output_hash)
}

/// The hashes that the inputs of the transactions name, in order.
pub open spec fn spent_hashes(txs: Seq<TransactionView>) -> Seq<crate::sha256::Hash>
    decreases txs.len(),
{
    if txs.len() == 0 {
        Seq::empty()
    } else {
        spent_hashes(txs.drop_last()) + spent_of(txs.last())
    }
}

/// Whether no output is spent twice by the transactions.
pub open spec fn no_double_spend(txs: Seq<TransactionView>) -> bool {
    spent_hashes(txs).no_duplicates()
}

/// Whether the inputs of a transaction cover its outputs, with sums that fit
/// in 64 bits.
pub open spec fn amounts_cover(tx: TransactionView, utxos: UtxoMap) -> bool {
    output_sum(tx.outputs) <= input_sum(tx.inputs, utxos) <= u64::MAX
}

/// Whether the inputs of every transaction but the first cover its outputs.
pub open spec fn amounts_ok(txs: Seq<TransactionView>, utxos: UtxoMap) -> bool {
    forall|i: int| 1 <= i < txs.len() ==> amounts_cover(#[trigger] txs[i], utxos)
}

/// The fees of the transactions: for every one but the first, what its
/// inputs hold more than its outputs.
pub open spec fn miner_fees(txs: Seq<TransactionView>, utxos: UtxoMap) -> int
    decreases txs.len(),
{
    if txs.len() <= 1 {
        0
    } else {
        miner_fees(txs.drop_last(), utxos) + input_sum(txs.last().inputs, utxos) - output_sum(
            txs.last().outputs,
        )
    }
}

/// Whether the coinbase pays exactly the reward and the fees, a sum that
/// fits in 64 bits.
pub open spec fn coinbase_ok(txs: Seq<TransactionView>, height: u64, utxos: UtxoMap) -> bool {
    &&& output_sum(txs[0].outputs) == spec_reward(height) + miner_fees(txs, utxos)
    &&& spec_reward(height) + miner_fees(txs, utxos) <= u64::MAX
}

/// What the verification of the transactions of a block at the given height
/// returns: `InvalidTransaction` where the coinbase is not the one leading
/// transaction or an input names no unspent output; else `InvalidSignature`
/// where a signature does not verify; else `InvalidTransaction` where an
/// output is spent twice, a transaction pays out more than it takes in, or
/// the coinbase does not pay reward and fees exactly; else success.
pub open spec fn spec_verify_transactions(
    txs: Seq<TransactionView>,
    height: u64,
    utxos: UtxoMap,
) -> Result<(), BtcError> {
    if !structure_ok(txs) || !inputs_resolve(txs, utxos) {
        Err(BtcError::InvalidTransaction)
    } else if !signatures_verify(txs, utxos) {
        Err(BtcError::InvalidSignature)
    } else if !no_double_spend(txs) || !amounts_ok(txs, utxos) || !coinbase_ok(txs, height, utxos) {
        Err(BtcError::InvalidTransaction)
    } else {
        Ok(())
    }
}

/// What the computation of the fees returns: the fees, where every input
/// names an unspent output, every transaction but the first takes in at
/// least what it pays out, and the sums fit in 64 bits.
pub open spec fn spec_calculate_miner_fees(txs: Seq<TransactionView>, utxos: UtxoMap) -> Result<
    u64,
    BtcError,
> {
    if inputs_resolve(txs, utxos) && amounts_ok(txs, utxos) && miner_fees(txs, utxos) <= u64::MAX {
        Ok(miner_fees(txs, utxos) as u64)
    } else {
        Err(BtcError::InvalidTransaction)
    }
}

/// The fees are not negative, and at most 2^64 for each transaction, where
/// every transaction but the first takes in at least what it pays out.
pub proof fn lemma_miner_fees_bound(txs: Seq<TransactionView>, utxos: UtxoMap)
    requires
        amounts_ok(txs, utxos),
    ensures
        0 <= miner_fees(txs, utxos) <= txs.len() * u64::MAX,
    decreases txs.len(),
{
    if txs.len() > 1 {
        let front = txs.drop_last();
        assert(amounts_ok(front, utxos)) by {
            assert forall|i: int| 1 <= i < front.len() implies amounts_cover(
                #[trigger] front[i],
                utxos,
            ) by {
                assert(front[i] == txs[i]);
            }
        }
        lemma_miner_fees_bound(front, utxos);
        assert(amounts_cover(txs[txs.len() - 1], utxos));
        assert(front.len() * u64::MAX + u64::MAX == txs.len() * u64::MAX) by (nonlinear_arith)
            requires
                front.len() + 1 == txs.len(),
        ;
    } else {
        assert(0 <= txs.len() * u64::MAX) by (nonlinear_arith);
    }
}

/// Whether a hash occurs twice in the vector.
fn has_repeat(hashes: &Vec<crate::sha256::Hash>) -> (r: bool)
    ensures
        r == !hashes@.no_duplicates(),
{
    let mut i: usize = 0;
    while i < hashes.len()
        invariant
            i <= hashes@.len(),
            forall|a: int, b: int| 0 <= a < b < hashes@.len() && b < i ==> hashes@[a] != hashes@[b],
        decreases hashes@.len() - i,
    {
        let mut k: usize = 0;
        while k < i
            invariant
                k <= i < hashes@.len(),
                forall|a: int| 0 <= a < k ==> hashes@[a] != hashes@[i as int],
            decreases i - k,
        {
            if hashes[k] == hashes[i] {
                return true;
            }
            k += 1;
        }
        i += 1;
    }
    assert forall|a: int, b: int| 0 <= a < hashes@.len() && 0 <= b < hashes@.len() && a
        != b implies hashes@[a] != hashes@[b] by {
        if a < b {
        } else {
            assert(hashes@[b] != hashes@[a]);
        }
    }
    false
}

impl Block {
    /// A block of the given header and transactions.
    pub fn new(header: BlockHeader, transactions: Vec<Transaction>) -> (block: Block)
        ensures
            block@ == (BlockView { header, transactions: views(transactions@) }),
            block.header == header,
            block.transactions == transactions,
    {
        Block { header, transactions }
    }

    /// The hash of the block: that of its header.
    pub fn hash(&self) -> (h: crate::sha256::Hash)
        ensures
            h == self.header.spec_hash(),
    {
        self.header.hash()
    }

    /// A copy of the block.
    pub fn duplicate(&self) -> (block: Block)
        ensures
            block@ == self@,
    {
        let mut transactions: Vec<Transaction> = Vec::new();
        let mut i: usize = 0;
        while i < self.transactions.len()
            invariant
                i <= self.transactions@.len(),
                transactions@.len() == i,
                views(transactions@) == views(self.transactions@).take(i as int),
            decreases self.transactions@.len() - i,
        {
            let ghost prev = transactions@;
            transactions.push(self.transactions[i].duplicate());
            proof {
                assert forall|k: int| 0 <= k < i + 1 implies views(transactions@)[k] == views(
                    self.transactions@,
                )[k] by {
                    if k < i {
                        assert(views(prev)[k] == views(self.transactions@).take(i as int)[k]);
                        assert(transactions@[k] == prev[k]);
                    }
                }
                assert(views(transactions@) =~= views(self.transactions@).take(i + 1));
            }
            i += 1;
        }
        assert(views(transactions@) =~= views(self.transactions@));
        Block { header: self.header, transactions }
    }

    /// Whether every input of every transaction names an unspent output.
    fn check_inputs_resolve(&self, utxos: &UtxoSet) -> (r: bool)
        requires
            utxos.wf(),
        ensures
            r == inputs_resolve(self@.transactions, utxos@),
    {
        let ghost txs = self@.transactions;
        let mut i: usize = 0;
        while i < self.transactions.len()
            invariant
                utxos.wf(),
                i <= self.transactions@.len(),
                txs == views(self.transactions@),
                forall|a: int, b: int|
                    0 <= a < i && 0 <= b < txs[a].inputs.len() ==> input_resolves(
                        #[trigger] txs[a].inputs[b],
                        utxos@,
                    ),
            decreases self.transactions@.len() - i,
        {
            let tx = &self.transactions[i];
            let mut j: usize = 0;
            while j < tx.inputs.len()
                invariant
                    utxos.wf(),
                    i < self.transactions@.len(),
                    txs == views(self.transactions@),
                    *tx == self.transactions@[i as int],
                    j <= tx.inputs@.len(),
                    forall|b: int|
                        0 <= b < j ==> input_resolves(#[trigger] txs[i as int].inputs[b], utxos@),
                decreases tx.inputs@.len() - j,
            {
                if !utxos.contains_key(&tx.inputs[j].prev_transaction_output_hash) {
                    assert(!input_resolves(txs[i as int].inputs[j as int], utxos@));
                    return false;
                }
                j += 1;
            }
            i += 1;
        }
        true
    }

    /// Whether every input of every transaction is signed. Every input
    /// names an unspent output.
    fn check_signatures(&self, utxos: &UtxoSet) -> (r: bool)
        requires
            utxos.wf(),
            inputs_resolve(self@.transactions, utxos@),
        ensures
            r == signatures_verify(self@.transactions, utxos@),
    {
        let ghost txs = self@.transactions;
        let mut i: usize = 0;
        while i < self.transactions.len()
            invariant
                utxos.wf(),
                i <= self.transactions@.len(),
                txs == views(self.transactions@),
                inputs_resolve(txs, utxos@),
                forall|a: int, b: int|
                    0 <= a < i && 0 <= b < txs[a].inputs.len() ==> input_signed(
                        #[trigger] txs[a].inputs[b],
                        utxos@,
                    ),
            decreases self.transactions@.len() - i,
        {
            let tx = &self.transactions[i];
            let mut j: usize = 0;
            while j < tx.inputs.len()
                invariant
                    utxos.wf(),
                    i < self.transactions@.len(),
                    txs == views(self.transactions@),
                    inputs_resolve(txs, utxos@),
                    *tx == self.transactions@[i as int],
                    j <= tx.inputs@.len(),
                    forall|b: int|
                        0 <= b < j ==> input_signed(#[trigger] txs[i as int].inputs[b], utxos@),
                decreases tx.inputs@.len() - j,
            {
                let input = tx.inputs[j];
                assert(input_resolves(txs[i as int].inputs[j as int], utxos@));
                let signed = match utxos.get(&input.prev_transaction_output_hash) {
                    Some((output, _)) => input.signature.verify(
                        &input.prev_transaction_output_hash,
                        &output.pubkey,
                    ),
                    None => false,
                };
                if !signed {
                    assert(!input_signed(txs[i as int].inputs[j as int], utxos@));
                    return false;
                }
                j += 1;
            }
            i += 1;
        }
        true
    }

    /// The hashes that the inputs of the transactions name, in order.
    fn collect_spent(&self) -> (spent: Vec<crate::sha256::Hash>)
        ensures
            spent@ == spent_hashes(self@.transactions),
    {
        let ghost txs = self@.transactions;
        let mut spent: Vec<crate::sha256::Hash> = Vec::new();
        let mut i: usize = 0;
        assert(txs.take(0) =~= Seq::<TransactionView>::empty());
        while i < self.transactions.len()
            invariant
                i <= self.transactions@.len(),
                txs == views(self.transactions@),
                spent@ == spent_hashes(txs.take(i as int)),
            decreases self.transactions@.len() - i,
        {
            let tx = &self.transactions[i];
            let ghost before = spent@;
            let mut j: usize = 0;
            while j < tx.inputs.len()
                invariant
                    i < self.transactions@.len(),
                    txs == views(self.transactions@),
                    *tx == self.transactions@[i as int],
                    j <= tx.inputs@.len(),
                    spent@ == before + spent_of(txs[i as int]).take(j as int),
                decreases tx.inputs@.len() - j,
            {
                spent.push(tx.inputs[j].prev_transaction_output_hash);
                assert(spent@ =~= before + spent_of(txs[i as int]).take(j + 1));
                j += 1;
            }
            proof {
                assert(spent_of(txs[i as int]).take(j as int) =~= spent_of(txs[i as int]));
                assert(txs.take(i + 1).drop_last() =~= txs.take(i as int));
                assert(txs.take(i + 1).last() == txs[i as int]);
            }
            i += 1;
        }
        assert(txs.take(i as int) =~= txs);
        spent
    }

    /// The fees of the block, where every transaction but the first takes in
    /// at least what it pays out, with sums that fit in 64 bits; else
    /// `None`.
    fn sum_fees(&self, utxos: &UtxoSet) -> (r: Option<u128>)
        requires
            utxos.wf(),
        ensures
            match r {
                Some(fees) => amounts_ok(self@.transactions, utxos@) && fees == miner_fees(
                    self@.transactions,
                    utxos@,
                ),
                None => !amounts_ok(self@.transactions, utxos@),
            },
    {
        let ghost txs = self@.transactions;
        let mut fees: u128 = 0;
        if self.transactions.len() == 0 {
            return Some(0);
        }
        let mut i: usize = 1;
        assert(txs.take(1).len() == 1);
        while i < self.transactions.len()
            invariant
                utxos.wf(),
                1 <= i <= self.transactions@.len(),
                txs == views(self.transactions@),
                amounts_ok(txs.take(i as int), utxos@),
                fees == miner_fees(txs.take(i as int), utxos@),
            decreases self.transactions@.len() - i,
        {
            let tx = &self.transactions[i];
            let taken = utxos.sum_inputs(&tx.inputs);
            let paid = sum_outputs(&tx.outputs);
            if taken > 0xFFFF_FFFF_FFFF_FFFFu128 || paid > taken {
                assert(!amounts_cover(txs[i as int], utxos@));
                return None;
            }
            proof {
                let next = txs.take(i + 1);
                assert(next.drop_last() =~= txs.take(i as int));
                assert(next.last() == txs[i as int]);
                assert forall|k: int| 1 <= k < next.len() implies amounts_cover(
                    #[trigger] next[k],
                    utxos@,
                ) by {
                    if k < i {
                        assert(txs.take(i as int)[k] == next[k]);
                    }
                }
                lemma_miner_fees_bound(txs.take(i as int), utxos@);
                assert(i * u64::MAX <= usize::MAX * u64::MAX) by (nonlinear_arith)
                    requires
                        i <= usize::MAX,
                ;
                assert(usize::MAX * u64::MAX <= u64::MAX * u64::MAX) by (nonlinear_arith)
                    requires
                        usize::MAX <= u64::MAX,
                ;
            }
            fees = fees + (taken - paid);
            i += 1;
        }
        assert(txs.take(i as int) =~= txs);
        Some(fees)
    }

    /// The fees that the block leaves to its miner.
    pub fn calculate_miner_fees(&self, utxos: &UtxoSet) -> (r: Result<u64, BtcError>)
        requires
            utxos.wf(),
        ensures
            r == spec_calculate_miner_fees(self@.transactions, utxos@),
    {
        if !self.check_inputs_resolve(utxos) {
            return Err(BtcError::InvalidTransaction);
        }
        match self.sum_fees(utxos) {
            Some(fees) => {
                if fees > 0xFFFF_FFFF_FFFF_FFFFu128 {
                    Err(BtcError::InvalidTransaction)
                } else {
                    Ok(fees as u64)
                }
            },
            None => Err(BtcError::InvalidTransaction),
        }
    }

    /// Whether exactly one coinbase leads the transactions.
    fn check_structure(&self) -> (r: bool)
        ensures
            r == structure_ok(self@.transactions),
    {
        let ghost txs = self@.transactions;
        if self.transactions.len() == 0 {
            return false;
        }
        if self.transactions[0].inputs.len() != 0 {
            return false;
        }
        let mut i: usize = 1;
        while i < self.transactions.len()
            invariant
                1 <= i <= self.transactions@.len(),
                txs == views(self.transactions@),
                forall|k: int| 1 <= k < i ==> (#[trigger] txs[k]).inputs.len() > 0,
            decreases self.transactions@.len() - i,
        {
            if self.transactions[i].inputs.len() == 0 {
                assert(txs[i as int].inputs.len() == 0);
                return false;
            }
            i += 1;
        }
        true
    }

    /// Verifies the transactions of the block as those of a block at the
    /// given height, against the unspent outputs.
    pub fn verify_transactions(&self, height: u64, utxos: &UtxoSet) -> (r: Result<(), BtcError>)
        requires
            utxos.wf(),
        ensures
            r == spec_verify_transactions(self@.transactions, height, utxos@),
    {
        if !self.check_structure() || !self.check_inputs_resolve(utxos) {
            return Err(BtcError::InvalidTransaction);
        }
        if !self.check_signatures(utxos) {
            return Err(BtcError::InvalidSignature);
        }
        let spent = self.collect_spent();
        if has_repeat(&spent) {
            return Err(BtcError::InvalidTransaction);
        }
        let fees = match self.sum_fees(utxos) {
            Some(fees) => fees,
            None => { return Err(BtcError::InvalidTransaction); },
        };
        let paid = sum_outputs(&self.transactions[0].outputs);
        let due: u128 = block_reward(height) as u128;
        proof {
            lemma_miner_fees_bound(self@.transactions, utxos@);
            assert(self.transactions.len() == self.transactions@.len());
            assert(self.transactions@.len() * u64::MAX <= usize::MAX * u64::MAX) by (nonlinear_arith)
                requires
                    self.transactions@.len() <= usize::MAX,
            ;
            assert(usize::MAX * u64::MAX <= u64::MAX * u64::MAX) by (nonlinear_arith)
                requires
                    usize::MAX <= u64::MAX,
            ;
        }
        if due + fees > 0xFFFF_FFFF_FFFF_FFFFu128 || paid != due + fees {
            return Err(BtcError::InvalidTransaction);
        }
        Ok(())
    }
}

} // verus!
