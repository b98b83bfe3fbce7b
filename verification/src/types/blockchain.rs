//! The chain: its blocks, the unspent outputs, the target and the pool of
//! pending transactions, with the rules by which each of them changes.
use crate::codec::{views, Canonical};
use crate::error::BtcError;
use crate::types::block::{
    block_reward, header_solved, input_resolves, spec_reward, spec_verify_transactions, spent_of,
    Block, BlockView,
};
use crate::types::mempool::{
    collect_released, eviction_flags, fee_sort, find_conflicts, released, retain_unflagged,
    retained, sort_by_fee, stale_marks, EntryView,
};
use crate::types::snapshot::{snapshot_usable, spec_load, Snapshot, SnapshotView};
use crate::types::transaction::{Transaction, TransactionView};
use crate::types::utxo::{
    input_sum, is_marked, lemma_with_marks, output_sum, sum_outputs, with_marks, UtxoMap, UtxoSet,
};
use crate::u256::{lemma_u256_bound, U256};
use crate::util::{merkle_root, transaction_hashes, MerkleRoot};
use crate::{spec_min_target, DIFFICULTY_UPDATE_INTERVAL, MAX_MEMPOOL_TRANSACTION_AGE};
use vstd::prelude::*;

verus! {

/// The chain.
#[derive(Debug)]
pub struct Blockchain {
    utxos: UtxoSet,
    blocks: Vec<Block>,
    target: U256,
    mempool: Vec<(Transaction, u64)>,
}

/// What the chain holds.
pub struct BlockchainView {
    /// The unspent outputs, each with its mark.
    pub utxos: UtxoMap,
    /// The blocks, the first of them first.
    pub blocks: Seq<BlockView>,
    /// The target that the next difficulty adjustment starts from.
    pub target: U256,
    /// The pending transactions, each with the time of its admission.
    pub mempool: Seq<EntryView>,
}

impl View for Blockchain {
    type V = BlockchainView;

    closed spec fn view(&self) -> BlockchainView {
        BlockchainView {
            utxos: self.utxos@,
            blocks: views(self.blocks@),
            target: self.target,
            mempool: views(self.mempool@),
        }
    }
}

/// The time that a stretch of blocks between two adjustments should take, in
/// seconds.
pub open spec fn ideal_seconds() -> nat {
    (crate::IDEAL_BLOCK_TIME * DIFFICULTY_UPDATE_INTERVAL) as nat
}

/// The target after an adjustment: the target before, scaled by the time
/// that the last stretch of blocks took over the time that it should have
/// taken, rounded down; kept within a quarter and four times the target
/// before; and at most the greatest target.
pub open spec fn retarget(prev: nat, actual: nat) -> nat {
    let scaled = prev * actual / ideal_seconds();
    let clamped = if scaled < prev / 4 {
        prev / 4
    } else if scaled > prev * 4 {
        prev * 4
    } else {
        scaled
    };
    if clamped <= spec_min_target()@ {
        clamped
    } else {
        spec_min_target()@
    }
}

/// The seconds between the first and the last block of the last stretch of
/// blocks; zero where the last is not the later one.
pub open spec fn stretch_seconds(blocks: Seq<BlockView>) -> nat
    recommends
        blocks.len() >= DIFFICULTY_UPDATE_INTERVAL,
{
    let first = blocks[blocks.len() - DIFFICULTY_UPDATE_INTERVAL].header.timestamp;
    let last = blocks[blocks.len() - 1].header.timestamp;
    if last >= first {
        (last - first) as nat
    } else {
        0
    }
}

/// Whether the target is adjusted once the chain has these blocks: there are
/// some, and their number is a multiple of the interval.
pub open spec fn adjustment_due(blocks: Seq<BlockView>) -> bool {
    blocks.len() > 0 && blocks.len() % (DIFFICULTY_UPDATE_INTERVAL as nat) == 0
}

/// The target of a chain with the given blocks and target once an adjustment
/// was tried.
pub open spec fn next_target(blocks: Seq<BlockView>, target: U256) -> U256 {
    if adjustment_due(blocks) {
        U256::spec_from_nat(retarget(target@, stretch_seconds(blocks)))
    } else {
        target
    }
}

/// An adjusted target is at least a quarter of the target before, at most
/// four times the target before, and at most the greatest target, however
/// long the stretch of blocks took.
pub proof fn lemma_retarget_clamp(prev: nat, actual: nat)
    requires
        prev <= spec_min_target()@,
    ensures
        prev / 4 <= retarget(prev, actual),
        retarget(prev, actual) <= prev * 4,
        retarget(prev, actual) <= spec_min_target()@,
{
}

/// Where a stretch of blocks took exactly the time that it should have
/// taken, the target stays as it is.
pub proof fn lemma_retarget_ideal(prev: nat)
    requires
        prev <= spec_min_target()@,
    ensures
        retarget(prev, ideal_seconds()) == prev,
{
    assert(prev * ideal_seconds() / ideal_seconds() == prev) by (nonlinear_arith)
        requires
            ideal_seconds() == 500,
    ;
}

/// Where a stretch of blocks took four times the time that it should have
/// taken or more, the target is four times the target before, or the
/// greatest target where that is less.
pub proof fn lemma_retarget_slow(prev: nat, actual: nat)
    requires
        prev <= spec_min_target()@,
        actual >= 4 * ideal_seconds(),
    ensures
        retarget(prev, actual) == if prev * 4 <= spec_min_target()@ {
            prev * 4
        } else {
            spec_min_target()@
        },
{
    assert(prev * actual / ideal_seconds() >= prev * 4) by (nonlinear_arith)
        requires
            ideal_seconds() == 500,
            actual >= 2000,
            prev >= 0,
    ;
}

/// Whether a pending transaction that was admitted at `admitted_at` is too
/// old at `now`.
pub open spec fn expired(admitted_at: u64, now: u64) -> bool {
    now > admitted_at && now - admitted_at > MAX_MEMPOOL_TRANSACTION_AGE
}

/// For each pending transaction, whether it is too old at `now`.
pub open spec fn expiry_flags(mempool: Seq<EntryView>, now: u64) -> Seq<bool> {
    Seq::new(mempool.len(), |i: int| expired(mempool[i].1, now))
}

/// The chain once the pending transactions that are too old at `now` were
/// taken out, and the marks of the outputs that they name were cleared.
pub open spec fn spec_cleanup_mempool(chain: BlockchainView, now: u64) -> BlockchainView {
    let flags = expiry_flags(chain.mempool, now);
    BlockchainView {
        utxos: with_marks(chain.utxos, released(chain.mempool, flags), false),
        mempool: retained(chain.mempool, flags),
        ..chain
    }
}

/// Whether a transaction passes the first checks of admission: every input
/// names an unspent output, and no two inputs name the same.
pub open spec fn admissible(tx: TransactionView, utxos: UtxoMap) -> bool {
    &&& forall|k: int| 0 <= k < tx.inputs.len() ==> input_resolves(#[trigger] tx.inputs[k], utxos)
    &&& spent_of(tx).no_duplicates()
}

/// The chain once the pending transactions that give way to `tx` were taken
/// out: the stale marks that its inputs name are cleared, and so are the
/// marks of the outputs that the inputs of those transactions name.
pub open spec fn after_conflicts(chain: BlockchainView, tx: TransactionView) -> BlockchainView {
    let flags = eviction_flags(chain.mempool, tx.inputs, chain.utxos);
    let stale = stale_marks(chain.mempool, tx.inputs, chain.utxos);
    BlockchainView {
        utxos: with_marks(
            with_marks(chain.utxos, stale, false),
            released(chain.mempool, flags),
            false,
        ),
        mempool: retained(chain.mempool, flags),
        ..chain
    }
}

/// The chain once `tx` was admitted at `now`: what gives way to it is taken
/// out, the outputs that its inputs name are marked, and it stands among the
/// pending transactions, which are in the order of their fees.
pub open spec fn after_admission(chain: BlockchainView, tx: TransactionView, now: u64) -> BlockchainView {
    let cleared = after_conflicts(chain, tx);
    let utxos = with_marks(cleared.utxos, spent_of(tx), true);
    BlockchainView { utxos, mempool: fee_sort(cleared.mempool.push((tx, now)), utxos), ..cleared }
}

/// Whether the outputs that the inputs of a transaction name hold at least
/// what its outputs pay, a sum that fits in 64 bits.
pub open spec fn funds_cover(tx: TransactionView, utxos: UtxoMap) -> bool {
    output_sum(tx.outputs) <= input_sum(tx.inputs, utxos) <= u64::MAX
}

/// What the admission of `tx` at `now` returns, and the chain after it. A
/// transaction that fails the first checks leaves the chain as it is. One
/// that pays out more than it takes in is refused after what gives way to it
/// was taken out.
pub open spec fn spec_add_to_mempool(chain: BlockchainView, tx: TransactionView, now: u64) -> (
    Result<(), BtcError>,
    BlockchainView,
) {
    if !admissible(tx, chain.utxos) {
        (Err(BtcError::InvalidTransaction), chain)
    } else if !funds_cover(tx, chain.utxos) {
        (Err(BtcError::InvalidTransaction), after_conflicts(chain, tx))
    } else {
        (Ok(()), after_admission(chain, tx, now))
    }
}

/// The unspent outputs without those that the inputs name.
pub open spec fn without_inputs(utxos: UtxoMap, inputs: Seq<crate::types::transaction::TransactionInput>) -> UtxoMap
    decreases inputs.len(),
{
    if inputs.len() == 0 {
        utxos
    } else {
        without_inputs(utxos, inputs.drop_last()).remove(
            inputs.last().prev_transaction_output_hash,
        )
    }
}

/// The unspent outputs with the outputs of a transaction put under the hash
/// `h`, one after the other: the last of them stays.
pub open spec fn with_outputs(
    utxos: UtxoMap,
    h: crate::sha256::Hash,
    outputs: Seq<crate::types::transaction::TransactionOutput>,
) -> UtxoMap {
    if outputs.len() == 0 {
        utxos
    } else {
        utxos.insert(h, (outputs.last(), false))
    }
}

/// The unspent outputs after a transaction: without what its inputs name,
/// with its outputs under the hash of the transaction.
pub open spec fn apply_transaction(utxos: UtxoMap, tx: TransactionView) -> UtxoMap {
    with_outputs(without_inputs(utxos, tx.inputs), tx.spec_hash(), tx.outputs)
}

/// The unspent outputs after the transactions, one after the other.
pub open spec fn apply_transactions(utxos: UtxoMap, txs: Seq<TransactionView>) -> UtxoMap
    decreases txs.len(),
{
    if txs.len() == 0 {
        utxos
    } else {
        apply_transaction(apply_transactions(utxos, txs.drop_last()), txs.last())
    }
}

/// The unspent outputs after the transactions of the blocks, one block
/// after the other.
pub open spec fn apply_blocks(utxos: UtxoMap, blocks: Seq<BlockView>) -> UtxoMap
    decreases blocks.len(),
{
    if blocks.len() == 0 {
        utxos
    } else {
        apply_transactions(apply_blocks(utxos, blocks.drop_last()), blocks.last().transactions)
    }
}

/// The hash that the header of the next block names as that of the block
/// before it: the zero hash where there is none.
pub open spec fn expected_prev(blocks: Seq<BlockView>) -> crate::sha256::Hash {
    if blocks.len() == 0 {
        crate::sha256::Hash(U256 { w3: 0, w2: 0, w1: 0, w0: 0 })
    } else {
        blocks.last().header.spec_hash()
    }
}

/// What the check of a block that is to be appended returns. The rules, in
/// order: the header names the hash of the last block's header, or the zero
/// hash where there is no block; the header's hash is at most the header's
/// target; there are transactions, and the header holds their Merkle root;
/// the block is later than the last block; the transactions verify as those
/// of a block at the height of the chain. A block that breaks the rule of
/// the Merkle root gives `InvalidMerkleRoot`, one that breaks another rule
/// `InvalidBlock`.
pub open spec fn spec_check_block(chain: BlockchainView, block: BlockView) -> Result<(), BtcError> {
    if block.header.prev_block_hash != expected_prev(chain.blocks) {
        Err(BtcError::InvalidBlock)
    } else if !header_solved(block.header) {
        Err(BtcError::InvalidBlock)
    } else if block.transactions.len() == 0 || merkle_root(block.transactions)
        != block.header.merkle_root.0 {
        Err(BtcError::InvalidMerkleRoot)
    } else if chain.blocks.len() > 0 && block.header.timestamp
        <= chain.blocks.last().header.timestamp {
        Err(BtcError::InvalidBlock)
    } else if spec_verify_transactions(block.transactions, chain.blocks.len() as u64, chain.utxos)
        is Err {
        Err(BtcError::InvalidBlock)
    } else {
        Ok(())
    }
}

/// For each pending transaction, whether a transaction of the block has its
/// hash.
pub open spec fn inclusion_flags(mempool: Seq<EntryView>, txs: Seq<TransactionView>) -> Seq<bool> {
    Seq::new(mempool.len(), |i: int| transaction_hashes(txs).contains(mempool[i].0.spec_hash()))
}

/// The chain once a block was appended: the block is the last, the pending
/// transactions that the block holds are taken out, and an adjustment of the
/// target was tried.
pub open spec fn after_block(chain: BlockchainView, block: BlockView) -> BlockchainView {
    let blocks = chain.blocks.push(block);
    BlockchainView {
        utxos: chain.utxos,
        blocks,
        target: next_target(blocks, chain.target),
        mempool: retained(chain.mempool, inclusion_flags(chain.mempool, block.transactions)),
    }
}

/// Whether the block at place `i` obeys the rules that tie it to the block
/// before it.
pub open spec fn block_linked(blocks: Seq<BlockView>, i: int) -> bool {
    let b = blocks[i];
    &&& header_solved(b.header)
    &&& b.transactions.len() > 0
    &&& merkle_root(b.transactions) == b.header.merkle_root.0
    &&& b.header.prev_block_hash == expected_prev(blocks.take(i))
    &&& i > 0 ==> b.header.timestamp > blocks[i - 1].header.timestamp
}

/// Whether every block obeys the rules that tie it to the block before it.
pub open spec fn chain_linked(blocks: Seq<BlockView>) -> bool {
    forall|i: int| 0 <= i < blocks.len() ==> block_linked(blocks, i)
}

/// What the unspent outputs hold under a hash, if anything.
pub open spec fn held_at(utxos: UtxoMap, h: crate::sha256::Hash) -> Option<
    (crate::types::transaction::TransactionOutput, bool),
> {
    if utxos.dom().contains(h) {
        Some(utxos[h])
    } else {
        None
    }
}

/// What a transaction leaves under a hash, whatever was there before: its
/// last output under its own hash, nothing under a hash that an input of it
/// names. `None` where the transaction leaves what is under the hash alone.
pub open spec fn left_by_transaction(tx: TransactionView, h: crate::sha256::Hash) -> Option<
    Option<(crate::types::transaction::TransactionOutput, bool)>,
> {
    if tx.outputs.len() > 0 && h == tx.spec_hash() {
        Some(Some((tx.outputs.last(), false)))
    } else if spent_of(tx).contains(h) {
        Some(None)
    } else {
        None
    }
}

/// What transactions leave under a hash: what the last of them that
/// touches the hash leaves.
pub open spec fn left_by_transactions(txs: Seq<TransactionView>, h: crate::sha256::Hash) -> Option<
    Option<(crate::types::transaction::TransactionOutput, bool)>,
>
    decreases txs.len(),
{
    if txs.len() == 0 {
        None
    } else {
        match left_by_transaction(txs.last(), h) {
            Some(left) => Some(left),
            None => left_by_transactions(txs.drop_last(), h),
        }
    }
}

/// What blocks leave under a hash: what the last of them that touches the
/// hash leaves.
pub open spec fn left_by_blocks(blocks: Seq<BlockView>, h: crate::sha256::Hash) -> Option<
    Option<(crate::types::transaction::TransactionOutput, bool)>,
>
    decreases blocks.len(),
{
    if blocks.len() == 0 {
        None
    } else {
        match left_by_transactions(blocks.last().transactions, h) {
            Some(left) => Some(left),
            None => left_by_blocks(blocks.drop_last(), h),
        }
    }
}

/// Taking out what inputs name leaves nothing under the hashes that they
/// name, and everything else as it was.
pub proof fn lemma_without_inputs(
    utxos: UtxoMap,
    inputs: Seq<crate::types::transaction::TransactionInput>,
    h: crate::sha256::Hash,
)
    ensures
        held_at(without_inputs(utxos, inputs), h) == if exists|k: int|
            0 <= k < inputs.len() && (#[trigger] inputs[k]).prev_transaction_output_hash == h {
            None
        } else {
            held_at(utxos, h)
        },
    decreases inputs.len(),
{
    if inputs.len() > 0 {
        let front = inputs.drop_last();
        lemma_without_inputs(utxos, front, h);
        if exists|k: int|
            0 <= k < front.len() && (#[trigger] front[k]).prev_transaction_output_hash == h {
            let k = choose|k: int|
                0 <= k < front.len() && (#[trigger] front[k]).prev_transaction_output_hash == h;
            assert(inputs[k].prev_transaction_output_hash == h);
        }
        if exists|k: int|
            0 <= k < inputs.len() && (#[trigger] inputs[k]).prev_transaction_output_hash == h {
            let k = choose|k: int|
                0 <= k < inputs.len() && (#[trigger] inputs[k]).prev_transaction_output_hash == h;
            if k < front.len() {
                assert(front[k].prev_transaction_output_hash == h);
            }
        }
    }
}

/// After a transaction, the unspent outputs hold under a hash what the
/// transaction leaves there, or what was there where it leaves that alone.
pub proof fn lemma_apply_transaction(utxos: UtxoMap, tx: TransactionView, h: crate::sha256::Hash)
    ensures
        held_at(apply_transaction(utxos, tx), h) == match left_by_transaction(tx, h) {
            Some(left) => left,
            None => held_at(utxos, h),
        },
{
    lemma_without_inputs(utxos, tx.inputs, h);
    if spent_of(tx).contains(h) {
        let k = choose|k: int| 0 <= k < spent_of(tx).len() && spent_of(tx)[k] == h;
        assert(tx.inputs[k].prev_transaction_output_hash == h);
    }
    if exists|k: int|
        0 <= k < tx.inputs.len() && (#[trigger] tx.inputs[k]).prev_transaction_output_hash == h {
        let k = choose|k: int|
            0 <= k < tx.inputs.len() && (#[trigger] tx.inputs[k]).prev_transaction_output_hash == h;
        assert(spent_of(tx)[k] == h);
    }
}

/// After transactions, the unspent outputs hold under a hash what the
/// transactions leave there, or what was there where they leave that alone.
pub proof fn lemma_apply_transactions(utxos: UtxoMap, txs: Seq<TransactionView>, h: crate::sha256::Hash)
    ensures
        held_at(apply_transactions(utxos, txs), h) == match left_by_transactions(txs, h) {
            Some(left) => left,
            None => held_at(utxos, h),
        },
    decreases txs.len(),
{
    if txs.len() > 0 {
        lemma_apply_transactions(utxos, txs.drop_last(), h);
        lemma_apply_transaction(apply_transactions(utxos, txs.drop_last()), txs.last(), h);
    }
}

/// After blocks, the unspent outputs hold under a hash what the blocks leave
/// there, or what was there where they leave that alone.
pub proof fn lemma_apply_blocks(utxos: UtxoMap, blocks: Seq<BlockView>, h: crate::sha256::Hash)
    ensures
        held_at(apply_blocks(utxos, blocks), h) == match left_by_blocks(blocks, h) {
            Some(left) => left,
            None => held_at(utxos, h),
        },
    decreases blocks.len(),
{
    if blocks.len() > 0 {
        lemma_apply_blocks(utxos, blocks.drop_last(), h);
        lemma_apply_transactions(
            apply_blocks(utxos, blocks.drop_last()),
            blocks.last().transactions,
            h,
        );
    }
}

/// Once the unspent outputs are derived from the blocks, deriving them again
/// changes nothing, whatever the blocks are and whatever the unspent outputs
/// were before.
pub proof fn lemma_rebuild_again(utxos: UtxoMap, blocks: Seq<BlockView>)
    ensures
        apply_blocks(apply_blocks(utxos, blocks), blocks) == apply_blocks(utxos, blocks),
{
    let once = apply_blocks(utxos, blocks);
    let twice = apply_blocks(once, blocks);
    assert forall|h: crate::sha256::Hash| held_at(twice, h) == held_at(once, h) by {
        lemma_apply_blocks(utxos, blocks, h);
        lemma_apply_blocks(once, blocks, h);
    }
    assert(twice =~= once) by {
        assert forall|h: crate::sha256::Hash| twice.dom().contains(h) == once.dom().contains(h) by {
            assert(held_at(twice, h) == held_at(once, h));
        }
        assert forall|h: crate::sha256::Hash| twice.dom().contains(h) implies twice[h]
            == once[h] by {
            assert(held_at(twice, h) == held_at(once, h));
        }
    }
}

/// What the empty chain holds.
pub open spec fn empty_chain() -> BlockchainView {
    BlockchainView {
        utxos: Map::empty(),
        blocks: Seq::empty(),
        target: spec_min_target(),
        mempool: Seq::empty(),
    }
}

/// For a chain of one block, which the empty chain accepted: once the
/// unspent outputs are derived from the blocks, deriving them again changes
/// nothing.
pub proof fn lemma_rebuild_first_block(block: BlockView)
    requires
        spec_check_block(empty_chain(), block) is Ok,
    ensures
        apply_blocks(apply_blocks(Map::empty(), seq![block]), seq![block]) == apply_blocks(
            Map::empty(),
            seq![block],
        ),
{
    lemma_rebuild_again(Map::empty(), seq![block]);
}

/// Applies a transaction to the unspent outputs.
fn apply_transaction_to(utxos: &mut UtxoSet, tx: &Transaction)
    requires
        old(utxos).wf(),
    ensures
        final(utxos).wf(),
        final(utxos)@ == apply_transaction(old(utxos)@, tx@),
{
    let mut i: usize = 0;
    assert(tx@.inputs.take(0) =~= Seq::<crate::types::transaction::TransactionInput>::empty());
    while i < tx.inputs.len()
        invariant
            utxos.wf(),
            i <= tx.inputs@.len(),
            utxos@ == without_inputs(old(utxos)@, tx@.inputs.take(i as int)),
        decreases tx.inputs@.len() - i,
    {
        let h = tx.inputs[i].prev_transaction_output_hash;
        utxos.remove(&h);
        assert(tx@.inputs.take(i + 1).drop_last() =~= tx@.inputs.take(i as int));
        i += 1;
    }
    assert(tx@.inputs.take(i as int) =~= tx@.inputs);
    let h = tx.hash();
    let ghost removed = utxos@;
    let mut o: usize = 0;
    while o < tx.outputs.len()
        invariant
            utxos.wf(),
            o <= tx.outputs@.len(),
            utxos@ == with_outputs(removed, h, tx@.outputs.take(o as int)),
        decreases tx.outputs@.len() - o,
    {
        let output = tx.outputs[o];
        utxos.insert(h, output, false);
        assert(utxos@ =~= with_outputs(removed, h, tx@.outputs.take(o + 1)));
        o += 1;
    }
    assert(tx@.outputs.take(o as int) =~= tx@.outputs);
}

/// Applies the transactions of a block to the unspent outputs.
fn apply_block_to(utxos: &mut UtxoSet, block: &Block)
    requires
        old(utxos).wf(),
    ensures
        final(utxos).wf(),
        final(utxos)@ == apply_transactions(old(utxos)@, block@.transactions),
{
    let ghost txs = block@.transactions;
    let mut t: usize = 0;
    assert(txs.take(0) =~= Seq::<TransactionView>::empty());
    while t < block.transactions.len()
        invariant
            utxos.wf(),
            t <= block.transactions@.len(),
            txs == views(block.transactions@),
            utxos@ == apply_transactions(old(utxos)@, txs.take(t as int)),
        decreases block.transactions@.len() - t,
    {
        apply_transaction_to(utxos, &block.transactions[t]);
        proof {
            assert(txs.take(t + 1).drop_last() =~= txs.take(t as int));
            assert(txs.take(t + 1).last() == block.transactions@[t as int]@);
        }
        t += 1;
    }
    assert(txs.take(t as int) =~= txs);
}

/// Entries that were put in the order of their fees with one more entry
/// hold that entry, and their fees ascend.
pub proof fn lemma_admitted_is_pending(mempool: Seq<EntryView>, entry: EntryView, utxos: UtxoMap)
    ensures
        fee_sort(mempool.push(entry), utxos).contains(entry),
        crate::types::mempool::fees_ascend(fee_sort(mempool.push(entry), utxos), utxos),
{
    broadcast use vstd::seq_lib::group_to_multiset_ensures;

    let all = mempool.push(entry);
    crate::types::mempool::lemma_fee_sort(all, utxos);
    assert(all[mempool.len() as int] == entry);
    assert(all.contains(entry));
    assert(all.to_multiset().count(entry) > 0);
    assert(fee_sort(all, utxos).to_multiset().count(entry) > 0);
}

/// The hashes of the transactions of a block.
fn transaction_hashes_of(block: &Block) -> (hashes: Vec<crate::sha256::Hash>)
    ensures
        hashes@ == transaction_hashes(block@.transactions),
{
    let ghost txs = block@.transactions;
    let mut hashes: Vec<crate::sha256::Hash> = Vec::new();
    let mut t: usize = 0;
    while t < block.transactions.len()
        invariant
            t <= block.transactions@.len(),
            txs == views(block.transactions@),
            hashes@ == transaction_hashes(txs).take(t as int),
        decreases block.transactions@.len() - t,
    {
        hashes.push(block.transactions[t].hash());
        assert(hashes@ =~= transaction_hashes(txs).take(t + 1));
        t += 1;
    }
    assert(hashes@ =~= transaction_hashes(txs));
    hashes
}

/// A chain whose blocks are tied to one another stays so when a block that
/// passes the check is put behind the last.
pub proof fn lemma_chain_linked_push(chain: BlockchainView, block: BlockView)
    requires
        chain_linked(chain.blocks),
        spec_check_block(chain, block) is Ok,
    ensures
        chain_linked(chain.blocks.push(block)),
{
    let blocks = chain.blocks.push(block);
    let last = blocks.len() - 1;
    assert(blocks.take(last) =~= chain.blocks);
    assert forall|k: int| 0 <= k < blocks.len() implies block_linked(blocks, k) by {
        if k < last {
            assert(block_linked(chain.blocks, k));
            assert(blocks.take(k) =~= chain.blocks.take(k));
        }
    }
}

/// Whether the hash is among those of the vector.
fn contains_hash(hashes: &Vec<crate::sha256::Hash>, h: &crate::sha256::Hash) -> (r: bool)
    ensures
        r == hashes@.contains(*h),
{
    let mut i: usize = 0;
    while i < hashes.len()
        invariant
            i <= hashes@.len(),
            forall|k: int| 0 <= k < i ==> hashes@[k] != *h,
        decreases hashes@.len() - i,
    {
        if hashes[i] == *h {
            return true;
        }
        i += 1;
    }
    false
}

/// The adjusted target.
fn adjusted_target(prev: U256, actual: u64) -> (r: U256)
    requires
        prev@ <= spec_min_target()@,
    ensures
        r@ == retarget(prev@, actual as nat),
{
    let limit = crate::min_target();
    let fourfold = match prev.checked_mul_u64(4) {
        Some(x) => x,
        None => {
            proof {
                lemma_u256_bound(spec_min_target());
                assert(false);
            }
            limit
        },
    };
    if actual >= 2000 {
        proof {
            lemma_retarget_slow(prev@, actual as nat);
        }
        return fourfold.min(limit);
    }
    let product = match prev.checked_mul_u64(actual) {
        Some(x) => x,
        None => {
            proof {
                assert(prev@ * actual <= spec_min_target()@ * 2000) by (nonlinear_arith)
                    requires
                        prev@ <= spec_min_target()@,
                        actual < 2000,
                ;
                assert(false);
            }
            limit
        },
    };
    let scaled = product.div_u64(500);
    let quarter = prev.div_u64(4);
    let clamped = if scaled.lt(&quarter) {
        quarter
    } else if fourfold.lt(&scaled) {
        fourfold
    } else {
        scaled
    };
    clamped.min(limit)
}

impl Blockchain {
    /// Whether the unspent outputs are well formed.
    pub closed spec fn utxos_wf(&self) -> bool {
        self.utxos.wf()
    }

    /// Whether the chain is well formed: the unspent outputs are, and the
    /// target is at most the greatest target.
    pub open spec fn wf(&self) -> bool {
        self.utxos_wf() && self@.target@ <= spec_min_target()@
    }

    /// The empty chain, with the greatest target.
    pub fn new() -> (chain: Blockchain)
        ensures
            chain.wf(),
            chain@.utxos == Map::<crate::sha256::Hash, (crate::types::transaction::TransactionOutput, bool)>::empty(),
            chain@.blocks == Seq::<BlockView>::empty(),
            chain@.target == spec_min_target(),
            chain@.mempool == Seq::<EntryView>::empty(),
    {
        let chain = Blockchain {
            utxos: UtxoSet::new(),
            blocks: Vec::new(),
            target: crate::min_target(),
            mempool: Vec::new(),
        };
        assert(chain@.blocks =~= Seq::<BlockView>::empty());
        assert(chain@.mempool =~= Seq::<EntryView>::empty());
        chain
    }

    /// The pending transactions, each with the time of its admission, in the
    /// order of their fees.
    pub fn mempool(&self) -> (r: &Vec<(Transaction, u64)>)
        ensures
            views(r@) == self@.mempool,
    {
        &self.mempool
    }

    /// The set of unspent outputs.
    pub closed spec fn spec_utxos(&self) -> UtxoSet {
        self.utxos
    }

    /// The unspent outputs.
    pub fn utxos(&self) -> (r: &UtxoSet)
        ensures
            *r == self.spec_utxos(),
            r@ == self@.utxos,
            self.wf() ==> r.wf(),
    {
        &self.utxos
    }

    /// The target.
    pub fn target(&self) -> (r: U256)
        ensures
            r == self@.target,
    {
        self.target
    }

    /// What is kept of the chain on disk: all but the pending transactions.
    pub open spec fn spec_snapshot(&self) -> SnapshotView {
        SnapshotView {
            utxos: self.spec_utxos().spec_entries(),
            blocks: self@.blocks,
            target: self@.target,
        }
    }

    /// What is kept of the chain on disk.
    pub fn snapshot(&self) -> (snapshot: Snapshot)
        requires
            self.wf(),
        ensures
            snapshot@ == self.spec_snapshot(),
            snapshot_usable(snapshot@),
    {
        proof {
            self.utxos.lemma_entries();
        }
        let utxos = self.utxos.to_entries();
        let mut blocks: Vec<Block> = Vec::new();
        let mut i: usize = 0;
        while i < self.blocks.len()
            invariant
                i <= self.blocks@.len(),
                blocks@.len() == i,
                forall|k: int| 0 <= k < i ==> (#[trigger] blocks@[k])@ == self.blocks@[k]@,
            decreases self.blocks@.len() - i,
        {
            blocks.push(self.blocks[i].duplicate());
            i += 1;
        }
        assert(views(blocks@) =~= views(self.blocks@));
        Snapshot { utxos, blocks, target: self.target }
    }

    /// The chain that a snapshot was kept of, without pending transactions.
    /// `Codec` where no chain can be made of the snapshot.
    pub fn from_snapshot(snapshot: Snapshot) -> (r: Result<Blockchain, BtcError>)
        ensures
            match r {
                Ok(chain) => chain.wf() && snapshot_usable(snapshot@) && chain.spec_snapshot()
                    == snapshot@ && chain@.mempool == Seq::<EntryView>::empty(),
                Err(e) => e == BtcError::Codec && !snapshot_usable(snapshot@),
            },
    {
        if !snapshot.target.le(&crate::min_target()) {
            return Err(BtcError::Codec);
        }
        let Snapshot { utxos, blocks, target } = snapshot;
        match UtxoSet::from_entries(utxos) {
            Some(set) => {
                let chain = Blockchain { utxos: set, blocks, target, mempool: Vec::new() };
                assert(chain@.mempool =~= Seq::<EntryView>::empty());
                Ok(chain)
            },
            None => Err(BtcError::Codec),
        }
    }

    /// The bytes that are written to disk for the chain. Loading them gives
    /// what was kept.
    pub fn save(&self) -> (out: Vec<u8>)
        requires
            self.wf(),
        ensures
            out@ == Snapshot::spec_encode(self.spec_snapshot()),
            spec_load(out@) == Ok::<SnapshotView, BtcError>(self.spec_snapshot()),
    {
        let snapshot = self.snapshot();
        crate::codec::encode(&snapshot)
    }

    /// The chain that was written to disk as `data`, without pending
    /// transactions.
    pub fn load(data: &[u8]) -> (r: Result<Blockchain, BtcError>)
        ensures
            match r {
                Ok(chain) => chain.wf() && spec_load(data@) == Ok::<SnapshotView, BtcError>(
                    chain.spec_snapshot(),
                ) && chain@.mempool == Seq::<EntryView>::empty(),
                Err(e) => spec_load(data@) == Err::<SnapshotView, BtcError>(e),
            },
    {
        match crate::codec::decode::<Snapshot>(data) {
            Some(snapshot) => Blockchain::from_snapshot(snapshot),
            None => Err(BtcError::Codec),
        }
    }

    /// The blocks, the first of them first.
    pub fn blocks(&self) -> (r: &Vec<Block>)
        ensures
            views(r@) == self@.blocks,
    {
        &self.blocks
    }

    /// The number of blocks.
    pub fn block_height(&self) -> (r: u64)
        ensures
            r == self@.blocks.len(),
    {
        self.blocks.len() as u64
    }

    /// The reward of the next block.
    pub fn calculate_block_reward(&self) -> (r: u64)
        ensures
            r == spec_reward(self@.blocks.len() as u64),
    {
        block_reward(self.block_height())
    }

    /// Adjusts the target where the number of blocks is a multiple of the
    /// interval and not zero; else leaves it as it is.
    pub fn try_adjust_target(&mut self)
        requires
            old(self).wf(),
        ensures
            final(self).wf(),
            final(self)@ == (BlockchainView {
                target: next_target(old(self)@.blocks, old(self)@.target),
                ..old(self)@
            }),
            adjustment_due(old(self)@.blocks) ==> final(self)@.target@ == retarget(
                old(self)@.target@,
                stretch_seconds(old(self)@.blocks),
            ),
    {
        let n: usize = self.blocks.len();
        if n == 0 || n % (DIFFICULTY_UPDATE_INTERVAL as usize) != 0 {
            return ;
        }
        let first: u64 = self.blocks[n - DIFFICULTY_UPDATE_INTERVAL as usize].header.timestamp;
        let last: u64 = self.blocks[n - 1].header.timestamp;
        let actual: u64 = if last >= first {
            last - first
        } else {
            0
        };
        let adjusted = adjusted_target(self.target, actual);
        proof {
            lemma_retarget_clamp(self.target@, actual as nat);
            lemma_u256_bound(adjusted);
            U256::lemma_from_nat(adjusted@);
        }
        self.target = adjusted;
    }

    /// Takes out the flagged pending transactions, and clears the marks of
    /// the outputs that their inputs name.
    fn evict(&mut self, flags: &Vec<bool>)
        requires
            old(self).wf(),
            flags@.len() == old(self)@.mempool.len(),
        ensures
            final(self).wf(),
            final(self)@ == (BlockchainView {
                utxos: with_marks(
                    old(self)@.utxos,
                    released(old(self)@.mempool, flags@),
                    false,
                ),
                mempool: retained(old(self)@.mempool, flags@),
                ..old(self)@
            }),
    {
        let hashes = collect_released(&self.mempool, flags);
        let kept = retain_unflagged(&self.mempool, flags);
        self.utxos.set_marks(&hashes, false);
        self.mempool = kept;
    }

    /// Takes out the pending transactions that were admitted more than
    /// `MAX_MEMPOOL_TRANSACTION_AGE` seconds before `now`, and clears the
    /// marks of the outputs that their inputs name.
    pub fn cleanup_mempool_at(&mut self, now: u64)
        requires
            old(self).wf(),
        ensures
            final(self).wf(),
            final(self)@ == spec_cleanup_mempool(old(self)@, now),
            forall|k: int|
                0 <= k < final(self)@.mempool.len() ==> !expired(
                    (#[trigger] final(self)@.mempool[k]).1,
                    now,
                ),
    {
        proof {
            crate::types::mempool::lemma_retained_members(
                self@.mempool,
                expiry_flags(self@.mempool, now),
            );
        }
        let mut flags: Vec<bool> = Vec::new();
        let mut i: usize = 0;
        while i < self.mempool.len()
            invariant
                i <= self.mempool@.len(),
                flags@.len() == i,
                forall|k: int|
                    0 <= k < i ==> flags@[k] == expired((#[trigger] self.mempool@[k]).1, now),
            decreases self.mempool@.len() - i,
        {
            let admitted_at: u64 = self.mempool[i].1;
            flags.push(now > admitted_at && now - admitted_at > MAX_MEMPOOL_TRANSACTION_AGE);
            i += 1;
        }
        assert(flags@ =~= expiry_flags(self@.mempool, now));
        self.evict(&flags);
    }

    /// Takes out the pending transactions that are too old now.
    pub fn cleanup_mempool(&mut self)
        requires
            old(self).wf(),
        ensures
            final(self).wf(),
            exists|now: u64| final(self)@ == spec_cleanup_mempool(old(self)@, now),
    {
        let now = crate::util::now_seconds();
        self.cleanup_mempool_at(now);
    }

    /// Whether a transaction passes the first checks of admission.
    fn check_admissible(&self, transaction: &Transaction) -> (r: bool)
        requires
            self.wf(),
        ensures
            r == admissible(transaction@, self@.utxos),
    {
        let ghost tx = transaction@;
        let mut k: usize = 0;
        while k < transaction.inputs.len()
            invariant
                self.wf(),
                k <= transaction.inputs@.len(),
                tx == transaction@,
                forall|a: int| 0 <= a < k ==> input_resolves(#[trigger] tx.inputs[a], self@.utxos),
                forall|a: int, b: int| 0 <= a < b < k ==> spent_of(tx)[a] != spent_of(tx)[b],
            decreases transaction.inputs@.len() - k,
        {
            let h = transaction.inputs[k].prev_transaction_output_hash;
            if !self.utxos.contains_key(&h) {
                assert(!input_resolves(tx.inputs[k as int], self@.utxos));
                return false;
            }
            let mut a: usize = 0;
            while a < k
                invariant
                    a <= k < transaction.inputs@.len(),
                    tx == transaction@,
                    h == tx.inputs[k as int].prev_transaction_output_hash,
                    forall|b: int| 0 <= b < a ==> spent_of(tx)[b] != h,
                decreases k - a,
            {
                if transaction.inputs[a].prev_transaction_output_hash == h {
                    assert(spent_of(tx)[a as int] == spent_of(tx)[k as int]);
                    return false;
                }
                a += 1;
            }
            k += 1;
        }
        assert forall|a: int, b: int|
            0 <= a < spent_of(tx).len() && 0 <= b < spent_of(tx).len() && a != b implies spent_of(
            tx,
        )[a] != spent_of(tx)[b] by {
            if b < a {
                assert(spent_of(tx)[b] != spent_of(tx)[a]);
            }
        }
        true
    }

    /// Admits a transaction to the pending transactions, as at the time
    /// `now`. One that is admitted names unspent outputs, each of them once,
    /// and they are marked when it returns.
    pub fn add_to_mempool_at(&mut self, transaction: Transaction, now: u64) -> (r: Result<
        (),
        BtcError,
    >)
        requires
            old(self).wf(),
        ensures
            final(self).wf(),
            (r, final(self)@) == spec_add_to_mempool(old(self)@, transaction@, now),
            r is Ok ==> admissible(transaction@, old(self)@.utxos) && forall|k: int|
                0 <= k < transaction@.inputs.len() ==> is_marked(
                    final(self)@.utxos,
                    (#[trigger] transaction@.inputs[k]).prev_transaction_output_hash,
                ),
            r is Ok ==> crate::types::mempool::fees_ascend(final(self)@.mempool, final(self)@.utxos)
                && final(self)@.mempool.contains((transaction@, now)),
    {
        if !self.check_admissible(&transaction) {
            return Err(BtcError::InvalidTransaction);
        }
        let taken = self.utxos.sum_inputs(&transaction.inputs);
        let paid = sum_outputs(&transaction.outputs);
        let (flags, stale) = find_conflicts(&self.mempool, &transaction.inputs, &self.utxos);
        self.utxos.set_marks(&stale, false);
        self.evict(&flags);
        if taken > 0xFFFF_FFFF_FFFF_FFFFu128 || taken < paid {
            return Err(BtcError::InvalidTransaction);
        }
        let ghost cleared = self@;
        let mut spent: Vec<crate::sha256::Hash> = Vec::new();
        let mut k: usize = 0;
        while k < transaction.inputs.len()
            invariant
                k <= transaction.inputs@.len(),
                spent@ == spent_of(transaction@).take(k as int),
            decreases transaction.inputs@.len() - k,
        {
            spent.push(transaction.inputs[k].prev_transaction_output_hash);
            assert(spent@ =~= spent_of(transaction@).take(k + 1));
            k += 1;
        }
        assert(spent@ =~= spent_of(transaction@));
        self.utxos.set_marks(&spent, true);
        let ghost before = self.mempool@;
        self.mempool.push((transaction, now));
        assert(views(self.mempool@) =~= views(before).push((transaction@, now)));
        let sorted = sort_by_fee(&self.mempool, &self.utxos);
        self.mempool = sorted;
        proof {
            let tx = transaction@;
            let old_utxos = old(self)@.utxos;
            let stale_seq = stale_marks(old(self)@.mempool, tx.inputs, old_utxos);
            let flag_seq = eviction_flags(old(self)@.mempool, tx.inputs, old_utxos);
            lemma_with_marks(old_utxos, stale_seq, false);
            lemma_with_marks(
                with_marks(old_utxos, stale_seq, false),
                released(old(self)@.mempool, flag_seq),
                false,
            );
            lemma_with_marks(cleared.utxos, spent_of(tx), true);
            lemma_admitted_is_pending(cleared.mempool, (tx, now), self@.utxos);
            assert forall|k: int| 0 <= k < tx.inputs.len() implies is_marked(
                self@.utxos,
                (#[trigger] tx.inputs[k]).prev_transaction_output_hash,
            ) by {
                let h = tx.inputs[k].prev_transaction_output_hash;
                assert(input_resolves(tx.inputs[k], old_utxos));
                assert(spent_of(tx)[k] == h);
                assert(spent_of(tx).contains(h));
                assert(cleared.utxos.dom().contains(h));
            }
        }
        Ok(())
    }

    /// Admits a transaction to the pending transactions, as at the time
    /// now. One that is admitted names unspent outputs, each of them once,
    /// and they are marked when it returns.
    pub fn add_to_mempool(&mut self, transaction: Transaction) -> (r: Result<(), BtcError>)
        requires
            old(self).wf(),
        ensures
            final(self).wf(),
            exists|now: u64|
                (r, final(self)@) == spec_add_to_mempool(old(self)@, transaction@, now),
            r is Ok ==> admissible(transaction@, old(self)@.utxos) && forall|k: int|
                0 <= k < transaction@.inputs.len() ==> is_marked(
                    final(self)@.utxos,
                    (#[trigger] transaction@.inputs[k]).prev_transaction_output_hash,
                ),
    {
        let now = crate::util::now_seconds();
        self.add_to_mempool_at(transaction, now)
    }

    /// Derives the unspent outputs from the blocks, on top of those that are
    /// there: block by block and transaction by transaction, what the inputs
    /// name is taken out, and the outputs are put under the hash of the
    /// transaction, unmarked.
    pub fn rebuild_utxos(&mut self)
        requires
            old(self).wf(),
        ensures
            final(self).wf(),
            final(self)@ == (BlockchainView {
                utxos: apply_blocks(old(self)@.utxos, old(self)@.blocks),
                ..old(self)@
            }),
    {
        let ghost blocks = self@.blocks;
        let ghost start = self@.utxos;
        let mut b: usize = 0;
        assert(blocks.take(0) =~= Seq::<BlockView>::empty());
        while b < self.blocks.len()
            invariant
                self.utxos.wf(),
                b <= self.blocks@.len(),
                blocks == views(self.blocks@),
                self.blocks == old(self).blocks,
                self.target == old(self).target,
                self.mempool == old(self).mempool,
                self.utxos@ == apply_blocks(start, blocks.take(b as int)),
            decreases self.blocks@.len() - b,
        {
            apply_block_to(&mut self.utxos, &self.blocks[b]);
            proof {
                assert(blocks.take(b + 1).drop_last() =~= blocks.take(b as int));
                assert(blocks.take(b + 1).last() == blocks[b as int]);
            }
            b += 1;
        }
        assert(blocks.take(b as int) =~= blocks);
    }

    /// Takes the pending transactions out whose hash is among `hashes`, the
    /// hashes of the transactions `txs`.
    fn drop_included(&mut self, hashes: &Vec<crate::sha256::Hash>, Ghost(txs): Ghost<Seq<TransactionView>>)
        requires
            old(self).wf(),
            hashes@ == transaction_hashes(txs),
        ensures
            final(self).wf(),
            final(self)@ == (BlockchainView {
                mempool: retained(old(self)@.mempool, inclusion_flags(old(self)@.mempool, txs)),
                ..old(self)@
            }),
    {
        let mut flags: Vec<bool> = Vec::new();
        let mut i: usize = 0;
        while i < self.mempool.len()
            invariant
                i <= self.mempool@.len(),
                flags@.len() == i,
                hashes@ == transaction_hashes(txs),
                forall|k: int|
                    0 <= k < i ==> flags@[k] == transaction_hashes(txs).contains(
                        (#[trigger] self.mempool@[k]).0@.spec_hash(),
                    ),
            decreases self.mempool@.len() - i,
        {
            let h = self.mempool[i].0.hash();
            flags.push(contains_hash(hashes, &h));
            i += 1;
        }
        assert(flags@ =~= inclusion_flags(self@.mempool, txs));
        let kept = retain_unflagged(&self.mempool, &flags);
        self.mempool = kept;
    }

    /// Puts a block behind the last.
    fn push_block(&mut self, block: Block)
        requires
            old(self).wf(),
        ensures
            final(self).wf(),
            final(self)@ == (BlockchainView {
                blocks: old(self)@.blocks.push(block@),
                ..old(self)@
            }),
    {
        let ghost before = self.blocks@;
        self.blocks.push(block);
        assert(views(self.blocks@) =~= views(before).push(block@));
    }

    /// Checks a block that is to be appended.
    fn check_block(&self, block: &Block) -> (r: Result<(), BtcError>)
        requires
            self.wf(),
        ensures
            r == spec_check_block(self@, block@),
    {
        let n: usize = self.blocks.len();
        let expected = if n == 0 {
            crate::sha256::Hash::zero()
        } else {
            self.blocks[n - 1].hash()
        };
        if block.header.prev_block_hash != expected {
            return Err(BtcError::InvalidBlock);
        }
        if !block.header.hash().matches_target(block.header.target) {
            return Err(BtcError::InvalidBlock);
        }
        if block.transactions.len() == 0 {
            return Err(BtcError::InvalidMerkleRoot);
        }
        let root = MerkleRoot::calculate(block.transactions.as_slice());
        if root != block.header.merkle_root {
            return Err(BtcError::InvalidMerkleRoot);
        }
        if n > 0 && block.header.timestamp <= self.blocks[n - 1].header.timestamp {
            return Err(BtcError::InvalidBlock);
        }
        match block.verify_transactions(n as u64, &self.utxos) {
            Ok(()) => Ok(()),
            Err(_) => Err(BtcError::InvalidBlock),
        }
    }

    /// Appends a block where it obeys the rules, takes the pending
    /// transactions that it holds out of the pool, and tries an adjustment
    /// of the target. A block that breaks a rule leaves the chain as it is.
    /// A block that is appended has a hash of at most its target and holds
    /// the Merkle root of its transactions.
    pub fn add_block(&mut self, block: Block) -> (r: Result<(), BtcError>)
        requires
            old(self).wf(),
        ensures
            final(self).wf(),
            r == spec_check_block(old(self)@, block@),
            r is Ok ==> final(self)@ == after_block(old(self)@, block@),
            r is Err ==> final(self)@ == old(self)@,
            r is Ok ==> header_solved(block@.header) && block@.transactions.len() > 0
                && merkle_root(block@.transactions) == block@.header.merkle_root.0,
            r is Ok && chain_linked(old(self)@.blocks) ==> chain_linked(final(self)@.blocks),
    {
        match self.check_block(&block) {
            Err(e) => {
                return Err(e);
            },
            Ok(()) => {},
        }
        let hashes = transaction_hashes_of(&block);
        self.drop_included(&hashes, Ghost(block@.transactions));
        self.push_block(block);
        proof {
            if chain_linked(old(self)@.blocks) {
                lemma_chain_linked_push(old(self)@, block@);
            }
        }
        self.try_adjust_target();
        Ok(())
    }
}

} // verus!
