//! What a node decides: for each message that reaches it, what becomes of
//! its chain, what it answers, and what it tells the other nodes. The node
//! around it reads and writes the streams.
use crate::codec::views;
use crate::crypto::PublicKey;
use crate::error::BtcError;
use crate::network::{Message, MessageView};
use crate::types::block::{spec_reward, Block, BlockHeader, BlockView};
use crate::types::blockchain::{
    apply_blocks, expected_prev, spec_add_to_mempool, spec_check_block, after_block, Blockchain,
    BlockchainView,
};
use crate::types::mempool::{fee, fee_of, EntryView};
use crate::types::transaction::{Transaction, TransactionOutput, TransactionView};
use crate::types::utxo::{UtxoEntry, UtxoMap, UtxoSet};
use crate::util::{merkle_root, MerkleRoot};
use vstd::prelude::*;

verus! {

/// The greatest number of pending transactions that a block to mine holds.
pub const BLOCK_TRANSACTION_CAP: usize = 20;

/// The unspent outputs among the entries that the key spends, each with its
/// mark, in the order of the entries.
pub open spec fn owned_outputs(entries: Seq<UtxoEntry>, key: PublicKey) -> Seq<(bool, TransactionOutput)>
    decreases entries.len(),
{
    if entries.len() == 0 {
        Seq::empty()
    } else {
        let front = owned_outputs(entries.drop_last(), key);
        if entries.last().output.pubkey == key {
            front.push((entries.last().marked, entries.last().output))
        } else {
            front
        }
    }
}

/// The unspent outputs that the key spends, each with its mark.
pub fn utxos_of(utxos: &UtxoSet, key: &PublicKey) -> (list: Vec<(bool, TransactionOutput)>)
    requires
        utxos.wf(),
    ensures
        list@ == owned_outputs(utxos.spec_entries(), *key),
{
    let ghost entries = utxos.spec_entries();
    let mut list: Vec<(bool, TransactionOutput)> = Vec::new();
    let n = utxos.len();
    let mut i: usize = 0;
    assert(entries.take(0) =~= Seq::<UtxoEntry>::empty());
    while i < n
        invariant
            utxos.wf(),
            entries == utxos.spec_entries(),
            n == entries.len(),
            i <= n,
            list@ == owned_outputs(entries.take(i as int), *key),
        decreases n - i,
    {
        let e = utxos.entry(i);
        assert(entries.take(i + 1).drop_last() =~= entries.take(i as int));
        if e.output.pubkey == *key {
            list.push((e.marked, e.output));
        }
        i += 1;
    }
    assert(entries.take(i as int) =~= entries);
    list
}

/// The pending transactions that a block to mine holds: those with the
/// highest fees, the highest first, as many as the cap allows.
pub open spec fn template_picks(mempool: Seq<EntryView>) -> Seq<TransactionView> {
    Seq::new(
        if mempool.len() <= BLOCK_TRANSACTION_CAP {
            mempool.len()
        } else {
            BLOCK_TRANSACTION_CAP as nat
        },
        |i: int| mempool[mempool.len() - 1 - i].0,
    )
}

/// The sum of the fees of the transactions.
pub open spec fn total_fees(txs: Seq<TransactionView>, utxos: UtxoMap) -> nat
    decreases txs.len(),
{
    if txs.len() == 0 {
        0
    } else {
        total_fees(txs.drop_last(), utxos) + fee_of(txs.last(), utxos)
    }
}

/// The coinbase of a block to mine: no inputs, and one output that pays the
/// value to the key.
pub open spec fn coinbase_of(value: u64, key: PublicKey, id: u128) -> TransactionView {
    TransactionView {
        inputs: Seq::empty(),
        outputs: seq![TransactionOutput { value, unique_id: id, pubkey: key }],
    }
}

/// The block to mine that a node hands out at `now`: a coinbase that pays
/// reward and fees to the key, then the picked pending transactions; a
/// header that names the last block, holds the Merkle root and the chain's
/// target, and has the nonce zero. `None` where reward and fees do not fit
/// in 64 bits.
#[verifier::opaque]
pub open spec fn spec_template(chain: BlockchainView, key: PublicKey, now: u64, id: u128) -> Option<BlockView> {
    let picks = template_picks(chain.mempool);
    let due = spec_reward(chain.blocks.len() as u64) + total_fees(picks, chain.utxos);
    if due > u64::MAX {
        None
    } else {
        let transactions = seq![coinbase_of(due as u64, key, id)] + picks;
        Some(
            BlockView {
                header: BlockHeader {
                    timestamp: now,
                    nonce: 0,
                    prev_block_hash: expected_prev(chain.blocks),
                    merkle_root: MerkleRoot(merkle_root(transactions)),
                    target: chain.target,
                },
                transactions,
            },
        )
    }
}

/// The sum of the fees of the first transactions is at most that of all.
pub proof fn lemma_total_fees_prefix(txs: Seq<TransactionView>, utxos: UtxoMap, k: int)
    requires
        0 <= k <= txs.len(),
    ensures
        total_fees(txs.take(k), utxos) <= total_fees(txs, utxos),
    decreases txs.len(),
{
    if k == txs.len() {
        assert(txs.take(k) =~= txs);
    } else {
        lemma_total_fees_prefix(txs.drop_last(), utxos, k);
        assert(txs.drop_last().take(k) =~= txs.take(k));
    }
}

/// The block to mine that a node hands out at `now`, with the given
/// identifier for the output of its coinbase.
pub fn build_template(chain: &Blockchain, key: &PublicKey, now: u64, id: u128) -> (r: Option<Block>)
    requires
        chain.wf(),
    ensures
        match r {
            Some(block) => spec_template(chain@, *key, now, id) == Some(block@),
            None => spec_template(chain@, *key, now, id) is None,
        },
{
    let mempool = chain.mempool();
    let utxos = chain.utxos();
    let ghost picks = template_picks(chain@.mempool);
    let len: usize = mempool.len();
    let count: usize = if len <= BLOCK_TRANSACTION_CAP {
        len
    } else {
        BLOCK_TRANSACTION_CAP
    };
    let mut transactions: Vec<Transaction> = Vec::new();
    transactions.push(Transaction::new(Vec::new(), Vec::new()));
    let mut fees: u64 = 0;
    let mut i: usize = 0;
    assert(picks.take(0) =~= Seq::<TransactionView>::empty());
    while i < count
        invariant
            utxos.wf(),
            utxos@ == chain@.utxos,
            views(mempool@) == chain@.mempool,
            len == mempool@.len(),
            count == picks.len(),
            count <= len,
            picks == template_picks(chain@.mempool),
            i <= count,
            transactions@.len() == i + 1,
            forall|k: int| 0 <= k < i ==> (#[trigger] transactions@[k + 1])@ == picks[k],
            fees == total_fees(picks.take(i as int), utxos@),
        decreases count - i,
    {
        let tx = &mempool[len - 1 - i].0;
        assert(tx@ == picks[i as int]);
        let f = fee(tx, utxos);
        proof {
            assert(picks.take(i + 1).drop_last() =~= picks.take(i as int));
            assert(picks.take(i + 1).last() == picks[i as int]);
            lemma_total_fees_prefix(picks, utxos@, i + 1);
        }
        if f > 0xFFFF_FFFF_FFFF_FFFFu128 || f > (u64::MAX - fees) as u128 {
            reveal(spec_template);
            return None;
        }
        fees = fees + f as u64;
        transactions.push(tx.duplicate());
        i += 1;
    }
    reveal(spec_template);
    assert(picks.take(i as int) =~= picks);
    let reward = chain.calculate_block_reward();
    if fees > u64::MAX - reward {
        return None;
    }
    let due: u64 = reward + fees;
    let mut outputs: Vec<TransactionOutput> = Vec::new();
    outputs.push(TransactionOutput { value: due, unique_id: id, pubkey: *key });
    transactions.set(0, Transaction::new(Vec::new(), outputs));
    let ghost wanted = seq![coinbase_of(due, *key, id)] + picks;
    proof {
        assert(transactions@[0]@.inputs =~= Seq::empty());
        assert(transactions@[0]@.outputs =~= seq![
            TransactionOutput { value: due, unique_id: id, pubkey: *key },
        ]);
        assert(views(transactions@) =~= wanted) by {
            assert forall|k: int| 0 <= k < wanted.len() implies views(transactions@)[k]
                == wanted[k] by {
                if k > 0 {
                    assert(transactions@[(k - 1) + 1]@ == picks[k - 1]);
                }
            }
        }
    }
    let blocks = chain.blocks();
    let prev = if blocks.len() == 0 {
        crate::sha256::Hash::zero()
    } else {
        blocks[blocks.len() - 1].hash()
    };
    let root = MerkleRoot::calculate(transactions.as_slice());
    let header = BlockHeader::new(now, 0, prev, root, chain.target());
    Some(Block::new(header, transactions))
}

/// Whether a pending transaction has the hash `h`.
pub open spec fn is_pending(mempool: Seq<EntryView>, h: crate::sha256::Hash) -> bool {
    exists|k: int| 0 <= k < mempool.len() && (#[trigger] mempool[k]).0.spec_hash() == h
}

/// Whether every transaction but the first is among the pending
/// transactions.
pub open spec fn all_pending(txs: Seq<TransactionView>, mempool: Seq<EntryView>) -> bool {
    forall|i: int| 1 <= i < txs.len() ==> is_pending(mempool, (#[trigger] txs[i]).spec_hash())
}

/// Whether a block to mine can still be appended: it names the last block,
/// it holds the Merkle root of its transactions, and each of them but the
/// coinbase is still pending.
#[verifier::opaque]
pub open spec fn spec_template_valid(chain: BlockchainView, block: BlockView) -> bool {
    &&& block.header.prev_block_hash == expected_prev(chain.blocks)
    &&& block.transactions.len() > 0
    &&& merkle_root(block.transactions) == block.header.merkle_root.0
    &&& all_pending(block.transactions, chain.mempool)
}

/// Whether a pending transaction has the hash `h`.
fn pending_hash(mempool: &Vec<(Transaction, u64)>, h: &crate::sha256::Hash) -> (r: bool)
    ensures
        r == is_pending(views(mempool@), *h),
{
    let ghost pool = views(mempool@);
    let mut k: usize = 0;
    while k < mempool.len()
        invariant
            k <= mempool@.len(),
            pool == views(mempool@),
            forall|j: int| 0 <= j < k ==> (#[trigger] pool[j]).0.spec_hash() != *h,
        decreases mempool@.len() - k,
    {
        if mempool[k].0.hash() == *h {
            assert(pool[k as int].0.spec_hash() == *h);
            return true;
        }
        k += 1;
    }
    false
}

/// Whether every transaction but the first is among the pending
/// transactions.
fn check_all_pending(transactions: &Vec<Transaction>, mempool: &Vec<(Transaction, u64)>) -> (r: bool)
    ensures
        r == all_pending(views(transactions@), views(mempool@)),
{
    let ghost txs = views(transactions@);
    let ghost pool = views(mempool@);
    let mut i: usize = 1;
    while i < transactions.len()
        invariant
            1 <= i,
            txs == views(transactions@),
            pool == views(mempool@),
            forall|a: int| 1 <= a < i && a < txs.len() ==> is_pending(pool, (#[trigger] txs[a]).spec_hash()),
        decreases transactions@.len() - i,
    {
        let h = transactions[i].hash();
        if !pending_hash(mempool, &h) {
            assert(!is_pending(pool, txs[i as int].spec_hash()));
            return false;
        }
        i += 1;
    }
    true
}

/// Whether a block to mine can still be appended.
pub fn template_valid(chain: &Blockchain, block: &Block) -> (ok: bool)
    ensures
        ok == spec_template_valid(chain@, block@),
{
    reveal(spec_template_valid);
    let blocks = chain.blocks();
    let prev = if blocks.len() == 0 {
        crate::sha256::Hash::zero()
    } else {
        blocks[blocks.len() - 1].hash()
    };
    if block.header.prev_block_hash != prev || block.transactions.len() == 0 {
        return false;
    }
    let root = MerkleRoot::calculate(block.transactions.as_slice());
    if root != block.header.merkle_root {
        return false;
    }
    check_all_pending(&block.transactions, chain.mempool())
}

/// By how many blocks a chain of `height` blocks is longer than one of
/// `peer_height`, as far as 32 bits hold it.
pub open spec fn spec_difference(height: nat, peer_height: i32) -> i32 {
    let d = height - peer_height;
    if d > i32::MAX {
        i32::MAX
    } else if d < i32::MIN {
        i32::MIN
    } else {
        d as i32
    }
}

/// By how many blocks the chain is longer than one of `peer_height` blocks.
pub fn difference(chain: &Blockchain, peer_height: i32) -> (d: i32)
    ensures
        d == spec_difference(chain@.blocks.len(), peer_height),
{
    let height: u64 = chain.block_height();
    if height > 0x1_0000_0000u64 {
        return i32::MAX;
    }
    let d: i64 = height as i64 - peer_height as i64;
    if d > 0x7FFF_FFFF {
        i32::MAX
    } else if d < -0x8000_0000 {
        i32::MIN
    } else {
        d as i32
    }
}

/// The place of the greatest difference above zero; the first of them where
/// several are the greatest; `None` where no difference is above zero.
pub open spec fn is_longest(differences: Seq<i32>, place: Option<usize>) -> bool {
    match place {
        Some(p) => {
            &&& p < differences.len()
            &&& differences[p as int] > 0
            &&& forall|i: int| 0 <= i < differences.len() ==> differences[i] <= differences[p as int]
            &&& forall|i: int| 0 <= i < p ==> differences[i] < differences[p as int]
        },
        None => forall|i: int| 0 <= i < differences.len() ==> differences[i] <= 0,
    }
}

/// Picks the peer to fetch the chain from: the one that reported the
/// greatest difference above zero.
pub fn find_longest_chain_node(differences: &Vec<i32>) -> (place: Option<usize>)
    ensures
        is_longest(differences@, place),
{
    let mut best: Option<usize> = None;
    let mut i: usize = 0;
    while i < differences.len()
        invariant
            i <= differences@.len(),
            is_longest(differences@.take(i as int), best),
        decreases differences@.len() - i,
    {
        let d = differences[i];
        let better = match best {
            Some(p) => d > differences[p],
            None => d > 0,
        };
        if better {
            best = Some(i);
        }
        i += 1;
    }
    assert(differences@.take(i as int) =~= differences@);
    best
}

/// What a node does after a message: what it answers on the same stream,
/// what it tells the other nodes, and whether it closes the stream.
#[derive(Debug, PartialEq, Eq)]
pub struct Reaction {
    pub reply: Option<Message>,
    pub broadcast: Option<Message>,
    pub close: bool,
}

/// What a reaction holds.
pub struct ReactionView {
    pub reply: Option<MessageView>,
    pub broadcast: Option<MessageView>,
    pub close: bool,
}

/// What a message that may be there holds.
pub open spec fn message_view(m: Option<Message>) -> Option<MessageView> {
    match m {
        Some(m) => Some(m@),
        None => None,
    }
}

impl View for Reaction {
    type V = ReactionView;

    open spec fn view(&self) -> ReactionView {
        ReactionView {
            reply: message_view(self.reply),
            broadcast: message_view(self.broadcast),
            close: self.close,
        }
    }
}

/// The reaction that only answers.
pub open spec fn answer(m: MessageView) -> ReactionView {
    ReactionView { reply: Some(m), broadcast: None, close: false }
}

/// The reaction that does nothing.
pub open spec fn silence() -> ReactionView {
    ReactionView { reply: None, broadcast: None, close: false }
}

/// The chain after a block was taken in: where the block passes the check,
/// it is appended, and the unspent outputs are derived from the blocks anew.
#[verifier::opaque]
pub open spec fn chain_after_block(chain: BlockchainView, block: BlockView) -> BlockchainView {
    if spec_check_block(chain, block) is Ok {
        let appended = after_block(chain, block);
        BlockchainView { utxos: apply_blocks(appended.utxos, appended.blocks), ..appended }
    } else {
        chain
    }
}

/// Whether a node admits a transaction that reaches it at `now`.
#[verifier::opaque]
pub open spec fn admits(chain: BlockchainView, tx: TransactionView, now: u64) -> bool {
    spec_add_to_mempool(chain, tx, now).0 is Ok
}

/// The chain after a transaction reached a node at `now`.
#[verifier::opaque]
pub open spec fn chain_after_transaction(chain: BlockchainView, tx: TransactionView, now: u64) -> BlockchainView {
    spec_add_to_mempool(chain, tx, now).1
}

/// Whether a node appends a block that reaches it.
#[verifier::opaque]
pub open spec fn appends(chain: BlockchainView, block: BlockView) -> bool {
    spec_check_block(chain, block) is Ok
}

/// The chain after a message reached a node at `now`.
pub open spec fn chain_after(chain: BlockchainView, m: MessageView, now: u64) -> BlockchainView {
    match m {
        MessageView::SubmitTransaction(tx) => chain_after_transaction(chain, tx, now),
        MessageView::NewTransaction(tx) => chain_after_transaction(chain, tx, now),
        MessageView::SubmitTemplate(block) => chain_after_block(chain, block),
        MessageView::NewBlock(block) => chain_after_block(chain, block),
        _ => chain,
    }
}

/// What a node does after a message reached it at `now`. `entries` are the
/// unspent outputs in the order in which the node holds them, `nodes` the
/// addresses of the nodes that it knows of, `id` the identifier for the
/// coinbase of a block to mine.
pub open spec fn spec_reaction(
    chain: BlockchainView,
    entries: Seq<UtxoEntry>,
    nodes: Seq<Seq<char>>,
    m: MessageView,
    now: u64,
    id: u128,
) -> ReactionView {
    match m {
        MessageView::FetchUTXOs(key) => answer(MessageView::UTXOs(owned_outputs(entries, key))),
        MessageView::SubmitTransaction(tx) => if admits(chain, tx, now) {
            ReactionView { reply: None, broadcast: Some(MessageView::NewTransaction(tx)), close: false }
        } else {
            silence()
        },
        MessageView::NewTransaction(tx) => silence(),
        MessageView::FetchTemplate(key) => match spec_template(chain, key, now, id) {
            Some(block) => answer(MessageView::Template(block)),
            None => silence(),
        },
        MessageView::ValidateTemplate(block) => answer(
            MessageView::TemplateValidity(spec_template_valid(chain, block)),
        ),
        MessageView::SubmitTemplate(block) => if appends(chain, block) {
            ReactionView { reply: None, broadcast: Some(MessageView::NewBlock(block)), close: false }
        } else {
            silence()
        },
        MessageView::DiscoverNodes => answer(MessageView::NodeList(nodes)),
        MessageView::AskDifference(peer_height) => answer(
            MessageView::Difference(spec_difference(chain.blocks.len(), peer_height)),
        ),
        MessageView::FetchBlock(height) => if height < chain.blocks.len() {
            answer(MessageView::NewBlock(chain.blocks[height as int]))
        } else {
            silence()
        },
        MessageView::NewBlock(block) => silence(),
        _ => ReactionView { reply: None, broadcast: None, close: true },
    }
}

/// A copy of the addresses.
fn copy_nodes(nodes: &Vec<String>) -> (copy: Vec<String>)
    ensures
        views(copy@) == views(nodes@),
{
    let mut copy: Vec<String> = Vec::new();
    let mut i: usize = 0;
    while i < nodes.len()
        invariant
            i <= nodes@.len(),
            copy@.len() == i,
            forall|k: int| 0 <= k < i ==> (#[trigger] copy@[k])@ == nodes@[k]@,
        decreases nodes@.len() - i,
    {
        copy.push(nodes[i].clone());
        i += 1;
    }
    assert(views(copy@) =~= views(nodes@));
    copy
}

/// Takes a block in: appends it where it passes the check, and then derives
/// the unspent outputs from the blocks anew.
pub fn take_block(chain: &mut Blockchain, block: Block) -> (r: Result<(), BtcError>)
    requires
        old(chain).wf(),
    ensures
        final(chain).wf(),
        r == spec_check_block(old(chain)@, block@),
        r is Ok == appends(old(chain)@, block@),
        final(chain)@ == chain_after_block(old(chain)@, block@),
{
    reveal(chain_after_block);
    reveal(appends);
    match chain.add_block(block) {
        Ok(()) => {
            chain.rebuild_utxos();
            Ok(())
        },
        Err(e) => Err(e),
    }
}

/// The reaction that answers with a message.
fn reply_with(m: Message) -> (r: Reaction)
    ensures
        r@ == answer(m@),
{
    Reaction { reply: Some(m), broadcast: None, close: false }
}

/// The reaction that tells the other nodes of a message.
fn tell_others(m: Message) -> (r: Reaction)
    ensures
        r@ == (ReactionView { reply: None, broadcast: Some(m@), close: false }),
{
    Reaction { reply: None, broadcast: Some(m), close: false }
}

/// The reaction that does nothing.
fn keep_silent() -> (r: Reaction)
    ensures
        r@ == silence(),
{
    Reaction { reply: None, broadcast: None, close: false }
}

/// Answers a request for the unspent outputs of a key.
fn on_fetch_utxos(chain: &Blockchain, key: PublicKey) -> (r: Reaction)
    requires
        chain.wf(),
    ensures
        r@ == answer(MessageView::UTXOs(owned_outputs(chain.spec_utxos().spec_entries(), key))),
{
    let list = utxos_of(chain.utxos(), &key);
    proof {
        crate::types::transaction::lemma_views_pairs(list@);
    }
    reply_with(Message::UTXOs(list))
}

/// Admits a transaction, and tells the other nodes of it where `tell` is
/// set and it was admitted.
fn on_transaction(chain: &mut Blockchain, tx: Transaction, now: u64, tell: bool) -> (r: Reaction)
    requires
        old(chain).wf(),
    ensures
        final(chain).wf(),
        final(chain)@ == chain_after_transaction(old(chain)@, tx@, now),
        r@ == if tell && admits(old(chain)@, tx@, now) {
            ReactionView { reply: None, broadcast: Some(MessageView::NewTransaction(tx@)), close: false }
        } else {
            silence()
        },
{
    reveal(admits);
    reveal(chain_after_transaction);
    let copy = tx.duplicate();
    match chain.add_to_mempool_at(tx, now) {
        Ok(()) => {
            if tell {
                tell_others(Message::NewTransaction(copy))
            } else {
                keep_silent()
            }
        },
        Err(_) => keep_silent(),
    }
}

/// Answers a request for a block to mine.
fn on_fetch_template(chain: &Blockchain, key: PublicKey, now: u64, id: u128) -> (r: Reaction)
    requires
        chain.wf(),
    ensures
        r@ == match spec_template(chain@, key, now, id) {
            Some(block) => answer(MessageView::Template(block)),
            None => silence(),
        },
{
    match build_template(chain, &key, now, id) {
        Some(block) => reply_with(Message::Template(block)),
        None => keep_silent(),
    }
}

/// Takes a block in, and tells the other nodes of it where `tell` is set
/// and it was appended.
fn on_block(chain: &mut Blockchain, block: Block, tell: bool) -> (r: Reaction)
    requires
        old(chain).wf(),
    ensures
        final(chain).wf(),
        final(chain)@ == chain_after_block(old(chain)@, block@),
        r@ == if tell && appends(old(chain)@, block@) {
            ReactionView { reply: None, broadcast: Some(MessageView::NewBlock(block@)), close: false }
        } else {
            silence()
        },
{
    let copy = block.duplicate();
    match take_block(chain, block) {
        Ok(()) => {
            if tell {
                tell_others(Message::NewBlock(copy))
            } else {
                keep_silent()
            }
        },
        Err(_) => keep_silent(),
    }
}

/// Answers a request for the block at a height.
fn on_fetch_block(chain: &Blockchain, height: usize) -> (r: Reaction)
    ensures
        r@ == if height < chain@.blocks.len() {
            answer(MessageView::NewBlock(chain@.blocks[height as int]))
        } else {
            silence()
        },
{
    let blocks = chain.blocks();
    if height < blocks.len() {
        let block = blocks[height].duplicate();
        reply_with(Message::NewBlock(block))
    } else {
        keep_silent()
    }
}

/// Does what a node does when a message reaches it at `now`: changes the
/// chain, and returns what to answer and what to tell the other nodes.
pub fn handle_message(
    chain: &mut Blockchain,
    nodes: &Vec<String>,
    message: Message,
    now: u64,
    id: u128,
) -> (r: Reaction)
    requires
        old(chain).wf(),
    ensures
        final(chain).wf(),
        final(chain)@ == chain_after(old(chain)@, message@, now),
        r@ == spec_reaction(
            old(chain)@,
            old(chain).spec_utxos().spec_entries(),
            views(nodes@),
            message@,
            now,
            id,
        ),
{
    match message {
        Message::FetchUTXOs(key) => on_fetch_utxos(chain, key),
        Message::SubmitTransaction(tx) => on_transaction(chain, tx, now, true),
        Message::NewTransaction(tx) => on_transaction(chain, tx, now, false),
        Message::FetchTemplate(key) => on_fetch_template(chain, key, now, id),
        Message::ValidateTemplate(block) => reply_with(
            Message::TemplateValidity(template_valid(chain, &block)),
        ),
        Message::SubmitTemplate(block) => on_block(chain, block, true),
        Message::DiscoverNodes => reply_with(Message::NodeList(copy_nodes(nodes))),
        Message::AskDifference(peer_height) => reply_with(
            Message::Difference(difference(chain, peer_height)),
        ),
        Message::FetchBlock(height) => on_fetch_block(chain, height),
        Message::NewBlock(block) => on_block(chain, block, false),
        _ => Reaction { reply: None, broadcast: None, close: true },
    }
}

} // verus!
