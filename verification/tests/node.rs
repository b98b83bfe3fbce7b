use btclib::crypto::{PrivateKey, PublicKey, Signature};
use btclib::error::BtcError;
use btclib::network::Message;
use btclib::node::{
    build_template, difference, find_longest_chain_node, handle_message, take_block,
    template_valid, utxos_of, Reaction, BLOCK_TRANSACTION_CAP,
};
use btclib::types::block::{Block, BlockHeader};
use btclib::types::blockchain::Blockchain;
use btclib::types::snapshot::Snapshot;
use btclib::types::transaction::{Transaction, TransactionInput, TransactionOutput};
use btclib::types::utxo::UtxoEntry;
use btclib::u256::U256;
use btclib::util::MerkleRoot;

fn key(seed: u64) -> (PrivateKey, PublicKey) {
    let private = PrivateKey(U256::from_u64(seed));
    (private, private.public_key().unwrap())
}

fn output(value: u64, id: u128, to: PublicKey) -> TransactionOutput {
    TransactionOutput { value, unique_id: id, pubkey: to }
}

fn chain_with_outputs(outputs: &[TransactionOutput]) -> Blockchain {
    let utxos =
        outputs.iter().map(|o| UtxoEntry { hash: o.hash(), output: *o, marked: false }).collect();
    Blockchain::from_snapshot(Snapshot { utxos, blocks: vec![], target: btclib::min_target() })
        .unwrap()
}

fn transfer(from: &TransactionOutput, private: &PrivateKey, pays: u64, id: u128) -> Transaction {
    let h = from.hash();
    Transaction::new(
        vec![TransactionInput {
            prev_transaction_output_hash: h,
            signature: Signature::sign_output(&h, private).unwrap(),
        }],
        vec![output(pays, id, from.pubkey)],
    )
}

/// A block as a miner hands it back: the header's target admits every hash.
fn solved(mut block: Block) -> Block {
    block.header.target = U256::max_value();
    block
}

fn silent() -> Reaction {
    Reaction { reply: None, broadcast: None, close: false }
}

fn no_nodes() -> Vec<String> {
    vec![]
}

#[test]
fn fetch_utxos_answers_with_the_outputs_of_the_key() {
    let (private, k) = key(1);
    let (_, other) = key(2);
    let mine = [output(10, 1, k), output(20, 2, k)];
    let theirs = output(30, 3, other);
    let mut chain = chain_with_outputs(&[mine[0], theirs, mine[1]]);
    assert_eq!(chain.add_to_mempool_at(transfer(&mine[1], &private, 20, 9), 5), Ok(()));
    assert_eq!(utxos_of(chain.utxos(), &k), vec![(false, mine[0]), (true, mine[1])]);
    let r = handle_message(&mut chain, &no_nodes(), Message::FetchUTXOs(k), 10, 0);
    assert_eq!(
        r,
        Reaction {
            reply: Some(Message::UTXOs(vec![(false, mine[0]), (true, mine[1])])),
            broadcast: None,
            close: false
        }
    );
    let r = handle_message(&mut chain, &no_nodes(), Message::FetchUTXOs(key(3).1), 10, 0);
    assert_eq!(r.reply, Some(Message::UTXOs(vec![])));
}

#[test]
fn submitted_transaction_is_admitted_and_told_to_the_others() {
    let (private, k) = key(1);
    let coin = output(10, 1, k);
    let mut chain = chain_with_outputs(&[coin]);
    let tx = transfer(&coin, &private, 9, 2);
    let r = handle_message(&mut chain, &no_nodes(), Message::SubmitTransaction(tx.clone()), 77, 0);
    assert_eq!(
        r,
        Reaction { reply: None, broadcast: Some(Message::NewTransaction(tx.clone())), close: false }
    );
    assert_eq!(chain.mempool(), &vec![(tx, 77)]);
}

#[test]
fn refused_transaction_is_told_to_nobody() {
    let (private, k) = key(1);
    let coin = output(10, 1, k);
    let mut chain = chain_with_outputs(&[]);
    let tx = transfer(&coin, &private, 9, 2);
    let r = handle_message(&mut chain, &no_nodes(), Message::SubmitTransaction(tx), 77, 0);
    assert_eq!(r, silent());
    assert!(chain.mempool().is_empty());
}

#[test]
fn transaction_from_a_peer_is_admitted_in_silence() {
    let (private, k) = key(1);
    let coin = output(10, 1, k);
    let mut chain = chain_with_outputs(&[coin]);
    let tx = transfer(&coin, &private, 9, 2);
    let r = handle_message(&mut chain, &no_nodes(), Message::NewTransaction(tx.clone()), 77, 0);
    assert_eq!(r, silent());
    assert_eq!(chain.mempool(), &vec![(tx, 77)]);
}

#[test]
fn template_pays_reward_and_fees_and_holds_the_pool_highest_fee_first() {
    let (private, k) = key(1);
    let (_, miner) = key(2);
    let coins = [output(100, 1, k), output(100, 2, k), output(100, 3, k)];
    let mut chain = chain_with_outputs(&coins);
    let fee_1 = transfer(&coins[0], &private, 99, 11);
    let fee_5 = transfer(&coins[1], &private, 95, 12);
    let fee_3 = transfer(&coins[2], &private, 97, 13);
    for tx in [&fee_1, &fee_5, &fee_3] {
        assert_eq!(chain.add_to_mempool_at(tx.clone(), 5), Ok(()));
    }
    let block = build_template(&chain, &miner, 1234, 42).unwrap();
    assert_eq!(block.transactions.len(), 4);
    assert_eq!(
        block.transactions[0],
        Transaction::new(vec![], vec![output(5_000_000_009, 42, miner)])
    );
    assert_eq!(&block.transactions[1..], &[fee_5, fee_3, fee_1]);
    assert_eq!(block.header.timestamp, 1234);
    assert_eq!(block.header.nonce, 0);
    assert_eq!(block.header.prev_block_hash, btclib::sha256::Hash::zero());
    assert_eq!(block.header.target, chain.target());
    assert_eq!(block.header.merkle_root, MerkleRoot::calculate(&block.transactions));
    assert_eq!(block.verify_transactions(0, chain.utxos()), Ok(()));
    let r = handle_message(&mut chain, &no_nodes(), Message::FetchTemplate(miner), 1234, 42);
    assert_eq!(r.reply, Some(Message::Template(block)));
    assert_eq!(r.broadcast, None);
}

#[test]
fn template_holds_no_more_than_the_cap() {
    let (private, k) = key(1);
    let (_, miner) = key(2);
    let coins: Vec<TransactionOutput> = (0..25).map(|i| output(1000, i, k)).collect();
    let mut chain = chain_with_outputs(&coins);
    for (i, c) in coins.iter().enumerate() {
        assert_eq!(
            chain.add_to_mempool_at(transfer(c, &private, 1000 - i as u64, 100 + i as u128), 5),
            Ok(())
        );
    }
    let block = build_template(&chain, &miner, 1, 1).unwrap();
    assert_eq!(BLOCK_TRANSACTION_CAP, 20);
    assert_eq!(block.transactions.len(), 21);
    // The fees are 0..25; the twenty highest are 24 down to 5.
    assert_eq!(block.transactions[0].outputs[0].value, 5_000_000_000 + (5..25).sum::<u64>());
    assert_eq!(block.transactions[1].outputs[0].value, 1000 - 24);
    assert_eq!(block.transactions[20].outputs[0].value, 1000 - 5);
}

#[test]
fn template_of_an_empty_pool_is_the_coinbase_alone() {
    let (_, miner) = key(2);
    let chain = Blockchain::new();
    let block = build_template(&chain, &miner, 9, 3).unwrap();
    assert_eq!(block.transactions, vec![Transaction::new(vec![], vec![output(5_000_000_000, 3, miner)])]);
}

#[test]
fn template_stays_valid_until_the_chain_or_the_pool_moves_on() {
    let (private, k) = key(1);
    let (_, miner) = key(2);
    let coin = output(100, 1, k);
    let mut chain = chain_with_outputs(&[coin]);
    let tx = transfer(&coin, &private, 90, 11);
    assert_eq!(chain.add_to_mempool_at(tx, 1000), Ok(()));
    let template = build_template(&chain, &miner, 1234, 42).unwrap();
    assert!(template_valid(&chain, &template));
    let r = handle_message(
        &mut chain,
        &no_nodes(),
        Message::ValidateTemplate(template.clone()),
        1,
        0,
    );
    assert_eq!(r.reply, Some(Message::TemplateValidity(true)));
    // A wrong Merkle root makes it invalid.
    let mut tampered = template.clone();
    tampered.transactions[0].outputs[0].value += 1;
    assert!(!template_valid(&chain, &tampered));
    // Once the transaction has left the pool the template is stale.
    let mut later = chain_with_outputs(&[coin]);
    assert!(!template_valid(&later, &template));
    // Once another block was appended the template names the wrong block.
    let other = solved(build_template(&later, &miner, 50, 1).unwrap());
    assert_eq!(later.add_block(other), Ok(()));
    let coinbase_only = build_template(&Blockchain::new(), &miner, 1, 1).unwrap();
    assert!(!template_valid(&later, &coinbase_only));
    let r = handle_message(&mut later, &no_nodes(), Message::ValidateTemplate(coinbase_only), 1, 0);
    assert_eq!(r.reply, Some(Message::TemplateValidity(false)));
}

#[test]
fn submitted_block_is_appended_and_told_to_the_others() {
    let (private, k) = key(1);
    let (_, miner) = key(2);
    let coin = output(100, 1, k);
    let mut chain = chain_with_outputs(&[coin]);
    let tx = transfer(&coin, &private, 90, 11);
    assert_eq!(chain.add_to_mempool_at(tx.clone(), 1000), Ok(()));
    let block = solved(build_template(&chain, &miner, 1234, 42).unwrap());
    let r = handle_message(&mut chain, &no_nodes(), Message::SubmitTemplate(block.clone()), 2000, 0);
    assert_eq!(
        r,
        Reaction { reply: None, broadcast: Some(Message::NewBlock(block.clone())), close: false }
    );
    assert_eq!(chain.blocks(), &vec![block.clone()]);
    assert!(chain.mempool().is_empty());
    // The unspent outputs are derived anew: what the block spends is gone,
    // and its outputs sit under the hashes of their transactions.
    assert!(!chain.utxos().contains_key(&coin.hash()));
    assert_eq!(
        chain.utxos().get(&block.transactions[0].hash()),
        Some((block.transactions[0].outputs[0], false))
    );
    assert_eq!(chain.utxos().get(&tx.hash()), Some((tx.outputs[0], false)));
    assert_eq!(chain.utxos().len(), 2);
}

#[test]
fn refused_block_changes_nothing() {
    let (_, miner) = key(2);
    let mut chain = Blockchain::new();
    let unsolved = build_template(&chain, &miner, 1234, 42).unwrap();
    let mut hard = unsolved.clone();
    hard.header.target = U256::zero();
    let r = handle_message(&mut chain, &no_nodes(), Message::SubmitTemplate(hard.clone()), 1, 0);
    assert_eq!(r, silent());
    assert_eq!(chain.block_height(), 0);
    assert_eq!(take_block(&mut chain, hard), Err(BtcError::InvalidBlock));
    let r = handle_message(&mut chain, &no_nodes(), Message::NewBlock(solved(unsolved)), 1, 0);
    assert_eq!(r, silent());
    assert_eq!(chain.block_height(), 1);
}

#[test]
fn discover_nodes_answers_with_the_known_addresses() {
    let mut chain = Blockchain::new();
    let nodes = vec!["10.0.0.1:9000".to_string(), "10.0.0.2:9000".to_string()];
    let r = handle_message(&mut chain, &nodes, Message::DiscoverNodes, 1, 0);
    assert_eq!(
        r,
        Reaction { reply: Some(Message::NodeList(nodes.clone())), broadcast: None, close: false }
    );
}

fn chain_of(n: u64) -> Blockchain {
    let (_, miner) = key(2);
    let mut chain = Blockchain::new();
    for i in 0..n {
        let b = solved(build_template(&chain, &miner, 1000 + i, i as u128).unwrap());
        assert_eq!(chain.add_block(b), Ok(()));
    }
    chain
}

#[test]
fn difference_is_the_local_height_less_the_height_of_the_peer() {
    let mut chain = chain_of(3);
    assert_eq!(difference(&chain, 0), 3);
    assert_eq!(difference(&chain, 5), -2);
    assert_eq!(difference(&chain, -4), 7);
    assert_eq!(difference(&chain, i32::MIN), i32::MAX);
    assert_eq!(difference(&chain, i32::MAX), 3 - i32::MAX);
    let r = handle_message(&mut chain, &no_nodes(), Message::AskDifference(1), 1, 0);
    assert_eq!(r, Reaction { reply: Some(Message::Difference(2)), broadcast: None, close: false });
}

#[test]
fn fetch_block_answers_with_the_block_at_the_height() {
    let mut chain = chain_of(3);
    let second = chain.blocks()[1].clone();
    let r = handle_message(&mut chain, &no_nodes(), Message::FetchBlock(1), 1, 0);
    assert_eq!(r, Reaction { reply: Some(Message::NewBlock(second)), broadcast: None, close: false });
    let r = handle_message(&mut chain, &no_nodes(), Message::FetchBlock(3), 1, 0);
    assert_eq!(r, silent());
}

#[test]
fn answers_that_reach_a_node_close_the_stream() {
    let mut chain = Blockchain::new();
    let closed = Reaction { reply: None, broadcast: None, close: true };
    for m in [
        Message::UTXOs(vec![]),
        Message::TemplateValidity(true),
        Message::NodeList(vec![]),
        Message::Difference(1),
        Message::Template(build_template(&Blockchain::new(), &key(1).1, 1, 1).unwrap()),
    ] {
        assert_eq!(handle_message(&mut chain, &no_nodes(), m, 1, 0), closed);
    }
    assert_eq!(chain.block_height(), 0);
}

#[test]
fn longest_chain_is_the_first_greatest_difference_above_zero() {
    assert_eq!(find_longest_chain_node(&vec![]), None);
    assert_eq!(find_longest_chain_node(&vec![0, -3, 0]), None);
    assert_eq!(find_longest_chain_node(&vec![2, 7, 7, 1]), Some(1));
    assert_eq!(find_longest_chain_node(&vec![-1, 1]), Some(1));
    assert_eq!(find_longest_chain_node(&vec![i32::MAX, 1, i32::MAX]), Some(0));
}

#[test]
fn chain_is_fetched_block_by_block_from_a_peer() {
    let mut peer = chain_of(4);
    let mut local = Blockchain::new();
    let ahead = match handle_message(&mut peer, &no_nodes(), Message::AskDifference(0), 1, 0).reply {
        Some(Message::Difference(d)) => d,
        other => panic!("unexpected answer {other:?}"),
    };
    assert_eq!(ahead, 4);
    for h in 0..ahead as usize {
        match handle_message(&mut peer, &no_nodes(), Message::FetchBlock(h), 1, 0).reply {
            Some(Message::NewBlock(b)) => assert_eq!(local.add_block(b), Ok(())),
            other => panic!("unexpected answer {other:?}"),
        }
    }
    local.rebuild_utxos();
    local.try_adjust_target();
    assert_eq!(local.blocks(), peer.blocks());
    assert_eq!(local.utxos().len(), 4);
}

#[test]
fn header_built_by_hand_equals_the_one_from_new() {
    let h = BlockHeader::new(
        1,
        2,
        btclib::sha256::Hash::zero(),
        MerkleRoot(btclib::sha256::Hash::zero()),
        U256::from_u64(3),
    );
    assert_eq!(h.timestamp, 1);
    assert_eq!(h.nonce, 2);
    assert_eq!(h.target, U256::from_u64(3));
}
