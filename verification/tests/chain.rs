use bigdecimal::num_bigint::BigInt;
use bigdecimal::BigDecimal;
use btclib::crypto::{PrivateKey, PublicKey};
use btclib::error::BtcError;
use btclib::types::block::{block_reward, Block, BlockHeader};
use btclib::types::blockchain::Blockchain;
use btclib::types::snapshot::Snapshot;
use btclib::types::transaction::{Transaction, TransactionInput, TransactionOutput};
use btclib::u256::U256;
use btclib::util::MerkleRoot;

fn key(seed: u64) -> (PrivateKey, PublicKey) {
    let private = PrivateKey(U256::from_u64(seed));
    let public = private.public_key().expect("a small scalar is a valid key");
    (private, public)
}

fn coinbase(value: u64, id: u128, to: PublicKey) -> Transaction {
    Transaction::new(vec![], vec![TransactionOutput { value, unique_id: id, pubkey: to }])
}

/// A block whose header's target admits every hash.
fn block(prev: btclib::sha256::Hash, timestamp: u64, transactions: Vec<Transaction>) -> Block {
    let root = MerkleRoot::calculate(&transactions);
    let header = BlockHeader::new(timestamp, 0, prev, root, U256::max_value());
    Block::new(header, transactions)
}

fn tip_hash(chain: &Blockchain) -> btclib::sha256::Hash {
    match chain.blocks().last() {
        Some(b) => b.hash(),
        None => btclib::sha256::Hash::zero(),
    }
}

/// A chain of `n` coinbase-only blocks with the given timestamps.
fn chain_with_timestamps(timestamps: &[u64]) -> Blockchain {
    let (_, k) = key(7);
    let mut chain = Blockchain::new();
    for (i, t) in timestamps.iter().enumerate() {
        let b = block(tip_hash(&chain), *t, vec![coinbase(block_reward(i as u64), i as u128, k)]);
        assert_eq!(chain.add_block(b), Ok(()));
    }
    chain
}

#[test]
fn new_chain_is_empty_with_the_greatest_target() {
    let chain = Blockchain::new();
    assert_eq!(chain.block_height(), 0);
    assert_eq!(chain.utxos().len(), 0);
    assert!(chain.mempool().is_empty());
    assert_eq!(chain.target(), btclib::min_target());
    assert_eq!(
        btclib::min_target(),
        U256 { w3: 0xFF, w2: u64::MAX, w1: u64::MAX, w0: u64::MAX }
    );
}

#[test]
fn genesis_only_chain_pays_the_coinbase_to_its_key() {
    let (_, k) = key(1);
    let mut chain = Blockchain::new();
    let cb = coinbase(50 * 100_000_000, 1, k);
    let cb_hash = cb.hash();
    let b0 = block(btclib::sha256::Hash::zero(), 1000, vec![cb]);
    assert_eq!(chain.add_block(b0), Ok(()));
    chain.rebuild_utxos();
    assert_eq!(chain.block_height(), 1);
    let list = btclib::node::utxos_of(chain.utxos(), &k);
    assert_eq!(list.len(), 1);
    assert_eq!(list[0].1.value, 5_000_000_000);
    // The wallet of K sees exactly that balance.
    let mut store = btclib::wallet::UtxoStore::new();
    let (private, public) = key(1);
    store.add_key(btclib::wallet::LoadedKey { public, private });
    let mut core = btclib::wallet::Core::new(
        btclib::wallet::FeeConfig { fee_type: btclib::wallet::FeeType::Fixed, value: 0 },
        store,
    );
    assert_eq!(core.store_utxos(&k, btclib::network::Message::UTXOs(list)), Ok(()));
    assert_eq!(core.get_balance(), 5_000_000_000);
    // The unspent output sits under the hash of the transaction, not under
    // the hash of the output.
    assert!(chain.utxos().contains_key(&cb_hash));
}

#[test]
fn rewound_timestamp_is_an_invalid_block() {
    let (_, k) = key(1);
    let mut chain = chain_with_timestamps(&[1000]);
    let b1 = block(tip_hash(&chain), 1000, vec![coinbase(block_reward(1), 9, k)]);
    assert_eq!(chain.add_block(b1), Err(BtcError::InvalidBlock));
    assert_eq!(chain.block_height(), 1);
    let earlier = block(tip_hash(&chain), 999, vec![coinbase(block_reward(1), 9, k)]);
    assert_eq!(chain.add_block(earlier), Err(BtcError::InvalidBlock));
    let later = block(tip_hash(&chain), 1001, vec![coinbase(block_reward(1), 9, k)]);
    assert_eq!(chain.add_block(later), Ok(()));
    assert_eq!(chain.block_height(), 2);
}

#[test]
fn first_block_must_name_the_zero_hash() {
    let (_, k) = key(1);
    let mut chain = Blockchain::new();
    let wrong = btclib::sha256::Hash::hash(b"not zero");
    let b = block(wrong, 1000, vec![coinbase(block_reward(0), 1, k)]);
    assert_eq!(chain.add_block(b), Err(BtcError::InvalidBlock));
    assert_eq!(chain.block_height(), 0);
}

#[test]
fn wrong_previous_hash_is_an_invalid_block() {
    let (_, k) = key(1);
    let mut chain = chain_with_timestamps(&[1000]);
    let b = block(btclib::sha256::Hash::zero(), 2000, vec![coinbase(block_reward(1), 2, k)]);
    assert_eq!(chain.add_block(b), Err(BtcError::InvalidBlock));
    assert_eq!(chain.block_height(), 1);
}

#[test]
fn unsolved_header_is_an_invalid_block() {
    let (_, k) = key(1);
    let mut chain = Blockchain::new();
    let txs = vec![coinbase(block_reward(0), 1, k)];
    let root = MerkleRoot::calculate(&txs);
    let header = BlockHeader::new(1000, 0, btclib::sha256::Hash::zero(), root, U256::zero());
    assert!(!header.hash().matches_target(header.target));
    assert_eq!(chain.add_block(Block::new(header, txs)), Err(BtcError::InvalidBlock));
}

#[test]
fn wrong_merkle_root_is_reported_as_such() {
    let (_, k) = key(1);
    let mut chain = Blockchain::new();
    let txs = vec![coinbase(block_reward(0), 1, k)];
    let other = vec![coinbase(block_reward(0), 2, k)];
    let header = BlockHeader::new(
        1000,
        0,
        btclib::sha256::Hash::zero(),
        MerkleRoot::calculate(&other),
        U256::max_value(),
    );
    assert_eq!(chain.add_block(Block::new(header, txs)), Err(BtcError::InvalidMerkleRoot));
}

#[test]
fn block_without_transactions_fails_the_merkle_rule() {
    let mut chain = Blockchain::new();
    let header = BlockHeader::new(
        1000,
        0,
        btclib::sha256::Hash::zero(),
        MerkleRoot(btclib::sha256::Hash::zero()),
        U256::max_value(),
    );
    assert_eq!(chain.add_block(Block::new(header, vec![])), Err(BtcError::InvalidMerkleRoot));
}

#[test]
fn coinbase_must_pay_exactly_the_reward() {
    let (_, k) = key(1);
    let mut chain = Blockchain::new();
    let too_much = block(btclib::sha256::Hash::zero(), 1000, vec![coinbase(5_000_000_001, 1, k)]);
    assert_eq!(too_much.verify_transactions(0, chain.utxos()), Err(BtcError::InvalidTransaction));
    assert_eq!(chain.add_block(too_much), Err(BtcError::InvalidBlock));
    let too_little = block(btclib::sha256::Hash::zero(), 1000, vec![coinbase(4_999_999_999, 1, k)]);
    assert_eq!(too_little.verify_transactions(0, chain.utxos()), Err(BtcError::InvalidTransaction));
    assert_eq!(chain.add_block(too_little), Err(BtcError::InvalidBlock));
    let exact = block(btclib::sha256::Hash::zero(), 1000, vec![coinbase(5_000_000_000, 1, k)]);
    assert_eq!(chain.add_block(exact), Ok(()));
}

#[test]
fn coinbase_with_inputs_is_an_invalid_transaction() {
    let (private, k) = key(1);
    let mut chain = Blockchain::new();
    let h = btclib::sha256::Hash::hash(b"anything");
    let input = TransactionInput {
        prev_transaction_output_hash: h,
        signature: btclib::crypto::Signature::sign_output(&h, &private).unwrap(),
    };
    let tx = Transaction::new(
        vec![input],
        vec![TransactionOutput { value: block_reward(0), unique_id: 1, pubkey: k }],
    );
    let b = block(btclib::sha256::Hash::zero(), 1000, vec![tx]);
    assert_eq!(b.verify_transactions(0, chain.utxos()), Err(BtcError::InvalidTransaction));
    assert_eq!(chain.add_block(b), Err(BtcError::InvalidBlock));
}

#[test]
fn second_coinbase_is_an_invalid_transaction() {
    let (_, k) = key(1);
    let mut chain = Blockchain::new();
    let b = block(
        btclib::sha256::Hash::zero(),
        1000,
        vec![coinbase(block_reward(0), 1, k), coinbase(0, 2, k)],
    );
    assert_eq!(b.verify_transactions(0, chain.utxos()), Err(BtcError::InvalidTransaction));
    assert_eq!(chain.add_block(b), Err(BtcError::InvalidBlock));
}

/// A chain whose unspent outputs sit under the hashes of the outputs.
fn chain_with_outputs(outputs: &[TransactionOutput]) -> Blockchain {
    let utxos = outputs
        .iter()
        .map(|o| btclib::types::utxo::UtxoEntry { hash: o.hash(), output: *o, marked: false })
        .collect();
    Blockchain::from_snapshot(Snapshot { utxos, blocks: vec![], target: btclib::min_target() })
        .expect("distinct outputs make a chain")
}

fn spend(output: &TransactionOutput, private: &PrivateKey) -> TransactionInput {
    let h = output.hash();
    TransactionInput {
        prev_transaction_output_hash: h,
        signature: btclib::crypto::Signature::sign_output(&h, private).unwrap(),
    }
}

#[test]
fn block_with_a_signed_spend_and_a_fee_is_appended() {
    let (private, k) = key(1);
    let (_, miner) = key(2);
    let coin = TransactionOutput { value: 100, unique_id: 1, pubkey: k };
    let mut chain = chain_with_outputs(&[coin]);
    let tx = Transaction::new(
        vec![spend(&coin, &private)],
        vec![TransactionOutput { value: 90, unique_id: 2, pubkey: miner }],
    );
    let b = block(
        btclib::sha256::Hash::zero(),
        1000,
        vec![coinbase(block_reward(0) + 10, 3, miner), tx],
    );
    assert_eq!(b.calculate_miner_fees(chain.utxos()), Ok(10));
    assert_eq!(b.verify_transactions(0, chain.utxos()), Ok(()));
    assert_eq!(chain.add_block(b), Ok(()));
}

#[test]
fn forged_signature_is_an_invalid_signature() {
    let (_, k) = key(1);
    let (thief, miner) = key(2);
    let coin = TransactionOutput { value: 100, unique_id: 1, pubkey: k };
    let mut chain = chain_with_outputs(&[coin]);
    let tx = Transaction::new(
        vec![spend(&coin, &thief)],
        vec![TransactionOutput { value: 100, unique_id: 2, pubkey: miner }],
    );
    let b = block(btclib::sha256::Hash::zero(), 1000, vec![coinbase(block_reward(0), 3, miner), tx]);
    assert_eq!(b.verify_transactions(0, chain.utxos()), Err(BtcError::InvalidSignature));
    assert_eq!(chain.add_block(b), Err(BtcError::InvalidBlock));
    assert_eq!(chain.block_height(), 0);
}

#[test]
fn spend_of_an_unknown_output_is_an_invalid_transaction() {
    let (private, k) = key(1);
    let coin = TransactionOutput { value: 100, unique_id: 1, pubkey: k };
    let chain = chain_with_outputs(&[]);
    let tx = Transaction::new(
        vec![spend(&coin, &private)],
        vec![TransactionOutput { value: 100, unique_id: 2, pubkey: k }],
    );
    let b = block(btclib::sha256::Hash::zero(), 1000, vec![coinbase(block_reward(0), 3, k), tx]);
    assert_eq!(b.verify_transactions(0, chain.utxos()), Err(BtcError::InvalidTransaction));
    assert_eq!(b.calculate_miner_fees(chain.utxos()), Err(BtcError::InvalidTransaction));
}

#[test]
fn double_spend_within_a_block_is_an_invalid_transaction() {
    let (private, k) = key(1);
    let coin = TransactionOutput { value: 100, unique_id: 1, pubkey: k };
    let chain = chain_with_outputs(&[coin]);
    let a = Transaction::new(
        vec![spend(&coin, &private)],
        vec![TransactionOutput { value: 100, unique_id: 2, pubkey: k }],
    );
    let b = Transaction::new(
        vec![spend(&coin, &private)],
        vec![TransactionOutput { value: 100, unique_id: 3, pubkey: k }],
    );
    let blk = block(btclib::sha256::Hash::zero(), 1000, vec![coinbase(block_reward(0), 4, k), a, b]);
    assert_eq!(blk.verify_transactions(0, chain.utxos()), Err(BtcError::InvalidTransaction));
}

#[test]
fn transaction_that_pays_out_more_than_it_takes_in_is_invalid() {
    let (private, k) = key(1);
    let coin = TransactionOutput { value: 100, unique_id: 1, pubkey: k };
    let chain = chain_with_outputs(&[coin]);
    let tx = Transaction::new(
        vec![spend(&coin, &private)],
        vec![TransactionOutput { value: 101, unique_id: 2, pubkey: k }],
    );
    let blk = block(btclib::sha256::Hash::zero(), 1000, vec![coinbase(block_reward(0), 4, k), tx]);
    assert_eq!(blk.verify_transactions(0, chain.utxos()), Err(BtcError::InvalidTransaction));
}

#[test]
fn appended_block_has_a_hash_within_its_target_and_its_merkle_root() {
    let chain = chain_with_timestamps(&[1000, 1010, 1020]);
    for b in chain.blocks() {
        assert!(b.header.hash().matches_target(b.header.target));
        assert_eq!(MerkleRoot::calculate(&b.transactions), b.header.merkle_root);
    }
    assert_eq!(chain.blocks()[1].header.prev_block_hash, chain.blocks()[0].hash());
    assert_eq!(chain.blocks()[2].header.prev_block_hash, chain.blocks()[1].hash());
}

#[test]
fn merkle_root_of_one_transaction_is_its_hash() {
    let (_, k) = key(1);
    let tx = coinbase(1, 1, k);
    assert_eq!(MerkleRoot::calculate(std::slice::from_ref(&tx)), MerkleRoot(tx.hash()));
}

fn pair(left: btclib::sha256::Hash, right: btclib::sha256::Hash) -> btclib::sha256::Hash {
    let mut bytes = vec![0x9b, 0, 0, 0, 0, 0, 0, 0, 2];
    for h in [left, right] {
        bytes.extend_from_slice(&[0x5b, 0, 0, 0, 0, 0, 0, 0, 32]);
        bytes.extend_from_slice(&h.as_bytes());
    }
    btclib::sha256::Hash::hash(&bytes)
}

#[test]
fn merkle_root_folds_pairs_and_doubles_the_odd_one() {
    let (_, k) = key(1);
    let txs: Vec<Transaction> = (0..3).map(|i| coinbase(i, i as u128, k)).collect();
    let h: Vec<_> = txs.iter().map(|t| t.hash()).collect();
    let two = MerkleRoot::calculate(&txs[..2]);
    assert_eq!(two, MerkleRoot(pair(h[0], h[1])));
    let three = MerkleRoot::calculate(&txs);
    assert_eq!(three, MerkleRoot(pair(pair(h[0], h[1]), pair(h[2], h[2]))));
}

#[test]
fn perturbing_a_transaction_changes_the_merkle_root() {
    let (_, k) = key(1);
    let txs: Vec<Transaction> = (0..4).map(|i| coinbase(10, i as u128, k)).collect();
    let root = MerkleRoot::calculate(&txs);
    for i in 0..4 {
        let mut changed: Vec<Transaction> = txs.clone();
        changed[i] = coinbase(11, i as u128, k);
        assert_ne!(MerkleRoot::calculate(&changed), root);
    }
}

#[test]
fn reward_halves_every_210_blocks() {
    assert_eq!(block_reward(0), 5_000_000_000);
    assert_eq!(block_reward(209), 5_000_000_000);
    assert_eq!(block_reward(210), 2_500_000_000);
    assert_eq!(block_reward(420), 1_250_000_000);
    assert_eq!(block_reward(210 * 32), 1);
    assert_eq!(block_reward(210 * 33), 0);
    assert_eq!(block_reward(210 * 64), 0);
    assert_eq!(block_reward(u64::MAX), 0);
}

#[test]
fn sum_of_all_rewards_stays_below_the_geometric_bound() {
    let mut sum: u128 = 0;
    for h in 0..(210 * 70) {
        sum += block_reward(h) as u128;
    }
    assert!(sum < 2 * 50 * 100_000_000 * 210);
    assert_eq!(sum, 210 * 9_999_999_989u128);
}

#[test]
fn chain_reports_the_reward_of_its_next_block() {
    let chain = chain_with_timestamps(&[1000, 1010]);
    assert_eq!(chain.calculate_block_reward(), 5_000_000_000);
    assert_eq!(chain.block_height(), 2);
}

#[test]
fn rebuilding_twice_gives_the_same_unspent_outputs() {
    let mut chain = chain_with_timestamps(&[1000]);
    chain.rebuild_utxos();
    let once = chain.utxos().to_entries();
    chain.rebuild_utxos();
    assert_eq!(chain.utxos().to_entries(), once);
    assert_eq!(once.len(), 1);
    assert!(!once[0].marked);
}

#[test]
fn rebuild_keeps_only_the_last_output_of_a_transaction() {
    // Outputs are put under the hash of their transaction, so a transaction
    // with two outputs leaves one unspent output behind.
    let (_, k) = key(1);
    let (_, other) = key(2);
    let cb = Transaction::new(
        vec![],
        vec![
            TransactionOutput { value: 3_000_000_000, unique_id: 1, pubkey: k },
            TransactionOutput { value: 2_000_000_000, unique_id: 2, pubkey: other },
        ],
    );
    let h = cb.hash();
    let mut chain = Blockchain::new();
    assert_eq!(chain.add_block(block(btclib::sha256::Hash::zero(), 1000, vec![cb])), Ok(()));
    chain.rebuild_utxos();
    assert_eq!(chain.utxos().len(), 1);
    let (output, marked) = chain.utxos().get(&h).unwrap();
    assert_eq!(output.value, 2_000_000_000);
    assert_eq!(output.pubkey, other);
    assert!(!marked);
}

#[test]
fn add_block_leaves_the_unspent_outputs_alone() {
    let chain = chain_with_timestamps(&[1000, 1010]);
    assert_eq!(chain.utxos().len(), 0);
}

fn timestamps(n: usize, start: u64, first_to_last: u64) -> Vec<u64> {
    let mut out: Vec<u64> = (0..n as u64 - 1).map(|i| start + i).collect();
    out.push(start + first_to_last);
    out
}

#[test]
fn target_stays_when_the_blocks_took_the_ideal_time() {
    let chain = chain_with_timestamps(&timestamps(50, 1000, 500));
    assert_eq!(chain.block_height(), 50);
    assert_eq!(chain.target(), btclib::min_target());
}

#[test]
fn target_is_untouched_between_adjustments() {
    let chain = chain_with_timestamps(&timestamps(49, 1000, 60));
    assert_eq!(chain.target(), btclib::min_target());
}

#[test]
fn fast_blocks_quarter_the_target() {
    let chain = chain_with_timestamps(&timestamps(50, 1000, 49));
    // 2^200 - 1 divided by four, rounded down, is 2^198 - 1.
    assert_eq!(
        chain.target(),
        U256 { w3: 0x3F, w2: u64::MAX, w1: u64::MAX, w0: u64::MAX }
    );
}

#[test]
fn slow_blocks_from_the_greatest_target_stay_capped() {
    let chain = chain_with_timestamps(&timestamps(50, 1000, 50_000));
    assert_eq!(chain.target(), btclib::min_target());
}

#[test]
fn slow_blocks_multiply_the_target_by_four_at_most() {
    // First stretch: fast, the target drops to a quarter. Second stretch: a
    // hundred times the ideal time, the target is four times the quarter.
    let mut ts = timestamps(50, 1000, 49);
    let mut second: Vec<u64> = (0..49u64).map(|i| 2000 + i).collect();
    second.push(2000 + 50_000);
    ts.append(&mut second);
    let chain = chain_with_timestamps(&ts);
    assert_eq!(chain.block_height(), 100);
    assert_eq!(
        chain.target(),
        U256 { w3: 0xFF, w2: u64::MAX, w1: u64::MAX, w0: u64::MAX - 3 }
    );
}

#[test]
fn target_scales_with_the_time_taken_rounded_down() {
    // A snapshot is not checked block by block, so it can hold any target.
    let (_, k) = key(1);
    let blocks: Vec<Block> = timestamps(50, 1000, 750)
        .into_iter()
        .map(|t| block(btclib::sha256::Hash::zero(), t, vec![coinbase(1, 1, k)]))
        .collect();
    let mut chain = Blockchain::from_snapshot(Snapshot {
        utxos: vec![],
        blocks,
        target: U256::from_u64(1001),
    })
    .unwrap();
    chain.try_adjust_target();
    // 1001 * 750 / 500 = 1501.5
    assert_eq!(chain.target(), U256::from_u64(1501));
    assert_eq!(chain.block_height(), 50);
}

#[test]
fn adjusted_target_stays_within_the_clamp() {
    let (_, k) = key(1);
    let prev = U256::from_u64(1_000_000);
    for actual in [0u64, 1, 124, 125, 126, 499, 500, 501, 1999, 2000, 2001, 5000] {
        let blocks: Vec<Block> = timestamps(50, 1000, actual.max(0))
            .into_iter()
            .map(|t| block(btclib::sha256::Hash::zero(), t, vec![coinbase(1, 1, k)]))
            .collect();
        let mut chain =
            Blockchain::from_snapshot(Snapshot { utxos: vec![], blocks, target: prev }).unwrap();
        chain.try_adjust_target();
        let t = chain.target();
        assert!(U256::from_u64(250_000).le(&t), "actual {actual}");
        assert!(t.le(&U256::from_u64(4_000_000)), "actual {actual}");
        let expected = (1_000_000u64 * actual / 500).clamp(250_000, 4_000_000);
        assert_eq!(t, U256::from_u64(expected), "actual {actual}");
    }
}

#[test]
fn adjustment_agrees_with_decimal_arithmetic() {
    let (_, k) = key(1);
    let prev = U256 { w3: 0x0F, w2: 0x1234_5678_9ABC_DEF0, w1: 77, w0: 0xFFFF_FFFF_FFFF_FFF1 };
    for actual in [137u64, 500, 613, 1999] {
        let blocks: Vec<Block> = timestamps(50, 1000, actual)
            .into_iter()
            .map(|t| block(btclib::sha256::Hash::zero(), t, vec![coinbase(1, 1, k)]))
            .collect();
        let mut chain =
            Blockchain::from_snapshot(Snapshot { utxos: vec![], blocks, target: prev }).unwrap();
        chain.try_adjust_target();
        // The same in decimal arithmetic: the target as a decimal number,
        // times the quotient of the times, cut off at the decimal point.
        let old = BigDecimal::parse_bytes(&prev.to_decimal(), 10).unwrap();
        let scaled = old * (BigDecimal::from(actual) / BigDecimal::from(500u64));
        let whole = scaled.with_scale_round(0, bigdecimal::RoundingMode::Down);
        let (digits, exponent) = whole.into_bigint_and_exponent();
        assert_eq!(exponent, 0);
        assert_eq!(digits, BigInt::parse_bytes(&chain.target().to_decimal(), 10).unwrap());
        assert_eq!(U256::from_decimal(digits.to_string().as_bytes()), Some(chain.target()));
    }
}

#[test]
fn mining_returns_at_once_when_the_header_is_solved() {
    let mut header = BlockHeader::new(
        1000,
        5,
        btclib::sha256::Hash::zero(),
        MerkleRoot(btclib::sha256::Hash::zero()),
        U256::max_value(),
    );
    assert!(header.mine_at(10, 2000));
    assert_eq!(header.nonce, 5);
    assert_eq!(header.timestamp, 1000);
}

#[test]
fn mining_counts_the_nonce_up_to_the_first_solution() {
    // A target that about one hash in sixteen meets.
    let target = U256 { w3: u64::MAX >> 4, w2: u64::MAX, w1: u64::MAX, w0: u64::MAX };
    let start = BlockHeader::new(
        1000,
        0,
        btclib::sha256::Hash::zero(),
        MerkleRoot(btclib::sha256::Hash::zero()),
        target,
    );
    let mut header = start;
    assert!(header.mine_at(10_000, 2000));
    assert!(header.hash().matches_target(target));
    assert_eq!(header.timestamp, 1000);
    for n in 0..header.nonce {
        let mut h = start;
        h.nonce = n;
        assert!(!h.hash().matches_target(target));
    }
}

#[test]
fn mining_gives_up_after_its_steps() {
    let mut header = BlockHeader::new(
        1000,
        0,
        btclib::sha256::Hash::zero(),
        MerkleRoot(btclib::sha256::Hash::zero()),
        U256::zero(),
    );
    assert!(!header.mine_at(25, 2000));
    assert_eq!(header.nonce, 25);
    assert_eq!(header.timestamp, 1000);
    assert!(!header.mine(5));
    assert_eq!(header.nonce, 30);
}

#[test]
fn mining_resets_a_nonce_that_is_used_up() {
    let mut header = BlockHeader::new(
        1000,
        u64::MAX - 2,
        btclib::sha256::Hash::zero(),
        MerkleRoot(btclib::sha256::Hash::zero()),
        U256::zero(),
    );
    assert!(!header.mine_at(10, 2000));
    assert_eq!(header.nonce, 0);
    assert_eq!(header.timestamp, 2000);
}
