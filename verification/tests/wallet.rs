use btclib::crypto::{PrivateKey, PublicKey};
use btclib::error::BtcError;
use btclib::network::Message;
use btclib::types::transaction::TransactionOutput;
use btclib::u256::U256;
use btclib::wallet::{Core, FeeConfig, FeeType, LoadedKey, UtxoStore};

fn key(seed: u64) -> LoadedKey {
    let private = PrivateKey(U256::from_u64(seed));
    LoadedKey { public: private.public_key().unwrap(), private }
}

fn output(value: u64, id: u128, to: PublicKey) -> TransactionOutput {
    TransactionOutput { value, unique_id: id, pubkey: to }
}

fn wallet(fee: FeeConfig, keys: &[LoadedKey]) -> Core {
    let mut store = UtxoStore::new();
    for k in keys {
        store.add_key(*k);
    }
    Core::new(fee, store)
}

fn fixed(value: u64) -> FeeConfig {
    FeeConfig { fee_type: FeeType::Fixed, value }
}

#[test]
fn one_output_of_100_does_not_cover_100_and_a_fee_of_1() {
    let k = key(1);
    let mut core = wallet(fixed(1), &[k]);
    core.utxos.set_utxos(&k.public, vec![(output(100, 1, k.public), false)]);
    let recipient = key(2).public;
    assert_eq!(core.create_transaction(&recipient, 100), Err(BtcError::InsufficientFunds));
    assert!(core.create_transaction(&recipient, 99).is_ok());
}

#[test]
fn fixed_fee_is_the_value() {
    let core = wallet(fixed(17), &[]);
    assert_eq!(core.calculate_fee(0), 17);
    assert_eq!(core.calculate_fee(1_000_000), 17);
}

#[test]
fn percent_fee_is_rounded_down() {
    let core = wallet(FeeConfig { fee_type: FeeType::Percent, value: 3 }, &[]);
    assert_eq!(core.calculate_fee(0), 0);
    assert_eq!(core.calculate_fee(33), 0);
    assert_eq!(core.calculate_fee(34), 1);
    assert_eq!(core.calculate_fee(199), 5);
    assert_eq!(core.calculate_fee(u64::MAX), u64::MAX / 100 * 3 + (u64::MAX % 100) * 3 / 100);
    let steep = wallet(FeeConfig { fee_type: FeeType::Percent, value: 1000 }, &[]);
    assert_eq!(steep.calculate_fee(u64::MAX), u64::MAX);
}

#[test]
fn balance_sums_all_known_outputs() {
    let a = key(1);
    let b = key(2);
    let mut core = wallet(fixed(0), &[a, b]);
    assert_eq!(core.get_balance(), 0);
    core.utxos.set_utxos(
        &a.public,
        vec![(output(100, 1, a.public), false), (output(20, 2, a.public), true)],
    );
    core.utxos.set_utxos(&b.public, vec![(output(3, 3, b.public), false)]);
    assert_eq!(core.get_balance(), 123);
    // A new answer for a key replaces what was known for it.
    core.utxos.set_utxos(&a.public, vec![(output(1, 4, a.public), false)]);
    assert_eq!(core.get_balance(), 4);
}

#[test]
fn balance_is_capped_at_the_greatest_number() {
    let a = key(1);
    let mut core = wallet(fixed(0), &[a]);
    core.utxos.set_utxos(
        &a.public,
        vec![(output(u64::MAX, 1, a.public), false), (output(5, 2, a.public), false)],
    );
    assert_eq!(core.get_balance(), u64::MAX);
}

#[test]
fn transaction_takes_as_few_outputs_as_cover_amount_and_fee() {
    let k = key(1);
    let recipient = key(2).public;
    let mut core = wallet(fixed(5), &[k]);
    let coins = [
        output(40, 1, k.public),
        output(1000, 2, k.public),
        output(30, 3, k.public),
        output(50, 4, k.public),
    ];
    core.utxos.set_utxos(
        &k.public,
        vec![(coins[0], false), (coins[1], true), (coins[2], false), (coins[3], false)],
    );
    let tx = core.create_transaction(&recipient, 60).unwrap();
    // 40 and 30 cover 65; the marked output is passed over.
    assert_eq!(tx.inputs.len(), 2);
    assert_eq!(tx.inputs[0].prev_transaction_output_hash, coins[0].hash());
    assert_eq!(tx.inputs[1].prev_transaction_output_hash, coins[2].hash());
    for (input, coin) in tx.inputs.iter().zip([coins[0], coins[2]]) {
        assert!(input.signature.verify(&coin.hash(), &k.public));
    }
    assert_eq!(tx.outputs.len(), 2);
    assert_eq!(tx.outputs[0].value, 60);
    assert_eq!(tx.outputs[0].pubkey, recipient);
    assert_eq!(tx.outputs[1].value, 5);
    assert_eq!(tx.outputs[1].pubkey, k.public);
    assert_ne!(tx.outputs[0].unique_id, tx.outputs[1].unique_id);
}

#[test]
fn transaction_has_no_change_output_when_nothing_is_left() {
    let k = key(1);
    let recipient = key(2).public;
    let mut core = wallet(fixed(10), &[k]);
    core.utxos.set_utxos(&k.public, vec![(output(100, 1, k.public), false)]);
    let tx = core.create_transaction(&recipient, 90).unwrap();
    assert_eq!(tx.inputs.len(), 1);
    assert_eq!(tx.outputs.len(), 1);
    assert_eq!(tx.outputs[0].value, 90);
    assert_eq!(tx.outputs[0].pubkey, recipient);
}

#[test]
fn transaction_of_nothing_takes_no_inputs() {
    let core = wallet(fixed(0), &[]);
    let recipient = key(2).public;
    let tx = core.create_transaction(&recipient, 0).unwrap();
    assert!(tx.inputs.is_empty());
    assert_eq!(tx.outputs.len(), 1);
    assert_eq!(tx.outputs[0].value, 0);
}

#[test]
fn amount_and_fee_that_overflow_are_an_invalid_transaction() {
    let k = key(1);
    let mut core = wallet(fixed(2), &[k]);
    core.utxos.set_utxos(&k.public, vec![(output(u64::MAX, 1, k.public), false)]);
    assert_eq!(
        core.create_transaction(&key(2).public, u64::MAX - 1),
        Err(BtcError::InvalidTransaction)
    );
}

#[test]
fn outputs_of_a_key_that_cannot_sign_give_an_invalid_signature() {
    let broken = LoadedKey { public: key(1).public, private: PrivateKey(U256::zero()) };
    let mut core = wallet(fixed(0), &[broken]);
    core.utxos.set_utxos(&broken.public, vec![(output(100, 1, broken.public), false)]);
    assert_eq!(core.create_transaction(&key(2).public, 50), Err(BtcError::InvalidSignature));
}

#[test]
fn slots_are_walked_in_the_order_of_their_keys() {
    let a = key(1);
    let b = key(2);
    let (low, high) = if a.public < b.public { (a, b) } else { (b, a) };
    let mut core = wallet(fixed(0), &[high, low]);
    let in_high = output(10, 1, high.public);
    let in_low = output(10, 2, low.public);
    core.utxos.set_utxos(&high.public, vec![(in_high, false)]);
    core.utxos.set_utxos(&low.public, vec![(in_low, false)]);
    let list = core.utxos.list();
    assert_eq!(list.len(), 2);
    assert!(list[0].0 < list[1].0);
    assert_eq!(list[0].1, vec![(in_low, false)]);
    let tx = core.create_transaction(&key(3).public, 10).unwrap();
    assert_eq!(tx.inputs.len(), 1);
    assert_eq!(tx.inputs[0].prev_transaction_output_hash, in_low.hash());
    assert!(tx.inputs[0].signature.verify(&in_low.hash(), &low.public));
    // Change goes to the first key that the wallet owns.
    let tx = core.create_transaction(&key(3).public, 15).unwrap();
    assert_eq!(tx.outputs[1].value, 5);
    assert_eq!(tx.outputs[1].pubkey, high.public);
}

#[test]
fn answer_with_unspent_outputs_fills_the_slot() {
    let k = key(1);
    let mut core = wallet(fixed(0), &[k]);
    let answer =
        Message::UTXOs(vec![(true, output(5, 1, k.public)), (false, output(6, 2, k.public))]);
    assert_eq!(core.store_utxos(&k.public, answer), Ok(()));
    assert_eq!(
        core.utxos.list()[0].1,
        vec![(output(5, 1, k.public), true), (output(6, 2, k.public), false)]
    );
    assert_eq!(core.get_balance(), 11);
}

#[test]
fn another_answer_is_a_protocol_error() {
    let k = key(1);
    let mut core = wallet(fixed(0), &[k]);
    core.utxos.set_utxos(&k.public, vec![(output(5, 1, k.public), false)]);
    assert_eq!(core.store_utxos(&k.public, Message::TemplateValidity(true)), Err(BtcError::Protocol));
    assert_eq!(core.store_utxos(&k.public, Message::DiscoverNodes), Err(BtcError::Protocol));
    assert_eq!(core.get_balance(), 5);
}

#[test]
fn wallet_transaction_is_admitted_by_a_chain_that_holds_its_outputs() {
    let k = key(1);
    let coin = output(100, 1, k.public);
    let mut core = wallet(fixed(1), &[k]);
    core.utxos.set_utxos(&k.public, vec![(coin, false)]);
    let tx = core.create_transaction(&key(2).public, 50).unwrap();
    let mut chain = btclib::types::blockchain::Blockchain::from_snapshot(
        btclib::types::snapshot::Snapshot {
            utxos: vec![btclib::types::utxo::UtxoEntry {
                hash: coin.hash(),
                output: coin,
                marked: false,
            }],
            blocks: vec![],
            target: btclib::min_target(),
        },
    )
    .unwrap();
    assert_eq!(chain.add_to_mempool_at(tx.clone(), 10), Ok(()));
    assert_eq!(btclib::types::mempool::fee(&tx, chain.utxos()), 1);
}

#[test]
fn store_keeps_its_keys_in_the_order_of_addition() {
    let mut store = UtxoStore::new();
    assert!(store.keys().is_empty());
    assert!(store.list().is_empty());
    store.add_key(key(5));
    store.add_key(key(4));
    assert_eq!(store.keys(), &vec![key(5), key(4)]);
}
