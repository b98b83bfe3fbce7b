use btclib::codec::{decode, encode};
use btclib::crypto::{PrivateKey, PublicKey, Signature};
use btclib::error::BtcError;
use btclib::network::{frame_length, Message, MAX_FRAME_LENGTH};
use btclib::types::block::{Block, BlockHeader};
use btclib::types::blockchain::Blockchain;
use btclib::types::snapshot::Snapshot;
use btclib::types::transaction::{Transaction, TransactionInput, TransactionOutput};
use btclib::types::utxo::UtxoEntry;
use btclib::u256::U256;
use btclib::util::MerkleRoot;
use ciborium::value::Value;

fn public(seed: u64) -> PublicKey {
    PrivateKey(U256::from_u64(seed)).public_key().unwrap()
}

fn sample_output(id: u128) -> TransactionOutput {
    TransactionOutput { value: 0x0102_0304_0506_0708, unique_id: id, pubkey: public(3) }
}

fn sample_input(seed: u64) -> TransactionInput {
    let h = btclib::sha256::Hash::hash(&seed.to_be_bytes());
    TransactionInput {
        prev_transaction_output_hash: h,
        signature: Signature::sign_output(&h, &PrivateKey(U256::from_u64(seed))).unwrap(),
    }
}

fn sample_transaction() -> Transaction {
    Transaction::new(
        vec![sample_input(1), sample_input(2)],
        vec![sample_output(1), sample_output(2), sample_output(3)],
    )
}

fn sample_block() -> Block {
    let txs = vec![Transaction::new(vec![], vec![sample_output(9)]), sample_transaction()];
    let header = BlockHeader::new(
        1_700_000_000,
        42,
        btclib::sha256::Hash::hash(b"previous"),
        MerkleRoot::calculate(&txs),
        btclib::min_target(),
    );
    Block::new(header, txs)
}

fn all_messages() -> Vec<Message> {
    vec![
        Message::FetchUTXOs(public(1)),
        Message::UTXOs(vec![(true, sample_output(1)), (false, sample_output(2))]),
        Message::UTXOs(vec![]),
        Message::SubmitTransaction(sample_transaction()),
        Message::NewTransaction(sample_transaction()),
        Message::FetchTemplate(public(2)),
        Message::Template(sample_block()),
        Message::ValidateTemplate(sample_block()),
        Message::TemplateValidity(true),
        Message::TemplateValidity(false),
        Message::SubmitTemplate(sample_block()),
        Message::DiscoverNodes,
        Message::NodeList(vec!["127.0.0.1:9000".to_string(), "n\u{f6}de:1".to_string()]),
        Message::NodeList(vec![]),
        Message::AskDifference(0),
        Message::AskDifference(i32::MAX),
        Message::AskDifference(-1),
        Message::Difference(i32::MIN),
        Message::Difference(-77),
        Message::FetchBlock(0),
        Message::FetchBlock(123_456),
        Message::NewBlock(sample_block()),
    ]
}

#[test]
fn output_has_the_documented_bytes() {
    let o = TransactionOutput {
        value: 0x0102_0304_0506_0708,
        unique_id: 0x1112_1314_1516_1718_191a_1b1c_1d1e_1f20,
        pubkey: PublicKey { prefix: 2, x: U256 { w3: 1, w2: 2, w1: 3, w0: 4 } },
    };
    let mut expected: Vec<u8> = vec![0x9b, 0, 0, 0, 0, 0, 0, 0, 3];
    expected.extend_from_slice(&[0x1b, 1, 2, 3, 4, 5, 6, 7, 8]);
    expected.extend_from_slice(&[0x5b, 0, 0, 0, 0, 0, 0, 0, 16]);
    expected.extend_from_slice(&[
        0x11, 0x12, 0x13, 0x14, 0x15, 0x16, 0x17, 0x18, 0x19, 0x1a, 0x1b, 0x1c, 0x1d, 0x1e, 0x1f,
        0x20,
    ]);
    expected.extend_from_slice(&[0x5b, 0, 0, 0, 0, 0, 0, 0, 33, 2]);
    for limb in [1u64, 2, 3, 4] {
        expected.extend_from_slice(&limb.to_be_bytes());
    }
    assert_eq!(encode(&o), expected);
    assert_eq!(expected.len(), 85);
}

#[test]
fn data_types_decode_to_what_was_encoded() {
    let o = sample_output(5);
    assert_eq!(decode::<TransactionOutput>(&encode(&o)), Some(o));
    let i = sample_input(5);
    assert_eq!(decode::<TransactionInput>(&encode(&i)), Some(i));
    let t = sample_transaction();
    assert_eq!(decode::<Transaction>(&encode(&t)), Some(t));
    let empty = Transaction::new(vec![], vec![]);
    assert_eq!(decode::<Transaction>(&encode(&empty)), Some(empty));
    let b = sample_block();
    assert_eq!(decode::<BlockHeader>(&encode(&b.header)), Some(b.header));
    assert_eq!(decode::<Block>(&encode(&b)), Some(sample_block()));
    let e = UtxoEntry { hash: o.hash(), output: o, marked: true };
    assert_eq!(decode::<UtxoEntry>(&encode(&e)), Some(e));
}

#[test]
fn keys_decode_to_what_was_encoded() {
    let private = PrivateKey(U256 { w3: 9, w2: 8, w1: 7, w0: 6 });
    let bytes = encode(&private);
    assert_eq!(bytes.len(), 41);
    assert_eq!(decode::<PrivateKey>(&bytes), Some(private));
    let key = public(11);
    let bytes = encode(&key);
    assert_eq!(bytes.len(), 42);
    assert_eq!(&bytes[9..], &key.to_bytes()[..]);
    assert_eq!(decode::<PublicKey>(&bytes), Some(key));
}

#[test]
fn messages_decode_to_what_was_encoded() {
    for (m, again) in all_messages().into_iter().zip(all_messages()) {
        let bytes = m.encode();
        assert_eq!(Message::decode(&bytes), Ok(again), "{m:?}");
    }
}

#[test]
fn messages_carry_their_wire_tags() {
    let tags: Vec<u64> = all_messages().iter().map(|m| m.tag()).collect();
    assert_eq!(tags, vec![0, 1, 1, 2, 3, 4, 5, 6, 7, 7, 8, 9, 10, 10, 11, 11, 11, 12, 12, 13, 13, 14]);
    for m in all_messages() {
        let bytes = m.encode();
        assert_eq!(&bytes[..9], &[0x9b, 0, 0, 0, 0, 0, 0, 0, 2]);
        assert_eq!(bytes[9], 0x1b);
        assert_eq!(&bytes[10..18], &m.tag().to_be_bytes());
    }
}

#[test]
fn small_messages_have_the_documented_bytes() {
    let head = |tag: u8| vec![0x9b, 0, 0, 0, 0, 0, 0, 0, 2, 0x1b, 0, 0, 0, 0, 0, 0, 0, tag];
    let mut expected = head(7);
    expected.push(0xf5);
    assert_eq!(Message::TemplateValidity(true).encode(), expected);
    let mut expected = head(9);
    expected.extend_from_slice(&[0x9b, 0, 0, 0, 0, 0, 0, 0, 0]);
    assert_eq!(Message::DiscoverNodes.encode(), expected);
    let mut expected = head(12);
    expected.extend_from_slice(&[0x3b, 0, 0, 0, 0, 0, 0, 0, 76]);
    assert_eq!(Message::Difference(-77).encode(), expected);
    let mut expected = head(10);
    expected.extend_from_slice(&[0x9b, 0, 0, 0, 0, 0, 0, 0, 1, 0x7b, 0, 0, 0, 0, 0, 0, 0, 2]);
    expected.extend_from_slice("ab".as_bytes());
    assert_eq!(Message::NodeList(vec!["ab".to_string()]).encode(), expected);
}

#[test]
fn bytes_that_are_no_encoding_decode_to_nothing() {
    let good = encode(&sample_transaction());
    assert_eq!(decode::<Transaction>(&[]), None);
    assert_eq!(decode::<Transaction>(&good[..good.len() - 1]), None);
    let mut longer = good.clone();
    longer.push(0);
    assert_eq!(decode::<Transaction>(&longer), None);
    let mut wrong_tag = good.clone();
    wrong_tag[0] = 0x5b;
    assert_eq!(decode::<Transaction>(&wrong_tag), None);
    let mut wrong_count = good.clone();
    wrong_count[8] = 3;
    assert_eq!(decode::<Transaction>(&wrong_count), None);
    assert_eq!(Message::decode(&good), Err(BtcError::Codec));
    let mut unknown_kind = Message::DiscoverNodes.encode();
    unknown_kind[17] = 15;
    assert_eq!(Message::decode(&unknown_kind), Err(BtcError::Codec));
    let mut not_utf8 = Message::NodeList(vec!["ab".to_string()]).encode();
    let last = not_utf8.len() - 1;
    not_utf8[last] = 0xff;
    assert_eq!(Message::decode(&not_utf8), Err(BtcError::Codec));
    let mut too_wide = Message::AskDifference(1).encode();
    too_wide[22] = 0x80;
    assert_eq!(Message::decode(&too_wide), Err(BtcError::Codec));
}

#[test]
fn huge_array_count_is_refused_without_a_huge_allocation() {
    let mut bytes = Message::UTXOs(vec![]).encode();
    let n = bytes.len();
    for b in &mut bytes[n - 8..] {
        *b = 0xff;
    }
    assert_eq!(Message::decode(&bytes), Err(BtcError::Codec));
}

fn as_cbor(bytes: &[u8]) -> Value {
    ciborium::de::from_reader(bytes).expect("the encoding is well-formed CBOR")
}

#[test]
fn encodings_are_well_formed_cbor() {
    let o = sample_output(5);
    let v = as_cbor(&encode(&o));
    let fields = v.as_array().unwrap();
    assert_eq!(fields.len(), 3);
    assert_eq!(fields[0], Value::Integer(o.value.into()));
    assert_eq!(fields[1], Value::Bytes(o.unique_id.to_be_bytes().to_vec()));
    assert_eq!(fields[2], Value::Bytes(o.pubkey.to_bytes()));
    let b = sample_block();
    let v = as_cbor(&encode(&b));
    let parts = v.as_array().unwrap();
    assert_eq!(parts.len(), 2);
    let header = parts[0].as_array().unwrap();
    assert_eq!(header[0], Value::Integer(1_700_000_000u64.into()));
    assert_eq!(header[1], Value::Integer(42u64.into()));
    assert_eq!(header[2], Value::Bytes(b.header.prev_block_hash.as_bytes()));
    assert_eq!(header[4], Value::Bytes(b.header.target.to_be_bytes()));
    assert_eq!(parts[1].as_array().unwrap().len(), 2);
    for m in all_messages() {
        let v = as_cbor(&m.encode());
        let parts = v.as_array().unwrap();
        assert_eq!(parts[0], Value::Integer(m.tag().into()));
    }
    let v = as_cbor(&Message::Difference(-77).encode());
    assert_eq!(v.as_array().unwrap()[1], Value::Integer((-77).into()));
    let v = as_cbor(&Message::NodeList(vec!["n\u{f6}de".to_string()]).encode());
    assert_eq!(v.as_array().unwrap()[1], Value::Array(vec![Value::Text("n\u{f6}de".to_string())]));
    let v = as_cbor(&Message::TemplateValidity(false).encode());
    assert_eq!(v.as_array().unwrap()[1], Value::Bool(false));
}

#[test]
fn hash_of_a_value_is_the_hash_of_its_encoding() {
    let t = sample_transaction();
    assert_eq!(t.hash(), btclib::sha256::Hash::hash(&encode(&t)));
    let o = sample_output(1);
    assert_eq!(o.hash(), btclib::sha256::Hash::hash(&encode(&o)));
    let b = sample_block();
    assert_eq!(b.hash(), btclib::sha256::Hash::hash(&encode(&b.header)));
    assert_eq!(b.header.hash(), b.hash());
    assert_ne!(sample_output(1).hash(), sample_output(2).hash());
}

#[test]
fn frame_is_the_length_then_the_encoding() {
    for (m, again) in all_messages().into_iter().zip(all_messages()) {
        let payload = m.encode();
        let frame = m.to_frame();
        assert_eq!(&frame[..8], &(payload.len() as u64).to_be_bytes());
        assert_eq!(&frame[8..], &payload[..]);
        assert_eq!(frame_length(&frame[..8]), Ok(payload.len()));
        assert_eq!(Message::from_frame(&frame), Ok(again));
    }
}

#[test]
fn broken_frames_are_protocol_errors() {
    let frame = Message::DiscoverNodes.to_frame();
    assert_eq!(Message::from_frame(&frame[..7]), Err(BtcError::Protocol));
    assert_eq!(Message::from_frame(&frame[..frame.len() - 1]), Err(BtcError::Protocol));
    let mut longer = frame.clone();
    longer.push(0);
    assert_eq!(Message::from_frame(&longer), Err(BtcError::Protocol));
    let mut garbage = frame.clone();
    garbage[8] = 0;
    assert_eq!(Message::from_frame(&garbage), Err(BtcError::Codec));
}

#[test]
fn frame_length_is_capped_at_eight_mebibytes() {
    assert_eq!(MAX_FRAME_LENGTH, 8 * 1024 * 1024);
    assert_eq!(frame_length(&MAX_FRAME_LENGTH.to_be_bytes()), Ok(8 * 1024 * 1024));
    assert_eq!(frame_length(&(MAX_FRAME_LENGTH + 1).to_be_bytes()), Err(BtcError::Protocol));
    assert_eq!(frame_length(&u64::MAX.to_be_bytes()), Err(BtcError::Protocol));
    assert_eq!(frame_length(&0u64.to_be_bytes()), Ok(0));
    let mut frame = (MAX_FRAME_LENGTH + 1).to_be_bytes().to_vec();
    frame.push(0);
    assert_eq!(Message::from_frame(&frame), Err(BtcError::Protocol));
}

#[test]
fn chain_is_loaded_as_it_was_saved_without_its_pool() {
    let private = PrivateKey(U256::from_u64(3));
    let coin = sample_output(1);
    let other = sample_output(2);
    let mut chain = Blockchain::from_snapshot(Snapshot {
        utxos: vec![
            UtxoEntry { hash: coin.hash(), output: coin, marked: false },
            UtxoEntry { hash: other.hash(), output: other, marked: true },
        ],
        blocks: vec![sample_block()],
        target: U256::from_u64(99),
    })
    .unwrap();
    let h = coin.hash();
    let spend = Transaction::new(
        vec![TransactionInput {
            prev_transaction_output_hash: h,
            signature: Signature::sign_output(&h, &private).unwrap(),
        }],
        vec![],
    );
    assert_eq!(chain.add_to_mempool_at(spend, 10), Ok(()));
    let bytes = chain.save();
    let loaded = Blockchain::load(&bytes).unwrap();
    assert_eq!(loaded.snapshot(), chain.snapshot());
    assert_eq!(loaded.blocks(), chain.blocks());
    assert_eq!(loaded.target(), U256::from_u64(99));
    assert_eq!(loaded.utxos().to_entries(), chain.utxos().to_entries());
    assert!(loaded.utxos().get(&h).unwrap().1);
    assert!(loaded.mempool().is_empty());
    assert_eq!(loaded.save(), bytes);
}

#[test]
fn snapshot_that_makes_no_chain_is_a_codec_error() {
    let coin = sample_output(1);
    let entry = UtxoEntry { hash: coin.hash(), output: coin, marked: false };
    let twice = Snapshot { utxos: vec![entry, entry], blocks: vec![], target: U256::zero() };
    assert_eq!(Blockchain::load(&encode(&twice)).err(), Some(BtcError::Codec));
    assert_eq!(Blockchain::from_snapshot(twice).err(), Some(BtcError::Codec));
    let easy = Snapshot {
        utxos: vec![],
        blocks: vec![],
        target: U256 { w3: 0x100, w2: 0, w1: 0, w0: 0 },
    };
    assert_eq!(Blockchain::from_snapshot(easy).err(), Some(BtcError::Codec));
    let greatest = Snapshot { utxos: vec![], blocks: vec![], target: btclib::min_target() };
    assert!(Blockchain::from_snapshot(greatest).is_ok());
    assert_eq!(Blockchain::load(&[1, 2, 3]).err(), Some(BtcError::Codec));
}
