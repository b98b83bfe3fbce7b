//! The messages that nodes, miners and wallets exchange, their encoding, and
//! the frames in which they travel: the length of the encoding in eight
//! bytes, most significant first, then the encoding.
use crate::codec::{
    enc_array, enc_bool, enc_head, enc_public_key, enc_u64, lemma_array_round_trip,
    lemma_bool_round_trip, lemma_head_round_trip, lemma_public_key_round_trip, parse_array,
    parse_bool, parse_head, parse_public_key, parse_u64, read_array, read_bool, read_head,
    read_public_key, read_u64, spec_decode, views, write_array, write_bool, write_head,
    write_public_key, write_u64, Canonical, TAG_ARRAY, TAG_NEGATIVE, TAG_UINT,
};
use crate::crypto::PublicKey;
use crate::error::BtcError;
use crate::types::block::{Block, BlockView};
use crate::types::transaction::{Transaction, TransactionOutput, TransactionView};
use crate::u256::{lemma_u64_be_round_trip, push_u64_be, read_u64_be, u64_from_be, u64_to_be};
use vstd::prelude::*;
use vstd::utf8::{decode_utf8, encode_utf8, valid_utf8};

verus! {

/// Tag of a text; the head holds the number of bytes of its UTF-8 form.
pub const TAG_TEXT: u8 = 0x7b;

/// The greatest length of the encoding of a message in a frame: 8 MiB.
pub const MAX_FRAME_LENGTH: u64 = 8_388_608;

/// Calls `String::from_utf8`, which returns the string whose UTF-8 form the
/// bytes are, and fails where they are the UTF-8 form of none.
#[verifier::external_body]
fn string_from_utf8(bytes: Vec<u8>) -> (r: Option<String>)
    ensures
        r is Some == valid_utf8(bytes@),
        r matches Some(s) ==> s@ == decode_utf8(bytes@),
{
    String::from_utf8(bytes).ok()
}

/// A text: its head, then its UTF-8 form.
pub open spec fn enc_text(chars: Seq<char>) -> Seq<u8> {
    enc_head(TAG_TEXT, encode_utf8(chars).len() as u64) + encode_utf8(chars)
}

pub open spec fn parse_text(s: Seq<u8>) -> Option<(Seq<char>, Seq<u8>)> {
    match parse_head(TAG_TEXT, s) {
        Some((n, rest)) => if rest.len() >= n && valid_utf8(rest.take(n as int)) {
            Some((decode_utf8(rest.take(n as int)), rest.skip(n as int)))
        } else {
            None
        },
        None => None,
    }
}

/// A signed 32-bit number: an unsigned number where it is not negative, else
/// a negative one.
pub open spec fn enc_i32(x: i32) -> Seq<u8> {
    if x >= 0 {
        enc_head(TAG_UINT, x as u64)
    } else {
        enc_head(TAG_NEGATIVE, (-1 - x) as u64)
    }
}

pub open spec fn parse_i32(s: Seq<u8>) -> Option<(i32, Seq<u8>)> {
    match parse_head(TAG_UINT, s) {
        Some((n, rest)) => if n <= i32::MAX {
            Some((n as i32, rest))
        } else {
            None
        },
        None => match parse_head(TAG_NEGATIVE, s) {
            Some((n, rest)) => if n <= i32::MAX {
                Some(((-1 - n) as i32, rest))
            } else {
                None
            },
            None => None,
        },
    }
}

pub proof fn lemma_i32_round_trip(x: i32, rest: Seq<u8>)
    ensures
        parse_i32(enc_i32(x) + rest) == Some((x, rest)),
{
    if x >= 0 {
        lemma_head_round_trip(TAG_UINT, x as u64, rest);
    } else {
        lemma_head_round_trip(TAG_NEGATIVE, (-1 - x) as u64, rest);
        assert((enc_head(TAG_NEGATIVE, (-1 - x) as u64) + rest)[0] == TAG_NEGATIVE);
    }
}

pub fn write_i32(out: &mut Vec<u8>, x: i32)
    ensures
        final(out)@ == old(out)@ + enc_i32(x),
{
    if x >= 0 {
        write_head(out, TAG_UINT, x as u64);
    } else {
        write_head(out, TAG_NEGATIVE, (-1 - x as i64) as u64);
    }
}

pub fn read_i32(data: &[u8], pos: usize) -> (r: Option<(i32, usize)>)
    requires
        pos <= data@.len(),
    ensures
        match r {
            Some((x, next)) => pos <= next <= data@.len() && parse_i32(data@.skip(pos as int))
                == Some((x, data@.skip(next as int))),
            None => parse_i32(data@.skip(pos as int)) is None,
        },
{
    match read_head(data, pos, TAG_UINT) {
        Some((n, next)) => {
            if n <= 0x7FFF_FFFF {
                Some((n as i32, next))
            } else {
                None
            }
        },
        None => match read_head(data, pos, TAG_NEGATIVE) {
            Some((n, next)) => {
                if n <= 0x7FFF_FFFF {
                    Some(((-1 - n as i64) as i32, next))
                } else {
                    None
                }
            },
            None => None,
        },
    }
}

impl Canonical for String {
    open spec fn spec_valid(v: Seq<char>) -> bool {
        encode_utf8(v).len() <= usize::MAX
    }

    open spec fn spec_encode(v: Seq<char>) -> Seq<u8> {
        enc_text(v)
    }

    open spec fn spec_parse(s: Seq<u8>) -> Option<(Seq<char>, Seq<u8>)> {
        parse_text(s)
    }

    proof fn lemma_round_trip(v: Seq<char>, rest: Seq<u8>) {
        let bytes = encode_utf8(v);
        assert(enc_text(v) + rest =~= enc_head(TAG_TEXT, bytes.len() as u64) + (bytes + rest));
        lemma_head_round_trip(TAG_TEXT, bytes.len() as u64, bytes + rest);
        assert((bytes + rest).take(bytes.len() as int) =~= bytes);
        assert((bytes + rest).skip(bytes.len() as int) =~= rest);
        vstd::utf8::encode_utf8_valid_utf8(v);
        vstd::utf8::encode_utf8_decode_utf8(v);
    }

    fn encode_into(&self, out: &mut Vec<u8>) {
        let bytes = self.as_str().as_bytes();
        let n: usize = bytes.len();
        write_head(out, TAG_TEXT, n as u64);
        let ghost start = out@;
        let mut i: usize = 0;
        while i < n
            invariant
                i <= n,
                n == bytes@.len(),
                out@ == start + bytes@.take(i as int),
            decreases n - i,
        {
            out.push(bytes[i]);
            assert(out@ =~= start + bytes@.take(i + 1));
            i += 1;
        }
        assert(bytes@.take(i as int) =~= bytes@);
        assert(out@ =~= old(out)@ + enc_text(self@));
    }

    fn decode_at(data: &[u8], pos: usize) -> (r: Option<(Self, usize)>) {
        let total: usize = data.len();
        let (n, start) = match read_head(data, pos, TAG_TEXT) {
            Some(x) => x,
            None => { return None; },
        };
        if n > (total - start) as u64 {
            return None;
        }
        let len: usize = n as usize;
        let mut bytes: Vec<u8> = Vec::new();
        let mut i: usize = 0;
        while i < len
            invariant
                i <= len,
                start + len <= data@.len(),
                bytes@ == data@.subrange(start as int, start + i),
            decreases len - i,
        {
            bytes.push(data[start + i]);
            assert(bytes@ =~= data@.subrange(start as int, start + i + 1));
            i += 1;
        }
        proof {
            let rest = data@.skip(start as int);
            assert(rest.take(n as int) =~= bytes@);
            assert(rest.skip(n as int) =~= data@.skip(start + len));
        }
        match string_from_utf8(bytes) {
            Some(s) => Some((s, start + len)),
            None => None,
        }
    }
}

impl Canonical for (bool, TransactionOutput) {
    open spec fn spec_valid(v: (bool, TransactionOutput)) -> bool {
        true
    }

    /// An array of the mark and the output.
    open spec fn spec_encode(v: (bool, TransactionOutput)) -> Seq<u8> {
        enc_head(TAG_ARRAY, 2) + enc_bool(v.0) + TransactionOutput::spec_encode(v.1)
    }

    open spec fn spec_parse(s: Seq<u8>) -> Option<((bool, TransactionOutput), Seq<u8>)> {
        match parse_head(TAG_ARRAY, s) {
            Some((n, r0)) => match parse_bool(r0) {
                Some((marked, r1)) => match TransactionOutput::spec_parse(r1) {
                    Some((output, r2)) => if n == 2 {
                        Some(((marked, output), r2))
                    } else {
                        None
                    },
                    None => None,
                },
                None => None,
            },
            None => None,
        }
    }

    proof fn lemma_round_trip(v: (bool, TransactionOutput), rest: Seq<u8>) {
        let e2 = TransactionOutput::spec_encode(v.1) + rest;
        let e1 = enc_bool(v.0) + e2;
        assert(Self::spec_encode(v) + rest =~= enc_head(TAG_ARRAY, 2) + e1);
        lemma_head_round_trip(TAG_ARRAY, 2, e1);
        lemma_bool_round_trip(v.0, e2);
        TransactionOutput::lemma_round_trip(v.1, rest);
    }

    fn encode_into(&self, out: &mut Vec<u8>) {
        write_head(out, TAG_ARRAY, 2);
        write_bool(out, self.0);
        self.1.encode_into(out);
        assert(out@ =~= old(out)@ + Self::spec_encode(self@));
    }

    fn decode_at(data: &[u8], pos: usize) -> (r: Option<(Self, usize)>) {
        let (n, at0) = match read_head(data, pos, TAG_ARRAY) {
            Some(x) => x,
            None => { return None; },
        };
        let (marked, at1) = match read_bool(data, at0) {
            Some(x) => x,
            None => { return None; },
        };
        let (output, at2) = match TransactionOutput::decode_at(data, at1) {
            Some(x) => x,
            None => { return None; },
        };
        if n != 2 {
            return None;
        }
        Some(((marked, output), at2))
    }
}

/// A message.
#[derive(Debug, PartialEq, Eq)]
pub enum Message {
    /// Asks for the unspent outputs of a public key.
    FetchUTXOs(PublicKey),
    /// The unspent outputs of a public key, each with its mark.
    UTXOs(Vec<(bool, TransactionOutput)>),
    /// Hands a transaction to a node.
    SubmitTransaction(Transaction),
    /// Tells other nodes of a transaction.
    NewTransaction(Transaction),
    /// Asks for a block to mine, whose coinbase pays the public key.
    FetchTemplate(PublicKey),
    /// A block to mine.
    Template(Block),
    /// Asks whether a block to mine can still be appended.
    ValidateTemplate(Block),
    /// Whether a block to mine can still be appended.
    TemplateValidity(bool),
    /// Hands a mined block to a node.
    SubmitTemplate(Block),
    /// Asks for the nodes that a node knows of.
    DiscoverNodes,
    /// The addresses of the nodes that a node knows of.
    NodeList(Vec<String>),
    /// Asks by how many blocks a node's chain is longer than the given
    /// height.
    AskDifference(i32),
    /// By how many blocks a node's chain is longer.
    Difference(i32),
    /// Asks for the block at a height.
    FetchBlock(usize),
    /// Tells other nodes of a block.
    NewBlock(Block),
}

/// What a message holds.
pub enum MessageView {
    FetchUTXOs(PublicKey),
    UTXOs(Seq<(bool, TransactionOutput)>),
    SubmitTransaction(TransactionView),
    NewTransaction(TransactionView),
    FetchTemplate(PublicKey),
    Template(BlockView),
    ValidateTemplate(BlockView),
    TemplateValidity(bool),
    SubmitTemplate(BlockView),
    DiscoverNodes,
    NodeList(Seq<Seq<char>>),
    AskDifference(i32),
    Difference(i32),
    FetchBlock(usize),
    NewBlock(BlockView),
}

impl View for Message {
    type V = MessageView;

    open spec fn view(&self) -> MessageView {
        match self {
            Message::FetchUTXOs(key) => MessageView::FetchUTXOs(*key),
            Message::UTXOs(list) => MessageView::UTXOs(views(list@)),
            Message::SubmitTransaction(tx) => MessageView::SubmitTransaction(tx@),
            Message::NewTransaction(tx) => MessageView::NewTransaction(tx@),
            Message::FetchTemplate(key) => MessageView::FetchTemplate(*key),
            Message::Template(block) => MessageView::Template(block@),
            Message::ValidateTemplate(block) => MessageView::ValidateTemplate(block@),
            Message::TemplateValidity(ok) => MessageView::TemplateValidity(*ok),
            Message::SubmitTemplate(block) => MessageView::SubmitTemplate(block@),
            Message::DiscoverNodes => MessageView::DiscoverNodes,
            Message::NodeList(list) => MessageView::NodeList(views(list@)),
            Message::AskDifference(n) => MessageView::AskDifference(*n),
            Message::Difference(n) => MessageView::Difference(*n),
            Message::FetchBlock(n) => MessageView::FetchBlock(*n),
            Message::NewBlock(block) => MessageView::NewBlock(block@),
        }
    }
}

/// The number that stands for the kind of a message on the wire.
pub open spec fn wire_tag(m: MessageView) -> u64 {
    match m {
        MessageView::FetchUTXOs(_) => 0,
        MessageView::UTXOs(_) => 1,
        MessageView::SubmitTransaction(_) => 2,
        MessageView::NewTransaction(_) => 3,
        MessageView::FetchTemplate(_) => 4,
        MessageView::Template(_) => 5,
        MessageView::ValidateTemplate(_) => 6,
        MessageView::TemplateValidity(_) => 7,
        MessageView::SubmitTemplate(_) => 8,
        MessageView::DiscoverNodes => 9,
        MessageView::NodeList(_) => 10,
        MessageView::AskDifference(_) => 11,
        MessageView::Difference(_) => 12,
        MessageView::FetchBlock(_) => 13,
        MessageView::NewBlock(_) => 14,
    }
}

/// What a message of a kind carries, encoded.
pub open spec fn enc_payload(m: MessageView) -> Seq<u8> {
    match m {
        MessageView::FetchUTXOs(key) => enc_public_key(key),
        MessageView::UTXOs(list) => enc_array::<(bool, TransactionOutput)>(list),
        MessageView::SubmitTransaction(tx) => Transaction::spec_encode(tx),
        MessageView::NewTransaction(tx) => Transaction::spec_encode(tx),
        MessageView::FetchTemplate(key) => enc_public_key(key),
        MessageView::Template(block) => Block::spec_encode(block),
        MessageView::ValidateTemplate(block) => Block::spec_encode(block),
        MessageView::TemplateValidity(ok) => enc_bool(ok),
        MessageView::SubmitTemplate(block) => Block::spec_encode(block),
        MessageView::DiscoverNodes => enc_head(TAG_ARRAY, 0),
        MessageView::NodeList(list) => enc_array::<String>(list),
        MessageView::AskDifference(n) => enc_i32(n),
        MessageView::Difference(n) => enc_i32(n),
        MessageView::FetchBlock(n) => enc_u64(n as u64),
        MessageView::NewBlock(block) => Block::spec_encode(block),
    }
}

/// A block read from the front of `s`, made into a message by `wrap`.
pub open spec fn parse_block_payload(s: Seq<u8>, tag: u64) -> Option<(MessageView, Seq<u8>)> {
    match Block::spec_parse(s) {
        Some((block, rest)) => Some(
            (
                if tag == 5 {
                    MessageView::Template(block)
                } else if tag == 6 {
                    MessageView::ValidateTemplate(block)
                } else if tag == 8 {
                    MessageView::SubmitTemplate(block)
                } else {
                    MessageView::NewBlock(block)
                },
                rest,
            ),
        ),
        None => None,
    }
}

/// A public key read from the front of `s`, as a message of the kind `tag`.
pub open spec fn parse_key_payload(s: Seq<u8>, tag: u64) -> Option<(MessageView, Seq<u8>)> {
    match parse_public_key(s) {
        Some((key, rest)) => Some(
            (
                if tag == 0 {
                    MessageView::FetchUTXOs(key)
                } else {
                    MessageView::FetchTemplate(key)
                },
                rest,
            ),
        ),
        None => None,
    }
}

/// A transaction read from the front of `s`, as a message of the kind `tag`.
pub open spec fn parse_transaction_payload(s: Seq<u8>, tag: u64) -> Option<(MessageView, Seq<u8>)> {
    match Transaction::spec_parse(s) {
        Some((tx, rest)) => Some(
            (
                if tag == 2 {
                    MessageView::SubmitTransaction(tx)
                } else {
                    MessageView::NewTransaction(tx)
                },
                rest,
            ),
        ),
        None => None,
    }
}

/// A list read from the front of `s`, as a message of the kind `tag`.
pub open spec fn parse_list_payload(s: Seq<u8>, tag: u64) -> Option<(MessageView, Seq<u8>)> {
    if tag == 1 {
        match parse_array::<(bool, TransactionOutput)>(s) {
            Some((list, rest)) => Some((MessageView::UTXOs(list), rest)),
            None => None,
        }
    } else {
        match parse_array::<String>(s) {
            Some((list, rest)) => Some((MessageView::NodeList(list), rest)),
            None => None,
        }
    }
}

/// A number, a truth value or nothing read from the front of `s`, as a
/// message of the kind `tag`.
pub open spec fn parse_plain_payload(s: Seq<u8>, tag: u64) -> Option<(MessageView, Seq<u8>)> {
    if tag == 7 {
        match parse_bool(s) {
            Some((ok, rest)) => Some((MessageView::TemplateValidity(ok), rest)),
            None => None,
        }
    } else if tag == 9 {
        match parse_head(TAG_ARRAY, s) {
            Some((n, rest)) => if n == 0 {
                Some((MessageView::DiscoverNodes, rest))
            } else {
                None
            },
            None => None,
        }
    } else if tag == 13 {
        match parse_u64(s) {
            Some((n, rest)) => if n <= usize::MAX {
                Some((MessageView::FetchBlock(n as usize), rest))
            } else {
                None
            },
            None => None,
        }
    } else {
        match parse_i32(s) {
            Some((n, rest)) => Some(
                (
                    if tag == 11 {
                        MessageView::AskDifference(n)
                    } else {
                        MessageView::Difference(n)
                    },
                    rest,
                ),
            ),
            None => None,
        }
    }
}

/// Reads what a message of the kind `tag` carries from the front of `s`.
pub open spec fn parse_payload(tag: u64, s: Seq<u8>) -> Option<(MessageView, Seq<u8>)> {
    if tag == 0 || tag == 4 {
        parse_key_payload(s, tag)
    } else if tag == 1 || tag == 10 {
        parse_list_payload(s, tag)
    } else if tag == 2 || tag == 3 {
        parse_transaction_payload(s, tag)
    } else if tag == 5 || tag == 6 || tag == 8 || tag == 14 {
        parse_block_payload(s, tag)
    } else if tag == 7 || tag == 9 || tag == 11 || tag == 12 || tag == 13 {
        parse_plain_payload(s, tag)
    } else {
        None
    }
}

/// Whether what a message carries is valid.
pub open spec fn payload_valid(m: MessageView) -> bool {
    match m {
        MessageView::UTXOs(list) => list.len() <= usize::MAX,
        MessageView::SubmitTransaction(tx) => Transaction::spec_valid(tx),
        MessageView::NewTransaction(tx) => Transaction::spec_valid(tx),
        MessageView::Template(block) => Block::spec_valid(block),
        MessageView::ValidateTemplate(block) => Block::spec_valid(block),
        MessageView::SubmitTemplate(block) => Block::spec_valid(block),
        MessageView::NodeList(list) => list.len() <= usize::MAX && crate::codec::all_valid::<String>(
            list,
        ),
        MessageView::NewBlock(block) => Block::spec_valid(block),
        _ => true,
    }
}

/// What a message carries is read back.
pub proof fn lemma_payload_round_trip(m: MessageView, rest: Seq<u8>)
    requires
        payload_valid(m),
    ensures
        parse_payload(wire_tag(m), enc_payload(m) + rest) == Some((m, rest)),
{
    match m {
        MessageView::FetchUTXOs(key) => {
            lemma_public_key_round_trip(key, rest);
        },
        MessageView::UTXOs(list) => {
            lemma_array_round_trip::<(bool, TransactionOutput)>(list, rest);
        },
        MessageView::SubmitTransaction(tx) => {
            Transaction::lemma_round_trip(tx, rest);
        },
        MessageView::NewTransaction(tx) => {
            Transaction::lemma_round_trip(tx, rest);
        },
        MessageView::FetchTemplate(key) => {
            lemma_public_key_round_trip(key, rest);
        },
        MessageView::Template(block) => {
            Block::lemma_round_trip(block, rest);
        },
        MessageView::ValidateTemplate(block) => {
            Block::lemma_round_trip(block, rest);
        },
        MessageView::TemplateValidity(ok) => {
            lemma_bool_round_trip(ok, rest);
        },
        MessageView::SubmitTemplate(block) => {
            Block::lemma_round_trip(block, rest);
        },
        MessageView::DiscoverNodes => {
            lemma_head_round_trip(TAG_ARRAY, 0, rest);
        },
        MessageView::NodeList(list) => {
            lemma_array_round_trip::<String>(list, rest);
        },
        MessageView::AskDifference(n) => {
            lemma_i32_round_trip(n, rest);
        },
        MessageView::Difference(n) => {
            lemma_i32_round_trip(n, rest);
        },
        MessageView::FetchBlock(n) => {
            lemma_head_round_trip(TAG_UINT, n as u64, rest);
        },
        MessageView::NewBlock(block) => {
            Block::lemma_round_trip(block, rest);
        },
    }
}

impl Canonical for Message {
    open spec fn spec_valid(v: MessageView) -> bool {
        payload_valid(v)
    }

    /// An array of the kind and what the message carries.
    open spec fn spec_encode(v: MessageView) -> Seq<u8> {
        enc_head(TAG_ARRAY, 2) + enc_u64(wire_tag(v)) + enc_payload(v)
    }

    open spec fn spec_parse(s: Seq<u8>) -> Option<(MessageView, Seq<u8>)> {
        match parse_head(TAG_ARRAY, s) {
            Some((n, r0)) => match parse_u64(r0) {
                Some((tag, r1)) => if n == 2 {
                    parse_payload(tag, r1)
                } else {
                    None
                },
                None => None,
            },
            None => None,
        }
    }

    proof fn lemma_round_trip(v: MessageView, rest: Seq<u8>) {
        let e2 = enc_payload(v) + rest;
        let e1 = enc_u64(wire_tag(v)) + e2;
        assert(Self::spec_encode(v) + rest =~= enc_head(TAG_ARRAY, 2) + e1);
        lemma_head_round_trip(TAG_ARRAY, 2, e1);
        lemma_head_round_trip(TAG_UINT, wire_tag(v), e2);
        lemma_payload_round_trip(v, rest);
    }

    fn encode_into(&self, out: &mut Vec<u8>) {
        write_head(out, TAG_ARRAY, 2);
        write_u64(out, self.tag());
        self.encode_payload(out);
        assert(out@ =~= old(out)@ + Self::spec_encode(self@));
    }

    fn decode_at(data: &[u8], pos: usize) -> (r: Option<(Self, usize)>) {
        let (n, at0) = match read_head(data, pos, TAG_ARRAY) {
            Some(x) => x,
            None => { return None; },
        };
        let (tag, at1) = match read_u64(data, at0) {
            Some(x) => x,
            None => { return None; },
        };
        if n != 2 {
            return None;
        }
        decode_payload(data, at1, tag)
    }
}

/// Reads what a message that carries a public key carries at `pos`.
fn decode_key_payload(data: &[u8], pos: usize, tag: u64) -> (r: Option<(Message, usize)>)
    requires
        pos <= data@.len(),
        tag == 0 || tag == 4,
    ensures
        match r {
            Some((m, next)) => pos <= next <= data@.len() && parse_payload(
                tag,
                data@.skip(pos as int),
            ) == Some((m@, data@.skip(next as int))),
            None => parse_payload(tag, data@.skip(pos as int)) is None,
        },
{
    match read_public_key(data, pos) {
        Some((key, next)) => Some(
            (
                if tag == 0 {
                    Message::FetchUTXOs(key)
                } else {
                    Message::FetchTemplate(key)
                },
                next,
            ),
        ),
        None => None,
    }
}

/// Reads what a message that carries a transaction carries at `pos`.
fn decode_transaction_payload(data: &[u8], pos: usize, tag: u64) -> (r: Option<(Message, usize)>)
    requires
        pos <= data@.len(),
        tag == 2 || tag == 3,
    ensures
        match r {
            Some((m, next)) => pos <= next <= data@.len() && parse_payload(
                tag,
                data@.skip(pos as int),
            ) == Some((m@, data@.skip(next as int))),
            None => parse_payload(tag, data@.skip(pos as int)) is None,
        },
{
    match Transaction::decode_at(data, pos) {
        Some((tx, next)) => Some(
            (
                if tag == 2 {
                    Message::SubmitTransaction(tx)
                } else {
                    Message::NewTransaction(tx)
                },
                next,
            ),
        ),
        None => None,
    }
}

/// Reads what a message that carries a block carries at `pos`.
fn decode_block_payload(data: &[u8], pos: usize, tag: u64) -> (r: Option<(Message, usize)>)
    requires
        pos <= data@.len(),
        tag == 5 || tag == 6 || tag == 8 || tag == 14,
    ensures
        match r {
            Some((m, next)) => pos <= next <= data@.len() && parse_block_payload(data@.skip(pos as int), tag) == Some((m@, data@.skip(next as int))),
            None => parse_block_payload(data@.skip(pos as int), tag) is None,
        },
{
    let (block, next) = match Block::decode_at(data, pos) {
        Some(x) => x,
        None => { return None; },
    };
    let ghost held = block@;
    let m = wrap_block(block, tag);
    Some((m, next))
}

/// The message of the kind `tag` that carries the block.
fn wrap_block(block: Block, tag: u64) -> (m: Message)
    requires
        tag == 5 || tag == 6 || tag == 8 || tag == 14,
    ensures
        m@ == if tag == 5 {
            MessageView::Template(block@)
        } else if tag == 6 {
            MessageView::ValidateTemplate(block@)
        } else if tag == 8 {
            MessageView::SubmitTemplate(block@)
        } else {
            MessageView::NewBlock(block@)
        },
{
    if tag == 5 {
        Message::Template(block)
    } else if tag == 6 {
        Message::ValidateTemplate(block)
    } else if tag == 8 {
        Message::SubmitTemplate(block)
    } else {
        Message::NewBlock(block)
    }
}

/// Reads what a message that carries a list carries at `pos`.
fn decode_list_payload(data: &[u8], pos: usize, tag: u64) -> (r: Option<(Message, usize)>)
    requires
        pos <= data@.len(),
        tag == 1 || tag == 10,
    ensures
        match r {
            Some((m, next)) => pos <= next <= data@.len() && parse_payload(
                tag,
                data@.skip(pos as int),
            ) == Some((m@, data@.skip(next as int))),
            None => parse_payload(tag, data@.skip(pos as int)) is None,
        },
{
    if tag == 1 {
        match read_array::<(bool, TransactionOutput)>(data, pos) {
            Some((list, next)) => Some((Message::UTXOs(list), next)),
            None => None,
        }
    } else {
        match read_array::<String>(data, pos) {
            Some((list, next)) => Some((Message::NodeList(list), next)),
            None => None,
        }
    }
}

/// Reads what a message that carries a number, a truth value or nothing
/// carries at `pos`.
fn decode_plain_payload(data: &[u8], pos: usize, tag: u64) -> (r: Option<(Message, usize)>)
    requires
        pos <= data@.len(),
        tag == 7 || tag == 9 || tag == 11 || tag == 12 || tag == 13,
    ensures
        match r {
            Some((m, next)) => pos <= next <= data@.len() && parse_payload(
                tag,
                data@.skip(pos as int),
            ) == Some((m@, data@.skip(next as int))),
            None => parse_payload(tag, data@.skip(pos as int)) is None,
        },
{
    if tag == 7 {
        match read_bool(data, pos) {
            Some((ok, next)) => Some((Message::TemplateValidity(ok), next)),
            None => None,
        }
    } else if tag == 9 {
        match read_head(data, pos, TAG_ARRAY) {
            Some((n, next)) => {
                if n == 0 {
                    Some((Message::DiscoverNodes, next))
                } else {
                    None
                }
            },
            None => None,
        }
    } else if tag == 13 {
        match read_u64(data, pos) {
            Some((n, next)) => {
                if n <= usize::MAX as u64 {
                    Some((Message::FetchBlock(n as usize), next))
                } else {
                    None
                }
            },
            None => None,
        }
    } else {
        match read_i32(data, pos) {
            Some((n, next)) => Some(
                (
                    if tag == 11 {
                        Message::AskDifference(n)
                    } else {
                        Message::Difference(n)
                    },
                    next,
                ),
            ),
            None => None,
        }
    }
}

/// Reads what a message of the kind `tag` carries at `pos`.
fn decode_payload(data: &[u8], pos: usize, tag: u64) -> (r: Option<(Message, usize)>)
    requires
        pos <= data@.len(),
    ensures
        match r {
            Some((m, next)) => pos <= next <= data@.len() && parse_payload(
                tag,
                data@.skip(pos as int),
            ) == Some((m@, data@.skip(next as int))),
            None => parse_payload(tag, data@.skip(pos as int)) is None,
        },
{
    if tag == 0 || tag == 4 {
        decode_key_payload(data, pos, tag)
    } else if tag == 1 || tag == 10 {
        decode_list_payload(data, pos, tag)
    } else if tag == 2 || tag == 3 {
        decode_transaction_payload(data, pos, tag)
    } else if tag == 5 || tag == 6 || tag == 8 || tag == 14 {
        decode_block_payload(data, pos, tag)
    } else if tag == 7 || tag == 9 || tag == 11 || tag == 12 || tag == 13 {
        decode_plain_payload(data, pos, tag)
    } else {
        None
    }
}

/// The frame of an encoding: its length in eight bytes, most significant
/// first, then the encoding.
pub open spec fn spec_frame(payload: Seq<u8>) -> Seq<u8> {
    u64_to_be(payload.len() as u64) + payload
}

/// What the reading of a frame returns: the message that the frame holds
/// the encoding of; `Protocol` where the frame has no length, the length is
/// over the limit, or the frame is longer or shorter than its length says;
/// `Codec` where what the frame holds is the encoding of no message.
pub open spec fn spec_from_frame(frame: Seq<u8>) -> Result<MessageView, BtcError> {
    if frame.len() < 8 {
        Err(BtcError::Protocol)
    } else {
        let n = u64_from_be(frame.subrange(0, 8));
        if n > MAX_FRAME_LENGTH || frame.len() != 8 + n {
            Err(BtcError::Protocol)
        } else {
            match spec_decode::<Message>(frame.skip(8)) {
                Some(m) => Ok(m),
                None => Err(BtcError::Codec),
            }
        }
    }
}

/// The frame of a message is read back as the message, where its encoding
/// is not over the limit.
pub proof fn lemma_frame_round_trip(m: MessageView)
    requires
        Message::spec_valid(m),
        Message::spec_encode(m).len() <= MAX_FRAME_LENGTH,
    ensures
        spec_from_frame(spec_frame(Message::spec_encode(m))) == Ok::<MessageView, BtcError>(m),
{
    let payload = Message::spec_encode(m);
    let frame = spec_frame(payload);
    lemma_u64_be_round_trip(payload.len() as u64);
    assert(frame.subrange(0, 8) =~= u64_to_be(payload.len() as u64));
    assert(frame.skip(8) =~= payload);
    crate::codec::lemma_decode_encode::<Message>(m);
}

/// The length that the first eight bytes of a frame give for the encoding
/// that follows; `Protocol` where it is over the limit.
pub fn frame_length(prefix: &[u8]) -> (r: Result<usize, BtcError>)
    requires
        prefix@.len() == 8,
    ensures
        match r {
            Ok(n) => n == u64_from_be(prefix@) && n <= MAX_FRAME_LENGTH,
            Err(e) => e == BtcError::Protocol && u64_from_be(prefix@) > MAX_FRAME_LENGTH,
        },
{
    assert(prefix@.subrange(0, 8) =~= prefix@);
    let n = read_u64_be(prefix, 0);
    if n > MAX_FRAME_LENGTH {
        Err(BtcError::Protocol)
    } else {
        Ok(n as usize)
    }
}

impl Message {
    /// The number that stands for the kind of the message on the wire.
    pub fn tag(&self) -> (tag: u64)
        ensures
            tag == wire_tag(self@),
    {
        match self {
            Message::FetchUTXOs(_) => 0,
            Message::UTXOs(_) => 1,
            Message::SubmitTransaction(_) => 2,
            Message::NewTransaction(_) => 3,
            Message::FetchTemplate(_) => 4,
            Message::Template(_) => 5,
            Message::ValidateTemplate(_) => 6,
            Message::TemplateValidity(_) => 7,
            Message::SubmitTemplate(_) => 8,
            Message::DiscoverNodes => 9,
            Message::NodeList(_) => 10,
            Message::AskDifference(_) => 11,
            Message::Difference(_) => 12,
            Message::FetchBlock(_) => 13,
            Message::NewBlock(_) => 14,
        }
    }

    /// Appends what the message carries.
    fn encode_payload(&self, out: &mut Vec<u8>)
        ensures
            final(out)@ == old(out)@ + enc_payload(self@),
            payload_valid(self@),
    {
        match self {
            Message::FetchUTXOs(key) => write_public_key(out, key),
            Message::UTXOs(list) => write_array(out, list),
            Message::SubmitTransaction(tx) => tx.encode_into(out),
            Message::NewTransaction(tx) => tx.encode_into(out),
            Message::FetchTemplate(key) => write_public_key(out, key),
            Message::Template(block) => block.encode_into(out),
            Message::ValidateTemplate(block) => block.encode_into(out),
            Message::TemplateValidity(ok) => write_bool(out, *ok),
            Message::SubmitTemplate(block) => block.encode_into(out),
            Message::DiscoverNodes => write_head(out, TAG_ARRAY, 0),
            Message::NodeList(list) => write_array(out, list),
            Message::AskDifference(n) => write_i32(out, *n),
            Message::Difference(n) => write_i32(out, *n),
            Message::FetchBlock(n) => write_u64(out, *n as u64),
            Message::NewBlock(block) => block.encode_into(out),
        }
    }

    /// The encoding of the message. Decoding it gives the message.
    pub fn encode(&self) -> (out: Vec<u8>)
        ensures
            out@ == Message::spec_encode(self@),
            spec_decode::<Message>(out@) == Some(self@),
    {
        crate::codec::encode(self)
    }

    /// The message that `data` is the encoding of; `Codec` where it is the
    /// encoding of none.
    pub fn decode(data: &[u8]) -> (r: Result<Message, BtcError>)
        ensures
            match r {
                Ok(m) => spec_decode::<Message>(data@) == Some(m@),
                Err(e) => e == BtcError::Codec && spec_decode::<Message>(data@) is None,
            },
    {
        match crate::codec::decode::<Message>(data) {
            Some(m) => Ok(m),
            None => Err(BtcError::Codec),
        }
    }

    /// The frame of the message: what is written to a stream to send it.
    pub fn to_frame(&self) -> (out: Vec<u8>)
        ensures
            out@ == spec_frame(Message::spec_encode(self@)),
    {
        let payload = self.encode();
        let mut out: Vec<u8> = Vec::new();
        push_u64_be(&mut out, payload.len() as u64);
        let mut payload = payload;
        out.append(&mut payload);
        assert(out@ =~= spec_frame(Message::spec_encode(self@)));
        out
    }

    /// The message that a frame holds: what was read from a stream.
    pub fn from_frame(frame: &[u8]) -> (r: Result<Message, BtcError>)
        ensures
            match r {
                Ok(m) => spec_from_frame(frame@) == Ok::<MessageView, BtcError>(m@),
                Err(e) => spec_from_frame(frame@) == Err::<MessageView, BtcError>(e),
            },
    {
        let total: usize = frame.len();
        if total < 8 {
            return Err(BtcError::Protocol);
        }
        let n = read_u64_be(frame, 0);
        if n > MAX_FRAME_LENGTH || (total - 8) as u64 != n {
            return Err(BtcError::Protocol);
        }
        assert(frame@.skip(8) =~= frame@.subrange(8, total as int));
        match Message::decode_at(frame, 8) {
            Some((m, next)) => {
                if next == total {
                    Ok(m)
                } else {
                    Err(BtcError::Codec)
                }
            },
            None => Err(BtcError::Codec),
        }
    }
}

} // verus!
