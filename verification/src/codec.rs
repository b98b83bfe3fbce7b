//! The canonical binary encoding. Every value is written as a sequence of
//! items, each a head of nine bytes (a tag and a 64-bit number, most
//! significant byte first) that some items follow with a payload:
//! an unsigned number, a byte string with its length, or an array with the
//! number of its items. A truth value is one byte. The bytes are well-formed
//! CBOR in which every head has its longest form, so one value has one
//! encoding.
use crate::crypto::{PrivateKey, PublicKey, Signature};
use crate::u256::{
    lemma_u128_be_round_trip, lemma_u64_be_round_trip, push_u128_be, push_u64_be, read_u128_be,
    read_u64_be, u128_from_be, u128_to_be, u64_from_be, u64_to_be, U256,
};
use vstd::prelude::*;

verus! {

/// Tag of an unsigned number.
pub const TAG_UINT: u8 = 0x1b;

/// Tag of a negative number; the head holds minus one minus the number.
pub const TAG_NEGATIVE: u8 = 0x3b;

/// Tag of a byte string; the head holds its length.
pub const TAG_BYTES: u8 = 0x5b;

/// Tag of an array; the head holds the number of its items.
pub const TAG_ARRAY: u8 = 0x9b;

/// The byte that stands for `false`.
pub const BYTE_FALSE: u8 = 0xf4;

/// The byte that stands for `true`.
pub const BYTE_TRUE: u8 = 0xf5;

/// A head: the tag, then the number in eight bytes.
pub open spec fn enc_head(tag: u8, n: u64) -> Seq<u8> {
    seq![tag] + u64_to_be(n)
}

/// Reads a head with the given tag from the front of `s`.
pub open spec fn parse_head(tag: u8, s: Seq<u8>) -> Option<(u64, Seq<u8>)> {
    if s.len() >= 9 && s[0] == tag {
        Some((u64_from_be(s.subrange(1, 9)), s.skip(9)))
    } else {
        None
    }
}

/// A byte string of known length: its head, then the bytes.
pub open spec fn enc_bytes(b: Seq<u8>) -> Seq<u8> {
    enc_head(TAG_BYTES, b.len() as u64) + b
}

/// Reads a byte string of exactly `len` bytes from the front of `s`.
pub open spec fn parse_bytes(len: nat, s: Seq<u8>) -> Option<(Seq<u8>, Seq<u8>)> {
    match parse_head(TAG_BYTES, s) {
        Some((n, rest)) => if n == len && rest.len() >= len {
            Some((rest.take(len as int), rest.skip(len as int)))
        } else {
            None
        },
        None => None,
    }
}

/// A 64-bit number.
pub open spec fn enc_u64(x: u64) -> Seq<u8> {
    enc_head(TAG_UINT, x)
}

pub open spec fn parse_u64(s: Seq<u8>) -> Option<(u64, Seq<u8>)> {
    parse_head(TAG_UINT, s)
}

/// A 128-bit number: a byte string of 16 bytes.
pub open spec fn enc_u128(x: u128) -> Seq<u8> {
    enc_bytes(u128_to_be(x))
}

pub open spec fn parse_u128(s: Seq<u8>) -> Option<(u128, Seq<u8>)> {
    match parse_bytes(16, s) {
        Some((b, rest)) => Some((u128_from_be(b), rest)),
        None => None,
    }
}

/// A 256-bit number: a byte string of 32 bytes.
pub open spec fn enc_u256(x: U256) -> Seq<u8> {
    enc_bytes(x.spec_to_be())
}

pub open spec fn parse_u256(s: Seq<u8>) -> Option<(U256, Seq<u8>)> {
    match parse_bytes(32, s) {
        Some((b, rest)) => Some((U256::spec_from_be(b), rest)),
        None => None,
    }
}

/// A truth value: one byte.
pub open spec fn enc_bool(b: bool) -> Seq<u8> {
    seq![if b { BYTE_TRUE } else { BYTE_FALSE }]
}

pub open spec fn parse_bool(s: Seq<u8>) -> Option<(bool, Seq<u8>)> {
    if s.len() >= 1 && s[0] == BYTE_TRUE {
        Some((true, s.skip(1)))
    } else if s.len() >= 1 && s[0] == BYTE_FALSE {
        Some((false, s.skip(1)))
    } else {
        None
    }
}

/// A head that was written is read back, and what follows it is left over.
pub proof fn lemma_head_round_trip(tag: u8, n: u64, rest: Seq<u8>)
    ensures
        parse_head(tag, enc_head(tag, n) + rest) == Some((n, rest)),
        enc_head(tag, n).len() == 9,
{
    let s = enc_head(tag, n) + rest;
    lemma_u64_be_round_trip(n);
    assert(s.subrange(1, 9) =~= u64_to_be(n));
    assert(s.skip(9) =~= rest);
}

/// A byte string that was written is read back.
pub proof fn lemma_bytes_round_trip(b: Seq<u8>, rest: Seq<u8>)
    requires
        b.len() <= u64::MAX,
    ensures
        parse_bytes(b.len(), enc_bytes(b) + rest) == Some((b, rest)),
{
    let n = b.len() as u64;
    assert(enc_bytes(b) + rest =~= enc_head(TAG_BYTES, n) + (b + rest));
    lemma_head_round_trip(TAG_BYTES, n, b + rest);
    assert((b + rest).take(b.len() as int) =~= b);
    assert((b + rest).skip(b.len() as int) =~= rest);
}

pub proof fn lemma_u128_round_trip(x: u128, rest: Seq<u8>)
    ensures
        parse_u128(enc_u128(x) + rest) == Some((x, rest)),
{
    lemma_u128_be_round_trip(x);
    lemma_bytes_round_trip(u128_to_be(x), rest);
}

pub proof fn lemma_u256_round_trip(x: U256, rest: Seq<u8>)
    ensures
        parse_u256(enc_u256(x) + rest) == Some((x, rest)),
{
    x.lemma_be_round_trip();
    lemma_bytes_round_trip(x.spec_to_be(), rest);
}

pub proof fn lemma_bool_round_trip(b: bool, rest: Seq<u8>)
    ensures
        parse_bool(enc_bool(b) + rest) == Some((b, rest)),
{
    assert((enc_bool(b) + rest).skip(1) =~= rest);
}

/// Appends a head.
pub fn write_head(out: &mut Vec<u8>, tag: u8, n: u64)
    ensures
        final(out)@ == old(out)@ + enc_head(tag, n),
{
    out.push(tag);
    push_u64_be(out, n);
    assert(out@ =~= old(out)@ + enc_head(tag, n));
}

/// Reads a head with the given tag at `pos`.
pub fn read_head(data: &[u8], pos: usize, tag: u8) -> (r: Option<(u64, usize)>)
    requires
        pos <= data@.len(),
    ensures
        match r {
            Some((n, next)) => next == pos + 9 && next <= data@.len() && parse_head(
                tag,
                data@.skip(pos as int),
            ) == Some((n, data@.skip(next as int))),
            None => parse_head(tag, data@.skip(pos as int)) is None,
        },
{
    let len: usize = data.len();
    if len - pos < 9 || data[pos] != tag {
        return None;
    }
    let n = read_u64_be(data, pos + 1);
    proof {
        let s = data@.skip(pos as int);
        assert(s.subrange(1, 9) =~= data@.subrange(pos + 1, pos + 9));
        assert(s.skip(9) =~= data@.skip(pos + 9));
    }
    Some((n, pos + 9))
}

/// Reads the head of a byte string of exactly `len` bytes at `pos`, and
/// returns where the bytes start.
pub fn read_bytes_head(data: &[u8], pos: usize, len: usize) -> (r: Option<usize>)
    requires
        pos <= data@.len(),
    ensures
        match r {
            Some(start) => start == pos + 9 && start + len <= data@.len() && parse_bytes(
                len as nat,
                data@.skip(pos as int),
            ) == Some(
                (data@.subrange(start as int, start + len), data@.skip(start + len)),
            ),
            None => parse_bytes(len as nat, data@.skip(pos as int)) is None,
        },
{
    let total: usize = data.len();
    match read_head(data, pos, TAG_BYTES) {
        Some((n, start)) => {
            if n != len as u64 || total - start < len {
                return None;
            }
            proof {
                let rest = data@.skip(start as int);
                assert(rest.take(len as int) =~= data@.subrange(start as int, start + len));
                assert(rest.skip(len as int) =~= data@.skip(start + len));
            }
            Some(start)
        },
        None => None,
    }
}

pub fn write_u64(out: &mut Vec<u8>, x: u64)
    ensures
        final(out)@ == old(out)@ + enc_u64(x),
{
    write_head(out, TAG_UINT, x);
}

pub fn read_u64(data: &[u8], pos: usize) -> (r: Option<(u64, usize)>)
    requires
        pos <= data@.len(),
    ensures
        match r {
            Some((x, next)) => pos <= next <= data@.len() && parse_u64(data@.skip(pos as int))
                == Some((x, data@.skip(next as int))),
            None => parse_u64(data@.skip(pos as int)) is None,
        },
{
    read_head(data, pos, TAG_UINT)
}

pub fn write_u128(out: &mut Vec<u8>, x: u128)
    ensures
        final(out)@ == old(out)@ + enc_u128(x),
{
    proof {
        lemma_u128_be_round_trip(x);
    }
    write_head(out, TAG_BYTES, 16);
    push_u128_be(out, x);
    assert(out@ =~= old(out)@ + enc_u128(x));
}

pub fn read_u128(data: &[u8], pos: usize) -> (r: Option<(u128, usize)>)
    requires
        pos <= data@.len(),
    ensures
        match r {
            Some((x, next)) => pos <= next <= data@.len() && parse_u128(data@.skip(pos as int))
                == Some((x, data@.skip(next as int))),
            None => parse_u128(data@.skip(pos as int)) is None,
        },
{
    let len: usize = data.len();
    match read_bytes_head(data, pos, 16) {
        Some(start) => Some((read_u128_be(data, start), start + 16)),
        None => None,
    }
}

pub fn write_u256(out: &mut Vec<u8>, x: &U256)
    ensures
        final(out)@ == old(out)@ + enc_u256(*x),
{
    proof {
        x.lemma_be_round_trip();
    }
    write_head(out, TAG_BYTES, 32);
    let mut bytes = x.to_be_bytes();
    out.append(&mut bytes);
    assert(out@ =~= old(out)@ + enc_u256(*x));
}

pub fn read_u256(data: &[u8], pos: usize) -> (r: Option<(U256, usize)>)
    requires
        pos <= data@.len(),
    ensures
        match r {
            Some((x, next)) => pos <= next <= data@.len() && parse_u256(data@.skip(pos as int))
                == Some((x, data@.skip(next as int))),
            None => parse_u256(data@.skip(pos as int)) is None,
        },
{
    let len: usize = data.len();
    match read_bytes_head(data, pos, 32) {
        Some(start) => Some((U256::from_be_slice(data, start), start + 32)),
        None => None,
    }
}

pub fn write_bool(out: &mut Vec<u8>, b: bool)
    ensures
        final(out)@ == old(out)@ + enc_bool(b),
{
    out.push(if b { BYTE_TRUE } else { BYTE_FALSE });
    assert(out@ =~= old(out)@ + enc_bool(b));
}

pub fn read_bool(data: &[u8], pos: usize) -> (r: Option<(bool, usize)>)
    requires
        pos <= data@.len(),
    ensures
        match r {
            Some((b, next)) => pos <= next <= data@.len() && parse_bool(data@.skip(pos as int))
                == Some((b, data@.skip(next as int))),
            None => parse_bool(data@.skip(pos as int)) is None,
        },
{
    let len: usize = data.len();
    if pos >= len {
        return None;
    }
    assert(data@.skip(pos as int).skip(1) =~= data@.skip(pos + 1));
    if data[pos] == BYTE_TRUE {
        Some((true, pos + 1))
    } else if data[pos] == BYTE_FALSE {
        Some((false, pos + 1))
    } else {
        None
    }
}

/// A hash: a byte string of 32 bytes.
pub open spec fn enc_hash(h: crate::sha256::Hash) -> Seq<u8> {
    enc_u256(h.0)
}

pub open spec fn parse_hash(s: Seq<u8>) -> Option<(crate::sha256::Hash, Seq<u8>)> {
    match parse_u256(s) {
        Some((x, rest)) => Some((crate::sha256::Hash(x), rest)),
        None => None,
    }
}

/// A public key: a byte string of 33 bytes.
pub open spec fn enc_public_key(key: PublicKey) -> Seq<u8> {
    enc_bytes(key.spec_bytes())
}

pub open spec fn parse_public_key(s: Seq<u8>) -> Option<(PublicKey, Seq<u8>)> {
    match parse_bytes(33, s) {
        Some((b, rest)) => Some((PublicKey::spec_from_bytes(b), rest)),
        None => None,
    }
}

/// A signature: a byte string of 64 bytes.
pub open spec fn enc_signature(sig: Signature) -> Seq<u8> {
    enc_bytes(sig.spec_bytes())
}

pub open spec fn parse_signature(s: Seq<u8>) -> Option<(Signature, Seq<u8>)> {
    match parse_bytes(64, s) {
        Some((b, rest)) => Some((Signature::spec_from_bytes(b), rest)),
        None => None,
    }
}

pub proof fn lemma_hash_round_trip(h: crate::sha256::Hash, rest: Seq<u8>)
    ensures
        parse_hash(enc_hash(h) + rest) == Some((h, rest)),
{
    lemma_u256_round_trip(h.0, rest);
}

pub proof fn lemma_public_key_round_trip(key: PublicKey, rest: Seq<u8>)
    ensures
        parse_public_key(enc_public_key(key) + rest) == Some((key, rest)),
{
    key.lemma_bytes_round_trip();
    lemma_bytes_round_trip(key.spec_bytes(), rest);
}

pub proof fn lemma_signature_round_trip(sig: Signature, rest: Seq<u8>)
    ensures
        parse_signature(enc_signature(sig) + rest) == Some((sig, rest)),
{
    sig.lemma_bytes_round_trip();
    lemma_bytes_round_trip(sig.spec_bytes(), rest);
}

pub fn write_hash(out: &mut Vec<u8>, h: &crate::sha256::Hash)
    ensures
        final(out)@ == old(out)@ + enc_hash(*h),
{
    write_u256(out, &h.0);
}

pub fn read_hash(data: &[u8], pos: usize) -> (r: Option<(crate::sha256::Hash, usize)>)
    requires
        pos <= data@.len(),
    ensures
        match r {
            Some((h, next)) => pos <= next <= data@.len() && parse_hash(data@.skip(pos as int))
                == Some((h, data@.skip(next as int))),
            None => parse_hash(data@.skip(pos as int)) is None,
        },
{
    match read_u256(data, pos) {
        Some((x, next)) => Some((crate::sha256::Hash(x), next)),
        None => None,
    }
}

pub fn write_public_key(out: &mut Vec<u8>, key: &PublicKey)
    ensures
        final(out)@ == old(out)@ + enc_public_key(*key),
{
    proof {
        key.lemma_bytes_round_trip();
    }
    write_head(out, TAG_BYTES, 33);
    let mut bytes = key.to_bytes();
    out.append(&mut bytes);
    assert(out@ =~= old(out)@ + enc_public_key(*key));
}

pub fn read_public_key(data: &[u8], pos: usize) -> (r: Option<(PublicKey, usize)>)
    requires
        pos <= data@.len(),
    ensures
        match r {
            Some((key, next)) => pos <= next <= data@.len() && parse_public_key(
                data@.skip(pos as int),
            ) == Some((key, data@.skip(next as int))),
            None => parse_public_key(data@.skip(pos as int)) is None,
        },
{
    let len: usize = data.len();
    match read_bytes_head(data, pos, 33) {
        Some(start) => Some((PublicKey::from_slice(data, start), start + 33)),
        None => None,
    }
}

pub fn write_signature(out: &mut Vec<u8>, sig: &Signature)
    ensures
        final(out)@ == old(out)@ + enc_signature(*sig),
{
    proof {
        sig.lemma_bytes_round_trip();
    }
    write_head(out, TAG_BYTES, 64);
    let mut bytes = sig.to_bytes();
    out.append(&mut bytes);
    assert(out@ =~= old(out)@ + enc_signature(*sig));
}

pub fn read_signature(data: &[u8], pos: usize) -> (r: Option<(Signature, usize)>)
    requires
        pos <= data@.len(),
    ensures
        match r {
            Some((sig, next)) => pos <= next <= data@.len() && parse_signature(
                data@.skip(pos as int),
            ) == Some((sig, data@.skip(next as int))),
            None => parse_signature(data@.skip(pos as int)) is None,
        },
{
    let len: usize = data.len();
    match read_bytes_head(data, pos, 64) {
        Some(start) => Some((Signature::from_slice(data, start), start + 64)),
        None => None,
    }
}

/// A type with a canonical encoding. `parse` reads one value from the front
/// of a byte string and returns what is left over; it reads back whatever
/// `encode` wrote.
pub trait Canonical: View + Sized {
    /// The bytes that stand for a value.
    spec fn spec_encode(v: Self::V) -> Seq<u8>;

    /// Reads one value from the front of `s`.
    spec fn spec_parse(s: Seq<u8>) -> Option<(Self::V, Seq<u8>)>;

    /// Whether a value can be held in memory: no sequence in it is longer
    /// than `usize::MAX`.
    spec fn spec_valid(v: Self::V) -> bool;

    /// What was written is read back, and what follows it is left over.
    proof fn lemma_round_trip(v: Self::V, rest: Seq<u8>)
        requires
            Self::spec_valid(v),
        ensures
            Self::spec_parse(Self::spec_encode(v) + rest) == Some((v, rest)),
    ;

    /// Appends the encoding of the value. What a value of the type holds is
    /// valid.
    fn encode_into(&self, out: &mut Vec<u8>)
        ensures
            final(out)@ == old(out)@ + Self::spec_encode(self@),
            Self::spec_valid(self@),
    ;

    /// Reads one value at `pos`, and returns it with the position behind it.
    fn decode_at(data: &[u8], pos: usize) -> (r: Option<(Self, usize)>)
        requires
            pos <= data@.len(),
        ensures
            match r {
                Some((v, next)) => pos <= next <= data@.len() && Self::spec_parse(
                    data@.skip(pos as int),
                ) == Some((v@, data@.skip(next as int))),
                None => Self::spec_parse(data@.skip(pos as int)) is None,
            },
    ;
}

/// The views of the items of a sequence.
pub open spec fn views<T: View>(items: Seq<T>) -> Seq<T::V> {
    Seq::new(items.len(), |i: int| items[i]@)
}

/// Whether every item of a sequence is valid.
pub open spec fn all_valid<T: Canonical>(items: Seq<T::V>) -> bool {
    forall|i: int| 0 <= i < items.len() ==> T::spec_valid(#[trigger] items[i])
}

/// The encodings of the items of a sequence, one behind the other.
pub open spec fn enc_items<T: Canonical>(items: Seq<T::V>) -> Seq<u8>
    decreases items.len(),
{
    if items.len() == 0 {
        Seq::empty()
    } else {
        T::spec_encode(items[0]) + enc_items::<T>(items.skip(1))
    }
}

/// Reads `n` items from the front of `s`.
pub open spec fn parse_items<T: Canonical>(s: Seq<u8>, n: nat) -> Option<(Seq<T::V>, Seq<u8>)>
    decreases n,
{
    if n == 0 {
        Some((Seq::empty(), s))
    } else {
        match T::spec_parse(s) {
            Some((v, rest)) => prepend_item(v, parse_items::<T>(rest, (n - 1) as nat)),
            None => None,
        }
    }
}

/// Puts an item in front of the items that were read behind it.
pub open spec fn prepend_item<V>(v: V, r: Option<(Seq<V>, Seq<u8>)>) -> Option<(Seq<V>, Seq<u8>)> {
    match r {
        Some((items, rest)) => Some((seq![v] + items, rest)),
        None => None,
    }
}

/// Puts items in front of the items that were read behind them.
pub open spec fn prepend_items<V>(front: Seq<V>, r: Option<(Seq<V>, Seq<u8>)>) -> Option<
    (Seq<V>, Seq<u8>),
> {
    match r {
        Some((items, rest)) => Some((front + items, rest)),
        None => None,
    }
}

/// An array: the head with the number of items, then the items.
pub open spec fn enc_array<T: Canonical>(items: Seq<T::V>) -> Seq<u8> {
    enc_head(TAG_ARRAY, items.len() as u64) + enc_items::<T>(items)
}

/// Reads an array from the front of `s`.
pub open spec fn parse_array<T: Canonical>(s: Seq<u8>) -> Option<(Seq<T::V>, Seq<u8>)> {
    match parse_head(TAG_ARRAY, s) {
        Some((n, rest)) => parse_items::<T>(rest, n as nat),
        None => None,
    }
}

/// The encoding of a sequence with one more item is that of the sequence,
/// then that of the item.
pub proof fn lemma_enc_items_push<T: Canonical>(items: Seq<T::V>, v: T::V)
    ensures
        enc_items::<T>(items.push(v)) == enc_items::<T>(items) + T::spec_encode(v),
    decreases items.len(),
{
    let more = items.push(v);
    if items.len() == 0 {
        assert(more.skip(1) =~= Seq::<T::V>::empty());
        assert(enc_items::<T>(more.skip(1)) =~= Seq::<u8>::empty());
        assert(enc_items::<T>(more) =~= enc_items::<T>(items) + T::spec_encode(v));
    } else {
        lemma_enc_items_push::<T>(items.skip(1), v);
        assert(more.skip(1) =~= items.skip(1).push(v));
        assert(enc_items::<T>(more) =~= enc_items::<T>(items) + T::spec_encode(v));
    }
}

/// Items that were written one behind the other are read back.
pub proof fn lemma_items_round_trip<T: Canonical>(items: Seq<T::V>, rest: Seq<u8>)
    requires
        all_valid::<T>(items),
    ensures
        parse_items::<T>(enc_items::<T>(items) + rest, items.len()) == Some((items, rest)),
    decreases items.len(),
{
    if items.len() == 0 {
        assert(enc_items::<T>(items) + rest =~= rest);
    } else {
        let tail = items.skip(1);
        assert(all_valid::<T>(tail)) by {
            assert forall|i: int| 0 <= i < tail.len() implies T::spec_valid(#[trigger] tail[i]) by {
                assert(tail[i] == items[i + 1]);
            }
        }
        let behind = enc_items::<T>(tail) + rest;
        assert(enc_items::<T>(items) + rest =~= T::spec_encode(items[0]) + behind);
        T::lemma_round_trip(items[0], behind);
        lemma_items_round_trip::<T>(tail, rest);
        assert(seq![items[0]] + tail =~= items);
    }
}

/// An array that was written is read back.
pub proof fn lemma_array_round_trip<T: Canonical>(items: Seq<T::V>, rest: Seq<u8>)
    requires
        items.len() <= usize::MAX,
        all_valid::<T>(items),
    ensures
        parse_array::<T>(enc_array::<T>(items) + rest) == Some((items, rest)),
{
    let n = items.len() as u64;
    let behind = enc_items::<T>(items) + rest;
    assert(enc_array::<T>(items) + rest =~= enc_head(TAG_ARRAY, n) + behind);
    lemma_head_round_trip(TAG_ARRAY, n, behind);
    lemma_items_round_trip::<T>(items, rest);
}

/// Appends an array of the items.
pub fn write_array<T: Canonical>(out: &mut Vec<u8>, items: &Vec<T>)
    ensures
        final(out)@ == old(out)@ + enc_array::<T>(views(items@)),
        all_valid::<T>(views(items@)),
        items@.len() <= usize::MAX,
{
    let ghost all = views(items@);
    write_head(out, TAG_ARRAY, items.len() as u64);
    let ghost start = out@;
    let mut i: usize = 0;
    assert(all.take(0) =~= Seq::<T::V>::empty());
    while i < items.len()
        invariant
            i <= items@.len(),
            all == views(items@),
            forall|k: int| 0 <= k < i ==> T::spec_valid(#[trigger] all[k]),
            out@ == start + enc_items::<T>(all.take(i as int)),
        decreases items@.len() - i,
    {
        let ghost before = out@;
        items[i].encode_into(out);
        proof {
            lemma_enc_items_push::<T>(all.take(i as int), items@[i as int]@);
            assert(all.take(i + 1) =~= all.take(i as int).push(items@[i as int]@));
            assert(out@ =~= start + enc_items::<T>(all.take(i + 1)));
        }
        i += 1;
    }
    assert(all.take(i as int) =~= all);
    assert(out@ =~= old(out)@ + enc_array::<T>(all));
}

/// Reads an array at `pos`, and returns its items with the position behind
/// them.
pub fn read_array<T: Canonical>(data: &[u8], pos: usize) -> (r: Option<(Vec<T>, usize)>)
    requires
        pos <= data@.len(),
    ensures
        match r {
            Some((items, next)) => pos <= next <= data@.len() && parse_array::<T>(
                data@.skip(pos as int),
            ) == Some((views(items@), data@.skip(next as int))),
            None => parse_array::<T>(data@.skip(pos as int)) is None,
        },
{
    let (n, first) = match read_head(data, pos, TAG_ARRAY) {
        Some(head) => head,
        None => { return None; },
    };
    let ghost whole = parse_items::<T>(data@.skip(first as int), n as nat);
    let mut items: Vec<T> = Vec::new();
    let mut at: usize = first;
    let mut i: u64 = 0;
    assert(views(items@) =~= Seq::<T::V>::empty());
    assert(prepend_items(views(items@), parse_items::<T>(data@.skip(at as int), n as nat)) == whole) by {
        let r = parse_items::<T>(data@.skip(at as int), n as nat);
        if r is Some {
            assert(Seq::<T::V>::empty() + r.unwrap().0 =~= r.unwrap().0);
        }
    }
    while i < n
        invariant
            i <= n,
            first <= at <= data@.len(),
            whole == parse_array::<T>(data@.skip(pos as int)),
            prepend_items(views(items@), parse_items::<T>(data@.skip(at as int), (n - i) as nat))
                == whole,
        decreases n - i,
    {
        let ghost front = views(items@);
        match T::decode_at(data, at) {
            Some((v, next)) => {
                let ghost behind = parse_items::<T>(data@.skip(next as int), (n - i - 1) as nat);
                items.push(v);
                proof {
                    assert(views(items@) =~= front.push(v@));
                    if behind is Some {
                        assert(front + (seq![v@] + behind.unwrap().0) =~= front.push(v@)
                            + behind.unwrap().0);
                    }
                }
                at = next;
                i += 1;
            },
            None => {
                assert(parse_items::<T>(data@.skip(at as int), (n - i) as nat) is None);
                return None;
            },
        }
    }
    proof {
        assert(views(items@) + Seq::<T::V>::empty() =~= views(items@));
    }
    Some((items, at))
}

/// Reads one value that takes up the whole of `data`.
pub open spec fn spec_decode<T: Canonical>(data: Seq<u8>) -> Option<T::V> {
    match T::spec_parse(data) {
        Some((v, rest)) => if rest.len() == 0 {
            Some(v)
        } else {
            None
        },
        None => None,
    }
}

/// Decoding the encoding of a value gives the value.
pub proof fn lemma_decode_encode<T: Canonical>(v: T::V)
    requires
        T::spec_valid(v),
    ensures
        spec_decode::<T>(T::spec_encode(v)) == Some(v),
{
    T::lemma_round_trip(v, Seq::empty());
    assert(T::spec_encode(v) + Seq::<u8>::empty() =~= T::spec_encode(v));
}

/// Two values with the same encoding are the same value.
pub proof fn lemma_encode_injective<T: Canonical>(a: T::V, b: T::V)
    requires
        T::spec_valid(a),
        T::spec_valid(b),
        T::spec_encode(a) == T::spec_encode(b),
    ensures
        a == b,
{
    lemma_decode_encode::<T>(a);
    lemma_decode_encode::<T>(b);
}

/// The encoding of a value. Decoding it gives the value.
pub fn encode<T: Canonical>(value: &T) -> (out: Vec<u8>)
    ensures
        out@ == T::spec_encode(value@),
        T::spec_valid(value@),
        spec_decode::<T>(out@) == Some(value@),
{
    let mut out: Vec<u8> = Vec::new();
    value.encode_into(&mut out);
    assert(out@ =~= T::spec_encode(value@));
    proof {
        lemma_decode_encode::<T>(value@);
    }
    out
}

/// The value that `data` is the encoding of, or `None` where it is the
/// encoding of none.
pub fn decode<T: Canonical>(data: &[u8]) -> (r: Option<T>)
    ensures
        match r {
            Some(v) => spec_decode::<T>(data@) == Some(v@),
            None => spec_decode::<T>(data@) is None,
        },
{
    assert(data@.skip(0) =~= data@);
    match T::decode_at(data, 0) {
        Some((v, next)) => {
            if next == data.len() {
                Some(v)
            } else {
                None
            }
        },
        None => None,
    }
}

impl View for PublicKey {
    type V = PublicKey;

    open spec fn view(&self) -> PublicKey {
        *self
    }
}

impl View for PrivateKey {
    type V = PrivateKey;

    open spec fn view(&self) -> PrivateKey {
        *self
    }
}

impl Canonical for PublicKey {
    open spec fn spec_valid(v: PublicKey) -> bool {
        true
    }

    open spec fn spec_encode(v: PublicKey) -> Seq<u8> {
        enc_public_key(v)
    }

    open spec fn spec_parse(s: Seq<u8>) -> Option<(PublicKey, Seq<u8>)> {
        parse_public_key(s)
    }

    proof fn lemma_round_trip(v: PublicKey, rest: Seq<u8>) {
        lemma_public_key_round_trip(v, rest);
    }

    fn encode_into(&self, out: &mut Vec<u8>) {
        write_public_key(out, self);
    }

    fn decode_at(data: &[u8], pos: usize) -> (r: Option<(Self, usize)>) {
        read_public_key(data, pos)
    }
}

impl Canonical for PrivateKey {
    open spec fn spec_valid(v: PrivateKey) -> bool {
        true
    }

    /// The secret scalar: a byte string of 32 bytes.
    open spec fn spec_encode(v: PrivateKey) -> Seq<u8> {
        enc_u256(v.0)
    }

    open spec fn spec_parse(s: Seq<u8>) -> Option<(PrivateKey, Seq<u8>)> {
        match parse_u256(s) {
            Some((x, rest)) => Some((PrivateKey(x), rest)),
            None => None,
        }
    }

    proof fn lemma_round_trip(v: PrivateKey, rest: Seq<u8>) {
        lemma_u256_round_trip(v.0, rest);
    }

    fn encode_into(&self, out: &mut Vec<u8>) {
        write_u256(out, &self.0);
    }

    fn decode_at(data: &[u8], pos: usize) -> (r: Option<(Self, usize)>) {
        match read_u256(data, pos) {
            Some((x, next)) => Some((PrivateKey(x), next)),
            None => None,
        }
    }
}

} // verus!
