//! Transactions, their inputs and their outputs.
use crate::codec::{
    enc_array, enc_hash, enc_head, enc_public_key, enc_signature, enc_u128, enc_u64,
    lemma_array_round_trip, lemma_hash_round_trip, lemma_head_round_trip,
    lemma_public_key_round_trip, lemma_signature_round_trip, lemma_u128_round_trip, parse_array,
    parse_hash, parse_head, parse_public_key, parse_signature, parse_u128, parse_u64, read_array,
    read_hash, read_head, read_public_key, read_signature, read_u128, read_u64, views, write_array,
    write_hash, write_head, write_public_key, write_signature, write_u128, write_u64, Canonical,
    TAG_ARRAY,
};
use crate::crypto::{PublicKey, Signature};
use crate::sha256::hash_of;
use vstd::prelude::*;

verus! {

/// An amount of sats that can be spent by a signature under `pubkey`.
#[derive(Clone, Copy, Debug, PartialEq, Eq, Structural)]
pub struct TransactionOutput {
    /// The amount, in sats.
    pub value: u64,
    /// A random identifier that tells apart outputs that are otherwise alike.
    pub unique_id: u128,
    /// The key whose signature spends the output.
    pub pubkey: PublicKey,
}

/// The spending of an earlier output.
#[derive(Clone, Copy, Debug, PartialEq, Eq, Structural)]
pub struct TransactionInput {
    /// The hash of the output that is spent.
    pub prev_transaction_output_hash: crate::sha256::Hash,
    /// A signature of that hash under the output's key.
    pub signature: Signature,
}

/// A transfer: the outputs it spends and the outputs it makes. A coinbase
/// transaction has no inputs.
#[derive(Debug, PartialEq, Eq)]
pub struct Transaction {
    pub inputs: Vec<TransactionInput>,
    pub outputs: Vec<TransactionOutput>,
}

/// What a transaction holds.
pub struct TransactionView {
    pub inputs: Seq<TransactionInput>,
    pub outputs: Seq<TransactionOutput>,
}

impl View for TransactionOutput {
    type V = TransactionOutput;

    open spec fn view(&self) -> TransactionOutput {
        *self
    }
}

impl View for TransactionInput {
    type V = TransactionInput;

    open spec fn view(&self) -> TransactionInput {
        *self
    }
}

impl View for Transaction {
    type V = TransactionView;

    open spec fn view(&self) -> TransactionView {
        TransactionView { inputs: self.inputs@, outputs: self.outputs@ }
    }
}

/// The views of plain items are the items.
pub proof fn lemma_views_outputs(items: Seq<TransactionOutput>)
    ensures
        views(items) == items,
{
    assert(views(items) =~= items);
}

/// The views of plain items are the items.
pub proof fn lemma_views_inputs(items: Seq<TransactionInput>)
    ensures
        views(items) == items,
{
    assert(views(items) =~= items);
}

/// The views of plain items are the items.
pub proof fn lemma_views_pairs(items: Seq<(bool, TransactionOutput)>)
    ensures
        views(items) == items,
{
    assert(views(items) =~= items);
}

impl Canonical for TransactionOutput {
    open spec fn spec_valid(v: TransactionOutput) -> bool {
        true
    }

    /// An array of the amount, the identifier and the key.
    open spec fn spec_encode(v: TransactionOutput) -> Seq<u8> {
        enc_head(TAG_ARRAY, 3) + enc_u64(v.value) + enc_u128(v.unique_id) + enc_public_key(v.pubkey)
    }

    open spec fn spec_parse(s: Seq<u8>) -> Option<(TransactionOutput, Seq<u8>)> {
        match parse_head(TAG_ARRAY, s) {
            Some((n, r0)) => match parse_u64(r0) {
                Some((value, r1)) => match parse_u128(r1) {
                    Some((unique_id, r2)) => match parse_public_key(r2) {
                        Some((pubkey, r3)) => if n == 3 {
                            Some((TransactionOutput { value, unique_id, pubkey }, r3))
                        } else {
                            None
                        },
                        None => None,
                    },
                    None => None,
                },
                None => None,
            },
            None => None,
        }
    }

    proof fn lemma_round_trip(v: TransactionOutput, rest: Seq<u8>) {
        let e3 = enc_public_key(v.pubkey) + rest;
        let e2 = enc_u128(v.unique_id) + e3;
        let e1 = enc_u64(v.value) + e2;
        assert(Self::spec_encode(v) + rest =~= enc_head(TAG_ARRAY, 3) + e1);
        lemma_head_round_trip(TAG_ARRAY, 3, e1);
        lemma_head_round_trip(crate::codec::TAG_UINT, v.value, e2);
        lemma_u128_round_trip(v.unique_id, e3);
        lemma_public_key_round_trip(v.pubkey, rest);
    }

    fn encode_into(&self, out: &mut Vec<u8>) {
        write_head(out, TAG_ARRAY, 3);
        write_u64(out, self.value);
        write_u128(out, self.unique_id);
        write_public_key(out, &self.pubkey);
        assert(out@ =~= old(out)@ + Self::spec_encode(*self));
    }

    fn decode_at(data: &[u8], pos: usize) -> (r: Option<(Self, usize)>) {
        let (n, at0) = match read_head(data, pos, TAG_ARRAY) {
            Some(x) => x,
            None => { return None; },
        };
        let (value, at1) = match read_u64(data, at0) {
            Some(x) => x,
            None => { return None; },
        };
        let (unique_id, at2) = match read_u128(data, at1) {
            Some(x) => x,
            None => { return None; },
        };
        let (pubkey, at3) = match read_public_key(data, at2) {
            Some(x) => x,
            None => { return None; },
        };
        if n != 3 {
            return None;
        }
        Some((TransactionOutput { value, unique_id, pubkey }, at3))
    }
}

impl Canonical for TransactionInput {
    open spec fn spec_valid(v: TransactionInput) -> bool {
        true
    }

    /// An array of the hash that is spent and the signature.
    open spec fn spec_encode(v: TransactionInput) -> Seq<u8> {
        enc_head(TAG_ARRAY, 2) + enc_hash(v.prev_transaction_output_hash) + enc_signature(
            v.signature,
        )
    }

    open spec fn spec_parse(s: Seq<u8>) -> Option<(TransactionInput, Seq<u8>)> {
        match parse_head(TAG_ARRAY, s) {
            Some((n, r0)) => match parse_hash(r0) {
                Some((prev_transaction_output_hash, r1)) => match parse_signature(r1) {
                    Some((signature, r2)) => if n == 2 {
                        Some((TransactionInput { prev_transaction_output_hash, signature }, r2))
                    } else {
                        None
                    },
                    None => None,
                },
                None => None,
            },
            None => None,
        }
    }

    proof fn lemma_round_trip(v: TransactionInput, rest: Seq<u8>) {
        let e2 = enc_signature(v.signature) + rest;
        let e1 = enc_hash(v.prev_transaction_output_hash) + e2;
        assert(Self::spec_encode(v) + rest =~= enc_head(TAG_ARRAY, 2) + e1);
        lemma_head_round_trip(TAG_ARRAY, 2, e1);
        lemma_hash_round_trip(v.prev_transaction_output_hash, e2);
        lemma_signature_round_trip(v.signature, rest);
    }

    fn encode_into(&self, out: &mut Vec<u8>) {
        write_head(out, TAG_ARRAY, 2);
        write_hash(out, &self.prev_transaction_output_hash);
        write_signature(out, &self.signature);
        assert(out@ =~= old(out)@ + Self::spec_encode(*self));
    }

    fn decode_at(data: &[u8], pos: usize) -> (r: Option<(Self, usize)>) {
        let (n, at0) = match read_head(data, pos, TAG_ARRAY) {
            Some(x) => x,
            None => { return None; },
        };
        let (prev_transaction_output_hash, at1) = match read_hash(data, at0) {
            Some(x) => x,
            None => { return None; },
        };
        let (signature, at2) = match read_signature(data, at1) {
            Some(x) => x,
            None => { return None; },
        };
        if n != 2 {
            return None;
        }
        Some((TransactionInput { prev_transaction_output_hash, signature }, at2))
    }
}

impl Canonical for Transaction {
    open spec fn spec_valid(v: TransactionView) -> bool {
        v.inputs.len() <= usize::MAX && v.outputs.len() <= usize::MAX
    }


    /// An array of the array of inputs and the array of outputs.
    open spec fn spec_encode(v: TransactionView) -> Seq<u8> {
        enc_head(TAG_ARRAY, 2) + enc_array::<TransactionInput>(v.inputs) + enc_array::<
            TransactionOutput,
        >(v.outputs)
    }

    open spec fn spec_parse(s: Seq<u8>) -> Option<(TransactionView, Seq<u8>)> {
        match parse_head(TAG_ARRAY, s) {
            Some((n, r0)) => match parse_array::<TransactionInput>(r0) {
                Some((inputs, r1)) => match parse_array::<TransactionOutput>(r1) {
                    Some((outputs, r2)) => if n == 2 {
                        Some((TransactionView { inputs, outputs }, r2))
                    } else {
                        None
                    },
                    None => None,
                },
                None => None,
            },
            None => None,
        }
    }

    proof fn lemma_round_trip(v: TransactionView, rest: Seq<u8>) {
        let e2 = enc_array::<TransactionOutput>(v.outputs) + rest;
        let e1 = enc_array::<TransactionInput>(v.inputs) + e2;
        assert(Self::spec_encode(v) + rest =~= enc_head(TAG_ARRAY, 2) + e1);
        lemma_head_round_trip(TAG_ARRAY, 2, e1);
        lemma_array_round_trip::<TransactionInput>(v.inputs, e2);
        lemma_array_round_trip::<TransactionOutput>(v.outputs, rest);
    }

    fn encode_into(&self, out: &mut Vec<u8>) {
        proof {
            lemma_views_inputs(self.inputs@);
            lemma_views_outputs(self.outputs@);
        }
        write_head(out, TAG_ARRAY, 2);
        write_array(out, &self.inputs);
        write_array(out, &self.outputs);
        assert(self.inputs.len() == self.inputs@.len());
        assert(self.outputs.len() == self.outputs@.len());
        assert(out@ =~= old(out)@ + Self::spec_encode(self@));
    }

    fn decode_at(data: &[u8], pos: usize) -> (r: Option<(Self, usize)>) {
        let (n, at0) = match read_head(data, pos, TAG_ARRAY) {
            Some(x) => x,
            None => { return None; },
        };
        let (inputs, at1) = match read_array::<TransactionInput>(data, at0) {
            Some(x) => x,
            None => { return None; },
        };
        let (outputs, at2) = match read_array::<TransactionOutput>(data, at1) {
            Some(x) => x,
            None => { return None; },
        };
        proof {
            lemma_views_inputs(inputs@);
            lemma_views_outputs(outputs@);
        }
        if n != 2 {
            return None;
        }
        Some((Transaction { inputs, outputs }, at2))
    }
}

impl TransactionOutput {
    /// The hash of the output: that of its encoding. Inputs name the output
    /// that they spend by it.
    pub open spec fn spec_hash(self) -> crate::sha256::Hash {
        hash_of(Self::spec_encode(self))
    }

    /// The hash of the output.
    pub fn hash(&self) -> (h: crate::sha256::Hash)
        ensures
            h == self.spec_hash(),
    {
        let bytes = crate::codec::encode(self);
        crate::sha256::Hash::hash(bytes.as_slice())
    }
}

impl TransactionView {
    /// The hash of the transaction: that of its encoding.
    pub open spec fn spec_hash(self) -> crate::sha256::Hash {
        hash_of(Transaction::spec_encode(self))
    }
}

impl Transaction {
    /// A transaction of the given inputs and outputs.
    pub fn new(inputs: Vec<TransactionInput>, outputs: Vec<TransactionOutput>) -> (tx: Transaction)
        ensures
            tx@ == (TransactionView { inputs: inputs@, outputs: outputs@ }),
    {
        Transaction { inputs, outputs }
    }

    /// The hash of the transaction.
    pub fn hash(&self) -> (h: crate::sha256::Hash)
        ensures
            h == self@.spec_hash(),
    {
        let bytes = crate::codec::encode(self);
        crate::sha256::Hash::hash(bytes.as_slice())
    }

    /// A copy of the transaction.
    pub fn duplicate(&self) -> (tx: Transaction)
        ensures
            tx@ == self@,
    {
        let mut inputs: Vec<TransactionInput> = Vec::new();
        let mut i: usize = 0;
        while i < self.inputs.len()
            invariant
                i <= self.inputs@.len(),
                inputs@ == self.inputs@.take(i as int),
            decreases self.inputs@.len() - i,
        {
            inputs.push(self.inputs[i]);
            assert(inputs@ =~= self.inputs@.take(i + 1));
            i += 1;
        }
        let mut outputs: Vec<TransactionOutput> = Vec::new();
        let mut j: usize = 0;
        while j < self.outputs.len()
            invariant
                j <= self.outputs@.len(),
                outputs@ == self.outputs@.take(j as int),
            decreases self.outputs@.len() - j,
        {
            outputs.push(self.outputs[j]);
            assert(outputs@ =~= self.outputs@.take(j + 1));
            j += 1;
        }
        assert(inputs@ =~= self.inputs@);
        assert(outputs@ =~= self.outputs@);
        Transaction { inputs, outputs }
    }
}

impl Clone for Transaction {
    fn clone(&self) -> (tx: Transaction)
        ensures
            tx@ == self@,
    {
        self.duplicate()
    }
}

} // verus!
