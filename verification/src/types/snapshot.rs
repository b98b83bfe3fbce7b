//! What is kept of a chain on disk: the unspent outputs, the blocks and the
//! target. The pending transactions are not kept.
use crate::codec::{
    all_valid, enc_array, enc_head, enc_u256, lemma_array_round_trip, lemma_head_round_trip,
    lemma_u256_round_trip, parse_array, parse_head, parse_u256, read_array, read_head, read_u256,
    spec_decode, views, write_array, write_head, write_u256, Canonical, TAG_ARRAY,
};
use crate::error::BtcError;
use crate::types::block::{Block, BlockView};
use crate::types::utxo::{distinct_keys, UtxoEntry};
use crate::u256::U256;
use vstd::prelude::*;

verus! {

/// What is kept of a chain.
#[derive(Debug, PartialEq, Eq)]
pub struct Snapshot {
    pub utxos: Vec<UtxoEntry>,
    pub blocks: Vec<Block>,
    pub target: U256,
}

/// What a snapshot holds.
pub struct SnapshotView {
    pub utxos: Seq<UtxoEntry>,
    pub blocks: Seq<BlockView>,
    pub target: U256,
}

impl View for Snapshot {
    type V = SnapshotView;

    open spec fn view(&self) -> SnapshotView {
        SnapshotView { utxos: self.utxos@, blocks: views(self.blocks@), target: self.target }
    }
}

/// The views of plain items are the items.
pub proof fn lemma_views_entries(items: Seq<UtxoEntry>)
    ensures
        views(items) == items,
{
    assert(views(items) =~= items);
}

impl Canonical for Snapshot {
    open spec fn spec_valid(v: SnapshotView) -> bool {
        v.utxos.len() <= usize::MAX && v.blocks.len() <= usize::MAX && all_valid::<Block>(v.blocks)
    }

    /// An array of the array of unspent outputs, the array of blocks and the
    /// target.
    open spec fn spec_encode(v: SnapshotView) -> Seq<u8> {
        enc_head(TAG_ARRAY, 3) + enc_array::<UtxoEntry>(v.utxos) + enc_array::<Block>(v.blocks)
            + enc_u256(v.target)
    }

    open spec fn spec_parse(s: Seq<u8>) -> Option<(SnapshotView, Seq<u8>)> {
        match parse_head(TAG_ARRAY, s) {
            Some((n, r0)) => match parse_array::<UtxoEntry>(r0) {
                Some((utxos, r1)) => match parse_array::<Block>(r1) {
                    Some((blocks, r2)) => match parse_u256(r2) {
                        Some((target, r3)) => if n == 3 {
                            Some((SnapshotView { utxos, blocks, target }, r3))
                        } else {
                            None
                        },
                        None => None,
                    },
                    None => None,
                },
                None => None,
            },
            None => None,
        }
    }

    proof fn lemma_round_trip(v: SnapshotView, rest: Seq<u8>) {
        let e3 = enc_u256(v.target) + rest;
        let e2 = enc_array::<Block>(v.blocks) + e3;
        let e1 = enc_array::<UtxoEntry>(v.utxos) + e2;
        assert(Self::spec_encode(v) + rest =~= enc_head(TAG_ARRAY, 3) + e1);
        lemma_head_round_trip(TAG_ARRAY, 3, e1);
        lemma_array_round_trip::<UtxoEntry>(v.utxos, e2);
        lemma_array_round_trip::<Block>(v.blocks, e3);
        lemma_u256_round_trip(v.target, rest);
    }

    fn encode_into(&self, out: &mut Vec<u8>) {
        proof {
            lemma_views_entries(self.utxos@);
        }
        write_head(out, TAG_ARRAY, 3);
        write_array(out, &self.utxos);
        write_array(out, &self.blocks);
        write_u256(out, &self.target);
        assert(out@ =~= old(out)@ + Self::spec_encode(self@));
    }

    fn decode_at(data: &[u8], pos: usize) -> (r: Option<(Self, usize)>) {
        let (n, at0) = match read_head(data, pos, TAG_ARRAY) {
            Some(x) => x,
            None => { return None; },
        };
        let (utxos, at1) = match read_array::<UtxoEntry>(data, at0) {
            Some(x) => x,
            None => { return None; },
        };
        let (blocks, at2) = match read_array::<Block>(data, at1) {
            Some(x) => x,
            None => { return None; },
        };
        let (target, at3) = match read_u256(data, at2) {
            Some(x) => x,
            None => { return None; },
        };
        proof {
            lemma_views_entries(utxos@);
        }
        if n != 3 {
            return None;
        }
        Some((Snapshot { utxos, blocks, target }, at3))
    }
}

/// Whether a chain can be made of what a snapshot holds: no two unspent
/// outputs have the same hash, and the target is at most the greatest
/// target.
pub open spec fn snapshot_usable(v: SnapshotView) -> bool {
    distinct_keys(v.utxos) && v.target@ <= crate::spec_min_target()@
}

/// What the loading of a chain from bytes returns: what the snapshot holds
/// that the bytes are the encoding of; `Codec` where they are the encoding
/// of none, or of one that no chain can be made of.
pub open spec fn spec_load(data: Seq<u8>) -> Result<SnapshotView, BtcError> {
    match spec_decode::<Snapshot>(data) {
        Some(v) => if snapshot_usable(v) {
            Ok(v)
        } else {
            Err(BtcError::Codec)
        },
        None => Err(BtcError::Codec),
    }
}

} // verus!
