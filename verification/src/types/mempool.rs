//! The pool of pending transactions: their fees and order, and which of
//! them give way to a new one.
use crate::codec::views;
use crate::types::block::spent_of;
use crate::types::transaction::{Transaction, TransactionInput, TransactionView};
use crate::types::utxo::{input_sum, is_marked, output_sum, sum_outputs, UtxoMap, UtxoSet};
use vstd::prelude::*;

verus! {

/// What an entry of the pool holds: a transaction and when it was admitted,
/// in seconds since the epoch.
pub type EntryView = (TransactionView, u64);

/// The fee of a transaction: what the unspent outputs that its inputs name
/// hold more than its outputs; zero where they hold less.
pub open spec fn fee_of(tx: TransactionView, utxos: UtxoMap) -> nat {
    let taken = input_sum(tx.inputs, utxos);
    let paid = output_sum(tx.outputs);
    if taken >= paid {
        (taken - paid) as nat
    } else {
        0
    }
}

/// The place at which an entry with the fee `fee` goes into entries that are
/// in the order of their fees: behind every entry with that fee or less.
pub open spec fn insert_place(sorted: Seq<EntryView>, fee: nat, utxos: UtxoMap) -> int
    decreases sorted.len(),
{
    if sorted.len() == 0 || fee_of(sorted.last().0, utxos) <= fee {
        sorted.len() as int
    } else {
        insert_place(sorted.drop_last(), fee, utxos)
    }
}

/// The entries in the order of their fees, least first; entries with the
/// same fee keep their order.
pub open spec fn fee_sort(entries: Seq<EntryView>, utxos: UtxoMap) -> Seq<EntryView>
    decreases entries.len(),
{
    if entries.len() == 0 {
        Seq::empty()
    } else {
        let front = fee_sort(entries.drop_last(), utxos);
        front.insert(insert_place(front, fee_of(entries.last().0, utxos), utxos), entries.last())
    }
}

/// Whether the fees of the entries do not fall from one entry to the next.
pub open spec fn fees_ascend(entries: Seq<EntryView>, utxos: UtxoMap) -> bool {
    forall|i: int, j: int|
        0 <= i < j < entries.len() ==> fee_of(entries[i].0, utxos) <= fee_of(entries[j].0, utxos)
}

/// Where an entry goes, every entry before has that fee or less and every
/// entry behind has more.
pub proof fn lemma_insert_place(sorted: Seq<EntryView>, fee: nat, utxos: UtxoMap)
    requires
        fees_ascend(sorted, utxos),
    ensures
        0 <= insert_place(sorted, fee, utxos) <= sorted.len(),
        forall|i: int|
            0 <= i < insert_place(sorted, fee, utxos) ==> fee_of(sorted[i].0, utxos) <= fee,
        forall|i: int|
            insert_place(sorted, fee, utxos) <= i < sorted.len() ==> fee_of(sorted[i].0, utxos)
                > fee,
    decreases sorted.len(),
{
    if sorted.len() == 0 || fee_of(sorted.last().0, utxos) <= fee {
        assert forall|i: int| 0 <= i < sorted.len() implies fee_of(sorted[i].0, utxos) <= fee by {
            if i < sorted.len() - 1 {
                assert(fee_of(sorted[i].0, utxos) <= fee_of(sorted[sorted.len() - 1].0, utxos));
            }
        }
    } else {
        let front = sorted.drop_last();
        assert(fees_ascend(front, utxos)) by {
            assert forall|i: int, j: int| 0 <= i < j < front.len() implies fee_of(
                front[i].0,
                utxos,
            ) <= fee_of(front[j].0, utxos) by {
                assert(front[i] == sorted[i] && front[j] == sorted[j]);
            }
        }
        lemma_insert_place(front, fee, utxos);
        let p = insert_place(front, fee, utxos);
        assert forall|i: int| 0 <= i < p implies fee_of(sorted[i].0, utxos) <= fee by {
            assert(front[i] == sorted[i]);
        }
        assert forall|i: int| p <= i < sorted.len() implies fee_of(sorted[i].0, utxos) > fee by {
            if i < front.len() {
                assert(front[i] == sorted[i]);
            }
        }
    }
}

/// The sorted entries are the same entries, and their fees ascend.
pub proof fn lemma_fee_sort(entries: Seq<EntryView>, utxos: UtxoMap)
    ensures
        fee_sort(entries, utxos).len() == entries.len(),
        fee_sort(entries, utxos).to_multiset() == entries.to_multiset(),
        fees_ascend(fee_sort(entries, utxos), utxos),
    decreases entries.len(),
{
    broadcast use vstd::seq_lib::group_to_multiset_ensures;

    if entries.len() == 0 {
        assert(fee_sort(entries, utxos).to_multiset() =~= entries.to_multiset());
    } else {
        let front_in = entries.drop_last();
        let last = entries.last();
        lemma_fee_sort(front_in, utxos);
        let front = fee_sort(front_in, utxos);
        let fee = fee_of(last.0, utxos);
        lemma_insert_place(front, fee, utxos);
        let p = insert_place(front, fee, utxos);
        let out = front.insert(p, last);
        assert(out == fee_sort(entries, utxos));
        assert forall|i: int, j: int| 0 <= i < j < out.len() implies fee_of(out[i].0, utxos)
            <= fee_of(out[j].0, utxos) by {
            let a = if i < p { i } else { i - 1 };
            let b = if j < p { j } else { j - 1 };
            if i != p {
                assert(out[i] == front[a]);
            }
            if j != p {
                assert(out[j] == front[b]);
            }
        }
        assert(entries =~= front_in.push(last));
        assert(out.to_multiset() =~= entries.to_multiset());
    }
}

/// Whether an output of the transaction has the hash `h`.
pub open spec fn creates(tx: TransactionView, h: crate::sha256::Hash) -> bool {
    exists|o: int| 0 <= o < tx.outputs.len() && (#[trigger] tx.outputs[o]).spec_hash() == h
}

/// The place of the first entry with an output that has the hash `h`; the
/// number of entries where there is none.
pub open spec fn creator_index(entries: Seq<EntryView>, h: crate::sha256::Hash) -> int
    decreases entries.len(),
{
    if entries.len() == 0 {
        0
    } else {
        let front = creator_index(entries.drop_last(), h);
        if front < entries.len() - 1 || creates(entries.last().0, h) {
            front
        } else {
            entries.len() as int
        }
    }
}

/// Whether the entry at place `i` gives way to a transaction with the given
/// inputs: it is the first entry with an output whose hash is that of a
/// marked unspent output that one of the inputs names.
pub open spec fn evicts(
    entries: Seq<EntryView>,
    inputs: Seq<TransactionInput>,
    utxos: UtxoMap,
    i: int,
) -> bool
    decreases inputs.len(),
{
    if inputs.len() == 0 {
        false
    } else {
        let h = inputs.last().prev_transaction_output_hash;
        evicts(entries, inputs.drop_last(), utxos, i) || (is_marked(utxos, h) && creator_index(
            entries,
            h,
        ) == i)
    }
}

/// For each entry, whether it gives way to a transaction with the given
/// inputs.
pub open spec fn eviction_flags(
    entries: Seq<EntryView>,
    inputs: Seq<TransactionInput>,
    utxos: UtxoMap,
) -> Seq<bool> {
    Seq::new(entries.len(), |i: int| evicts(entries, inputs, utxos, i))
}

/// The hashes that the inputs name of marked unspent outputs that no entry
/// has an output for: their marks are stale.
pub open spec fn stale_marks(
    entries: Seq<EntryView>,
    inputs: Seq<TransactionInput>,
    utxos: UtxoMap,
) -> Seq<crate::sha256::Hash>
    decreases inputs.len(),
{
    if inputs.len() == 0 {
        Seq::empty()
    } else {
        let h = inputs.last().prev_transaction_output_hash;
        let front = stale_marks(entries, inputs.drop_last(), utxos);
        if is_marked(utxos, h) && creator_index(entries, h) == entries.len() {
            front.push(h)
        } else {
            front
        }
    }
}

/// The entries that are not flagged, in their order.
pub open spec fn retained(entries: Seq<EntryView>, flags: Seq<bool>) -> Seq<EntryView>
    recommends
        flags.len() >= entries.len(),
    decreases entries.len(),
{
    if entries.len() == 0 {
        Seq::empty()
    } else {
        let front = retained(entries.drop_last(), flags);
        if flags[entries.len() - 1] {
            front
        } else {
            front.push(entries.last())
        }
    }
}

/// The hashes that the inputs of the flagged entries name, in order.
pub open spec fn released(entries: Seq<EntryView>, flags: Seq<bool>) -> Seq<crate::sha256::Hash>
    recommends
        flags.len() >= entries.len(),
    decreases entries.len(),
{
    if entries.len() == 0 {
        Seq::empty()
    } else {
        let front = released(entries.drop_last(), flags);
        if flags[entries.len() - 1] {
            front + spent_of(entries.last().0)
        } else {
            front
        }
    }
}

/// Every entry that is retained is an entry that was not flagged.
pub proof fn lemma_retained_members(entries: Seq<EntryView>, flags: Seq<bool>)
    requires
        flags.len() >= entries.len(),
    ensures
        forall|k: int|
            0 <= k < retained(entries, flags).len() ==> exists|i: int|
                0 <= i < entries.len() && !flags[i] && entries[i] == #[trigger] retained(
                    entries,
                    flags,
                )[k],
    decreases entries.len(),
{
    if entries.len() > 0 {
        let front = entries.drop_last();
        lemma_retained_members(front, flags);
        let kept = retained(entries, flags);
        assert forall|k: int| 0 <= k < kept.len() implies exists|i: int|
            0 <= i < entries.len() && !flags[i] && entries[i] == #[trigger] kept[k] by {
            if k < retained(front, flags).len() {
                let i = choose|i: int|
                    0 <= i < front.len() && !flags[i] && front[i] == retained(front, flags)[k];
                assert(entries[i] == kept[k]);
            } else {
                assert(entries[entries.len() - 1] == kept[k]);
            }
        }
    }
}

/// The fee of a transaction. It fits in 128 bits for every transaction.
pub fn fee(tx: &Transaction, utxos: &UtxoSet) -> (f: u128)
    requires
        utxos.wf(),
    ensures
        f == fee_of(tx@, utxos@),
{
    let taken = utxos.sum_inputs(&tx.inputs);
    let paid = sum_outputs(&tx.outputs);
    if taken >= paid {
        taken - paid
    } else {
        0
    }
}

/// The entries in the order of their fees, least first; entries with the
/// same fee keep their order.
pub fn sort_by_fee(entries: &Vec<(Transaction, u64)>, utxos: &UtxoSet) -> (sorted: Vec<
    (Transaction, u64),
>)
    requires
        utxos.wf(),
    ensures
        views(sorted@) == fee_sort(views(entries@), utxos@),
{
    let ghost all = views(entries@);
    let mut sorted: Vec<(Transaction, u64)> = Vec::new();
    let mut i: usize = 0;
    assert(all.take(0) =~= Seq::<EntryView>::empty());
    assert(views(sorted@) =~= Seq::<EntryView>::empty());
    while i < entries.len()
        invariant
            utxos.wf(),
            i <= entries@.len(),
            all == views(entries@),
            views(sorted@) == fee_sort(all.take(i as int), utxos@),
        decreases entries@.len() - i,
    {
        let key = fee(&entries[i].0, utxos);
        let ghost dest = views(sorted@);
        let mut p: usize = sorted.len();
        assert(dest.take(p as int) =~= dest);
        while p > 0 && fee(&sorted[p - 1].0, utxos) > key
            invariant
                utxos.wf(),
                p <= sorted@.len(),
                dest == views(sorted@),
                insert_place(dest, key as nat, utxos@) == insert_place(
                    dest.take(p as int),
                    key as nat,
                    utxos@,
                ),
            decreases p,
        {
            assert(dest.take(p as int).drop_last() =~= dest.take(p - 1));
            assert(dest.take(p as int).last() == sorted@[p - 1]@);
            p -= 1;
        }
        proof {
            if p > 0 {
                assert(dest.take(p as int).last() == sorted@[p - 1]@);
            }
            assert(insert_place(dest, key as nat, utxos@) == p);
        }
        let entry = (entries[i].0.duplicate(), entries[i].1);
        let ghost before = sorted@;
        sorted.insert(p, entry);
        proof {
            assert(sorted@ == before.insert(p as int, entry));
            assert(views(sorted@) =~= dest.insert(p as int, entry@)) by {
                assert forall|k: int| 0 <= k < sorted@.len() implies views(sorted@)[k]
                    == dest.insert(p as int, entry@)[k] by {
                    if k < p {
                        assert(sorted@[k] == before[k]);
                    } else if k > p {
                        assert(sorted@[k] == before[k - 1]);
                    }
                }
            }
            assert(all.take(i + 1).drop_last() =~= all.take(i as int));
            assert(all.take(i + 1).last() == entry@);
        }
        i += 1;
    }
    assert(all.take(i as int) =~= all);
    sorted
}

/// Whether an output of the transaction has the hash `h`.
pub fn creates_hash(tx: &Transaction, h: &crate::sha256::Hash) -> (r: bool)
    ensures
        r == creates(tx@, *h),
{
    let mut o: usize = 0;
    while o < tx.outputs.len()
        invariant
            o <= tx.outputs@.len(),
            forall|k: int| 0 <= k < o ==> (#[trigger] tx.outputs@[k]).spec_hash() != *h,
        decreases tx.outputs@.len() - o,
    {
        if tx.outputs[o].hash() == *h {
            assert(tx@.outputs[o as int].spec_hash() == *h);
            return true;
        }
        o += 1;
    }
    false
}

/// The place of the first entry with an output that has the hash `h`; the
/// number of entries where there is none.
pub fn find_creator(entries: &Vec<(Transaction, u64)>, h: &crate::sha256::Hash) -> (place: usize)
    ensures
        place == creator_index(views(entries@), *h),
        place <= entries@.len(),
{
    let ghost all = views(entries@);
    let mut i: usize = 0;
    assert(all.take(0) =~= Seq::<EntryView>::empty());
    while i < entries.len()
        invariant
            i <= entries@.len(),
            all == views(entries@),
            creator_index(all.take(i as int), *h) == i,
        decreases entries@.len() - i,
    {
        let found = creates_hash(&entries[i].0, h);
        proof {
            assert(all.take(i + 1).drop_last() =~= all.take(i as int));
            assert(all.take(i + 1).last() == entries@[i as int]@);
        }
        if found {
            proof {
                lemma_creator_found(all, *h, i as int);
            }
            return i;
        }
        i += 1;
    }
    assert(all.take(i as int) =~= all);
    i
}

/// Once an entry with an output for `h` is found, entries behind it do not
/// change which is the first.
pub proof fn lemma_creator_found(entries: Seq<EntryView>, h: crate::sha256::Hash, i: int)
    requires
        0 <= i < entries.len(),
        creator_index(entries.take(i + 1), h) == i,
    ensures
        creator_index(entries, h) == i,
    decreases entries.len(),
{
    if entries.len() == i + 1 {
        assert(entries.take(i + 1) =~= entries);
    } else {
        let front = entries.drop_last();
        assert(front.take(i + 1) =~= entries.take(i + 1));
        lemma_creator_found(front, h, i);
    }
}

/// The first entry with an output for `h` is at a place among the entries,
/// or there is none.
pub proof fn lemma_creator_index_bound(entries: Seq<EntryView>, h: crate::sha256::Hash)
    ensures
        0 <= creator_index(entries, h) <= entries.len(),
    decreases entries.len(),
{
    if entries.len() > 0 {
        lemma_creator_index_bound(entries.drop_last(), h);
    }
}

/// The entries that are not flagged, in their order.
pub fn retain_unflagged(entries: &Vec<(Transaction, u64)>, flags: &Vec<bool>) -> (kept: Vec<
    (Transaction, u64),
>)
    requires
        flags@.len() == entries@.len(),
    ensures
        views(kept@) == retained(views(entries@), flags@),
{
    let ghost all = views(entries@);
    let mut kept: Vec<(Transaction, u64)> = Vec::new();
    let mut i: usize = 0;
    assert(all.take(0) =~= Seq::<EntryView>::empty());
    assert(views(kept@) =~= Seq::<EntryView>::empty());
    while i < entries.len()
        invariant
            i <= entries@.len(),
            flags@.len() == entries@.len(),
            all == views(entries@),
            views(kept@) == retained(all.take(i as int), flags@),
        decreases entries@.len() - i,
    {
        proof {
            assert(all.take(i + 1).drop_last() =~= all.take(i as int));
            assert(all.take(i + 1).last() == entries@[i as int]@);
        }
        if !flags[i] {
            let entry = (entries[i].0.duplicate(), entries[i].1);
            let ghost before = kept@;
            kept.push(entry);
            assert(views(kept@) =~= views(before).push(entry@));
        }
        i += 1;
    }
    assert(all.take(i as int) =~= all);
    kept
}

/// The hashes that the inputs of the flagged entries name, in order.
pub fn collect_released(entries: &Vec<(Transaction, u64)>, flags: &Vec<bool>) -> (hashes: Vec<
    crate::sha256::Hash,
>)
    requires
        flags@.len() == entries@.len(),
    ensures
        hashes@ == released(views(entries@), flags@),
{
    let ghost all = views(entries@);
    let mut hashes: Vec<crate::sha256::Hash> = Vec::new();
    let mut i: usize = 0;
    assert(all.take(0) =~= Seq::<EntryView>::empty());
    while i < entries.len()
        invariant
            i <= entries@.len(),
            flags@.len() == entries@.len(),
            all == views(entries@),
            hashes@ == released(all.take(i as int), flags@),
        decreases entries@.len() - i,
    {
        proof {
            assert(all.take(i + 1).drop_last() =~= all.take(i as int));
            assert(all.take(i + 1).last() == entries@[i as int]@);
        }
        if flags[i] {
            let tx = &entries[i].0;
            let ghost before = hashes@;
            let mut j: usize = 0;
            while j < tx.inputs.len()
                invariant
                    j <= tx.inputs@.len(),
                    hashes@ == before + spent_of(tx@).take(j as int),
                decreases tx.inputs@.len() - j,
            {
                hashes.push(tx.inputs[j].prev_transaction_output_hash);
                assert(hashes@ =~= before + spent_of(tx@).take(j + 1));
                j += 1;
            }
            assert(spent_of(tx@).take(j as int) =~= spent_of(tx@));
        }
        i += 1;
    }
    assert(all.take(i as int) =~= all);
    hashes
}

/// Finds what gives way to a transaction with the given inputs: for each
/// entry whether it does, and the hashes whose marks are stale.
pub fn find_conflicts(
    entries: &Vec<(Transaction, u64)>,
    inputs: &Vec<TransactionInput>,
    utxos: &UtxoSet,
) -> (r: (Vec<bool>, Vec<crate::sha256::Hash>))
    requires
        utxos.wf(),
    ensures
        r.0@ == eviction_flags(views(entries@), inputs@, utxos@),
        r.1@ == stale_marks(views(entries@), inputs@, utxos@),
{
    let ghost all = views(entries@);
    let mut flags: Vec<bool> = Vec::new();
    let mut n: usize = 0;
    while n < entries.len()
        invariant
            n <= entries@.len(),
            flags@.len() == n,
            forall|i: int| 0 <= i < n ==> !flags@[i],
        decreases entries@.len() - n,
    {
        flags.push(false);
        n += 1;
    }
    let mut stale: Vec<crate::sha256::Hash> = Vec::new();
    let mut k: usize = 0;
    assert(inputs@.take(0) =~= Seq::<TransactionInput>::empty());
    while k < inputs.len()
        invariant
            utxos.wf(),
            k <= inputs@.len(),
            all == views(entries@),
            flags@.len() == entries@.len(),
            forall|i: int|
                0 <= i < flags@.len() ==> flags@[i] == evicts(
                    all,
                    inputs@.take(k as int),
                    utxos@,
                    i,
                ),
            stale@ == stale_marks(all, inputs@.take(k as int), utxos@),
        decreases inputs@.len() - k,
    {
        let h = inputs[k].prev_transaction_output_hash;
        proof {
            assert(inputs@.take(k + 1).drop_last() =~= inputs@.take(k as int));
            assert(inputs@.take(k + 1).last() == inputs@[k as int]);
        }
        let marked = match utxos.get(&h) {
            Some((_, marked)) => marked,
            None => false,
        };
        if marked {
            let place = find_creator(entries, &h);
            if place < entries.len() {
                flags[place] = true;
            } else {
                stale.push(h);
            }
        }
        k += 1;
    }
    proof {
        assert(inputs@.take(k as int) =~= inputs@);
        assert(flags@ =~= eviction_flags(all, inputs@, utxos@));
    }
    (flags, stale)
}

} // verus!
