//! The wallet: the keys that it owns, the unspent outputs that it knows of
//! for each key, the fee that it pays, and how it puts a transaction
//! together.
use crate::crypto::{PrivateKey, PublicKey, Signature};
use crate::error::BtcError;
use crate::types::transaction::{
    Transaction, TransactionInput, TransactionOutput, TransactionView,
};
use vstd::prelude::*;

verus! {

/// The ordered map of `crossbeam_skiplist`.
#[verifier::external_type_specification]
#[verifier::external_body]
#[verifier::reject_recursive_types(K)]
#[verifier::reject_recursive_types(V)]
pub struct ExSkipMap<K, V>(crossbeam_skiplist::SkipMap<K, V>);

/// The key of a slot: five numbers, compared one after the other.
pub type SlotKey = (u8, u64, u64, u64, u64);

/// The unspent outputs of one key, each with its mark.
pub type Slot = Vec<(TransactionOutput, bool)>;

/// The map from slot keys to slots.
pub type SlotMap = crossbeam_skiplist::SkipMap<SlotKey, Slot>;

/// What the slots hold, by their keys.
pub type Slots = Map<SlotKey, Seq<(TransactionOutput, bool)>>;

/// What a map from keys to lists of unspent outputs holds.
pub uninterp spec fn slots_of(map: SlotMap) -> Slots;

/// The key under which the unspent outputs of a public key are held: the
/// prefix and the limbs of the x coordinate, most significant first. Such
/// keys are in the order of the encoded public keys.
pub open spec fn slot_key(public: PublicKey) -> SlotKey {
    (public.prefix, public.x.w3, public.x.w2, public.x.w1, public.x.w0)
}

/// Whether the key `a` comes before the key `b`: the order of tuples, which
/// goes by the first component in which they differ.
pub open spec fn slot_key_lt(a: SlotKey, b: SlotKey) -> bool {
    a.0 < b.0 || (a.0 == b.0 && (a.1 < b.1 || (a.1 == b.1 && (a.2 < b.2 || (a.2 == b.2 && (a.3
        < b.3 || (a.3 == b.3 && a.4 < b.4)))))))
}

/// A list of the slots of a map, as it is handed out.
pub type Listing = Seq<(SlotKey, Seq<(TransactionOutput, bool)>)>;

/// Whether a sequence lists what a map holds, in the order of the keys.
pub open spec fn is_listing(
    list: Listing,
    slots: Slots,
) -> bool {
    &&& forall|i: int, j: int| 0 <= i < j < list.len() ==> slot_key_lt(list[i].0, list[j].0)
    &&& forall|i: int|
        0 <= i < list.len() ==> slots.dom().contains((#[trigger] list[i]).0) && slots[list[i].0]
            == list[i].1
    &&& forall|k: SlotKey|
        slots.dom().contains(k) ==> exists|i: int| 0 <= i < list.len() && (#[trigger] list[i]).0 == k
}

/// A map has one listing at most.
pub proof fn lemma_listing_unique(a: Listing, b: Listing, slots: Slots)
    requires
        is_listing(a, slots),
        is_listing(b, slots),
    ensures
        a == b,
    decreases a.len(),
{
    if a.len() == 0 {
        if b.len() > 0 {
            assert(slots.dom().contains(b[0].0));
            let i = choose|i: int| 0 <= i < a.len() && (#[trigger] a[i]).0 == b[0].0;
            assert(false);
        }
        assert(a =~= b);
    } else {
        let key = a[0].0;
        assert(slots.dom().contains(key));
        let j = choose|j: int| 0 <= j < b.len() && (#[trigger] b[j]).0 == key;
        assert(slots.dom().contains(b[0].0));
        let i = choose|i: int| 0 <= i < a.len() && (#[trigger] a[i]).0 == b[0].0;
        if j > 0 {
            assert(slot_key_lt(b[0].0, b[j].0));
            if i > 0 {
                assert(slot_key_lt(a[0].0, a[i].0));
            }
            assert(false);
        }
        assert(a[0] == b[0]);
        let rest = slots.remove(key);
        let a1 = a.skip(1);
        let b1 = b.skip(1);
        lemma_listing_tail(a, slots);
        lemma_listing_tail(b, slots);
        lemma_listing_unique(a1, b1, rest);
        assert(a =~= seq![a[0]] + a1);
        assert(b =~= seq![b[0]] + b1);
    }
}

/// A listing without its first slot lists the map without that slot.
pub proof fn lemma_listing_tail(list: Listing, slots: Slots)
    requires
        is_listing(list, slots),
        list.len() > 0,
    ensures
        is_listing(list.skip(1), slots.remove(list[0].0)),
{
    let key = list[0].0;
    let tail = list.skip(1);
    let rest = slots.remove(key);
    assert forall|i: int, j: int| 0 <= i < j < tail.len() implies slot_key_lt(
        tail[i].0,
        tail[j].0,
    ) by {
        assert(slot_key_lt(list[i + 1].0, list[j + 1].0));
    }
    assert forall|i: int| 0 <= i < tail.len() implies rest.dom().contains((#[trigger] tail[i]).0)
        && rest[tail[i].0] == tail[i].1 by {
        assert(tail[i] == list[i + 1]);
        assert(slot_key_lt(list[0].0, list[i + 1].0));
        assert(slots.dom().contains(list[i + 1].0));
    }
    assert forall|k: SlotKey| rest.dom().contains(k) implies exists|i: int|
        0 <= i < tail.len() && (#[trigger] tail[i]).0 == k by {
        assert(slots.dom().contains(k));
        let i = choose|i: int| 0 <= i < list.len() && (#[trigger] list[i]).0 == k;
        assert(i > 0);
        assert(tail[i - 1].0 == k);
    }
}

/// What a vector of slots holds.
pub open spec fn listing_view(list: Seq<(SlotKey, Vec<(TransactionOutput, bool)>)>) -> Listing {
    Seq::new(list.len(), |i: int| (list[i].0, list[i].1@))
}

/// Calls `SkipMap::new`, which returns an empty map.
#[verifier::external_body]
fn slots_new() -> (map: SlotMap)
    ensures
        slots_of(map) == Slots::empty(),
{
    crossbeam_skiplist::SkipMap::new()
}

/// Calls `SkipMap::insert`, which puts the value under the key and takes
/// out what was under the key before.
#[verifier::external_body]
fn slots_insert(map: &mut SlotMap, key: SlotKey, slot: Slot)
    ensures
        slots_of(*final(map)) == slots_of(*old(map)).insert(key, slot@),
{
    map.insert(key, slot);
}

/// Calls `SkipMap::iter`, which walks the entries in the order of their
/// keys, and copies each entry out.
#[verifier::external_body]
fn slots_list(map: &SlotMap) -> (list: Vec<(SlotKey, Slot)>)
    ensures
        is_listing(listing_view(list@), slots_of(*map)),
{
    map.iter().map(|entry| (*entry.key(), entry.value().clone())).collect()
}

/// Calls `Uuid::new_v4` and `Uuid::as_u128` of `uuid`: a random 128-bit
/// identifier. Nothing is stated of the result. The call does not return
/// where the operating system hands out no random bytes.
#[verifier::external_body]
fn fresh_unique_id() -> u128 {
    uuid::Uuid::new_v4().as_u128()
}

/// A key pair that the wallet owns.
#[derive(Clone, Copy, Debug, PartialEq, Eq)]
pub struct LoadedKey {
    pub public: PublicKey,
    pub private: PrivateKey,
}

/// How the fee of a transaction is reckoned.
#[derive(Clone, Copy, Debug, PartialEq, Eq, Structural)]
pub enum FeeType {
    /// The fee is a fixed number of sats.
    Fixed,
    /// The fee is a number of hundredths of the amount.
    Percent,
}

/// The fee policy: the kind of fee, and the number of sats or of hundredths.
#[derive(Clone, Copy, Debug, PartialEq, Eq, Structural)]
pub struct FeeConfig {
    pub fee_type: FeeType,
    pub value: u64,
}

/// The fee of a transfer of `amount` sats: the fixed fee, or the hundredths
/// of the amount, rounded down; at most the greatest 64-bit number.
pub open spec fn spec_fee(config: FeeConfig, amount: u64) -> u64 {
    match config.fee_type {
        FeeType::Fixed => config.value,
        FeeType::Percent => if amount * config.value / 100 <= u64::MAX {
            (amount * config.value / 100) as u64
        } else {
            u64::MAX
        },
    }
}

/// An unspent output that can be spent, with the key of the slot that it is
/// held in.
pub type Candidate = (SlotKey, TransactionOutput);

/// The unmarked outputs of a slot, in order.
pub open spec fn slot_candidates(key: SlotKey, slot: Seq<(TransactionOutput, bool)>) -> Seq<Candidate>
    decreases slot.len(),
{
    if slot.len() == 0 {
        Seq::empty()
    } else {
        let front = slot_candidates(key, slot.drop_last());
        if slot.last().1 {
            front
        } else {
            front.push((key, slot.last().0))
        }
    }
}

/// The unmarked outputs of the slots, in order.
pub open spec fn candidates(list: Listing) -> Seq<Candidate>
    decreases list.len(),
{
    if list.len() == 0 {
        Seq::empty()
    } else {
        candidates(list.drop_last()) + slot_candidates(list.last().0, list.last().1)
    }
}

/// The sum of the amounts of the candidates.
pub open spec fn candidates_value(c: Seq<Candidate>) -> nat
    decreases c.len(),
{
    if c.len() == 0 {
        0
    } else {
        candidates_value(c.drop_last()) + c.last().1.value as nat
    }
}

/// The number of candidates that a walk takes for a total: as few of the
/// first as hold the total, and all where none do.
pub open spec fn taken_count(c: Seq<Candidate>, total: nat) -> nat
    decreases c.len(),
{
    if c.len() == 0 {
        0
    } else if candidates_value(c.drop_last()) >= total {
        taken_count(c.drop_last(), total)
    } else {
        c.len()
    }
}

/// The sum of the amounts of all outputs of the slots, marked or not.
pub open spec fn slot_value(slot: Seq<(TransactionOutput, bool)>) -> nat
    decreases slot.len(),
{
    if slot.len() == 0 {
        0
    } else {
        slot_value(slot.drop_last()) + slot.last().0.value as nat
    }
}

/// The sum of the amounts of all outputs of the slots, marked or not.
pub open spec fn listing_value(list: Listing) -> nat
    decreases list.len(),
{
    if list.len() == 0 {
        0
    } else {
        listing_value(list.drop_last()) + slot_value(list.last().1)
    }
}

/// The private key of the first owned key pair whose public key has the
/// given slot key.
pub open spec fn private_for(keys: Seq<LoadedKey>, key: SlotKey) -> Option<PrivateKey>
    decreases keys.len(),
{
    if keys.len() == 0 {
        None
    } else if slot_key(keys[0].public) == key {
        Some(keys[0].private)
    } else {
        private_for(keys.skip(1), key)
    }
}

/// The input that spends a candidate: the hash of the output, signed with
/// the private key that belongs to the candidate's slot. `None` where the
/// wallet owns no such key, or the key cannot sign.
pub open spec fn signed_input(keys: Seq<LoadedKey>, c: Candidate) -> Option<TransactionInput> {
    match private_for(keys, c.0) {
        Some(private) => match Signature::spec_sign_output(c.1.spec_hash(), private) {
            Some(signature) => Some(
                TransactionInput { prev_transaction_output_hash: c.1.spec_hash(), signature },
            ),
            None => None,
        },
        None => None,
    }
}

/// The inputs that spend the candidates, in order. `None` where one of them
/// cannot be signed.
pub open spec fn signed_inputs(keys: Seq<LoadedKey>, c: Seq<Candidate>) -> Option<Seq<TransactionInput>>
    decreases c.len(),
{
    if c.len() == 0 {
        Some(Seq::empty())
    } else {
        match (signed_inputs(keys, c.drop_last()), signed_input(keys, c.last())) {
            (Some(front), Some(input)) => Some(front.push(input)),
            _ => None,
        }
    }
}

/// The outputs of a transfer: the amount to the recipient, and what the
/// inputs hold more than amount and fee to the first owned key, where that
/// is not nothing.
pub open spec fn transfer_outputs(
    keys: Seq<LoadedKey>,
    recipient: PublicKey,
    amount: u64,
    change: nat,
    ids: (u128, u128),
) -> Seq<TransactionOutput> {
    let pay = TransactionOutput { value: amount, unique_id: ids.0, pubkey: recipient };
    if change > 0 {
        seq![pay, TransactionOutput { value: change as u64, unique_id: ids.1, pubkey: keys[0].public }]
    } else {
        seq![pay]
    }
}

/// The transaction that pays `amount` to `recipient` with the given fee from
/// the unmarked outputs of the listing, with the given identifiers for its
/// outputs. `InvalidTransaction` where amount and fee do not fit in 64 bits;
/// `InsufficientFunds` where the unmarked outputs hold less than amount and
/// fee; `InvalidSignature` where an input cannot be signed.
pub open spec fn spec_create_transaction(
    keys: Seq<LoadedKey>,
    list: Listing,
    fee: u64,
    recipient: PublicKey,
    amount: u64,
    ids: (u128, u128),
) -> Result<TransactionView, BtcError> {
    let total = (amount + fee) as nat;
    let all = candidates(list);
    let taken = all.take(taken_count(all, total) as int);
    if total > u64::MAX {
        Err(BtcError::InvalidTransaction)
    } else if candidates_value(all) < total {
        Err(BtcError::InsufficientFunds)
    } else {
        match signed_inputs(keys, taken) {
            Some(inputs) => Ok(
                TransactionView {
                    inputs,
                    outputs: transfer_outputs(
                        keys,
                        recipient,
                        amount,
                        (candidates_value(taken) - total) as nat,
                        ids,
                    ),
                },
            ),
            None => Err(BtcError::InvalidSignature),
        }
    }
}

/// The sum over the first candidates is at most the sum over all.
pub proof fn lemma_candidates_value_prefix(c: Seq<Candidate>, k: int)
    requires
        0 <= k <= c.len(),
    ensures
        candidates_value(c.take(k)) <= candidates_value(c),
    decreases c.len(),
{
    if k == c.len() {
        assert(c.take(k) =~= c);
    } else {
        lemma_candidates_value_prefix(c.drop_last(), k);
        assert(c.drop_last().take(k) =~= c.take(k));
    }
}

/// A walk takes the fewest of the first candidates that hold the total: the
/// candidates before the last one taken hold less, and those taken hold the
/// total where all of them do.
pub proof fn lemma_taken_count(c: Seq<Candidate>, total: nat)
    ensures
        taken_count(c, total) <= c.len(),
        candidates_value(c) >= total ==> candidates_value(c.take(taken_count(c, total) as int))
            >= total,
        forall|m: int| 0 <= m < taken_count(c, total) ==> candidates_value(c.take(m)) < total,
    decreases c.len(),
{
    if c.len() == 0 {
        assert(c.take(0) =~= c);
    } else {
        let front = c.drop_last();
        lemma_taken_count(front, total);
        if candidates_value(front) >= total {
            let n = taken_count(front, total) as int;
            assert(front.take(n) =~= c.take(n));
            assert forall|m: int| 0 <= m < n implies candidates_value(c.take(m)) < total by {
                assert(front.take(m) =~= c.take(m));
            }
        } else {
            assert(c.take(c.len() as int) =~= c);
            assert forall|m: int| 0 <= m < c.len() implies candidates_value(c.take(m)) < total by {
                lemma_candidates_value_prefix(front, m);
                assert(front.take(m) =~= c.take(m));
            }
        }
    }
}

/// The unspent outputs that the wallet knows of, for each key that it owns.
#[derive(Debug)]
pub struct UtxoStore {
    keys: Vec<LoadedKey>,
    utxos: SlotMap,
}

impl UtxoStore {
    /// The key pairs that the wallet owns, in the order in which they were
    /// added.
    pub closed spec fn spec_keys(&self) -> Seq<LoadedKey> {
        self.keys@
    }

    /// The unspent outputs, by the slot key of the public key that they
    /// belong to.
    pub closed spec fn spec_slots(&self) -> Slots {
        slots_of(self.utxos)
    }

    /// The slots in the order of their keys.
    pub open spec fn spec_listing(&self) -> Listing {
        choose|list: Listing| is_listing(list, self.spec_slots())
    }

    /// A store without keys and without outputs.
    pub fn new() -> (store: UtxoStore)
        ensures
            store.spec_keys() == Seq::<LoadedKey>::empty(),
            store.spec_slots() == Slots::empty(),
    {
        UtxoStore { keys: Vec::new(), utxos: slots_new() }
    }

    /// Adds a key pair that the wallet owns.
    pub fn add_key(&mut self, key: LoadedKey)
        ensures
            final(self).spec_keys() == old(self).spec_keys().push(key),
            final(self).spec_slots() == old(self).spec_slots(),
    {
        self.keys.push(key);
    }

    /// The key pairs that the wallet owns.
    pub fn keys(&self) -> (keys: &Vec<LoadedKey>)
        ensures
            keys@ == self.spec_keys(),
    {
        &self.keys
    }

    /// Puts the unspent outputs of a public key in place of those that were
    /// known for it.
    pub fn set_utxos(&mut self, public: &PublicKey, utxos: Vec<(TransactionOutput, bool)>)
        ensures
            final(self).spec_keys() == old(self).spec_keys(),
            final(self).spec_slots() == old(self).spec_slots().insert(slot_key(*public), utxos@),
    {
        let key = (public.prefix, public.x.w3, public.x.w2, public.x.w1, public.x.w0);
        slots_insert(&mut self.utxos, key, utxos);
    }

    /// The slots, in the order of their keys.
    pub fn list(&self) -> (list: Vec<(SlotKey, Slot)>)
        ensures
            is_listing(listing_view(list@), self.spec_slots()),
            listing_view(list@) == self.spec_listing(),
    {
        let list = slots_list(&self.utxos);
        proof {
            lemma_listing_unique(listing_view(list@), self.spec_listing(), self.spec_slots());
        }
        list
    }
}

/// The private key of the first owned key pair whose public key has the
/// given slot key.
pub fn find_private(keys: &Vec<LoadedKey>, key: SlotKey) -> (r: Option<PrivateKey>)
    ensures
        r == private_for(keys@, key),
{
    let mut i: usize = 0;
    assert(keys@.skip(0) =~= keys@);
    while i < keys.len()
        invariant
            i <= keys@.len(),
            private_for(keys@, key) == private_for(keys@.skip(i as int), key),
        decreases keys@.len() - i,
    {
        let public = keys[i].public;
        assert(keys@.skip(i as int)[0] == keys@[i as int]);
        assert(keys@.skip(i as int).skip(1) =~= keys@.skip(i + 1));
        if public.prefix == key.0 && public.x.w3 == key.1 && public.x.w2 == key.2 && public.x.w1
            == key.3 && public.x.w0 == key.4 {
            return Some(keys[i].private);
        }
        i += 1;
    }
    None
}

/// The input that spends a candidate.
pub fn sign_candidate(keys: &Vec<LoadedKey>, key: SlotKey, output: &TransactionOutput) -> (r: Option<
    TransactionInput,
>)
    ensures
        r == signed_input(keys@, (key, *output)),
{
    let private = match find_private(keys, key) {
        Some(p) => p,
        None => { return None; },
    };
    let h = output.hash();
    match Signature::sign_output(&h, &private) {
        Some(signature) => Some(TransactionInput { prev_transaction_output_hash: h, signature }),
        None => None,
    }
}

/// The unmarked outputs of the slots, in order.
pub fn collect_candidates(list: &Vec<(SlotKey, Slot)>) -> (c: Vec<
    Candidate,
>)
    ensures
        c@ == candidates(listing_view(list@)),
{
    let ghost all = listing_view(list@);
    let mut c: Vec<Candidate> = Vec::new();
    let mut i: usize = 0;
    assert(all.take(0) =~= Seq::<(SlotKey, Seq<(TransactionOutput, bool)>)>::empty());
    while i < list.len()
        invariant
            i <= list@.len(),
            all == listing_view(list@),
            c@ == candidates(all.take(i as int)),
        decreases list@.len() - i,
    {
        let key = list[i].0;
        let slot = &list[i].1;
        let ghost before = c@;
        let mut j: usize = 0;
        assert(slot@.take(0) =~= Seq::<(TransactionOutput, bool)>::empty());
        while j < slot.len()
            invariant
                j <= slot@.len(),
                c@ == before + slot_candidates(key, slot@.take(j as int)),
            decreases slot@.len() - j,
        {
            assert(slot@.take(j + 1).drop_last() =~= slot@.take(j as int));
            if !slot[j].1 {
                c.push((key, slot[j].0));
                assert(c@ =~= before + slot_candidates(key, slot@.take(j + 1)));
            }
            j += 1;
        }
        proof {
            assert(slot@.take(j as int) =~= slot@);
            assert(all.take(i + 1).drop_last() =~= all.take(i as int));
            assert(all.take(i + 1).last() == (key, slot@));
        }
        i += 1;
    }
    assert(all.take(i as int) =~= all);
    c
}

/// Walks the candidates for a total: returns how many the walk takes, and
/// the sum of their amounts.
pub fn walk_candidates(all: &Vec<Candidate>, total: u64) -> (r: (usize, u128))
    ensures
        r.0 == taken_count(all@, total as nat),
        r.0 <= all@.len(),
        r.1 == candidates_value(all@.take(r.0 as int)),
        r.1 < total <==> candidates_value(all@) < total,
{
    let ghost c = all@;
    let mut n: usize = 0;
    let mut sum: u128 = 0;
    assert(c.take(0) =~= Seq::<Candidate>::empty());
    while n < all.len() && sum < total as u128
        invariant
            n <= all@.len(),
            c == all@,
            sum == candidates_value(c.take(n as int)),
            n == taken_count(c.take(n as int), total as nat),
            sum <= n * u64::MAX,
        decreases all@.len() - n,
    {
        proof {
            assert(c.take(n + 1).drop_last() =~= c.take(n as int));
            assert(c.take(n + 1).last() == c[n as int]);
            assert(n * u64::MAX + u64::MAX == (n + 1) * u64::MAX) by (nonlinear_arith);
            assert(n * u64::MAX <= usize::MAX * u64::MAX) by (nonlinear_arith)
                requires
                    n <= usize::MAX,
            ;
            assert(usize::MAX * u64::MAX <= u64::MAX * u64::MAX) by (nonlinear_arith)
                requires
                    usize::MAX <= u64::MAX,
            ;
        }
        sum = sum + all[n].1.value as u128;
        n += 1;
    }
    proof {
        lemma_taken_prefix(c, n as int, total as nat);
        if sum < total {
            assert(c.take(n as int) =~= c);
        } else {
            lemma_candidates_value_prefix(c, n as int);
        }
    }
    (n, sum)
}

/// The inputs that spend the first `n` candidates. `None` where one of them
/// cannot be signed.
pub fn sign_candidates(keys: &Vec<LoadedKey>, all: &Vec<Candidate>, n: usize) -> (r: Option<
    Vec<TransactionInput>,
>)
    requires
        n <= all@.len(),
    ensures
        match r {
            Some(inputs) => signed_inputs(keys@, all@.take(n as int)) == Some(inputs@),
            None => signed_inputs(keys@, all@.take(n as int)) is None,
        },
{
    let ghost taken = all@.take(n as int);
    let mut inputs: Vec<TransactionInput> = Vec::new();
    let mut i: usize = 0;
    assert(taken.take(0) =~= Seq::<Candidate>::empty());
    while i < n
        invariant
            i <= n <= all@.len(),
            taken == all@.take(n as int),
            signed_inputs(keys@, taken.take(i as int)) == Some(inputs@),
        decreases n - i,
    {
        let key = all[i].0;
        let output = all[i].1;
        let ghost cand = all@[i as int];
        assert(taken[i as int] == cand);
        let input = match sign_candidate(keys, key, &output) {
            Some(input) => input,
            None => {
                proof {
                    lemma_signed_inputs_fail(keys@, taken, i as int);
                }
                return None;
            },
        };
        proof {
            let next = taken.take(i + 1);
            assert(next.drop_last() =~= taken.take(i as int));
            assert(next.last() == cand);
            assert(signed_inputs(keys@, next) == Some(inputs@.push(input)));
        }
        inputs.push(input);
        i += 1;
    }
    assert(taken.take(i as int) =~= taken);
    Some(inputs)
}

/// The outputs of a transfer.
pub fn make_outputs(keys: &Vec<LoadedKey>, recipient: &PublicKey, amount: u64, change: u64, ids: (
    u128,
    u128,
)) -> (outputs: Vec<TransactionOutput>)
    requires
        change > 0 ==> keys@.len() > 0,
    ensures
        outputs@ == transfer_outputs(keys@, *recipient, amount, change as nat, ids),
{
    let mut outputs: Vec<TransactionOutput> = Vec::new();
    outputs.push(TransactionOutput { value: amount, unique_id: ids.0, pubkey: *recipient });
    if change > 0 {
        outputs.push(TransactionOutput { value: change, unique_id: ids.1, pubkey: keys[0].public });
    }
    assert(outputs@ =~= transfer_outputs(keys@, *recipient, amount, change as nat, ids));
    outputs
}

/// Puts together the transaction that pays `amount` to `recipient` with the
/// given fee from the unmarked outputs of the listing.
pub fn assemble_transaction(
    keys: &Vec<LoadedKey>,
    list: &Vec<(SlotKey, Slot)>,
    fee: u64,
    recipient: &PublicKey,
    amount: u64,
    ids: (u128, u128),
) -> (r: Result<Transaction, BtcError>)
    ensures
        match r {
            Ok(tx) => spec_create_transaction(
                keys@,
                listing_view(list@),
                fee,
                *recipient,
                amount,
                ids,
            ) == Ok::<TransactionView, BtcError>(tx@),
            Err(e) => spec_create_transaction(
                keys@,
                listing_view(list@),
                fee,
                *recipient,
                amount,
                ids,
            ) == Err::<TransactionView, BtcError>(e),
        },
{
    let total: u64 = match amount.checked_add(fee) {
        Some(t) => t,
        None => { return Err(BtcError::InvalidTransaction); },
    };
    let all = collect_candidates(list);
    let (n, sum) = walk_candidates(&all, total);
    if sum < total as u128 {
        return Err(BtcError::InsufficientFunds);
    }
    let inputs = match sign_candidates(keys, &all, n) {
        Some(inputs) => inputs,
        None => { return Err(BtcError::InvalidSignature); },
    };
    proof {
        let taken = all@.take(n as int);
        if sum > total {
            // The last candidate taken brought the sum over the total.
            assert(n > 0);
            assert(taken.drop_last() =~= all@.take(n - 1));
            lemma_taken_count(all@, total as nat);
            assert(candidates_value(all@.take(n - 1)) < total);
            lemma_signed_inputs_first(keys@, taken);
        }
    }
    let change: u64 = (sum - total as u128) as u64;
    let outputs = make_outputs(keys, recipient, amount, change, ids);
    Ok(Transaction::new(inputs, outputs))
}

/// What a walk takes of the first candidates, it takes of all of them, once
/// they hold the total or are all there are.
pub proof fn lemma_taken_prefix(c: Seq<Candidate>, n: int, total: nat)
    requires
        0 <= n <= c.len(),
        n == taken_count(c.take(n), total),
        candidates_value(c.take(n)) >= total || n == c.len(),
    ensures
        taken_count(c, total) == n,
    decreases c.len() - n,
{
    if n == c.len() {
        assert(c.take(n) =~= c);
    } else {
        let front = c.drop_last();
        assert(front.take(n) =~= c.take(n));
        lemma_candidates_value_prefix(front, n);
        lemma_taken_prefix(front, n, total);
    }
}

/// Where a candidate cannot be signed, the candidates cannot.
pub proof fn lemma_signed_inputs_fail(keys: Seq<LoadedKey>, c: Seq<Candidate>, i: int)
    requires
        0 <= i < c.len(),
        signed_input(keys, c[i]) is None,
    ensures
        signed_inputs(keys, c) is None,
    decreases c.len(),
{
    if i < c.len() - 1 {
        lemma_signed_inputs_fail(keys, c.drop_last(), i);
    }
}

/// Where the candidates can be signed and there are some, the wallet owns
/// the key of the first.
pub proof fn lemma_signed_inputs_first(keys: Seq<LoadedKey>, c: Seq<Candidate>)
    requires
        c.len() > 0,
        signed_inputs(keys, c) is Some,
    ensures
        private_for(keys, c[0].0) is Some,
        keys.len() > 0,
    decreases c.len(),
{
    if c.len() > 1 {
        lemma_signed_inputs_first(keys, c.drop_last());
    }
}

/// The outputs of an answer with their marks, as a slot holds them: the
/// output first.
pub open spec fn swapped(list: Seq<(bool, TransactionOutput)>) -> Seq<(TransactionOutput, bool)> {
    Seq::new(list.len(), |i: int| (list[i].1, list[i].0))
}

/// The wallet: its fee policy and what it knows of its unspent outputs.
#[derive(Debug)]
pub struct Core {
    pub fee_config: FeeConfig,
    pub utxos: UtxoStore,
}

impl Core {
    /// A wallet with the given fee policy and store.
    pub fn new(fee_config: FeeConfig, utxos: UtxoStore) -> (core: Core)
        ensures
            core.fee_config == fee_config,
            core.utxos == utxos,
    {
        Core { fee_config, utxos }
    }

    /// The fee of a transfer of `amount` sats.
    pub fn calculate_fee(&self, amount: u64) -> (fee: u64)
        ensures
            fee == spec_fee(self.fee_config, amount),
    {
        match self.fee_config.fee_type {
            FeeType::Fixed => self.fee_config.value,
            FeeType::Percent => {
                proof {
                    assert(amount * self.fee_config.value <= u64::MAX * u64::MAX) by (nonlinear_arith)
                        requires
                            0 <= amount <= u64::MAX,
                            0 <= self.fee_config.value <= u64::MAX,
                    ;
                }
                let share: u128 = (amount as u128) * (self.fee_config.value as u128) / 100;
                if share <= 0xFFFF_FFFF_FFFF_FFFFu128 {
                    share as u64
                } else {
                    u64::MAX
                }
            },
        }
    }

    /// The sum of the amounts of all unspent outputs that the wallet knows
    /// of, marked or not; at most the greatest 64-bit number.
    pub fn get_balance(&self) -> (balance: u64)
        ensures
            balance == if listing_value(self.utxos.spec_listing()) <= u64::MAX {
                listing_value(self.utxos.spec_listing())
            } else {
                u64::MAX as nat
            },
    {
        let list = self.utxos.list();
        let ghost all = listing_view(list@);
        let mut balance: u64 = 0;
        let mut i: usize = 0;
        assert(all.take(0) =~= Seq::<(SlotKey, Seq<(TransactionOutput, bool)>)>::empty());
        while i < list.len()
            invariant
                i <= list@.len(),
                all == listing_view(list@),
                balance == if listing_value(all.take(i as int)) <= u64::MAX {
                    listing_value(all.take(i as int))
                } else {
                    u64::MAX as nat
                },
            decreases list@.len() - i,
        {
            let slot = &list[i].1;
            let ghost before = listing_value(all.take(i as int));
            let mut j: usize = 0;
            assert(slot@.take(0) =~= Seq::<(TransactionOutput, bool)>::empty());
            while j < slot.len()
                invariant
                    j <= slot@.len(),
                    balance == if before + slot_value(slot@.take(j as int)) <= u64::MAX {
                        before + slot_value(slot@.take(j as int))
                    } else {
                        u64::MAX as nat
                    },
                decreases slot@.len() - j,
            {
                assert(slot@.take(j + 1).drop_last() =~= slot@.take(j as int));
                balance = balance.saturating_add(slot[j].0.value);
                j += 1;
            }
            proof {
                assert(slot@.take(j as int) =~= slot@);
                assert(all.take(i + 1).drop_last() =~= all.take(i as int));
                assert(all.take(i + 1).last() == (list@[i as int].0, slot@));
            }
            i += 1;
        }
        assert(all.take(i as int) =~= all);
        balance
    }

    /// Takes in the answer of a node to a request for the unspent outputs of
    /// a public key: puts the outputs in place of those that were known for
    /// the key. `Protocol` where the answer is another message; the store is
    /// then as it was.
    pub fn store_utxos(&mut self, public: &PublicKey, answer: crate::network::Message) -> (r: Result<
        (),
        BtcError,
    >)
        ensures
            final(self).fee_config == old(self).fee_config,
            final(self).utxos.spec_keys() == old(self).utxos.spec_keys(),
            match answer {
                crate::network::Message::UTXOs(list) => r is Ok && final(self).utxos.spec_slots()
                    == old(self).utxos.spec_slots().insert(slot_key(*public), swapped(list@)),
                _ => r == Err::<(), BtcError>(BtcError::Protocol) && final(self).utxos.spec_slots()
                    == old(self).utxos.spec_slots(),
            },
    {
        match answer {
            crate::network::Message::UTXOs(list) => {
                let mut slot: Vec<(TransactionOutput, bool)> = Vec::new();
                let mut i: usize = 0;
                while i < list.len()
                    invariant
                        i <= list@.len(),
                        slot@ == swapped(list@).take(i as int),
                    decreases list@.len() - i,
                {
                    slot.push((list[i].1, list[i].0));
                    assert(slot@ =~= swapped(list@).take(i + 1));
                    i += 1;
                }
                assert(slot@ =~= swapped(list@));
                self.utxos.set_utxos(public, slot);
                Ok(())
            },
            _ => Err(BtcError::Protocol),
        }
    }

    /// Puts together a transaction that pays `amount` to `recipient`, with
    /// the fee of the wallet's policy, from the unmarked outputs that the
    /// wallet knows of, in the order of their slots. The outputs get fresh
    /// random identifiers.
    pub fn create_transaction(&self, recipient: &PublicKey, amount: u64) -> (r: Result<
        Transaction,
        BtcError,
    >)
        ensures
            exists|ids: (u128, u128)|
                match r {
                    Ok(tx) => #[trigger] spec_create_transaction(
                        self.utxos.spec_keys(),
                        self.utxos.spec_listing(),
                        spec_fee(self.fee_config, amount),
                        *recipient,
                        amount,
                        ids,
                    ) == Ok::<TransactionView, BtcError>(tx@),
                    Err(e) => spec_create_transaction(
                        self.utxos.spec_keys(),
                        self.utxos.spec_listing(),
                        spec_fee(self.fee_config, amount),
                        *recipient,
                        amount,
                        ids,
                    ) == Err::<TransactionView, BtcError>(e),
                },
    {
        let fee = self.calculate_fee(amount);
        let list = self.utxos.list();
        let ids = (fresh_unique_id(), fresh_unique_id());
        assemble_transaction(self.utxos.keys(), &list, fee, recipient, amount, ids)
    }
}

} // verus!
