//! The set of unspent outputs: a map from the hash of an output to the
//! output and a mark. A marked output is reserved by a pending transaction.
use crate::codec::{
    enc_bool, enc_hash, enc_head, lemma_bool_round_trip, lemma_hash_round_trip,
    lemma_head_round_trip, parse_bool, parse_hash, parse_head, read_bool, read_hash, read_head,
    write_bool, write_hash, write_head, Canonical, TAG_ARRAY,
};
use crate::types::transaction::{TransactionInput, TransactionOutput};
use vstd::prelude::*;

verus! {

/// What the set of unspent outputs holds: for each hash, the output and
/// whether it is marked.
pub type UtxoMap = Map<crate::sha256::Hash, (TransactionOutput, bool)>;

/// One unspent output with its hash and its mark.
#[derive(Clone, Copy, Debug, PartialEq, Eq, Structural)]
pub struct UtxoEntry {
    pub hash: crate::sha256::Hash,
    pub output: TransactionOutput,
    pub marked: bool,
}

impl View for UtxoEntry {
    type V = UtxoEntry;

    open spec fn view(&self) -> UtxoEntry {
        *self
    }
}

impl Canonical for UtxoEntry {
    open spec fn spec_valid(v: UtxoEntry) -> bool {
        true
    }

    /// An array of the hash, the output and the mark.
    open spec fn spec_encode(v: UtxoEntry) -> Seq<u8> {
        enc_head(TAG_ARRAY, 3) + enc_hash(v.hash) + TransactionOutput::spec_encode(v.output)
            + enc_bool(v.marked)
    }

    open spec fn spec_parse(s: Seq<u8>) -> Option<(UtxoEntry, Seq<u8>)> {
        match parse_head(TAG_ARRAY, s) {
            Some((n, r0)) => match parse_hash(r0) {
                Some((hash, r1)) => match TransactionOutput::spec_parse(r1) {
                    Some((output, r2)) => match parse_bool(r2) {
                        Some((marked, r3)) => if n == 3 {
                            Some((UtxoEntry { hash, output, marked }, r3))
                        } else {
                            None
                        },
                        None => None,
                    },
                    None => None,
                },
                None => None,
            },
            None => None,
        }
    }

    proof fn lemma_round_trip(v: UtxoEntry, rest: Seq<u8>) {
        let e3 = enc_bool(v.marked) + rest;
        let e2 = TransactionOutput::spec_encode(v.output) + e3;
        let e1 = enc_hash(v.hash) + e2;
        assert(Self::spec_encode(v) + rest =~= enc_head(TAG_ARRAY, 3) + e1);
        lemma_head_round_trip(TAG_ARRAY, 3, e1);
        lemma_hash_round_trip(v.hash, e2);
        TransactionOutput::lemma_round_trip(v.output, e3);
        lemma_bool_round_trip(v.marked, rest);
    }

    fn encode_into(&self, out: &mut Vec<u8>) {
        write_head(out, TAG_ARRAY, 3);
        write_hash(out, &self.hash);
        self.output.encode_into(out);
        write_bool(out, self.marked);
        assert(out@ =~= old(out)@ + Self::spec_encode(*self));
    }

    fn decode_at(data: &[u8], pos: usize) -> (r: Option<(Self, usize)>) {
        let (n, at0) = match read_head(data, pos, TAG_ARRAY) {
            Some(x) => x,
            None => { return None; },
        };
        let (hash, at1) = match read_hash(data, at0) {
            Some(x) => x,
            None => { return None; },
        };
        let (output, at2) = match TransactionOutput::decode_at(data, at1) {
            Some(x) => x,
            None => { return None; },
        };
        let (marked, at3) = match read_bool(data, at2) {
            Some(x) => x,
            None => { return None; },
        };
        if n != 3 {
            return None;
        }
        Some((UtxoEntry { hash, output, marked }, at3))
    }
}

/// Whether some entry of `s` has the hash `h`.
pub open spec fn has_key(s: Seq<UtxoEntry>, h: crate::sha256::Hash) -> bool {
    exists|i: int| 0 <= i < s.len() && (#[trigger] s[i]).hash == h
}

/// The place of an entry of `s` with the hash `h`.
pub open spec fn index_of(s: Seq<UtxoEntry>, h: crate::sha256::Hash) -> int {
    choose|i: int| 0 <= i < s.len() && (#[trigger] s[i]).hash == h
}

/// Whether no two entries of `s` have the same hash.
pub open spec fn distinct_keys(s: Seq<UtxoEntry>) -> bool {
    forall|i: int, j: int| 0 <= i < j < s.len() ==> (#[trigger] s[i]).hash != (#[trigger] s[j]).hash
}

/// The map that a sequence of entries stands for.
pub open spec fn entries_map(s: Seq<UtxoEntry>) -> UtxoMap {
    Map::new(
        |h: crate::sha256::Hash| has_key(s, h),
        |h: crate::sha256::Hash| (s[index_of(s, h)].output, s[index_of(s, h)].marked),
    )
}

/// The map `m` with the mark of `h` set to `marked`, where `h` is in it.
pub open spec fn with_mark(m: UtxoMap, h: crate::sha256::Hash, marked: bool) -> UtxoMap {
    if m.dom().contains(h) {
        m.insert(h, (m[h].0, marked))
    } else {
        m
    }
}

/// Whether the output with the hash `h` is unspent and marked.
pub open spec fn is_marked(utxos: UtxoMap, h: crate::sha256::Hash) -> bool {
    utxos.dom().contains(h) && utxos[h].1
}

/// The map `m` with the mark of every hash of the sequence set to `marked`,
/// where the hash is in the map.
pub open spec fn with_marks(m: UtxoMap, hashes: Seq<crate::sha256::Hash>, marked: bool) -> UtxoMap
    decreases hashes.len(),
{
    if hashes.len() == 0 {
        m
    } else {
        with_mark(with_marks(m, hashes.drop_last(), marked), hashes.last(), marked)
    }
}

/// Setting marks changes no output and no hash: it sets the mark of the
/// hashes named, and leaves every other mark as it is.
pub proof fn lemma_with_marks(m: UtxoMap, hashes: Seq<crate::sha256::Hash>, marked: bool)
    ensures
        with_marks(m, hashes, marked).dom() == m.dom(),
        forall|h: crate::sha256::Hash| #[trigger]
            m.dom().contains(h) ==> with_marks(m, hashes, marked)[h] == (
                m[h].0,
                if hashes.contains(h) {
                    marked
                } else {
                    m[h].1
                },
            ),
    decreases hashes.len(),
{
    if hashes.len() > 0 {
        let front = hashes.drop_last();
        lemma_with_marks(m, front, marked);
        let mid = with_marks(m, front, marked);
        let after = with_marks(m, hashes, marked);
        assert(after.dom() =~= m.dom());
        assert forall|h: crate::sha256::Hash| #[trigger] m.dom().contains(h) implies after[h] == (
            m[h].0,
            if hashes.contains(h) {
                marked
            } else {
                m[h].1
            },
        ) by {
            if h == hashes.last() {
                assert(hashes[hashes.len() - 1] == h);
            } else {
                if front.contains(h) {
                    let i = choose|i: int| 0 <= i < front.len() && front[i] == h;
                    assert(hashes[i] == h);
                }
                if hashes.contains(h) {
                    let i = choose|i: int| 0 <= i < hashes.len() && hashes[i] == h;
                    assert(front[i] == h);
                }
            }
        }
    }
}

/// Setting the marks of two sequences of hashes, one after the other, is
/// setting the marks of the two put together.
pub proof fn lemma_with_marks_concat(
    m: UtxoMap,
    first: Seq<crate::sha256::Hash>,
    second: Seq<crate::sha256::Hash>,
    marked: bool,
)
    ensures
        with_marks(with_marks(m, first, marked), second, marked) == with_marks(
            m,
            first + second,
            marked,
        ),
    decreases second.len(),
{
    if second.len() == 0 {
        assert(first + second =~= first);
    } else {
        lemma_with_marks_concat(m, first, second.drop_last(), marked);
        assert((first + second).drop_last() =~= first + second.drop_last());
        assert((first + second).last() == second.last());
    }
}

/// The amount of the unspent output with the hash `h`; zero where there is
/// none.
pub open spec fn value_of(utxos: UtxoMap, h: crate::sha256::Hash) -> nat {
    if utxos.dom().contains(h) {
        utxos[h].0.value as nat
    } else {
        0
    }
}

/// The sum of the amounts of the unspent outputs that the inputs name.
pub open spec fn input_sum(inputs: Seq<TransactionInput>, utxos: UtxoMap) -> nat
    decreases inputs.len(),
{
    if inputs.len() == 0 {
        0
    } else {
        input_sum(inputs.drop_last(), utxos) + value_of(
            utxos,
            inputs.last().prev_transaction_output_hash,
        )
    }
}

/// The sum of the amounts of the outputs.
pub open spec fn output_sum(outputs: Seq<TransactionOutput>) -> nat
    decreases outputs.len(),
{
    if outputs.len() == 0 {
        0
    } else {
        output_sum(outputs.drop_last()) + outputs.last().value as nat
    }
}

/// The sum over the first inputs is at most the sum over all, and the sum
/// over all is below 2^64 for each input.
pub proof fn lemma_input_sum_prefix(inputs: Seq<TransactionInput>, utxos: UtxoMap, k: int)
    requires
        0 <= k <= inputs.len(),
    ensures
        input_sum(inputs.take(k), utxos) <= input_sum(inputs, utxos),
        input_sum(inputs, utxos) <= inputs.len() * u64::MAX,
    decreases inputs.len(),
{
    if inputs.len() == 0 {
        assert(inputs.take(k) =~= inputs);
    } else {
        let front = inputs.drop_last();
        assert(input_sum(inputs, utxos) <= inputs.len() * u64::MAX) by {
            lemma_input_sum_prefix(front, utxos, 0);
            assert(front.len() * u64::MAX + u64::MAX == inputs.len() * u64::MAX)
                by (nonlinear_arith)
                requires
                    front.len() + 1 == inputs.len(),
            ;
        }
        if k == inputs.len() {
            assert(inputs.take(k) =~= inputs);
        } else {
            lemma_input_sum_prefix(front, utxos, k);
            assert(front.take(k) =~= inputs.take(k));
        }
    }
}

/// The sum over the first outputs is at most the sum over all, and the sum
/// over all is below 2^64 for each output.
pub proof fn lemma_output_sum_prefix(outputs: Seq<TransactionOutput>, k: int)
    requires
        0 <= k <= outputs.len(),
    ensures
        output_sum(outputs.take(k)) <= output_sum(outputs),
        output_sum(outputs) <= outputs.len() * u64::MAX,
    decreases outputs.len(),
{
    if outputs.len() == 0 {
        assert(outputs.take(k) =~= outputs);
    } else {
        let front = outputs.drop_last();
        assert(output_sum(outputs) <= outputs.len() * u64::MAX) by {
            lemma_output_sum_prefix(front, 0);
            assert(front.len() * u64::MAX + u64::MAX == outputs.len() * u64::MAX)
                by (nonlinear_arith)
                requires
                    front.len() + 1 == outputs.len(),
            ;
        }
        if k == outputs.len() {
            assert(outputs.take(k) =~= outputs);
        } else {
            lemma_output_sum_prefix(front, k);
            assert(front.take(k) =~= outputs.take(k));
        }
    }
}

/// The sum of the amounts of the outputs, as far as it fits in 128 bits:
/// it does for every vector.
pub fn sum_outputs(outputs: &Vec<TransactionOutput>) -> (sum: u128)
    ensures
        sum == output_sum(outputs@),
{
    let mut sum: u128 = 0;
    let mut i: usize = 0;
    assert(outputs@.take(0) =~= Seq::<TransactionOutput>::empty());
    while i < outputs.len()
        invariant
            i <= outputs@.len(),
            sum == output_sum(outputs@.take(i as int)),
        decreases outputs@.len() - i,
    {
        proof {
            lemma_output_sum_prefix(outputs@.take(i + 1), 0);
            assert(outputs@.take(i + 1).drop_last() =~= outputs@.take(i as int));
            assert((i + 1) * u64::MAX <= usize::MAX * u64::MAX) by (nonlinear_arith)
                requires
                    i + 1 <= usize::MAX,
            ;
            assert(usize::MAX * u64::MAX <= u64::MAX * u64::MAX) by (nonlinear_arith)
                requires
                    usize::MAX <= u64::MAX,
            ;
        }
        sum = sum + outputs[i].value as u128;
        i += 1;
    }
    assert(outputs@.take(i as int) =~= outputs@);
    sum
}

/// In a sequence without repeated hashes, an entry is found at its place.
pub proof fn lemma_index_of(s: Seq<UtxoEntry>, i: int)
    requires
        distinct_keys(s),
        0 <= i < s.len(),
    ensures
        has_key(s, s[i].hash),
        index_of(s, s[i].hash) == i,
        entries_map(s).dom().contains(s[i].hash),
        entries_map(s)[s[i].hash] == (s[i].output, s[i].marked),
{
    let h = s[i].hash;
    let j = index_of(s, h);
    assert(0 <= j < s.len() && s[j].hash == h);
    if j < i {
        assert(s[j].hash != s[i].hash);
    } else if i < j {
        assert(s[i].hash != s[j].hash);
    }
}

/// The set of unspent outputs.
#[derive(Debug)]
pub struct UtxoSet {
    entries: Vec<UtxoEntry>,
}

impl View for UtxoSet {
    type V = UtxoMap;

    closed spec fn view(&self) -> UtxoMap {
        entries_map(self.entries@)
    }
}

impl UtxoSet {
    /// The entries in the order in which they are held.
    pub closed spec fn spec_entries(&self) -> Seq<UtxoEntry> {
        self.entries@
    }

    /// Whether the set is well formed: no hash occurs twice.
    pub closed spec fn wf(&self) -> bool {
        distinct_keys(self.entries@)
    }

    /// How the entries and the map belong together.
    pub proof fn lemma_entries(&self)
        requires
            self.wf(),
        ensures
            distinct_keys(self.spec_entries()),
            self@ == entries_map(self.spec_entries()),
            self.spec_entries().len() <= usize::MAX,
    {
        assert(self.entries.len() == self.entries@.len());
    }

    /// The empty set.
    pub fn new() -> (set: UtxoSet)
        ensures
            set.wf(),
            set@ == Map::<crate::sha256::Hash, (TransactionOutput, bool)>::empty(),
            set.spec_entries().len() == 0,
    {
        let set = UtxoSet { entries: Vec::new() };
        assert(set@ =~= Map::<crate::sha256::Hash, (TransactionOutput, bool)>::empty());
        set
    }

    /// The place of the entry with the hash `h`.
    fn position(&self, h: &crate::sha256::Hash) -> (r: Option<usize>)
        requires
            self.wf(),
        ensures
            match r {
                Some(i) => i < self.entries@.len() && self.entries@[i as int].hash == *h
                    && index_of(self.entries@, *h) == i && has_key(self.entries@, *h),
                None => !has_key(self.entries@, *h),
            },
    {
        let mut i: usize = 0;
        while i < self.entries.len()
            invariant
                i <= self.entries@.len(),
                distinct_keys(self.entries@),
                forall|j: int| 0 <= j < i ==> (#[trigger] self.entries@[j]).hash != *h,
            decreases self.entries@.len() - i,
        {
            if self.entries[i].hash == *h {
                proof {
                    lemma_index_of(self.entries@, i as int);
                }
                return Some(i);
            }
            i += 1;
        }
        None
    }

    /// The set that holds the entries, in their order. `None` where two of
    /// them have the same hash.
    pub fn from_entries(entries: Vec<UtxoEntry>) -> (r: Option<UtxoSet>)
        ensures
            match r {
                Some(set) => set.wf() && set.spec_entries() == entries@ && distinct_keys(entries@),
                None => !distinct_keys(entries@),
            },
    {
        let mut i: usize = 0;
        while i < entries.len()
            invariant
                i <= entries@.len(),
                forall|a: int, b: int|
                    0 <= a < b < i ==> (#[trigger] entries@[a]).hash != (#[trigger] entries@[b]).hash,
            decreases entries@.len() - i,
        {
            let mut k: usize = 0;
            while k < i
                invariant
                    k <= i < entries@.len(),
                    forall|a: int| 0 <= a < k ==> (#[trigger] entries@[a]).hash != entries@[i as int].hash,
                decreases i - k,
            {
                if entries[k].hash == entries[i].hash {
                    return None;
                }
                k += 1;
            }
            i += 1;
        }
        Some(UtxoSet { entries })
    }

    /// The entries, in the order in which they are held.
    pub fn to_entries(&self) -> (entries: Vec<UtxoEntry>)
        ensures
            entries@ == self.spec_entries(),
    {
        let mut entries: Vec<UtxoEntry> = Vec::new();
        let mut i: usize = 0;
        while i < self.entries.len()
            invariant
                i <= self.entries@.len(),
                entries@ == self.entries@.take(i as int),
            decreases self.entries@.len() - i,
        {
            entries.push(self.entries[i]);
            assert(entries@ =~= self.entries@.take(i + 1));
            i += 1;
        }
        assert(entries@ =~= self.entries@);
        entries
    }

    /// The number of unspent outputs.
    pub fn len(&self) -> (n: usize)
        requires
            self.wf(),
        ensures
            n == self.spec_entries().len(),
    {
        self.entries.len()
    }

    /// The entry at place `i`.
    pub fn entry(&self, i: usize) -> (e: UtxoEntry)
        requires
            self.wf(),
            i < self.spec_entries().len(),
        ensures
            e == self.spec_entries()[i as int],
            self@.dom().contains(e.hash),
            self@[e.hash] == (e.output, e.marked),
    {
        proof {
            lemma_index_of(self.entries@, i as int);
        }
        self.entries[i]
    }

    /// Whether an output with the hash `h` is unspent.
    pub fn contains_key(&self, h: &crate::sha256::Hash) -> (r: bool)
        requires
            self.wf(),
        ensures
            r == self@.dom().contains(*h),
    {
        self.position(h).is_some()
    }

    /// The output with the hash `h` and its mark, where it is unspent.
    pub fn get(&self, h: &crate::sha256::Hash) -> (r: Option<(TransactionOutput, bool)>)
        requires
            self.wf(),
        ensures
            r == if self@.dom().contains(*h) {
                Some(self@[*h])
            } else {
                None
            },
    {
        match self.position(h) {
            Some(i) => Some((self.entries[i].output, self.entries[i].marked)),
            None => None,
        }
    }

    /// Puts an output under the hash `h`, in place of the one that was there.
    pub fn insert(&mut self, h: crate::sha256::Hash, output: TransactionOutput, marked: bool)
        requires
            old(self).wf(),
        ensures
            final(self).wf(),
            final(self)@ == old(self)@.insert(h, (output, marked)),
    {
        let entry = UtxoEntry { hash: h, output, marked };
        let ghost before = self.entries@;
        match self.position(&h) {
            Some(i) => {
                self.entries[i] = entry;
                proof {
                    let after = self.entries@;
                    assert forall|k: crate::sha256::Hash| #[trigger]
                        entries_map(after).dom().contains(k) == entries_map(before).insert(
                            h,
                            (output, marked),
                        ).dom().contains(k) by {
                        if has_key(before, k) {
                            let j = index_of(before, k);
                            assert(after[j].hash == k);
                        }
                        if has_key(after, k) {
                            let j = index_of(after, k);
                            assert(before[j].hash == k);
                        }
                    }
                    assert forall|k: crate::sha256::Hash| #[trigger]
                        entries_map(after).dom().contains(k) implies entries_map(after)[k]
                        == entries_map(before).insert(h, (output, marked))[k] by {
                        let j = index_of(after, k);
                        lemma_index_of(after, j);
                        if k != h {
                            assert(before[j].hash == k);
                            lemma_index_of(before, j);
                        } else {
                            lemma_index_of(after, i as int);
                        }
                    }
                    assert(self@ =~= old(self)@.insert(h, (output, marked)));
                }
            },
            None => {
                self.entries.push(entry);
                proof {
                    let after = self.entries@;
                    let last = before.len() as int;
                    assert(after[last].hash == h);
                    assert forall|k: crate::sha256::Hash| #[trigger]
                        entries_map(after).dom().contains(k) == entries_map(before).insert(
                            h,
                            (output, marked),
                        ).dom().contains(k) by {
                        if has_key(before, k) {
                            let j = index_of(before, k);
                            assert(after[j].hash == k);
                        }
                        if has_key(after, k) {
                            let j = index_of(after, k);
                            if j < last {
                                assert(before[j].hash == k);
                            }
                        }
                    }
                    assert forall|k: crate::sha256::Hash| #[trigger]
                        entries_map(after).dom().contains(k) implies entries_map(after)[k]
                        == entries_map(before).insert(h, (output, marked))[k] by {
                        let j = index_of(after, k);
                        lemma_index_of(after, j);
                        if k != h {
                            assert(before[j].hash == k);
                            lemma_index_of(before, j);
                        } else {
                            lemma_index_of(after, last);
                        }
                    }
                    assert(self@ =~= old(self)@.insert(h, (output, marked)));
                }
            },
        }
    }

    /// Takes out the output with the hash `h`, where it is there.
    pub fn remove(&mut self, h: &crate::sha256::Hash)
        requires
            old(self).wf(),
        ensures
            final(self).wf(),
            final(self)@ == old(self)@.remove(*h),
    {
        let ghost before = self.entries@;
        match self.position(h) {
            Some(i) => {
                self.entries.remove(i);
                proof {
                    let after = self.entries@;
                    assert forall|j: int| 0 <= j < after.len() implies #[trigger] after[j]
                        == before[if j < i { j } else { j + 1 }] by {}
                    assert(distinct_keys(after)) by {
                        assert forall|a: int, b: int| 0 <= a < b < after.len() implies (
                        #[trigger] after[a]).hash != (#[trigger] after[b]).hash by {
                            let a0 = if a < i { a } else { a + 1 };
                            let b0 = if b < i { b } else { b + 1 };
                            assert(before[a0].hash != before[b0].hash);
                        }
                    }
                    assert forall|k: crate::sha256::Hash| #[trigger]
                        entries_map(after).dom().contains(k) == entries_map(before).remove(
                            *h,
                        ).dom().contains(k) by {
                        if has_key(before, k) && k != *h {
                            let j = index_of(before, k);
                            let j1 = if j < i { j } else { j - 1 };
                            assert(after[j1].hash == k);
                        }
                        if has_key(after, k) {
                            let j = index_of(after, k);
                            let j0 = if j < i { j } else { j + 1 };
                            assert(before[j0].hash == k);
                            assert(before[i as int].hash == *h);
                        }
                    }
                    assert forall|k: crate::sha256::Hash| #[trigger]
                        entries_map(after).dom().contains(k) implies entries_map(after)[k]
                        == entries_map(before).remove(*h)[k] by {
                        let j = index_of(after, k);
                        lemma_index_of(after, j);
                        let j0 = if j < i { j } else { j + 1 };
                        lemma_index_of(before, j0);
                    }
                    assert(self@ =~= old(self)@.remove(*h));
                }
            },
            None => {
                assert(self@ =~= old(self)@.remove(*h));
            },
        }
    }

    /// Sets the mark of every hash of the vector, where the hash is in the
    /// set.
    pub fn set_marks(&mut self, hashes: &Vec<crate::sha256::Hash>, marked: bool)
        requires
            old(self).wf(),
        ensures
            final(self).wf(),
            final(self)@ == with_marks(old(self)@, hashes@, marked),
    {
        let mut i: usize = 0;
        assert(hashes@.take(0) =~= Seq::<crate::sha256::Hash>::empty());
        while i < hashes.len()
            invariant
                self.wf(),
                i <= hashes@.len(),
                self@ == with_marks(old(self)@, hashes@.take(i as int), marked),
            decreases hashes@.len() - i,
        {
            self.set_marked(&hashes[i], marked);
            assert(hashes@.take(i + 1).drop_last() =~= hashes@.take(i as int));
            i += 1;
        }
        assert(hashes@.take(i as int) =~= hashes@);
    }

    /// The sum of the amounts of the unspent outputs that the inputs name.
    /// It fits in 128 bits for every vector.
    pub fn sum_inputs(&self, inputs: &Vec<TransactionInput>) -> (sum: u128)
        requires
            self.wf(),
        ensures
            sum == input_sum(inputs@, self@),
    {
        let mut sum: u128 = 0;
        let mut i: usize = 0;
        assert(inputs@.take(0) =~= Seq::<TransactionInput>::empty());
        while i < inputs.len()
            invariant
                self.wf(),
                i <= inputs@.len(),
                sum == input_sum(inputs@.take(i as int), self@),
            decreases inputs@.len() - i,
        {
            proof {
                lemma_input_sum_prefix(inputs@.take(i + 1), self@, 0);
                assert(inputs@.take(i + 1).drop_last() =~= inputs@.take(i as int));
                assert((i + 1) * u64::MAX <= usize::MAX * u64::MAX) by (nonlinear_arith)
                    requires
                        i + 1 <= usize::MAX,
                ;
                assert(usize::MAX * u64::MAX <= u64::MAX * u64::MAX) by (nonlinear_arith)
                    requires
                        usize::MAX <= u64::MAX,
                ;
            }
            let value: u64 = match self.get(&inputs[i].prev_transaction_output_hash) {
                Some((output, _)) => output.value,
                None => 0,
            };
            sum = sum + value as u128;
            i += 1;
        }
        assert(inputs@.take(i as int) =~= inputs@);
        sum
    }

    /// Sets the mark of the output with the hash `h`, where it is there.
    pub fn set_marked(&mut self, h: &crate::sha256::Hash, marked: bool)
        requires
            old(self).wf(),
        ensures
            final(self).wf(),
            final(self)@ == with_mark(old(self)@, *h, marked),
    {
        match self.get(h) {
            Some((output, _)) => {
                self.insert(*h, output, marked);
            },
            None => {},
        }
    }
}

} // verus!
