//! The Bloom filter: a fixed bit array in which each inserted value sets the
//! bits that its probe sequence selects.
use crate::bits;
use crate::bits::bit_values;
use crate::estimate::{
    addressable, bits_for, estimate_bits, estimate_hash, hash_count_for, ConfigError, Fraction,
    Rate,
};
use crate::hashing::{hash_with_seed, keyed_hash, probe, probes, HashIter};
use bit_vec::BitVec;
use vstd::prelude::*;

verus! {

/// The bit that the hash value `h` selects in an array of `len` bits.
pub open spec fn slot(h: u64, len: nat) -> int {
    h as int % len as int
}

/// What a filter is, as a mathematical value.
pub struct FilterState {
    /// The bit array.
    pub bits: Seq<bool>,
    /// How many probes are taken per value.
    pub hash_count: nat,
    /// The seed of the first base hash.
    pub seed_one: u64,
    /// The seed of the second base hash.
    pub seed_two: u64,
}

impl FilterState {
    /// A filter has at least one bit and takes between 2 and 200 probes.
    pub open spec fn wf(self) -> bool {
        &&& 0 < self.bits.len()
        &&& 2 <= self.hash_count <= 200
    }

    /// Whether one of the probes of the base hashes `h1`, `h2` selects bit `j`.
    pub open spec fn selects(self, h1: u64, h2: u64, j: int) -> bool {
        exists|i: nat|
            i < self.hash_count && #[trigger] slot(probe(h1, h2, i), self.bits.len()) == j
    }

    /// The filter after the bits selected by `h1`, `h2` have been set.
    pub open spec fn insert_hashes(self, h1: u64, h2: u64) -> FilterState {
        FilterState {
            bits: Seq::new(self.bits.len(), |j: int| self.bits[j] || self.selects(h1, h2, j)),
            ..self
        }
    }

    /// Whether every bit selected by `h1`, `h2` is set.
    pub open spec fn contains_hashes(self, h1: u64, h2: u64) -> bool {
        forall|i: nat|
            i < self.hash_count ==> self.bits[#[trigger] slot(probe(h1, h2, i), self.bits.len())]
    }

    /// The first base hash of `value` in this filter.
    pub open spec fn h1(self, value: Seq<u8>) -> u64 {
        keyed_hash(self.seed_one, value)
    }

    /// The second base hash of `value` in this filter.
    pub open spec fn h2(self, value: Seq<u8>) -> u64 {
        keyed_hash(self.seed_two, value)
    }

    /// The filter after `value` has been inserted.
    pub open spec fn insert(self, value: Seq<u8>) -> FilterState {
        self.insert_hashes(self.h1(value), self.h2(value))
    }

    /// The answer of the filter to a query for `value`.
    pub open spec fn contains(self, value: Seq<u8>) -> bool {
        self.contains_hashes(self.h1(value), self.h2(value))
    }

    /// The filter with every bit reset.
    pub open spec fn clear(self) -> FilterState {
        FilterState { bits: Seq::new(self.bits.len(), |j: int| false), ..self }
    }

    /// The filter after each of `values` has been inserted, first one first.
    pub open spec fn insert_all(self, values: Seq<Seq<u8>>) -> FilterState
        decreases values.len(),
    {
        if values.len() == 0 {
            self
        } else {
            self.insert_all(values.drop_last()).insert(values.last())
        }
    }

    /// The empty filter that is sized for `expected_num_items` items at the
    /// false-positive rate `rate`.
    pub open spec fn sized_for(
        rate: Fraction,
        expected_num_items: nat,
        seed_one: u64,
        seed_two: u64,
    ) -> FilterState {
        let no_bits = addressable(bits_for(rate, expected_num_items));
        FilterState {
            bits: Seq::new(no_bits, |j: int| false),
            hash_count: hash_count_for(no_bits, expected_num_items),
            seed_one,
            seed_two,
        }
    }

    /// Whether `other` has the length, the number of probes and the seeds of
    /// this filter.
    pub open spec fn same_shape(self, other: FilterState) -> bool {
        &&& self.bits.len() == other.bits.len()
        &&& self.hash_count == other.hash_count
        &&& self.seed_one == other.seed_one
        &&& self.seed_two == other.seed_two
    }

    /// Whether one of the probes of `value` selects bit `j`.
    pub open spec fn value_selects(self, value: Seq<u8>, j: int) -> bool {
        self.selects(self.h1(value), self.h2(value), j)
    }

    /// Whether one of the probes of one of `values` selects bit `j`.
    pub open spec fn covered(self, values: Seq<Seq<u8>>, j: int) -> bool {
        exists|n: int| 0 <= n < values.len() && #[trigger] self.value_selects(values[n], j)
    }

    /// A filter that is sized for at least one item is well formed: it has a
    /// bit, and its number of probes is in range.
    pub proof fn lemma_sized_for_wf(
        rate: Fraction,
        expected_num_items: nat,
        seed_one: u64,
        seed_two: u64,
    )
        requires
            expected_num_items > 0,
        ensures
            FilterState::sized_for(rate, expected_num_items, seed_one, seed_two).wf(),
    {
    }

    /// Every probe selects a bit of the array.
    pub proof fn lemma_slot_in_range(self, h1: u64, h2: u64, i: nat)
        requires
            self.wf(),
        ensures
            0 <= slot(probe(h1, h2, i), self.bits.len()) < self.bits.len(),
    {
    }

    /// Inserting any number of values changes neither the length of the bit
    /// array nor the number of probes nor the seeds, and never resets a bit.
    pub proof fn lemma_insert_all_keeps_shape(self, values: Seq<Seq<u8>>)
        ensures
            self.same_shape(self.insert_all(values)),
            self.wf() ==> self.insert_all(values).wf(),
            forall|j: int|
                0 <= j < self.bits.len() && self.bits[j] ==> #[trigger] self.insert_all(
                    values,
                ).bits[j],
        decreases values.len(),
    {
        if values.len() > 0 {
            self.lemma_insert_all_keeps_shape(values.drop_last());
        }
    }

    /// Once the bits of two base hashes are set, the filter finds them.
    pub proof fn lemma_inserted_hashes_are_found(self, h1: u64, h2: u64)
        requires
            self.wf(),
        ensures
            self.insert_hashes(h1, h2).contains_hashes(h1, h2),
    {
        let after = self.insert_hashes(h1, h2);
        assert forall|i: nat| i < after.hash_count implies after.bits[#[trigger] slot(
            probe(h1, h2, i),
            after.bits.len(),
        )] by {
            let j = slot(probe(h1, h2, i), self.bits.len());
            self.lemma_slot_in_range(h1, h2, i);
            assert(self.selects(h1, h2, j));
        }
    }

    /// Base hashes that the filter finds are still found after the bits of
    /// any other base hashes were set.
    pub proof fn lemma_found_hashes_stay_found(self, h1: u64, h2: u64, g1: u64, g2: u64)
        requires
            self.wf(),
            self.contains_hashes(h1, h2),
        ensures
            self.insert_hashes(g1, g2).contains_hashes(h1, h2),
    {
        let after = self.insert_hashes(g1, g2);
        assert forall|i: nat| i < after.hash_count implies after.bits[#[trigger] slot(
            probe(h1, h2, i),
            after.bits.len(),
        )] by {
            self.lemma_slot_in_range(h1, h2, i);
        }
    }

    /// No false negatives: right after a value was inserted, the filter
    /// reports it.
    pub proof fn lemma_inserted_is_found(self, value: Seq<u8>)
        requires
            self.wf(),
        ensures
            self.insert(value).contains(value),
    {
        self.lemma_inserted_hashes_are_found(self.h1(value), self.h2(value));
    }

    /// A report never degrades: a value that the filter reports is still
    /// reported after any other value was inserted.
    pub proof fn lemma_found_stays_found(self, value: Seq<u8>, other: Seq<u8>)
        requires
            self.wf(),
            self.contains(value),
        ensures
            self.insert(other).contains(value),
    {
        self.lemma_found_hashes_stay_found(
            self.h1(value),
            self.h2(value),
            self.h1(other),
            self.h2(other),
        );
    }

    /// No false negatives: a value that was inserted is reported whatever
    /// values were inserted after it.
    pub proof fn lemma_no_false_negatives(self, value: Seq<u8>, later: Seq<Seq<u8>>)
        requires
            self.wf(),
        ensures
            self.insert(value).insert_all(later).contains(value),
        decreases later.len(),
    {
        if later.len() == 0 {
            self.lemma_inserted_is_found(value);
        } else {
            self.lemma_no_false_negatives(value, later.drop_last());
            self.insert(value).lemma_insert_all_keeps_shape(later.drop_last());
            self.insert(value).insert_all(later.drop_last()).lemma_found_stays_found(
                value,
                later.last(),
            );
        }
    }

    /// Setting the bits of two base hashes a second time changes nothing.
    pub proof fn lemma_insert_hashes_idempotent(self, h1: u64, h2: u64)
        ensures
            self.insert_hashes(h1, h2).insert_hashes(h1, h2) == self.insert_hashes(h1, h2),
    {
        assert(self.insert_hashes(h1, h2).insert_hashes(h1, h2).bits =~= self.insert_hashes(
            h1,
            h2,
        ).bits);
    }

    /// Inserting a value a second time changes nothing: the filter is the one
    /// that a single insertion gave, and so is its answer to every query.
    pub proof fn lemma_insert_idempotent(self, value: Seq<u8>, query: Seq<u8>)
        ensures
            self.insert(value).insert(value) == self.insert(value),
            self.insert(value).insert(value).contains(query) == self.insert(value).contains(query),
    {
        self.lemma_insert_hashes_idempotent(self.h1(value), self.h2(value));
    }

    /// A cleared filter finds no base hashes at all.
    pub proof fn lemma_cleared_finds_no_hashes(self, h1: u64, h2: u64)
        requires
            self.wf(),
        ensures
            !self.clear().contains_hashes(h1, h2),
    {
        let cleared = self.clear();
        let j = slot(probe(h1, h2, 0), cleared.bits.len());
        self.lemma_slot_in_range(h1, h2, 0);
        assert(!cleared.bits[j]);
    }

    /// A cleared filter reports no value at all.
    pub proof fn lemma_cleared_reports_nothing(self, value: Seq<u8>)
        requires
            self.wf(),
        ensures
            !self.clear().contains(value),
            self.clear().wf(),
            self.same_shape(self.clear()),
    {
        self.lemma_cleared_finds_no_hashes(self.h1(value), self.h2(value));
    }

    /// After a filter was cleared and `values` were inserted, a bit is set
    /// exactly if a probe of one of `values` selects it.
    pub proof fn lemma_bits_since_clear(self, values: Seq<Seq<u8>>, j: int)
        requires
            0 <= j < self.bits.len(),
        ensures
            self.clear().insert_all(values).bits[j] <==> self.covered(values, j),
        decreases values.len(),
    {
        let cleared = self.clear();
        if values.len() > 0 {
            let before = values.drop_last();
            self.lemma_bits_since_clear(before, j);
            cleared.lemma_insert_all_keeps_shape(before);
            let mid = cleared.insert_all(before);
            assert(mid.value_selects(values.last(), j) == self.value_selects(values.last(), j));
            if cleared.insert_all(values).bits[j] {
                if mid.bits[j] {
                    let n = choose|n: int|
                        0 <= n < before.len() && #[trigger] self.value_selects(before[n], j);
                    assert(self.value_selects(values[n], j));
                } else {
                    assert(self.value_selects(values[values.len() - 1], j));
                }
            }
            if self.covered(values, j) {
                let n = choose|n: int|
                    0 <= n < values.len() && #[trigger] self.value_selects(values[n], j);
                if n < before.len() {
                    assert(self.value_selects(before[n], j));
                }
            }
        }
    }

    /// After a filter was cleared, it reports a value exactly if every bit of
    /// that value is also a bit of some value inserted since: a value that was
    /// not inserted again is reported only where the others cover all its
    /// bits.
    pub proof fn lemma_report_since_clear(self, values: Seq<Seq<u8>>, value: Seq<u8>)
        requires
            self.wf(),
        ensures
            self.clear().insert_all(values).contains(value) <==> forall|i: nat|
                i < self.hash_count ==> self.covered(
                    values,
                    #[trigger] slot(probe(self.h1(value), self.h2(value), i), self.bits.len()),
                ),
    {
        let after = self.clear().insert_all(values);
        self.clear().lemma_insert_all_keeps_shape(values);
        let h1 = self.h1(value);
        let h2 = self.h2(value);
        assert forall|i: nat| i < self.hash_count implies (after.bits[#[trigger] slot(
            probe(h1, h2, i),
            self.bits.len(),
        )] <==> self.covered(values, slot(probe(h1, h2, i), self.bits.len()))) by {
            self.lemma_slot_in_range(h1, h2, i);
            self.lemma_bits_since_clear(values, slot(probe(h1, h2, i), self.bits.len()));
        }
    }
}

/// A Bloom filter over byte strings.
pub struct BloomFilter {
    bits: BitVec,
    num_hash_fn: u32,
    seed_one: u64,
    seed_two: u64,
}

impl View for BloomFilter {
    type V = FilterState;

    closed spec fn view(&self) -> FilterState {
        FilterState {
            bits: bit_values(self.bits),
            hash_count: self.num_hash_fn as nat,
            seed_one: self.seed_one,
            seed_two: self.seed_two,
        }
    }
}

impl BloomFilter {
    #[verifier::type_invariant]
    closed spec fn inv(&self) -> bool {
        self@.wf()
    }

    /// An empty filter for `expected_num_items` items at the false-positive
    /// rate `false_pos_rate`, whose two base hashes are keyed by `seed_one`
    /// and `seed_two`. It reports no value. It is refused where no items are
    /// expected.
    ///
    /// Filters with the same seeds set the same bits for the same value. The
    /// two seeds should differ: under equal seeds the two base hashes of a
    /// value are equal.
    pub fn new(
        false_pos_rate: Rate,
        expected_num_items: u32,
        seed_one: u64,
        seed_two: u64,
    ) -> (r: Result<BloomFilter, ConfigError>)
        ensures
            expected_num_items == 0 ==> r == Err::<BloomFilter, ConfigError>(
                ConfigError::NoExpectedItems,
            ),
            expected_num_items > 0 ==> r.is_ok() && r.unwrap()@ == FilterState::sized_for(
                false_pos_rate@,
                expected_num_items as nat,
                seed_one,
                seed_two,
            ) && r.unwrap()@.wf(),
            r.is_ok() ==> forall|value: Seq<u8>| !(#[trigger] r.unwrap()@.contains(value)),
            r.is_ok() ==> forall|h1: u64, h2: u64|
                !(#[trigger] r.unwrap()@.contains_hashes(h1, h2)),
    {
        if expected_num_items == 0 {
            return Err(ConfigError::NoExpectedItems);
        }
        let no_bits: usize = estimate_bits(false_pos_rate, expected_num_items);
        let num_hash_fn: u32 = estimate_hash(no_bits, expected_num_items);
        let filter = BloomFilter {
            bits: bits::filled(no_bits, false),
            num_hash_fn,
            seed_one,
            seed_two,
        };
        assert(filter@.bits =~= FilterState::sized_for(
            false_pos_rate@,
            expected_num_items as nat,
            seed_one,
            seed_two,
        ).bits);
        proof {
            assert(filter@.bits =~= filter@.clear().bits);
            assert forall|value: Seq<u8>| !(#[trigger] filter@.contains(value)) by {
                filter@.lemma_cleared_reports_nothing(value);
            }
            assert forall|h1: u64, h2: u64| !(#[trigger] filter@.contains_hashes(h1, h2)) by {
                filter@.lemma_cleared_finds_no_hashes(h1, h2);
            }
        }
        Ok(filter)
    }

    /// Sets the bits that the base hashes `h1`, `h2` select. From then on
    /// the filter finds them, and it goes on to find whatever it found
    /// before. Setting them again changes nothing.
    pub fn insert_hashes(&mut self, h1: u64, h2: u64)
        ensures
            final(self)@ == old(self)@.insert_hashes(h1, h2),
            final(self)@.wf(),
            final(self)@.contains_hashes(h1, h2),
            final(self)@.insert_hashes(h1, h2) == final(self)@,
            forall|g1: u64, g2: u64| #[trigger]
                old(self)@.contains_hashes(g1, g2) ==> final(self)@.contains_hashes(g1, g2),
    {
        proof {
            use_type_invariant(&*self);
        }
        let len: usize = bits::length(&self.bits);
        let mut it = HashIter::from_hashes(h1, h2, self.num_hash_fn);
        let ghost k = self.num_hash_fn as nat;
        let ghost start = self@;
        let ghost mut done: nat = 0;
        loop
            invariant
                done <= k == start.hash_count,
                0 < len == start.bits.len(),
                start == old(self)@,
                it@ == probes(h1, h2, k).skip(done as int),
                start.same_shape(self@),
                self@.wf(),
                forall|j: int|
                    0 <= j < len ==> (#[trigger] self@.bits[j] <==> (start.bits[j] || exists|i: nat|
                        i < done && #[trigger] slot(probe(h1, h2, i), len as nat) == j)),
            ensures
                done == k,
            decreases k - done,
        {
            match it.next() {
                None => {
                    assert(probes(h1, h2, k).skip(done as int).len() == 0);
                    break ;
                },
                Some(h) => {
                    assert(h == probe(h1, h2, done));
                    let idx: usize = (h % (len as u64)) as usize;
                    assert(idx == slot(h, len as nat));
                    bits::set(&mut self.bits, idx, true);
                    proof {
                        done = done + 1;
                    }
                },
            }
        }
        assert(self@.bits =~= start.insert_hashes(h1, h2).bits);
        proof {
            start.lemma_inserted_hashes_are_found(h1, h2);
            start.lemma_insert_hashes_idempotent(h1, h2);
            assert forall|g1: u64, g2: u64| #[trigger]
                start.contains_hashes(g1, g2) implies self@.contains_hashes(g1, g2) by {
                start.lemma_found_hashes_stay_found(g1, g2, h1, h2);
            }
        }
    }

    /// Tells whether every bit that the base hashes `h1`, `h2` select is set.
    /// The search stops at the first bit that is not.
    pub fn contains_hashes(&self, h1: u64, h2: u64) -> (found: bool)
        ensures
            found == self@.contains_hashes(h1, h2),
            self@.wf(),
    {
        proof {
            use_type_invariant(self);
        }
        let len: usize = bits::length(&self.bits);
        let mut it = HashIter::from_hashes(h1, h2, self.num_hash_fn);
        let ghost k = self.num_hash_fn as nat;
        let ghost mut done: nat = 0;
        loop
            invariant
                done <= k == self@.hash_count,
                0 < len == self@.bits.len(),
                self@.wf(),
                it@ == probes(h1, h2, k).skip(done as int),
                forall|i: nat|
                    i < done ==> self@.bits[#[trigger] slot(probe(h1, h2, i), len as nat)],
            ensures
                done == k,
            decreases k - done,
        {
            match it.next() {
                None => {
                    assert(probes(h1, h2, k).skip(done as int).len() == 0);
                    break ;
                },
                Some(h) => {
                    assert(h == probe(h1, h2, done));
                    let idx: usize = (h % (len as u64)) as usize;
                    assert(idx == slot(h, len as nat));
                    match bits::get(&self.bits, idx) {
                        Some(true) => {},
                        _ => {
                            return false;
                        },
                    }
                    proof {
                        done = done + 1;
                    }
                },
            }
        }
        true
    }

    /// Inserts `value`: sets every bit that its probe sequence selects. From
    /// then on the filter reports the value, and it goes on to report
    /// whatever it reported before. Inserting the value again changes
    /// nothing.
    pub fn insert(&mut self, value: &[u8])
        ensures
            final(self)@ == old(self)@.insert(value@),
            final(self)@.wf(),
            final(self)@.contains(value@),
            final(self)@.insert(value@) == final(self)@,
            forall|other: Seq<u8>| #[trigger]
                old(self)@.contains(other) ==> final(self)@.contains(other),
    {
        let h1: u64 = hash_with_seed(self.seed_one, value);
        let h2: u64 = hash_with_seed(self.seed_two, value);
        self.insert_hashes(h1, h2);
    }

    /// Tells whether `value` may have been inserted: `false` means that it
    /// was not, since the filter was made or last cleared; `true` means that
    /// it was, or that other values have set all its bits.
    pub fn contains(&self, value: &[u8]) -> (found: bool)
        ensures
            found == self@.contains(value@),
            self@.wf(),
    {
        let h1: u64 = hash_with_seed(self.seed_one, value);
        let h2: u64 = hash_with_seed(self.seed_two, value);
        self.contains_hashes(h1, h2)
    }

    /// Resets every bit, after which the filter reports no value. The
    /// length, the number of probes and the seeds stay.
    pub fn clear(&mut self)
        ensures
            final(self)@ == old(self)@.clear(),
            final(self)@.wf(),
            forall|value: Seq<u8>| !(#[trigger] final(self)@.contains(value)),
            forall|h1: u64, h2: u64| !(#[trigger] final(self)@.contains_hashes(h1, h2)),
    {
        proof {
            use_type_invariant(&*self);
        }
        let ghost start = self@;
        bits::clear(&mut self.bits);
        proof {
            assert forall|value: Seq<u8>| !(#[trigger] self@.contains(value)) by {
                start.lemma_cleared_reports_nothing(value);
            }
            assert forall|h1: u64, h2: u64| !(#[trigger] self@.contains_hashes(h1, h2)) by {
                start.lemma_cleared_finds_no_hashes(h1, h2);
            }
        }
    }

    /// The number of bits in the array.
    pub fn num_bits(&self) -> (n: usize)
        ensures
            n == self@.bits.len(),
            n > 0,
    {
        proof {
            use_type_invariant(self);
        }
        bits::length(&self.bits)
    }

    /// The number of probes taken per value.
    pub fn num_hash_fn(&self) -> (k: u32)
        ensures
            k == self@.hash_count,
            2 <= k <= 200,
    {
        proof {
            use_type_invariant(self);
        }
        self.num_hash_fn
    }
}

} // verus!
