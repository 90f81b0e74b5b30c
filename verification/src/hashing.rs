//! Keyed hashing of byte strings and the double-hashing probe sequence.
//!
//! A value is hashed twice, under two seeds. From the two base hashes `h1` and
//! `h2` the probe sequence `h1`, `h1 + h2`, `h1 + 2 * h2`, ... is taken in
//! wrapping 64-bit arithmetic, so that any number of hash values costs two
//! hash computations.
use std::collections::hash_map::DefaultHasher;
use std::hash::Hasher;
use vstd::arithmetic::div_mod::{lemma_add_mod_noop, lemma_small_mod};
use vstd::bytes::{spec_u64_to_le_bytes, u64_to_le_bytes};
use vstd::prelude::*;
use vstd::std_specs::hash::DefaultHasherAdditionalSpecFns;

verus! {

/// The hash of `value` under `seed`: the digest of a default hasher that was
/// fed the seed's eight little-endian bytes and then the value.
pub open spec fn keyed_hash(seed: u64, value: Seq<u8>) -> u64 {
    DefaultHasher::spec_finish(seq![spec_u64_to_le_bytes(seed), value])
}

/// The `i`-th value of the probe sequence of the base hashes `h1` and `h2`:
/// `h1 + i * h2`, reduced modulo 2^64.
pub open spec fn probe(h1: u64, h2: u64, i: nat) -> u64 {
    ((h1 + i * h2) % 0x1_0000_0000_0000_0000) as u64
}

/// The first `count` values of the probe sequence of `h1` and `h2`.
pub open spec fn probes(h1: u64, h2: u64, count: nat) -> Seq<u64> {
    Seq::new(count, |i: int| probe(h1, h2, i as nat))
}

/// Hashes `value` under `seed`.
pub fn hash_with_seed(seed: u64, value: &[u8]) -> (h: u64)
    ensures
        h == keyed_hash(seed, value@),
{
    let key = u64_to_le_bytes(seed);
    let mut hasher = DefaultHasher::new();
    hasher.write(key.as_slice());
    hasher.write(value);
    assert(hasher@ =~= seq![spec_u64_to_le_bytes(seed), value@]);
    hasher.finish()
}

/// Computes one value of the probe sequence.
pub fn probe_at(h1: u64, h2: u64, i: u32) -> (g: u64)
    ensures
        g == probe(h1, h2, i as nat),
{
    let step: u64 = h2.wrapping_mul(i as u64);
    let g: u64 = h1.wrapping_add(step);
    proof {
        let r: int = 0x1_0000_0000_0000_0000;
        assert(step == (i * h2) % r) by (nonlinear_arith)
            requires
                step == ((h2 as nat * (i as u64) as nat) % (r as nat)) as u64,
                r == 0x1_0000_0000_0000_0000,
        ;
        assert(g == (h1 + step) % r);
        lemma_small_mod(h1 as nat, r as nat);
        lemma_add_mod_noop(h1 as int, i * h2, r);
    }
    g
}

/// A probe sequence that is handed out one value at a time.
pub struct HashIter {
    h1: u64,
    h2: u64,
    i: u32,
    count: u32,
}

impl View for HashIter {
    type V = Seq<u64>;

    /// The values still to come, next one first.
    closed spec fn view(&self) -> Seq<u64> {
        if self.i <= self.count {
            probes(self.h1, self.h2, self.count as nat).skip(self.i as int)
        } else {
            Seq::empty()
        }
    }
}

impl HashIter {
    /// The probe sequence of `value` under the two seeds, `num_hash_fn` values
    /// long.
    pub fn new(value: &[u8], num_hash_fn: u32, seed_one: u64, seed_two: u64) -> (it: HashIter)
        ensures
            it@ == probes(
                keyed_hash(seed_one, value@),
                keyed_hash(seed_two, value@),
                num_hash_fn as nat,
            ),
    {
        let h1: u64 = hash_with_seed(seed_one, value);
        let h2: u64 = hash_with_seed(seed_two, value);
        HashIter::from_hashes(h1, h2, num_hash_fn)
    }

    /// The probe sequence of two given base hashes, `count` values long.
    pub fn from_hashes(h1: u64, h2: u64, count: u32) -> (it: HashIter)
        ensures
            it@ == probes(h1, h2, count as nat),
    {
        let it = HashIter { h1, h2, i: 0, count };
        assert(it@ =~= probes(h1, h2, count as nat));
        it
    }

    /// Hands out the next value, or `None` once the sequence is used up.
    pub fn next(&mut self) -> (r: Option<u64>)
        ensures
            old(self)@.len() == 0 ==> r.is_none() && final(self)@ == old(self)@,
            old(self)@.len() > 0 ==> r == Some(old(self)@[0]) && final(self)@ == old(self)@.skip(1),
    {
        if self.i >= self.count {
            return None;
        }
        let h: u64 = probe_at(self.h1, self.h2, self.i);
        self.i += 1;
        assert(self@ =~= old(self)@.skip(1));
        Some(h)
    }
}

} // verus!
