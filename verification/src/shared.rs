//! The hashing kernel shared by construction and lookup.
//!
//! A key is hashed to 64 bits by the wyhash function of its byte
//! representation and a seed; a pilot value is hashed by a multiplicative
//! mix; bucket and slot numbers are remainders of those hashes. The two
//! moduli are constant over the lifetime of one table, so both sides keep
//! them as precomputed fast divisors.

use vstd::prelude::*;
use crate::keys::PhfKey;

verus! {

/// The 64-bit digest that wyhash assigns to a byte string and a seed.
pub uninterp spec fn wy_hash(bytes: Seq<u8>, seed: u64) -> u64;

/// Relies on wyhash::wyhash: the digest is a function of the byte string
/// and the seed alone, and the call returns for every input.
#[verifier::external_body]
fn wyhash_bytes(bytes: &Vec<u8>, seed: u64) -> (r: u64)
    ensures
        r == wy_hash(bytes@, seed),
{
    wyhash::wyhash(bytes.as_slice(), seed)
}

/// Hash a key under the given seed.
pub fn hash_key<K: PhfKey>(key: &K, seed: u64) -> (r: u64)
    ensures
        r == wy_hash(key.hash_bytes(), seed),
{
    let bytes = key.byte_repr();
    wyhash_bytes(&bytes, seed)
}

/// Multiplicative constant for mixing pilot values, from `fxhash`.
pub const PILOT_K: u64 = 0x517cc1b727220a95;

/// The 64-bit mixing word of a pilot value: its wrapping product with PILOT_K.
pub open spec fn spec_pilot_hash(pilot_value: u16) -> u64 {
    (((pilot_value as int) * (PILOT_K as int)) % 0x1_0000_0000_0000_0000) as u64
}

/// Hash a 16-bit pilot value into a 64-bit mixing word.
pub fn hash_pilot_value(pilot_value: u16) -> (r: u64)
    ensures
        r == spec_pilot_hash(pilot_value),
{
    (pilot_value as u64).wrapping_mul(PILOT_K)
}

/// A divisor fixed at construction time, kept with its precomputed
/// reciprocal so that remainders need no hardware division.
pub struct FastDivisor {
    divisor: quickdiv::DivisorU64,
    value: Ghost<u64>,
}

/// Declares quickdiv::DivisorU64 so that it can stand in a field; the
/// value is opaque here and is reached only through the wrappers below.
#[verifier::external_type_specification]
#[verifier::external_body]
pub struct ExDivisorU64(quickdiv::DivisorU64);

impl FastDivisor {
    /// The divisor this value was constructed for.
    pub closed spec fn value(self) -> u64 {
        self.value@
    }

    /// Relies on quickdiv::DivisorU64::new: it precomputes a divisor equal
    /// to its argument, and panics only on zero.
    #[verifier::external_body]
    pub fn new(d: u64) -> (r: FastDivisor)
        requires
            d >= 1,
        ensures
            r.value() == d,
    {
        FastDivisor { divisor: quickdiv::DivisorU64::new(d), value: Ghost(d) }
    }

    /// Relies on quickdiv::DivisorU64::rem_of: it returns the remainder of
    /// its argument divided by the value the divisor was constructed for.
    #[verifier::external_body]
    pub fn rem_of(&self, n: u64) -> (r: u64)
        requires
            self.value() >= 1,
        ensures
            r == (n as int) % (self.value() as int),
    {
        self.divisor.rem_of(n)
    }
}

/// The bucket of a key hash: its remainder modulo the bucket count.
pub fn get_bucket(key_hash: u64, buckets: &FastDivisor) -> (r: u64)
    requires
        buckets.value() >= 1,
    ensures
        r == (key_hash as int) % (buckets.value() as int),
        r < buckets.value(),
{
    buckets.rem_of(key_hash)
}

/// The slot of a key hash in the intermediate codomain: the remainder of
/// the XOR of key hash and pilot hash modulo the codomain length.
pub fn get_index(key_hash: u64, pilot_hash: u64, codomain_len: &FastDivisor) -> (r: u64)
    requires
        codomain_len.value() >= 1,
    ensures
        r == ((key_hash ^ pilot_hash) as int) % (codomain_len.value() as int),
        r < codomain_len.value(),
{
    codomain_len.rem_of(key_hash ^ pilot_hash)
}

} // verus!
