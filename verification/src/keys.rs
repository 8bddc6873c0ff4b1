//! Keys and their byte representations.
//!
//! A key is hashed by feeding a byte string into the hasher. Every key type
//! therefore carries a byte representation; two keys count as equal exactly
//! when their byte representations are equal. Integer types are fed
//! little-endian, strings are fed as their UTF-8 bytes.

use vstd::prelude::*;
use vstd::bytes::{spec_u16_to_le_bytes, spec_u32_to_le_bytes, spec_u64_to_le_bytes};
use vstd::bytes::{u16_to_le_bytes, u32_to_le_bytes, u64_to_le_bytes};
use vstd::string::StrSliceExecFns;
use vstd::string::StringSliceAdditionalSpecFns;

verus! {

/// A type usable as a key of a perfect hash table.
///
/// The byte representation both drives hashing and defines key equality:
/// the tables treat two keys as the same exactly when their byte
/// representations agree.
pub trait PhfKey: Sized {
    /// The byte string that stands for this key.
    spec fn hash_bytes(self) -> Seq<u8>;

    /// Compute the byte string that stands for this key.
    fn byte_repr(&self) -> (r: Vec<u8>)
        ensures
            r@ == self.hash_bytes(),
    ;
}

/// The byte representations of a sequence of keys, in order.
pub open spec fn keys_bytes<K: PhfKey>(keys: Seq<K>) -> Seq<Seq<u8>> {
    Seq::new(keys.len(), |i: int| keys[i].hash_bytes())
}

/// Whether some key of the sequence has byte representation `bs`.
pub open spec fn seq_contains_bytes<K: PhfKey>(s: Seq<K>, bs: Seq<u8>) -> bool {
    exists|j: int| #![trigger s[j]] 0 <= j < s.len() && s[j].hash_bytes() == bs
}

impl PhfKey for u8 {
    open spec fn hash_bytes(self) -> Seq<u8> {
        seq![self]
    }

    fn byte_repr(&self) -> (r: Vec<u8>)
        ensures
            r@ == self.hash_bytes(),
    {
        let r: Vec<u8> = vec![*self];
        assert(r@ =~= seq![*self]);
        r
    }
}

impl PhfKey for u16 {
    open spec fn hash_bytes(self) -> Seq<u8> {
        spec_u16_to_le_bytes(self)
    }

    fn byte_repr(&self) -> (r: Vec<u8>)
        ensures
            r@ == self.hash_bytes(),
    {
        u16_to_le_bytes(*self)
    }
}

impl PhfKey for u32 {
    open spec fn hash_bytes(self) -> Seq<u8> {
        spec_u32_to_le_bytes(self)
    }

    fn byte_repr(&self) -> (r: Vec<u8>)
        ensures
            r@ == self.hash_bytes(),
    {
        u32_to_le_bytes(*self)
    }
}

impl PhfKey for u64 {
    open spec fn hash_bytes(self) -> Seq<u8> {
        spec_u64_to_le_bytes(self)
    }

    fn byte_repr(&self) -> (r: Vec<u8>)
        ensures
            r@ == self.hash_bytes(),
    {
        u64_to_le_bytes(*self)
    }
}

impl PhfKey for usize {
    open spec fn hash_bytes(self) -> Seq<u8> {
        spec_u64_to_le_bytes(self as u64)
    }

    fn byte_repr(&self) -> (r: Vec<u8>)
        ensures
            r@ == self.hash_bytes(),
    {
        u64_to_le_bytes(*self as u64)
    }
}

/// The two's-complement bit pattern of a 32-bit signed integer.
pub open spec fn spec_i32_bits(x: i32) -> u32 {
    ((x as int) % 0x1_0000_0000) as u32
}

impl PhfKey for i32 {
    open spec fn hash_bytes(self) -> Seq<u8> {
        spec_u32_to_le_bytes(spec_i32_bits(self))
    }

    fn byte_repr(&self) -> (r: Vec<u8>)
        ensures
            r@ == self.hash_bytes(),
    {
        let bits: u32 = if *self >= 0 {
            *self as u32
        } else {
            ((*self as i64) + 0x1_0000_0000i64) as u32
        };
        assert(bits == spec_i32_bits(*self));
        u32_to_le_bytes(bits)
    }
}

/// The two's-complement bit pattern of a 64-bit signed integer.
pub open spec fn spec_i64_bits(x: i64) -> u64 {
    ((x as int) % 0x1_0000_0000_0000_0000) as u64
}

impl PhfKey for i64 {
    open spec fn hash_bytes(self) -> Seq<u8> {
        spec_u64_to_le_bytes(spec_i64_bits(self))
    }

    fn byte_repr(&self) -> (r: Vec<u8>)
        ensures
            r@ == self.hash_bytes(),
    {
        let bits: u64 = if *self >= 0 {
            *self as u64
        } else {
            (((*self as i128) + 0x1_0000_0000_0000_0000i128) as u64)
        };
        assert(bits == spec_i64_bits(*self));
        u64_to_le_bytes(bits)
    }
}

impl<'s> PhfKey for &'s str {
    open spec fn hash_bytes(self) -> Seq<u8> {
        self.spec_bytes()
    }

    fn byte_repr(&self) -> (r: Vec<u8>)
        ensures
            r@ == self.hash_bytes(),
    {
        self.as_bytes_vec()
    }
}

/// Compare two byte strings for equality.
pub fn bytes_eq(a: &Vec<u8>, b: &Vec<u8>) -> (r: bool)
    ensures
        r == (a@ == b@),
{
    if a.len() != b.len() {
        return false;
    }
    let n = a.len();
    let mut i: usize = 0;
    while i < n
        invariant
            n == a@.len() == b@.len(),
            0 <= i <= n,
            forall|t: int| 0 <= t < i ==> a@[t] == b@[t],
        decreases n - i,
    {
        if a[i] != b[i] {
            return false;
        }
        i += 1;
    }
    assert(a@ =~= b@);
    true
}

/// Compare two keys: equal exactly when their byte representations agree.
pub fn key_eq<K: PhfKey>(a: &K, b: &K) -> (r: bool)
    ensures
        r == (a.hash_bytes() == b.hash_bytes()),
{
    let ab = a.byte_repr();
    let bb = b.byte_repr();
    bytes_eq(&ab, &bb)
}

} // verus!
