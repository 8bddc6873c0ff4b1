//! An immutable hash table with perfect hashing that does not store its
//! keys.
//!
//! A query is hashed and resolved to a slot by the closed-form lookup
//! formula; the value stored at that slot is returned without any check.
//! For a key that was in the construction input the slot is its own; for
//! any other key an arbitrary stored value comes back, by design.

use vstd::prelude::*;
use core::marker::PhantomData;
use crate::keys::{keys_bytes, PhfKey};
use crate::phf::{generate_phf, has_duplicate_keys, phf_slot_of_hash, Phf, PhfError};
use crate::shared::{get_bucket, get_index, hash_key, hash_pilot_value, wy_hash, FastDivisor};

verus! {

/// An immutable hash table with perfect hashing which does not store its
/// keys. Its view is the sequence of stored values in slot order.
pub struct RawPhfMap<K: PhfKey, V> {
    codomain_len: FastDivisor,
    buckets: FastDivisor,
    seed: u64,
    pilots_table: Vec<u16>,
    values: Vec<V>,
    free: Vec<u32>,
    key_marker: PhantomData<K>,
}

impl<K: PhfKey, V> View for RawPhfMap<K, V> {
    type V = Seq<V>;

    closed spec fn view(&self) -> Seq<V> {
        self.values@
    }
}

impl<K: PhfKey, V> RawPhfMap<K, V> {
    /// The hash seed the table was built with.
    pub closed spec fn spec_seed(self) -> u64 {
        self.seed
    }

    /// The pilot values of the table.
    pub closed spec fn spec_pilots(self) -> Seq<u16> {
        self.pilots_table@
    }

    /// The redirection table for slots past the value count.
    pub closed spec fn spec_free(self) -> Seq<u32> {
        self.free@
    }

    /// The slot that a query with byte representation `bs` resolves to.
    pub open spec fn spec_slot(self, bs: Seq<u8>) -> int {
        phf_slot_of_hash(
            wy_hash(bs, self.spec_seed()),
            self.spec_pilots(),
            self@.len() as int,
            self.spec_free(),
        )
    }

    #[verifier::type_invariant]
    spec fn raw_wf(self) -> bool {
        &&& self.pilots_table@.len() >= 1
        &&& self.free@.len() >= 1
        &&& self.buckets.value() == self.pilots_table@.len()
        &&& self.codomain_len.value() == self.values@.len() + self.free@.len()
        &&& self.values@.len() + self.free@.len() <= usize::MAX
        &&& forall|j: int|
            #![trigger self.free@[j]]
            0 <= j < self.free@.len() && self.values@.len() > 0 ==> (self.free@[j] as int)
                < self.values@.len()
    }

    /// Assemble a table from its parts, as emitted by the construction
    /// side; the divisors for the two moduli are precomputed here.
    pub fn new(seed: u64, pilots_table: Vec<u16>, values: Vec<V>, free: Vec<u32>) -> (r: RawPhfMap<
        K,
        V,
    >)
        requires
            pilots_table@.len() >= 1,
            free@.len() >= 1,
            values@.len() + free@.len() <= usize::MAX,
            forall|j: int|
                #![trigger free@[j]]
                0 <= j < free@.len() && values@.len() > 0 ==> (free@[j] as int) < values@.len(),
        ensures
            r@ == values@,
            r.spec_seed() == seed,
            r.spec_pilots() == pilots_table@,
            r.spec_free() == free@,
    {
        let codomain_len = FastDivisor::new((values.len() + free.len()) as u64);
        let buckets = FastDivisor::new(pilots_table.len() as u64);
        RawPhfMap { codomain_len, buckets, seed, pilots_table, values, free, key_marker: PhantomData }
    }

    /// Return a reference to the value at the slot the key resolves to.
    ///
    /// If `key` was not in the construction input, an arbitrary stored
    /// value is returned; there is no check. The table must be non-empty.
    pub fn get<'a>(&'a self, key: &K) -> (r: &'a V)
        requires
            self@.len() > 0,
        ensures
            0 <= self.spec_slot(key.hash_bytes()) < self@.len(),
            *r == self@[self.spec_slot(key.hash_bytes())],
    {
        proof {
            use_type_invariant(&*self);
        }
        let key_hash = hash_key(key, self.seed);
        let bucket = get_bucket(key_hash, &self.buckets);
        let pilots_count = self.pilots_table.len();
        proof {
            assert(bucket < pilots_count);
        }
        let pilot_hash = hash_pilot_value(self.pilots_table[bucket as usize]);
        let idx64 = get_index(key_hash, pilot_hash, &self.codomain_len);
        let n = self.values.len();
        let free_count = self.free.len();
        proof {
            assert(idx64 < n + free_count);
        }
        let idx = idx64 as usize;
        if idx < n {
            &self.values[idx]
        } else {
            &self.values[self.free[idx - n] as usize]
        }
    }

    /// The value stored at a given slot.
    pub fn value_at<'a>(&'a self, i: usize) -> (r: &'a V)
        requires
            i < self@.len(),
        ensures
            *r == self@[i as int],
    {
        &self.values[i]
    }

    /// The number of stored values.
    pub fn len(&self) -> (r: usize)
        ensures
            r == self@.len(),
    {
        self.values.len()
    }

    /// Whether the table stores no values.
    pub fn is_empty(&self) -> (r: bool)
        ensures
            r == (self@.len() == 0),
    {
        self.values.len() == 0
    }

    /// A cursor over the stored values in slot order.
    pub fn iter<'a>(&'a self) -> (r: Iter<'a, V>)
        ensures
            r.spec_elems() == self@,
            r.spec_pos() == 0,
    {
        Iter { values: &self.values, pos: 0 }
    }
}

impl<K: PhfKey, V: Copy> RawPhfMap<K, V> {
    /// Build a table from keys and values of the same length: construct
    /// the perfect hash function, then permute the values into slot order.
    ///
    /// On success, every input key resolves to the slot holding its own
    /// value; only queries outside the input key set reach an arbitrary
    /// slot. Equal keys always surface the duplicate-keys error with their
    /// two positions.
    pub fn build(keys: &Vec<K>, values: &Vec<V>) -> (r: Result<RawPhfMap<K, V>, PhfError>)
        requires
            keys@.len() == values@.len(),
            keys@.len() < 0x4000_0000,
        ensures
            match r {
                Ok(m) => {
                    &&& m@.len() == keys@.len()
                    &&& forall|t: int|
                        #![trigger keys@[t]]
                        0 <= t < keys@.len() ==> 0 <= m.spec_slot(keys@[t].hash_bytes()) < m@.len()
                            && m@[m.spec_slot(keys@[t].hash_bytes())] == values@[t]
                },
                Err(e) => match e {
                    PhfError::DuplicateKeys { first, second } => {
                        &&& first < second
                        &&& (second as int) < keys@.len()
                        &&& keys@[first as int].hash_bytes() == keys@[second as int].hash_bytes()
                    },
                    PhfError::SeedSearchExhausted => !has_duplicate_keys(keys@),
                },
            },
            keys@.len() == 0 ==> r is Ok,
        has_duplicate_keys(keys@) ==> match r {
            Ok(_) => false,
            Err(e) => e is DuplicateKeys,
        },
    {
        match generate_phf(keys) {
            Err(e) => Err(e),
            Ok(phf) => {
                let Phf { seed, pilots_table, map, free } = phf;
                let ghost kb = keys_bytes(keys@);
                let n = keys.len();
                let mut slots: Vec<V> = Vec::new();
                let mut i: usize = 0;
                while i < n
                    invariant
                        i <= n,
                        slots@.len() == i,
                        n == keys@.len() == values@.len(),
                        map@.len() == n,
                        forall|t: int| #![trigger map@[t]] 0 <= t < n ==> (map@[t] as int) < n,
                        forall|t: int|
                            #![trigger slots@[t]]
                            0 <= t < i ==> slots@[t] == values@[map@[t] as int],
                    decreases n - i,
                {
                    let idx = map[i] as usize;
                    slots.push(values[idx]);
                    i += 1;
                }
                let ghost gslots = slots@;
                let ghost gpilots = pilots_table@;
                let ghost gfree = free@;
                let m = RawPhfMap::new(seed, pilots_table, slots, free);
                proof {
                    assert(m@ == gslots);
                    assert forall|t: int| 0 <= t < keys@.len() implies 0 <= m.spec_slot(
                        (#[trigger] keys@[t]).hash_bytes(),
                    ) < m@.len() && m@[m.spec_slot(keys@[t].hash_bytes())] == values@[t] by {
                        assert(crate::phf::appears(map@, t));
                        let w = choose|w: int|
                            #![trigger map@[w]]
                            0 <= w < map@.len() && map@[w] as int == t;
                        assert(kb[t] == keys@[t].hash_bytes());
                        assert(phf_slot_of_hash(wy_hash(kb[map@[w] as int], seed), gpilots, n as int,
                            gfree) == w);
                        assert(m.spec_slot(keys@[t].hash_bytes()) == w);
                        assert(gslots[w] == values@[t]);
                    }
                }
                Ok(m)
            },
        }
    }
}

/// A cursor over the values of a [`RawPhfMap`], in slot order.
pub struct Iter<'a, V> {
    values: &'a Vec<V>,
    pos: usize,
}

impl<'a, V> Iter<'a, V> {
    /// The values the cursor walks over.
    pub closed spec fn spec_elems(self) -> Seq<V> {
        self.values@
    }

    /// How many values the cursor has already yielded.
    pub closed spec fn spec_pos(self) -> int {
        self.pos as int
    }

    #[verifier::type_invariant]
    spec fn iter_wf(self) -> bool {
        self.pos <= self.values@.len()
    }

    /// Yield the next value, left to right, or `None` at the end.
    pub fn next(&mut self) -> (r: Option<&'a V>)
        ensures
            final(self).spec_elems() == old(self).spec_elems(),
            match r {
                Some(v) => {
                    &&& old(self).spec_pos() < old(self).spec_elems().len()
                    &&& *v == old(self).spec_elems()[old(self).spec_pos()]
                    &&& final(self).spec_pos() == old(self).spec_pos() + 1
                },
                None => {
                    &&& old(self).spec_pos() == old(self).spec_elems().len()
                    &&& final(self).spec_pos() == old(self).spec_pos()
                },
            },
    {
        proof {
            use_type_invariant(&*self);
        }
        if self.pos < self.values.len() {
            let v = &self.values[self.pos];
            self.pos = self.pos + 1;
            Some(v)
        } else {
            None
        }
    }
}

} // verus!
