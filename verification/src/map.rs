//! An immutable hash table with perfect hashing.
//!
//! Unlike the raw table, this one stores each key next to its value and
//! compares the stored key against the query, so lookups of unknown keys
//! are rejected. Exactly one key comparison happens per lookup; the
//! perfect hash function guarantees there is no probing.

use vstd::prelude::*;
use crate::keys::{key_eq, keys_bytes, PhfKey};
use crate::phf::{generate_phf, has_duplicate_keys, phf_slot_of_hash, Phf, PhfError};
use crate::raw_map::RawPhfMap;
use crate::shared::wy_hash;
use vstd::std_specs::cmp::PartialEqSpec;

verus! {

/// An immutable hash table with perfect hashing that stores its keys and
/// verifies lookups against them.
pub struct PhfMap<K: PhfKey, V> {
    raw_map: RawPhfMap<K, (K, V)>,
}

impl<K: PhfKey, V> PhfMap<K, V> {
    /// The stored `(key, value)` entries, in slot order.
    pub closed spec fn spec_entries(self) -> Seq<(K, V)> {
        self.raw_map@
    }

    /// Whether some stored key has byte representation `bs`.
    pub open spec fn spec_contains_bytes(self, bs: Seq<u8>) -> bool {
        exists|i: int|
            #![trigger self.spec_entries()[i]]
            0 <= i < self.spec_entries().len() && self.spec_entries()[i].0.hash_bytes() == bs
    }

    /// The slot of the entry whose key has byte representation `bs`.
    pub open spec fn spec_index_of(self, bs: Seq<u8>) -> int {
        choose|i: int|
            #![trigger self.spec_entries()[i]]
            0 <= i < self.spec_entries().len() && self.spec_entries()[i].0.hash_bytes() == bs
    }

    /// The entry stored for a query with byte representation `bs`, if any.
    pub open spec fn spec_get(self, bs: Seq<u8>) -> Option<(K, V)> {
        if self.spec_contains_bytes(bs) {
            Some(self.spec_entries()[self.spec_index_of(bs)])
        } else {
            None
        }
    }

    #[verifier::type_invariant]
    spec fn map_wf(self) -> bool {
        forall|i: int|
            #![trigger self.raw_map@[i]]
            0 <= i < self.raw_map@.len() ==> self.raw_map.spec_slot(
                self.raw_map@[i].0.hash_bytes(),
            ) == i
    }

    /// Assemble a table from its parts, as produced by construction: every
    /// entry must sit at the slot its own key resolves to.
    pub fn new(seed: u64, pilots_table: Vec<u16>, entries: Vec<(K, V)>, free: Vec<u32>) -> (r:
        PhfMap<K, V>)
        requires
            pilots_table@.len() >= 1,
            free@.len() >= 1,
            entries@.len() + free@.len() <= usize::MAX,
            forall|j: int|
                #![trigger free@[j]]
                0 <= j < free@.len() && entries@.len() > 0 ==> (free@[j] as int) < entries@.len(),
            forall|i: int|
                #![trigger entries@[i]]
                0 <= i < entries@.len() ==> phf_slot_of_hash(
                    wy_hash(entries@[i].0.hash_bytes(), seed),
                    pilots_table@,
                    entries@.len() as int,
                    free@,
                ) == i,
        ensures
            r.spec_entries() == entries@,
    {
        let ghost entries0 = entries@;
        let raw_map = RawPhfMap::new(seed, pilots_table, entries, free);
        let r = PhfMap { raw_map };
        proof {
            assert forall|i: int| 0 <= i < r.raw_map@.len() implies r.raw_map.spec_slot(
                (#[trigger] r.raw_map@[i]).0.hash_bytes(),
            ) == i by {
                assert(r.raw_map@[i] == entries0[i]);
            }
        }
        r
    }

    /// References to the stored key and value matching the query, if the
    /// query is one of the stored keys.
    pub fn get_key_value<'a>(&'a self, key: &K) -> (r: Option<(&'a K, &'a V)>)
        ensures
            match r {
                Some(kv) => self.spec_get(key.hash_bytes()) == Some((*kv.0, *kv.1)),
                None => self.spec_get(key.hash_bytes()) is None,
            },
    {
        proof {
            use_type_invariant(&*self);
        }
        if self.raw_map.is_empty() {
            return None;
        }
        let item = self.raw_map.get(key);
        let ghost bs = key.hash_bytes();
        let ghost s = self.raw_map.spec_slot(bs);
        if key_eq(&item.0, key) {
            proof {
                assert(self.spec_entries()[s].0.hash_bytes() == bs);
                assert(self.spec_contains_bytes(bs));
                let i = self.spec_index_of(bs);
                assert(0 <= i < self.spec_entries().len() && self.spec_entries()[i].0.hash_bytes()
                    == bs);
                assert(self.raw_map.spec_slot(self.raw_map@[i].0.hash_bytes()) == i);
                assert(i == s);
            }
            Some((&item.0, &item.1))
        } else {
            proof {
                if self.spec_contains_bytes(bs) {
                    let i = self.spec_index_of(bs);
                    assert(0 <= i < self.spec_entries().len()
                        && self.spec_entries()[i].0.hash_bytes() == bs);
                    assert(self.raw_map.spec_slot(self.raw_map@[i].0.hash_bytes()) == i);
                    assert(i == s);
                    assert(false);
                }
            }
            None
        }
    }

    /// A reference to the value matching the query, if present.
    pub fn get<'a>(&'a self, key: &K) -> (r: Option<&'a V>)
        ensures
            match r {
                Some(v) => self.spec_contains_bytes(key.hash_bytes()) && *v == self.spec_entries()[
                    self.spec_index_of(key.hash_bytes())
                ].1,
                None => !self.spec_contains_bytes(key.hash_bytes()),
            },
    {
        match self.get_key_value(key) {
            Some(kv) => Some(kv.1),
            None => None,
        }
    }

    /// A reference to the stored copy of the query key, if present.
    pub fn get_key<'a>(&'a self, key: &K) -> (r: Option<&'a K>)
        ensures
            match r {
                Some(k) => self.spec_contains_bytes(key.hash_bytes()) && *k == self.spec_entries()[
                    self.spec_index_of(key.hash_bytes())
                ].0,
                None => !self.spec_contains_bytes(key.hash_bytes()),
            },
    {
        match self.get_key_value(key) {
            Some(kv) => Some(kv.0),
            None => None,
        }
    }

    /// Whether the query is one of the stored keys.
    pub fn contains_key(&self, key: &K) -> (r: bool)
        ensures
            r == self.spec_contains_bytes(key.hash_bytes()),
    {
        match self.get_key_value(key) {
            Some(_) => true,
            None => false,
        }
    }

    /// The number of stored entries.
    pub fn len(&self) -> (r: usize)
        ensures
            r == self.spec_entries().len(),
    {
        self.raw_map.len()
    }

    /// Whether the table stores no entries.
    pub fn is_empty(&self) -> (r: bool)
        ensures
            r == (self.spec_entries().len() == 0),
    {
        self.raw_map.is_empty()
    }

    /// A cursor over the stored entries in slot order.
    pub fn iter<'a>(&'a self) -> (r: Iter<'a, K, V>)
        ensures
            r.spec_entries() == self.spec_entries(),
            r.spec_pos() == 0,
    {
        Iter { iter: self.raw_map.iter() }
    }

    /// A cursor over the stored keys in slot order.
    pub fn keys<'a>(&'a self) -> (r: Keys<'a, K, V>)
        ensures
            r.spec_entries() == self.spec_entries(),
            r.spec_pos() == 0,
    {
        Keys { iter: self.iter() }
    }

    /// A cursor over the stored values in slot order.
    pub fn values<'a>(&'a self) -> (r: Values<'a, K, V>)
        ensures
            r.spec_entries() == self.spec_entries(),
            r.spec_pos() == 0,
    {
        Values { iter: self.iter() }
    }
}

impl<K: PhfKey + Copy, V: Copy> PhfMap<K, V> {
    /// Build a table from keys and values of the same length: construct the
    /// perfect hash function, then permute the entries into slot order.
    ///
    /// On success, looking up any input key yields exactly its own pair.
    /// Equal keys always surface the duplicate-keys error with their two
    /// positions; the seed search can report exhaustion only for an input
    /// free of duplicates.
    pub fn build(keys: &Vec<K>, values: &Vec<V>) -> (r: Result<PhfMap<K, V>, PhfError>)
        requires
            keys@.len() == values@.len(),
            keys@.len() < 0x4000_0000,
        ensures
            match r {
                Ok(m) => {
                    &&& m.spec_entries().len() == keys@.len()
                    &&& forall|t: int|
                        #![trigger keys@[t]]
                        0 <= t < keys@.len() ==> m.spec_get(keys@[t].hash_bytes()) == Some(
                            (keys@[t], values@[t]),
                        )
                    &&& forall|bs: Seq<u8>|
                        #[trigger] m.spec_contains_bytes(bs) ==> crate::keys::seq_contains_bytes(
                            keys@,
                            bs,
                        )
                },
                Err(e) => match e {
                    PhfError::DuplicateKeys { first, second } => {
                        &&& first < second
                        &&& (second as int) < keys@.len()
                        &&& keys@[first as int].hash_bytes() == keys@[second as int].hash_bytes()
                    },
                    PhfError::SeedSearchExhausted => !has_duplicate_keys(keys@),
                },
            },
            keys@.len() == 0 ==> r is Ok,
        has_duplicate_keys(keys@) ==> match r {
            Ok(_) => false,
            Err(e) => e is DuplicateKeys,
        },
    {
        match generate_phf(keys) {
            Err(e) => Err(e),
            Ok(phf) => {
                let Phf { seed, pilots_table, map, free } = phf;
                let ghost kb = keys_bytes(keys@);
                let n = keys.len();
                let mut entries: Vec<(K, V)> = Vec::new();
                let mut i: usize = 0;
                while i < n
                    invariant
                        i <= n,
                        entries@.len() == i,
                        n == keys@.len() == values@.len(),
                        map@.len() == n,
                        forall|t: int| #![trigger map@[t]] 0 <= t < n ==> (map@[t] as int) < n,
                        forall|t: int|
                            #![trigger entries@[t]]
                            0 <= t < i ==> entries@[t] == (keys@[map@[t] as int], values@[map@[t] as int]),
                    decreases n - i,
                {
                    let idx = map[i] as usize;
                    entries.push((keys[idx], values[idx]));
                    i += 1;
                }
                let ghost gentries = entries@;
                let ghost gpilots = pilots_table@;
                let ghost gfree = free@;
                proof {
                    assert forall|t: int| 0 <= t < n implies phf_slot_of_hash(
                        wy_hash((#[trigger] gentries[t]).0.hash_bytes(), seed),
                        gpilots,
                        gentries.len() as int,
                        gfree,
                    ) == t by {
                        assert(gentries[t].0 == keys@[map@[t] as int]);
                        assert(kb[map@[t] as int] == keys@[map@[t] as int].hash_bytes());
                    }
                    // Distinct slots force distinct byte representations.
                    assert forall|s1: int, s2: int|
                        0 <= s1 < gentries.len() && 0 <= s2 < gentries.len() && s1 != s2 implies (
                    #[trigger] gentries[s1]).0.hash_bytes() != (#[trigger] gentries[s2]).0.hash_bytes() by {
                        if gentries[s1].0.hash_bytes() == gentries[s2].0.hash_bytes() {
                            assert(phf_slot_of_hash(wy_hash(gentries[s1].0.hash_bytes(), seed),
                                gpilots, gentries.len() as int, gfree) == s1);
                            assert(phf_slot_of_hash(wy_hash(gentries[s2].0.hash_bytes(), seed),
                                gpilots, gentries.len() as int, gfree) == s2);
                            assert(false);
                        }
                    }
                }
                let m = PhfMap::new(seed, pilots_table, entries, free);
                proof {
                    assert(m.spec_entries() == gentries);
                    assert forall|t: int| 0 <= t < keys@.len() implies m.spec_get(
                        (#[trigger] keys@[t]).hash_bytes(),
                    ) == Some((keys@[t], values@[t])) by {
                        let bs = keys@[t].hash_bytes();
                        assert(crate::phf::appears(map@, t));
                        let s = choose|s: int|
                            #![trigger map@[s]]
                            0 <= s < map@.len() && map@[s] as int == t;
                        assert(gentries[s] == (keys@[t], values@[t]));
                        assert(m.spec_entries()[s].0.hash_bytes() == bs);
                        assert(m.spec_contains_bytes(bs));
                        let i2 = m.spec_index_of(bs);
                        assert(0 <= i2 < m.spec_entries().len() && m.spec_entries()[i2].0.hash_bytes()
                            == bs);
                        assert(i2 == s);
                    }
                    assert forall|bs: Seq<u8>| #[trigger] m.spec_contains_bytes(bs) implies
                        crate::keys::seq_contains_bytes(keys@, bs) by {
                        let i2 = choose|i2: int|
                            #![trigger m.spec_entries()[i2]]
                            0 <= i2 < m.spec_entries().len()
                                && m.spec_entries()[i2].0.hash_bytes() == bs;
                        assert(gentries[i2].0 == keys@[map@[i2] as int]);
                        assert(keys@[map@[i2] as int].hash_bytes() == bs);
                    }
                }
                Ok(m)
            },
        }
    }
}

/// A cursor over the entries of a [`PhfMap`], in slot order.
impl<K: PhfKey, V> PhfMap<K, V> {
    /// The byte representations of the stored keys, in slot order.
    pub open spec fn spec_byte_seq(self) -> Seq<Seq<u8>> {
        self.spec_entries().map_values(|e: (K, V)| e.0.hash_bytes())
    }

    /// The entry stored at a given slot.
    pub fn entry_at<'a>(&'a self, i: usize) -> (r: &'a (K, V))
        requires
            i < self.spec_entries().len(),
        ensures
            *r == self.spec_entries()[i as int],
    {
        self.raw_map.value_at(i)
    }

    /// Derive, from the placement invariant, that stored keys have
    /// pairwise distinct byte representations.
    fn distinctness(&self)
        ensures
            forall|s1: int, s2: int|
                0 <= s1 < s2 < self.spec_entries().len() ==> (
                #[trigger] self.spec_entries()[s1]).0.hash_bytes() != (
                #[trigger] self.spec_entries()[s2]).0.hash_bytes(),
    {
        proof {
            use_type_invariant(&*self);
            assert forall|s1: int, s2: int|
                0 <= s1 < s2 < self.spec_entries().len() implies (
            #[trigger] self.spec_entries()[s1]).0.hash_bytes() != (
            #[trigger] self.spec_entries()[s2]).0.hash_bytes() by {
                if self.spec_entries()[s1].0.hash_bytes() == self.spec_entries()[s2].0.hash_bytes() {
                    assert(self.raw_map.spec_slot(self.raw_map@[s1].0.hash_bytes()) == s1);
                    assert(self.raw_map.spec_slot(self.raw_map@[s2].0.hash_bytes()) == s2);
                    assert(false);
                }
            }
        }
    }
}

impl<K: PhfKey, V: PartialEq + vstd::std_specs::cmp::PartialEqSpec> PartialEq for PhfMap<K, V> {
    /// Two tables are equal when they hold the same key byte
    /// representations, each with an equal value.
    fn eq(&self, other: &Self) -> (r: bool) {
        self.distinctness();
        other.distinctness();
        proof {
            self.spec_byte_seq().unique_seq_to_set();
            other.spec_byte_seq().unique_seq_to_set();
            vstd::seq_lib::seq_to_set_is_finite(self.spec_byte_seq());
            vstd::seq_lib::seq_to_set_is_finite(other.spec_byte_seq());
        }
        let n = self.len();
        if n != other.len() {
            proof {
                if (forall|bs: Seq<u8>|
                    self.spec_contains_bytes(bs) <==> other.spec_contains_bytes(bs)) {
                    let sa = self.spec_byte_seq().to_set();
                    let sb = other.spec_byte_seq().to_set();
                    assert forall|bs: Seq<u8>| sa.contains(bs) implies sb.contains(bs) by {
                        let s = choose|s: int|
                            #![trigger self.spec_byte_seq()[s]]
                            0 <= s < self.spec_byte_seq().len() && self.spec_byte_seq()[s] == bs;
                        assert(self.spec_entries()[s].0.hash_bytes() == bs);
                        assert(self.spec_contains_bytes(bs));
                        let w = choose|w: int|
                            #![trigger other.spec_entries()[w]]
                            0 <= w < other.spec_entries().len()
                                && other.spec_entries()[w].0.hash_bytes() == bs;
                        assert(other.spec_byte_seq()[w] == bs);
                    }
                    assert forall|bs: Seq<u8>| sb.contains(bs) implies sa.contains(bs) by {
                        let w = choose|w: int|
                            #![trigger other.spec_byte_seq()[w]]
                            0 <= w < other.spec_byte_seq().len() && other.spec_byte_seq()[w] == bs;
                        assert(other.spec_entries()[w].0.hash_bytes() == bs);
                        assert(other.spec_contains_bytes(bs));
                        let s = choose|s: int|
                            #![trigger self.spec_entries()[s]]
                            0 <= s < self.spec_entries().len()
                                && self.spec_entries()[s].0.hash_bytes() == bs;
                        assert(self.spec_byte_seq()[s] == bs);
                    }
                    assert(sa =~= sb);
                    assert(false);
                }
            }
            return false;
        }
        let mut i: usize = 0;
        while i < n
            invariant
                i <= n,
                n == self.spec_entries().len(),
                forall|s: int|
                    #![trigger self.spec_entries()[s]]
                    0 <= s < i ==> {
                        let bs = self.spec_entries()[s].0.hash_bytes();
                        other.spec_contains_bytes(bs) && (V::obeys_eq_spec()
                            ==> self.spec_entries()[s].1.eq_spec(
                            &other.spec_entries()[other.spec_index_of(bs)].1,
                        ))
                    },
            decreases n - i,
        {
            let kv = self.entry_at(i);
            match other.get_key_value(&kv.0) {
                None => {
                    proof {
                        assert(self.spec_contains_bytes(self.spec_entries()[i as int].0.hash_bytes()));
                    }
                    return false;
                },
                Some(okv) => {
                    let values_agree = kv.1 == *okv.1;
                    if !values_agree {
                        proof {
                            let bs = self.spec_entries()[i as int].0.hash_bytes();
                            assert(other.spec_get(bs) == Some((*okv.0, *okv.1)));
                            assert(other.spec_entries()[other.spec_index_of(bs)].1 == *okv.1);
                        }
                        return false;
                    }
                    proof {
                        let bs = self.spec_entries()[i as int].0.hash_bytes();
                        assert(other.spec_get(bs) == Some((*okv.0, *okv.1)));
                        assert(other.spec_entries()[other.spec_index_of(bs)].1 == *okv.1);
                    }
                },
            }
            i += 1;
        }
        proof {
            let sa = self.spec_byte_seq().to_set();
            let sb = other.spec_byte_seq().to_set();
            assert forall|bs: Seq<u8>| sa.contains(bs) implies sb.contains(bs) by {
                let s = choose|s: int|
                    #![trigger self.spec_byte_seq()[s]]
                    0 <= s < self.spec_byte_seq().len() && self.spec_byte_seq()[s] == bs;
                assert(self.spec_entries()[s].0.hash_bytes() == bs);
                assert(other.spec_contains_bytes(bs));
                let w = choose|w: int|
                    #![trigger other.spec_entries()[w]]
                    0 <= w < other.spec_entries().len() && other.spec_entries()[w].0.hash_bytes()
                        == bs;
                assert(other.spec_byte_seq()[w] == bs);
            }
            vstd::set_lib::lemma_subset_equality(sa, sb);
            assert forall|bs: Seq<u8>|
                self.spec_contains_bytes(bs) <==> other.spec_contains_bytes(bs) by {
                if self.spec_contains_bytes(bs) {
                    let s = choose|s: int|
                        #![trigger self.spec_entries()[s]]
                        0 <= s < self.spec_entries().len() && self.spec_entries()[s].0.hash_bytes()
                            == bs;
                    assert(self.spec_byte_seq()[s] == bs);
                    assert(sb.contains(bs));
                    let w = choose|w: int|
                        #![trigger other.spec_byte_seq()[w]]
                        0 <= w < other.spec_byte_seq().len() && other.spec_byte_seq()[w] == bs;
                    assert(other.spec_entries()[w].0.hash_bytes() == bs);
                }
                if other.spec_contains_bytes(bs) {
                    let w = choose|w: int|
                        #![trigger other.spec_entries()[w]]
                        0 <= w < other.spec_entries().len() && other.spec_entries()[w].0.hash_bytes()
                            == bs;
                    assert(other.spec_byte_seq()[w] == bs);
                    assert(sa.contains(bs));
                    let s = choose|s: int|
                        #![trigger self.spec_byte_seq()[s]]
                        0 <= s < self.spec_byte_seq().len() && self.spec_byte_seq()[s] == bs;
                    assert(self.spec_entries()[s].0.hash_bytes() == bs);
                }
            }
        }
        true
    }
}

impl<K: PhfKey, V: PartialEq + vstd::std_specs::cmp::PartialEqSpec> vstd::std_specs::cmp::PartialEqSpecImpl for PhfMap<K, V> {
    open spec fn obeys_eq_spec() -> bool {
        V::obeys_eq_spec()
    }

    open spec fn eq_spec(&self, other: &Self) -> bool {
        &&& forall|bs: Seq<u8>|
            #![trigger self.spec_contains_bytes(bs)]
            #![trigger other.spec_contains_bytes(bs)]
            self.spec_contains_bytes(bs) <==> other.spec_contains_bytes(bs)
        &&& forall|s: int|
            #![trigger self.spec_entries()[s]]
            0 <= s < self.spec_entries().len() ==> self.spec_entries()[s].1.eq_spec(
                &other.spec_entries()[other.spec_index_of(self.spec_entries()[s].0.hash_bytes())].1,
            )
    }
}

impl<K: PhfKey, V: Eq + vstd::std_specs::cmp::PartialEqSpec> Eq for PhfMap<K, V> {

}

pub struct Iter<'a, K: PhfKey, V> {
    iter: crate::raw_map::Iter<'a, (K, V)>,
}

impl<'a, K: PhfKey, V> Iter<'a, K, V> {
    /// The entries the cursor walks over.
    pub closed spec fn spec_entries(self) -> Seq<(K, V)> {
        self.iter.spec_elems()
    }

    /// How many entries the cursor has already yielded.
    pub closed spec fn spec_pos(self) -> int {
        self.iter.spec_pos()
    }

    /// Yield the next entry, or `None` at the end.
    pub fn next(&mut self) -> (r: Option<&'a (K, V)>)
        ensures
            final(self).spec_entries() == old(self).spec_entries(),
            match r {
                Some(kv) => {
                    &&& old(self).spec_pos() < old(self).spec_entries().len()
                    &&& *kv == old(self).spec_entries()[old(self).spec_pos()]
                    &&& final(self).spec_pos() == old(self).spec_pos() + 1
                },
                None => {
                    &&& old(self).spec_pos() == old(self).spec_entries().len()
                    &&& final(self).spec_pos() == old(self).spec_pos()
                },
            },
    {
        self.iter.next()
    }
}

/// A cursor over the keys of a [`PhfMap`], in slot order.
pub struct Keys<'a, K: PhfKey, V> {
    iter: Iter<'a, K, V>,
}

impl<'a, K: PhfKey, V> Keys<'a, K, V> {
    /// The entries whose keys the cursor walks over.
    pub closed spec fn spec_entries(self) -> Seq<(K, V)> {
        self.iter.spec_entries()
    }

    /// How many keys the cursor has already yielded.
    pub closed spec fn spec_pos(self) -> int {
        self.iter.spec_pos()
    }

    /// Yield the next key, or `None` at the end.
    pub fn next(&mut self) -> (r: Option<&'a K>)
        ensures
            final(self).spec_entries() == old(self).spec_entries(),
            match r {
                Some(k) => {
                    &&& old(self).spec_pos() < old(self).spec_entries().len()
                    &&& *k == old(self).spec_entries()[old(self).spec_pos()].0
                    &&& final(self).spec_pos() == old(self).spec_pos() + 1
                },
                None => {
                    &&& old(self).spec_pos() == old(self).spec_entries().len()
                    &&& final(self).spec_pos() == old(self).spec_pos()
                },
            },
    {
        match self.iter.next() {
            Some(kv) => Some(&kv.0),
            None => None,
        }
    }
}

/// A cursor over the values of a [`PhfMap`], in slot order.
pub struct Values<'a, K: PhfKey, V> {
    iter: Iter<'a, K, V>,
}

impl<'a, K: PhfKey, V> Values<'a, K, V> {
    /// The entries whose values the cursor walks over.
    pub closed spec fn spec_entries(self) -> Seq<(K, V)> {
        self.iter.spec_entries()
    }

    /// How many values the cursor has already yielded.
    pub closed spec fn spec_pos(self) -> int {
        self.iter.spec_pos()
    }

    /// Yield the next value, or `None` at the end.
    pub fn next(&mut self) -> (r: Option<&'a V>)
        ensures
            final(self).spec_entries() == old(self).spec_entries(),
            match r {
                Some(v) => {
                    &&& old(self).spec_pos() < old(self).spec_entries().len()
                    &&& *v == old(self).spec_entries()[old(self).spec_pos()].1
                    &&& final(self).spec_pos() == old(self).spec_pos() + 1
                },
                None => {
                    &&& old(self).spec_pos() == old(self).spec_entries().len()
                    &&& final(self).spec_pos() == old(self).spec_pos()
                },
            },
    {
        match self.iter.next() {
            Some(kv) => Some(&kv.1),
            None => None,
        }
    }
}

} // verus!
