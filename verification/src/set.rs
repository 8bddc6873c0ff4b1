//! An immutable set with perfect hashing.
//!
//! The set stores its elements in slot order and answers membership with a
//! single hash evaluation and one element comparison. The set-algebra
//! operations walk one set and test membership in the other; each returns
//! its result as a vector of elements without repeated byte
//! representations.

use vstd::prelude::*;
use crate::keys::{key_eq, keys_bytes, seq_contains_bytes, PhfKey};
use crate::phf::{generate_phf, has_duplicate_keys, phf_slot_of_hash, Phf, PhfError};
use crate::raw_map::RawPhfMap;
use crate::shared::wy_hash;

verus! {

/// An immutable set of keys resolved by perfect hashing.
pub struct PhfSet<K: PhfKey> {
    raw_map: RawPhfMap<K, K>,
}

impl<K: PhfKey> PhfSet<K> {
    /// The stored elements, in slot order.
    pub closed spec fn spec_elems(self) -> Seq<K> {
        self.raw_map@
    }

    /// Whether some stored element has byte representation `bs`.
    pub open spec fn spec_contains_bytes(self, bs: Seq<u8>) -> bool {
        seq_contains_bytes(self.spec_elems(), bs)
    }

    /// The slot of the element with byte representation `bs`.
    pub open spec fn spec_index_of(self, bs: Seq<u8>) -> int {
        choose|i: int|
            #![trigger self.spec_elems()[i]]
            0 <= i < self.spec_elems().len() && self.spec_elems()[i].hash_bytes() == bs
    }

    #[verifier::type_invariant]
    spec fn set_wf(self) -> bool {
        forall|i: int|
            #![trigger self.raw_map@[i]]
            0 <= i < self.raw_map@.len() ==> self.raw_map.spec_slot(self.raw_map@[i].hash_bytes())
                == i
    }

    /// Assemble a set from its parts, as produced by construction: every
    /// element must sit at the slot its own hash resolves to.
    pub fn new(seed: u64, pilots_table: Vec<u16>, elements: Vec<K>, free: Vec<u32>) -> (r: PhfSet<
        K,
    >)
        requires
            pilots_table@.len() >= 1,
            free@.len() >= 1,
            elements@.len() + free@.len() <= usize::MAX,
            forall|j: int|
                #![trigger free@[j]]
                0 <= j < free@.len() && elements@.len() > 0 ==> (free@[j] as int) < elements@.len(),
            forall|i: int|
                #![trigger elements@[i]]
                0 <= i < elements@.len() ==> phf_slot_of_hash(
                    wy_hash(elements@[i].hash_bytes(), seed),
                    pilots_table@,
                    elements@.len() as int,
                    free@,
                ) == i,
        ensures
            r.spec_elems() == elements@,
    {
        let ghost elements0 = elements@;
        let raw_map = RawPhfMap::new(seed, pilots_table, elements, free);
        let r = PhfSet { raw_map };
        proof {
            assert forall|i: int| 0 <= i < r.raw_map@.len() implies r.raw_map.spec_slot(
                (#[trigger] r.raw_map@[i]).hash_bytes(),
            ) == i by {
                assert(r.raw_map@[i] == elements0[i]);
            }
        }
        r
    }

    /// The number of stored elements.
    pub fn len(&self) -> (r: usize)
        ensures
            r == self.spec_elems().len(),
    {
        self.raw_map.len()
    }

    /// Whether the set stores no elements.
    pub fn is_empty(&self) -> (r: bool)
        ensures
            r == (self.spec_elems().len() == 0),
    {
        self.len() == 0
    }

    /// A cursor over the stored elements in slot order.
    pub fn iter<'a>(&'a self) -> (r: Iter<'a, K>)
        ensures
            r.spec_elems() == self.spec_elems(),
            r.spec_pos() == 0,
    {
        Iter { iter: self.raw_map.iter() }
    }

    /// The element stored at a given slot.
    pub fn element_at<'a>(&'a self, i: usize) -> (r: &'a K)
        requires
            i < self.spec_elems().len(),
        ensures
            *r == self.spec_elems()[i as int],
    {
        self.raw_map.value_at(i)
    }

    /// A reference to the stored copy of the queried element, if present.
    pub fn get<'a>(&'a self, element: &K) -> (r: Option<&'a K>)
        ensures
            match r {
                Some(k) => self.spec_contains_bytes(element.hash_bytes()) && *k
                    == self.spec_elems()[self.spec_index_of(element.hash_bytes())],
                None => !self.spec_contains_bytes(element.hash_bytes()),
            },
    {
        proof {
            use_type_invariant(&*self);
        }
        if self.is_empty() {
            return None;
        }
        let result = self.raw_map.get(element);
        let ghost bs = element.hash_bytes();
        let ghost s = self.raw_map.spec_slot(bs);
        if key_eq(result, element) {
            proof {
                assert(self.spec_elems()[s].hash_bytes() == bs);
                assert(self.spec_contains_bytes(bs));
                let i = self.spec_index_of(bs);
                assert(0 <= i < self.spec_elems().len() && self.spec_elems()[i].hash_bytes() == bs);
                assert(self.raw_map.spec_slot(self.raw_map@[i].hash_bytes()) == i);
                assert(i == s);
            }
            Some(result)
        } else {
            proof {
                if self.spec_contains_bytes(bs) {
                    let i = choose|i: int|
                        #![trigger self.spec_elems()[i]]
                        0 <= i < self.spec_elems().len() && self.spec_elems()[i].hash_bytes() == bs;
                    assert(self.raw_map.spec_slot(self.raw_map@[i].hash_bytes()) == i);
                    assert(i == s);
                    assert(false);
                }
            }
            None
        }
    }

    /// Derive, from the placement invariant, that stored elements have
    /// pairwise distinct byte representations.
    fn distinctness(&self)
        ensures
            forall|s1: int, s2: int|
                0 <= s1 < s2 < self.spec_elems().len() ==> (
                #[trigger] self.spec_elems()[s1]).hash_bytes() != (
                #[trigger] self.spec_elems()[s2]).hash_bytes(),
    {
        proof {
            use_type_invariant(&*self);
            assert forall|s1: int, s2: int|
                0 <= s1 < s2 < self.spec_elems().len() implies (
            #[trigger] self.spec_elems()[s1]).hash_bytes() != (
            #[trigger] self.spec_elems()[s2]).hash_bytes() by {
                if self.spec_elems()[s1].hash_bytes() == self.spec_elems()[s2].hash_bytes() {
                    assert(self.raw_map.spec_slot(self.raw_map@[s1].hash_bytes()) == s1);
                    assert(self.raw_map.spec_slot(self.raw_map@[s2].hash_bytes()) == s2);
                    assert(false);
                }
            }
        }
    }

    /// Whether the queried element is in the set.
    pub fn contains(&self, element: &K) -> (r: bool)
        ensures
            r == self.spec_contains_bytes(element.hash_bytes()),
    {
        match self.get(element) {
            Some(_) => true,
            None => false,
        }
    }
}

impl<K: PhfKey + Copy> PhfSet<K> {
    /// Build a set from a list of keys: construct the perfect hash
    /// function, then permute the keys into slot order.
    ///
    /// On success the set contains exactly the input keys. Equal keys
    /// always surface the duplicate-keys error with their two positions;
    /// the seed search can report exhaustion only for an input free of
    /// duplicates.
    pub fn build(keys: &Vec<K>) -> (r: Result<PhfSet<K>, PhfError>)
        requires
            keys@.len() < 0x4000_0000,
        ensures
            match r {
                Ok(s) => {
                    &&& s.spec_elems().len() == keys@.len()
                    &&& forall|t: int|
                        #![trigger keys@[t]]
                        0 <= t < keys@.len() ==> s.spec_contains_bytes(keys@[t].hash_bytes())
                            && s.spec_elems()[s.spec_index_of(keys@[t].hash_bytes())] == keys@[t]
                    &&& forall|bs: Seq<u8>|
                        #[trigger] s.spec_contains_bytes(bs) ==> seq_contains_bytes(keys@, bs)
                },
                Err(e) => match e {
                    PhfError::DuplicateKeys { first, second } => {
                        &&& first < second
                        &&& (second as int) < keys@.len()
                        &&& keys@[first as int].hash_bytes() == keys@[second as int].hash_bytes()
                    },
                    PhfError::SeedSearchExhausted => !has_duplicate_keys(keys@),
                },
            },
            keys@.len() == 0 ==> r is Ok,
        has_duplicate_keys(keys@) ==> match r {
            Ok(_) => false,
            Err(e) => e is DuplicateKeys,
        },
    {
        match generate_phf(keys) {
            Err(e) => Err(e),
            Ok(phf) => {
                let Phf { seed, pilots_table, map, free } = phf;
                let ghost kb = keys_bytes(keys@);
                let n = keys.len();
                let mut elements: Vec<K> = Vec::new();
                let mut i: usize = 0;
                while i < n
                    invariant
                        i <= n,
                        elements@.len() == i,
                        n == keys@.len(),
                        map@.len() == n,
                        forall|t: int| #![trigger map@[t]] 0 <= t < n ==> (map@[t] as int) < n,
                        forall|t: int|
                            #![trigger elements@[t]]
                            0 <= t < i ==> elements@[t] == keys@[map@[t] as int],
                    decreases n - i,
                {
                    let idx = map[i] as usize;
                    elements.push(keys[idx]);
                    i += 1;
                }
                let ghost gelems = elements@;
                let ghost gpilots = pilots_table@;
                let ghost gfree = free@;
                proof {
                    assert forall|t: int| 0 <= t < n implies phf_slot_of_hash(
                        wy_hash((#[trigger] gelems[t]).hash_bytes(), seed),
                        gpilots,
                        gelems.len() as int,
                        gfree,
                    ) == t by {
                        assert(gelems[t] == keys@[map@[t] as int]);
                        assert(kb[map@[t] as int] == keys@[map@[t] as int].hash_bytes());
                    }
                    assert forall|s1: int, s2: int|
                        0 <= s1 < gelems.len() && 0 <= s2 < gelems.len() && s1 != s2 implies (
                    #[trigger] gelems[s1]).hash_bytes() != (#[trigger] gelems[s2]).hash_bytes() by {
                        if gelems[s1].hash_bytes() == gelems[s2].hash_bytes() {
                            assert(phf_slot_of_hash(wy_hash(gelems[s1].hash_bytes(), seed), gpilots,
                                gelems.len() as int, gfree) == s1);
                            assert(phf_slot_of_hash(wy_hash(gelems[s2].hash_bytes(), seed), gpilots,
                                gelems.len() as int, gfree) == s2);
                            assert(false);
                        }
                    }
                }
                let s = PhfSet::new(seed, pilots_table, elements, free);
                proof {
                    assert(s.spec_elems() == gelems);
                    assert forall|t: int| 0 <= t < keys@.len() implies s.spec_contains_bytes(
                        (#[trigger] keys@[t]).hash_bytes(),
                    ) && s.spec_elems()[s.spec_index_of(keys@[t].hash_bytes())] == keys@[t] by {
                        let bs = keys@[t].hash_bytes();
                        assert(crate::phf::appears(map@, t));
                        let w = choose|w: int|
                            #![trigger map@[w]]
                            0 <= w < map@.len() && map@[w] as int == t;
                        assert(gelems[w] == keys@[t]);
                        assert(s.spec_elems()[w].hash_bytes() == bs);
                        assert(s.spec_contains_bytes(bs));
                        let i2 = s.spec_index_of(bs);
                        assert(0 <= i2 < s.spec_elems().len() && s.spec_elems()[i2].hash_bytes()
                            == bs);
                        assert(i2 == w);
                    }
                    assert forall|bs: Seq<u8>| #[trigger] s.spec_contains_bytes(bs) implies
                        seq_contains_bytes(keys@, bs) by {
                        let i2 = choose|i2: int|
                            #![trigger s.spec_elems()[i2]]
                            0 <= i2 < s.spec_elems().len() && s.spec_elems()[i2].hash_bytes() == bs;
                        assert(gelems[i2] == keys@[map@[i2] as int]);
                        assert(keys@[map@[i2] as int].hash_bytes() == bs);
                    }
                }
                Ok(s)
            },
        }
    }

    /// The elements of `self` that are not in `other`, in slot order.
    pub fn difference(&self, other: &PhfSet<K>) -> (r: Vec<K>)
        ensures
            forall|j: int| 0 <= j < r@.len() ==> self.spec_elems().contains(#[trigger] r@[j]),
            forall|j1: int, j2: int|
                0 <= j1 < j2 < r@.len() ==> (#[trigger] r@[j1]).hash_bytes() != (
                #[trigger] r@[j2]).hash_bytes(),
            forall|bs: Seq<u8>|
                #[trigger] seq_contains_bytes(r@, bs) <==> (self.spec_contains_bytes(bs)
                    && !other.spec_contains_bytes(bs)),
    {
        self.retain_by(other, false)
    }

    /// The elements of `self` that are also in `other`, in slot order.
    pub fn intersection(&self, other: &PhfSet<K>) -> (r: Vec<K>)
        ensures
            forall|j: int| 0 <= j < r@.len() ==> self.spec_elems().contains(#[trigger] r@[j]),
            forall|j1: int, j2: int|
                0 <= j1 < j2 < r@.len() ==> (#[trigger] r@[j1]).hash_bytes() != (
                #[trigger] r@[j2]).hash_bytes(),
            forall|bs: Seq<u8>|
                #[trigger] seq_contains_bytes(r@, bs) <==> (self.spec_contains_bytes(bs)
                    && other.spec_contains_bytes(bs)),
    {
        self.retain_by(other, true)
    }

    /// The elements of `self` whose membership in `other` equals `keep`.
    fn retain_by(&self, other: &PhfSet<K>, keep: bool) -> (r: Vec<K>)
        ensures
            forall|j: int| 0 <= j < r@.len() ==> self.spec_elems().contains(#[trigger] r@[j]),
            forall|j1: int, j2: int|
                0 <= j1 < j2 < r@.len() ==> (#[trigger] r@[j1]).hash_bytes() != (
                #[trigger] r@[j2]).hash_bytes(),
            forall|bs: Seq<u8>|
                #[trigger] seq_contains_bytes(r@, bs) <==> (self.spec_contains_bytes(bs)
                    && other.spec_contains_bytes(bs) == keep),
    {
        self.distinctness();
        let n = self.len();
        let mut out: Vec<K> = Vec::new();
        let ghost mut src: Seq<int> = Seq::empty();
        let mut i: usize = 0;
        while i < n
            invariant
                i <= n,
                n == self.spec_elems().len(),
                src.len() == out@.len(),
                forall|s1: int, s2: int|
                    0 <= s1 < s2 < self.spec_elems().len() ==> (
                #[trigger] self.spec_elems()[s1]).hash_bytes() != (
                #[trigger] self.spec_elems()[s2]).hash_bytes(),
                forall|j: int|
                    #![trigger src[j]]
                    0 <= j < src.len() ==> 0 <= src[j] < i && out@[j] == self.spec_elems()[src[j]]
                        && other.spec_contains_bytes(self.spec_elems()[src[j]].hash_bytes())
                        == keep,
                forall|j1: int, j2: int|
                    #![trigger src[j1], src[j2]]
                    0 <= j1 < j2 < src.len() ==> src[j1] < src[j2],
                forall|s: int|
                    #![trigger self.spec_elems()[s]]
                    0 <= s < i && other.spec_contains_bytes(self.spec_elems()[s].hash_bytes())
                        == keep ==> seq_contains_bytes(out@, self.spec_elems()[s].hash_bytes()),
            decreases n - i,
        {
            let e = self.element_at(i);
            let keep_this = other.contains(e) == keep;
            let ghost out0 = out@;
            if keep_this {
                out.push(*e);
                proof {
                    src = src.push(i as int);
                    assert(out@ == out0.push(self.spec_elems()[i as int]));
                    assert forall|s: int|
                        0 <= s < i + 1 && other.spec_contains_bytes(
                            (#[trigger] self.spec_elems()[s]).hash_bytes(),
                        ) == keep implies seq_contains_bytes(out@, self.spec_elems()[s].hash_bytes())
                        by {
                        if s < i {
                            assert(seq_contains_bytes(out0, self.spec_elems()[s].hash_bytes()));
                            let j = choose|j: int|
                                #![trigger out0[j]]
                                0 <= j < out0.len() && out0[j].hash_bytes()
                                    == self.spec_elems()[s].hash_bytes();
                            assert(out@[j] == out0[j]);
                        } else {
                            assert(out@[out0.len() as int].hash_bytes()
                                == self.spec_elems()[s].hash_bytes());
                        }
                    }
                }
            } else {
                proof {
                    assert forall|s: int|
                        0 <= s < i + 1 && other.spec_contains_bytes(
                            (#[trigger] self.spec_elems()[s]).hash_bytes(),
                        ) == keep implies seq_contains_bytes(out@, self.spec_elems()[s].hash_bytes())
                        by {
                        assert(s != i);
                    }
                }
            }
            i += 1;
        }
        proof {
            assert forall|j1: int, j2: int| 0 <= j1 < j2 < out@.len() implies (
            #[trigger] out@[j1]).hash_bytes() != (#[trigger] out@[j2]).hash_bytes() by {
                assert(out@[j1] == self.spec_elems()[src[j1]]);
                assert(out@[j2] == self.spec_elems()[src[j2]]);
                assert(src[j1] < src[j2]);
            }
            assert forall|bs: Seq<u8>| #[trigger] seq_contains_bytes(out@, bs) implies (
                self.spec_contains_bytes(bs) && other.spec_contains_bytes(bs) == keep) by {
                let j = choose|j: int|
                    #![trigger out@[j]]
                    0 <= j < out@.len() && out@[j].hash_bytes() == bs;
                assert(out@[j] == self.spec_elems()[src[j]]);
                assert(self.spec_elems()[src[j]].hash_bytes() == bs);
            }
            assert forall|bs: Seq<u8>|
                self.spec_contains_bytes(bs) && other.spec_contains_bytes(bs) == keep implies
                #[trigger] seq_contains_bytes(out@, bs) by {
                let s = choose|s: int|
                    #![trigger self.spec_elems()[s]]
                    0 <= s < self.spec_elems().len() && self.spec_elems()[s].hash_bytes() == bs;
                assert(seq_contains_bytes(out@, self.spec_elems()[s].hash_bytes()));
            }
            assert forall|j: int| 0 <= j < out@.len() implies self.spec_elems().contains(
                #[trigger] out@[j],
            ) by {
                assert(out@[j] == self.spec_elems()[src[j]]);
            }
        }
        out
    }

    /// The elements in `self` or in `other`: all of `self`, then the
    /// elements of `other` that are not in `self`.
    pub fn union(&self, other: &PhfSet<K>) -> (r: Vec<K>)
        ensures
            forall|j: int|
                0 <= j < r@.len() ==> self.spec_elems().contains(#[trigger] r@[j])
                    || other.spec_elems().contains(#[trigger] r@[j]),
            forall|j1: int, j2: int|
                0 <= j1 < j2 < r@.len() ==> (#[trigger] r@[j1]).hash_bytes() != (
                #[trigger] r@[j2]).hash_bytes(),
            forall|bs: Seq<u8>|
                #[trigger] seq_contains_bytes(r@, bs) <==> (self.spec_contains_bytes(bs)
                    || other.spec_contains_bytes(bs)),
    {
        self.distinctness();
        let n = self.len();
        let mut out: Vec<K> = Vec::new();
        let mut i: usize = 0;
        while i < n
            invariant
                i <= n,
                n == self.spec_elems().len(),
                out@.len() == i,
                forall|s: int| #![trigger out@[s]] 0 <= s < i ==> out@[s] == self.spec_elems()[s],
            decreases n - i,
        {
            out.push(*self.element_at(i));
            i += 1;
        }
        proof {
            assert(out@ =~= self.spec_elems());
        }
        let mut rest = other.difference(self);
        let ghost base = out@;
        let ghost added = rest@;
        out.append(&mut rest);
        proof {
            assert(out@ == base + added);
            assert forall|bs: Seq<u8>| #[trigger] seq_contains_bytes(out@, bs) implies (
                self.spec_contains_bytes(bs) || other.spec_contains_bytes(bs)) by {
                let j = choose|j: int|
                    #![trigger out@[j]]
                    0 <= j < out@.len() && out@[j].hash_bytes() == bs;
                if j < base.len() {
                    assert(base[j] == self.spec_elems()[j]);
                } else {
                    assert(out@[j] == added[j - base.len()]);
                    assert(seq_contains_bytes(added, bs));
                }
            }
            assert forall|bs: Seq<u8>|
                self.spec_contains_bytes(bs) || other.spec_contains_bytes(bs) implies #[trigger]
                seq_contains_bytes(out@, bs) by {
                if self.spec_contains_bytes(bs) {
                    let s = choose|s: int|
                        #![trigger self.spec_elems()[s]]
                        0 <= s < self.spec_elems().len() && self.spec_elems()[s].hash_bytes() == bs;
                    assert(out@[s] == self.spec_elems()[s]);
                } else {
                    assert(seq_contains_bytes(added, bs));
                    let j = choose|j: int|
                        #![trigger added[j]]
                        0 <= j < added.len() && added[j].hash_bytes() == bs;
                    assert(out@[base.len() + j] == added[j]);
                }
            }
            assert forall|j1: int, j2: int| 0 <= j1 < j2 < out@.len() implies (
            #[trigger] out@[j1]).hash_bytes() != (#[trigger] out@[j2]).hash_bytes() by {
                if out@[j1].hash_bytes() == out@[j2].hash_bytes() {
                    if j1 < base.len() && j2 >= base.len() {
                        assert(out@[j1] == self.spec_elems()[j1]);
                        assert(out@[j2] == added[j2 - base.len()]);
                        assert(seq_contains_bytes(added, out@[j2].hash_bytes()));
                        assert(self.spec_contains_bytes(out@[j1].hash_bytes()));
                    } else if j1 >= base.len() {
                        assert(out@[j1] == added[j1 - base.len()]);
                        assert(out@[j2] == added[j2 - base.len()]);
                    } else {
                        assert(out@[j1] == self.spec_elems()[j1]);
                        assert(out@[j2] == self.spec_elems()[j2]);
                    }
                }
            }
            assert forall|j: int| 0 <= j < out@.len() implies self.spec_elems().contains(
                #[trigger] out@[j],
            ) || other.spec_elems().contains(#[trigger] out@[j]) by {
                if j < base.len() {
                    assert(out@[j] == self.spec_elems()[j]);
                } else {
                    assert(out@[j] == added[j - base.len()]);
                    assert(other.spec_elems().contains(out@[j]));
                }
            }
        }
        out
    }

    /// The elements in exactly one of the two sets: those of `self` not in
    /// `other`, then those of `other` not in `self`.
    pub fn symmetric_difference(&self, other: &PhfSet<K>) -> (r: Vec<K>)
        ensures
            forall|j: int|
                0 <= j < r@.len() ==> self.spec_elems().contains(#[trigger] r@[j])
                    || other.spec_elems().contains(#[trigger] r@[j]),
            forall|j1: int, j2: int|
                0 <= j1 < j2 < r@.len() ==> (#[trigger] r@[j1]).hash_bytes() != (
                #[trigger] r@[j2]).hash_bytes(),
            forall|bs: Seq<u8>|
                #[trigger] seq_contains_bytes(r@, bs) <==> (self.spec_contains_bytes(bs)
                    != other.spec_contains_bytes(bs)),
    {
        let mut out = self.difference(other);
        let ghost base = out@;
        let mut rest = other.difference(self);
        let ghost added = rest@;
        out.append(&mut rest);
        proof {
            assert(out@ == base + added);
            assert forall|bs: Seq<u8>| #[trigger] seq_contains_bytes(out@, bs) implies (
                self.spec_contains_bytes(bs) != other.spec_contains_bytes(bs)) by {
                let j = choose|j: int|
                    #![trigger out@[j]]
                    0 <= j < out@.len() && out@[j].hash_bytes() == bs;
                if j < base.len() {
                    assert(seq_contains_bytes(base, bs));
                } else {
                    assert(out@[j] == added[j - base.len()]);
                    assert(seq_contains_bytes(added, bs));
                }
            }
            assert forall|bs: Seq<u8>|
                self.spec_contains_bytes(bs) != other.spec_contains_bytes(bs) implies #[trigger]
                seq_contains_bytes(out@, bs) by {
                if self.spec_contains_bytes(bs) {
                    assert(seq_contains_bytes(base, bs));
                    let j = choose|j: int|
                        #![trigger base[j]]
                        0 <= j < base.len() && base[j].hash_bytes() == bs;
                    assert(out@[j] == base[j]);
                } else {
                    assert(seq_contains_bytes(added, bs));
                    let j = choose|j: int|
                        #![trigger added[j]]
                        0 <= j < added.len() && added[j].hash_bytes() == bs;
                    assert(out@[base.len() + j] == added[j]);
                }
            }
            assert forall|j1: int, j2: int| 0 <= j1 < j2 < out@.len() implies (
            #[trigger] out@[j1]).hash_bytes() != (#[trigger] out@[j2]).hash_bytes() by {
                if out@[j1].hash_bytes() == out@[j2].hash_bytes() {
                    if j1 < base.len() && j2 >= base.len() {
                        assert(seq_contains_bytes(base, out@[j1].hash_bytes()));
                        assert(out@[j2] == added[j2 - base.len()]);
                        assert(seq_contains_bytes(added, out@[j2].hash_bytes()));
                    } else if j1 >= base.len() {
                        assert(out@[j1] == added[j1 - base.len()]);
                        assert(out@[j2] == added[j2 - base.len()]);
                    } else {
                        assert(out@[j1] == base[j1]);
                        assert(out@[j2] == base[j2]);
                    }
                }
            }
            assert forall|j: int| 0 <= j < out@.len() implies self.spec_elems().contains(
                #[trigger] out@[j],
            ) || other.spec_elems().contains(#[trigger] out@[j]) by {
                if j < base.len() {
                    assert(self.spec_elems().contains(base[j]));
                } else {
                    assert(out@[j] == added[j - base.len()]);
                    assert(other.spec_elems().contains(out@[j]));
                }
            }
        }
        out
    }

    /// Whether the two sets have no element in common.
    pub fn is_disjoint(&self, other: &PhfSet<K>) -> (r: bool)
        ensures
            r == (forall|bs: Seq<u8>|
                !(#[trigger] self.spec_contains_bytes(bs) && other.spec_contains_bytes(bs))),
    {
        let common = self.intersection(other);
        let empty = common.len() == 0;
        proof {
            if empty {
                assert forall|bs: Seq<u8>|
                    !(#[trigger] self.spec_contains_bytes(bs) && other.spec_contains_bytes(bs))
                    by {
                    if self.spec_contains_bytes(bs) && other.spec_contains_bytes(bs) {
                        assert(seq_contains_bytes(common@, bs));
                        let j = choose|j: int|
                            #![trigger common@[j]]
                            0 <= j < common@.len() && common@[j].hash_bytes() == bs;
                        assert(false);
                    }
                }
            } else {
                let bs = common@[0].hash_bytes();
                assert(seq_contains_bytes(common@, bs));
                assert(self.spec_contains_bytes(bs) && other.spec_contains_bytes(bs));
            }
        }
        empty
    }

    /// Whether every element of `self` is in `other`.
    pub fn is_subset(&self, other: &PhfSet<K>) -> (r: bool)
        ensures
            r == (forall|bs: Seq<u8>|
                #[trigger] self.spec_contains_bytes(bs) ==> other.spec_contains_bytes(bs)),
    {
        let missing = self.difference(other);
        let none_missing = missing.len() == 0;
        proof {
            if none_missing {
                assert forall|bs: Seq<u8>| #[trigger]
                    self.spec_contains_bytes(bs) implies other.spec_contains_bytes(bs) by {
                    if !other.spec_contains_bytes(bs) {
                        assert(seq_contains_bytes(missing@, bs));
                        let j = choose|j: int|
                            #![trigger missing@[j]]
                            0 <= j < missing@.len() && missing@[j].hash_bytes() == bs;
                        assert(false);
                    }
                }
            } else {
                let bs = missing@[0].hash_bytes();
                assert(seq_contains_bytes(missing@, bs));
                assert(self.spec_contains_bytes(bs) && !other.spec_contains_bytes(bs));
            }
        }
        none_missing
    }

    /// Whether every element of `other` is in `self`.
    pub fn is_superset(&self, other: &PhfSet<K>) -> (r: bool)
        ensures
            r == (forall|bs: Seq<u8>|
                #[trigger] other.spec_contains_bytes(bs) ==> self.spec_contains_bytes(bs)),
    {
        other.is_subset(self)
    }
}

impl<K: PhfKey> PhfSet<K> {
    /// The byte representations of the stored elements, in slot order.
    pub open spec fn spec_byte_seq(self) -> Seq<Seq<u8>> {
        self.spec_elems().map_values(|k: K| k.hash_bytes())
    }
}

impl<K: PhfKey> PartialEq for PhfSet<K> {
    /// Two sets are equal when they contain the same byte representations.
    fn eq(&self, other: &Self) -> (r: bool) {
        self.distinctness();
        other.distinctness();
        proof {
            self.spec_byte_seq().unique_seq_to_set();
            other.spec_byte_seq().unique_seq_to_set();
            vstd::seq_lib::seq_to_set_is_finite(self.spec_byte_seq());
            vstd::seq_lib::seq_to_set_is_finite(other.spec_byte_seq());
        }
        let n = self.len();
        if n != other.len() {
            proof {
                if (forall|bs: Seq<u8>|
                    self.spec_contains_bytes(bs) <==> other.spec_contains_bytes(bs)) {
                    let sa = self.spec_byte_seq().to_set();
                    let sb = other.spec_byte_seq().to_set();
                    assert forall|bs: Seq<u8>| sa.contains(bs) implies sb.contains(bs) by {
                        let s = choose|s: int|
                            #![trigger self.spec_byte_seq()[s]]
                            0 <= s < self.spec_byte_seq().len() && self.spec_byte_seq()[s] == bs;
                        assert(self.spec_elems()[s].hash_bytes() == bs);
                        assert(self.spec_contains_bytes(bs));
                        let w = choose|w: int|
                            #![trigger other.spec_elems()[w]]
                            0 <= w < other.spec_elems().len() && other.spec_elems()[w].hash_bytes()
                                == bs;
                        assert(other.spec_byte_seq()[w] == bs);
                    }
                    assert forall|bs: Seq<u8>| sb.contains(bs) implies sa.contains(bs) by {
                        let w = choose|w: int|
                            #![trigger other.spec_byte_seq()[w]]
                            0 <= w < other.spec_byte_seq().len() && other.spec_byte_seq()[w] == bs;
                        assert(other.spec_elems()[w].hash_bytes() == bs);
                        assert(other.spec_contains_bytes(bs));
                        let s = choose|s: int|
                            #![trigger self.spec_elems()[s]]
                            0 <= s < self.spec_elems().len() && self.spec_elems()[s].hash_bytes()
                                == bs;
                        assert(self.spec_byte_seq()[s] == bs);
                    }
                    assert(sa =~= sb);
                    assert(false);
                }
            }
            return false;
        }
        let mut i: usize = 0;
        while i < n
            invariant
                i <= n,
                n == self.spec_elems().len(),
                forall|s: int|
                    #![trigger self.spec_elems()[s]]
                    0 <= s < i ==> other.spec_contains_bytes(self.spec_elems()[s].hash_bytes()),
            decreases n - i,
        {
            if !other.contains(self.element_at(i)) {
                proof {
                    assert(self.spec_contains_bytes(self.spec_elems()[i as int].hash_bytes()));
                }
                return false;
            }
            i += 1;
        }
        proof {
            let sa = self.spec_byte_seq().to_set();
            let sb = other.spec_byte_seq().to_set();
            self.spec_byte_seq().unique_seq_to_set();
            other.spec_byte_seq().unique_seq_to_set();
            vstd::seq_lib::seq_to_set_is_finite(self.spec_byte_seq());
            vstd::seq_lib::seq_to_set_is_finite(other.spec_byte_seq());
            assert forall|bs: Seq<u8>| sa.contains(bs) implies sb.contains(bs) by {
                let s = choose|s: int|
                    #![trigger self.spec_byte_seq()[s]]
                    0 <= s < self.spec_byte_seq().len() && self.spec_byte_seq()[s] == bs;
                assert(self.spec_elems()[s].hash_bytes() == bs);
                assert(other.spec_contains_bytes(bs));
                let w = choose|w: int|
                    #![trigger other.spec_elems()[w]]
                    0 <= w < other.spec_elems().len() && other.spec_elems()[w].hash_bytes() == bs;
                assert(other.spec_byte_seq()[w] == bs);
            }
            vstd::set_lib::lemma_subset_equality(sa, sb);
            assert forall|bs: Seq<u8>|
                self.spec_contains_bytes(bs) <==> other.spec_contains_bytes(bs) by {
                if self.spec_contains_bytes(bs) {
                    let s = choose|s: int|
                        #![trigger self.spec_elems()[s]]
                        0 <= s < self.spec_elems().len() && self.spec_elems()[s].hash_bytes() == bs;
                    assert(self.spec_byte_seq()[s] == bs);
                    assert(sb.contains(bs));
                    let w = choose|w: int|
                        #![trigger other.spec_byte_seq()[w]]
                        0 <= w < other.spec_byte_seq().len() && other.spec_byte_seq()[w] == bs;
                    assert(other.spec_elems()[w].hash_bytes() == bs);
                }
                if other.spec_contains_bytes(bs) {
                    let w = choose|w: int|
                        #![trigger other.spec_elems()[w]]
                        0 <= w < other.spec_elems().len() && other.spec_elems()[w].hash_bytes()
                            == bs;
                    assert(other.spec_byte_seq()[w] == bs);
                    assert(sa.contains(bs));
                    let s = choose|s: int|
                        #![trigger self.spec_byte_seq()[s]]
                        0 <= s < self.spec_byte_seq().len() && self.spec_byte_seq()[s] == bs;
                    assert(self.spec_elems()[s].hash_bytes() == bs);
                }
            }
        }
        true
    }
}

impl<K: PhfKey> vstd::std_specs::cmp::PartialEqSpecImpl for PhfSet<K> {
    open spec fn obeys_eq_spec() -> bool {
        true
    }

    open spec fn eq_spec(&self, other: &Self) -> bool {
        forall|bs: Seq<u8>|
            #![trigger self.spec_contains_bytes(bs)]
            #![trigger other.spec_contains_bytes(bs)]
            self.spec_contains_bytes(bs) <==> other.spec_contains_bytes(bs)
    }
}

impl<K: PhfKey> Eq for PhfSet<K> {

}

/// A cursor over the elements of a [`PhfSet`], in slot order.
pub struct Iter<'a, K: PhfKey> {
    iter: crate::raw_map::Iter<'a, K>,
}

impl<'a, K: PhfKey> Iter<'a, K> {
    /// The elements the cursor walks over.
    pub closed spec fn spec_elems(self) -> Seq<K> {
        self.iter.spec_elems()
    }

    /// How many elements the cursor has already yielded.
    pub closed spec fn spec_pos(self) -> int {
        self.iter.spec_pos()
    }

    /// Yield the next element, or `None` at the end.
    pub fn next(&mut self) -> (r: Option<&'a K>)
        ensures
            final(self).spec_elems() == old(self).spec_elems(),
            match r {
                Some(k) => {
                    &&& old(self).spec_pos() < old(self).spec_elems().len()
                    &&& *k == old(self).spec_elems()[old(self).spec_pos()]
                    &&& final(self).spec_pos() == old(self).spec_pos() + 1
                },
                None => {
                    &&& old(self).spec_pos() == old(self).spec_elems().len()
                    &&& final(self).spec_pos() == old(self).spec_pos()
                },
            },
    {
        self.iter.next()
    }
}

} // verus!
