//! Construction of a PTHash perfect hash function.
//!
//! Given a list of distinct keys, construction produces parameters
//! `(seed, pilots_table, map, free)` such that every key is sent to a unique
//! slot in `[0, n)` by a closed-form function of its hash: the key's hash
//! picks a bucket, the bucket's pilot value is mixed into the hash, the
//! result is reduced modulo the intermediate codomain, and indices past `n`
//! are redirected through the `free` table. The well-formedness predicate
//! [`phf_parts_wf`] states that property; every successfully built [`Phf`]
//! satisfies it.

use vstd::prelude::*;
use crate::keys::{keys_bytes, key_eq, PhfKey};
use crate::shared::{get_bucket, get_index, hash_key, hash_pilot_value, spec_pilot_hash, wy_hash,
    FastDivisor};

verus! {

/// Two to the given power.
pub open spec fn pow2(e: nat) -> nat
    decreases e,
{
    if e == 0 {
        1
    } else {
        2 * pow2((e - 1) as nat)
    }
}

pub proof fn lemma_pow2_add(a: nat, b: nat)
    ensures
        pow2(a + b) == pow2(a) * pow2(b),
    decreases a,
{
    if a == 0 {
        assert(pow2(0) == 1);
        assert(a + b == b);
    } else {
        lemma_pow2_add((a - 1) as nat, b);
        let pa1 = pow2((a - 1) as nat);
        let pb = pow2(b);
        assert(pow2((a - 1) as nat + b) == pa1 * pb);
        assert(pow2(a) == 2 * pa1);
        assert((a + b - 1) as nat == (a - 1) as nat + b);
        assert(pow2(a + b) == 2 * pow2((a + b - 1) as nat));
        assert(pow2(a + b) == 2 * (pa1 * pb));
        assert(2 * (pa1 * pb) == (2 * pa1) * pb) by (nonlinear_arith);
    }
}

pub proof fn lemma_pow2_pos(e: nat)
    ensures
        pow2(e) >= 1,
    decreases e,
{
    if e > 0 {
        lemma_pow2_pos((e - 1) as nat);
    }
}

pub proof fn lemma_pow2_64()
    ensures
        pow2(64) == 0x1_0000_0000_0000_0000,
{
    reveal_with_fuel(pow2, 9);
    assert(pow2(8) == 256);
    lemma_pow2_add(8, 8);
    assert(pow2(16) == 0x1_0000);
    lemma_pow2_add(16, 16);
    assert(pow2(32) == 0x1_0000_0000);
    lemma_pow2_add(32, 32);
}

/// Parameters of a PTHash perfect hash function.
pub struct Phf {
    /// Hash seed used both at construction and at lookup.
    pub seed: u64,
    /// One pilot value per bucket; never empty.
    pub pilots_table: Vec<u16>,
    /// For each slot, the index of the input key placed there.
    pub map: Vec<u32>,
    /// Redirection targets for slots past the key count; never empty.
    pub free: Vec<u32>,
}

/// The errors construction can surface.
#[derive(Debug, Clone, Copy, PartialEq, Eq, Structural)]
pub enum PhfError {
    /// Two of the supplied keys are equal; the fields name their positions.
    DuplicateKeys { first: usize, second: usize },
    /// Every tried seed ran into a hash collision or a failed pilot search.
    SeedSearchExhausted,
}

/// The raw, unredirected slot of a 64-bit hash: the pilot-mixed hash
/// reduced modulo the codomain length `m`.
pub open spec fn spec_raw_index(h: u64, pilots: Seq<u16>, m: int) -> int
    recommends
        pilots.len() >= 1,
        m >= 1,
{
    let b = (h as int) % (pilots.len() as int);
    let ph = spec_pilot_hash(pilots[b]);
    ((h ^ ph) as int) % m
}

/// The slot a 64-bit hash is sent to by the given parameters: reduce the
/// pilot-mixed hash modulo the codomain, and redirect through `free` when
/// the result falls past `n`.
pub open spec fn phf_slot_of_hash(h: u64, pilots: Seq<u16>, n: int, free: Seq<u32>) -> int
    recommends
        pilots.len() >= 1,
        n >= 0,
        n + free.len() >= 1,
{
    let i = spec_raw_index(h, pilots, n + free.len());
    if i < n {
        i
    } else {
        free[i - n] as int
    }
}

/// Redirect entries that no key's raw slot reaches hold the dummy zero:
/// the redirection table carries no information beyond the moves that the
/// compaction step actually made.
pub open spec fn phf_free_minimal(
    seed: u64,
    pilots: Seq<u16>,
    map: Seq<u32>,
    free: Seq<u32>,
    kb: Seq<Seq<u8>>,
) -> bool {
    forall|j: int|
        #![trigger free[j]]
        0 <= j < free.len() && (forall|i: int|
            #![trigger map[i]]
            0 <= i < map.len() ==> spec_raw_index(
                wy_hash(kb[map[i] as int], seed),
                pilots,
                map.len() + free.len() as int,
            ) != map.len() + j) ==> free[j] == 0
}

/// Whether some slot of `map` holds the key index `t`.
pub open spec fn appears(map: Seq<u32>, t: int) -> bool {
    exists|i: int| #![trigger map[i]] 0 <= i < map.len() && map[i] as int == t
}

/// Well-formedness of constructed parameters with respect to the byte
/// representations `kb` of the input keys: `map` is a permutation of the key
/// indices, and the key placed at a slot is sent exactly there by its hash.
pub open spec fn phf_parts_wf(
    seed: u64,
    pilots: Seq<u16>,
    map: Seq<u32>,
    free: Seq<u32>,
    kb: Seq<Seq<u8>>,
) -> bool {
    let n = kb.len() as int;
    &&& pilots.len() >= 1
    &&& free.len() >= 1
    &&& map.len() == n
    &&& forall|i: int| #![trigger map[i]] 0 <= i < n ==> (map[i] as int) < n
    &&& forall|j: int| #![trigger free[j]] 0 <= j < free.len() && n > 0 ==> (free[j] as int) < n
    &&& forall|i: int|
        #![trigger map[i]]
        0 <= i < n ==> phf_slot_of_hash(wy_hash(kb[map[i] as int], seed), pilots, n, free) == i
    &&& forall|t: int| 0 <= t < n ==> #[trigger] appears(map, t)
}

/// Well-formedness of a [`Phf`] with respect to the byte representations of
/// the input keys.
pub open spec fn phf_wf(phf: Phf, kb: Seq<Seq<u8>>) -> bool {
    phf_parts_wf(phf.seed, phf.pilots_table@, phf.map@, phf.free@, kb)
}

/// No two distinct key indices are sent to the same slot by a well-formed
/// table: the placement is a bijection between key indices and slots.
pub proof fn lemma_phf_slots_injective(
    seed: u64,
    pilots: Seq<u16>,
    map: Seq<u32>,
    free: Seq<u32>,
    kb: Seq<Seq<u8>>,
    t1: int,
    t2: int,
)
    requires
        phf_parts_wf(seed, pilots, map, free, kb),
        0 <= t1 < kb.len(),
        0 <= t2 < kb.len(),
        t1 != t2,
    ensures
        phf_slot_of_hash(wy_hash(kb[t1], seed), pilots, kb.len() as int, free)
            != phf_slot_of_hash(wy_hash(kb[t2], seed), pilots, kb.len() as int, free),
{
    assert(appears(map, t1));
    assert(appears(map, t2));
    let i1 = choose|i: int| #![trigger map[i]] 0 <= i < map.len() && map[i] as int == t1;
    let i2 = choose|i: int| #![trigger map[i]] 0 <= i < map.len() && map[i] as int == t2;
    assert(phf_slot_of_hash(wy_hash(kb[t1], seed), pilots, kb.len() as int, free) == i1);
    assert(phf_slot_of_hash(wy_hash(kb[t2], seed), pilots, kb.len() as int, free) == i2);
}

/// A well-formed table exists only for pairwise distinct keys: two equal
/// byte representations would have to share a slot.
pub proof fn lemma_phf_keys_distinct(
    seed: u64,
    pilots: Seq<u16>,
    map: Seq<u32>,
    free: Seq<u32>,
    kb: Seq<Seq<u8>>,
    t1: int,
    t2: int,
)
    requires
        phf_parts_wf(seed, pilots, map, free, kb),
        0 <= t1 < t2 < kb.len(),
    ensures
        kb[t1] != kb[t2],
{
    lemma_phf_slots_injective(seed, pilots, map, free, kb, t1, t2);
}

/// The floor of the base-two logarithm, as a specification.
pub open spec fn spec_ilog2(n: nat) -> nat
    decreases n,
{
    if n < 2 {
        0
    } else {
        1 + spec_ilog2(n / 2)
    }
}

/// The floor of the base-two logarithm.
pub fn ilog2(n: u64) -> (r: u32)
    requires
        n >= 1,
    ensures
        r == spec_ilog2(n as nat),
        pow2(r as nat) <= n < pow2((r + 1) as nat),
        r < 64,
{
    let mut x: u64 = n;
    let mut r: u32 = 0;
    proof {
        lemma_pow2_64();
        assert(pow2(0) == 1);
    }
    while x >= 2
        invariant
            1 <= x <= n,
            r < 64,
            pow2(r as nat) * x <= n < pow2(r as nat) * (x + 1),
            spec_ilog2(n as nat) == r + spec_ilog2(x as nat),
            pow2(64) == 0x1_0000_0000_0000_0000,
        decreases x,
    {
        let ghost r0 = r as nat;
        let ghost x0 = x as int;
        let ghost p = pow2(r0) as int;
        proof {
            assert(spec_ilog2(x as nat) == 1 + spec_ilog2((x / 2) as nat));
            lemma_pow2_pos(r0);
            // The exponent stays below 64: p * 2 <= p * x0 <= n < pow2(64).
            assert(p * 2 <= p * x0) by (nonlinear_arith)
                requires
                    p >= 1,
                    x0 >= 2,
            ;
            assert(pow2(r0 + 1) == 2 * pow2(r0));
            if r0 + 1 >= 64 {
                lemma_pow2_add(64, (r0 + 1 - 64) as nat);
                lemma_pow2_pos((r0 + 1 - 64) as nat);
                assert(pow2(64) * 1 <= pow2(64) * pow2((r0 + 1 - 64) as nat)) by (nonlinear_arith)
                    requires
                        pow2((r0 + 1 - 64) as nat) >= 1,
                        pow2(64) >= 0,
                ;
                assert(false);
            }
        }
        x = x / 2;
        r = r + 1;
        proof {
            let x1 = x as int;
            assert(pow2(r0 + 1) == 2 * pow2(r0));
            assert(x0 == 2 * x1 || x0 == 2 * x1 + 1);
            assert((2 * p) * x1 <= p * x0) by (nonlinear_arith)
                requires
                    p >= 0,
                    x0 == 2 * x1 || x0 == 2 * x1 + 1,
            ;
            assert(p * (x0 + 1) <= (2 * p) * (x1 + 1)) by (nonlinear_arith)
                requires
                    p >= 0,
                    x0 == 2 * x1 || x0 == 2 * x1 + 1,
            ;
        }
    }
    proof {
        assert(x == 1);
        let p = pow2(r as nat) as int;
        assert(p * 1 <= n < p * (1 + 1)) by (nonlinear_arith)
            requires
                p * (x as int) <= n < p * ((x as int) + 1),
                x == 1,
        ;
        assert(pow2((r + 1) as nat) == 2 * pow2(r as nat));
    }
    r
}

/// One input key as carried through construction: its position in the
/// input, its hash under the current seed, and its bucket.
#[derive(Clone, Copy)]
struct HashedEntry {
    idx: usize,
    hash: u64,
    bucket: u64,
}

/// One bucket: its number, and the contiguous run of hashed entries that
/// belong to it after sorting.
#[derive(Clone, Copy)]
struct BucketData {
    idx: usize,
    start_idx: usize,
    size: usize,
}

/// Lexicographic order on hashed entries: by bucket, then by hash.
spec fn he_le(a: HashedEntry, b: HashedEntry) -> bool {
    a.bucket < b.bucket || (a.bucket == b.bucket && a.hash <= b.hash)
}

/// Whether two hashed entries share bucket and hash.
spec fn same_bh(a: HashedEntry, b: HashedEntry) -> bool {
    a.bucket == b.bucket && a.hash == b.hash
}

/// A hashed entry carries a valid input position, that key's hash under
/// the current seed, and the hash's bucket.
spec fn he_consistent<K: PhfKey>(e: HashedEntry, keys: Seq<K>, seed: u64, b: u64) -> bool {
    &&& (e.idx as int) < keys.len()
    &&& e.hash == wy_hash(keys[e.idx as int].hash_bytes(), seed)
    &&& (e.bucket as int) == (e.hash as int) % (b as int)
}

/// Whether the keys hold two equal byte representations.
pub open spec fn has_duplicate_keys<K: PhfKey>(keys: Seq<K>) -> bool {
    exists|t1: int, t2: int|
        #![trigger keys[t1], keys[t2]]
        0 <= t1 < t2 < keys.len() && keys[t1].hash_bytes() == keys[t2].hash_bytes()
}

/// Sentinel marking a slot of the placement table as unoccupied.
const EMPTY_SLOT: u32 = 0xFFFF_FFFF;

/// A vector holding `len` copies of `value`.
fn repeat<T: Copy>(len: usize, value: T) -> (r: Vec<T>)
    ensures
        r@.len() == len,
        forall|t: int| 0 <= t < len ==> r@[t] == value,
{
    let mut r: Vec<T> = Vec::new();
    let mut i: usize = 0;
    while i < len
        invariant
            r@.len() == i,
            i <= len,
            forall|t: int| 0 <= t < i ==> r@[t] == value,
        decreases len - i,
    {
        r.push(value);
        i += 1;
    }
    r
}

/// The ceiling of `a / b`.
pub open spec fn spec_div_ceil(a: int, b: int) -> int
    recommends
        b >= 1,
{
    (a + b - 1) / b
}

/// The bucket count for `n` keys: one bucket for a single key, else
/// `(1.5 + 0.2 lg) n / lg` rounded up, computed in tenths.
pub open spec fn spec_bucket_count(n: nat) -> int {
    if n <= 1 {
        1
    } else {
        spec_div_ceil((15 + 2 * spec_ilog2(n)) * (n as int), 10 * spec_ilog2(n) as int)
    }
}

/// The codomain length for `n` keys: `n / (0.99 - 0.001 lg)` rounded up,
/// computed in thousandths, then rounded up to the next odd integer.
pub open spec fn spec_codomain_len(n: nat) -> int {
    let m0 = spec_div_ceil(1000 * (n as int), 990 - spec_ilog2(n) as int);
    m0 + (1 - m0 % 2)
}

/// The codomain length is always odd: the formula rounds the ceiling up
/// to the next odd integer.
pub proof fn lemma_codomain_len_odd(n: nat)
    ensures
        spec_codomain_len(n) % 2 == 1,
{
}

/// Divide, rounding up.
pub fn div_ceil(a: u64, b: u64) -> (r: u64)
    requires
        b >= 1,
        a + b - 1 <= u64::MAX,
    ensures
        r == spec_div_ceil(a as int, b as int),
        r * b >= a,
        a >= 1 ==> (r - 1) * b < a,
        a >= 1 ==> r >= 1,
{
    let r = (a + (b - 1)) / b;
    proof {
        let ai = a as int;
        let bi = b as int;
        let ri = r as int;
        vstd::arithmetic::div_mod::lemma_fundamental_div_mod(ai + bi - 1, bi);
        let rem = (ai + bi - 1) % bi;
        assert(0 <= rem < bi) by {
            vstd::arithmetic::div_mod::lemma_mod_bound(ai + bi - 1, bi);
        }
        assert(ai + bi - 1 == bi * ri + rem);
        assert(ri * bi == bi * ri) by (nonlinear_arith);
        assert((ri - 1) * bi == ri * bi - bi) by (nonlinear_arith);
        if a >= 1 && r < 1 {
            assert(ri * bi <= 0) by (nonlinear_arith)
                requires
                    ri <= 0,
                    bi >= 1,
            ;
            assert(false);
        }
    }
    r
}

/// Check a candidate table against the keys: every redirect target lies in
/// the key range, every key index occurs in `map` exactly once, and the slot
/// that a stored key's hash computes is exactly the slot holding it. A
/// `true` answer establishes well-formedness.
#[verifier::loop_isolation(false)]
#[verifier::rlimit(100)]
fn validate_phf<K: PhfKey>(
    entries: &Vec<K>,
    seed: u64,
    pilots_table: &Vec<u16>,
    map: &Vec<u32>,
    free: &Vec<u32>,
    buckets_len: &FastDivisor,
    codomain_len: &FastDivisor,
) -> (ok: bool)
    requires
        1 <= entries@.len() < 0x4000_0000,
        map@.len() == entries@.len(),
        pilots_table@.len() >= 1,
        free@.len() >= 1,
        buckets_len.value() == pilots_table@.len(),
        codomain_len.value() == map@.len() + free@.len(),
        codomain_len.value() <= usize::MAX,
    ensures
        ok ==> phf_parts_wf(seed, pilots_table@, map@, free@, keys_bytes(entries@)),
        ok ==> phf_free_minimal(seed, pilots_table@, map@, free@, keys_bytes(entries@)),
{
    let ghost kb = keys_bytes(entries@);
    let n = entries.len();

    let mut j: usize = 0;
    while j < free.len()
        invariant
            j <= free@.len(),
            forall|t: int| #![trigger free@[t]] 0 <= t < j ==> (free@[t] as int) < n,
        decreases free@.len() - j,
    {
        if free[j] as usize >= n {
            return false;
        }
        j += 1;
    }

    let mut seen: Vec<bool> = repeat(n, false);
    let mut used: Vec<bool> = repeat(free.len(), false);
    let mut i: usize = 0;
    while i < n
        invariant
            i <= n,
            seen@.len() == n,
            used@.len() == free@.len(),
            forall|u: int|
                #![trigger used@[u]]
                0 <= u < free@.len() ==> (used@[u] <==> exists|s: int|
                    #![trigger map@[s]]
                    0 <= s < i && (map@[s] as int) < n && spec_raw_index(
                        wy_hash(kb[map@[s] as int], seed),
                        pilots_table@,
                        n + free@.len(),
                    ) == n + u),
            forall|t: int|
                #![trigger map@[t]]
                0 <= t < i ==> (map@[t] as int) < n && phf_slot_of_hash(
                    wy_hash(kb[map@[t] as int], seed),
                    pilots_table@,
                    n as int,
                    free@,
                ) == t,
            forall|t: int|
                #![trigger seen@[t]]
                0 <= t < n ==> (seen@[t] <==> exists|s: int|
                    #![trigger map@[s]]
                    0 <= s < i && map@[s] as int == t),
        decreases n - i,
    {
        let kidx_u32 = map[i];
        if kidx_u32 >= n as u32 {
            return false;
        }
        let kidx = kidx_u32 as usize;
        if seen[kidx] {
            return false;
        }
        let h = hash_key(&entries[kidx], seed);
        let b = get_bucket(h, buckets_len);
        let pilots_count = pilots_table.len();
        proof {
            assert(b < pilots_count);
        }
        let b_us = b as usize;
        let ph = hash_pilot_value(pilots_table[b_us]);
        let raw64 = get_index(h, ph, codomain_len);
        proof {
            assert(raw64 < map@.len() + free@.len());
        }
        let raw = raw64 as usize;
        let slot = if raw < n {
            raw
        } else {
            free[raw - n] as usize
        };
        if slot != i {
            return false;
        }
        let ghost seen0 = seen@;
        let ghost used0 = used@;
        seen.set(kidx, true);
        if raw >= n {
            used.set(raw - n, true);
        }
        proof {
            assert(kb[kidx as int] == entries@[kidx as int].hash_bytes());
            let m = n as int + free@.len();
            let bspec = (h as int) % (pilots_table@.len() as int);
            assert(b as int == bspec);
            assert(ph == spec_pilot_hash(pilots_table@[bspec]));
            let rawspec = ((h ^ ph) as int) % m;
            assert(raw as int == rawspec);
            assert(spec_raw_index(wy_hash(kb[kidx as int], seed), pilots_table@, m) == rawspec);
            assert(phf_slot_of_hash(wy_hash(kb[kidx as int], seed), pilots_table@, n as int, free@)
                == i as int);
            assert forall|u: int| 0 <= u < free@.len() implies (used@[u] <==> exists|s: int|
                #![trigger map@[s]]
                0 <= s < i + 1 && (map@[s] as int) < n && spec_raw_index(
                    wy_hash(kb[map@[s] as int], seed),
                    pilots_table@,
                    n + free@.len(),
                ) == n + u) by {
                if raw >= n && u == raw - n {
                    assert(used@[u]);
                    assert(map@[i as int] as int == kidx as int);
                    assert(spec_raw_index(wy_hash(kb[map@[i as int] as int], seed), pilots_table@,
                        n + free@.len()) == n + u);
                } else {
                    assert(used@[u] == used0[u]);
                    if exists|s: int|
                        #![trigger map@[s]]
                        0 <= s < i + 1 && (map@[s] as int) < n && spec_raw_index(
                            wy_hash(kb[map@[s] as int], seed),
                            pilots_table@,
                            n + free@.len(),
                        ) == n + u {
                        let s = choose|s: int|
                            #![trigger map@[s]]
                            0 <= s < i + 1 && (map@[s] as int) < n && spec_raw_index(
                                wy_hash(kb[map@[s] as int], seed),
                                pilots_table@,
                                n + free@.len(),
                            ) == n + u;
                        assert(s != i);
                        assert(0 <= s < i && (map@[s] as int) < n && spec_raw_index(
                            wy_hash(kb[map@[s] as int], seed),
                            pilots_table@,
                            n + free@.len(),
                        ) == n + u);
                    }
                }
            }
            assert forall|t: int| 0 <= t < n implies (seen@[t] <==> exists|s: int|
                #![trigger map@[s]]
                0 <= s < i + 1 && map@[s] as int == t) by {
                if t == kidx as int {
                    assert(map@[i as int] as int == t);
                    assert(seen@[t]);
                } else {
                    assert(seen@[t] == seen0[t]);
                    if exists|s: int| #![trigger map@[s]] 0 <= s < i + 1 && map@[s] as int == t {
                        let s = choose|s: int|
                            #![trigger map@[s]]
                            0 <= s < i + 1 && map@[s] as int == t;
                        assert(s != i);
                        assert(0 <= s < i && map@[s] as int == t);
                    }
                }
            }
        }
        i += 1;
    }

    let mut t2: usize = 0;
    while t2 < n
        invariant
            t2 <= n,
            seen@.len() == n,
            forall|t: int|
                #![trigger seen@[t]]
                0 <= t < n ==> (seen@[t] <==> exists|s: int|
                    #![trigger map@[s]]
                    0 <= s < n && map@[s] as int == t),
            forall|t: int| 0 <= t < t2 ==> #[trigger] appears(map@, t),
        decreases n - t2,
    {
        if !seen[t2] {
            return false;
        }
        proof {
            let s = choose|s: int| #![trigger map@[s]] 0 <= s < n && map@[s] as int == t2 as int;
            assert(0 <= s < map@.len() && map@[s] as int == t2 as int);
            assert(appears(map@, t2 as int));
        }
        t2 += 1;
    }

    let mut j2: usize = 0;
    while j2 < free.len()
        invariant
            j2 <= free@.len(),
            used@.len() == free@.len(),
            forall|u: int| #![trigger free@[u]] 0 <= u < j2 ==> used@[u] || free@[u] == 0,
        decreases free@.len() - j2,
    {
        if !used[j2] && free[j2] != 0 {
            return false;
        }
        j2 += 1;
    }

    proof {
        assert(phf_parts_wf(seed, pilots_table@, map@, free@, kb));
        assert forall|u: int|
            0 <= u < free@.len() && (forall|s: int|
                #![trigger map@[s]]
                0 <= s < map@.len() ==> spec_raw_index(wy_hash(kb[map@[s] as int], seed),
                    pilots_table@, map@.len() + free@.len() as int) != map@.len() + u) implies (
        #[trigger] free@[u]) == 0 by {
            if used@[u] {
                let s = choose|s: int|
                    #![trigger map@[s]]
                    0 <= s < n && (map@[s] as int) < n && spec_raw_index(
                        wy_hash(kb[map@[s] as int], seed),
                        pilots_table@,
                        n + free@.len(),
                    ) == n + u;
                assert(spec_raw_index(wy_hash(kb[map@[s] as int], seed), pilots_table@,
                    map@.len() + free@.len() as int) == map@.len() + u);
                assert(false);
            }
        }
        assert(phf_free_minimal(seed, pilots_table@, map@, free@, kb));
    }
    true
}

/// A bucket descriptor that stays inside the entry range and the pilot
/// table.
spec fn bucket_ok(bd: BucketData, n: int, b: int) -> bool {
    &&& bd.start_idx + bd.size <= n
    &&& (bd.idx as int) < b
}

/// The outcome of one construction attempt at a fixed seed.
enum TryOutcome {
    Built(Phf),
    SeedFailed,
    Duplicate(usize, usize),
}

/// Try one pilot value for one bucket: compute each bucket entry's slot in
/// the intermediate table, and accept the pilot only if those slots are
/// unoccupied and pairwise distinct.
#[verifier::loop_isolation(false)]
fn try_pilot(
    hashed: &Vec<HashedEntry>,
    start: usize,
    size: usize,
    pilot: u16,
    map: &Vec<u32>,
    codomain_len: &FastDivisor,
) -> (r: Option<Vec<(usize, usize)>>)
    requires
        start + size <= hashed@.len(),
        forall|t: int|
            #![trigger hashed@[t]]
            0 <= t < hashed@.len() ==> (hashed@[t].idx as int) < 0x4000_0000,
        codomain_len.value() == map@.len(),
        map@.len() >= 1,
    ensures
        match r {
            Some(v) => forall|q: int|
                #![trigger v@[q]]
                0 <= q < v@.len() ==> (v@[q].0 as int) < 0x4000_0000 && (v@[q].1 as int)
                    < map@.len(),
            None => true,
        },
{
    let ph = hash_pilot_value(pilot);
    let m_count = map.len();
    let hn = hashed.len();
    proof {
        assert(start + size <= hn);
    }
    let mut dests: Vec<(usize, usize)> = Vec::new();
    let mut t: usize = 0;
    while t < size
        invariant
            t <= size,
            forall|q: int|
                #![trigger dests@[q]]
                0 <= q < dests@.len() ==> (dests@[q].0 as int) < 0x4000_0000 && (dests@[q].1 as int)
                    < map@.len(),
        decreases size - t,
    {
        let e = hashed[start + t];
        let d64 = get_index(e.hash, ph, codomain_len);
        proof {
            assert(d64 < m_count);
        }
        let d = d64 as usize;
        if map[d] != EMPTY_SLOT {
            return None;
        }
        dests.push((e.idx, d));
        t += 1;
    }
    let mut x: usize = 0;
    while x < dests.len()
        invariant
            x <= dests@.len(),
        decreases dests@.len() - x,
    {
        let mut y: usize = x + 1;
        while y < dests.len()
            invariant
                x < y <= dests@.len() || dests@.len() <= x + 1,
            decreases dests@.len() - y,
        {
            if dests[x].1 == dests[y].1 {
                return None;
            }
            y += 1;
        }
        x += 1;
    }
    Some(dests)
}

/// One construction attempt at a fixed seed: hash and sort the keys, refuse
/// equal keys and colliding hashes, search a pilot for every bucket largest
/// first, compact the placement table, and accept the result only after it
/// re-checks against every key.
///
/// Equal keys are always detected and reported: they share bucket and hash
/// under every seed, so they sit in one run of the sorted order, and every
/// pair within a run is compared before any other verdict. A failed seed
/// therefore proves the keys pairwise distinct; beyond that the outcome
/// does not say whether a hash collision, a pilot search or the final
/// re-check was at fault.
#[verifier::loop_isolation(false)]
#[verifier::rlimit(100)]
fn try_generate_phf<K: PhfKey>(
    entries: &Vec<K>,
    buckets_len: &FastDivisor,
    codomain_len: &FastDivisor,
    b_count: usize,
    m_count: usize,
    seed: u64,
) -> (r: TryOutcome)
    requires
        1 <= entries@.len() < 0x4000_0000,
        buckets_len.value() == b_count,
        b_count >= 1,
        codomain_len.value() == m_count,
        m_count >= entries@.len() + 1,
    ensures
        match r {
            TryOutcome::Built(phf) => phf_wf(phf, keys_bytes(entries@)) && phf_free_minimal(
                phf.seed,
                phf.pilots_table@,
                phf.map@,
                phf.free@,
                keys_bytes(entries@),
            ) && phf.seed == seed && phf.pilots_table@.len() == b_count && phf.map@.len()
                == entries@.len() && phf.free@.len() == m_count - entries@.len() && phf.map@.len()
                + phf.free@.len() <= usize::MAX,
            TryOutcome::SeedFailed => !has_duplicate_keys(entries@),
            TryOutcome::Duplicate(d1, d2) => d1 < d2 && (d2 as int) < entries@.len()
                && entries@[d1 as int].hash_bytes() == entries@[d2 as int].hash_bytes(),
        },
        has_duplicate_keys(entries@) ==> r is Duplicate,
{
    let n = entries.len();

    // Hash every key and assign it to its bucket. The ghost sequence `pos`
    // tracks, for every input position, where its entry currently sits.
    let mut hashed: Vec<HashedEntry> = Vec::new();
    let ghost mut pos: Seq<int> = Seq::empty();
    let mut i: usize = 0;
    while i < n
        invariant
            hashed@.len() == i,
            pos.len() == i,
            i <= n,
            forall|t: int|
                #![trigger hashed@[t]]
                0 <= t < i ==> he_consistent(hashed@[t], entries@, seed, b_count as u64)
                    && hashed@[t].idx == t,
            forall|t: int| #![trigger pos[t]] 0 <= t < i ==> pos[t] == t,
        decreases n - i,
    {
        let h = hash_key(&entries[i], seed);
        let bkt = get_bucket(h, buckets_len);
        hashed.push(HashedEntry { idx: i, hash: h, bucket: bkt });
        proof {
            pos = pos.push(i as int);
        }
        i += 1;
    }

    // Sort by bucket, then hash, so that each bucket's entries form a
    // contiguous run and equal hashes sit in one run. The sort permutes
    // positions, so every input position stays present exactly once.
    let mut si: usize = 1;
    while si < n
        invariant
            hashed@.len() == n,
            pos.len() == n,
            1 <= si <= n,
            forall|t: int|
                #![trigger hashed@[t]]
                0 <= t < n ==> he_consistent(hashed@[t], entries@, seed, b_count as u64),
            forall|t: int|
                #![trigger pos[t]]
                0 <= t < n ==> 0 <= pos[t] < n && hashed@[pos[t]].idx == t,
            forall|p1: int, p2: int|
                0 <= p1 < p2 < n ==> (#[trigger] hashed@[p1]).idx != (#[trigger] hashed@[p2]).idx,
            forall|p1: int, p2: int|
                0 <= p1 < p2 < si ==> he_le(#[trigger] hashed@[p1], #[trigger] hashed@[p2]),
        decreases n - si,
    {
        let mut sj: usize = si;
        while sj > 0
            invariant
                sj <= si,
                hashed@.len() == n,
                pos.len() == n,
                forall|t: int|
                    #![trigger hashed@[t]]
                    0 <= t < n ==> he_consistent(hashed@[t], entries@, seed, b_count as u64),
                forall|t: int|
                    #![trigger pos[t]]
                    0 <= t < n ==> 0 <= pos[t] < n && hashed@[pos[t]].idx == t,
                forall|p1: int, p2: int|
                    0 <= p1 < p2 < n ==> (#[trigger] hashed@[p1]).idx != (
                    #[trigger] hashed@[p2]).idx,
                forall|p1: int, p2: int|
                    0 <= p1 < p2 <= si && p2 != sj ==> he_le(#[trigger] hashed@[p1],
                    #[trigger] hashed@[p2]),
            decreases sj,
        {
            let a = hashed[sj - 1];
            let b = hashed[sj];
            if a.bucket > b.bucket || (a.bucket == b.bucket && a.hash > b.hash) {
                let ghost pre = hashed@;
                let ghost pos0 = pos;
                hashed.set(sj - 1, b);
                hashed.set(sj, a);
                proof {
                    assert(a.idx != b.idx);
                    pos = pos.update(a.idx as int, sj as int).update(b.idx as int, sj - 1);
                    assert forall|t: int| #![trigger pos[t]] 0 <= t < n implies 0 <= pos[t] < n
                        && hashed@[pos[t]].idx == t by {
                        if t == b.idx as int {
                            assert(pos[t] == sj - 1);
                            assert(hashed@[sj - 1] == b);
                        } else if t == a.idx as int {
                            assert(pos[t] == sj as int);
                            assert(hashed@[sj as int] == a);
                        } else {
                            assert(pos[t] == pos0[t]);
                            assert(pre[pos0[t]].idx == t);
                            assert(pre[sj - 1].idx == a.idx);
                            assert(pre[sj as int].idx == b.idx);
                            assert(pos0[t] != sj - 1 && pos0[t] != sj as int);
                            assert(hashed@[pos0[t]] == pre[pos0[t]]);
                        }
                    }
                    assert forall|p1: int, p2: int| 0 <= p1 < p2 < n implies (
                    #[trigger] hashed@[p1]).idx != (#[trigger] hashed@[p2]).idx by {
                        let q1: int = if p1 == sj - 1 {
                            sj as int
                        } else if p1 == sj {
                            sj - 1
                        } else {
                            p1
                        };
                        let q2: int = if p2 == sj - 1 {
                            sj as int
                        } else if p2 == sj {
                            sj - 1
                        } else {
                            p2
                        };
                        assert(hashed@[p1] == pre[q1]);
                        assert(hashed@[p2] == pre[q2]);
                        assert(q1 != q2);
                    }
                }
                sj -= 1;
            } else {
                proof {
                    // The left neighbour is in order, so the prefix up to
                    // and including `si` is fully sorted and the bubbling
                    // can stop.
                    assert forall|p1: int, p2: int| 0 <= p1 < p2 <= si implies he_le(
                        #[trigger] hashed@[p1],
                        #[trigger] hashed@[p2],
                    ) by {
                        if p2 == sj {
                            if p1 < sj - 1 {
                                assert(he_le(hashed@[p1], hashed@[sj - 1]));
                            }
                        }
                    }
                }
                sj = 0;
            }
        }
        si += 1;
    }

    // Scan the runs of equal bucket and hash. Every pair inside a run is
    // compared, so two equal keys, which share bucket and hash under every
    // seed, are always found and reported; a run of distinct keys is a
    // full hash collision, which only fails this seed. The collision
    // verdict is deferred until all runs have been checked for equal keys.
    let ghost hs = hashed@;
    let mut collision = false;
    let mut w: usize = 0;
    while w < n
        invariant
            0 <= w <= n,
            hs == hashed@,
            w < n ==> forall|p: int| 0 <= p < w ==> !same_bh(#[trigger] hs[p], hs[w as int]),
            forall|p1: int, p2: int|
                0 <= p1 < p2 < w ==> entries@[(#[trigger] hs[p1]).idx as int].hash_bytes()
                    != entries@[(#[trigger] hs[p2]).idx as int].hash_bytes(),
        decreases n - w,
    {
        let mut run_end: usize = w + 1;
        while run_end < n && hashed[run_end].bucket == hashed[w].bucket && hashed[run_end].hash
            == hashed[w].hash
            invariant
                w < run_end <= n,
                forall|p: int| w <= p < run_end ==> same_bh(#[trigger] hs[p], hs[w as int]),
            decreases n - run_end,
        {
            run_end += 1;
        }
        proof {
            // Entries at or past the run differ from the whole run.
            if run_end < n {
                assert forall|p: int| 0 <= p < run_end implies !same_bh(
                    #[trigger] hs[p],
                    hs[run_end as int],
                ) by {
                    assert(he_le(hs[p], hs[run_end - 1]));
                    assert(!same_bh(hs[run_end as int], hs[w as int]));
                    if p < w {
                        assert(!same_bh(hs[p], hs[w as int]));
                    }
                }
            }
        }
        let mut x: usize = w;
        while x < run_end
            invariant
                w <= x <= run_end,
                hs == hashed@,
                forall|p1: int, p2: int|
                    w <= p1 < p2 < run_end && p1 < x ==> entries@[(
                    #[trigger] hs[p1]).idx as int].hash_bytes() != entries@[(
                    #[trigger] hs[p2]).idx as int].hash_bytes(),
            decreases run_end - x,
        {
            let mut y: usize = x + 1;
            while y < run_end
                invariant
                    x < y <= run_end,
                    hs == hashed@,
                    forall|p2: int|
                        x < p2 < y ==> entries@[hs[x as int].idx as int].hash_bytes() != entries@[(
                        #[trigger] hs[p2]).idx as int].hash_bytes(),
                decreases run_end - y,
            {
                let ex = hashed[x];
                let ey = hashed[y];
                if key_eq(&entries[ex.idx], &entries[ey.idx]) {
                    let lo = if ex.idx < ey.idx {
                        ex.idx
                    } else {
                        ey.idx
                    };
                    let hi = if ex.idx < ey.idx {
                        ey.idx
                    } else {
                        ex.idx
                    };
                    return TryOutcome::Duplicate(lo, hi);
                }
                y += 1;
            }
            x += 1;
        }
        if run_end - w >= 2 {
            collision = true;
        }
        proof {
            assert forall|p1: int, p2: int| 0 <= p1 < p2 < run_end implies entries@[(
            #[trigger] hs[p1]).idx as int].hash_bytes() != entries@[(
            #[trigger] hs[p2]).idx as int].hash_bytes() by {
                if p1 < w && p2 >= w {
                    // Different runs, hence different bucket and hash; equal
                    // byte strings would force equal hashes and buckets.
                    if entries@[hs[p1].idx as int].hash_bytes()
                        == entries@[hs[p2].idx as int].hash_bytes() {
                        assert(hs[p1].hash == hs[p2].hash);
                        assert(hs[p1].bucket == hs[p2].bucket);
                        assert(same_bh(hs[p2], hs[w as int]));
                        assert(same_bh(hs[p1], hs[w as int]));
                        assert(false);
                    }
                }
            }
        }
        w = run_end;
    }
    proof {
        // Every pair of positions carries distinct byte strings, and every
        // input position appears at some position, so the keys themselves
        // are pairwise distinct.
        assert forall|t1: int, t2: int|
            0 <= t1 < t2 < entries@.len() implies (#[trigger] entries@[t1]).hash_bytes() != (
        #[trigger] entries@[t2]).hash_bytes() by {
            let p1 = pos[t1];
            let p2 = pos[t2];
            assert(hs[p1].idx == t1 && hs[p2].idx == t2);
            assert(p1 != p2);
            if entries@[t1].hash_bytes() == entries@[t2].hash_bytes() {
                if p1 < p2 {
                    assert(entries@[hs[p1].idx as int].hash_bytes() != entries@[hs[
                        p2].idx as int].hash_bytes());
                } else {
                    assert(entries@[hs[p2].idx as int].hash_bytes() != entries@[hs[
                        p1].idx as int].hash_bytes());
                }
                assert(false);
            }
        }
        assert(!has_duplicate_keys(entries@));
    }
    if collision {
        return TryOutcome::SeedFailed;
    }

    // Group the sorted entries into per-bucket runs.
    let mut buckets: Vec<BucketData> = Vec::new();
    let mut start_idx: usize = 0;
    let mut bidx: usize = 0;
    while bidx < b_count
        invariant
            start_idx <= n,
            bidx <= b_count,
            forall|t: int|
                #![trigger buckets@[t]]
                0 <= t < buckets@.len() ==> bucket_ok(buckets@[t], n as int, b_count as int),
        decreases b_count - bidx,
    {
        let mut size: usize = 0;
        while start_idx + size < n && hashed[start_idx + size].bucket == bidx as u64
            invariant
                start_idx + size <= n,
            decreases n - start_idx - size,
        {
            size += 1;
        }
        buckets.push(BucketData { idx: bidx, start_idx, size });
        start_idx += size;
        bidx += 1;
    }

    // Order the buckets by decreasing size: the largest buckets are the
    // hardest to place and get first pick of the free slots.
    let nb = buckets.len();
    let mut qi: usize = 1;
    while qi < nb
        invariant
            buckets@.len() == nb,
            forall|t: int|
                #![trigger buckets@[t]]
                0 <= t < nb ==> bucket_ok(buckets@[t], n as int, b_count as int),
        decreases nb - qi,
    {
        let mut qj: usize = qi;
        while qj > 0
            invariant
                qj <= qi,
                buckets@.len() == nb,
                forall|t: int|
                    #![trigger buckets@[t]]
                    0 <= t < nb ==> bucket_ok(buckets@[t], n as int, b_count as int),
            decreases qj,
        {
            let a = buckets[qj - 1];
            let b = buckets[qj];
            if a.size < b.size {
                buckets.set(qj - 1, b);
                buckets.set(qj, a);
                qj -= 1;
            } else {
                qj = 0;
            }
        }
        qi += 1;
    }

    // Pilot search, greedy over the ordered buckets.
    let mut pilots_table: Vec<u16> = repeat(b_count, 0u16);
    let mut map: Vec<u32> = repeat(m_count, EMPTY_SLOT);
    let mut k: usize = 0;
    while k < nb
        invariant
            k <= nb,
            map@.len() == m_count,
            pilots_table@.len() == b_count,
        decreases nb - k,
    {
        let bucket = buckets[k];
        let mut pilot: u32 = 0;
        let mut placed = false;
        while pilot < 65536
            invariant
                pilot <= 65536,
                map@.len() == m_count,
                pilots_table@.len() == b_count,
            decreases 65536 - pilot,
    {
            match try_pilot(&hashed, bucket.start_idx, bucket.size, pilot as u16, &map,
                codomain_len) {
                Some(dests) => {
                    let mut q: usize = 0;
                    while q < dests.len()
                        invariant
                            q <= dests@.len(),
                            map@.len() == m_count,
                        decreases dests@.len() - q,
                    {
                        let pair = dests[q];
                        map.set(pair.1, pair.0 as u32);
                        q += 1;
                    }
                    pilots_table.set(bucket.idx, pilot as u16);
                    placed = true;
                    pilot = 65536;
                },
                None => {
                    pilot = pilot + 1;
                },
            }
        }
        if !placed {
            return TryOutcome::SeedFailed;
        }
        k += 1;
    }

    // Compact: pull the keys that landed past `n` into the empty front
    // slots, recording each move in the redirection table.
    let extra = m_count - n;
    let mut free: Vec<u32> = repeat(extra, 0u32);
    let mut back_idx: usize = n;
    let mut front_idx: usize = 0;
    while front_idx < n
        invariant
            front_idx <= n,
            n <= back_idx <= m_count,
            map@.len() == m_count,
            free@.len() == extra,
        decreases n - front_idx,
    {
        if map[front_idx] == EMPTY_SLOT {
            while back_idx < m_count && map[back_idx] == EMPTY_SLOT
                invariant
                    n <= back_idx <= m_count,
                decreases m_count - back_idx,
            {
                back_idx += 1;
            }
            if back_idx == m_count {
                // No filled slot remains in the tail: the placement was not
                // total, so this attempt cannot validate.
                return TryOutcome::SeedFailed;
            }
            let moved = map[back_idx];
            map.set(front_idx, moved);
            free.set(back_idx - n, front_idx as u32);
            back_idx += 1;
        }
        front_idx += 1;
    }
    map.truncate(n);

    if validate_phf(entries, seed, &pilots_table, &map, &free, buckets_len, codomain_len) {
        TryOutcome::Built(Phf { seed, pilots_table, map, free })
    } else {
        TryOutcome::SeedFailed
    }
}

/// The bucket count and the codomain length for `n` keys: with
/// `lg = ilog2(n)`, the bucket count is `(1.5 + 0.2 lg) n / lg` rounded up,
/// and the codomain length is `n / (0.99 - 0.001 lg)` rounded up to the
/// next odd integer.
#[verifier::loop_isolation(false)]
fn table_dims(n: u64) -> (r: (u64, u64))
    requires
        1 <= n < 0x4000_0000,
    ensures
        r.0 == spec_bucket_count(n as nat),
        r.1 == spec_codomain_len(n as nat),
        1 <= r.0 <= 2 * n,
        n + 1 <= r.1 <= 2 * n + 1,
{
    let lg = ilog2(n);
    let lg64 = lg as u64;
    let b: u64 = if n > 1 {
        proof {
            reveal_with_fuel(pow2, 3);
            assert(pow2(1) == 2);
            if lg == 0 {
                assert(n < pow2(1));
                assert(false);
            }
            assert((15 + 2 * (lg64 as int)) * (n as int) <= 141 * 0x4000_0000)
                by (nonlinear_arith)
                requires
                    lg64 <= 63,
                    0 <= (n as int) <= 0x4000_0000,
            ;
            assert((15 + 2 * (lg64 as int)) * (n as int) >= 1) by (nonlinear_arith)
                requires
                    lg64 >= 0,
                    n as int >= 1,
            ;
        }
        let num = (15 + 2 * lg64) * n;
        let den = 10 * lg64;
        let bv = div_ceil(num, den);
        proof {
            let li = lg64 as int;
            let ni = n as int;
            let bi = bv as int;
            assert((15 + 2 * li) * ni <= 17 * li * ni) by (nonlinear_arith)
                requires
                    li >= 1,
                    ni >= 0,
            ;
            assert((bi - 1) * (den as int) < num as int);
            assert((bi - 1) * (10 * li) < 17 * li * ni);
            assert(10 * (bi - 1) < 17 * ni) by (nonlinear_arith)
                requires
                    li >= 1,
                    (bi - 1) * (10 * li) < 17 * li * ni,
            ;
        }
        bv
    } else {
        1
    };
    let den2 = 990 - lg64;
    let m0 = div_ceil(1000 * n, den2);
    proof {
        let di = den2 as int;
        let ni = n as int;
        let mi = m0 as int;
        assert(di >= 927);
        if mi <= ni {
            assert(mi * di <= ni * di) by (nonlinear_arith)
                requires
                    mi <= ni,
                    di >= 0,
            ;
            assert(ni * di <= 990 * ni) by (nonlinear_arith)
                requires
                    di <= 990,
                    ni >= 0,
            ;
            assert(false);
        }
        if mi - 1 >= 2 * ni {
            assert((mi - 1) * di >= (2 * ni) * 927) by (nonlinear_arith)
                requires
                    mi - 1 >= 2 * ni,
                    di >= 927,
                    ni >= 0,
            ;
            assert(false);
        }
    }
    let m = m0 + (1 - m0 % 2);
    (b, m)
}

/// Build a perfect hash function for the given keys.
///
/// On success the returned parameters are well-formed for the keys' byte
/// representations: they send every input key to its own slot, the table
/// sizes follow the bucket-count and codomain formulas, and the seed is a
/// trial counter shifted into the upper half. Two equal keys are fatal and
/// always surface the duplicate-keys error with their positions. An input
/// without duplicates fails only when every tried seed runs into a hash
/// collision or an exhausted pilot search; in practice the first seed all
/// but always succeeds.
#[verifier::loop_isolation(false)]
pub fn generate_phf<K: PhfKey>(entries: &Vec<K>) -> (r: Result<Phf, PhfError>)
    requires
        entries@.len() < 0x4000_0000,
    ensures
        match r {
            Ok(phf) => {
                &&& phf_wf(phf, keys_bytes(entries@))
                &&& phf_free_minimal(phf.seed, phf.pilots_table@, phf.map@, phf.free@, keys_bytes(
                    entries@,
                ))
                &&& phf.map@.len() + phf.free@.len() <= usize::MAX
                &&& entries@.len() == 0 ==> phf.seed == 0 && phf.pilots_table@ =~= seq![0u16]
                    && phf.map@ =~= Seq::<u32>::empty() && phf.free@ =~= seq![0u32]
                &&& entries@.len() > 0 ==> {
                    &&& phf.pilots_table@.len() == spec_bucket_count(entries@.len())
                    &&& phf.free@.len() == spec_codomain_len(entries@.len()) - entries@.len()
                    &&& phf.seed % 0x1_0000_0000 == 0
                    &&& phf.seed >= 0x1_0000_0000
                }
            },
            Err(e) => match e {
                PhfError::DuplicateKeys { first, second } => first < second && (second as int)
                    < entries@.len() && entries@[first as int].hash_bytes()
                    == entries@[second as int].hash_bytes(),
                PhfError::SeedSearchExhausted => !has_duplicate_keys(entries@),
            },
        },
        entries@.len() == 0 ==> r is Ok,
        has_duplicate_keys(entries@) ==> match r {
            Ok(_) => false,
            Err(e) => e is DuplicateKeys,
        },
{
    let n = entries.len();
    if n == 0 {
        let phf = Phf {
            seed: 0,
            pilots_table: repeat(1, 0u16),
            map: Vec::new(),
            free: repeat(1, 0u32),
        };
        proof {
            assert(phf_wf(phf, keys_bytes(entries@)));
            assert(phf_free_minimal(phf.seed, phf.pilots_table@, phf.map@, phf.free@, keys_bytes(
                entries@,
            )));
            assert(phf.pilots_table@ =~= seq![0u16]);
            assert(phf.map@ =~= Seq::<u32>::empty());
            assert(phf.free@ =~= seq![0u32]);
        }
        return Ok(phf);
    }
    let dims = table_dims(n as u64);
    let b64 = dims.0;
    let m64 = dims.1;
    let b_count = b64 as usize;
    let m_count = m64 as usize;
    let b_div = FastDivisor::new(b64);
    let m_div = FastDivisor::new(m64);
    let mut attempt: u64 = 1;
    while attempt < 0x1_0000_0000
        invariant
            1 <= attempt,
            attempt > 1 ==> !has_duplicate_keys(entries@),
        decreases 0x1_0000_0000 - attempt,
    {
        let seed = attempt << 32u64;
        proof {
            assert(seed % 0x1_0000_0000 == 0 && seed >= 0x1_0000_0000) by (bit_vector)
                requires
                    seed == attempt << 32u64,
                    1 <= attempt < 0x1_0000_0000,
            ;
        }
        match try_generate_phf(entries, &b_div, &m_div, b_count, m_count, seed) {
            TryOutcome::Built(phf) => {
                return Ok(phf);
            },
            TryOutcome::Duplicate(d1, d2) => {
                return Err(PhfError::DuplicateKeys { first: d1, second: d2 });
            },
            TryOutcome::SeedFailed => {},
        }
        attempt += 1;
    }
    Err(PhfError::SeedSearchExhausted)
}

} // verus!
