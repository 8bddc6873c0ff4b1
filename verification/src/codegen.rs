//! Emission of a constructed table as source text.
//!
//! A [`CodeWriter`] holds a constructed perfect hash function together with
//! the keys and values it was built from, and renders the whole table as a
//! single constructor expression: the seed, the pilot values, the storage
//! entries permuted into slot order, and the redirection table.

use vstd::prelude::*;
use crate::const_instantiable::{spec_dec_digits, u64_to_decimal, ConstInstantiable};
use crate::keys::{keys_bytes, PhfKey};
use crate::phf::{generate_phf, has_duplicate_keys, phf_free_minimal, phf_wf,
    spec_bucket_count, spec_codomain_len, Phf, PhfError};

verus! {

/// The shape of the emitted table.
#[derive(Clone, Copy, PartialEq, Eq, Structural)]
pub enum Kind {
    /// A table of values alone, resolved without a key check.
    RawMap,
    /// A table of key and value pairs, checked against the query.
    KeyedMap,
    /// A set of keys.
    KeySet,
}

/// The items of a slice expression, separated by commas.
pub open spec fn spec_sep_items<T: ConstInstantiable>(s: Seq<T>) -> Seq<char>
    decreases s.len(),
{
    if s.len() == 0 {
        Seq::empty()
    } else if s.len() == 1 {
        s[0].const_expr()
    } else {
        spec_sep_items(s.drop_last()) + ", "@ + s.last().const_expr()
    }
}

/// A whole slice expression.
pub open spec fn spec_slice_expr<T: ConstInstantiable>(s: Seq<T>) -> Seq<char> {
    "["@ + spec_sep_items(s) + "]"@
}

/// Print a slice of constant expressions between square brackets.
pub fn write_slice<T: ConstInstantiable>(entries: &Vec<T>) -> (r: String)
    ensures
        r@ == spec_slice_expr(entries@),
{
    let mut s = String::from_str("[");
    let n = entries.len();
    let mut i: usize = 0;
    while i < n
        invariant
            i <= n,
            n == entries@.len(),
            s@ == "["@ + spec_sep_items(entries@.take(i as int)),
        decreases n - i,
    {
        let ghost prefix = entries@.take(i as int);
        if i > 0 {
            s.append(", ");
        }
        s.append(entries[i].fmt_const_new().as_str());
        proof {
            let next = entries@.take(i + 1);
            assert(next.drop_last() =~= prefix);
            assert(next.last() == entries@[i as int]);
            if i == 0 {
                assert(spec_sep_items(next) == entries@[i as int].const_expr());
                assert(s@ =~= "["@ + spec_sep_items(next));
            } else {
                assert(spec_sep_items(next) == spec_sep_items(prefix) + ", "@
                    + entries@[i as int].const_expr());
                assert(s@ =~= "["@ + spec_sep_items(next));
            }
        }
        i += 1;
    }
    proof {
        assert(entries@.take(n as int) =~= entries@);
    }
    s.append("]");
    s
}

/// The text of one storage entry: the pair, the value alone, or the key
/// alone, depending on the table shape.
pub open spec fn spec_storage_item<K: ConstInstantiable, V: ConstInstantiable>(
    kind: Kind,
    keys: Seq<K>,
    values: Seq<V>,
    idx: int,
) -> Seq<char> {
    match kind {
        Kind::KeyedMap => "("@ + keys[idx].const_expr() + ", "@ + values[idx].const_expr() + ")"@,
        Kind::RawMap => values[idx].const_expr(),
        Kind::KeySet => keys[idx].const_expr(),
    }
}

/// The storage entries in slot order, separated by commas.
pub open spec fn spec_storage_items<K: ConstInstantiable, V: ConstInstantiable>(
    kind: Kind,
    keys: Seq<K>,
    values: Seq<V>,
    map: Seq<u32>,
) -> Seq<char>
    decreases map.len(),
{
    if map.len() == 0 {
        Seq::empty()
    } else if map.len() == 1 {
        spec_storage_item(kind, keys, values, map[0] as int)
    } else {
        spec_storage_items(kind, keys, values, map.drop_last()) + ", "@ + spec_storage_item(
            kind,
            keys,
            values,
            map.last() as int,
        )
    }
}

/// Code generator for one perfect-hash table.
pub struct CodeWriter<K, V> {
    kind: Kind,
    phf: Phf,
    keys: Vec<K>,
    values: Vec<V>,
}

impl<K, V> CodeWriter<K, V> {
    /// The shape of the emitted table.
    pub closed spec fn spec_kind(self) -> Kind {
        self.kind
    }

    /// The constructed perfect hash function.
    pub closed spec fn spec_phf(self) -> Phf {
        self.phf
    }

    /// The keys the table was built from, in input order.
    pub closed spec fn spec_keys(self) -> Seq<K> {
        self.keys@
    }

    /// The values the table was built from, in input order.
    pub closed spec fn spec_values(self) -> Seq<V> {
        self.values@
    }

    #[verifier::type_invariant]
    spec fn cw_wf(self) -> bool {
        forall|i: int|
            #![trigger self.phf.map@[i]]
            0 <= i < self.phf.map@.len() ==> match self.kind {
                Kind::KeyedMap => (self.phf.map@[i] as int) < self.keys@.len() && (self.phf.map@[i]
                    as int) < self.values@.len(),
                Kind::RawMap => (self.phf.map@[i] as int) < self.values@.len(),
                Kind::KeySet => (self.phf.map@[i] as int) < self.keys@.len(),
            }
    }
}

/// The name of the runtime constructor for each table shape.
pub open spec fn spec_type_name(kind: Kind) -> Seq<char> {
    match kind {
        Kind::RawMap => "RawPhfMap"@,
        Kind::KeyedMap => "PhfMap"@,
        Kind::KeySet => "PhfSet"@,
    }
}

impl<K: ConstInstantiable, V: ConstInstantiable> CodeWriter<K, V> {
    /// The full text of the emitted constructor expression.
    pub open spec fn spec_rendered(self) -> Seq<char> {
        "::quickphf::"@ + spec_type_name(self.spec_kind()) + "::new(\n"@ + "    "@
            + spec_dec_digits(self.spec_phf().seed as nat) + ",\n"@ + "    &"@ + spec_slice_expr(
            self.spec_phf().pilots_table@,
        ) + ",\n"@ + "    &["@ + spec_storage_items(
            self.spec_kind(),
            self.spec_keys(),
            self.spec_values(),
            self.spec_phf().map@,
        ) + "],\n"@ + "    &"@ + spec_slice_expr(self.spec_phf().free@) + "\n"@ + ")"@
    }

    /// Print the table as a single constructor expression.
    pub fn write(&self) -> (r: String)
        ensures
            r@ == self.spec_rendered(),
    {
        proof {
            use_type_invariant(&*self);
        }
        let mut s = String::from_str("::quickphf::");
        match self.kind {
            Kind::RawMap => s.append("RawPhfMap"),
            Kind::KeyedMap => s.append("PhfMap"),
            Kind::KeySet => s.append("PhfSet"),
        }
        s.append("::new(\n");
        s.append("    ");
        s.append(u64_to_decimal(self.phf.seed).as_str());
        s.append(",\n");
        s.append("    &");
        s.append(write_slice(&self.phf.pilots_table).as_str());
        s.append(",\n");
        s.append("    &[");

        let ghost keys0 = self.keys@;
        let ghost values0 = self.values@;
        let ghost map0 = self.phf.map@;
        let ghost header = s@;
        let n = self.phf.map.len();
        let mut i: usize = 0;
        while i < n
            invariant
                i <= n,
                n == map0.len(),
                self.phf.map@ == map0,
                self.keys@ == keys0,
                self.values@ == values0,
                forall|t: int|
                    #![trigger map0[t]]
                    0 <= t < n ==> match self.kind {
                        Kind::KeyedMap => (map0[t] as int) < keys0.len() && (map0[t] as int)
                            < values0.len(),
                        Kind::RawMap => (map0[t] as int) < values0.len(),
                        Kind::KeySet => (map0[t] as int) < keys0.len(),
                    },
                s@ == header + spec_storage_items(self.kind, keys0, values0, map0.take(i as int)),
            decreases n - i,
        {
            let ghost prefix = map0.take(i as int);
            if i > 0 {
                s.append(", ");
            }
            let idx = self.phf.map[i] as usize;
            match self.kind {
                Kind::KeyedMap => {
                    s.append("(");
                    s.append(self.keys[idx].fmt_const_new().as_str());
                    s.append(", ");
                    s.append(self.values[idx].fmt_const_new().as_str());
                    s.append(")");
                },
                Kind::RawMap => {
                    s.append(self.values[idx].fmt_const_new().as_str());
                },
                Kind::KeySet => {
                    s.append(self.keys[idx].fmt_const_new().as_str());
                },
            }
            proof {
                let next = map0.take(i + 1);
                assert(next.drop_last() =~= prefix);
                assert(next.last() == map0[i as int]);
                if i == 0 {
                    assert(spec_storage_items(self.kind, keys0, values0, next)
                        == spec_storage_item(self.kind, keys0, values0, map0[i as int] as int));
                } else {
                    assert(spec_storage_items(self.kind, keys0, values0, next)
                        == spec_storage_items(self.kind, keys0, values0, prefix) + ", "@
                        + spec_storage_item(self.kind, keys0, values0, map0[i as int] as int));
                }
                assert(s@ =~= header + spec_storage_items(self.kind, keys0, values0, next));
            }
            i += 1;
        }
        proof {
            assert(map0.take(n as int) =~= map0);
        }

        s.append("],\n");
        s.append("    &");
        s.append(write_slice(&self.phf.free).as_str());
        s.append("\n");
        s.append(")");
        proof {
            assert(s@ =~= self.spec_rendered());
        }
        s
    }
}

/// Generate code for a static raw map from keys and values of equal
/// length: only the values are stored.
pub fn build_raw_map<K: PhfKey, V: ConstInstantiable>(keys: Vec<K>, values: Vec<V>) -> (r:
    Result<CodeWriter<K, V>, PhfError>)
    requires
        keys@.len() == values@.len(),
        keys@.len() < 0x4000_0000,
    ensures
        match r {
            Ok(cw) => {
                &&& cw.spec_kind() == Kind::RawMap
                &&& phf_wf(cw.spec_phf(), keys_bytes(keys@))
                &&& cw.spec_values() == values@
                &&& phf_free_minimal(cw.spec_phf().seed, cw.spec_phf().pilots_table@,
                    cw.spec_phf().map@, cw.spec_phf().free@, keys_bytes(keys@))
                &&& keys@.len() == 0 ==> cw.spec_phf().seed == 0 && cw.spec_phf().pilots_table@
                    =~= seq![0u16] && cw.spec_phf().map@ =~= Seq::<u32>::empty()
                    && cw.spec_phf().free@ =~= seq![0u32]
                &&& keys@.len() > 0 ==> {
                    &&& cw.spec_phf().pilots_table@.len() == spec_bucket_count(keys@.len())
                    &&& cw.spec_phf().free@.len() == spec_codomain_len(keys@.len()) - keys@.len()
                    &&& cw.spec_phf().seed % 0x1_0000_0000 == 0
                    &&& cw.spec_phf().seed >= 0x1_0000_0000
                }
            },
            Err(e) => match e {
                PhfError::DuplicateKeys { first, second } => {
                    &&& first < second
                    &&& (second as int) < keys@.len()
                    &&& keys@[first as int].hash_bytes() == keys@[second as int].hash_bytes()
                },
                PhfError::SeedSearchExhausted => !has_duplicate_keys(keys@),
            },
        },
        keys@.len() == 0 ==> r is Ok,
        has_duplicate_keys(keys@) ==> match r {
            Ok(_) => false,
            Err(e) => e is DuplicateKeys,
        },
{
    match generate_phf(&keys) {
        Err(e) => Err(e),
        Ok(phf) => Ok(CodeWriter { kind: Kind::RawMap, phf, keys: Vec::new(), values }),
    }
}

/// Generate code for a static map from keys and values of equal length:
/// each entry stores the key next to its value.
pub fn build_map<K: PhfKey + ConstInstantiable, V: ConstInstantiable>(keys: Vec<K>, values: Vec<
    V,
>) -> (r: Result<CodeWriter<K, V>, PhfError>)
    requires
        keys@.len() == values@.len(),
        keys@.len() < 0x4000_0000,
    ensures
        match r {
            Ok(cw) => {
                &&& cw.spec_kind() == Kind::KeyedMap
                &&& phf_wf(cw.spec_phf(), keys_bytes(keys@))
                &&& cw.spec_keys() == keys@
                &&& cw.spec_values() == values@
                &&& phf_free_minimal(cw.spec_phf().seed, cw.spec_phf().pilots_table@,
                    cw.spec_phf().map@, cw.spec_phf().free@, keys_bytes(keys@))
                &&& keys@.len() == 0 ==> cw.spec_phf().seed == 0 && cw.spec_phf().pilots_table@
                    =~= seq![0u16] && cw.spec_phf().map@ =~= Seq::<u32>::empty()
                    && cw.spec_phf().free@ =~= seq![0u32]
                &&& keys@.len() > 0 ==> {
                    &&& cw.spec_phf().pilots_table@.len() == spec_bucket_count(keys@.len())
                    &&& cw.spec_phf().free@.len() == spec_codomain_len(keys@.len()) - keys@.len()
                    &&& cw.spec_phf().seed % 0x1_0000_0000 == 0
                    &&& cw.spec_phf().seed >= 0x1_0000_0000
                }
            },
            Err(e) => match e {
                PhfError::DuplicateKeys { first, second } => {
                    &&& first < second
                    &&& (second as int) < keys@.len()
                    &&& keys@[first as int].hash_bytes() == keys@[second as int].hash_bytes()
                },
                PhfError::SeedSearchExhausted => !has_duplicate_keys(keys@),
            },
        },
        keys@.len() == 0 ==> r is Ok,
        has_duplicate_keys(keys@) ==> match r {
            Ok(_) => false,
            Err(e) => e is DuplicateKeys,
        },
{
    match generate_phf(&keys) {
        Err(e) => Err(e),
        Ok(phf) => Ok(CodeWriter { kind: Kind::KeyedMap, phf, keys, values }),
    }
}

/// Generate code for a static set of keys.
pub fn build_set<K: PhfKey + ConstInstantiable>(keys: Vec<K>) -> (r: Result<
    CodeWriter<K, ()>,
    PhfError,
>)
    requires
        keys@.len() < 0x4000_0000,
    ensures
        match r {
            Ok(cw) => {
                &&& cw.spec_kind() == Kind::KeySet
                &&& phf_wf(cw.spec_phf(), keys_bytes(keys@))
                &&& cw.spec_keys() == keys@
                &&& phf_free_minimal(cw.spec_phf().seed, cw.spec_phf().pilots_table@,
                    cw.spec_phf().map@, cw.spec_phf().free@, keys_bytes(keys@))
                &&& keys@.len() == 0 ==> cw.spec_phf().seed == 0 && cw.spec_phf().pilots_table@
                    =~= seq![0u16] && cw.spec_phf().map@ =~= Seq::<u32>::empty()
                    && cw.spec_phf().free@ =~= seq![0u32]
                &&& keys@.len() > 0 ==> {
                    &&& cw.spec_phf().pilots_table@.len() == spec_bucket_count(keys@.len())
                    &&& cw.spec_phf().free@.len() == spec_codomain_len(keys@.len()) - keys@.len()
                    &&& cw.spec_phf().seed % 0x1_0000_0000 == 0
                    &&& cw.spec_phf().seed >= 0x1_0000_0000
                }
            },
            Err(e) => match e {
                PhfError::DuplicateKeys { first, second } => {
                    &&& first < second
                    &&& (second as int) < keys@.len()
                    &&& keys@[first as int].hash_bytes() == keys@[second as int].hash_bytes()
                },
                PhfError::SeedSearchExhausted => !has_duplicate_keys(keys@),
            },
        },
        keys@.len() == 0 ==> r is Ok,
        has_duplicate_keys(keys@) ==> match r {
            Ok(_) => false,
            Err(e) => e is DuplicateKeys,
        },
{
    match generate_phf(&keys) {
        Err(e) => Err(e),
        Ok(phf) => Ok(CodeWriter { kind: Kind::KeySet, phf, keys, values: Vec::new() }),
    }
}

} // verus!
