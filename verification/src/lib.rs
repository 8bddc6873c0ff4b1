//! Static perfect hash tables built with the PTHash construction.
//!
//! The crate has two halves. The construction half turns a list of distinct
//! keys into the parameters of a perfect hash function — a hash seed, a
//! table of per-bucket pilot values, a permutation of the key indices, and
//! a redirection table for the slots that fall past the end of the key
//! range — and can render the result as source text for a consumer
//! program. The runtime half resolves lookups against those parameters in
//! constant time, with no probing and at most one extra array indirection:
//! [`RawPhfMap`] stores values alone, [`PhfMap`] stores key and value
//! pairs and checks the query against the stored key, and [`PhfSet`]
//! stores keys alone and answers membership.

pub mod codegen;
pub mod const_instantiable;
pub mod keys;
pub mod map;
pub mod phf;
pub mod raw_map;
pub mod set;
pub mod shared;

pub use crate::codegen::build_map;
pub use crate::codegen::build_raw_map;
pub use crate::codegen::build_set;
pub use crate::codegen::CodeWriter;
pub use crate::const_instantiable::ConstInstantiable;
pub use crate::keys::PhfKey;
pub use crate::map::PhfMap;
pub use crate::phf::generate_phf;
pub use crate::phf::ilog2;
pub use crate::phf::Phf;
pub use crate::phf::PhfError;
pub use crate::raw_map::RawPhfMap;
pub use crate::set::PhfSet;
pub use crate::shared::get_bucket;
pub use crate::shared::get_index;
pub use crate::shared::hash_key;
pub use crate::shared::hash_pilot_value;
