//! Persistent data structures with structural sharing.
//!
//! Maps, sets and other collections whose clones are cheap and whose copies share
//! what they have in common. Each is modelled by a mathematical value: a map from
//! the views of keys to values, a set of views, a multiset, a sequence.
//!
//! The base is a compressed hash trie in canonical form (`node`, `trie`). Hash maps
//! and hash sets stand on it, and bags, bijections, multimaps and collections in
//! order of insertion on those. Two fingerprints make most comparisons of maps
//! quick, pools of nodes let equal maps share memory, and a Merkle tree gives a map
//! an address by its contents.
//!
//! The modules whose names end in `laws` state what the operations are for, as
//! relations between calls: what a result says of what was given, and how the
//! results of two calls relate.
pub mod bag;
pub mod bimap;
mod bits;
pub mod canonical;
pub mod champ;
pub mod codes;
pub mod content_hash;
pub mod content_laws;
pub mod diff;
pub mod digest;
pub mod entries;
pub mod entry;
pub mod equal_nodes;
pub mod fingerprint;
pub mod hash_key;
pub mod hash_map;
pub mod hash_map_make;
pub mod hash_map_ops;
pub mod hash_map_query;
pub mod hash_map_sets;
pub mod hash_map_update;
pub mod hash_multimap;
pub mod hash_multimap_iter;
pub mod hash_set;
pub mod hash_set_diff;
pub mod hash_set_ops;
pub mod hash_width;
pub mod identity_hasher;
pub mod insertion_order_map;
pub mod insertion_order_map_ops;
pub mod insertion_order_set;
pub mod intern;
pub mod intern_laws;
pub mod intern_map;
pub mod iter;
pub mod iter_mut;
pub mod laws;
pub mod map_iters;
pub mod map_laws;
pub mod merkle_laws;
pub mod merkle_wrapper;
pub mod node;
pub mod op_laws;
pub mod operators;
pub mod order_laws;
mod ord_tree;
pub mod pair_laws;
pub mod parallel;
pub mod parallel_map;
pub mod parallel_set;
pub mod parallel_values;
pub mod persistent_map;
pub mod plain;
pub mod random_state;
pub mod record;
pub mod seal_laws;
pub mod set_laws;
pub mod shape;
pub mod shared;
mod sparse;
pub mod structure;
pub mod trie;
pub mod walk_laws;

pub use bag::{Bag, GenericBag};
pub use bimap::{BiMap, GenericBiMap};
pub use champ::ChampMap;
pub use hash_map::{GenericHashMap, HashMap};
pub use hash_multimap::{GenericHashMultiMap, HashMultiMap};
pub use hash_set::{GenericHashSet, HashSet};
pub use insertion_order_map::{GenericInsertionOrderMap, InsertionOrderMap};
pub use insertion_order_set::{GenericInsertionOrderSet, InsertionOrderSet};
pub use merkle_wrapper::MerkleWrapper;
pub use persistent_map::PersistentMap;
