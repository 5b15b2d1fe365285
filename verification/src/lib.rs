//! An ordered-aware hash map: a hash table whose buckets are AVL trees.
//!
//! Keys are dispatched to buckets by hash; within a bucket, entries are
//! kept in a balanced search tree ordered by `(hash, key)`, so the worst
//! case of any single bucket is logarithmic in its population.

pub mod key;
pub mod avl_node;
pub mod hash_table;
pub mod hash_map;
