//! An open-addressing hash table with Robin Hood linear probing, backward-shift
//! deletion and keyed hashing, verified with Verus.
pub mod entry;
pub mod hash;
pub mod laws;
pub mod map;
pub mod policy;
pub mod probe;
pub mod raw;
