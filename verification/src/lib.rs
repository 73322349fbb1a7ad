//! Non-empty ordered collections: a map and a set that hold at least one
//! entry from the moment they are made, built on std's `BTreeMap` and
//! `BTreeSet`.
use vstd::prelude::*;

pub mod btree_map;
pub mod btree_set;
pub mod error;
pub mod order;

pub use btree_map::NEBTreeMap;
pub use btree_set::NEBTreeSet;
pub use error::Error;

verus! {

} // verus!
