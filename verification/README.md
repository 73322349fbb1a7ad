# nonempty_collections

Non-empty ordered collections for Rust, verified with Verus.

`NEBTreeMap<K, V>` and `NEBTreeSet<T>` wrap std's `BTreeMap` and `BTreeSet`
and hold at least one entry from the moment they are made.

- `src/btree_map.rs`: the map, its iterators, and the laws of insertion and
  lookup.
- `src/btree_set.rs`: the set, its iterators, the set operations (difference,
  intersection, union, subset, disjointness) and their laws.
- `src/order.rs`: what the collections ask of the key type's `Ord`, and
  lemmas on sorted listings.
- `src/error.rs`: the error of a conversion from an empty collection.
- `app/`: serde support, through copies of the two types that carry the
  derives and convert to and from the library's types.
