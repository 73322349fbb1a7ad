//! Non-empty `BTreeMap`s.
use std::borrow::Borrow;
use std::collections::btree_map;
use std::collections::BTreeMap;
use vstd::prelude::*;
use vstd::std_specs::btree::{
    contains_borrowed_key, increasing_seq, into_iter_keys, into_iter_values,
    maps_borrowed_key_to_value, sets_borrowed_key_to_key,
};
use vstd::set_lib::lemma_subset_equality;
use vstd::std_specs::cmp::{PartialEqSpec, PartialEqSpecImpl};
use vstd::std_specs::convert::{FromSpecImpl, TryFromSpecImpl};
use vstd::std_specs::iter::IteratorSpec;

use crate::error::Error;
use crate::order::{
    lawful_key_order, lawful_order, lemma_sorted_listing_unique, lemma_sorted_unref, sorted_listing,
};

verus! {

broadcast use vstd::std_specs::btree::group_btree_axioms;

/// Declares std's `btree_map::IterMut`, the iterator of `BTreeMap::iter_mut`,
/// as an opaque type.
#[verifier::external_type_specification]
#[verifier::external_body]
#[verifier::reject_recursive_types(K)]
#[verifier::reject_recursive_types(V)]
pub struct ExMapIterMut<'a, K: 'a, V: 'a>(std::collections::btree_map::IterMut<'a, K, V>);


/// The map that inserting the pairs of `s` one after another into an empty map
/// gives: where a key occurs more than once, the last of its pairs wins.
pub open spec fn map_of_pairs<K, V>(s: Seq<(K, V)>) -> Map<K, V>
    decreases s.len(),
{
    if s.len() == 0 {
        Map::empty()
    } else {
        map_of_pairs(s.drop_last()).insert(s.last().0, s.last().1)
    }
}

/// The stored key among `keys` that equals the borrowed `k`, where there is
/// one.
pub open spec fn stored_key<K, Q: ?Sized>(keys: Set<K>, k: &Q) -> K {
    choose|key: K| keys.contains(key) && sets_borrowed_key_to_key(keys, k, &key)
}

/// `s` lists the entries of `m`, each once, in increasing order of keys.
pub open spec fn sorted_entries_of<K, V>(s: Seq<(K, V)>, m: Map<K, V>) -> bool {
    &&& s.len() == m.len()
    &&& s.no_duplicates()
    &&& s.to_set() == m.kv_pairs()
    &&& increasing_seq(s.map_values(|kv: (K, V)| kv.0))
}

/// Calls `BTreeMap::get_key_value`, which gives back the stored key that
/// equals `k` together with its value, or `None` where no key equals `k`.
/// The contract is claimed under a lawful order only, where equal keys are
/// identical; std's distinction between the stored key and `k` then vanishes.
#[verifier::external_body]
fn map_get_key_value<'a, K: Borrow<Q> + Ord, V, Q: Ord + ?Sized>(
    m: &'a BTreeMap<K, V>,
    k: &Q,
) -> (r: Option<(&'a K, &'a V)>)
    ensures
        lawful_order::<K>() ==> match r {
            Some((key, v)) => sets_borrowed_key_to_key(m@.dom(), k, key) && contains_borrowed_key(
                m@,
                k,
            ) && maps_borrowed_key_to_value(m@, k, *v) && m@.contains_key(*key) && m@[*key] == *v,
            None => !contains_borrowed_key(m@, k),
        },
{
    m.get_key_value(k)
}

/// Calls `BTreeMap::get_mut`, which gives access to the value stored under the
/// key that equals `k`; what is written through it replaces that value. The
/// contract is claimed under a lawful order only, where equal keys are
/// identical.
#[verifier::external_body]
fn map_get_mut<'a, K: Borrow<Q> + Ord, V, Q: Ord + ?Sized>(
    m: &'a mut BTreeMap<K, V>,
    k: &Q,
) -> (r: Option<&'a mut V>)
    ensures
        lawful_order::<K>() ==> match r {
            Some(v) => {
                let key = stored_key(old(m)@.dom(), k);
                &&& maps_borrowed_key_to_value(old(m)@, k, *v)
                &&& old(m)@.contains_key(key)
                &&& sets_borrowed_key_to_key(old(m)@.dom(), k, &key)
                &&& final(m)@ == old(m)@.insert(key, *final(v))
            },
            None => !contains_borrowed_key(old(m)@, k) && final(m)@ == old(m)@,
        },
{
    m.get_mut(k)
}

/// Calls `Vec::from_iter` on a borrowed map, which collects references to
/// its entries: each entry once, sorted by key.
#[verifier::external_body]
fn map_entries<K, V>(m: &BTreeMap<K, V>) -> (r: Vec<(&K, &V)>)
    ensures
        lawful_key_order::<K>() ==> sorted_entries_of(r@.unref(), m@),
{
    Vec::from_iter(m)
}

/// The keys of the items of a mutable iterator over a map.
pub open spec fn item_keys<K, V>(items: Seq<(&K, &mut V)>) -> Seq<K> {
    items.map_values(|kv: (&K, &mut V)| *kv.0)
}

/// The values that the items of a mutable iterator over a map hold now.
pub open spec fn item_values<K, V>(items: Seq<(&K, &mut V)>) -> Seq<V> {
    items.map_values(|kv: (&K, &mut V)| *kv.1)
}

/// A mutable iterator over a map that held `before` lists its keys (`keys`)
/// each once in increasing order, each with the value the map holds for it
/// (`values`); the map ends as `after`, with the same keys, each holding what
/// was finally left behind its item (`left`).
pub open spec fn mutable_listing<K, V>(
    keys: Seq<K>,
    values: Seq<V>,
    left: Seq<V>,
    before: Map<K, V>,
    after: Map<K, V>,
) -> bool {
    &&& sorted_listing(keys, before.dom())
    &&& values.len() == keys.len()
    &&& left.len() == keys.len()
    &&& forall|i: int| 0 <= i < keys.len() ==> #[trigger] values[i] == before[keys[i]]
    &&& after.dom() == before.dom()
    &&& forall|i: int| 0 <= i < keys.len() ==> after[keys[i]] == #[trigger] left[i]
}

/// Calls `BTreeMap::iter_mut`, which gives a mutable iterator over the
/// entries of the map, sorted by key: it ends, and its items give access to
/// the values only. So the keys stay, each item holds the entry's current
/// value, and each value ends as what was written through its item, if
/// anything.
#[verifier::external_body]
fn map_iter_mut<'a, K, V>(m: &'a mut BTreeMap<K, V>) -> (r: btree_map::IterMut<'a, K, V>)
    ensures
        final(m)@.dom() == old(m)@.dom(),
        r.obeys_prophetic_iter_laws(),
        r.will_return_none(),
        lawful_key_order::<K>() ==> mutable_listing(
            item_keys(r.remaining()),
            item_values(r.remaining()),
            r.remaining().map_values(|kv: (&K, &mut V)| *final(kv.1)),
            old(m)@,
            final(m)@,
        ),
{
    m.iter_mut()
}

/// Calls `Vec::from_iter` on the map, which collects the entries that the
/// map's owning iterator yields: each entry once, sorted by key.
#[verifier::external_body]
fn map_into_entries<K, V>(m: BTreeMap<K, V>) -> (r: Vec<(K, V)>)
    ensures
        lawful_key_order::<K>() ==> sorted_entries_of(r@, m@),
{
    Vec::from_iter(m)
}

/// Calls `Vec::from_iter`, which collects, in order, everything the iterator
/// yields until it gives `None`. Where the iterator keeps to vstd's iterator
/// laws and ends, that is the sequence its `remaining()` names; of any other
/// iterator nothing is stated here.
#[verifier::external_body]
fn collect_pairs<K, V, I: Iterator<Item = (K, V)>>(i: I) -> (r: Vec<(K, V)>)
    ensures
        i.obeys_prophetic_iter_laws() && i.will_return_none() ==> r@ == i.remaining(),
{
    Vec::from_iter(i)
}

/// A non-empty, growable `BTreeMap`.
#[derive(Clone, Debug)]
pub struct NEBTreeMap<K, V> {
    inner: BTreeMap<K, V>,
}

impl<K, V> View for NEBTreeMap<K, V> {
    type V = Map<K, V>;

    closed spec fn view(&self) -> Map<K, V> {
        self.inner@
    }
}

proof fn lemma_nonempty_len<K, V>(m: Map<K, V>)
    requires
        m.dom().finite(),
        !m.is_empty(),
    ensures
        m.len() > 0,
{
    if m.dom().len() == 0 {
        m.dom().lemma_len0_is_empty();
        assert(m.is_empty());
    }
}

proof fn lemma_map_of_pairs_nonempty<K, V>(s: Seq<(K, V)>)
    requires
        s.len() > 0,
    ensures
        map_of_pairs(s).contains_key(s.last().0),
        map_of_pairs(s).dom().finite(),
{
    lemma_map_of_pairs_finite(s);
}

proof fn lemma_map_of_pairs_finite<K, V>(s: Seq<(K, V)>)
    ensures
        map_of_pairs(s).dom().finite(),
    decreases s.len(),
{
    if s.len() > 0 {
        lemma_map_of_pairs_finite(s.drop_last());
    }
}

/// A well-formed map is not empty: it has an entry.
pub proof fn lemma_well_formed_has_entry<K, V>(m: NEBTreeMap<K, V>)
    requires
        m.well_formed(),
    ensures
        !m@.is_empty(),
        exists|k: K| m@.contains_key(k),
{
    assert(m@.dom().contains(m@.dom().choose()));
}

/// For a lookup by the key type itself, `contains_key` answers whether the key
/// is present, `get` finds a value exactly there, and the value it finds is
/// the map's value for that key.
pub proof fn lemma_lookups_agree<K, V>(m: Map<K, V>, k: K, v: V)
    ensures
        contains_borrowed_key(m, &k) <==> m.contains_key(k),
        maps_borrowed_key_to_value(m, &k, v) <==> (m.contains_key(k) && m[k] == v),
        maps_borrowed_key_to_value(m, &k, v) ==> contains_borrowed_key(m, &k),
{
}

/// What `insert(k, v)` wrote is what a lookup of `k` reads back; every other
/// key reads back what it did before.
pub proof fn lemma_get_after_insert<K, V>(m: Map<K, V>, k: K, v: V, other: K)
    ensures
        contains_borrowed_key(m.insert(k, v), &k),
        maps_borrowed_key_to_value(m.insert(k, v), &k, v),
        forall|w: V| maps_borrowed_key_to_value(m.insert(k, v), &k, w) ==> w == v,
        other != k ==> contains_borrowed_key(m.insert(k, v), &other) == contains_borrowed_key(
            m,
            &other,
        ),
        other != k ==> forall|w: V|
            maps_borrowed_key_to_value(m.insert(k, v), &other, w) == maps_borrowed_key_to_value(
                m,
                &other,
                w,
            ),
{
}

/// Inserting under a key twice: the second insert gives back the first value,
/// and the map ends as if only the second had been made.
pub proof fn lemma_insert_twice<K, V>(m: Map<K, V>, k: K, v1: V, v2: V)
    ensures
        m.insert(k, v1).contains_key(k),
        m.insert(k, v1)[k] == v1,
        m.insert(k, v1).insert(k, v2) == m.insert(k, v2),
{
    assert(m.insert(k, v1).insert(k, v2) =~= m.insert(k, v2));
}

/// Inserting under two different keys gives the same map in either order.
pub proof fn lemma_insert_commutes<K, V>(m: Map<K, V>, k1: K, v1: V, k2: K, v2: V)
    requires
        k1 != k2,
    ensures
        m.insert(k1, v1).insert(k2, v2) == m.insert(k2, v2).insert(k1, v1),
{
    assert(m.insert(k1, v1).insert(k2, v2) =~= m.insert(k2, v2).insert(k1, v1));
}

/// Where `==` on values is equality, two maps compare equal exactly when they
/// hold the same entries, whatever order they were built in.
pub proof fn lemma_maps_equal_is_equality<K, V: PartialEq>(a: Map<K, V>, b: Map<K, V>)
    requires
        forall|x: V, y: V| #[trigger] x.eq_spec(&y) <==> x == y,
    ensures
        maps_equal(a, b) <==> a == b,
{
    if maps_equal(a, b) {
        assert(a =~= b);
    }
}

/// Where a key occurs more than once among the pairs, the map built from them
/// holds the value of its last pair.
pub proof fn lemma_map_of_pairs_last_wins<K, V>(s: Seq<(K, V)>, i: int)
    requires
        0 <= i < s.len(),
        forall|j: int| i < j < s.len() ==> (#[trigger] s[j]).0 != s[i].0,
    ensures
        map_of_pairs(s).contains_key(s[i].0),
        map_of_pairs(s)[s[i].0] == s[i].1,
    decreases s.len(),
{
    if i < s.len() - 1 {
        lemma_map_of_pairs_last_wins(s.drop_last(), i);
    }
}

/// The keys of a listing of a map's entries, in increasing order, list the
/// map's keys; each entry holds the map's value for its key.
proof fn lemma_entry_keys<K: Ord, V>(a: Seq<(K, V)>, m: Map<K, V>)
    requires
        m.dom().finite(),
        sorted_entries_of(a, m),
    ensures
        sorted_listing(a.map_values(|kv: (K, V)| kv.0), m.dom()),
        forall|i: int| 0 <= i < a.len() ==> #[trigger] a[i] == (a[i].0, m[a[i].0]),
{
    let ks = a.map_values(|kv: (K, V)| kv.0);
    assert forall|i: int| 0 <= i < a.len() implies #[trigger] a[i] == (a[i].0, m[a[i].0])
        && m.contains_key(a[i].0) by {
        assert(a.to_set().contains(a[i]));
        assert(m.kv_pairs().contains(a[i]));
    }
    assert(ks.to_set() =~= m.dom()) by {
        assert forall|k: K| ks.to_set().contains(k) implies m.dom().contains(k) by {
            let i = choose|i: int| 0 <= i < ks.len() && ks[i] == k;
            assert(a[i] == (a[i].0, m[a[i].0]));
        }
        assert forall|k: K| m.dom().contains(k) implies ks.to_set().contains(k) by {
            assert(m.kv_pairs().contains((k, m[k])));
            assert(a.to_set().contains((k, m[k])));
            let i = choose|i: int| 0 <= i < a.len() && a[i] == (k, m[k]);
            assert(ks[i] == k);
        }
    }
    ks.lemma_no_dup_set_cardinality();
}

/// Two listings of a map's entries, each in increasing order of keys with
/// each entry once (as `iter`, `nonempty_iter`, `into_iter` and
/// `into_nonempty_iter` give them), are the same sequence.
pub proof fn lemma_sorted_entries_unique<K: Ord, V>(a: Seq<(K, V)>, b: Seq<(K, V)>, m: Map<K, V>)
    requires
        lawful_order::<K>(),
        m.dom().finite(),
        sorted_entries_of(a, m),
        sorted_entries_of(b, m),
    ensures
        a == b,
{
    lemma_entry_keys(a, m);
    lemma_entry_keys(b, m);
    let ka = a.map_values(|kv: (K, V)| kv.0);
    let kb = b.map_values(|kv: (K, V)| kv.0);
    lemma_sorted_listing_unique(ka, kb, m.dom());
    assert forall|i: int| 0 <= i < a.len() implies a[i] == b[i] by {
        assert(ka[i] == kb[i]);
        assert(a[i] == (a[i].0, m[a[i].0]));
        assert(b[i] == (b[i].0, m[b[i].0]));
    }
    assert(a =~= b);
}

/// The values that `values` lists line up with the keys that `keys` lists:
/// the i-th value is the map's value for the i-th key.
pub proof fn lemma_values_follow_keys<K: Ord, V>(ks: Seq<K>, vs: Seq<V>, m: Map<K, V>)
    requires
        lawful_order::<K>(),
        sorted_listing(ks, m.dom()),
        exists|ks2: Seq<K>|
            #![trigger sorted_listing(ks2, m.dom())]
            sorted_listing(ks2, m.dom()) && vs == ks2.map_values(|k: K| m[k]),
    ensures
        vs == ks.map_values(|k: K| m[k]),
{
    let ks2 = choose|ks2: Seq<K>|
        #![trigger sorted_listing(ks2, m.dom())]
        sorted_listing(ks2, m.dom()) && vs == ks2.map_values(|k: K| m[k]);
    lemma_sorted_listing_unique(ks, ks2, m.dom());
}

/// Handing out a mutable iterator changes no value by itself: each key ends
/// holding what was left behind its item, so a key whose item was not written
/// keeps its value, and where nothing is written the map ends as it began.
pub proof fn lemma_iter_mut_writes_back<K, V>(
    keys: Seq<K>,
    values: Seq<V>,
    left: Seq<V>,
    before: Map<K, V>,
    after: Map<K, V>,
)
    requires
        mutable_listing(keys, values, left, before, after),
    ensures
        forall|i: int|
            0 <= i < keys.len() && left[i] == values[i] ==> after[keys[i]] == before[keys[i]],
        left == values ==> after == before,
        forall|k: K|
            #[trigger] before.contains_key(k) ==> exists|i: int|
                0 <= i < keys.len() && keys[i] == k && after[k] == left[i],
{
    assert forall|k: K| #[trigger] before.contains_key(k) implies exists|i: int|
        0 <= i < keys.len() && keys[i] == k && after[k] == left[i] by {
        assert(keys.to_set().contains(k));
        let i = choose|i: int| 0 <= i < keys.len() && keys[i] == k;
        assert(after[keys[i]] == left[i]);
    }
    if left == values {
        assert forall|k: K| #[trigger] after.contains_key(k) implies after[k] == before[k] by {
            assert(before.contains_key(k));
            let i = choose|i: int| 0 <= i < keys.len() && keys[i] == k && after[k] == left[i];
            assert(values[i] == before[keys[i]]);
        }
        assert(after =~= before);
    }
}

/// A mutable iterator yields the same entries, in the same order, as `iter`
/// lists them: the i-th item holds the i-th key and its current value.
pub proof fn lemma_iter_mut_matches_iter<K: Ord, V>(
    keys: Seq<K>,
    values: Seq<V>,
    left: Seq<V>,
    m: Map<K, V>,
    after: Map<K, V>,
    entries: Seq<(K, V)>,
)
    requires
        lawful_order::<K>(),
        m.dom().finite(),
        mutable_listing(keys, values, left, m, after),
        sorted_entries_of(entries, m),
    ensures
        entries.len() == keys.len(),
        forall|i: int| 0 <= i < keys.len() ==> #[trigger] entries[i] == (keys[i], values[i]),
{
    lemma_entry_keys(entries, m);
    let ek = entries.map_values(|kv: (K, V)| kv.0);
    lemma_sorted_listing_unique(ek, keys, m.dom());
    assert forall|i: int| 0 <= i < keys.len() implies #[trigger] entries[i] == (keys[i], values[i]) by {
        assert(ek[i] == keys[i]);
        assert(entries[i] == (entries[i].0, m[entries[i].0]));
        assert(values[i] == m[keys[i]]);
    }
}

impl<K, V> NEBTreeMap<K, V> {
    /// The map holds finitely many entries, and at least one: what every
    /// constructor gives and every operation keeps.
    pub open spec fn well_formed(&self) -> bool {
        self@.dom().finite() && self@.len() > 0
    }

    /// Attempt a conversion from `BTreeMap`, consuming it; `None` where it is
    /// empty.
    pub fn try_from_map(map: BTreeMap<K, V>) -> (r: Option<Self>)
        ensures
            r is None <==> map@.is_empty(),
            r matches Some(m) ==> m.well_formed() && m@ == map@,
    {
        if map.is_empty() {
            None
        } else {
            proof {
                lemma_nonempty_len(map@);
            }
            Some(NEBTreeMap { inner: map })
        }
    }

    /// A regular iterator over the entries, in increasing order of keys.
    pub fn iter(&self) -> (r: btree_map::Iter<'_, K, V>)
        requires
            lawful_key_order::<K>(),
        ensures
            sorted_entries_of(r.remaining().unref(), self@),
    {
        let r = self.inner.iter();
        proof {
            lemma_sorted_entries(r.remaining(), self@);
        }
        r
    }

    /// A regular iterator over the entries, in increasing order of keys, that
    /// gives access to the values: each item holds its entry's current value,
    /// and each value ends as what was written through its item, if anything.
    pub fn iter_mut(&mut self) -> (r: btree_map::IterMut<'_, K, V>)
        ensures
            final(self)@.dom() == old(self)@.dom(),
            final(self).well_formed() == old(self).well_formed(),
            r.obeys_prophetic_iter_laws(),
            r.will_return_none(),
            lawful_key_order::<K>() ==> mutable_listing(
                item_keys(r.remaining()),
                item_values(r.remaining()),
                r.remaining().map_values(|kv: (&K, &mut V)| *final(kv.1)),
                old(self)@,
                final(self)@,
            ),
    {
        map_iter_mut(&mut self.inner)
    }

    /// A non-empty iterator over the entries, in increasing order of keys.
    pub fn nonempty_iter(&self) -> (r: Iter<'_, K, V>)
        requires
            self.well_formed(),
            lawful_key_order::<K>(),
        ensures
            sorted_entries_of(r.entries(), self@),
            r.entries().len() > 0,
    {
        let iter = self.inner.iter();
        proof {
            lemma_sorted_entries(iter.remaining(), self@);
        }
        Iter { iter }
    }

    /// A non-empty iterator over the entries, in increasing order of keys,
    /// that gives access to the values: each item holds its entry's current
    /// value, and each value ends as what was written through its item, if
    /// anything.
    pub fn nonempty_iter_mut(&mut self) -> (r: IterMut<'_, K, V>)
        ensures
            final(self)@.dom() == old(self)@.dom(),
            final(self).well_formed() == old(self).well_formed(),
            r.wrapped().obeys_prophetic_iter_laws(),
            r.wrapped().will_return_none(),
            lawful_key_order::<K>() ==> mutable_listing(
                item_keys(r.wrapped().remaining()),
                item_values(r.wrapped().remaining()),
                r.wrapped().remaining().map_values(|kv: (&K, &mut V)| *final(kv.1)),
                old(self)@,
                final(self)@,
            ),
    {
        IterMut { iter: map_iter_mut(&mut self.inner) }
    }

    /// The number of entries; always 1 or more.
    pub fn len(&self) -> (n: usize)
        requires
            self.well_formed(),
            lawful_key_order::<K>(),
        ensures
            n == self@.len(),
            n >= 1,
    {
        self.inner.len()
    }

    /// A non-empty iterator over the values, in increasing order of their keys.
    pub fn values(&self) -> (r: Values<'_, K, V>)
        requires
            self.well_formed(),
            lawful_key_order::<K>(),
        ensures
            exists|ks: Seq<K>|
                #![trigger sorted_listing(ks, self@.dom())]
                sorted_listing(ks, self@.dom()) && r.values() == ks.map_values(|k: K| self@[k]),
            r.values().len() > 0,
    {
        let inner = self.inner.values();
        proof {
            let ks = choose|ks: Seq<K>|
                {
                    &&& increasing_seq(ks)
                    &&& ks.to_set() == self@.dom()
                    &&& ks.no_duplicates()
                    &&& IteratorSpec::remaining(&inner) == ks.map(|i: int, k| &self@[k])
                };
            ks.unique_seq_to_set();
            assert(inner.remaining().unref() =~= ks.map_values(|k: K| self@[k]));
            assert(sorted_listing(ks, self@.dom()));
        }
        Values { inner }
    }

    /// Consumes the map into a non-empty iterator over its entries, in
    /// increasing order of keys.
    pub fn into_nonempty_iter(self) -> (r: IntoIter<K, V>)
        requires
            self.well_formed(),
            lawful_key_order::<K>(),
        ensures
            sorted_entries_of(r.entries(), self@),
            r.entries().len() > 0,
    {
        let entries = map_into_entries(self.inner);
        IntoIter { iter: entries.into_iter() }
    }

    /// Creates a non-empty map from the pairs, in their order, or `None` where
    /// there is none. Where a key occurs more than once, its last pair wins.
    pub fn try_from_pairs(pairs: Vec<(K, V)>) -> (r: Option<Self>)
        where
            K: Ord,
        requires
            lawful_order::<K>(),
        ensures
            r is None <==> pairs@.len() == 0,
            r matches Some(m) ==> m.well_formed() && m@ == map_of_pairs(pairs@),
    {
        if pairs.len() == 0 {
            return None;
        }
        let ghost all = pairs@;
        let mut inner: BTreeMap<K, V> = BTreeMap::new();
        for p in it: pairs
            invariant
                lawful_order::<K>(),
                all.len() > 0,
                it.seq() == all,
                inner@ == map_of_pairs(all.take(it.index())),
        {
            proof {
                assert(all.take(it.index() + 1).drop_last() =~= all.take(it.index()));
            }
            inner.insert(p.0, p.1);
        }
        proof {
            assert(all.take(all.len() as int) =~= all);
            lemma_map_of_pairs_nonempty(all);
        }
        Some(NEBTreeMap { inner })
    }

    /// Creates a non-empty map by consuming an iterator, or `None` where it
    /// yields nothing. Where a key occurs more than once, its last pair wins.
    pub fn try_from_iterator<I: Iterator<Item = (K, V)>>(i: I) -> (r: Option<Self>)
        where
            K: Ord,
        requires
            lawful_order::<K>(),
        ensures
            i.obeys_prophetic_iter_laws() && i.will_return_none() ==> {
                &&& (r is None <==> i.remaining().len() == 0)
                &&& (r matches Some(m) ==> m.well_formed() && m@ == map_of_pairs(i.remaining()))
            },
            exists|pairs: Seq<(K, V)>|
                #![trigger map_of_pairs(pairs)]
                {
                    &&& (r is None <==> pairs.len() == 0)
                    &&& (r matches Some(m) ==> m.well_formed() && m@ == map_of_pairs(pairs))
                },
    {
        let pairs = collect_pairs(i);
        let ghost s = pairs@;
        let r = Self::try_from_pairs(pairs);
        proof {
            let built = map_of_pairs(s);
            assert((r is None <==> s.len() == 0) && (r matches Some(m) ==> m.well_formed() && m@
                == built));
        }
        r
    }
}

proof fn lemma_sorted_entries<K, V>(v: Seq<(&K, &V)>, m: Map<K, V>)
    requires
        v.len() == m.dom().len(),
        v.unref().to_set() == m.kv_pairs(),
        v.no_duplicates(),
        increasing_seq(v.map_values(|kv: (&K, &V)| *kv.0)),
    ensures
        sorted_entries_of(v.unref(), m),
{
    assert(v.unref().map_values(|kv: (K, V)| kv.0) =~= v.map_values(|kv: (&K, &V)| *kv.0));
    assert(v.unref().no_duplicates()) by {
        assert forall|i: int, j: int|
            0 <= i < v.unref().len() && 0 <= j < v.unref().len() && i != j implies v.unref()[i]
            != v.unref()[j] by {
            assert(v[i] != v[j]);
        }
    }
}

impl<K: Ord, V> NEBTreeMap<K, V> {
    /// Creates a map that holds the one entry `k` to `v`.
    pub fn new(k: K, v: V) -> (m: NEBTreeMap<K, V>)
        requires
            lawful_key_order::<K>(),
        ensures
            m.well_formed(),
            m@ == Map::<K, V>::empty().insert(k, v),
    {
        let mut inner = BTreeMap::new();
        inner.insert(k, v);
        assert(inner@.dom() =~= set![k]);
        NEBTreeMap { inner }
    }

    /// A non-empty iterator over the keys, in increasing order.
    pub fn keys(&self) -> (r: Keys<'_, K, V>)
        requires
            self.well_formed(),
            lawful_key_order::<K>(),
        ensures
            sorted_listing(r.keys(), self@.dom()),
            r.keys().len() > 0,
    {
        let inner = self.inner.keys();
        proof {
            lemma_sorted_unref(inner.remaining(), self@.dom());
        }
        Keys { inner }
    }

    /// Whether some key of the map equals `k`.
    pub fn contains_key<Q: Ord + ?Sized>(&self, k: &Q) -> (r: bool)
        where
            K: Borrow<Q>,
        requires
            lawful_order::<K>(),
        ensures
            r == contains_borrowed_key(self@, k),
    {
        self.inner.contains_key(k)
    }

    /// The value stored under the key that equals `k`, if any.
    pub fn get<Q: Ord + ?Sized>(&self, k: &Q) -> (r: Option<&V>)
        where
            K: Borrow<Q>,
        requires
            lawful_order::<K>(),
        ensures
            match r {
                Some(v) => maps_borrowed_key_to_value(self@, k, *v),
                None => !contains_borrowed_key(self@, k),
            },
    {
        self.inner.get(k)
    }

    /// The stored key that equals `k`, and its value, if any.
    pub fn get_key_value<Q: Ord + ?Sized>(&self, k: &Q) -> (r: Option<(&K, &V)>)
        where
            K: Borrow<Q>,
        requires
            lawful_order::<K>(),
        ensures
            match r {
                Some((key, v)) => sets_borrowed_key_to_key(self@.dom(), k, key)
                    && contains_borrowed_key(self@, k) && maps_borrowed_key_to_value(self@, k, *v)
                    && self@.contains_key(*key) && self@[*key] == *v,
                None => !contains_borrowed_key(self@, k),
            },
    {
        map_get_key_value(&self.inner, k)
    }

    /// Access to the value stored under the key that equals `k`, if any; what
    /// is written through it replaces that value.
    pub fn get_mut<Q: Ord + ?Sized>(&mut self, k: &Q) -> (r: Option<&mut V>)
        where
            K: Borrow<Q>,
        requires
            lawful_order::<K>(),
        ensures
            final(self).well_formed() == old(self).well_formed(),
            match r {
                Some(v) => {
                    let key = stored_key(old(self)@.dom(), k);
                    &&& maps_borrowed_key_to_value(old(self)@, k, *v)
                    &&& old(self)@.contains_key(key)
                    &&& sets_borrowed_key_to_key(old(self)@.dom(), k, &key)
                    &&& final(self)@ == old(self)@.insert(key, *final(v))
                },
                None => !contains_borrowed_key(old(self)@, k) && final(self)@ == old(self)@,
            },
    {
        map_get_mut(&mut self.inner, k)
    }

    /// Inserts a key-value pair. Gives back the value that `k` had, if any.
    /// std keeps the stored key where one equals `k`; under the lawful order
    /// that this asks for, that stored key is `k` itself.
    pub fn insert(&mut self, k: K, v: V) -> (r: Option<V>)
        requires
            lawful_order::<K>(),
        ensures
            final(self).well_formed(),
            final(self)@ == old(self)@.insert(k, v),
            match r {
                Some(o) => old(self)@.contains_key(k) && o == old(self)@[k],
                None => !old(self)@.contains_key(k),
            },
    {
        self.inner.insert(k, v)
    }
}

/// Two maps are equal when they have the same keys and, under each key,
/// values that `==` holds equal.
pub open spec fn maps_equal<K, V: PartialEq>(a: Map<K, V>, b: Map<K, V>) -> bool {
    &&& a.dom() == b.dom()
    &&& forall|k: K| #[trigger] a.contains_key(k) ==> a[k].eq_spec(&b[k])
}

impl<K: Ord, V: PartialEq> PartialEq for NEBTreeMap<K, V> {
    /// Compares the entries one by one.
    fn eq(&self, other: &Self) -> (r: bool) {
        if self.inner.len() != other.inner.len() {
            return false;
        }
        let entries = map_entries(&self.inner);
        let ghost es = entries@.unref();
        let mut i: usize = 0;
        while i < entries.len()
            invariant
                0 <= i <= entries@.len(),
                es == entries@.unref(),
                (lawful_order::<K>() && V::obeys_eq_spec()) ==> {
                    &&& sorted_entries_of(es, self@)
                    &&& self@.len() == other@.len()
                    &&& forall|j: int|
                        0 <= j < i ==> other@.contains_key((#[trigger] es[j]).0) && es[j].1.eq_spec(
                            &other@[es[j].0],
                        )
                },
            decreases entries@.len() - i,
        {
            let (k, v) = entries[i];
            proof {
                if (lawful_order::<K>() && V::obeys_eq_spec()) {
                    assert(es.to_set().contains(es[i as int]));
                }
            }
            match other.inner.get(k) {
                Some(w) => {
                    if !v.eq(w) {
                        return false;
                    }
                },
                None => {
                    return false;
                },
            }
            i = i + 1;
        }
        proof {
            if (lawful_order::<K>() && V::obeys_eq_spec()) {
                lemma_entries_cover(es, self@, other@);
            }
        }
        true
    }
}

/// Where `es` lists the entries of `a`, `b` has as many keys as `a`, and
/// every key of `es` is a key of `b` with a value equal under `==`, the two
/// maps are equal.
proof fn lemma_entries_cover<K, V: PartialEq>(es: Seq<(K, V)>, a: Map<K, V>, b: Map<K, V>)
    requires
        sorted_entries_of(es, a),
        a.dom().finite(),
        b.dom().finite(),
        a.len() == b.len(),
        forall|j: int|
            0 <= j < es.len() ==> b.contains_key((#[trigger] es[j]).0) && es[j].1.eq_spec(
                &b[es[j].0],
            ),
    ensures
        maps_equal(a, b),
{
    assert forall|k: K| #[trigger] a.contains_key(k) implies b.contains_key(k) && a[k].eq_spec(
        &b[k],
    ) by {
        assert(a.kv_pairs().contains((k, a[k])));
        assert(es.to_set().contains((k, a[k])));
        let j = choose|j: int| 0 <= j < es.len() && es[j] == (k, a[k]);
        assert(es[j].0 == k);
    }
    lemma_subset_equality(a.dom(), b.dom());
}

impl<K: Ord, V: PartialEq> PartialEqSpecImpl for NEBTreeMap<K, V> {
    open spec fn obeys_eq_spec() -> bool {
        lawful_order::<K>() && V::obeys_eq_spec()
    }

    open spec fn eq_spec(&self, other: &Self) -> bool {
        maps_equal(self@, other@)
    }
}

impl<K: Ord, V: Eq> Eq for NEBTreeMap<K, V> {

}

impl<K, V> AsRef<BTreeMap<K, V>> for NEBTreeMap<K, V> {
    fn as_ref(&self) -> (r: &BTreeMap<K, V>)
        ensures
            r@ == self@,
    {
        &self.inner
    }
}

impl<K, V> AsMut<BTreeMap<K, V>> for NEBTreeMap<K, V> {
    /// Access to the underlying map. What is done through it may empty the
    /// map.
    fn as_mut(&mut self) -> (r: &mut BTreeMap<K, V>)
        ensures
            r@ == old(self)@,
            final(self)@ == final(r)@,
    {
        &mut self.inner
    }
}

impl<K: Ord, V> From<NEBTreeMap<K, V>> for BTreeMap<K, V> {
    fn from(m: NEBTreeMap<K, V>) -> (r: BTreeMap<K, V>)
        ensures
            r@ == m@,
    {
        m.inner
    }
}

impl<K: Ord, V> FromSpecImpl<NEBTreeMap<K, V>> for BTreeMap<K, V> {
    open spec fn obeys_from_spec() -> bool {
        true
    }

    closed spec fn from_spec(m: NEBTreeMap<K, V>) -> BTreeMap<K, V> {
        m.inner
    }
}

impl<K: Ord, V> TryFrom<BTreeMap<K, V>> for NEBTreeMap<K, V> {
    type Error = Error;

    fn try_from(map: BTreeMap<K, V>) -> (r: Result<Self, Error>)
        ensures
            r is Err <==> map@.is_empty(),
            r matches Ok(m) ==> m.well_formed() && m@ == map@,
            r matches Err(e) ==> e == Error::Empty,
    {
        if map.is_empty() {
            Err(Error::Empty)
        } else {
            proof {
                lemma_nonempty_len(map@);
            }
            Ok(NEBTreeMap { inner: map })
        }
    }
}

impl<K: Ord, V> TryFromSpecImpl<BTreeMap<K, V>> for NEBTreeMap<K, V> {
    open spec fn obeys_try_from_spec() -> bool {
        true
    }

    closed spec fn try_from_spec(map: BTreeMap<K, V>) -> Result<Self, Error> {
        if map@.is_empty() {
            Err(Error::Empty)
        } else {
            Ok(NEBTreeMap { inner: map })
        }
    }
}

impl<K, V> IntoIterator for NEBTreeMap<K, V> {
    type Item = (K, V);

    type IntoIter = std::vec::IntoIter<(K, V)>;

    fn into_iter(self) -> (r: std::vec::IntoIter<(K, V)>)
        ensures
            lawful_key_order::<K>() ==> sorted_entries_of(r.remaining(), self@),
    {
        map_into_entries(self.inner).into_iter()
    }
}

impl<'a, K, V> IntoIterator for &'a NEBTreeMap<K, V> {
    type Item = (&'a K, &'a V);

    type IntoIter = btree_map::Iter<'a, K, V>;

    fn into_iter(self) -> (r: btree_map::Iter<'a, K, V>)
        ensures
            lawful_key_order::<K>() ==> sorted_entries_of(r.remaining().unref(), self@),
    {
        let r = self.inner.iter();
        proof {
            if lawful_key_order::<K>() {
                lemma_sorted_entries(r.remaining(), self@);
            }
        }
        r
    }
}

impl<'a, K, V> IntoIterator for &'a mut NEBTreeMap<K, V> {
    type Item = (&'a K, &'a mut V);

    type IntoIter = btree_map::IterMut<'a, K, V>;

    fn into_iter(self) -> (r: btree_map::IterMut<'a, K, V>)
        ensures
            final(self)@.dom() == old(self)@.dom(),
            r.obeys_prophetic_iter_laws(),
            r.will_return_none(),
            lawful_key_order::<K>() ==> mutable_listing(
                item_keys(r.remaining()),
                item_values(r.remaining()),
                r.remaining().map_values(|kv: (&K, &mut V)| *final(kv.1)),
                old(self)@,
                final(self)@,
            ),
    {
        self.iter_mut()
    }
}

/// A non-empty iterator over the entries of an [`NEBTreeMap`].
pub struct Iter<'a, K: 'a, V: 'a> {
    iter: btree_map::Iter<'a, K, V>,
}

impl<'a, K, V> Iter<'a, K, V> {
    /// The entries that the iterator holds.
    pub closed spec fn entries(&self) -> Seq<(K, V)> {
        vstd::std_specs::btree::into_iter(self.iter)
    }
}

impl<'a, K, V> IntoIterator for Iter<'a, K, V> {
    type Item = (&'a K, &'a V);

    type IntoIter = btree_map::Iter<'a, K, V>;

    fn into_iter(self) -> (r: btree_map::Iter<'a, K, V>)
        ensures
            vstd::std_specs::btree::into_iter(r) == self.entries(),
    {
        self.iter
    }
}

/// A non-empty iterator over the entries of an [`NEBTreeMap`] that gives
/// access to the values.
#[verifier::reject_recursive_types(K)]
#[verifier::reject_recursive_types(V)]
pub struct IterMut<'a, K: 'a, V: 'a> {
    iter: btree_map::IterMut<'a, K, V>,
}

impl<'a, K, V> IterMut<'a, K, V> {
    /// The std iterator that this iterator wraps and hands out.
    pub closed spec fn wrapped(&self) -> btree_map::IterMut<'a, K, V> {
        self.iter
    }
}

impl<'a, K, V> IntoIterator for IterMut<'a, K, V> {
    type Item = (&'a K, &'a mut V);

    type IntoIter = btree_map::IterMut<'a, K, V>;

    fn into_iter(self) -> (r: btree_map::IterMut<'a, K, V>)
        ensures
            r == self.wrapped(),
    {
        self.iter
    }
}

/// A non-empty owned iterator over the entries of an [`NEBTreeMap`].
pub struct IntoIter<K, V> {
    iter: std::vec::IntoIter<(K, V)>,
}

impl<K, V> IntoIter<K, V> {
    /// The entries that the iterator holds.
    pub closed spec fn entries(&self) -> Seq<(K, V)> {
        vstd::std_specs::vec::into_iter_elts(self.iter)
    }
}

impl<K, V> IntoIterator for IntoIter<K, V> {
    type Item = (K, V);

    type IntoIter = std::vec::IntoIter<(K, V)>;

    fn into_iter(self) -> (r: std::vec::IntoIter<(K, V)>)
        ensures
            vstd::std_specs::vec::into_iter_elts(r) == self.entries(),
    {
        self.iter
    }
}

/// A non-empty iterator over the keys of an [`NEBTreeMap`].
pub struct Keys<'a, K: 'a, V: 'a> {
    inner: btree_map::Keys<'a, K, V>,
}

impl<'a, K, V> Keys<'a, K, V> {
    /// The keys that the iterator holds.
    pub closed spec fn keys(&self) -> Seq<K> {
        into_iter_keys(self.inner)
    }
}

impl<'a, K, V> IntoIterator for Keys<'a, K, V> {
    type Item = &'a K;

    type IntoIter = btree_map::Keys<'a, K, V>;

    fn into_iter(self) -> (r: btree_map::Keys<'a, K, V>)
        ensures
            into_iter_keys(r) == self.keys(),
    {
        self.inner
    }
}

/// A non-empty iterator over the values of an [`NEBTreeMap`].
pub struct Values<'a, K: 'a, V: 'a> {
    inner: btree_map::Values<'a, K, V>,
}

impl<'a, K, V> Values<'a, K, V> {
    /// The values that the iterator holds.
    pub closed spec fn values(&self) -> Seq<V> {
        into_iter_values(self.inner)
    }
}

impl<'a, K, V> IntoIterator for Values<'a, K, V> {
    type Item = &'a V;

    type IntoIter = btree_map::Values<'a, K, V>;

    fn into_iter(self) -> (r: btree_map::Values<'a, K, V>)
        ensures
            into_iter_values(r) == self.values(),
    {
        self.inner
    }
}

} // verus!
