//! Non-empty binary tree sets.
use std::borrow::Borrow;
use std::collections::btree_set;
use std::collections::BTreeSet;
use vstd::prelude::*;
use vstd::set_lib::lemma_subset_equality;
use vstd::std_specs::btree::{
    increasing_seq, into_iter_btree_keys, set_contains_borrowed_key, sets_borrowed_key_to_key,
};
use vstd::std_specs::cmp::PartialEqSpecImpl;
use vstd::std_specs::convert::{FromSpecImpl, TryFromSpecImpl};
use vstd::std_specs::iter::IteratorSpec;

use crate::error::Error;
use crate::order::{
    lawful_key_order, lawful_order, lemma_increasing_pick, lemma_sorted_listing_unique,
    lemma_sorted_unref, sorted_listing,
};

verus! {

broadcast use vstd::std_specs::btree::group_btree_axioms;

/// Calls `Vec::from_iter` on a borrowed set, which collects references to its
/// members: each once, in increasing order.
#[verifier::external_body]
fn set_members<T>(s: &BTreeSet<T>) -> (r: Vec<&T>)
    ensures
        lawful_key_order::<T>() ==> r@.len() == s@.len() && r@.unref().to_set() == s@
            && r@.unref().no_duplicates() && increasing_seq(r@.unref()),
{
    Vec::from_iter(s)
}

/// Calls `Vec::from_iter` on the set, which collects the members that the
/// set's owning iterator yields: each once, in increasing order.
#[verifier::external_body]
fn set_into_members<T>(s: BTreeSet<T>) -> (r: Vec<T>)
    ensures
        lawful_key_order::<T>() ==> r@.len() == s@.len() && r@.to_set() == s@
            && r@.no_duplicates() && increasing_seq(r@),
{
    Vec::from_iter(s)
}

/// Calls `BTreeSet::replace`, which puts `v` in the set in place of the member
/// that equals it, if any, and gives that member back. Under a lawful order
/// equal members are identical, so the set ends holding `v` in either case.
#[verifier::external_body]
fn set_replace<T: Ord>(s: &mut BTreeSet<T>, v: T) -> (r: Option<T>)
    ensures
        lawful_order::<T>() ==> {
            &&& final(s)@ == old(s)@.insert(v)
            &&& (r is Some <==> old(s)@.contains(v))
            &&& (r matches Some(o) ==> old(s)@.contains(o) && o == v)
        },
{
    s.replace(v)
}

/// Whether every member of `a` is a member of `b`.
fn all_members_in<T: Ord>(a: &BTreeSet<T>, b: &BTreeSet<T>) -> (r: bool)
    requires
        lawful_order::<T>(),
    ensures
        r == a@.subset_of(b@),
{
    let ghost ms = a.iter().remaining().unref();
    for x in it: a.iter()
        invariant
            lawful_order::<T>(),
            ms == it.seq().unref(),
            ms.to_set() == a@,
            forall|j: int| 0 <= j < it.index() ==> b@.contains(#[trigger] ms[j]),
    {
        proof {
            assert(ms[it.index()] == *x);
        }
        if !b.contains(x) {
            proof {
                assert(ms.to_set().contains(ms[it.index()]));
            }
            return false;
        }
    }
    proof {
        assert forall|x: T| a@.contains(x) implies b@.contains(x) by {
            assert(ms.to_set().contains(x));
            let j = choose|j: int| 0 <= j < ms.len() && ms[j] == x;
        }
    }
    true
}

/// Whether no member of `a` is a member of `b`.
fn no_member_in<T: Ord>(a: &BTreeSet<T>, b: &BTreeSet<T>) -> (r: bool)
    requires
        lawful_order::<T>(),
    ensures
        r == a@.disjoint(b@),
{
    let ghost ms = a.iter().remaining().unref();
    for x in it: a.iter()
        invariant
            lawful_order::<T>(),
            ms == it.seq().unref(),
            ms.to_set() == a@,
            forall|j: int| 0 <= j < it.index() ==> !b@.contains(#[trigger] ms[j]),
    {
        proof {
            assert(ms[it.index()] == *x);
        }
        if b.contains(x) {
            proof {
                assert(ms.to_set().contains(ms[it.index()]));
            }
            return false;
        }
    }
    proof {
        assert forall|x: T| a@.contains(x) implies !b@.contains(x) by {
            assert(ms.to_set().contains(x));
            let j = choose|j: int| 0 <= j < ms.len() && ms[j] == x;
        }
    }
    true
}

/// References to the members of `a` whose membership in `b` is `wanted`, in
/// increasing order.
fn members_by<'a, T: Ord>(a: &'a BTreeSet<T>, b: &BTreeSet<T>, wanted: bool) -> (r: Vec<&'a T>)
    requires
        lawful_order::<T>(),
    ensures
        sorted_listing(r@.unref(), a@.filter(|x: T| b@.contains(x) == wanted)),
{
    let ghost ms = a.iter().remaining().unref();
    let ghost mut idx: Seq<int> = Seq::empty();
    let mut out: Vec<&'a T> = Vec::new();
    proof {
        lemma_sorted_unref(a.iter().remaining(), a@);
    }
    for x in it: a.iter()
        invariant
            lawful_order::<T>(),
            ms == it.seq().unref(),
            sorted_listing(ms, a@),
            out@.len() == idx.len(),
            forall|k: int| 0 <= k < idx.len() ==> 0 <= #[trigger] idx[k] < it.index(),
            forall|k: int| 0 <= k < idx.len() ==> #[trigger] out@.unref()[k] == ms[idx[k]],
            forall|k: int| 0 <= k < idx.len() ==> b@.contains(ms[#[trigger] idx[k]]) == wanted,
            forall|c: int, d: int| 0 <= c < d < idx.len() ==> #[trigger] idx[c] < #[trigger] idx[d],
            forall|j: int|
                0 <= j < it.index() && b@.contains(#[trigger] ms[j]) == wanted ==> exists|k: int|
                    0 <= k < idx.len() && idx[k] == j,
    {
        let ghost at = it.index();
        let ghost old_idx = idx;
        let ghost old_out = out@;
        proof {
            assert(ms[at] == *x);
        }
        if b.contains(x) == wanted {
            out.push(x);
            proof {
                idx = idx.push(at);
                assert(idx[idx.len() - 1] == at);
            }
        }
        proof {
            assert forall|k: int| 0 <= k < idx.len() implies #[trigger] out@.unref()[k] == ms[idx[k]] by {
                assert(out@.unref()[k] == *out@[k]);
                if k < old_idx.len() {
                    assert(out@[k] == old_out[k]);
                    assert(idx[k] == old_idx[k]);
                    assert(old_out.unref()[k] == *old_out[k]);
                    assert(old_out.unref()[k] == ms[old_idx[k]]);
                } else {
                    assert(out@[k] == x);
                    assert(idx[k] == at);
                }
            }
            assert forall|j: int|
                0 <= j < at + 1 && b@.contains(#[trigger] ms[j]) == wanted implies exists|k: int|
                0 <= k < idx.len() && idx[k] == j by {
                if j == at {
                    assert(idx[idx.len() - 1] == at);
                } else {
                    let k = choose|k: int| 0 <= k < old_idx.len() && old_idx[k] == j;
                    assert(idx[k] == j);
                }
            }
        }
    }
    proof {
        let picked = out@.unref();
        let wanted_set = a@.filter(|x: T| b@.contains(x) == wanted);
        lemma_increasing_pick(ms, idx, picked);
        assert(picked.no_duplicates()) by {
            assert forall|c: int, d: int| 0 <= c < picked.len() && 0 <= d < picked.len() && c != d implies picked[c] != picked[d] by {
                assert(picked[c] == ms[idx[c]]);
                assert(picked[d] == ms[idx[d]]);
                if c < d {
                    assert(idx[c] < idx[d]);
                } else {
                    assert(idx[d] < idx[c]);
                }
            }
        }
        assert(picked.to_set() =~= wanted_set) by {
            assert forall|x: T| picked.to_set().contains(x) implies wanted_set.contains(x) by {
                let k = choose|k: int| 0 <= k < picked.len() && picked[k] == x;
                assert(picked[k] == ms[idx[k]]);
                assert(ms.to_set().contains(ms[idx[k]]));
            }
            assert forall|x: T| wanted_set.contains(x) implies picked.to_set().contains(x) by {
                assert(ms.to_set().contains(x));
                let j = choose|j: int| 0 <= j < ms.len() && ms[j] == x;
                let k = choose|k: int| 0 <= k < idx.len() && idx[k] == j;
                assert(picked[k] == x);
            }
        }
        picked.unique_seq_to_set();
    }
    out
}

/// Inserts into `both` a reference to each member of `s`.
fn add_refs<'a, T: Ord>(both: &mut BTreeSet<&'a T>, s: &'a BTreeSet<T>)
    requires
        lawful_order::<T>(),
    ensures
        forall|y: &T| #[trigger] final(both)@.contains(y) <==> old(both)@.contains(y) || s@.contains(*y),
{
    proof {
        assert(lawful_order::<&T>());
    }
    let ghost start = both@;
    let ghost ms = s.iter().remaining();
    for x in it: s.iter()
        invariant
            lawful_order::<T>(),
            lawful_order::<&T>(),
            ms == it.seq(),
            ms.unref().to_set() == s@,
            forall|y: &T|
                #[trigger] both@.contains(y) <==> start.contains(y) || exists|j: int|
                    0 <= j < it.index() && ms[j] == y,
    {
        let ghost at = it.index();
        let ghost before = both@;
        both.insert(x);
        proof {
            assert forall|y: &T|
                #[trigger] both@.contains(y) <==> start.contains(y) || exists|j: int|
                    0 <= j < at + 1 && ms[j] == y by {
                if y == x {
                    assert(ms[at] == y);
                }
                if exists|j: int| 0 <= j < at + 1 && ms[j] == y {
                    let j = choose|j: int| 0 <= j < at + 1 && ms[j] == y;
                    if j < at {
                        assert(before.contains(y));
                    }
                }
            }
        }
    }
    proof {
        assert forall|y: &T| #[trigger] both@.contains(y) <==> start.contains(y) || s@.contains(*y) by {
            if exists|j: int| 0 <= j < ms.len() && ms[j] == y {
                let j = choose|j: int| 0 <= j < ms.len() && ms[j] == y;
                assert(ms.unref()[j] == *y);
                assert(ms.unref().to_set().contains(*y));
            }
            if s@.contains(*y) {
                assert(ms.unref().to_set().contains(*y));
                let j = choose|j: int| 0 <= j < ms.unref().len() && ms.unref()[j] == *y;
                assert(ms[j] == y);
            }
        }
    }
}

/// A non-empty, growable `BTreeSet`.
#[derive(Clone, Debug)]
pub struct NEBTreeSet<T> {
    inner: BTreeSet<T>,
}

impl<T> View for NEBTreeSet<T> {
    type V = Set<T>;

    closed spec fn view(&self) -> Set<T> {
        self.inner@
    }
}

/// Under a lawful order, what a `BTreeSet` holds is finite.
proof fn lemma_btree_set_finite<T>(s: &BTreeSet<T>)
    requires
        lawful_key_order::<T>(),
    ensures
        s@.finite(),
{
    let listed = vstd::std_specs::btree::spec_btree_keys_iter(s).remaining().unref();
    assert(listed.to_set() == s@);
}

proof fn lemma_nonempty_len<T>(s: Set<T>)
    requires
        s.finite(),
        !s.is_empty(),
    ensures
        s.len() > 0,
{
    if s.len() == 0 {
        s.lemma_len0_is_empty();
    }
}

/// A well-formed set is not empty: it has a member.
pub proof fn lemma_well_formed_has_member<T>(s: NEBTreeSet<T>)
    requires
        s.well_formed(),
    ensures
        !s@.is_empty(),
        exists|x: T| s@.contains(x),
{
    assert(s@.contains(s@.choose()));
}

/// For a lookup by the member type itself, `contains` answers whether the
/// value is a member, and a member that `get` gives back is the value itself
/// and a member, so `get` finds something exactly where `contains` says yes.
pub proof fn lemma_lookups_agree<T>(s: Set<T>, x: T, y: T)
    ensures
        set_contains_borrowed_key(s, &x) <==> s.contains(x),
        sets_borrowed_key_to_key(s, &x, &y) <==> (s.contains(x) && x == y),
        sets_borrowed_key_to_key(s, &x, &y) ==> set_contains_borrowed_key(s, &x),
{
}

/// A value just inserted is a member, and inserting it again changes nothing
/// (so the second insert gives `false`).
pub proof fn lemma_insert_twice<T>(s: Set<T>, x: T)
    ensures
        s.insert(x).contains(x),
        s.insert(x).insert(x) == s.insert(x),
{
    assert(s.insert(x).insert(x) =~= s.insert(x));
}

/// Each of two sets is a subset of the other (`a.is_subset(b)` and
/// `a.is_superset(b)`) exactly when they are equal.
pub proof fn lemma_subset_both_ways<T>(a: Set<T>, b: Set<T>)
    ensures
        a.subset_of(a),
        (a.subset_of(b) && b.subset_of(a)) <==> a == b,
{
    if a.subset_of(b) && b.subset_of(a) {
        assert(a =~= b);
    }
}

/// Two sets are disjoint exactly when their intersection is empty, that is,
/// where `a` is finite, when it has no member; and `a` is disjoint from `b`
/// exactly when `b` is disjoint from `a`.
pub proof fn lemma_disjoint_empty_intersection<T>(a: Set<T>, b: Set<T>)
    ensures
        a.disjoint(b) <==> a.intersect(b).is_empty(),
        a.finite() ==> (a.disjoint(b) <==> a.intersect(b).len() == 0),
        a.disjoint(b) <==> b.disjoint(a),
{
    if !a.disjoint(b) {
        let x = choose|x: T| a.contains(x) && b.contains(x);
        assert(a.intersect(b).contains(x));
        if a.finite() {
            vstd::set_lib::lemma_len_subset(a.intersect(b), a);
        }
    } else {
        assert(a.intersect(b) =~= Set::empty());
    }
}

/// The members of `a ∩ b` and of `b ∩ a`, each listed once in increasing
/// order (as `a.intersection(b)` and `b.intersection(a)` list them), are the
/// same sequence.
pub proof fn lemma_intersection_symmetric<T: Ord>(x: Seq<T>, y: Seq<T>, a: Set<T>, b: Set<T>)
    requires
        lawful_order::<T>(),
        sorted_listing(x, a.intersect(b)),
        sorted_listing(y, b.intersect(a)),
    ensures
        x == y,
{
    assert(a.intersect(b) =~= b.intersect(a));
    lemma_sorted_listing_unique(x, y, a.intersect(b));
}

/// The difference and the intersection of `a` with `b` split `a` in two.
pub proof fn lemma_difference_intersection_split<T>(a: Set<T>, b: Set<T>)
    ensures
        a.difference(b).union(a.intersect(b)) == a,
        a.difference(b).disjoint(a.intersect(b)),
{
    assert(a.difference(b).union(a.intersect(b)) =~= a);
}

/// The union holds both sets, so it is non-empty where either is.
pub proof fn lemma_union_holds_both<T>(a: Set<T>, b: Set<T>)
    ensures
        a.subset_of(a.union(b)),
        b.subset_of(a.union(b)),
        !a.is_empty() ==> !a.union(b).is_empty(),
{
    if !a.is_empty() {
        assert(a.union(b).contains(a.choose()));
    }
}

impl<T> NEBTreeSet<T> {
    /// The set holds at least one member: what every constructor gives and
    /// every operation keeps.
    pub open spec fn well_formed(&self) -> bool {
        !self@.is_empty()
    }
}

impl<T: Ord> NEBTreeSet<T> {
    /// Creates a set that holds the one member `value`.
    pub fn new(value: T) -> (s: Self)
        requires
            lawful_key_order::<T>(),
        ensures
            s.well_formed(),
            s@ == set![value],
    {
        let mut inner = BTreeSet::new();
        inner.insert(value);
        assert(inner@ =~= set![value]);
        assert(inner@.contains(value));
        Self { inner }
    }

    /// A regular iterator over the members, in increasing order.
    pub fn iter(&self) -> (r: btree_set::Iter<'_, T>)
        requires
            lawful_key_order::<T>(),
        ensures
            sorted_listing(r.remaining().unref(), self@),
    {
        let r = self.inner.iter();
        proof {
            lemma_sorted_unref(r.remaining(), self@);
        }
        r
    }

    /// A non-empty iterator over the members, in increasing order.
    pub fn nonempty_iter(&self) -> (r: Iter<'_, T>)
        requires
            self.well_formed(),
            lawful_key_order::<T>(),
        ensures
            sorted_listing(r.members(), self@),
            r.members().len() > 0,
    {
        let iter = self.inner.iter();
        proof {
            lemma_sorted_unref(iter.remaining(), self@);
        }
        Iter { iter }
    }

    /// Consumes the set into a non-empty iterator over its members, in
    /// increasing order.
    pub fn into_nonempty_iter(self) -> (r: IntoIter<T>)
        requires
            self.well_formed(),
            lawful_key_order::<T>(),
        ensures
            sorted_listing(r.members(), self@),
            r.members().len() > 0,
    {
        proof {
            lemma_btree_set_finite(&self.inner);
            lemma_nonempty_len(self@);
        }
        let members = set_into_members(self.inner);
        IntoIter { iter: members.into_iter() }
    }

    /// The number of members; always 1 or more.
    pub fn len(&self) -> (n: usize)
        requires
            self.well_formed(),
            lawful_key_order::<T>(),
        ensures
            n == self@.len(),
            n >= 1,
    {
        proof {
            lemma_btree_set_finite(&self.inner);
            lemma_nonempty_len(self@);
        }
        self.inner.len()
    }

    /// A non-empty set is never empty.
    pub fn is_empty(&self) -> (r: bool)
        ensures
            !r,
            self.well_formed() ==> r == self@.is_empty(),
    {
        proof {
            if self.well_formed() {
                assert(self@.contains(self@.choose()));
            }
        }
        false
    }

    /// Attempt a conversion from `BTreeSet`, consuming it; `None` where it is
    /// empty.
    pub fn try_from_set(set: BTreeSet<T>) -> (r: Option<NEBTreeSet<T>>)
        ensures
            r is None <==> set@.is_empty(),
            r matches Some(s) ==> s.well_formed() && s@ == set@,
    {
        if set.is_empty() {
            None
        } else {
            Some(NEBTreeSet { inner: set })
        }
    }

    /// Whether some member of the set equals `value`.
    pub fn contains<Q: Ord + ?Sized>(&self, value: &Q) -> (r: bool)
        where
            T: Borrow<Q>,
        requires
            lawful_order::<T>(),
        ensures
            r == set_contains_borrowed_key(self@, value),
    {
        self.inner.contains(value)
    }

    /// The member that equals `value`, if any.
    pub fn get<Q: Ord>(&self, value: &Q) -> (r: Option<&T>)
        where
            T: Borrow<Q>,
        requires
            lawful_order::<T>(),
        ensures
            match r {
                Some(v) => sets_borrowed_key_to_key(self@, value, v),
                None => !set_contains_borrowed_key(self@, value),
            },
    {
        self.inner.get(value)
    }

    /// Adds a value to the set; `true` where it was not a member before.
    pub fn insert(&mut self, value: T) -> (r: bool)
        requires
            lawful_order::<T>(),
        ensures
            final(self).well_formed(),
            final(self)@ == old(self)@.insert(value),
            r == !old(self)@.contains(value),
    {
        let r = self.inner.insert(value);
        assert(self@.contains(value));
        r
    }

    /// References to the members of `self` that are not members of `other`,
    /// in increasing order.
    pub fn difference<'a>(&'a self, other: &'a NEBTreeSet<T>) -> (r: std::vec::IntoIter<&'a T>)
        requires
            lawful_order::<T>(),
        ensures
            sorted_listing(r.remaining().unref(), self@.difference(other@)),
    {
        let v = members_by(&self.inner, &other.inner, false);
        assert(self@.filter(|x: T| other@.contains(x) == false) =~= self@.difference(other@));
        v.into_iter()
    }

    /// References to the members of `self` that are members of `other` too,
    /// in increasing order.
    pub fn intersection<'a>(&'a self, other: &'a NEBTreeSet<T>) -> (r: std::vec::IntoIter<&'a T>)
        requires
            lawful_order::<T>(),
        ensures
            sorted_listing(r.remaining().unref(), self@.intersect(other@)),
    {
        let v = members_by(&self.inner, &other.inner, true);
        assert(self@.filter(|x: T| other@.contains(x) == true) =~= self@.intersect(other@));
        v.into_iter()
    }

    /// References to the members of `self` or `other`, each once, in
    /// increasing order.
    pub fn union<'a>(&'a self, other: &'a NEBTreeSet<T>) -> (r: Union<'a, T>)
        requires
            lawful_order::<T>(),
            self.well_formed(),
        ensures
            sorted_listing(r.members(), self@.union(other@)),
            r.members().len() > 0,
    {
        let mut both: BTreeSet<&'a T> = BTreeSet::new();
        add_refs(&mut both, &self.inner);
        add_refs(&mut both, &other.inner);
        let v = set_into_members(both);
        proof {
            let all = self@.union(other@);
            assert(lawful_order::<&T>());
            assert(lawful_key_order::<&T>());
            let u = v@.unref();
            assert(u.to_set() =~= all) by {
                assert forall|x: T| u.to_set().contains(x) implies all.contains(x) by {
                    let k = choose|k: int| 0 <= k < u.len() && u[k] == x;
                    assert(v@.to_set().contains(v@[k]));
                }
                assert forall|x: T| all.contains(x) implies u.to_set().contains(x) by {
                    assert(both@.contains(&x));
                    assert(v@.to_set().contains(&x));
                    let k = choose|k: int| 0 <= k < v@.len() && v@[k] == &x;
                    assert(u[k] == x);
                }
            }
            assert(u.no_duplicates()) by {
                assert forall|c: int, d: int| 0 <= c < u.len() && 0 <= d < u.len() && c != d implies u[c] != u[d] by {
                    assert(v@[c] != v@[d]);
                }
            }
            u.unique_seq_to_set();
            lemma_sorted_unref(v@, all);
            assert(self@.contains(self@.choose()));
            assert(all.contains(self@.choose()));
            lemma_btree_set_finite(&self.inner);
            lemma_btree_set_finite(&other.inner);
            lemma_nonempty_len(all);
        }
        Union { inner: v.into_iter() }
    }

    /// Whether `self` and `other` have no member in common.
    pub fn is_disjoint(&self, other: &NEBTreeSet<T>) -> (r: bool)
        requires
            lawful_order::<T>(),
        ensures
            r == self@.disjoint(other@),
    {
        no_member_in(&self.inner, &other.inner)
    }

    /// Whether every member of `self` is a member of `other`.
    pub fn is_subset(&self, other: &NEBTreeSet<T>) -> (r: bool)
        requires
            lawful_order::<T>(),
        ensures
            r == self@.subset_of(other@),
    {
        all_members_in(&self.inner, &other.inner)
    }

    /// Whether every member of `other` is a member of `self`.
    pub fn is_superset(&self, other: &NEBTreeSet<T>) -> (r: bool)
        requires
            lawful_order::<T>(),
        ensures
            r == other@.subset_of(self@),
    {
        all_members_in(&other.inner, &self.inner)
    }

    /// Adds a value to the set in place of the member that equals it, if any,
    /// and gives that member back.
    pub fn replace(&mut self, value: T) -> (r: Option<T>)
        requires
            lawful_order::<T>(),
        ensures
            final(self).well_formed(),
            final(self)@ == old(self)@.insert(value),
            r is Some <==> old(self)@.contains(value),
            r matches Some(o) ==> old(self)@.contains(o) && o == value,
    {
        let r = set_replace(&mut self.inner, value);
        assert(self@.contains(value));
        r
    }
}

impl<T> AsRef<BTreeSet<T>> for NEBTreeSet<T> {
    fn as_ref(&self) -> (r: &BTreeSet<T>)
        ensures
            r@ == self@,
    {
        &self.inner
    }
}

impl<T> AsMut<BTreeSet<T>> for NEBTreeSet<T> {
    /// Access to the underlying set. What is done through it may empty the
    /// set.
    fn as_mut(&mut self) -> (r: &mut BTreeSet<T>)
        ensures
            r@ == old(self)@,
            final(self)@ == final(r)@,
    {
        &mut self.inner
    }
}

impl<T: Ord> PartialEq for NEBTreeSet<T> {
    /// Equal sizes, and every member of `self` is a member of `other`.
    fn eq(&self, other: &Self) -> (r: bool) {
        let n = self.inner.len();
        if n != other.inner.len() {
            return false;
        }
        let members = set_members(&self.inner);
        let ghost ms = members@.unref();
        let mut count: usize = 0;
        let mut i: usize = 0;
        while i < members.len()
            invariant
                0 <= count <= i <= members@.len(),
                ms == members@.unref(),
                lawful_order::<T>() ==> {
                    &&& members@.len() == self@.len()
                    &&& self@.len() == other@.len()
                    &&& n == self@.len()
                    &&& ms.to_set() == self@
                    &&& (count == i <==> forall|j: int|
                        0 <= j < i ==> other@.contains(#[trigger] ms[j]))
                },
            decreases members@.len() - i,
        {
            proof {
                assert(ms[i as int] == *members@[i as int]);
            }
            if other.inner.contains(members[i]) {
                count = count + 1;
            }
            i = i + 1;
        }
        proof {
            if lawful_order::<T>() {
                lemma_btree_set_finite(&self.inner);
                lemma_btree_set_finite(&other.inner);
                if count == n {
                    assert forall|x: T| self@.contains(x) implies other@.contains(x) by {
                        assert(ms.to_set().contains(x));
                        let j = choose|j: int| 0 <= j < ms.len() && ms[j] == x;
                    }
                    lemma_subset_equality(self@, other@);
                } else {
                    let j = choose|j: int| 0 <= j < n && !other@.contains(#[trigger] ms[j]);
                    assert(ms.to_set().contains(ms[j]));
                }
            }
        }
        count == n
    }
}

impl<T: Ord> PartialEqSpecImpl for NEBTreeSet<T> {
    open spec fn obeys_eq_spec() -> bool {
        lawful_order::<T>()
    }

    open spec fn eq_spec(&self, other: &Self) -> bool {
        self@ == other@
    }
}

impl<T: Ord> Eq for NEBTreeSet<T> {

}

impl<T: Ord> From<NEBTreeSet<T>> for BTreeSet<T> {
    fn from(s: NEBTreeSet<T>) -> (r: BTreeSet<T>)
        ensures
            r@ == s@,
    {
        s.inner
    }
}

impl<T: Ord> FromSpecImpl<NEBTreeSet<T>> for BTreeSet<T> {
    open spec fn obeys_from_spec() -> bool {
        true
    }

    closed spec fn from_spec(s: NEBTreeSet<T>) -> BTreeSet<T> {
        s.inner
    }
}

impl<T: Ord> TryFrom<BTreeSet<T>> for NEBTreeSet<T> {
    type Error = Error;

    fn try_from(set: BTreeSet<T>) -> (r: Result<Self, Error>)
        ensures
            r is Err <==> set@.is_empty(),
            r matches Ok(s) ==> s.well_formed() && s@ == set@,
            r matches Err(e) ==> e == Error::Empty,
    {
        if set.is_empty() {
            Err(Error::Empty)
        } else {
            Ok(NEBTreeSet { inner: set })
        }
    }
}

impl<T: Ord> TryFromSpecImpl<BTreeSet<T>> for NEBTreeSet<T> {
    open spec fn obeys_try_from_spec() -> bool {
        true
    }

    closed spec fn try_from_spec(set: BTreeSet<T>) -> Result<Self, Error> {
        if set@.is_empty() {
            Err(Error::Empty)
        } else {
            Ok(NEBTreeSet { inner: set })
        }
    }
}

impl<T> IntoIterator for NEBTreeSet<T> {
    type Item = T;

    type IntoIter = std::vec::IntoIter<T>;

    fn into_iter(self) -> (r: std::vec::IntoIter<T>)
        ensures
            lawful_key_order::<T>() ==> sorted_listing(r.remaining(), self@),
    {
        set_into_members(self.inner).into_iter()
    }
}

impl<'a, T: Ord> IntoIterator for &'a NEBTreeSet<T> {
    type Item = &'a T;

    type IntoIter = btree_set::Iter<'a, T>;

    fn into_iter(self) -> (r: btree_set::Iter<'a, T>)
        ensures
            lawful_key_order::<T>() ==> sorted_listing(r.remaining().unref(), self@),
    {
        let r = self.inner.iter();
        proof {
            if lawful_key_order::<T>() {
                lemma_sorted_unref(r.remaining(), self@);
            }
        }
        r
    }
}

/// A non-empty iterator over the members of an [`NEBTreeSet`].
pub struct Iter<'a, T: 'a> {
    iter: btree_set::Iter<'a, T>,
}

impl<'a, T> Iter<'a, T> {
    /// The members that the iterator holds.
    pub closed spec fn members(&self) -> Seq<T> {
        into_iter_btree_keys(self.iter)
    }
}

impl<'a, T: 'a> IntoIterator for Iter<'a, T> {
    type Item = &'a T;

    type IntoIter = btree_set::Iter<'a, T>;

    fn into_iter(self) -> (r: btree_set::Iter<'a, T>)
        ensures
            into_iter_btree_keys(r) == self.members(),
    {
        self.iter
    }
}

/// A non-empty iterator over the members of the union of two
/// [`NEBTreeSet`]s.
pub struct Union<'a, T: 'a> {
    inner: std::vec::IntoIter<&'a T>,
}

impl<'a, T> Union<'a, T> {
    /// The members that the iterator holds.
    pub closed spec fn members(&self) -> Seq<T> {
        vstd::std_specs::vec::into_iter_elts(self.inner).unref()
    }
}

impl<'a, T: Ord> IntoIterator for Union<'a, T> {
    type Item = &'a T;

    type IntoIter = std::vec::IntoIter<&'a T>;

    fn into_iter(self) -> (r: std::vec::IntoIter<&'a T>)
        ensures
            vstd::std_specs::vec::into_iter_elts(r).unref() == self.members(),
    {
        self.inner
    }
}

/// An owned non-empty iterator over the members of an [`NEBTreeSet`].
pub struct IntoIter<T> {
    iter: std::vec::IntoIter<T>,
}

impl<T> IntoIter<T> {
    /// The members that the iterator holds.
    pub closed spec fn members(&self) -> Seq<T> {
        vstd::std_specs::vec::into_iter_elts(self.iter)
    }
}

impl<T> IntoIterator for IntoIter<T> {
    type Item = T;

    type IntoIter = std::vec::IntoIter<T>;

    fn into_iter(self) -> (r: std::vec::IntoIter<T>)
        ensures
            vstd::std_specs::vec::into_iter_elts(r) == self.members(),
    {
        self.iter
    }
}

} // verus!
