use vstd::laws_cmp::{obeys_cmp, obeys_cmp_ord, obeys_partial_cmp_spec_properties};
use vstd::laws_eq::obeys_concrete_eq;
use vstd::prelude::*;
use vstd::std_specs::btree::{increasing_seq, key_obeys_cmp_spec};
use vstd::std_specs::cmp::{OrdSpec, PartialOrdSpec};

verus! {

broadcast use vstd::std_specs::btree::group_btree_axioms;

/// `K`'s `Ord` is a total order that agrees with its `==`, as std asks of
/// every `Ord` impl, and `==` on `K` is identity: two keys that compare
/// equal are the same value. The collections' contracts speak of keys as
/// values, so they ask for both. Keys that are `==` without being identical
/// (a case-insensitive string, say) are left out: there std keeps the key
/// already stored, which these contracts do not describe.
pub open spec fn lawful_order<K: Ord>() -> bool {
    obeys_cmp::<K>() && obeys_concrete_eq::<K>()
}

/// The same condition, for code that does not name `K: Ord`: the keys of a
/// `BTreeMap` or `BTreeSet` are ordered lawfully.
pub open spec fn lawful_key_order<K>() -> bool {
    key_obeys_cmp_spec::<K>()
}

/// `a` comes strictly before `b` in `K`'s order.
pub open spec fn precedes<K: Ord>(a: K, b: K) -> bool {
    a.cmp_spec(&b) is Less
}

/// `s` lists the members of `set`, each once, in increasing order.
pub open spec fn sorted_listing<T>(s: Seq<T>, set: Set<T>) -> bool {
    &&& s.len() == set.len()
    &&& s.no_duplicates()
    &&& s.to_set() == set
    &&& increasing_seq(s)
}

/// Under a lawful order, keys that compare equal are identical, and of two
/// different keys exactly one comes before the other.
pub proof fn lemma_lawful_order_trichotomy<K: Ord>(a: K, b: K)
    requires
        lawful_order::<K>(),
    ensures
        a.cmp_spec(&b) is Equal <==> a == b,
        precedes(a, b) <==> b.cmp_spec(&a) is Greater,
        !(precedes(a, b) && precedes(b, a)),
        a != b ==> precedes(a, b) || precedes(b, a),
{
    reveal(obeys_cmp_ord);
    reveal(obeys_partial_cmp_spec_properties);
    reveal(obeys_concrete_eq);
    assert(a.partial_cmp_spec(&b) == Some(a.cmp_spec(&b)));
    assert(b.partial_cmp_spec(&a) == Some(b.cmp_spec(&a)));
}

/// Two listings of one set, each in increasing order and each member once,
/// are the same sequence.
pub proof fn lemma_sorted_listing_unique<T: Ord>(a: Seq<T>, b: Seq<T>, set: Set<T>)
    requires
        lawful_order::<T>(),
        sorted_listing(a, set),
        sorted_listing(b, set),
    ensures
        a == b,
    decreases a.len(),
{
    if a.len() == 0 {
        assert(b.len() == 0);
        assert(a =~= b);
    } else {
        assert(b.len() > 0);
        assert(set.contains(a[0])) by {
            assert(a.to_set().contains(a[0]));
        }
        assert(b.to_set().contains(a[0]));
        let j = choose|j: int| 0 <= j < b.len() && b[j] == a[0];
        assert(a.to_set().contains(b[0]));
        let k = choose|k: int| 0 <= k < a.len() && a[k] == b[0];
        lemma_lawful_order_trichotomy(a[0], b[0]);
        if j > 0 {
            assert(precedes(b[0], b[j]));
            if k > 0 {
                assert(precedes(a[0], a[k]));
            }
        }
        assert(a[0] == b[0]);
        let rest = set.remove(a[0]);
        lemma_sorted_listing_drop_first(a, set);
        lemma_sorted_listing_drop_first(b, set);
        lemma_sorted_listing_unique(a.drop_first(), b.drop_first(), rest);
        assert(a =~= b) by {
            assert forall|i: int| 0 <= i < a.len() implies a[i] == b[i] by {
                if i > 0 {
                    assert(a[i] == a.drop_first()[i - 1]);
                    assert(b[i] == b.drop_first()[i - 1]);
                }
            }
        }
    }
}

/// Without its first member, an increasing listing of a set lists the rest of
/// the set.
proof fn lemma_sorted_listing_drop_first<T: Ord>(a: Seq<T>, set: Set<T>)
    requires
        lawful_order::<T>(),
        sorted_listing(a, set),
        a.len() > 0,
    ensures
        sorted_listing(a.drop_first(), set.remove(a[0])),
{
    let d = a.drop_first();
    assert(set.finite()) by {
        assert(a.to_set() == set);
    }
    assert(set.contains(a[0])) by {
        assert(a.to_set().contains(a[0]));
    }
    assert(d.to_set() =~= set.remove(a[0])) by {
        assert forall|x: T| d.to_set().contains(x) implies set.remove(a[0]).contains(x) by {
            let i = choose|i: int| 0 <= i < d.len() && d[i] == x;
            assert(a[i + 1] == x);
            assert(a.to_set().contains(a[i + 1]));
        }
        assert forall|x: T| set.remove(a[0]).contains(x) implies d.to_set().contains(x) by {
            assert(a.to_set().contains(x));
            let i = choose|i: int| 0 <= i < a.len() && a[i] == x;
            assert(i != 0);
            assert(d[i - 1] == x);
        }
    }
    assert forall|i: int, j: int|
        #![trigger d[i], d[j]]
        0 <= i < j < d.len() implies precedes::<T>(d[i], d[j]) by {
        assert(precedes::<T>(a[i + 1], a[j + 1]));
    }
}

/// A sequence of references is increasing exactly where the sequence of the
/// values they point to is.
pub proof fn lemma_increasing_unref<K: Ord>(v: Seq<&K>)
    requires
        lawful_key_order::<K>(),
        increasing_seq(v),
    ensures
        increasing_seq(v.unref()),
{
    assert(obeys_cmp::<K>());
    assert(obeys_cmp::<&K>());
    assert forall|i: int, j: int|
        #![trigger v.unref()[i], v.unref()[j]]
        0 <= i < j < v.unref().len() implies precedes::<K>(v.unref()[i], v.unref()[j]) by {
        assert(precedes::<&K>(v[i], v[j]));
    }
}

/// Where a sequence of references lists a set, each once and in increasing
/// order, the values they point to list it too.
pub proof fn lemma_sorted_unref<T: Ord>(v: Seq<&T>, set: Set<T>)
    requires
        lawful_key_order::<T>(),
        v.len() == set.len(),
        v.unref().to_set() == set,
        v.no_duplicates(),
        increasing_seq(v),
    ensures
        sorted_listing(v.unref(), set),
{
    lemma_increasing_unref(v);
    assert forall|i: int, j: int|
        0 <= i < v.unref().len() && 0 <= j < v.unref().len() && i != j implies v.unref()[i]
        != v.unref()[j] by {
        assert(v[i] != v[j]);
    }
}

/// A sequence picked out of an increasing sequence at increasing indices is
/// increasing.
pub proof fn lemma_increasing_pick<T: Ord>(es: Seq<T>, idx: Seq<int>, out: Seq<T>)
    requires
        lawful_key_order::<T>(),
        increasing_seq(es),
        out.len() == idx.len(),
        forall|k: int| 0 <= k < idx.len() ==> 0 <= #[trigger] idx[k] < es.len(),
        forall|k: int| 0 <= k < idx.len() ==> #[trigger] out[k] == es[idx[k]],
        forall|a: int, b: int| 0 <= a < b < idx.len() ==> #[trigger] idx[a] < #[trigger] idx[b],
    ensures
        increasing_seq(out),
{
    assert(obeys_cmp::<T>());
    assert forall|a: int, b: int|
        #![trigger out[a], out[b]]
        0 <= a < b < out.len() implies precedes::<T>(out[a], out[b]) by {
        assert(precedes::<T>(es[idx[a]], es[idx[b]]));
    }
}

} // verus!
