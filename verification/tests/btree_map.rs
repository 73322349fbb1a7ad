use nonempty_collections::{Error, NEBTreeMap};
use std::collections::BTreeMap;

struct Foo {
    user: String,
}

fn map_of<K: Ord, V>(first: (K, V), rest: Vec<(K, V)>) -> NEBTreeMap<K, V> {
    let mut m = NEBTreeMap::new(first.0, first.1);
    for (k, v) in rest {
        m.insert(k, v);
    }
    m
}

#[test]
fn macro_usage() {
    let a = Foo {
        user: "a".to_string(),
    };
    let b = Foo {
        user: "b".to_string(),
    };

    let map = map_of((1, a), vec![(2, b)]);
    assert_eq!("a", map.get(&1).unwrap().user);
    assert_eq!("b", map.get(&2).unwrap().user);
}

#[test]
fn macro_length() {
    let map = map_of((1, 'a'), vec![(2, 'b'), (1, 'c')]);
    assert_eq!(2, map.len());
    assert_eq!('c', *map.get(&1).unwrap());
    assert_eq!('b', *map.get(&2).unwrap());
}

#[test]
fn iter_mut() {
    let mut v = map_of(("a", 0), vec![("b", 1), ("c", 2)]);

    v.iter_mut().for_each(|(_k, v)| {
        *v += 1;
    });
    assert_eq!(map_of(("a", 1), vec![("b", 2), ("c", 3)]), v);

    for (_k, v) in &mut v {
        *v -= 1;
    }
    assert_eq!(map_of(("a", 0), vec![("b", 1), ("c", 2)]), v);
}

#[test]
fn map_len_of_two() {
    let m = map_of(("elves", 3000), vec![("orcs", 10000)]);
    assert_eq!(2, m.len());
}

#[test]
fn map_new_holds_one_entry() {
    let m = NEBTreeMap::new(7u64, "seven");
    assert_eq!(1, m.len());
    assert_eq!(Some(&"seven"), m.get(&7));
    assert_eq!(None, m.get(&8));
}

#[test]
fn map_try_from_map() {
    let mut map = BTreeMap::new();
    map.extend([("a", 1), ("b", 2)]);
    assert_eq!(
        Some(map_of(("a", 1), vec![("b", 2)])),
        NEBTreeMap::try_from_map(map)
    );
    let map: BTreeMap<(), ()> = BTreeMap::new();
    assert_eq!(None, NEBTreeMap::try_from_map(map));
}

#[test]
fn map_try_from_iterator() {
    let map = NEBTreeMap::try_from_iterator((0 as u8..=5).map(|n| {
        let i = n % 3;
        ((97 + i) as char, i)
    }));
    assert_eq!(map, Some(map_of(('a', 0), vec![('b', 1), ('c', 2)])));

    let empty_map: Option<NEBTreeMap<char, &u32>> =
        NEBTreeMap::try_from_iterator(std::iter::empty());
    assert!(empty_map.is_none());
}

#[test]
fn map_try_from_pairs_last_wins() {
    let m = NEBTreeMap::try_from_pairs(vec![(1u32, 10u32), (2, 20), (1, 11)]).unwrap();
    assert_eq!(2, m.len());
    assert_eq!(Some(&11), m.get(&1));
    assert_eq!(Some(&20), m.get(&2));
    let none: Option<NEBTreeMap<u32, u32>> = NEBTreeMap::try_from_pairs(vec![]);
    assert!(none.is_none());
}

#[test]
fn map_keys_in_order() {
    let m = map_of(
        ("Valmar", "Vanyar"),
        vec![("Tirion", "Noldor"), ("Alqualondë", "Teleri")],
    );
    let v: Vec<_> = m.keys().into_iter().collect();
    assert_eq!(vec![&"Alqualondë", &"Tirion", &"Valmar"], v);
}

#[test]
fn map_values_in_key_order() {
    let m = map_of(
        ("Valmar", "Vanyar"),
        vec![("Tirion", "Noldor"), ("Alqualondë", "Teleri")],
    );
    let v: Vec<_> = m.values().into_iter().collect();
    assert_eq!(vec![&"Teleri", &"Noldor", &"Vanyar"], v);
}

#[test]
fn map_iter_in_order() {
    let m = map_of((3, 'c'), vec![(1, 'a'), (2, 'b')]);
    let v: Vec<_> = m.iter().collect();
    assert_eq!(vec![(&1, &'a'), (&2, &'b'), (&3, &'c')], v);
    let w: Vec<_> = m.nonempty_iter().into_iter().collect();
    assert_eq!(v, w);
    let x: Vec<_> = (&m).into_iter().collect();
    assert_eq!(v, x);
}

#[test]
fn map_into_iter_in_order() {
    let m = map_of((3, 'c'), vec![(1, 'a'), (2, 'b')]);
    let v: Vec<_> = m.clone().into_iter().collect();
    assert_eq!(vec![(1, 'a'), (2, 'b'), (3, 'c')], v);
    let w: Vec<_> = m.into_nonempty_iter().into_iter().collect();
    assert_eq!(v, w);
}

#[test]
fn map_nonempty_iter_mut() {
    let mut m = map_of((1, 10), vec![(2, 20)]);
    for (_k, v) in m.nonempty_iter_mut() {
        *v *= 2;
    }
    assert_eq!(map_of((1, 20), vec![(2, 40)]), m);
}

#[test]
fn map_contains_key() {
    let m = map_of(("Jack", 8), vec![]);
    assert!(m.contains_key("Jack"));
    assert!(!m.contains_key("Colin"));
}

#[test]
fn map_get() {
    let m = map_of(("silmarils", 3), vec![]);
    assert_eq!(Some(&3), m.get("silmarils"));
    assert_eq!(None, m.get("arkenstone"));
}

#[test]
fn map_get_key_value() {
    let m = map_of(("silmarils", 3), vec![]);
    assert_eq!(Some((&"silmarils", &3)), m.get_key_value("silmarils"));
    assert_eq!(None, m.get_key_value("arkenstone"));
}

#[test]
fn map_get_mut_writes_back() {
    let mut m = map_of(("silmarils", 3), vec![]);
    let v = m.get_mut("silmarils").unwrap();
    *v -= 3;
    assert_eq!(Some(&0), m.get("silmarils"));
    assert!(m.get_mut("arkenstone").is_none());
}

#[test]
fn map_insert_gives_back_old_value() {
    let mut m = map_of(("Vilya", "Elrond"), vec![("Nenya", "Galadriel")]);
    assert_eq!(None, m.insert("Narya", "Cirdan"));
    assert_eq!(Some("Cirdan"), m.insert("Narya", "Gandalf"));
    assert_eq!(Some(&"Gandalf"), m.get("Narya"));
    assert_eq!(3, m.len());
}

#[test]
fn map_eq_ignores_insertion_order() {
    let m0 = map_of(('a', 1), vec![('b', 2)]);
    let m1 = map_of(('b', 2), vec![('a', 1)]);
    assert_eq!(m0, m1);
    let m2 = map_of(('a', 1), vec![('b', 3)]);
    assert!(m0 != m2);
    let m3 = map_of(('a', 1), vec![('b', 2), ('c', 3)]);
    assert!(m0 != m3);
    let m4 = map_of(('a', 1), vec![('c', 2)]);
    assert!(m0 != m4);
}

#[test]
fn map_into_btree_map() {
    let m: BTreeMap<&str, usize> = map_of(("population", 1000), vec![]).into();
    assert!(m.contains_key("population"));
    assert_eq!(1, m.len());
}

#[test]
fn map_try_from_btree_map() {
    let mut b = BTreeMap::new();
    b.insert(1, 2);
    let m = NEBTreeMap::try_from(b).unwrap();
    assert_eq!(Some(&2), m.get(&1));
    let empty: BTreeMap<u8, u8> = BTreeMap::new();
    assert_eq!(Err(Error::Empty), NEBTreeMap::try_from(empty).map(|_| ()));
}

#[test]
fn map_as_ref_and_as_mut() {
    let mut m = map_of((1, 1), vec![(2, 2)]);
    assert_eq!(2, m.as_ref().len());
    m.as_mut().insert(3, 3);
    assert_eq!(3, m.len());
}

#[test]
fn map_round_trip_through_btree_map() {
    let m = map_of((2, 'b'), vec![(1, 'a')]);
    let b: BTreeMap<i32, char> = m.clone().into();
    assert_eq!(Some(m), NEBTreeMap::try_from_map(b));
}

#[test]
fn map_insert_keeps_other_keys() {
    let mut m = map_of((1, 'a'), vec![(2, 'b')]);
    m.insert(3, 'c');
    assert_eq!(Some(&'a'), m.get(&1));
    assert_eq!(Some(&'b'), m.get(&2));
    assert_eq!(Some(&'c'), m.get(&3));
    assert!(m.contains_key(&3));
}

#[test]
fn map_insert_twice_ends_as_second() {
    let mut m = map_of((1, 'a'), vec![]);
    assert_eq!(None, m.insert(2, 'x'));
    assert_eq!(Some('x'), m.insert(2, 'y'));
    assert_eq!(map_of((1, 'a'), vec![(2, 'y')]), m);
}

#[test]
fn map_values_line_up_with_keys() {
    let m = map_of((3, 'c'), vec![(1, 'a'), (2, 'b')]);
    let pairs: Vec<_> = m.keys().into_iter().zip(m.values().into_iter()).collect();
    let entries: Vec<_> = m.iter().collect();
    assert_eq!(entries, pairs);
}
