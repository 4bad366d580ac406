use multi_map::MultiMap;

#[test]
fn big_test() {
    let mut map = MultiMap::new();

    map.insert(1, "One", String::from("Ein"));
    map.insert(2, "Two", String::from("Zwei"));
    map.insert(3, "Three", String::from("Drei"));

    assert!(*map.get(&1).unwrap() == String::from("Ein"));
    assert!(*map.get(&2).unwrap() == String::from("Zwei"));
    assert!(*map.get(&3).unwrap() == String::from("Drei"));
    assert!(map.contains_key(&1));
    assert!(!map.contains_key(&4));
    assert!(map.contains_key_alt(&"One"));
    assert!(!map.contains_key_alt(&"Four"));

    map.get_mut_alt(&"One").unwrap().push_str("s");

    assert!(*map.get_alt(&"One").unwrap() == String::from("Eins"));
    assert!(*map.get_alt(&"Two").unwrap() == String::from("Zwei"));
    assert!(*map.get_alt(&"Three").unwrap() == String::from("Drei"));

    map.remove(&3);

    assert!(*map.get_alt(&"One").unwrap() == String::from("Eins"));
    assert!(*map.get_alt(&"Two").unwrap() == String::from("Zwei"));
    assert!(map.get_alt(&"Three") == None);
    assert!(map.get(&3) == None);

    assert!(map.remove_alt(&"Three") == None);
    assert!(*map.remove_alt(&"One").unwrap() == String::from("Eins"));

    map.get_mut(&2).unwrap().push_str("!");

    assert!(map.get(&1) == None);
    assert!(*map.get(&2).unwrap() == String::from("Zwei!"));
    assert!(map.get_alt(&"Three") == None);
    assert!(map.get(&3) == None);
}

#[derive(Debug, Eq, Ord, PartialEq, PartialOrd)]
struct MultiCount<'a>(i32, &'a str, &'a str);

#[derive(Debug, Eq, Ord, PartialEq, PartialOrd)]
struct MultiCountOwned(i32, String, String);

#[test]
fn into_iter_test() {
    let mut map = MultiMap::new();

    map.insert(1, "One", String::from("Eins"));
    map.insert(2, "Two", String::from("Zwei"));
    map.insert(3, "Three", String::from("Drei"));

    let mut vec_borrow = Vec::new();
    let mut it = map.iter();
    while let Some((k1, pair)) = it.next() {
        vec_borrow.push(MultiCount(*k1, pair.0, &pair.1));
    }
    vec_borrow.sort();
    assert_eq!(
        vec_borrow,
        vec!(
            MultiCount(1, "One", "Eins"),
            MultiCount(2, "Two", "Zwei"),
            MultiCount(3, "Three", "Drei")
        )
    );

    let mut vec_owned = Vec::new();
    let mut owned_it = map.into_iter();
    while let Some((k1, (k2, v))) = owned_it.next() {
        vec_owned.push(MultiCountOwned(k1, String::from(k2), v));
    }
    vec_owned.sort();
    assert_eq!(
        vec_owned,
        vec!(
            MultiCountOwned(1, String::from("One"), String::from("Eins")),
            MultiCountOwned(2, String::from("Two"), String::from("Zwei")),
            MultiCountOwned(3, String::from("Three"), String::from("Drei"))
        )
    )
}

#[test]
fn macro_test() {
    let map: MultiMap<i32, &str, String> = MultiMap::new();

    assert_eq!(map, MultiMap::from_list(vec![]));

    let mut map = MultiMap::new();
    map.insert(1, "One", String::from("Eins"));

    assert_eq!(
        map,
        MultiMap::from_list(vec![(1, "One", String::from("Eins"))])
    );

    assert_eq!(
        map,
        MultiMap::from_list(vec![(1, "One", String::from("Eins"))])
    );

    let mut map = MultiMap::new();
    map.insert(1, "One", String::from("Eins"));
    map.insert(2, "Two", String::from("Zwei"));
    map.insert(3, "Three", String::from("Drei"));

    assert_eq!(
        map,
        MultiMap::from_list(vec![
            (1, "One", String::from("Eins")),
            (2, "Two", String::from("Zwei")),
            (3, "Three", String::from("Drei")),
        ])
    );

    assert_eq!(
        map,
        MultiMap::from_list(vec![
            (1, "One", String::from("Eins")),
            (2, "Two", String::from("Zwei")),
            (3, "Three", String::from("Drei"))
        ])
    );
}

#[test]
fn dual_key_scenario() {
    let mut map = MultiMap::new();

    map.insert(1, "One", String::from("Ein"));
    map.insert(2, "Two", String::from("Zwei"));
    map.insert(3, "Three", String::from("Drei"));

    assert_eq!(map.get(&1), Some(&String::from("Ein")));
    assert_eq!(map.get_alt(&"One"), Some(&String::from("Ein")));

    map.get_mut_alt(&"One").unwrap().push_str("s");
    assert_eq!(map.get_alt(&"One"), Some(&String::from("Eins")));

    map.remove(&3);
    assert_eq!(map.get(&3), None);
    assert_eq!(map.get_alt(&"Three"), None);

    assert_eq!(map.remove_alt(&"One"), Some(String::from("Eins")));
    assert!(!map.contains_key(&1));
    assert!(map.contains_key(&2));
}

#[test]
fn idempotent_absence() {
    let mut map: MultiMap<i32, &str, String> = MultiMap::new();
    assert_eq!(map.get(&7), None);
    assert_eq!(map.get_alt(&"Seven"), None);
    assert_eq!(map.get_mut(&7), None);
    assert_eq!(map.get_mut_alt(&"Seven"), None);
    assert_eq!(map.remove(&7), None);
    assert_eq!(map.remove_alt(&"Seven"), None);
    assert!(!map.contains_key(&7));
    assert!(!map.contains_key_alt(&"Seven"));
    assert_eq!(map, MultiMap::new());

    map.insert(1, "One", String::from("Eins"));
    let snapshot = MultiMap::from_list(vec![(1, "One", String::from("Eins"))]);
    assert_eq!(map.remove(&2), None);
    assert_eq!(map.remove_alt(&"Two"), None);
    assert_eq!(map.get(&2), None);
    assert_eq!(map.get_alt(&"Two"), None);
    assert_eq!(map, snapshot);
}

#[test]
fn equality_ignores_insertion_order() {
    let mut forward = MultiMap::new();
    forward.insert(1, "One", String::from("Eins"));
    forward.insert(2, "Two", String::from("Zwei"));
    forward.insert(3, "Three", String::from("Drei"));

    let mut backward = MultiMap::new();
    backward.insert(3, "Three", String::from("Drei"));
    backward.insert(2, "Two", String::from("Zwei"));
    backward.insert(1, "One", String::from("Eins"));

    assert_eq!(forward, backward);

    backward.insert(4, "Four", String::from("Vier"));
    assert!(forward != backward);
}

#[test]
fn flat_reconstruction_round_trip() {
    let mut map = MultiMap::new();
    map.insert(1, "One", String::from("Eins"));
    map.insert(2, "Two", String::from("Zwei"));
    map.insert(3, "Three", String::from("Drei"));

    let mut flat = Vec::new();
    let mut it = map.iter();
    while let Some((k1, pair)) = it.next() {
        flat.push((*k1, (pair.0, pair.1.clone())));
    }

    let rebuilt: MultiMap<i32, &str, String> = MultiMap::from_entries(flat);
    assert_eq!(rebuilt, map);
    assert_eq!(rebuilt.get_alt(&"One"), Some(&String::from("Eins")));
    assert_eq!(rebuilt.get_alt(&"Two"), Some(&String::from("Zwei")));
    assert_eq!(rebuilt.get_alt(&"Three"), Some(&String::from("Drei")));
    assert_eq!(rebuilt.get(&4), None);
    assert_eq!(rebuilt.get_alt(&"Four"), None);
}

#[test]
fn reinsertion_replaces_and_evicts() {
    let mut map = MultiMap::new();
    map.insert(1, "One", String::from("a"));

    map.insert(1, "Uno", String::from("b"));
    assert_eq!(map.get(&1), Some(&String::from("b")));
    assert_eq!(map.get_alt(&"One"), None);
    assert!(!map.contains_key_alt(&"One"));
    assert_eq!(map.get_alt(&"Uno"), Some(&String::from("b")));

    map.insert(2, "Uno", String::from("c"));
    assert!(!map.contains_key(&1));
    assert_eq!(map.get_alt(&"Uno"), Some(&String::from("c")));
    assert_eq!(map.get(&2), Some(&String::from("c")));
}

#[test]
fn iteration_restarts_from_scratch() {
    let mut map = MultiMap::new();
    map.insert(1, "One", String::from("Eins"));
    map.insert(2, "Two", String::from("Zwei"));

    let mut first_pass = Vec::new();
    let mut it = map.iter();
    while let Some((k1, pair)) = it.next() {
        first_pass.push((*k1, pair.0, pair.1.clone()));
    }

    let mut second_pass = Vec::new();
    let mut again = map.iter();
    while let Some((k1, pair)) = again.next() {
        second_pass.push((*k1, pair.0, pair.1.clone()));
    }

    assert_eq!(first_pass.len(), 2);
    assert_eq!(first_pass, second_pass);
}

#[test]
fn default_and_capacity_are_empty() {
    let by_default: MultiMap<i32, &str, String> = MultiMap::default();
    let sized: MultiMap<i32, &str, String> = MultiMap::with_capacity(16);
    assert_eq!(by_default, MultiMap::new());
    assert_eq!(sized, MultiMap::new());
    assert!(!sized.contains_key(&1));
}
