use candidateparser::Extensions;

#[test]
fn new_map_is_empty() {
    let map = Extensions::new();
    assert_eq!(map.len(), 0);
    assert!(map.is_empty());
    assert_eq!(map.get(&b"a".to_vec()), None);
    assert_eq!(map.entry(0), None);
}

#[test]
fn insert_and_get() {
    let mut map = Extensions::new();
    map.insert(b"generation".to_vec(), b"0".to_vec());
    map.insert(b"ufrag".to_vec(), b"EEtu".to_vec());
    assert_eq!(map.len(), 2);
    assert!(!map.is_empty());
    assert_eq!(map.get(&b"generation".to_vec()), Some(&b"0".to_vec()));
    assert_eq!(map.get(&b"ufrag".to_vec()), Some(&b"EEtu".to_vec()));
    assert_eq!(map.get(&b"ufra".to_vec()), None);
    assert_eq!(map.get(&b"".to_vec()), None);
}

#[test]
fn insert_replaces_the_value_of_a_name() {
    let mut map = Extensions::new();
    map.insert(b"a".to_vec(), b"1".to_vec());
    map.insert(b"b".to_vec(), b"2".to_vec());
    map.insert(b"a".to_vec(), b"3".to_vec());
    assert_eq!(map.len(), 2);
    assert_eq!(map.get(&b"a".to_vec()), Some(&b"3".to_vec()));
    assert_eq!(map.get(&b"b".to_vec()), Some(&b"2".to_vec()));
}

#[test]
fn entries_are_listed_by_index() {
    let mut map = Extensions::new();
    map.insert(b"a".to_vec(), b"1".to_vec());
    map.insert(b"b".to_vec(), b"2".to_vec());
    map.insert(b"a".to_vec(), b"3".to_vec());
    assert_eq!(map.entry(0), Some((&b"a".to_vec(), &b"3".to_vec())));
    assert_eq!(map.entry(1), Some((&b"b".to_vec(), &b"2".to_vec())));
    assert_eq!(map.entry(2), None);
}

#[test]
fn equality_ignores_the_order_of_entry() {
    let mut one = Extensions::new();
    one.insert(b"a".to_vec(), b"1".to_vec());
    one.insert(b"b".to_vec(), b"2".to_vec());
    let mut other = Extensions::new();
    other.insert(b"b".to_vec(), b"2".to_vec());
    other.insert(b"a".to_vec(), b"1".to_vec());
    assert_eq!(one, other);

    let mut third = Extensions::new();
    third.insert(b"a".to_vec(), b"1".to_vec());
    assert_ne!(one, third);
    third.insert(b"b".to_vec(), b"3".to_vec());
    assert_ne!(one, third);
    third.insert(b"b".to_vec(), b"2".to_vec());
    assert_eq!(one, third);

    let mut fourth = Extensions::new();
    fourth.insert(b"a".to_vec(), b"1".to_vec());
    fourth.insert(b"c".to_vec(), b"2".to_vec());
    assert_ne!(one, fourth);
}

#[test]
fn clone_has_the_same_entries() {
    let mut map = Extensions::new();
    map.insert(b"network-id".to_vec(), b"3".to_vec());
    map.insert(b"network-cost".to_vec(), b"10".to_vec());
    let copy = map.clone();
    assert_eq!(copy, map);
    assert_eq!(copy.len(), 2);
    assert_eq!(copy.get(&b"network-cost".to_vec()), Some(&b"10".to_vec()));
}
