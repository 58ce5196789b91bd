use plcourse::ordered_map::OrderedMap;

#[test]
fn get_by_index() {
    let mut a: OrderedMap<i8> = OrderedMap::new();

    *a.index_mut("A".to_string()) = 1;
    *a.index_mut("C".to_string()) = 3;
    *a.index_mut("B".to_string()) = 2;

    assert_eq!(a.index(0), 1);
    assert_eq!(a.index(1), 2);
    assert_eq!(a.index(2), 3);
}

#[test]
fn get_by_string() {}

#[test]
fn index_by_key_reads_written_value() {
    let mut a: OrderedMap<i8> = OrderedMap::new();
    *a.index_mut("2".to_string()) = 2;
    *a.index_mut("1".to_string()) = 1;
    assert_eq!(a.index_by_key("2".to_string()), 2);
    assert_eq!(a.index_by_key("1".to_string()), 1);
    assert_eq!(a.len(), 2);
}

#[test]
fn index_mut_resets_existing_key_to_zero() {
    let mut a: OrderedMap<i8> = OrderedMap::new();
    *a.index_mut("k".to_string()) = 5;
    let r = a.index_mut("k".to_string());
    assert_eq!(*r, 0);
    assert_eq!(a.index_by_key("k".to_string()), 0);
    assert_eq!(a.len(), 1);
}

#[test]
fn keys_follow_string_order() {
    let mut a: OrderedMap<i8> = OrderedMap::new();
    *a.index_mut("b".to_string()) = 3;
    *a.index_mut("B".to_string()) = 2;
    *a.index_mut("ab".to_string()) = 1;
    *a.index_mut("a".to_string()) = 0;
    // "B" < "a" < "ab" < "b" in byte order
    assert_eq!(a.index(0), 2);
    assert_eq!(a.index(1), 0);
    assert_eq!(a.index(2), 1);
    assert_eq!(a.index(3), 3);
}

#[test]
fn insert_and_get() {
    let mut m: OrderedMap<i32> = OrderedMap::new();
    m.insert("x".to_string(), 7);
    m.insert("y".to_string(), -1);
    m.insert("x".to_string(), 9);
    assert_eq!(m.get(&"x".to_string()), Some(&9));
    assert_eq!(m.get(&"y".to_string()), Some(&-1));
    assert_eq!(m.get(&"z".to_string()), None);
    assert_eq!(m.len(), 2);
}
