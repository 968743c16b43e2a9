use algorithms::ChainHashMap;
use std::mem;

fn sample() -> ChainHashMap<String, u32> {
    let mut map: ChainHashMap<String, u32> = ChainHashMap::new();

    map.insert("C".to_owned(), 50);
    map.insert("Rust".to_owned(), 12);
    map.insert("Javascript".to_owned(), 27);

    map
}

#[test]
fn insert() {
    let mut map = sample();

    assert_eq!(map.insert("Java".to_owned(), 27), None);
    assert_eq!(map.insert("Javascript".to_owned(), 114514), Some(27));
}

#[test]
fn chain_hash_map_remove() {
    let mut map = sample();

    assert_eq!(map.remove(&"C".to_owned()), Some(50));
    assert_eq!(map.remove(&"C++".to_owned()), None);
}

#[test]
fn chain_hash_map_get() {
    let map = sample();

    assert_eq!(map.get(&"Rust".to_owned()), Some(&12));
    assert_eq!(map.get(&"Javascript".to_owned()), Some(&27));
    assert_eq!(map.get(&"C".to_owned()), Some(&50));
}

#[test]
fn update() {
    let mut map = sample();
    let age = map.get_mut(&"Rust".to_owned()).unwrap();

    assert_eq!(mem::replace(age, 1919810), 12);
    assert_eq!(map.get(&"Rust".to_owned()), Some(&1919810));
}

#[test]
fn chain_hash_map_crowded_buckets() {
    let mut map: ChainHashMap<u32, u32> = ChainHashMap::with_capacity(3);

    for k in 0..50u32 {
        assert_eq!(map.insert(k, k + 100), None);
    }
    for k in 0..50u32 {
        assert_eq!(map.get(&k), Some(&(k + 100)));
    }
    assert_eq!(map.get(&50), None);
    assert!(map.get_mut(&50).is_none());
    for k in (0..50u32).step_by(2) {
        assert_eq!(map.remove(&k), Some(k + 100));
        assert_eq!(map.remove(&k), None);
    }
    for k in 0..50u32 {
        let expect = if k % 2 == 0 { None } else { Some(k + 100) };
        assert_eq!(map.get(&k).copied(), expect);
    }
    assert_eq!(map.insert(1, 7), Some(101));
    assert_eq!(map.get(&1), Some(&7));
}

#[test]
fn chain_hash_map_one_bucket() {
    let mut map: ChainHashMap<u64, &str> = ChainHashMap::with_capacity(1);

    assert_eq!(map.insert(1, "a"), None);
    assert_eq!(map.insert(2, "b"), None);
    assert_eq!(map.insert(1, "c"), Some("a"));
    assert_eq!(map.remove(&1), Some("c"));
    assert_eq!(map.get(&2), Some(&"b"));
}
