use algorithms::avl_tree::iter::{Inorder, Preorder};
use algorithms::AVLTreeMap;

fn sample() -> AVLTreeMap<u32, &'static str> {
    let mut map = AVLTreeMap::new();

    map.insert(0, "Mary");
    map.insert(2, "John");
    map.insert(4, "Peter");
    map.insert(6, "Randal");

    map
}

fn collect_inorder<'a>(mut walk: Inorder<'a, u32, &'static str>) -> Vec<(&'a u32, &'a &'static str)> {
    let mut out = Vec::new();
    while let Some(item) = walk.next() {
        out.push(item);
    }
    out
}

fn collect_preorder<'a>(
    mut walk: Preorder<'a, u32, &'static str>,
) -> Vec<(&'a u32, &'a &'static str)> {
    let mut out = Vec::new();
    while let Some(item) = walk.next() {
        out.push(item);
    }
    out
}

#[test]
fn insert_elt() {
    let mut map = sample();

    assert_eq!(map.insert(3, "Fox"), None);
    assert_eq!(map.insert(0, "Milly"), Some("Mary"));
}

#[test]
fn remove() {
    let mut map = sample();

    assert_eq!(map.remove(&2), Some("John"));
    assert_eq!(map.remove(&0), Some("Mary"));
    assert_eq!(map.remove(&4), Some("Peter"));
    assert_eq!(map.remove(&6), Some("Randal"));
    assert_eq!(map.remove(&7), None);
}

#[test]
fn get() {
    let map = sample();

    assert_eq!(map.get(&2), Some(&"John"));
    assert_eq!(map.get(&8), None);
}

#[test]
fn drop_tree() {
    let map = sample();

    drop(map);
}

#[test]
fn preorder() {
    let map = sample();
    let preorder: Vec<_> = collect_preorder(map.preorder());

    assert_eq!(
        preorder,
        vec![
            (&2, &"John"),
            (&0, &"Mary"),
            (&4, &"Peter"),
            (&6, &"Randal")
        ]
    );
}

#[test]
fn inorder() {
    let map = sample();
    let inorder: Vec<_> = collect_inorder(map.inorder());

    assert_eq!(
        inorder,
        vec![
            (&0, &"Mary"),
            (&2, &"John"),
            (&4, &"Peter"),
            (&6, &"Randal")
        ]
    );
}

#[test]
fn avl_scenario_insert_and_walk() {
    let mut map = sample();

    assert_eq!(map.get(&2), Some(&"John"));
    assert_eq!(map.insert(0, "Milly"), Some("Mary"));
    assert_eq!(map.insert(3, "Fox"), None);
    assert_eq!(map.len(), 5);
    assert_eq!(
        collect_inorder(map.inorder()),
        vec![
            (&0, &"Milly"),
            (&2, &"John"),
            (&3, &"Fox"),
            (&4, &"Peter"),
            (&6, &"Randal")
        ]
    );
}

#[test]
fn avl_scenario_remove_all() {
    let mut map = sample();

    assert_eq!(map.remove(&2), Some("John"));
    assert_eq!(map.remove(&0), Some("Mary"));
    assert_eq!(map.remove(&4), Some("Peter"));
    assert_eq!(map.remove(&6), Some("Randal"));
    assert_eq!(map.remove(&7), None);
    assert_eq!(map.len(), 0);
    assert!(map.is_empty());
    assert_eq!(map.get(&2), None);
}

#[test]
fn avl_empty_map() {
    let mut map: AVLTreeMap<i64, i64> = AVLTreeMap::new();

    assert_eq!(map.len(), 0);
    assert!(map.is_empty());
    assert_eq!(map.get(&1), None);
    assert_eq!(map.remove(&1), None);
    assert!(map.inorder().next().is_none());
    assert!(map.preorder().next().is_none());
}

#[test]
fn avl_remove_absent_changes_nothing() {
    let mut map = sample();
    let before: Vec<(u32, &str)> =
        collect_preorder(map.preorder()).into_iter().map(|(k, v)| (*k, *v)).collect();

    assert_eq!(map.remove(&5), None);
    assert_eq!(map.len(), 4);
    let after: Vec<(u32, &str)> =
        collect_preorder(map.preorder()).into_iter().map(|(k, v)| (*k, *v)).collect();
    assert_eq!(before, after);
}

#[test]
fn avl_ascending_inserts_stay_sorted_and_shallow() {
    let mut map: AVLTreeMap<u32, u32> = AVLTreeMap::new();
    for k in 0..1000u32 {
        assert_eq!(map.insert(k, k * 2), None);
    }
    assert_eq!(map.len(), 1000);
    let mut walk = map.inorder();
    let mut expect = 0u32;
    while let Some((k, v)) = walk.next() {
        assert_eq!(*k, expect);
        assert_eq!(*v, expect * 2);
        expect += 1;
    }
    assert_eq!(expect, 1000);
    let first = map.preorder().next().unwrap();
    assert!(*first.0 >= 255 && *first.0 <= 767);
}

#[test]
fn avl_mixed_inserts_and_removals() {
    let mut map: AVLTreeMap<i32, i32> = AVLTreeMap::new();
    let mut k = 7i32;
    let mut present = std::collections::BTreeMap::new();
    for step in 0..2000 {
        k = (k * 31 + 17) % 257;
        if step % 3 == 2 {
            assert_eq!(map.remove(&k), present.remove(&k));
        } else {
            assert_eq!(map.insert(k, step), present.insert(k, step));
        }
        assert_eq!(map.len(), present.len());
    }
    let mut walk = map.inorder();
    for (k, v) in present.iter() {
        assert_eq!(walk.next(), Some((k, v)));
    }
    assert!(walk.next().is_none());
    let keys: Vec<i32> = present.keys().cloned().collect();
    for k in keys {
        assert!(map.remove(&k).is_some());
    }
    assert!(map.is_empty());
}

fn avl_height_limit(len: usize) -> isize {
    // The least number of nodes of a balanced tree of each height.
    let mut least = vec![1usize, 2];
    while *least.last().unwrap() <= len {
        let n = least.len();
        least.push(1 + least[n - 1] + least[n - 2]);
    }
    least.len() as isize - 2
}

#[test]
fn avl_height_stays_low() {
    assert_eq!(AVLTreeMap::<u32, u32>::new().height(), -1);
    assert_eq!(sample().height(), 2);

    let mut up: AVLTreeMap<u32, u32> = AVLTreeMap::new();
    let mut down: AVLTreeMap<u32, u32> = AVLTreeMap::new();
    let mut mixed: AVLTreeMap<u32, u32> = AVLTreeMap::new();
    let mut k = 1u32;
    for i in 0..4000u32 {
        up.insert(i, i);
        down.insert(4000 - i, i);
        k = (k * 48271) % 65521;
        mixed.insert(k, i);
        assert!(up.height() <= avl_height_limit(up.len()));
        assert!(down.height() <= avl_height_limit(down.len()));
        assert!(mixed.height() <= avl_height_limit(mixed.len()));
    }
    assert_eq!(up.height(), 11);
    for i in 0..3000u32 {
        up.remove(&i);
        down.remove(&(i + 500));
        assert!(up.height() <= avl_height_limit(up.len()));
        assert!(down.height() <= avl_height_limit(down.len()));
    }
    assert_eq!(up.len(), 1000);
}

#[test]
fn avl_pair_keys_in_dictionary_order() {
    let mut map: AVLTreeMap<(u8, i32), char> = AVLTreeMap::new();
    map.insert((2, -5), 'd');
    map.insert((1, 9), 'b');
    map.insert((2, -7), 'c');
    map.insert((1, 3), 'a');
    map.insert((3, 0), 'e');

    let mut walk = map.inorder();
    let mut seen = Vec::new();
    while let Some((k, v)) = walk.next() {
        seen.push((*k, *v));
    }
    assert_eq!(
        seen,
        vec![((1, 3), 'a'), ((1, 9), 'b'), ((2, -7), 'c'), ((2, -5), 'd'), ((3, 0), 'e')]
    );
    assert_eq!(map.get(&(2, -7)), Some(&'c'));
    assert_eq!(map.remove(&(1, 9)), Some('b'));
    assert_eq!(map.get(&(1, 9)), None);
}
