use algorithms::LinkedList;

fn list_of(items: &[i32]) -> LinkedList<i32> {
    let mut list = LinkedList::new();
    for item in items {
        list.push_back(*item);
    }
    list
}

fn items_of(list: &LinkedList<i32>) -> Vec<i32> {
    list.to_vec().into_iter().cloned().collect()
}

#[test]
fn test_insert() {
    let mut list = list_of(&[11, 45, 14]);
    list.insert(list.len() / 2, 13);
    list.insert(0, 0);
    list.insert(list.len(), 42);
    assert_eq!(items_of(&list), items_of(&list_of(&[0, 11, 45, 13, 14, 42])));
    assert_eq!(items_of(&list), vec![0, 11, 45, 13, 14, 42]);
}

#[test]
fn test_remove() {
    let mut list = list_of(&[19, 19, 81, 0]);

    list.remove(list.len() / 2);
    assert_eq!(items_of(&list), vec![19, 19, 0]);

    list.remove(0);
    assert_eq!(items_of(&list), vec![19, 0]);

    list.remove(list.len() - 1);
    assert_eq!(items_of(&list), vec![19]);
}

#[test]
fn test_single() {
    let mut list = list_of(&[114514]);

    list.insert(0, 0);
    assert_eq!(items_of(&list), vec![0, 114514]);
    list.pop_front();

    list.insert(1, 0);
    assert_eq!(items_of(&list), vec![114514, 0]);
    list.pop_back();

    list.remove(0);
    assert!(list.is_empty());
}

#[test]
fn list_ends_and_lookup() {
    let mut list: LinkedList<i32> = LinkedList::new();
    assert!(list.is_empty());
    assert_eq!(list.pop_back(), None);
    assert_eq!(list.pop_front(), None);
    assert_eq!(list.remove(3), None);

    list.push_back(2);
    list.push_back(3);
    list.push_front(1);
    assert_eq!(list.len(), 3);
    assert_eq!(list.get(0), Some(&1));
    assert_eq!(list.get(2), Some(&3));
    assert_eq!(list.get(3), None);

    *list.get_mut(1).unwrap() = 20;
    assert_eq!(items_of(&list), vec![1, 20, 3]);
    assert!(list.get_mut(3).is_none());

    let mut walk = list.iter();
    assert_eq!(walk.next(), Some(&1));
    assert_eq!(walk.next(), Some(&20));
    assert_eq!(walk.next(), Some(&3));
    assert_eq!(walk.next(), None);

    assert_eq!(list.remove(7), Some(3));
    assert_eq!(list.pop_front(), Some(1));
    assert_eq!(list.pop_back(), Some(20));
    assert!(list.is_empty());

    list.push_back(5);
    list.clear();
    assert_eq!(list.len(), 0);
}

#[test]
fn list_insert_in_back_half_goes_behind() {
    let mut list = list_of(&[0, 1, 2, 3]);
    list.insert(3, 9);
    assert_eq!(items_of(&list), vec![0, 1, 2, 3, 9]);
    list.insert(1, 8);
    assert_eq!(items_of(&list), vec![0, 8, 1, 2, 3, 9]);
}

#[test]
fn list_into_iter_from_both_ends() {
    let list = list_of(&[1, 2, 3, 4]);
    let mut walk = list.into_iter();

    assert_eq!(walk.next(), Some(1));
    assert_eq!(walk.next_back(), Some(4));
    assert_eq!(walk.next_back(), Some(3));
    assert_eq!(walk.next(), Some(2));
    assert_eq!(walk.next(), None);
    assert_eq!(walk.next_back(), None);
}
