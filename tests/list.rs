use buddy_alloc::list::List;

fn addrs() -> Vec<usize> {
    (0..10).map(|i| 0x4000 + 8 * i).collect()
}

#[test]
fn list_test_new_list_is_empty() {
    let list: List = List::new();
    assert!(list.is_empty());
}

#[test]
fn tests_test_new_list_is_empty() {
    let list: List = List::new();
    assert!(list.is_empty());
}

#[test]
fn list_test_push_and_pop() {
    let mut list = List::new();
    let ptrs = addrs();
    for i in 0..10 {
        list.push(ptrs[i]);
    }
    assert!(!list.is_empty());
    let mut iter = list.iter();
    for i in 0..=8 {
        assert_eq!(iter.next(), Some(ptrs[9 - i]));
    }
    assert_eq!(iter.next(), Some(ptrs[0]));
    assert_eq!(iter.next(), None);
}

#[test]
fn tests_test_push_and_pop() {
    let mut list = List::new();
    let ptrs = addrs();
    for i in 0..10 {
        list.push(ptrs[i]);
    }
    assert!(!list.is_empty());
    for i in 0..10 {
        assert_eq!(list.pop().unwrap(), ptrs[9 - i]);
    }
}

#[test]
fn test_iter() {
    let mut list = List::new();
    let ptrs = addrs();
    for i in 0..10 {
        list.push(ptrs[i]);
    }
    let mut iter = list.iter();
    for i in 0..=8 {
        assert_eq!(iter.next().unwrap(), ptrs[9 - i]);
    }
    assert_eq!(iter.next().unwrap(), ptrs[0]);
    assert_eq!(iter.next(), None);
}

#[test]
fn pop_on_empty_list_gives_none() {
    let mut list = List::new();
    assert_eq!(list.pop(), None);
    list.push(0x100);
    assert_eq!(list.pop(), Some(0x100));
    assert_eq!(list.pop(), None);
    assert!(list.is_empty());
}

#[test]
fn iter_mut_removes_the_visited_node() {
    let mut list = List::new();
    for a in [0x10usize, 0x20, 0x30, 0x40] {
        list.push(a);
    }
    let mut it = list.iter_mut();
    let first = it.next(&list).unwrap();
    assert_eq!(first.value(), 0x40);
    let second = it.next(&list).unwrap();
    assert_eq!(second.value(), 0x30);
    assert_eq!(second.pop(&mut list), 0x30);
    assert_eq!(list.len(), 3);
    assert_eq!(list.pop(), Some(0x40));
    assert_eq!(list.pop(), Some(0x20));
    assert_eq!(list.pop(), Some(0x10));
}

#[test]
fn remove_finds_an_address_anywhere() {
    let mut list = List::new();
    for a in [0x10usize, 0x20, 0x30] {
        list.push(a);
    }
    assert!(list.remove(0x10));
    assert!(!list.remove(0x10));
    assert!(!list.remove(0x99));
    assert_eq!(list.len(), 2);
    assert_eq!(list.pop(), Some(0x30));
    assert_eq!(list.pop(), Some(0x20));
}
