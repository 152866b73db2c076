use linked_list::LinkedList;

fn collect(list: &LinkedList<u64>) -> Vec<u64> {
    let mut out = Vec::new();
    let mut it = list.iter();
    while let Some(x) = it.next() {
        out.push(*x);
    }
    out
}

#[test]
fn len_tracks_pushes_and_successful_pops() {
    let mut list: LinkedList<u64> = LinkedList::new();
    list.push_front(1);
    list.push_back(2);
    list.push_front(3);
    assert_eq!(list.len(), 3);
    assert_eq!(list.pop_back(), Some(2));
    assert_eq!(list.len(), 2);
    list.push_back(4);
    assert_eq!(list.pop_front(), Some(3));
    assert_eq!(list.pop_front(), Some(1));
    assert_eq!(list.pop_front(), Some(4));
    assert_eq!(list.pop_back(), None);
    assert_eq!(list.pop_front(), None);
    assert_eq!(list.len(), 0);
    assert!(list.is_empty());
}

#[test]
fn popping_an_empty_list_changes_nothing() {
    let mut list: LinkedList<u64> = LinkedList::new();
    for _ in 0..5 {
        assert_eq!(list.pop_front(), None);
        assert_eq!(list.pop_back(), None);
        assert_eq!(list.len(), 0);
        assert!(list.is_empty());
    }
    list.push_back(9);
    assert_eq!(list.pop_front(), Some(9));
    assert_eq!(list.pop_front(), None);
    assert_eq!(list.pop_back(), None);
    assert_eq!(list.len(), 0);
}

#[test]
fn round_trip_front_restores_empty() {
    let mut list: LinkedList<u64> = LinkedList::new();
    for i in 0..1000u64 {
        list.push_front(i);
    }
    assert_eq!(list.len(), 1000);
    for i in (0..1000u64).rev() {
        assert_eq!(list.pop_front(), Some(i));
    }
    assert_eq!(list.len(), 0);
    assert!(list.is_empty());
}

#[test]
fn round_trip_back_restores_empty() {
    let mut list: LinkedList<u64> = LinkedList::new();
    for i in 0..1000u64 {
        list.push_back(i);
    }
    for i in (0..1000u64).rev() {
        assert_eq!(list.pop_back(), Some(i));
    }
    assert_eq!(list.len(), 0);
    assert!(list.is_empty());
}

#[test]
fn round_trip_keeps_earlier_elements() {
    let mut list: LinkedList<u64> = LinkedList::new();
    list.push_back(7);
    list.push_back(8);
    for i in 0..10u64 {
        list.push_front(i);
    }
    for _ in 0..10 {
        list.pop_front();
    }
    assert_eq!(collect(&list), vec![7, 8]);
}

#[test]
fn dropping_a_long_list() {
    let mut list: LinkedList<u64> = LinkedList::new();
    for i in 0..200_000u64 {
        list.push_back(i);
    }
    assert_eq!(list.len(), 200_000);
    drop(list);
}

#[test]
fn dropping_a_list_of_owned_values() {
    let mut list: LinkedList<String> = LinkedList::new();
    list.push_back(String::from("a"));
    list.push_front(String::from("b"));
    assert_eq!(list.pop_back(), Some(String::from("a")));
    list.push_back(String::from("c"));
    assert_eq!(list.len(), 2);
}

#[test]
fn removals_from_both_ends_keep_the_order() {
    let mut list: LinkedList<u64> = LinkedList::new();
    for i in 1..=6u64 {
        list.push_back(i);
    }
    list.push_front(0);
    assert_eq!(collect(&list), vec![0, 1, 2, 3, 4, 5, 6]);
    assert_eq!(list.pop_front(), Some(0));
    assert_eq!(collect(&list), vec![1, 2, 3, 4, 5, 6]);
    assert_eq!(list.pop_front(), Some(1));
    assert_eq!(list.pop_back(), Some(6));
    assert_eq!(collect(&list), vec![2, 3, 4, 5]);
    list.push_front(10);
    list.push_back(11);
    assert_eq!(collect(&list), vec![10, 2, 3, 4, 5, 11]);
    assert_eq!(list.pop_front(), Some(10));
    assert_eq!(list.pop_front(), Some(2));
    assert_eq!(list.pop_back(), Some(11));
    assert_eq!(collect(&list), vec![3, 4, 5]);
    let mut backwards = Vec::new();
    let mut it = list.iter();
    while let Some(x) = it.next_back() {
        backwards.push(*x);
    }
    assert_eq!(backwards, vec![5, 4, 3]);
}

#[test]
fn interleaved_iteration_over_an_even_list() {
    let mut list: LinkedList<u64> = LinkedList::new();
    for i in 1..=4u64 {
        list.push_back(i);
    }
    let mut it = list.iter();
    assert_eq!(it.next_back(), Some(&4));
    assert_eq!(it.next(), Some(&1));
    assert_eq!(it.next_back(), Some(&3));
    assert_eq!(it.next(), Some(&2));
    assert_eq!(it.next(), None);
    assert_eq!(it.next_back(), None);
}

#[test]
fn iterator_reports_exact_size() {
    let mut list: LinkedList<u64> = LinkedList::new();
    list.push_back(1);
    list.push_back(2);
    list.push_back(3);
    let mut it = list.iter();
    assert_eq!(it.size_hint(), (3, Some(3)));
    it.next();
    assert_eq!(it.size_hint(), (2, Some(2)));
    it.next_back();
    it.next();
    assert_eq!(it.size_hint(), (0, Some(0)));
}

#[test]
fn iterator_last_is_the_back() {
    let mut list: LinkedList<u64> = LinkedList::new();
    assert_eq!(list.iter().last(), None);
    list.push_front(1);
    list.push_front(2);
    assert_eq!(list.iter().last(), Some(&1));
    let mut it = list.iter();
    it.next_back();
    assert_eq!(it.last(), Some(&2));
}

#[test]
fn default_is_empty() {
    let list: LinkedList<u64> = LinkedList::default();
    assert!(list.is_empty());
    assert_eq!(list.len(), 0);
    assert_eq!(list.iter().next(), None);
}
