use doubly_linked_list::{DoublyLinkedList, NodeHandle};

fn forward(list: &DoublyLinkedList<i32>) -> Vec<i32> {
    let mut out = Vec::new();
    let mut it = list.iter();
    while let Some(v) = it.next() {
        out.push(*v);
    }
    out
}

fn backward(list: &DoublyLinkedList<i32>) -> Vec<i32> {
    let mut out = Vec::new();
    let mut it = list.iter();
    while let Some(v) = it.next_back() {
        out.push(*v);
    }
    out
}

fn build(values: &[i32]) -> DoublyLinkedList<i32> {
    let mut list = DoublyLinkedList::new();
    for v in values {
        list.append(*v);
    }
    list
}

fn handle_of(list: &DoublyLinkedList<i32>, v: i32) -> NodeHandle {
    list.find(v).expect("value should be present")
}

#[test]
fn append_then_iterate_keeps_order() {
    let list = build(&[1, 2, 3, 4, 5]);
    assert_eq!(forward(&list), vec![1, 2, 3, 4, 5]);
    assert_eq!(backward(&list), vec![5, 4, 3, 2, 1]);
}

#[test]
fn scenario_remove_down_to_empty() {
    let mut list = build(&[1, 2, 3]);
    assert_eq!(forward(&list), vec![1, 2, 3]);
    let h = handle_of(&list, 2);
    list.remove(h);
    assert_eq!(forward(&list), vec![1, 3]);
    let h = handle_of(&list, 1);
    list.remove(h);
    assert_eq!(forward(&list), vec![3]);
    let h = handle_of(&list, 3);
    list.remove(h);
    assert_eq!(forward(&list), Vec::<i32>::new());
    assert!(list.is_empty());
}

#[test]
fn empty_list_finds_nothing_and_yields_nothing() {
    let list: DoublyLinkedList<i32> = DoublyLinkedList::new();
    assert!(list.find(0).is_none());
    assert!(list.find(42).is_none());
    assert!(list.find(-7).is_none());
    assert_eq!(forward(&list), Vec::<i32>::new());
    assert_eq!(backward(&list), Vec::<i32>::new());
    assert!(list.is_empty());
}

#[test]
fn find_returns_first_of_equal_values() {
    let mut list = build(&[5, 3, 5, 1]);
    let h = handle_of(&list, 5);
    list.remove(h);
    assert_eq!(forward(&list), vec![3, 5, 1]);
    let h2 = handle_of(&list, 5);
    assert_ne!(h, h2);
    list.remove(h2);
    assert_eq!(forward(&list), vec![3, 1]);
}

#[test]
fn removing_sole_element_empties_list() {
    let mut list = build(&[9]);
    let h = handle_of(&list, 9);
    list.remove(h);
    assert!(list.is_empty());
    assert!(list.find(9).is_none());
    assert!(list.find(0).is_none());
    assert_eq!(backward(&list), Vec::<i32>::new());
}

#[test]
fn remove_head_of_many() {
    let mut list = build(&[1, 2, 3, 4]);
    list.remove(handle_of(&list, 1));
    assert_eq!(forward(&list), vec![2, 3, 4]);
    assert_eq!(backward(&list), vec![4, 3, 2]);
}

#[test]
fn remove_tail_of_many() {
    let mut list = build(&[1, 2, 3, 4]);
    list.remove(handle_of(&list, 4));
    assert_eq!(forward(&list), vec![1, 2, 3]);
    assert_eq!(backward(&list), vec![3, 2, 1]);
    list.append(7);
    assert_eq!(forward(&list), vec![1, 2, 3, 7]);
    assert_eq!(backward(&list), vec![7, 3, 2, 1]);
}

#[test]
fn remove_interior_keeps_both_directions() {
    let mut list = build(&[1, 2, 3, 4, 5]);
    list.remove(handle_of(&list, 3));
    assert_eq!(forward(&list), vec![1, 2, 4, 5]);
    assert_eq!(backward(&list), vec![5, 4, 2, 1]);
    list.remove(handle_of(&list, 4));
    assert_eq!(forward(&list), vec![1, 2, 5]);
    assert_eq!(backward(&list), vec![5, 2, 1]);
}

#[test]
fn removing_k_of_n_keeps_survivors_in_order() {
    let mut list = build(&[10, 20, 30, 40, 50, 60]);
    for v in [40, 10, 60] {
        list.remove(handle_of(&list, v));
    }
    assert_eq!(forward(&list), vec![20, 30, 50]);
    assert_eq!(backward(&list), vec![50, 30, 20]);
}

#[test]
fn removed_handle_names_nothing_even_after_slot_reuse() {
    let mut list = build(&[1, 2, 3]);
    let h = handle_of(&list, 2);
    assert!(list.contains(h));
    assert_eq!(list.get(h), Some(&2));
    list.remove(h);
    assert!(!list.contains(h));
    assert_eq!(list.get(h), None);
    list.append(8);
    let h8 = handle_of(&list, 8);
    assert_ne!(h, h8);
    assert!(!list.contains(h));
    assert_eq!(list.get(h8), Some(&8));
    assert_eq!(forward(&list), vec![1, 3, 8]);
    assert_eq!(backward(&list), vec![8, 3, 1]);
}

#[test]
fn iteration_never_yields_removed_value() {
    let mut list = build(&[4, 5, 6, 7]);
    list.remove(handle_of(&list, 6));
    assert!(!forward(&list).contains(&6));
    assert!(!backward(&list).contains(&6));
    assert!(list.find(6).is_none());
}

#[test]
fn iterator_ends_meet_in_the_middle() {
    let list = build(&[1, 2, 3, 4]);
    let mut it = list.iter();
    assert_eq!(it.next(), Some(&1));
    assert_eq!(it.next_back(), Some(&4));
    assert_eq!(it.next(), Some(&2));
    assert_eq!(it.next_back(), Some(&3));
    assert_eq!(it.next(), None);
    assert_eq!(it.next_back(), None);
}

#[test]
fn owning_iterator_hands_out_values_in_order() {
    let list = build(&[3, 1, 2]);
    let mut it = list.into_iter();
    assert_eq!(it.next(), Some(3));
    assert_eq!(it.next(), Some(1));
    assert_eq!(it.next(), Some(2));
    assert_eq!(it.next(), None);
}

#[test]
fn pop_front_takes_head_value() {
    let mut list = build(&[7, 8]);
    assert_eq!(list.pop_front(), Some(7));
    assert_eq!(forward(&list), vec![8]);
    assert_eq!(list.pop_front(), Some(8));
    assert_eq!(list.pop_front(), None);
    assert!(list.is_empty());
}

#[test]
fn works_with_string_values() {
    let mut list: DoublyLinkedList<String> = DoublyLinkedList::new();
    list.append("a".to_string());
    list.append("b".to_string());
    list.append("a".to_string());
    let h = list.find("a".to_string()).unwrap();
    list.remove(h);
    let mut it = list.iter();
    assert_eq!(it.next().map(|s| s.as_str()), Some("b"));
    assert_eq!(it.next().map(|s| s.as_str()), Some("a"));
    assert_eq!(it.next(), None);
}
