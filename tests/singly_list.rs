use algorithms::singly::{LinkedList, Node};

fn build(values: &[i32]) -> LinkedList<i32> {
    let mut list = LinkedList::<i32>::new();
    for v in values {
        list.add(*v);
    }
    list
}

fn values_of(list: &LinkedList<i32>) -> Vec<i32> {
    let mut out = Vec::new();
    for i in 0..list.len() {
        out.push(*list.get(i as i32).unwrap());
    }
    out
}

#[test]
fn create_numeric_list() {
    let mut list = LinkedList::<i32>::new();
    list.add(1);
    list.add(2);
    list.add(3);
    assert_eq!(3, list.len());
}

#[test]
fn create_string_list() {
    let mut list_str = LinkedList::<String>::new();
    list_str.add("A".to_string());
    list_str.add("B".to_string());
    list_str.add("C".to_string());
    assert_eq!(3, list_str.len());
}

#[test]
fn test_merge_linked_list_1() {
    let mut list_a = LinkedList::<i32>::new();
    let mut list_b = LinkedList::<i32>::new();
    let vec_a = vec![1, 3, 5, 7];
    let vec_b = vec![2, 4, 6, 8];
    let target_vec = vec![1, 2, 3, 4, 5, 6, 7, 8];
    for i in 0..vec_a.len() {
        list_a.add(vec_a[i]);
    }
    for i in 0..vec_b.len() {
        list_b.add(vec_b[i]);
    }
    let list_c = LinkedList::<i32>::merge(list_a, list_b);
    for i in 0..target_vec.len() {
        assert_eq!(target_vec[i], *list_c.get(i as i32).unwrap());
    }
}

#[test]
fn test_merge_linked_list_2() {
    let mut list_a = LinkedList::<i32>::new();
    let mut list_b = LinkedList::<i32>::new();
    let vec_a = vec![11, 33, 44, 88, 89, 90, 100];
    let vec_b = vec![1, 22, 30, 45];
    let target_vec = vec![1, 11, 22, 30, 33, 44, 45, 88, 89, 90, 100];
    for i in 0..vec_a.len() {
        list_a.add(vec_a[i]);
    }
    for i in 0..vec_b.len() {
        list_b.add(vec_b[i]);
    }
    let list_c = LinkedList::<i32>::merge(list_a, list_b);
    for i in 0..target_vec.len() {
        assert_eq!(target_vec[i], *list_c.get(i as i32).unwrap());
    }
}

#[test]
fn append_three_then_get_each() {
    let list = build(&[1, 2, 3]);
    assert_eq!(list.len(), 3);
    assert_eq!(list.get(0), Some(&1));
    assert_eq!(list.get(1), Some(&2));
    assert_eq!(list.get(2), Some(&3));
}

#[test]
fn get_out_of_range_is_absent() {
    let list = build(&[4, 5]);
    assert_eq!(list.get(2), None);
    assert_eq!(list.get(-1), None);
    assert_eq!(list.get(i32::MAX), None);
    let empty = LinkedList::<i32>::new();
    assert_eq!(empty.get(0), None);
    assert_eq!(empty.len(), 0);
}

#[test]
fn get_raw_only_in_range() {
    let list = build(&[9, 8, 7]);
    assert!(list.get_raw(0).is_some());
    assert!(list.get_raw(2).is_some());
    assert_eq!(list.get_raw(3), None);
    assert_eq!(list.get_raw(-4), None);
}

#[test]
fn push_front_and_back() {
    let mut list = build(&[2]);
    list.push_front(Node::new(1));
    list.push_back(Node::new(3));
    assert_eq!(values_of(&list), vec![1, 2, 3]);
    let mut other = LinkedList::<i32>::new();
    other.push_front(Node::new(5));
    other.add(6);
    assert_eq!(values_of(&other), vec![5, 6]);
}

#[test]
fn insert_at_positions() {
    let mut list = build(&[10, 30]);
    assert!(list.insert(Node::new(20), 1));
    assert!(list.insert(Node::new(0), 0));
    assert!(list.insert(Node::new(40), 4));
    assert_eq!(values_of(&list), vec![0, 10, 20, 30, 40]);
}

#[test]
fn insert_out_of_range_changes_nothing() {
    let mut list = build(&[1, 2]);
    assert!(!list.insert(Node::new(9), 3));
    assert!(!list.insert(Node::new(9), -1));
    assert_eq!(list.len(), 2);
    assert_eq!(values_of(&list), vec![1, 2]);
}

#[test]
fn insert_sorted_keeps_order_and_places_after_smaller() {
    let mut list = build(&[1, 3, 3, 7]);
    list.insert_sorted(Node::new(3));
    list.insert_sorted(Node::new(0));
    list.insert_sorted(Node::new(8));
    list.insert_sorted(Node::new(5));
    assert_eq!(values_of(&list), vec![0, 1, 3, 3, 3, 5, 7, 8]);
    let mut empty = LinkedList::<i32>::new();
    empty.insert_sorted(Node::new(4));
    empty.add(6);
    assert_eq!(values_of(&empty), vec![4, 6]);
}

#[test]
fn take_first_detaches_head() {
    let mut list = build(&[5, 6]);
    assert_eq!(list.take_first(), Some(5));
    assert_eq!(list.take_first(), Some(6));
    assert_eq!(list.take_first(), None);
    assert_eq!(list.len(), 0);
    list.add(7);
    assert_eq!(values_of(&list), vec![7]);
}

#[test]
fn merge_with_duplicates_and_empty_sides() {
    let merged = LinkedList::<i32>::merge(build(&[1, 2, 2, 9]), build(&[2, 3]));
    assert_eq!(values_of(&merged), vec![1, 2, 2, 2, 3, 9]);
    assert_eq!(merged.len(), 6);
    let left_empty = LinkedList::<i32>::merge(LinkedList::new(), build(&[4, 5]));
    assert_eq!(values_of(&left_empty), vec![4, 5]);
    let right_empty = LinkedList::<i32>::merge(build(&[4, 5]), LinkedList::new());
    assert_eq!(values_of(&right_empty), vec![4, 5]);
}
