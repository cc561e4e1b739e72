use algorithms::doubly::{LinkedList, Node};

fn build(values: &[i32]) -> LinkedList<i32> {
    let mut list = LinkedList::<i32>::new();
    for v in values {
        list.add(*v);
    }
    list
}

fn values_of(list: &LinkedList<i32>) -> Vec<i32> {
    let mut out = Vec::new();
    for i in 0..list.len() {
        out.push(*list.get(i as i32).unwrap());
    }
    out
}

#[test]
fn algorithm2_create_numeric_list() {
    let mut list = LinkedList::<i32>::new();
    list.add(1);
    list.add(2);
    list.add(3);
    assert_eq!(3, list.len());
}

#[test]
fn algorithm2_create_string_list() {
    let mut list_str = LinkedList::<String>::new();
    list_str.add("A".to_string());
    list_str.add("B".to_string());
    list_str.add("C".to_string());
    assert_eq!(3, list_str.len());
}

#[test]
fn test_reverse_linked_list_1() {
    let mut list = LinkedList::<i32>::new();
    let original_vec = vec![2, 3, 5, 11, 9, 7];
    let reverse_vec = vec![7, 9, 11, 5, 3, 2];
    for i in 0..original_vec.len() {
        list.add(original_vec[i]);
    }
    list.reverse();
    for i in 0..original_vec.len() {
        assert_eq!(reverse_vec[i], *list.get(i as i32).unwrap());
    }
}

#[test]
fn test_reverse_linked_list_2() {
    let mut list = LinkedList::<i32>::new();
    let original_vec = vec![34, 56, 78, 25, 90, 10, 19, 34, 21, 45];
    let reverse_vec = vec![45, 21, 34, 19, 10, 90, 25, 78, 56, 34];
    for i in 0..original_vec.len() {
        list.add(original_vec[i]);
    }
    list.reverse();
    for i in 0..original_vec.len() {
        assert_eq!(reverse_vec[i], *list.get(i as i32).unwrap());
    }
}

#[test]
fn reverse_twice_restores() {
    let mut list = build(&[1, 2, 3, 4]);
    list.reverse();
    assert_eq!(values_of(&list), vec![4, 3, 2, 1]);
    list.reverse();
    assert_eq!(values_of(&list), vec![1, 2, 3, 4]);
}

#[test]
fn reverse_short_lists_unchanged() {
    let mut empty = LinkedList::<i32>::new();
    empty.reverse();
    assert_eq!(empty.len(), 0);
    let mut one = build(&[42]);
    one.reverse();
    assert_eq!(values_of(&one), vec![42]);
}

#[test]
fn reversed_list_keeps_working() {
    let mut list = build(&[1, 2, 3]);
    list.reverse();
    list.add(0);
    list.push_front(Node::new(4));
    assert!(list.insert(Node::new(9), 2));
    assert_eq!(values_of(&list), vec![4, 3, 9, 2, 1, 0]);
    assert_eq!(list.take_first(), Some(4));
    list.reverse();
    assert_eq!(values_of(&list), vec![0, 1, 2, 9, 3]);
}

#[test]
fn doubly_get_out_of_range() {
    let list = build(&[7, 8]);
    assert_eq!(list.get(1), Some(&8));
    assert_eq!(list.get(2), None);
    assert_eq!(list.get(-3), None);
    assert_eq!(list.get_raw(5), None);
    assert!(list.get_raw(0).is_some());
}

#[test]
fn doubly_insert_sorted_and_take_first() {
    let mut list = build(&[2, 4, 6]);
    list.insert_sorted(Node::new(5));
    list.insert_sorted(Node::new(1));
    list.insert_sorted(Node::new(7));
    assert_eq!(values_of(&list), vec![1, 2, 4, 5, 6, 7]);
    assert!(!list.insert(Node::new(3), 7));
    assert_eq!(list.take_first(), Some(1));
    assert_eq!(values_of(&list), vec![2, 4, 5, 6, 7]);
}
