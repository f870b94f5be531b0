use data_structures::circular::CircularLinkedList;

/// Walks the ring from the head, following each node's successor until
/// the head comes round again.
fn ring_values(list: &CircularLinkedList) -> Vec<i64> {
    list.values()
}

#[test]
fn test_insert_at_beginning_single_element() {
    let mut list = CircularLinkedList::new();
    list.insert_at_beginning(10);

    assert_eq!(list.length(), 1);

    let values = ring_values(&list);
    assert_eq!(values[0], 10);

    // In a ring of one, the head's successor and predecessor are the head.
    assert_eq!(values.len(), 1);
    assert_eq!(values.first(), values.last());
}

#[test]
fn test_insert_at_beginning_multiple_elements() {
    let mut list = CircularLinkedList::new();
    list.insert_at_beginning(10);
    list.insert_at_beginning(20);
    list.insert_at_beginning(30);

    assert_eq!(list.length(), 3);

    // Expected order: 30 -> 20 -> 10
    let values = ring_values(&list);
    assert_eq!(values, vec![30, 20, 10]);
}

#[test]
fn test_insert_at_end_single_element() {
    let mut list = CircularLinkedList::new();
    list.insert_at_end(5);

    assert_eq!(list.length(), 1);

    let values = ring_values(&list);
    assert_eq!(values[0], 5);
    assert_eq!(values.len(), 1);
    assert_eq!(values.first(), values.last());
}

#[test]
fn test_insert_at_end_multiple_elements() {
    let mut list = CircularLinkedList::new();
    list.insert_at_end(1);
    list.insert_at_end(2);
    list.insert_at_end(3);

    assert_eq!(list.length(), 3);

    // Expected order: 1 -> 2 -> 3
    let values = ring_values(&list);
    assert_eq!(values, vec![1, 2, 3]);
}

#[test]
fn test_insert_after_success() {
    let mut list = CircularLinkedList::new();

    list.insert_at_end(1);
    list.insert_at_end(2);
    list.insert_at_end(3);

    // Insert after node with data 2
    let result = list.insert_after(2, 99);

    assert!(result);
    assert_eq!(list.length(), 4);

    let values = ring_values(&list);
    for value in &values {
        println!("Values: {}", value);
    }
    assert_eq!(values, vec![1, 2, 99, 3]);
}

#[test]
fn test_insert_after_not_found() {
    let mut list = CircularLinkedList::new();

    list.insert_at_end(1);
    list.insert_at_end(2);

    let result = list.insert_after(5, 42);

    assert!(!result);
    assert_eq!(list.length(), 2);
}

#[test]
fn test_insert_after_on_empty_list() {
    let mut list = CircularLinkedList::new();
    let result = list.insert_after(1, 10);
    assert!(!result);
    assert_eq!(list.length(), 0);
}

#[test]
fn test_delete_head() {
    let mut list = CircularLinkedList::new();
    list.insert_at_end(1);
    list.insert_at_end(2);
    list.insert_at_end(3);

    list.delete(1);

    assert_eq!(list.length(), 2);
    let values = ring_values(&list);
    assert_eq!(values, vec![2, 3]);
}

#[test]
fn test_delete_tail() {
    let mut list = CircularLinkedList::new();
    list.insert_at_end(1);
    list.insert_at_end(2);
    list.insert_at_end(3);

    list.delete(3);

    assert_eq!(list.length(), 2);
    let values = ring_values(&list);
    assert_eq!(values, vec![1, 2]);
}

#[test]
fn test_delete_middle() {
    let mut list = CircularLinkedList::new();
    list.insert_at_end(10);
    list.insert_at_end(20);
    list.insert_at_end(30);

    list.delete(20);

    assert_eq!(list.length(), 2);
    let values = ring_values(&list);
    assert_eq!(values, vec![10, 30]);
}

#[test]
fn test_delete_only_element() {
    let mut list = CircularLinkedList::new();
    list.insert_at_end(42);

    list.delete(42);

    assert_eq!(list.length(), 0);
    assert!(list.is_empty());
}

#[test]
fn test_delete_non_existent() {
    let mut list = CircularLinkedList::new();
    list.insert_at_end(1);
    list.insert_at_end(2);
    list.insert_at_end(3);

    list.delete(99);

    assert_eq!(list.length(), 3);
    let values = ring_values(&list);
    assert_eq!(values, vec![1, 2, 3]);
}

#[test]
fn test_reverse_multiple_elements() {
    let mut list = CircularLinkedList::new();
    list.insert_at_end(1);
    list.insert_at_end(2);
    list.insert_at_end(3);

    list.reverse();

    let values = ring_values(&list);
    assert_eq!(values, vec![3, 2, 1]);
}

#[test]
fn test_reverse_single_element() {
    let mut list = CircularLinkedList::new();
    list.insert_at_end(99);
    list.reverse();

    assert_eq!(list.length(), 1);
    let values = ring_values(&list);
    assert_eq!(values[0], 99);
    assert_eq!(values.len(), 1);
    assert_eq!(values.first(), values.last());
}

#[test]
fn test_reverse_empty_list() {
    let mut list = CircularLinkedList::new();
    list.reverse();

    assert!(list.is_empty());
    assert_eq!(list.length(), 0);
}
