use data_structures::double::DoubleLinkedList;

/// Collects the values as a backward (tail-to-head) walk would see them,
/// then reverses so the result matches forward order.
fn collect_backward(list: &DoubleLinkedList) -> Vec<i64> {
    let mut result = list.values_backward();
    result.reverse();
    result
}

#[test]
fn test_insert_at_end_with_prev() {
    let mut list = DoubleLinkedList::new();
    list.insert_at_end(1);
    list.insert_at_end(2);
    list.insert_at_end(3);

    assert_eq!(list.to_string(), "[1, 2, 3]");

    // Backward traversal should yield [1, 2, 3]
    let collected = collect_backward(&list);
    assert_eq!(collected, vec![1, 2, 3]);
}

#[test]
fn test_insert_at_beginning_with_prev() {
    let mut list = DoubleLinkedList::new();
    list.insert_at_end(10);
    list.insert_at_beginning(20);
    list.insert_at_beginning(30);

    assert_eq!(list.to_string(), "[30, 20, 10]");

    let collected = collect_backward(&list);
    assert_eq!(collected, vec![30, 20, 10]);
}

#[test]
fn test_insert_after_preserves_prev_links() {
    let mut list = DoubleLinkedList::new();
    list.insert_at_end(1);
    list.insert_at_end(2);
    list.insert_at_end(3);
    assert!(list.insert_after(2, 99));

    assert_eq!(list.to_string(), "[1, 2, 99, 3]");

    let collected = collect_backward(&list);
    assert_eq!(collected, vec![1, 2, 99, 3]);
}

#[test]
fn test_delete_preserves_prev_links() {
    let mut list = DoubleLinkedList::new();
    list.insert_at_end(1);
    list.insert_at_end(2);
    list.insert_at_end(3);
    list.insert_at_end(4);
    list.delete(3);

    assert_eq!(list.to_string(), "[1, 2, 4]");

    let collected = collect_backward(&list);
    assert_eq!(collected, vec![1, 2, 4]);
}

#[test]
fn test_reverse_preserves_prev_links() {
    let mut list = DoubleLinkedList::new();
    list.insert_at_end(1);
    list.insert_at_end(2);
    list.insert_at_end(3);
    list.reverse();

    assert_eq!(list.to_string(), "[3, 2, 1]");

    let collected = collect_backward(&list);
    assert_eq!(collected, vec![3, 2, 1]);
}

#[test]
fn test_double_search_and_length() {
    let mut list = DoubleLinkedList::new();
    assert_eq!(list.length(), 0);
    list.insert_at_end(5);
    list.insert_at_end(6);
    assert!(list.search(6));
    assert!(!list.search(7));
    assert_eq!(list.length(), 2);

    let mut collected = Vec::new();
    let mut iter = list.iter();
    while let Some(value) = iter.next() {
        collected.push(value);
    }
    assert_eq!(collected, vec![5, 6]);
}
