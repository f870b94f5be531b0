use data_structures::singular::SingularLinkedList;

#[test]
fn test_insert_at_end() {
    let mut list = SingularLinkedList::new();
    list.insert_at_end(1);
    list.insert_at_end(2);
    list.insert_at_end(3);
    assert_eq!(list.to_string(), "[1, 2, 3]");
}

#[test]
fn test_insert_at_beginning() {
    let mut list = SingularLinkedList::new();
    list.insert_at_beginning(10);
    list.insert_at_beginning(20);
    assert_eq!(list.to_string(), "[20, 10]");
}

#[test]
fn test_insert_after_middle() {
    let mut list = SingularLinkedList::new();
    list.insert_at_end(1);
    list.insert_at_end(2);
    list.insert_at_end(3);
    let result = list.insert_after(2, 99);
    println!("{}", list.to_string());
    assert!(result);
    assert_eq!(list.to_string(), "[1, 2, 99, 3]");
}

#[test]
fn test_insert_after_head() {
    let mut list = SingularLinkedList::new();
    list.insert_at_end(1);
    list.insert_at_end(2);
    let result = list.insert_after(1, 42);
    assert!(result);
    assert_eq!(list.to_string(), "[1, 42, 2]");
}

#[test]
fn test_insert_after_nonexistent() {
    let mut list = SingularLinkedList::new();
    list.insert_at_end(1);
    let result = list.insert_after(99, 42);
    assert!(!result);
    assert_eq!(list.to_string(), "[1]");
}

#[test]
fn test_delete_middle_node() {
    let mut list = SingularLinkedList::new();
    list.insert_at_end(1);
    list.insert_at_end(2);
    list.insert_at_end(3);
    list.delete(2);

    println!("{}", list.to_string());
    assert_eq!(list.to_string(), "[1, 3]");
}

#[test]
fn test_delete_head_node() {
    let mut list = SingularLinkedList::new();
    list.insert_at_end(10);
    list.insert_at_end(20);
    list.delete(10);
    assert_eq!(list.to_string(), "[20]");
}

#[test]
fn test_search_found() {
    let mut list = SingularLinkedList::new();
    list.insert_at_end(100);
    list.insert_at_end(200);
    assert!(list.search(200));
}

#[test]
fn test_search_not_found() {
    let mut list = SingularLinkedList::new();
    list.insert_at_end(10);
    assert!(!list.search(99));
}

#[test]
fn test_reverse_list() {
    let mut list = SingularLinkedList::new();
    list.insert_at_end(1);
    list.insert_at_end(2);
    list.insert_at_end(3);
    list.reverse();
    assert_eq!(list.to_string(), "[3, 2, 1]");
}

#[test]
fn test_length_empty() {
    let list = SingularLinkedList::new();
    assert_eq!(list.length(), 0);
}

#[test]
fn test_length_nonempty() {
    let mut list = SingularLinkedList::new();
    list.insert_at_end(1);
    list.insert_at_end(2);
    list.insert_at_end(3);
    assert_eq!(list.length(), 3);
}

#[test]
fn test_display_empty_list() {
    let list = SingularLinkedList::new();
    assert_eq!(list.to_string(), "[\"Empty\"]");
}

#[test]
fn test_iterator_collect() {
    let mut list = SingularLinkedList::new();
    list.insert_at_end(1);
    list.insert_at_end(2);
    list.insert_at_end(3);

    let mut collected = Vec::new();
    let mut iter = list.iter();
    while let Some(value) = iter.next() {
        collected.push(value);
    }
    assert_eq!(collected, vec![1, 2, 3]);
}

#[test]
fn test_values_match_iteration() {
    let mut list = SingularLinkedList::new();
    list.insert_at_end(7);
    list.insert_at_beginning(4);
    assert_eq!(list.values(), vec![4, 7]);
}
