use data_structures::stack::LinkedListStack;
use data_structures::vector::Vector;

#[test]
fn basics() {
    let mut my_vec = Vector::new();
    println!("{}", my_vec.to_string());

    for i in 0..10 {
        my_vec.insert(i);
    }

    my_vec.set(5, 100);
    println!("{}", my_vec.to_string());
    my_vec.remove(6);
    println!("{}", my_vec.get(5));
    println!("{}", my_vec.to_string());

    match my_vec.find(9) {
        Some(index) => println!("Found at index {}", index),
        None => println!("Not found"),
    }
}

#[test]
fn vector_tracks_size_and_contents() {
    let mut v = Vector::new();
    assert_eq!(v.size(), 0);
    assert_eq!(v.capacity(), 1);
    assert_eq!(v.to_string(), "[]");

    for i in 0..4 {
        v.insert(i * 10);
    }
    assert_eq!(v.size(), 4);
    assert!(v.capacity() >= 4);
    assert_eq!(v.to_string(), "[0, 10, 20, 30]");

    v.set(2, -7);
    assert_eq!(v.get(2), -7);
    assert_eq!(v.to_string(), "[0, 10, -7, 30]");

    v.remove(1);
    assert_eq!(v.size(), 3);
    assert_eq!(v.to_string(), "[0, -7, 30]");

    assert_eq!(v.find(-7), Some(1));
    assert_eq!(v.find(10), None);
}

#[test]
fn stack_push_pop_order() {
    let mut stack = LinkedListStack::new();
    assert!(stack.is_empty());
    assert_eq!(stack.size(), 0);
    assert_eq!(stack.pop(), None::<i64>);

    stack.push(1);
    stack.push(2);
    stack.push(3);
    assert_eq!(stack.size(), 3);
    assert!(!stack.is_empty());
    assert_eq!(stack.peek(), Some(&3));

    assert_eq!(stack.pop(), Some(3));
    assert_eq!(stack.pop(), Some(2));
    assert_eq!(stack.pop(), Some(1));
    assert_eq!(stack.pop(), None);
    assert!(stack.is_empty());
}

#[test]
fn stack_holds_other_types() {
    let mut stack = LinkedListStack::new();
    stack.push("bottom");
    stack.push("top");
    assert_eq!(stack.peek(), Some(&"top"));
    assert_eq!(stack.pop(), Some("top"));
    assert_eq!(stack.pop(), Some("bottom"));
}
