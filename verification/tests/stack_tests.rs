use kvtables::stack::{ArrayStack, LinkedListStack};

#[test]
fn linked_stack_is_last_in_first_out() {
    let mut stack: LinkedListStack<i32> = LinkedListStack::new();
    assert!(stack.is_empty());
    stack.push(1);
    stack.push(3);
    stack.push(2);
    assert_eq!(stack.size(), 3);
    assert_eq!(stack.peek(), Some(2));
    assert_eq!(stack.pop(), Some(2));
    assert_eq!(stack.pop(), Some(3));
    stack.push(5);
    assert_eq!(stack.pop(), Some(5));
    assert_eq!(stack.pop(), Some(1));
    assert_eq!(stack.pop(), None);
    assert!(stack.is_empty());
}

#[test]
fn linked_stack_to_array_lists_bottom_first() {
    let mut stack: LinkedListStack<i32> = LinkedListStack::new();
    stack.push(4);
    stack.push(5);
    stack.push(6);
    stack.pop();
    assert_eq!(stack.to_array(), vec![4, 5]);
}

#[test]
fn array_stack_is_last_in_first_out() {
    let mut stack: ArrayStack<i32> = ArrayStack::new();
    assert!(stack.is_empty());
    stack.push(10);
    stack.push(20);
    assert_eq!(stack.size(), 2);
    assert_eq!(stack.peek(), Some(&20));
    assert_eq!(stack.pop(), Some(20));
    assert_eq!(stack.pop(), Some(10));
    assert_eq!(stack.pop(), None);
    assert_eq!(stack.peek(), None);
}

#[test]
fn array_stack_to_array_lists_bottom_first() {
    let mut stack: ArrayStack<i32> = ArrayStack::new();
    stack.push(1);
    stack.push(2);
    stack.push(3);
    assert_eq!(stack.to_array(), &vec![1, 2, 3]);
}
