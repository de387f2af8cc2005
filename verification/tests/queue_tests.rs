use kvtables::queue::{ArrayQueue, LinkedListQueue, ListNode};

#[test]
fn linked_queue_is_first_in_first_out() {
    let mut queue: LinkedListQueue<i32> = LinkedListQueue::new();
    assert!(queue.is_empty());
    queue.push(1);
    queue.push(3);
    queue.push(2);
    assert_eq!(queue.size(), 3);
    assert_eq!(queue.peek(), Some(1));
    assert_eq!(queue.pop(), Some(1));
    assert_eq!(queue.pop(), Some(3));
    queue.push(5);
    assert_eq!(queue.pop(), Some(2));
    assert_eq!(queue.pop(), Some(5));
    assert_eq!(queue.pop(), None);
    assert!(queue.is_empty());
}

#[test]
fn linked_queue_to_array_lists_front_first() {
    let mut queue: LinkedListQueue<i32> = LinkedListQueue::new();
    queue.push(4);
    queue.push(5);
    queue.push(6);
    queue.pop();
    assert_eq!(queue.to_array(), vec![5, 6]);
}

#[test]
fn fresh_node_is_unlinked() {
    let node = ListNode::new(9);
    assert_eq!(node.elem_value(), 9);
    assert_eq!(node.next_index(), None);
}

#[test]
fn array_queue_wraps_around_its_ring() {
    let mut queue: ArrayQueue<i32> = ArrayQueue::new(3);
    assert_eq!(queue.capacity(), 3);
    assert!(queue.push(1));
    assert!(queue.push(2));
    assert!(queue.push(3));
    // Full: the next element is refused.
    assert!(!queue.push(4));
    assert_eq!(queue.pop(), Some(1));
    // The freed cell is reused past the end of the ring.
    assert!(queue.push(4));
    assert_eq!(queue.to_array(), vec![2, 3, 4]);
    assert_eq!(queue.pop(), Some(2));
    assert_eq!(queue.pop(), Some(3));
    assert_eq!(queue.pop(), Some(4));
    assert_eq!(queue.pop(), None);
    assert!(queue.is_empty());
}

#[test]
fn array_queue_with_zero_capacity_is_always_full() {
    let mut queue: ArrayQueue<i32> = ArrayQueue::new(0);
    assert_eq!(queue.capacity(), 0);
    assert!(queue.is_empty());
    assert!(!queue.push(1));
    assert_eq!(queue.pop(), None);
    assert_eq!(queue.peek(), None);
    assert_eq!(queue.to_array(), Vec::<i32>::new());
}

#[test]
fn array_queue_peek_reads_the_front() {
    let mut queue: ArrayQueue<i32> = ArrayQueue::new(2);
    assert_eq!(queue.peek(), None);
    queue.push(7);
    queue.push(8);
    assert_eq!(queue.peek(), Some(7));
    assert_eq!(queue.size(), 2);
}
