use kvtables::list::{ListError, MyList};

#[test]
fn grows_past_its_initial_capacity() {
    let mut list = MyList::new(2);
    list.add(10);
    list.add(20);
    list.add(30);
    assert_eq!(list.size(), 3);
    assert_eq!(list.get(0), Ok(10));
    assert_eq!(list.get(1), Ok(20));
    assert_eq!(list.get(2), Ok(30));
}

#[test]
fn set_updates_in_range_only() {
    let mut list = MyList::new(4);
    list.add(1);
    list.add(2);
    assert_eq!(list.set(1, 22), Ok(()));
    assert_eq!(list.get(1), Ok(22));
    assert_eq!(list.set(2, 33), Err(ListError::IndexOutOfBounds));
    assert_eq!(list.size(), 2);
}

#[test]
fn insert_shifts_later_elements_back() {
    let mut list = MyList::new(4);
    list.add(1);
    list.add(2);
    list.add(4);
    assert_eq!(list.insert(2, 3), Ok(()));
    assert_eq!(list.to_array(), vec![1, 2, 3, 4]);
    assert_eq!(list.insert(9, 0), Err(ListError::IndexOutOfBounds));
}

#[test]
fn remove_shifts_later_elements_forward() {
    let mut list = MyList::new(4);
    list.add(5);
    list.add(6);
    list.add(7);
    assert_eq!(list.remove(1), Ok(6));
    assert_eq!(list.to_array(), vec![5, 7]);
    assert_eq!(list.remove(5), Err(ListError::IndexOutOfBounds));
}

#[test]
fn out_of_range_reads_are_errors() {
    let list = MyList::new(3);
    assert_eq!(list.get(0), Err(ListError::IndexOutOfBounds));
}

#[test]
fn extend_capacity_keeps_elements() {
    let mut list = MyList::new(2);
    list.add(8);
    list.add(9);
    list.extend_capacity();
    assert_eq!(list.to_array(), vec![8, 9]);
    list.add(10);
    assert_eq!(list.to_array(), vec![8, 9, 10]);
}
