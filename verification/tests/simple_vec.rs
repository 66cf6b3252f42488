use arena_alloc::simple_vec::{Vec, INITIAL_SIZE};

#[test]
fn new_buffer_is_empty_and_has_no_storage() {
    let v: Vec<u32> = Vec::new();
    assert_eq!(v.len(), 0);
    assert_eq!(v.capacity, 0);
    assert_eq!(v.deref(), &[] as &[u32]);
}

#[test]
fn first_push_takes_storage_for_sixteen() {
    assert_eq!(INITIAL_SIZE, 16);
    let mut v: Vec<u32> = Vec::new();
    v.push(7);
    assert_eq!(v.len(), 1);
    assert_eq!(v.capacity, 16);
    assert_eq!(*v.index(0), 7);
}

#[test]
fn full_buffer_grows_by_half() {
    let mut v: Vec<usize> = Vec::new();
    let mut capacities = std::vec::Vec::new();
    for i in 0..60 {
        v.push(i * 3);
        assert_eq!(v.len(), i + 1);
        capacities.push(v.capacity);
    }
    for (i, capacity) in capacities.iter().enumerate() {
        let expected = if i < 16 {
            16
        } else if i < 24 {
            24
        } else if i < 36 {
            36
        } else if i < 54 {
            54
        } else {
            81
        };
        assert_eq!(*capacity, expected);
    }
    let expected: std::vec::Vec<usize> = (0..60).map(|i| i * 3).collect();
    assert_eq!(v.deref(), expected.as_slice());
    assert!(v.items.capacity() >= v.capacity);
}

#[test]
fn clear_drops_the_items_and_keeps_the_capacity() {
    let mut v: Vec<String> = Vec::new();
    for i in 0..17 {
        v.push(format!("item {}", i));
    }
    assert_eq!(v.capacity, 24);
    v.clear();
    assert_eq!(v.len(), 0);
    assert_eq!(v.capacity, 24);
    v.push(String::from("again"));
    assert_eq!(v.len(), 1);
    assert_eq!(v.capacity, 24);
    assert_eq!(v.index(0), "again");
}

#[test]
fn items_can_be_changed_in_place() {
    let mut v: Vec<i64> = Vec::new();
    for i in 0..5 {
        v.push(i);
    }
    *v.index_mut(2) = 20;
    v.deref_mut()[4] = 40;
    assert_eq!(v.deref(), &[0, 1, 20, 3, 40]);
    assert_eq!(v.capacity, 16);
}
