use ring_buffer::{Full, InvalidCapacity, RingBuffer};

#[test]
fn newly_create_buffer_is_empty() {
    let mut r = RingBuffer::<i32>::new(5);
    assert!(r.is_empty());
}

#[test]
fn push_one_object() {
    let mut r = RingBuffer::<i32>::new(5);
    match r.push(42) {
        Ok(_) => assert!(!r.is_empty()),
        Err(Full) => assert!(false),
    }
}

#[test]
fn push_pull_one_object() {
    let mut r = RingBuffer::<i32>::new(5);
    let _ = r.push(1312);
    match r.pull() {
        Some(item) => {
            assert_eq!(item, 1312);
            assert!(r.is_empty())
        }
        None => assert!(false),
    }
}

#[test]
fn push_all_storage() {
    let mut r = RingBuffer::<i32>::new(5);
    let _ = r.push(13);
    let _ = r.push(12);
    let _ = r.push(13);
    let _ = r.push(12);
    match r.push(666) {
        Ok(_) => assert!(true),
        Err(Full) => assert!(false),
    }
    match r.push(42) {
        Ok(_) => assert!(false),
        Err(Full) => assert!(r.is_full()),
    }
}

#[test]
fn ring_it_once() {
    let mut r = RingBuffer::<i32>::new(5);
    let _ = r.push(13);
    let _ = r.push(12);
    let _ = r.push(42);
    let _ = r.push(64);
    match r.push(666) {
        Ok(_) => assert!(true),
        Err(Full) => assert!(false),
    }

    assert!(r.is_full());

    match r.pull() {
        Some(item) => assert_eq!(item, 13),
        None => assert!(false),
    }
    match r.pull() {
        Some(item) => assert_eq!(item, 12),
        None => assert!(false),
    }

    assert!(!r.is_full());
    assert!(!r.is_empty());

    let _ = r.push(7);
    match r.pull() {
        Some(item) => assert_eq!(item, 42),
        None => assert!(false),
    }
    match r.pull() {
        Some(item) => assert_eq!(item, 64),
        None => assert!(false),
    }
    match r.pull() {
        Some(item) => assert_eq!(item, 666),
        None => assert!(false),
    }
    match r.pull() {
        Some(item) => assert_eq!(item, 7),
        None => assert!(false),
    }
    assert!(r.is_empty());
}

#[test]
fn fresh_buffer_empty_not_full_many_capacities() {
    for capacity in [1usize, 2, 3, 5, 64] {
        let mut r = RingBuffer::<i32>::new(capacity);
        assert!(r.is_empty());
        assert!(!r.is_full());
        assert_eq!(r.pull(), None);
    }
}

#[test]
fn capacity_pushes_succeed_then_full() {
    let capacity = 4;
    let mut r = RingBuffer::<i32>::new(capacity);
    for i in 0..capacity as i32 {
        assert!(r.push(i).is_ok());
    }
    assert!(r.is_full());
    match r.push(99) {
        Ok(_) => assert!(false),
        Err(Full) => assert!(r.is_full()),
    }
    for i in 0..capacity as i32 {
        assert_eq!(r.pull(), Some(i));
    }
    assert!(r.is_empty());
}

#[test]
fn fifo_order_preserved() {
    let mut r = RingBuffer::<i32>::new(5);
    for v in [10, 20, 30] {
        assert!(r.push(v).is_ok());
    }
    assert_eq!(r.pull(), Some(10));
    assert_eq!(r.pull(), Some(20));
    assert_eq!(r.pull(), Some(30));
    assert!(r.is_empty());
}

#[test]
fn push_pull_round_trip_restores_empty() {
    let mut r = RingBuffer::<i32>::new(3);
    assert!(r.push(7).is_ok());
    assert_eq!(r.pull(), Some(7));
    assert!(r.is_empty());
    assert!(!r.is_full());
}

#[test]
fn wrap_around_keeps_fifo_order() {
    let mut r = RingBuffer::<i32>::new(3);
    for v in [1, 2, 3] {
        assert!(r.push(v).is_ok());
    }
    assert!(r.is_full());
    assert_eq!(r.pull(), Some(1));
    assert_eq!(r.pull(), Some(2));
    assert!(r.push(4).is_ok());
    assert!(r.push(5).is_ok());
    assert!(r.is_full());
    assert_eq!(r.pull(), Some(3));
    assert_eq!(r.pull(), Some(4));
    assert_eq!(r.pull(), Some(5));
    assert!(r.is_empty());
}

#[test]
fn empty_and_full_never_both() {
    let mut r = RingBuffer::<i32>::new(2);
    let mut states = 0;
    loop {
        let empty = r.is_empty();
        let full = r.is_full();
        assert!(!(empty && full));
        let partially = !empty && !full;
        let flags = [empty, full, partially];
        assert_eq!(flags.iter().filter(|&&f| f).count(), 1);
        if full {
            break;
        }
        assert!(r.push(states).is_ok());
        states += 1;
    }
    assert_eq!(states, 2);
}

#[test]
fn try_new_rejects_zero_capacity() {
    match RingBuffer::<i32>::try_new(0) {
        Ok(_) => assert!(false),
        Err(InvalidCapacity) => assert!(true),
    }
}

#[test]
fn try_new_accepts_positive_capacity() {
    match RingBuffer::<i32>::try_new(1) {
        Ok(mut r) => {
            assert!(r.is_empty());
            assert!(r.push(5).is_ok());
            assert!(r.is_full());
            assert_eq!(r.pull(), Some(5));
        }
        Err(InvalidCapacity) => assert!(false),
    }
}

#[test]
fn next_index_wraps_at_capacity() {
    let r = RingBuffer::<i32>::new(5);
    assert_eq!(r.next_index(0), 1);
    assert_eq!(r.next_index(3), 4);
    assert_eq!(r.next_index(4), 0);
    let one = RingBuffer::<i32>::new(1);
    assert_eq!(one.next_index(0), 0);
}

#[test]
fn capacity_one_alternates_empty_and_full() {
    let mut r = RingBuffer::<i32>::new(1);
    assert!(r.is_empty());
    assert!(r.push(8).is_ok());
    assert!(r.is_full());
    match r.push(9) {
        Ok(_) => assert!(false),
        Err(Full) => assert!(true),
    }
    assert_eq!(r.pull(), Some(8));
    assert!(r.is_empty());
    assert!(r.push(10).is_ok());
    assert_eq!(r.pull(), Some(10));
}

#[test]
fn moves_owned_values_through() {
    let mut r = RingBuffer::<String>::new(2);
    assert!(r.push(String::from("first")).is_ok());
    assert!(r.push(String::from("second")).is_ok());
    assert_eq!(r.pull(), Some(String::from("first")));
    assert_eq!(r.pull(), Some(String::from("second")));
    assert_eq!(r.pull(), None);
}
