use sensor_gateway::blocking_buffer::{BlockingBuffer, PopTimeout};

#[test]
fn new_buffer_is_empty() {
    let b = BlockingBuffer::<String>::new(5000);
    assert_eq!(b.size(), 0);
    assert_eq!(b.capacity(), 5000);
    assert_eq!(b.throughput(), 0);
    assert_eq!(b.total_pushed(), 0);
    assert_eq!(b.total_popped(), 0);
}

#[test]
fn buffer_is_first_in_first_out() {
    let mut b = BlockingBuffer::new(10);
    assert!(b.push("thermo-1,20.5".to_string()).is_ok());
    assert!(b.push("accel-1,0.1".to_string()).is_ok());
    assert_eq!(b.size(), 2);
    assert_eq!(b.pop(), Some("thermo-1,20.5".to_string()));
    assert_eq!(b.pop(), Some("accel-1,0.1".to_string()));
    assert_eq!(b.pop(), None);
}

#[test]
fn full_buffer_hands_the_item_back() {
    let mut b = BlockingBuffer::new(2);
    assert!(b.push(1u32).is_ok());
    assert!(b.push(2u32).is_ok());
    assert_eq!(b.push(3u32), Err(3));
    assert_eq!(b.size(), 2);
    assert_eq!(b.total_pushed(), 2);
    assert_eq!(b.pop(), Some(1));
    assert!(b.push(3u32).is_ok());
    assert_eq!(b.pop(), Some(2));
    assert_eq!(b.pop(), Some(3));
}

#[test]
fn zero_capacity_buffer_takes_nothing() {
    let mut b = BlockingBuffer::new(0);
    assert_eq!(b.push(1u32), Err(1));
    assert_eq!(b.size(), 0);
}

#[test]
fn counters_conserve_items() {
    let mut b = BlockingBuffer::new(100);
    for v in 0u32..30 {
        assert!(b.push(v).is_ok());
    }
    for _ in 0..12 {
        assert!(b.pop().is_some());
    }
    assert_eq!(b.total_pushed(), 30);
    assert_eq!(b.total_popped(), 12);
    assert_eq!(b.throughput(), 12);
    assert_eq!(b.size(), 18);
    assert_eq!(b.total_pushed(), b.total_popped() + b.size());
}

#[test]
fn pop_timeout_takes_an_item() {
    let mut b = BlockingBuffer::new(4);
    assert!(b.push(8u32).is_ok());
    match b.pop_timeout(10_000_000, 99_000_000, true) {
        PopTimeout::Item(v) => assert_eq!(v, 8),
        other => panic!("expected an item, got {:?}", other),
    }
    assert_eq!(b.total_popped(), 1);
}

#[test]
fn pop_timeout_waits_for_what_is_left() {
    let mut b = BlockingBuffer::<u32>::new(4);
    match b.pop_timeout(10_000_000, 3_000_000, false) {
        PopTimeout::Wait(n) => assert_eq!(n, 7_000_000),
        other => panic!("expected a wait, got {:?}", other),
    }
    match b.pop_timeout(10_000_000, 10_000_000, false) {
        PopTimeout::Wait(n) => assert_eq!(n, 0),
        other => panic!("expected a wait, got {:?}", other),
    }
}

#[test]
fn pop_timeout_ends_when_time_is_up() {
    let mut b = BlockingBuffer::<u32>::new(4);
    assert!(matches!(b.pop_timeout(10_000_000, 10_000_001, false), PopTimeout::TimedOut));
    assert!(matches!(b.pop_timeout(10_000_000, 5, true), PopTimeout::TimedOut));
    assert_eq!(b.total_popped(), 0);
}

#[test]
fn counters_follow_the_steps_that_took_effect() {
    let mut b = BlockingBuffer::new(2);
    let mut pushes = 0;
    let mut pops = 0;
    for v in 0u32..5 {
        if b.push(v).is_ok() {
            pushes += 1;
        }
    }
    for _ in 0..4 {
        if b.pop().is_some() {
            pops += 1;
        }
    }
    if let PopTimeout::Item(_) = b.pop_timeout(10, 0, false) {
        pops += 1;
    }
    assert_eq!(pushes, 2);
    assert_eq!(pops, 2);
    assert_eq!(b.total_pushed(), pushes);
    assert_eq!(b.total_popped(), pops);
    assert_eq!(b.capacity(), 2);
}
