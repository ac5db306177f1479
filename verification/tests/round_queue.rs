use sensor_gateway::power_of_two::is_power_of_two;
use sensor_gateway::round_queue::{QueueError, RWRoundQueue};

#[test]
fn power_of_two_checks() {
    assert!(is_power_of_two(1));
    assert!(is_power_of_two(2));
    assert!(is_power_of_two(1024));
    assert!(!is_power_of_two(0));
    assert!(!is_power_of_two(3));
    assert!(!is_power_of_two(6));
    assert!(!is_power_of_two(1000));
}

#[test]
fn new_rejects_zero_capacity() {
    let r = RWRoundQueue::<u32>::new(0);
    assert!(matches!(r, Err(QueueError::ZeroCapacity)));
}

#[test]
fn new_rejects_capacity_not_power_of_two() {
    let r = RWRoundQueue::<u32>::new(12);
    assert!(matches!(r, Err(QueueError::NotPowerOfTwo)));
}

#[test]
fn new_queue_is_empty() {
    let q = RWRoundQueue::<u32>::new(8).ok().unwrap();
    assert_eq!(q.capacity(), 8);
    assert_eq!(q.len(), 0);
    assert!(q.is_empty());
    assert!(q.acquire_read_ptr().is_none());
}

#[test]
fn reads_come_out_in_write_order() {
    let mut q = RWRoundQueue::new(8).ok().unwrap();
    assert!(!q.write_overwrite(10u32));
    assert!(!q.write_overwrite(20u32));
    assert!(!q.write_overwrite(30u32));
    assert_eq!(q.len(), 3);
    assert_eq!(q.try_read(), Some(10));
    assert_eq!(q.try_read(), Some(20));
    assert_eq!(q.try_read(), Some(30));
    assert_eq!(q.try_read(), None);
    assert!(q.is_empty());
}

#[test]
fn queue_holds_one_less_than_capacity() {
    let mut q = RWRoundQueue::new(4).ok().unwrap();
    assert!(!q.write_overwrite(1u32));
    assert!(!q.write_overwrite(2u32));
    assert!(!q.write_overwrite(3u32));
    assert_eq!(q.len(), 3);
    // Full: the next write drops the oldest item.
    assert!(q.write_overwrite(4u32));
    assert_eq!(q.len(), 3);
    assert!(q.write_overwrite(5u32));
    assert_eq!(q.try_read(), Some(3));
    assert_eq!(q.try_read(), Some(4));
    assert_eq!(q.try_read(), Some(5));
    assert_eq!(q.try_read(), None);
}

#[test]
fn queue_keeps_newest_after_many_writes() {
    let mut q = RWRoundQueue::new(8).ok().unwrap();
    for v in 0u32..20 {
        q.write_overwrite(v);
    }
    assert_eq!(q.len(), 7);
    let mut out = Vec::new();
    while let Some(v) = q.try_read() {
        out.push(v);
    }
    assert_eq!(out, vec![13, 14, 15, 16, 17, 18, 19]);
}

#[test]
fn capacity_one_keeps_nothing() {
    let mut q = RWRoundQueue::new(1).ok().unwrap();
    assert!(q.write_overwrite(7u32));
    assert_eq!(q.len(), 0);
    assert_eq!(q.try_read(), None);
}

#[test]
fn write_into_empty_then_read() {
    let mut q = RWRoundQueue::new(2).ok().unwrap();
    assert!(!q.write_overwrite(42u32));
    assert_eq!(q.try_read(), Some(42));
}

#[test]
fn wrap_around_keeps_length() {
    let mut q = RWRoundQueue::new(4).ok().unwrap();
    for round in 0u32..10 {
        assert!(!q.write_overwrite(round));
        assert!(!q.write_overwrite(round + 100));
        assert_eq!(q.len(), 2);
        assert_eq!(q.try_read(), Some(round));
        assert_eq!(q.try_read(), Some(round + 100));
        assert_eq!(q.len(), 0);
    }
}

#[test]
fn peek_then_commit_read() {
    let mut q = RWRoundQueue::new(4).ok().unwrap();
    q.write_overwrite(String::from("a"));
    q.write_overwrite(String::from("b"));
    assert_eq!(q.acquire_read_ptr().map(|s| s.clone()), Some(String::from("a")));
    assert_eq!(q.len(), 2);
    q.commit_read();
    assert_eq!(q.acquire_read_ptr().map(|s| s.clone()), Some(String::from("b")));
    assert_eq!(q.len(), 1);
}

#[test]
fn acquire_write_then_commit() {
    let mut q = RWRoundQueue::new(2).ok().unwrap();
    let was_full = match q.acquire_write_ptr() {
        Some((slot, full)) => {
            *slot = Some(5u32);
            full
        }
        None => panic!("a write slot is always there"),
    };
    assert!(!was_full);
    q.commit_write(was_full);
    assert_eq!(q.len(), 1);
    let was_full = match q.acquire_write_ptr() {
        Some((slot, full)) => {
            *slot = Some(6u32);
            full
        }
        None => panic!("a write slot is always there"),
    };
    assert!(was_full);
    q.commit_write(was_full);
    assert_eq!(q.len(), 1);
    assert_eq!(q.try_read(), Some(6));
}

#[test]
fn split_ends_share_the_queue() {
    let mut q = RWRoundQueue::new(16).ok().unwrap();
    let (reader, mut writer) = q.split();
    assert_eq!(writer.capacity(), 16);
    for v in 1u32..=5 {
        assert!(!writer.write(&mut q, v));
    }
    assert_eq!(reader.len(&q), 5);
    assert!(!reader.is_empty(&q));
    assert_eq!(reader.read(&mut q), Some(1));
    assert_eq!(reader.read_batch(&mut q, 2), vec![2, 3]);
    assert_eq!(reader.read_batch(&mut q, 10), vec![4, 5]);
    assert_eq!(reader.read_batch(&mut q, 10), Vec::<u32>::new());
    assert!(reader.is_empty(&q));
    assert_eq!(reader.read(&mut q), None);
}

#[test]
fn writer_acquire_and_commit() {
    let mut q = RWRoundQueue::new(4).ok().unwrap();
    let (reader, mut writer) = q.split();
    let was_full = match writer.acquire_ptr(&mut q) {
        Some((slot, full)) => {
            *slot = Some(9u32);
            full
        }
        None => panic!("a write slot is always there"),
    };
    writer.commit(&mut q, was_full);
    assert_eq!(reader.read(&mut q), Some(9));
}

#[test]
fn capacity_stays_after_any_run() {
    let mut q = RWRoundQueue::new(4).ok().unwrap();
    for v in 0u32..9 {
        q.write_overwrite(v);
        if v % 3 == 0 {
            q.try_read();
        }
        assert_eq!(q.capacity(), 4);
        assert!(q.len() < 4);
    }
}
