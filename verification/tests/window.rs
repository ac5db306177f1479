use sensor_gateway::window::{window_step, WindowBook, WindowStep};

#[test]
fn empty_book() {
    let book = WindowBook::<u32>::new();
    assert!(book.is_empty());
    assert!(book.into_entries().is_empty());
}

#[test]
fn readings_grouped_by_sensor_in_arrival_order() {
    let mut book = WindowBook::new();
    book.add("thermo-1".to_string(), 1u32);
    book.add("accel-1".to_string(), 2u32);
    book.add("thermo-1".to_string(), 3u32);
    book.add("force-1".to_string(), 4u32);
    book.add("accel-1".to_string(), 5u32);
    assert!(!book.is_empty());
    let entries = book.into_entries();
    assert_eq!(
        entries,
        vec![
            ("thermo-1".to_string(), vec![1, 3]),
            ("accel-1".to_string(), vec![2, 5]),
            ("force-1".to_string(), vec![4]),
        ]
    );
}

#[test]
fn every_reading_lands_in_one_window() {
    let mut book = WindowBook::new();
    for i in 0u32..50 {
        book.add(format!("s{}", i % 3), i);
    }
    let entries = book.into_entries();
    assert_eq!(entries.len(), 3);
    let total: usize = entries.iter().map(|(_, v)| v.len()).sum();
    assert_eq!(total, 50);
}

#[test]
fn window_collects_while_running_and_open() {
    assert_eq!(window_step(5, 10, true), WindowStep::Collect);
    assert_eq!(window_step(10, 10, true), WindowStep::Close);
    assert_eq!(window_step(5, 10, false), WindowStep::Close);
}
