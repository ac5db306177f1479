use sensor_gateway::history::{take_last, take_newest_first};

fn lines(n: usize) -> Vec<String> {
    (1..=n).map(|i| format!("line-{}", i)).collect()
}

#[test]
fn last_lines_oldest_first() {
    assert_eq!(take_last(&lines(5), 2), vec!["line-4", "line-5"]);
    assert_eq!(take_last(&lines(3), 10), lines(3));
    assert_eq!(take_last(&lines(3), 0), Vec::<String>::new());
    assert_eq!(take_last(&Vec::new(), 4), Vec::<String>::new());
}

#[test]
fn last_lines_newest_first() {
    assert_eq!(take_newest_first(&lines(5), 2), vec!["line-5", "line-4"]);
    assert_eq!(take_newest_first(&lines(3), 10), vec!["line-3", "line-2", "line-1"]);
    assert_eq!(take_newest_first(&lines(3), 0), Vec::<String>::new());
}

#[test]
fn newest_first_is_last_reversed() {
    let mut oldest_first = take_last(&lines(7), 4);
    oldest_first.reverse();
    assert_eq!(take_newest_first(&lines(7), 4), oldest_first);
}
