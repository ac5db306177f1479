use sensor_gateway::latest::{choose_latest, last_line_of, latest_answer, latest_frames, Latest};

fn chars(s: &str) -> Vec<char> {
    s.chars().collect()
}

fn last(s: &str) -> Option<String> {
    last_line_of(&chars(s)).map(|l| l.into_iter().collect())
}

#[test]
fn last_line_as_lines_gives_it() {
    assert_eq!(last(""), None);
    assert_eq!(last("a"), Some("a".to_string()));
    assert_eq!(last("a\nb"), Some("b".to_string()));
    assert_eq!(last("a\nb\n"), Some("b".to_string()));
    assert_eq!(last("a\r\nb\r\n"), Some("b".to_string()));
    assert_eq!(last("a\n\n"), Some("".to_string()));
    assert_eq!(last("\n"), Some("".to_string()));
    assert_eq!(last("a\r"), Some("a\r".to_string()));
    for text in ["", "x", "x\ny", "x\ny\n", "x\r\n", "x\n\r\n", "\r\n\r\n", "q\rw\n"] {
        assert_eq!(last(text), text.lines().last().map(String::from), "{:?}", text);
    }
}

#[test]
fn aggregated_json_line_wins() {
    let agg = chars("{\"min\":1}\n{\"min\":2}\n");
    let raw = chars("1.0\n2.0\n");
    assert_eq!(latest_answer(Some(&agg), Some(&raw)), Latest::Aggregated(chars("{\"min\":2}")));
}

#[test]
fn aggregated_line_that_is_not_json_falls_back_to_raw() {
    let agg = chars("{\"min\":1}\nnot json");
    let raw = chars("1.0\n2.0\n");
    assert_eq!(latest_answer(Some(&agg), Some(&raw)), Latest::Raw(chars("2.0")));
}

#[test]
fn missing_files_and_empty_raw_file() {
    let raw = chars("7.5");
    assert_eq!(latest_answer(None, Some(&raw)), Latest::Raw(chars("7.5")));
    let empty: Vec<char> = Vec::new();
    assert_eq!(latest_answer(Some(&empty), Some(&empty)), Latest::RawWithoutLines);
    assert_eq!(latest_answer(None, None), Latest::NotFound);
}

#[test]
fn choose_latest_orders_the_cases() {
    assert_eq!(choose_latest(Some(chars("a")), true, None), Latest::Aggregated(chars("a")));
    assert_eq!(choose_latest(Some(chars("a")), false, Some(Some(chars("b")))), Latest::Raw(chars("b")));
    assert_eq!(choose_latest(None, true, Some(None)), Latest::RawWithoutLines);
    assert_eq!(choose_latest(None, false, None), Latest::NotFound);
}

#[test]
fn latest_frames_keep_json_last_lines_in_order() {
    let contents = vec![
        Some(chars("{\"id\":1}\n{\"id\":2}\n")),
        None,
        Some(chars("{\"id\":3}\nbroken")),
        Some(chars("")),
        Some(chars("[4]")),
    ];
    let frames: Vec<String> = latest_frames(&contents)
        .into_iter()
        .map(|l| l.into_iter().collect())
        .collect();
    assert_eq!(frames, vec!["{\"id\":2}", "[4]"]);
}
