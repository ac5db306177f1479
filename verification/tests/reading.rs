use sensor_gateway::reading::{last_value_text, parse_reading_line, split_fields};

fn chars(s: &str) -> Vec<char> {
    s.chars().collect()
}

fn text(v: &[char]) -> String {
    v.iter().collect()
}

#[test]
fn split_at_every_comma() {
    let fs: Vec<String> = split_fields(&chars("a,b,,c")).iter().map(|f| text(f)).collect();
    assert_eq!(fs, vec!["a", "b", "", "c"]);
}

#[test]
fn split_text_without_comma_is_one_field() {
    let fs = split_fields(&chars("thermo-1"));
    assert_eq!(fs.len(), 1);
    assert_eq!(text(&fs[0]), "thermo-1");
    let empty = split_fields(&[]);
    assert_eq!(empty.len(), 1);
    assert!(empty[0].is_empty());
}

#[test]
fn split_then_join_gives_back_the_line() {
    let line = "accel-1,0.5,-1.25,9.81";
    let fs: Vec<String> = split_fields(&chars(line)).iter().map(|f| text(f)).collect();
    assert_eq!(fs.join(","), line);
}

#[test]
fn scalar_reading() {
    let r = parse_reading_line(&chars("thermo-1,23.5")).unwrap();
    assert_eq!(text(&r.sensor_id), "thermo-1");
    assert_eq!(r.components.len(), 1);
    assert_eq!(text(&r.components[0]), "23.5");
}

#[test]
fn vector_reading_keeps_three_components() {
    let r = parse_reading_line(&chars("accel-1,1,2,3,4")).unwrap();
    assert_eq!(text(&r.sensor_id), "accel-1");
    let comps: Vec<String> = r.components.iter().map(|c| text(c)).collect();
    assert_eq!(comps, vec!["1", "2", "3"]);
}

#[test]
fn lines_without_a_reading() {
    assert!(parse_reading_line(&chars("force-1")).is_none());
    assert!(parse_reading_line(&chars("force-1,1,2")).is_none());
    assert!(parse_reading_line(&chars("")).is_none());
}

#[test]
fn value_text_of_a_stored_frame() {
    // Only the padding at the ends goes: a key inside the field stays.
    let v = last_value_text(&chars("{\"min\":1.5,\"stddev\": 0.25}"));
    assert_eq!(text(&v), "stddev\": 0.25");
    let v = last_value_text(&chars("{\"min\":1.5, 0.25}"));
    assert_eq!(text(&v), "0.25");
}

#[test]
fn value_text_trims_both_ends() {
    assert_eq!(text(&last_value_text(&chars("a, \"42\"} "))), "42");
    assert_eq!(text(&last_value_text(&chars("17.5"))), "17.5");
    assert_eq!(text(&last_value_text(&chars("x,"))), "");
    assert_eq!(text(&last_value_text(&chars("x,} \"}"))), "");
}
