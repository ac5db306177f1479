use sensor_gateway::sensor_ids::{aggregated_id, is_aggregated_id, plain_sensor_id, registered_sensors};

fn chars(s: &str) -> Vec<char> {
    s.chars().collect()
}

fn text(v: Vec<char>) -> String {
    v.into_iter().collect()
}

#[test]
fn three_registered_sensors() {
    assert_eq!(registered_sensors(), vec!["thermo-1", "accel-1", "force-1"]);
}

#[test]
fn aggregated_id_adds_the_prefix() {
    assert_eq!(text(aggregated_id(&chars("thermo-1"))), "aggregated_thermo-1");
    assert_eq!(text(aggregated_id(&chars(""))), "aggregated_");
}

#[test]
fn aggregated_ids_are_recognised() {
    assert!(is_aggregated_id(&chars("aggregated_force-1")));
    assert!(!is_aggregated_id(&chars("force-1")));
    assert!(!is_aggregated_id(&chars("aggregated")));
}

#[test]
fn plain_id_removes_every_prefix_like_replace() {
    for id in ["aggregated_thermo-1", "thermo-1", "xaggregated_y", "aggregated_aggregated_z", "aggregate", ""] {
        assert_eq!(text(plain_sensor_id(&chars(id))), id.replace("aggregated_", ""), "{:?}", id);
    }
}
