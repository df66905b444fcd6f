use omnimap::errors::EngineError;
use omnimap::json_line::{from_json, to_json_line};
use omnimap::map_container::MapContainer;

fn v(s: &str) -> String {
    String::from(s)
}

#[test]
fn serialize_deserialize_is_identity() {
    // The round-trip law on a container with memory values, part metadata
    // and a non-ASCII value.
    let mut c = MapContainer::new("some key");
    c.add_value(v("first"));
    c.flush_to_file_part("root", 10);
    c.add_value(v("zwei"));
    c.flush_to_file_part("root", 10);
    c.add_value(v("drei \u{263a}"));

    let bytes = MapContainer::serialize(&c).unwrap();
    let d = MapContainer::deserialize(&bytes).unwrap();
    assert_eq!(d.values, c.values);
    assert_eq!(d.buffered_size, c.buffered_size);
    assert_eq!(d.encoded_key, c.encoded_key);
    assert_eq!(d.last_part_size, c.last_part_size);
    assert_eq!(d.last_part_sequence, c.last_part_sequence);
    assert_eq!(d.lines_per_part, c.lines_per_part);
    assert_eq!(d.total_parts, c.total_parts);
}

#[test]
fn serialize_deserialize_is_identity_on_empty() {
    let c = MapContainer::new("");
    let bytes = MapContainer::serialize(&c).unwrap();
    let d = MapContainer::deserialize(&bytes).unwrap();
    assert_eq!(d.values, c.values);
    assert_eq!(d.encoded_key, c.encoded_key);
    assert_eq!(d.total_parts, 0);
}

#[test]
fn truncated_bytes_are_rejected() {
    let mut c = MapContainer::new("k");
    c.add_value(v("v"));
    let mut bytes = MapContainer::serialize(&c).unwrap();
    bytes.pop();
    assert!(matches!(
        MapContainer::deserialize(&bytes),
        Err(EngineError::CorruptContainer)
    ));
}

#[test]
fn trailing_garbage_is_rejected() {
    let c = MapContainer::new("k");
    let mut bytes = MapContainer::serialize(&c).unwrap();
    bytes.push(0);
    assert!(matches!(
        MapContainer::deserialize(&bytes),
        Err(EngineError::CorruptContainer)
    ));
}

#[test]
fn json_line_round_trips_a_batch() {
    let batch = vec![v("a"), v("b \"quoted\""), v("line\nbreak")];
    let line = to_json_line(&batch);
    assert_eq!(line, "[\"a\",\"b \\\"quoted\\\"\",\"line\\nbreak\"]\n");
    assert!(line.ends_with('\n'));
    assert_eq!(line.matches('\n').count(), 1);
    let back = from_json(&line).unwrap();
    assert_eq!(back, batch);
}

#[test]
fn json_line_of_empty_batch() {
    let line = to_json_line(&Vec::new());
    assert_eq!(line, "[]\n");
    let back = from_json(&line).unwrap();
    assert_eq!(back, Vec::<String>::new());
}

#[test]
fn bad_json_is_rejected() {
    assert!(matches!(from_json("not json"), Err(EngineError::BadJson)));
    assert!(matches!(from_json("[1, 2]"), Err(EngineError::BadJson)));
}
