use omnimap::errors::EngineError;
use omnimap::map_container::{ContainerState, MapContainer};

fn v(s: &str) -> String {
    String::from(s)
}

#[test]
fn new_container_is_empty_with_base64_key() {
    let c = MapContainer::new("k");
    assert_eq!(c.encoded_key, "aw==");
    assert_eq!(c.values.len(), 0);
    assert_eq!(c.buffered_size, 0);
    assert_eq!(c.total_parts, 0);
    assert_eq!(c.last_part_size, 0);
    assert_eq!(c.last_part_sequence, 0);
    assert!(matches!(c.state(), ContainerState::NoData));
}

#[test]
fn add_value_accumulates_bytes() {
    let mut c = MapContainer::new("k");
    c.add_value(v("abc"));
    assert_eq!(c.buffered_size, 3);
    c.add_value(v("de"));
    assert_eq!(c.buffered_size, 5);
    assert_eq!(c.values, vec![v("abc"), v("de")]);
    assert!(matches!(c.state(), ContainerState::IndexOnly));
}

#[test]
fn buffered_size_strictly_increases_until_flush() {
    // Flush monotonicity: zero exactly after a flush, growing with each
    // non-empty value added in between.
    let mut c = MapContainer::new("k");
    c.add_value(v("x"));
    let b1 = c.buffered_size;
    c.add_value(v("y"));
    let b2 = c.buffered_size;
    assert!(0 < b1 && b1 < b2);
    let w = c.flush_to_file_part("root", 1024);
    assert_eq!(c.buffered_size, 0);
    assert_eq!(c.values.len(), 0);
    assert_eq!(w.line, "[\"x\",\"y\"]\n");
    c.add_value(v("z"));
    assert!(c.buffered_size > 0);
}

#[test]
fn add_values_appends_all() {
    let mut c = MapContainer::new("k");
    c.add_value(v("a"));
    c.add_values(vec![v("bb"), v("ccc")]).unwrap();
    assert_eq!(c.values, vec![v("a"), v("bb"), v("ccc")]);
    assert_eq!(c.buffered_size, 6);
}

#[test]
fn transfer_data_adopts_metadata_and_appends_values() {
    let mut persisted = MapContainer::new("k");
    persisted.add_value(v("old"));
    let w = persisted.flush_to_file_part("root", 1024);
    assert!(w.new_part);
    persisted.add_value(v("kept"));

    let mut merged = MapContainer::new("k");
    merged.add_value(v("new"));
    merged.transfer_data(persisted).unwrap();
    assert_eq!(merged.total_parts, 1);
    assert_eq!(merged.last_part_sequence, 0);
    assert_eq!(merged.values, vec![v("new"), v("kept")]);
    assert_eq!(merged.buffered_size, 7);
}

#[test]
fn first_flush_creates_part_zero() {
    let mut c = MapContainer::new("k");
    c.add_value(v("v"));
    let w = c.flush_to_file_part("root", 1024);
    assert!(w.new_part);
    assert_eq!(w.path, "root/aw==.map.0.jsonl");
    assert_eq!(w.line, "[\"v\"]\n");
    assert_eq!(c.total_parts, 1);
    assert_eq!(c.lines_per_part, vec![1]);
    assert_eq!(c.last_part_sequence, 0);
    assert_eq!(c.last_part_size, 6);
    assert!(matches!(c.state(), ContainerState::FileOnly));
}

#[test]
fn small_flushes_append_to_current_part() {
    let mut c = MapContainer::new("k");
    c.add_value(v("v"));
    c.flush_to_file_part("root", 1024);
    c.add_value(v("w"));
    let w = c.flush_to_file_part("root", 1024);
    assert!(!w.new_part);
    assert_eq!(w.path, "root/aw==.map.0.jsonl");
    assert_eq!(c.total_parts, 1);
    assert_eq!(c.lines_per_part, vec![2]);
    assert_eq!(c.last_part_size, 12);
}

#[test]
fn oversize_flush_rolls_to_new_part() {
    // Each serialized line is 6 bytes; with a 10-byte cap the second flush
    // no longer fits and opens a fresh part holding one line.
    let mut c = MapContainer::new("k");
    c.add_value(v("v"));
    c.flush_to_file_part("root", 10);
    c.add_value(v("v"));
    let w = c.flush_to_file_part("root", 10);
    assert!(w.new_part);
    assert_eq!(w.path, "root/aw==.map.1.jsonl");
    assert_eq!(c.total_parts, 2);
    assert_eq!(c.last_part_sequence, 1);
    assert_eq!(c.lines_per_part, vec![1, 1]);
    assert_eq!(c.last_part_size, 6);
}

#[test]
fn part_counters_stay_coupled_across_flushes() {
    // After any sequence of add_value / flush_to_file_part the part count
    // equals the recorded line counts, and the last part sequence trails the
    // part count by one.
    let mut c = MapContainer::new("k");
    for round in 0..20 {
        c.add_value(v("value"));
        if round % 3 == 0 {
            c.flush_to_file_part("root", 25);
        }
        assert_eq!(c.total_parts, c.lines_per_part.len());
        if c.total_parts > 0 {
            assert_eq!(c.last_part_sequence + 1, c.total_parts);
        }
    }
}

#[test]
fn spill_across_parts_reaches_several_parts() {
    // Many flushes under a small part cap must spread over several parts.
    let mut c = MapContainer::new("k");
    for _ in 0..100 {
        c.add_value(v("v"));
        c.flush_to_file_part("root", 16);
    }
    assert!(c.total_parts >= 2);
    let mut lines = 0;
    for n in &c.lines_per_part {
        lines += n;
    }
    assert_eq!(lines, 100);
}

#[test]
fn part_line_count_rejects_missing_parts() {
    let mut c = MapContainer::new("k");
    c.add_value(v("v"));
    c.flush_to_file_part("root", 1024);
    assert_eq!(c.part_line_count(0).unwrap(), 1);
    assert!(matches!(c.part_line_count(1), Err(EngineError::NoSuchPart)));
}

#[test]
fn part_file_path_rejects_parts_beyond_last() {
    let c = MapContainer::new("key");
    assert_eq!(c.part_file_path("dir", 0).unwrap(), "dir/a2V5.map.0.jsonl");
    assert!(matches!(c.part_file_path("dir", 1), Err(EngineError::NoSuchPart)));
}

#[test]
fn parts_yields_ascending_part_numbers() {
    let mut c = MapContainer::new("k");
    for _ in 0..3 {
        c.add_value(v("v"));
        c.flush_to_file_part("root", 6);
    }
    let mut it = c.parts();
    assert_eq!(it.next(), Some(0));
    assert_eq!(it.next(), Some(1));
    assert_eq!(it.next(), Some(2));
    assert_eq!(it.next(), None);
}

#[test]
fn state_reflects_where_data_lives() {
    let mut c = MapContainer::new("k");
    assert!(matches!(c.state(), ContainerState::NoData));
    c.add_value(v("v"));
    assert!(matches!(c.state(), ContainerState::IndexOnly));
    c.flush_to_file_part("root", 1024);
    assert!(matches!(c.state(), ContainerState::FileOnly));
    c.add_value(v("w"));
    assert!(matches!(c.state(), ContainerState::IndexAndFile));
}

#[test]
fn part_paths_use_decimal_part_numbers() {
    let mut c = MapContainer::new("k");
    for _ in 0..12 {
        c.add_value(v("v"));
        c.flush_to_file_part("root", 6);
    }
    assert_eq!(c.total_parts, 12);
    assert_eq!(c.part_file_path("root", 11).unwrap(), "root/aw==.map.11.jsonl");
    assert_eq!(c.part_file_path("root", 10).unwrap(), "root/aw==.map.10.jsonl");
}
