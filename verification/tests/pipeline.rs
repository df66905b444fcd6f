use omnimap::combiner::{combine_map_results, Bucket};
use omnimap::consumer::consumer_plan;
use omnimap::index::Index;
use omnimap::js::MapResult;
use omnimap::printer::format_record;
use omnimap::reducer::{decode_reduce_value, ReduceValue, Tracker};
use omnimap::result_table::{ResultTable, ResultsOrdering};

fn mr(k: &str, v: &str) -> MapResult {
    MapResult { key: String::from(k), value: String::from(v) }
}

fn sum_reduce(values: &Vec<String>) -> String {
    let mut s: i64 = 0;
    for v in values {
        s += v.parse::<i64>().unwrap();
    }
    format!("{}", s)
}

/// Runs the verified pipeline over in-memory containers with an integer-sum
/// reduce, returning the printed table.
fn run_pipeline(results: Vec<MapResult>, partitions: usize, order: &str) -> String {
    let mut buckets: Vec<Bucket> = Vec::new();
    for _ in 0..partitions {
        buckets.push(Bucket::new());
    }
    combine_map_results(&mut buckets, results, partitions).unwrap();
    let mut index = Index::new("root");
    for mut b in buckets {
        let writes = index.merge(&mut b, usize::MAX, usize::MAX).unwrap();
        assert!(writes.is_empty());
    }
    let mut tracker = Tracker::new();
    let mut table = ResultTable::new("root");
    let mut it = index.iter();
    loop {
        let entry = match it.next() {
            Some(e) => e,
            None => break,
        };
        let (key, container) = (&entry.0, &entry.1);
        let plan = consumer_plan(key, container, "root");
        if plan.skip {
            continue;
        }
        tracker.new_key(key.clone(), plan.key_init_parts);
        tracker.new_part(key.clone());
        assert!(plan.file_parts.is_empty());
        let part = plan.file_parts.len();
        tracker.new_line(key, part, 1);
        let values =
            decode_reduce_value(ReduceValue::FromIndex(plan.index_values.unwrap())).unwrap();
        let r1 = sum_reduce(&values);
        let part_done = tracker.save_line_result(key, part, r1);
        assert!(part_done);
        let part_values = tracker.merge_line_results(key);
        let r2 = sum_reduce(&part_values);
        let all_parts_done = tracker.save_part_result(key, r2);
        assert!(all_parts_done);
        let key_values = tracker.get_and_clean_key_results(key);
        let r3 = sum_reduce(&key_values);
        table.add(key.as_str(), &r3).unwrap();
    }
    let mut out = String::new();
    let mut tit = table.iter(ResultsOrdering::new(order));
    loop {
        match tit.next() {
            Some((k, v)) => out.push_str(&format_record(&k, &v)),
            None => break,
        }
    }
    out
}

#[test]
fn word_count_single_chunk() {
    // Input "the quick the brown\nthe lazy\n" with a word-count map.
    let results = vec![
        mr("the", "1"),
        mr("quick", "1"),
        mr("the", "1"),
        mr("brown", "1"),
        mr("the", "1"),
        mr("lazy", "1"),
    ];
    let out = run_pipeline(results, 4, "asc");
    assert_eq!(out, "brown\t1\nlazy\t1\nquick\t1\nthe\t3\n");
}

#[test]
fn interleaved_keys_ordered_output_desc() {
    let results = vec![mr("a", "1"), mr("c", "1"), mr("b", "1"), mr("a", "1")];
    let out = run_pipeline(results, 2, "desc");
    assert_eq!(out, "c\t1\nb\t1\na\t2\n");
}

#[test]
fn single_partition_matches_many_partitions() {
    let results = vec![mr("x", "2"), mr("y", "3"), mr("x", "4")];
    let a = run_pipeline(results, 1, "asc");
    let results = vec![mr("x", "2"), mr("y", "3"), mr("x", "4")];
    let b = run_pipeline(results, 7, "asc");
    assert_eq!(a, "x\t6\ny\t3\n");
    assert_eq!(a, b);
}

#[test]
fn merge_keeps_values_per_key_in_batch_order() {
    // The values consumable for each key are exactly those emitted for it,
    // within-batch order preserved.
    let results = vec![mr("k", "a"), mr("q", "z"), mr("k", "b"), mr("k", "c")];
    let mut buckets = vec![Bucket::new()];
    combine_map_results(&mut buckets, results, 1).unwrap();
    let mut index = Index::new("root");
    let mut b = buckets.pop().unwrap();
    index.merge(&mut b, usize::MAX, usize::MAX).unwrap();
    assert_eq!(index.total_keys(), 2);
    let stored = index.get("k").unwrap().unwrap();
    assert_eq!(stored.values, vec![String::from("a"), String::from("b"), String::from("c")]);
    assert!(index.get("missing").unwrap().is_none());
}

#[test]
fn merge_appends_drained_values_after_stored() {
    // A second round of results for a key already in the store is appended
    // after the stored values, keeping emission order.
    let mut buckets = vec![Bucket::new()];
    combine_map_results(&mut buckets, vec![mr("k", "one")], 1).unwrap();
    let mut index = Index::new("root");
    let mut b = buckets.pop().unwrap();
    index.merge(&mut b, usize::MAX, usize::MAX).unwrap();
    let mut buckets = vec![b];
    combine_map_results(&mut buckets, vec![mr("k", "two")], 1).unwrap();
    let mut b = buckets.pop().unwrap();
    index.merge(&mut b, usize::MAX, usize::MAX).unwrap();
    let stored = index.get("k").unwrap().unwrap();
    assert_eq!(stored.values, vec![String::from("one"), String::from("two")]);
}

#[test]
fn spill_produces_part_writes_and_file_plan() {
    // With a tiny flush threshold the merge spills each key to a part file
    // and the consumer plans one file read per part.
    let results = vec![mr("k", "v"), mr("k", "w")];
    let mut buckets = vec![Bucket::new()];
    combine_map_results(&mut buckets, results, 1).unwrap();
    let mut index = Index::new("root");
    let mut b = buckets.pop().unwrap();
    let writes = index.merge(&mut b, 1, 1024).unwrap();
    assert_eq!(writes.len(), 1);
    assert_eq!(writes[0].path, "root/aw==.map.0.jsonl");
    assert_eq!(writes[0].line, "[\"v\",\"w\"]\n");
    assert!(writes[0].new_part);

    let mut it = index.iter();
    let entry = it.next().unwrap();
    let plan = consumer_plan(&entry.0, &entry.1, "root");
    assert!(!plan.skip);
    // FileOnly: the KeyInit count equals the part count, no synthetic part.
    assert_eq!(plan.key_init_parts, 1);
    assert_eq!(plan.file_parts.len(), 1);
    assert_eq!(plan.file_parts[0].path, "root/aw==.map.0.jsonl");
    assert_eq!(plan.file_parts[0].line_count, 1);
    assert!(plan.index_values.is_none());
}

#[test]
fn tracker_counts_lines_and_parts() {
    let key = String::from("k");
    let mut t = Tracker::new();
    t.new_key(key.clone(), 2);
    t.new_part(key.clone());
    t.new_line(&key, 0, 2);
    assert!(!t.save_line_result(&key, 0, String::from("3")));
    assert!(t.save_line_result(&key, 0, String::from("4")));
    let merged = t.merge_line_results(&key);
    assert_eq!(merged, vec![String::from("3"), String::from("4")]);
    assert!(!t.save_part_result(&key, String::from("7")));
    t.new_line(&key, 1, 1);
    assert!(t.save_line_result(&key, 1, String::from("5")));
    let merged = t.merge_line_results(&key);
    assert_eq!(merged, vec![String::from("5")]);
    assert!(t.save_part_result(&key, String::from("5")));
    let finals = t.get_and_clean_key_results(&key);
    assert_eq!(finals, vec![String::from("7"), String::from("5")]);
}
