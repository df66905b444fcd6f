use omnimap::cli::{CLIOptions, OptionsError};
use omnimap::combiner::calculate_hash;
use omnimap::errors::EngineError;
use omnimap::indexer::{IndexGuard, IndexerCycle};
use omnimap::js::{chunk_lines, first_line_number, numbered_chunk_lines, ContextBuilder};
use omnimap::ordering::str_lt;
use omnimap::printer::format_record;
use omnimap::result_table::{ResultTable, ResultsOrdering};

fn opts(rb: usize, kf: usize, mp: usize, ie: usize, w: usize, order: &str) -> Result<CLIOptions, OptionsError> {
    CLIOptions::new(
        String::from("function map() {}"),
        rb,
        kf,
        mp,
        ie,
        w,
        String::from(order),
        String::from("/tmp"),
    )
}

#[test]
fn options_scale_sizes_by_1024() {
    let o = opts(512, 64, 2048, 100, 4, "asc").unwrap();
    assert_eq!(o.read_buffer_size, 512 * 1024);
    assert_eq!(o.key_flush_size, 64 * 1024);
    assert_eq!(o.max_file_part_size, 2048 * 1024);
    assert_eq!(o.index_every, 100);
    assert_eq!(o.workers, 4);
    assert_eq!(o.order, "asc");
}

#[test]
fn zero_options_fail_validation() {
    // Validation fails before any working directory could be created.
    assert!(matches!(opts(0, 64, 2048, 100, 4, "asc"), Err(OptionsError::InvalidReadBufferSize)));
    assert!(matches!(opts(512, 0, 2048, 100, 4, "asc"), Err(OptionsError::InvalidKeyFlushSize)));
    assert!(matches!(opts(512, 64, 0, 100, 4, "asc"), Err(OptionsError::InvalidFilePartSize)));
    assert!(matches!(opts(512, 64, 2048, 0, 4, "asc"), Err(OptionsError::InvalidIndexCycle)));
    assert!(matches!(opts(512, 64, 2048, 100, 0, "asc"), Err(OptionsError::InvalidWorkerCount)));
    assert!(matches!(opts(512, 64, 2048, 100, 4, "sideways"), Err(OptionsError::InvalidOrder)));
}

#[test]
fn missing_part_file_error_names_the_temp_dir() {
    let msg = EngineError::TempDirModified.message();
    assert!(msg.contains("Temp directory modified"));
}

#[test]
fn empty_lines_skipped_by_map_wrapper() {
    // Input "\na\n\nb\n": the chunk ends at line 4; empty lines are dropped
    // but still advance the numbering, so user code sees the true
    // positions: a is line 2 and b is line 4.
    let lines = chunk_lines("\na\n\nb\n");
    assert_eq!(lines, vec![String::from("a"), String::from("b")]);
    let numbered = numbered_chunk_lines("\na\n\nb\n", 4);
    assert_eq!(numbered, vec![(2, String::from("a")), (4, String::from("b"))]);
}

#[test]
fn chunk_numbering_counts_all_lines() {
    // The chunk's first line is numbered ending-line minus full line count
    // plus one, empty lines included.
    assert_eq!(first_line_number(4, 4), 1);
    assert_eq!(first_line_number(10, 3), 8);
    let numbered = numbered_chunk_lines("one\ntwo\nthree", 9);
    assert_eq!(
        numbered,
        vec![(7, String::from("one")), (8, String::from("two")), (9, String::from("three"))]
    );
}

#[test]
fn chunk_lines_keeps_order_and_drops_empties() {
    assert_eq!(chunk_lines(""), Vec::<String>::new());
    assert_eq!(chunk_lines("\n\n\n"), Vec::<String>::new());
    assert_eq!(
        chunk_lines("one\ntwo\nthree"),
        vec![String::from("one"), String::from("two"), String::from("three")]
    );
}

#[test]
fn context_builder_keeps_user_code() {
    let b = ContextBuilder::new("function map(k, v) { emit(k, v); }");
    assert_eq!(b.user_code, "function map(k, v) { emit(k, v); }");
}

#[test]
fn index_guard_blocks_submission() {
    // No mapper task is submitted while an indexing cycle is in progress.
    let mut g = IndexGuard::new();
    assert!(!g.indexing);
    g.wait_while_indexing();
    g.start_indexing();
    assert!(g.indexing);
    g.finish_indexing();
    assert!(!g.indexing);
    g.wait_while_indexing();
}

#[test]
fn indexer_cycle_fires_every_n_batches() {
    let mut c = IndexerCycle::new(3);
    assert!(!c.record_batch());
    assert!(!c.record_batch());
    assert!(c.record_batch());
    assert!(!c.record_batch());
    assert!(!c.record_batch());
    assert!(c.record_batch());
}

#[test]
fn hash_is_deterministic_within_a_run() {
    assert_eq!(calculate_hash("key"), calculate_hash("key"));
    assert_ne!(calculate_hash("key"), calculate_hash("another"));
}

#[test]
fn key_order_is_lexicographic_by_bytes() {
    assert!(str_lt("a", "b"));
    assert!(str_lt("a", "ab"));
    assert!(!str_lt("b", "a"));
    assert!(!str_lt("same", "same"));
    assert!(str_lt("Z", "a"));
}

#[test]
fn result_table_overwrites_and_orders() {
    let mut t = ResultTable::new("root");
    t.add("b", "2").unwrap();
    t.add("a", "1").unwrap();
    t.add("c", "3").unwrap();
    t.add("b", "22").unwrap();
    let mut asc = t.iter(ResultsOrdering::new("asc"));
    assert_eq!(asc.next(), Some((String::from("a"), String::from("1"))));
    assert_eq!(asc.next(), Some((String::from("b"), String::from("22"))));
    assert_eq!(asc.next(), Some((String::from("c"), String::from("3"))));
    assert_eq!(asc.next(), None);
    let mut desc = t.iter(ResultsOrdering::new("desc"));
    assert_eq!(desc.next(), Some((String::from("c"), String::from("3"))));
    assert_eq!(desc.next(), Some((String::from("b"), String::from("22"))));
    assert_eq!(desc.next(), Some((String::from("a"), String::from("1"))));
    assert_eq!(desc.next(), None);
}

#[test]
fn record_format_is_key_tab_value_newline() {
    assert_eq!(format_record("key", "42"), "key\t42\n");
}
