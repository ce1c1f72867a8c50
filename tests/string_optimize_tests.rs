use tinyframe::string_optimize::{OptimizedStrColumn, StringCompressor, StringDeduplicator, StringPool};

fn strings(ss: &[&str]) -> Vec<String> {
    ss.iter().map(|s| s.to_string()).collect()
}

#[test]
fn pool_interns_each_string_once() {
    let mut pool = StringPool::new();
    assert_eq!(pool.intern("a"), 0);
    assert_eq!(pool.intern("b"), 1);
    assert_eq!(pool.intern("a"), 0);
    assert_eq!(pool.len(), 2);
    assert_eq!(pool.get(1), Some("b".to_string()));
    assert_eq!(pool.get(2), None);
    // two strings of one byte each, held twice, plus four bytes per id
    assert_eq!(pool.memory_usage(), 2 * 2 + 4 * 2);
}

#[test]
fn optimized_column_stores_ids() {
    let mut col = OptimizedStrColumn::new(StringPool::new());
    col.push("x");
    col.push("yy");
    col.push("x");
    assert_eq!(col.len(), 3);
    assert_eq!(col.get(2), Some("x".to_string()));
    assert_eq!(col.get(3), None);
    assert_eq!(col.to_regular_strings(), strings(&["x", "yy", "x"]));
    assert_eq!(col.memory_usage(), 3 * 4 + (2 * 3 + 4 * 2));
    let mut it = col.iter();
    assert_eq!(it.next(), Some(Some("x".to_string())));
    assert_eq!(it.next(), Some(Some("yy".to_string())));
    assert_eq!(it.next(), Some(Some("x".to_string())));
    assert_eq!(it.next(), None);
}

#[test]
fn deduplicator_round_trip() {
    let mut d = StringDeduplicator::new();
    let input = strings(&["red", "green", "red", "blue", "green"]);
    let ids = d.deduplicate_strings(&input);
    assert_eq!(ids, vec![0, 1, 0, 2, 1]);
    assert_eq!(d.restore_strings(&ids), input);
    assert_eq!(d.restore_strings(&[2, 9, 0]), strings(&["blue", "red"]));
    let many: Vec<String> = (0..50).map(|_| "repeated-string".to_string()).collect();
    let mut d2 = StringDeduplicator::new();
    d2.deduplicate_strings(&many);
    assert_eq!(d2.memory_savings(&many), 50 * 15 - (2 * 15 + 4));
    assert_eq!(d.memory_savings(&strings(&["a"])), 0);
}

#[test]
fn compressor_round_trip() {
    let mut c = StringCompressor::new();
    let input = strings(&["x", "y", "x", "z"]);
    let codes = c.compress_strings(&input);
    assert_eq!(codes, vec![0, 1, 0, 2]);
    assert_eq!(c.decompress_strings(&codes), input);
    assert_eq!(c.decompress_strings(&[5, 1]), strings(&["y"]));
}

#[test]
fn equal_strings_get_equal_ids_across_calls() {
    let mut d = StringDeduplicator::new();
    let first = d.deduplicate_strings(&strings(&["a", "b"]));
    let second = d.deduplicate_strings(&strings(&["b", "c", "a"]));
    assert_eq!(first, vec![0, 1]);
    assert_eq!(second, vec![1, 2, 0]);
    let mut c = StringCompressor::new();
    assert_eq!(c.compress_strings(&strings(&["q", "r"])), vec![0, 1]);
    assert_eq!(c.compress_strings(&strings(&["s", "q", "s"])), vec![2, 0, 2]);
}
