use slicer::models::{FieldFrequencies, Summary};
use slicer::table::StrMap;

fn level_counts(pairs: &[(&str, u64)]) -> FieldFrequencies {
    let mut counts: StrMap<u64> = StrMap::new();
    for (value, n) in pairs {
        counts.insert(value.to_string(), *n);
    }
    let mut freqs: FieldFrequencies = StrMap::new();
    freqs.insert("level".to_string(), counts);
    freqs
}

#[test]
fn test_summary_merge() {
    let mut summary = Summary::new();

    let freqs1 = level_counts(&[("ERROR", 5), ("WARN", 3)]);
    summary.merge_batch(8, freqs1);
    assert_eq!(summary.matched_lines, 8);
    assert_eq!(summary.field_frequencies.count("level", "ERROR"), 5);
    assert_eq!(summary.field_frequencies.count("level", "WARN"), 3);

    let freqs2 = level_counts(&[("ERROR", 2), ("INFO", 10)]);
    summary.merge_batch(12, freqs2);
    assert_eq!(summary.matched_lines, 20);
    assert_eq!(summary.field_frequencies.count("level", "ERROR"), 7);
    assert_eq!(summary.field_frequencies.count("level", "INFO"), 10);
    assert_eq!(summary.field_frequencies.count("level", "WARN"), 3);
}

#[test]
fn merge_order_does_not_matter() {
    let mut a = Summary::new();
    a.merge_batch(8, level_counts(&[("ERROR", 5), ("WARN", 3)]));
    a.merge_batch(12, level_counts(&[("ERROR", 2), ("INFO", 10)]));
    let mut b = Summary::new();
    b.merge_batch(12, level_counts(&[("ERROR", 2), ("INFO", 10)]));
    b.merge_batch(8, level_counts(&[("ERROR", 5), ("WARN", 3)]));
    assert_eq!(a.matched_lines, b.matched_lines);
    for value in ["ERROR", "WARN", "INFO", "DEBUG"] {
        assert_eq!(
            a.field_frequencies.count("level", value),
            b.field_frequencies.count("level", value)
        );
    }
}

#[test]
fn merge_empty_batch_keeps_summary() {
    let mut s = Summary::new();
    s.merge_batch(8, level_counts(&[("ERROR", 5)]));
    s.merge_batch(0, StrMap::new());
    assert_eq!(s.matched_lines, 8);
    assert_eq!(s.field_frequencies.len(), 1);
    assert_eq!(s.field_frequencies.count("level", "ERROR"), 5);
}

#[test]
fn merge_adds_field_without_values() {
    let mut s = Summary::new();
    let mut freqs: FieldFrequencies = StrMap::new();
    freqs.insert("status".to_string(), StrMap::new());
    s.merge_batch(1, freqs);
    assert!(s.field_frequencies.get("status").unwrap().is_empty());
    assert_eq!(s.field_frequencies.count("status", "200"), 0);
}

#[test]
fn new_summary_is_zeroed() {
    let s = Summary::default();
    assert_eq!(s.total_lines, 0);
    assert_eq!(s.matched_lines, 0);
    assert_eq!(s.bytes_processed, 0);
    assert!(s.field_frequencies.is_empty());
}

#[test]
fn str_map_insert_replaces_and_keeps_order() {
    let mut m: StrMap<u64> = StrMap::new();
    m.insert("b".to_string(), 1);
    m.insert("a".to_string(), 2);
    m.insert("b".to_string(), 3);
    assert_eq!(m.len(), 2);
    assert_eq!(m.key_at(0), "b");
    assert_eq!(*m.value_at(0), 3);
    assert_eq!(m.get("a"), Some(&2));
    assert_eq!(m.get("c"), None);
    let mut counts: StrMap<u64> = StrMap::new();
    counts.add_count(&"x".to_string(), 4);
    counts.add_count(&"x".to_string(), 5);
    assert_eq!(counts.get("x"), Some(&9));
}
