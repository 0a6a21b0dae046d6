use slicer::models::FieldFrequencies;
use slicer::report::{frequency_report, ranked_counts, sorted_keys, TOP_VALUES};
use slicer::table::StrMap;
use slicer::text::str_less;

#[test]
fn fields_sorted_by_name_values_by_count() {
    let mut freqs: FieldFrequencies = StrMap::new();
    freqs.add_field_count(&"status".to_string(), &"404".to_string(), 3);
    freqs.add_field_count(&"status".to_string(), &"200".to_string(), 10);
    freqs.add_field_count(&"status".to_string(), &"500".to_string(), 3);
    freqs.add_field_count(&"method".to_string(), &"GET".to_string(), 1);
    let report = frequency_report(&freqs);
    assert_eq!(report.len(), 2);
    assert_eq!(report[0].field, "method");
    assert_eq!(report[1].field, "status");
    let values: Vec<(&str, u64)> = report[1].entries.iter().map(|(v, c)| (v.as_str(), *c)).collect();
    assert_eq!(values, vec![("200", 10), ("404", 3), ("500", 3)]);
    assert_eq!(report[1].total, 16);
    assert_eq!(report[1].shown, 3);
    assert_eq!(report[1].hidden, 0);
}

#[test]
fn report_shows_top_values_only() {
    let mut freqs: FieldFrequencies = StrMap::new();
    for i in 0..20u64 {
        freqs.add_field_count(&"id".to_string(), &format!("v{:02}", i), i + 1);
    }
    let report = frequency_report(&freqs);
    assert_eq!(report[0].entries.len(), 20);
    assert_eq!(report[0].shown, TOP_VALUES);
    assert_eq!(report[0].hidden, 5);
    assert_eq!(report[0].entries[0].0, "v19");
    assert_eq!(report[0].total, 210);
}

#[test]
fn ranking_and_key_order() {
    let mut m: StrMap<u64> = StrMap::new();
    m.insert("b".to_string(), 1);
    m.insert("a".to_string(), 1);
    m.insert("c".to_string(), 2);
    let r = ranked_counts(&m);
    let keys: Vec<&str> = r.iter().map(|(k, _)| k.as_str()).collect();
    assert_eq!(keys, vec!["c", "a", "b"]);
    let names = sorted_keys(&m);
    assert_eq!(names, vec!["a".to_string(), "b".to_string(), "c".to_string()]);
}

#[test]
fn string_order_matches_std() {
    let words = ["", "a", "ab", "b", "B", "é", "z", "ä", "Z1"];
    for x in words {
        for y in words {
            assert_eq!(str_less(x, y), x < y, "{} {}", x, y);
        }
    }
}
