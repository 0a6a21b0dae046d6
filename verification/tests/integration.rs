use slicer::cli::OutputMode;
use slicer::parser::process_bytes;
use slicer::pattern::LinePattern;

/// A synthetic log with a mix of levels and noise lines.
fn generate_test_log(line_count: usize) -> Vec<u8> {
    let levels = ["ERROR", "WARN", "INFO", "DEBUG"];
    let mut data = Vec::with_capacity(line_count * 80);
    for i in 0..line_count {
        let line = if i % 7 == 0 {
            format!("--- heartbeat tick {} ---\n", i)
        } else {
            let level = levels[i % levels.len()];
            format!(
                "2024-01-15T10:{:02}:{:02} {} request handled path=/api/v1/resource id={}\n",
                (i / 60) % 60,
                i % 60,
                level,
                i
            )
        };
        data.extend_from_slice(line.as_bytes());
    }
    data
}

fn structured() -> LinePattern {
    LinePattern::new(r"(?P<timestamp>\d{4}-\d{2}-\d{2}T\d{2}:\d{2}:\d{2}) (?P<level>\w+) (?P<msg>.+)")
        .unwrap()
}

fn level_total(summary: &slicer::models::Summary) -> u64 {
    match summary.field_frequencies.get("level") {
        Some(counts) => (0..counts.len()).map(|i| *counts.value_at(i)).sum(),
        None => 0,
    }
}

#[test]
fn test_summary_mode_counts() {
    let data = generate_test_log(100);
    let regex = structured();

    let (summary, _) = process_bytes(&data, &regex, &OutputMode::Summary, 32);

    assert_eq!(summary.total_lines, 100);
    assert!(summary.matched_lines > 0);
    assert!(summary.matched_lines < 100);

    let level_freqs = summary.field_frequencies.get("level").unwrap();
    assert!(level_freqs.get("ERROR").is_some());
    assert!(level_freqs.get("WARN").is_some());
    assert!(level_freqs.get("INFO").is_some());
    assert!(level_freqs.get("DEBUG").is_some());

    assert_eq!(level_total(&summary), summary.matched_lines);
}

#[test]
fn test_json_mode_output() {
    let data = b"2024-01-15T10:00:00 ERROR disk full\n\
                 this is noise\n\
                 2024-01-15T10:01:00 WARN low memory\n";
    let regex = structured();

    let (summary, lines) = process_bytes(&data[..], &regex, &OutputMode::Json, 32);

    assert_eq!(summary.total_lines, 3);
    assert_eq!(summary.matched_lines, 2);
    assert_eq!(summary.field_frequencies.count("level", "ERROR"), 1);
    assert_eq!(summary.field_frequencies.count("level", "WARN"), 1);
    assert_eq!(lines.len(), 2);
    assert_eq!(lines[1].line_number, 3);
}

#[test]
fn test_simple_regex_no_captures() {
    let data = b"ERROR something broke\nINFO all good\nERROR another failure\n";
    let regex = LinePattern::new(r"ERROR").unwrap();
    let (summary, _) = process_bytes(&data[..], &regex, &OutputMode::Summary, 32);

    assert_eq!(summary.total_lines, 3);
    assert_eq!(summary.matched_lines, 2);
    assert!(summary.field_frequencies.is_empty());
}

#[test]
fn test_empty_file() {
    let regex = LinePattern::new(r"ERROR").unwrap();
    let (summary, _) = process_bytes(b"", &regex, &OutputMode::Summary, 32);

    assert_eq!(summary.total_lines, 0);
    assert_eq!(summary.matched_lines, 0);
}

#[test]
fn test_no_matches() {
    let data = b"all is well\nnothing to see here\nmove along\n";
    let regex = LinePattern::new(r"CRITICAL").unwrap();
    let (summary, _) = process_bytes(&data[..], &regex, &OutputMode::Summary, 32);

    assert_eq!(summary.total_lines, 3);
    assert_eq!(summary.matched_lines, 0);
}

#[test]
fn test_large_batch_processing() {
    let data = generate_test_log(500);
    let regex = LinePattern::new(r"(?P<level>ERROR|WARN|INFO|DEBUG)").unwrap();
    let (summary, _) = process_bytes(&data, &regex, &OutputMode::Summary, 16);

    assert_eq!(summary.total_lines, 500);
    assert!(summary.matched_lines > 0);
    assert_eq!(level_total(&summary), summary.matched_lines);
}

#[test]
fn test_ip_address_extraction() {
    let data = b"192.168.1.1 - GET /index.html 200\n\
                 10.0.0.5 - POST /api/data 404\n\
                 invalid line\n\
                 172.16.0.1 - GET /health 200\n";
    let regex =
        LinePattern::new(r"(?P<ip>\d+\.\d+\.\d+\.\d+) - (?P<method>\w+) (?P<path>\S+) (?P<status>\d+)")
            .unwrap();
    let (summary, _) = process_bytes(&data[..], &regex, &OutputMode::Summary, 32);

    assert_eq!(summary.total_lines, 4);
    assert_eq!(summary.matched_lines, 3);
    assert_eq!(summary.field_frequencies.count("status", "200"), 2);
    assert_eq!(summary.field_frequencies.count("status", "404"), 1);
    assert_eq!(summary.field_frequencies.count("method", "GET"), 2);
    assert_eq!(summary.field_frequencies.count("method", "POST"), 1);
}

#[test]
fn batch_size_does_not_change_result() {
    let data = generate_test_log(200);
    let regex = structured();
    let (a, ja) = process_bytes(&data, &regex, &OutputMode::Json, 1);
    let (b, jb) = process_bytes(&data, &regex, &OutputMode::Json, 7);
    let (c, _) = process_bytes(&data, &regex, &OutputMode::Summary, 1000);
    for s in [&b, &c] {
        assert_eq!(a.total_lines, s.total_lines);
        assert_eq!(a.matched_lines, s.matched_lines);
        for v in ["ERROR", "WARN", "INFO", "DEBUG"] {
            assert_eq!(a.field_frequencies.count("level", v), s.field_frequencies.count("level", v));
        }
    }
    assert_eq!(ja.len(), jb.len());
    assert_eq!(ja.len() as u64, a.matched_lines);
}

#[test]
fn bytes_processed_is_input_length() {
    let data = generate_test_log(50);
    let regex = structured();
    let (s, _) = process_bytes(&data, &regex, &OutputMode::Summary, 8);
    assert_eq!(s.bytes_processed, data.len() as u64);
    let (s, _) = process_bytes(b"x\r\ny", &regex, &OutputMode::Summary, 8);
    assert_eq!(s.bytes_processed, 4);
    assert_eq!(s.total_lines, 2);
}
