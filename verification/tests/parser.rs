use slicer::cli::OutputMode;
use slicer::models::Summary;
use slicer::parser::{
    decode_line, dispatch_batch, process_batch_json, process_batch_summary, record_captures,
    split_lines, LineProcessor,
};
use slicer::pattern::{named_captures, LinePattern};
use slicer::table::StrMap;

fn test_regex() -> LinePattern {
    LinePattern::new(r"(?P<timestamp>\d{4}-\d{2}-\d{2}T\d{2}:\d{2}:\d{2}) (?P<level>\w+) (?P<msg>.+)")
        .unwrap()
}

fn batch_of(lines: &[(u64, &str)]) -> Vec<(u64, String)> {
    lines.iter().map(|(n, l)| (*n, l.to_string())).collect()
}

#[test]
fn test_process_batch_json_matches() {
    let regex = test_regex();
    let batch = batch_of(&[
        (1, "2024-01-15T10:30:00 ERROR disk full"),
        (2, "this line does not match"),
        (3, "2024-01-15T10:31:00 WARN low memory"),
    ]);

    let results = process_batch_json(&batch, &regex);
    assert_eq!(results.len(), 2);
    assert_eq!(results[0].captures.get("level").unwrap(), "ERROR");
    assert_eq!(results[1].captures.get("level").unwrap(), "WARN");
    assert_eq!(results[0].line_number, 1);
    assert_eq!(results[1].line_number, 3);
    assert_eq!(results[1].raw, "2024-01-15T10:31:00 WARN low memory");
    assert_eq!(results[0].captures.get("msg").unwrap(), "disk full");
}

#[test]
fn test_process_batch_summary_counts() {
    let regex = test_regex();
    let batch = batch_of(&[
        (1, "2024-01-15T10:30:00 ERROR disk full"),
        (2, "noise"),
        (3, "2024-01-15T10:31:00 ERROR oom"),
        (4, "2024-01-15T10:32:00 INFO started"),
    ]);

    let (matched, freqs) = process_batch_summary(&batch, &regex);
    assert_eq!(matched, 3);
    assert_eq!(freqs.count("level", "ERROR"), 2);
    assert_eq!(freqs.count("level", "INFO"), 1);
}

#[test]
fn test_process_batch_no_named_groups() {
    let regex = LinePattern::new(r"ERROR").unwrap();
    let batch = batch_of(&[(1, "ERROR something"), (2, "INFO ok")]);

    let results = process_batch_json(&batch, &regex);
    assert_eq!(results.len(), 1);
    assert!(results[0].captures.is_empty());
}

#[test]
fn test_process_batch_empty() {
    let regex = LinePattern::new(r"ERROR").unwrap();
    let batch: Vec<(u64, String)> = vec![];

    let (matched, freqs) = process_batch_summary(&batch, &regex);
    assert_eq!(matched, 0);
    assert!(freqs.is_empty());
}

#[test]
fn test_line_iterator_basic() {
    let data = b"line one\nline two\nline three\n";
    let lines = split_lines(&data[..]);

    assert_eq!(lines.len(), 3);
    assert_eq!(lines[0].0, "line one");
    assert_eq!(lines[1].0, "line two");
    assert_eq!(lines[2].0, "line three");
}

#[test]
fn test_line_iterator_crlf() {
    let data = b"hello\r\nworld\r\n";
    let lines = split_lines(&data[..]);

    assert_eq!(lines.len(), 2);
    assert_eq!(lines[0].0, "hello");
    assert_eq!(lines[1].0, "world");
}

#[test]
fn test_line_iterator_no_trailing_newline() {
    let data = b"no newline at end";
    let lines = split_lines(&data[..]);

    assert_eq!(lines.len(), 1);
    assert_eq!(lines[0].0, "no newline at end");
}

#[test]
fn split_lines_counts_every_byte() {
    let data = b"a\r\n\nbc\rd\ne";
    let lines = split_lines(&data[..]);
    let texts: Vec<&str> = lines.iter().map(|(t, _)| t.as_str()).collect();
    assert_eq!(texts, vec!["a", "", "bc\rd", "e"]);
    let total: u64 = lines.iter().map(|(_, n)| *n).sum();
    assert_eq!(total, data.len() as u64);
    assert_eq!(lines[0].1, 3);
}

#[test]
fn decode_line_is_lossy() {
    let (text, n) = decode_line(b"ok\xff\n");
    assert_eq!(text, "ok\u{fffd}");
    assert_eq!(n, 4);
    let (text, n) = decode_line(b"\r");
    assert_eq!(text, "\r");
    assert_eq!(n, 1);
}

#[test]
fn invalid_pattern_is_rejected() {
    let err = LinePattern::new(r"foo(bar").err().unwrap();
    assert!(err.message.contains("unclosed group"));
    assert!(LinePattern::new(r"foo(bar)").is_ok());
}

#[test]
fn group_names_are_positional() {
    let p = LinePattern::new(r"(?P<a>x)(y)(?P<c>z)").unwrap();
    let names = p.group_names();
    assert_eq!(names.len(), 4);
    assert_eq!(names[0], None);
    assert_eq!(names[1].as_deref(), Some("a"));
    assert_eq!(names[2], None);
    assert_eq!(names[3].as_deref(), Some("c"));
    assert_eq!(p.as_str(), r"(?P<a>x)(y)(?P<c>z)");
}

#[test]
fn named_captures_pairs_by_position() {
    let names = vec![None, Some("a".to_string()), Some("b".to_string()), None];
    let groups = vec![Some("xyz".to_string()), Some("x".to_string()), None, Some("z".to_string())];
    let caps = named_captures(&names, &groups);
    assert_eq!(caps.len(), 1);
    assert_eq!(caps.get("a").unwrap(), "x");
    assert_eq!(caps.get("b"), None);
}

#[test]
fn optional_group_not_recorded() {
    let p = LinePattern::new(r"(?P<level>ERROR|WARN)(?: code=(?P<code>\d+))?").unwrap();
    let caps = p.match_line("WARN disk").unwrap();
    assert_eq!(caps.len(), 1);
    let caps = p.match_line("ERROR code=7").unwrap();
    assert_eq!(caps.get("code").unwrap(), "7");
    assert!(p.match_line("INFO").is_none());
}

#[test]
fn record_captures_counts_each_field() {
    let mut freqs = StrMap::new();
    let mut caps = StrMap::new();
    caps.insert("level".to_string(), "ERROR".to_string());
    caps.insert("code".to_string(), "7".to_string());
    record_captures(&mut freqs, &caps);
    record_captures(&mut freqs, &caps);
    assert_eq!(freqs.count("level", "ERROR"), 2);
    assert_eq!(freqs.count("code", "7"), 2);
}

#[test]
fn json_and_summary_modes_agree() {
    let regex = test_regex();
    let batch = batch_of(&[
        (1, "2024-01-15T10:30:00 ERROR disk full"),
        (2, "noise"),
        (3, "2024-01-15T10:31:00 ERROR oom"),
        (4, "2024-01-15T10:32:00 INFO started"),
    ]);
    let mut a = Summary::new();
    let out_json = dispatch_batch(&batch, &regex, &OutputMode::Json, &mut a);
    let mut b = Summary::new();
    let out_summary = dispatch_batch(&batch, &regex, &OutputMode::Summary, &mut b);
    assert_eq!(out_json.len(), 3);
    assert!(out_summary.is_empty());
    assert_eq!(a.matched_lines, b.matched_lines);
    for value in ["ERROR", "INFO", "WARN"] {
        assert_eq!(a.field_frequencies.count("level", value), b.field_frequencies.count("level", value));
    }
    assert_eq!(a.field_frequencies.len(), b.field_frequencies.len());
}

#[test]
fn processor_batches_lines() {
    let regex = LinePattern::new(r"(?P<level>ERROR|INFO)").unwrap();
    let mut p = LineProcessor::new(2);
    let out = p.push_line("ERROR a".to_string(), 8, &regex, &OutputMode::Json);
    assert!(out.is_empty());
    assert_eq!(p.summary().total_lines, 0);
    let out = p.push_line("nothing".to_string(), 8, &regex, &OutputMode::Json);
    assert_eq!(out.len(), 1);
    assert_eq!(p.summary().total_lines, 2);
    let out = p.push_line("INFO b".to_string(), 7, &regex, &OutputMode::Json);
    assert!(out.is_empty());
    let out = p.finish(&regex, &OutputMode::Json);
    assert_eq!(out.len(), 1);
    assert_eq!(out[0].line_number, 3);
    let s = p.into_summary();
    assert_eq!(s.total_lines, 3);
    assert_eq!(s.matched_lines, 2);
    assert_eq!(s.bytes_processed, 23);
    assert_eq!(s.field_frequencies.count("level", "INFO"), 1);
}

#[test]
fn processor_batch_size_zero_processes_each_line() {
    let regex = LinePattern::new(r"x").unwrap();
    let mut p = LineProcessor::new(0);
    p.push_line("x".to_string(), 2, &regex, &OutputMode::Summary);
    assert_eq!(p.summary().total_lines, 1);
    assert_eq!(p.summary().matched_lines, 1);
}

#[test]
fn line_count_matches_newlines() {
    let cases: [&[u8]; 5] = [b"", b"\n", b"a\nb", b"a\nb\n", b"\n\nx\r\n"];
    for data in cases {
        let lines = split_lines(data);
        let newlines = data.iter().filter(|b| **b == b'\n').count();
        let unterminated = if !data.is_empty() && *data.last().unwrap() != b'\n' { 1 } else { 0 };
        assert_eq!(lines.len(), newlines + unterminated);
        let total: u64 = lines.iter().map(|(_, n)| *n).sum();
        assert_eq!(total, data.len() as u64);
    }
}

#[test]
fn summary_table_is_tally_of_json_lines() {
    let regex = test_regex();
    let batch = batch_of(&[
        (1, "2024-01-15T10:30:00 ERROR disk full"),
        (2, "noise"),
        (3, "2024-01-15T10:31:00 ERROR oom"),
        (4, "2024-01-15T10:32:00 INFO disk full"),
    ]);
    let json = process_batch_json(&batch, &regex);
    let (matched, freqs) = process_batch_summary(&batch, &regex);
    assert_eq!(matched, json.len() as u64);
    for (field, value) in [("level", "ERROR"), ("level", "INFO"), ("msg", "disk full"), ("msg", "oom")] {
        let expected = json
            .iter()
            .filter(|p| p.captures.get(field).map(|v| v.as_str()) == Some(value))
            .count() as u64;
        assert_eq!(freqs.count(field, value), expected);
    }
}

#[test]
fn valid_utf8_decodes_unchanged() {
    let (text, n) = decode_line("héllo ✓\r\n".as_bytes());
    assert_eq!(text, "héllo ✓");
    assert_eq!(n, "héllo ✓\r\n".len() as u64);
}
