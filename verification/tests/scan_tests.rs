use minigrep::matcher::{to_case_insensitive, Matcher};
use minigrep::scan::{open_failure_message, scan_content};

#[test]
fn test_read_error_handling() {
    // Construction failure always yields a message naming the path.
    let message = open_failure_message("dummy_file.fake.txt", "entity not found");

    assert!(message.starts_with("Cannot open file \"dummy_file.fake.txt\""));
    assert!(message.contains("dummy_file.fake.txt"));
    assert_eq!(message, "Cannot open file \"dummy_file.fake.txt\": entity not found");
}

#[test]
fn test_scan_content_collects_matches_in_order() {
    let content = b"Rust is fun\nRustaceans rule\nLove Rust!\n".to_vec();
    let pattern = Matcher::new("Rust", false).unwrap();

    let (records, failure) = scan_content(content, &pattern, false);

    assert!(failure.is_none());
    let reported: Vec<(usize, &str)> = records
        .iter()
        .map(|rec| (rec.line_number, rec.line_content.as_str()))
        .collect();
    assert_eq!(
        reported,
        vec![(1, "Rust is fun"), (2, "Rustaceans rule"), (3, "Love Rust!")]
    );
}

#[test]
fn test_scan_content_empty_input() {
    let pattern = Matcher::new(".*", false).unwrap();
    let (records, failure) = scan_content(Vec::new(), &pattern, false);

    assert!(records.is_empty());
    assert!(failure.is_none());
}

#[test]
fn test_scan_content_reports_failure_keeps_earlier_matches() {
    let mut content = b"Rust first\n".to_vec();
    content.extend_from_slice(&[0xff, 0xfe, b'\n']);
    content.extend_from_slice(b"Rust after the bad line\n");
    let pattern = Matcher::new("Rust", false).unwrap();

    let (records, failure) = scan_content(content, &pattern, false);

    assert_eq!(records.len(), 1);
    assert_eq!(records[0].line_number, 1);
    assert_eq!(records[0].line_content, "Rust first");
    assert_eq!(
        failure.as_deref(),
        Some("Cannot read file: stream did not contain valid UTF-8")
    );
}

#[test]
fn test_scan_invert_partitions_line_numbers() {
    // For a fixed file and matcher, the numbers reported with the invert
    // flag off and on are disjoint and together cover every line.
    let content = b"Rust is fun\nPlain line\nLove Rust!\nAnother plain one\n";
    let pattern = Matcher::new("Rust", false).unwrap();

    let (kept, _) = scan_content(content.to_vec(), &pattern, false);
    let (dropped, _) = scan_content(content.to_vec(), &pattern, true);

    let kept_numbers: Vec<usize> = kept.iter().map(|rec| rec.line_number).collect();
    let dropped_numbers: Vec<usize> = dropped.iter().map(|rec| rec.line_number).collect();

    assert_eq!(kept_numbers, vec![1, 3]);
    assert_eq!(dropped_numbers, vec![2, 4]);
    for n in &kept_numbers {
        assert!(!dropped_numbers.contains(n));
    }
    let mut all: Vec<usize> = kept_numbers
        .iter()
        .chain(dropped_numbers.iter())
        .copied()
        .collect();
    all.sort();
    assert_eq!(all, vec![1, 2, 3, 4]);
}

#[test]
fn test_matcher_rejects_invalid_pattern() {
    assert!(Matcher::new("foo(bar", false).is_err());
}

#[test]
fn test_matcher_polarity_is_case_sensitive() {
    let pattern = Matcher::new("Rust", false).unwrap();

    let (hit, _) = scan_content(b"Hello, Rust!\n".to_vec(), &pattern, false);
    assert_eq!(hit.len(), 1);

    let (miss, _) = scan_content(b"hello, rust!\n".to_vec(), &pattern, false);
    assert!(miss.is_empty());
}

#[test]
fn test_to_case_insensitive_folds_case() {
    let pattern = Matcher::new("rust", false).unwrap();
    let (strict, _) = scan_content(b"RUST\n".to_vec(), &pattern, false);
    assert!(strict.is_empty());

    let folded = to_case_insensitive(&pattern).unwrap();
    let (relaxed, _) = scan_content(b"RUST\nrust\nno match here\n".to_vec(), &folded, false);
    let numbers: Vec<usize> = relaxed.iter().map(|rec| rec.line_number).collect();
    assert_eq!(numbers, vec![1, 2]);
}

#[test]
fn test_case_insensitive_scan() {
    let content = b"RUST IS LOUD\nquiet rust\nnothing\n".to_vec();
    let pattern = Matcher::new("rust", true).unwrap();

    let (records, failure) = scan_content(content, &pattern, false);

    assert!(failure.is_none());
    let numbers: Vec<usize> = records.iter().map(|rec| rec.line_number).collect();
    assert_eq!(numbers, vec![1, 2]);
}

#[test]
fn test_format_match_line() {
    let record = minigrep::reader::ReadResult {
        line_content: String::from("Hello, Rust!"),
        line_number: 42,
    };
    let line = minigrep::report::format_match_line("notes/todo.txt", &record);
    assert_eq!(line, "notes/todo.txt (42): Hello, Rust!");
}

#[test]
fn test_line_number_text_exact_digits() {
    assert_eq!(minigrep::report::line_number_text(0), "0");
    assert_eq!(minigrep::report::line_number_text(7), "7");
    assert_eq!(minigrep::report::line_number_text(120), "120");
    assert_eq!(minigrep::report::line_number_text(98765), "98765");
}
