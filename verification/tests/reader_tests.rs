use minigrep::matcher::Matcher;
use minigrep::reader::{FileReader, ReadResult};
use minigrep::types::OptionalResult;

/// The content of a file written as one chunk followed by a newline, the way
/// a line-oriented writer leaves it.
fn file_bytes(content: &str) -> Vec<u8> {
    let mut text = String::from(content);
    text.push('\n');
    text.into_bytes()
}

fn matcher(pattern: &str) -> Matcher {
    Matcher::new(pattern, false).expect("pattern must compile")
}

#[test]
fn test_read_empty() {
    let mut reader = FileReader::new(file_bytes(""));
    let read_result = reader.read_next(&matcher("."), false);

    assert!(matches!(read_result, OptionalResult::Exhausted));
}

#[test]
fn test_read_single_line_match() {
    let mut reader = FileReader::new(file_bytes("Hello, Rust!"));
    let read_result = reader.read_next(&matcher("Rust"), false);

    assert!(matches!(read_result, OptionalResult::Matched(ReadResult { .. })));
    if let OptionalResult::Matched(result) = read_result {
        assert_eq!(result.line_content, "Hello, Rust!");
        assert_eq!(result.line_number, 1);
    }
}

#[test]
fn test_read_multiple_matches() {
    let mut reader = FileReader::new(file_bytes("Rust\nIs\nCool"));
    let regex = matcher(".*");

    // First match
    let result1 = reader.read_next(&regex, false);
    assert!(matches!(result1, OptionalResult::Matched(_)));
    if let OptionalResult::Matched(read_result) = result1 {
        assert_eq!(read_result.line_content, "Rust");
        assert_eq!(read_result.line_number, 1);
    }

    // Second match
    let result2 = reader.read_next(&regex, false);
    assert!(matches!(result2, OptionalResult::Matched(_)));
    if let OptionalResult::Matched(read_result) = result2 {
        assert_eq!(read_result.line_content, "Is");
        assert_eq!(read_result.line_number, 2);
    }

    // Third match
    let result3 = reader.read_next(&regex, false);
    assert!(matches!(result3, OptionalResult::Matched(_)));
    if let OptionalResult::Matched(read_result) = result3 {
        assert_eq!(read_result.line_content, "Cool");
        assert_eq!(read_result.line_number, 3);
    }

    // No more matches
    let result4 = reader.read_next(&regex, false);
    assert!(matches!(result4, OptionalResult::Exhausted));
}

#[test]
fn test_read_no_match() {
    let mut reader = FileReader::new(file_bytes("No patterns here!"));
    let read_result = reader.read_next(&matcher("Rust"), false);

    assert!(matches!(read_result, OptionalResult::Exhausted));
}

#[test]
fn test_read_with_special_characters() {
    let mut reader = FileReader::new(file_bytes("Hello, [Rust]!\nSpecial (characters)?"));
    let regex = matcher(r"\[Rust\]");

    // Match for `[Rust]`
    let result = reader.read_next(&regex, false);
    assert!(matches!(result, OptionalResult::Matched(_)));
    if let OptionalResult::Matched(read_result) = result {
        assert_eq!(read_result.line_content, "Hello, [Rust]!");
        assert_eq!(read_result.line_number, 1);
    }

    // No more matches
    let result = reader.read_next(&regex, false);
    assert!(matches!(result, OptionalResult::Exhausted));
}

#[test]
fn test_read_partial_matches() {
    let mut reader = FileReader::new(file_bytes("Rust is fun\nRustaceans rule\nLove Rust!"));
    let regex = matcher("Rust");

    // First match
    let result1 = reader.read_next(&regex, false);
    assert!(matches!(result1, OptionalResult::Matched(_)));
    if let OptionalResult::Matched(read_result) = result1 {
        assert_eq!(read_result.line_content, "Rust is fun");
        assert_eq!(read_result.line_number, 1);
    }

    // Second match
    let result2 = reader.read_next(&regex, false);
    assert!(matches!(result2, OptionalResult::Matched(_)));
    if let OptionalResult::Matched(read_result) = result2 {
        assert_eq!(read_result.line_content, "Rustaceans rule");
        assert_eq!(read_result.line_number, 2);
    }
}

#[test]
fn test_read_zero_bytes() {
    // A file with zero lines: the very first pull is Exhausted, never a
    // match or a failure.
    let mut reader = FileReader::new(Vec::new());
    let read_result = reader.read_next(&matcher(".*"), false);

    assert!(matches!(read_result, OptionalResult::Exhausted));
}

#[test]
fn test_read_final_line_without_terminator() {
    // The final line lacks its newline; it still counts as a whole line and
    // no reported content carries a terminator.
    let mut reader = FileReader::new(b"Rust\nIs\nCool".to_vec());
    let regex = matcher(".*");

    for (number, content) in [(1usize, "Rust"), (2, "Is"), (3, "Cool")] {
        let result = reader.read_next(&regex, false);
        assert!(matches!(result, OptionalResult::Matched(_)));
        if let OptionalResult::Matched(read_result) = result {
            assert_eq!(read_result.line_content, content);
            assert_eq!(read_result.line_number, number);
            assert!(!read_result.line_content.ends_with('\n'));
        }
    }
    assert!(matches!(reader.read_next(&regex, false), OptionalResult::Exhausted));
}

#[test]
fn test_read_invert_skips_matching_lines() {
    let mut reader = FileReader::new(file_bytes("Rust is fun\nPlain line\nLove Rust!"));
    let regex = matcher("Rust");

    let result = reader.read_next(&regex, true);
    assert!(matches!(result, OptionalResult::Matched(_)));
    if let OptionalResult::Matched(read_result) = result {
        assert_eq!(read_result.line_content, "Plain line");
        assert_eq!(read_result.line_number, 2);
    }

    assert!(matches!(reader.read_next(&regex, true), OptionalResult::Exhausted));
}

#[test]
fn test_read_invalid_utf8_fails_and_stays_failed() {
    // 0xff never occurs in UTF-8, so the single line cannot be read as text.
    let mut reader = FileReader::new(vec![0xff, 0xfe, b'\n']);
    let regex = matcher(".*");

    let result = reader.read_next(&regex, false);
    assert!(matches!(result, OptionalResult::Failed(_)));
    if let OptionalResult::Failed(message) = result {
        assert_eq!(message, "Cannot read file: stream did not contain valid UTF-8");
    }

    // A failed source never resumes.
    let again = reader.read_next(&regex, false);
    assert!(matches!(again, OptionalResult::Failed(_)));
}

#[test]
fn test_read_counts_skipped_lines() {
    // The counter advances on skipped lines too, so reported numbers are
    // positions in the file, not match-relative indices.
    let mut reader = FileReader::new(file_bytes("zero\nzero\nRust\nzero\nRust"));
    let regex = matcher("Rust");

    let result1 = reader.read_next(&regex, false);
    assert!(matches!(result1, OptionalResult::Matched(_)));
    if let OptionalResult::Matched(read_result) = result1 {
        assert_eq!(read_result.line_number, 3);
    }

    let result2 = reader.read_next(&regex, false);
    assert!(matches!(result2, OptionalResult::Matched(_)));
    if let OptionalResult::Matched(read_result) = result2 {
        assert_eq!(read_result.line_number, 5);
    }

    assert!(matches!(reader.read_next(&regex, false), OptionalResult::Exhausted));
}
