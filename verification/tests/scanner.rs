

#[test]
fn scanner_test_scan_empty() {
    let scanner = kowito_json::scanner::Scanner::new(b"");
    let mut tape = vec![0; 10];
    let count = scanner.scan(&mut tape);
    assert_eq!(count, 0);
}

#[test]
fn scanner_test_scan_simple_object() {
    let json = b"{\"key\":\"value\"}";
    let scanner = kowito_json::scanner::Scanner::new(json);
    let mut tape = vec![0; 10];
    let count = scanner.scan(&mut tape);

    // Expected structural characters:
    // '{' at 0
    // '"' at 1 (start string)
    // '"' at 5 (end string)
    // ':' at 6
    // '"' at 7 (start string)
    // '"' at 13 (end string)
    // '}' at 14
    assert_eq!(count, 7);
    assert_eq!(&tape[..count], &[0, 1, 5, 6, 7, 13, 14]);
}

#[test]
fn scanner_test_scan_with_escaped_quotes() {
    let json = br#"{"key":"val\"ue"}"#;
    let scanner = kowito_json::scanner::Scanner::new(json);
    let mut tape = vec![0; 10];
    let count = scanner.scan(&mut tape);

    // Expected structural characters:
    // '{' at 0
    // '"' at 1 (start string)
    // '"' at 5 (end string)
    // ':' at 6
    // '"' at 7 (start string)
    // The \" at 11,12 should NOT trigger a tape entry
    // '"' at 15 (end string)
    // '}' at 16
    assert_eq!(count, 7);
    assert_eq!(&tape[..count], &[0, 1, 5, 6, 7, 15, 16]);
}

#[test]
fn scanner_test_scan_array_and_primitives() {
    let json = b"[1, true, null]";
    let scanner = kowito_json::scanner::Scanner::new(json);
    let mut tape = vec![0; 10];
    let count = scanner.scan(&mut tape);

    // '[' at 0, ',' at 2, ',' at 8, ']' at 14
    assert_eq!(count, 4);
    assert_eq!(&tape[..count], &[0, 2, 8, 14]);
}

#[test]
fn scanner_test_tape_overflow_safety() {
    let json = b"[1,2,3,4,5]";
    let scanner = kowito_json::scanner::Scanner::new(json);
    // tape too small
    let mut tape = vec![0; 2]; 
    let count = scanner.scan(&mut tape);

    // Scanner should not panic, and count should not exceed tape.len()
    assert_eq!(count, 2); 
}

#[test]
fn scanner_test_scan_numbers() {
    let json = b"[123, -4.56, 7e8, -9.01E-2]";
    let scanner = kowito_json::scanner::Scanner::new(json);
    let mut tape = vec![0; 10];
    let count = scanner.scan(&mut tape);

    // Expected structural characters:
    // '[' at 0
    // ',' at 4
    // ',' at 11
    // ',' at 16
    // ']' at 26
    assert_eq!(count, 5);
    assert_eq!(&tape[..count], &[0, 4, 11, 16, 26]);
}

#[test]
fn scanner_test_scan_incomplete_string() {
    let json = b"{\"key\":\"val"; // Missing closing quote
    let scanner = kowito_json::scanner::Scanner::new(json);
    let mut tape = vec![0; 10];
    let count = scanner.scan(&mut tape);

    // Should capture:
    // '{' at 0
    // '"' at 1
    // '"' at 5
    // ':' at 6
    // '"' at 7
    assert_eq!(count, 5);
    assert_eq!(&tape[..count], &[0, 1, 5, 6, 7]);
}

#[test]
fn scanner_test_scan_only_whitespace() {
    let json = b" \n \t \r ";
    let scanner = kowito_json::scanner::Scanner::new(json);
    let mut tape = vec![0; 10];
    let count = scanner.scan(&mut tape);
    assert_eq!(count, 0); // No structural characters
}

#[test]
fn generic_test_scan_empty() {
    let scanner = kowito_json::scanner::generic::Scanner::new(b"");
    let mut tape = vec![0; 10];
    let count = scanner.scan(&mut tape);
    assert_eq!(count, 0);
}

#[test]
fn generic_test_scan_simple_object() {
    let json = b"{\"key\":\"value\"}";
    let scanner = kowito_json::scanner::generic::Scanner::new(json);
    let mut tape = vec![0; 10];
    let count = scanner.scan(&mut tape);

    // Expected structural characters:
    // '{' at 0
    // '"' at 1 (start string)
    // '"' at 5 (end string)
    // ':' at 6
    // '"' at 7 (start string)
    // '"' at 13 (end string)
    // '}' at 14
    assert_eq!(count, 7);
    assert_eq!(&tape[..count], &[0, 1, 5, 6, 7, 13, 14]);
}

#[test]
fn generic_test_scan_with_escaped_quotes() {
    let json = br#"{"key":"val\"ue"}"#;
    let scanner = kowito_json::scanner::generic::Scanner::new(json);
    let mut tape = vec![0; 10];
    let count = scanner.scan(&mut tape);

    // Expected structural characters:
    // '{' at 0
    // '"' at 1 (start string)
    // '"' at 5 (end string)
    // ':' at 6
    // '"' at 7 (start string)
    // The \" at 11,12 should NOT trigger a tape entry
    // '"' at 15 (end string)
    // '}' at 16
    assert_eq!(count, 7);
    assert_eq!(&tape[..count], &[0, 1, 5, 6, 7, 15, 16]);
}

#[test]
fn generic_test_scan_array_and_primitives() {
    let json = b"[1, true, null]";
    let scanner = kowito_json::scanner::generic::Scanner::new(json);
    let mut tape = vec![0; 10];
    let count = scanner.scan(&mut tape);

    // '[' at 0, ',' at 2, ',' at 8, ']' at 14
    assert_eq!(count, 4);
    assert_eq!(&tape[..count], &[0, 2, 8, 14]);
}

#[test]
fn generic_test_tape_overflow_safety() {
    let json = b"[1,2,3,4,5]";
    let scanner = kowito_json::scanner::generic::Scanner::new(json);
    // tape too small
    let mut tape = vec![0; 2]; 
    let count = scanner.scan(&mut tape);

    // Scanner should not panic, and count should not exceed tape.len()
    assert_eq!(count, 2); 
}

#[test]
fn generic_test_scan_numbers() {
    let json = b"[123, -4.56, 7e8, -9.01E-2]";
    let scanner = kowito_json::scanner::generic::Scanner::new(json);
    let mut tape = vec![0; 10];
    let count = scanner.scan(&mut tape);

    // Expected structural characters:
    // '[' at 0
    // ',' at 4
    // ',' at 11
    // ',' at 16
    // ']' at 26
    assert_eq!(count, 5);
    assert_eq!(&tape[..count], &[0, 4, 11, 16, 26]);
}

#[test]
fn generic_test_scan_incomplete_string() {
    let json = b"{\"key\":\"val"; // Missing closing quote
    let scanner = kowito_json::scanner::generic::Scanner::new(json);
    let mut tape = vec![0; 10];
    let count = scanner.scan(&mut tape);

    // Should capture:
    // '{' at 0
    // '"' at 1
    // '"' at 5
    // ':' at 6
    // '"' at 7
    assert_eq!(count, 5);
    assert_eq!(&tape[..count], &[0, 1, 5, 6, 7]);
}

#[test]
fn generic_test_scan_only_whitespace() {
    let json = b" \n \t \r ";
    let scanner = kowito_json::scanner::generic::Scanner::new(json);
    let mut tape = vec![0; 10];
    let count = scanner.scan(&mut tape);
    assert_eq!(count, 0); // No structural characters
}

#[test]
fn test_dynamic_scan_simple_object() {
    let json = b"{\"key\":\"value\"}";
    let scanner = kowito_json::scanner::Scanner::new(json);
    let mut tape = vec![0; 10];
    let count = scanner.scan(&mut tape);

    assert_eq!(count, 7);
    assert_eq!(&tape[..count], &[0, 1, 5, 6, 7, 13, 14]);
}

#[test]
fn test_dynamic_scan_with_escaped_quotes() {
    let json = br#"{"key":"val\"ue"}"#;
    let scanner = kowito_json::scanner::Scanner::new(json);
    let mut tape = vec![0; 10];
    let count = scanner.scan(&mut tape);

    assert_eq!(count, 7);
    assert_eq!(&tape[..count], &[0, 1, 5, 6, 7, 15, 16]);
}

#[test]
fn test_dynamic_scan_array_and_primitives() {
    let json = b"[1, true, null]";
    let scanner = kowito_json::scanner::Scanner::new(json);
    let mut tape = vec![0; 10];
    let count = scanner.scan(&mut tape);

    assert_eq!(count, 4);
    assert_eq!(&tape[..count], &[0, 2, 8, 14]);
}

/// Regression test for cross-block string detection.
///
/// The input is 133 bytes, forcing two full 64-byte SIMD iterations.
/// A `[` sits at byte 64 (first byte of the second 64-byte block) inside a
/// string value that opens at byte 61 and closes at byte 121.  The scanner
/// must:
///   1. NOT emit position 64 (`[` inside string).
///   2. Carry the in-string state correctly from block 0 into block 1.
///   3. Handle the 5-byte scalar tail (bytes 128-132) with the correct
///      out-of-string carry (the value string was already closed at 121).
///
/// Layout (block boundaries at byte 0 / 64 / 128):
///   block 0 (bytes   0– 63)
///     0      : {
///     1      : " (open key)
///     2– 58  : A × 57  (key chars)
///     59     : " (close key)
///     60     : :
///     61     : " (open value)
///     62– 63 : a × 2   (string interior, end of block 0)
///   block 1 (bytes  64–127)
///     64     : [  ← inside string → SUPPRESSED
///     65–120 : a × 56  (string interior)
///     121    : " (close value)
///     122    : ,
///     123    : " (open k2)
///     124–125: k 2
///     126    : " (close k2)
///     127    : :
///   scalar tail (bytes 128–132)  — starts OUTSIDE string
///     128    : " (open v2)
///     129–130: v 2
///     131    : " (close v2)
///     132    : }
///
/// Expected tape: [0,1,59,60,61, 121,122,123,126,127,128,131,132]
#[test]
fn test_dynamic_scan_string_spans_64byte_boundary() {
    let mut json = Vec::with_capacity(140);
    json.extend_from_slice(b"{\""); //   0– 1 : { "
    json.extend(std::iter::repeat_n(b'A', 57)); //   2–58 : key (57 As)
    json.extend_from_slice(b"\":\""); // 59–61 : " : "
    json.extend(std::iter::repeat_n(b'a', 2)); // 62–63 : end of block 0 (inside string)
    // --- 64-byte block boundary ---
    json.extend_from_slice(b"["); //    64 : structural INSIDE string → suppressed
    json.extend(std::iter::repeat_n(b'a', 56)); // 65–120: string interior
    json.extend_from_slice(b"\",\"k2\":"); // 121–127: " , " k 2 " :
    // --- scalar tail (5 bytes, starts outside string) ---
    json.extend_from_slice(b"\"v2\"}"); // 128–132: " v 2 " }

    assert_eq!(json.len(), 133, "input length sanity check");

    let scanner = kowito_json::scanner::Scanner::new(&json);
    let mut tape = vec![0u32; 20];
    let count = scanner.scan(&mut tape);

    assert_eq!(
        &tape[..count],
        &[0, 1, 59, 60, 61, 121, 122, 123, 126, 127, 128, 131, 132],
        "unexpected tape; count={count}"
    );
}
