use storage_manager::csv::{is_blank_line, split_fields, split_lines, trim_bytes};

fn b(s: &str) -> Vec<u8> {
    s.as_bytes().to_vec()
}

#[test]
fn split_fields_trims_each_value() {
    let fields = split_fields(&b("1, Alice ,  x"));
    assert_eq!(fields, vec![b("1"), b("Alice"), b("x")]);
}

#[test]
fn split_fields_keeps_empty_fields() {
    let fields = split_fields(&b("a,,b"));
    assert_eq!(fields, vec![b("a"), b(""), b("b")]);
    assert_eq!(split_fields(&b("")), vec![b("")]);
}

#[test]
fn trim_bytes_strips_ascii_whitespace() {
    assert_eq!(trim_bytes(&b("  Bob\t")), b("Bob"));
    assert_eq!(trim_bytes(&b("\r\n")), b(""));
    assert_eq!(trim_bytes(&b("a b")), b("a b"));
}

#[test]
fn blank_lines_are_detected() {
    assert!(is_blank_line(&b("")));
    assert!(is_blank_line(&b("   \t")));
    assert!(!is_blank_line(&b(" x ")));
}

#[test]
fn split_lines_handles_crlf_and_trailing_newline() {
    let lines = split_lines(&b("id,name\r\n1,Alice\n2,Bob\n"));
    assert_eq!(lines.len(), 4);
    assert_eq!(lines[0], b("id,name"));
    assert_eq!(lines[1], b("1,Alice"));
    assert_eq!(lines[2], b("2,Bob"));
    assert_eq!(lines[3], b(""));
}
