use television::lines::{normalize_line, split_lines};
use television::matcher::Matcher;
use television::channel::try_inject_lines;

#[test]
fn test_split_lines_basic() {
    let lines = split_lines(b"hello\nworld\n");
    assert_eq!(lines.len(), 2);
    assert_eq!(lines[0], b"hello".to_vec());
    assert_eq!(lines[1], b"world".to_vec());
}

#[test]
fn test_split_lines_final_fragment_without_newline() {
    let lines = split_lines(b"a\nb");
    assert_eq!(lines.len(), 2);
    assert_eq!(lines[1], b"b".to_vec());
}

#[test]
fn test_split_lines_crlf_stripped() {
    let lines = split_lines(b"one\r\ntwo\r\n");
    assert_eq!(lines[0], b"one".to_vec());
    assert_eq!(lines[1], b"two".to_vec());
}

#[test]
fn test_split_lines_empty_content() {
    assert_eq!(split_lines(b"").len(), 0);
}

#[test]
fn test_split_lines_keeps_interior_empty_lines() {
    let lines = split_lines(b"a\n\nb\n");
    assert_eq!(lines.len(), 3);
    assert_eq!(lines[1], b"".to_vec());
}

#[test]
fn test_normalize_tab_becomes_space() {
    assert_eq!(normalize_line(b"a\tb"), b"a b".to_vec());
}

#[test]
fn test_normalize_strips_control_bytes() {
    assert_eq!(normalize_line(b"a\x01\x02b\x7f"), b"ab".to_vec());
}

#[test]
fn test_normalize_keeps_utf8_bytes() {
    assert_eq!(normalize_line("héllo".as_bytes()), "héllo".as_bytes().to_vec());
}

#[test]
fn test_inject_counts_non_empty_lines() {
    let mut m = Matcher::new();
    // Four physical lines, one of which normalizes to nothing.
    let r = try_inject_lines(&mut m, "", "f.txt", b"one\n\x01\nthree\nfour\n");
    assert_eq!(r, Some(3));
    assert_eq!(m.total_item_count(), 3);
}

#[test]
fn test_inject_line_numbers_are_physical() {
    let mut m = Matcher::new();
    try_inject_lines(&mut m, "", "f.txt", b"first\n\nsecond\n").unwrap();
    m.find("");
    m.tick();
    let items = m.results(10, 0);
    assert_eq!(items.len(), 2);
    assert_eq!(items[0].inner.line_number, 1);
    assert_eq!(items[1].inner.line_number, 3);
}

#[test]
fn test_inject_contiguous_numbering_without_empty_lines() {
    let mut m = Matcher::new();
    let r = try_inject_lines(&mut m, "", "f.txt", b"alpha\nbeta\ngamma\n");
    assert_eq!(r, Some(3));
    m.find("");
    m.tick();
    let items = m.results(10, 0);
    let numbers: Vec<usize> = items.iter().map(|it| it.inner.line_number).collect();
    assert_eq!(numbers, vec![1, 2, 3]);
}

#[test]
fn test_inject_skips_binary_file() {
    let mut m = Matcher::new();
    let r = try_inject_lines(&mut m, "", "b.bin", &[0u8, 0, 0, 0]);
    assert_eq!(r, None);
    assert_eq!(m.total_item_count(), 0);
}

#[test]
fn test_inject_empty_file_not_searchable() {
    let mut m = Matcher::new();
    assert_eq!(try_inject_lines(&mut m, "", "e.txt", b""), None);
}

#[test]
fn test_inject_invalid_utf8_aborts_file_keeping_prefix() {
    let mut m = Matcher::new();
    let r = try_inject_lines(&mut m, "", "f.txt", b"ok\n\xc3\x28zzzz\nmore\n");
    assert_eq!(r, Some(1));
    assert_eq!(m.total_item_count(), 1);
}

#[test]
fn test_inject_decodes_utf8_text() {
    let mut m = Matcher::new();
    try_inject_lines(&mut m, "", "f.txt", "héllo world line\n".as_bytes()).unwrap();
    m.find("");
    m.tick();
    let items = m.results(10, 0);
    assert_eq!(items[0].matched_string, "héllo world line");
}

#[test]
fn test_inject_relativizes_path() {
    let mut m = Matcher::new();
    try_inject_lines(&mut m, "/home/user", "/home/user/notes.txt", b"content line\n").unwrap();
    m.find("");
    m.tick();
    let items = m.results(10, 0);
    assert_eq!(items[0].inner.path, "notes.txt");
}

#[test]
fn test_inject_keeps_path_outside_base() {
    let mut m = Matcher::new();
    try_inject_lines(&mut m, "/home/user", "/etc/hosts", b"content line\n").unwrap();
    m.find("");
    m.tick();
    let items = m.results(10, 0);
    assert_eq!(items[0].inner.path, "/etc/hosts");
}
