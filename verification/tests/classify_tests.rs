use television::classify::is_searchable_text;

#[test]
fn test_empty_sample_not_searchable() {
    assert!(!is_searchable_text(&[]));
}

#[test]
fn test_printable_text_searchable() {
    assert!(is_searchable_text(b"fn main() { println!(\"hello\"); }"));
}

#[test]
fn test_all_null_not_searchable() {
    assert!(!is_searchable_text(&[0u8; 128]));
}

#[test]
fn test_single_null_rejects_sample() {
    assert!(!is_searchable_text(b"almost text\0but with a null"));
}

#[test]
fn test_majority_non_printable_not_searchable() {
    let mut sample = Vec::new();
    for _ in 0..60 {
        sample.push(b'a');
    }
    for _ in 0..40 {
        sample.push(1u8);
    }
    // 60 printable out of 100 is under the seven-tenths threshold.
    assert!(!is_searchable_text(&sample));
}

#[test]
fn test_threshold_boundary() {
    // Exactly 7 printable bytes out of 10 meets the threshold.
    let sample = [b'a', b'a', b'a', b'a', b'a', b'a', b'a', 1u8, 1u8, 1u8];
    assert!(is_searchable_text(&sample));
    // 6 out of 10 falls short (the tenth byte is a control byte).
    let sample2 = [b'a', b'a', b'a', b'a', b'a', b'a', 1u8, 1u8, 1u8, 1u8];
    assert!(!is_searchable_text(&sample2));
}

#[test]
fn test_newlines_count_as_non_printable() {
    // A sample that is half line feeds is rejected.
    let sample = [b'a', b'\n', b'\n', b'\n'];
    assert!(!is_searchable_text(&sample));
}
