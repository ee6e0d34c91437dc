use television::channel::{Channel, CrawlSignal, MAX_FILE_SIZE};
use television::entry::{Entry, PreviewType};

#[test]
fn test_empty_roots_completes_immediately_with_zero_total() {
    let mut ch = Channel::new(Vec::new(), String::new());
    assert_eq!(ch.total_count(), 0);
    assert!(!ch.running());
    // A crawl event after completion is refused and changes nothing.
    let sig = ch.ingest_discovered("late.txt", 5, b"line\n");
    assert_eq!(sig, CrawlSignal::Quit);
    assert_eq!(ch.total_count(), 0);
}

#[test]
fn test_crawl_scenario_text_and_binary() {
    let mut ch = Channel::new(vec!["root".to_string()], "root".to_string());
    assert_eq!(
        ch.ingest_discovered("root/a.txt", 12, b"hello\nworld\n"),
        CrawlSignal::Continue
    );
    assert_eq!(
        ch.ingest_discovered("root/b.bin", 4, &[0u8, 0, 0, 0]),
        CrawlSignal::Continue
    );
    ch.finish_crawl();
    assert_eq!(ch.total_count(), 2);
    ch.find("hel");
    let rs = ch.results(10, 0);
    assert_eq!(rs.len(), 1);
    assert_eq!(rs[0].line_number, Some(1));
    assert_eq!(rs[0].value.as_deref(), Some("hello"));
    assert_eq!(rs[0].display_name.as_deref(), Some("a.txt"));
}

#[test]
fn test_oversized_file_skipped() {
    let mut ch = Channel::new(vec!["root".to_string()], "root".to_string());
    let sig = ch.ingest_discovered("root/huge.log", MAX_FILE_SIZE + 1, b"never read\n");
    assert_eq!(sig, CrawlSignal::Continue);
    assert_eq!(
        ch.ingest_discovered("root/small.txt", 6, b"small\n"),
        CrawlSignal::Continue
    );
    ch.finish_crawl();
    assert_eq!(ch.total_count(), 1);
    ch.find("");
    let rs = ch.results(10, 0);
    assert_eq!(rs.len(), 1);
    assert_eq!(rs[0].value.as_deref(), Some("small"));
}

#[test]
fn test_shutdown_freezes_results() {
    let mut ch = Channel::new(vec!["root".to_string()], "root".to_string());
    ch.ingest_discovered("root/a.txt", 10, b"aaaa\nbbbb\n");
    ch.shutdown();
    // Ingestion after shutdown is refused.
    assert_eq!(
        ch.ingest_discovered("root/c.txt", 5, b"cccc\n"),
        CrawlSignal::Quit
    );
    assert_eq!(ch.total_count(), 2);
    ch.find("");
    let first = ch.results(10, 0);
    let second = ch.results(10, 0);
    assert_eq!(first.len(), 2);
    assert_eq!(first.len(), second.len());
    for (a, b) in first.iter().zip(second.iter()) {
        assert_eq!(a.name, b.name);
        assert_eq!(a.value, b.value);
        assert_eq!(a.line_number, b.line_number);
        assert_eq!(a.value_match_ranges, b.value_match_ranges);
    }
    assert_eq!(ch.total_count(), 2);
}

#[test]
fn test_shutdown_is_idempotent() {
    let mut ch = Channel::new(vec!["r".to_string()], String::new());
    ch.shutdown();
    ch.shutdown();
    assert_eq!(ch.total_count(), 0);
}

#[test]
fn test_result_entry_fields() {
    let mut ch = Channel::new(vec!["root".to_string()], "root".to_string());
    ch.ingest_discovered("root/a.txt", 6, b"hello\n");
    ch.finish_crawl();
    ch.find("hl");
    let rs = ch.results(10, 0);
    assert_eq!(rs.len(), 1);
    let e = &rs[0];
    // The entry name is the display path with the line number appended.
    assert_eq!(e.name, "a.txt1");
    // Highlight ranges are the greedy byte positions of the query.
    assert_eq!(e.value_match_ranges.as_deref(), Some(&[(0, 1), (2, 3)][..]));
    // The icon hint comes from the icon library, keyed by the path.
    assert_eq!(e.icon, Some(devicons::FileIcon::from("a.txt").icon));
}

#[test]
fn test_get_result_formats_location() {
    let mut ch = Channel::new(vec!["root".to_string()], "root".to_string());
    ch.ingest_discovered("root/a.txt", 18, b"alpha\nbeta\nhit me\n");
    ch.finish_crawl();
    ch.find("hit");
    ch.results(10, 0);
    let e = ch.get_result(0).unwrap();
    assert_eq!(e.name, "a.txt");
    assert_eq!(e.display_name.as_deref(), Some("a.txt:3"));
    assert_eq!(e.line_number, Some(3));
    assert!(ch.get_result(1).is_none());
}

#[test]
fn test_counts_are_live_during_ingestion() {
    let mut ch = Channel::new(vec!["root".to_string()], String::new());
    ch.find("a");
    ch.ingest_discovered("one.txt", 10, b"aaaa\nbbbb\n");
    assert_eq!(ch.total_count(), 2);
    assert!(ch.running());
    ch.results(0, 0);
    assert_eq!(ch.result_count(), 1);
    ch.ingest_discovered("two.txt", 5, b"aabb\n");
    assert_eq!(ch.total_count(), 3);
    ch.results(0, 0);
    assert_eq!(ch.result_count(), 2);
}

#[test]
fn test_from_text_entries_keeps_metadata() {
    let mut entries = Vec::new();
    let e = Entry::new("src/lib.rs".to_string(), PreviewType::Files)
        .with_value("let x = 1;".to_string())
        .with_line_number(42);
    entries.push(e);
    let mut ch = Channel::from_text_entries(entries);
    assert_eq!(ch.total_count(), 1);
    ch.find("let");
    let rs = ch.results(10, 0);
    assert_eq!(rs.len(), 1);
    assert_eq!(rs[0].display_name.as_deref(), Some("src/lib.rs"));
    assert_eq!(rs[0].value.as_deref(), Some("let x = 1;"));
    assert_eq!(rs[0].line_number, Some(42));
}
