use television::channel::Channel;
use television::compose::{dirs_snapshot, pipe_from_text, piped_files_snapshot, MAX_PIPED_FILES};
use television::entry::{Entry, PreviewType};

fn listing_channel(n: usize) -> Channel {
    let mut entries = Vec::new();
    for i in 0..n {
        let name = format!("dir/file{i}.txt");
        let e = Entry::new(name.clone(), PreviewType::Files)
            .with_value(name)
            .with_line_number(1);
        entries.push(e);
    }
    let mut ch = Channel::from_text_entries(entries);
    ch.find("");
    while ch.running() {
        ch.results(0, 0);
    }
    ch
}

#[test]
fn test_piped_files_snapshot_respects_cap() {
    let mut source = listing_channel(MAX_PIPED_FILES + 1);
    assert_eq!(source.result_count() as usize, MAX_PIPED_FILES + 1);
    let snapshot = piped_files_snapshot(&mut source);
    assert_eq!(snapshot.len(), MAX_PIPED_FILES);
}

#[test]
fn test_piped_files_snapshot_takes_all_under_cap() {
    let mut source = listing_channel(3);
    let snapshot = piped_files_snapshot(&mut source);
    assert_eq!(snapshot.len(), 3);
    assert_eq!(snapshot[0].display_name.as_deref(), Some("dir/file0.txt"));
}

#[test]
fn test_dirs_snapshot_takes_everything() {
    let mut source = listing_channel(5);
    let snapshot = dirs_snapshot(&mut source);
    assert_eq!(snapshot.len(), 5);
}

#[test]
fn test_pipe_two_files_then_shutdown() {
    let mut source = listing_channel(2);
    let snapshot = piped_files_snapshot(&mut source);
    assert_eq!(snapshot.len(), 2);
    let paths: Vec<String> = snapshot
        .iter()
        .map(|e| e.display_name.clone().unwrap_or_else(|| e.name.clone()))
        .collect();
    let mut piped = Channel::from_file_paths(paths, String::new());
    piped.shutdown();
    // Shut down before any ingestion: the driver gets no file to read, the
    // channel does not panic, and the result set is whatever was ingested.
    assert!(piped.take_next_piped().is_none());
    piped.find("");
    assert_eq!(piped.results(10, 0).len(), 0);
    assert_eq!(piped.total_count(), 0);
}

#[test]
fn test_piped_channel_partial_ingestion_before_shutdown() {
    let mut piped = Channel::from_file_paths(
        vec!["a.txt".to_string(), "b.txt".to_string()],
        String::new(),
    );
    let first = piped.take_next_piped().unwrap();
    assert_eq!(first, "a.txt");
    assert_eq!(piped.ingest_piped(&first, b"alpha\n"), Some(1));
    piped.shutdown();
    assert!(piped.take_next_piped().is_none());
    assert_eq!(piped.ingest_piped("b.txt", b"beta\n"), None);
    piped.find("");
    let rs = piped.results(10, 0);
    assert_eq!(rs.len(), 1);
    assert_eq!(rs[0].value.as_deref(), Some("alpha"));
}

#[test]
fn test_piped_list_exhaustion_completes_crawl() {
    let mut piped = Channel::from_file_paths(vec!["only.txt".to_string()], String::new());
    assert_eq!(piped.take_next_piped().unwrap(), "only.txt");
    piped.ingest_piped("only.txt", b"one\ntwo\n");
    assert!(piped.take_next_piped().is_none());
    assert_eq!(piped.total_count(), 2);
}

#[test]
fn test_pipe_from_text_preserves_candidates() {
    let mut source = listing_channel(4);
    let mut piped = pipe_from_text(&mut source);
    assert_eq!(piped.total_count(), 4);
    piped.find("file2");
    let rs = piped.results(10, 0);
    assert_eq!(rs.len(), 1);
    assert_eq!(rs[0].value.as_deref(), Some("dir/file2.txt"));
    assert_eq!(rs[0].line_number, Some(1));
}
