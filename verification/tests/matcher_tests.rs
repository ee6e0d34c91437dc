use television::entry::CandidateLine;
use television::matcher::{match_positions, query_matches, Matcher, TICK_CHUNK};

#[test]
fn test_query_matches_subsequence() {
    assert!(query_matches(b"hel", b"hello"));
    assert!(query_matches(b"hlo", b"hello"));
    assert!(query_matches(b"", b"anything"));
    assert!(!query_matches(b"hel", b"world"));
    assert!(!query_matches(b"x", b""));
}

#[test]
fn test_match_positions_greedy_leftmost() {
    let p = match_positions(b"ab", b"xaxb").unwrap();
    assert_eq!(p, vec![1, 3]);
}

#[test]
fn test_match_positions_none_when_no_match() {
    assert!(match_positions(b"abc", b"ab").is_none());
}

fn cand(text: &str, n: usize) -> CandidateLine {
    CandidateLine::new("p.txt".to_string(), text.to_string(), n)
}

#[test]
fn test_matcher_counts_and_running() {
    let mut m = Matcher::new();
    m.push(cand("alpha", 1));
    m.push(cand("beta", 2));
    m.push(cand("gamma", 3));
    assert_eq!(m.total_item_count(), 3);
    // Nothing processed yet for the (empty) query.
    assert!(m.running());
    m.find("a");
    m.tick();
    assert!(!m.running());
    assert_eq!(m.matched_item_count(), 3);
    m.find("mm");
    assert_eq!(m.matched_item_count(), 0);
    m.tick();
    assert_eq!(m.matched_item_count(), 1);
}

#[test]
fn test_matcher_results_in_insertion_order() {
    let mut m = Matcher::new();
    m.push(cand("one", 1));
    m.push(cand("two", 2));
    m.push(cand("three", 3));
    m.find("e");
    m.tick();
    let rs = m.results(10, 0);
    assert_eq!(rs.len(), 2);
    assert_eq!(rs[0].inner.line_number, 1);
    assert_eq!(rs[1].inner.line_number, 3);
}

#[test]
fn test_matcher_results_pagination() {
    let mut m = Matcher::new();
    for i in 1..=5usize {
        m.push(cand("line", i));
    }
    m.find("");
    m.tick();
    let page = m.results(2, 1);
    assert_eq!(page.len(), 2);
    assert_eq!(page[0].inner.line_number, 2);
    assert_eq!(page[1].inner.line_number, 3);
    assert_eq!(m.results(10, 4).len(), 1);
    assert_eq!(m.results(10, 5).len(), 0);
    assert_eq!(m.results(10, 99).len(), 0);
}

#[test]
fn test_matcher_match_indices_ranges() {
    let mut m = Matcher::new();
    m.push(cand("xaxb", 1));
    m.find("ab");
    m.tick();
    let rs = m.results(1, 0);
    assert_eq!(rs[0].match_indices, vec![(1, 2), (3, 4)]);
}

#[test]
fn test_matcher_get_result_bounds() {
    let mut m = Matcher::new();
    m.push(cand("abc", 1));
    m.find("b");
    m.tick();
    assert!(m.get_result(0).is_some());
    assert!(m.get_result(1).is_none());
}

#[test]
fn test_tick_advances_in_bounded_steps() {
    let mut m = Matcher::new();
    let n = TICK_CHUNK + 7;
    for i in 1..=n {
        m.push(cand("z", i));
    }
    m.find("z");
    m.tick();
    assert!(m.running());
    assert_eq!(m.matched_item_count() as usize, TICK_CHUNK);
    m.tick();
    assert!(!m.running());
    assert_eq!(m.matched_item_count() as usize, n);
}

#[test]
fn test_push_during_query_is_seen_by_later_ticks() {
    let mut m = Matcher::new();
    m.push(cand("apple", 1));
    m.find("app");
    m.tick();
    assert_eq!(m.matched_item_count(), 1);
    m.push(cand("applesauce", 2));
    assert!(m.running());
    m.tick();
    assert_eq!(m.matched_item_count(), 2);
}
