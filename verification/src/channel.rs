//! The text-content channel: a search session binding crawled file content
//! to the live matcher, under the on-air lifecycle contract.
//!
//! The channel owns the decisions of the crawl: the ingestion budget, the
//! file-size gate, the text classification and the per-file line extraction.
//! Walking directories, reading files and scheduling the background task are
//! the caller's outside work; they hand the channel plain values.

use crate::classify::is_searchable_text;
use crate::classify::searchable_text;
use crate::classify::SAMPLE_SIZE;
use crate::entry::decimal_digits;
use crate::entry::file_icon;
use crate::entry::usize_to_string;
use crate::entry::CandidateLine;
use crate::entry::Entry;
use crate::entry::PreviewType;
use crate::lines::extracted;
use crate::lines::normalize_line;
use crate::lines::raw_lines;
use crate::lines::seq_views;
use crate::lines::split_lines;
use crate::lines::utf8_to_string;
use crate::lines::lemma_decode_nonempty;
use crate::lines::lemma_extract_from_count;
use crate::lines::lemma_raw_lines_count;
use crate::matcher::greedy_positions;
use crate::matcher::ranges_of_positions;
use crate::matcher::text_bytes;
use crate::matcher::Matcher;
use crate::matcher::MatchedItem;
use vstd::prelude::*;
use vstd::string::StrSliceExecFns;
use vstd::string::StringExecFns;
use vstd::string::StringSliceAdditionalSpecFns;
use vstd::utf8::decode_utf8;
use vstd::utf8::valid_utf8;

verus! {

/// The largest file the crawler is willing to search in.
pub const MAX_FILE_SIZE: u64 = 4 * 1024 * 1024;

/// The most lines a channel is willing to keep in memory.  This is a soft,
/// cooperative bound: the producer that crosses it finishes its current file
/// before it observes the counter.
pub const MAX_LINES_IN_MEM: usize = 5_000_000;

/// A path shown relative to the base directory when it lies under it, and
/// unchanged otherwise.
pub open spec fn rel_path_spec(p: Seq<char>, b: Seq<char>) -> Seq<char> {
    if b.len() < p.len() && p.take(b.len() as int) == b && p[b.len() as int] == '/' {
        p.skip(b.len() as int + 1)
    } else {
        p
    }
}

/// Strips the base directory prefix from a path that lies under it.
pub fn relativize(path: &str, base: &str) -> (r: String)
    ensures
        r@ == rel_path_spec(path@, base@),
{
    let np = path.unicode_len();
    let nb = base.unicode_len();
    if nb < np {
        let mut eq = true;
        let mut k: usize = 0;
        while k < nb && eq
            invariant
                np == path@.len(),
                nb == base@.len(),
                nb < np,
                0 <= k <= nb,
            eq ==> path@.take(k as int) == base@.take(k as int),
            !eq ==> path@.take(nb as int) != base@,
            decreases nb - k + (if eq { 1int } else { 0int }),
        {
            if path.get_char(k) != base.get_char(k) {
                proof {
                    assert(path@.take(nb as int)[k as int] != base@[k as int]);
                }
                eq = false;
            } else {
                proof {
                    assert(path@.take(k as int + 1) =~= path@.take(k as int).push(
                        path@[k as int],
                    ));
                    assert(base@.take(k as int + 1) =~= base@.take(k as int).push(
                        base@[k as int],
                    ));
                }
                k = k + 1;
            }
        }
        proof {
            if eq {
                assert(base@.take(nb as int) =~= base@);
            }
        }
        if eq && path.get_char(nb) == '/' {
            path.substring_char(nb + 1, np).to_owned()
        } else {
            path.to_owned()
        }
    } else {
        path.to_owned()
    }
}

/// What the extracted candidates of one file look like once appended to the
/// matcher: each carries the relative path, the decoded normalized text and
/// the physical line number of its source line.
pub open spec fn appended_candidates(
    items: Seq<CandidateLine>,
    old_len: int,
    rel: Seq<char>,
    ext: Seq<(nat, Seq<char>)>,
) -> bool {
    &&& items.len() == old_len + ext.len()
    &&& forall|j: int|
        0 <= j < ext.len() ==> {
            let c = #[trigger] items[old_len + j];
            &&& c.path@ == rel
            &&& c.line@ == ext[j].1
            &&& c.line_number == ext[j].0
        }
}

/// The first bytes of a file, as sampled for classification.
pub open spec fn sample_of(content: Seq<u8>) -> Seq<u8> {
    if content.len() < SAMPLE_SIZE {
        content
    } else {
        content.take(SAMPLE_SIZE as int)
    }
}

/// Classifies the file and, when it is searchable text, pushes one candidate
/// per non-empty normalized line into the matcher, with the path relative to
/// `base_dir` and 1-based physical line numbers, returning how many lines
/// were pushed.  An empty or non-text file pushes nothing.  A line that does
/// not decode stops the file, keeping what was already pushed.
pub fn try_inject_lines(matcher: &mut Matcher, base_dir: &str, path: &str, content: &[u8]) -> (r:
    Option<usize>)
    requires
        old(matcher).wf(),
        old(matcher).s_items().len() + content@.len() <= u32::MAX,
    ensures
        final(matcher).wf(),
        final(matcher).s_query() == old(matcher).s_query(),
        final(matcher).s_processed() == old(matcher).s_processed(),
        final(matcher).s_matched() == old(matcher).s_matched(),
        r is Some <==> content@.len() > 0 && searchable_text(sample_of(content@)),
        final(matcher).s_items().take(old(matcher).s_items().len() as int) == old(
            matcher,
        ).s_items(),
        r matches Some(n) ==> {
            &&& n == extracted(content@).len()
            &&& appended_candidates(
                final(matcher).s_items(),
                old(matcher).s_items().len() as int,
                rel_path_spec(path@, base_dir@),
                extracted(content@),
            )
        },
        r is None ==> final(matcher).s_items() == old(matcher).s_items(),
{
    let n = content.len();
    if n == 0 {
        proof {
            assert(matcher.s_items().take(old(matcher).s_items().len() as int) =~= old(
                matcher,
            ).s_items());
        }
        return None;
    }
    let sl: usize = if n < SAMPLE_SIZE {
        n
    } else {
        SAMPLE_SIZE
    };
    let sample = vstd::slice::slice_subrange(content, 0, sl);
    proof {
        if n < SAMPLE_SIZE {
            assert(sample@ =~= content@);
        }
    }
    if !is_searchable_text(sample) {
        proof {
            assert(matcher.s_items().take(old(matcher).s_items().len() as int) =~= old(
                matcher,
            ).s_items());
        }
        return None;
    }
    let rel = relativize(path, base_dir);
    let lines = split_lines(content);
    let ghost lseq = seq_views(lines@);
    let ghost total = extracted(content@);
    let ghost old_len = old(matcher).s_items().len() as int;
    proof {
        lemma_raw_lines_count(content@);
        lemma_extract_from_count(lseq, 1);
    }
    let nlines = lines.len();
    let mut injected: usize = 0;
    let mut aborted = false;
    let mut k: usize = 0;
    proof {
        assert(lseq.skip(0) =~= lseq);
        assert(total.take(0) + crate::lines::extract_from(lseq, 1) =~= total);
        assert(matcher.s_items().take(old_len) =~= old(matcher).s_items());
    }
    while k < nlines && !aborted
        invariant
            matcher.wf(),
            nlines == lines@.len(),
            lseq == seq_views(lines@),
            lseq == raw_lines(content@),
            total == extracted(content@),
            total.len() <= nlines <= content@.len(),
            old_len == old(matcher).s_items().len(),
            old_len + content@.len() <= u32::MAX,
            0 <= k <= nlines,
            0 <= injected <= total.len(),
            !aborted ==> total == total.take(injected as int) + crate::lines::extract_from(
                lseq.skip(k as int),
                (k + 1) as nat,
            ),
            aborted ==> injected == total.len(),
            matcher.s_items().len() == old_len + injected,
            matcher.s_items().take(old_len) == old(matcher).s_items(),
            appended_candidates(
                matcher.s_items(),
                old_len,
                rel_path_spec(path@, base_dir@),
                total.take(injected as int),
            ),
            matcher.s_query() == old(matcher).s_query(),
            matcher.s_processed() == old(matcher).s_processed(),
            matcher.s_matched() == old(matcher).s_matched(),
            rel@ == rel_path_spec(path@, base_dir@),
        decreases nlines - k + (if aborted { 0int } else { 1int }),
    {
        let ghost rest = lseq.skip(k as int);
        proof {
            assert(rest[0] == lseq[k as int]);
            assert(rest.skip(1) =~= lseq.skip(k as int + 1));
        }
        let nb = normalize_line(lines[k].as_slice());
        proof {
            assert(lseq[k as int] == lines@[k as int]@);
            assert(nb@ == crate::lines::normalize_bytes(rest[0]));
        }
        let nb_empty = nb.len() == 0;
        if nb_empty {
            proof {
                assert(valid_utf8(nb@));
                assert(crate::lines::extract_from(rest, (k + 1) as nat)
                    == crate::lines::extract_from(lseq.skip(k as int + 1), (k + 2) as nat));
            }
            k = k + 1;
        } else {
            let ghost nbv = nb@;
            match utf8_to_string(nb) {
                None => {
                    proof {
                        assert(crate::lines::extract_from(rest, (k + 1) as nat) =~= Seq::<
                            (nat, Seq<char>),
                        >::empty());
                        assert(total =~= total.take(injected as int));
                    }
                    aborted = true;
                }
                Some(s) => {
                    proof {
                        lemma_decode_nonempty(nbv);
                        assert(crate::lines::extract_from(rest, (k + 1) as nat) == seq![
                            (((k + 1) as nat, decode_utf8(nbv))),
                        ] + crate::lines::extract_from(lseq.skip(k as int + 1), (k + 2) as nat));
                        assert(total[injected as int] == crate::lines::extract_from(
                            rest,
                            (k + 1) as nat,
                        )[0]);
                        assert(total[injected as int] == ((k + 1) as nat, decode_utf8(nbv)));
                        assert(injected < total.len());
                    }
                    let cand = CandidateLine::new(rel.clone(), s, k + 1);
                    matcher.push(cand);
                    proof {
                        assert(matcher.s_items().take(old_len) =~= old(matcher).s_items());
                        assert(total.take(injected as int + 1) =~= total.take(
                            injected as int,
                        ).push(total[injected as int]));
                    }
                    injected = injected + 1;
                    k = k + 1;
                }
            }
        }
    }
    proof {
        if !aborted {
            assert(lseq.skip(nlines as int) =~= Seq::<Seq<u8>>::empty());
            assert(crate::lines::extract_from(lseq.skip(nlines as int), (nlines + 1) as nat)
                =~= Seq::<(nat, Seq<char>)>::empty());
            assert(total =~= total.take(injected as int));
        }
        assert(total.take(total.len() as int) =~= total);
    }
    Some(injected)
}

/// What the parallel walker is told after one file has been handled.
#[derive(Clone, Copy, Debug, PartialEq, Eq, Structural)]
pub enum CrawlSignal {
    Continue,
    Quit,
}

/// What a ranked result entry holds for a matched candidate.
pub open spec fn result_entry_ok(e: Entry, c: CandidateLine, q: Seq<u8>) -> bool {
    &&& e.name@ == c.path@ + decimal_digits(c.line_number as nat)
    &&& e.display_name matches Some(d) && d@ == c.path@
    &&& e.value matches Some(v) && v@ == c.line@
    &&& e.value_match_ranges matches Some(rs) && (if text_bytes(c).len() <= u32::MAX {
        ranges_of_positions(rs@, greedy_positions(q, text_bytes(c)))
    } else {
        rs@.len() == 0
    })
    &&& e.icon is Some
    &&& e.line_number == Some(c.line_number)
    &&& e.preview_type == PreviewType::Files
}

/// What a point-lookup entry holds for a matched candidate.
pub open spec fn lookup_entry_ok(e: Entry, c: CandidateLine) -> bool {
    &&& e.name@ == c.path@
    &&& e.display_name matches Some(d) && d@ == c.path@ + seq![':'] + decimal_digits(
        c.line_number as nat,
    )
    &&& e.value is None
    &&& e.value_match_ranges is None
    &&& e.icon is Some
    &&& e.line_number == Some(c.line_number)
    &&& e.preview_type == PreviewType::Files
}

/// Two result entries built for the same candidate and the same query agree
/// in every field the library computes itself: a ranked page is a function
/// of the channel's state alone, so once ingestion is shut down and the
/// matcher has caught up, repeated `results` calls return equal,
/// non-growing pages.  (The icon hint is looked up outside the library and
/// is not pinned.)
pub proof fn lemma_result_entry_deterministic(e1: Entry, e2: Entry, c: CandidateLine, q: Seq<u8>)
    requires
        result_entry_ok(e1, c, q),
        result_entry_ok(e2, c, q),
    ensures
        e1.name@ == e2.name@,
        e1.shown_name() == e2.shown_name(),
        e1.value.unwrap()@ == e2.value.unwrap()@,
        e1.value_match_ranges.unwrap()@ == e2.value_match_ranges.unwrap()@,
        e1.line_number == e2.line_number,
        e1.preview_type == e2.preview_type,
{
    assert(e1.value_match_ranges.unwrap()@ =~= e2.value_match_ranges.unwrap()@);
}

/// A search session: the matcher, the crawl's seed (directory roots or a
/// piped file list), and the ingestion state that gates producers.
pub struct Channel {
    matcher: Matcher,
    roots: Vec<String>,
    base_dir: String,
    pending: Vec<String>,
    next_piped: usize,
    budget_used: usize,
    crawl_done: bool,
    shut_down: bool,
}

impl Channel {
    /// All ingested candidates, in insertion order.
    pub closed spec fn s_items(&self) -> Seq<CandidateLine> {
        self.matcher.s_items()
    }

    /// The bytes of the active query.
    pub closed spec fn s_query(&self) -> Seq<u8> {
        self.matcher.s_query()
    }

    /// How far the matcher's recomputation has advanced.
    pub closed spec fn s_processed(&self) -> int {
        self.matcher.s_processed()
    }

    /// The indices of the matching candidates found so far.
    pub closed spec fn s_matched(&self) -> Seq<int> {
        self.matcher.s_matched()
    }

    /// The directory roots this channel was created over.
    pub closed spec fn s_roots(&self) -> Seq<String> {
        self.roots@
    }

    /// The directory paths are shown relative to.
    pub closed spec fn s_base_dir(&self) -> Seq<char> {
        self.base_dir@
    }

    /// The piped file list this channel was seeded with.
    pub closed spec fn s_pending(&self) -> Seq<String> {
        self.pending@
    }

    /// How many of the piped files have been handed out.
    pub closed spec fn s_next_piped(&self) -> int {
        self.next_piped as int
    }

    /// The ingestion budget consumed so far (lines pushed).
    pub closed spec fn s_budget(&self) -> int {
        self.budget_used as int
    }

    /// Whether the ingestion task has completed naturally.
    pub closed spec fn s_done(&self) -> bool {
        self.crawl_done
    }

    /// Whether the channel has been shut down.
    pub closed spec fn s_shutdown(&self) -> bool {
        self.shut_down
    }

    /// The channel's invariant: the matcher is well formed, the budget
    /// counts at least every ingested line, and the piped cursor is in
    /// range.
    pub closed spec fn wf(&self) -> bool {
        &&& self.matcher.wf()
        &&& self.s_items().len() <= self.s_budget()
        &&& 0 <= self.s_next_piped() <= self.s_pending().len()
    }

    /// Whether the channel may still accept crawl events.
    pub open spec fn ingestion_active(&self) -> bool {
        !self.s_done() && !self.s_shutdown()
    }
}

/// Both channel states hold the same candidates, query, progress, budget and
/// lifecycle flags.
pub open spec fn channel_unchanged(pre: Channel, post: Channel) -> bool {
    &&& post.s_items() == pre.s_items()
    &&& post.s_query() == pre.s_query()
    &&& post.s_processed() == pre.s_processed()
    &&& post.s_matched() == pre.s_matched()
    &&& post.s_roots() == pre.s_roots()
    &&& post.s_base_dir() == pre.s_base_dir()
    &&& post.s_pending() == pre.s_pending()
    &&& post.s_next_piped() == pre.s_next_piped()
    &&& post.s_budget() == pre.s_budget()
    &&& post.s_done() == pre.s_done()
    &&& post.s_shutdown() == pre.s_shutdown()
}

/// The parts of the channel that no crawl event may touch: the query, the
/// matcher's progress, the seed and the lifecycle flags other than `done`.
pub open spec fn crawl_touches_only_ingest(pre: Channel, post: Channel) -> bool {
    &&& post.s_query() == pre.s_query()
    &&& post.s_processed() == pre.s_processed()
    &&& post.s_matched() == pre.s_matched()
    &&& post.s_roots() == pre.s_roots()
    &&& post.s_base_dir() == pre.s_base_dir()
    &&& post.s_pending() == pre.s_pending()
    &&& post.s_shutdown() == pre.s_shutdown()
}

impl Channel {
    /// A channel over directory roots: created idle and empty; the caller's
    /// background task walks the roots and feeds discovered files through
    /// `ingest_discovered`, then declares the crawl finished.  An empty root
    /// list is a crawl that completes immediately and ingests nothing.
    pub fn new(directories: Vec<String>, base_dir: String) -> (r: Channel)
        ensures
            r.wf(),
            r.s_items() == Seq::<CandidateLine>::empty(),
            r.s_query() == Seq::<u8>::empty(),
            r.s_processed() == 0,
            r.s_matched() == Seq::<int>::empty(),
            r.s_roots() == directories@,
            r.s_base_dir() == base_dir@,
            r.s_pending().len() == 0,
            r.s_budget() == 0,
            r.s_done() == (directories@.len() == 0),
            !r.s_shutdown(),
    {
        let crawl_done = directories.len() == 0;
        Channel {
            matcher: Matcher::new(),
            roots: directories,
            base_dir,
            pending: Vec::new(),
            next_piped: 0,
            budget_used: 0,
            crawl_done,
            shut_down: false,
        }
    }

    /// A channel seeded with an explicit file list (the piped form): the
    /// caller repeatedly asks for the next file with `take_next_piped`,
    /// reads it, and feeds the bytes through `ingest_piped`.
    pub fn from_file_paths(file_paths: Vec<String>, base_dir: String) -> (r: Channel)
        ensures
            r.wf(),
            r.s_items() == Seq::<CandidateLine>::empty(),
            r.s_query() == Seq::<u8>::empty(),
            r.s_processed() == 0,
            r.s_matched() == Seq::<int>::empty(),
            r.s_roots().len() == 0,
            r.s_base_dir() == base_dir@,
            r.s_pending() == file_paths@,
            r.s_next_piped() == 0,
            r.s_budget() == 0,
            r.s_done() == (file_paths@.len() == 0),
            !r.s_shutdown(),
    {
        let crawl_done = file_paths.len() == 0;
        Channel {
            matcher: Matcher::new(),
            roots: Vec::new(),
            base_dir,
            pending: file_paths,
            next_piped: 0,
            budget_used: 0,
            crawl_done,
            shut_down: false,
        }
    }

    /// A channel seeded directly with already-extracted candidate lines, as
    /// piped from another text channel: up to the line budget, the entries
    /// are ingested verbatim, keeping their path and line-number metadata;
    /// ingestion is complete on return.
    pub fn from_text_entries(entries: Vec<Entry>) -> (r: Channel)
        requires
            forall|k: int|
                0 <= k < entries@.len() && k < MAX_LINES_IN_MEM ==> {
                    let e = #[trigger] entries@[k];
                    &&& e.value matches Some(v) && v@.len() > 0
                    &&& e.line_number matches Some(l) && l >= 1
                },
        ensures
            r.wf(),
            r.s_items().len() == if entries@.len() <= MAX_LINES_IN_MEM {
                entries@.len() as int
            } else {
                MAX_LINES_IN_MEM as int
            },
            forall|j: int|
                0 <= j < r.s_items().len() ==> {
                    let c = #[trigger] r.s_items()[j];
                    &&& c.path@ == entries@[j].shown_name()
                    &&& c.line@ == entries@[j].value.unwrap()@
                    &&& c.line_number == entries@[j].line_number.unwrap()
                },
            r.s_query() == Seq::<u8>::empty(),
            r.s_processed() == 0,
            r.s_matched() == Seq::<int>::empty(),
            r.s_done(),
            !r.s_shutdown(),
    {
        let mut matcher = Matcher::new();
        let n = entries.len();
        let limit: usize = if n < MAX_LINES_IN_MEM {
            n
        } else {
            MAX_LINES_IN_MEM
        };
        let mut k: usize = 0;
        while k < limit
            invariant
                matcher.wf(),
                n == entries@.len(),
                limit <= n,
                limit <= MAX_LINES_IN_MEM,
                0 <= k <= limit,
                forall|j: int|
                    0 <= j < entries@.len() && j < MAX_LINES_IN_MEM ==> {
                        let e = #[trigger] entries@[j];
                        &&& e.value matches Some(v) && v@.len() > 0
                        &&& e.line_number matches Some(l) && l >= 1
                    },
                matcher.s_items().len() == k,
                matcher.s_query() == Seq::<u8>::empty(),
                matcher.s_processed() == 0,
                matcher.s_matched() == Seq::<int>::empty(),
                forall|j: int|
                    0 <= j < k ==> {
                        let c = #[trigger] matcher.s_items()[j];
                        &&& c.path@ == entries@[j].shown_name()
                        &&& c.line@ == entries@[j].value.unwrap()@
                        &&& c.line_number == entries@[j].line_number.unwrap()
                    },
            decreases limit - k,
        {
            let e = &entries[k];
            let display = e.display_name().clone();
            let value: String = match &e.value {
                Some(v) => v.clone(),
                None => {
                    proof {
                        assert(false);
                    }
                    String::new()
                },
            };
            let line_number: usize = match e.line_number {
                Some(l) => l,
                None => {
                    proof {
                        assert(false);
                    }
                    1
                },
            };
            let cand = CandidateLine::new(display, value, line_number);
            matcher.push(cand);
            k = k + 1;
        }
        Channel {
            matcher,
            roots: Vec::new(),
            base_dir: String::new(),
            pending: Vec::new(),
            next_piped: 0,
            budget_used: limit,
            crawl_done: true,
            shut_down: false,
        }
    }

    /// The directory roots the caller's walker should cover.
    pub fn roots(&self) -> (r: &Vec<String>)
        ensures
            r@ == self.s_roots(),
    {
        &self.roots
    }

    /// Hands out the next piped file to read, or nothing when the channel
    /// was shut down, the budget is spent, or the list is exhausted; in the
    /// latter two cases the ingestion task is complete.
    pub fn take_next_piped(&mut self) -> (r: Option<String>)
        requires
            old(self).wf(),
        ensures
            final(self).wf(),
            final(self).s_items() == old(self).s_items(),
            crawl_touches_only_ingest(*old(self), *final(self)),
            final(self).s_budget() == old(self).s_budget(),
            old(self).s_shutdown() ==> r is None && channel_unchanged(*old(self), *final(self)),
            !old(self).s_shutdown() && old(self).s_done() ==> r is None && channel_unchanged(
                *old(self),
                *final(self),
            ),
            old(self).ingestion_active() && old(self).s_budget() > MAX_LINES_IN_MEM ==> r is None
                && final(self).s_done() && final(self).s_next_piped() == old(self).s_next_piped(),
            old(self).ingestion_active() && old(self).s_budget() <= MAX_LINES_IN_MEM && old(
                self,
            ).s_next_piped() == old(self).s_pending().len() ==> r is None && final(self).s_done()
                && final(self).s_next_piped() == old(self).s_next_piped(),
            old(self).ingestion_active() && old(self).s_budget() <= MAX_LINES_IN_MEM && old(
                self,
            ).s_next_piped() < old(self).s_pending().len() ==> (r matches Some(p) && p == old(
                self,
            ).s_pending()[old(self).s_next_piped()]) && final(self).s_next_piped() == old(
                self,
            ).s_next_piped() + 1 && final(self).s_done() == old(self).s_done(),
    {
        if self.shut_down || self.crawl_done {
            return None;
        }
        if self.budget_used > MAX_LINES_IN_MEM {
            self.crawl_done = true;
            return None;
        }
        if self.next_piped == self.pending.len() {
            self.crawl_done = true;
            return None;
        }
        let p = self.pending[self.next_piped].clone();
        self.next_piped = self.next_piped + 1;
        Some(p)
    }

    /// Ingests the bytes of one piped file: no size gate, only the budget
    /// and lifecycle guards; a file that is not searchable text reports
    /// nothing ingested.
    pub fn ingest_piped(&mut self, path: &str, content: &[u8]) -> (r: Option<usize>)
        requires
            old(self).wf(),
            content@.len() + MAX_LINES_IN_MEM <= u32::MAX,
        ensures
            final(self).wf(),
            crawl_touches_only_ingest(*old(self), *final(self)),
            final(self).s_done() == old(self).s_done(),
            final(self).s_next_piped() == old(self).s_next_piped(),
            !old(self).ingestion_active() || old(self).s_budget() > MAX_LINES_IN_MEM ==> r is None
                && channel_unchanged(*old(self), *final(self)),
            old(self).ingestion_active() && old(self).s_budget() <= MAX_LINES_IN_MEM ==> {
                &&& r is Some <==> content@.len() > 0 && searchable_text(sample_of(content@))
                &&& r matches Some(n) ==> {
                    &&& n == extracted(content@).len()
                    &&& appended_candidates(
                        final(self).s_items(),
                        old(self).s_items().len() as int,
                        rel_path_spec(path@, old(self).s_base_dir()),
                        extracted(content@),
                    )
                    &&& final(self).s_budget() == old(self).s_budget() + n
                }
                &&& r is None ==> channel_unchanged(*old(self), *final(self))
            },
    {
        if self.shut_down || self.crawl_done || self.budget_used > MAX_LINES_IN_MEM {
            return None;
        }
        proof {
            crate::lines::lemma_extracted_count(content@);
        }
        match try_inject_lines(&mut self.matcher, self.base_dir.as_str(), path, content) {
            Some(n) => {
                self.budget_used = self.budget_used + n;
                Some(n)
            },
            None => None,
        }
    }

    /// Handles one file discovered by the walker: tells it to quit when the
    /// channel is shut down, finished, or over budget; skips files over the
    /// size ceiling; otherwise classifies and ingests the file and charges
    /// the budget.
    pub fn ingest_discovered(&mut self, path: &str, file_size: u64, content: &[u8]) -> (r:
        CrawlSignal)
        requires
            old(self).wf(),
        ensures
            final(self).wf(),
            crawl_touches_only_ingest(*old(self), *final(self)),
            final(self).s_done() == old(self).s_done(),
            final(self).s_next_piped() == old(self).s_next_piped(),
            !old(self).ingestion_active() ==> r == CrawlSignal::Quit && channel_unchanged(
                *old(self),
                *final(self),
            ),
            old(self).ingestion_active() && old(self).s_budget() > MAX_LINES_IN_MEM ==> r
                == CrawlSignal::Quit && channel_unchanged(*old(self), *final(self)),
            old(self).ingestion_active() && old(self).s_budget() <= MAX_LINES_IN_MEM ==> r
                == CrawlSignal::Continue,
            old(self).ingestion_active() && old(self).s_budget() <= MAX_LINES_IN_MEM && (file_size
                > MAX_FILE_SIZE || content@.len() > MAX_FILE_SIZE) ==> channel_unchanged(
                *old(self),
                *final(self),
            ),
            old(self).ingestion_active() && old(self).s_budget() <= MAX_LINES_IN_MEM && file_size
                <= MAX_FILE_SIZE && content@.len() <= MAX_FILE_SIZE ==> {
                if content@.len() > 0 && searchable_text(sample_of(content@)) {
                    &&& appended_candidates(
                        final(self).s_items(),
                        old(self).s_items().len() as int,
                        rel_path_spec(path@, old(self).s_base_dir()),
                        extracted(content@),
                    )
                    &&& final(self).s_budget() == old(self).s_budget() + extracted(
                        content@,
                    ).len()
                } else {
                    channel_unchanged(*old(self), *final(self))
                }
            },
    {
        if self.shut_down || self.crawl_done {
            return CrawlSignal::Quit;
        }
        if self.budget_used > MAX_LINES_IN_MEM {
            return CrawlSignal::Quit;
        }
        if file_size > MAX_FILE_SIZE {
            return CrawlSignal::Continue;
        }
        if content.len() as u64 > MAX_FILE_SIZE {
            return CrawlSignal::Continue;
        }
        proof {
            crate::lines::lemma_extracted_count(content@);
        }
        match try_inject_lines(&mut self.matcher, self.base_dir.as_str(), path, content) {
            Some(n) => {
                self.budget_used = self.budget_used + n;
            },
            None => {},
        }
        CrawlSignal::Continue
    }

    /// Declares the ingestion task complete; called by the walker's owner
    /// when the walk has exhausted all entries or was told to quit.
    pub fn finish_crawl(&mut self)
        requires
            old(self).wf(),
        ensures
            final(self).wf(),
            crawl_touches_only_ingest(*old(self), *final(self)),
            final(self).s_items() == old(self).s_items(),
            final(self).s_budget() == old(self).s_budget(),
            final(self).s_next_piped() == old(self).s_next_piped(),
            final(self).s_done(),
    {
        self.crawl_done = true;
    }

    /// Cancels the background ingestion unconditionally and irreversibly:
    /// every later crawl event is refused, and the ingested candidates are
    /// frozen at whatever was pushed before this call.  Idempotent.
    pub fn shutdown(&mut self)
        requires
            old(self).wf(),
        ensures
            final(self).wf(),
            final(self).s_shutdown(),
            final(self).s_items() == old(self).s_items(),
            final(self).s_query() == old(self).s_query(),
            final(self).s_processed() == old(self).s_processed(),
            final(self).s_matched() == old(self).s_matched(),
            final(self).s_roots() == old(self).s_roots(),
            final(self).s_base_dir() == old(self).s_base_dir(),
            final(self).s_pending() == old(self).s_pending(),
            final(self).s_next_piped() == old(self).s_next_piped(),
            final(self).s_budget() == old(self).s_budget(),
            final(self).s_done() == old(self).s_done(),
    {
        self.shut_down = true;
    }
}

/// Builds the ranked result entry for one matched item.
fn entry_from_matched(mi: MatchedItem) -> (e: Entry)
    ensures
        e.name@ == mi.inner.path@ + decimal_digits(mi.inner.line_number as nat),
        e.display_name matches Some(d) && d@ == mi.inner.path@,
        e.value matches Some(v) && v == mi.matched_string,
        e.value_match_ranges matches Some(rs) && rs == mi.match_indices,
        e.icon is Some,
        e.line_number == Some(mi.inner.line_number),
        e.preview_type == PreviewType::Files,
{
    let display_path = mi.inner.path.clone();
    let num = usize_to_string(mi.inner.line_number);
    let name = display_path.clone().concat(num.as_str());
    let icon = file_icon(mi.inner.path.as_str());
    Entry::new(name, PreviewType::Files)
        .with_display_name(display_path)
        .with_value(mi.matched_string)
        .with_value_match_ranges(mi.match_indices)
        .with_icon(icon)
        .with_line_number(mi.inner.line_number)
}

/// Builds the point-lookup entry for one matched item.
fn entry_from_lookup(mi: MatchedItem) -> (e: Entry)
    ensures
        e.name@ == mi.inner.path@,
        e.display_name matches Some(d) && d@ == mi.inner.path@ + seq![':'] + decimal_digits(
            mi.inner.line_number as nat,
        ),
        e.value is None,
        e.value_match_ranges is None,
        e.icon is Some,
        e.line_number == Some(mi.inner.line_number),
        e.preview_type == PreviewType::Files,
{
    let display_path = mi.inner.path.clone();
    let num = usize_to_string(mi.inner.line_number);
    let display = display_path.clone().concat(":").concat(num.as_str());
    proof {
        reveal_strlit(":");
        assert(":"@ =~= seq![':']);
    }
    let icon = file_icon(mi.inner.path.as_str());
    Entry::new(display_path, PreviewType::Files)
        .with_display_name(display)
        .with_icon(icon)
        .with_line_number(mi.inner.line_number)
}

impl Channel {
    /// Replaces the active fuzzy query; does not block, and only affects
    /// later `results` and `get_result` calls.
    pub fn find(&mut self, pattern: &str)
        requires
            old(self).wf(),
        ensures
            final(self).wf(),
            final(self).s_items() == old(self).s_items(),
            final(self).s_query() == pattern.spec_bytes(),
            final(self).s_processed() == 0,
            final(self).s_matched() == Seq::<int>::empty(),
            final(self).s_roots() == old(self).s_roots(),
            final(self).s_base_dir() == old(self).s_base_dir(),
            final(self).s_pending() == old(self).s_pending(),
            final(self).s_next_piped() == old(self).s_next_piped(),
            final(self).s_budget() == old(self).s_budget(),
            final(self).s_done() == old(self).s_done(),
            final(self).s_shutdown() == old(self).s_shutdown(),
    {
        self.matcher.find(pattern);
    }

    /// Advances the matcher by one tick, then returns up to `num_entries`
    /// ranked results starting at `offset`, highest ranked first; the page
    /// is a function of the channel's state after the tick, so repeated
    /// calls on an unchanged, fully processed channel return equal pages.
    pub fn results(&mut self, num_entries: u32, offset: u32) -> (r: Vec<Entry>)
        requires
            old(self).wf(),
        ensures
            final(self).wf(),
            final(self).s_items() == old(self).s_items(),
            final(self).s_query() == old(self).s_query(),
            final(self).s_roots() == old(self).s_roots(),
            final(self).s_base_dir() == old(self).s_base_dir(),
            final(self).s_pending() == old(self).s_pending(),
            final(self).s_next_piped() == old(self).s_next_piped(),
            final(self).s_budget() == old(self).s_budget(),
            final(self).s_done() == old(self).s_done(),
            final(self).s_shutdown() == old(self).s_shutdown(),
            final(self).s_processed() == if old(self).s_processed() + crate::matcher::TICK_CHUNK
                <= old(self).s_items().len() {
                old(self).s_processed() + crate::matcher::TICK_CHUNK
            } else {
                old(self).s_items().len() as int
            },
            old(self).s_matched().is_prefix_of(final(self).s_matched()),
            r@.len() == if offset + num_entries <= final(self).s_matched().len() {
                num_entries as int
            } else if offset <= final(self).s_matched().len() {
                final(self).s_matched().len() - offset
            } else {
                0
            },
            forall|k: int|
                0 <= k < r@.len() ==> result_entry_ok(
                    #[trigger] r@[k],
                    final(self).s_items()[final(self).s_matched()[offset as int + k]],
                    final(self).s_query(),
                ),
    {
        self.matcher.tick();
        let mut page = self.matcher.results(num_entries, offset);
        let ghost page0 = page@;
        let ghost m = self.matcher;
        proof {
            crate::matcher::lemma_match_indices_props(
                m.s_items(),
                m.s_query(),
                m.s_processed(),
            );
        }
        let total = page.len();
        let mut rev: Vec<Entry> = Vec::new();
        while page.len() > 0
            invariant
                page0.len() == total,
                page@ == page0.take(page@.len() as int),
                page@.len() + rev@.len() == total,
                forall|j: int|
                    0 <= j < rev@.len() ==> crate::matcher::matched_item_ok(
                        page0[total - 1 - j],
                        m,
                        offset as int + total - 1 - j,
                    ) && result_entry_ok(
                        #[trigger] rev@[j],
                        m.s_items()[m.s_matched()[offset as int + total - 1 - j]],
                        m.s_query(),
                    ),
                forall|j: int|
                    0 <= j < page0.len() ==> crate::matcher::matched_item_ok(
                        #[trigger] page0[j],
                        m,
                        offset as int + j,
                    ),
                total > 0 ==> offset + total <= m.s_matched().len(),
                m.wf(),
            decreases page@.len(),
        {
            let ghost pl = page@.len() as int;
            let mi = page.pop().unwrap();
            proof {
                assert(mi == page0[pl - 1]);
                assert(page@ =~= page0.take(pl - 1));
            }
            let e = entry_from_matched(mi);
            rev.push(e);
        }
        let mut out: Vec<Entry> = Vec::new();
        while rev.len() > 0
            invariant
                rev@.len() + out@.len() == total,
                forall|j: int|
                    0 <= j < rev@.len() ==> result_entry_ok(
                        #[trigger] rev@[j],
                        m.s_items()[m.s_matched()[offset as int + total - 1 - j]],
                        m.s_query(),
                    ),
                forall|j: int|
                    0 <= j < out@.len() ==> result_entry_ok(
                        #[trigger] out@[j],
                        m.s_items()[m.s_matched()[offset as int + j]],
                        m.s_query(),
                    ),
                total > 0 ==> offset + total <= m.s_matched().len(),
                self.matcher == m,
            decreases rev@.len(),
        {
            let e = rev.pop().unwrap();
            out.push(e);
        }
        out
    }

    /// Point lookup into the current ranked result list; nothing when the
    /// index is out of range.  Does not advance the matcher.
    pub fn get_result(&self, index: u32) -> (r: Option<Entry>)
        requires
            self.wf(),
        ensures
            r is Some <==> index < self.s_matched().len(),
            r matches Some(e) ==> lookup_entry_ok(
                e,
                self.s_items()[self.s_matched()[index as int]],
            ),
    {
        match self.matcher.get_result(index) {
            Some(mi) => Some(entry_from_lookup(mi)),
            None => None,
        }
    }

    /// How many candidates match the active query so far.
    pub fn result_count(&self) -> (r: u32)
        requires
            self.wf(),
        ensures
            r == self.s_matched().len(),
    {
        self.matcher.matched_item_count()
    }

    /// How many candidates have been ingested in total.
    pub fn total_count(&self) -> (r: u32)
        requires
            self.wf(),
        ensures
            r == self.s_items().len(),
    {
        self.matcher.total_item_count()
    }

    /// Every ingested candidate is well formed: non-empty text, 1-based
    /// line number.
    pub proof fn lemma_candidates_wf(&self)
        requires
            self.wf(),
        ensures
            forall|k: int| 0 <= k < self.s_items().len() ==> (#[trigger] self.s_items()[k]).wf(),
    {
    }

    /// A piped channel never hands out more files than its seed list
    /// holds, which the composer caps when it builds that list.
    pub proof fn lemma_piped_handouts_bounded(&self)
        requires
            self.wf(),
        ensures
            0 <= self.s_next_piped() <= self.s_pending().len(),
    {
    }

    /// Every matched index points at an ingested candidate.
    pub proof fn lemma_matched_in_range(&self)
        requires
            self.wf(),
        ensures
            forall|k: int|
                0 <= k < self.s_matched().len() ==> 0 <= #[trigger] self.s_matched()[k]
                    < self.s_items().len(),
    {
        crate::matcher::lemma_match_indices_props(
            self.matcher.s_items(),
            self.matcher.s_query(),
            self.matcher.s_processed(),
        );
    }

    /// Whether the matcher still has outstanding recomputation work; a
    /// fully crawled, fully indexed channel reports not running.
    pub fn running(&self) -> (r: bool)
        requires
            self.wf(),
        ensures
            r == (self.s_processed() < self.s_items().len()),
    {
        self.matcher.running()
    }
}

} // verus!
