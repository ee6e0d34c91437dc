//! The live index and matcher: a growable collection of candidate lines that
//! accepts pushes at any time and answers ranked queries, advancing its
//! recomputation one bounded step per tick.
//!
//! The pattern language is a byte subsequence match: a candidate matches when
//! the query's bytes occur in order inside the candidate's text.  Matches are
//! ranked in insertion order, which is the matcher's own deterministic order.

use crate::entry::CandidateLine;
use vstd::prelude::*;
use vstd::string::StrSliceExecFns;
use vstd::string::StringSliceAdditionalSpecFns;

verus! {

/// How many candidates one tick of the matcher processes.
pub const TICK_CHUNK: usize = 1024;

/// The bytes a candidate is matched against.
pub open spec fn text_bytes(c: CandidateLine) -> Seq<u8> {
    vstd::utf8::encode_utf8(c.line@)
}

/// Whether the query bytes occur, in order, inside the text bytes.
pub open spec fn is_match(q: Seq<u8>, t: Seq<u8>) -> bool
    decreases q.len() + t.len(),
{
    if q.len() == 0 {
        true
    } else if t.len() == 0 {
        false
    } else {
        (q[0] == t[0] && is_match(q.skip(1), t.skip(1))) || is_match(q, t.skip(1))
    }
}

/// Every position shifted right by `d`.
pub open spec fn shift_positions(s: Seq<int>, d: int) -> Seq<int> {
    s.map_values(|x: int| x + d)
}

/// The positions the greedy matcher highlights: it always takes the leftmost
/// occurrence of each query byte.
pub open spec fn greedy_positions(q: Seq<u8>, t: Seq<u8>) -> Seq<int>
    decreases q.len() + t.len(),
{
    if q.len() == 0 || t.len() == 0 {
        seq![]
    } else if q[0] == t[0] {
        seq![0int] + shift_positions(greedy_positions(q.skip(1), t.skip(1)), 1)
    } else {
        shift_positions(greedy_positions(q, t.skip(1)), 1)
    }
}

/// Candidates among the first `n` that match the query, in insertion order.
pub open spec fn match_indices(items: Seq<CandidateLine>, q: Seq<u8>, n: int) -> Seq<int>
    decreases n,
{
    if n <= 0 {
        seq![]
    } else {
        match_indices(items, q, n - 1) + (if is_match(q, text_bytes(items[n - 1])) {
            seq![n - 1]
        } else {
            seq![]
        })
    }
}

/// Dropping the head of the text preserves a match.
proof fn lemma_match_text_weaken(q: Seq<u8>, t: Seq<u8>)
    requires
        t.len() > 0,
        is_match(q, t.skip(1)),
    ensures
        is_match(q, t),
{
}

/// Dropping the head of the pattern preserves a match.
proof fn lemma_match_pattern_weaken(q: Seq<u8>, t: Seq<u8>)
    requires
        q.len() > 0,
        is_match(q, t),
    ensures
        is_match(q.skip(1), t),
    decreases t.len(),
{
    if t.len() > 0 {
        if q[0] == t[0] && is_match(q.skip(1), t.skip(1)) {
            lemma_match_text_weaken(q.skip(1), t);
        } else {
            lemma_match_pattern_weaken(q, t.skip(1));
            lemma_match_text_weaken(q.skip(1), t);
        }
    }
}

/// When the heads agree, taking the head is never a loss.
proof fn lemma_match_take_head(q: Seq<u8>, t: Seq<u8>)
    requires
        q.len() > 0,
        t.len() > 0,
        q[0] == t[0],
    ensures
        is_match(q, t) <==> is_match(q.skip(1), t.skip(1)),
{
    if is_match(q, t) && !(q[0] == t[0] && is_match(q.skip(1), t.skip(1))) {
        lemma_match_pattern_weaken(q, t.skip(1));
    }
}

proof fn lemma_shift_shift(s: Seq<int>, a: int, b: int)
    ensures
        shift_positions(shift_positions(s, a), b) =~= shift_positions(s, a + b),
{
}

proof fn lemma_shift_cons(s: Seq<int>, d: int)
    ensures
        shift_positions(seq![0int] + s, d) =~= seq![d] + shift_positions(s, d),
{
}

/// The greedy positions of a match point, in strictly increasing order, at
/// text bytes that spell out the query.
pub proof fn lemma_greedy_positions_witness(q: Seq<u8>, t: Seq<u8>)
    requires
        is_match(q, t),
    ensures
        greedy_positions(q, t).len() == q.len(),
        forall|k: int|
            0 <= k < q.len() ==> 0 <= #[trigger] greedy_positions(q, t)[k] < t.len() && t[
                greedy_positions(q, t)[k]
            ] == q[k],
        forall|k: int|
            0 < k < q.len() ==> greedy_positions(q, t)[k - 1] < #[trigger] greedy_positions(
                q,
                t,
            )[k],
    decreases q.len() + t.len(),
{
    if q.len() == 0 {
    } else if q[0] == t[0] {
        lemma_match_take_head(q, t);
        lemma_greedy_positions_witness(q.skip(1), t.skip(1));
        let g = greedy_positions(q.skip(1), t.skip(1));
        assert forall|k: int| 0 <= k < q.len() implies 0 <= #[trigger] greedy_positions(q, t)[k]
            < t.len() && t[greedy_positions(q, t)[k]] == q[k] by {
            if k > 0 {
                assert(greedy_positions(q, t)[k] == g[k - 1] + 1);
                assert(t.skip(1)[g[k - 1]] == q.skip(1)[k - 1]);
            }
        }
        assert forall|k: int| 0 < k < q.len() implies greedy_positions(q, t)[k - 1]
            < #[trigger] greedy_positions(q, t)[k] by {
            if k > 1 {
                assert(greedy_positions(q, t)[k - 1] == g[k - 2] + 1);
                assert(greedy_positions(q, t)[k] == g[k - 1] + 1);
            }
        }
    } else {
        lemma_greedy_positions_witness(q, t.skip(1));
        let g = greedy_positions(q, t.skip(1));
        assert forall|k: int| 0 <= k < q.len() implies 0 <= #[trigger] greedy_positions(q, t)[k]
            < t.len() && t[greedy_positions(q, t)[k]] == q[k] by {
            assert(greedy_positions(q, t)[k] == g[k] + 1);
            assert(t.skip(1)[g[k]] == q[k]);
        }
        assert forall|k: int| 0 < k < q.len() implies greedy_positions(q, t)[k - 1]
            < #[trigger] greedy_positions(q, t)[k] by {
            assert(greedy_positions(q, t)[k - 1] == g[k - 1] + 1);
            assert(greedy_positions(q, t)[k] == g[k] + 1);
        }
    }
}

/// Whether the query bytes occur, in order, inside the text bytes.
pub fn query_matches(q: &[u8], t: &[u8]) -> (r: bool)
    ensures
        r == is_match(q@, t@),
{
    let qn = q.len();
    let tn = t.len();
    let mut i: usize = 0;
    let mut j: usize = 0;
    proof {
        assert(q@.skip(0) =~= q@);
        assert(t@.skip(0) =~= t@);
    }
    while i < tn && j < qn
        invariant
            qn == q@.len(),
            tn == t@.len(),
            0 <= j <= qn,
            0 <= i <= tn,
            is_match(q@, t@) <==> is_match(q@.skip(j as int), t@.skip(i as int)),
        decreases tn - i,
    {
        let ghost qs = q@.skip(j as int);
        let ghost ts = t@.skip(i as int);
        proof {
            assert(qs[0] == q@[j as int]);
            assert(ts[0] == t@[i as int]);
            assert(qs.skip(1) =~= q@.skip(j as int + 1));
            assert(ts.skip(1) =~= t@.skip(i as int + 1));
        }
        if q[j] == t[i] {
            proof {
                lemma_match_take_head(qs, ts);
            }
            j = j + 1;
        } else {
            proof {
                if is_match(qs, ts.skip(1)) {
                    lemma_match_text_weaken(qs, ts);
                }
            }
        }
        i = i + 1;
    }
    proof {
        if j == qn {
            assert(q@.skip(j as int) =~= Seq::<u8>::empty());
            assert(is_match(q@.skip(j as int), t@.skip(i as int)));
        } else {
            assert(t@.skip(i as int) =~= Seq::<u8>::empty());
            assert(!is_match(q@.skip(j as int), t@.skip(i as int)));
        }
    }
    j == qn
}

/// The positions at which the greedy matcher finds the query inside the
/// text, or nothing when the text does not match.
pub fn match_positions(q: &[u8], t: &[u8]) -> (r: Option<Vec<u32>>)
    requires
        t@.len() <= u32::MAX,
    ensures
        r is Some <==> is_match(q@, t@),
        r matches Some(v) ==> v@.map_values(|x: u32| x as int) == greedy_positions(q@, t@),
{
    let qn = q.len();
    let tn = t.len();
    let mut i: usize = 0;
    let mut j: usize = 0;
    let mut pos: Vec<u32> = Vec::new();
    proof {
        assert(q@.skip(0) =~= q@);
        assert(t@.skip(0) =~= t@);
        assert(pos@.map_values(|x: u32| x as int) =~= Seq::<int>::empty());
        assert(shift_positions(greedy_positions(q@, t@), 0) =~= greedy_positions(q@, t@));
        assert(Seq::<int>::empty() + greedy_positions(q@, t@) =~= greedy_positions(q@, t@));
    }
    while i < tn && j < qn
        invariant
            qn == q@.len(),
            tn == t@.len(),
            tn <= u32::MAX,
            0 <= j <= qn,
            0 <= i <= tn,
            pos@.len() == j,
            is_match(q@, t@) <==> is_match(q@.skip(j as int), t@.skip(i as int)),
            greedy_positions(q@, t@) == pos@.map_values(|x: u32| x as int) + shift_positions(
                greedy_positions(q@.skip(j as int), t@.skip(i as int)),
                i as int,
            ),
        decreases tn - i,
    {
        let ghost qs = q@.skip(j as int);
        let ghost ts = t@.skip(i as int);
        let ghost pints = pos@.map_values(|x: u32| x as int);
        proof {
            assert(qs[0] == q@[j as int]);
            assert(ts[0] == t@[i as int]);
            assert(qs.skip(1) =~= q@.skip(j as int + 1));
            assert(ts.skip(1) =~= t@.skip(i as int + 1));
        }
        if q[j] == t[i] {
            pos.push(i as u32);
            proof {
                lemma_match_take_head(qs, ts);
                let g = greedy_positions(qs.skip(1), ts.skip(1));
                assert(greedy_positions(qs, ts) == seq![0int] + shift_positions(g, 1));
                lemma_shift_cons(shift_positions(g, 1), i as int);
                lemma_shift_shift(g, 1, i as int);
                assert(shift_positions(greedy_positions(qs, ts), i as int) =~= seq![i as int]
                    + shift_positions(g, i as int + 1));
                assert(pos@.map_values(|x: u32| x as int) =~= pints + seq![i as int]);
                assert((pints + seq![i as int]) + shift_positions(g, i as int + 1) =~= pints + (
                seq![i as int] + shift_positions(g, i as int + 1)));
            }
            j = j + 1;
        } else {
            proof {
                if is_match(qs, ts.skip(1)) {
                    lemma_match_text_weaken(qs, ts);
                }
                let g = greedy_positions(qs, ts.skip(1));
                assert(greedy_positions(qs, ts) == shift_positions(g, 1));
                lemma_shift_shift(g, 1, i as int);
            }
        }
        i = i + 1;
    }
    proof {
        if j == qn {
            assert(q@.skip(j as int) =~= Seq::<u8>::empty());
            assert(is_match(q@.skip(j as int), t@.skip(i as int)));
            assert(greedy_positions(q@.skip(j as int), t@.skip(i as int)) == Seq::<int>::empty());
            assert(shift_positions(Seq::<int>::empty(), i as int) =~= Seq::<int>::empty());
            assert(pos@.map_values(|x: u32| x as int) + Seq::<int>::empty() =~= pos@.map_values(
                |x: u32| x as int,
            ));
        } else {
            assert(t@.skip(i as int) =~= Seq::<u8>::empty());
            assert(!is_match(q@.skip(j as int), t@.skip(i as int)));
        }
    }
    if j == qn {
        Some(pos)
    } else {
        None
    }
}

/// The matched indices are in range, strictly increasing, and point exactly
/// at the matching candidates among the first `n`.
pub proof fn lemma_match_indices_props(items: Seq<CandidateLine>, q: Seq<u8>, n: int)
    requires
        0 <= n <= items.len(),
    ensures
        match_indices(items, q, n).len() <= n,
        forall|k: int|
            0 <= k < match_indices(items, q, n).len() ==> 0 <= #[trigger] match_indices(
                items,
                q,
                n,
            )[k] < n && is_match(q, text_bytes(items[match_indices(items, q, n)[k]])),
        forall|k: int|
            0 < k < match_indices(items, q, n).len() ==> match_indices(items, q, n)[k - 1]
                < #[trigger] match_indices(items, q, n)[k],
    decreases n,
{
    if n > 0 {
        lemma_match_indices_props(items, q, n - 1);
    }
}

/// Processing more candidates only appends to the matched indices.
pub proof fn lemma_match_indices_monotone(items: Seq<CandidateLine>, q: Seq<u8>, n1: int, n2: int)
    requires
        0 <= n1 <= n2,
    ensures
        match_indices(items, q, n1).is_prefix_of(match_indices(items, q, n2)),
    decreases n2,
{
    if n1 < n2 {
        lemma_match_indices_monotone(items, q, n1, n2 - 1);
    }
}

/// Candidates pushed beyond the processed prefix do not disturb it.
proof fn lemma_match_indices_push(items: Seq<CandidateLine>, q: Seq<u8>, n: int, c: CandidateLine)
    requires
        0 <= n <= items.len(),
    ensures
        match_indices(items.push(c), q, n) == match_indices(items, q, n),
    decreases n,
{
    if n > 0 {
        lemma_match_indices_push(items, q, n - 1, c);
        assert(items.push(c)[n - 1] == items[n - 1]);
    }
}

/// A ranked match handed back by the matcher: the candidate, the text it was
/// matched on, and the byte ranges the query's bytes were found at.
#[derive(Debug)]
pub struct MatchedItem {
    pub inner: CandidateLine,
    pub matched_string: String,
    pub match_indices: Vec<(u32, u32)>,
}

/// Each range is one matched byte: the greedy position and its successor.
pub open spec fn ranges_of_positions(ranges: Seq<(u32, u32)>, positions: Seq<int>) -> bool {
    &&& ranges.len() == positions.len()
    &&& forall|k: int|
        0 <= k < ranges.len() ==> (#[trigger] ranges[k]).0 == positions[k] && ranges[k].1
            == positions[k] + 1
}

/// What a returned item holds for the match ranked at `pos`.
pub open spec fn matched_item_ok(mi: MatchedItem, m: Matcher, pos: int) -> bool {
    let idx = m.s_matched()[pos];
    &&& mi.inner == m.s_items()[idx]
    &&& mi.matched_string == mi.inner.line
    &&& if text_bytes(mi.inner).len() <= u32::MAX {
        ranges_of_positions(mi.match_indices@, greedy_positions(m.s_query(), text_bytes(mi.inner)))
    } else {
        mi.match_indices@.len() == 0
    }
}

/// The live index: candidates, the active query, and the part of the
/// collection that the incremental recomputation has covered so far.
pub struct Matcher {
    items: Vec<CandidateLine>,
    query: Vec<u8>,
    matched: Vec<u32>,
    processed: usize,
}

impl Matcher {
    /// All candidates pushed so far, in insertion order.
    pub closed spec fn s_items(&self) -> Seq<CandidateLine> {
        self.items@
    }

    /// The bytes of the active query.
    pub closed spec fn s_query(&self) -> Seq<u8> {
        self.query@
    }

    /// How many candidates the recomputation has covered for this query.
    pub closed spec fn s_processed(&self) -> int {
        self.processed as int
    }

    /// The indices of the matching candidates found so far.
    pub closed spec fn s_matched(&self) -> Seq<int> {
        self.matched@.map_values(|x: u32| x as int)
    }

    /// The matcher's invariant: the matched indices are exactly the matches
    /// among the processed prefix, and every candidate is well formed.
    pub open spec fn wf(&self) -> bool {
        &&& self.s_items().len() <= u32::MAX
        &&& 0 <= self.s_processed() <= self.s_items().len()
        &&& self.s_matched() == match_indices(self.s_items(), self.s_query(), self.s_processed())
        &&& forall|k: int| 0 <= k < self.s_items().len() ==> (#[trigger] self.s_items()[k]).wf()
    }

    /// A fresh, empty matcher with an empty query.
    pub fn new() -> (m: Matcher)
        ensures
            m.wf(),
            m.s_items() == Seq::<CandidateLine>::empty(),
            m.s_query() == Seq::<u8>::empty(),
            m.s_processed() == 0,
            m.s_matched() == Seq::<int>::empty(),
    {
        let m = Matcher { items: Vec::new(), query: Vec::new(), matched: Vec::new(), processed: 0 };
        proof {
            assert(m.s_matched() =~= Seq::<int>::empty());
        }
        m
    }

    /// Accepts one more candidate; it will be seen by the recomputation once
    /// a tick reaches it.
    pub fn push(&mut self, c: CandidateLine)
        requires
            old(self).wf(),
            c.wf(),
            old(self).s_items().len() < u32::MAX,
        ensures
            final(self).wf(),
            final(self).s_items() == old(self).s_items().push(c),
            final(self).s_query() == old(self).s_query(),
            final(self).s_processed() == old(self).s_processed(),
            final(self).s_matched() == old(self).s_matched(),
    {
        proof {
            lemma_match_indices_push(self.s_items(), self.s_query(), self.s_processed(), c);
        }
        self.items.push(c);
    }

    /// Replaces the active query and restarts the incremental recomputation.
    pub fn find(&mut self, pattern: &str)
        requires
            old(self).wf(),
        ensures
            final(self).wf(),
            final(self).s_items() == old(self).s_items(),
            final(self).s_query() == pattern.spec_bytes(),
            final(self).s_processed() == 0,
            final(self).s_matched() == Seq::<int>::empty(),
    {
        self.query = pattern.as_bytes_vec();
        self.matched = Vec::new();
        self.processed = 0;
        proof {
            assert(self.s_matched() =~= Seq::<int>::empty());
        }
    }

    /// Advances the recomputation by one bounded step: at most `TICK_CHUNK`
    /// further candidates are matched against the query.
    pub fn tick(&mut self)
        requires
            old(self).wf(),
        ensures
            final(self).wf(),
            final(self).s_items() == old(self).s_items(),
            final(self).s_query() == old(self).s_query(),
            old(self).s_processed() <= final(self).s_processed() <= old(self).s_items().len(),
            final(self).s_processed() == if old(self).s_processed() + TICK_CHUNK <= old(
                self,
            ).s_items().len() {
                old(self).s_processed() + TICK_CHUNK
            } else {
                old(self).s_items().len() as int
            },
            old(self).s_matched().is_prefix_of(final(self).s_matched()),
    {
        let n = self.items.len();
        let budget = if n - self.processed < TICK_CHUNK {
            n - self.processed
        } else {
            TICK_CHUNK
        };
        let target = self.processed + budget;
        proof {
            lemma_match_indices_monotone(
                self.s_items(),
                self.s_query(),
                self.s_processed(),
                target as int,
            );
        }
        while self.processed < target
            invariant
                self.wf(),
                self.s_items().len() == n,
                self.s_processed() <= target <= n,
                self.s_items() == old(self).s_items(),
                self.s_query() == old(self).s_query(),
            decreases target - self.processed,
        {
            let idx = self.processed;
            let matches = query_matches(
                self.query.as_slice(),
                self.items[idx].line.as_str().as_bytes(),
            );
            if matches {
                self.matched.push(idx as u32);
            }
            self.processed = idx + 1;
            proof {
                assert(self.s_matched() =~= match_indices(
                    self.s_items(),
                    self.s_query(),
                    idx + 1,
                ));
            }
        }
        proof {
            lemma_match_indices_monotone(
                self.s_items(),
                self.s_query(),
                old(self).s_processed(),
                self.s_processed(),
            );
        }
    }

    /// How many of the processed candidates match the active query.
    pub fn matched_item_count(&self) -> (r: u32)
        requires
            self.wf(),
        ensures
            r == self.s_matched().len(),
    {
        proof {
            lemma_match_indices_props(self.s_items(), self.s_query(), self.s_processed());
        }
        self.matched.len() as u32
    }

    /// How many candidates have been pushed in total.
    pub fn total_item_count(&self) -> (r: u32)
        requires
            self.wf(),
        ensures
            r == self.s_items().len(),
    {
        self.items.len() as u32
    }

    /// Whether the recomputation still has outstanding work for this query.
    pub fn running(&self) -> (r: bool)
        requires
            self.wf(),
        ensures
            r == (self.s_processed() < self.s_items().len()),
    {
        self.processed < self.items.len()
    }

    /// Builds the ranked item for the match at position `pos`.
    fn build_item(&self, pos: usize) -> (r: MatchedItem)
        requires
            self.wf(),
            pos < self.s_matched().len(),
        ensures
            matched_item_ok(r, *self, pos as int),
    {
        proof {
            lemma_match_indices_props(self.s_items(), self.s_query(), self.s_processed());
        }
        let idx32 = self.matched[pos];
        proof {
            assert(self.s_matched()[pos as int] == idx32 as int);
            assert(0 <= (idx32 as int) && (idx32 as int) < self.s_processed());
            assert(is_match(self.s_query(), text_bytes(self.s_items()[idx32 as int])));
        }
        let idx = idx32 as usize;
        let item = &self.items[idx];
        let inner = CandidateLine {
            path: item.path.clone(),
            line: item.line.clone(),
            line_number: item.line_number,
        };
        let matched_string = item.line.clone();
        let tb = item.line.as_str().as_bytes();
        let mut ranges: Vec<(u32, u32)> = Vec::new();
        if tb.len() <= u32::MAX as usize {
            let positions = match_positions(self.query.as_slice(), tb).unwrap();
            proof {
                lemma_greedy_positions_witness(self.s_query(), text_bytes(inner));
            }
            let mut k: usize = 0;
            let pn = positions.len();
            while k < pn
                invariant
                    pn == positions@.len(),
                    0 <= k <= pn,
                    positions@.map_values(|x: u32| x as int) == greedy_positions(
                        self.s_query(),
                        text_bytes(inner),
                    ),
                    text_bytes(inner).len() <= u32::MAX,
                    forall|j: int|
                        0 <= j < pn ==> 0 <= #[trigger] greedy_positions(
                            self.s_query(),
                            text_bytes(inner),
                        )[j] < text_bytes(inner).len(),
                    ranges@.len() == k,
                    forall|j: int|
                        0 <= j < k ==> (#[trigger] ranges@[j]).0 == positions@[j] && ranges@[j].1
                            == positions@[j] + 1,
                decreases pn - k,
            {
                let p = positions[k];
                proof {
                    assert(positions@.map_values(|x: u32| x as int)[k as int] == greedy_positions(
                        self.s_query(),
                        text_bytes(inner),
                    )[k as int]);
                }
                ranges.push((p, p + 1));
                k = k + 1;
            }
        }
        MatchedItem { inner, matched_string, match_indices: ranges }
    }

    /// Up to `num_entries` ranked matches starting at `offset`, highest
    /// ranked first; the page is a function of the matcher's current state.
    pub fn results(&self, num_entries: u32, offset: u32) -> (r: Vec<MatchedItem>)
        requires
            self.wf(),
        ensures
            r@.len() == if offset + num_entries <= self.s_matched().len() {
                num_entries as int
            } else if offset <= self.s_matched().len() {
                self.s_matched().len() - offset
            } else {
                0
            },
            forall|k: int|
                0 <= k < r@.len() ==> matched_item_ok(#[trigger] r@[k], *self, offset as int + k),
    {
        let m = self.matched.len();
        let lo: usize = if (offset as usize) < m {
            offset as usize
        } else {
            m
        };
        let take: usize = if (num_entries as usize) < m - lo {
            num_entries as usize
        } else {
            m - lo
        };
        let hi: usize = lo + take;
        let mut out: Vec<MatchedItem> = Vec::new();
        let mut k: usize = lo;
        while k < hi
            invariant
                self.wf(),
                lo <= k <= hi <= self.s_matched().len(),
                out@.len() == k - lo,
                lo as int == offset as int || lo as int == self.s_matched().len(),
                forall|j: int|
                    0 <= j < out@.len() ==> matched_item_ok(#[trigger] out@[j], *self, lo as int + j),
            decreases hi - k,
        {
            let item = self.build_item(k);
            out.push(item);
            k = k + 1;
        }
        out
    }

    /// Point lookup into the current ranked result list; nothing when the
    /// index is out of range.
    pub fn get_result(&self, index: u32) -> (r: Option<MatchedItem>)
        requires
            self.wf(),
        ensures
            r is Some <==> index < self.s_matched().len(),
            r matches Some(mi) ==> matched_item_ok(mi, *self, index as int),
    {
        if (index as usize) < self.matched.len() {
            Some(self.build_item(index as usize))
        } else {
            None
        }
    }
}

} // verus!
