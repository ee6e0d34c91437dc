//! The line extractor: splits file content into physical lines, normalizes
//! each line so it renders safely in a single terminal row, and decodes the
//! survivors into text.

use vstd::prelude::*;
use vstd::utf8::{decode_utf8, valid_utf8};

verus! {

/// Index of the first line-feed byte in `c`, or `c.len()` when there is none.
pub open spec fn find_nl(c: Seq<u8>) -> int
    decreases c.len(),
{
    if c.len() == 0 {
        0
    } else if c[0] == 10 {
        0
    } else {
        1 + find_nl(c.skip(1))
    }
}

/// Removes one trailing carriage return, as the line reader does for lines
/// that were terminated by a line feed.
pub open spec fn strip_cr(l: Seq<u8>) -> Seq<u8> {
    if l.len() > 0 && l.last() == 13 {
        l.drop_last()
    } else {
        l
    }
}

/// The physical lines of a file's bytes: split at every line feed, with the
/// carriage return of a `\r\n` terminator removed; a final fragment without a
/// terminator is a line of its own, kept verbatim.
pub open spec fn raw_lines(c: Seq<u8>) -> Seq<Seq<u8>>
    decreases c.len(),
    via raw_lines_decreases
{
    if c.len() == 0 {
        seq![]
    } else {
        let i = find_nl(c);
        if i == c.len() {
            seq![c]
        } else {
            seq![strip_cr(c.take(i))] + raw_lines(c.skip(i + 1))
        }
    }
}

#[via_fn]
proof fn raw_lines_decreases(c: Seq<u8>) {
    lemma_find_nl_bounds(c);
}

/// What one byte contributes to a normalized line: a tab becomes a space,
/// other control bytes (including delete) vanish, everything else stays.
pub open spec fn normalized_byte(b: u8) -> Seq<u8> {
    if b == 9 {
        seq![32u8]
    } else if (32 <= b && b < 127) || b >= 128 {
        seq![b]
    } else {
        seq![]
    }
}

/// A line with its control bytes stripped or replaced.
pub open spec fn normalize_bytes(s: Seq<u8>) -> Seq<u8>
    decreases s.len(),
{
    if s.len() == 0 {
        seq![]
    } else {
        normalize_bytes(s.drop_last()) + normalized_byte(s.last())
    }
}

/// The candidates extracted from the given physical lines, numbering them
/// from `first_ln`: a line that does not decode as UTF-8 stops the file (a
/// read failure aborts further reading, keeping what came before); a line
/// that normalizes to nothing is skipped; every other line is kept with its
/// physical line number.
pub open spec fn extract_from(lines: Seq<Seq<u8>>, first_ln: nat) -> Seq<(nat, Seq<char>)>
    decreases lines.len(),
{
    if lines.len() == 0 {
        seq![]
    } else {
        let nb = normalize_bytes(lines[0]);
        if !valid_utf8(nb) {
            seq![]
        } else if nb.len() == 0 {
            extract_from(lines.skip(1), first_ln + 1)
        } else {
            seq![(first_ln, decode_utf8(nb))] + extract_from(lines.skip(1), first_ln + 1)
        }
    }
}

/// The candidates extracted from a whole file's bytes, numbered from one.
pub open spec fn extracted(content: Seq<u8>) -> Seq<(nat, Seq<char>)> {
    extract_from(raw_lines(content), 1)
}

/// The views of a vector of byte vectors.
pub open spec fn seq_views(s: Seq<Vec<u8>>) -> Seq<Seq<u8>> {
    s.map_values(|v: Vec<u8>| v@)
}

proof fn lemma_find_nl_bounds(c: Seq<u8>)
    ensures
        0 <= find_nl(c) <= c.len(),
    decreases c.len(),
{
    if c.len() > 0 && c[0] != 10 {
        lemma_find_nl_bounds(c.skip(1));
    }
}

/// `find_nl` is pinned by the position of the first line feed.
proof fn lemma_find_nl_is(c: Seq<u8>, i: int)
    requires
        0 <= i <= c.len(),
        i < c.len() ==> c[i] == 10,
        forall|k: int| 0 <= k < i ==> c[k] != 10,
        i == c.len() ==> forall|k: int| 0 <= k < c.len() ==> c[k] != 10,
    ensures
        find_nl(c) == i,
    decreases c.len(),
{
    if c.len() == 0 {
    } else if c[0] == 10 {
        assert(i == 0);
    } else {
        assert(i >= 1);
        assert(forall|k: int| 0 <= k < i - 1 ==> c.skip(1)[k] == c[k + 1]);
        lemma_find_nl_is(c.skip(1), i - 1);
    }
}

/// Splitting off a first line terminated at position `j`.
proof fn lemma_raw_lines_split(c: Seq<u8>, j: int)
    requires
        0 <= j < c.len(),
        c[j] == 10,
        forall|k: int| 0 <= k < j ==> c[k] != 10,
    ensures
        raw_lines(c) == seq![strip_cr(c.take(j))] + raw_lines(c.skip(j + 1)),
{
    lemma_find_nl_is(c, j);
}

/// A run of bytes without a line feed is a single final fragment.
proof fn lemma_raw_lines_tail(c: Seq<u8>)
    requires
        forall|k: int| 0 <= k < c.len() ==> c[k] != 10,
    ensures
        c.len() == 0 ==> raw_lines(c) == Seq::<Seq<u8>>::empty(),
        c.len() > 0 ==> raw_lines(c) == seq![c],
{
    lemma_find_nl_is(c, c.len() as int);
}

/// Splits file content into its physical lines.
pub fn split_lines(content: &[u8]) -> (r: Vec<Vec<u8>>)
    ensures
        seq_views(r@) == raw_lines(content@),
{
    let n = content.len();
    let mut out: Vec<Vec<u8>> = Vec::new();
    let mut start: usize = 0;
    let mut i: usize = 0;
    proof {
        assert(content@.skip(0) =~= content@);
        assert(seq_views(out@) =~= Seq::<Seq<u8>>::empty());
        assert(seq_views(out@) + raw_lines(content@) =~= raw_lines(content@));
    }
    while i < n
        invariant
            n == content@.len(),
            0 <= start <= i <= n,
            forall|k: int| start <= k < i ==> content@[k] != 10,
            raw_lines(content@) == seq_views(out@) + raw_lines(content@.skip(start as int)),
        decreases n - i,
    {
        if content[i] == 10 {
            let piece = vstd::slice::slice_subrange(content, start, i);
            let mut line: Vec<u8> = vstd::slice::slice_to_vec(piece);
            if line.len() > 0 && line[line.len() - 1] == 13 {
                line.pop();
            }
            proof {
                let rest = content@.skip(start as int);
                assert(forall|k: int|
                    0 <= k < i - start ==> rest[k] == content@[k + start] && rest[k] != 10);
                assert(rest[i - start] == content@[i as int]);
                lemma_raw_lines_split(rest, i - start);
                assert(rest.take(i - start) =~= content@.subrange(start as int, i as int));
                assert(line@ =~= strip_cr(rest.take(i - start)));
                assert(rest.skip(i - start + 1) =~= content@.skip(i + 1));
                assert(seq_views(out@.push(line)) =~= seq_views(out@) + seq![line@]);
                assert((seq_views(out@) + seq![line@]) + raw_lines(content@.skip(i + 1)) =~= seq_views(
                    out@,
                ) + (seq![line@] + raw_lines(content@.skip(i + 1))));
                assert(raw_lines(content@) == seq_views(out@.push(line)) + raw_lines(
                    content@.skip(i + 1),
                ));
            }
            out.push(line);
            start = i + 1;
        }
        i = i + 1;
    }
    let rest_ghost = Ghost(content@.skip(start as int));
    if start < n {
        let piece = vstd::slice::slice_subrange(content, start, n);
        let line: Vec<u8> = vstd::slice::slice_to_vec(piece);
        proof {
            lemma_raw_lines_tail(rest_ghost@);
            assert(line@ =~= rest_ghost@);
            assert(seq_views(out@.push(line)) =~= seq_views(out@) + seq![line@]);
            assert((seq_views(out@) + seq![line@]) + Seq::<Seq<u8>>::empty() =~= seq_views(
                out@,
            ) + seq![line@]);
            assert(seq_views(out@.push(line)) =~= seq_views(out@) + raw_lines(rest_ghost@));
        }
        out.push(line);
    } else {
        proof {
            lemma_raw_lines_tail(rest_ghost@);
            assert(seq_views(out@) + raw_lines(rest_ghost@) =~= seq_views(out@));
        }
    }
    out
}

/// Normalizes one physical line.
pub fn normalize_line(line: &[u8]) -> (r: Vec<u8>)
    ensures
        r@ == normalize_bytes(line@),
{
    let n = line.len();
    let mut out: Vec<u8> = Vec::new();
    let mut i: usize = 0;
    while i < n
        invariant
            n == line@.len(),
            0 <= i <= n,
            out@ == normalize_bytes(line@.take(i as int)),
        decreases n - i,
    {
        let b = line[i];
        proof {
            assert(line@.take(i as int + 1).drop_last() =~= line@.take(i as int));
            assert(line@.take(i as int + 1).last() == line@[i as int]);
        }
        if b == 9 {
            out.push(32);
        } else if (32 <= b && b < 127) || b >= 128 {
            out.push(b);
        }
        i = i + 1;
    }
    proof {
        assert(line@.take(n as int) =~= line@);
    }
    out
}

/// Relies on `String::from_utf8`: it succeeds exactly on valid UTF-8 input
/// and the resulting string holds the decoded characters.
#[verifier::external_body]
pub(crate) fn utf8_to_string(bytes: Vec<u8>) -> (r: Option<String>)
    ensures
        r matches Some(s) ==> valid_utf8(bytes@) && s@ == decode_utf8(bytes@),
        r is None ==> !valid_utf8(bytes@),
{
    String::from_utf8(bytes).ok()
}

/// A non-empty run of valid UTF-8 bytes decodes to at least one character.
pub proof fn lemma_decode_nonempty(bytes: Seq<u8>)
    requires
        valid_utf8(bytes),
        bytes.len() > 0,
    ensures
        decode_utf8(bytes).len() > 0,
{
}

/// A file has no more physical lines than bytes.
pub proof fn lemma_raw_lines_count(c: Seq<u8>)
    ensures
        raw_lines(c).len() <= c.len(),
    decreases c.len(),
{
    if c.len() > 0 {
        lemma_find_nl_bounds(c);
        let i = find_nl(c);
        if i < c.len() {
            lemma_raw_lines_count(c.skip(i + 1));
        }
    }
}

/// A file yields no more candidates than it has physical lines.
pub proof fn lemma_extract_from_count(lines: Seq<Seq<u8>>, first_ln: nat)
    ensures
        extract_from(lines, first_ln).len() <= lines.len(),
    decreases lines.len(),
{
    if lines.len() > 0 {
        lemma_extract_from_count(lines.skip(1), first_ln + 1);
    }
}

/// A file yields no more candidates than it has bytes.
pub proof fn lemma_extracted_count(c: Seq<u8>)
    ensures
        extracted(c).len() <= c.len(),
{
    lemma_raw_lines_count(c);
    lemma_extract_from_count(raw_lines(c), 1);
}

/// The extracted candidates carry strictly increasing, 1-based physical line
/// numbers, and each one's text is its own line, normalized and decoded,
/// never empty.
pub proof fn lemma_extract_from_props(lines: Seq<Seq<u8>>, first_ln: nat)
    ensures
        forall|j: int|
            0 <= j < extract_from(lines, first_ln).len() ==> {
                let e = #[trigger] extract_from(lines, first_ln)[j];
                &&& first_ln <= e.0 < first_ln + lines.len()
                &&& e.1 == decode_utf8(normalize_bytes(lines[e.0 - first_ln]))
                &&& e.1.len() > 0
            },
        forall|j: int|
            0 < j < extract_from(lines, first_ln).len() ==> (#[trigger] extract_from(
                lines,
                first_ln,
            )[j]).0 > extract_from(lines, first_ln)[j - 1].0,
    decreases lines.len(),
{
    if lines.len() > 0 {
        let nb = normalize_bytes(lines[0]);
        let ext = extract_from(lines, first_ln);
        if valid_utf8(nb) {
            lemma_extract_from_props(lines.skip(1), first_ln + 1);
            let ext1 = extract_from(lines.skip(1), first_ln + 1);
            assert(forall|k: int| 0 <= k < lines.len() - 1 ==> lines.skip(1)[k] == lines[k + 1]);
            let d: int = if nb.len() > 0 {
                1
            } else {
                0
            };
            if nb.len() > 0 {
                lemma_decode_nonempty(nb);
                assert(ext == seq![((first_ln, decode_utf8(nb)))] + ext1);
            } else {
                assert(ext == ext1);
            }
            assert forall|j: int| d <= j < ext.len() implies {
                let e = #[trigger] ext[j];
                &&& first_ln + 1 <= e.0 < first_ln + 1 + lines.len() - 1
                &&& e.1 == decode_utf8(normalize_bytes(lines[e.0 - first_ln]))
                &&& e.1.len() > 0
            } by {
                let e = ext[j];
                assert(e == ext1[j - d]);
                assert(first_ln + 1 <= e.0 < first_ln + 1 + lines.skip(1).len());
                assert(e.1 == decode_utf8(
                    normalize_bytes(lines.skip(1)[e.0 - (first_ln + 1) as int]),
                ));
                assert(lines.skip(1)[e.0 - first_ln - 1] == lines[e.0 - first_ln]);
            }
            assert forall|j: int| 0 < j < ext.len() implies (#[trigger] ext[j]).0 > ext[j - 1].0 by {
                if j - 1 >= d {
                    assert(ext[j] == ext1[j - d]);
                    assert(ext[j - 1] == ext1[j - 1 - d]);
                } else {
                    assert(ext[j] == ext1[j - d]);
                    assert(ext[j - 1].0 == first_ln);
                    assert(ext1[j - d].0 >= first_ln + 1);
                }
            }
        }
    }
}

/// When every physical line decodes and none normalizes to nothing, the
/// extraction is complete: one candidate per line, numbered contiguously
/// from `first_ln`.
pub proof fn lemma_extract_from_complete(lines: Seq<Seq<u8>>, first_ln: nat)
    requires
        forall|k: int|
            0 <= k < lines.len() ==> valid_utf8(normalize_bytes(#[trigger] lines[k]))
                && normalize_bytes(lines[k]).len() > 0,
    ensures
        extract_from(lines, first_ln).len() == lines.len(),
        forall|j: int|
            0 <= j < lines.len() ==> #[trigger] extract_from(lines, first_ln)[j] == (
            (first_ln + j) as nat,
            decode_utf8(normalize_bytes(lines[j])),
            ),
    decreases lines.len(),
{
    if lines.len() > 0 {
        assert(forall|k: int| 0 <= k < lines.len() - 1 ==> lines.skip(1)[k] == lines[k + 1]);
        lemma_extract_from_complete(lines.skip(1), first_ln + 1);
    }
}

} // verus!
