//! The text classifier: given a small byte sample from the head of a file,
//! decide whether the file is worth treating as searchable text.

use vstd::prelude::*;

verus! {

/// How many bytes of a file are sampled for classification.
pub const SAMPLE_SIZE: usize = 128;

/// A byte that renders as a visible ASCII glyph or a space.
pub open spec fn is_printable_ascii(b: u8) -> bool {
    32 <= b < 127
}

/// How many bytes of the sample are printable ASCII.
pub open spec fn printable_count(s: Seq<u8>) -> nat
    decreases s.len(),
{
    if s.len() == 0 {
        0
    } else {
        printable_count(s.drop_last()) + (if is_printable_ascii(s.last()) {
            1nat
        } else {
            0nat
        })
    }
}

/// A null byte marks a known binary encoding.
pub open spec fn has_null_byte(s: Seq<u8>) -> bool {
    exists|i: int| 0 <= i < s.len() && s[i] == 0
}

/// A sample is searchable text when it is non-empty, free of null bytes, and
/// at least seven tenths of its bytes are printable ASCII.
pub open spec fn searchable_text(s: Seq<u8>) -> bool {
    &&& s.len() > 0
    &&& !has_null_byte(s)
    &&& printable_count(s) * 10 >= s.len() * 7
}

/// Classifies a byte sample taken from the head of a file.
///
/// An empty sample is not searchable; a null byte rejects the sample; else the
/// sample is searchable exactly when the proportion of printable ASCII bytes
/// reaches the fixed threshold.
pub fn is_searchable_text(sample: &[u8]) -> (r: bool)
    ensures
        r == searchable_text(sample@),
{
    let n = sample.len();
    if n == 0 {
        return false;
    }
    let mut printable: usize = 0;
    let mut i: usize = 0;
    while i < n
        invariant
            n == sample@.len(),
            0 <= i <= n,
            printable == printable_count(sample@.take(i as int)),
            printable <= i,
            !has_null_byte(sample@.take(i as int)),
        decreases n - i,
    {
        let b = sample[i];
        if b == 0 {
            assert(sample@.take(i as int + 1)[i as int] == 0);
            assert(has_null_byte(sample@));
            return false;
        }
        if 32 <= b && b < 127 {
            printable = printable + 1;
        }
        proof {
            assert(sample@.take(i as int + 1).drop_last() =~= sample@.take(i as int));
            assert(forall|j: int|
                0 <= j < i + 1 && sample@.take(i as int + 1)[j] == 0 ==> sample@.take(
                    i as int,
                )[j] == 0);
        }
        i = i + 1;
    }
    proof {
        assert(sample@.take(n as int) =~= sample@);
    }
    (printable as u128) * 10 >= (n as u128) * 7
}

/// A sample of nothing but null bytes is never searchable.
pub proof fn lemma_all_null_not_searchable(s: Seq<u8>)
    requires
        s.len() > 0,
        forall|i: int| 0 <= i < s.len() ==> s[i] == 0,
    ensures
        !searchable_text(s),
{
    assert(s[0] == 0);
}

/// A non-empty sample made only of printable ASCII bytes is always searchable.
pub proof fn lemma_printable_sample_searchable(s: Seq<u8>)
    requires
        s.len() > 0,
        forall|i: int| 0 <= i < s.len() ==> is_printable_ascii(#[trigger] s[i]),
    ensures
        searchable_text(s),
{
    lemma_printable_count_full(s);
}

/// A sample in which printable bytes are not in the majority is never
/// searchable.
pub proof fn lemma_majority_non_printable_not_searchable(s: Seq<u8>)
    requires
        printable_count(s) * 2 <= s.len(),
    ensures
        s.len() > 0 ==> !searchable_text(s),
{
}

/// When every byte is printable, the printable count is the whole length.
proof fn lemma_printable_count_full(s: Seq<u8>)
    requires
        forall|i: int| 0 <= i < s.len() ==> is_printable_ascii(#[trigger] s[i]),
    ensures
        printable_count(s) == s.len(),
    decreases s.len(),
{
    if s.len() > 0 {
        lemma_printable_count_full(s.drop_last());
    }
}

} // verus!
