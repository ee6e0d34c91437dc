//! The composer: pipes one channel's live results into a new channel.
//!
//! Piping is a snapshot-then-construct operation: a bounded, immutable copy
//! of the source channel's current ranked results seeds a brand-new channel,
//! which never holds a reference back into the old one.

use crate::channel::result_entry_ok;
use crate::channel::Channel;
use crate::channel::MAX_LINES_IN_MEM;
use crate::entry::Entry;
use vstd::prelude::*;

verus! {

/// The most files taken when piping from a file-listing channel.  Derived
/// from the per-channel line budget and an assumed average line count per
/// file, so that starting the new channel cannot block unboundedly.
pub const MAX_PIPED_FILES: usize = MAX_LINES_IN_MEM / 200;

/// Snapshots up to `MAX_PIPED_FILES` of the source channel's currently
/// ranked results, for piping a file-listing channel into a text channel.
/// The caller resolves each entry's name to a canonical path, dropping the
/// ones that fail, and seeds the new channel with `Channel::from_file_paths`.
pub fn piped_files_snapshot(source: &mut Channel) -> (r: Vec<Entry>)
    requires
        old(source).wf(),
    ensures
        final(source).wf(),
        final(source).s_items() == old(source).s_items(),
        final(source).s_query() == old(source).s_query(),
        final(source).s_shutdown() == old(source).s_shutdown(),
        final(source).s_done() == old(source).s_done(),
        r@.len() <= MAX_PIPED_FILES,
        r@.len() <= final(source).s_matched().len(),
        r@.len() == if old(source).s_matched().len() <= MAX_PIPED_FILES {
            old(source).s_matched().len() as int
        } else {
            MAX_PIPED_FILES as int
        },
        forall|k: int|
            0 <= k < r@.len() ==> result_entry_ok(
                #[trigger] r@[k],
                final(source).s_items()[final(source).s_matched()[k]],
                final(source).s_query(),
            ),
{
    let rc = source.result_count();
    let cap: u32 = MAX_PIPED_FILES as u32;
    let count = if rc < cap {
        rc
    } else {
        cap
    };
    source.results(count, 0)
}

/// Snapshots all of the source channel's currently ranked results, for
/// piping a directory-listing channel into a fresh crawl: the caller
/// resolves each entry's name to a canonical path and starts a new channel
/// rooted at those paths with `Channel::new`.
pub fn dirs_snapshot(source: &mut Channel) -> (r: Vec<Entry>)
    requires
        old(source).wf(),
    ensures
        final(source).wf(),
        final(source).s_items() == old(source).s_items(),
        final(source).s_query() == old(source).s_query(),
        final(source).s_shutdown() == old(source).s_shutdown(),
        final(source).s_done() == old(source).s_done(),
        r@.len() == old(source).s_matched().len(),
        forall|k: int|
            0 <= k < r@.len() ==> result_entry_ok(
                #[trigger] r@[k],
                final(source).s_items()[final(source).s_matched()[k]],
                final(source).s_query(),
            ),
{
    let rc = source.result_count();
    source.results(rc, 0)
}

/// Pipes a text channel into a new text channel: the source's currently
/// ranked candidate lines are snapshotted and ingested verbatim, keeping
/// their path and line-number metadata, with no re-reading from disk.  The
/// new channel's ingestion is complete on return.
pub fn pipe_from_text(source: &mut Channel) -> (r: Channel)
    requires
        old(source).wf(),
    ensures
        final(source).wf(),
        final(source).s_items() == old(source).s_items(),
        r.wf(),
        r.s_done(),
        !r.s_shutdown(),
        r.s_items().len() <= final(source).s_matched().len(),
        r.s_items().len() == if old(source).s_matched().len() <= MAX_LINES_IN_MEM {
            old(source).s_matched().len() as int
        } else {
            MAX_LINES_IN_MEM as int
        },
        forall|j: int|
            0 <= j < r.s_items().len() ==> {
                let c = #[trigger] r.s_items()[j];
                let s = final(source).s_items()[final(source).s_matched()[j]];
                &&& c.path@ == s.path@
                &&& c.line@ == s.line@
                &&& c.line_number == s.line_number
            },
{
    let rc = source.result_count();
    let entries = source.results(rc, 0);
    proof {
        source.lemma_candidates_wf();
        source.lemma_matched_in_range();
        assert forall|k: int| 0 <= k < entries@.len() && k < MAX_LINES_IN_MEM implies {
            let e = #[trigger] entries@[k];
            &&& e.value matches Some(v) && v@.len() > 0
            &&& e.line_number matches Some(l) && l >= 1
        } by {
            assert(result_entry_ok(
                entries@[k],
                source.s_items()[source.s_matched()[k]],
                source.s_query(),
            ));
            assert(source.s_items()[source.s_matched()[k]].wf());
        }
    }
    let piped = Channel::from_text_entries(entries);
    piped
}

} // verus!
