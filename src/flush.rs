//! Replay: the sink that entries are flushed to, the checksum gate, and
//! handing the entries that pass it to the sink.

use vstd::prelude::*;
use crate::entry::{sealed, verify_checksum, EntryModel, WalEntry};
use crate::reader::entry_views;

verus! {

/// `std::io::Error`, the error a sink reports; carried through, never inspected.
#[verifier::external_type_specification]
#[verifier::external_body]
pub struct ExIoError(std::io::Error);

/// The downstream system that replayed entries are applied to.
///
/// A sink may keep a record of the entries it was handed (`keeps_record`,
/// `flushed`); one that does not, such as any sink written outside this
/// library, promises nothing about it.
pub trait Flusher {
    /// Whether this sink keeps a record of the entries handed to it.
    open spec fn keeps_record(&self) -> bool {
        false
    }

    /// The entries handed to this sink so far, in the order they came, for a sink that keeps a record.
    open spec fn flushed(&self) -> Seq<EntryModel> {
        Seq::empty()
    }

    /// Durably applies one entry. Only entries whose checksum matches are
    /// handed over; a sink that keeps a record records each call, whatever it returns.
    fn flush(&mut self, entry: WalEntry) -> (r: std::io::Result<()>)
        requires
            sealed(entry@),
        ensures
            old(self).keeps_record() ==> final(self).keeps_record() && final(self).flushed() == old(
                self,
            ).flushed().push(entry@),
    ;
}

/// A sink that keeps every entry handed to it, in order, and never fails.
pub struct RecordingSink {
    pub entries: Vec<WalEntry>,
}

impl RecordingSink {
    pub fn new() -> (r: RecordingSink)
        ensures
            r.entries@.len() == 0,
            r.keeps_record(),
    {
        RecordingSink { entries: Vec::new() }
    }
}

impl Flusher for RecordingSink {
    open spec fn keeps_record(&self) -> bool {
        true
    }

    open spec fn flushed(&self) -> Seq<EntryModel> {
        entry_views(self.entries@)
    }

    fn flush(&mut self, entry: WalEntry) -> (r: std::io::Result<()>) {
        let ghost before = self.entries@;
        self.entries.push(entry);
        assert(entry_views(self.entries@) =~= entry_views(before).push(entry@));
        Ok(())
    }
}

/// What replay did with one entry, by transaction id.
#[derive(Debug, PartialEq, Eq)]
pub enum ReplayOutcome {
    /// The sink applied the entry.
    Flushed(String),
    /// The sink was handed the entry and reported a failure.
    FlushFailed(String),
    /// The entry's checksum did not match; it was not handed to the sink.
    ChecksumMismatch(String),
}

pub open spec fn outcome_transaction(o: ReplayOutcome) -> Seq<char> {
    match o {
        ReplayOutcome::Flushed(t) => t@,
        ReplayOutcome::FlushFailed(t) => t@,
        ReplayOutcome::ChecksumMismatch(t) => t@,
    }
}

/// The entries whose checksum matches, in order.
pub open spec fn sealed_only(ms: Seq<EntryModel>) -> Seq<EntryModel>
    decreases ms.len(),
{
    if ms.len() == 0 {
        Seq::empty()
    } else {
        let rest = sealed_only(ms.drop_last());
        if sealed(ms.last()) {
            rest.push(ms.last())
        } else {
            rest
        }
    }
}

/// Replaying entries that were all sealed at construction forwards every one
/// of them, in order; with `lemma_segment_round_trip`, replaying segments
/// that the writer filled hands the sink exactly what was appended.
pub proof fn lemma_sealed_all_forwarded(ms: Seq<EntryModel>)
    requires
        forall|i: int| 0 <= i < ms.len() ==> sealed(#[trigger] ms[i]),
    ensures
        sealed_only(ms) == ms,
    decreases ms.len(),
{
    if ms.len() > 0 {
        let front = ms.drop_last();
        assert forall|i: int| 0 <= i < front.len() implies sealed(#[trigger] front[i]) by {
            assert(front[i] == ms[i]);
        }
        lemma_sealed_all_forwarded(front);
        assert(sealed(ms[ms.len() - 1]));
        assert(front.push(ms.last()) =~= ms);
    }
}

/// The checksum gate over a batch: the entries that pass it, in order.
pub fn verified_entries(entries: Vec<WalEntry>) -> (r: Vec<WalEntry>)
    ensures
        entry_views(r@) == sealed_only(entry_views(entries@)),
        forall|i: int| 0 <= i < r@.len() ==> sealed(#[trigger] r@[i]@),
{
    let ghost all = entry_views(entries@);
    let mut out: Vec<WalEntry> = Vec::new();
    for entry in it: entries
        invariant
            entry_views(it.seq()) == all,
            it.index() <= all.len(),
            entry_views(out@) == sealed_only(all.take(it.index() as int)),
            forall|i: int| 0 <= i < out@.len() ==> sealed(#[trigger] out@[i]@),
    {
        proof {
            assert(all.take(it.index() + 1).drop_last() =~= all.take(it.index() as int));
            assert(all[it.index() as int] == entry@);
        }
        if verify_checksum(&entry) {
            let ghost before = out@;
            out.push(entry);
            assert(entry_views(out@) =~= entry_views(before).push(entry@));
        }
    }
    assert(all.take(all.len() as int) =~= all);
    out
}

/// Hands every entry whose checksum matches to the sink, in order, one at a
/// time; entries that fail the check are dropped, and a sink failure does
/// not stop the entries after it. Returns what became of each entry, in order.
pub fn apply_changes<F: Flusher>(entries: Vec<WalEntry>, flusher: &mut F) -> (r: Vec<ReplayOutcome>)
    ensures
        old(flusher).keeps_record() ==> final(flusher).keeps_record() && final(flusher).flushed()
            == old(flusher).flushed() + sealed_only(entry_views(entries@)),
        r@.len() == entries@.len(),
        forall|i: int|
            0 <= i < r@.len() ==> outcome_transaction(#[trigger] r@[i])
                == entries@[i].transaction_id@ && (r@[i] is ChecksumMismatch <==> !sealed(
                entries@[i]@,
            )),
{
    let ghost all = entry_views(entries@);
    let ghost start = flusher.flushed();
    let ghost keeps = flusher.keeps_record();
    let mut out: Vec<ReplayOutcome> = Vec::new();
    for entry in it: entries
        invariant
            entry_views(it.seq()) == all,
            it.seq() == entries@,
            it.index() <= all.len(),
            out@.len() == it.index(),
            keeps ==> flusher.keeps_record() && flusher.flushed() == start + sealed_only(
                all.take(it.index() as int),
            ),
            forall|i: int|
                0 <= i < out@.len() ==> outcome_transaction(#[trigger] out@[i])
                    == entries@[i].transaction_id@ && (out@[i] is ChecksumMismatch <==> !sealed(
                    entries@[i]@,
                )),
    {
        let ghost idx = it.index() as int;
        proof {
            assert(all.take(idx + 1).drop_last() =~= all.take(idx));
            assert(all[idx] == entry@);
            assert(entries@[idx] == entry);
        }
        let transaction = entry.transaction_id.clone();
        let ghost before = out@;
        if verify_checksum(&entry) {
            let ghost flushed_before = flusher.flushed();
            let result = flusher.flush(entry);
            match result {
                Ok(_) => out.push(ReplayOutcome::Flushed(transaction)),
                Err(_) => out.push(ReplayOutcome::FlushFailed(transaction)),
            }
            assert(keeps ==> flusher.flushed() =~= start + sealed_only(all.take(idx + 1)));
        } else {
            out.push(ReplayOutcome::ChecksumMismatch(transaction));
        }
        assert(out@[idx] == out@.last());
        assert forall|i: int| 0 <= i < idx implies out@[i] == before[i] by {}
    }
    assert(all.take(all.len() as int) =~= all);
    out
}

} // verus!
