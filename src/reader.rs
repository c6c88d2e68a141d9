//! Reading a segment back: split its bytes into lines, decode each line on
//! its own, and keep the entries that decode.

use vstd::prelude::*;
use crate::codec::{
    decode_record, encoding, fits, lemma_bincode_tuple_len_of, lemma_escape_clean, lemma_round_trip,
    lemma_truncated_record_rejected, record,
};
use crate::entry::{EntryModel, WalEntry};

verus! {

/// The lines finished so far, and the line still open, after reading `bytes`.
pub open spec fn split_state(bytes: Seq<u8>) -> (Seq<Seq<u8>>, Seq<u8>)
    decreases bytes.len(),
{
    if bytes.len() == 0 {
        (Seq::empty(), Seq::empty())
    } else {
        let (done, open) = split_state(bytes.drop_last());
        if bytes.last() == 10 {
            (done.push(open), Seq::empty())
        } else {
            (done, open.push(bytes.last()))
        }
    }
}

/// The pieces between newline bytes, in order; the last piece is what follows the last newline.
pub open spec fn lines(bytes: Seq<u8>) -> Seq<Seq<u8>> {
    split_state(bytes).0.push(split_state(bytes).1)
}

/// A line without the carriage return that may end it.
pub open spec fn strip_cr(line: Seq<u8>) -> Seq<u8> {
    if line.len() > 0 && line.last() == 13 {
        line.drop_last()
    } else {
        line
    }
}

/// The entries that the lines decode to, in order; lines that are not a record are left out.
pub open spec fn decode_lines(ls: Seq<Seq<u8>>) -> Seq<EntryModel>
    decreases ls.len(),
{
    if ls.len() == 0 {
        Seq::empty()
    } else {
        let rest = decode_lines(ls.drop_last());
        match decode_record(strip_cr(ls.last())) {
            Some(m) => rest.push(m),
            None => rest,
        }
    }
}

/// The entries that a segment's bytes hold.
pub open spec fn segment_entries(bytes: Seq<u8>) -> Seq<EntryModel> {
    decode_lines(lines(bytes))
}

pub open spec fn entry_views(es: Seq<WalEntry>) -> Seq<EntryModel> {
    es.map_values(|e: WalEntry| e@)
}

/// Whether a line holds something that is not a record (an empty line does not count).
pub open spec fn is_bad_line(line: Seq<u8>) -> bool {
    strip_cr(line).len() > 0 && decode_record(strip_cr(line)) is None
}

/// How many of the lines are neither empty nor a record.
pub open spec fn bad_line_count(ls: Seq<Seq<u8>>) -> nat
    decreases ls.len(),
{
    if ls.len() == 0 {
        0
    } else {
        bad_line_count(ls.drop_last()) + if is_bad_line(ls.last()) {
            1nat
        } else {
            0nat
        }
    }
}

proof fn lemma_bad_line_count_le(ls: Seq<Seq<u8>>)
    ensures
        bad_line_count(ls) <= ls.len(),
    decreases ls.len(),
{
    if ls.len() > 0 {
        lemma_bad_line_count_le(ls.drop_last());
    }
}

proof fn lemma_split_state_len(bytes: Seq<u8>)
    ensures
        split_state(bytes).0.len() + (if split_state(bytes).1.len() > 0 {
            1int
        } else {
            0int
        }) <= bytes.len(),
    decreases bytes.len(),
{
    if bytes.len() > 0 {
        lemma_split_state_len(bytes.drop_last());
    }
}

fn decode_line(line: Vec<u8>, out: &mut Vec<WalEntry>) -> (bad: bool)
    ensures
        entry_views(final(out)@) == match decode_record(strip_cr(line@)) {
            Some(m) => entry_views(old(out)@).push(m),
            None => entry_views(old(out)@),
        },
        bad == is_bad_line(line@),
{
    let mut l = line;
    if l.len() > 0 && l[l.len() - 1] == 13 {
        l.pop();
    }
    assert(l@ =~= strip_cr(line@));
    match WalEntry::from_bytes(l.as_slice()) {
        Ok(e) => {
            out.push(e);
            assert(entry_views(final(out)@) =~= entry_views(old(out)@).push(e@));
            false
        },
        Err(_) => l.len() > 0,
    }
}

/// The entries of a segment, in the order they were appended, and how many
/// non-empty lines did not decode (a truncated final write, a corrupted
/// record) and were skipped.
pub fn read_segment(bytes: &[u8]) -> (r: (Vec<WalEntry>, usize))
    ensures
        entry_views(r.0@) == segment_entries(bytes@),
        r.1 == bad_line_count(lines(bytes@)),
{
    let mut out: Vec<WalEntry> = Vec::new();
    let mut open: Vec<u8> = Vec::new();
    let mut skipped: usize = 0;
    let mut i: usize = 0;
    while i < bytes.len()
        invariant
            i <= bytes@.len(),
            open@ == split_state(bytes@.take(i as int)).1,
            entry_views(out@) == decode_lines(split_state(bytes@.take(i as int)).0),
            skipped == bad_line_count(split_state(bytes@.take(i as int)).0),
        decreases bytes@.len() - i,
    {
        assert(bytes@.take(i + 1).drop_last() =~= bytes@.take(i as int));
        proof {
            lemma_split_state_len(bytes@.take(i as int));
            lemma_bad_line_count_le(split_state(bytes@.take(i as int)).0);
        }
        let b = bytes[i];
        if b == 10 {
            let line = open;
            open = Vec::new();
            if decode_line(line, &mut out) {
                skipped = skipped + 1;
            }
            proof {
                let ls = split_state(bytes@.take(i + 1)).0;
                assert(ls.drop_last() =~= split_state(bytes@.take(i as int)).0);
            }
        } else {
            open.push(b);
        }
        i += 1;
    }
    assert(bytes@.take(i as int) =~= bytes@);
    proof {
        lemma_split_state_len(bytes@);
        lemma_bad_line_count_le(split_state(bytes@).0);
        assert(lines(bytes@).drop_last() =~= split_state(bytes@).0);
    }
    let last_open_len = open.len();
    if decode_line(open, &mut out) {
        assert(last_open_len > 0);
        skipped = skipped + 1;
    }
    (out, skipped)
}

/// The entries of a segment, in the order they were appended; lines that do
/// not decode (a truncated final write, a corrupted record) are skipped.
pub fn decode_segment(bytes: &[u8]) -> (r: Vec<WalEntry>)
    ensures
        entry_views(r@) == segment_entries(bytes@),
{
    read_segment(bytes).0
}

/// Lines as the writer frames them: each one followed by a newline byte.
pub open spec fn join_lines(ls: Seq<Seq<u8>>) -> Seq<u8>
    decreases ls.len(),
{
    if ls.len() == 0 {
        Seq::empty()
    } else {
        join_lines(ls.drop_last()) + ls.last().push(10)
    }
}

pub open spec fn has_no_newline(line: Seq<u8>) -> bool {
    forall|i: int| 0 <= i < line.len() ==> line[i] != 10
}

proof fn lemma_split_append_plain(x: Seq<u8>, y: Seq<u8>)
    requires
        has_no_newline(y),
    ensures
        split_state(x + y) == (split_state(x).0, split_state(x).1 + y),
    decreases y.len(),
{
    if y.len() == 0 {
        assert(x + y =~= x);
        assert(split_state(x).1 + y =~= split_state(x).1);
    } else {
        let y0 = y.drop_last();
        lemma_split_append_plain(x, y0);
        assert((x + y).drop_last() =~= x + y0);
        assert(split_state(x).1 + y =~= (split_state(x).1 + y0).push(y.last()));
    }
}

proof fn lemma_split_join(ls: Seq<Seq<u8>>)
    requires
        forall|i: int| 0 <= i < ls.len() ==> has_no_newline(#[trigger] ls[i]),
    ensures
        split_state(join_lines(ls)) == (ls, Seq::<u8>::empty()),
    decreases ls.len(),
{
    if ls.len() == 0 {
        assert(ls =~= Seq::<Seq<u8>>::empty());
    } else {
        let front = ls.drop_last();
        assert forall|i: int| 0 <= i < front.len() implies has_no_newline(#[trigger] front[i]) by {
            assert(front[i] == ls[i]);
        }
        lemma_split_join(front);
        let last = ls.last();
        assert(has_no_newline(ls[ls.len() - 1]));
        lemma_split_append_plain(join_lines(front), last);
        let whole = join_lines(ls);
        assert(whole =~= (join_lines(front) + last).push(10));
        assert(whole.drop_last() =~= join_lines(front) + last);
        assert(Seq::<u8>::empty() + last =~= last);
        assert(front.push(last) =~= ls);
    }
}

proof fn lemma_decode_lines_concat(a: Seq<Seq<u8>>, b: Seq<Seq<u8>>)
    ensures
        decode_lines(a + b) == decode_lines(a) + decode_lines(b),
    decreases b.len(),
{
    if b.len() == 0 {
        assert(a + b =~= a);
        assert(decode_lines(a) + decode_lines(b) =~= decode_lines(a));
    } else {
        lemma_decode_lines_concat(a, b.drop_last());
        assert((a + b).drop_last() =~= a + b.drop_last());
        assert((a + b).last() == b.last());
        match decode_record(strip_cr(b.last())) {
            Some(m) => {
                assert(decode_lines(a) + decode_lines(b) =~= (decode_lines(a) + decode_lines(
                    b.drop_last(),
                )).push(m));
            },
            None => {},
        }
    }
}

/// The records of the entries, one line each.
pub open spec fn record_lines(ms: Seq<EntryModel>) -> Seq<Seq<u8>> {
    ms.map_values(|m: EntryModel| record(m))
}

/// A record is a line of its own: no newline inside, no carriage return at its end, never empty.
pub proof fn lemma_record_is_line(m: EntryModel)
    ensures
        has_no_newline(record(m)),
        strip_cr(record(m)) == record(m),
        record(m).len() >= 40,
{
    lemma_escape_clean(encoding(m));
    lemma_bincode_tuple_len_of(m);
    if record(m).len() > 0 {
        assert(record(m)[record(m).len() - 1] != 13);
    }
}

proof fn lemma_decode_record_lines(ms: Seq<EntryModel>)
    requires
        forall|i: int| 0 <= i < ms.len() ==> fits(#[trigger] ms[i]),
    ensures
        decode_lines(record_lines(ms)) == ms,
    decreases ms.len(),
{
    if ms.len() > 0 {
        let front = ms.drop_last();
        assert forall|i: int| 0 <= i < front.len() implies fits(#[trigger] front[i]) by {
            assert(front[i] == ms[i]);
        }
        lemma_decode_record_lines(front);
        assert(record_lines(ms).drop_last() =~= record_lines(front));
        let m = ms.last();
        assert(fits(ms[ms.len() - 1]));
        lemma_record_is_line(m);
        lemma_round_trip(m);
        assert(front.push(m) =~= ms);
    }
}

proof fn lemma_decode_one_line(line: Seq<u8>)
    requires
        decode_record(strip_cr(line)) is None,
    ensures
        decode_lines(seq![line]) == Seq::<EntryModel>::empty(),
{
    let one = seq![line];
    assert(one.drop_last() =~= Seq::<Seq<u8>>::empty());
    assert(one.last() == line);
    assert(decode_lines(one.drop_last()) == Seq::<EntryModel>::empty());
    assert(decode_lines(one) == decode_lines(one.drop_last()));
}

proof fn lemma_safe_lines_have_no_newline(ms: Seq<EntryModel>)
    requires
        forall|i: int| 0 <= i < ms.len() ==> fits(#[trigger] ms[i]),
    ensures
        forall|i: int| 0 <= i < ms.len() ==> has_no_newline(#[trigger] record_lines(ms)[i]),
{
    assert forall|i: int| 0 <= i < ms.len() implies has_no_newline(#[trigger] record_lines(ms)[i]) by {
        lemma_record_is_line(ms[i]);
    }
}

proof fn lemma_take_skip_safe(ms: Seq<EntryModel>, p: int)
    requires
        forall|i: int| 0 <= i < ms.len() ==> fits(#[trigger] ms[i]),
        0 <= p <= ms.len(),
    ensures
        forall|i: int| 0 <= i < ms.take(p).len() ==> fits(#[trigger] ms.take(p)[i]),
        forall|i: int| 0 <= i < ms.skip(p).len() ==> fits(#[trigger] ms.skip(p)[i]),
        ms.take(p) + ms.skip(p) == ms,
{
    assert forall|i: int| 0 <= i < ms.take(p).len() implies fits(#[trigger] ms.take(p)[i]) by {
        assert(ms.take(p)[i] == ms[i]);
    }
    assert forall|i: int| 0 <= i < ms.skip(p).len() implies fits(#[trigger] ms.skip(p)[i]) by {
        assert(ms.skip(p)[i] == ms[p + i]);
    }
    assert(ms.take(p) + ms.skip(p) =~= ms);
}

proof fn lemma_read_joined(ls: Seq<Seq<u8>>)
    requires
        forall|i: int| 0 <= i < ls.len() ==> has_no_newline(#[trigger] ls[i]),
    ensures
        segment_entries(join_lines(ls)) == decode_lines(ls),
{
    lemma_split_join(ls);
    let empty_line = Seq::<u8>::empty();
    assert(lines(join_lines(ls)) == ls.push(empty_line));
    assert(ls + seq![empty_line] =~= ls.push(empty_line));
    lemma_decode_lines_concat(ls, seq![empty_line]);
    lemma_empty_is_no_record();
    lemma_decode_one_line(empty_line);
    assert(decode_lines(ls) + Seq::<EntryModel>::empty() =~= decode_lines(ls));
}

/// Reading back what the writer appended: a segment made of the records of
/// `ms`, one per line, reads back as exactly `ms`, in order.
pub proof fn lemma_segment_round_trip(ms: Seq<EntryModel>)
    requires
        forall|i: int| 0 <= i < ms.len() ==> fits(#[trigger] ms[i]),
    ensures
        segment_entries(join_lines(record_lines(ms))) == ms,
{
    lemma_safe_lines_have_no_newline(ms);
    lemma_read_joined(record_lines(ms));
    lemma_decode_record_lines(ms);
}

/// The records of the entries, each line ending in a carriage return before its newline.
pub open spec fn crlf_record_lines(ms: Seq<EntryModel>) -> Seq<Seq<u8>> {
    ms.map_values(|m: EntryModel| record(m).push(13))
}

proof fn lemma_decode_crlf_lines(ms: Seq<EntryModel>)
    requires
        forall|i: int| 0 <= i < ms.len() ==> fits(#[trigger] ms[i]),
    ensures
        decode_lines(crlf_record_lines(ms)) == ms,
        forall|i: int| 0 <= i < ms.len() ==> has_no_newline(#[trigger] crlf_record_lines(ms)[i]),
    decreases ms.len(),
{
    if ms.len() > 0 {
        let front = ms.drop_last();
        assert forall|i: int| 0 <= i < front.len() implies fits(#[trigger] front[i]) by {
            assert(front[i] == ms[i]);
        }
        lemma_decode_crlf_lines(front);
        assert(crlf_record_lines(ms).drop_last() =~= crlf_record_lines(front));
        let m = ms.last();
        assert(fits(ms[ms.len() - 1]));
        lemma_record_is_line(m);
        assert(strip_cr(record(m).push(13)) =~= record(m));
        lemma_round_trip(m);
        assert(front.push(m) =~= ms);
        assert forall|i: int| 0 <= i < ms.len() implies has_no_newline(#[trigger] crlf_record_lines(ms)[i]) by {
            lemma_record_is_line(ms[i]);
            assert(crlf_record_lines(ms)[i] == record(ms[i]).push(13));
        }
    }
}

/// Line endings: a segment written with CRLF line endings reads back as the
/// same entries as one written with LF endings.
pub proof fn lemma_crlf_same_entries(ms: Seq<EntryModel>)
    requires
        forall|i: int| 0 <= i < ms.len() ==> fits(#[trigger] ms[i]),
    ensures
        segment_entries(join_lines(crlf_record_lines(ms))) == segment_entries(
            join_lines(record_lines(ms)),
        ),
        segment_entries(join_lines(crlf_record_lines(ms))) == ms,
{
    lemma_decode_crlf_lines(ms);
    lemma_read_joined(crlf_record_lines(ms));
    lemma_segment_round_trip(ms);
}

/// Corruption tolerance: a segment whose lines are the records of `ms`, with
/// one line that is not a record inserted at position `p` (a truncated write,
/// say), reads back as exactly `ms`, in order.
pub proof fn lemma_bad_line_dropped(ms: Seq<EntryModel>, bad: Seq<u8>, p: int)
    requires
        forall|i: int| 0 <= i < ms.len() ==> fits(#[trigger] ms[i]),
        has_no_newline(bad),
        decode_record(strip_cr(bad)) is None,
        0 <= p <= ms.len(),
    ensures
        segment_entries(
            join_lines(record_lines(ms.take(p)) + seq![bad] + record_lines(ms.skip(p))),
        ) == ms,
{
    let before = ms.take(p);
    let after = ms.skip(p);
    lemma_take_skip_safe(ms, p);
    lemma_safe_lines_have_no_newline(before);
    lemma_safe_lines_have_no_newline(after);
    let rb = record_lines(before);
    let ra = record_lines(after);
    let ls = rb + seq![bad] + ra;
    assert forall|i: int| 0 <= i < ls.len() implies has_no_newline(#[trigger] ls[i]) by {
        if i < rb.len() {
            assert(ls[i] == rb[i]);
        } else if i == rb.len() {
            assert(ls[i] == bad);
        } else {
            assert(ls[i] == ra[i - rb.len() - 1]);
        }
    }
    lemma_read_joined(ls);
    lemma_decode_one_line(bad);
    lemma_decode_lines_concat(rb + seq![bad], ra);
    lemma_decode_lines_concat(rb, seq![bad]);
    lemma_decode_record_lines(before);
    lemma_decode_record_lines(after);
    assert(decode_lines(ls) =~= before + after);
}

/// Corruption tolerance for a write cut short: a segment whose lines are the
/// records of `ms`, with the first `k` bytes of another entry's record
/// inserted as a line at position `p`, reads back as exactly `ms`, in order.
pub proof fn lemma_truncated_line_dropped(ms: Seq<EntryModel>, x: EntryModel, k: int, p: int)
    requires
        forall|i: int| 0 <= i < ms.len() ==> fits(#[trigger] ms[i]),
        fits(x),
        0 <= k < record(x).len(),
        0 <= p <= ms.len(),
    ensures
        segment_entries(
            join_lines(record_lines(ms.take(p)) + seq![record(x).take(k)] + record_lines(ms.skip(p))),
        ) == ms,
{
    let bad = record(x).take(k);
    lemma_escape_clean(encoding(x));
    assert(has_no_newline(bad));
    if k > 0 {
        assert(bad.last() == record(x)[k - 1]);
    }
    assert(strip_cr(bad) == bad);
    lemma_truncated_record_rejected(x, k);
    lemma_bad_line_dropped(ms, bad, p);
}

proof fn lemma_empty_is_no_record()
    ensures
        decode_record(Seq::<u8>::empty()) is None,
{
    if exists|m: EntryModel| record(m) == Seq::<u8>::empty() {
        let m = choose|m: EntryModel| record(m) == Seq::<u8>::empty();
        lemma_record_is_line(m);
    }
}

} // verus!
