//! The decisions of the append writer: when to rotate, and how a record is
//! framed in a segment. Opening, sizing and writing files is left to the caller.

use vstd::prelude::*;

verus! {

/// The byte that ends every record in a segment.
pub const DELIMITER: u8 = 10;

/// Whether a record of `record_len` bytes and its delimiter, written to a
/// segment that already holds `file_size` bytes, would take it past
/// `max_log_size`.
pub open spec fn needs_rotation(file_size: nat, record_len: nat, max_log_size: nat) -> bool {
    file_size + record_len + 1 > max_log_size
}

/// Whether the writer must rotate before appending a record of
/// `record_len` bytes (and its delimiter) to a segment of `file_size` bytes.
pub fn should_rotate(file_size: u64, record_len: usize, max_log_size: u64) -> (r: bool)
    ensures
        r == needs_rotation(file_size as nat, record_len as nat, max_log_size as nat),
{
    file_size as u128 + record_len as u128 + 1 > max_log_size as u128
}

/// A record as it is written to a segment: its bytes, then the delimiter.
pub fn frame_record(record: Vec<u8>) -> (r: Vec<u8>)
    ensures
        r@ == record@.push(DELIMITER),
{
    let mut out = record;
    out.push(DELIMITER);
    out
}

/// Where a batch of appends stands: how many times it has rotated, and the
/// size of the segment it is writing to.
pub struct AppendCursor {
    pub segment: nat,
    pub size: nat,
}

/// One append of a record of `len` bytes, when every write succeeds. A
/// rotation moves to the segment after the current one, which starts empty.
pub open spec fn append_step(c: AppendCursor, len: nat, max_log_size: nat) -> AppendCursor {
    if needs_rotation(c.size, len, max_log_size) {
        AppendCursor { segment: c.segment + 1, size: len + 1 }
    } else {
        AppendCursor { segment: c.segment, size: c.size + len + 1 }
    }
}

/// The cursor after appending records of the given lengths to a segment of `start` bytes.
pub open spec fn cursor_after(lens: Seq<nat>, start: nat, max_log_size: nat) -> AppendCursor
    decreases lens.len(),
{
    if lens.len() == 0 {
        AppendCursor { segment: 0, size: start }
    } else {
        append_step(cursor_after(lens.drop_last(), start, max_log_size), lens.last(), max_log_size)
    }
}

/// The segment (0 for the starting one, 1 for the first rotated one, ...) that record `i` lands in.
pub open spec fn segment_of(lens: Seq<nat>, start: nat, max_log_size: nat, i: int) -> nat {
    cursor_after(lens.take(i + 1), start, max_log_size).segment
}

/// The size of the starting segment after the records, each with its delimiter, are added to it.
pub open spec fn grown_size(lens: Seq<nat>, start: nat) -> nat
    decreases lens.len(),
{
    if lens.len() == 0 {
        start
    } else {
        grown_size(lens.drop_last(), start) + lens.last() + 1
    }
}

/// Record `k` is the first whose append, delimiter included, would take the
/// starting segment past the limit.
pub open spec fn first_crossing(lens: Seq<nat>, start: nat, max_log_size: nat, k: int) -> bool {
    &&& 0 <= k < lens.len()
    &&& forall|j: int|
        0 <= j < k ==> !needs_rotation(
            #[trigger] grown_size(lens.take(j), start),
            lens[j],
            max_log_size,
        )
    &&& needs_rotation(grown_size(lens.take(k), start), lens[k], max_log_size)
}

proof fn lemma_before_crossing(lens: Seq<nat>, start: nat, max_log_size: nat, k: int, i: int)
    requires
        first_crossing(lens, start, max_log_size, k),
        0 <= i <= k,
    ensures
        cursor_after(lens.take(i), start, max_log_size) == (AppendCursor {
            segment: 0,
            size: grown_size(lens.take(i), start),
        }),
    decreases i,
{
    if i > 0 {
        lemma_before_crossing(lens, start, max_log_size, k, i - 1);
        assert(lens.take(i).drop_last() =~= lens.take(i - 1));
        assert(!needs_rotation(grown_size(lens.take(i - 1), start), lens[i - 1], max_log_size));
    } else {
        assert(lens.take(0) =~= Seq::<nat>::empty());
    }
}

proof fn lemma_after_crossing(lens: Seq<nat>, start: nat, max_log_size: nat, k: int, i: int)
    requires
        first_crossing(lens, start, max_log_size, k),
        k <= i < lens.len(),
    ensures
        segment_of(lens, start, max_log_size, i) >= 1,
        i == k ==> segment_of(lens, start, max_log_size, i) == 1,
    decreases i - k,
{
    assert(lens.take(i + 1).drop_last() =~= lens.take(i));
    if i == k {
        lemma_before_crossing(lens, start, max_log_size, k, k);
    } else {
        lemma_after_crossing(lens, start, max_log_size, k, i - 1);
    }
}

/// Rotation boundary: when record `k` is the first whose append, delimiter
/// included, would take the starting segment past `max_log_size`, records
/// before `k` land in the starting segment, which then holds exactly them;
/// record `k` lands in the newly rotated segment, and no later record lands
/// in the starting one.
pub proof fn lemma_rotation_boundary(lens: Seq<nat>, start: nat, max_log_size: nat, k: int)
    requires
        first_crossing(lens, start, max_log_size, k),
    ensures
        forall|i: int| 0 <= i < k ==> #[trigger] segment_of(lens, start, max_log_size, i) == 0,
        segment_of(lens, start, max_log_size, k) == 1,
        forall|i: int| k <= i < lens.len() ==> #[trigger] segment_of(lens, start, max_log_size, i) >= 1,
        cursor_after(lens.take(k), start, max_log_size).size == grown_size(lens.take(k), start),
{
    assert forall|i: int| 0 <= i < k implies #[trigger] segment_of(lens, start, max_log_size, i) == 0 by {
        lemma_before_crossing(lens, start, max_log_size, k, i + 1);
    }
    assert forall|i: int| k <= i < lens.len() implies #[trigger] segment_of(lens, start, max_log_size, i) >= 1 by {
        lemma_after_crossing(lens, start, max_log_size, k, i);
    }
    lemma_after_crossing(lens, start, max_log_size, k, k);
    lemma_before_crossing(lens, start, max_log_size, k, k);
}

pub open spec fn lens_of(record_lens: Seq<usize>) -> Seq<nat> {
    record_lens.map_values(|l: usize| l as nat)
}

/// The segment each record of a batch lands in (0 for the starting segment,
/// one more for each rotation) when records of these lengths are appended to
/// a segment of `start` bytes and every write succeeds.
pub fn plan_segments(record_lens: &Vec<usize>, start: u64, max_log_size: u64) -> (r: Vec<usize>)
    ensures
        r@.len() == record_lens@.len(),
        forall|i: int|
            0 <= i < r@.len() ==> #[trigger] r@[i] as nat == segment_of(
                lens_of(record_lens@),
                start as nat,
                max_log_size as nat,
                i,
            ),
{
    let ghost lens = lens_of(record_lens@);
    let mut out: Vec<usize> = Vec::new();
    let mut segment: usize = 0;
    let mut size: u128 = start as u128;
    let mut i: usize = 0;
    while i < record_lens.len()
        invariant
            i <= record_lens@.len(),
            lens == lens_of(record_lens@),
            out@.len() == i,
            segment <= i,
            size <= 0x1_0000_0000_0000_0000 + max_log_size,
            cursor_after(lens.take(i as int), start as nat, max_log_size as nat) == (AppendCursor {
                segment: segment as nat,
                size: size as nat,
            }),
            forall|j: int|
                0 <= j < i ==> #[trigger] out@[j] as nat == segment_of(
                    lens,
                    start as nat,
                    max_log_size as nat,
                    j,
                ),
        decreases record_lens@.len() - i,
    {
        let len = record_lens[i];
        proof {
            assert(lens.take(i + 1).drop_last() =~= lens.take(i as int));
            assert(lens.take(i + 1).last() == len as nat);
        }
        if size + len as u128 + 1 > max_log_size as u128 {
            segment = segment + 1;
            size = len as u128 + 1;
        } else {
            size = size + len as u128 + 1;
        }
        out.push(segment);
        i += 1;
    }
    out
}

} // verus!
