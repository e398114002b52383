//! Reads against stored segments: a read of a range of offsets gives back
//! the records that were committed under these offsets.

use vstd::prelude::*;
use crate::agent::{Segment, batch_extent, buffers_valid, is_packing, packed};
use crate::topic_partition::Key;
use crate::laws::{
    lemma_containing_exists, lemma_next_offset_counts_records, lemma_prefix_contiguous,
    record_total,
};
use crate::offset_index::{
    IndexEntry, can_commit, commit, containing_index, contiguous, follows,
    lemma_containing_holds, lemma_containing_unique, lemma_starts_increase, next_offset,
    read_outcome, record_count, resolve, trim, trim_hi, trim_lo, well_formed,
};
use crate::records::{
    lemma_split_of_flatten, lemma_total_size_take, record_at, split_records, total_size,
    window_records, windows_match,
};
use crate::types::{Extent, LogError};

verus! {

/// Segment storage as contracts see it: the bytes of each segment, by name.
pub type Segments = Map<Seq<char>, Seq<u8>>;

/// Whether storage holds the segment of the extent, and the extent lies
/// inside it.
pub open spec fn is_stored(segments: Segments, extent: Extent) -> bool {
    &&& segments.dom().contains(extent.file_name)
    &&& extent.file_offset + total_size(extent.record_sizes) <= segments[extent.file_name].len()
}

/// Whether storage holds every batch of the index.
pub open spec fn all_stored(segments: Segments, entries: Seq<IndexEntry>) -> bool {
    forall|i: int| 0 <= i < entries.len() ==> is_stored(segments, (#[trigger] entries[i]).extent)
}

/// The bytes that storage holds at the place of the extent.
pub open spec fn window_of(segments: Segments, extent: Extent) -> Seq<u8> {
    segments[extent.file_name].subrange(
        extent.file_offset as int,
        (extent.file_offset + total_size(extent.record_sizes)) as int,
    )
}

/// The windows that storage gives for a list of extents.
pub open spec fn fetched(segments: Segments, extents: Seq<Extent>) -> Seq<Seq<u8>> {
    Seq::new(extents.len(), |i: int| window_of(segments, extents[i]))
}

/// The records of a committed batch.
pub open spec fn batch_records(segments: Segments, entry: IndexEntry) -> Seq<Seq<u8>> {
    split_records(window_of(segments, entry.extent), entry.extent.record_sizes)
}

/// The records of a partition in the order of their logical offsets: the
/// record of offset `o` stands at position `o - 1`.
pub open spec fn committed_records(segments: Segments, entries: Seq<IndexEntry>) -> Seq<Seq<u8>>
    decreases entries.len(),
{
    if entries.len() == 0 {
        Seq::empty()
    } else {
        committed_records(segments, entries.drop_last()) + batch_records(segments, entries.last())
    }
}

/// The sizes of a run of records add up to the difference of the sums up to
/// its two ends.
pub proof fn lemma_total_size_subrange(sizes: Seq<usize>, lo: int, hi: int)
    requires
        0 <= lo <= hi <= sizes.len(),
    ensures
        total_size(sizes.subrange(lo, hi)) + total_size(sizes.take(lo)) == total_size(
            sizes.take(hi),
        ),
    decreases hi - lo,
{
    if lo == hi {
        assert(sizes.subrange(lo, hi) =~= Seq::<usize>::empty());
    } else {
        lemma_total_size_subrange(sizes, lo, hi - 1);
        assert(sizes.subrange(lo, hi).drop_last() =~= sizes.subrange(lo, hi - 1));
        lemma_total_size_take(sizes, hi - 1);
    }
}

/// Cutting out the bytes of a run of records and splitting them gives the
/// records of that run.
pub proof fn lemma_split_subrange(bytes: Seq<u8>, sizes: Seq<usize>, lo: int, hi: int)
    requires
        0 <= lo <= hi <= sizes.len(),
        total_size(sizes) <= bytes.len(),
    ensures
        total_size(sizes.take(lo)) <= total_size(sizes.take(hi)) <= bytes.len(),
        split_records(
            bytes.subrange(total_size(sizes.take(lo)) as int, total_size(sizes.take(hi)) as int),
            sizes.subrange(lo, hi),
        ) == split_records(bytes, sizes).subrange(lo, hi),
{
    let part = sizes.subrange(lo, hi);
    let from = total_size(sizes.take(lo)) as int;
    let to = total_size(sizes.take(hi)) as int;
    lemma_total_size_subrange(sizes, lo, hi);
    lemma_total_size_take(sizes, hi);
    let cut = bytes.subrange(from, to);
    assert forall|k: int| 0 <= k < hi - lo implies record_at(cut, part, k) == record_at(
        bytes,
        sizes,
        lo + k,
    ) by {
        assert(part.take(k) =~= sizes.subrange(lo, lo + k));
        assert(part.take(k + 1) =~= sizes.subrange(lo, lo + k + 1));
        lemma_total_size_subrange(sizes, lo, lo + k);
        lemma_total_size_subrange(sizes, lo, lo + k + 1);
        lemma_total_size_subrange(sizes, lo + k + 1, hi);
        lemma_total_size_take(sizes, lo + k);
        assert(record_at(cut, part, k) =~= record_at(bytes, sizes, lo + k));
    }
    assert(split_records(cut, part) =~= split_records(bytes, sizes).subrange(lo, hi));
}

/// The window of a trimmed batch holds the records of the batch that lie in
/// the range.
pub proof fn lemma_trimmed_records(segments: Segments, entry: IndexEntry, start: nat, end: nat)
    requires
        is_stored(segments, entry.extent),
        start <= end,
        entry.start <= end,
        start < entry.start + record_count(entry),
    ensures
        0 <= trim_lo(entry, start) <= trim_hi(entry, end) <= record_count(entry),
        total_size(trim(entry, start, end).record_sizes) == window_of(
            segments,
            trim(entry, start, end),
        ).len(),
        batch_records(segments, entry).len() == record_count(entry),
        split_records(
            window_of(segments, trim(entry, start, end)),
            trim(entry, start, end).record_sizes,
        ) == batch_records(segments, entry).subrange(
            trim_lo(entry, start),
            trim_hi(entry, end),
        ),
{
    let sizes = entry.extent.record_sizes;
    let lo = trim_lo(entry, start);
    let hi = trim_hi(entry, end);
    let window = window_of(segments, entry.extent);
    let cut = trim(entry, start, end);
    lemma_split_subrange(window, sizes, lo, hi);
    lemma_total_size_subrange(sizes, lo, hi);
    lemma_total_size_take(sizes, hi);
    assert(window_of(segments, cut) =~= window.subrange(
        total_size(sizes.take(lo)) as int,
        total_size(sizes.take(hi)) as int,
    ));
}

/// A partition has as many records as its batches count.
pub proof fn lemma_committed_len(segments: Segments, entries: Seq<IndexEntry>)
    ensures
        committed_records(segments, entries).len() == record_total(entries),
    decreases entries.len(),
{
    if entries.len() > 0 {
        lemma_committed_len(segments, entries.drop_last());
    }
}

/// The records of the batches before position `n` come first among the
/// records of the partition.
pub proof fn lemma_committed_prefix(segments: Segments, entries: Seq<IndexEntry>, n: int)
    requires
        0 <= n <= entries.len(),
    ensures
        committed_records(segments, entries.take(n)).len() <= committed_records(
            segments,
            entries,
        ).len(),
        committed_records(segments, entries).take(
            committed_records(segments, entries.take(n)).len() as int,
        ) == committed_records(segments, entries.take(n)),
        n < entries.len() ==> committed_records(segments, entries.take(n + 1))
            == committed_records(segments, entries.take(n)) + batch_records(segments, entries[n]),
    decreases entries.len() - n,
{
    let whole = committed_records(segments, entries);
    let front = committed_records(segments, entries.take(n));
    if n == entries.len() {
        assert(entries.take(n) =~= entries);
        assert(whole.take(whole.len() as int) =~= whole);
    } else {
        let longer = committed_records(segments, entries.take(n + 1));
        assert(entries.take(n + 1).drop_last() =~= entries.take(n));
        assert(longer == front + batch_records(segments, entries[n]));
        lemma_committed_prefix(segments, entries, n + 1);
        assert(whole.take(front.len() as int) =~= whole.take(longer.len() as int).take(
            front.len() as int,
        ));
        assert(longer.take(front.len() as int) =~= front);
    }
}

/// The windows of the first `k` batches of a read hold the committed records
/// from offset `start` up to the last one that the `k`-th batch gives.
proof fn lemma_resolved_prefix(
    segments: Segments,
    entries: Seq<IndexEntry>,
    start: nat,
    end: nat,
    k: int,
)
    requires
        contiguous(entries),
        all_stored(segments, entries),
        1 <= start <= end < next_offset(entries),
        1 <= k <= containing_index(entries, end) - containing_index(entries, start) + 1,
    ensures
        ({
            let first = containing_index(entries, start);
            let extents = resolve(entries, start, end);
            let through = entries[first + k - 1];
            &&& 0 <= first
            &&& first + k <= entries.len()
            &&& windows_match(extents.take(k), fetched(segments, extents.take(k)))
            &&& window_records(extents.take(k), fetched(segments, extents.take(k)))
                == committed_records(segments, entries.take(first + k)).subrange(
                start - 1,
                through.start - 1 + trim_hi(through, end),
            )
        }),
    decreases k,
{
    let first = containing_index(entries, start);
    let last = containing_index(entries, end);
    let found_first = lemma_containing_exists(entries, start);
    lemma_containing_unique(entries, found_first, start);
    let found_last = lemma_containing_exists(entries, end);
    lemma_containing_unique(entries, found_last, end);
    lemma_containing_holds(entries, first, start);
    lemma_containing_holds(entries, last, end);
    let extents = resolve(entries, start, end);
    let i = first + k - 1;
    let entry = entries[i];
    if i < last {
        lemma_starts_increase(entries, i, last);
    }
    if first < i {
        lemma_starts_increase(entries, first, i);
    }
    lemma_trimmed_records(segments, entry, start, end);
    lemma_committed_prefix(segments, entries, i);
    lemma_prefix_contiguous(entries, i);
    lemma_next_offset_counts_records(entries.take(i));
    lemma_committed_len(segments, entries.take(i));
    let before = committed_records(segments, entries.take(i));
    let batch = batch_records(segments, entry);
    let shorter = extents.take(k - 1);
    let taken = extents.take(k);
    assert(taken.drop_last() =~= shorter);
    assert(taken.last() == trim(entry, start, end));
    assert(fetched(segments, taken).drop_last() =~= fetched(segments, shorter));
    assert(fetched(segments, taken).last() == window_of(segments, trim(entry, start, end)));
    let cut = batch.subrange(trim_lo(entry, start), trim_hi(entry, end));
    assert(window_records(taken, fetched(segments, taken)) == window_records(
        shorter,
        fetched(segments, shorter),
    ) + cut);
    if k == 1 {
        assert(window_records(shorter, fetched(segments, shorter)) =~= Seq::<Seq<u8>>::empty());
        assert(Seq::<Seq<u8>>::empty() + cut =~= (before + batch).subrange(
            start - 1,
            entry.start - 1 + trim_hi(entry, end),
        ));
        assert(windows_match(taken, fetched(segments, taken)));
    } else {
        lemma_resolved_prefix(segments, entries, start, end, k - 1);
        assert(follows(entries, i));
        let earlier = entries[i - 1];
        assert(trim_hi(earlier, end) == record_count(earlier));
        assert(trim_lo(entry, start) == 0);
        assert(before.subrange(start - 1, before.len() as int) + cut =~= (before + batch).subrange(
            start - 1,
            entry.start - 1 + trim_hi(entry, end),
        ));
        assert forall|j: int| 0 <= j < taken.len() implies total_size(
            (#[trigger] taken[j]).record_sizes,
        ) == fetched(segments, taken)[j].len() by {
            if j < k - 1 {
                assert(taken[j] == shorter[j]);
                assert(fetched(segments, taken)[j] == fetched(segments, shorter)[j]);
            }
        }
    }
}

/// Where storage holds every committed batch, the windows that a read of
/// the offsets `start` to `end` resolves to hold exactly the records that
/// were committed under these offsets, in order.
pub proof fn lemma_read_gives_committed_records(
    segments: Segments,
    entries: Seq<IndexEntry>,
    start: nat,
    end: nat,
)
    requires
        contiguous(entries),
        all_stored(segments, entries),
        1 <= start <= end < next_offset(entries),
    ensures
        windows_match(
            resolve(entries, start, end),
            fetched(segments, resolve(entries, start, end)),
        ),
        window_records(
            resolve(entries, start, end),
            fetched(segments, resolve(entries, start, end)),
        ) == committed_records(segments, entries).subrange(start - 1, end as int),
{
    let first = containing_index(entries, start);
    let last = containing_index(entries, end);
    let found_first = lemma_containing_exists(entries, start);
    lemma_containing_unique(entries, found_first, start);
    let found_last = lemma_containing_exists(entries, end);
    lemma_containing_unique(entries, found_last, end);
    lemma_containing_holds(entries, first, start);
    lemma_containing_holds(entries, last, end);
    if last < first {
        lemma_starts_increase(entries, last, first);
    }
    let extents = resolve(entries, start, end);
    let k = last - first + 1;
    lemma_resolved_prefix(segments, entries, start, end, k);
    assert(extents.take(k) =~= extents);
    lemma_committed_prefix(segments, entries, last + 1);
    let whole = committed_records(segments, entries);
    let front = committed_records(segments, entries.take(last + 1));
    lemma_committed_len(segments, entries.take(last + 1));
    lemma_committed_prefix(segments, entries, last);
    lemma_committed_len(segments, entries.take(last));
    lemma_prefix_contiguous(entries, last);
    lemma_next_offset_counts_records(entries.take(last));
    lemma_trimmed_records(segments, entries[last], start, end);
    assert(front.subrange(start - 1, end as int) =~= whole.take(front.len() as int).subrange(
        start - 1,
        end as int,
    ));
    assert(whole.take(front.len() as int).subrange(start - 1, end as int) =~= whole.subrange(
        start - 1,
        end as int,
    ));
}

/// The bytes of the buffers before position `n` come first in the segment,
/// and the bytes of the buffer at position `n` follow them.
pub proof fn lemma_packed_prefix(buffers: Seq<Seq<Seq<u8>>>, n: int)
    requires
        0 <= n <= buffers.len(),
    ensures
        packed(buffers.take(n)).len() <= packed(buffers).len(),
        packed(buffers).take(packed(buffers.take(n)).len() as int) == packed(buffers.take(n)),
        n < buffers.len() ==> packed(buffers.take(n + 1)) == packed(buffers.take(n))
            + buffers[n].flatten(),
    decreases buffers.len() - n,
{
    let whole = packed(buffers);
    let front = packed(buffers.take(n));
    if n == buffers.len() {
        assert(buffers.take(n) =~= buffers);
        assert(whole.take(whole.len() as int) =~= whole);
    } else {
        let longer = packed(buffers.take(n + 1));
        assert(buffers.take(n + 1).drop_last() =~= buffers.take(n));
        assert(longer == front + buffers[n].flatten());
        lemma_packed_prefix(buffers, n + 1);
        assert(whole.take(front.len() as int) =~= whole.take(longer.len() as int).take(
            front.len() as int,
        ));
        assert(longer.take(front.len() as int) =~= front);
    }
}

/// A new segment leaves the records of the batches that were stored before
/// as they are.
pub proof fn lemma_new_segment_keeps_records(
    segments: Segments,
    entries: Seq<IndexEntry>,
    file_name: Seq<char>,
    file_bytes: Seq<u8>,
)
    requires
        all_stored(segments, entries),
        !segments.dom().contains(file_name),
    ensures
        all_stored(segments.insert(file_name, file_bytes), entries),
        committed_records(segments.insert(file_name, file_bytes), entries) == committed_records(
            segments,
            entries,
        ),
    decreases entries.len(),
{
    let after = segments.insert(file_name, file_bytes);
    assert forall|i: int| 0 <= i < entries.len() implies is_stored(
        after,
        (#[trigger] entries[i]).extent,
    ) by {
        assert(is_stored(segments, entries[i].extent));
    }
    if entries.len() > 0 {
        let front = entries.drop_last();
        assert forall|i: int| 0 <= i < front.len() implies is_stored(
            segments,
            (#[trigger] front[i]).extent,
        ) by {
            assert(front[i] == entries[i]);
        }
        lemma_new_segment_keeps_records(segments, front, file_name, file_bytes);
        assert(is_stored(segments, entries.last().extent));
    }
}

/// Once the segment of a flush is stored under a name that storage did not
/// hold, and the batch of a partition is committed, the partition's records
/// are those that were committed before, followed by the records that were
/// buffered for it.
pub proof fn lemma_flush_commits_buffered_records(
    keys: Seq<Key>,
    buffers: Seq<Seq<Seq<u8>>>,
    segment: Segment,
    i: int,
    segments: Segments,
    entries: Seq<IndexEntry>,
)
    requires
        buffers_valid(keys, buffers),
        is_packing(keys, buffers, segment),
        0 <= i < keys.len(),
        all_stored(segments, entries),
        !segments.dom().contains(segment.file_name@),
    ensures
        segment.metadata.contains_key(keys[i]),
        segment.metadata.value_of(keys[i])@ == batch_extent(buffers, i, segment.file_name@),
        all_stored(
            segments.insert(segment.file_name@, segment.file_bytes@),
            commit(entries, batch_extent(buffers, i, segment.file_name@)),
        ),
        committed_records(
            segments.insert(segment.file_name@, segment.file_bytes@),
            commit(entries, batch_extent(buffers, i, segment.file_name@)),
        ) == committed_records(segments, entries) + buffers[i],
{
    let name = segment.file_name@;
    let bytes = segment.file_bytes@;
    let stored = segments.insert(name, bytes);
    let batch = batch_extent(buffers, i, name);
    let after = commit(entries, batch);
    segment.metadata.lemma_key_at(i);
    lemma_new_segment_keeps_records(segments, entries, name, bytes);
    lemma_packed_prefix(buffers, i);
    lemma_packed_prefix(buffers, i + 1);
    assert forall|k: int| 0 <= k < buffers[i].len() implies (#[trigger] buffers[i][k]).len()
        <= usize::MAX by {}
    lemma_split_of_flatten(buffers[i]);
    let front = packed(buffers.take(i));
    let longer = packed(buffers.take(i + 1));
    assert(window_of(stored, batch) =~= buffers[i].flatten()) by {
        assert(bytes.take(longer.len() as int) == longer);
        assert(bytes.subrange(front.len() as int, longer.len() as int) =~= bytes.take(
            longer.len() as int,
        ).subrange(front.len() as int, longer.len() as int));
        assert(longer.subrange(front.len() as int, longer.len() as int) =~= buffers[i].flatten());
    }
    assert(is_stored(stored, batch));
    assert(after.drop_last() =~= entries);
    assert forall|j: int| 0 <= j < after.len() implies is_stored(
        stored,
        (#[trigger] after[j]).extent,
    ) by {
        if j < entries.len() {
            assert(is_stored(stored, entries[j].extent));
        }
    }
}

/// Round trip: once the segment of a flush is stored under a name that
/// storage did not hold, and the batch of a partition is committed, a read
/// of the offsets that the batch was given succeeds, and the windows that
/// it resolves to hold the records that were buffered for the partition,
/// unchanged and in order. For a partition without earlier batches these
/// are the offsets from 1 to the number of the records.
pub proof fn lemma_round_trip(
    keys: Seq<Key>,
    buffers: Seq<Seq<Seq<u8>>>,
    segment: Segment,
    i: int,
    segments: Segments,
    entries: Seq<IndexEntry>,
)
    requires
        buffers_valid(keys, buffers),
        is_packing(keys, buffers, segment),
        0 <= i < keys.len(),
        well_formed(entries),
        can_commit(entries, batch_extent(buffers, i, segment.file_name@)),
        all_stored(segments, entries),
        !segments.dom().contains(segment.file_name@),
    ensures
        ({
            let stored = segments.insert(segment.file_name@, segment.file_bytes@);
            let after = commit(entries, segment.metadata.value_of(keys[i])@);
            let first = next_offset(entries);
            let last = (next_offset(entries) + buffers[i].len() - 1) as nat;
            let extents = resolve(after, first, last);
            &&& entries.len() == 0 ==> first == 1 && last == buffers[i].len()
            &&& read_outcome(after, first, last) == Ok::<Seq<Extent>, LogError>(extents)
            &&& windows_match(extents, fetched(stored, extents))
            &&& window_records(extents, fetched(stored, extents)) == buffers[i]
        }),
{
    let stored = segments.insert(segment.file_name@, segment.file_bytes@);
    let batch = batch_extent(buffers, i, segment.file_name@);
    let after = commit(entries, batch);
    let first = next_offset(entries);
    let last = (next_offset(entries) + buffers[i].len() - 1) as nat;
    lemma_flush_commits_buffered_records(keys, buffers, segment, i, segments, entries);
    crate::laws::lemma_commit_keeps_contiguity(entries, batch);
    lemma_next_offset_counts_records(entries);
    lemma_committed_len(segments, entries);
    assert(after.last() == IndexEntry { start: first, extent: batch });
    lemma_read_gives_committed_records(stored, after, first, last);
    let before = committed_records(segments, entries);
    assert((before + buffers[i]).subrange(first - 1, last as int) =~= buffers[i]);
}

} // verus!
