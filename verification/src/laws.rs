//! What holds of the log as a whole: the offsets of a partition are the
//! numbers from 1 to its record count, and a read gives back the records
//! that were flushed under the offsets it asks for.

use vstd::prelude::*;
use crate::offset_index::{
    IndexEntry, can_commit, commit, contiguous, follows, is_containing, lemma_containing_holds,
    lemma_containing_unique, lemma_starts_increase, next_offset, record_count, resolve, trim,
    trim_hi, trim_lo, well_formed,
};
use crate::records::total_size;
use crate::types::Extent;

verus! {

/// Whether the batch holds the record of the logical offset.
pub open spec fn holds_offset(entry: IndexEntry, offset: nat) -> bool {
    entry.start <= offset < entry.start + record_count(entry)
}

/// The number of records of all batches together.
pub open spec fn record_total(entries: Seq<IndexEntry>) -> nat
    decreases entries.len(),
{
    if entries.len() == 0 {
        0
    } else {
        record_total(entries.drop_last()) + record_count(entries.last())
    }
}

/// The logical offsets that the batches of an index hold.
pub open spec fn assigned_offsets(entries: Seq<IndexEntry>) -> Set<nat> {
    Set::new(
        |offset: nat| exists|i: int| 0 <= i < entries.len() && holds_offset(#[trigger] entries[i], offset),
    )
}

/// A prefix of a contiguous index is contiguous.
pub proof fn lemma_prefix_contiguous(entries: Seq<IndexEntry>, n: int)
    requires
        contiguous(entries),
        0 <= n <= entries.len(),
    ensures
        contiguous(entries.take(n)),
        n < entries.len() ==> next_offset(entries.take(n)) == entries[n].start,
        n == entries.len() ==> entries.take(n) == entries,
{
    let prefix = entries.take(n);
    assert forall|i: int| 0 < i < prefix.len() implies #[trigger] follows(prefix, i) by {
        assert(follows(entries, i));
    }
    if n < entries.len() && 0 < n {
        assert(follows(entries, n));
    }
    if n == entries.len() {
        assert(prefix =~= entries);
    }
}

/// In a contiguous index the next offset is one more than the number of
/// committed records.
pub proof fn lemma_next_offset_counts_records(entries: Seq<IndexEntry>)
    requires
        contiguous(entries),
    ensures
        next_offset(entries) == 1 + record_total(entries),
    decreases entries.len(),
{
    if entries.len() > 0 {
        let n = entries.len() - 1;
        lemma_prefix_contiguous(entries, n);
        assert(entries.take(n) =~= entries.drop_last());
        lemma_next_offset_counts_records(entries.drop_last());
    }
}

/// Every committed offset has a containing batch, and that batch holds it.
pub proof fn lemma_containing_exists(entries: Seq<IndexEntry>, offset: nat) -> (i: int)
    requires
        contiguous(entries),
        1 <= offset < next_offset(entries),
    ensures
        is_containing(entries, i, offset),
        holds_offset(entries[i], offset),
    decreases entries.len(),
{
    let n = entries.len() - 1;
    if entries[n].start <= offset {
        n
    } else {
        lemma_prefix_contiguous(entries, n);
        let i = lemma_containing_exists(entries.take(n), offset);
        lemma_containing_holds(entries.take(n), i, offset);
        if i + 1 < n {
            assert(entries.take(n)[i + 1] == entries[i + 1]);
        }
        i
    }
}

/// The logical offsets of a partition are exactly the numbers from 1 to the
/// number of its records, and no offset belongs to two batches.
pub proof fn lemma_offsets_are_one_to_record_total(entries: Seq<IndexEntry>)
    requires
        contiguous(entries),
    ensures
        assigned_offsets(entries) == Set::new(|offset: nat| 1 <= offset <= record_total(entries)),
        forall|i: int, j: int, offset: nat|
            0 <= i < entries.len() && 0 <= j < entries.len() && #[trigger] holds_offset(
                entries[i],
                offset,
            ) && #[trigger] holds_offset(entries[j], offset) ==> i == j,
{
    lemma_next_offset_counts_records(entries);
    assert forall|offset: nat|
        assigned_offsets(entries).contains(offset) <==> 1 <= offset <= record_total(
            entries,
        ) by {
        if 1 <= offset <= record_total(entries) {
            let i = lemma_containing_exists(entries, offset);
            assert(0 <= i < entries.len() && holds_offset(entries[i], offset));
        }
        if assigned_offsets(entries).contains(offset) {
            let i = choose|i: int| 0 <= i < entries.len() && holds_offset(#[trigger] entries[i], offset);
            if 0 < i {
                lemma_starts_increase(entries, 0, i);
            }
            if i < entries.len() - 1 {
                lemma_starts_increase(entries, i, entries.len() - 1);
            }
        }
    }
    assert(assigned_offsets(entries) =~= Set::new(
        |offset: nat| 1 <= offset <= record_total(entries),
    ));
    assert forall|i: int, j: int, offset: nat|
        0 <= i < entries.len() && 0 <= j < entries.len() && #[trigger] holds_offset(
            entries[i],
            offset,
        ) && #[trigger] holds_offset(entries[j], offset) implies i == j by {
        if i < j {
            lemma_starts_increase(entries, i, j);
        }
        if j < i {
            lemma_starts_increase(entries, j, i);
        }
    }
}

/// Committing a batch keeps the index well formed, and gives the batch the
/// offsets that follow the committed ones.
pub proof fn lemma_commit_keeps_contiguity(entries: Seq<IndexEntry>, batch: Extent)
    requires
        well_formed(entries),
        can_commit(entries, batch),
    ensures
        well_formed(commit(entries, batch)),
        record_total(commit(entries, batch)) == record_total(entries) + batch.record_sizes.len(),
        commit(entries, batch).last().start == record_total(entries) + 1,
{
    let after = commit(entries, batch);
    assert forall|i: int| 0 < i < after.len() implies #[trigger] follows(after, i) by {
        if i < entries.len() {
            assert(follows(entries, i));
        }
    }
    assert(after.drop_last() =~= entries);
    lemma_next_offset_counts_records(entries);
}

/// Two batches that reach the index one after the other, from whichever
/// agents, get adjoining offsets: the second starts where the first ends,
/// no offset belongs to both, and the index stays contiguous.
pub proof fn lemma_successive_commits_adjoin(entries: Seq<IndexEntry>, first: Extent, second: Extent)
    requires
        well_formed(entries),
        can_commit(entries, first),
        can_commit(commit(entries, first), second),
    ensures
        ({
            let after = commit(commit(entries, first), second);
            let earlier = after[after.len() - 2];
            let later = after[after.len() - 1];
            &&& well_formed(after)
            &&& earlier == IndexEntry { start: next_offset(entries), extent: first }
            &&& later.extent == second
            &&& later.start == earlier.start + first.record_sizes.len()
            &&& forall|offset: nat|
                !(holds_offset(earlier, offset) && #[trigger] holds_offset(later, offset))
        }),
{
    lemma_commit_keeps_contiguity(entries, first);
    lemma_commit_keeps_contiguity(commit(entries, first), second);
}

/// A read of one offset inside a batch resolves to one window that holds
/// the record of that offset and no other record of the batch.
pub proof fn lemma_read_inside_batch(entries: Seq<IndexEntry>, i: int, j: int)
    requires
        contiguous(entries),
        0 <= i < entries.len(),
        0 <= j < record_count(entries[i]),
    ensures
        resolve(entries, (entries[i].start + j) as nat, (entries[i].start + j) as nat) == seq![
            (Extent {
                file_name: entries[i].extent.file_name,
                file_offset: entries[i].extent.file_offset + total_size(
                    entries[i].extent.record_sizes.take(j),
                ),
                record_sizes: seq![entries[i].extent.record_sizes[j]],
            }),
        ],
{
    let offset = (entries[i].start + j) as nat;
    if i + 1 < entries.len() {
        assert(follows(entries, i + 1));
    }
    lemma_containing_unique(entries, i, offset);
    assert(trim_lo(entries[i], offset) == j);
    assert(trim_hi(entries[i], offset) == j + 1);
    assert(entries[i].extent.record_sizes.subrange(j, j + 1) =~= seq![
        entries[i].extent.record_sizes[j],
    ]);
    assert(resolve(entries, offset, offset) =~= seq![trim(entries[i], offset, offset)]);
}

} // verus!
