//! Records as byte ranges: a run of records is a byte blob together with the
//! list of the records' sizes.

use vstd::prelude::*;
use crate::types::Extent;

verus! {

/// The number of bytes that records of the given sizes occupy together.
pub open spec fn total_size(sizes: Seq<usize>) -> nat
    decreases sizes.len(),
{
    if sizes.len() == 0 {
        0
    } else {
        total_size(sizes.drop_last()) + sizes.last() as nat
    }
}

/// The sizes of the given records, in order.
pub open spec fn sizes_of(records: Seq<Seq<u8>>) -> Seq<usize> {
    Seq::new(records.len(), |i: int| records[i].len() as usize)
}

/// The payloads of a list of records.
pub open spec fn payloads_of(values: Seq<Vec<u8>>) -> Seq<Seq<u8>> {
    Seq::new(values.len(), |i: int| values[i]@)
}

/// Whether there is one fetched window for each extent, as long as the
/// extent's records are together.
pub open spec fn windows_match(extents: Seq<Extent>, windows: Seq<Seq<u8>>) -> bool {
    &&& extents.len() == windows.len()
    &&& forall|i: int|
        0 <= i < extents.len() ==> total_size((#[trigger] extents[i]).record_sizes)
            == windows[i].len()
}

/// The records that the fetched windows hold, window after window.
pub open spec fn window_records(extents: Seq<Extent>, windows: Seq<Seq<u8>>) -> Seq<Seq<u8>>
    decreases extents.len(),
{
    if extents.len() == 0 {
        Seq::empty()
    } else {
        window_records(extents.drop_last(), windows.drop_last()) + split_records(
            windows.last(),
            extents.last().record_sizes,
        )
    }
}

/// The `i`-th record of a blob that holds records of the given sizes back to back.
pub open spec fn record_at(bytes: Seq<u8>, sizes: Seq<usize>, i: int) -> Seq<u8> {
    bytes.subrange(total_size(sizes.take(i)) as int, total_size(sizes.take(i + 1)) as int)
}

/// The records that a blob holds back to back, given their sizes.
pub open spec fn split_records(bytes: Seq<u8>, sizes: Seq<usize>) -> Seq<Seq<u8>> {
    Seq::new(sizes.len(), |i: int| record_at(bytes, sizes, i))
}

/// A longer list of sizes never occupies fewer bytes than one of its prefixes.
pub proof fn lemma_total_size_take(sizes: Seq<usize>, n: int)
    requires
        0 <= n <= sizes.len(),
    ensures
        total_size(sizes.take(n)) <= total_size(sizes),
        n == sizes.len() ==> sizes.take(n) == sizes,
        n < sizes.len() ==> total_size(sizes.take(n + 1)) == total_size(sizes.take(n))
            + sizes[n] as nat,
    decreases sizes.len() - n,
{
    if n == sizes.len() {
        assert(sizes.take(n) =~= sizes);
    } else {
        assert(sizes.take(n + 1).drop_last() =~= sizes.take(n));
        lemma_total_size_take(sizes, n + 1);
    }
}

/// The sizes of a list with one more size at its end add up to the sum of the
/// list and that size.
pub proof fn lemma_total_size_push(sizes: Seq<usize>, size: usize)
    ensures
        total_size(sizes.push(size)) == total_size(sizes) + size as nat,
{
    assert(sizes.push(size).drop_last() =~= sizes);
}

/// Appending a record to a blob appends it to the records that the blob holds.
pub proof fn lemma_split_push(bytes: Seq<u8>, sizes: Seq<usize>, record: Seq<u8>)
    requires
        total_size(sizes) == bytes.len(),
        record.len() <= usize::MAX,
    ensures
        total_size(sizes.push(record.len() as usize)) == bytes.len() + record.len(),
        split_records(bytes + record, sizes.push(record.len() as usize)) == split_records(
            bytes,
            sizes,
        ).push(record),
{
    let n = sizes.len() as int;
    let longer = sizes.push(record.len() as usize);
    lemma_total_size_push(sizes, record.len() as usize);
    assert forall|i: int| 0 <= i <= n implies record_at(bytes + record, longer, i) == (if i < n {
        record_at(bytes, sizes, i)
    } else {
        record
    }) by {
        lemma_total_size_take(sizes, i);
        assert(longer.take(i) =~= sizes.take(i));
        if i < n {
            lemma_total_size_take(sizes, i + 1);
            assert(longer.take(i + 1) =~= sizes.take(i + 1));
            assert(record_at(bytes + record, longer, i) =~= record_at(bytes, sizes, i));
        } else {
            assert(longer.take(i + 1) =~= longer);
            assert(record_at(bytes + record, longer, i) =~= record);
        }
    }
    assert(split_records(bytes + record, longer) =~= split_records(bytes, sizes).push(record));
}

/// Splitting the concatenation of some records by their sizes gives the
/// records back.
pub proof fn lemma_split_of_flatten(records: Seq<Seq<u8>>)
    requires
        forall|i: int| 0 <= i < records.len() ==> (#[trigger] records[i]).len() <= usize::MAX,
    ensures
        total_size(sizes_of(records)) == records.flatten().len(),
        split_records(records.flatten(), sizes_of(records)) == records,
    decreases records.len(),
{
    if records.len() == 0 {
        assert(split_records(records.flatten(), sizes_of(records)) =~= records);
    } else {
        let front = records.drop_last();
        let record = records.last();
        lemma_split_of_flatten(front);
        assert(records =~= front.push(record));
        front.lemma_flatten_push(record);
        assert(sizes_of(records) =~= sizes_of(front).push(record.len() as usize));
        lemma_split_push(front.flatten(), sizes_of(front), record);
    }
}

/// A blob is the concatenation of the records that it holds, and the records
/// have the sizes by which the blob was split.
pub proof fn lemma_flatten_of_split(bytes: Seq<u8>, sizes: Seq<usize>)
    requires
        total_size(sizes) == bytes.len(),
    ensures
        split_records(bytes, sizes).flatten() == bytes,
        sizes_of(split_records(bytes, sizes)) == sizes,
    decreases sizes.len(),
{
    if sizes.len() == 0 {
        assert(split_records(bytes, sizes) =~= Seq::<Seq<u8>>::empty());
        assert(split_records(bytes, sizes).flatten() =~= bytes);
        assert(sizes_of(split_records(bytes, sizes)) =~= sizes);
    } else {
        let front = sizes.drop_last();
        let cut = total_size(front) as int;
        let head = bytes.take(cut);
        let record = bytes.skip(cut);
        assert(bytes =~= head + record);
        assert(sizes =~= front.push(sizes.last()));
        lemma_flatten_of_split(head, front);
        lemma_split_push(head, front, record);
        split_records(head, front).lemma_flatten_push(record);
        assert(sizes_of(split_records(bytes, sizes)) =~= sizes_of(
            split_records(head, front),
        ).push(record.len() as usize));
    }
}

/// Adds up the sizes of a batch's records. `None` when the sum does not fit
/// in a `usize`.
pub fn byte_length(sizes: &Vec<usize>) -> (length: Option<usize>)
    ensures
        match length {
            Some(n) => n == total_size(sizes@),
            None => total_size(sizes@) > usize::MAX,
        },
{
    let mut sum: usize = 0;
    let mut i: usize = 0;
    while i < sizes.len()
        invariant
            i <= sizes.len(),
            sum == total_size(sizes@.take(i as int)),
        decreases sizes.len() - i,
    {
        proof {
            lemma_total_size_take(sizes@, i as int);
            lemma_total_size_take(sizes@, i + 1);
        }
        match sum.checked_add(sizes[i]) {
            Some(next) => {
                sum = next;
            },
            None => {
                return None;
            },
        }
        i += 1;
    }
    proof {
        lemma_total_size_take(sizes@, i as int);
    }
    Some(sum)
}

/// Adds up the sizes of the first `n` records of a batch.
pub fn prefix_length(sizes: &Vec<usize>, n: usize) -> (length: usize)
    requires
        n <= sizes@.len(),
        total_size(sizes@) <= usize::MAX,
    ensures
        length == total_size(sizes@.take(n as int)),
{
    let mut sum: usize = 0;
    let mut i: usize = 0;
    while i < n
        invariant
            i <= n <= sizes@.len(),
            total_size(sizes@) <= usize::MAX,
            sum == total_size(sizes@.take(i as int)),
        decreases n - i,
    {
        proof {
            lemma_total_size_take(sizes@, i as int);
            lemma_total_size_take(sizes@, i + 1);
        }
        sum += sizes[i];
        i += 1;
    }
    sum
}

/// The sizes of the records of a batch from position `lo` up to, not
/// including, position `hi`.
pub fn sizes_between(sizes: &Vec<usize>, lo: usize, hi: usize) -> (part: Vec<usize>)
    requires
        lo <= hi <= sizes@.len(),
    ensures
        part@ == sizes@.subrange(lo as int, hi as int),
{
    let mut part: Vec<usize> = Vec::new();
    let mut i: usize = lo;
    while i < hi
        invariant
            lo <= i <= hi <= sizes@.len(),
            part@ == sizes@.subrange(lo as int, i as int),
        decreases hi - i,
    {
        part.push(sizes[i]);
        i += 1;
        assert(part@ =~= sizes@.subrange(lo as int, i as int));
    }
    part
}

/// The bytes of a window from position `from` up to, not including,
/// position `to`.
pub fn bytes_between(window: &Vec<u8>, from: usize, to: usize) -> (part: Vec<u8>)
    requires
        from <= to <= window@.len(),
    ensures
        part@ == window@.subrange(from as int, to as int),
{
    let mut part: Vec<u8> = Vec::new();
    let mut i: usize = from;
    while i < to
        invariant
            from <= i <= to <= window@.len(),
            part@ == window@.subrange(from as int, i as int),
        decreases to - i,
    {
        part.push(window[i]);
        i += 1;
        assert(part@ =~= window@.subrange(from as int, i as int));
    }
    part
}

/// Cuts a byte window into the records that it holds back to back, given
/// their sizes. `None` when the sizes do not add up to the window's length.
pub fn slice_records(window: &Vec<u8>, record_sizes: &Vec<usize>) -> (records: Option<
    Vec<Vec<u8>>,
>)
    ensures
        match records {
            Some(values) => total_size(record_sizes@) == window@.len() && payloads_of(values@)
                == split_records(window@, record_sizes@),
            None => total_size(record_sizes@) != window@.len(),
        },
{
    let available: usize = window.len();
    match byte_length(record_sizes) {
        Some(length) => {
            if length != available {
                return None;
            }
        },
        None => {
            return None;
        },
    }
    let mut values: Vec<Vec<u8>> = Vec::new();
    let mut record_offset: usize = 0;
    let mut i: usize = 0;
    while i < record_sizes.len()
        invariant
            i <= record_sizes@.len(),
            total_size(record_sizes@) == window@.len() == available,
            record_offset == total_size(record_sizes@.take(i as int)),
            values@.len() == i,
            forall|j: int|
                0 <= j < i ==> (#[trigger] values@[j])@ == record_at(window@, record_sizes@, j),
        decreases record_sizes@.len() - i,
    {
        proof {
            lemma_total_size_take(record_sizes@, i as int);
            lemma_total_size_take(record_sizes@, i + 1);
        }
        let record_size: usize = record_sizes[i];
        let record = bytes_between(window, record_offset, record_offset + record_size);
        values.push(record);
        record_offset += record_size;
        i += 1;
    }
    proof {
        assert(payloads_of(values@) =~= split_records(window@, record_sizes@));
    }
    Some(values)
}

} // verus!
