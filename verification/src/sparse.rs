//! Placement of the decoded stream into the final sparse image.
//!
//! Run records, taken in document order, partition the decoded stream
//! contiguously: the first run's length of bytes goes to the first
//! run's start offset, the next run's length to the next start, and so
//! on. Offsets the runs never touch stay zero.

use vstd::prelude::*;

use crate::Aff4Error;

verus! {

/// One placement run: `length` bytes of the decoded stream belong at
/// absolute offset `start` of the output image.
#[derive(Debug, Clone, Copy, PartialEq, Eq, Structural)]
pub struct SegmentLocation {
    pub start: i64,
    pub length: i64,
}

/// Every run has a non-negative start and length, as the metadata
/// parser guarantees of its output.
pub open spec fn runs_nonnegative(runs: Seq<SegmentLocation>) -> bool {
    forall|i: int| 0 <= i < runs.len() ==> (#[trigger] runs[i]).start >= 0 && runs[i].length >= 0
}

/// Bytes of the decoded stream consumed by the first `k` runs.
pub open spec fn consumed(runs: Seq<SegmentLocation>, k: int) -> int
    decreases k,
{
    if k <= 0 {
        0
    } else {
        consumed(runs, k - 1) + runs[k - 1].length
    }
}

proof fn lemma_consumed_monotonic(runs: Seq<SegmentLocation>, j: int, k: int)
    requires
        runs_nonnegative(runs),
        0 <= j <= k <= runs.len(),
    ensures
        consumed(runs, j) <= consumed(runs, k),
    decreases k,
{
    if j < k {
        lemma_consumed_monotonic(runs, j, k - 1);
    }
}

/// One write of the sparse output: `data` belongs at absolute byte
/// offset `start`; everything no write covers is zero.
#[derive(Debug, Clone)]
pub struct SparseWrite {
    pub start: u64,
    pub data: Vec<u8>,
}

/// The writes `w` place the stream according to `runs`: one write per
/// run, at the run's start, carrying the run's slice of the stream.
pub open spec fn placement_matches(stream: Seq<u8>, runs: Seq<SegmentLocation>, w: Seq<SparseWrite>) -> bool {
    &&& w.len() == runs.len()
    &&& forall|i: int| 0 <= i < runs.len() ==> (#[trigger] w[i]).start == runs[i].start as u64
    &&& forall|i: int| 0 <= i < runs.len() ==> (#[trigger] w[i]).data@ == stream.subrange(
        consumed(runs, i),
        consumed(runs, i + 1),
    )
}

/// Maps the decoded stream onto sparse writes, one per run in document
/// order.
///
/// Succeeds exactly when the stream holds enough bytes for every run;
/// a run that would read past the end of the stream is a truncated
/// stream, and no output is produced for it.
pub fn place_runs(stream: &Vec<u8>, runs: &Vec<SegmentLocation>) -> (r: Result<Vec<SparseWrite>, Aff4Error>)
    requires
        runs_nonnegative(runs@),
    ensures
        r is Ok <==> consumed(runs@, runs@.len() as int) <= stream@.len(),
        r matches Ok(w) ==> placement_matches(stream@, runs@, w@),
        r is Err ==> r == Err::<Vec<SparseWrite>, Aff4Error>(Aff4Error::TruncatedStream),
{
    let mut out: Vec<SparseWrite> = Vec::new();
    let mut cursor: usize = 0;
    let mut i: usize = 0;
    while i < runs.len()
        invariant
            runs_nonnegative(runs@),
            i <= runs@.len(),
            cursor == consumed(runs@, i as int),
            cursor <= stream@.len(),
            out@.len() == i,
            forall|j: int| 0 <= j < i ==> (#[trigger] out@[j]).start == runs@[j].start as u64,
            forall|j: int| 0 <= j < i ==> (#[trigger] out@[j]).data@ == stream@.subrange(
                consumed(runs@, j),
                consumed(runs@, j + 1),
            ),
        decreases runs@.len() - i,
    {
        let length = runs[i].length;
        let remaining = stream.len() - cursor;
        if (length as u64) > (remaining as u64) {
            proof {
                lemma_consumed_monotonic(runs@, i + 1, runs@.len() as int);
            }
            return Err(Aff4Error::TruncatedStream);
        }
        let length_usize: usize = length as usize;
        let data = vstd::slice::slice_to_vec(vstd::slice::slice_subrange(
            stream.as_slice(),
            cursor,
            cursor + length_usize,
        ));
        let write = SparseWrite { start: runs[i].start as u64, data };
        out.push(write);
        cursor = cursor + length_usize;
        i = i + 1;
    }
    Ok(out)
}

/// The byte a set of sparse writes leaves at offset `off`: the value
/// of the last write in order that covers `off`, and zero where no
/// write does. Later writes overwrite earlier ones.
pub open spec fn image_byte(w: Seq<SparseWrite>, off: int) -> u8
    decreases w.len(),
{
    if w.len() == 0 {
        0
    } else {
        let last = w.last();
        if last.start <= off < last.start + last.data@.len() {
            last.data@[off - last.start]
        } else {
            image_byte(w.drop_last(), off)
        }
    }
}

/// Materializes a set of sparse writes as a flat image of `size`
/// bytes: each write's bytes at its offset, later writes overwriting
/// earlier ones, zero wherever no write reaches.
pub fn render_image(writes: &Vec<SparseWrite>, size: usize) -> (r: Vec<u8>)
    requires
        forall|i: int| 0 <= i < writes@.len() ==> (#[trigger] writes@[i]).start + writes@[i].data@.len() <= size,
    ensures
        r@.len() == size,
        forall|off: int| 0 <= off < size ==> r@[off] == image_byte(writes@, off),
{
    let mut out: Vec<u8> = Vec::new();
    while out.len() < size
        invariant
            out@.len() <= size,
            forall|off: int| 0 <= off < out@.len() ==> out@[off] == 0u8,
        decreases size - out@.len(),
    {
        out.push(0u8);
    }
    let mut k: usize = 0;
    while k < writes.len()
        invariant
            forall|i: int| 0 <= i < writes@.len() ==> (#[trigger] writes@[i]).start + writes@[i].data@.len() <= size,
            k <= writes@.len(),
            out@.len() == size,
            forall|off: int| 0 <= off < size ==> out@[off] == image_byte(writes@.take(k as int), off),
        decreases writes@.len() - k,
    {
        let start_usize: usize = writes[k].start as usize;
        let mut j: usize = 0;
        while j < writes[k].data.len()
            invariant
                forall|i: int| 0 <= i < writes@.len() ==> (#[trigger] writes@[i]).start + writes@[i].data@.len() <= size,
                k < writes@.len(),
                start_usize == writes@[k as int].start,
                j <= writes@[k as int].data@.len(),
                out@.len() == size,
                forall|off: int| 0 <= off < size && !(start_usize <= off < start_usize + j) ==> out@[off]
                    == image_byte(writes@.take(k as int), off),
                forall|off: int| start_usize <= off < start_usize + j ==> out@[off] == writes@[k as int].data@[off
                    - start_usize],
            decreases writes@[k as int].data@.len() - j,
        {
            let value = writes[k].data[j];
            out.set(start_usize + j, value);
            j = j + 1;
        }
        proof {
            let taken = writes@.take(k + 1);
            assert(taken.drop_last() =~= writes@.take(k as int));
            assert(taken.last() == writes@[k as int]);
            assert forall|off: int| 0 <= off < size implies out@[off] == image_byte(taken, off) by {
                if taken.last().start <= off < taken.last().start + taken.last().data@.len() {
                    assert(out@[off] == writes@[k as int].data@[off - start_usize]);
                }
            }
        }
        k = k + 1;
    }
    proof {
        assert(writes@.take(writes@.len() as int) =~= writes@);
    }
    out
}

} // verus!
