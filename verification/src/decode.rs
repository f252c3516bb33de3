//! Decoding of an object's segments into its contiguous byte stream.
//!
//! Each segment holds independently compressed chunks whose boundaries
//! the paired index entry gives. Chunks are decompressed in index
//! order, segments in canonical name order, and the pieces are
//! concatenated into the object's decoded stream.

use vstd::prelude::*;

use crate::container::{archive_entries, listed_names, read_entry, readable_names, Container};
use crate::index::{index_offsets, parse_chunk_index};
use crate::segments::{name_with_suffix, views_of};
use crate::Aff4Error;

verus! {

/// What a zlib stream decompresses to, or nothing for bytes that are
/// not a well-formed zlib stream. The result depends on the bytes
/// alone.
pub uninterp spec fn zlib_inflate(data: Seq<u8>) -> Option<Seq<u8>>;

/// Relies on flate2::read::ZlibDecoder and std::io::Read::read_to_end
/// on it: whether the bytes form a well-formed zlib stream, and what
/// they decompress to, depend on the bytes alone.
#[verifier::external_body]
fn inflate(data: &[u8]) -> (r: Option<Vec<u8>>)
    ensures
        r matches Some(v) ==> zlib_inflate(data@) == Some(v@),
        r is None ==> zlib_inflate(data@) is None,
{
    let mut decoded = Vec::new();
    let mut z = flate2::read::ZlibDecoder::new(data);
    match std::io::Read::read_to_end(&mut z, &mut decoded) {
        Ok(_) => Some(decoded),
        Err(_) => None,
    }
}

/// Chunk offsets fit the payload: non-decreasing, with the last one no
/// further than the payload's end.
pub open spec fn offsets_wf(offsets: Seq<u32>, payload_len: int) -> bool {
    &&& forall|i: int| 0 <= i < offsets.len() - 1 ==> (#[trigger] offsets[i]) <= offsets[i + 1]
    &&& offsets.len() > 0 ==> offsets[offsets.len() - 1] <= payload_len
}

proof fn lemma_offsets_bounded(offsets: Seq<u32>, payload_len: int, i: int)
    requires
        offsets_wf(offsets, payload_len),
        0 <= i < offsets.len(),
    ensures
        offsets[i] <= payload_len,
    decreases offsets.len() - i,
{
    if i < offsets.len() - 1 {
        lemma_offsets_bounded(offsets, payload_len, i + 1);
    }
}

/// The raw bytes of chunk `i` of a segment payload: from its offset to
/// the next offset, and for the last chunk to the payload's end.
pub open spec fn chunk_at(offsets: Seq<u32>, payload: Seq<u8>, i: int) -> Seq<u8> {
    if i == offsets.len() - 1 {
        payload.subrange(offsets[i] as int, payload.len() as int)
    } else {
        payload.subrange(offsets[i] as int, offsets[i + 1] as int)
    }
}

/// The concatenated decompression of the first `k` chunks, or nothing
/// if any of them fails to decompress.
pub open spec fn chunks_decode(offsets: Seq<u32>, payload: Seq<u8>, k: int) -> Option<Seq<u8>>
    decreases k,
{
    if k <= 0 {
        Some(Seq::empty())
    } else {
        match (chunks_decode(offsets, payload, k - 1), zlib_inflate(chunk_at(offsets, payload, k - 1))) {
            (Some(acc), Some(piece)) => Some(acc + piece),
            _ => None,
        }
    }
}

proof fn lemma_chunks_decode_none(offsets: Seq<u32>, payload: Seq<u8>, i: int, k: int)
    requires
        0 <= i < k,
        zlib_inflate(chunk_at(offsets, payload, i)) is None,
    ensures
        chunks_decode(offsets, payload, k) is None,
    decreases k,
{
    if i < k - 1 {
        lemma_chunks_decode_none(offsets, payload, i, k - 1);
    }
}

proof fn lemma_chunks_decode_some(offsets: Seq<u32>, payload: Seq<u8>, j: int, k: int)
    requires
        0 <= j < k,
        chunks_decode(offsets, payload, k) is Some,
    ensures
        zlib_inflate(chunk_at(offsets, payload, j)) is Some,
    decreases k,
{
    if j < k - 1 {
        lemma_chunks_decode_some(offsets, payload, j, k - 1);
    }
}

/// What one segment decodes to: nothing if its index entry is
/// malformed, its offsets do not fit the payload, or any chunk fails
/// to decompress; otherwise its chunks' decompressions, concatenated
/// in index order. A segment with no offsets decodes to nothing at
/// all: zero chunks, an empty contribution.
pub open spec fn segment_decode(index_entry: Seq<u8>, payload: Seq<u8>) -> Option<Seq<u8>> {
    if index_entry.len() % 4 != 0 {
        None
    } else {
        let offsets = index_offsets(index_entry);
        if !offsets_wf(offsets, payload.len() as int) {
            None
        } else {
            chunks_decode(offsets, payload, offsets.len() as int)
        }
    }
}

/// Decides whether chunk offsets fit a payload of the given length.
pub fn offsets_well_formed(offsets: &Vec<u32>, payload_len: usize) -> (r: bool)
    ensures
        r == offsets_wf(offsets@, payload_len as int),
{
    let mut well_formed = true;
    let mut i: usize = 0;
    while offsets.len() > 0 && i < offsets.len() - 1
        invariant
            i <= offsets@.len(),
            offsets@.len() > 0 ==> i < offsets@.len(),
            well_formed == (forall|k: int| 0 <= k < i ==> (#[trigger] offsets@[k]) <= offsets@[k + 1]),
        decreases offsets@.len() - i,
    {
        if offsets[i] > offsets[i + 1] {
            well_formed = false;
        }
        i = i + 1;
    }
    if offsets.len() > 0 {
        if offsets[offsets.len() - 1] as usize > payload_len {
            well_formed = false;
        }
    }
    well_formed
}

/// Cuts a payload of the given length into chunk boundaries: chunk `i`
/// spans from its offset to the next offset, and the last chunk spans
/// from its offset to the payload's end.
///
/// Succeeds exactly when the offsets fit the payload; any other
/// offsets are a malformed index. No offsets yield no chunks.
pub fn chunk_bounds(offsets: &Vec<u32>, payload_len: usize) -> (r: Result<Vec<(usize, usize)>, Aff4Error>)
    ensures
        r is Ok <==> offsets_wf(offsets@, payload_len as int),
        r matches Ok(b) ==> {
            &&& b@.len() == offsets@.len()
            &&& forall|i: int| 0 <= i < b@.len() ==> (#[trigger] b@[i]).0 == offsets@[i] && b@[i].1 == (
            if i == b@.len() - 1 {
                payload_len as int
            } else {
                offsets@[i + 1] as int
            })
        },
        r is Err ==> r == Err::<Vec<(usize, usize)>, Aff4Error>(Aff4Error::MalformedIndex),
{
    if !offsets_well_formed(offsets, payload_len) {
        return Err(Aff4Error::MalformedIndex);
    }
    let mut bounds: Vec<(usize, usize)> = Vec::new();
    let mut i: usize = 0;
    while i < offsets.len()
        invariant
            offsets_wf(offsets@, payload_len as int),
            i <= offsets@.len(),
            bounds@.len() == i,
            forall|k: int| 0 <= k < i ==> (#[trigger] bounds@[k]).0 == offsets@[k] && bounds@[k].1 == (
            if k == offsets@.len() - 1 {
                payload_len as int
            } else {
                offsets@[k + 1] as int
            }),
        decreases offsets@.len() - i,
    {
        let start = offsets[i] as usize;
        let end = if i + 1 < offsets.len() {
            offsets[i + 1] as usize
        } else {
            payload_len
        };
        bounds.push((start, end));
        i = i + 1;
    }
    Ok(bounds)
}

/// Decodes one segment's payload per its index entry.
///
/// Fails exactly when the segment does not decode: with a malformed
/// index for a bad index length or offsets that do not fit, and with a
/// corrupt-chunk failure naming this segment and the chunk position
/// when a chunk does not decompress.
pub fn decode_segment(segment_name: &str, index_entry: &Vec<u8>, payload: &Vec<u8>) -> (r: Result<
    Vec<u8>,
    Aff4Error,
>)
    ensures
        r matches Ok(v) ==> segment_decode(index_entry@, payload@) == Some(v@),
        r is Err <==> segment_decode(index_entry@, payload@) is None,
        !(index_entry@.len() % 4 == 0 && offsets_wf(index_offsets(index_entry@), payload@.len() as int))
            ==> r == Err::<Vec<u8>, Aff4Error>(Aff4Error::MalformedIndex),
        (index_entry@.len() % 4 == 0 && offsets_wf(index_offsets(index_entry@), payload@.len() as int)
            && r is Err) ==> (r matches Err(e) && e matches Aff4Error::CorruptChunk { segment, chunk }
            && segment@ == segment_name@ && chunk < index_offsets(index_entry@).len() && zlib_inflate(
            chunk_at(index_offsets(index_entry@), payload@, chunk as int),
        ) is None && (forall|j: int| 0 <= j < chunk ==> zlib_inflate(
            #[trigger] chunk_at(index_offsets(index_entry@), payload@, j),
        ) is Some)),
{
    let offsets = match parse_chunk_index(index_entry) {
        Ok(offsets) => offsets,
        Err(_) => {
            return Err(Aff4Error::MalformedIndex);
        },
    };
    if !offsets_well_formed(&offsets, payload.len()) {
        return Err(Aff4Error::MalformedIndex);
    }
    let mut out: Vec<u8> = Vec::new();
    let mut c: usize = 0;
    while c < offsets.len()
        invariant
            offsets@ == index_offsets(index_entry@),
            index_entry@.len() % 4 == 0,
            offsets_wf(offsets@, payload@.len() as int),
            c <= offsets@.len(),
            chunks_decode(offsets@, payload@, c as int) == Some(out@),
        decreases offsets@.len() - c,
    {
        let start = offsets[c] as usize;
        let end = if c + 1 < offsets.len() {
            offsets[c + 1] as usize
        } else {
            payload.len()
        };
        proof {
            lemma_offsets_bounded(offsets@, payload@.len() as int, c as int);
            if c + 1 < offsets@.len() {
                lemma_offsets_bounded(offsets@, payload@.len() as int, c + 1);
            }
        }
        let chunk = vstd::slice::slice_subrange(payload.as_slice(), start, end);
        let piece = match inflate(chunk) {
            Some(piece) => piece,
            None => {
                proof {
                    lemma_chunks_decode_none(offsets@, payload@, c as int, offsets@.len() as int);
                    assert forall|j: int| 0 <= j < c implies zlib_inflate(
                        #[trigger] chunk_at(offsets@, payload@, j),
                    ) is Some by {
                        lemma_chunks_decode_some(offsets@, payload@, j, c as int);
                    }
                }
                return Err(Aff4Error::CorruptChunk { segment: segment_name.to_owned(), chunk: c });
            },
        };
        let mut piece = piece;
        out.append(&mut piece);
        c = c + 1;
    }
    Ok(out)
}

/// The index entry name paired with a segment name.
pub open spec fn index_name_of(name: Seq<char>) -> Seq<char> {
    name + "/index"@
}

/// What an object decodes to, given the container's entries and its
/// segment names in canonical order: each segment's decode, in order,
/// concatenated; nothing if any segment or its index entry is absent
/// or does not decode.
pub open spec fn object_decode(entries: Map<Seq<char>, Seq<u8>>, names: Seq<Seq<char>>) -> Option<Seq<u8>>
    decreases names.len(),
{
    if names.len() == 0 {
        Some(Seq::empty())
    } else {
        let name = names.last();
        if !entries.dom().contains(name) || !entries.dom().contains(index_name_of(name)) {
            None
        } else {
            match (object_decode(entries, names.drop_last()), segment_decode(
                entries[index_name_of(name)],
                entries[name],
            )) {
                (Some(acc), Some(piece)) => Some(acc + piece),
                _ => None,
            }
        }
    }
}

/// Every named segment, and its paired index entry, is present and
/// readable in the container.
pub open spec fn segments_available(
    entries: Map<Seq<char>, Seq<u8>>,
    readable: Set<Seq<char>>,
    names: Seq<Seq<char>>,
) -> bool {
    forall|k: int| 0 <= k < names.len() ==> {
        &&& entries.dom().contains(#[trigger] names[k])
        &&& readable.contains(names[k])
        &&& entries.dom().contains(index_name_of(names[k]))
        &&& readable.contains(index_name_of(names[k]))
    }
}

proof fn lemma_object_decode_bad(entries: Map<Seq<char>, Seq<u8>>, names: Seq<Seq<char>>, k: int)
    requires
        0 <= k < names.len(),
        entries.dom().contains(names[k]),
        entries.dom().contains(index_name_of(names[k])),
        segment_decode(entries[index_name_of(names[k])], entries[names[k]]) is None,
    ensures
        object_decode(entries, names) is None,
    decreases names.len(),
{
    if k < names.len() - 1 {
        lemma_object_decode_bad(entries, names.drop_last(), k);
        assert(names.drop_last()[k] == names[k]);
    }
}

/// Decodes the given segments of the container, in the given order,
/// into one contiguous stream.
///
/// On success the stream is exactly the object decode of the names
/// against the container's entries, and success is owed whenever every
/// named segment and index entry is present and readable and the
/// object decode exists. A not-found failure names an absent entry, an
/// unreadable-content failure an unreadable one, and an index or chunk
/// failure a segment that does not decode. Reading never changes the
/// container's entries.
pub fn decode_segments(archive: &mut Container, names: &Vec<String>) -> (r: Result<Vec<u8>, Aff4Error>)
    ensures
        archive_entries(*final(archive)) == archive_entries(*old(archive)),
        listed_names(*final(archive)) == listed_names(*old(archive)),
        readable_names(*final(archive)) == readable_names(*old(archive)),
        r matches Ok(v) ==> object_decode(archive_entries(*old(archive)), views_of(names@)) == Some(v@),
        (segments_available(archive_entries(*old(archive)), readable_names(*old(archive)), views_of(names@))
            && object_decode(archive_entries(*old(archive)), views_of(names@)) is Some) ==> r is Ok,
        r matches Err(e) ==> (e == Aff4Error::NotFound || e == Aff4Error::CorruptContainer || e
            == Aff4Error::MalformedIndex || e matches Aff4Error::CorruptChunk { .. }),
        r == Err::<Vec<u8>, Aff4Error>(Aff4Error::NotFound) ==> exists|k: int|
            0 <= k < names@.len() && (!archive_entries(*old(archive)).dom().contains(
                #[trigger] views_of(names@)[k],
            ) || !archive_entries(*old(archive)).dom().contains(index_name_of(views_of(names@)[k]))),
        r == Err::<Vec<u8>, Aff4Error>(Aff4Error::CorruptContainer) ==> exists|k: int|
            0 <= k < names@.len() && (!readable_names(*old(archive)).contains(
                #[trigger] views_of(names@)[k],
            ) || !readable_names(*old(archive)).contains(index_name_of(views_of(names@)[k]))),
        (r matches Err(e) && (e == Aff4Error::MalformedIndex || e matches Aff4Error::CorruptChunk { .. }))
            ==> exists|k: int|
            0 <= k < names@.len() && archive_entries(*old(archive)).dom().contains(
                #[trigger] views_of(names@)[k],
            ) && archive_entries(*old(archive)).dom().contains(index_name_of(views_of(names@)[k]))
                && segment_decode(
                archive_entries(*old(archive))[index_name_of(views_of(names@)[k])],
                archive_entries(*old(archive))[views_of(names@)[k]],
            ) is None,
{
    let mut out: Vec<u8> = Vec::new();
    let mut k: usize = 0;
    while k < names.len()
        invariant
            archive_entries(*archive) == archive_entries(*old(archive)),
            listed_names(*archive) == listed_names(*old(archive)),
            readable_names(*archive) == readable_names(*old(archive)),
            k <= names@.len(),
            object_decode(archive_entries(*old(archive)), views_of(names@.take(k as int))) == Some(out@),
        decreases names@.len() - k,
    {
        let ghost entries = archive_entries(*archive);
        let ghost vk = names@[k as int]@;
        let index_name = name_with_suffix(names[k].as_str(), "/index");
        let index_entry = match read_entry(archive, index_name.as_str()) {
            Ok(v) => v,
            Err(e) => {
                proof {
                    assert(views_of(names@)[k as int] == vk);
                    assert(index_name@ == index_name_of(vk));
                }
                return Err(e);
            },
        };
        let payload = match read_entry(archive, names[k].as_str()) {
            Ok(v) => v,
            Err(e) => {
                proof {
                    assert(views_of(names@)[k as int] == vk);
                }
                return Err(e);
            },
        };
        let piece = match decode_segment(names[k].as_str(), &index_entry, &payload) {
            Ok(v) => v,
            Err(e) => {
                proof {
                    assert(views_of(names@)[k as int] == vk);
                    assert(index_name@ == index_name_of(vk));
                    assert(entries.dom().contains(vk) && entries.dom().contains(index_name_of(vk)));
                    assert(segment_decode(entries[index_name_of(vk)], entries[vk]) is None);
                    lemma_object_decode_bad(entries, views_of(names@), k as int);
                }
                return Err(e);
            },
        };
        let ghost out_before = out@;
        let mut piece = piece;
        out.append(&mut piece);
        proof {
            let vs = views_of(names@.take(k + 1));
            assert(vs.drop_last() =~= views_of(names@.take(k as int)));
            assert(vs.last() == names@[k as int]@);
            assert(index_name_of(vs.last()) == index_name@);
            assert(object_decode(entries, vs) == Some(out@));
        }
        k = k + 1;
    }
    proof {
        assert(names@.take(names@.len() as int) =~= names@);
    }
    Ok(out)
}

} // verus!
