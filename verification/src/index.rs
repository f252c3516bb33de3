//! Parsing and re-encoding of a segment's binary chunk index.
//!
//! An index entry is a sequence of unsigned 32-bit little-endian
//! offsets into the segment's raw payload, one per 4-byte group, each
//! marking where one compressed chunk begins.

use vstd::prelude::*;

use crate::Aff4Error;

verus! {

/// The offsets held by an index entry: one 32-bit little-endian value
/// per 4-byte group, in file order. Meaningful when `bytes` has a
/// length that is a multiple of four.
pub open spec fn index_offsets(bytes: Seq<u8>) -> Seq<u32> {
    Seq::new(bytes.len() / 4, |i: int| vstd::bytes::spec_u32_from_le_bytes(bytes.subrange(4 * i, 4 * i + 4)))
}

/// The little-endian encoding of a sequence of 32-bit offsets, in
/// order, four bytes each.
pub open spec fn index_bytes(offsets: Seq<u32>) -> Seq<u8>
    decreases offsets.len(),
{
    if offsets.len() == 0 {
        Seq::empty()
    } else {
        index_bytes(offsets.drop_last()) + vstd::bytes::spec_u32_to_le_bytes(offsets.last())
    }
}

/// Parses a raw index entry into its ordered offsets.
///
/// Succeeds exactly when the entry's length is a multiple of four
/// bytes; any other length is a malformed index.
pub fn parse_chunk_index(bytes: &Vec<u8>) -> (r: Result<Vec<u32>, Aff4Error>)
    ensures
        bytes@.len() % 4 == 0 ==> (r matches Ok(v) && v@ == index_offsets(bytes@)),
        bytes@.len() % 4 != 0 ==> r == Err::<Vec<u32>, Aff4Error>(Aff4Error::MalformedIndex),
{
    if bytes.len() % 4 != 0 {
        return Err(Aff4Error::MalformedIndex);
    }
    let mut offsets: Vec<u32> = Vec::new();
    let mut i: usize = 0;
    while i < bytes.len()
        invariant
            bytes@.len() % 4 == 0,
            i % 4 == 0,
            i <= bytes@.len(),
            offsets@.len() == i / 4,
            forall|k: int| 0 <= k < offsets@.len() ==> offsets@[k] == index_offsets(bytes@)[k],
        decreases bytes@.len() - i,
    {
        let group = vstd::slice::slice_subrange(bytes.as_slice(), i, i + 4);
        let value = vstd::bytes::u32_from_le_bytes(group);
        offsets.push(value);
        i = i + 4;
    }
    proof {
        assert(offsets@ =~= index_offsets(bytes@));
    }
    Ok(offsets)
}

/// Re-encodes a sequence of offsets into raw index bytes, four bytes
/// per offset, little-endian.
pub fn encode_chunk_index(offsets: &Vec<u32>) -> (r: Vec<u8>)
    ensures
        r@ == index_bytes(offsets@),
{
    let mut out: Vec<u8> = Vec::new();
    let mut i: usize = 0;
    while i < offsets.len()
        invariant
            i <= offsets@.len(),
            out@ == index_bytes(offsets@.take(i as int)),
        decreases offsets@.len() - i,
    {
        let four = vstd::bytes::u32_to_le_bytes(offsets[i]);
        let ghost prev = out@;
        out.append(&mut { four });
        proof {
            assert(offsets@.take(i + 1).drop_last() =~= offsets@.take(i as int));
            assert(out@ == index_bytes(offsets@.take(i + 1)));
        }
        i = i + 1;
    }
    proof {
        assert(offsets@.take(offsets@.len() as int) =~= offsets@);
    }
    out
}

/// Parsing then re-encoding an index entry of well-formed length
/// reproduces the original bytes exactly.
pub proof fn lemma_index_round_trip(bytes: Seq<u8>)
    requires
        bytes.len() % 4 == 0,
    ensures
        index_bytes(index_offsets(bytes)) == bytes,
    decreases bytes.len(),
{
    vstd::bytes::lemma_auto_spec_u32_to_from_le_bytes();
    if bytes.len() == 0 {
        assert(index_bytes(index_offsets(bytes)) =~= bytes);
    } else {
        let head = bytes.subrange(0, bytes.len() - 4);
        lemma_index_round_trip(head);
        let offs = index_offsets(bytes);
        assert(offs.drop_last() =~= index_offsets(head)) by {
            assert forall|i: int| 0 <= i < offs.len() - 1 implies offs.drop_last()[i] == index_offsets(head)[i] by {
                assert(head.subrange(4 * i, 4 * i + 4) =~= bytes.subrange(4 * i, 4 * i + 4));
            }
        }
        assert(offs.last() == vstd::bytes::spec_u32_from_le_bytes(bytes.subrange(bytes.len() - 4, bytes.len() as int)));
        assert(index_bytes(offs) == index_bytes(index_offsets(head)) + vstd::bytes::spec_u32_to_le_bytes(offs.last()));
        assert(index_bytes(offs) =~= bytes);
    }
}

/// Encoding a sequence of offsets then parsing the bytes back
/// reproduces the offsets exactly.
pub proof fn lemma_index_encode_parse(offsets: Seq<u32>)
    ensures
        index_bytes(offsets).len() == 4 * offsets.len(),
        index_bytes(offsets).len() % 4 == 0,
        index_offsets(index_bytes(offsets)) == offsets,
    decreases offsets.len(),
{
    vstd::bytes::lemma_auto_spec_u32_to_from_le_bytes();
    if offsets.len() == 0 {
        assert(index_offsets(index_bytes(offsets)) =~= offsets);
    } else {
        lemma_index_encode_parse(offsets.drop_last());
        let bytes = index_bytes(offsets);
        let head = index_bytes(offsets.drop_last());
        assert(bytes =~= head + vstd::bytes::spec_u32_to_le_bytes(offsets.last()));
        assert forall|i: int| 0 <= i < offsets.len() implies index_offsets(bytes)[i] == offsets[i] by {
            assert(index_offsets(bytes)[i] == vstd::bytes::spec_u32_from_le_bytes(bytes.subrange(4 * i, 4 * i + 4)));
            if i < offsets.len() - 1 {
                assert(bytes.subrange(4 * i, 4 * i + 4) =~= head.subrange(4 * i, 4 * i + 4));
                assert(index_offsets(head)[i] == vstd::bytes::spec_u32_from_le_bytes(head.subrange(4 * i, 4 * i + 4)));
                assert(index_offsets(head)[i] == offsets.drop_last()[i]);
            } else {
                assert(bytes.subrange(4 * i, 4 * i + 4) =~= vstd::bytes::spec_u32_to_le_bytes(offsets.last()));
            }
        }
        assert(index_offsets(index_bytes(offsets)) =~= offsets);
    }
}

} // verus!
