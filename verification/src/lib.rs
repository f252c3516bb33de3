//! Extraction of raw sparse images from AFF4 forensic evidence containers.
//!
//! An AFF4 container is a zip-family archive holding, for each imaged
//! object, a set of independently compressed "bevy" segments, a binary
//! chunk index beside each segment, and a metadata document that places
//! the decoded stream into a sparse output image.

pub mod container;
pub mod decode;
pub mod index;
pub mod order;
pub mod runs;
pub mod segments;
pub mod sparse;

use vstd::prelude::*;

use crate::container::{archive_entries, entry_names, listed_names, read_entry, readable_names, Container};
use crate::decode::{decode_segments, object_decode, segments_available};
use crate::runs::{document_runs, parse_runs};
use crate::segments::{
    canonical_for, canonical_segments, lemma_canonical_for_unique, lemma_filter_in_original,
    lemma_filter_no_duplicates, matches_object, name_with_suffix, object_pred, views_of,
};
use crate::sparse::{consumed, place_runs, placement_matches, runs_nonnegative, SegmentLocation, SparseWrite};

verus! {

/// A failure while decoding one object of a container.
///
/// Every failure is fatal for the object being decoded: no partial
/// output is ever reported as success.
#[derive(Debug, Clone)]
pub enum Aff4Error {
    /// A required named entry is absent from the container.
    NotFound,
    /// The archive structure itself could not be read.
    CorruptContainer,
    /// A chunk index entry is malformed (its length is not a multiple
    /// of four bytes, or its offsets do not fit the segment payload).
    MalformedIndex,
    /// One chunk of one segment failed to decompress; carries the
    /// segment name and the chunk position inside that segment.
    CorruptChunk { segment: String, chunk: usize },
    /// No data segment in the container matches the requested object.
    ObjectNotFound,
    /// The object's metadata document is missing or not of the
    /// expected shape.
    MalformedMetadata,
    /// The decoded stream holds fewer bytes than the placement runs
    /// require.
    TruncatedStream,
}

/// The command surface's arguments: which object to extract, and the
/// path of a container file or of a directory of container files.
pub struct Args {
    pub object_name: String,
    pub path: String,
}

/// The entry holding an object's run metadata document.
pub open spec fn info_name_of(object: Seq<char>) -> Seq<char> {
    object + "/information.yaml"@
}

/// The present entry names of a container: those both enumerated and
/// resolvable by name.
pub open spec fn present_names(archive: Container) -> Set<Seq<char>> {
    archive_entries(archive).dom().intersect(listed_names(archive))
}

/// Everything a successful extraction of `object` needs: at least one
/// matching data segment, every canonical segment and its index entry
/// present and readable, a decodable stream, and a readable metadata
/// document whose runs the stream covers.
pub open spec fn extraction_possible(archive: Container, object: Seq<char>) -> bool {
    exists|names: Seq<Seq<char>>|
        #![trigger canonical_for(present_names(archive), object, names)]
        {
            &&& canonical_for(present_names(archive), object, names)
            &&& names.len() > 0
            &&& segments_available(archive_entries(archive), readable_names(archive), names)
            &&& object_decode(archive_entries(archive), names) matches Some(stream)
            &&& archive_entries(archive).dom().contains(info_name_of(object))
            &&& readable_names(archive).contains(info_name_of(object))
            &&& document_runs(archive_entries(archive)[info_name_of(object)]) matches Some(runs)
            &&& consumed(runs, runs.len() as int) <= stream.len()
        }
}

/// From extraction being possible and one canonical list in hand, the
/// canonical list is that witness, so everything extraction needs
/// holds of it.
proof fn lemma_extraction_witness(archive: Container, object: Seq<char>, svs: Seq<Seq<char>>)
    requires
        extraction_possible(archive, object),
        canonical_for(present_names(archive), object, svs),
    ensures
        svs.len() > 0,
        segments_available(archive_entries(archive), readable_names(archive), svs),
        object_decode(archive_entries(archive), svs) is Some,
        archive_entries(archive).dom().contains(info_name_of(object)),
        readable_names(archive).contains(info_name_of(object)),
        document_runs(archive_entries(archive)[info_name_of(object)]) matches Some(runs)
            && consumed(runs, runs.len() as int)
            <= object_decode(archive_entries(archive), svs).unwrap().len(),
{
    let names = choose|names: Seq<Seq<char>>|
        #![trigger canonical_for(present_names(archive), object, names)]
        {
            &&& canonical_for(present_names(archive), object, names)
            &&& names.len() > 0
            &&& segments_available(archive_entries(archive), readable_names(archive), names)
            &&& object_decode(archive_entries(archive), names) matches Some(stream)
            &&& archive_entries(archive).dom().contains(info_name_of(object))
            &&& readable_names(archive).contains(info_name_of(object))
            &&& document_runs(archive_entries(archive)[info_name_of(object)]) matches Some(runs)
            &&& consumed(runs, runs.len() as int) <= stream.len()
        };
    lemma_canonical_for_unique(present_names(archive), object, names, svs);
}

/// The full decode pipeline for one object of an opened container:
/// its segments located and put in canonical order, each chunk
/// decompressed per its index, the stream placed into sparse writes
/// per the metadata document's runs.
///
/// An object with no matching data segment fails with the
/// object-not-found error, and nothing else does. Success is owed
/// whenever extraction is possible at all. On success the writes place
/// exactly the object decode of the canonical segment names, cut per
/// the run list of the object's metadata document. A malformed-
/// metadata failure means the readable metadata document holds no run
/// list; a truncated-stream failure means its runs ask for more than
/// the decoded stream holds.
pub fn extract_object(archive: &mut Container, object: &str) -> (r: Result<Vec<SparseWrite>, Aff4Error>)
    ensures
        archive_entries(*final(archive)) == archive_entries(*old(archive)),
        listed_names(*final(archive)) == listed_names(*old(archive)),
        readable_names(*final(archive)) == readable_names(*old(archive)),
        (r == Err::<Vec<SparseWrite>, Aff4Error>(Aff4Error::ObjectNotFound)) <==> (forall|n: Seq<char>|
            #[trigger] present_names(*old(archive)).contains(n) ==> !matches_object(object@, n)),
        extraction_possible(*old(archive), object@) ==> r is Ok,
        r matches Ok(w) ==> exists|names: Seq<Seq<char>>|
            #![trigger canonical_for(present_names(*old(archive)), object@, names)]
            {
                &&& canonical_for(present_names(*old(archive)), object@, names)
                &&& object_decode(archive_entries(*old(archive)), names) matches Some(stream)
                &&& archive_entries(*old(archive)).dom().contains(info_name_of(object@))
                &&& document_runs(archive_entries(*old(archive))[info_name_of(object@)]) matches Some(runs)
                &&& consumed(runs, runs.len() as int) <= stream.len()
                &&& placement_matches(stream, runs, w@)
            },
        r == Err::<Vec<SparseWrite>, Aff4Error>(Aff4Error::MalformedMetadata) ==> archive_entries(
            *old(archive),
        ).dom().contains(info_name_of(object@)) && document_runs(
            archive_entries(*old(archive))[info_name_of(object@)],
        ) is None,
        r == Err::<Vec<SparseWrite>, Aff4Error>(Aff4Error::TruncatedStream) ==> exists|names: Seq<Seq<char>>|
            #![trigger canonical_for(present_names(*old(archive)), object@, names)]
            {
                &&& canonical_for(present_names(*old(archive)), object@, names)
                &&& object_decode(archive_entries(*old(archive)), names) matches Some(stream)
                &&& archive_entries(*old(archive)).dom().contains(info_name_of(object@))
                &&& document_runs(archive_entries(*old(archive))[info_name_of(object@)]) matches Some(runs)
                &&& consumed(runs, runs.len() as int) > stream.len()
            },
{
    let ghost entries = archive_entries(*archive);
    let ghost present = present_names(*archive);
    let all_names = entry_names(archive);
    let segs = canonical_segments(&all_names, object);
    let ghost svs = views_of(segs@);
    proof {
        broadcast use vstd::seq_lib::group_to_multiset_ensures;
        broadcast use vstd::seq_lib::group_filter_ensures;

        let pred = object_pred(object@);
        let vns = views_of(all_names@);
        let f = vns.filter(pred);
        assert(vns.no_duplicates()) by {
            assert forall|i: int, j: int|
                0 <= i < vns.len() && 0 <= j < vns.len() && i != j implies vns[i] != vns[j] by {
                if i < j {
                    assert(all_names@[i]@ != all_names@[j]@);
                } else {
                    assert(all_names@[j]@ != all_names@[i]@);
                }
            }
        }
        lemma_filter_no_duplicates(vns, pred);
        f.lemma_multiset_has_no_duplicates();
        assert(svs.no_duplicates()) by {
            svs.lemma_multiset_has_no_duplicates_conv();
        }
        assert forall|n: Seq<char>|
            #![trigger svs.contains(n)]
            #![trigger present.contains(n)]
            svs.contains(n) <==> (present.contains(n) && matches_object(object@, n)) by {
            if svs.contains(n) {
                assert(svs.to_multiset().contains(n));
                assert(f.to_multiset().contains(n));
                assert(f.contains(n));
                lemma_filter_in_original(vns, pred, n);
                let i = choose|i: int| 0 <= i < vns.len() && vns[i] == n;
                assert(all_names@[i]@ == n);
                assert(entries.dom().contains(n) && listed_names(*archive).contains(n));
                assert(present.contains(n));
                let k = choose|k: int| 0 <= k < f.len() && f[k] == n;
                assert(pred(f[k]));
                assert(matches_object(object@, n));
            }
            if present.contains(n) && matches_object(object@, n) {
                assert(entries.dom().contains(n) && listed_names(*archive).contains(n));
                let i = choose|i: int| 0 <= i < all_names@.len() && all_names@[i]@ == n;
                assert(vns[i] == n);
                assert(pred(vns[i]));
                assert(f.contains(vns[i]));
                assert(f.to_multiset().contains(n));
                assert(svs.to_multiset().contains(n));
                assert(svs.contains(n));
            }
        }
        assert(canonical_for(present, object@, svs));
    }
    if segs.len() == 0 {
        proof {
            assert forall|n: Seq<char>|
                #[trigger] present.contains(n) implies !matches_object(object@, n) by {
                if matches_object(object@, n) {
                    assert(svs.contains(n));
                }
            }
            assert(!extraction_possible(*archive, object@)) by {
                if extraction_possible(*archive, object@) {
                    lemma_extraction_witness(*archive, object@, svs);
                }
            }
        }
        return Err(Aff4Error::ObjectNotFound);
    }
    proof {
        let first = svs[0];
        assert(svs.contains(first));
        assert(present.contains(first) && matches_object(object@, first));
    }
    let stream = match decode_segments(archive, &segs) {
        Ok(v) => v,
        Err(e) => {
            proof {
                if extraction_possible(*old(archive), object@) {
                    lemma_extraction_witness(*old(archive), object@, svs);
                    assert(false);
                }
            }
            return Err(e);
        },
    };
    let info_name = name_with_suffix(object, "/information.yaml");
    let info = match read_entry(archive, info_name.as_str()) {
        Ok(v) => v,
        Err(e) => {
            proof {
                assert(info_name@ == info_name_of(object@));
                if extraction_possible(*old(archive), object@) {
                    lemma_extraction_witness(*old(archive), object@, svs);
                    assert(false);
                }
            }
            return Err(e);
        },
    };
    let runs = match parse_runs(&info) {
        Ok(v) => v,
        Err(e) => {
            proof {
                assert(info_name@ == info_name_of(object@));
                assert(entries.dom().contains(info_name_of(object@)));
                assert(info@ == entries[info_name_of(object@)]);
                assert(document_runs(entries[info_name_of(object@)]) is None);
                if extraction_possible(*old(archive), object@) {
                    lemma_extraction_witness(*old(archive), object@, svs);
                    assert(false);
                }
            }
            return Err(e);
        },
    };
    let writes = match place_runs(&stream, &runs) {
        Ok(v) => v,
        Err(e) => {
            proof {
                assert(info_name@ == info_name_of(object@));
                assert(document_runs(entries[info_name_of(object@)]) == Some(runs@));
                assert(object_decode(entries, svs) == Some(stream@));
                assert(consumed(runs@, runs@.len() as int) > stream@.len());
                assert(canonical_for(present_names(*old(archive)), object@, svs));
                if extraction_possible(*old(archive), object@) {
                    lemma_extraction_witness(*old(archive), object@, svs);
                    assert(false);
                }
            }
            return Err(e);
        },
    };
    proof {
        assert(info_name@ == info_name_of(object@));
        assert(canonical_for(present_names(*old(archive)), object@, svs));
        assert(object_decode(entries, svs) == Some(stream@));
        assert(entries.dom().contains(info_name_of(object@)));
        assert(document_runs(entries[info_name_of(object@)]) == Some(runs@));
        assert(consumed(runs@, runs@.len() as int) <= stream@.len());
        assert(placement_matches(stream@, runs@, writes@));
    }
    Ok(writes)
}

} // verus!
