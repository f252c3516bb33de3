//! Read access to the archive container, behind trusted wrappers.
//!
//! The container is a zip-family archive read entirely in memory. The
//! wrappers here are the only places the library touches the archive
//! crate; everything stated about them is what that crate's own source
//! shows of its behaviour.
//!
//! Two subtleties of the archive's directory shape the model. The
//! directory is keyed by each entry's raw name bytes, while the
//! enumeration yields names decoded from those bytes (lossily where
//! they are not well-encoded), so an enumerated name need not resolve,
//! and a resolvable name need not be enumerated. The library therefore
//! works with the names that are both enumerated and resolvable:
//! `entry_names` filters the enumeration down to them, in verified
//! code, through the `name_resolves` wrapper.

use vstd::prelude::*;

use crate::Aff4Error;

verus! {

#[verifier::external_type_specification]
#[verifier::external_body]
#[verifier::reject_recursive_types(R)]
pub struct ExZipArchive<R>(zip::ZipArchive<R>);

#[verifier::external_type_specification]
#[verifier::external_body]
#[verifier::reject_recursive_types(T)]
pub struct ExCursor<T>(std::io::Cursor<T>);

/// An opened container, read from an in-memory byte buffer.
pub type Container = zip::ZipArchive<std::io::Cursor<Vec<u8>>>;

/// The resolvable entries of a container: each name the archive's
/// directory resolves (its bytes are a directory key), mapped to the
/// bytes that a successful full read of that entry yields. Reading
/// never changes them.
pub uninterp spec fn archive_entries(a: Container) -> Map<Seq<char>, Seq<u8>>;

/// The names the archive's directory enumeration yields, decoded from
/// their raw bytes.
pub uninterp spec fn listed_names(a: Container) -> Set<Seq<char>>;

/// The resolvable names whose full read succeeds. For an archive held
/// in memory a read's outcome depends on the archive value alone.
pub uninterp spec fn readable_names(a: Container) -> Set<Seq<char>>;

/// Relies on zip::ZipArchive::file_names: yields the decoded name of
/// every entry of the archive, and nothing else.
#[verifier::external_body]
fn list_entries(a: &Container) -> (r: Vec<String>)
    ensures
        forall|i: int| 0 <= i < r@.len() ==> listed_names(*a).contains(#[trigger] r@[i]@),
        forall|n: Seq<char>| #[trigger] listed_names(*a).contains(n) ==> exists|i: int|
            0 <= i < r@.len() && r@[i]@ == n,
{
    a.file_names().map(|s| s.to_string()).collect()
}

/// Relies on zip::ZipArchive::index_for_name: whether the directory
/// resolves the name, by the same lookup that opening it by name uses.
#[verifier::external_body]
fn name_resolves(a: &Container, name: &str) -> (r: bool)
    ensures
        r == archive_entries(*a).dom().contains(name@),
{
    a.index_for_name(name).is_some()
}

/// The names of the container that the pipeline works with: every
/// enumerated name that also resolves, each exactly once.
pub fn entry_names(a: &Container) -> (r: Vec<String>)
    ensures
        forall|i: int| 0 <= i < r@.len() ==> archive_entries(*a).dom().contains(#[trigger] r@[i]@)
            && listed_names(*a).contains(r@[i]@),
        forall|n: Seq<char>| listed_names(*a).contains(n) && #[trigger] archive_entries(*a).dom().contains(n)
            ==> exists|i: int| 0 <= i < r@.len() && r@[i]@ == n,
        forall|i: int, j: int| 0 <= i < j < r@.len() ==> r@[i]@ != r@[j]@,
{
    let listed = list_entries(a);
    let mut out: Vec<String> = Vec::new();
    let mut i: usize = 0;
    while i < listed.len()
        invariant
            i <= listed@.len(),
            forall|t: int| 0 <= t < listed@.len() ==> listed_names(*a).contains(#[trigger] listed@[t]@),
            forall|k: int| 0 <= k < out@.len() ==> archive_entries(*a).dom().contains(#[trigger] out@[k]@)
                && listed_names(*a).contains(out@[k]@),
            forall|n: Seq<char>|
                (exists|t: int| 0 <= t < i && listed@[t]@ == n) && #[trigger] archive_entries(
                    *a,
                ).dom().contains(n) ==> exists|k: int| 0 <= k < out@.len() && out@[k]@ == n,
            forall|k: int, l: int| 0 <= k < l < out@.len() ==> out@[k]@ != out@[l]@,
        decreases listed@.len() - i,
    {
        let ghost out0 = out@;
        let candidate = &listed[i];
        let resolved = name_resolves(a, candidate.as_str());
        if resolved {
            proof {
                assert(listed_names(*a).contains(listed@[i as int]@));
                assert(listed_names(*a).contains(candidate@));
            }
            let mut already = false;
            let mut j: usize = 0;
            while j < out.len()
                invariant
                    j <= out@.len(),
                    already == (exists|k: int| 0 <= k < j && out@[k]@ == candidate@),
                decreases out@.len() - j,
            {
                if out[j] == *candidate {
                    already = true;
                }
                j = j + 1;
            }
            if !already {
                out.push(candidate.clone());
                proof {
                    assert(out@[out@.len() - 1]@ == candidate@);
                }
            }
            proof {
                assert(exists|k: int| 0 <= k < out@.len() && out@[k]@ == candidate@);
            }
        }
        proof {
            assert forall|n: Seq<char>|
                (exists|t: int| 0 <= t < i + 1 && listed@[t]@ == n) && #[trigger] archive_entries(
                    *a,
                ).dom().contains(n) implies exists|k: int| 0 <= k < out@.len() && out@[k]@ == n by {
                let t = choose|t: int| 0 <= t < i + 1 && listed@[t]@ == n;
                if t < i {
                    assert((exists|t2: int| 0 <= t2 < i && listed@[t2]@ == n));
                    let k0 = choose|k: int| 0 <= k < out0.len() && out0[k]@ == n;
                    assert(out@[k0] == out0[k0]);
                    assert(0 <= k0 < out@.len() && out@[k0]@ == n);
                } else {
                    assert(n == candidate@);
                    if resolved {
                        let k0 = choose|k: int| 0 <= k < out@.len() && out@[k]@ == candidate@;
                        assert(0 <= k0 < out@.len() && out@[k0]@ == n);
                    } else {
                        assert(!archive_entries(*a).dom().contains(candidate@));
                    }
                }
            }
        }
        i = i + 1;
    }
    proof {
        assert forall|n: Seq<char>|
            listed_names(*a).contains(n) && #[trigger] archive_entries(*a).dom().contains(n) implies exists|k: int|
            0 <= k < out@.len() && out@[k]@ == n by {
            let t = choose|t: int| 0 <= t < listed@.len() && listed@[t]@ == n;
            assert(exists|t2: int| 0 <= t2 < listed@.len() && listed@[t2]@ == n);
        }
    }
    out
}

/// Relies on zip::ZipArchive::by_name and std::io::Read::read_to_end
/// on the entry it returns: the not-found error comes exactly when the
/// directory does not resolve the name; a resolvable entry reads fully
/// and deterministically when it is readable at all, and any failure
/// beyond resolution means unreadable content; reading leaves the
/// archive's entries as they were.
#[verifier::external_body]
pub(crate) fn read_entry(a: &mut Container, name: &str) -> (r: Result<Vec<u8>, Aff4Error>)
    ensures
        archive_entries(*final(a)) == archive_entries(*old(a)),
        listed_names(*final(a)) == listed_names(*old(a)),
        readable_names(*final(a)) == readable_names(*old(a)),
        r matches Ok(v) ==> archive_entries(*old(a)).dom().contains(name@) && v@ == archive_entries(
            *old(a),
        )[name@],
        r is Ok <==> (archive_entries(*old(a)).dom().contains(name@) && readable_names(*old(a)).contains(
            name@,
        )),
        r == Err::<Vec<u8>, Aff4Error>(Aff4Error::NotFound) <==> !archive_entries(*old(a)).dom().contains(
            name@,
        ),
        r matches Err(e) ==> (e == Aff4Error::NotFound || e == Aff4Error::CorruptContainer),
{
    match a.by_name(name) {
        Ok(mut entry) => {
            let mut contents = Vec::new();
            match std::io::Read::read_to_end(&mut entry, &mut contents) {
                Ok(_) => Ok(contents),
                Err(_) => Err(Aff4Error::CorruptContainer),
            }
        },
        Err(zip::result::ZipError::FileNotFound) => Err(Aff4Error::NotFound),
        Err(_) => Err(Aff4Error::CorruptContainer),
    }
}

} // verus!
