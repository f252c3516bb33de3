//! Parsing of the object's metadata document into placement runs.
//!
//! The metadata document is YAML text holding a `Runs` list; each
//! record carries a `start` and a `length` field, both non-negative
//! integers, in the order the decoded stream is to be consumed in.
//! What the parser reads of a document is modelled by [`YamlNode`],
//! and the run list a document holds by [`document_runs`]; the parser
//! returns exactly that list, or the malformed-metadata error exactly
//! where the model holds none.

use vstd::prelude::*;

use crate::sparse::{runs_nonnegative, SegmentLocation};
use crate::Aff4Error;

verus! {

#[verifier::external_type_specification]
#[verifier::external_body]
pub struct ExYaml(yaml_rust::Yaml);

/// The most bytes a metadata line may hold. Longer-lined documents are
/// rejected as malformed before parsing: the YAML parser recurses once
/// per block-nesting level, and every nesting level of a node occupies
/// at least one byte of the line the node starts on, so bounding the
/// line length bounds the parser's recursion depth.
pub const MAX_METADATA_LINE: usize = 4096;

/// No stretch of the bytes without a newline is longer than `bound`,
/// starting with `run` pending bytes from the current line.
pub open spec fn line_runs_ok(bytes: Seq<u8>, run: int, bound: int) -> bool
    decreases bytes.len(),
{
    if run > bound {
        false
    } else if bytes.len() == 0 {
        true
    } else {
        line_runs_ok(bytes.skip(1), if bytes[0] == 10 { 0 } else { run + 1 }, bound)
    }
}

/// The spec-level shape of a parsed YAML node, as far as the run
/// metadata reads one: an integer, a list, the string-keyed pairs of a
/// mapping, any other present node, or the absent marker that failed
/// lookups yield.
pub enum YamlNode {
    Int(i64),
    List(Seq<YamlNode>),
    Pairs(Map<Seq<char>, YamlNode>),
    Scalar,
    Absent,
}

/// The modelled shape of a parsed YAML node.
pub uninterp spec fn yaml_model(node: yaml_rust::Yaml) -> YamlNode;

/// The modelled documents a metadata byte sequence parses to: a
/// function of the bytes alone, nothing where they are not UTF-8 text
/// or not well-formed YAML.
pub uninterp spec fn yaml_documents(bytes: Seq<u8>) -> Option<Seq<YamlNode>>;

/// Relies on String::from_utf8 and yaml_rust::YamlLoader::load_from_str:
/// which documents a byte sequence parses to depends on the bytes
/// alone; bytes that are not UTF-8, or text that is not well-formed
/// YAML, fail. The caller bounds the line length, which bounds the
/// parser's recursion depth.
#[verifier::external_body]
fn load_yaml(bytes: &Vec<u8>) -> (r: Option<Vec<yaml_rust::Yaml>>)
    requires
        line_runs_ok(bytes@, 0, MAX_METADATA_LINE as int),
    ensures
        r matches Some(docs) ==> yaml_documents(bytes@) == Some(
            docs@.map_values(|y: yaml_rust::Yaml| yaml_model(y)),
        ),
        r is None ==> yaml_documents(bytes@) is None,
{
    let text = match String::from_utf8(bytes.clone()) {
        Ok(text) => text,
        Err(_) => {
            return None;
        },
    };
    yaml_rust::YamlLoader::load_from_str(&text).ok()
}

/// Spec lookup of a string key: the value under the key of a mapping
/// that has it, and the absent marker otherwise.
pub open spec fn key_of(n: YamlNode, key: Seq<char>) -> YamlNode {
    match n {
        YamlNode::Pairs(m) => if m.dom().contains(key) {
            m[key]
        } else {
            YamlNode::Absent
        },
        _ => YamlNode::Absent,
    }
}

/// Relies on the Index<&str> impl of yaml_rust::Yaml: looks the key up
/// among a hash node's string-keyed pairs, yielding the bad-value
/// marker where the node is no hash or has no such key.
#[verifier::external_body]
fn yaml_key<'a>(doc: &'a yaml_rust::Yaml, key: &str) -> (r: &'a yaml_rust::Yaml)
    ensures
        yaml_model(*r) == key_of(yaml_model(*doc), key@),
{
    &doc[key]
}

/// Relies on yaml_rust::Yaml::as_vec: the element list of an array
/// node, and nothing for any other node.
#[verifier::external_body]
fn yaml_as_vec(node: &yaml_rust::Yaml) -> (r: Option<&Vec<yaml_rust::Yaml>>)
    ensures
        r matches Some(v) ==> yaml_model(*node) == YamlNode::List(
            v@.map_values(|y: yaml_rust::Yaml| yaml_model(y)),
        ),
        r is None ==> !(yaml_model(*node) is List),
{
    node.as_vec()
}

/// Relies on yaml_rust::Yaml::as_i64: the value of an integer node,
/// and nothing for any other node.
#[verifier::external_body]
fn yaml_as_i64(node: &yaml_rust::Yaml) -> (r: Option<i64>)
    ensures
        r matches Some(x) ==> yaml_model(*node) == YamlNode::Int(x),
        r is None ==> !(yaml_model(*node) is Int),
{
    node.as_i64()
}

/// The run one record of the `Runs` list describes: its `start` and
/// `length` integer values, both non-negative; nothing otherwise.
pub open spec fn run_of_entry(n: YamlNode) -> Option<SegmentLocation> {
    match (key_of(n, "start"@), key_of(n, "length"@)) {
        (YamlNode::Int(start), YamlNode::Int(length)) => if start >= 0 && length >= 0 {
            Some(SegmentLocation { start, length })
        } else {
            None
        },
        _ => None,
    }
}

/// The runs of the first `k` records, in document order; nothing if
/// any of them is not a well-formed run record.
pub open spec fn runs_of_entries(es: Seq<YamlNode>, k: int) -> Option<Seq<SegmentLocation>>
    decreases k,
{
    if k <= 0 {
        Some(Seq::empty())
    } else {
        match (runs_of_entries(es, k - 1), run_of_entry(es[k - 1])) {
            (Some(acc), Some(run)) => Some(acc.push(run)),
            _ => None,
        }
    }
}

proof fn lemma_runs_of_entries_none(es: Seq<YamlNode>, i: int, k: int)
    requires
        0 <= i < k,
        run_of_entry(es[i]) is None,
    ensures
        runs_of_entries(es, k) is None,
    decreases k,
{
    if i < k - 1 {
        lemma_runs_of_entries_none(es, i, k - 1);
    }
}

/// The ordered run list a metadata document holds: the `Runs` list of
/// its first document, one run per record, in document order; nothing
/// where the bytes hold an over-long line, do not parse as YAML text,
/// hold no document, no `Runs` list, or a record without non-negative
/// integer `start` and `length` fields.
pub open spec fn document_runs(bytes: Seq<u8>) -> Option<Seq<SegmentLocation>> {
    if !line_runs_ok(bytes, 0, MAX_METADATA_LINE as int) {
        None
    } else {
        match yaml_documents(bytes) {
            Option::None => None,
            Option::Some(docs) => if docs.len() == 0 {
                None
            } else {
                match key_of(docs[0], "Runs"@) {
                    YamlNode::List(es) => runs_of_entries(es, es.len() as int),
                    _ => None,
                }
            },
        }
    }
}

/// Decides whether every line of the bytes fits the parser's bound.
fn lines_bounded(bytes: &Vec<u8>) -> (r: bool)
    ensures
        r == line_runs_ok(bytes@, 0, MAX_METADATA_LINE as int),
{
    let mut run: usize = 0;
    let mut i: usize = 0;
    proof {
        assert(bytes@.skip(0) =~= bytes@);
    }
    while i < bytes.len()
        invariant
            i <= bytes@.len(),
            run <= MAX_METADATA_LINE,
            line_runs_ok(bytes@, 0, MAX_METADATA_LINE as int) == line_runs_ok(
                bytes@.skip(i as int),
                run as int,
                MAX_METADATA_LINE as int,
            ),
        decreases bytes@.len() - i,
    {
        let ghost tail = bytes@.skip(i as int);
        proof {
            assert(tail.len() > 0 && tail[0] == bytes@[i as int]);
            assert(tail.skip(1) =~= bytes@.skip(i + 1));
        }
        if bytes[i] == 10 {
            run = 0;
        } else {
            if run == MAX_METADATA_LINE {
                proof {
                    assert(line_runs_ok(tail, run as int, MAX_METADATA_LINE as int) == line_runs_ok(
                        tail.skip(1),
                        run + 1,
                        MAX_METADATA_LINE as int,
                    ));
                    assert(!line_runs_ok(tail.skip(1), run + 1, MAX_METADATA_LINE as int));
                }
                return false;
            }
            run = run + 1;
        }
        i = i + 1;
    }
    proof {
        assert(bytes@.skip(bytes@.len() as int).len() == 0);
    }
    true
}

/// Parses a metadata document into its ordered run list.
///
/// Returns exactly the run list the document holds, per
/// [`document_runs`], and fails with malformed metadata exactly where
/// the document holds none. Document order is kept: it is the order
/// the decoded stream is consumed in, not an order by start offset.
/// Every run returned has a non-negative start and length.
pub fn parse_runs(bytes: &Vec<u8>) -> (r: Result<Vec<SegmentLocation>, Aff4Error>)
    ensures
        r matches Ok(runs) ==> document_runs(bytes@) == Some(runs@) && runs_nonnegative(runs@),
        r is Err <==> document_runs(bytes@) is None,
        r matches Err(e) ==> e == Aff4Error::MalformedMetadata,
{
    if !lines_bounded(bytes) {
        return Err(Aff4Error::MalformedMetadata);
    }
    let docs = match load_yaml(bytes) {
        Some(d) => d,
        None => {
            return Err(Aff4Error::MalformedMetadata);
        },
    };
    let ghost docs_model = docs@.map_values(|y: yaml_rust::Yaml| yaml_model(y));
    if docs.len() == 0 {
        return Err(Aff4Error::MalformedMetadata);
    }
    let runs_node = yaml_key(&docs[0], "Runs");
    proof {
        assert(docs_model[0] == yaml_model(docs@[0]));
    }
    let entries = match yaml_as_vec(runs_node) {
        Some(v) => v,
        None => {
            return Err(Aff4Error::MalformedMetadata);
        },
    };
    let ghost es = entries@.map_values(|y: yaml_rust::Yaml| yaml_model(y));
    let mut out: Vec<SegmentLocation> = Vec::new();
    let mut i: usize = 0;
    while i < entries.len()
        invariant
            i <= entries@.len(),
            es == entries@.map_values(|y: yaml_rust::Yaml| yaml_model(y)),
            document_runs(bytes@) == runs_of_entries(es, es.len() as int),
            runs_of_entries(es, i as int) == Some(out@),
            runs_nonnegative(out@),
        decreases entries@.len() - i,
    {
        let ghost entry_model = es[i as int];
        let start = match yaml_as_i64(yaml_key(&entries[i], "start")) {
            Some(v) => v,
            None => {
                proof {
                    lemma_runs_of_entries_none(es, i as int, es.len() as int);
                }
                return Err(Aff4Error::MalformedMetadata);
            },
        };
        let length = match yaml_as_i64(yaml_key(&entries[i], "length")) {
            Some(v) => v,
            None => {
                proof {
                    lemma_runs_of_entries_none(es, i as int, es.len() as int);
                }
                return Err(Aff4Error::MalformedMetadata);
            },
        };
        if start < 0 || length < 0 {
            proof {
                lemma_runs_of_entries_none(es, i as int, es.len() as int);
            }
            return Err(Aff4Error::MalformedMetadata);
        }
        let run = SegmentLocation { start, length };
        out.push(run);
        proof {
            assert(run_of_entry(entry_model) == Some(run));
            assert(runs_of_entries(es, i + 1) == Some(out@));
        }
        i = i + 1;
    }
    proof {
        assert(runs_of_entries(es, es.len() as int) == Some(out@));
    }
    Ok(out)
}

} // verus!
