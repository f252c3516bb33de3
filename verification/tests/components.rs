use aff4_raw_extract::decode::{chunk_bounds, decode_segment};
use aff4_raw_extract::index::{encode_chunk_index, parse_chunk_index};
use aff4_raw_extract::runs::parse_runs;
use aff4_raw_extract::segments::canonical_segments;
use aff4_raw_extract::sparse::{place_runs, render_image, SegmentLocation};
use aff4_raw_extract::Aff4Error;

fn le_index(offsets: &[u32]) -> Vec<u8> {
    let mut out = Vec::new();
    for o in offsets {
        out.extend_from_slice(&o.to_le_bytes());
    }
    out
}

#[test]
fn index_parse_exact_values() {
    let bytes = vec![10u8, 0, 0, 0, 25, 0, 0, 0];
    let offsets = parse_chunk_index(&bytes).unwrap();
    assert_eq!(offsets, vec![10u32, 25u32]);
}

#[test]
fn index_round_trip() {
    let bytes = vec![1u8, 2, 3, 4, 255, 0, 128, 7, 0, 0, 0, 0];
    let offsets = parse_chunk_index(&bytes).unwrap();
    let encoded = encode_chunk_index(&offsets);
    assert_eq!(encoded, bytes);
}

#[test]
fn index_empty_round_trip() {
    let bytes: Vec<u8> = Vec::new();
    let offsets = parse_chunk_index(&bytes).unwrap();
    assert!(offsets.is_empty());
    assert!(encode_chunk_index(&offsets).is_empty());
}

#[test]
fn index_bad_length_is_malformed() {
    for n in [1usize, 2, 3, 5, 7] {
        let bytes = vec![0u8; n];
        let err = parse_chunk_index(&bytes).unwrap_err();
        assert!(matches!(err, Aff4Error::MalformedIndex));
    }
}

#[test]
fn chunk_partitioning() {
    let offsets = vec![0u32, 10, 25];
    let bounds = chunk_bounds(&offsets, 40).unwrap();
    assert_eq!(bounds, vec![(0usize, 10usize), (10, 25), (25, 40)]);
}

#[test]
fn chunk_partitioning_rejects_descending_offsets() {
    let offsets = vec![10u32, 5];
    let err = chunk_bounds(&offsets, 40).unwrap_err();
    assert!(matches!(err, Aff4Error::MalformedIndex));
}

#[test]
fn chunk_partitioning_rejects_offset_past_end() {
    let offsets = vec![0u32, 50];
    let err = chunk_bounds(&offsets, 40).unwrap_err();
    assert!(matches!(err, Aff4Error::MalformedIndex));
}

#[test]
fn chunk_partitioning_empty_index() {
    let offsets: Vec<u32> = Vec::new();
    let bounds = chunk_bounds(&offsets, 40).unwrap();
    assert!(bounds.is_empty());
}

#[test]
fn segment_ordering() {
    let names_one = vec![
        "obj/data/00000001".to_string(),
        "obj/data/00000000".to_string(),
        "obj/data/00000000/index".to_string(),
        "obj/data/00000001/index".to_string(),
        "obj/information.yaml".to_string(),
    ];
    let mut names_two = names_one.clone();
    names_two.reverse();
    let segs_one = canonical_segments(&names_one, "obj");
    let segs_two = canonical_segments(&names_two, "obj");
    let expected = vec!["obj/data/00000000".to_string(), "obj/data/00000001".to_string()];
    assert_eq!(segs_one, expected);
    assert_eq!(segs_two, expected);
}

#[test]
fn segment_selection_needs_data_prefix() {
    let names = vec![
        "obj/data/00000000".to_string(),
        "other/data/00000000".to_string(),
        "obj/info".to_string(),
    ];
    let segs = canonical_segments(&names, "obj");
    assert_eq!(segs, vec!["obj/data/00000000".to_string()]);
}

#[test]
fn corrupt_chunk_names_segment_and_position() {
    // A single chunk of bytes that are no zlib stream.
    let payload = vec![0xFFu8, 0xFE, 0xFD, 0xFC];
    let index_entry = le_index(&[0]);
    let err = decode_segment("obj/data/00000000", &index_entry, &payload).unwrap_err();
    match err {
        Aff4Error::CorruptChunk { segment, chunk } => {
            assert_eq!(segment, "obj/data/00000000");
            assert_eq!(chunk, 0);
        },
        other => panic!("expected CorruptChunk, got {:?}", other),
    }
}

#[test]
fn decode_segment_rejects_bad_index_length() {
    let payload = vec![0u8; 8];
    let index_entry = vec![0u8; 6];
    let err = decode_segment("s", &index_entry, &payload).unwrap_err();
    assert!(matches!(err, Aff4Error::MalformedIndex));
}

#[test]
fn sparse_placement() {
    let stream: Vec<u8> = (0..100u8).collect();
    let runs = vec![
        SegmentLocation { start: 0, length: 50 },
        SegmentLocation { start: 1000, length: 50 },
    ];
    let writes = place_runs(&stream, &runs).unwrap();
    assert_eq!(writes.len(), 2);
    assert_eq!(writes[0].start, 0);
    assert_eq!(writes[0].data, stream[0..50].to_vec());
    assert_eq!(writes[1].start, 1000);
    assert_eq!(writes[1].data, stream[50..100].to_vec());
    let image = render_image(&writes, 1050);
    assert_eq!(image.len(), 1050);
    assert_eq!(&image[0..50], &stream[0..50]);
    assert_eq!(&image[1000..1050], &stream[50..100]);
    assert!(image[50..1000].iter().all(|b| *b == 0));
}

#[test]
fn sparse_placement_later_run_overwrites() {
    let stream: Vec<u8> = vec![1, 1, 2, 2];
    let runs = vec![
        SegmentLocation { start: 0, length: 2 },
        SegmentLocation { start: 1, length: 2 },
    ];
    let writes = place_runs(&stream, &runs).unwrap();
    let image = render_image(&writes, 3);
    assert_eq!(image, vec![1, 2, 2]);
}

#[test]
fn truncation_detection() {
    let stream: Vec<u8> = vec![7u8; 10];
    let runs = vec![SegmentLocation { start: 0, length: 20 }];
    let err = place_runs(&stream, &runs).unwrap_err();
    assert!(matches!(err, Aff4Error::TruncatedStream));
}

#[test]
fn truncation_after_first_run() {
    let stream: Vec<u8> = vec![7u8; 10];
    let runs = vec![
        SegmentLocation { start: 0, length: 8 },
        SegmentLocation { start: 100, length: 8 },
    ];
    let err = place_runs(&stream, &runs).unwrap_err();
    assert!(matches!(err, Aff4Error::TruncatedStream));
}

#[test]
fn run_list_zero_runs() {
    let stream: Vec<u8> = vec![1, 2, 3];
    let runs: Vec<SegmentLocation> = Vec::new();
    let writes = place_runs(&stream, &runs).unwrap();
    assert!(writes.is_empty());
    let image = render_image(&writes, 4);
    assert_eq!(image, vec![0, 0, 0, 0]);
}

#[test]
fn parse_runs_reads_document_order() {
    let text = b"Runs:\n  - start: 1000\n    length: 50\n  - start: 0\n    length: 50\n".to_vec();
    let runs = parse_runs(&text).unwrap();
    assert_eq!(
        runs,
        vec![
            SegmentLocation { start: 1000, length: 50 },
            SegmentLocation { start: 0, length: 50 },
        ]
    );
}

#[test]
fn parse_runs_missing_field_is_malformed() {
    let text = b"Runs:\n  - start: 1000\n".to_vec();
    let err = parse_runs(&text).unwrap_err();
    assert!(matches!(err, Aff4Error::MalformedMetadata));
}

#[test]
fn parse_runs_missing_list_is_malformed() {
    let text = b"Other: 3\n".to_vec();
    let err = parse_runs(&text).unwrap_err();
    assert!(matches!(err, Aff4Error::MalformedMetadata));
}

#[test]
fn parse_runs_negative_value_is_malformed() {
    let text = b"Runs:\n  - start: -1\n    length: 50\n".to_vec();
    let err = parse_runs(&text).unwrap_err();
    assert!(matches!(err, Aff4Error::MalformedMetadata));
}

#[test]
fn parse_runs_unparsable_text_is_malformed() {
    let text = b"Runs: [unclosed\n  - ::bad".to_vec();
    let err = parse_runs(&text).unwrap_err();
    assert!(matches!(err, Aff4Error::MalformedMetadata));
}

#[test]
fn parse_runs_overlong_line_is_malformed() {
    // A line longer than the parser's bound guards its recursion; such
    // a document is rejected as malformed.
    let mut text = b"Runs:\n  - start: 0\n    length: 1\n#".to_vec();
    text.extend(std::iter::repeat(b' ').take(5000));
    let err = parse_runs(&text).unwrap_err();
    assert!(matches!(err, Aff4Error::MalformedMetadata));
}

#[test]
fn parse_runs_deeply_nested_line_is_malformed() {
    // A hostile document of many nesting levels on one line is caught
    // by the line bound before the parser recurses.
    let mut text = b"Runs: ".to_vec();
    text.extend(std::iter::repeat(b"- ").flatten().take(100_000).copied());
    let r = parse_runs(&text);
    assert!(matches!(r.unwrap_err(), Aff4Error::MalformedMetadata));
}
