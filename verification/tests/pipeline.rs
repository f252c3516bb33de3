use std::io::{Cursor, Write};

use aff4_raw_extract::container::Container;
use aff4_raw_extract::decode::decode_segment;
use aff4_raw_extract::extract_object;
use aff4_raw_extract::sparse::render_image;
use aff4_raw_extract::Aff4Error;

fn zlib_compress(data: &[u8]) -> Vec<u8> {
    let mut z = flate2::write::ZlibEncoder::new(Vec::new(), flate2::Compression::default());
    z.write_all(data).unwrap();
    z.finish().unwrap()
}

fn le_index(offsets: &[u32]) -> Vec<u8> {
    let mut out = Vec::new();
    for o in offsets {
        out.extend_from_slice(&o.to_le_bytes());
    }
    out
}

fn build_container(entries: &[(&str, Vec<u8>)]) -> Container {
    let mut writer = zip::ZipWriter::new(Cursor::new(Vec::new()));
    let options = zip::write::SimpleFileOptions::default()
        .compression_method(zip::CompressionMethod::Stored);
    for (name, data) in entries {
        writer.start_file(*name, options).unwrap();
        writer.write_all(data).unwrap();
    }
    let cursor = writer.finish().unwrap();
    zip::ZipArchive::new(Cursor::new(cursor.into_inner())).unwrap()
}

#[test]
fn segment_round_trip() {
    let original: Vec<u8> = (0u8..=255).cycle().take(700).collect();
    let chunk_one = zlib_compress(&original[..300]);
    let chunk_two = zlib_compress(&original[300..]);
    let mut payload = chunk_one.clone();
    payload.extend_from_slice(&chunk_two);
    let index_entry = le_index(&[0, chunk_one.len() as u32]);
    let decoded = decode_segment("obj/data/00000000", &index_entry, &payload).unwrap();
    assert_eq!(decoded, original);
}

#[test]
fn container_round_trip_across_segments() {
    // Two segments whose names arrive in the container out of order;
    // their decoded bytes must come out in lexicographic name order.
    let part_one: Vec<u8> = vec![0xAA; 40];
    let part_two: Vec<u8> = vec![0xBB; 60];
    let seg_one_payload = zlib_compress(&part_one);
    let seg_two_payload = zlib_compress(&part_two);
    let info = b"Runs:\n  - start: 0\n    length: 100\n".to_vec();
    let mut archive = build_container(&[
        ("obj/data/00000001", seg_two_payload.clone()),
        ("obj/data/00000001/index", le_index(&[0])),
        ("obj/data/00000000", seg_one_payload.clone()),
        ("obj/data/00000000/index", le_index(&[0])),
        ("obj/information.yaml", info),
    ]);
    let writes = extract_object(&mut archive, "obj").unwrap();
    assert_eq!(writes.len(), 1);
    assert_eq!(writes[0].start, 0);
    let mut expected = part_one.clone();
    expected.extend_from_slice(&part_two);
    assert_eq!(writes[0].data, expected);
}

#[test]
fn container_sparse_output() {
    let data: Vec<u8> = (0..100u8).collect();
    let payload = zlib_compress(&data);
    let info = b"Runs:\n  - start: 0\n    length: 50\n  - start: 1000\n    length: 50\n".to_vec();
    let mut archive = build_container(&[
        ("obj/data/00000000", payload),
        ("obj/data/00000000/index", le_index(&[0])),
        ("obj/information.yaml", info),
    ]);
    let writes = extract_object(&mut archive, "obj").unwrap();
    let image = render_image(&writes, 1050);
    assert_eq!(&image[0..50], &data[0..50]);
    assert!(image[50..1000].iter().all(|b| *b == 0));
    assert_eq!(&image[1000..1050], &data[50..100]);
}

#[test]
fn missing_object() {
    let info = b"Runs: []\n".to_vec();
    let mut archive = build_container(&[("other/data/00000000", vec![1, 2, 3]), ("obj/information.yaml", info)]);
    let err = extract_object(&mut archive, "obj").unwrap_err();
    assert!(matches!(err, Aff4Error::ObjectNotFound));
}

#[test]
fn missing_index_entry() {
    let payload = zlib_compress(&[1, 2, 3]);
    let mut archive = build_container(&[("obj/data/00000000", payload)]);
    let err = extract_object(&mut archive, "obj").unwrap_err();
    assert!(matches!(err, Aff4Error::NotFound));
}

#[test]
fn missing_metadata_entry() {
    let payload = zlib_compress(&[1, 2, 3]);
    let mut archive = build_container(&[
        ("obj/data/00000000", payload),
        ("obj/data/00000000/index", le_index(&[0])),
    ]);
    let err = extract_object(&mut archive, "obj").unwrap_err();
    assert!(matches!(err, Aff4Error::NotFound));
}

#[test]
fn metadata_longer_than_stream() {
    let payload = zlib_compress(&[9u8; 10]);
    let info = b"Runs:\n  - start: 0\n    length: 20\n".to_vec();
    let mut archive = build_container(&[
        ("obj/data/00000000", payload),
        ("obj/data/00000000/index", le_index(&[0])),
        ("obj/information.yaml", info),
    ]);
    let err = extract_object(&mut archive, "obj").unwrap_err();
    assert!(matches!(err, Aff4Error::TruncatedStream));
}

#[test]
fn corrupt_chunk_in_container() {
    let info = b"Runs:\n  - start: 0\n    length: 1\n".to_vec();
    let mut archive = build_container(&[
        ("obj/data/00000000", vec![0xFF, 0xFE, 0xFD]),
        ("obj/data/00000000/index", le_index(&[0])),
        ("obj/information.yaml", info),
    ]);
    let err = extract_object(&mut archive, "obj").unwrap_err();
    match err {
        Aff4Error::CorruptChunk { segment, chunk } => {
            assert_eq!(segment, "obj/data/00000000");
            assert_eq!(chunk, 0);
        },
        other => panic!("expected CorruptChunk, got {:?}", other),
    }
}

#[test]
fn empty_segment_contributes_nothing() {
    // A segment with an empty index yields zero chunks; the stream
    // comes entirely from the other segment.
    let data: Vec<u8> = vec![5u8; 8];
    let payload = zlib_compress(&data);
    let info = b"Runs:\n  - start: 0\n    length: 8\n".to_vec();
    let mut archive = build_container(&[
        ("obj/data/00000000", Vec::new()),
        ("obj/data/00000000/index", Vec::new()),
        ("obj/data/00000001", payload),
        ("obj/data/00000001/index", le_index(&[0])),
        ("obj/information.yaml", info),
    ]);
    let writes = extract_object(&mut archive, "obj").unwrap();
    assert_eq!(writes.len(), 1);
    assert_eq!(writes[0].data, data);
}
