use std::collections::BTreeMap;
use std::io::Write;

use flate2::write::ZlibEncoder;
use flate2::Compression;
use serde_pickle::{HashableValue, SerOptions, Value};
use warpalib::{
    extract_archive, filter_content, Content, ContentMap, GlobPattern, PickleValue, Record, RenpyArchive,
    RpaError, RpaVersion, DEFAULT_KEY,
};

fn no_files(_path: &str) -> std::io::Result<Vec<u8>> {
    Err(std::io::Error::new(std::io::ErrorKind::NotFound, "no files here"))
}

fn flushed(archive: RenpyArchive) -> Vec<u8> {
    let mut out = Vec::new();
    archive.flush(&no_files, &mut out).expect("flush");
    out
}

fn bytes_of(archive: &RenpyArchive, path: &str) -> Vec<u8> {
    let mut out = Vec::new();
    archive.copy_file(path, &no_files, &mut out).expect("copy");
    out
}

fn compressed_index(entries: Vec<(&str, Value)>) -> Vec<u8> {
    let mut dict = BTreeMap::new();
    for (k, v) in entries {
        dict.insert(HashableValue::String(k.to_string()), v);
    }
    let pickled = serde_pickle::value_to_vec(&Value::Dict(dict), SerOptions::new().proto_v2()).unwrap();
    let mut encoder = ZlibEncoder::new(Vec::new(), Compression::default());
    encoder.write_all(&pickled).unwrap();
    encoder.finish().unwrap()
}

fn record_value(items: Vec<Value>) -> Value {
    Value::List(vec![Value::List(items)])
}

#[test]
fn identify_versions() {
    assert_eq!(RpaVersion::identify("", "RPA-3.2"), Some(RpaVersion::V3_2));
    assert_eq!(RpaVersion::identify("", "RPA-3.0"), Some(RpaVersion::V3_0));
    assert_eq!(RpaVersion::identify("", "RPA-2.0"), Some(RpaVersion::V2_0));
    assert_eq!(RpaVersion::identify("a.rpi", "garbage"), Some(RpaVersion::V1_0));
    assert_eq!(RpaVersion::identify("a.rpa", "garbage"), None);
    assert_eq!(RpaVersion::identify("a.rpi", "RPA-3.0"), Some(RpaVersion::V3_0));
}

#[test]
fn header_lengths_and_write_support() {
    assert_eq!(RpaVersion::V3_0.header_length().unwrap(), 34);
    assert_eq!(RpaVersion::V2_0.header_length().unwrap(), 25);
    assert!(matches!(RpaVersion::V3_2.header_length(), Err(RpaError::WritingNotSupported(RpaVersion::V3_2))));
    assert!(matches!(RpaVersion::V1_0.header_length(), Err(RpaError::WritingNotSupported(RpaVersion::V1_0))));
    assert!(RpaVersion::V3_0.write_support());
    assert!(RpaVersion::V2_0.write_support());
    assert!(!RpaVersion::V3_2.write_support());
    assert!(!RpaVersion::V1_0.write_support());
}

#[test]
fn header_text_matches_header_length() {
    for (offset, key) in [(0u64, 0u64), (u64::MAX, 0xffff_ffff), (0x22, 0xff)] {
        let h3 = RpaVersion::V3_0.format_header(offset, key).unwrap();
        assert_eq!(h3.len(), 34);
        let h2 = RpaVersion::V2_0.format_header(offset, key).unwrap();
        assert_eq!(h2.len(), 25);
    }
    let h = RpaVersion::V3_0.format_header(0x22, 0xff).unwrap();
    assert_eq!(h, b"RPA-3.0 0000000000000022 000000ff\n".to_vec());
    let h = RpaVersion::V2_0.format_header(u64::MAX, 7).unwrap();
    assert_eq!(h, b"RPA-2.0 ffffffffffffffff\n".to_vec());
    assert!(matches!(RpaVersion::V3_0.format_header(0, u64::MAX), Err(RpaError::KeyTooLarge(u64::MAX))));
    assert_eq!(RpaVersion::V2_0.format_header(0, u64::MAX).unwrap().len(), 25);
    assert!(RpaVersion::V3_2.format_header(0, 0).is_err());
}

#[test]
fn record_obfuscation_round_trips() {
    let key = Some(0xDEADBEEFu64);
    let r = Record::new(1234, 99, None, key);
    assert_eq!(r.start, 1234 ^ 0xDEADBEEF);
    assert_eq!(r.length, 99 ^ 0xDEADBEEF);
    let back = Record::new(r.start, r.length, None, key);
    assert_eq!((back.start, back.length), (1234, 99));
    let other = Record::new(r.start, r.length, None, Some(0xDEADBEEE));
    assert_ne!((other.start, other.length), (1234, 99));
    let plain = Record::new(5, 6, None, None);
    assert_eq!((plain.start, plain.length), (5, 6));
}

#[test]
fn record_values_convert_both_ways() {
    let value = PickleValue::List(vec![PickleValue::List(vec![
        PickleValue::Int(3),
        PickleValue::Int(8),
        PickleValue::Bytes(vec![1, 2]),
    ])]);
    let r = Record::from_value(value, None).unwrap();
    assert_eq!((r.start, r.length, r.prefix.clone()), (3, 8, Some(vec![1, 2])));
    match r.into_value() {
        PickleValue::List(outer) => match &outer[0] {
            PickleValue::List(inner) => {
                assert_eq!(inner.len(), 3);
                assert!(matches!(inner[0], PickleValue::Int(3)));
                assert!(matches!(inner[1], PickleValue::Int(8)));
            }
            _ => panic!("inner list expected"),
        },
        _ => panic!("outer list expected"),
    }
    let negative = PickleValue::List(vec![PickleValue::List(vec![PickleValue::Int(-1), PickleValue::Int(0)])]);
    let r = Record::from_value(negative, None).unwrap();
    assert_eq!(r.start, u64::MAX);
}

#[test]
fn record_values_of_other_shapes_are_refused() {
    let bad = vec![
        PickleValue::Int(3),
        PickleValue::List(vec![]),
        PickleValue::List(vec![PickleValue::Int(3)]),
        PickleValue::List(vec![PickleValue::List(vec![PickleValue::Int(1)])]),
        PickleValue::List(vec![
            PickleValue::List(vec![PickleValue::Int(1), PickleValue::Int(2)]),
            PickleValue::List(vec![PickleValue::Int(1), PickleValue::Int(2)]),
        ]),
        PickleValue::List(vec![PickleValue::List(vec![PickleValue::Int(1), PickleValue::Other])]),
        PickleValue::List(vec![PickleValue::List(vec![
            PickleValue::Int(1),
            PickleValue::Int(1),
            PickleValue::Bytes(vec![1, 2]),
        ])]),
    ];
    for v in bad {
        assert!(matches!(Record::from_value(v, None), Err(RpaError::FormatRecord)));
    }
}

#[test]
fn copy_section_writes_prefix_then_range() {
    let reader: Vec<u8> = (0u8..20).collect();
    let r = Record { start: 4, length: 5, prefix: Some(vec![0xaa, 0xbb]) };
    let mut out = vec![9u8];
    let n = r.copy_section(&reader, &mut out);
    assert_eq!(n, 5);
    assert_eq!(out, vec![9, 0xaa, 0xbb, 4, 5, 6]);
    let past_end = Record { start: 18, length: 10, prefix: None };
    let mut out = Vec::new();
    assert_eq!(past_end.copy_section(&reader, &mut out), 2);
    assert_eq!(out, vec![18, 19]);
}

#[test]
fn content_map_insert_rename_remove() {
    let mut map = ContentMap::new();
    assert!(map.insert_raw("file1.txt", vec![1, 2, 3]).is_none());
    assert!(map.insert_raw("file2.txt", vec![4, 5, 6]).is_none());
    let old = map.rename_key("file1.txt", "file2.txt").unwrap();
    assert_eq!(old, Some(Content::Raw(vec![4, 5, 6])));
    assert_eq!(map.get("file2.txt"), Some(&Content::Raw(vec![1, 2, 3])));
    assert_eq!(map.get("file1.txt"), None);
    assert!(matches!(map.rename_key("missing", "x"), Err(RpaError::NotFound(p)) if p == "missing"));
    assert_eq!(map.insert_file("a.txt"), None);
    assert_eq!(map.insert_file_mapped("a.txt", "b.txt"), Some(Content::File(String::from("a.txt"))));
    assert_eq!(map.len(), 2);
    assert_eq!(map.remove("a.txt"), Some(Content::File(String::from("b.txt"))));
    assert_eq!(map.keys(), vec![String::from("file2.txt")]);
    assert!(map.contains_key("file2.txt"));
    assert!(!map.contains_key("a.txt"));
}

#[test]
fn glob_selects_matching_paths() {
    let mut archive = RenpyArchive::new();
    archive.content.insert_raw("silk.png", vec![]);
    archive.content.insert_raw("cherry.png", vec![]);
    archive.content.insert_raw("yucca.jpg", vec![]);
    let matched = archive.content.glob("*.png").unwrap();
    let paths: Vec<&str> = matched.iter().map(|(p, _)| p.as_str()).collect();
    assert_eq!(paths, vec!["silk.png", "cherry.png"]);
    assert_eq!(matched[0].1, &Content::Raw(vec![]));
    assert!(archive.content.glob("[").is_err());
    let owned = archive.content.into_glob("*.jpg").unwrap();
    assert_eq!(owned.len(), 1);
    assert_eq!(owned[0].0, "yucca.jpg");
}

#[test]
fn filter_content_by_names_and_pattern() {
    let make = || {
        let mut map = ContentMap::new();
        map.insert_raw("a.png", vec![1]);
        map.insert_raw("b.txt", vec![2]);
        map.insert_raw("c.txt", vec![3]);
        map
    };
    let names = vec![String::from("b.txt")];
    let pattern = GlobPattern::new("*.png").unwrap();
    let all = filter_content(make(), &[], None);
    assert_eq!(all.len(), 3);
    let named = filter_content(make(), &names, None);
    assert_eq!(named.iter().map(|e| e.0.as_str()).collect::<Vec<_>>(), vec!["b.txt"]);
    let matched = filter_content(make(), &[], Some(&pattern));
    assert_eq!(matched.iter().map(|e| e.0.as_str()).collect::<Vec<_>>(), vec!["a.png"]);
    let both = filter_content(make(), &names, Some(&pattern));
    assert_eq!(both.iter().map(|e| e.0.as_str()).collect::<Vec<_>>(), vec!["a.png", "b.txt"]);
}

#[test]
fn extract_archive_materializes_contents() {
    let reader: Vec<u8> = (0u8..10).collect();
    let contents = vec![
        (String::from("r"), Content::Record(Record { start: 2, length: 3, prefix: None })),
        (String::from("m"), Content::Raw(vec![7, 7])),
    ];
    let out = extract_archive(&reader, contents, &no_files).unwrap();
    assert_eq!(out, vec![(String::from("r"), vec![2, 3, 4]), (String::from("m"), vec![7, 7])]);
    let with_file = vec![(String::from("f"), Content::File(String::from("nowhere")))];
    assert!(matches!(extract_archive(&reader, with_file, &no_files), Err(RpaError::Io(_))));
}

#[test]
fn add_then_list() {
    let mut archive = RenpyArchive::new();
    assert_eq!(archive.key, Some(DEFAULT_KEY));
    archive.content.insert_raw("x.bin", vec![1, 2, 3]);
    let bytes = flushed(archive);
    let reopened = RenpyArchive::read(bytes).unwrap();
    assert_eq!(reopened.version, RpaVersion::V3_0);
    assert_eq!(reopened.key, Some(DEFAULT_KEY));
    assert_eq!(reopened.content.keys(), vec![String::from("x.bin")]);
    assert_eq!(bytes_of(&reopened, "x.bin"), vec![1, 2, 3]);
}

#[test]
fn round_trip_both_writable_versions() {
    for (version, key) in [
        (RpaVersion::V3_0, Some(0x1234_5678u64)),
        (RpaVersion::V3_0, None),
        (RpaVersion::V2_0, None),
        (RpaVersion::V2_0, Some(DEFAULT_KEY)),
    ] {
        let mut archive = RenpyArchive::new();
        archive.version = version;
        archive.key = key;
        archive.content.insert_raw("a/one.txt", b"first".to_vec());
        archive.content.insert_raw("two.bin", vec![]);
        archive.content.insert_raw("three", (0u8..=255).collect());
        let bytes = flushed(archive);
        let reopened = RenpyArchive::read(bytes.clone()).unwrap();
        assert_eq!(reopened.version, version);
        let read_key = if version == RpaVersion::V3_0 { Some(key.unwrap_or(0)) } else { None };
        assert_eq!(reopened.key, read_key);
        assert_eq!(reopened.content.len(), 3);
        assert_eq!(bytes_of(&reopened, "a/one.txt"), b"first".to_vec());
        assert_eq!(bytes_of(&reopened, "two.bin"), Vec::<u8>::new());
        assert_eq!(bytes_of(&reopened, "three"), (0u8..=255).collect::<Vec<u8>>());
        let again = flushed(reopened);
        let third = RenpyArchive::read(again).unwrap();
        assert_eq!(bytes_of(&third, "three"), (0u8..=255).collect::<Vec<u8>>());
    }
}

#[test]
fn flush_refuses_read_only_versions_before_writing() {
    for version in [RpaVersion::V3_2, RpaVersion::V1_0] {
        let mut archive = RenpyArchive::new();
        archive.version = version;
        archive.content.insert_raw("x", vec![1]);
        let mut out = vec![5u8, 6];
        let result = archive.flush(&no_files, &mut out);
        assert!(matches!(result, Err(RpaError::WritingNotSupported(v)) if v == version));
        assert_eq!(out, vec![5, 6]);
    }
}

#[test]
fn flush_passes_on_a_failed_file_read() {
    let mut archive = RenpyArchive::new();
    archive.content.insert_file("does/not/exist");
    let mut out = Vec::new();
    assert!(matches!(archive.flush(&no_files, &mut out), Err(RpaError::Io(_))));
}

#[test]
fn prefix_is_baked_into_flushed_payload() {
    let key = 0x55u64;
    let mut body = b"RPA-3.0 ".to_vec();
    body.resize(34, b' ');
    body.extend_from_slice(b"tail");
    let index = compressed_index(vec![(
        "p.txt",
        record_value(vec![
            Value::I64((34 ^ key) as i64),
            Value::I64((6 ^ key) as i64),
            Value::Bytes(b"he".to_vec()),
        ]),
    )]);
    let offset = body.len();
    let mut data = format!("RPA-3.0 {:016x} {:08x}\n", offset, key).into_bytes();
    data.extend_from_slice(&body[34..]);
    data.extend_from_slice(&index);
    let archive = RenpyArchive::read(data).unwrap();
    assert_eq!(bytes_of(&archive, "p.txt"), b"hetail".to_vec());
    let out = flushed(archive);
    assert_eq!(&out[34..40], b"hetail");
    let reopened = RenpyArchive::read(out).unwrap();
    match reopened.content.get("p.txt") {
        Some(Content::Record(r)) => {
            assert_eq!(r.prefix, None);
            assert_eq!(r.start, 34);
            assert_eq!(r.length, 6);
        }
        other => panic!("record expected, got {:?}", other),
    }
}

#[test]
fn opens_a_hand_made_v3_archive() {
    let mut data = b"RPA-3.0 0000000000000022 000000ff\n".to_vec();
    assert_eq!(data.len(), 0x22);
    data.extend_from_slice(&compressed_index(vec![(
        "a.txt",
        record_value(vec![Value::I64(0), Value::I64(10)]),
    )]));
    let total = data.len() as u64;
    let archive = RenpyArchive::read(data.clone()).unwrap();
    assert_eq!(archive.offset, 0x22);
    assert_eq!(archive.key, Some(0xff));
    match archive.content.get("a.txt") {
        Some(Content::Record(r)) => {
            assert_eq!(r.start, 0 ^ 0xff);
            assert_eq!(r.length, 10 ^ 0xff);
        }
        other => panic!("record expected, got {:?}", other),
    }
    let copied = bytes_of(&archive, "a.txt");
    assert_eq!(copied.len() as u64, total.saturating_sub(0xff).min(10 ^ 0xff));

    let mut data = b"RPA-3.0 0000000000000022 000000ff\n".to_vec();
    data.extend_from_slice(&compressed_index(vec![(
        "a.txt",
        record_value(vec![Value::I64(0x22 ^ 0xff), Value::I64(10 ^ 0xff)]),
    )]));
    let archive = RenpyArchive::read(data.clone()).unwrap();
    assert_eq!(bytes_of(&archive, "a.txt"), data[0x22..0x2c].to_vec());
}

#[test]
fn v32_key_skips_a_field_and_folds_the_rest() {
    let index = compressed_index(vec![("k", record_value(vec![Value::I64(0), Value::I64(0)]))]);
    let mut data = format!("RPA-3.2 {:016x} 00000000 0000000f 000000f0\n", 46).into_bytes();
    assert_eq!(data.len(), 52);
    let offset = data.len();
    data = format!("RPA-3.2 {:016x} 00000000 0000000f 000000f0\n", offset).into_bytes();
    data.extend_from_slice(&index);
    let archive = RenpyArchive::read(data).unwrap();
    assert_eq!(archive.version, RpaVersion::V3_2);
    assert_eq!(archive.key, Some(0xff));
}

#[test]
fn open_errors() {
    assert!(matches!(RenpyArchive::read(b"NOTRPA".to_vec()), Err(RpaError::IdentifyVersion)));
    assert!(RenpyArchive::read_named(b"NOTRPA\n".to_vec(), "old.rpi").is_err());
    assert!(matches!(RenpyArchive::read(b"RPA-3.0".to_vec()), Err(RpaError::ParseOffset)));
    assert!(matches!(RenpyArchive::read(b"RPA-3.0 zz 00\n".to_vec()), Err(RpaError::ParseOffset)));
    assert!(matches!(RenpyArchive::read(b"RPA-3.0 10 xyz\n".to_vec()), Err(RpaError::ParseKey)));
    assert!(matches!(RenpyArchive::read(b"RPA-2.0 10\n123456789".to_vec()), Err(RpaError::DeserializeRecord)));

    let mut encoder = ZlibEncoder::new(Vec::new(), Compression::default());
    encoder.write_all(b"not a pickle").unwrap();
    let mut data = b"RPA-2.0 000000000000000b\n".to_vec();
    let offset = data.len();
    data = format!("RPA-2.0 {:016x}\n", offset).into_bytes();
    data.extend_from_slice(&encoder.finish().unwrap());
    assert!(matches!(RenpyArchive::read(data), Err(RpaError::DeserializeRecord)));

    let mut data = format!("RPA-2.0 {:016x}\n", 25).into_bytes();
    data.extend_from_slice(&compressed_index(vec![("bad", Value::I64(3))]));
    assert!(matches!(RenpyArchive::read(data), Err(RpaError::FormatRecord)));
}

#[test]
fn copy_file_of_missing_path_is_not_found() {
    let archive = RenpyArchive::new();
    let mut out = Vec::new();
    let result = archive.copy_file("nope", &no_files, &mut out);
    assert!(matches!(result, Err(RpaError::NotFound(p)) if p == "nope"));
    assert!(out.is_empty());
}

#[test]
fn retain_glob_keeps_by_match() {
    let make = || {
        let mut map = ContentMap::new();
        map.insert_raw("a.png", vec![1]);
        map.insert_raw("b.txt", vec![2]);
        map.insert_raw("c.png", vec![3]);
        map
    };
    let pattern = GlobPattern::new("*.png").unwrap();
    assert_eq!(make().retain_glob(&pattern, true).keys(), vec![String::from("a.png"), String::from("c.png")]);
    assert_eq!(make().retain_glob(&pattern, false).keys(), vec![String::from("b.txt")]);
}

#[test]
fn flush_refuses_a_key_too_large_for_the_header() {
    let mut archive = RenpyArchive::new();
    archive.key = Some(u64::MAX);
    archive.content.insert_raw("x", vec![1, 2, 3]);
    let mut out = vec![9u8];
    assert!(matches!(archive.flush(&no_files, &mut out), Err(RpaError::KeyTooLarge(u64::MAX))));
    assert_eq!(out, vec![9]);
}

#[test]
fn plain_offsets_in_a_v2_index() {
    let mut archive = RenpyArchive::new();
    archive.version = RpaVersion::V2_0;
    archive.content.insert_raw("a", vec![5, 6]);
    let bytes = flushed(archive);
    let reopened = RenpyArchive::read(bytes).unwrap();
    match reopened.content.get("a") {
        Some(Content::Record(r)) => assert_eq!((r.start, r.length), (25, 2)),
        other => panic!("record expected, got {:?}", other),
    }
}

#[test]
fn file_entries_are_read_when_written() {
    let reads = |path: &str| -> std::io::Result<Vec<u8>> {
        if path == "disk.txt" {
            Ok(b"on disk".to_vec())
        } else {
            Err(std::io::Error::new(std::io::ErrorKind::NotFound, "missing"))
        }
    };
    let mut archive = RenpyArchive::new();
    archive.content.insert_file_mapped("in/archive.txt", "disk.txt");
    let mut out = Vec::new();
    archive.flush(&reads, &mut out).unwrap();
    let reopened = RenpyArchive::read(out).unwrap();
    let mut copied = Vec::new();
    reopened.copy_file("in/archive.txt", &no_files, &mut copied).unwrap();
    assert_eq!(copied, b"on disk".to_vec());
}
