use krevetka::manifest::{read_map_entries, MapEntry, MapError, RecordField};

fn digest(seed: u8) -> Vec<u8> {
    (0..20u8).map(|i| i.wrapping_mul(7).wrapping_add(seed)).collect()
}

fn encode(entries: &[(Vec<u8>, Vec<u8>)]) -> Vec<u8> {
    let mut out = (entries.len() as u32).to_be_bytes().to_vec();
    for (path, hash) in entries {
        out.extend_from_slice(&(path.len() as u16).to_be_bytes());
        out.extend_from_slice(path);
        out.extend_from_slice(hash);
    }
    out
}

fn entry(path: &str, seed: u8) -> (Vec<u8>, Vec<u8>) {
    (path.as_bytes().to_vec(), digest(seed))
}

#[test]
fn round_trip_reproduces_entries_in_order() {
    let input = vec![
        entry("a/b.txt", 1),
        entry("textures/stone.png", 2),
        entry("a/b.txt", 3),
        entry("ресурсы/файл.txt", 4),
        entry("z", 5),
    ];
    let decoded = read_map_entries(&encode(&input)).unwrap();
    assert_eq!(decoded.len(), input.len());
    for (e, (path, hash)) in decoded.iter().zip(input.iter()) {
        assert_eq!(e.path.as_bytes(), path.as_slice());
        assert_eq!(&e.hash, hash);
    }
}

#[test]
fn non_ascii_path_decodes_to_its_characters() {
    let decoded = read_map_entries(&encode(&[entry("ресурсы/файл.txt", 9)])).unwrap();
    assert_eq!(decoded[0].path, "ресурсы/файл.txt");
    assert_eq!(decoded[0].path.chars().count(), 16);
}

#[test]
fn path_length_zero_is_rejected() {
    let mut bytes = vec![0, 0, 0, 1, 0, 0];
    bytes.extend_from_slice(&digest(1));
    assert_eq!(
        read_map_entries(&bytes),
        Err(MapError::InvalidPathLength { record: 1, length: 0 })
    );
}

#[test]
fn path_length_1025_is_rejected() {
    let path = vec![b'a'; 1025];
    let bytes = encode(&[(path, digest(1))]);
    assert_eq!(
        read_map_entries(&bytes),
        Err(MapError::InvalidPathLength { record: 1, length: 1025 })
    );
}

#[test]
fn path_length_one_decodes() {
    let decoded = read_map_entries(&encode(&[entry("x", 3)])).unwrap();
    assert_eq!(decoded, vec![MapEntry { path: "x".to_string(), hash: digest(3) }]);
}

#[test]
fn path_length_1024_decodes() {
    let path = "p".repeat(1024);
    let decoded = read_map_entries(&encode(&[entry(&path, 3)])).unwrap();
    assert_eq!(decoded[0].path, path);
    assert_eq!(decoded[0].hash, digest(3));
}

#[test]
fn count_beyond_file_size_is_implausible() {
    let mut bytes = encode(&[entry("a.txt", 1)]);
    bytes[0..4].copy_from_slice(&1000u32.to_be_bytes());
    let size = bytes.len();
    assert_eq!(
        read_map_entries(&bytes),
        Err(MapError::ImplausibleCount { count: 1000, size })
    );
}

#[test]
fn huge_count_is_implausible_without_reading_records() {
    let bytes = vec![0xff, 0xff, 0xff, 0xff, 0, 1, b'a'];
    assert_eq!(
        read_map_entries(&bytes),
        Err(MapError::ImplausibleCount { count: u32::MAX, size: 7 })
    );
}

#[test]
fn fewer_than_four_bytes_is_too_small() {
    assert_eq!(read_map_entries(&[]), Err(MapError::TooSmall));
    assert_eq!(read_map_entries(&[0, 0, 1]), Err(MapError::TooSmall));
}

#[test]
fn zero_count_is_rejected() {
    assert_eq!(read_map_entries(&[0, 0, 0, 0]), Err(MapError::ZeroEntries));
    assert_eq!(read_map_entries(&[0, 0, 0, 0, 1, 2, 3]), Err(MapError::ZeroEntries));
}

#[test]
fn truncation_in_length_field_names_record_and_offset() {
    let mut bytes = encode(&[entry("seventeen-bytes-x", 1)]);
    bytes[3] = 2;
    bytes.push(0);
    assert_eq!(bytes.len(), 44);
    assert_eq!(
        read_map_entries(&bytes),
        Err(MapError::TruncatedAtOffset { field: RecordField::PathLength, record: 2, offset: 43 })
    );
}

#[test]
fn truncation_in_path_is_reported() {
    let mut bytes = vec![0, 0, 0, 1, 0, 30];
    bytes.extend_from_slice(&[b'a'; 20]);
    assert_eq!(
        read_map_entries(&bytes),
        Err(MapError::TruncatedAtOffset { field: RecordField::Path, record: 1, offset: 6 })
    );
}

#[test]
fn truncation_in_digest_is_reported() {
    let mut bytes = encode(&[entry("abc", 1)]);
    bytes.truncate(bytes.len() - 1);
    assert_eq!(
        read_map_entries(&bytes),
        Err(MapError::TruncatedAtOffset { field: RecordField::Digest, record: 1, offset: 9 })
    );
}

#[test]
fn invalid_utf8_path_is_reported_with_its_record() {
    let mut bytes = encode(&[entry("ok.txt", 1), (vec![b'a', 0xff, b'b'], digest(2))]);
    bytes.extend_from_slice(&[0; 4]);
    assert_eq!(read_map_entries(&bytes), Err(MapError::InvalidUtf8 { record: 2 }));
}

#[test]
fn first_bad_record_stops_the_decode() {
    let mut bytes = encode(&[entry("a", 1), entry("b", 2), entry("c", 3)]);
    bytes[4 + 23] = 0;
    bytes[4 + 23 + 1] = 0;
    assert_eq!(
        read_map_entries(&bytes),
        Err(MapError::InvalidPathLength { record: 2, length: 0 })
    );
}

#[test]
fn bytes_after_the_last_record_are_ignored() {
    let mut bytes = encode(&[entry("a/b", 1)]);
    bytes.extend_from_slice(b"trailing");
    let decoded = read_map_entries(&bytes).unwrap();
    assert_eq!(decoded.len(), 1);
    assert_eq!(decoded[0].path, "a/b");
}

#[test]
fn read_from_returns_the_next_position() {
    let bytes = encode(&[entry("ab", 1), entry("cde", 2)]);
    let (first, next) = MapEntry::read_from(&bytes, 4, 1).unwrap();
    assert_eq!(first.path, "ab");
    assert_eq!(next, 4 + 2 + 2 + 20);
    let (second, end) = MapEntry::read_from(&bytes, next, 2).unwrap();
    assert_eq!(second.path, "cde");
    assert_eq!(second.hash, digest(2));
    assert_eq!(end, bytes.len());
    assert_eq!(
        MapEntry::read_from(&bytes, end, 3),
        Err(MapError::TruncatedAtOffset { field: RecordField::PathLength, record: 3, offset: end })
    );
}

#[test]
fn read_from_past_the_end_is_truncated() {
    let bytes = encode(&[entry("ab", 1)]);
    assert_eq!(
        MapEntry::read_from(&bytes, 100, 1),
        Err(MapError::TruncatedAtOffset { field: RecordField::PathLength, record: 1, offset: 100 })
    );
}
