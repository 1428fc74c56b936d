use buildscale::archive::{
    decode_files_archive, encode_files_archive, load_files_archive, CorruptArchive,
    BUILDSCALE_FILES_ARCHIVE,
};
use buildscale::hashes::{BuildscaleFileHashed, BuildscaleFileHashes};

fn set_of(records: &[(&str, i64)]) -> BuildscaleFileHashes {
    let mut h = BuildscaleFileHashes::new();
    for (p, id) in records {
        h.insert(BuildscaleFileHashed::new(p.to_string(), *id));
    }
    h
}

fn same_records(a: &BuildscaleFileHashes, b: &BuildscaleFileHashes) -> bool {
    if a.len() != b.len() {
        return false;
    }
    a.records().iter().all(|r| match b.get(&r.0) {
        Some(o) => o.0 == r.0 && o.1 == r.1,
        None => false,
    })
}

#[test]
fn round_trip_two_records() {
    let h = set_of(&[("a.ts", 100), ("b.ts", 200)]);
    let bytes = encode_files_archive(&h);
    let back = decode_files_archive(&bytes).unwrap();
    assert_eq!(back.len(), 2);
    assert_eq!(back.get("a.ts").unwrap().1, 100);
    assert_eq!(back.get("b.ts").unwrap().1, 200);
    assert!(same_records(&h, &back));
    assert_eq!(back, h);
}

#[test]
fn round_trip_empty_set() {
    let h = BuildscaleFileHashes::new();
    let bytes = encode_files_archive(&h);
    assert_eq!(bytes, vec![66, 83, 70, 72, 0, 0, 0, 0, 0, 0, 0, 0]);
    let back = decode_files_archive(&bytes).unwrap();
    assert_eq!(back.len(), 0);
}

#[test]
fn exact_bytes_of_one_record() {
    let h = set_of(&[("a", -2)]);
    let bytes = encode_files_archive(&h);
    let expected: Vec<u8> = vec![
        66, 83, 70, 72, 1, 0, 0, 0, 0, 0, 0, 0, 1, 0, 0, 0, 0, 0, 0, 0, 97, 254, 255, 255, 255,
        255, 255, 255, 255,
    ];
    assert_eq!(bytes, expected);
}

#[test]
fn round_trip_extreme_identities_and_unicode_paths() {
    let h = set_of(&[("dir/é.ts", i64::MIN), ("日本.rs", i64::MAX), ("", 0)]);
    let back = decode_files_archive(&encode_files_archive(&h)).unwrap();
    assert!(same_records(&h, &back));
    assert_eq!(back.get("dir/é.ts").unwrap().1, i64::MIN);
}

#[test]
fn every_truncation_is_rejected() {
    let h = set_of(&[("a.ts", 100), ("b.ts", 200), ("c.ts", 300)]);
    let bytes = encode_files_archive(&h);
    for k in 0..bytes.len() {
        assert_eq!(decode_files_archive(&bytes[..k]).err(), Some(CorruptArchive), "prefix {}", k);
    }
}

#[test]
fn trailing_byte_is_rejected() {
    let mut bytes = encode_files_archive(&set_of(&[("a.ts", 1)]));
    bytes.push(0);
    assert!(decode_files_archive(&bytes).is_err());
}

#[test]
fn foreign_magic_is_rejected() {
    let mut bytes = encode_files_archive(&set_of(&[("a.ts", 1)]));
    bytes[0] = b'X';
    assert!(decode_files_archive(&bytes).is_err());
}

#[test]
fn random_bytes_are_rejected() {
    let mut x: u64 = 0x9e3779b97f4a7c15;
    for len in 0..64usize {
        let mut b = Vec::new();
        for _ in 0..len {
            x ^= x << 13;
            x ^= x >> 7;
            x ^= x << 17;
            b.push(x as u8);
        }
        assert!(decode_files_archive(&b).is_err());
    }
}

#[test]
fn invalid_utf8_path_is_rejected() {
    let bytes: Vec<u8> = vec![
        66, 83, 70, 72, 1, 0, 0, 0, 0, 0, 0, 0, 1, 0, 0, 0, 0, 0, 0, 0, 0xff, 1, 0, 0, 0, 0, 0,
        0, 0,
    ];
    assert!(decode_files_archive(&bytes).is_err());
}

#[test]
fn repeated_path_is_rejected() {
    let rec: Vec<u8> = vec![1, 0, 0, 0, 0, 0, 0, 0, 97, 5, 0, 0, 0, 0, 0, 0, 0];
    let mut bytes: Vec<u8> = vec![66, 83, 70, 72, 2, 0, 0, 0, 0, 0, 0, 0];
    bytes.extend_from_slice(&rec);
    bytes.extend_from_slice(&rec);
    assert!(decode_files_archive(&bytes).is_err());
}

#[test]
fn count_larger_than_records_is_rejected() {
    let mut bytes = encode_files_archive(&set_of(&[("a.ts", 1)]));
    bytes[4] = 2;
    assert!(decode_files_archive(&bytes).is_err());
}

#[test]
fn oversized_path_length_is_rejected() {
    let bytes: Vec<u8> = vec![
        66, 83, 70, 72, 1, 0, 0, 0, 0, 0, 0, 0, 255, 255, 255, 255, 255, 255, 255, 255, 97, 1, 0,
        0, 0, 0, 0, 0, 0,
    ];
    assert!(decode_files_archive(&bytes).is_err());
}

#[test]
fn load_without_archive_is_none_twice() {
    assert!(load_files_archive(None).is_none());
    assert!(load_files_archive(None).is_none());
}

#[test]
fn load_of_corrupt_archive_is_none() {
    assert!(load_files_archive(Some(vec![1, 2, 3])).is_none());
}

#[test]
fn load_of_archive_gives_records() {
    let bytes = encode_files_archive(&set_of(&[("a.ts", 100)]));
    let h = load_files_archive(Some(bytes)).unwrap();
    assert_eq!(h.get("a.ts").unwrap().1, 100);
}

#[test]
fn archive_file_name() {
    assert_eq!(BUILDSCALE_FILES_ARCHIVE, "buildscale_files.buildscalew.");
}
