use linkfield::file_cache::meta::{decoded_or_zero, encoded_or_empty, extension_of_path};
use linkfield::file_cache::{FileCachePath, FileMeta};

fn sample() -> FileMeta {
    FileMeta {
        path: FileCachePath("dir/a.txt".to_string()),
        size: 100,
        modified: Some(1_700_000_000_000_000_000),
        created: None,
        extension: Some("txt".to_string()),
    }
}

#[test]
fn from_stat_reads_extension_off_path() {
    let meta = FileMeta::from_stat("dir/photo.JPG", 7, Some(5), Some(3));
    assert_eq!(meta.path, FileCachePath("dir/photo.JPG".to_string()));
    assert_eq!(meta.size, 7);
    assert_eq!(meta.modified, Some(5));
    assert_eq!(meta.created, Some(3));
    assert_eq!(meta.extension, Some("JPG".to_string()));
}

#[test]
fn from_stat_without_extension() {
    assert_eq!(FileMeta::from_stat("dir.d/README", 0, None, None).extension, None);
    assert_eq!(extension_of_path("a/b/.hidden"), None);
    assert_eq!(extension_of_path(""), None);
}

#[test]
fn serialize_then_deserialize_gives_record_back() {
    let meta = sample();
    let bytes = meta.serialize();
    assert!(!bytes.is_empty());
    assert_eq!(FileMeta::deserialize(&bytes), meta);
}

#[test]
fn round_trip_keeps_absent_fields_and_large_values() {
    let meta = FileMeta {
        path: FileCachePath(String::new()),
        size: u64::MAX,
        modified: None,
        created: Some(u64::MAX),
        extension: None,
    };
    assert_eq!(FileMeta::deserialize(&meta.serialize()), meta);
    let other = FileMeta {
        path: FileCachePath("ünï/cødé.tar.gz".to_string()),
        size: 0,
        modified: Some(0),
        created: Some(1),
        extension: Some(String::new()),
    };
    assert_eq!(FileMeta::deserialize(&other.serialize()), other);
}

#[test]
fn serialize_is_the_compact_encoding_of_the_fields() {
    let meta = FileMeta {
        path: FileCachePath("ab".to_string()),
        size: 5,
        modified: Some(7),
        created: None,
        extension: Some("c".to_string()),
    };
    assert_eq!(meta.serialize(), vec![2, b'a', b'b', 5, 1, 7, 0, 1, 1, b'c']);
}

#[test]
fn bytes_that_do_not_decode_give_the_zero_record() {
    assert_eq!(FileMeta::deserialize(&[]), FileMeta::zero());
    assert_eq!(FileMeta::deserialize(&[200, 1, 2]), FileMeta::zero());
    let zero = FileMeta::zero();
    assert_eq!(zero.path, FileCachePath(String::new()));
    assert_eq!(zero.size, 0);
    assert_eq!(zero.modified, None);
    assert_eq!(zero.created, None);
    assert_eq!(zero.extension, None);
}

#[test]
fn outcome_of_codec_is_mapped() {
    assert_eq!(encoded_or_empty(Ok(vec![1, 2, 3])), vec![1, 2, 3]);
    assert_eq!(decoded_or_zero(Ok(sample())), sample());
}

#[test]
fn same_as_compares_every_field() {
    let meta = sample();
    assert!(meta.same_as(&sample()));
    let mut other = sample();
    other.size = 101;
    assert!(!meta.same_as(&other));
    let mut other = sample();
    other.extension = None;
    assert!(!meta.same_as(&other));
    let mut other = sample();
    other.modified = None;
    assert!(!meta.same_as(&other));
    let mut other = sample();
    other.path = FileCachePath("dir/b.txt".to_string());
    assert!(!meta.same_as(&other));
}

#[test]
fn key_is_the_path() {
    assert_eq!(sample().key_str(), "dir/a.txt");
    assert_eq!(FileCachePath::new("x/y").as_str(), "x/y");
}

#[test]
fn clone_is_equal() {
    assert_eq!(sample().clone(), sample());
}

#[test]
fn round_trip_gives_the_record() {
    assert_eq!(sample().round_trip(), sample());
    assert_eq!(FileMeta::zero().round_trip(), FileMeta::zero());
}

#[test]
fn bytes_that_ask_for_more_than_is_there_give_the_zero_record() {
    let mut bytes = vec![253u8];
    bytes.extend_from_slice(&[255u8; 8]);
    assert_eq!(FileMeta::deserialize(&bytes), FileMeta::zero());
    let mut bytes = vec![253u8];
    bytes.extend_from_slice(&(1u64 << 40).to_le_bytes());
    assert_eq!(FileMeta::deserialize(&bytes), FileMeta::zero());
    let mut bytes = vec![252u8];
    bytes.extend_from_slice(&(1u32 << 20).to_le_bytes());
    assert_eq!(FileMeta::deserialize(&bytes), FileMeta::zero());
    // A path that is whole, and an extension that asks for too much.
    let mut bytes = vec![1u8, b'a', 5, 0, 0, 1, 253];
    bytes.extend_from_slice(&u64::MAX.to_le_bytes());
    assert_eq!(FileMeta::deserialize(&bytes), FileMeta::zero());
    assert_eq!(FileMeta::deserialize(&[1, b'a', 5, 0, 0, 1, 200, b'x']), FileMeta::zero());
    assert_eq!(FileMeta::deserialize(&[254, 0, 0]), FileMeta::zero());
    assert_eq!(FileMeta::deserialize(&[1, b'a', 5, 2, 0, 0]), FileMeta::zero());
}

#[test]
fn records_of_any_length_come_back() {
    for length in [0usize, 1, 250, 251, 65_535, 65_536, 3_000_000] {
        let record = FileMeta {
            path: FileCachePath("x".repeat(length)),
            size: 4_294_967_296,
            modified: Some(251),
            created: Some(u64::MAX),
            extension: Some("e".repeat(length / 7)),
        };
        assert_eq!(record.round_trip(), record);
        assert_eq!(FileMeta::deserialize(&record.serialize()), record);
    }
}

#[test]
fn bytes_after_a_record_are_passed_over() {
    let mut bytes = sample().serialize();
    bytes.extend_from_slice(&[9, 9, 9]);
    assert_eq!(FileMeta::deserialize(&bytes), sample());
}
