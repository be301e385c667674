//! Tests of the record codec and of the engine's configuration helpers.

use quick_kv::codec::{decode_entry, encode_entry, DecodeOutcome, Entry};
use quick_kv::db::Database;
use quick_kv::expiry::effective_expiry;
use quick_kv::{
    validate_database_file_path, ClientConfig, DatabaseConfiguration, LogLevel, QuickKVConfig,
    RunTime, RuntTimeType,
};

#[test]
fn test_codec_round_trip_without_expiry() {
    let e = Entry::new("alpha".to_string(), vec![1u8, 2, 3], None);
    let bytes = encode_entry(&e);

    match decode_entry(&bytes, 0) {
        DecodeOutcome::Item(d, next) => {
            assert_eq!(d.key, "alpha");
            assert_eq!(d.data, vec![1u8, 2, 3]);
            assert_eq!(d.expires_at, None);
            assert_eq!(next, bytes.len());
        }
        _ => panic!("expected one decoded record"),
    }
}

#[test]
fn test_codec_round_trip_with_expiry() {
    let e = Entry::new("β-key".to_string(), b"payload".to_vec(), Some(123_456_789));
    let bytes = encode_entry(&e);

    match decode_entry(&bytes, 0) {
        DecodeOutcome::Item(d, next) => {
            assert_eq!(d.key, "β-key");
            assert_eq!(d.data, b"payload".to_vec());
            assert_eq!(d.expires_at, Some(123_456_789));
            assert_eq!(next, bytes.len());
        }
        _ => panic!("expected one decoded record"),
    }
}

#[test]
fn test_codec_concatenated_records() {
    let e1 = Entry::new("a".to_string(), b"1".to_vec(), None);
    let e2 = Entry::new("b".to_string(), b"2".to_vec(), Some(7));
    let mut bytes = encode_entry(&e1);
    bytes.extend_from_slice(&encode_entry(&e2));

    let next = match decode_entry(&bytes, 0) {
        DecodeOutcome::Item(d, next) => {
            assert_eq!(d.key, "a");
            next
        }
        _ => panic!("expected the first record"),
    };
    let end = match decode_entry(&bytes, next) {
        DecodeOutcome::Item(d, next2) => {
            assert_eq!(d.key, "b");
            assert_eq!(d.expires_at, Some(7));
            next2
        }
        _ => panic!("expected the second record"),
    };
    assert!(matches!(decode_entry(&bytes, end), DecodeOutcome::Finished));
}

#[test]
fn test_codec_truncated_record_is_malformed() {
    let e = Entry::new("alpha".to_string(), vec![9u8; 10], None);
    let mut bytes = encode_entry(&e);
    bytes.pop();

    assert!(matches!(decode_entry(&bytes, 0), DecodeOutcome::Malformed));
}

#[test]
fn test_codec_bad_expiry_flag_is_malformed() {
    let e = Entry::new("alpha".to_string(), vec![1u8], None);
    let mut bytes = encode_entry(&e);
    // the flag byte sits after the two length fields
    bytes[16] = 9;

    assert!(matches!(decode_entry(&bytes, 0), DecodeOutcome::Malformed));
}

#[test]
fn test_rewrite_leaves_one_record_per_key() {
    let config = DatabaseConfiguration::new(Some("test.qkv".to_string()), None, None, None, None);
    let mut db = Database::new(config);

    // two appends for the same key leave two records in the log
    db.set("k", b"1".to_vec(), None);
    db.set("k", b"2".to_vec(), None);
    assert_eq!(count_records(db.disk_image(), "k"), 2);

    // an update rewrites the log: exactly one record for the key survives
    db.update("k", b"3".to_vec(), None, None);
    assert_eq!(count_records(db.disk_image(), "k"), 1);
}

fn count_records(log: &Vec<u8>, key: &str) -> usize {
    let mut n = 0;
    let mut pos = 0;
    loop {
        match decode_entry(log, pos) {
            DecodeOutcome::Finished => return n,
            DecodeOutcome::Malformed => panic!("the log must always decode cleanly"),
            DecodeOutcome::Item(e, next) => {
                if e.key == key {
                    n += 1;
                }
                pos = next;
            }
        }
    }
}

#[test]
fn test_effective_expiry_precedence() {
    // explicit time-to-live always wins
    assert_eq!(effective_expiry(Some(5), Some(900), 100), Some(105));
    // otherwise the configured default applies
    assert_eq!(effective_expiry(None, Some(900), 100), Some(1000));
    // with neither, the entry never expires
    assert_eq!(effective_expiry(None, None, 100), None);
    // the addition saturates instead of wrapping
    assert_eq!(effective_expiry(Some(u64::MAX), None, 10), Some(u64::MAX));
}

#[test]
fn test_validate_database_file_path_cases() {
    // a directory path gets the default file name
    assert_eq!(validate_database_file_path("data/"), "data/db.qkv");
    // a bare name gets the engine's extension
    assert_eq!(validate_database_file_path("mydb"), "mydb.qkv");
    // a foreign extension is replaced
    assert_eq!(validate_database_file_path("mydb.txt"), "mydb.qkv");
    // the engine's own extension is kept
    assert_eq!(validate_database_file_path("mydb.qkv"), "mydb.qkv");
    // only the last extension is replaced
    assert_eq!(validate_database_file_path("a.b.c"), "a.b.qkv");
}

#[test]
fn test_configuration_defaults() {
    let c = ClientConfig::default();
    assert_eq!(c.path.as_deref(), Some("db.qkv"));
    assert_eq!(c.log, Some(true));
    assert_eq!(c.log_level, Some(LogLevel::Info));
    assert_eq!(c.default_ttl, None);

    let d = DatabaseConfiguration::default();
    assert_eq!(d.path.as_deref(), Some("db.qkv"));
    assert_eq!(d.runtime.map(|r| r._type), Some(RuntTimeType::Disk));

    let r = RunTime::default();
    assert_eq!(r._type, RuntTimeType::Disk);
    assert_eq!(*RunTime::new(RuntTimeType::Memory).get_type(), RuntTimeType::Memory);

    let q = QuickKVConfig::default();
    assert_eq!(q.db_file.as_deref(), Some("db.qkv"));
    assert_eq!(q.max_db_size, None);
}

#[test]
fn test_client_config_new() {
    let c = ClientConfig::new("custom.qkv".to_string(), Some(false), Some(LogLevel::Debug));
    assert_eq!(c.path.as_deref(), Some("custom.qkv"));
    assert_eq!(c.log, Some(false));
    assert_eq!(c.log_level, Some(LogLevel::Debug));
    assert_eq!(c.default_ttl, None);
}

#[test]
fn test_database_configuration_normalizes_path() {
    let d = DatabaseConfiguration::new(Some("store.db".to_string()), None, None, None, None);
    assert_eq!(d.path.as_deref(), Some("store.qkv"));
}
