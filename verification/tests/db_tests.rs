//! Tests of the engine facade: CRUD through the `Database`, explicit-time
//! expiration, disk effects, and recovery from the log bytes.

use quick_kv::db::{Database, DiskEffect};
use quick_kv::{DatabaseConfiguration, RunTime, RuntTimeType};

fn disk_config(path: &str) -> DatabaseConfiguration {
    DatabaseConfiguration::new(Some(path.to_string()), None, None, None, None)
}

fn memory_config() -> DatabaseConfiguration {
    DatabaseConfiguration::new(
        None,
        Some(RunTime::new(RuntTimeType::Memory)),
        None,
        None,
        None,
    )
}

fn bytes_of(s: &str) -> Vec<u8> {
    s.as_bytes().to_vec()
}

fn string_of(b: Vec<u8>) -> String {
    String::from_utf8(b).unwrap()
}

#[test]
fn mod_test_database_new() {
    let config = disk_config("test.qkv");
    let db = Database::new(config.clone());

    assert_eq!(db.config().path, config.path);
    assert_eq!(db.config().path.as_deref(), Some("test.qkv"));
    assert_eq!(db.len(), 0);
    assert!(db.disk_image().is_empty());
}

#[test]
fn mod_test_database_get_set() {
    let mut db = Database::new(disk_config("test.qkv"));

    db.set("test", bytes_of("test"), None);

    assert_eq!(string_of(db.get("test").0.unwrap()), "test".to_string());
}

#[test]
fn mod_test_database_update() {
    let mut db = Database::new(disk_config("test.qkv"));

    db.set("test", bytes_of("test"), None);

    let result = string_of(db.get("test").0.unwrap());
    assert_eq!(result, "test".to_string());

    db.update("test", bytes_of("test2"), None, None);

    let result = string_of(db.get("test").0.unwrap());
    assert_eq!(result, "test2".to_string());
}

#[test]
fn mod_test_database_delete() {
    let mut db = Database::new(disk_config("test.qkv"));

    db.set("test", bytes_of("test"), None);

    let result = string_of(db.get("test").0.unwrap());
    assert_eq!(result, "test".to_string());

    db.delete("test");

    let result = db.get("test").0;
    assert_eq!(result, None);
}

#[test]
fn test_ttl_expiry_at_explicit_times() {
    let mut db = Database::new(memory_config());

    // set at time 1000 with a one-second time-to-live
    db.set_at("k", bytes_of("v"), Some(1000), 1000);

    // still alive strictly before 2000
    assert_eq!(string_of(db.get_at("k", 1999).0.unwrap()), "v");

    // gone once one second has elapsed, and absent from the listed keys
    assert_eq!(db.get_at("k", 2000).0, None);
    assert!(db.keys().is_empty());
    assert_eq!(db.len(), 0);
}

#[test]
fn test_explicit_ttl_overrides_default() {
    let mut config = memory_config();
    config.default_ttl = Some(10);
    let mut db = Database::new(config);

    // explicit ttl of one minute wins over the ten-millisecond default
    db.set_at("k", bytes_of("v"), Some(60_000), 0);
    assert_eq!(string_of(db.get_at("k", 1000).0.unwrap()), "v");

    // no explicit ttl: the default applies
    db.set_at("d", bytes_of("w"), None, 0);
    assert_eq!(db.get_at("d", 11).0, None);
}

#[test]
fn test_sweep_evicts_expired_entries() {
    let mut db = Database::new(memory_config());

    db.set_at("a", bytes_of("1"), Some(100), 0);
    db.set_at("b", bytes_of("2"), Some(200), 0);
    db.set_at("c", bytes_of("3"), None, 0);

    db.sweep_at(150);

    assert!(!db.exists_key("a"));
    assert!(db.exists_key("b"));
    assert!(db.exists_key("c"));
    assert_eq!(db.len(), 2);
}

#[test]
fn test_durability_across_restart() {
    let config = disk_config("test.qkv");

    // engine A writes one entry, then is dropped
    let mut a = Database::new(config.clone());
    a.set("x", bytes_of("42"), None);
    let log = a.disk_image().clone();
    drop(a);

    // engine B rebuilt from the same log sees the value without any set
    let mut b = Database::recover(config, log).unwrap();
    assert_eq!(string_of(b.get("x").0.unwrap()), "42");
}

#[test]
fn test_recover_replays_later_records_over_earlier() {
    let config = disk_config("test.qkv");

    let mut a = Database::new(config.clone());
    a.set("x", bytes_of("1"), None);
    a.set("y", bytes_of("2"), None);
    a.set("x", bytes_of("3"), None);
    let log = a.disk_image().clone();

    let mut b = Database::recover(config, log).unwrap();
    assert_eq!(string_of(b.get("x").0.unwrap()), "3");
    assert_eq!(string_of(b.get("y").0.unwrap()), "2");
    assert_eq!(b.len(), 2);
}

#[test]
fn test_delete_survives_restart() {
    let config = disk_config("test.qkv");

    let mut a = Database::new(config.clone());
    a.set("k", bytes_of("v"), None);
    a.delete("k");
    let log = a.disk_image().clone();

    let mut b = Database::recover(config, log).unwrap();
    assert_eq!(b.get("k").0, None);
    assert_eq!(b.len(), 0);
}

#[test]
fn test_recover_corrupt_log() {
    let config = disk_config("test.qkv");

    // three stray bytes can never be a well-formed record header
    let r = Database::recover(config, vec![1u8, 2u8, 3u8]);
    assert!(r.is_err());
}

#[test]
fn test_recover_empty_log() {
    let config = disk_config("test.qkv");

    let db = Database::recover(config, Vec::new()).unwrap();
    assert_eq!(db.len(), 0);
    assert!(db.keys().is_empty());
}

#[test]
fn test_purge_then_restart_is_empty() {
    let config = disk_config("test.qkv");

    let mut a = Database::new(config.clone());
    a.set("x", bytes_of("42"), None);
    a.set("y", bytes_of("43"), None);
    let eff = a.purge();

    assert_eq!(a.len(), 0);
    assert!(a.keys().is_empty());
    match eff {
        DiskEffect::Rewrite(bytes) => assert!(bytes.is_empty()),
        _ => panic!("purge on a disk engine must rewrite the file"),
    }

    let log = a.disk_image().clone();
    let b = Database::recover(config, log).unwrap();
    assert_eq!(b.len(), 0);
}

#[test]
fn test_disk_effects_mirror_the_log() {
    let config = disk_config("test.qkv");
    let mut db = Database::new(config.clone());

    // apply every effect to a simulated backing file and check that it
    // always matches the engine's own log image
    let mut file: Vec<u8> = Vec::new();
    let mut apply = |file: &mut Vec<u8>, eff: DiskEffect| match eff {
        DiskEffect::Noop => {}
        DiskEffect::Append(b) => file.extend_from_slice(&b),
        DiskEffect::Rewrite(b) => *file = b,
    };

    let e1 = db.set("a", bytes_of("1"), None);
    apply(&mut file, e1);
    assert_eq!(&file, db.disk_image());

    let e2 = db.set("b", bytes_of("2"), None);
    apply(&mut file, e2);
    assert_eq!(&file, db.disk_image());

    let e3 = db.update("a", bytes_of("3"), None, None);
    apply(&mut file, e3);
    assert_eq!(&file, db.disk_image());

    let e4 = db.delete("b");
    apply(&mut file, e4);
    assert_eq!(&file, db.disk_image());

    // the simulated file recovers to the same contents
    let mut b = Database::recover(config, file).unwrap();
    assert_eq!(string_of(b.get("a").0.unwrap()), "3");
    assert_eq!(b.get("b").0, None);
}

#[test]
fn test_memory_runtime_touches_no_log() {
    let mut db = Database::new(memory_config());

    let e1 = db.set("a", bytes_of("1"), None);
    assert!(matches!(e1, DiskEffect::Noop));
    let e2 = db.delete("a");
    assert!(matches!(e2, DiskEffect::Noop));
    assert!(db.disk_image().is_empty());
}

#[test]
fn test_unicode_keys_round_trip() {
    let config = disk_config("test.qkv");
    let mut a = Database::new(config.clone());

    a.set("héllo wörld", bytes_of("v"), None);
    let log = a.disk_image().clone();

    let mut b = Database::recover(config, log).unwrap();
    assert_eq!(b.keys(), vec!["héllo wörld".to_string()]);
    assert_eq!(string_of(b.get("héllo wörld").0.unwrap()), "v");
}
