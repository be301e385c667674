//! Tests of the client surface: CRUD, batches, keys/values listing.

use quick_kv::{BaseClient, ClientConfig, QuickMemoryClient};

fn test_config(path: &str) -> ClientConfig {
    ClientConfig {
        path: Some(path.to_string()),
        log: None,
        log_level: None,
        default_ttl: None,
    }
}

fn bytes_of(s: &str) -> Vec<u8> {
    s.as_bytes().to_vec()
}

fn string_of(b: Vec<u8>) -> String {
    String::from_utf8(b).unwrap()
}

#[test]
fn test_quick_client_set_get() {
    let mut client = QuickMemoryClient::new(test_config("test.qkv"));

    let key = "test_key";
    let value = "test_value".to_string();

    client.set(key, value.clone().into_bytes()).unwrap();
    let retrieved_value = string_of(client.get(key).unwrap().unwrap());

    assert_eq!(retrieved_value, value);
}

#[test]
fn test_quick_client_delete() {
    let mut client = QuickMemoryClient::new(test_config("test.qkv"));

    let key = "test_key";
    let value = "test_value".to_string();

    client.set(key, value.clone().into_bytes()).unwrap();
    client.delete(key).unwrap();
    let retrieved_value = client.get(key).unwrap();

    assert!(retrieved_value.is_none());
}

#[test]
fn test_quick_client_set_many_get_many() {
    let mut client = QuickMemoryClient::new(test_config("test.qkv"));

    let keys = vec!["key1", "key2", "key3"];
    let values: Vec<Vec<u8>> = vec!["value1", "value2", "value3"]
        .iter()
        .map(|&s| bytes_of(s))
        .collect();

    client.set_many(&keys, &values).unwrap();
    let retrieved_values = client.get_many(&keys).unwrap().unwrap();

    assert_eq!(retrieved_values, values);
}

#[test]
fn test_quick_client_exists() {
    let mut client = QuickMemoryClient::new(test_config("test.qkv"));

    let key = "test_key";
    let value = "test_value".to_string();

    // Key doesn't exist yet
    assert_eq!(client.exists_key(key).unwrap(), false);

    // Set the key
    client.set(key, value.clone().into_bytes()).unwrap();

    // Key should now exist
    assert_eq!(client.exists_key(key).unwrap(), true);
}

#[test]
fn test_quick_client_keys() {
    let mut client = QuickMemoryClient::new(test_config("test.qkv"));

    let keys = vec!["key1", "key2", "key3"];
    let values: Vec<Vec<u8>> = vec!["value1", "value2", "value3"]
        .iter()
        .map(|&s| bytes_of(s))
        .collect();

    client.set_many(&keys, &values).unwrap();

    let mut retrieved_keys = client.keys().unwrap().unwrap();
    retrieved_keys.sort();
    let mut expected_keys: Vec<String> = keys.iter().map(|&s| s.to_string()).collect();
    expected_keys.sort();

    assert_eq!(retrieved_keys, expected_keys);
}

#[test]
fn test_quick_client_values() {
    let mut client = QuickMemoryClient::new(test_config("test.qkv"));

    let keys = vec!["key1", "key2", "key3"];
    let values: Vec<Vec<u8>> = vec!["value1", "value2", "value3"]
        .iter()
        .map(|&s| bytes_of(s))
        .collect();

    client.set_many(&keys, &values).unwrap();

    let mut retrieved_values = client.values().unwrap().unwrap();
    retrieved_values.sort();
    let mut expected_values = values.clone();
    expected_values.sort();

    assert_eq!(retrieved_values, expected_values);
}

#[test]
fn test_quick_client_len() {
    let mut client = QuickMemoryClient::new(test_config("test.qkv"));

    let keys = vec!["key1", "key2", "key3"];
    let values: Vec<Vec<u8>> = vec!["value1", "value2", "value3"]
        .iter()
        .map(|&s| bytes_of(s))
        .collect();

    client.set_many(&keys, &values).unwrap();

    let length = client.len().unwrap();
    assert_eq!(length, 3);
}

#[test]
fn test_quick_client_purge() {
    let mut client = QuickMemoryClient::new(test_config("test.qkv"));

    let key = "test_key";
    let value = "test_value".to_string();

    client.set(key, value.clone().into_bytes()).unwrap();
    client.purge().unwrap();

    assert_eq!(client.len().unwrap(), 0);
}

#[test]
fn test_quick_client_update_many() {
    let mut client = QuickMemoryClient::new(test_config("test_db"));

    let keys = vec!["key1", "key2", "key3"];
    let values: Vec<Vec<u8>> = vec!["value1", "value2", "value3"]
        .iter()
        .map(|&s| bytes_of(s))
        .collect();

    client.set_many(&keys, &values).unwrap();

    let new_values: Vec<Vec<u8>> = vec!["new_value1", "new_value2", "new_value3"]
        .iter()
        .map(|&s| bytes_of(s))
        .collect();

    client.update_many(&keys, &new_values, None).unwrap();

    let retrieved_values = client.values().unwrap().unwrap();

    // Sort the retrieved and new values for comparison
    let mut sorted_retrieved_values = retrieved_values.clone();
    let mut sorted_new_values = new_values.clone();
    sorted_retrieved_values.sort();
    sorted_new_values.sort();

    assert_eq!(sorted_retrieved_values, sorted_new_values);
}

#[test]
fn test_quick_client_delete_many() {
    let mut client = QuickMemoryClient::new(test_config("test.qkv"));

    let keys = vec!["key1", "key2", "key3"];
    let values: Vec<Vec<u8>> = vec!["value1", "value2", "value3"]
        .iter()
        .map(|&s| bytes_of(s))
        .collect();

    client.set_many(&keys, &values).unwrap();

    let keys_to_delete = vec!["key1", "key2"];

    client.delete_many(&keys_to_delete).unwrap();

    let remaining_keys = client.keys().unwrap().unwrap();
    assert_eq!(remaining_keys, vec!["key3"]);
}

#[test]
fn test_quick_client_update_without_upsert_on_missing_key() {
    let mut client = QuickMemoryClient::new(test_config("test.qkv"));

    // updating a key that was never set succeeds and stores nothing
    client.update("never_set", bytes_of("value"), None).unwrap();
    assert!(client.get("never_set").unwrap().is_none());

    // with upsert enabled, the same call behaves as a set
    client
        .update("never_set", bytes_of("value"), Some(true))
        .unwrap();
    assert_eq!(
        string_of(client.get("never_set").unwrap().unwrap()),
        "value"
    );
}

#[test]
fn test_quick_client_delete_absent_key_is_noop() {
    let mut client = QuickMemoryClient::new(test_config("test.qkv"));

    client.set("kept", bytes_of("v")).unwrap();

    // deleting a key that was never set succeeds and changes nothing
    client.delete("absent").unwrap();
    assert_eq!(client.len().unwrap(), 1);
    assert_eq!(string_of(client.get("kept").unwrap().unwrap()), "v");
}

#[test]
fn test_quick_client_empty_listings() {
    let mut client = QuickMemoryClient::new(test_config("test.qkv"));

    assert!(client.keys().unwrap().is_none());
    assert!(client.values().unwrap().is_none());
    assert!(client.get_many(&["a", "b"]).unwrap().is_none());
    assert_eq!(client.len().unwrap(), 0);
}

#[test]
fn test_quick_client_with_default_ttl() {
    let mut config = test_config("test.qkv");
    // one hour: far enough in the future that the entry is alive below
    config.default_ttl = Some(3_600_000);
    let mut client = QuickMemoryClient::new(config);

    client.set("k", bytes_of("v")).unwrap();
    assert_eq!(string_of(client.get("k").unwrap().unwrap()), "v");
    assert!(client.exists_key("k").unwrap());
}
