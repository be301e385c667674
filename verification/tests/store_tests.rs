//! Tests of basic store behavior through the client, one scenario per
//! operation, plus a mixed-workload check.

use quick_kv::{BaseClient, ClientConfig, QuickMemoryClient};

fn client() -> QuickMemoryClient {
    QuickMemoryClient::new(ClientConfig {
        path: Some("test.qkv".to_string()),
        log: None,
        log_level: None,
        default_ttl: None,
    })
}

#[test]
fn test_test_set() {
    let mut client = client();

    let value = String::from("Hello World!");
    client.set("hello", value.into_bytes()).unwrap();
}

#[test]
fn test_test_set_multiple_keys_with_same_name() {
    let mut client = client();

    // Set the initial value for the key
    client
        .set("hello9", String::from("Hello World!").into_bytes())
        .unwrap();

    // Verify that the initial value is correct
    let result = client.get("hello9").unwrap();
    assert_eq!(result, Some(String::from("Hello World!").into_bytes()));

    // Set a new value for the same key
    client
        .set("hello9", String::from("Updated Value").into_bytes())
        .unwrap();

    // Verify that the value has been updated
    let result2 = client.get("hello9").unwrap();
    assert_eq!(result2, Some(String::from("Updated Value").into_bytes()));
}

#[test]
fn test_test_get() {
    let mut client = client();

    let value = String::from("Hello World!").into_bytes();
    client.set("hello2", value.clone()).unwrap();

    let result = client.get("hello2").unwrap();
    assert_eq!(result, Some(value));
}

#[test]
fn test_test_get_not_found() {
    let mut client = client();

    let value = String::from("Hello World!").into_bytes();
    client.set("hello3", value).unwrap();

    let result = client.get("doesnotexist-124319284791827948179").unwrap();
    assert_eq!(result, None);
}

#[test]
fn test_test_get_multiple() {
    let mut client = client();
    let value = String::from("Hello World!").into_bytes();

    client.set("hello5", value.clone()).unwrap();
    client.set("hello6", value.clone()).unwrap();

    let result = client.get("hello5").unwrap();
    assert_eq!(result, Some(value));
}

#[test]
fn test_test_delete() {
    let mut client = client();
    let value = String::from("Hello World!").into_bytes();

    client.set("hello7", value.clone()).unwrap();
    let result = client.get("hello7").unwrap();
    assert_eq!(result, Some(value));

    client.delete("hello7").unwrap();

    let result = client.get("hello7").unwrap();
    assert_eq!(result, None);
}

#[test]
fn test_test_update() {
    let mut client = client();

    client
        .set("hello8", String::from("Hello World!").into_bytes())
        .unwrap();

    let result = client.get("hello8").unwrap();
    assert_eq!(result, Some(String::from("Hello World!").into_bytes()));

    client
        .update("hello8", String::from("Hello World! 2").into_bytes(), None)
        .unwrap();

    let result = client.get("hello8").unwrap();
    assert_eq!(result, Some(String::from("Hello World! 2").into_bytes()));
}

#[test]
fn test_test_clear() {
    let mut client = client();

    for i in 0..9 {
        client
            .set(&i.to_string(), i.to_string().into_bytes())
            .unwrap();
    }

    client.purge().unwrap();

    let result = client.get("3").unwrap();
    assert_eq!(result, None);
    assert_eq!(client.len().unwrap(), 0);
}

#[test]
fn test_test_set_many() {
    let mut client = client();

    let keys = vec!["one", "two", "three"];
    let values: Vec<Vec<u8>> = vec![b"1".to_vec(), b"2".to_vec(), b"3".to_vec()];

    client.set_many(&keys, &values).unwrap();

    assert_eq!(client.get("one").unwrap(), Some(b"1".to_vec()));
    assert_eq!(client.get("two").unwrap(), Some(b"2".to_vec()));
    assert_eq!(client.get("three").unwrap(), Some(b"3".to_vec()));
}

#[test]
fn test_test_get_many() {
    let mut client = client();

    let keys = vec!["one", "two"];
    let values: Vec<Vec<u8>> = vec![b"1".to_vec(), b"2".to_vec()];
    client.set_many(&keys, &values).unwrap();

    // absent keys are skipped, found values keep request order
    let got = client.get_many(&["two", "missing", "one"]).unwrap().unwrap();
    assert_eq!(got, vec![b"2".to_vec(), b"1".to_vec()]);
}

#[test]
fn test_test_delete_many() {
    let mut client = client();

    let keys = vec!["one", "two", "three"];
    let values: Vec<Vec<u8>> = vec![b"1".to_vec(), b"2".to_vec(), b"3".to_vec()];
    client.set_many(&keys, &values).unwrap();

    client.delete_many(&["one", "three"]).unwrap();

    assert_eq!(client.get("one").unwrap(), None);
    assert_eq!(client.get("two").unwrap(), Some(b"2".to_vec()));
    assert_eq!(client.get("three").unwrap(), None);
}

#[test]
fn test_test_vector_injection() {
    let mut client = client();

    let mut v: Vec<i32> = Vec::new();

    for i in 0..9 {
        v.push(i);
    }

    client
        .set("vec", bincode::serialize(&v).unwrap())
        .unwrap();

    let result: Vec<i32> = bincode::deserialize(&client.get("vec").unwrap().unwrap()).unwrap();

    for i in 0..9 {
        assert_eq!(result[i], v[i]);
    }

    assert_eq!(result.len(), v.len());
}

#[test]
fn test_test_hashmap_injection() {
    let mut client = client();

    let mut map = std::collections::HashMap::new();

    for i in 0..4 {
        map.insert(i.to_string(), i);
    }

    client
        .set("map", bincode::serialize(&map).unwrap())
        .unwrap();

    let result: std::collections::HashMap<String, i32> =
        bincode::deserialize(&client.get("map").unwrap().unwrap()).unwrap();

    assert_eq!(result.len(), map.len());
}
