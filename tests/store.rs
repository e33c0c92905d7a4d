use key_value_store::reply::Reply;
use key_value_store::store::{database_dir, key_file_path, MemoryStore};
use key_value_store::text::text_of_bytes;
use key_value_store::{LoadRequest, Request, StoreRequest};

#[test]
fn put_replaces_earlier_value() {
    let mut store = MemoryStore::new();
    store.put("k".to_string(), "one".to_string());
    store.put("j".to_string(), "x".to_string());
    store.put("k".to_string(), "two".to_string());
    assert_eq!(store.get(&"k".to_string()), Some("two".to_string()));
    assert_eq!(store.get(&"j".to_string()), Some("x".to_string()));
    assert_eq!(store.get(&"z".to_string()), None);
}

#[test]
fn empty_key_is_a_key() {
    let mut store = MemoryStore::new();
    assert_eq!(store.get(&String::new()), None);
    store.put(String::new(), "v".to_string());
    assert_eq!(store.get(&String::new()), Some("v".to_string()));
}

#[test]
fn execute_answers_each_request() {
    let mut store = MemoryStore::new();
    let load = || Request::Load(LoadRequest::new("k".to_string()));
    assert!(matches!(store.execute(load()), Reply::NotFound));
    let stored = store.execute(Request::Store(StoreRequest::new("k".to_string(), "v".to_string())));
    assert!(matches!(stored, Reply::Done));
    match store.execute(load()) {
        Reply::Found(v) => assert_eq!(v, "v"),
        _ => panic!("expected the stored value"),
    }
}

#[test]
fn replies_encode_to_wire_text() {
    assert_eq!(Reply::Done.encode(), "DONE$");
    assert_eq!(Reply::NotFound.encode(), "NOTFOUND$");
    assert_eq!(Reply::Found("value".to_string()).encode(), "FOUND$value$");
    assert_eq!(Reply::Found(String::new()).encode(), "FOUND$$");
}

#[test]
fn key_files_live_in_database_directory() {
    assert_eq!(database_dir(), "database");
    assert_eq!(key_file_path("abc"), "database/key-abc");
    assert_eq!(key_file_path(""), "database/key-");
}

#[test]
fn bytes_become_one_char_each() {
    assert_eq!(text_of_bytes(b"abc"), "abc");
    assert_eq!(text_of_bytes(&[]), "");
    let text = text_of_bytes(&[0x61, 0xe9]);
    assert_eq!(text.chars().collect::<Vec<char>>(), vec!['a', '\u{e9}']);
}
