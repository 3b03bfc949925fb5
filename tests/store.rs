use tcp_kv::lexer::Lexer;
use tcp_kv::parser::{parse_array, Value};
use tcp_kv::store::{MemoryStorage, Storage};

#[test]
fn get_of_unwritten_key_is_none() {
    let store: MemoryStorage<u64, String> = MemoryStorage::new();
    assert_eq!(store.get(&7).unwrap(), None);
}

#[test]
fn second_set_wins() {
    let store: MemoryStorage<String, u64> = MemoryStorage::new();
    store.set("k".to_string(), 1).unwrap();
    store.set("k".to_string(), 2).unwrap();
    assert_eq!(store.get(&"k".to_string()).unwrap(), Some(2));
}

#[test]
fn disjoint_keys_are_all_kept() {
    let store: MemoryStorage<u64, u64> = MemoryStorage::new();
    for k in 0..1000u64 {
        store.set(k, k * 3).unwrap();
    }
    for k in 0..1000u64 {
        assert_eq!(store.get(&k).unwrap(), Some(k * 3));
    }
    assert_eq!(store.get(&1000).unwrap(), None);
}

#[test]
fn stores_parsed_values() {
    let store: MemoryStorage<u64, Value> = MemoryStorage::new();
    let mut lexer = Lexer::new("abc,def]");
    let v = parse_array(&mut lexer).unwrap();
    store.set(1, v).unwrap();
    assert_eq!(
        store.get(&1).unwrap(),
        Some(Value::Array(vec![
            Value::String(b"abc".to_vec()),
            Value::String(b"def".to_vec())
        ]))
    );
}

#[test]
fn set_and_get_never_fail() {
    let store: MemoryStorage<u64, u64> = MemoryStorage::new();
    assert!(store.get(&3).is_ok());
    assert!(store.set(3, 9).is_ok());
    assert!(store.get(&3).is_ok());
}
