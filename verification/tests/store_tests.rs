use agent_memory::MemoryError;
use agent_memory::MemoryStore;
use agent_memory::MemoryValue;

#[test]
fn storing_then_clearing_leaves_a_namespace_empty() {
    let mut store = MemoryStore::new();
    for i in 0..9 {
        store.set(format!("scope::a::k{}", i), MemoryValue::Int(i));
    }
    store.set("scope::b::other".to_string(), MemoryValue::Bool(false));
    assert_eq!(store.count(Some("scope::a")), 9);

    store.clear(Some("scope::a"));
    assert_eq!(store.count(Some("scope::a")), 0);
    // other namespaces are untouched
    assert_eq!(store.count(Some("scope::b")), 1);

    // a second clear is a no-op and never errors
    store.clear(Some("scope::a"));
    assert_eq!(store.count(Some("scope::a")), 0);
    assert_eq!(store.count(Some("scope::b")), 1);
}

#[test]
fn set_get_delete_round() {
    let mut store = MemoryStore::new();
    store.set("k".to_string(), MemoryValue::Str("v".to_string()));
    assert!(store.contains("k"));
    assert_eq!(store.get("k").unwrap().as_str().map(|s| s.as_str()), Some("v"));
    store.set("k".to_string(), MemoryValue::Int(3));
    assert_eq!(store.get("k").unwrap().as_int(), Some(3));
    assert!(store.delete("k"));
    assert!(!store.delete("k"));
    assert!(store.get("k").is_none());
}

#[test]
fn keys_come_back_in_insertion_order() {
    let mut store = MemoryStore::new();
    store.set("p::one".to_string(), MemoryValue::Int(1));
    store.set("q::skip".to_string(), MemoryValue::Int(0));
    store.set("p::two".to_string(), MemoryValue::Int(2));
    let keys = store.keys(Some("p::"));
    let names: Vec<&str> = keys.iter().map(|s| s.as_str()).collect();
    assert_eq!(names, vec!["p::one", "p::two"]);
}

#[test]
fn errors_carry_their_diagnostics() {
    let err = MemoryError::Validation {
        field: "messages".to_string(),
        rule: "must not be empty".to_string(),
        observed: "0 messages provided".to_string(),
    };
    assert!(err.message().as_str().contains("messages"));
    let storage = MemoryError::Storage { operation: "get".to_string(), cause: "io".to_string() };
    assert!(storage.message().as_str().contains("get"));
    let ser = MemoryError::Serialization { operation: "decode_fact".to_string() };
    assert!(ser.message().as_str().contains("decode_fact"));
    let svc = MemoryError::Service { operation: "summarize".to_string(), cause: "down".to_string() };
    assert!(svc.message().as_str().contains("summarize"));
}

#[test]
fn float_payloads_round_trip_as_bits() {
    let mut store = MemoryStore::new();
    let x: f64 = 0.25;
    store.set("f".to_string(), MemoryValue::FloatBits(x.to_bits()));
    let bits = store.get("f").unwrap().as_float_bits().unwrap();
    assert_eq!(f64::from_bits(bits), 0.25);
}
