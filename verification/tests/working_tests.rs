use agent_memory::MemoryStore;
use agent_memory::MemoryValue;
use agent_memory::WorkingMemory;

#[test]
fn test_working_memory_basic_operations() {
    let mut store = MemoryStore::new();
    let working = WorkingMemory::new("test-session");

    working.set(&mut store, "temp_result", MemoryValue::Int(42)).unwrap();
    let value = working.get(&store, "temp_result").unwrap();
    assert_eq!(value.unwrap().as_int(), Some(42));

    assert!(working.exists_key(&store, "temp_result").unwrap());
    assert!(!working.exists_key(&store, "nonexistent").unwrap());

    assert!(working.delete(&mut store, "temp_result").unwrap());
    assert!(!working.exists_key(&store, "temp_result").unwrap());
}

#[test]
fn test_working_memory_multiple_operations() {
    let mut store = MemoryStore::new();
    let working = WorkingMemory::new("test-session");

    let pairs = vec![
        ("key1".to_string(), MemoryValue::Str("value1".to_string())),
        ("key2".to_string(), MemoryValue::Int(100)),
        ("key3".to_string(), MemoryValue::Bool(true)),
    ];
    working.set_many(&mut store, pairs).unwrap();

    let keys = vec!["key1".to_string(), "key2".to_string(), "key3".to_string()];
    let values = working.get_many(&store, &keys).unwrap();
    assert_eq!(values[0].unwrap().as_str().map(|s| s.as_str()), Some("value1"));
    assert_eq!(values[1].unwrap().as_int(), Some(100));
    assert_eq!(values[2].unwrap().as_bool(), Some(true));

    assert_eq!(working.count(&store).unwrap(), 3);
    assert_eq!(working.keys(&store).unwrap().len(), 3);
}

#[test]
fn test_working_memory_clear() {
    let mut store = MemoryStore::new();
    let working = WorkingMemory::new("test-session");

    working.set(&mut store, "key1", MemoryValue::Str("value1".to_string())).unwrap();
    working.set(&mut store, "key2", MemoryValue::Str("value2".to_string())).unwrap();
    assert_eq!(working.count(&store).unwrap(), 2);

    working.clear(&mut store).unwrap();
    assert_eq!(working.count(&store).unwrap(), 0);
}

#[test]
fn test_working_memory_namespace_isolation() {
    let mut store = MemoryStore::new();
    let working1 = WorkingMemory::new("session1");
    let working2 = WorkingMemory::new("session2");

    working1.set(&mut store, "data", MemoryValue::Str("session1-data".to_string())).unwrap();
    working2.set(&mut store, "data", MemoryValue::Str("session2-data".to_string())).unwrap();

    let value1 = working1.get(&store, "data").unwrap();
    let value2 = working2.get(&store, "data").unwrap();
    assert_eq!(value1.unwrap().as_str().map(|s| s.as_str()), Some("session1-data"));
    assert_eq!(value2.unwrap().as_str().map(|s| s.as_str()), Some("session2-data"));
}

#[test]
fn clear_empties_the_namespace_and_is_idempotent() {
    let mut store = MemoryStore::new();
    let working = WorkingMemory::new("s");
    for i in 0..7 {
        let key = format!("k{}", i);
        working.set(&mut store, key.as_str(), MemoryValue::Int(i)).unwrap();
    }
    assert_eq!(working.count(&store).unwrap(), 7);
    working.clear(&mut store).unwrap();
    assert_eq!(working.count(&store).unwrap(), 0);
    // a second clear finds nothing to remove and never errors
    working.clear(&mut store).unwrap();
    assert_eq!(working.count(&store).unwrap(), 0);
    assert!(working.keys(&store).unwrap().is_empty());
}

#[test]
fn auto_clear_intent_is_recorded() {
    let mut w = WorkingMemory::new("s");
    w.disable_auto_clear();
    w.enable_auto_clear();
    let _persistent = WorkingMemory::new_persistent("s");
}
