use agent_memory::KnowledgeEntry;
use agent_memory::MemoryStore;
use agent_memory::MemoryValue;
use agent_memory::SharedKnowledgeBase;

#[test]
fn test_shared_knowledge_store_and_retrieve() {
    let mut store = MemoryStore::new();
    let kb = SharedKnowledgeBase::new("agent1");

    kb.store(&mut store, "api_key", MemoryValue::Str("secret123".to_string())).unwrap();
    let value = kb.get_value(&store, "api_key").unwrap().unwrap();
    assert_eq!(value.as_str().map(|s| s.as_str()), Some("secret123"));
}

#[test]
fn test_shared_knowledge_cross_agent_access() {
    let mut store = MemoryStore::new();
    let kb1 = SharedKnowledgeBase::new("agent1");
    let kb2 = SharedKnowledgeBase::new("agent2");

    kb1.store(&mut store, "shared_config", MemoryValue::Str("config_value".to_string())).unwrap();
    let value = kb2.get_value(&store, "shared_config").unwrap().unwrap();
    assert_eq!(value.as_str().map(|s| s.as_str()), Some("config_value"));
}

#[test]
fn test_shared_knowledge_with_acl() {
    let mut store = MemoryStore::new();
    let kb1 = SharedKnowledgeBase::new("agent1");
    let kb2 = SharedKnowledgeBase::new("agent2");
    let kb3 = SharedKnowledgeBase::new("agent3");

    let entry = KnowledgeEntry::new("private_data", MemoryValue::Str("secret".to_string()), "agent1")
        .with_acl(vec!["agent1".to_string(), "agent2".to_string()]);
    kb1.store_entry(&mut store, entry).unwrap();

    assert!(kb2.get(&store, "private_data").unwrap().is_some());
    assert!(kb3.get(&store, "private_data").unwrap().is_none());
    assert!(kb1.get(&store, "private_data").unwrap().is_some());
}

#[test]
fn test_shared_knowledge_with_tags() {
    let mut store = MemoryStore::new();
    let kb = SharedKnowledgeBase::new("agent1");

    kb.store_with_tags(
        &mut store,
        "config1",
        MemoryValue::Str("value1".to_string()),
        vec!["config".to_string(), "production".to_string()],
    )
    .unwrap();
    kb.store_with_tags(
        &mut store,
        "config2",
        MemoryValue::Str("value2".to_string()),
        vec!["config".to_string(), "development".to_string()],
    )
    .unwrap();

    let config_entries = kb.find_by_tag(&store, "config").unwrap();
    assert_eq!(config_entries.len(), 2);
    let production_entries = kb.find_by_tag(&store, "production").unwrap();
    assert_eq!(production_entries.len(), 1);
    assert_eq!(production_entries[0].key.as_str(), "config1");
    assert_eq!(kb.count(&store).unwrap(), 2);
}

#[test]
fn find_by_tag_applies_the_access_check() {
    let mut store = MemoryStore::new();
    let kb1 = SharedKnowledgeBase::new("agent1");
    let kb3 = SharedKnowledgeBase::new("agent3");

    let entry = KnowledgeEntry::new("guarded", MemoryValue::Int(7), "agent1")
        .with_tags(vec!["config".to_string()])
        .with_acl(vec!["agent1".to_string(), "agent2".to_string()]);
    kb1.store_entry(&mut store, entry).unwrap();

    assert_eq!(kb1.find_by_tag(&store, "config").unwrap().len(), 1);
    assert_eq!(kb3.find_by_tag(&store, "config").unwrap().len(), 0);
}

#[test]
fn find_by_creator_returns_exactly_that_agents_entries() {
    let mut store = MemoryStore::new();
    let kb1 = SharedKnowledgeBase::new("agent1");
    let kb2 = SharedKnowledgeBase::new("agent2");

    kb1.store(&mut store, "one", MemoryValue::Int(1)).unwrap();
    kb1.store(&mut store, "two", MemoryValue::Int(2)).unwrap();
    kb2.store(&mut store, "three", MemoryValue::Int(3)).unwrap();

    let by_one = kb2.find_by_creator(&store, "agent1").unwrap();
    assert_eq!(by_one.len(), 2);
    assert!(by_one.iter().all(|e| e.created_by.as_str() == "agent1"));
    let by_two = kb1.find_by_creator(&store, "agent2").unwrap();
    assert_eq!(by_two.len(), 1);
    assert_eq!(by_two[0].key.as_str(), "three");
}

#[test]
fn get_all_entries_lists_the_accessible_ones() {
    let mut store = MemoryStore::new();
    let kb1 = SharedKnowledgeBase::new("agent1");
    let kb3 = SharedKnowledgeBase::new("agent3");

    kb1.store(&mut store, "public", MemoryValue::Int(1)).unwrap();
    let entry = KnowledgeEntry::new("private", MemoryValue::Int(2), "agent1")
        .with_acl(vec!["agent1".to_string()]);
    kb1.store_entry(&mut store, entry).unwrap();

    assert_eq!(kb1.get_all_entries(&store).unwrap().len(), 2);
    assert_eq!(kb3.get_all_entries(&store).unwrap().len(), 1);
}

#[test]
fn test_shared_knowledge_delete_permissions() {
    let mut store = MemoryStore::new();
    let kb1 = SharedKnowledgeBase::new("agent1");
    let kb2 = SharedKnowledgeBase::new("agent2");

    kb1.store(&mut store, "data", MemoryValue::Str("value".to_string())).unwrap();

    let deleted = kb2.delete(&mut store, "data").unwrap();
    assert!(!deleted);
    assert!(kb1.get(&store, "data").unwrap().is_some());

    let deleted = kb1.delete(&mut store, "data").unwrap();
    assert!(deleted);
    assert!(kb1.get(&store, "data").unwrap().is_none());
}

#[test]
fn update_stamp_is_rewritten_on_every_store() {
    let mut store = MemoryStore::new();
    let kb_writer = SharedKnowledgeBase::new("writer");
    let kb_editor = SharedKnowledgeBase::new("editor");

    let first = kb_writer.store(&mut store, "note", MemoryValue::Int(1)).unwrap();
    assert_eq!(first.created_by.as_str(), "writer");

    let stored = kb_writer.get(&store, "note").unwrap().unwrap();
    assert_eq!(stored.updated_by.as_str(), "writer");

    kb_editor.store_entry(&mut store, stored).unwrap();
    let stored = kb_writer.get(&store, "note").unwrap().unwrap();
    assert_eq!(stored.created_by.as_str(), "writer");
    assert_eq!(stored.updated_by.as_str(), "editor");
}

#[test]
fn malformed_documents_surface_as_serialization_errors() {
    let mut store = MemoryStore::new();
    let kb = SharedKnowledgeBase::new("agent1");
    // a document without the entry fields sits under an entry key
    store.set(
        "global::knowledge::broken".to_string(),
        MemoryValue::Json(vec![("unrelated".to_string(), MemoryValue::Int(1))]),
    );
    assert!(kb.get(&store, "broken").is_err());
    // a non-document value reads as nothing
    store.set("global::knowledge::plain".to_string(), MemoryValue::Int(2));
    assert!(kb.get(&store, "plain").unwrap().is_none());
}
