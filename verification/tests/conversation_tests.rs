use agent_memory::ConversationMemoryStore;
use agent_memory::MemoryStore;
use agent_memory::Message;
use agent_memory::Role;

#[test]
fn test_conversation_memory_store() {
    let mut store = MemoryStore::new();
    let session_id = agent_memory::generate_session_id();
    let conv = ConversationMemoryStore::new(session_id.as_str(), 10, true);

    conv.add_message(&mut store, Message::system("You are a helpful assistant")).unwrap();
    conv.add_message(&mut store, Message::user("Hello")).unwrap();
    conv.add_message(&mut store, Message::assistant("Hi there!")).unwrap();

    let messages = conv.get_messages(&store).unwrap();
    assert_eq!(messages.len(), 3);
    assert_eq!(conv.count(&store).unwrap(), 3);

    conv.clear(&mut store).unwrap();
    let messages = conv.get_messages(&store).unwrap();
    assert_eq!(messages.len(), 1);
    assert!(matches!(messages[0].role, Role::System));
}

#[test]
fn bounded_history_keeps_newest_two() {
    let mut store = MemoryStore::new();
    let conv = ConversationMemoryStore::new("s1", 2, true);
    conv.add_message(&mut store, Message::user("first")).unwrap();
    conv.add_message(&mut store, Message::user("second")).unwrap();
    conv.add_message(&mut store, Message::user("third")).unwrap();

    let messages = conv.get_messages(&store).unwrap();
    assert_eq!(messages.len(), 2);
    assert_eq!(messages[0].content.as_str(), "second");
    assert_eq!(messages[1].content.as_str(), "third");
    assert_eq!(conv.count(&store).unwrap(), 2);
}

#[test]
fn system_message_survives_pruning() {
    let mut store = MemoryStore::new();
    let conv = ConversationMemoryStore::new("s2", 2, true);
    conv.add_message(&mut store, Message::system("rules")).unwrap();
    conv.add_message(&mut store, Message::user("one")).unwrap();
    conv.add_message(&mut store, Message::user("two")).unwrap();
    conv.add_message(&mut store, Message::user("three")).unwrap();

    let messages = conv.get_messages(&store).unwrap();
    assert_eq!(messages.len(), 2);
    assert!(matches!(messages[0].role, Role::System));
    assert_eq!(messages[0].content.as_str(), "rules");
    assert_eq!(messages[1].content.as_str(), "three");
}

#[test]
fn unpersisted_conversation_is_a_no_op() {
    let mut store = MemoryStore::new();
    let conv = ConversationMemoryStore::new("s3", 10, false);
    conv.add_message(&mut store, Message::user("dropped")).unwrap();
    assert_eq!(conv.count(&store).unwrap(), 0);
    assert!(conv.get_messages(&store).unwrap().is_empty());
    assert!(conv.is_empty(&store).unwrap());
}

#[test]
fn message_keys_follow_the_grammar() {
    let conv = ConversationMemoryStore::new("abc", 10, true);
    assert_eq!(conv.message_key(0).as_str(), "session::abc::conversation::msg_0");
    assert_eq!(conv.message_key(17).as_str(), "session::abc::conversation::msg_17");
}
