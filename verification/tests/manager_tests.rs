use agent_memory::AgentMemoryManager;
use agent_memory::MemoryConfig;
use agent_memory::MemoryValue;
use agent_memory::Message;

#[test]
fn test_memory_manager_namespacing() {
    let config = MemoryConfig::new("test-agent").with_session_id("test-session");
    let manager = AgentMemoryManager::new(config);

    assert_eq!(manager.agent_key("preferences").as_str(), "agent::test-agent::preferences");
    assert_eq!(manager.session_key("working_data").as_str(), "session::test-session::working_data");
    assert_eq!(AgentMemoryManager::global_key("shared_config").as_str(), "global::shared_config");
}

#[test]
fn test_memory_manager_scoped_storage() {
    let config = MemoryConfig::new("test-agent");
    let mut manager = AgentMemoryManager::new(config);

    manager.set_agent_memory("profile::name", MemoryValue::Str("Alice".to_string())).unwrap();
    manager.set_session_memory("temp::data", MemoryValue::Int(42)).unwrap();
    manager.set_global_memory("config::setting", MemoryValue::Bool(true)).unwrap();

    let name = manager.get_agent_memory("profile::name").unwrap();
    assert_eq!(name.unwrap().as_str().map(|s| s.as_str()), Some("Alice"));
    let data = manager.get_session_memory("temp::data").unwrap();
    assert_eq!(data.unwrap().as_int(), Some(42));
    let setting = manager.get_global_memory("config::setting").unwrap();
    assert_eq!(setting.unwrap().as_bool(), Some(true));
}

#[test]
fn test_conversation_integration() {
    let config = MemoryConfig::new("test-agent").with_persistence(true);
    let mut manager = AgentMemoryManager::new(config);

    manager.add_conversation_message(Message::system("System prompt")).unwrap();
    manager.add_conversation_message(Message::user("Hello")).unwrap();

    let messages = manager.get_conversation_messages().unwrap();
    assert_eq!(messages.len(), 2);
}

#[test]
fn session_identity_is_resolved_once() {
    let generated = AgentMemoryManager::new(MemoryConfig::new("a"));
    assert_eq!(generated.session_id().len(), 36);

    let fixed = AgentMemoryManager::new(MemoryConfig::new("a").with_session_id("sid"));
    assert_eq!(fixed.session_id(), "sid");

    let fallback = AgentMemoryManager::new(MemoryConfig::new("a").with_auto_session_id(false));
    assert_eq!(fallback.session_id(), "default");
    assert_eq!(fallback.agent_id(), "a");
}

#[test]
fn clearing_a_conversation_keeps_the_system_prompt() {
    let config = MemoryConfig::new("a").with_persistence(true).with_max_conversation_length(10);
    let mut manager = AgentMemoryManager::new(config);
    manager.add_conversation_message(Message::system("keep me")).unwrap();
    manager.add_conversation_message(Message::user("drop me")).unwrap();
    manager.clear_conversation().unwrap();
    let messages = manager.get_conversation_messages().unwrap();
    assert_eq!(messages.len(), 1);
    assert_eq!(messages[0].content.as_str(), "keep me");
}
