//! Configuration of the agent memory system.

use vstd::prelude::*;
use vstd::string::StringExecFns;

verus! {

/// One explicit, fully-named configuration for the memory system; every
/// optional capability is a named field.
pub struct MemoryConfig {
    /// Unique agent identifier (for agent-scoped memory).
    pub agent_id: String,
    /// Optional session identifier (for session-scoped memory).
    pub session_id: Option<String>,
    /// Whether conversation history is persisted at all.
    pub persist_conversations: bool,
    /// Enable semantic memory (facts).
    pub enable_semantic: bool,
    /// Enable episodic memory (summaries).
    pub enable_episodic: bool,
    /// Enable working memory (scratchpad).
    pub enable_working: bool,
    /// Maximum conversation length before pruning.
    pub max_conversation_length: usize,
    /// Auto-generate a session id when none is given.
    pub auto_generate_session_id: bool,
}

impl MemoryConfig {
    /// The default configuration for `agent_id`: nothing optional enabled,
    /// conversations unpersisted, length bound 50, session ids generated.
    pub fn new(agent_id: &str) -> (r: MemoryConfig)
        ensures
            r.agent_id@ == agent_id@,
            r.session_id is None,
            !r.persist_conversations,
            !r.enable_semantic,
            !r.enable_episodic,
            !r.enable_working,
            r.max_conversation_length == 50,
            r.auto_generate_session_id,
    {
        MemoryConfig {
            agent_id: String::from_str(agent_id),
            session_id: None,
            persist_conversations: false,
            enable_semantic: false,
            enable_episodic: false,
            enable_working: false,
            max_conversation_length: 50,
            auto_generate_session_id: true,
        }
    }

    /// Sets the session id.
    pub fn with_session_id(self, session_id: &str) -> (r: MemoryConfig)
        ensures
            r.session_id matches Some(s) && s@ == session_id@,
            r.agent_id == self.agent_id,
            r.persist_conversations == self.persist_conversations,
            r.enable_semantic == self.enable_semantic,
            r.enable_episodic == self.enable_episodic,
            r.enable_working == self.enable_working,
            r.max_conversation_length == self.max_conversation_length,
            r.auto_generate_session_id == self.auto_generate_session_id,
    {
        MemoryConfig { session_id: Some(String::from_str(session_id)), ..self }
    }

    /// Enables or disables conversation persistence.
    pub fn with_persistence(self, persist: bool) -> (r: MemoryConfig)
        ensures
            r.persist_conversations == persist,
            r.agent_id == self.agent_id,
            r.session_id == self.session_id,
            r.enable_semantic == self.enable_semantic,
            r.enable_episodic == self.enable_episodic,
            r.enable_working == self.enable_working,
            r.max_conversation_length == self.max_conversation_length,
            r.auto_generate_session_id == self.auto_generate_session_id,
    {
        MemoryConfig { persist_conversations: persist, ..self }
    }

    /// Enables or disables semantic memory.
    pub fn with_semantic_memory(self, enable: bool) -> (r: MemoryConfig)
        ensures
            r.enable_semantic == enable,
            r.agent_id == self.agent_id,
            r.session_id == self.session_id,
            r.persist_conversations == self.persist_conversations,
            r.enable_episodic == self.enable_episodic,
            r.enable_working == self.enable_working,
            r.max_conversation_length == self.max_conversation_length,
            r.auto_generate_session_id == self.auto_generate_session_id,
    {
        MemoryConfig { enable_semantic: enable, ..self }
    }

    /// Enables or disables episodic memory.
    pub fn with_episodic_memory(self, enable: bool) -> (r: MemoryConfig)
        ensures
            r.enable_episodic == enable,
            r.agent_id == self.agent_id,
            r.session_id == self.session_id,
            r.persist_conversations == self.persist_conversations,
            r.enable_semantic == self.enable_semantic,
            r.enable_working == self.enable_working,
            r.max_conversation_length == self.max_conversation_length,
            r.auto_generate_session_id == self.auto_generate_session_id,
    {
        MemoryConfig { enable_episodic: enable, ..self }
    }

    /// Enables or disables working memory.
    pub fn with_working_memory(self, enable: bool) -> (r: MemoryConfig)
        ensures
            r.enable_working == enable,
            r.agent_id == self.agent_id,
            r.session_id == self.session_id,
            r.persist_conversations == self.persist_conversations,
            r.enable_semantic == self.enable_semantic,
            r.enable_episodic == self.enable_episodic,
            r.max_conversation_length == self.max_conversation_length,
            r.auto_generate_session_id == self.auto_generate_session_id,
    {
        MemoryConfig { enable_working: enable, ..self }
    }

    /// Sets the conversation length bound.
    pub fn with_max_conversation_length(self, length: usize) -> (r: MemoryConfig)
        ensures
            r.max_conversation_length == length,
            r.agent_id == self.agent_id,
            r.session_id == self.session_id,
            r.persist_conversations == self.persist_conversations,
            r.enable_semantic == self.enable_semantic,
            r.enable_episodic == self.enable_episodic,
            r.enable_working == self.enable_working,
            r.auto_generate_session_id == self.auto_generate_session_id,
    {
        MemoryConfig { max_conversation_length: length, ..self }
    }

    /// Enables or disables automatic session id generation.
    pub fn with_auto_session_id(self, auto: bool) -> (r: MemoryConfig)
        ensures
            r.auto_generate_session_id == auto,
            r.agent_id == self.agent_id,
            r.session_id == self.session_id,
            r.persist_conversations == self.persist_conversations,
            r.enable_semantic == self.enable_semantic,
            r.enable_episodic == self.enable_episodic,
            r.enable_working == self.enable_working,
            r.max_conversation_length == self.max_conversation_length,
    {
        MemoryConfig { auto_generate_session_id: auto, ..self }
    }
}

impl Default for MemoryConfig {
    /// The configuration of an agent named `default`.
    fn default() -> (r: MemoryConfig)
        ensures
            r.agent_id@ == "default"@,
            r.session_id is None,
            !r.persist_conversations,
            !r.enable_semantic,
            !r.enable_episodic,
            !r.enable_working,
            r.max_conversation_length == 50,
            r.auto_generate_session_id,
    {
        MemoryConfig::new("default")
    }
}

} // verus!
