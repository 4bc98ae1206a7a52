//! The top-level coordinator wiring scope and session identity to the
//! memory views.
//!
//! The manager owns the storage and passes it by exclusive borrow to the
//! conversation store it builds, which closes the counter races a shared
//! handle would allow.

use vstd::prelude::*;
use vstd::string::StringExecFns;

use crate::config::MemoryConfig;
use crate::conversation::ConversationMemoryStore;
use crate::conversation::conv_model;
use crate::conversation::conv_wf;
use crate::conversation::counter_headroom;
use crate::conversation::counter_of;
use crate::store::frame_outside;
use crate::conversation::generate_session_id;
use crate::conversation::prune_spec;
use crate::error::MemoryError;
use crate::message::Message;
use crate::message::MessageModel;
use crate::message::Role;
use crate::scope::agent_ns;
use crate::scope::agent_ns_spec;
use crate::scope::global_key_spec;
use crate::scope::session_ns;
use crate::scope::session_ns_spec;
use crate::store::MemoryStore;
use crate::value::MemoryValue;
use crate::value::ValueModel;

verus! {

/// Coordinates all memory scopes for one agent and session.
pub struct AgentMemoryManager {
    storage: MemoryStore,
    agent_id: String,
    session_id: String,
    conversation: ConversationMemoryStore,
    config: MemoryConfig,
}

impl AgentMemoryManager {
    /// The agent identity.
    pub closed spec fn agent_id_view(self) -> Seq<char> {
        self.agent_id@
    }

    /// The resolved session identity.
    pub closed spec fn session_id_view(self) -> Seq<char> {
        self.session_id@
    }

    /// The owned storage, as a map.
    pub closed spec fn store_view(self) -> Map<Seq<char>, ValueModel> {
        self.storage@
    }

    /// The conversation store this manager built.
    pub closed spec fn conv(self) -> ConversationMemoryStore {
        self.conversation
    }

    /// The identities and conversation configuration are untouched.
    pub open spec fn same_identity(self, other: AgentMemoryManager) -> bool {
        self.agent_id_view() == other.agent_id_view() && self.session_id_view()
            == other.session_id_view() && self.conv() == other.conv()
    }

    /// Builds a manager from `config`, resolving the session identity:
    /// a given id is kept, otherwise one is generated when allowed, with
    /// `default` as the last resort. The storage starts empty.
    pub fn new(config: MemoryConfig) -> (r: AgentMemoryManager)
        ensures
            r.agent_id_view() == config.agent_id@,
            match config.session_id {
                Some(s) => r.session_id_view() == s@,
                None => if config.auto_generate_session_id {
                    r.session_id_view().len() == 36
                } else {
                    r.session_id_view() == "default"@
                },
            },
            r.conv().ns() == session_ns_spec(r.session_id_view(), "conversation"@),
            r.conv().max() == config.max_conversation_length,
            r.conv().persist_on() == config.persist_conversations,
            r.store_view() == Map::<Seq<char>, ValueModel>::empty(),
    {
        let session_id: String = match &config.session_id {
            Some(s) => s.clone(),
            None => {
                if config.auto_generate_session_id {
                    generate_session_id()
                } else {
                    String::from_str("default")
                }
            },
        };
        let conversation = ConversationMemoryStore::new(
            session_id.as_str(),
            config.max_conversation_length,
            config.persist_conversations,
        );
        let agent_id = config.agent_id.clone();
        AgentMemoryManager {
            storage: MemoryStore::new(),
            agent_id,
            session_id,
            conversation,
            config,
        }
    }

    /// The agent id.
    pub fn agent_id(&self) -> (r: &str)
        ensures
            r@ == self.agent_id_view(),
    {
        self.agent_id.as_str()
    }

    /// The session id.
    pub fn session_id(&self) -> (r: &str)
        ensures
            r@ == self.session_id_view(),
    {
        self.session_id.as_str()
    }

    /// The conversation store.
    pub fn conversation(&self) -> (r: &ConversationMemoryStore)
        ensures
            *r == self.conv(),
    {
        &self.conversation
    }

    /// The owned storage.
    pub fn storage(&self) -> (r: &MemoryStore)
        ensures
            r@ == self.store_view(),
    {
        &self.storage
    }

    /// The configuration.
    pub fn config(&self) -> (r: &MemoryConfig) {
        &self.config
    }

    /// The agent-scoped key for `key`: `agent::<agent_id>::<key>`.
    pub fn agent_key(&self, key: &str) -> (r: String)
        ensures
            r@ == agent_ns_spec(self.agent_id_view(), key@),
    {
        agent_ns(self.agent_id.as_str(), key)
    }

    /// The session-scoped key for `key`: `session::<session_id>::<key>`.
    pub fn session_key(&self, key: &str) -> (r: String)
        ensures
            r@ == session_ns_spec(self.session_id_view(), key@),
    {
        session_ns(self.session_id.as_str(), key)
    }

    /// The global key for `key`: `global::<key>`.
    pub fn global_key(key: &str) -> (r: String)
        ensures
            r@ == global_key_spec(key@),
    {
        crate::scope::global_key(key)
    }

    /// Stores a value in agent scope.
    pub fn set_agent_memory(&mut self, key: &str, value: MemoryValue) -> (r: Result<
        (),
        MemoryError,
    >)
        ensures
            r is Ok,
            final(self).store_view() == old(self).store_view().insert(
                agent_ns_spec(old(self).agent_id_view(), key@),
                value@,
            ),
            old(self).same_identity(*final(self)),
    {
        let full = self.agent_key(key);
        self.storage.set(full, value);
        Ok(())
    }

    /// Reads a value from agent scope.
    pub fn get_agent_memory(&self, key: &str) -> (r: Result<Option<&MemoryValue>, MemoryError>)
        ensures
            r matches Ok(v) && match v {
                Some(mv) => self.store_view().contains_key(
                    agent_ns_spec(self.agent_id_view(), key@),
                ) && mv@ == self.store_view()[agent_ns_spec(self.agent_id_view(), key@)],
                None => !self.store_view().contains_key(
                    agent_ns_spec(self.agent_id_view(), key@),
                ),
            },
    {
        let full = self.agent_key(key);
        Ok(self.storage.get(full.as_str()))
    }

    /// Stores a value in session scope.
    pub fn set_session_memory(&mut self, key: &str, value: MemoryValue) -> (r: Result<
        (),
        MemoryError,
    >)
        ensures
            r is Ok,
            final(self).store_view() == old(self).store_view().insert(
                session_ns_spec(old(self).session_id_view(), key@),
                value@,
            ),
            old(self).same_identity(*final(self)),
    {
        let full = self.session_key(key);
        self.storage.set(full, value);
        Ok(())
    }

    /// Reads a value from session scope.
    pub fn get_session_memory(&self, key: &str) -> (r: Result<Option<&MemoryValue>, MemoryError>)
        ensures
            r matches Ok(v) && match v {
                Some(mv) => self.store_view().contains_key(
                    session_ns_spec(self.session_id_view(), key@),
                ) && mv@ == self.store_view()[session_ns_spec(self.session_id_view(), key@)],
                None => !self.store_view().contains_key(
                    session_ns_spec(self.session_id_view(), key@),
                ),
            },
    {
        let full = self.session_key(key);
        Ok(self.storage.get(full.as_str()))
    }

    /// Stores a value in global scope.
    pub fn set_global_memory(&mut self, key: &str, value: MemoryValue) -> (r: Result<
        (),
        MemoryError,
    >)
        ensures
            r is Ok,
            final(self).store_view() == old(self).store_view().insert(
                global_key_spec(key@),
                value@,
            ),
            old(self).same_identity(*final(self)),
    {
        let full = Self::global_key(key);
        self.storage.set(full, value);
        Ok(())
    }

    /// Reads a value from global scope.
    pub fn get_global_memory(&self, key: &str) -> (r: Result<Option<&MemoryValue>, MemoryError>)
        ensures
            r matches Ok(v) && match v {
                Some(mv) => self.store_view().contains_key(global_key_spec(key@)) && mv@
                    == self.store_view()[global_key_spec(key@)],
                None => !self.store_view().contains_key(global_key_spec(key@)),
            },
    {
        let full = Self::global_key(key);
        Ok(self.storage.get(full.as_str()))
    }

    /// Appends a message to the conversation; see
    /// [`ConversationMemoryStore::add_message`].
    pub fn add_conversation_message(&mut self, message: Message) -> (r: Result<(), MemoryError>)
        ensures
            r is Ok,
            old(self).same_identity(*final(self)),
            !old(self).conv().persist_on() ==> final(self).store_view() == old(self).store_view(),
            old(self).conv().persist_on() ==> frame_outside(
                old(self).store_view(),
                final(self).store_view(),
                old(self).conv().ns(),
            ),
            old(self).conv().persist_on() && conv_wf(old(self).store_view(), old(self).conv().ns())
                && counter_headroom(old(self).store_view(), old(self).conv().ns()) && old(
                self,
            ).conv().max() >= 1 ==> conv_wf(final(self).store_view(), old(self).conv().ns())
                && conv_model(final(self).store_view(), old(self).conv().ns()) == prune_spec(
                conv_model(old(self).store_view(), old(self).conv().ns()).push(message@),
                old(self).conv().max() as nat,
            ),
    {
        self.conversation.add_message(&mut self.storage, message)
    }

    /// Reads the conversation; see
    /// [`ConversationMemoryStore::get_messages`].
    pub fn get_conversation_messages(&self) -> (r: Result<Vec<Message>, MemoryError>)
        ensures
            !self.conv().persist_on() ==> (r matches Ok(v) && v@.len() == 0),
            self.conv().persist_on() && conv_wf(self.store_view(), self.conv().ns()) ==> (
            r matches Ok(v) && v@.len() == counter_of(self.store_view(), self.conv().ns())
                && forall|i: int|
                0 <= i < v@.len() ==> (#[trigger] v@[i])@ == conv_model(
                    self.store_view(),
                    self.conv().ns(),
                )[i]),
    {
        self.conversation.get_messages(&self.storage)
    }

    /// Clears the conversation, keeping a leading system message; see
    /// [`ConversationMemoryStore::clear`].
    pub fn clear_conversation(&mut self) -> (r: Result<(), MemoryError>)
        ensures
            r is Ok,
            old(self).same_identity(*final(self)),
            !old(self).conv().persist_on() ==> final(self).store_view() == old(self).store_view(),
            old(self).conv().persist_on() ==> frame_outside(
                old(self).store_view(),
                final(self).store_view(),
                old(self).conv().ns(),
            ),
            old(self).conv().persist_on() && conv_wf(old(self).store_view(), old(self).conv().ns())
                && old(self).conv().max() >= 1 ==> conv_wf(
                final(self).store_view(),
                old(self).conv().ns(),
            ) && conv_model(final(self).store_view(), old(self).conv().ns()) == {
                let s = conv_model(old(self).store_view(), old(self).conv().ns());
                if s.len() > 0 && s[0].role == Role::System {
                    seq![s[0]]
                } else {
                    Seq::<MessageModel>::empty()
                }
            },
    {
        self.conversation.clear(&mut self.storage)
    }
}

} // verus!
