//! Hierarchical, persistent memory for conversational agents.
//!
//! The crate is built around an in-memory namespaced key-value store
//! ([`store::MemoryStore`]) and five typed views over it: conversation
//! history, a working scratchpad, semantic facts, episodic summaries and a
//! cross-agent shared knowledge base, plus a compression/eviction policy
//! layer. Keys follow the grammar
//! `<scope>::<scope-id>::<category>[::<suffix>]` with scopes `global`,
//! `agent` and `session`.
//!
//! Unlike a shared asynchronous storage handle, every operation here takes
//! the store by exclusive borrow, so the read-modify-write races that a
//! shared handle would allow are closed by construction.

mod compression;
mod config;
mod conversation;
mod episodic;
mod error;
mod manager;
mod message;
mod outside;
mod ranking;
mod record;
mod scope;
mod semantic;
mod shared;
mod store;
mod text;
mod value;
mod vector;
mod working;

pub use compression::CompressionConfig;
pub use compression::CompressionStrategy;
pub use compression::MemoryCompressor;
pub use compression::MemoryStats;
pub use config::MemoryConfig;
pub use conversation::ConversationMemoryStore;
pub use conversation::generate_session_id;
pub use episodic::Episode;
pub use episodic::build_transcript;
pub use episodic::EpisodicMemory;
pub use error::MemoryError;
pub use manager::AgentMemoryManager;
pub use message::Message;
pub use message::Role;
pub use semantic::Fact;
pub use semantic::SemanticMemory;
pub use shared::KnowledgeEntry;
pub use shared::SharedKnowledgeBase;
pub use store::MemoryStore;
pub use value::MemoryValue;
pub use vector::Embedding;
pub use vector::EmbeddingProvider;
pub use vector::HashEmbeddingProvider;
pub use vector::SearchResult;
pub use working::WorkingMemory;
