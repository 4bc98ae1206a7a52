//! Key derivation for the three scopes.
//!
//! The key grammar is `<scope>::<scope-id>::<category>[::<suffix>]` with
//! scopes `global`, `agent` and `session`; a namespace is everything up to
//! and including the category.

use vstd::prelude::*;
use vstd::string::StringExecFns;

use crate::text::str_join;

verus! {

/// The namespace of agent-scoped memory: `agent::<agent_id>::<category>`.
pub open spec fn agent_ns_spec(agent_id: Seq<char>, category: Seq<char>) -> Seq<char> {
    "agent::"@ + agent_id + "::"@ + category
}

/// The namespace of session-scoped memory: `session::<session_id>::<category>`.
pub open spec fn session_ns_spec(session_id: Seq<char>, category: Seq<char>) -> Seq<char> {
    "session::"@ + session_id + "::"@ + category
}

/// A global-scoped key: `global::<key>`.
pub open spec fn global_key_spec(key: Seq<char>) -> Seq<char> {
    "global::"@ + key
}

/// A key below a namespace: `<ns>::<suffix>`.
pub open spec fn child_key_spec(ns: Seq<char>, suffix: Seq<char>) -> Seq<char> {
    ns + "::"@ + suffix
}

/// Builds `agent::<agent_id>::<category>`.
pub fn agent_ns(agent_id: &str, category: &str) -> (r: String)
    ensures
        r@ == agent_ns_spec(agent_id@, category@),
{
    let mut s = str_join("agent::", agent_id);
    s.append("::");
    s.append(category);
    s
}

/// Builds `session::<session_id>::<category>`.
pub fn session_ns(session_id: &str, category: &str) -> (r: String)
    ensures
        r@ == session_ns_spec(session_id@, category@),
{
    let mut s = str_join("session::", session_id);
    s.append("::");
    s.append(category);
    s
}

/// Builds `global::<key>`.
pub fn global_key(key: &str) -> (r: String)
    ensures
        r@ == global_key_spec(key@),
{
    str_join("global::", key)
}

/// Builds `<ns>::<suffix>`.
pub fn child_key(ns: &str, suffix: &str) -> (r: String)
    ensures
        r@ == child_key_spec(ns@, suffix@),
{
    let mut s = str_join(ns, "::");
    s.append(suffix);
    s
}

/// Every key below a namespace falls under that namespace prefix.
pub proof fn lemma_child_key_in_ns(ns: Seq<char>, suffix: Seq<char>)
    ensures
        crate::text::is_prefix_of(ns, child_key_spec(ns, suffix)),
{
    assert(child_key_spec(ns, suffix).subrange(0, ns.len() as int) =~= ns);
}

} // verus!
