//! Chat messages and their storage encoding.
//!
//! A message is stored as a structured document with `role`, `content` and
//! `timestamp` fields; the timestamp is an RFC 3339 string (documents are
//! generic, so the compression layer can sniff it) and takes no part in
//! decoding.

use vstd::prelude::*;
use vstd::string::StringExecFns;

use crate::value::MemoryValue;
use crate::value::ValueModel;
use crate::value::doc_find;
use crate::value::doc_get;
use crate::value::doc_lookup;
use crate::value::fields_model;
use crate::value::lemma_fields_model;

verus! {

broadcast use vstd::string::group_string_axioms;

/// Who said a message.
#[derive(Debug, PartialEq, Eq, Structural, Clone, Copy)]
pub enum Role {
    /// Instructions to the model.
    System,
    /// The human side of the dialogue.
    User,
    /// The model side of the dialogue.
    Assistant,
    /// Output of a tool call.
    Tool,
}

/// One conversation message.
#[derive(Debug)]
pub struct Message {
    /// Who said it.
    pub role: Role,
    /// What was said.
    pub content: String,
}

/// The mathematical model of a message.
pub struct MessageModel {
    /// Who said it.
    pub role: Role,
    /// What was said.
    pub content: Seq<char>,
}

impl View for Message {
    type V = MessageModel;

    open spec fn view(&self) -> MessageModel {
        MessageModel { role: self.role, content: self.content@ }
    }
}

/// The stored name of a role.
pub open spec fn role_name(r: Role) -> Seq<char> {
    match r {
        Role::System => "system"@,
        Role::User => "user"@,
        Role::Assistant => "assistant"@,
        Role::Tool => "tool"@,
    }
}

/// The role a stored name denotes, if any.
pub open spec fn role_of_name(s: Seq<char>) -> Option<Role> {
    if s == "system"@ {
        Some(Role::System)
    } else if s == "user"@ {
        Some(Role::User)
    } else if s == "assistant"@ {
        Some(Role::Assistant)
    } else if s == "tool"@ {
        Some(Role::Tool)
    } else {
        None
    }
}

/// Role names decode back to their role.
pub proof fn lemma_role_name_inverse(r: Role)
    ensures
        role_of_name(role_name(r)) == Some(r),
{
    reveal_strlit("system");
    reveal_strlit("user");
    reveal_strlit("assistant");
    reveal_strlit("tool");
    assert(("system"@).len() == 6);
    assert(("user"@).len() == 4);
    assert(("assistant"@).len() == 9);
    assert(("tool"@).len() == 4);
    assert(("user"@)[0] == 'u');
    assert(("tool"@)[0] == 't');
}

fn role_str(r: Role) -> (s: &'static str)
    ensures
        s@ == role_name(r),
{
    proof {
        reveal_strlit("system");
        reveal_strlit("user");
        reveal_strlit("assistant");
        reveal_strlit("tool");
    }
    match r {
        Role::System => "system",
        Role::User => "user",
        Role::Assistant => "assistant",
        Role::Tool => "tool",
    }
}

fn parse_role(s: &str) -> (r: Option<Role>)
    ensures
        r == role_of_name(s@),
{
    if crate::text::str_eq(s, "system") {
        Some(Role::System)
    } else if crate::text::str_eq(s, "user") {
        Some(Role::User)
    } else if crate::text::str_eq(s, "assistant") {
        Some(Role::Assistant)
    } else if crate::text::str_eq(s, "tool") {
        Some(Role::Tool)
    } else {
        None
    }
}

impl Message {
    /// A system message.
    pub fn system(content: &str) -> (r: Message)
        ensures
            r@.role == Role::System,
            r@.content == content@,
    {
        Message { role: Role::System, content: String::from_str(content) }
    }

    /// A user message.
    pub fn user(content: &str) -> (r: Message)
        ensures
            r@.role == Role::User,
            r@.content == content@,
    {
        Message { role: Role::User, content: String::from_str(content) }
    }

    /// An assistant message.
    pub fn assistant(content: &str) -> (r: Message)
        ensures
            r@.role == Role::Assistant,
            r@.content == content@,
    {
        Message { role: Role::Assistant, content: String::from_str(content) }
    }

    /// A tool message.
    pub fn tool(content: &str) -> (r: Message)
        ensures
            r@.role == Role::Tool,
            r@.content == content@,
    {
        Message { role: Role::Tool, content: String::from_str(content) }
    }

    /// A copy with the same model.
    pub fn duplicate(&self) -> (r: Message)
        ensures
            r@ == self@,
    {
        Message { role: self.role, content: self.content.clone() }
    }
}

/// The document a message is stored as.
pub open spec fn message_doc(m: MessageModel, ts: Seq<char>) -> ValueModel {
    ValueModel::Json(
        seq![
            ("role"@, ValueModel::Str(role_name(m.role))),
            ("content"@, ValueModel::Str(m.content)),
            ("timestamp"@, ValueModel::Str(ts)),
        ],
    )
}

/// What a stored value decodes to as a message: the `role` field must name a
/// role and the `content` field must be text; everything else is ignored.
pub open spec fn decode_message(v: ValueModel) -> Option<MessageModel> {
    match v {
        ValueModel::Json(fs) => match doc_lookup(fs, "role"@) {
            Some(ValueModel::Str(rn)) => match role_of_name(rn) {
                Some(role) => match doc_lookup(fs, "content"@) {
                    Some(ValueModel::Str(c)) => Some(MessageModel { role, content: c }),
                    _ => None,
                },
                None => None,
            },
            _ => None,
        },
        _ => None,
    }
}

/// Encoding then decoding a message yields the message back, whatever
/// timestamp the document carries.
pub proof fn lemma_message_round_trip(m: MessageModel, ts: Seq<char>)
    ensures
        decode_message(message_doc(m, ts)) == Some(m),
{
    reveal_strlit("role");
    reveal_strlit("content");
    reveal_strlit("timestamp");
    reveal_strlit("system");
    reveal_strlit("user");
    reveal_strlit("assistant");
    reveal_strlit("tool");
    let fs = seq![
        ("role"@, ValueModel::Str(role_name(m.role))),
        ("content"@, ValueModel::Str(m.content)),
        ("timestamp"@, ValueModel::Str(ts)),
    ];
    assert(doc_find(fs, "role"@) == 0);
    assert(("content"@).len() == 7);
    assert(("role"@).len() == 4);
    assert("content"@ != "role"@);
    let fs1 = fs.drop_first();
    assert(fs1[0] == fs[1]);
    assert(doc_find(fs1, "content"@) == 0);
    assert(doc_find(fs, "content"@) == 1);
    lemma_role_name_inverse(m.role);
}

/// Encodes a message with the given timestamp rendering.
pub fn encode_message(m: Message, ts: String) -> (r: MemoryValue)
    ensures
        r@ == message_doc(m@, ts@),
{
    let ghost mm = m@;
    let ghost tss = ts@;
    let mut fields: Vec<(String, MemoryValue)> = Vec::new();
    fields.push((String::from_str("role"), MemoryValue::Str(String::from_str(role_str(m.role)))));
    fields.push((String::from_str("content"), MemoryValue::Str(m.content)));
    fields.push((String::from_str("timestamp"), MemoryValue::Str(ts)));
    proof {
        lemma_fields_model(fields@);
        assert(fields_model(fields@) =~= seq![
            ("role"@, ValueModel::Str(role_name(mm.role))),
            ("content"@, ValueModel::Str(mm.content)),
            ("timestamp"@, ValueModel::Str(tss)),
        ]);
    }
    MemoryValue::Json(fields)
}

/// Decodes a stored value as a message.
pub fn decode_message_value(v: &MemoryValue) -> (r: Option<Message>)
    ensures
        match r {
            Some(m) => decode_message(v@) == Some(m@),
            None => decode_message(v@) is None,
        },
{
    match v {
        MemoryValue::Json(fs) => {
            match doc_get(fs, "role") {
                Some(MemoryValue::Str(rs)) => {
                    match parse_role(rs.as_str()) {
                        Some(role) => {
                            match doc_get(fs, "content") {
                                Some(MemoryValue::Str(c)) => {
                                    Some(Message { role, content: c.clone() })
                                },
                                Some(_) => None,
                                None => None,
                            }
                        },
                        None => None,
                    }
                },
                Some(_) => None,
                None => None,
            }
        },
        _ => None,
    }
}

} // verus!
