//! The shared knowledge base: global-scoped entries with access control.
//!
//! Every store stamps `updated_by`/`updated_at` with the acting agent and
//! the clock, even on first write. Reads apply the ACL; deletion is
//! restricted to the creator whatever the ACL says.

use vstd::prelude::*;
use vstd::string::StringExecFns;

use crate::error::MemoryError;
use crate::outside::new_uuid;
use crate::outside::now_millis;
use crate::record::decode_str_dict;
use crate::record::decode_str_list;
use crate::record::decodes_str_dict;
use crate::record::decodes_str_list;
use crate::record::encode_str_dict;
use crate::record::encode_str_list;
use crate::record::lemma_doc_lookup_absent;
use crate::record::lemma_doc_lookup_distinct;
use crate::record::lemma_str_dict_round_trip;
use crate::record::lemma_str_list_round_trip;
use crate::record::pair_views_of;
use crate::record::str_dict_model;
use crate::record::str_list_model;
use crate::record::views_of;
use crate::scope::child_key;
use crate::store::MemoryStore;
use crate::store::keys_in_ns;
use crate::text::str_eq;
use crate::value::MemoryValue;
use crate::value::ValueModel;
use crate::value::doc_get;
use crate::value::doc_lookup;
use crate::value::fields_model;
use crate::value::lemma_fields_model;

verus! {

broadcast use vstd::string::group_string_axioms;

/// A shared knowledge entry.
#[derive(Debug)]
pub struct KnowledgeEntry {
    /// Unique identifier.
    pub id: String,
    /// The key this knowledge lives under.
    pub key: String,
    /// The content.
    pub value: MemoryValue,
    /// The agent that created the entry.
    pub created_by: String,
    /// Creation time, in milliseconds since the UNIX epoch.
    pub created_at: i64,
    /// The agent that last stored the entry.
    pub updated_by: String,
    /// Last store time.
    pub updated_at: i64,
    /// Tags for categorization.
    pub tags: Vec<String>,
    /// Agents allowed to read the entry; absence means public.
    pub acl: Option<Vec<String>>,
    /// Free-form metadata.
    pub metadata: Vec<(String, String)>,
}

/// The mathematical model of a knowledge entry.
pub struct EntryModel {
    /// Unique identifier.
    pub id: Seq<char>,
    /// The key this knowledge lives under.
    pub key: Seq<char>,
    /// The content.
    pub value: ValueModel,
    /// The agent that created the entry.
    pub created_by: Seq<char>,
    /// Creation time.
    pub created_at: int,
    /// The agent that last stored the entry.
    pub updated_by: Seq<char>,
    /// Last store time.
    pub updated_at: int,
    /// Tags for categorization.
    pub tags: Seq<Seq<char>>,
    /// Agents allowed to read the entry; absence means public.
    pub acl: Option<Seq<Seq<char>>>,
    /// Free-form metadata.
    pub metadata: Seq<(Seq<char>, Seq<char>)>,
}

impl View for KnowledgeEntry {
    type V = EntryModel;

    open spec fn view(&self) -> EntryModel {
        EntryModel {
            id: self.id@,
            key: self.key@,
            value: self.value@,
            created_by: self.created_by@,
            created_at: self.created_at as int,
            updated_by: self.updated_by@,
            updated_at: self.updated_at as int,
            tags: views_of(self.tags@),
            acl: match self.acl {
                Some(ref a) => Some(views_of(a@)),
                None => None,
            },
            metadata: pair_views_of(self.metadata@),
        }
    }
}

/// Whether `agent` may read an entry: no ACL means public; with an ACL the
/// creator and the listed agents may.
pub open spec fn has_access_spec(e: EntryModel, agent: Seq<char>) -> bool {
    match e.acl {
        None => true,
        Some(acl) => acl.contains(agent) || agent == e.created_by,
    }
}

impl KnowledgeEntry {
    /// A new entry: fresh id, creator and updater both `created_by`,
    /// creation and update time both the clock reading, no tags, no ACL.
    pub fn new(key: &str, value: MemoryValue, created_by: &str) -> (r: KnowledgeEntry)
        ensures
            r@.key == key@,
            r@.value == value@,
            r@.created_by == created_by@,
            r@.updated_by == created_by@,
            r@.created_at == r@.updated_at,
            r@.tags.len() == 0,
            r@.acl is None,
            r@.metadata.len() == 0,
            r@.id.len() == 36,
    {
        let now = now_millis();
        let r = KnowledgeEntry {
            id: new_uuid(),
            key: String::from_str(key),
            value,
            created_by: String::from_str(created_by),
            created_at: now,
            updated_by: String::from_str(created_by),
            updated_at: now,
            tags: Vec::new(),
            acl: None,
            metadata: Vec::new(),
        };
        proof {
            assert(views_of(r.tags@) =~= Seq::<Seq<char>>::empty());
            assert(pair_views_of(r.metadata@) =~= Seq::<(Seq<char>, Seq<char>)>::empty());
        }
        r
    }

    /// Replaces the tags.
    pub fn with_tags(self, tags: Vec<String>) -> (r: KnowledgeEntry)
        ensures
            r@ == (EntryModel { tags: views_of(tags@), ..self@ }),
    {
        KnowledgeEntry { tags, ..self }
    }

    /// Sets the access control list.
    pub fn with_acl(self, acl: Vec<String>) -> (r: KnowledgeEntry)
        ensures
            r@ == (EntryModel { acl: Some(views_of(acl@)), ..self@ }),
    {
        KnowledgeEntry { acl: Some(acl), ..self }
    }

    /// Adds one metadata pair.
    pub fn with_metadata(self, key: &str, value: &str) -> (r: KnowledgeEntry)
        ensures
            r@ == (EntryModel { metadata: self@.metadata.push((key@, value@)), ..self@ }),
    {
        let mut metadata = self.metadata;
        let ghost before = metadata@;
        metadata.push((String::from_str(key), String::from_str(value)));
        proof {
            assert(pair_views_of(metadata@) =~= pair_views_of(before).push((key@, value@)));
        }
        KnowledgeEntry { metadata, ..self }
    }

    /// Whether `agent_id` may read this entry.
    pub fn has_access(&self, agent_id: &str) -> (r: bool)
        ensures
            r == has_access_spec(self@, agent_id@),
    {
        match &self.acl {
            None => true,
            Some(acl) => {
                let mut i: usize = 0;
                let mut found = false;
                while i < acl.len()
                    invariant
                        i <= acl@.len(),
                        found == exists|j: int|
                            0 <= j < i && views_of(acl@)[j] == agent_id@,
                    decreases acl@.len() - i,
                {
                    if str_eq(acl[i].as_str(), agent_id) {
                        proof {
                            assert(views_of(acl@)[i as int] == agent_id@);
                        }
                        found = true;
                    }
                    i += 1;
                }
                proof {
                    if found {
                        let j = choose|j: int| 0 <= j < i && views_of(acl@)[j] == agent_id@;
                        assert(views_of(acl@).contains(agent_id@));
                    } else {
                        if views_of(acl@).contains(agent_id@) {
                            let j = choose|j: int|
                                0 <= j < views_of(acl@).len() && views_of(acl@)[j] == agent_id@;
                        }
                    }
                }
                if found {
                    true
                } else {
                    str_eq(self.created_by.as_str(), agent_id)
                }
            },
        }
    }

    /// A copy with the same model.
    pub fn duplicate(&self) -> (r: KnowledgeEntry)
        ensures
            r@ == self@,
    {
        KnowledgeEntry {
            id: self.id.clone(),
            key: self.key.clone(),
            value: self.value.duplicate(),
            created_by: self.created_by.clone(),
            created_at: self.created_at,
            updated_by: self.updated_by.clone(),
            updated_at: self.updated_at,
            tags: clone_strs(&self.tags),
            acl: match &self.acl {
                Some(a) => Some(clone_strs(a)),
                None => None,
            },
            metadata: clone_str_pairs(&self.metadata),
        }
    }
}

fn clone_strs(v: &Vec<String>) -> (r: Vec<String>)
    ensures
        views_of(r@) == views_of(v@),
{
    let mut out: Vec<String> = Vec::new();
    let mut i: usize = 0;
    while i < v.len()
        invariant
            i <= v@.len(),
            out@.len() == i,
            forall|j: int| 0 <= j < i ==> #[trigger] out@[j] == v@[j],
        decreases v@.len() - i,
    {
        out.push(v[i].clone());
        i += 1;
    }
    proof {
        assert(views_of(out@) =~= views_of(v@));
    }
    out
}

fn clone_str_pairs(v: &Vec<(String, String)>) -> (r: Vec<(String, String)>)
    ensures
        pair_views_of(r@) == pair_views_of(v@),
{
    let mut out: Vec<(String, String)> = Vec::new();
    let mut i: usize = 0;
    while i < v.len()
        invariant
            i <= v@.len(),
            out@.len() == i,
            forall|j: int| 0 <= j < i ==> #[trigger] out@[j] == v@[j],
        decreases v@.len() - i,
    {
        out.push((v[i].0.clone(), v[i].1.clone()));
        i += 1;
    }
    proof {
        assert(pair_views_of(out@) =~= pair_views_of(v@));
    }
    out
}

/// The field list of an entry document; `acl` is present only when set.
pub open spec fn entry_fields(e: EntryModel) -> Seq<(Seq<char>, ValueModel)> {
    let head = seq![
        ("id"@, ValueModel::Str(e.id)),
        ("key"@, ValueModel::Str(e.key)),
        ("value"@, e.value),
        ("created_by"@, ValueModel::Str(e.created_by)),
        ("created_at"@, ValueModel::Int(e.created_at)),
        ("updated_by"@, ValueModel::Str(e.updated_by)),
        ("updated_at"@, ValueModel::Int(e.updated_at)),
        ("tags"@, str_list_model(e.tags)),
        ("metadata"@, str_dict_model(e.metadata)),
    ];
    match e.acl {
        Some(a) => head.push(("acl"@, str_list_model(a))),
        None => head,
    }
}

/// The document an entry is stored as.
pub open spec fn entry_doc(e: EntryModel) -> ValueModel {
    ValueModel::Json(entry_fields(e))
}

/// What a stored value decodes to as a knowledge entry.
pub open spec fn decode_entry(v: ValueModel) -> Option<EntryModel> {
    match v {
        ValueModel::Json(fs) => {
            if {
                &&& doc_lookup(fs, "id"@) matches Some(ValueModel::Str(_))
                &&& doc_lookup(fs, "key"@) matches Some(ValueModel::Str(_))
                &&& doc_lookup(fs, "value"@) is Some
                &&& doc_lookup(fs, "created_by"@) matches Some(ValueModel::Str(_))
                &&& doc_lookup(fs, "created_at"@) matches Some(ValueModel::Int(_))
                &&& doc_lookup(fs, "updated_by"@) matches Some(ValueModel::Str(_))
                &&& doc_lookup(fs, "updated_at"@) matches Some(ValueModel::Int(_))
                &&& (doc_lookup(fs, "tags"@) matches Some(tv) && decodes_str_list(tv) is Some)
                &&& (doc_lookup(fs, "metadata"@) matches Some(mv) && decodes_str_dict(mv) is Some)
                &&& match doc_lookup(fs, "acl"@) {
                    Some(av) => decodes_str_list(av) is Some,
                    None => true,
                }
            } {
                Some(
                    EntryModel {
                        id: doc_lookup(fs, "id"@)->Some_0->Str_0,
                        key: doc_lookup(fs, "key"@)->Some_0->Str_0,
                        value: doc_lookup(fs, "value"@)->Some_0,
                        created_by: doc_lookup(fs, "created_by"@)->Some_0->Str_0,
                        created_at: doc_lookup(fs, "created_at"@)->Some_0->Int_0,
                        updated_by: doc_lookup(fs, "updated_by"@)->Some_0->Str_0,
                        updated_at: doc_lookup(fs, "updated_at"@)->Some_0->Int_0,
                        tags: decodes_str_list(doc_lookup(fs, "tags"@)->Some_0)->Some_0,
                        acl: match doc_lookup(fs, "acl"@) {
                            Some(av) => Some(decodes_str_list(av)->Some_0),
                            None => None,
                        },
                        metadata: decodes_str_dict(doc_lookup(fs, "metadata"@)->Some_0)->Some_0,
                    },
                )
            } else {
                None
            }
        },
        _ => None,
    }
}

#[verifier::rlimit(60)]
proof fn lemma_entry_field_names(e: EntryModel)
    ensures
        forall|a: int, b: int|
            0 <= a < b < entry_fields(e).len() ==> entry_fields(e)[a].0 != entry_fields(e)[b].0,
        forall|a: int|
            0 <= a < entry_fields(e).len() && e.acl is None ==> entry_fields(e)[a].0 != "acl"@,
{
    reveal_strlit("id");
    reveal_strlit("key");
    reveal_strlit("value");
    reveal_strlit("created_by");
    reveal_strlit("created_at");
    reveal_strlit("updated_by");
    reveal_strlit("updated_at");
    reveal_strlit("tags");
    reveal_strlit("metadata");
    reveal_strlit("acl");
    assert(("id"@).len() == 2);
    assert(("key"@).len() == 3);
    assert(("value"@).len() == 5);
    assert(("created_by"@).len() == 10);
    assert(("created_at"@).len() == 10);
    assert(("updated_by"@).len() == 10);
    assert(("updated_at"@).len() == 10);
    assert(("tags"@).len() == 4);
    assert(("metadata"@).len() == 8);
    assert(("acl"@).len() == 3);
    assert(("created_by"@)[0] == 'c');
    assert(("updated_by"@)[0] == 'u');
    assert(("created_at"@)[0] == 'c');
    assert(("updated_at"@)[0] == 'u');
    assert(("created_by"@)[8] == 'b');
    assert(("created_at"@)[8] == 'a');
    assert(("updated_by"@)[8] == 'b');
    assert(("updated_at"@)[8] == 'a');
    assert(("key"@)[0] == 'k');
    assert(("acl"@)[0] == 'a');
    assert(("tags"@)[0] == 't');
    let fs = entry_fields(e);
    assert(fs[0].0 == "id"@);
    assert(fs[1].0 == "key"@);
    assert(fs[2].0 == "value"@);
    assert(fs[3].0 == "created_by"@);
    assert(fs[4].0 == "created_at"@);
    assert(fs[5].0 == "updated_by"@);
    assert(fs[6].0 == "updated_at"@);
    assert(fs[7].0 == "tags"@);
    assert(fs[8].0 == "metadata"@);
    assert("created_by"@ != "created_at"@);
    assert("created_by"@ != "updated_by"@);
    assert("created_by"@ != "updated_at"@);
    assert("created_at"@ != "updated_by"@);
    assert("created_at"@ != "updated_at"@);
    assert("updated_by"@ != "updated_at"@);
    assert("key"@ != "acl"@);
    match e.acl {
        Some(_) => {
            assert(fs.len() == 10);
            assert(fs[9].0 == "acl"@);
        },
        None => {
            assert(fs.len() == 9);
        },
    }
    assert forall|a: int, b: int|
        0 <= a < b < fs.len() implies fs[a].0 != fs[b].0 by {
        assert(fs[a].0 == fs[a].0);
    }
}

/// Encoding then decoding an entry yields the entry back.
pub proof fn lemma_entry_round_trip(e: EntryModel)
    ensures
        decode_entry(entry_doc(e)) == Some(e),
{
    let fs = entry_fields(e);
    lemma_entry_field_names(e);
    lemma_doc_lookup_distinct(fs, 0);
    lemma_doc_lookup_distinct(fs, 1);
    lemma_doc_lookup_distinct(fs, 2);
    lemma_doc_lookup_distinct(fs, 3);
    lemma_doc_lookup_distinct(fs, 4);
    lemma_doc_lookup_distinct(fs, 5);
    lemma_doc_lookup_distinct(fs, 6);
    lemma_doc_lookup_distinct(fs, 7);
    lemma_doc_lookup_distinct(fs, 8);
    lemma_str_list_round_trip(e.tags);
    lemma_str_dict_round_trip(e.metadata);
    match e.acl {
        Some(a) => {
            lemma_doc_lookup_distinct(fs, 9);
            lemma_str_list_round_trip(a);
        },
        None => {
            lemma_doc_lookup_absent(fs, "acl"@);
        },
    }
}

/// Encodes an entry as a document.
pub fn encode_entry(e: KnowledgeEntry) -> (r: MemoryValue)
    ensures
        r@ == entry_doc(e@),
{
    let ghost em = e@;
    let mut fields: Vec<(String, MemoryValue)> = Vec::new();
    let acl = e.acl;
    fields.push((String::from_str("id"), MemoryValue::Str(e.id)));
    fields.push((String::from_str("key"), MemoryValue::Str(e.key)));
    fields.push((String::from_str("value"), e.value));
    fields.push((String::from_str("created_by"), MemoryValue::Str(e.created_by)));
    fields.push((String::from_str("created_at"), MemoryValue::Int(e.created_at)));
    fields.push((String::from_str("updated_by"), MemoryValue::Str(e.updated_by)));
    fields.push((String::from_str("updated_at"), MemoryValue::Int(e.updated_at)));
    fields.push((String::from_str("tags"), encode_str_list(e.tags)));
    fields.push((String::from_str("metadata"), encode_str_dict(e.metadata)));
    match acl {
        Some(a) => {
            fields.push((String::from_str("acl"), encode_str_list(a)));
        },
        None => {},
    }
    proof {
        lemma_fields_model(fields@);
        assert(fields_model(fields@) =~= entry_fields(em));
    }
    MemoryValue::Json(fields)
}

/// Decodes a stored value as a knowledge entry.
pub fn decode_entry_value(v: &MemoryValue) -> (r: Option<KnowledgeEntry>)
    ensures
        match r {
            Some(e) => decode_entry(v@) == Some(e@),
            None => decode_entry(v@) is None,
        },
{
    let fs = match v {
        MemoryValue::Json(fs) => fs,
        _ => {
            return None;
        },
    };
    let id = match doc_get(fs, "id") {
        Some(MemoryValue::Str(s)) => s.clone(),
        _ => {
            return None;
        },
    };
    let key = match doc_get(fs, "key") {
        Some(MemoryValue::Str(s)) => s.clone(),
        _ => {
            return None;
        },
    };
    let value = match doc_get(fs, "value") {
        Some(v2) => v2.duplicate(),
        None => {
            return None;
        },
    };
    let created_by = match doc_get(fs, "created_by") {
        Some(MemoryValue::Str(s)) => s.clone(),
        _ => {
            return None;
        },
    };
    let created_at = match doc_get(fs, "created_at") {
        Some(MemoryValue::Int(n)) => *n,
        _ => {
            return None;
        },
    };
    let updated_by = match doc_get(fs, "updated_by") {
        Some(MemoryValue::Str(s)) => s.clone(),
        _ => {
            return None;
        },
    };
    let updated_at = match doc_get(fs, "updated_at") {
        Some(MemoryValue::Int(n)) => *n,
        _ => {
            return None;
        },
    };
    let tags = match doc_get(fs, "tags") {
        Some(tv) => match decode_str_list(tv) {
            Some(ss) => ss,
            None => {
                return None;
            },
        },
        None => {
            return None;
        },
    };
    let metadata = match doc_get(fs, "metadata") {
        Some(mv) => match decode_str_dict(mv) {
            Some(ps) => ps,
            None => {
                return None;
            },
        },
        None => {
            return None;
        },
    };
    let acl = match doc_get(fs, "acl") {
        Some(av) => match decode_str_list(av) {
            Some(ss) => Some(ss),
            None => {
                return None;
            },
        },
        None => None,
    };
    Some(
        KnowledgeEntry {
            id,
            key,
            value,
            created_by,
            created_at,
            updated_by,
            updated_at,
            tags,
            acl,
            metadata,
        },
    )
}

/// The storage key of entry `key`: `global::knowledge::<key>`.
pub open spec fn entry_key_spec(key: Seq<char>) -> Seq<char> {
    "global::knowledge"@ + "::"@ + key
}

/// The entry `e` as stored by `agent` at time `t`: the update stamp is
/// rewritten on every store, including the first.
pub open spec fn stamped(e: EntryModel, agent: Seq<char>, t: int) -> EntryModel {
    EntryModel { updated_by: agent, updated_at: t, ..e }
}

/// The entry `agent` can read under `key`, if any: it must be stored,
/// decode, and pass the ACL.
pub open spec fn readable_entry(
    m: Map<Seq<char>, ValueModel>,
    key: Seq<char>,
    agent: Seq<char>,
) -> Option<EntryModel> {
    if m.contains_key(entry_key_spec(key)) {
        match decode_entry(m[entry_key_spec(key)]) {
            Some(e) => if has_access_spec(e, agent) {
                Some(e)
            } else {
                None
            },
            None => None,
        }
    } else {
        None
    }
}

/// The entries the values at `ks` decode to in `m`, in key order; a
/// missing key or a value that is no entry document contributes nothing.
pub open spec fn entries_under(m: Map<Seq<char>, ValueModel>, ks: Seq<Seq<char>>) -> Seq<
    EntryModel,
>
    decreases ks.len(),
{
    if ks.len() == 0 {
        Seq::empty()
    } else {
        let rest = entries_under(m, ks.drop_last());
        if m.contains_key(ks.last()) && decode_entry(m[ks.last()]) is Some {
            rest.push(decode_entry(m[ks.last()])->Some_0)
        } else {
            rest
        }
    }
}

/// Every entry a storage state (with key sequence `ks`) holds under the
/// knowledge namespace `ns`, accessible or not, in storage order.
pub open spec fn stored_entries(
    m: Map<Seq<char>, ValueModel>,
    ks: Seq<Seq<char>>,
    ns: Seq<char>,
) -> Seq<EntryModel> {
    entries_under(m, keys_in_ns(ks, Some(ns)))
}

/// The models of an entry sequence.
pub open spec fn entry_views(s: Seq<KnowledgeEntry>) -> Seq<EntryModel> {
    Seq::new(s.len(), |i: int| s[i]@)
}

/// Entries the agent may read.
pub open spec fn readable_by(agent: Seq<char>) -> spec_fn(EntryModel) -> bool {
    |e: EntryModel| has_access_spec(e, agent)
}

/// Entries carrying exactly the tag `tag`.
pub open spec fn has_tag(tag: Seq<char>) -> spec_fn(EntryModel) -> bool {
    |e: EntryModel| e.tags.contains(tag)
}

/// Entries created by `creator`.
pub open spec fn created_by_is(creator: Seq<char>) -> spec_fn(EntryModel) -> bool {
    |e: EntryModel| e.created_by == creator
}

/// Cross-agent knowledge, global-scoped, read through an ACL.
pub struct SharedKnowledgeBase {
    agent_id: String,
    namespace: String,
}

impl SharedKnowledgeBase {
    /// The acting agent.
    pub closed spec fn agent(self) -> Seq<char> {
        self.agent_id@
    }

    /// The namespace, `global::knowledge`.
    pub closed spec fn ns(self) -> Seq<char> {
        self.namespace@
    }

    /// A well-formed knowledge base handle.
    pub open spec fn wf(self) -> bool {
        self.ns() == "global::knowledge"@
    }

    /// A knowledge base acting as `agent_id`.
    pub fn new(agent_id: &str) -> (r: SharedKnowledgeBase)
        ensures
            r.agent() == agent_id@,
            r.wf(),
    {
        SharedKnowledgeBase {
            agent_id: String::from_str(agent_id),
            namespace: String::from_str("global::knowledge"),
        }
    }

    /// The storage key of entry `key`.
    pub fn entry_key(&self, key: &str) -> (r: String)
        requires
            self.wf(),
        ensures
            r@ == entry_key_spec(key@),
    {
        child_key(self.namespace.as_str(), key)
    }

    /// Stores `entry`, stamping `updated_by` with the acting agent and
    /// `updated_at` with the clock.
    pub fn store_entry(&self, store: &mut MemoryStore, entry: KnowledgeEntry) -> (r: Result<
        (),
        MemoryError,
    >)
        requires
            self.wf(),
        ensures
            r is Ok,
            exists|t: int|
                final(store)@ == old(store)@.insert(
                    entry_key_spec(entry@.key),
                    entry_doc(#[trigger] stamped(entry@, self.agent(), t)),
                ),
            final(store).coherent(),
    {
        let ghost em = entry@;
        let mut entry = entry;
        entry.updated_by = self.agent_id.clone();
        entry.updated_at = now_millis();
        let ghost sm = entry@;
        let key = self.entry_key(entry.key.as_str());
        let doc = encode_entry(entry);
        store.set(key, doc);
        proof {
            assert(sm == stamped(em, self.agent(), sm.updated_at));
        }
        Ok(())
    }

    /// Builds and stores an entry for `key`; the returned entry is the one
    /// built, created by the acting agent.
    pub fn store(&self, store: &mut MemoryStore, key: &str, value: MemoryValue) -> (r: Result<
        KnowledgeEntry,
        MemoryError,
    >)
        requires
            self.wf(),
        ensures
            r matches Ok(e) && e@.key == key@ && e@.value == value@ && e@.created_by
                == self.agent() && e@.acl is None && e@.tags.len() == 0,
            exists|t: int, e2: EntryModel|
                final(store)@ == old(store)@.insert(
                    entry_key_spec(key@),
                    entry_doc(#[trigger] stamped(e2, self.agent(), t)),
                ) && e2.key == key@ && e2.value == value@ && e2.created_by == self.agent()
                    && e2.acl is None,
            final(store).coherent(),
    {
        let entry = KnowledgeEntry::new(key, value, self.agent_id.as_str());
        let copy = entry.duplicate();
        self.store_entry(store, copy)?;
        Ok(entry)
    }

    /// Builds and stores a tagged entry for `key`.
    pub fn store_with_tags(
        &self,
        store: &mut MemoryStore,
        key: &str,
        value: MemoryValue,
        tags: Vec<String>,
    ) -> (r: Result<KnowledgeEntry, MemoryError>)
        requires
            self.wf(),
        ensures
            r matches Ok(e) && e@.key == key@ && e@.value == value@ && e@.created_by
                == self.agent() && e@.acl is None && e@.tags == views_of(tags@),
            final(store).coherent(),
    {
        let entry = KnowledgeEntry::new(key, value, self.agent_id.as_str()).with_tags(tags);
        let copy = entry.duplicate();
        self.store_entry(store, copy)?;
        Ok(entry)
    }

    /// Reads the entry under `key`, applying the ACL: an inaccessible or
    /// absent entry reads as nothing; a malformed document is a
    /// serialization error.
    pub fn get(&self, store: &MemoryStore, key: &str) -> (r: Result<
        Option<KnowledgeEntry>,
        MemoryError,
    >)
        requires
            self.wf(),
        ensures
            match r {
                Ok(v) => match v {
                    Some(er) => readable_entry(store@, key@, self.agent()) == Some(er@),
                    None => readable_entry(store@, key@, self.agent()) is None,
                },
                Err(_) => store@.contains_key(entry_key_spec(key@)) && decode_entry(
                    store@[entry_key_spec(key@)],
                ) is None && store@[entry_key_spec(key@)] is Json,
            },
            store@.contains_key(entry_key_spec(key@)) && decode_entry(
                store@[entry_key_spec(key@)],
            ) is None && store@[entry_key_spec(key@)] is Json ==> r is Err,
    {
        let skey = self.entry_key(key);
        match store.get(skey.as_str()) {
            Some(v) => {
                match v {
                    MemoryValue::Json(_) => {
                        match decode_entry_value(v) {
                            Some(e) => {
                                if e.has_access(self.agent_id.as_str()) {
                                    Ok(Some(e))
                                } else {
                                    Ok(None)
                                }
                            },
                            None => Err(
                                MemoryError::Serialization {
                                    operation: String::from_str("decode_entry"),
                                },
                            ),
                        }
                    },
                    _ => Ok(None),
                }
            },
            None => Ok(None),
        }
    }

    /// Reads just the value under `key`, applying the ACL.
    pub fn get_value(&self, store: &MemoryStore, key: &str) -> (r: Result<
        Option<MemoryValue>,
        MemoryError,
    >)
        requires
            self.wf(),
        ensures
            match r {
                Ok(v) => match v {
                    Some(mv) => readable_entry(store@, key@, self.agent()) matches Some(e) && mv@
                        == e.value,
                    None => readable_entry(store@, key@, self.agent()) is None,
                },
                Err(_) => true,
            },
            readable_entry(store@, key@, self.agent()) is Some ==> r is Ok,
    {
        match self.get(store, key)? {
            Some(e) => Ok(Some(e.value)),
            None => Ok(None),
        }
    }

    /// Deletes the entry under `key`. Only the creator may delete: any
    /// other agent gets `false` and the entry stays; deleting a decodable
    /// entry as its creator, or whatever sits under the key when no entry
    /// decodes, removes it.
    pub fn delete(&self, store: &mut MemoryStore, key: &str) -> (r: Result<bool, MemoryError>)
        requires
            self.wf(),
        ensures
            ({
                let k = entry_key_spec(key@);
                let m0 = old(store)@;
                &&& ((m0.contains_key(k) && (decode_entry(m0[k]) matches Some(e) && e.created_by
                    != self.agent())) ==> (r matches Ok(b) && !b) && final(store)@ == m0)
                &&& ((m0.contains_key(k) && (decode_entry(m0[k]) matches Some(e) && e.created_by
                    == self.agent())) ==> (r matches Ok(b) && b) && final(store)@ == m0.remove(k))
                &&& (m0.contains_key(k) && decode_entry(m0[k]) is None && m0[k] is Json ==> r is Err
                    && final(store)@ == m0)
                &&& (m0.contains_key(k) && decode_entry(m0[k]) is None && !(m0[k] is Json) ==> (
                r matches Ok(b) && b) && final(store)@ == m0.remove(k))
                &&& (!m0.contains_key(k) ==> (r matches Ok(b) && !b) && final(store)@ == m0)
            }),
            final(store).coherent(),
            old(store).coherent(),
    {
        let skey = self.entry_key(key);
        let creator_blocks = match store.get(skey.as_str()) {
            Some(v) => {
                match v {
                    MemoryValue::Json(_) => {
                        match decode_entry_value(v) {
                            Some(e) => !str_eq(e.created_by.as_str(), self.agent_id.as_str()),
                            None => {
                                return Err(
                                    MemoryError::Serialization {
                                        operation: String::from_str("decode_entry"),
                                    },
                                );
                            },
                        }
                    },
                    _ => false,
                }
            },
            None => false,
        };
        if creator_blocks {
            proof {
                assert(store@ =~= old(store)@);
            }
            return Ok(false);
        }
        Ok(store.delete(skey.as_str()))
    }

    /// Whether an accessible entry sits under `key`.
    pub fn exists_key(&self, store: &MemoryStore, key: &str) -> (r: Result<bool, MemoryError>)
        requires
            self.wf(),
        ensures
            match r {
                Ok(b) => b == (readable_entry(store@, key@, self.agent()) is Some),
                Err(_) => store@.contains_key(entry_key_spec(key@)) && decode_entry(
                    store@[entry_key_spec(key@)],
                ) is None && store@[entry_key_spec(key@)] is Json,
            },
    {
        match self.get(store, key)? {
            Some(_) => Ok(true),
            None => Ok(false),
        }
    }

    /// How many entries are stored, accessible or not.
    pub fn count(&self, store: &MemoryStore) -> (r: Result<usize, MemoryError>)
        requires
            self.wf(),
        ensures
            r matches Ok(n) && n == keys_in_ns(store.key_seq(), Some(self.ns())).len(),
    {
        Ok(store.count(Some(self.namespace.as_str())))
    }

    /// Removes every entry.
    pub fn clear(&self, store: &mut MemoryStore) -> (r: Result<(), MemoryError>)
        requires
            self.wf(),
        ensures
            r is Ok,
            final(store)@ == crate::store::clear_model(old(store)@, Some(self.ns())),
            keys_in_ns(final(store).key_seq(), Some(self.ns())) == Seq::<Seq<char>>::empty(),
            final(store).coherent(),
    {
        store.clear(Some(self.namespace.as_str()));
        Ok(())
    }

    /// Every stored entry that decodes and that the acting agent may read,
    /// in storage order; a value that is no entry document contributes
    /// nothing.
    pub fn get_all_entries(&self, store: &MemoryStore) -> (r: Result<
        Vec<KnowledgeEntry>,
        MemoryError,
    >)
        requires
            self.wf(),
        ensures
            r matches Ok(v) && entry_views(v@) == stored_entries(
                store@,
                store.key_seq(),
                self.ns(),
            ).filter(readable_by(self.agent())),
    {
        let keys = store.keys(Some(self.namespace.as_str()));
        let ghost filtered = keys_in_ns(store.key_seq(), Some(self.ns()));
        let ghost pred = readable_by(self.agent());
        let mut out: Vec<KnowledgeEntry> = Vec::new();
        let mut i: usize = 0;
        while i < keys.len()
            invariant
                i <= keys@.len(),
                filtered == keys_in_ns(store.key_seq(), Some(self.ns())),
                keys@.len() == filtered.len(),
                forall|j: int| 0 <= j < filtered.len() ==> (#[trigger] keys@[j])@ == filtered[j],
                pred == readable_by(self.agent()),
                entry_views(out@) == entries_under(store@, filtered.subrange(0, i as int)).filter(
                    pred,
                ),
            decreases keys@.len() - i,
        {
            let ghost pre = filtered.subrange(0, i as int);
            let ghost pre1 = filtered.subrange(0, i as int + 1);
            proof {
                assert(pre1.drop_last() =~= pre);
                assert(pre1.last() == filtered[i as int]);
            }
            let ghost under = entries_under(store@, pre);
            match store.get(keys[i].as_str()) {
                Some(v) => {
                    match decode_entry_value(v) {
                        Some(e) => {
                            proof {
                                crate::store::lemma_filter_push(under, e@, pred);
                                assert(entries_under(store@, pre1) =~= under.push(e@));
                            }
                            if e.has_access(self.agent_id.as_str()) {
                                let ghost before = out@;
                                out.push(e);
                                proof {
                                    assert(entry_views(out@) =~= entry_views(before).push(
                                        entries_under(store@, pre1).last(),
                                    ));
                                }
                            }
                        },
                        None => {},
                    }
                },
                None => {},
            }
            i += 1;
        }
        proof {
            assert(filtered.subrange(0, filtered.len() as int) =~= filtered);
        }
        Ok(out)
    }

    /// The accessible entries carrying exactly the tag `tag`: exactly
    /// those among the stored entries, in storage order.
    pub fn find_by_tag(&self, store: &MemoryStore, tag: &str) -> (r: Result<
        Vec<KnowledgeEntry>,
        MemoryError,
    >)
        requires
            self.wf(),
        ensures
            r matches Ok(v) && entry_views(v@) == stored_entries(
                store@,
                store.key_seq(),
                self.ns(),
            ).filter(readable_by(self.agent())).filter(has_tag(tag@)),
    {
        let all = self.get_all_entries(store)?;
        let ghost avs = entry_views(all@);
        let ghost pred = has_tag(tag@);
        let mut out: Vec<KnowledgeEntry> = Vec::new();
        let mut i: usize = 0;
        while i < all.len()
            invariant
                i <= all@.len(),
                avs == entry_views(all@),
                avs.len() == all@.len(),
                pred == has_tag(tag@),
                entry_views(out@) == avs.subrange(0, i as int).filter(pred),
            decreases all@.len() - i,
        {
            let ghost pre = avs.subrange(0, i as int);
            let ghost pre1 = avs.subrange(0, i as int + 1);
            proof {
                assert(pre1 =~= pre.push(avs[i as int]));
                crate::store::lemma_filter_push(pre, avs[i as int], pred);
            }
            let mut matched = false;
            let mut t: usize = 0;
            while t < all[i].tags.len()
                invariant
                    0 <= i < all@.len(),
                    t <= all@[i as int].tags@.len(),
                    matched == exists|t2: int|
                        0 <= t2 < t && views_of(all@[i as int].tags@)[t2] == tag@,
                decreases all@[i as int].tags@.len() - t,
            {
                if str_eq(all[i].tags[t].as_str(), tag) {
                    proof {
                        assert(views_of(all@[i as int].tags@)[t as int] == tag@);
                    }
                    matched = true;
                }
                t += 1;
            }
            proof {
                assert(avs[i as int] == all@[i as int]@);
                assert(matched == pred(avs[i as int])) by {
                    if matched {
                        let t2 = choose|t2: int|
                            0 <= t2 < all@[i as int].tags@.len() && views_of(
                                all@[i as int].tags@,
                            )[t2] == tag@;
                        assert(avs[i as int].tags[t2] == tag@);
                    }
                    if pred(avs[i as int]) {
                        let t2 = choose|t2: int|
                            0 <= t2 < avs[i as int].tags.len() && avs[i as int].tags[t2] == tag@;
                        assert(views_of(all@[i as int].tags@)[t2] == tag@);
                    }
                }
            }
            if matched {
                let ghost before = out@;
                out.push(all[i].duplicate());
                proof {
                    assert(entry_views(out@) =~= entry_views(before).push(all@[i as int]@));
                }
            }
            i += 1;
        }
        proof {
            assert(avs.subrange(0, avs.len() as int) =~= avs);
        }
        Ok(out)
    }

    /// The accessible entries created by `creator_agent_id`: exactly those
    /// among the stored entries, in storage order.
    pub fn find_by_creator(&self, store: &MemoryStore, creator_agent_id: &str) -> (r: Result<
        Vec<KnowledgeEntry>,
        MemoryError,
    >)
        requires
            self.wf(),
        ensures
            r matches Ok(v) && entry_views(v@) == stored_entries(
                store@,
                store.key_seq(),
                self.ns(),
            ).filter(readable_by(self.agent())).filter(created_by_is(creator_agent_id@)),
    {
        let all = self.get_all_entries(store)?;
        let ghost avs = entry_views(all@);
        let ghost pred = created_by_is(creator_agent_id@);
        let mut out: Vec<KnowledgeEntry> = Vec::new();
        let mut i: usize = 0;
        while i < all.len()
            invariant
                i <= all@.len(),
                avs == entry_views(all@),
                avs.len() == all@.len(),
                pred == created_by_is(creator_agent_id@),
                entry_views(out@) == avs.subrange(0, i as int).filter(pred),
            decreases all@.len() - i,
        {
            let ghost pre = avs.subrange(0, i as int);
            let ghost pre1 = avs.subrange(0, i as int + 1);
            proof {
                assert(pre1 =~= pre.push(avs[i as int]));
                crate::store::lemma_filter_push(pre, avs[i as int], pred);
            }
            if str_eq(all[i].created_by.as_str(), creator_agent_id) {
                let ghost before = out@;
                out.push(all[i].duplicate());
                proof {
                    assert(entry_views(out@) =~= entry_views(before).push(all@[i as int]@));
                }
            }
            i += 1;
        }
        proof {
            assert(avs.subrange(0, avs.len() as int) =~= avs);
        }
        Ok(out)
    }
}

} // verus!
