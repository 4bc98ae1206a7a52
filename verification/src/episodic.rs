//! Episodic memory: summarized interaction records with importance-ranked
//! retention.
//!
//! Episodes live at keys `agent::<id>::episodic::episode::<episode-id>`.
//! When the episode count exceeds the bound, the episodes with the lowest
//! `(importance, timestamp)` rank are evicted first.

use vstd::prelude::*;
use vstd::string::StringExecFns;

use crate::error::MemoryError;
use crate::message::Message;
use crate::message::MessageModel;
use crate::message::Role;
use crate::outside::lower_of;
use crate::outside::lowercase;
use crate::outside::new_uuid;
use crate::outside::now_millis;
use crate::ranking::Ranked;
use crate::ranking::key_le;
use crate::ranking::sort_by_keys;
use crate::ranking::sorted_by_keys;
use crate::record::decode_str_dict;
use crate::record::decode_str_list;
use crate::record::decodes_str_dict;
use crate::record::decodes_str_list;
use crate::record::encode_str_dict;
use crate::record::encode_str_list;
use crate::record::lemma_doc_lookup_absent;
use crate::record::lemma_doc_lookup_distinct;
use crate::record::lemma_str_dict_round_trip;
use crate::record::lemma_str_list_round_trip;
use crate::record::pair_views_of;
use crate::record::str_dict_model;
use crate::record::str_list_model;
use crate::record::views_of;
use crate::scope::agent_ns;
use crate::scope::agent_ns_spec;
use crate::store::MemoryStore;
use crate::store::frame_outside;
use crate::store::keys_in_ns;
use crate::store::ns_matches;
use crate::text::contains_seq;
use crate::text::is_prefix_of;
use crate::text::str_contains;
use crate::text::str_join;
use crate::value::MemoryValue;
use crate::value::ValueModel;
use crate::value::doc_get;
use crate::value::doc_lookup;
use crate::value::fields_model;
use crate::value::lemma_fields_model;

verus! {

broadcast use vstd::string::group_string_axioms, vstd::seq_lib::group_to_multiset_ensures;

/// A summarized record of a past interaction.
#[derive(Debug)]
pub struct Episode {
    /// Unique identifier.
    pub id: String,
    /// When the episode occurred, in milliseconds since the UNIX epoch.
    pub timestamp: i64,
    /// Summary of the interaction.
    pub summary: String,
    /// Key topics discussed.
    pub topics: Vec<String>,
    /// Importance in thousandths, `0 ..= 1000`.
    pub importance: u32,
    /// The session this episode is from, if any.
    pub session_id: Option<String>,
    /// Extracted insights.
    pub insights: Vec<String>,
    /// Free-form metadata.
    pub metadata: Vec<(String, String)>,
}

/// The mathematical model of an episode.
pub struct EpisodeModel {
    /// Unique identifier.
    pub id: Seq<char>,
    /// When the episode occurred.
    pub timestamp: int,
    /// Summary of the interaction.
    pub summary: Seq<char>,
    /// Key topics discussed.
    pub topics: Seq<Seq<char>>,
    /// Importance in thousandths.
    pub importance: int,
    /// The session this episode is from, if any.
    pub session_id: Option<Seq<char>>,
    /// Extracted insights.
    pub insights: Seq<Seq<char>>,
    /// Free-form metadata.
    pub metadata: Seq<(Seq<char>, Seq<char>)>,
}

impl View for Episode {
    type V = EpisodeModel;

    open spec fn view(&self) -> EpisodeModel {
        EpisodeModel {
            id: self.id@,
            timestamp: self.timestamp as int,
            summary: self.summary@,
            topics: views_of(self.topics@),
            importance: self.importance as int,
            session_id: match self.session_id {
                Some(s) => Some(s@),
                None => None,
            },
            insights: views_of(self.insights@),
            metadata: pair_views_of(self.metadata@),
        }
    }
}

/// An episode whose importance lies in `0 ..= 1000`.
pub open spec fn episode_valid(e: EpisodeModel) -> bool {
    0 <= e.importance <= 1000
}

impl Episode {
    /// A new episode around `summary`: fresh id, current wall-clock
    /// timestamp, importance one half, everything else empty.
    pub fn new(summary: &str) -> (r: Episode)
        ensures
            r@.summary == summary@,
            r@.importance == 500,
            r@.topics.len() == 0,
            r@.session_id is None,
            r@.insights.len() == 0,
            r@.metadata.len() == 0,
            r@.id.len() == 36,
            episode_valid(r@),
    {
        let r = Episode {
            id: new_uuid(),
            timestamp: now_millis(),
            summary: String::from_str(summary),
            topics: Vec::new(),
            importance: 500,
            session_id: None,
            insights: Vec::new(),
            metadata: Vec::new(),
        };
        proof {
            assert(views_of(r.topics@) =~= Seq::<Seq<char>>::empty());
            assert(views_of(r.insights@) =~= Seq::<Seq<char>>::empty());
            assert(pair_views_of(r.metadata@) =~= Seq::<(Seq<char>, Seq<char>)>::empty());
        }
        r
    }

    /// Replaces the topics.
    pub fn with_topics(self, topics: Vec<String>) -> (r: Episode)
        ensures
            r@ == (EpisodeModel { topics: views_of(topics@), ..self@ }),
    {
        Episode { topics, ..self }
    }

    /// Replaces the importance, clamped into `0 ..= 1000`.
    pub fn with_importance(self, importance: u32) -> (r: Episode)
        ensures
            r@ == (EpisodeModel {
                importance: if importance > 1000 {
                    1000int
                } else {
                    importance as int
                },
                ..self@
            }),
            episode_valid(r@),
    {
        let clamped = if importance > 1000 {
            1000
        } else {
            importance
        };
        Episode { importance: clamped, ..self }
    }

    /// Sets the session id.
    pub fn with_session_id(self, session_id: &str) -> (r: Episode)
        ensures
            r@ == (EpisodeModel { session_id: Some(session_id@), ..self@ }),
    {
        Episode { session_id: Some(String::from_str(session_id)), ..self }
    }

    /// Replaces the insights.
    pub fn with_insights(self, insights: Vec<String>) -> (r: Episode)
        ensures
            r@ == (EpisodeModel { insights: views_of(insights@), ..self@ }),
    {
        Episode { insights, ..self }
    }

    /// Adds one metadata pair.
    pub fn with_metadata(self, key: &str, value: &str) -> (r: Episode)
        ensures
            r@ == (EpisodeModel {
                metadata: self@.metadata.push((key@, value@)),
                ..self@
            }),
    {
        let mut metadata = self.metadata;
        let ghost before = metadata@;
        metadata.push((String::from_str(key), String::from_str(value)));
        proof {
            assert(pair_views_of(metadata@) =~= pair_views_of(before).push((key@, value@)));
        }
        Episode { metadata, ..self }
    }

    /// A copy with the same model.
    pub fn duplicate(&self) -> (r: Episode)
        ensures
            r@ == self@,
    {
        let r = Episode {
            id: self.id.clone(),
            timestamp: self.timestamp,
            summary: self.summary.clone(),
            topics: clone_strings(&self.topics),
            importance: self.importance,
            session_id: match &self.session_id {
                Some(s) => Some(s.clone()),
                None => None,
            },
            insights: clone_strings(&self.insights),
            metadata: clone_string_pairs(&self.metadata),
        };
        r
    }
}

fn clone_strings(v: &Vec<String>) -> (r: Vec<String>)
    ensures
        views_of(r@) == views_of(v@),
{
    let mut out: Vec<String> = Vec::new();
    let mut i: usize = 0;
    while i < v.len()
        invariant
            i <= v@.len(),
            out@.len() == i,
            forall|j: int| 0 <= j < i ==> #[trigger] out@[j] == v@[j],
        decreases v@.len() - i,
    {
        out.push(v[i].clone());
        i += 1;
    }
    proof {
        assert(views_of(out@) =~= views_of(v@));
    }
    out
}

fn clone_string_pairs(v: &Vec<(String, String)>) -> (r: Vec<(String, String)>)
    ensures
        pair_views_of(r@) == pair_views_of(v@),
{
    let mut out: Vec<(String, String)> = Vec::new();
    let mut i: usize = 0;
    while i < v.len()
        invariant
            i <= v@.len(),
            out@.len() == i,
            forall|j: int| 0 <= j < i ==> #[trigger] out@[j] == v@[j],
        decreases v@.len() - i,
    {
        out.push((v[i].0.clone(), v[i].1.clone()));
        i += 1;
    }
    proof {
        assert(pair_views_of(out@) =~= pair_views_of(v@));
    }
    out
}

/// The document an episode is stored as.
pub open spec fn episode_doc(e: EpisodeModel) -> ValueModel {
    ValueModel::Json(episode_fields(e))
}

/// The field list of an episode document; `session_id` is present only
/// when set.
pub open spec fn episode_fields(e: EpisodeModel) -> Seq<(Seq<char>, ValueModel)> {
    let head = seq![
        ("id"@, ValueModel::Str(e.id)),
        ("timestamp"@, ValueModel::Int(e.timestamp)),
        ("summary"@, ValueModel::Str(e.summary)),
        ("topics"@, str_list_model(e.topics)),
        ("importance"@, ValueModel::Int(e.importance)),
        ("insights"@, str_list_model(e.insights)),
        ("metadata"@, str_dict_model(e.metadata)),
    ];
    match e.session_id {
        Some(s) => head.push(("session_id"@, ValueModel::Str(s))),
        None => head,
    }
}

/// What a stored value decodes to as an episode.
pub open spec fn decode_episode(v: ValueModel) -> Option<EpisodeModel> {
    match v {
        ValueModel::Json(fs) => {
            if {
                &&& doc_lookup(fs, "id"@) matches Some(ValueModel::Str(_))
                &&& doc_lookup(fs, "timestamp"@) matches Some(ValueModel::Int(_))
                &&& doc_lookup(fs, "summary"@) matches Some(ValueModel::Str(_))
                &&& (doc_lookup(fs, "topics"@) matches Some(tv) && decodes_str_list(tv) is Some)
                &&& doc_lookup(fs, "importance"@) matches Some(ValueModel::Int(_))
                &&& (doc_lookup(fs, "insights"@) matches Some(iv) && decodes_str_list(iv) is Some)
                &&& (doc_lookup(fs, "metadata"@) matches Some(mv) && decodes_str_dict(mv) is Some)
                &&& match doc_lookup(fs, "session_id"@) {
                    Some(sv) => sv is Str,
                    None => true,
                }
            } {
                Some(
                    EpisodeModel {
                        id: doc_lookup(fs, "id"@)->Some_0->Str_0,
                        timestamp: doc_lookup(fs, "timestamp"@)->Some_0->Int_0,
                        summary: doc_lookup(fs, "summary"@)->Some_0->Str_0,
                        topics: decodes_str_list(doc_lookup(fs, "topics"@)->Some_0)->Some_0,
                        importance: clamp_milli(doc_lookup(fs, "importance"@)->Some_0->Int_0),
                        session_id: match doc_lookup(fs, "session_id"@) {
                            Some(sv) => Some(sv->Str_0),
                            None => None,
                        },
                        insights: decodes_str_list(doc_lookup(fs, "insights"@)->Some_0)->Some_0,
                        metadata: decodes_str_dict(doc_lookup(fs, "metadata"@)->Some_0)->Some_0,
                    },
                )
            } else {
                None
            }
        },
        _ => None,
    }
}

/// Clamps an integer into `0 ..= 1000`.
pub open spec fn clamp_milli(n: int) -> int {
    if n < 0 {
        0
    } else if n > 1000 {
        1000
    } else {
        n
    }
}

proof fn lemma_episode_field_names(e: EpisodeModel)
    ensures
        forall|a: int, b: int|
            0 <= a < b < episode_fields(e).len() ==> episode_fields(e)[a].0 != episode_fields(
                e,
            )[b].0,
{
    reveal_strlit("id");
    reveal_strlit("timestamp");
    reveal_strlit("summary");
    reveal_strlit("topics");
    reveal_strlit("importance");
    reveal_strlit("insights");
    reveal_strlit("metadata");
    reveal_strlit("session_id");
    assert(("id"@).len() == 2);
    assert(("timestamp"@).len() == 9);
    assert(("summary"@).len() == 7);
    assert(("topics"@).len() == 6);
    assert(("importance"@).len() == 10);
    assert(("insights"@).len() == 8);
    assert(("metadata"@).len() == 8);
    assert(("session_id"@).len() == 10);
    assert(("insights"@)[0] == 'i');
    assert(("metadata"@)[0] == 'm');
    assert(("importance"@)[0] == 'i');
    assert(("session_id"@)[0] == 's');
}

/// Encoding then decoding a valid episode yields the episode back.
pub proof fn lemma_episode_round_trip(e: EpisodeModel)
    requires
        episode_valid(e),
    ensures
        decode_episode(episode_doc(e)) == Some(e),
{
    let fs = episode_fields(e);
    lemma_episode_field_names(e);
    lemma_doc_lookup_distinct(fs, 0);
    lemma_doc_lookup_distinct(fs, 1);
    lemma_doc_lookup_distinct(fs, 2);
    lemma_doc_lookup_distinct(fs, 3);
    lemma_doc_lookup_distinct(fs, 4);
    lemma_doc_lookup_distinct(fs, 5);
    lemma_doc_lookup_distinct(fs, 6);
    lemma_str_list_round_trip(e.topics);
    lemma_str_list_round_trip(e.insights);
    lemma_str_dict_round_trip(e.metadata);
    match e.session_id {
        Some(s) => {
            lemma_doc_lookup_distinct(fs, 7);
        },
        None => {
            reveal_strlit("session_id");
            reveal_strlit("id");
            reveal_strlit("timestamp");
            reveal_strlit("summary");
            reveal_strlit("topics");
            reveal_strlit("importance");
            reveal_strlit("insights");
            reveal_strlit("metadata");
            assert(("session_id"@).len() == 10);
            assert(("importance"@)[0] == 'i');
            assert(("session_id"@)[0] == 's');
            assert forall|a: int| 0 <= a < fs.len() implies fs[a].0 != "session_id"@ by {
                assert(("id"@).len() == 2);
                assert(("timestamp"@).len() == 9);
                assert(("summary"@).len() == 7);
                assert(("topics"@).len() == 6);
                assert(("insights"@).len() == 8);
                assert(("metadata"@).len() == 8);
            }
            lemma_doc_lookup_absent(fs, "session_id"@);
        },
    }
}

/// Encodes an episode as a document.
pub fn encode_episode(e: Episode) -> (r: MemoryValue)
    ensures
        r@ == episode_doc(e@),
{
    let ghost em = e@;
    let mut fields: Vec<(String, MemoryValue)> = Vec::new();
    let session = e.session_id;
    fields.push((String::from_str("id"), MemoryValue::Str(e.id)));
    fields.push((String::from_str("timestamp"), MemoryValue::Int(e.timestamp)));
    fields.push((String::from_str("summary"), MemoryValue::Str(e.summary)));
    fields.push((String::from_str("topics"), encode_str_list(e.topics)));
    fields.push((String::from_str("importance"), MemoryValue::Int(e.importance as i64)));
    fields.push((String::from_str("insights"), encode_str_list(e.insights)));
    fields.push((String::from_str("metadata"), encode_str_dict(e.metadata)));
    match session {
        Some(s) => {
            fields.push((String::from_str("session_id"), MemoryValue::Str(s)));
        },
        None => {},
    }
    proof {
        lemma_fields_model(fields@);
        assert(fields_model(fields@) =~= episode_fields(em));
    }
    MemoryValue::Json(fields)
}

/// Decodes a stored value as an episode.
pub fn decode_episode_value(v: &MemoryValue) -> (r: Option<Episode>)
    ensures
        match r {
            Some(e) => decode_episode(v@) == Some(e@),
            None => decode_episode(v@) is None,
        },
{
    let fs = match v {
        MemoryValue::Json(fs) => fs,
        _ => {
            return None;
        },
    };
    let ghost fm = fields_model(fs@);
    let id = match doc_get(fs, "id") {
        Some(MemoryValue::Str(s)) => s.clone(),
        _ => {
            return None;
        },
    };
    let timestamp = match doc_get(fs, "timestamp") {
        Some(MemoryValue::Int(n)) => *n,
        _ => {
            return None;
        },
    };
    let summary = match doc_get(fs, "summary") {
        Some(MemoryValue::Str(s)) => s.clone(),
        _ => {
            return None;
        },
    };
    let topics = match doc_get(fs, "topics") {
        Some(tv) => match decode_str_list(tv) {
            Some(ss) => ss,
            None => {
                return None;
            },
        },
        None => {
            return None;
        },
    };
    let importance_raw = match doc_get(fs, "importance") {
        Some(MemoryValue::Int(n)) => *n,
        _ => {
            return None;
        },
    };
    let insights = match doc_get(fs, "insights") {
        Some(iv) => match decode_str_list(iv) {
            Some(ss) => ss,
            None => {
                return None;
            },
        },
        None => {
            return None;
        },
    };
    let metadata = match doc_get(fs, "metadata") {
        Some(mv) => match decode_str_dict(mv) {
            Some(ps) => ps,
            None => {
                return None;
            },
        },
        None => {
            return None;
        },
    };
    let session_id = match doc_get(fs, "session_id") {
        Some(MemoryValue::Str(s)) => Some(s.clone()),
        Some(_) => {
            return None;
        },
        None => None,
    };
    let importance: u32 = if importance_raw < 0 {
        0
    } else if importance_raw > 1000 {
        1000
    } else {
        importance_raw as u32
    };
    let e = Episode { id, timestamp, summary, topics, importance, session_id, insights, metadata };
    Some(e)
}


/// The prefix under which episodes are stored: `<ns>::episode::`.
pub open spec fn eps_prefix(ns: Seq<char>) -> Seq<char> {
    ns + "::episode::"@
}

/// The key of the episode with identifier `id`.
pub open spec fn ep_key_spec(ns: Seq<char>, id: Seq<char>) -> Seq<char> {
    ns + "::episode::"@ + id
}

/// What the storage holds for the episode `id`.
pub open spec fn episode_slot(m: Map<Seq<char>, ValueModel>, ns: Seq<char>, id: Seq<char>) -> Option<
    EpisodeModel,
> {
    if m.contains_key(ep_key_spec(ns, id)) {
        decode_episode(m[ep_key_spec(ns, id)])
    } else {
        None
    }
}

/// The episodes a storage state holds, keyed by identifier.
pub open spec fn episodes_map(m: Map<Seq<char>, ValueModel>, ns: Seq<char>) -> Map<
    Seq<char>,
    EpisodeModel,
> {
    Map::new(
        |id: Seq<char>| episode_slot(m, ns, id) is Some,
        |id: Seq<char>| episode_slot(m, ns, id)->Some_0,
    )
}

/// A well-formed episodic state: everything under the namespace is an
/// episode document stored under its own identifier.
pub open spec fn epi_wf(m: Map<Seq<char>, ValueModel>, ns: Seq<char>) -> bool {
    forall|k: Seq<char>|
        #[trigger] m.contains_key(k) && is_prefix_of(ns, k) ==> exists|id: Seq<char>|
            k == #[trigger] ep_key_spec(ns, id) && (decode_episode(m[k]) matches Some(e) && e.id
                == id && episode_valid(e))
}

/// Ascending eviction rank: lower importance first, ties broken by age.
pub open spec fn rank_le(a: EpisodeModel, b: EpisodeModel) -> bool {
    a.importance < b.importance || (a.importance == b.importance && a.timestamp <= b.timestamp)
}

/// The episodes the values at `ks` decode to in `m`, in key order; a
/// missing key or a value that is no episode document contributes nothing.
pub open spec fn eps_under(m: Map<Seq<char>, ValueModel>, ks: Seq<Seq<char>>) -> Seq<EpisodeModel>
    decreases ks.len(),
{
    if ks.len() == 0 {
        Seq::empty()
    } else {
        let rest = eps_under(m, ks.drop_last());
        if m.contains_key(ks.last()) && decode_episode(m[ks.last()]) is Some {
            rest.push(decode_episode(m[ks.last()])->Some_0)
        } else {
            rest
        }
    }
}

/// Every episode a storage state (with key sequence `ks`) holds under the
/// episodic namespace `ns`, in storage order.
pub open spec fn stored_eps(
    m: Map<Seq<char>, ValueModel>,
    ks: Seq<Seq<char>>,
    ns: Seq<char>,
) -> Seq<EpisodeModel> {
    eps_under(m, keys_in_ns(ks, Some(eps_prefix(ns))))
}

/// The models of an episode sequence.
pub open spec fn ep_views(s: Seq<Episode>) -> Seq<EpisodeModel> {
    Seq::new(s.len(), |i: int| s[i]@)
}

/// Episodes carrying a topic that contains `topic`.
pub open spec fn topic_matches(topic: Seq<char>) -> spec_fn(EpisodeModel) -> bool {
    |e: EpisodeModel| exists|t: int| 0 <= t < e.topics.len() && contains_seq(
        #[trigger] e.topics[t],
        topic,
    )
}

/// Episodes at least as important as `min`.
pub open spec fn importance_at_least(min: int) -> spec_fn(EpisodeModel) -> bool {
    |e: EpisodeModel| e.importance >= min
}

/// Episodes whose timestamp lies in `start ..= end`.
pub open spec fn within_range(start: int, end: int) -> spec_fn(EpisodeModel) -> bool {
    |e: EpisodeModel| start <= e.timestamp <= end
}

proof fn lemma_ep_key_inj(ns: Seq<char>, a: Seq<char>, b: Seq<char>)
    requires
        ep_key_spec(ns, a) == ep_key_spec(ns, b),
    ensures
        a == b,
{
    let p = ns + "::episode::"@;
    assert(ep_key_spec(ns, a).subrange(p.len() as int, ep_key_spec(ns, a).len() as int) =~= a);
    assert(ep_key_spec(ns, b).subrange(p.len() as int, ep_key_spec(ns, b).len() as int) =~= b);
}

proof fn lemma_ep_key_prefix(ns: Seq<char>, id: Seq<char>)
    ensures
        is_prefix_of(ns, ep_key_spec(ns, id)),
        is_prefix_of(eps_prefix(ns), ep_key_spec(ns, id)),
        ep_key_spec(ns, id).subrange(
            eps_prefix(ns).len() as int,
            ep_key_spec(ns, id).len() as int,
        ) == id,
{
    assert(ep_key_spec(ns, id).subrange(0, ns.len() as int) =~= ns);
    assert(ep_key_spec(ns, id).subrange(0, eps_prefix(ns).len() as int) =~= eps_prefix(ns));
    assert(ep_key_spec(ns, id).subrange(
        eps_prefix(ns).len() as int,
        ep_key_spec(ns, id).len() as int,
    ) =~= id);
}

/// Any key under the episode prefix is the episode key of its suffix.
proof fn lemma_key_under_prefix(ns: Seq<char>, k: Seq<char>)
    requires
        is_prefix_of(eps_prefix(ns), k),
    ensures
        k == ep_key_spec(ns, k.subrange(eps_prefix(ns).len() as int, k.len() as int)),
{
    let id = k.subrange(eps_prefix(ns).len() as int, k.len() as int);
    assert(k =~= ep_key_spec(ns, id));
}

/// Inserting an episode document updates the episode map at its id.
proof fn lemma_episodes_map_insert(
    m: Map<Seq<char>, ValueModel>,
    ns: Seq<char>,
    e: EpisodeModel,
)
    requires
        episode_valid(e),
    ensures
        episodes_map(m.insert(ep_key_spec(ns, e.id), episode_doc(e)), ns) == episodes_map(
            m,
            ns,
        ).insert(e.id, e),
{
    lemma_episode_round_trip(e);
    let m1 = m.insert(ep_key_spec(ns, e.id), episode_doc(e));
    assert forall|id: Seq<char>|
        #[trigger] episodes_map(m1, ns).contains_key(id) == episodes_map(m, ns).insert(
            e.id,
            e,
        ).contains_key(id) && (episodes_map(m1, ns).contains_key(id) ==> episodes_map(m1, ns)[id]
        == episodes_map(m, ns).insert(e.id, e)[id]) by {
        if id == e.id {
        } else {
            lemma_ep_key_inj_contra(ns, id, e.id);
        }
    }
    assert(episodes_map(m1, ns) =~= episodes_map(m, ns).insert(e.id, e));
}

proof fn lemma_ep_key_inj_contra(ns: Seq<char>, a: Seq<char>, b: Seq<char>)
    requires
        a != b,
    ensures
        ep_key_spec(ns, a) != ep_key_spec(ns, b),
{
    if ep_key_spec(ns, a) == ep_key_spec(ns, b) {
        lemma_ep_key_inj(ns, a, b);
    }
}

/// Removing an episode key removes exactly that episode from the map.
proof fn lemma_episodes_map_remove(m: Map<Seq<char>, ValueModel>, ns: Seq<char>, id: Seq<char>)
    ensures
        episodes_map(m.remove(ep_key_spec(ns, id)), ns) == episodes_map(m, ns).remove(id),
{
    let m1 = m.remove(ep_key_spec(ns, id));
    assert forall|x: Seq<char>|
        #[trigger] episodes_map(m1, ns).contains_key(x) == episodes_map(m, ns).remove(
            id,
        ).contains_key(x) && (episodes_map(m1, ns).contains_key(x) ==> episodes_map(m1, ns)[x]
        == episodes_map(m, ns).remove(id)[x]) by {
        if x != id {
            lemma_ep_key_inj_contra(ns, x, id);
        }
    }
    assert(episodes_map(m1, ns) =~= episodes_map(m, ns).remove(id));
}

/// Agent-scoped episodic memory with importance-ranked retention.
pub struct EpisodicMemory {
    namespace: String,
    max_episodes: usize,
}

impl EpisodicMemory {
    /// The namespace this memory lives under.
    pub closed spec fn ns(self) -> Seq<char> {
        self.namespace@
    }

    /// The retention bound.
    pub closed spec fn max_eps(self) -> usize {
        self.max_episodes
    }

    /// Episodic memory for `agent_id`, retaining up to 1000 episodes.
    pub fn new(agent_id: &str) -> (r: EpisodicMemory)
        ensures
            r.ns() == agent_ns_spec(agent_id@, "episodic"@),
            r.max_eps() == 1000,
    {
        EpisodicMemory { namespace: agent_ns(agent_id, "episodic"), max_episodes: 1000 }
    }

    /// The same memory with a different retention bound.
    pub fn with_max_episodes(self, max: usize) -> (r: EpisodicMemory)
        ensures
            r.ns() == self.ns(),
            r.max_eps() == max,
    {
        EpisodicMemory { max_episodes: max, ..self }
    }

    /// The storage key of the episode with identifier `episode_id`.
    pub fn episode_key(&self, episode_id: &str) -> (r: String)
        ensures
            r@ == ep_key_spec(self.ns(), episode_id@),
    {
        let mut s = str_join(self.namespace.as_str(), "::episode::");
        s.append(episode_id);
        s
    }

    fn prefix_key(&self) -> (r: String)
        ensures
            r@ == eps_prefix(self.ns()),
    {
        str_join(self.namespace.as_str(), "::episode::")
    }

    /// How many episodes are stored (keys under the namespace).
    pub fn count(&self, store: &MemoryStore) -> (r: Result<usize, MemoryError>)
        ensures
            r matches Ok(n) && n == keys_in_ns(store.key_seq(), Some(self.ns())).len(),
    {
        Ok(store.count(Some(self.namespace.as_str())))
    }

    /// Removes every stored episode.
    pub fn clear(&self, store: &mut MemoryStore) -> (r: Result<(), MemoryError>)
        ensures
            r is Ok,
            final(store)@ == crate::store::clear_model(old(store)@, Some(self.ns())),
            keys_in_ns(final(store).key_seq(), Some(self.ns())) == Seq::<Seq<char>>::empty(),
            final(store).coherent(),
    {
        store.clear(Some(self.namespace.as_str()));
        Ok(())
    }

    /// The stored episode with identifier `episode_id`, if any and decodable;
    /// a present but non-document value yields nothing, a malformed document
    /// a serialization error.
    pub fn get_episode(&self, store: &MemoryStore, episode_id: &str) -> (r: Result<
        Option<Episode>,
        MemoryError,
    >)
        ensures
            epi_wf(store@, self.ns()) ==> (r matches Ok(v) && match v {
                Some(e) => episode_slot(store@, self.ns(), episode_id@) == Some(e@),
                None => episode_slot(store@, self.ns(), episode_id@) is None,
            }),
    {
        let key = self.episode_key(episode_id);
        match store.get(key.as_str()) {
            Some(v) => {
                match decode_episode_value(v) {
                    Some(e) => Ok(Some(e)),
                    None => {
                        proof {
                            if epi_wf(store@, self.ns()) {
                                lemma_ep_key_prefix(self.ns(), episode_id@);
                                assert(store@.contains_key(ep_key_spec(self.ns(), episode_id@)));
                            }
                        }
                        Err(
                            MemoryError::Serialization {
                                operation: String::from_str("decode_episode"),
                            },
                        )
                    },
                }
            },
            None => Ok(None),
        }
    }

    /// Deletes the episode with identifier `episode_id`; reports whether it
    /// was present.
    pub fn delete_episode(&self, store: &mut MemoryStore, episode_id: &str) -> (r: Result<
        bool,
        MemoryError,
    >)
        ensures
            r matches Ok(b) && b == old(store)@.contains_key(ep_key_spec(self.ns(), episode_id@)),
            final(store)@ == old(store)@.remove(ep_key_spec(self.ns(), episode_id@)),
            final(store).coherent(),
    {
        let key = self.episode_key(episode_id);
        Ok(store.delete(key.as_str()))
    }

    /// Stores `episode` under its identifier, then evicts the
    /// lowest-ranked episodes if the retention bound is exceeded. On a
    /// well-formed state the resulting episodes are the old ones plus
    /// `episode`, minus an evicted set no survivor ranks below.
    pub fn store_episode(&self, store: &mut MemoryStore, episode: Episode) -> (r: Result<
        (),
        MemoryError,
    >)
        ensures
            r is Ok,
            final(store).coherent(),
            frame_outside(old(store)@, final(store)@, self.ns()),
            epi_wf(old(store)@, self.ns()) && episode_valid(episode@) && self.max_eps() >= 1 ==> {
                let after = episodes_map(old(store)@, self.ns()).insert(episode@.id, episode@);
                let n_after = keys_in_ns(old(store).key_seq(), Some(self.ns())).len() as int + (
                if old(store)@.contains_key(ep_key_spec(self.ns(), episode@.id)) {
                    0int
                } else {
                    1int
                });
                epi_wf(final(store)@, self.ns()) && (exists|evicted: Set<Seq<char>>|
                    {
                        &&& episodes_map(final(store)@, self.ns()) == after.remove_keys(evicted)
                        &&& evicted.subset_of(after.dom())
                        &&& (n_after <= self.max_eps() ==> evicted =~= Set::<Seq<char>>::empty())
                        &&& (forall|d: Seq<char>, s: Seq<char>|
                            #[trigger] evicted.contains(d) && #[trigger] after.dom().contains(s)
                                && !evicted.contains(s) ==> rank_le(after[d], after[s]))
                        &&& keys_in_ns(final(store).key_seq(), Some(self.ns())).len() == if n_after
                            <= self.max_eps() {
                            n_after
                        } else {
                            self.max_eps() as int
                        }
                    })
            },
    {
        let ghost m0 = store@;
        let ghost ns = self.ns();
        let ghost ks0 = store.key_seq();
        let ghost wfc = epi_wf(m0, ns) && episode_valid(episode@) && self.max_eps() >= 1;
        let ghost em = episode@;
        let key = self.episode_key(episode.id.as_str());
        let doc = encode_episode(episode);
        store.set(key, doc);
        proof {
            lemma_ep_key_prefix(ns, em.id);
            if wfc {
                lemma_episodes_map_insert(m0, ns, em);
                assert(epi_wf(store@, ns)) by {
                    lemma_episode_round_trip(em);
                    assert forall|k: Seq<char>|
                        #[trigger] store@.contains_key(k) && is_prefix_of(ns, k) implies exists|
                        id: Seq<char>,
                    |
                        k == #[trigger] ep_key_spec(ns, id) && (decode_episode(store@[k])
                            matches Some(e) && e.id == id && episode_valid(e)) by {
                        if k == ep_key_spec(ns, em.id) {
                            assert(k == ep_key_spec(ns, em.id) && (decode_episode(store@[k])
                                matches Some(e) && e.id == em.id && episode_valid(e)));
                        } else {
                            assert(m0.contains_key(k));
                            let id = choose|id: Seq<char>|
                                k == #[trigger] ep_key_spec(ns, id) && (decode_episode(m0[k])
                                    matches Some(e) && e.id == id && episode_valid(e));
                            assert(store@[k] == m0[k]);
                            assert(k == ep_key_spec(ns, id) && (decode_episode(store@[k])
                                matches Some(e) && e.id == id && episode_valid(e)));
                        }
                    }
                }
            }
        }
        let ghost m1 = store@;
        let ghost ks1 = store.key_seq();
        let r = self.prune_if_needed(store);
        proof {
            if wfc {
                let after = episodes_map(m0, ns).insert(em.id, em);
                let fresh: bool = !m0.contains_key(ep_key_spec(ns, em.id));
                let n_after = keys_in_ns(ks0, Some(ns)).len() as int + (if fresh {
                    1int
                } else {
                    0int
                });
                assert(keys_in_ns(ks1, Some(ns)).len() == n_after) by {
                    if fresh {
                        assert(ks1 == ks0.push(ep_key_spec(ns, em.id)));
                        assert(ks1.drop_last() =~= ks0);
                        assert(ks1.last() == ep_key_spec(ns, em.id));
                        assert(ns_matches(Some(ns), ep_key_spec(ns, em.id)));
                    } else {
                        assert(ks1 == ks0);
                    }
                }
                assert(episodes_map(m1, ns) == after);
                let ev = choose|evicted: Set<Seq<char>>|
                    {
                        &&& episodes_map(store@, ns) == episodes_map(m1, ns).remove_keys(evicted)
                        &&& evicted.subset_of(episodes_map(m1, ns).dom())
                        &&& (keys_in_ns(ks1, Some(ns)).len() as int <= self.max_eps() ==> evicted
                            =~= Set::<Seq<char>>::empty())
                        &&& (forall|d: Seq<char>, s2: Seq<char>|
                            #[trigger] evicted.contains(d) && #[trigger] episodes_map(
                                m1,
                                ns,
                            ).dom().contains(s2) && !evicted.contains(s2) ==> rank_le(
                                episodes_map(m1, ns)[d],
                                episodes_map(m1, ns)[s2],
                            ))
                        &&& keys_in_ns(store.key_seq(), Some(ns)).len() == if keys_in_ns(
                            ks1,
                            Some(ns),
                        ).len() as int <= self.max_eps() {
                            keys_in_ns(ks1, Some(ns)).len() as int
                        } else {
                            self.max_eps() as int
                        }
                    };
                assert(episodes_map(store@, ns) == after.remove_keys(ev));
                assert(ev.subset_of(after.dom()));
                assert((n_after <= self.max_eps() ==> ev =~= Set::<Seq<char>>::empty()));
                assert(keys_in_ns(store.key_seq(), Some(ns)).len() == if n_after
                    <= self.max_eps() {
                    n_after
                } else {
                    self.max_eps() as int
                });
            }
        }
        r
    }

    /// Evicts the lowest-ranked episodes while more than the bound are
    /// stored.
    #[verifier::rlimit(100)]
    #[verifier::spinoff_prover]
    fn prune_if_needed(&self, store: &mut MemoryStore) -> (r: Result<(), MemoryError>)
        requires
            old(store).coherent(),
        ensures
            r is Ok,
            final(store).coherent(),
            frame_outside(old(store)@, final(store)@, self.ns()),
            epi_wf(old(store)@, self.ns()) && self.max_eps() >= 1 ==> {
                let epm0 = episodes_map(old(store)@, self.ns());
                let n0 = keys_in_ns(old(store).key_seq(), Some(self.ns())).len() as int;
                epi_wf(final(store)@, self.ns()) && (exists|evicted: Set<Seq<char>>|
                    {
                        &&& episodes_map(final(store)@, self.ns()) == epm0.remove_keys(evicted)
                        &&& evicted.subset_of(epm0.dom())
                        &&& (n0 <= self.max_eps() ==> evicted =~= Set::<Seq<char>>::empty())
                        &&& (forall|d: Seq<char>, s: Seq<char>|
                            #[trigger] evicted.contains(d) && #[trigger] epm0.dom().contains(s)
                                && !evicted.contains(s) ==> rank_le(epm0[d], epm0[s]))
                        &&& keys_in_ns(final(store).key_seq(), Some(self.ns())).len() == if n0
                            <= self.max_eps() {
                            n0
                        } else {
                            self.max_eps() as int
                        }
                    })
            },
    {
        let ghost m0 = store@;
        let ghost ns = self.ns();
        let ghost ks0 = store.key_seq();
        let ghost wfc = epi_wf(m0, ns) && self.max_eps() >= 1;
        let ghost epm0 = episodes_map(m0, ns);
        let count = store.count(Some(self.namespace.as_str()));
        if count <= self.max_episodes {
            proof {
                if wfc {
                    let evicted = Set::<Seq<char>>::empty();
                    assert(episodes_map(store@, ns) =~= epm0.remove_keys(evicted));
                }
            }
            return Ok(());
        }

        let prefix = self.prefix_key();
        let ghost pfx = prefix@;
        let keys = store.keys(Some(prefix.as_str()));
        let ghost filtered = keys_in_ns(ks0, Some(pfx));
        proof {
            crate::store::lemma_keys_in_ns_elements(ks0, Some(pfx));
            crate::store::lemma_keys_in_ns_no_dup(ks0, Some(pfx));
            assert(is_prefix_of(ns, pfx)) by {
                assert(pfx.subrange(0, ns.len() as int) =~= ns);
            }
            if wfc {
                assert forall|i: int|
                    0 <= i < ks0.len() implies ns_matches(Some(ns), #[trigger] ks0[i])
                    == ns_matches(Some(pfx), ks0[i]) by {
                    if ns_matches(Some(pfx), ks0[i]) {
                        crate::text::lemma_prefix_trans(ns, pfx, ks0[i]);
                    }
                    if ns_matches(Some(ns), ks0[i]) {
                        assert(ks0.contains(ks0[i]));
                        assert(m0.contains_key(ks0[i]));
                        let id = choose|id: Seq<char>|
                            ks0[i] == #[trigger] ep_key_spec(ns, id) && (decode_episode(
                                m0[ks0[i]],
                            ) matches Some(e) && e.id == id && episode_valid(e));
                        lemma_ep_key_prefix(ns, id);
                    }
                }
                crate::store::lemma_keys_in_ns_congruent(ks0, Some(ns), Some(pfx));
            }
        }

        // decode every stored episode, ranking it by (importance, timestamp)
        let mut eps: Vec<Episode> = Vec::new();
        let mut items: Vec<Ranked> = Vec::new();
        let mut i: usize = 0;
        while i < keys.len()
            invariant
                i <= keys@.len(),
                ns == self.ns(),
                pfx == eps_prefix(ns),
                is_prefix_of(ns, pfx),
                wfc == (epi_wf(m0, ns) && self.max_eps() >= 1),
                store@ == m0,
                store.key_seq() == ks0,
                store.coherent(),
                filtered == keys_in_ns(ks0, Some(pfx)),
                filtered.no_duplicates(),
                keys@.len() == filtered.len(),
                forall|j: int| 0 <= j < filtered.len() ==> keys@[j]@ == filtered[j],
                forall|j: int|
                    0 <= j < filtered.len() ==> ks0.contains(#[trigger] filtered[j])
                        && is_prefix_of(pfx, filtered[j]),
                wfc ==> filtered == keys_in_ns(ks0, Some(ns)),
                wfc ==> eps@.len() == i && items@.len() == i,
                wfc ==> forall|t: int|
                    0 <= t < eps@.len() ==> m0.contains_key(#[trigger] filtered[t])
                        && decode_episode(m0[filtered[t]]) == Some(eps@[t]@) && filtered[t]
                        == ep_key_spec(ns, eps@[t]@.id) && episode_valid(eps@[t]@),
                wfc ==> forall|t: int|
                    0 <= t < items@.len() ==> #[trigger] items@[t] == (
                        t as usize,
                        eps@[t]@.importance as i64,
                        eps@[t]@.timestamp as i64,
                    ),
            decreases keys@.len() - i,
        {
            proof {
                assert(ks0.contains(filtered[i as int]));
                if wfc {
                    crate::text::lemma_prefix_trans(ns, pfx, filtered[i as int]);
                    assert(m0.contains_key(filtered[i as int]));
                }
            }
            match store.get(keys[i].as_str()) {
                Some(v) => {
                    match decode_episode_value(v) {
                        Some(e) => {
                            proof {
                                if wfc {
                                    let id = choose|id: Seq<char>|
                                        filtered[i as int] == #[trigger] ep_key_spec(ns, id) && (
                                        decode_episode(m0[filtered[i as int]]) matches Some(ee)
                                            && ee.id == id && episode_valid(ee));
                                    assert(v@ == m0[filtered[i as int]]);
                                    assert(e@.id == id);
                                }
                            }
                            let imp: i64 = e.importance as i64;
                            let ts: i64 = e.timestamp;
                            items.push((i, imp, ts));
                            eps.push(e);
                        },
                        None => {
                            proof {
                                if wfc {
                                    let id = choose|id: Seq<char>|
                                        filtered[i as int] == #[trigger] ep_key_spec(ns, id) && (
                                        decode_episode(m0[filtered[i as int]]) matches Some(ee)
                                            && ee.id == id && episode_valid(ee));
                                    assert(v@ == m0[filtered[i as int]]);
                                    assert(false);
                                }
                            }
                        },
                    }
                },
                None => {
                    proof {
                        if wfc {
                            assert(false);
                        }
                    }
                },
            }
            i += 1;
        }

        let sorted = sort_by_keys(items);
        let to_delete = count - self.max_episodes;

        let ghost n: int = eps@.len() as int;
        proof {
            if wfc {
                assert(count == filtered.len());
                assert(n == count);
                assert(items@.no_duplicates()) by {
                    assert forall|a: int, b: int|
                        0 <= a < b < items@.len() implies items@[a] != items@[b] by {
                        assert(items@[a].0 == a as usize);
                        assert(items@[b].0 == b as usize);
                    }
                }
                items@.lemma_multiset_has_no_duplicates();
                sorted@.lemma_multiset_has_no_duplicates_conv();
            }
        }

        let mut j: usize = 0;
        let ghost mut del = Set::<Seq<char>>::empty();
        while j < to_delete
            invariant
                j <= to_delete,
                ns == self.ns(),
                wfc == (epi_wf(m0, ns) && self.max_eps() >= 1),
                to_delete == count - self.max_eps(),
                count > self.max_eps(),
                store.coherent(),
                frame_outside(m0, store@, ns),
                pfx == eps_prefix(ns),
                is_prefix_of(ns, pfx),
                keys@.len() == filtered.len(),
                forall|j2: int| 0 <= j2 < filtered.len() ==> keys@[j2]@ == filtered[j2],
                forall|j2: int|
                    0 <= j2 < filtered.len() ==> is_prefix_of(pfx, #[trigger] filtered[j2]),
                forall|k: Seq<char>|
                    #[trigger] store@.contains_key(k) ==> m0.contains_key(k) && store@[k] == m0[k],
                wfc ==> {
                    &&& n == keys@.len() && n == filtered.len() && n == eps@.len() && n
                        == sorted@.len() && n == items@.len()
                    &&& count == filtered.len()
                    &&& sorted@.no_duplicates()
                    &&& sorted_by_keys(sorted@)
                    &&& sorted@.to_multiset() == items@.to_multiset()
                    &&& filtered == keys_in_ns(ks0, Some(ns))
                },
                wfc ==> forall|t: int|
                    0 <= t < n ==> m0.contains_key(#[trigger] filtered[t]) && decode_episode(
                        m0[filtered[t]],
                    ) == Some(eps@[t]@) && filtered[t] == ep_key_spec(ns, eps@[t]@.id)
                        && episode_valid(eps@[t]@),
                wfc ==> forall|t: int|
                    0 <= t < n ==> #[trigger] items@[t] == (
                        t as usize,
                        eps@[t]@.importance as i64,
                        eps@[t]@.timestamp as i64,
                    ),
                wfc ==> filtered.no_duplicates(),
                wfc ==> episodes_map(store@, ns) == episodes_map(m0, ns).remove_keys(del),
                wfc ==> forall|id: Seq<char>|
                    #[trigger] del.contains(id) == exists|a: int|
                        0 <= a < j && id == eps@[(#[trigger] sorted@[a]).0 as int]@.id,
                wfc ==> keys_in_ns(store.key_seq(), Some(ns)).len() == count - j,
                wfc ==> store.key_seq().no_duplicates(),
            decreases to_delete - j,
        {
            proof {
                if wfc {
                    crate::ranking::lemma_tagged_entry(items@, sorted@, j as int);
                }
            }
            if j >= sorted.len() {
                proof {
                    if wfc {
                        assert(false);
                    }
                }
                j += 1;
                continue;
            }
            let tag = sorted[j].0;
            if tag < keys.len() {
                proof {
                    crate::text::lemma_prefix_trans(ns, pfx, filtered[tag as int]);
                }
                let ghost id = eps@[tag as int]@.id;
                let ghost before = store@;
                let ghost ks_before = store.key_seq();
                proof {
                    if wfc {
                        lemma_ep_key_prefix(ns, id);
                        assert(filtered[tag as int] == ep_key_spec(ns, id));
                        // this id has not been deleted yet
                        assert(!del.contains(id)) by {
                            if del.contains(id) {
                                let a = choose|a: int|
                                    0 <= a < j && id == eps@[(#[trigger] sorted@[a]).0 as int]@.id;
                                crate::ranking::lemma_tagged_entry(items@, sorted@, a);
                                crate::ranking::lemma_tagged_entry(items@, sorted@, j as int);
                                let ta = (sorted@[a]).0 as int;
                                if ta == tag as int {
                                    assert(sorted@[a] == sorted@[j as int]);
                                    assert(a != j as int);
                                } else {
                                    assert(filtered[ta] == ep_key_spec(ns, eps@[ta]@.id));
                                    assert(eps@[ta]@.id == id);
                                    assert(filtered[ta] == filtered[tag as int]);
                                }
                            }
                        }
                        // so the key is still present
                        assert(episodes_map(before, ns).contains_key(id)) by {
                            assert(m0.contains_key(filtered[tag as int]));
                            assert(episode_slot(m0, ns, id) == Some(eps@[tag as int]@));
                        }
                        assert(before.contains_key(ep_key_spec(ns, id))) by {
                            if !before.contains_key(ep_key_spec(ns, id)) {
                                assert(episode_slot(before, ns, id) is None);
                            }
                        }
                        assert(ks_before.contains(ep_key_spec(ns, id)));
                    }
                }
                store.delete(keys[tag].as_str());
                proof {
                    if wfc {
                        lemma_episodes_map_remove(before, ns, id);
                        del = del.insert(id);
                        assert(episodes_map(store@, ns) =~= episodes_map(m0, ns).remove_keys(del));
                        assert forall|id2: Seq<char>|
                            #[trigger] del.contains(id2) == exists|a: int|
                                0 <= a < j + 1 && id2 == eps@[(#[trigger] sorted@[a]).0 as int]@.id
                         by {
                            if del.contains(id2) && id2 != id {
                                let a = choose|a: int|
                                    0 <= a < j && id2 == eps@[(#[trigger] sorted@[a]).0 as int]@.id;
                                assert(0 <= a < j + 1 && id2 == eps@[(sorted@[a]).0 as int]@.id);
                            }
                            if id2 == id {
                                assert(id2 == eps@[(sorted@[j as int]).0 as int]@.id);
                            }
                        }
                        let fst = ks_before.index_of_first(ep_key_spec(ns, id));
                        ks_before.index_of_first_ensures(ep_key_spec(ns, id));
                        match fst {
                            Some(f) => {
                                crate::store::lemma_keys_in_ns_remove(ks_before, Some(ns), f);
                                assert(store.key_seq() == ks_before.remove(f));
                                assert(ns_matches(Some(ns), ks_before[f]));
                            },
                            None => {
                                assert(false);
                            },
                        }
                    }
                }
            } else {
                proof {
                    if wfc {
                        assert(false);
                    }
                }
            }
            j += 1;
        }

        proof {
            if wfc {
                let epmf = episodes_map(store@, ns);
                let evicted = del;
                assert(epmf == epm0.remove_keys(evicted));
                assert(evicted.subset_of(epm0.dom())) by {
                    assert forall|d: Seq<char>| evicted.contains(d) implies epm0.dom().contains(
                        d,
                    ) by {
                        let a = choose|a: int|
                            0 <= a < to_delete && d == eps@[(#[trigger] sorted@[a]).0 as int]@.id;
                        crate::ranking::lemma_tagged_entry(items@, sorted@, a);
                        let t = (sorted@[a]).0 as int;
                        assert(m0.contains_key(filtered[t]));
                        assert(episode_slot(m0, ns, d) == Some(eps@[t]@));
                    }
                }
                assert forall|d: Seq<char>, s: Seq<char>|
                    #[trigger] evicted.contains(d) && #[trigger] epm0.dom().contains(s)
                        && !evicted.contains(s) implies rank_le(epm0[d], epm0[s]) by {
                    let a = choose|a: int|
                        0 <= a < to_delete && d == eps@[(#[trigger] sorted@[a]).0 as int]@.id;
                    crate::ranking::lemma_tagged_entry(items@, sorted@, a);
                    let td = (sorted@[a]).0 as int;
                    // locate the survivor among the decoded episodes
                    assert(episode_slot(m0, ns, s) is Some);
                    assert(m0.contains_key(ep_key_spec(ns, s)));
                    lemma_ep_key_prefix(ns, s);
                    assert(ks0.contains(ep_key_spec(ns, s)));
                    crate::store::lemma_keys_in_ns_complete(ks0, Some(pfx), ep_key_spec(ns, s));
                    let ts = choose|ts: int|
                        0 <= ts < filtered.len() && filtered[ts] == ep_key_spec(ns, s);
                    assert(eps@[ts]@.id == s) by {
                        assert(filtered[ts] == ep_key_spec(ns, eps@[ts]@.id));
                        lemma_ep_key_inj(ns, eps@[ts]@.id, s);
                    }
                    // the survivor's sorted position is at or past the cut
                    crate::ranking::lemma_perm_contains(items@, sorted@, ts);
                    let b = choose|b: int| 0 <= b < sorted@.len() && sorted@[b] == items@[ts];
                    assert((sorted@[b]).0 as int == ts);
                    assert(b >= to_delete) by {
                        if b < to_delete {
                            assert(del.contains(eps@[ts]@.id));
                        }
                    }
                    assert(sorted@[a] == items@[td]);
                    assert(crate::ranking::key_le(sorted@[a], sorted@[b]));
                    assert(epm0[d] == eps@[td]@) by {
                        assert(m0.contains_key(filtered[td]));
                        assert(filtered[td] == ep_key_spec(ns, eps@[td]@.id));
                        assert(episode_slot(m0, ns, d) == Some(eps@[td]@));
                    }
                    assert(epm0[s] == eps@[ts]@) by {
                        assert(episode_slot(m0, ns, s) == Some(eps@[ts]@));
                    }
                }
                assert(epi_wf(store@, ns)) by {
                    assert forall|k: Seq<char>|
                        #[trigger] store@.contains_key(k) && is_prefix_of(ns, k) implies exists|
                        id: Seq<char>,
                    |
                        k == #[trigger] ep_key_spec(ns, id) && (decode_episode(store@[k])
                            matches Some(e) && e.id == id && episode_valid(e)) by {
                        assert(m0.contains_key(k));
                        let id = choose|id: Seq<char>|
                            k == #[trigger] ep_key_spec(ns, id) && (decode_episode(m0[k])
                                matches Some(e) && e.id == id && episode_valid(e));
                        assert(store@[k] == m0[k]);
                    }
                }
            }
        }
        Ok(())
    }
}


/// The closed topic vocabulary matched against summaries.
pub open spec fn topic_vocabulary() -> Seq<Seq<char>> {
    seq![
        "rust"@, "python"@, "javascript"@, "programming"@, "coding"@, "algorithm"@, "database"@,
        "api"@, "frontend"@, "backend"@, "testing"@, "deployment"@, "performance"@, "security"@,
        "design"@, "architecture"@, "error"@, "debugging"@,
    ]
}

/// Up to `left` vocabulary topics from index `i` on that occur in the
/// lowered text, in vocabulary order.
pub open spec fn topics_rec(lt: Seq<char>, i: int, left: nat) -> Seq<Seq<char>>
    decreases topic_vocabulary().len() - i,
{
    if i < 0 || i >= topic_vocabulary().len() || left == 0 {
        Seq::empty()
    } else if contains_seq(lt, topic_vocabulary()[i]) {
        Seq::empty().push(topic_vocabulary()[i]) + topics_rec(lt, i + 1, (left - 1) as nat)
    } else {
        topics_rec(lt, i + 1, left)
    }
}

/// The topics extracted from a lowered text: the first five vocabulary
/// words it contains.
pub open spec fn topics_from(lt: Seq<char>) -> Seq<Seq<char>> {
    topics_rec(lt, 0, 5)
}

fn vocab_word(i: usize) -> (r: &'static str)
    requires
        i < 18,
    ensures
        r@ == topic_vocabulary()[i as int],
{
    let w = match i {
        0 => "rust",
        1 => "python",
        2 => "javascript",
        3 => "programming",
        4 => "coding",
        5 => "algorithm",
        6 => "database",
        7 => "api",
        8 => "frontend",
        9 => "backend",
        10 => "testing",
        11 => "deployment",
        12 => "performance",
        13 => "security",
        14 => "design",
        15 => "architecture",
        16 => "error",
        _ => "debugging",
    };
    w
}

fn topics_scan(lowered: &str, i: usize, left: usize, out: &mut Vec<String>)
    requires
        i <= 18,
        left <= 5,
    ensures
        final(out)@.len() == old(out)@.len() + topics_rec(lowered@, i as int, left as nat).len(),
        forall|a: int| 0 <= a < old(out)@.len() ==> #[trigger] final(out)@[a] == old(out)@[a],
        forall|a: int|
            old(out)@.len() <= a < final(out)@.len() ==> (#[trigger] final(out)@[a])@
                == topics_rec(lowered@, i as int, left as nat)[a - old(out)@.len()],
    decreases 18 - i,
{
    if i >= 18 || left == 0 {
        return ;
    }
    let w = vocab_word(i);
    if str_contains(lowered, w) {
        out.push(String::from_str(w));
        topics_scan(lowered, i + 1, left - 1, out);
        proof {
            let rest = topics_rec(lowered@, i as int + 1, (left - 1) as nat);
            assert(topics_rec(lowered@, i as int, left as nat) =~= Seq::empty().push(
                topic_vocabulary()[i as int],
            ) + rest);
        }
    } else {
        topics_scan(lowered, i + 1, left, out);
    }
}

/// The words treated as signals of importance.
pub open spec fn important_terms() -> Seq<Seq<char>> {
    seq!["important"@, "critical"@, "urgent"@, "key"@, "essential"@, "decision"@]
}

/// Whether a lowered text carries one of the importance signals.
pub open spec fn has_important_term(lt: Seq<char>) -> bool {
    exists|i: int|
        0 <= i < important_terms().len() && contains_seq(lt, #[trigger] important_terms()[i])
}

fn important_term(i: usize) -> (r: &'static str)
    requires
        i < 6,
    ensures
        r@ == important_terms()[i as int],
{
    match i {
        0 => "important",
        1 => "critical",
        2 => "urgent",
        3 => "key",
        4 => "essential",
        _ => "decision",
    }
}

/// The importance heuristic, in thousandths: one half as base, more for
/// longer exchanges and for flagged terms, capped at one.
pub open spec fn importance_spec(message_count: nat, word_count: nat, flagged: bool) -> int {
    let base = 500int;
    let with_mc = base + (if message_count > 10 {
        200int
    } else if message_count > 5 {
        100int
    } else {
        0int
    });
    let with_wc = with_mc + (if word_count > 500 {
        200int
    } else if word_count > 200 {
        100int
    } else {
        0int
    });
    let total = with_wc + (if flagged {
        100int
    } else {
        0int
    });
    if total > 1000 {
        1000
    } else {
        total
    }
}

impl EpisodicMemory {
    /// The topic-extraction fallback: the vocabulary words occurring in the
    /// lowercase form of `text`, at most five, in vocabulary order.
    pub fn extract_topics_from_text(&self, text: &str) -> (r: Vec<String>)
        ensures
            r@.len() == topics_from(lower_of(text@)).len(),
            forall|a: int|
                0 <= a < r@.len() ==> (#[trigger] r@[a])@ == topics_from(lower_of(text@))[a],
    {
        let lowered = lowercase(text);
        let mut out: Vec<String> = Vec::new();
        topics_scan(lowered.as_str(), 0, 5, &mut out);
        out
    }

    /// The importance heuristic over a transcript: message count, word
    /// count and flagged terms, in thousandths.
    pub fn calculate_importance(&self, message_count: usize, conversation: &str) -> (r: u32)
        ensures
            r == importance_spec(
                message_count as nat,
                crate::text::word_count(conversation@),
                has_important_term(lower_of(conversation@)),
            ),
            r <= 1000,
    {
        let words = crate::text::count_words(conversation);
        let lowered = lowercase(conversation);
        let mut flagged = false;
        let mut i: usize = 0;
        while i < 6
            invariant
                i <= 6,
                flagged == exists|a: int|
                    0 <= a < i && contains_seq(
                        lower_of(conversation@),
                        #[trigger] important_terms()[a],
                    ),
                lowered@ == lower_of(conversation@),
            decreases 6 - i,
        {
            if str_contains(lowered.as_str(), important_term(i)) {
                proof {
                    assert(contains_seq(lower_of(conversation@), important_terms()[i as int]));
                }
                flagged = true;
            }
            i += 1;
        }
        importance_score(message_count, words, flagged)
    }

    /// Builds an episode from a transcript summary produced by a
    /// summarizer collaborator (or by the caller): topics extracted from
    /// the summary, importance computed from the conversation's shape, the
    /// episode not yet stored. An empty message list is a validation error
    /// on the `messages` field.
    pub fn episode_from_messages(&self, messages: &Vec<Message>, summary: &str) -> (r: Result<
        Episode,
        MemoryError,
    >)
        ensures
            messages@.len() == 0 <==> r is Err,
            messages@.len() == 0 ==> (r matches Err(e) && e matches MemoryError::Validation {
                field,
                ..
            } && field@ == "messages"@),
            messages@.len() > 0 ==> (r matches Ok(e) && {
                let tv = transcript_spec(Seq::new(messages@.len(), |i: int| messages@[i]@));
                &&& e@.summary == summary@
                &&& e@.topics == topics_from(lower_of(summary@))
                &&& e@.importance == importance_spec(
                    messages@.len() as nat,
                    crate::text::word_count(tv),
                    has_important_term(lower_of(tv)),
                )
                &&& e@.session_id is None
                &&& e@.insights.len() == 0
                &&& e@.metadata.len() == 0
                &&& e@.id.len() == 36
                &&& episode_valid(e@)
            }),
    {
        if messages.len() == 0 {
            return Err(
                MemoryError::Validation {
                    field: String::from_str("messages"),
                    rule: String::from_str("must not be empty"),
                    observed: String::from_str("0 messages provided"),
                },
            );
        }
        let transcript = build_transcript(messages);
        let topics = self.extract_topics_from_text(summary);
        let importance = self.calculate_importance(messages.len(), transcript.as_str());
        let ghost tvs = views_of(topics@);
        proof {
            assert(tvs =~= topics_from(lower_of(summary@)));
        }
        let episode = Episode::new(summary).with_topics(topics).with_importance(importance);
        Ok(episode)
    }
}

/// The importance heuristic over already-computed conversation features.
pub fn importance_score(message_count: usize, word_count: usize, flagged: bool) -> (r: u32)
    ensures
        r == importance_spec(message_count as nat, word_count as nat, flagged),
        r <= 1000,
{
    let mut score: u32 = 500;
    if message_count > 10 {
        score = score + 200;
    } else if message_count > 5 {
        score = score + 100;
    }
    if word_count > 500 {
        score = score + 200;
    } else if word_count > 200 {
        score = score + 100;
    }
    if flagged {
        score = score + 100;
    }
    if score > 1000 {
        1000
    } else {
        score
    }
}

/// The transcript of a message list: each message as `Role: content` on
/// its own line, roles capitalized.
pub open spec fn transcript_spec(ms: Seq<MessageModel>) -> Seq<char>
    decreases ms.len(),
{
    if ms.len() == 0 {
        Seq::empty()
    } else {
        transcript_spec(ms.drop_last()) + transcript_line(ms.last())
    }
}

/// One transcript line.
pub open spec fn transcript_line(m: MessageModel) -> Seq<char> {
    display_role(m.role) + ": "@ + m.content + "\n"@
}

/// The capitalized display name of a role.
pub open spec fn display_role(r: Role) -> Seq<char> {
    match r {
        Role::System => "System"@,
        Role::User => "User"@,
        Role::Assistant => "Assistant"@,
        Role::Tool => "Tool"@,
    }
}

fn display_role_exec(r: Role) -> (s: &'static str)
    ensures
        s@ == display_role(r),
{
    match r {
        Role::System => "System",
        Role::User => "User",
        Role::Assistant => "Assistant",
        Role::Tool => "Tool",
    }
}

/// Renders the role-prefixed transcript of `messages`.
pub fn build_transcript(messages: &Vec<Message>) -> (r: String)
    ensures
        r@ == transcript_spec(Seq::new(messages@.len(), |i: int| messages@[i]@)),
{
    let ghost views = Seq::new(messages@.len(), |i: int| messages@[i]@);
    let mut out = String::new();
    let mut i: usize = 0;
    while i < messages.len()
        invariant
            i <= messages@.len(),
            views == Seq::new(messages@.len(), |j: int| messages@[j]@),
            views.len() == messages@.len(),
            out@ == transcript_spec(views.subrange(0, i as int)),
        decreases messages@.len() - i,
    {
        let ghost pre = views.subrange(0, i as int);
        let ghost pre1 = views.subrange(0, i as int + 1);
        proof {
            assert(pre1.drop_last() =~= pre);
            assert(pre1.last() == views[i as int]);
        }
        out.append(display_role_exec(messages[i].role));
        out.append(": ");
        out.append(messages[i].content.as_str());
        out.append("\n");
        i += 1;
    }
    proof {
        assert(views.subrange(0, views.len() as int) =~= views);
    }
    out
}

impl EpisodicMemory {
    /// Every stored episode that decodes, in storage order: exactly the
    /// episodes the storage state holds under the episodic namespace.
    pub fn get_all_episodes(&self, store: &MemoryStore) -> (r: Result<Vec<Episode>, MemoryError>)
        ensures
            r matches Ok(v) && ep_views(v@) == stored_eps(
                store@,
                store.key_seq(),
                self.ns(),
            ) && forall|a: int|
                0 <= a < v@.len() ==> exists|id: Seq<char>|
                    episode_slot(store@, self.ns(), id) == Some((#[trigger] v@[a])@),
    {
        let prefix = self.prefix_key();
        let keys = store.keys(Some(prefix.as_str()));
        let ghost filtered = keys_in_ns(store.key_seq(), Some(prefix@));
        proof {
            crate::store::lemma_keys_in_ns_elements(store.key_seq(), Some(prefix@));
            assert forall|j: int|
                0 <= j < keys@.len() implies crate::text::is_prefix_of(
                eps_prefix(self.ns()),
                (#[trigger] keys@[j])@,
            ) by {
                assert(keys@[j]@ == filtered[j]);
                assert(ns_matches(Some(prefix@), filtered[j]));
            }
        }
        let mut out: Vec<Episode> = Vec::new();
        let mut i: usize = 0;
        while i < keys.len()
            invariant
                i <= keys@.len(),
                filtered == keys_in_ns(store.key_seq(), Some(eps_prefix(self.ns()))),
                keys@.len() == filtered.len(),
                forall|j: int| 0 <= j < filtered.len() ==> (#[trigger] keys@[j])@ == filtered[j],
                forall|j: int|
                    0 <= j < keys@.len() ==> crate::text::is_prefix_of(
                        eps_prefix(self.ns()),
                        (#[trigger] keys@[j])@,
                    ),
                ep_views(out@) == eps_under(store@, filtered.subrange(0, i as int)),
                forall|a: int|
                    0 <= a < out@.len() ==> exists|id: Seq<char>|
                        episode_slot(store@, self.ns(), id) == Some((#[trigger] out@[a])@),
            decreases keys@.len() - i,
        {
            let ghost pre = filtered.subrange(0, i as int);
            let ghost pre1 = filtered.subrange(0, i as int + 1);
            proof {
                assert(pre1.drop_last() =~= pre);
                assert(pre1.last() == filtered[i as int]);
            }
            match store.get(keys[i].as_str()) {
                Some(v) => {
                    match decode_episode_value(v) {
                        Some(e) => {
                            proof {
                                lemma_key_under_prefix(self.ns(), keys@[i as int]@);
                                let id = keys@[i as int]@.subrange(
                                    eps_prefix(self.ns()).len() as int,
                                    keys@[i as int]@.len() as int,
                                );
                                assert(episode_slot(store@, self.ns(), id) == Some(e@));
                                let ghost before = out@;
                                assert(ep_views(before.push(e)) =~= ep_views(before).push(e@));
                            }
                            out.push(e);
                        },
                        None => {},
                    }
                },
                None => {},
            }
            i += 1;
        }
        proof {
            assert(filtered.subrange(0, filtered.len() as int) =~= filtered);
            assert forall|a: int| 0 <= a < out@.len() implies exists|id: Seq<char>|
                episode_slot(store@, self.ns(), id) == Some((#[trigger] out@[a])@) by {
                let id0 = choose|id: Seq<char>|
                    episode_slot(store@, self.ns(), id) == Some(out@[a]@);
                assert(episode_slot(store@, self.ns(), id0) == Some(out@[a]@));
            }
        }
        Ok(out)
    }

    /// The stored episodes carrying a topic that contains `topic`:
    /// exactly those among the stored episodes, in storage order.
    pub fn find_by_topic(&self, store: &MemoryStore, topic: &str) -> (r: Result<
        Vec<Episode>,
        MemoryError,
    >)
        ensures
            r matches Ok(v) && ep_views(v@) == stored_eps(
                store@,
                store.key_seq(),
                self.ns(),
            ).filter(topic_matches(topic@)),
    {
        let all = self.get_all_episodes(store)?;
        let ghost avs = ep_views(all@);
        let ghost pred = topic_matches(topic@);
        let mut out: Vec<Episode> = Vec::new();
        let mut i: usize = 0;
        while i < all.len()
            invariant
                i <= all@.len(),
                avs == ep_views(all@),
                avs.len() == all@.len(),
                pred == topic_matches(topic@),
                ep_views(out@) == avs.subrange(0, i as int).filter(pred),
            decreases all@.len() - i,
        {
            let ghost pre = avs.subrange(0, i as int);
            let ghost pre1 = avs.subrange(0, i as int + 1);
            proof {
                assert(pre1 =~= pre.push(avs[i as int]));
                crate::store::lemma_filter_push(pre, avs[i as int], pred);
            }
            let mut matched = false;
            let mut t: usize = 0;
            while t < all[i].topics.len()
                invariant
                    0 <= i < all@.len(),
                    t <= all@[i as int].topics@.len(),
                    matched == exists|t2: int|
                        0 <= t2 < t && contains_seq(
                            #[trigger] all@[i as int]@.topics[t2],
                            topic@,
                        ),
                decreases all@[i as int].topics@.len() - t,
            {
                if str_contains(all[i].topics[t].as_str(), topic) {
                    proof {
                        assert(all@[i as int]@.topics[t as int] == all@[i as int].topics@[
                            t as int
                        ]@);
                        assert(contains_seq(all@[i as int]@.topics[t as int], topic@));
                    }
                    matched = true;
                }
                t += 1;
            }
            proof {
                assert(avs[i as int] == all@[i as int]@);
                assert(matched == pred(avs[i as int])) by {
                    if matched {
                        let t2 = choose|t2: int|
                            0 <= t2 < all@[i as int]@.topics.len() && contains_seq(
                                #[trigger] all@[i as int]@.topics[t2],
                                topic@,
                            );
                    }
                    if pred(avs[i as int]) {
                        let t2 = choose|t2: int|
                            0 <= t2 < avs[i as int].topics.len() && contains_seq(
                                #[trigger] avs[i as int].topics[t2],
                                topic@,
                            );
                        assert(contains_seq(all@[i as int]@.topics[t2], topic@));
                    }
                }
            }
            if matched {
                let ghost before = out@;
                out.push(all[i].duplicate());
                proof {
                    assert(ep_views(out@) =~= ep_views(before).push(all@[i as int]@));
                }
            }
            i += 1;
        }
        proof {
            assert(avs.subrange(0, avs.len() as int) =~= avs);
        }
        Ok(out)
    }

    /// The stored episodes at least as important as `min_importance`:
    /// exactly those among the stored episodes, in storage order.
    pub fn find_by_importance(&self, store: &MemoryStore, min_importance: u32) -> (r: Result<
        Vec<Episode>,
        MemoryError,
    >)
        ensures
            r matches Ok(v) && ep_views(v@) == stored_eps(
                store@,
                store.key_seq(),
                self.ns(),
            ).filter(importance_at_least(min_importance as int)),
    {
        let all = self.get_all_episodes(store)?;
        let ghost avs = ep_views(all@);
        let ghost pred = importance_at_least(min_importance as int);
        let mut out: Vec<Episode> = Vec::new();
        let mut i: usize = 0;
        while i < all.len()
            invariant
                i <= all@.len(),
                avs == ep_views(all@),
                avs.len() == all@.len(),
                pred == importance_at_least(min_importance as int),
                ep_views(out@) == avs.subrange(0, i as int).filter(pred),
            decreases all@.len() - i,
        {
            let ghost pre = avs.subrange(0, i as int);
            let ghost pre1 = avs.subrange(0, i as int + 1);
            proof {
                assert(pre1 =~= pre.push(avs[i as int]));
                crate::store::lemma_filter_push(pre, avs[i as int], pred);
            }
            if all[i].importance >= min_importance {
                let ghost before = out@;
                out.push(all[i].duplicate());
                proof {
                    assert(ep_views(out@) =~= ep_views(before).push(all@[i as int]@));
                }
            }
            i += 1;
        }
        proof {
            assert(avs.subrange(0, avs.len() as int) =~= avs);
        }
        Ok(out)
    }

    /// The stored episodes whose timestamp lies in `start ..= end`:
    /// exactly those among the stored episodes, in storage order.
    pub fn find_by_date_range(&self, store: &MemoryStore, start: i64, end: i64) -> (r: Result<
        Vec<Episode>,
        MemoryError,
    >)
        ensures
            r matches Ok(v) && ep_views(v@) == stored_eps(
                store@,
                store.key_seq(),
                self.ns(),
            ).filter(within_range(start as int, end as int)),
    {
        let all = self.get_all_episodes(store)?;
        let ghost avs = ep_views(all@);
        let ghost pred = within_range(start as int, end as int);
        let mut out: Vec<Episode> = Vec::new();
        let mut i: usize = 0;
        while i < all.len()
            invariant
                i <= all@.len(),
                avs == ep_views(all@),
                avs.len() == all@.len(),
                pred == within_range(start as int, end as int),
                ep_views(out@) == avs.subrange(0, i as int).filter(pred),
            decreases all@.len() - i,
        {
            let ghost pre = avs.subrange(0, i as int);
            let ghost pre1 = avs.subrange(0, i as int + 1);
            proof {
                assert(pre1 =~= pre.push(avs[i as int]));
                crate::store::lemma_filter_push(pre, avs[i as int], pred);
            }
            if start <= all[i].timestamp && all[i].timestamp <= end {
                let ghost before = out@;
                out.push(all[i].duplicate());
                proof {
                    assert(ep_views(out@) =~= ep_views(before).push(all@[i as int]@));
                }
            }
            i += 1;
        }
        proof {
            assert(avs.subrange(0, avs.len() as int) =~= avs);
        }
        Ok(out)
    }

    /// Up to `limit` stored episodes, newest first: exactly
    /// `min(limit, stored)` of them, and a stored episode is either
    /// returned or no newer than any returned one.
    #[verifier::rlimit(100)]
    #[verifier::spinoff_prover]
    pub fn get_recent_episodes(&self, store: &MemoryStore, limit: usize) -> (r: Result<
        Vec<Episode>,
        MemoryError,
    >)
        ensures
            r matches Ok(v) && {
                let eps = stored_eps(store@, store.key_seq(), self.ns());
                &&& v@.len() == if eps.len() <= limit {
                    eps.len() as int
                } else {
                    limit as int
                }
                &&& (forall|a: int| 0 <= a < v@.len() ==> eps.contains((#[trigger] v@[a])@))
                &&& (forall|a: int|
                    0 <= a < v@.len() ==> exists|id: Seq<char>|
                        episode_slot(store@, self.ns(), id) == Some((#[trigger] v@[a])@))
                &&& (forall|a: int, b: int|
                    0 <= a < b < v@.len() ==> (#[trigger] v@[a])@.timestamp >= (#[trigger] v@[
                        b
                    ])@.timestamp)
                &&& (forall|x: int|
                    #![trigger eps[x]]
                    0 <= x < eps.len() ==> ((exists|a: int|
                        0 <= a < v@.len() && (#[trigger] v@[a])@ == eps[x]) || (v@.len()
                        == limit && (limit <= 0 || eps[x].timestamp <= v@[limit
                        - 1]@.timestamp))))
            },
    {
        let all = self.get_all_episodes(store)?;
        let ghost avs = ep_views(all@);
        proof {
            assert forall|a: int| 0 <= a < all@.len() implies exists|id: Seq<char>|
                episode_slot(store@, self.ns(), id) == Some((#[trigger] all@[a])@) by {
                let id0 = choose|id: Seq<char>|
                    episode_slot(store@, self.ns(), id) == Some(all@[a]@);
                assert(episode_slot(store@, self.ns(), id0) == Some(all@[a]@));
            }
        }
        let mut items: Vec<Ranked> = Vec::new();
        let mut i: usize = 0;
        while i < all.len()
            invariant
                i <= all@.len(),
                items@.len() == i,
                forall|a: int|
                    0 <= a < items@.len() ==> (#[trigger] items@[a]).0 == a as usize && items@[a].1
                        == all@[a]@.timestamp,
            decreases all@.len() - i,
        {
            items.push((i, all[i].timestamp, 0));
            i += 1;
        }
        let sorted = sort_by_keys(items);
        let mut out: Vec<Episode> = Vec::new();
        let mut j: usize = sorted.len();
        while j > 0 && out.len() < limit
            invariant
                j <= sorted@.len(),
                out@.len() <= limit,
                avs == ep_views(all@),
                avs.len() == all@.len(),
                sorted@.len() == all@.len(),
                sorted@.to_multiset() == items@.to_multiset(),
                items@.len() == all@.len(),
                items@.len() <= usize::MAX,
                forall|a: int|
                    0 <= a < items@.len() ==> (#[trigger] items@[a]).0 == a as usize && items@[a].1
                        == all@[a]@.timestamp,
                sorted_by_keys(sorted@),
                forall|a: int|
                    0 <= a < all@.len() ==> exists|id: Seq<char>|
                        episode_slot(store@, self.ns(), id) == Some((#[trigger] all@[a])@),
                forall|a: int|
                    0 <= a < out@.len() ==> exists|id: Seq<char>|
                        episode_slot(store@, self.ns(), id) == Some((#[trigger] out@[a])@),
                forall|a: int|
                    0 <= a < out@.len() ==> (#[trigger] out@[a])@.timestamp == sorted@[
                        sorted@.len() - 1 - a
                    ].1 && out@[a]@ == all@[sorted@[sorted@.len() - 1 - a].0 as int]@,
                forall|a: int, b: int|
                    0 <= a < b < out@.len() ==> (#[trigger] out@[a])@.timestamp >= (#[trigger] out@[
                        b
                    ])@.timestamp,
                out@.len() + j <= sorted@.len(),
                out@.len() + j >= sorted@.len() || out@.len() == limit,
                out@.len() == sorted@.len() - j || out@.len() == limit,
            decreases j,
        {
            proof {
                crate::ranking::lemma_tagged_entry(items@, sorted@, j as int - 1);
            }
            let tag = sorted[j - 1].0;
            if tag < all.len() {
                out.push(all[tag].duplicate());
                proof {
                    assert(sorted@[j as int - 1] == items@[tag as int]);
                    assert(out@[out@.len() - 1]@.timestamp == sorted@[j as int - 1].1);
                }
            } else {
                proof {
                    assert(false);
                }
            }
            j -= 1;
        }
        proof {
            let v = out@;
            let geps = stored_eps(store@, store.key_seq(), self.ns());
            assert(geps == avs);
            assert forall|a: int| 0 <= a < v.len() implies geps.contains((#[trigger] v[a])@) by {
                let b = sorted@.len() - 1 - a;
                crate::ranking::lemma_tagged_entry(items@, sorted@, b);
                let t = sorted@[b].0 as int;
                assert(v[a]@ == all@[t]@);
                assert(avs[t] == all@[t]@);
            }
            assert forall|a: int| 0 <= a < v.len() implies exists|id: Seq<char>|
                episode_slot(store@, self.ns(), id) == Some((#[trigger] v[a])@) by {
                let id0 = choose|id: Seq<char>|
                    episode_slot(store@, self.ns(), id) == Some(v[a]@);
                assert(episode_slot(store@, self.ns(), id0) == Some(v[a]@));
            }
            assert forall|x: int|
                #![trigger geps[x]]
                0 <= x < geps.len() implies ((exists|a: int|
                0 <= a < v.len() && (#[trigger] v[a])@ == geps[x]) || (v.len() == limit && (limit
                <= 0 || geps[x].timestamp <= v[limit - 1]@.timestamp))) by {
                assert(geps[x] == avs[x]);
                crate::ranking::lemma_perm_contains(items@, sorted@, x);
                assert(sorted@.contains(items@[x]));
                let b = choose|b: int| 0 <= b < sorted@.len() && sorted@[b] == items@[x];
                let cut = sorted@.len() - v.len();
                if b >= cut {
                    let a2 = sorted@.len() - 1 - b;
                    assert(0 <= a2 < v.len());
                    assert(v[a2]@ == all@[sorted@[sorted@.len() - 1 - a2].0 as int]@);
                    assert(sorted@[sorted@.len() - 1 - a2] == sorted@[b]);
                    assert(sorted@[b].0 as int == x);
                    assert(v[a2]@ == avs[x]);
                    assert(0 <= a2 < v.len() && v[a2]@ == geps[x]);
                } else {
                    assert(v.len() < sorted@.len());
                    assert(v.len() == limit) by {
                        if v.len() != limit {
                            assert(v.len() == sorted@.len() - j);
                            assert(j == 0 || v.len() == limit);
                        }
                    }
                    if limit > 0 {
                        assert(v[limit - 1]@.timestamp == sorted@[cut].1);
                        assert(crate::ranking::key_le(sorted@[b], sorted@[cut as int]));
                        assert(avs[x].timestamp == items@[x].1);
                        assert(sorted@[b].1 == items@[x].1);
                        assert(geps[x].timestamp <= v[limit - 1]@.timestamp);
                    }
                }
            }
        }
        Ok(out)
    }

    /// A plain-text summary of the most recent episodes: empty exactly
    /// when no episode is asked for or stored, otherwise opening with a
    /// fixed heading.
    pub fn generate_context_summary(&self, store: &MemoryStore, num_episodes: usize) -> (r: Result<
        String,
        MemoryError,
    >)
        ensures
            r matches Ok(s) && (s@.len() > 0 ==> crate::text::is_prefix_of(
                "Recent interaction history:\n"@,
                s@,
            )) && ((s@.len() == 0) <==> (num_episodes == 0 || stored_eps(
                store@,
                store.key_seq(),
                self.ns(),
            ).len() == 0)),
    {
        let recent = self.get_recent_episodes(store, num_episodes)?;
        if recent.len() == 0 {
            proof {
                reveal_strlit("Recent interaction history:\n");
            }
            return Ok(String::new());
        }
        proof {
            reveal_strlit("Recent interaction history:\n");
            assert(("Recent interaction history:\n"@).len() == 28);
        }
        let mut out = String::from_str("Recent interaction history:\n");
        proof {
            assert(out@.subrange(0, ("Recent interaction history:\n"@).len() as int) =~= (
            "Recent interaction history:\n"@));
        }
        let mut i: usize = 0;
        while i < recent.len()
            invariant
                crate::text::is_prefix_of("Recent interaction history:\n"@, out@),
            decreases recent@.len() - i,
        {
            let ghost heading = "Recent interaction history:\n"@;
            out.append("- ");
            out.append(recent[i].summary.as_str());
            out.append("\n");
            proof {
                assert(out@.subrange(0, heading.len() as int) =~= heading);
            }
            if recent[i].topics.len() > 0 {
                out.append("  Topics: ");
                proof {
                    assert(out@.subrange(0, heading.len() as int) =~= heading);
                }
                let mut t: usize = 0;
                while t < recent[i].topics.len()
                    invariant
                        0 <= i < recent@.len(),
                        heading == "Recent interaction history:\n"@,
                        crate::text::is_prefix_of(heading, out@),
                    decreases recent@[i as int].topics@.len() - t,
                {
                    if t > 0 {
                        out.append(", ");
                    }
                    out.append(recent[i].topics[t].as_str());
                    proof {
                        assert(out@.subrange(0, heading.len() as int) =~= heading);
                    }
                    t += 1;
                }
                out.append("\n");
            }
            proof {
                assert(out@.subrange(0, heading.len() as int) =~= heading);
            }
            i += 1;
        }
        Ok(out)
    }

    /// Splits a collaborator's insight text into insights: one per line,
    /// leading bullets, numbering and spaces and trailing spaces removed,
    /// lines left empty dropped, order kept.
    pub fn parse_insights(&self, text: &str) -> (r: Vec<String>)
        ensures
            views_of(r@) == insights_of(text@),
            forall|a: int| 0 <= a < r@.len() ==> (#[trigger] r@[a])@.len() > 0,
    {
        let mut out: Vec<String> = Vec::new();
        let len = text.unicode_len();
        let mut start: usize = 0;
        let mut i: usize = 0;
        while i < len
            invariant
                start <= i,
                i <= len,
                len == text@.len(),
                forall|j: int| start <= j < i ==> text@[j] != '\n',
                insights_of(text@) == views_of(out@) + insights_from(text@, start as int),
                forall|a: int| 0 <= a < out@.len() ==> (#[trigger] out@[a])@.len() > 0,
            decreases len - i,
        {
            if text.get_char(i) == '\n' {
                proof {
                    lemma_next_nl_at(text@, start as int, i as int);
                }
                let ghost seg = text@.subrange(start as int, i as int);
                let ghost head = clean_line(seg);
                let ghost rest = insights_from(text@, i as int + 1);
                if start < i {
                    let ghost before = views_of(out@);
                    push_trimmed(text, start, i, &mut out);
                    proof {
                        if head.len() > 0 {
                            assert(insights_from(text@, start as int) =~= seq![head] + rest);
                            assert(before + (seq![head] + rest) =~= (before + seq![head]) + rest);
                        } else {
                            assert(views_of(out@) == before);
                        }
                    }
                } else {
                    proof {
                        assert(seg =~= Seq::<char>::empty());
                        assert(clean_line(seg).len() == 0);
                    }
                }
                start = i + 1;
            }
            i += 1;
        }
        if start < len {
            proof {
                lemma_next_nl_at(text@, start as int, len as int);
            }
            let ghost head = clean_line(text@.subrange(start as int, len as int));
            let ghost before = views_of(out@);
            push_trimmed(text, start, len, &mut out);
            proof {
                if head.len() > 0 {
                    assert(insights_from(text@, start as int) =~= seq![head]);
                    assert(views_of(out@) =~= before + seq![head]);
                } else {
                    assert(insights_from(text@, start as int) =~= Seq::<Seq<char>>::empty());
                }
            }
        }
        proof {
            assert(views_of(out@) =~= insights_of(text@));
        }
        out
    }
}

/// A character stripped from the front of an insight line: a space, a
/// bullet mark or a digit of a numbering.
pub open spec fn is_bullet(c: char) -> bool {
    c == ' ' || c == '.' || c == '-' || c == '*' || c == '0' || c == '1' || c == '2' || c == '3'
        || c == '4' || c == '5' || c == '6' || c == '7' || c == '8' || c == '9'
}

/// Drops leading bullet characters.
pub open spec fn trim_leading(s: Seq<char>) -> Seq<char>
    decreases s.len(),
{
    if s.len() > 0 && is_bullet(s.first()) {
        trim_leading(s.drop_first())
    } else {
        s
    }
}

/// Drops trailing spaces.
pub open spec fn trim_trailing(s: Seq<char>) -> Seq<char>
    decreases s.len(),
{
    if s.len() > 0 && s.last() == ' ' {
        trim_trailing(s.drop_last())
    } else {
        s
    }
}

/// A line cleaned for use as an insight: leading bullets and numbering,
/// then trailing spaces, removed.
pub open spec fn clean_line(s: Seq<char>) -> Seq<char> {
    trim_trailing(trim_leading(s))
}

/// The position of the first newline at or after `start`, or the text's
/// length when none remains.
pub open spec fn next_nl(text: Seq<char>, start: int) -> int
    decreases text.len() - start when start <= text.len()
{
    if start < 0 || start >= text.len() {
        text.len() as int
    } else if text[start] == '\n' {
        start
    } else {
        next_nl(text, start + 1)
    }
}

/// The insights of a collaborator text from position `start` on: each
/// line's cleaned form, in order, empty results dropped.
pub open spec fn insights_from(text: Seq<char>, start: int) -> Seq<Seq<char>>
    decreases text.len() - start when 0 <= start via insights_from_decreases
{
    if start < 0 || start >= text.len() {
        Seq::empty()
    } else {
        let k = next_nl(text, start);
        let head = clean_line(text.subrange(start, k));
        let rest = if k >= text.len() {
            Seq::<Seq<char>>::empty()
        } else {
            insights_from(text, k + 1)
        };
        if head.len() == 0 {
            rest
        } else {
            seq![head] + rest
        }
    }
}

#[via_fn]
proof fn insights_from_decreases(text: Seq<char>, start: int) {
    if 0 <= start < text.len() {
        lemma_next_nl_ge(text, start);
    }
}

proof fn lemma_next_nl_ge(text: Seq<char>, start: int)
    requires
        0 <= start <= text.len(),
    ensures
        start <= next_nl(text, start) <= text.len(),
    decreases text.len() - start,
{
    if start < text.len() && text[start] != '\n' {
        lemma_next_nl_ge(text, start + 1);
    }
}

/// `next_nl` finds exactly the first newline position.
proof fn lemma_next_nl_at(text: Seq<char>, start: int, k: int)
    requires
        0 <= start <= k <= text.len(),
        forall|j: int| start <= j < k ==> text[j] != '\n',
        k < text.len() ==> text[k] == '\n',
    ensures
        next_nl(text, start) == k,
    decreases k - start,
{
    if start < k {
        lemma_next_nl_at(text, start + 1, k);
    }
}

/// The insights of a whole text.
pub open spec fn insights_of(text: Seq<char>) -> Seq<Seq<char>> {
    insights_from(text, 0)
}

fn is_bullet_char(c: char) -> (r: bool)
    ensures
        r == is_bullet(c),
{
    c == ' ' || c == '.' || c == '-' || c == '*' || c == '0' || c == '1' || c == '2' || c == '3'
        || c == '4' || c == '5' || c == '6' || c == '7' || c == '8' || c == '9'
}

fn push_trimmed(text: &str, from: usize, to: usize, out: &mut Vec<String>)
    requires
        from < to <= text@.len(),
    ensures
        views_of(final(out)@) == views_of(old(out)@) + (if clean_line(
            text@.subrange(from as int, to as int),
        ).len() > 0 {
            seq![clean_line(text@.subrange(from as int, to as int))]
        } else {
            Seq::<Seq<char>>::empty()
        }),
        forall|a: int| 0 <= a < old(out)@.len() ==> #[trigger] final(out)@[a] == old(out)@[a],
        forall|a: int|
            old(out)@.len() <= a < final(out)@.len() ==> (#[trigger] final(out)@[a])@.len() > 0,
{
    let ghost seg = text@.subrange(from as int, to as int);
    let mut a = from;
    while a < to && is_bullet_char(text.get_char(a))
        invariant
            from <= a <= to,
            to <= text@.len(),
            seg == text@.subrange(from as int, to as int),
            trim_leading(seg) == trim_leading(text@.subrange(a as int, to as int)),
        decreases to - a,
    {
        proof {
            let cur = text@.subrange(a as int, to as int);
            assert(cur.first() == text@[a as int]);
            assert(cur.drop_first() =~= text@.subrange(a as int + 1, to as int));
        }
        a += 1;
    }
    proof {
        let cur = text@.subrange(a as int, to as int);
        if a == to {
            assert(cur =~= Seq::<char>::empty());
            assert(trim_leading(seg) =~= cur);
        } else {
            assert(cur.first() == text@[a as int]);
            assert(!is_bullet(cur.first()));
            assert(trim_leading(seg) == cur);
        }
    }
    let mut b = to;
    while b > a && text.get_char(b - 1) == ' '
        invariant
            a <= b <= to,
            to <= text@.len(),
            seg == text@.subrange(from as int, to as int),
            trim_leading(seg) == text@.subrange(a as int, to as int),
            trim_trailing(text@.subrange(a as int, to as int)) == trim_trailing(
                text@.subrange(a as int, b as int),
            ),
        decreases b,
    {
        proof {
            let cur = text@.subrange(a as int, b as int);
            assert(cur.last() == text@[b as int - 1]);
            assert(cur.drop_last() =~= text@.subrange(a as int, b as int - 1));
        }
        b -= 1;
    }
    proof {
        let cur = text@.subrange(a as int, b as int);
        if b == a {
            assert(cur =~= Seq::<char>::empty());
            assert(clean_line(seg) =~= cur);
        } else {
            assert(cur.last() == text@[b as int - 1]);
            assert(cur.last() != ' ');
            assert(clean_line(seg) == cur);
        }
    }
    if a < b {
        let line = String::from_str(text.substring_char(a, b));
        let ghost before = views_of(out@);
        proof {
            assert(line@ == text@.subrange(a as int, b as int));
            assert(line@.len() == b - a);
        }
        out.push(line);
        proof {
            assert(views_of(out@) =~= before.push(clean_line(seg)));
            assert(before.push(clean_line(seg)) =~= before + seq![clean_line(seg)]);
        }
    } else {
        proof {
            assert(views_of(out@) =~= views_of(out@) + Seq::<Seq<char>>::empty());
        }
    }
}

} // verus!
