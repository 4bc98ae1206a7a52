//! Semantic memory: subject-predicate-object facts with optional
//! embeddings and similarity search.
//!
//! Facts live at keys `agent::<id>::semantic::fact::<fact-id>`. Uniqueness
//! of a (subject, predicate) pair is not enforced; identity is the fact id.

use vstd::prelude::*;
use vstd::string::StringExecFns;

use crate::error::MemoryError;
use crate::outside::new_uuid;
use crate::outside::now_millis;
use crate::record::decode_int_list;
use crate::record::decode_str_dict;
use crate::record::decodes_int_list;
use crate::record::decodes_str_dict;
use crate::record::encode_int_list;
use crate::record::encode_str_dict;
use crate::record::int_list_model;
use crate::record::lemma_doc_lookup_absent;
use crate::record::lemma_doc_lookup_distinct;
use crate::record::lemma_int_list_round_trip;
use crate::record::lemma_str_dict_round_trip;
use crate::record::pair_views_of;
use crate::record::str_dict_model;
use crate::ranking::Ranked;
use crate::ranking::sort_by_keys;
use crate::ranking::sorted_by_keys;
use crate::scope::agent_ns;
use crate::scope::agent_ns_spec;
use crate::store::MemoryStore;
use crate::store::keys_in_ns;
use crate::store::ns_matches;
use crate::text::is_prefix_of;
use crate::text::str_eq;
use crate::text::str_join;
use crate::value::MemoryValue;
use crate::value::ValueModel;
use crate::value::doc_get;
use crate::value::doc_lookup;
use crate::value::fields_model;
use crate::value::lemma_fields_model;
use crate::vector::EmbedModel;
use crate::vector::Embedding;
use crate::vector::EmbeddingProvider;
use crate::vector::SearchResult;

verus! {

broadcast use vstd::string::group_string_axioms;

/// A subject-predicate-object fact.
#[derive(Debug)]
pub struct Fact {
    /// Unique identifier; identity of the fact.
    pub id: String,
    /// The subject.
    pub subject: String,
    /// The predicate.
    pub predicate: String,
    /// The object.
    pub object: MemoryValue,
    /// Confidence in thousandths, `0 ..= 1000`.
    pub confidence: u32,
    /// Creation time, in milliseconds since the UNIX epoch.
    pub created_at: i64,
    /// Last store time.
    pub updated_at: i64,
    /// Free-form metadata.
    pub metadata: Vec<(String, String)>,
    /// An optional embedding for similarity search.
    pub embedding: Option<Embedding>,
}

/// The mathematical model of a fact.
pub struct FactModel {
    /// Unique identifier.
    pub id: Seq<char>,
    /// The subject.
    pub subject: Seq<char>,
    /// The predicate.
    pub predicate: Seq<char>,
    /// The object.
    pub object: ValueModel,
    /// Confidence in thousandths.
    pub confidence: int,
    /// Creation time.
    pub created_at: int,
    /// Last store time.
    pub updated_at: int,
    /// Free-form metadata.
    pub metadata: Seq<(Seq<char>, Seq<char>)>,
    /// An optional embedding.
    pub embedding: Option<EmbedModel>,
}

impl View for Fact {
    type V = FactModel;

    open spec fn view(&self) -> FactModel {
        FactModel {
            id: self.id@,
            subject: self.subject@,
            predicate: self.predicate@,
            object: self.object@,
            confidence: self.confidence as int,
            created_at: self.created_at as int,
            updated_at: self.updated_at as int,
            metadata: pair_views_of(self.metadata@),
            embedding: match self.embedding {
                Some(ref e) => Some(e@),
                None => None,
            },
        }
    }
}

/// A fact whose numeric fields lie in their documented ranges.
pub open spec fn fact_valid(f: FactModel) -> bool {
    &&& 0 <= f.confidence <= 1000
    &&& match f.embedding {
        Some(e) => e.dimensions == e.vector.len() && e.vector.len() <= 1_000_000 && forall|i: int|
            0 <= i < e.vector.len() ==> -1000 <= #[trigger] e.vector[i] <= 1000,
        None => true,
    }
}

impl Fact {
    /// A new fact: fresh id, full confidence, no metadata, no embedding,
    /// creation and update time both the clock reading.
    pub fn new(subject: &str, predicate: &str, object: MemoryValue) -> (r: Fact)
        ensures
            r@.subject == subject@,
            r@.predicate == predicate@,
            r@.object == object@,
            r@.confidence == 1000,
            r@.created_at == r@.updated_at,
            r@.metadata.len() == 0,
            r@.embedding is None,
            r@.id.len() == 36,
            fact_valid(r@),
    {
        let now = now_millis();
        let r = Fact {
            id: new_uuid(),
            subject: String::from_str(subject),
            predicate: String::from_str(predicate),
            object,
            confidence: 1000,
            created_at: now,
            updated_at: now,
            metadata: Vec::new(),
            embedding: None,
        };
        proof {
            assert(pair_views_of(r.metadata@) =~= Seq::<(Seq<char>, Seq<char>)>::empty());
        }
        r
    }

    /// Attaches an embedding.
    pub fn with_embedding(self, embedding: Embedding) -> (r: Fact)
        ensures
            r@ == (FactModel { embedding: Some(embedding@), ..self@ }),
    {
        Fact { embedding: Some(embedding), ..self }
    }

    /// Replaces the confidence, clamped into `0 ..= 1000`.
    pub fn with_confidence(self, confidence: u32) -> (r: Fact)
        ensures
            r@ == (FactModel {
                confidence: if confidence > 1000 {
                    1000int
                } else {
                    confidence as int
                },
                ..self@
            }),
    {
        let clamped = if confidence > 1000 {
            1000
        } else {
            confidence
        };
        Fact { confidence: clamped, ..self }
    }

    /// Adds one metadata pair.
    pub fn with_metadata(self, key: &str, value: &str) -> (r: Fact)
        ensures
            r@ == (FactModel { metadata: self@.metadata.push((key@, value@)), ..self@ }),
    {
        let mut metadata = self.metadata;
        let ghost before = metadata@;
        metadata.push((String::from_str(key), String::from_str(value)));
        proof {
            assert(pair_views_of(metadata@) =~= pair_views_of(before).push((key@, value@)));
        }
        Fact { metadata, ..self }
    }

    /// A copy with the same model.
    pub fn duplicate(&self) -> (r: Fact)
        ensures
            r@ == self@,
    {
        Fact {
            id: self.id.clone(),
            subject: self.subject.clone(),
            predicate: self.predicate.clone(),
            object: self.object.duplicate(),
            confidence: self.confidence,
            created_at: self.created_at,
            updated_at: self.updated_at,
            metadata: clone_pairs(&self.metadata),
            embedding: match &self.embedding {
                Some(e) => Some(e.duplicate()),
                None => None,
            },
        }
    }
}

fn clone_pairs(v: &Vec<(String, String)>) -> (r: Vec<(String, String)>)
    ensures
        pair_views_of(r@) == pair_views_of(v@),
{
    let mut out: Vec<(String, String)> = Vec::new();
    let mut i: usize = 0;
    while i < v.len()
        invariant
            i <= v@.len(),
            out@.len() == i,
            forall|j: int| 0 <= j < i ==> #[trigger] out@[j] == v@[j],
        decreases v@.len() - i,
    {
        out.push((v[i].0.clone(), v[i].1.clone()));
        i += 1;
    }
    proof {
        assert(pair_views_of(out@) =~= pair_views_of(v@));
    }
    out
}

/// The field list of a fact document; the embedding fields are present
/// only when an embedding is attached.
pub open spec fn fact_fields(f: FactModel) -> Seq<(Seq<char>, ValueModel)> {
    let head = seq![
        ("id"@, ValueModel::Str(f.id)),
        ("subject"@, ValueModel::Str(f.subject)),
        ("predicate"@, ValueModel::Str(f.predicate)),
        ("object"@, f.object),
        ("confidence"@, ValueModel::Int(f.confidence)),
        ("created_at"@, ValueModel::Int(f.created_at)),
        ("updated_at"@, ValueModel::Int(f.updated_at)),
        ("metadata"@, str_dict_model(f.metadata)),
    ];
    match f.embedding {
        Some(e) => head + seq![
            ("embedding_vector"@, int_list_model(e.vector)),
            ("embedding_dimensions"@, ValueModel::Int(e.dimensions)),
            ("embedding_model"@, ValueModel::Str(e.model)),
        ],
        None => head,
    }
}

/// The document a fact is stored as.
pub open spec fn fact_doc(f: FactModel) -> ValueModel {
    ValueModel::Json(fact_fields(f))
}

/// What a stored value decodes to as a fact. A decoded embedding keeps
/// the vector's own length as its dimensionality.
pub open spec fn decode_fact(v: ValueModel) -> Option<FactModel> {
    match v {
        ValueModel::Json(fs) => {
            if {
                &&& doc_lookup(fs, "id"@) matches Some(ValueModel::Str(_))
                &&& doc_lookup(fs, "subject"@) matches Some(ValueModel::Str(_))
                &&& doc_lookup(fs, "predicate"@) matches Some(ValueModel::Str(_))
                &&& doc_lookup(fs, "object"@) is Some
                &&& doc_lookup(fs, "confidence"@) matches Some(ValueModel::Int(_))
                &&& doc_lookup(fs, "created_at"@) matches Some(ValueModel::Int(_))
                &&& doc_lookup(fs, "updated_at"@) matches Some(ValueModel::Int(_))
                &&& (doc_lookup(fs, "metadata"@) matches Some(mv) && decodes_str_dict(mv) is Some)
                &&& match doc_lookup(fs, "embedding_vector"@) {
                    Some(ev) => decodes_int_list(ev) is Some && (decodes_int_list(ev)->Some_0).len()
                        <= 1_000_000 && (forall|i: int|
                        0 <= i < (decodes_int_list(ev)->Some_0).len() ==> -1000 <= (
                        #[trigger] (decodes_int_list(ev)->Some_0)[i]) <= 1000) && (doc_lookup(
                        fs,
                        "embedding_model"@,
                    ) matches Some(ValueModel::Str(_))),
                    None => true,
                }
            } {
                Some(
                    FactModel {
                        id: doc_lookup(fs, "id"@)->Some_0->Str_0,
                        subject: doc_lookup(fs, "subject"@)->Some_0->Str_0,
                        predicate: doc_lookup(fs, "predicate"@)->Some_0->Str_0,
                        object: doc_lookup(fs, "object"@)->Some_0,
                        confidence: crate::episodic::clamp_milli(
                            doc_lookup(fs, "confidence"@)->Some_0->Int_0,
                        ),
                        created_at: doc_lookup(fs, "created_at"@)->Some_0->Int_0,
                        updated_at: doc_lookup(fs, "updated_at"@)->Some_0->Int_0,
                        metadata: decodes_str_dict(doc_lookup(fs, "metadata"@)->Some_0)->Some_0,
                        embedding: match doc_lookup(fs, "embedding_vector"@) {
                            Some(ev) => Some(
                                EmbedModel {
                                    vector: decodes_int_list(ev)->Some_0,
                                    dimensions: (decodes_int_list(ev)->Some_0).len() as int,
                                    model: doc_lookup(fs, "embedding_model"@)->Some_0->Str_0,
                                },
                            ),
                            None => None,
                        },
                    },
                )
            } else {
                None
            }
        },
        _ => None,
    }
}

proof fn lemma_fact_field_names(f: FactModel)
    ensures
        forall|a: int, b: int|
            0 <= a < b < fact_fields(f).len() ==> fact_fields(f)[a].0 != fact_fields(f)[b].0,
        forall|a: int|
            0 <= a < fact_fields(f).len() && f.embedding is None ==> fact_fields(f)[a].0
                != "embedding_vector"@,
{
    reveal_strlit("id");
    reveal_strlit("subject");
    reveal_strlit("predicate");
    reveal_strlit("object");
    reveal_strlit("confidence");
    reveal_strlit("created_at");
    reveal_strlit("updated_at");
    reveal_strlit("metadata");
    reveal_strlit("embedding_vector");
    reveal_strlit("embedding_dimensions");
    reveal_strlit("embedding_model");
    assert(("id"@).len() == 2);
    assert(("subject"@).len() == 7);
    assert(("predicate"@).len() == 9);
    assert(("object"@).len() == 6);
    assert(("confidence"@).len() == 10);
    assert(("created_at"@).len() == 10);
    assert(("updated_at"@).len() == 10);
    assert(("metadata"@).len() == 8);
    assert(("embedding_vector"@).len() == 16);
    assert(("embedding_dimensions"@).len() == 20);
    assert(("embedding_model"@).len() == 15);
    assert(("confidence"@)[0] == 'c');
    assert(("created_at"@)[0] == 'c');
    assert(("updated_at"@)[0] == 'u');
    assert(("confidence"@)[1] == 'o');
    assert(("created_at"@)[1] == 'r');
    let fs = fact_fields(f);
    assert(fs[0].0 == "id"@);
    assert(fs[1].0 == "subject"@);
    assert(fs[2].0 == "predicate"@);
    assert(fs[3].0 == "object"@);
    assert(fs[4].0 == "confidence"@);
    assert(fs[5].0 == "created_at"@);
    assert(fs[6].0 == "updated_at"@);
    assert(fs[7].0 == "metadata"@);
    assert("confidence"@ != "created_at"@);
    assert("confidence"@ != "updated_at"@);
    assert("created_at"@ != "updated_at"@);
    match f.embedding {
        Some(_) => {
            assert(fs.len() == 11);
            assert(fs[8].0 == "embedding_vector"@);
            assert(fs[9].0 == "embedding_dimensions"@);
            assert(fs[10].0 == "embedding_model"@);
        },
        None => {
            assert(fs.len() == 8);
        },
    }
    assert forall|a: int, b: int|
        0 <= a < b < fs.len() implies fs[a].0 != fs[b].0 by {
        assert(fs[a].0 == fs[a].0);
    }
}

/// Encoding then decoding a valid fact yields the fact back.
pub proof fn lemma_fact_round_trip(f: FactModel)
    requires
        fact_valid(f),
    ensures
        decode_fact(fact_doc(f)) == Some(f),
{
    let fs = fact_fields(f);
    lemma_fact_field_names(f);
    lemma_doc_lookup_distinct(fs, 0);
    lemma_doc_lookup_distinct(fs, 1);
    lemma_doc_lookup_distinct(fs, 2);
    lemma_doc_lookup_distinct(fs, 3);
    lemma_doc_lookup_distinct(fs, 4);
    lemma_doc_lookup_distinct(fs, 5);
    lemma_doc_lookup_distinct(fs, 6);
    lemma_doc_lookup_distinct(fs, 7);
    lemma_str_dict_round_trip(f.metadata);
    match f.embedding {
        Some(e) => {
            lemma_doc_lookup_distinct(fs, 8);
            lemma_doc_lookup_distinct(fs, 9);
            lemma_doc_lookup_distinct(fs, 10);
            lemma_int_list_round_trip(e.vector);
        },
        None => {
            lemma_doc_lookup_absent(fs, "embedding_vector"@);
        },
    }
}

/// Encodes a fact as a document.
pub fn encode_fact(f: Fact) -> (r: MemoryValue)
    ensures
        r@ == fact_doc(f@),
{
    let ghost fm = f@;
    let mut fields: Vec<(String, MemoryValue)> = Vec::new();
    let embedding = f.embedding;
    fields.push((String::from_str("id"), MemoryValue::Str(f.id)));
    fields.push((String::from_str("subject"), MemoryValue::Str(f.subject)));
    fields.push((String::from_str("predicate"), MemoryValue::Str(f.predicate)));
    fields.push((String::from_str("object"), f.object));
    fields.push((String::from_str("confidence"), MemoryValue::Int(f.confidence as i64)));
    fields.push((String::from_str("created_at"), MemoryValue::Int(f.created_at)));
    fields.push((String::from_str("updated_at"), MemoryValue::Int(f.updated_at)));
    fields.push((String::from_str("metadata"), encode_str_dict(f.metadata)));
    match embedding {
        Some(e) => {
            proof {
                crate::vector::lemma_embedding_view(e);
            }
            fields.push((
                String::from_str("embedding_vector"),
                encode_int_list(e.coordinates()),
            ));
            fields.push((
                String::from_str("embedding_dimensions"),
                MemoryValue::Int(e.dimensions() as i64),
            ));
            fields.push((
                String::from_str("embedding_model"),
                MemoryValue::Str(String::from_str(e.model_name())),
            ));
        },
        None => {},
    }
    proof {
        lemma_fields_model(fields@);
        assert(fields_model(fields@) =~= fact_fields(fm));
    }
    MemoryValue::Json(fields)
}

/// Decodes a stored value as a fact.
pub fn decode_fact_value(v: &MemoryValue) -> (r: Option<Fact>)
    ensures
        match r {
            Some(f) => decode_fact(v@) == Some(f@),
            None => decode_fact(v@) is None,
        },
{
    let fs = match v {
        MemoryValue::Json(fs) => fs,
        _ => {
            return None;
        },
    };
    let id = match doc_get(fs, "id") {
        Some(MemoryValue::Str(s)) => s.clone(),
        _ => {
            return None;
        },
    };
    let subject = match doc_get(fs, "subject") {
        Some(MemoryValue::Str(s)) => s.clone(),
        _ => {
            return None;
        },
    };
    let predicate = match doc_get(fs, "predicate") {
        Some(MemoryValue::Str(s)) => s.clone(),
        _ => {
            return None;
        },
    };
    let object = match doc_get(fs, "object") {
        Some(ov) => ov.duplicate(),
        None => {
            return None;
        },
    };
    let confidence_raw = match doc_get(fs, "confidence") {
        Some(MemoryValue::Int(n)) => *n,
        _ => {
            return None;
        },
    };
    let created_at = match doc_get(fs, "created_at") {
        Some(MemoryValue::Int(n)) => *n,
        _ => {
            return None;
        },
    };
    let updated_at = match doc_get(fs, "updated_at") {
        Some(MemoryValue::Int(n)) => *n,
        _ => {
            return None;
        },
    };
    let metadata = match doc_get(fs, "metadata") {
        Some(mv) => match decode_str_dict(mv) {
            Some(ps) => ps,
            None => {
                return None;
            },
        },
        None => {
            return None;
        },
    };
    let embedding: Option<Embedding> = match doc_get(fs, "embedding_vector") {
        Some(ev) => {
            match decode_int_list(ev) {
                Some(xs) => {
                    if xs.len() > 1_000_000 {
                        return None;
                    }
                    let mut ok = true;
                    let mut i: usize = 0;
                    while i < xs.len()
                        invariant
                            i <= xs@.len(),
                            ok == forall|j: int| 0 <= j < i ==> -1000 <= #[trigger] xs@[j] <= 1000,
                        decreases xs@.len() - i,
                    {
                        if xs[i] < -1000 || xs[i] > 1000 {
                            proof {
                                assert(!(-1000 <= xs@[i as int] <= 1000));
                            }
                            ok = false;
                        }
                        i += 1;
                    }
                    if !ok {
                        return None;
                    }
                    let model = match doc_get(fs, "embedding_model") {
                        Some(MemoryValue::Str(s)) => s.clone(),
                        _ => {
                            return None;
                        },
                    };
                    let ghost xsv = xs@;
                    let e = Embedding::new(xs, model.as_str());
                    proof {
                        assert forall|j: int| 0 <= j < xsv.len() implies #[trigger] e.values()[j]
                            == xsv[j] by {
                            assert(e.values()[j] == crate::vector::clamp_milli_signed(xsv[j]));
                        }
                        assert(e.values() =~= xsv);
                        crate::vector::lemma_embedding_view(e);
                    }
                    Some(e)
                },
                None => {
                    return None;
                },
            }
        },
        None => None,
    };
    let confidence: u32 = if confidence_raw < 0 {
        0
    } else if confidence_raw > 1000 {
        1000
    } else {
        confidence_raw as u32
    };
    let f = Fact {
        id,
        subject,
        predicate,
        object,
        confidence,
        created_at,
        updated_at,
        metadata,
        embedding,
    };
    Some(f)
}

/// The prefix under which facts are stored: `<ns>::fact::`.
pub open spec fn facts_prefix(ns: Seq<char>) -> Seq<char> {
    ns + "::fact::"@
}

/// The key of the fact with identifier `id`.
pub open spec fn fact_key_spec(ns: Seq<char>, id: Seq<char>) -> Seq<char> {
    ns + "::fact::"@ + id
}

/// What the storage holds for the fact `id`.
pub open spec fn fact_slot(m: Map<Seq<char>, ValueModel>, ns: Seq<char>, id: Seq<char>) -> Option<
    FactModel,
> {
    if m.contains_key(fact_key_spec(ns, id)) {
        decode_fact(m[fact_key_spec(ns, id)])
    } else {
        None
    }
}

/// The facts the values at `ks` decode to in `m`, in key order; a missing
/// key or a value that is no fact document contributes nothing.
pub open spec fn facts_under(m: Map<Seq<char>, ValueModel>, ks: Seq<Seq<char>>) -> Seq<FactModel>
    decreases ks.len(),
{
    if ks.len() == 0 {
        Seq::empty()
    } else {
        let rest = facts_under(m, ks.drop_last());
        if m.contains_key(ks.last()) && decode_fact(m[ks.last()]) is Some {
            rest.push(decode_fact(m[ks.last()])->Some_0)
        } else {
            rest
        }
    }
}

/// Every fact a storage state (with key sequence `ks`) holds under the
/// semantic namespace `ns`, in storage order.
pub open spec fn stored_facts(
    m: Map<Seq<char>, ValueModel>,
    ks: Seq<Seq<char>>,
    ns: Seq<char>,
) -> Seq<FactModel> {
    facts_under(m, keys_in_ns(ks, Some(facts_prefix(ns))))
}

/// The models of a fact sequence.
pub open spec fn fact_views(s: Seq<Fact>) -> Seq<FactModel> {
    Seq::new(s.len(), |i: int| s[i]@)
}

/// Facts whose subject is `subject`.
pub open spec fn subject_is(subject: Seq<char>) -> spec_fn(FactModel) -> bool {
    |f: FactModel| f.subject == subject
}

/// Facts whose predicate is `predicate`.
pub open spec fn predicate_is(predicate: Seq<char>) -> spec_fn(FactModel) -> bool {
    |f: FactModel| f.predicate == predicate
}

/// Facts with both the given subject and the given predicate.
pub open spec fn subject_predicate_is(
    subject: Seq<char>,
    predicate: Seq<char>,
) -> spec_fn(FactModel) -> bool {
    |f: FactModel| f.subject == subject && f.predicate == predicate
}

/// Whether `f` can answer a similarity search for `q` at threshold
/// `min_sim`: it carries an embedding of the query's dimensionality whose
/// similarity reaches the threshold.
pub open spec fn qualifies(q: EmbedModel, f: FactModel, min_sim: int) -> bool {
    f.embedding matches Some(e) && e.dimensions == q.dimensions && crate::vector::cosine_milli(
        q.vector,
        e.vector,
    ) >= min_sim
}

/// The similarity score of a fact's embedding against the query.
pub open spec fn match_score(q: EmbedModel, f: FactModel) -> int {
    crate::vector::cosine_milli(q.vector, f.embedding->Some_0.vector)
}

/// What a similarity search over the fact list `facts` returns: sound
/// (every hit is a stored, qualifying fact with its exact score), sorted
/// most similar first, at most `limit` hits, and complete up to the limit:
/// a qualifying stored fact is either among the hits or crowded out by
/// `limit` hits that all score at least as high.
pub open spec fn search_post(
    facts: Seq<FactModel>,
    q: EmbedModel,
    limit: int,
    min_sim: int,
    v: Seq<SearchResult<Fact>>,
) -> bool {
    &&& v.len() <= limit
    &&& forall|a: int| 0 <= a < v.len() ==> facts.contains((#[trigger] v[a]).item@)
    &&& forall|a: int| 0 <= a < v.len() ==> qualifies(q, (#[trigger] v[a]).item@, min_sim)
    &&& forall|a: int| 0 <= a < v.len() ==> (#[trigger] v[a]).score == match_score(q, v[a].item@)
    &&& forall|a: int, b: int|
        0 <= a < b < v.len() ==> (#[trigger] v[a]).score >= (#[trigger] v[b]).score
    &&& forall|x: int|
        0 <= x < facts.len() && qualifies(q, #[trigger] facts[x], min_sim) ==> ((exists|a: int|
            0 <= a < v.len() && (#[trigger] v[a]).item@ == facts[x]) || (v.len() == limit && (limit
            <= 0 || match_score(q, facts[x]) <= v[limit - 1].score)))
}

/// The text a fact is embedded from: subject, predicate and the object's
/// string form (empty when the object is no string), space-separated.
pub open spec fn fact_embed_text(f: FactModel) -> Seq<char> {
    f.subject + " "@ + f.predicate + " "@ + (match f.object {
        ValueModel::Str(s) => s,
        _ => Seq::<char>::empty(),
    })
}

/// Agent-scoped fact storage.
pub struct SemanticMemory {
    namespace: String,
}

impl SemanticMemory {
    /// The namespace this memory lives under.
    pub closed spec fn ns(self) -> Seq<char> {
        self.namespace@
    }

    /// Semantic memory for `agent_id`.
    pub fn new(agent_id: &str) -> (r: SemanticMemory)
        ensures
            r.ns() == agent_ns_spec(agent_id@, "semantic"@),
    {
        SemanticMemory { namespace: agent_ns(agent_id, "semantic") }
    }

    /// The storage key of the fact with identifier `fact_id`.
    pub fn fact_key(&self, fact_id: &str) -> (r: String)
        ensures
            r@ == fact_key_spec(self.ns(), fact_id@),
    {
        let mut s = str_join(self.namespace.as_str(), "::fact::");
        s.append(fact_id);
        s
    }

    /// Stores `fact` under its identifier.
    pub fn store_fact(&self, store: &mut MemoryStore, fact: Fact) -> (r: Result<(), MemoryError>)
        ensures
            r is Ok,
            final(store)@ == old(store)@.insert(fact_key_spec(self.ns(), fact@.id), fact_doc(fact@)),
            final(store).coherent(),
    {
        let key = self.fact_key(fact.id.as_str());
        let doc = encode_fact(fact);
        store.set(key, doc);
        Ok(())
    }

    /// The stored fact with identifier `fact_id`, if any and decodable; a
    /// present but non-document value yields nothing, a malformed document
    /// a serialization error.
    pub fn get_fact(&self, store: &MemoryStore, fact_id: &str) -> (r: Result<
        Option<Fact>,
        MemoryError,
    >)
        ensures
            fact_slot(store@, self.ns(), fact_id@) matches Some(f) ==> (r matches Ok(v)
                && v matches Some(rf) && rf@ == f),
            !store@.contains_key(fact_key_spec(self.ns(), fact_id@)) ==> (r matches Ok(v)
                && v is None),
    {
        let key = self.fact_key(fact_id);
        match store.get(key.as_str()) {
            Some(v) => {
                match v {
                    MemoryValue::Json(_) => {
                        match decode_fact_value(v) {
                            Some(f) => Ok(Some(f)),
                            None => Err(
                                MemoryError::Serialization {
                                    operation: String::from_str("decode_fact"),
                                },
                            ),
                        }
                    },
                    _ => Ok(None),
                }
            },
            None => Ok(None),
        }
    }

    /// Deletes the fact with identifier `fact_id`; reports whether it was
    /// present.
    pub fn delete_fact(&self, store: &mut MemoryStore, fact_id: &str) -> (r: Result<
        bool,
        MemoryError,
    >)
        ensures
            r matches Ok(b) && b == old(store)@.contains_key(fact_key_spec(self.ns(), fact_id@)),
            final(store)@ == old(store)@.remove(fact_key_spec(self.ns(), fact_id@)),
            final(store).coherent(),
    {
        let key = self.fact_key(fact_id);
        Ok(store.delete(key.as_str()))
    }

    /// How many facts are stored (keys under the namespace).
    pub fn count(&self, store: &MemoryStore) -> (r: Result<usize, MemoryError>)
        ensures
            r matches Ok(n) && n == keys_in_ns(store.key_seq(), Some(self.ns())).len(),
    {
        Ok(store.count(Some(self.namespace.as_str())))
    }

    /// Removes every stored fact.
    pub fn clear(&self, store: &mut MemoryStore) -> (r: Result<(), MemoryError>)
        ensures
            r is Ok,
            final(store)@ == crate::store::clear_model(old(store)@, Some(self.ns())),
            keys_in_ns(final(store).key_seq(), Some(self.ns())) == Seq::<Seq<char>>::empty(),
            final(store).coherent(),
    {
        store.clear(Some(self.namespace.as_str()));
        Ok(())
    }

    /// Every stored fact that decodes, in storage order: exactly the facts
    /// the storage state holds under the semantic namespace.
    pub fn get_all_facts(&self, store: &MemoryStore) -> (r: Result<Vec<Fact>, MemoryError>)
        ensures
            r matches Ok(v) && fact_views(v@) == stored_facts(
                store@,
                store.key_seq(),
                self.ns(),
            ) && forall|a: int|
                0 <= a < v@.len() ==> exists|id: Seq<char>|
                    fact_slot(store@, self.ns(), id) == Some((#[trigger] v@[a])@),
    {
        let prefix = str_join(self.namespace.as_str(), "::fact::");
        let keys = store.keys(Some(prefix.as_str()));
        let ghost filtered = keys_in_ns(store.key_seq(), Some(prefix@));
        proof {
            assert(prefix@ == facts_prefix(self.ns()));
            crate::store::lemma_keys_in_ns_elements(store.key_seq(), Some(prefix@));
            assert forall|j: int|
                0 <= j < keys@.len() implies is_prefix_of(
                facts_prefix(self.ns()),
                (#[trigger] keys@[j])@,
            ) by {
                assert(keys@[j]@ == filtered[j]);
                assert(ns_matches(Some(prefix@), filtered[j]));
            }
        }
        let mut out: Vec<Fact> = Vec::new();
        let mut i: usize = 0;
        while i < keys.len()
            invariant
                i <= keys@.len(),
                filtered == keys_in_ns(store.key_seq(), Some(facts_prefix(self.ns()))),
                keys@.len() == filtered.len(),
                forall|j: int| 0 <= j < filtered.len() ==> (#[trigger] keys@[j])@ == filtered[j],
                forall|j: int|
                    0 <= j < keys@.len() ==> is_prefix_of(
                        facts_prefix(self.ns()),
                        (#[trigger] keys@[j])@,
                    ),
                fact_views(out@) == facts_under(store@, filtered.subrange(0, i as int)),
                forall|a: int|
                    0 <= a < out@.len() ==> exists|id: Seq<char>|
                        fact_slot(store@, self.ns(), id) == Some((#[trigger] out@[a])@),
            decreases keys@.len() - i,
        {
            let ghost pre = filtered.subrange(0, i as int);
            let ghost pre1 = filtered.subrange(0, i as int + 1);
            proof {
                assert(pre1.drop_last() =~= pre);
                assert(pre1.last() == filtered[i as int]);
            }
            match store.get(keys[i].as_str()) {
                Some(v) => {
                    match decode_fact_value(v) {
                        Some(f) => {
                            proof {
                                let k = keys@[i as int]@;
                                let id = k.subrange(
                                    facts_prefix(self.ns()).len() as int,
                                    k.len() as int,
                                );
                                assert(k =~= fact_key_spec(self.ns(), id));
                                assert(fact_slot(store@, self.ns(), id) == Some(f@));
                                let ghost before = out@;
                                assert(fact_views(before.push(f)) =~= fact_views(before).push(f@));
                            }
                            out.push(f);
                        },
                        None => {},
                    }
                },
                None => {},
            }
            i += 1;
        }
        proof {
            assert(filtered.subrange(0, filtered.len() as int) =~= filtered);
            assert forall|a: int| 0 <= a < out@.len() implies exists|id: Seq<char>|
                fact_slot(store@, self.ns(), id) == Some((#[trigger] out@[a])@) by {
                let id0 = choose|id: Seq<char>|
                    fact_slot(store@, self.ns(), id) == Some(out@[a]@);
                assert(fact_slot(store@, self.ns(), id0) == Some(out@[a]@));
            }
        }
        Ok(out)
    }

    /// The stored facts with the given subject: exactly those among the
    /// stored facts, in storage order.
    pub fn find_by_subject(&self, store: &MemoryStore, subject: &str) -> (r: Result<
        Vec<Fact>,
        MemoryError,
    >)
        ensures
            r matches Ok(v) && fact_views(v@) == stored_facts(
                store@,
                store.key_seq(),
                self.ns(),
            ).filter(subject_is(subject@)),
    {
        let all = self.get_all_facts(store)?;
        let ghost avs = fact_views(all@);
        let ghost pred = subject_is(subject@);
        let mut out: Vec<Fact> = Vec::new();
        let mut i: usize = 0;
        while i < all.len()
            invariant
                i <= all@.len(),
                avs == fact_views(all@),
                avs.len() == all@.len(),
                pred == subject_is(subject@),
                fact_views(out@) == avs.subrange(0, i as int).filter(pred),
            decreases all@.len() - i,
        {
            let ghost pre = avs.subrange(0, i as int);
            let ghost pre1 = avs.subrange(0, i as int + 1);
            proof {
                assert(pre1 =~= pre.push(avs[i as int]));
                crate::store::lemma_filter_push(pre, avs[i as int], pred);
            }
            if str_eq(all[i].subject.as_str(), subject) {
                let ghost before = out@;
                out.push(all[i].duplicate());
                proof {
                    assert(fact_views(out@) =~= fact_views(before).push(all@[i as int]@));
                }
            }
            i += 1;
        }
        proof {
            assert(avs.subrange(0, avs.len() as int) =~= avs);
        }
        Ok(out)
    }

    /// The stored facts with the given predicate: exactly those among the
    /// stored facts, in storage order.
    pub fn find_by_predicate(&self, store: &MemoryStore, predicate: &str) -> (r: Result<
        Vec<Fact>,
        MemoryError,
    >)
        ensures
            r matches Ok(v) && fact_views(v@) == stored_facts(
                store@,
                store.key_seq(),
                self.ns(),
            ).filter(predicate_is(predicate@)),
    {
        let all = self.get_all_facts(store)?;
        let ghost avs = fact_views(all@);
        let ghost pred = predicate_is(predicate@);
        let mut out: Vec<Fact> = Vec::new();
        let mut i: usize = 0;
        while i < all.len()
            invariant
                i <= all@.len(),
                avs == fact_views(all@),
                avs.len() == all@.len(),
                pred == predicate_is(predicate@),
                fact_views(out@) == avs.subrange(0, i as int).filter(pred),
            decreases all@.len() - i,
        {
            let ghost pre = avs.subrange(0, i as int);
            let ghost pre1 = avs.subrange(0, i as int + 1);
            proof {
                assert(pre1 =~= pre.push(avs[i as int]));
                crate::store::lemma_filter_push(pre, avs[i as int], pred);
            }
            if str_eq(all[i].predicate.as_str(), predicate) {
                let ghost before = out@;
                out.push(all[i].duplicate());
                proof {
                    assert(fact_views(out@) =~= fact_views(before).push(all@[i as int]@));
                }
            }
            i += 1;
        }
        proof {
            assert(avs.subrange(0, avs.len() as int) =~= avs);
        }
        Ok(out)
    }

    /// The stored facts with the given subject and predicate: exactly
    /// those among the stored facts, in storage order.
    pub fn find_by_subject_and_predicate(
        &self,
        store: &MemoryStore,
        subject: &str,
        predicate: &str,
    ) -> (r: Result<Vec<Fact>, MemoryError>)
        ensures
            r matches Ok(v) && fact_views(v@) == stored_facts(
                store@,
                store.key_seq(),
                self.ns(),
            ).filter(subject_predicate_is(subject@, predicate@)),
    {
        let all = self.get_all_facts(store)?;
        let ghost avs = fact_views(all@);
        let ghost pred = subject_predicate_is(subject@, predicate@);
        let mut out: Vec<Fact> = Vec::new();
        let mut i: usize = 0;
        while i < all.len()
            invariant
                i <= all@.len(),
                avs == fact_views(all@),
                avs.len() == all@.len(),
                pred == subject_predicate_is(subject@, predicate@),
                fact_views(out@) == avs.subrange(0, i as int).filter(pred),
            decreases all@.len() - i,
        {
            let ghost pre = avs.subrange(0, i as int);
            let ghost pre1 = avs.subrange(0, i as int + 1);
            proof {
                assert(pre1 =~= pre.push(avs[i as int]));
                crate::store::lemma_filter_push(pre, avs[i as int], pred);
            }
            if str_eq(all[i].subject.as_str(), subject) && str_eq(
                all[i].predicate.as_str(),
                predicate,
            ) {
                let ghost before = out@;
                out.push(all[i].duplicate());
                proof {
                    assert(fact_views(out@) =~= fact_views(before).push(all@[i as int]@));
                }
            }
            i += 1;
        }
        proof {
            assert(avs.subrange(0, avs.len() as int) =~= avs);
        }
        Ok(out)
    }

    /// Scans all facts for embeddings of the query's dimensionality,
    /// scores them by fixed-point cosine similarity, keeps those at least
    /// `min_similarity`, most similar first, at most `limit`; every
    /// qualifying stored fact is returned unless crowded out by `limit`
    /// facts scoring at least as high.
    #[verifier::rlimit(100)]
    #[verifier::spinoff_prover]
    pub fn vector_search(
        &self,
        store: &MemoryStore,
        query: &Embedding,
        limit: usize,
        min_similarity: i64,
    ) -> (r: Result<Vec<SearchResult<Fact>>, MemoryError>)
        ensures
            r matches Ok(v) && search_post(
                stored_facts(store@, store.key_seq(), self.ns()),
                query@,
                limit as int,
                min_similarity as int,
                v@,
            ),
    {
        let all = self.get_all_facts(store)?;
        let ghost avs = fact_views(all@);
        let ghost q = query@;
        let mut hits: Vec<Fact> = Vec::new();
        let mut items: Vec<Ranked> = Vec::new();
        let mut i: usize = 0;
        while i < all.len()
            invariant
                i <= all@.len(),
                avs == fact_views(all@),
                avs.len() == all@.len(),
                q == query@,
                hits@.len() == items@.len(),
                forall|a: int| 0 <= a < items@.len() ==> (#[trigger] items@[a]).0 == a as usize,
                forall|a: int|
                    0 <= a < hits@.len() ==> avs.contains((#[trigger] hits@[a])@) && qualifies(
                        q,
                        hits@[a]@,
                        min_similarity as int,
                    ) && items@[a].1 == match_score(q, hits@[a]@),
                forall|x: int|
                    0 <= x < i && qualifies(q, #[trigger] avs[x], min_similarity as int) ==> exists|
                        a: int,
                    | 0 <= a < hits@.len() && (#[trigger] hits@[a])@ == avs[x],
            decreases all@.len() - i,
        {
            let ghost tick = hits@.len();
            let ghost hits0 = hits@;
            match &all[i].embedding {
                Some(e) => {
                    proof {
                        crate::vector::lemma_embedding_view(*e);
                        crate::vector::lemma_embedding_view(*query);
                        assert(avs[i as int] == all@[i as int]@);
                        assert(avs[i as int].embedding == Some(e@));
                    }
                    if e.dimensions() == query.dimensions() {
                        match query.cosine_similarity(e) {
                            Ok(sim) => {
                                if sim >= min_similarity {
                                    let idx = hits.len();
                                    items.push((idx, sim, 0));
                                    hits.push(all[i].duplicate());
                                    proof {
                                        assert(avs.contains(avs[i as int]));
                                        assert(hits@[tick as int]@ == avs[i as int]);
                                        assert(items@[tick as int].1 == match_score(
                                            q,
                                            hits@[tick as int]@,
                                        ));
                                        assert forall|x: int|
                                            0 <= x < i + 1 && qualifies(
                                                q,
                                                #[trigger] avs[x],
                                                min_similarity as int,
                                            ) implies exists|a: int|
                                            0 <= a < hits@.len() && (#[trigger] hits@[a])@ == avs[
                                        x] by {
                                            if x == i as int {
                                                assert(hits@[tick as int]@ == avs[x]);
                                            } else {
                                                let a0 = choose|a0: int|
                                                    0 <= a0 < hits0.len() && (
                                                    #[trigger] hits0[a0])@ == avs[x];
                                                assert(hits@[a0] == hits0[a0]);
                                            }
                                        }
                                    }
                                } else {
                                    proof {
                                        assert(!qualifies(q, avs[i as int], min_similarity as int));
                                    }
                                }
                            },
                            Err(_) => {
                                proof {
                                    assert(false);
                                }
                            },
                        }
                    } else {
                        proof {
                            assert(e@.dimensions != q.dimensions);
                            assert(!qualifies(q, avs[i as int], min_similarity as int));
                        }
                    }
                },
                None => {
                    proof {
                        assert(avs[i as int] == all@[i as int]@);
                        assert(avs[i as int].embedding is None);
                        assert(!qualifies(q, avs[i as int], min_similarity as int));
                    }
                },
            }
            i += 1;
        }
        let ghost items_snap = items@;
        let sorted = sort_by_keys(items);
        let mut out: Vec<SearchResult<Fact>> = Vec::new();
        let mut j: usize = sorted.len();
        while j > 0 && out.len() < limit
            invariant
                j <= sorted@.len(),
                out@.len() <= limit,
                avs == fact_views(all@),
                avs.len() == all@.len(),
                q == query@,
                sorted@.to_multiset() == items_snap.to_multiset(),
                items_snap.len() == hits@.len(),
                items_snap.len() <= usize::MAX,
                sorted@.len() == items_snap.len(),
                sorted_by_keys(sorted@),
                forall|a: int|
                    0 <= a < items_snap.len() ==> (#[trigger] items_snap[a]).0 == a as usize,
                forall|a: int|
                    0 <= a < hits@.len() ==> avs.contains((#[trigger] hits@[a])@) && qualifies(
                        q,
                        hits@[a]@,
                        min_similarity as int,
                    ) && items_snap[a].1 == match_score(q, hits@[a]@),
                forall|x: int|
                    0 <= x < avs.len() && qualifies(q, #[trigger] avs[x], min_similarity as int)
                        ==> exists|a: int|
                        0 <= a < hits@.len() && (#[trigger] hits@[a])@ == avs[x],
                forall|a: int|
                    0 <= a < out@.len() ==> (#[trigger] out@[a]).score == sorted@[
                        sorted@.len() - 1 - a
                    ].1 && out@[a].item@ == hits@[sorted@[sorted@.len() - 1 - a].0 as int]@,
                forall|a: int, b: int|
                    0 <= a < b < out@.len() ==> (#[trigger] out@[a]).score >= (#[trigger] out@[
                        b
                    ]).score,
                out@.len() + j <= sorted@.len(),
                out@.len() + j >= sorted@.len() || out@.len() == limit,
                out@.len() == sorted@.len() - j || out@.len() == limit,
            decreases j,
        {
            proof {
                crate::ranking::lemma_tagged_entry(items_snap, sorted@, j as int - 1);
            }
            let tag = sorted[j - 1].0;
            let score = sorted[j - 1].1;
            if tag < hits.len() {
                out.push(SearchResult::new(hits[tag].duplicate(), score));
            } else {
                proof {
                    assert(false);
                }
            }
            j -= 1;
        }
        proof {
            let v = out@;
            let facts = avs;
            assert forall|a: int| 0 <= a < v.len() implies facts.contains((#[trigger] v[a]).item@)
                && qualifies(q, v[a].item@, min_similarity as int) && v[a].score == match_score(
                q,
                v[a].item@,
            ) by {
                let b = sorted@.len() - 1 - a;
                crate::ranking::lemma_tagged_entry(items_snap, sorted@, b);
                let t = sorted@[b].0 as int;
                assert(v[a].item@ == hits@[t]@);
                assert(items_snap[t].1 == match_score(q, hits@[t]@));
                assert(sorted@[b] == items_snap[t]);
            }
            assert forall|x: int|
                0 <= x < facts.len() && qualifies(q, #[trigger] facts[x], min_similarity as int)
                    implies ((exists|a: int|
                0 <= a < v.len() && (#[trigger] v[a]).item@ == facts[x]) || (v.len() == limit && (
                limit <= 0 || match_score(q, facts[x]) <= v[limit - 1].score))) by {
                assert(facts[x] == avs[x]);
                assert(exists|a: int| 0 <= a < hits@.len() && (#[trigger] hits@[a])@ == avs[x]);
                let a = choose|a: int| 0 <= a < hits@.len() && (#[trigger] hits@[a])@ == avs[x];
                crate::ranking::lemma_perm_contains(items_snap, sorted@, a);
                assert(sorted@.contains(items_snap[a]));
                let b = choose|b: int| 0 <= b < sorted@.len() && sorted@[b] == items_snap[a];
                let cut = sorted@.len() - v.len();
                if b >= cut {
                    let a2 = sorted@.len() - 1 - b;
                    assert(0 <= a2 < v.len());
                    assert(v[a2].item@ == hits@[sorted@[sorted@.len() - 1 - a2].0 as int]@);
                    assert(sorted@[sorted@.len() - 1 - a2] == sorted@[b]);
                    assert(sorted@[b].0 as int == a);
                    assert(v[a2].item@ == facts[x]);
                } else {
                    assert(v.len() < sorted@.len());
                    assert(v.len() == limit) by {
                        if v.len() != limit {
                            assert(v.len() == sorted@.len() - j);
                            assert(j == 0 || v.len() == limit);
                        }
                    }
                    if limit > 0 {
                        assert(v[limit - 1].score == sorted@[cut].1);
                        assert(crate::ranking::key_le(sorted@[b], sorted@[cut as int]));
                        assert(match_score(q, facts[x]) == items_snap[a].1);
                        assert(sorted@[b].1 == items_snap[a].1);
                    }
                }
            }
        }
        Ok(out)
    }

    /// Attaches an embedding generated from the fact's `subject predicate
    /// object` text and stores the fact under its identifier; a provider
    /// failure propagates and leaves the storage untouched.
    pub fn store_fact_with_embedding<P: EmbeddingProvider>(
        &self,
        store: &mut MemoryStore,
        fact: Fact,
        provider: &P,
    ) -> (r: Result<(), MemoryError>)
        ensures
            r is Ok ==> exists|em: EmbedModel|
                {
                    &&& #[trigger] provider.embeds(fact_embed_text(fact@), em)
                    &&& em.dimensions == provider.dims_spec()
                    &&& final(store)@ == old(store)@.insert(
                        fact_key_spec(self.ns(), fact@.id),
                        fact_doc(FactModel { embedding: Some(em), ..fact@ }),
                    )
                },
            r is Ok ==> final(store).coherent(),
            r is Err ==> final(store)@ == old(store)@,
    {
        let ghost fm = fact@;
        let mut text = str_join(fact.subject.as_str(), " ");
        text.append(fact.predicate.as_str());
        text.append(" ");
        match fact.object.as_str() {
            Some(s) => {
                let o = s.clone();
                text.append(o.as_str());
            },
            None => {},
        }
        proof {
            assert(text@ =~= fact_embed_text(fm));
        }
        match provider.embed(text.as_str()) {
            Ok(embedding) => {
                let ghost em = embedding@;
                proof {
                    crate::vector::lemma_embedding_view(embedding);
                    assert(em.dimensions == provider.dims_spec());
                }
                let fact = fact.with_embedding(embedding);
                let ghost f2 = fact@;
                self.store_fact(store, fact)?;
                proof {
                    assert(f2 == (FactModel { embedding: Some(em), ..fm }));
                    assert(store@ == old(store)@.insert(
                        fact_key_spec(self.ns(), fm.id),
                        fact_doc(FactModel { embedding: Some(em), ..fm }),
                    ));
                }
                Ok(())
            },
            Err(e) => Err(e),
        }
    }

    /// Embeds `query` through the provider and searches for similar facts:
    /// the search answers exactly for an embedding of the query text.
    pub fn find_similar<P: EmbeddingProvider>(
        &self,
        store: &MemoryStore,
        query: &str,
        provider: &P,
        limit: usize,
        min_similarity: i64,
    ) -> (r: Result<Vec<SearchResult<Fact>>, MemoryError>)
        ensures
            r matches Ok(v) ==> exists|qe: EmbedModel|
                {
                    &&& provider.embeds(query@, qe)
                    &&& qe.dimensions == provider.dims_spec()
                    &&& #[trigger] search_post(
                        stored_facts(store@, store.key_seq(), self.ns()),
                        qe,
                        limit as int,
                        min_similarity as int,
                        v@,
                    )
                },
    {
        let embedding = provider.embed(query)?;
        proof {
            crate::vector::lemma_embedding_view(embedding);
        }
        self.vector_search(store, &embedding, limit, min_similarity)
    }
}

} // verus!
