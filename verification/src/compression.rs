//! Memory compression: cross-cutting statistics and eviction policies over
//! an arbitrary namespace.
//!
//! The compressor reads structured documents and sniffs their `timestamp`
//! or `created_at` field (an RFC 3339 string) and their `importance` field
//! (an integer in thousandths). Byte sizes are a type-shaped heuristic, a
//! trigger signal rather than a serialized size.

use vstd::prelude::*;
use vstd::string::StringExecFns;

use crate::error::MemoryError;
use crate::outside::MAX_FORMAT_MILLIS;
use crate::outside::format_rfc3339;
use crate::outside::now_millis;
use crate::outside::parse_rfc3339_millis;
use crate::outside::rfc3339_of;
use crate::outside::rfc3339_parse;
use crate::ranking::Ranked;
use crate::ranking::sort_by_keys;
use crate::store::MemoryStore;
use crate::store::keys_in_ns;
use crate::store::ns_matches;
use crate::text::str_join;
use crate::value::MemoryValue;
use crate::value::ValueModel;
use crate::value::doc_get;
use crate::value::doc_lookup;
use crate::value::value_model;

verus! {

/// Configuration of the compression policies; ratios and thresholds are in
/// thousandths.
#[derive(Debug, Clone)]
pub struct CompressionConfig {
    /// Byte budget before compression is suggested.
    pub max_size_bytes: u64,
    /// Item budget before compression is suggested.
    pub max_items: usize,
    /// Target compression ratio, in thousandths.
    pub compression_ratio: u32,
    /// Whether summarization by a language model is wanted.
    pub use_llm_compression: bool,
    /// Minimum importance (in thousandths) kept uncompressed.
    pub min_importance_threshold: u32,
}

impl Default for CompressionConfig {
    /// Ten megabytes, ten thousand items, ratio one half, summarization on,
    /// importance threshold seven tenths.
    fn default() -> (r: CompressionConfig)
        ensures
            r.max_size_bytes == 10_000_000,
            r.max_items == 10_000,
            r.compression_ratio == 500,
            r.use_llm_compression,
            r.min_importance_threshold == 700,
    {
        CompressionConfig {
            max_size_bytes: 10_000_000,
            max_items: 10_000,
            compression_ratio: 500,
            use_llm_compression: true,
            min_importance_threshold: 700,
        }
    }
}

/// A strategy the compressor can apply.
#[derive(Debug, Clone, Copy, PartialEq, Eq, Structural)]
pub enum CompressionStrategy {
    /// Remove the oldest entries.
    RemoveOldest,
    /// Remove the least important entries.
    RemoveLeastImportant,
    /// Merge similar entries.
    MergeSimilar,
    /// Summarize and archive.
    SummarizeAndArchive,
    /// Binary compression of payloads.
    BinaryCompression,
}

/// A snapshot of a namespace, not persisted.
#[derive(Debug, Clone)]
pub struct MemoryStats {
    /// Approximate total bytes (heuristic).
    pub total_bytes: u64,
    /// Number of items.
    pub item_count: usize,
    /// Average item size (heuristic).
    pub avg_item_size: u64,
    /// Oldest discoverable timestamp.
    pub oldest_timestamp: Option<i64>,
    /// Newest discoverable timestamp.
    pub newest_timestamp: Option<i64>,
}

/// Saturating addition on the byte heuristic.
pub open spec fn sat_add(a: nat, b: nat) -> nat {
    if a + b > u64::MAX {
        u64::MAX as nat
    } else {
        a + b
    }
}

/// The byte-size heuristic of a value: text and blobs by length, scalars by
/// machine width, containers by a per-entry estimate, documents by the sum
/// of their field names and values.
pub open spec fn value_size(v: ValueModel) -> nat
    decreases v,
{
    match v {
        ValueModel::Str(s) => s.len(),
        ValueModel::Int(_) => 8,
        ValueModel::FloatBits(_) => 8,
        ValueModel::Bool(_) => 1,
        ValueModel::Json(fs) => fields_size(fs),
        ValueModel::Bytes(b) => b.len(),
        ValueModel::List(items) => sat_mul16(items.len()),
        ValueModel::Dict(fs) => sat_mul32(fs.len()),
    }
}

/// Sixteen bytes per list entry, saturating.
pub open spec fn sat_mul16(n: nat) -> nat {
    if n * 16 > u64::MAX {
        u64::MAX as nat
    } else {
        n * 16
    }
}

/// Thirty-two bytes per mapping entry, saturating.
pub open spec fn sat_mul32(n: nat) -> nat {
    if n * 32 > u64::MAX {
        u64::MAX as nat
    } else {
        n * 32
    }
}

/// The heuristic size of a document's fields.
pub open spec fn fields_size(fs: Seq<(Seq<char>, ValueModel)>) -> nat
    decreases fs,
{
    if fs.len() == 0 {
        0
    } else {
        sat_add(sat_add(fields_size(fs.drop_last()), fs.last().0.len()), value_size(fs.last().1))
    }
}

/// The timestamp a document discloses: its `timestamp` field when that is a
/// string (parsed or nothing), else its `created_at` field.
pub open spec fn ts_of_value(v: ValueModel) -> Option<i64> {
    match v {
        ValueModel::Json(fs) => match doc_lookup(fs, "timestamp"@) {
            Some(ValueModel::Str(s)) => rfc3339_parse(s),
            _ => match doc_lookup(fs, "created_at"@) {
                Some(ValueModel::Str(s)) => rfc3339_parse(s),
                _ => None,
            },
        },
        _ => None,
    }
}

/// Whether a stored value counts as older than `cutoff`.
pub open spec fn stale(v: ValueModel, cutoff: int) -> bool {
    match ts_of_value(v) {
        Some(t) => t < cutoff,
        None => false,
    }
}

/// The importance a document discloses: its integer `importance` field.
pub open spec fn imp_of(v: ValueModel) -> Option<int> {
    match v {
        ValueModel::Json(fs) => match doc_lookup(fs, "importance"@) {
            Some(ValueModel::Int(n)) => Some(n),
            _ => None,
        },
        _ => None,
    }
}

/// The transcript line a conversation document contributes: its `role`
/// and `content` fields, or nothing.
pub open spec fn line_of(v: ValueModel) -> Seq<char> {
    match v {
        ValueModel::Json(fs) => match (doc_lookup(fs, "role"@), doc_lookup(fs, "content"@)) {
            (Some(ValueModel::Str(role)), Some(ValueModel::Str(content))) => role + ": "@ + content
                + "\n"@,
            _ => Seq::empty(),
        },
        _ => Seq::empty(),
    }
}

/// The transcript of the stored documents at `keys`, in order.
pub open spec fn transcript_of(m: Map<Seq<char>, ValueModel>, keys: Seq<Seq<char>>) -> Seq<char>
    decreases keys.len(),
{
    if keys.len() == 0 {
        Seq::empty()
    } else {
        transcript_of(m, keys.drop_last()) + (if m.contains_key(keys.last()) {
            line_of(m[keys.last()])
        } else {
            Seq::empty()
        })
    }
}

/// The number of values among `keys` that disclose a timestamp.
pub open spec fn ts_count(m: Map<Seq<char>, ValueModel>, keys: Seq<Seq<char>>) -> int
    decreases keys.len(),
{
    if keys.len() == 0 {
        0
    } else {
        ts_count(m, keys.drop_last()) + (if m.contains_key(keys.last()) && ts_of_value(
            m[keys.last()],
        ) is Some {
            1int
        } else {
            0int
        })
    }
}

/// The key the compressed summary is stored under.
pub open spec fn summary_key_spec(ns: Seq<char>) -> Seq<char> {
    ns + "::summary::compressed"@
}

/// The summed byte heuristic of the stored values at `keys`, saturating;
/// a missing key contributes nothing.
pub open spec fn bytes_total(m: Map<Seq<char>, ValueModel>, keys: Seq<Seq<char>>) -> nat
    decreases keys.len(),
{
    if keys.len() == 0 {
        0
    } else {
        sat_add(
            bytes_total(m, keys.drop_last()),
            if m.contains_key(keys.last()) {
                value_size(m[keys.last()])
            } else {
                0
            },
        )
    }
}

/// The number of stale values among `keys` in `m`.
pub open spec fn stale_count(m: Map<Seq<char>, ValueModel>, keys: Seq<Seq<char>>, cutoff: int) -> int
    decreases keys.len(),
{
    if keys.len() == 0 {
        0
    } else {
        stale_count(m, keys.drop_last(), cutoff) + (if m.contains_key(keys.last()) && stale(
            m[keys.last()],
            cutoff,
        ) {
            1int
        } else {
            0int
        })
    }
}

fn sat_add_u64(a: u64, b: u64) -> (r: u64)
    ensures
        r as nat == sat_add(a as nat, b as nat),
{
    if a > u64::MAX - b {
        u64::MAX
    } else {
        a + b
    }
}

/// The heuristic size of a stored value.
pub fn value_size_exec(v: &MemoryValue) -> (r: u64)
    ensures
        r as nat == value_size(v@),
    decreases v,
{
    match v {
        MemoryValue::Str(s) => {
            let n = s.as_str().unicode_len();
            n as u64
        },
        MemoryValue::Int(_) => 8,
        MemoryValue::FloatBits(_) => 8,
        MemoryValue::Bool(_) => 1,
        MemoryValue::Json(fs) => fields_size_exec(fs),
        MemoryValue::Bytes(b) => b.len() as u64,
        MemoryValue::List(items) => {
            proof {
                crate::value::lemma_list_model(items@);
            }
            let n = items.len();
            if n as u64 > u64::MAX / 16 {
                proof {
                    assert((n as nat) * 16 > u64::MAX) by (nonlinear_arith)
                        requires
                            n as u64 > u64::MAX / 16,
                    ;
                }
                u64::MAX
            } else {
                proof {
                    assert((n as nat) * 16 <= u64::MAX) by (nonlinear_arith)
                        requires
                            n as u64 <= u64::MAX / 16,
                    ;
                }
                (n as u64) * 16
            }
        },
        MemoryValue::Dict(fs) => {
            proof {
                crate::value::lemma_fields_model(fs@);
            }
            let n = fs.len();
            if n as u64 > u64::MAX / 32 {
                proof {
                    assert((n as nat) * 32 > u64::MAX) by (nonlinear_arith)
                        requires
                            n as u64 > u64::MAX / 32,
                    ;
                }
                u64::MAX
            } else {
                proof {
                    assert((n as nat) * 32 <= u64::MAX) by (nonlinear_arith)
                        requires
                            n as u64 <= u64::MAX / 32,
                    ;
                }
                (n as u64) * 32
            }
        },
    }
}

fn fields_size_exec(fs: &Vec<(String, MemoryValue)>) -> (r: u64)
    ensures
        r as nat == fields_size(crate::value::fields_model(fs@)),
    decreases fs,
{
    proof {
        crate::value::lemma_fields_model(fs@);
    }
    let ghost fm = crate::value::fields_model(fs@);
    let mut total: u64 = 0;
    let mut i: usize = 0;
    while i < fs.len()
        invariant
            i <= fs@.len(),
            fm == crate::value::fields_model(fs@),
            fm.len() == fs@.len(),
            forall|j: int|
                0 <= j < fm.len() ==> fm[j] == (fs@[j].0@, crate::value::value_model(fs@[j].1)),
            total as nat == fields_size(fm.subrange(0, i as int)),
        decreases fs@.len() - i,
    {
        let ghost pre = fm.subrange(0, i as int);
        let ghost pre1 = fm.subrange(0, i as int + 1);
        proof {
            assert(pre1.drop_last() =~= pre);
            assert(pre1.last() == fm[i as int]);
        }
        let name_len = fs[i].0.as_str().unicode_len();
        let vsize = value_size_exec(&fs[i].1);
        total = sat_add_u64(sat_add_u64(total, name_len as u64), vsize);
        i += 1;
    }
    proof {
        assert(fm.subrange(0, fm.len() as int) =~= fm);
    }
    total
}

/// The timestamp a stored value discloses, if any.
pub fn ts_of_value_exec(v: &MemoryValue) -> (r: Option<i64>)
    ensures
        r == ts_of_value(v@),
{
    match v {
        MemoryValue::Json(fs) => {
            match doc_get(fs, "timestamp") {
                Some(MemoryValue::Str(s)) => parse_rfc3339_millis(s.as_str()),
                _ => {
                    match doc_get(fs, "created_at") {
                        Some(MemoryValue::Str(s)) => parse_rfc3339_millis(s.as_str()),
                        _ => None,
                    }
                },
            }
        },
        _ => None,
    }
}

/// The stateless compression policy object.
pub struct MemoryCompressor {
    /// The thresholds and toggles this compressor applies.
    pub config: CompressionConfig,
}

impl MemoryCompressor {
    /// A compressor with the given configuration.
    pub fn new(config: CompressionConfig) -> (r: MemoryCompressor)
        ensures
            r.config == config,
    {
        MemoryCompressor { config }
    }

    /// Whether the statistics call for compression: either budget exceeded.
    pub fn needs_compression(&self, stats: &MemoryStats) -> (r: bool)
        ensures
            r == (stats.total_bytes > self.config.max_size_bytes || stats.item_count
                > self.config.max_items),
    {
        stats.total_bytes > self.config.max_size_bytes || stats.item_count
            > self.config.max_items
    }

    /// Scans `namespace` and reports item count, heuristic byte total and
    /// average, and the extreme discoverable timestamps: the oldest and
    /// newest are the minimum and maximum over exactly the stored values
    /// that disclose a timestamp, absent when none does.
    #[verifier::rlimit(100)]
    #[verifier::spinoff_prover]
    pub fn calculate_stats(&self, store: &MemoryStore, namespace: &str) -> (r: Result<
        MemoryStats,
        MemoryError,
    >)
        ensures
            r matches Ok(stats) && {
                let ks = keys_in_ns(store.key_seq(), Some(namespace@));
                &&& stats.item_count == ks.len()
                &&& stats.total_bytes as nat == bytes_total(store@, ks)
                &&& stats.avg_item_size == if stats.item_count == 0 {
                    0u64
                } else {
                    stats.total_bytes / (stats.item_count as u64)
                }
                &&& (stats.oldest_timestamp is Some) == (stats.newest_timestamp is Some)
                &&& ((stats.oldest_timestamp is Some) <==> ts_count(store@, ks) > 0)
                &&& (stats.oldest_timestamp matches Some(o) ==> (stats.newest_timestamp
                    matches Some(nw) && o <= nw))
                &&& (forall|j: int|
                    0 <= j < ks.len() && store@.contains_key(#[trigger] ks[j]) && ts_of_value(
                        store@[ks[j]],
                    ) is Some ==> (stats.oldest_timestamp matches Some(o) && o <= ts_of_value(
                        store@[ks[j]],
                    )->Some_0) && (stats.newest_timestamp matches Some(nw) && nw >= ts_of_value(
                        store@[ks[j]],
                    )->Some_0))
                &&& (stats.oldest_timestamp matches Some(o) ==> exists|j: int|
                    0 <= j < ks.len() && store@.contains_key(#[trigger] ks[j]) && ts_of_value(
                        store@[ks[j]],
                    ) == Some(o))
                &&& (stats.newest_timestamp matches Some(nw) ==> exists|j: int|
                    0 <= j < ks.len() && store@.contains_key(#[trigger] ks[j]) && ts_of_value(
                        store@[ks[j]],
                    ) == Some(nw))
            },
    {
        let ghost m0 = store@;
        let ghost nsv = namespace@;
        let keys = store.keys(Some(namespace));
        let ghost filtered = keys_in_ns(store.key_seq(), Some(nsv));
        let mut total: u64 = 0;
        let mut oldest: Option<i64> = None;
        let mut newest: Option<i64> = None;
        let mut i: usize = 0;
        while i < keys.len()
            invariant
                i <= keys@.len(),
                store@ == m0,
                filtered == keys_in_ns(store.key_seq(), Some(nsv)),
                keys@.len() == filtered.len(),
                forall|j: int| 0 <= j < filtered.len() ==> (#[trigger] keys@[j])@ == filtered[j],
                total as nat == bytes_total(m0, filtered.subrange(0, i as int)),
                (oldest is Some) == (newest is Some),
                ts_count(m0, filtered.subrange(0, i as int)) >= 0,
                (oldest is Some) ==> ts_count(m0, filtered.subrange(0, i as int)) > 0,
                ts_count(m0, filtered.subrange(0, i as int)) > 0 ==> (oldest is Some),
                oldest matches Some(o) ==> (newest matches Some(nw) && o <= nw),
                forall|j: int|
                    0 <= j < i && m0.contains_key(#[trigger] filtered[j]) && ts_of_value(
                        m0[filtered[j]],
                    ) is Some ==> (oldest matches Some(o) && o <= ts_of_value(
                        m0[filtered[j]],
                    )->Some_0) && (newest matches Some(nw) && nw >= ts_of_value(
                        m0[filtered[j]],
                    )->Some_0),
                oldest matches Some(o) ==> exists|j: int|
                    0 <= j < i && m0.contains_key(#[trigger] filtered[j]) && ts_of_value(
                        m0[filtered[j]],
                    ) == Some(o),
                newest matches Some(nw) ==> exists|j: int|
                    0 <= j < i && m0.contains_key(#[trigger] filtered[j]) && ts_of_value(
                        m0[filtered[j]],
                    ) == Some(nw),
            decreases keys@.len() - i,
        {
            let ghost pre = filtered.subrange(0, i as int);
            let ghost pre1 = filtered.subrange(0, i as int + 1);
            let ghost oldest0 = oldest;
            let ghost newest0 = newest;
            proof {
                assert(pre1.drop_last() =~= pre);
                assert(pre1.last() == filtered[i as int]);
            }
            match store.get(keys[i].as_str()) {
                Some(v) => {
                    total = sat_add_u64(total, value_size_exec(v));
                    match ts_of_value_exec(v) {
                        Some(t) => {
                            oldest = match oldest {
                                Some(o) => if t < o {
                                    Some(t)
                                } else {
                                    Some(o)
                                },
                                None => Some(t),
                            };
                            newest = match newest {
                                Some(nw) => if t > nw {
                                    Some(t)
                                } else {
                                    Some(nw)
                                },
                                None => Some(t),
                            };
                            proof {
                                if oldest == oldest0 && oldest0 is Some {
                                    let o0 = oldest0->Some_0;
                                    let j0 = choose|j: int|
                                        0 <= j < i && m0.contains_key(#[trigger] filtered[j])
                                            && ts_of_value(m0[filtered[j]]) == Some(o0);
                                    assert(0 <= j0 < i + 1 && m0.contains_key(filtered[j0])
                                        && ts_of_value(m0[filtered[j0]]) == Some(o0));
                                }
                                if newest == newest0 && newest0 is Some {
                                    let n0 = newest0->Some_0;
                                    let j0 = choose|j: int|
                                        0 <= j < i && m0.contains_key(#[trigger] filtered[j])
                                            && ts_of_value(m0[filtered[j]]) == Some(n0);
                                    assert(0 <= j0 < i + 1 && m0.contains_key(filtered[j0])
                                        && ts_of_value(m0[filtered[j0]]) == Some(n0));
                                }
                                if oldest != oldest0 {
                                    assert(m0.contains_key(filtered[i as int]) && ts_of_value(
                                        m0[filtered[i as int]],
                                    ) == Some(t));
                                }
                                assert(ts_count(m0, pre1) == ts_count(m0, pre) + 1);
                                assert(oldest is Some);
                                assert(ts_count(m0, pre1) > 0);
                            }
                        },
                        None => {
                            proof {
                                assert(ts_count(m0, pre1) == ts_count(m0, pre));
                                assert((oldest is Some) ==> ts_count(m0, pre1) > 0);
                            }
                        },
                    }
                },
                None => {
                    proof {
                        assert(!m0.contains_key(filtered[i as int]));
                        assert(ts_count(m0, pre1) == ts_count(m0, pre));
                        assert(bytes_total(m0, pre1) == bytes_total(m0, pre));
                        assert((oldest is Some) ==> ts_count(m0, pre1) > 0);
                    }
                },
            }
            proof {
                assert(filtered.subrange(0, i as int + 1) == pre1);
                assert((oldest is Some) ==> ts_count(m0, pre1) > 0);
            }
            i += 1;
        }
        proof {
            assert(filtered.subrange(0, filtered.len() as int) =~= filtered);
        }
        let item_count = keys.len();
        let avg = if item_count == 0 {
            0
        } else {
            total / (item_count as u64)
        };
        Ok(
            MemoryStats {
                total_bytes: total,
                item_count,
                avg_item_size: avg,
                oldest_timestamp: oldest,
                newest_timestamp: newest,
            },
        )
    }

    /// Deletes exactly the entries of `namespace` whose disclosed timestamp
    /// is strictly earlier than `older_than`; entries without a parseable
    /// timestamp are never removed. Returns how many were deleted.
    pub fn remove_old_items(&self, store: &mut MemoryStore, namespace: &str, older_than: i64) -> (r:
        Result<usize, MemoryError>)
        ensures
            forall|k: Seq<char>|
                #[trigger] final(store)@.contains_key(k) == (old(store)@.contains_key(k) && !(
                ns_matches(Some(namespace@), k) && stale(old(store)@[k], older_than as int))),
            forall|k: Seq<char>|
                #[trigger] final(store)@.contains_key(k) ==> final(store)@[k] == old(store)@[k],
            r matches Ok(n) && n == stale_count(
                old(store)@,
                keys_in_ns(old(store).key_seq(), Some(namespace@)),
                older_than as int,
            ),
            final(store).coherent(),
    {
        let ghost m0 = store@;
        let ghost ks0 = store.key_seq();
        let ghost nsv = namespace@;
        let keys = store.keys(Some(namespace));
        let ghost filtered = keys_in_ns(ks0, Some(nsv));
        proof {
            crate::store::lemma_keys_in_ns_elements(ks0, Some(nsv));
            crate::store::lemma_keys_in_ns_no_dup(ks0, Some(nsv));
        }

        // first pass: find the doomed keys
        let mut doomed: Vec<String> = Vec::new();
        let mut i: usize = 0;
        while i < keys.len()
            invariant
                i <= keys@.len(),
                store@ == m0,
                store.key_seq() == ks0,
                store.coherent(),
                filtered == keys_in_ns(ks0, Some(nsv)),
                filtered.no_duplicates(),
                keys@.len() == filtered.len(),
                forall|j: int| 0 <= j < filtered.len() ==> keys@[j]@ == filtered[j],
                forall|j: int|
                    0 <= j < filtered.len() ==> ks0.contains(#[trigger] filtered[j]) && ns_matches(
                        Some(nsv),
                        filtered[j],
                    ),
                doomed@.len() == stale_count(m0, filtered.subrange(0, i as int), older_than as int),
                forall|a: int|
                    0 <= a < doomed@.len() ==> ns_matches(Some(nsv), (#[trigger] doomed@[a])@)
                        && m0.contains_key(doomed@[a]@) && stale(m0[doomed@[a]@], older_than as int),
                forall|a: int|
                    0 <= a < doomed@.len() ==> exists|j: int|
                        0 <= j < i && filtered[j] == (#[trigger] doomed@[a])@,
                forall|a: int, b: int| 0 <= a < b < doomed@.len() ==> doomed@[a]@ != doomed@[b]@,
                forall|j: int|
                    0 <= j < filtered.len() && m0.contains_key(#[trigger] filtered[j]) && stale(
                        m0[filtered[j]],
                        older_than as int,
                    ) && j < i ==> exists|a: int|
                        0 <= a < doomed@.len() && (#[trigger] doomed@[a])@ == filtered[j],
            decreases keys@.len() - i,
        {
            let ghost pre = filtered.subrange(0, i as int);
            let ghost pre1 = filtered.subrange(0, i as int + 1);
            proof {
                assert(pre1.drop_last() =~= pre);
                assert(pre1.last() == filtered[i as int]);
            }
            match store.get(keys[i].as_str()) {
                Some(v) => {
                    let is_stale = match ts_of_value_exec(v) {
                        Some(t) => t < older_than,
                        None => false,
                    };
                    if is_stale {
                        let ghost before = doomed@;
                        doomed.push(keys[i].clone());
                        proof {
                            assert forall|a: int|
                                0 <= a < doomed@.len() implies exists|j: int|
                                    0 <= j < i + 1 && filtered[j] == (#[trigger] doomed@[a])@ by {
                                if a < doomed@.len() - 1 {
                                    let j = choose|j: int|
                                        0 <= j < i && filtered[j] == (#[trigger] before[a])@;
                                    assert(0 <= j < i + 1 && filtered[j] == doomed@[a]@);
                                } else {
                                    assert(filtered[i as int] == doomed@[a]@);
                                }
                            }
                            assert forall|a: int, b: int|
                                0 <= a < b < doomed@.len() implies doomed@[a]@ != doomed@[b]@ by {
                                if b == doomed@.len() - 1 {
                                    assert(doomed@[b]@ == filtered[i as int]);
                                    assert(doomed@[a] == before[a]);
                                    let j = choose|j: int|
                                        0 <= j < i && filtered[j] == (#[trigger] before[a])@;
                                    assert(filtered[j] != filtered[i as int]);
                                }
                            }
                            assert forall|j: int|
                                0 <= j < filtered.len() && m0.contains_key(
                                    #[trigger] filtered[j],
                                ) && stale(m0[filtered[j]], older_than as int) && j < i + 1 implies
                                exists|a: int|
                                    0 <= a < doomed@.len() && (#[trigger] doomed@[a])@ == filtered[
                                j] by {
                                if j < i as int {
                                    let a = choose|a: int|
                                        0 <= a < before.len() && (#[trigger] before[a])@
                                            == filtered[j];
                                    assert((doomed@[a])@ == filtered[j]);
                                } else {
                                    assert((doomed@[doomed@.len() - 1])@ == filtered[i as int]);
                                }
                            }
                        }
                    }
                },
                None => {},
            }
            i += 1;
        }
        proof {
            assert(filtered.subrange(0, filtered.len() as int) =~= filtered);
        }

        // second pass: delete them
        let ghost doomed_views = Seq::new(doomed@.len(), |a: int| doomed@[a]@);
        let mut d: usize = 0;
        let mut removed: usize = 0;
        while d < doomed.len()
            invariant
                d <= doomed@.len(),
                removed == d,
                doomed_views == Seq::new(doomed@.len(), |a: int| doomed@[a]@),
                doomed_views.len() == doomed@.len(),
                forall|a: int| 0 <= a < doomed@.len() ==> (#[trigger] doomed@[a])@ == doomed_views[a],
                forall|a: int|
                    0 <= a < doomed_views.len() ==> ns_matches(
                        Some(nsv),
                        #[trigger] doomed_views[a],
                    ) && m0.contains_key(doomed_views[a]) && stale(
                        m0[doomed_views[a]],
                        older_than as int,
                    ),
                forall|a: int, b: int|
                    0 <= a < b < doomed_views.len() ==> doomed_views[a] != doomed_views[b],
                store.coherent(),
                forall|k: Seq<char>|
                    #[trigger] store@.contains_key(k) == (m0.contains_key(k) && !(exists|a: int|
                        0 <= a < d && doomed_views[a] == k)),
                forall|k: Seq<char>| #[trigger] store@.contains_key(k) ==> store@[k] == m0[k],
            decreases doomed@.len() - d,
        {
            proof {
                assert(m0.contains_key(doomed_views[d as int]));
                assert(store@.contains_key(doomed_views[d as int])) by {
                    if exists|a: int| 0 <= a < d && doomed_views[a] == doomed_views[d as int] {
                        let a = choose|a: int|
                            0 <= a < d && doomed_views[a] == doomed_views[d as int];
                    }
                }
            }
            store.delete(doomed[d].as_str());
            proof {
                assert forall|k: Seq<char>|
                    #[trigger] store@.contains_key(k) == (m0.contains_key(k) && !(exists|a: int|
                        0 <= a < d + 1 && doomed_views[a] == k)) by {
                    if k != doomed_views[d as int] {
                        if exists|a: int| 0 <= a < d + 1 && doomed_views[a] == k {
                            let a = choose|a: int| 0 <= a < d + 1 && doomed_views[a] == k;
                            assert(0 <= a < d && doomed_views[a] == k);
                        }
                    } else {
                        assert(doomed_views[d as int] == k);
                    }
                }
            }
            d += 1;
            removed += 1;
        }

        proof {
            assert forall|k: Seq<char>|
                #[trigger] store@.contains_key(k) == (m0.contains_key(k) && !(ns_matches(
                    Some(nsv),
                    k,
                ) && stale(m0[k], older_than as int))) by {
                if m0.contains_key(k) && ns_matches(Some(nsv), k) && stale(
                    m0[k],
                    older_than as int,
                ) {
                    // k is one of the namespace keys, hence listed, hence doomed
                    assert(ks0.contains(k)) by {
                        assert(store.coherent() || true);
                        crate::store::lemma_keys_in_ns_elements(ks0, Some(nsv));
                        if !ks0.contains(k) {
                            assert(!m0.contains_key(k));
                        }
                    }
                    crate::store::lemma_keys_in_ns_complete(ks0, Some(nsv), k);
                    let j = choose|j: int| 0 <= j < filtered.len() && filtered[j] == k;
                    assert(exists|a: int|
                        0 <= a < doomed@.len() && (#[trigger] doomed@[a])@ == filtered[j]);
                    let a = choose|a: int|
                        0 <= a < doomed@.len() && (#[trigger] doomed@[a])@ == filtered[j];
                    assert(doomed_views[a] == k);
                    assert(!store@.contains_key(k));
                }
                if store@.contains_key(k) {
                    assert(m0.contains_key(k));
                }
            }
            assert(doomed_views.no_duplicates()) by {
                assert forall|a: int, b: int|
                    0 <= a < b < doomed_views.len() implies doomed_views[a] != doomed_views[b] by {
                    assert(doomed@[a]@ != doomed@[b]@);
                }
            }
            assert forall|a: int| 0 <= a < doomed_views.len() implies filtered.contains(
                #[trigger] doomed_views[a],
            ) && m0.contains_key(doomed_views[a]) && stale(m0[doomed_views[a]], older_than as int)
             by {
                assert(doomed_views[a] == doomed@[a]@);
                assert(m0.contains_key(doomed@[a]@));
                assert(ks0.contains(doomed@[a]@)) by {
                    if !ks0.contains(doomed@[a]@) {
                        assert(!m0.contains_key(doomed@[a]@));
                    }
                }
                crate::store::lemma_keys_in_ns_complete(ks0, Some(nsv), doomed@[a]@);
            }
            assert forall|j: int|
                0 <= j < filtered.len() && m0.contains_key(#[trigger] filtered[j]) && stale(
                    m0[filtered[j]],
                    older_than as int,
                ) implies doomed_views.contains(filtered[j]) by {
                let a = choose|a: int|
                    0 <= a < doomed@.len() && (#[trigger] doomed@[a])@ == filtered[j];
                assert(doomed_views[a] == filtered[j]);
            }
            lemma_stale_count_matches(m0, filtered, older_than as int, doomed_views);
            assert(removed == doomed_views.len());
        }
        Ok(removed)
    }

    /// Deletes up to `max_to_remove` entries of `namespace` whose integer
    /// `importance` field is strictly below `min_importance`, lowest ranked
    /// first; only the `max_to_remove` lowest-ranked entries are inspected,
    /// so fewer may go when the threshold spares some of them.
    #[verifier::rlimit(100)]
    #[verifier::spinoff_prover]
    pub fn remove_least_important(
        &self,
        store: &mut MemoryStore,
        namespace: &str,
        min_importance: u32,
        max_to_remove: usize,
    ) -> (r: Result<usize, MemoryError>)
        ensures
            r matches Ok(n) && n <= max_to_remove,
            r matches Ok(n) && n < max_to_remove ==> (forall|k: Seq<char>|
                (#[trigger] final(store)@.contains_key(k) && ns_matches(Some(namespace@), k))
                    ==> (imp_of(final(store)@[k]) matches Some(im2) ==> im2 >= min_importance)),
            exists|doomed: Seq<Seq<char>>|
                {
                    &&& #[trigger] doomed.no_duplicates()
                    &&& (forall|a: int|
                        0 <= a < doomed.len() ==> ns_matches(Some(namespace@), #[trigger] doomed[a])
                            && old(store)@.contains_key(doomed[a]) && (imp_of(
                            old(store)@[doomed[a]],
                        ) matches Some(im) && im < min_importance))
                    &&& (forall|k: Seq<char>|
                        #[trigger] final(store)@.contains_key(k) == (old(store)@.contains_key(k)
                            && !doomed.contains(k)))
                    &&& (forall|k: Seq<char>|
                        #[trigger] final(store)@.contains_key(k) ==> final(store)@[k] == old(
                            store,
                        )@[k])
                    &&& (forall|a: int, k: Seq<char>|
                        0 <= a < doomed.len() && #[trigger] final(store)@.contains_key(k)
                            && ns_matches(Some(namespace@), k) && imp_of(final(store)@[k]) is Some
                            ==> imp_of(old(store)@[#[trigger] doomed[a]])->Some_0 <= imp_of(
                            final(store)@[k],
                        )->Some_0)
                    &&& (r matches Ok(n) && n == doomed.len())
                },
            final(store).coherent(),
    {
        let ghost m0 = store@;
        let ghost ks0 = store.key_seq();
        let ghost nsv = namespace@;
        let keys = store.keys(Some(namespace));
        let ghost filtered = keys_in_ns(ks0, Some(nsv));
        proof {
            crate::store::lemma_keys_in_ns_elements(ks0, Some(nsv));
            crate::store::lemma_keys_in_ns_no_dup(ks0, Some(nsv));
        }

        // rank every entry that discloses an importance
        let mut items: Vec<Ranked> = Vec::new();
        let mut tags: Vec<usize> = Vec::new();
        let mut i: usize = 0;
        while i < keys.len()
            invariant
                i <= keys@.len(),
                store@ == m0,
                store.key_seq() == ks0,
                store.coherent(),
                filtered == keys_in_ns(ks0, Some(nsv)),
                filtered.no_duplicates(),
                keys@.len() == filtered.len(),
                forall|j: int| 0 <= j < filtered.len() ==> keys@[j]@ == filtered[j],
                forall|j: int|
                    0 <= j < filtered.len() ==> ks0.contains(#[trigger] filtered[j]) && ns_matches(
                        Some(nsv),
                        filtered[j],
                    ),
                items@.len() == tags@.len(),
                items@.len() <= i,
                forall|a: int|
                    0 <= a < items@.len() ==> (#[trigger] items@[a]).0 == a as usize,
                forall|a: int|
                    0 <= a < tags@.len() ==> (#[trigger] tags@[a]) < i && m0.contains_key(
                        filtered[tags@[a] as int],
                    ) && (imp_of(m0[filtered[tags@[a] as int]]) matches Some(im) && im == items@[
                        a
                    ].1),
                forall|a: int, b: int| 0 <= a < b < tags@.len() ==> tags@[a] != tags@[b],
                forall|j: int|
                    0 <= j < i && m0.contains_key(#[trigger] filtered[j]) && imp_of(
                        m0[filtered[j]],
                    ) is Some ==> exists|a: int| 0 <= a < tags@.len() && tags@[a] == j,
            decreases keys@.len() - i,
        {
            let ghost tags0 = tags@;
            match store.get(keys[i].as_str()) {
                Some(v) => {
                    let imp = match v {
                        MemoryValue::Json(fields) => match doc_get(fields, "importance") {
                            Some(MemoryValue::Int(n)) => Some(*n),
                            _ => None,
                        },
                        _ => None,
                    };
                    match imp {
                        Some(im) => {
                            let idx = items.len();
                            items.push((idx, im, 0));
                            tags.push(i);
                            proof {
                                assert forall|j: int|
                                    0 <= j < i + 1 && m0.contains_key(#[trigger] filtered[j])
                                        && imp_of(m0[filtered[j]]) is Some implies exists|a: int|
                                    0 <= a < tags@.len() && tags@[a] == j by {
                                    if j < i as int {
                                        let a = choose|a: int|
                                            0 <= a < tags0.len() && tags0[a] == j;
                                        assert(tags@[a] == j);
                                    } else {
                                        assert(tags@[tags@.len() - 1] == i);
                                    }
                                }
                            }
                        },
                        None => {
                            proof {
                                assert(imp_of(m0[filtered[i as int]]) is None);
                            }
                        },
                    }
                },
                None => {
                    proof {
                        assert(keys@[i as int]@ == filtered[i as int]);
                        assert(!m0.contains_key(filtered[i as int]));
                    }
                },
            }
            i += 1;
        }

        let sorted = sort_by_keys(items);
        proof {
            assert(items@.no_duplicates()) by {
                assert forall|a: int, b: int|
                    0 <= a < b < items@.len() implies items@[a] != items@[b] by {
                    assert(items@[a].0 == a as usize);
                    assert(items@[b].0 == b as usize);
                }
            }
            items@.lemma_multiset_has_no_duplicates();
            sorted@.lemma_multiset_has_no_duplicates_conv();
        }

        // inspect only the lowest-ranked `max_to_remove` entries
        let mut j: usize = 0;
        let mut removed: usize = 0;
        let ghost mut doomed: Seq<Seq<char>> = Seq::empty();
        while j < max_to_remove && j < sorted.len()
            invariant
                j <= max_to_remove,
                j <= sorted@.len(),
                removed <= j,
                store.coherent(),
                items@.len() == tags@.len(),
                sorted@.len() == items@.len(),
                sorted@.no_duplicates(),
                sorted@.to_multiset() == items@.to_multiset(),
                items@.len() <= filtered.len(),
                filtered == keys_in_ns(ks0, Some(nsv)),
                filtered.no_duplicates(),
                keys@.len() == filtered.len(),
                forall|j2: int| 0 <= j2 < filtered.len() ==> keys@[j2]@ == filtered[j2],
                forall|j2: int|
                    0 <= j2 < filtered.len() ==> ns_matches(Some(nsv), #[trigger] filtered[j2]),
                forall|a: int|
                    0 <= a < items@.len() ==> (#[trigger] items@[a]).0 == a as usize,
                forall|a: int|
                    0 <= a < tags@.len() ==> (#[trigger] tags@[a]) < keys@.len()
                        && m0.contains_key(filtered[tags@[a] as int]) && (imp_of(
                        m0[filtered[tags@[a] as int]],
                    ) matches Some(im) && im == items@[a].1),
                forall|a: int, b: int| 0 <= a < b < tags@.len() ==> tags@[a] != tags@[b],
                doomed.no_duplicates(),
                removed == doomed.len(),
                forall|a: int|
                    0 <= a < doomed.len() ==> ns_matches(Some(nsv), #[trigger] doomed[a])
                        && m0.contains_key(doomed[a]) && (imp_of(m0[doomed[a]]) matches Some(im)
                        && im < min_importance),
                forall|k: Seq<char>|
                    #[trigger] store@.contains_key(k) == (m0.contains_key(k) && !doomed.contains(
                        k,
                    )),
                forall|k: Seq<char>| #[trigger] store@.contains_key(k) ==> store@[k] == m0[k],
                forall|a: int|
                    0 <= a < doomed.len() ==> exists|b: int|
                        0 <= b < j && #[trigger] doomed[a] == filtered[tags@[(
                        sorted@[b]).0 as int] as int],
                forall|b: int|
                    0 <= b < j && (#[trigger] sorted@[b]).1 < min_importance ==> doomed.contains(
                        filtered[tags@[(sorted@[b]).0 as int] as int],
                    ),
                (exists|b: int| 0 <= b < j && (#[trigger] sorted@[b]).1 >= min_importance)
                    || removed == j,
                forall|j2: int|
                    0 <= j2 < filtered.len() && m0.contains_key(#[trigger] filtered[j2]) && imp_of(
                        m0[filtered[j2]],
                    ) is Some ==> exists|a: int| 0 <= a < tags@.len() && tags@[a] == j2,
            decreases max_to_remove - j,
        {
            proof {
                crate::ranking::lemma_tagged_entry(items@, sorted@, j as int);
            }
            let slot = sorted[j].0;
            if slot < tags.len() {
                let t = tags[slot];
                if t < keys.len() {
                    let imp_val = sorted[j].1;
                    if imp_val < min_importance as i64 {
                        let ghost kview = filtered[t as int];
                        proof {
                            assert(sorted@[j as int] == items@[slot as int]);
                            assert(imp_of(m0[kview]) matches Some(im) && im == sorted@[
                                j as int
                            ].1);
                            assert(!doomed.contains(kview)) by {
                                if doomed.contains(kview) {
                                    let a = choose|a: int|
                                        0 <= a < doomed.len() && doomed[a] == kview;
                                    let b = choose|b: int|
                                        0 <= b < j && #[trigger] doomed[a] == filtered[tags@[(
                                        sorted@[b]).0 as int] as int];
                                    crate::ranking::lemma_tagged_entry(items@, sorted@, b);
                                    let slot_b = (sorted@[b]).0 as int;
                                    assert(tags@[slot_b] != tags@[slot as int] || slot_b == slot as int);
                                    if slot_b == slot as int {
                                        assert(sorted@[b] == items@[slot as int]);
                                        assert(sorted@[b] == sorted@[j as int]);
                                    } else {
                                        assert(filtered[tags@[slot_b] as int] != filtered[
                                            tags@[slot as int] as int
                                        ]);
                                    }
                                }
                            }
                            assert(store@.contains_key(kview));
                        }
                        let ghost before_m = store@;
                        store.delete(keys[t].as_str());
                        removed += 1;
                        proof {
                            assert(keys@[t as int]@ == kview);
                            assert(store@ == before_m.remove(kview));
                            let ghost old_doomed = doomed;
                            doomed = doomed.push(kview);
                            assert(doomed.drop_last() =~= old_doomed);
                            assert forall|k: Seq<char>|
                                #[trigger] store@.contains_key(k) == (m0.contains_key(k)
                                    && !doomed.contains(k)) by {
                                assert(before_m.contains_key(k) == (m0.contains_key(k)
                                    && !old_doomed.contains(k)));
                                if doomed.contains(k) {
                                    let a = choose|a: int|
                                        0 <= a < doomed.len() && doomed[a] == k;
                                    if a < doomed.len() - 1 {
                                        assert(old_doomed[a] == k);
                                        assert(old_doomed.contains(k));
                                    } else {
                                        assert(k == kview);
                                    }
                                }
                                if old_doomed.contains(k) {
                                    let a = choose|a: int|
                                        0 <= a < old_doomed.len() && old_doomed[a] == k;
                                    assert(doomed[a] == k);
                                    assert(doomed.contains(k));
                                }
                                if k == kview {
                                    assert(doomed[doomed.len() - 1] == k);
                                    assert(doomed.contains(k));
                                }
                            }
                            assert forall|a: int|
                                0 <= a < doomed.len() implies exists|b: int|
                                    0 <= b < j + 1 && #[trigger] doomed[a] == filtered[tags@[(
                                    sorted@[b]).0 as int] as int] by {
                                if a < doomed.len() - 1 {
                                    let b = choose|b: int|
                                        0 <= b < j && #[trigger] old_doomed[a] == filtered[tags@[(
                                        sorted@[b]).0 as int] as int];
                                    assert(doomed[a] == old_doomed[a]);
                                } else {
                                    assert(doomed[a] == filtered[tags@[(
                                    sorted@[j as int]).0 as int] as int]);
                                }
                            }
                            assert forall|b: int|
                                0 <= b < j + 1 && (#[trigger] sorted@[b]).1 < min_importance
                                implies doomed.contains(
                                filtered[tags@[(sorted@[b]).0 as int] as int],
                            ) by {
                                if b < j {
                                    let x = filtered[tags@[(sorted@[b]).0 as int] as int];
                                    assert(old_doomed.contains(x));
                                    let a = choose|a: int|
                                        0 <= a < old_doomed.len() && old_doomed[a] == x;
                                    assert(doomed[a] == x);
                                } else {
                                    assert(doomed[doomed.len() - 1] == kview);
                                }
                            }
                        }
                    }
                } else {
                    proof {
                        assert(false);
                    }
                }
            } else {
                proof {
                    assert(false);
                }
            }
            j += 1;
        }
        proof {
            assert(removed <= max_to_remove);
            assert forall|a: int, k: Seq<char>|
                0 <= a < doomed.len() && #[trigger] store@.contains_key(k) && ns_matches(
                    Some(nsv),
                    k,
                ) && imp_of(store@[k]) is Some implies imp_of(m0[#[trigger] doomed[a]])->Some_0
                <= imp_of(store@[k])->Some_0 by {
                let b = choose|b: int|
                    0 <= b < j && #[trigger] doomed[a] == filtered[tags@[(
                    sorted@[b]).0 as int] as int];
                crate::ranking::lemma_tagged_entry(items@, sorted@, b);
                let slot_b = (sorted@[b]).0 as int;
                assert(m0.contains_key(filtered[tags@[slot_b] as int]));
                assert(sorted@[b] == items@[slot_b]);
                assert(imp_of(m0[doomed[a]])->Some_0 == (sorted@[b]).1);
                assert(m0.contains_key(k) && store@[k] == m0[k]);
                assert(ks0.contains(k)) by {
                    if !ks0.contains(k) {
                        assert(!m0.contains_key(k));
                    }
                }
                crate::store::lemma_keys_in_ns_complete(ks0, Some(nsv), k);
                let j2 = choose|j2: int| 0 <= j2 < filtered.len() && filtered[j2] == k;
                assert(imp_of(m0[filtered[j2]]) is Some);
                let a2 = choose|a2: int| 0 <= a2 < tags@.len() && tags@[a2] == j2;
                crate::ranking::lemma_perm_contains(items@, sorted@, a2);
                let b2 = choose|b2: int| 0 <= b2 < sorted@.len() && sorted@[b2] == items@[a2];
                assert((sorted@[b2]).0 as int == a2);
                assert(imp_of(store@[k])->Some_0 == items@[a2].1);
                if b2 < j {
                    if (sorted@[b2]).1 < min_importance {
                        assert(doomed.contains(filtered[tags@[(sorted@[b2]).0 as int] as int]));
                        assert(!store@.contains_key(k));
                    }
                    assert((sorted@[b]).1 < min_importance);
                } else {
                    assert(crate::ranking::key_le(sorted@[b], sorted@[b2]));
                }
            }
            if removed < max_to_remove {
                assert forall|k: Seq<char>|
                    (#[trigger] store@.contains_key(k) && ns_matches(Some(nsv), k)) implies (
                imp_of(store@[k]) matches Some(im2) ==> im2 >= min_importance) by {
                    let iv = imp_of(store@[k]);
                    if iv is Some && iv->Some_0 < min_importance {
                        let im2 = iv->Some_0;
                        assert(m0.contains_key(k) && store@[k] == m0[k]);
                        assert(ks0.contains(k)) by {
                            if !ks0.contains(k) {
                                assert(!m0.contains_key(k));
                            }
                        }
                        crate::store::lemma_keys_in_ns_complete(ks0, Some(nsv), k);
                        let j2 = choose|j2: int|
                            0 <= j2 < filtered.len() && filtered[j2] == k;
                        assert(imp_of(m0[filtered[j2]]) is Some);
                        let a = choose|a: int| 0 <= a < tags@.len() && tags@[a] == j2;
                        assert(items@[a].1 == im2);
                        crate::ranking::lemma_perm_contains(items@, sorted@, a);
                        let b = choose|b: int|
                            0 <= b < sorted@.len() && sorted@[b] == items@[a];
                        assert((sorted@[b]).0 as int == a);
                        if b < j {
                            assert((sorted@[b]).1 < min_importance);
                            assert(doomed.contains(filtered[tags@[(sorted@[b]).0 as int] as int]));
                            assert(!store@.contains_key(k));
                        } else {
                            assert(j == max_to_remove) by {
                                if j != max_to_remove {
                                    assert(j == sorted@.len());
                                }
                            }
                            if exists|b0: int|
                                0 <= b0 < j && (#[trigger] sorted@[b0]).1 >= min_importance {
                                let b0 = choose|b0: int|
                                    0 <= b0 < j && (#[trigger] sorted@[b0]).1 >= min_importance;
                                assert(crate::ranking::key_le(sorted@[b0], sorted@[b]));
                            } else {
                                assert(removed == j);
                            }
                        }
                    }
                }
            }
        }
        Ok(removed)
    }

    /// Plans a conversation compression pass: picks every timestamped
    /// document of `namespace` except the newest `keep_recent_count`,
    /// oldest first, and renders their transcript for a summarizer. The
    /// caller obtains the summary and hands it to
    /// [`MemoryCompressor::apply_conversation_compression`].
    #[verifier::rlimit(100)]
    #[verifier::spinoff_prover]
    pub fn conversation_compression_plan(
        &self,
        store: &MemoryStore,
        namespace: &str,
        keep_recent_count: usize,
    ) -> (r: Result<(Vec<String>, String), MemoryError>)
        ensures
            r matches Ok(p) && {
                let tc = ts_count(store@, keys_in_ns(store.key_seq(), Some(namespace@)));
                &&& p.0@.len() == if tc <= keep_recent_count {
                    0int
                } else {
                    tc - keep_recent_count
                }
                &&& (forall|a: int|
                    0 <= a < p.0@.len() ==> ns_matches(Some(namespace@), (#[trigger] p.0@[a])@)
                        && store@.contains_key(p.0@[a]@) && ts_of_value(store@[p.0@[a]@]) is Some)
                &&& (forall|a: int, b: int| 0 <= a < b < p.0@.len() ==> p.0@[a]@ != p.0@[b]@)
                &&& p.1@ == transcript_of(store@, Seq::new(p.0@.len(), |a: int| p.0@[a]@))
            },
    {
        let ghost m0 = store@;
        let ghost ks0 = store.key_seq();
        let ghost nsv = namespace@;
        let keys = store.keys(Some(namespace));
        let ghost filtered = keys_in_ns(ks0, Some(nsv));
        proof {
            crate::store::lemma_keys_in_ns_elements(ks0, Some(nsv));
            crate::store::lemma_keys_in_ns_no_dup(ks0, Some(nsv));
        }

        let mut items: Vec<Ranked> = Vec::new();
        let mut tags: Vec<usize> = Vec::new();
        let mut i: usize = 0;
        while i < keys.len()
            invariant
                i <= keys@.len(),
                store@ == m0,
                store.key_seq() == ks0,
                store.coherent(),
                filtered == keys_in_ns(ks0, Some(nsv)),
                filtered.no_duplicates(),
                keys@.len() == filtered.len(),
                forall|j: int| 0 <= j < filtered.len() ==> keys@[j]@ == filtered[j],
                forall|j: int|
                    0 <= j < filtered.len() ==> ks0.contains(#[trigger] filtered[j]) && ns_matches(
                        Some(nsv),
                        filtered[j],
                    ),
                items@.len() == tags@.len(),
                items@.len() <= i,
                items@.len() == ts_count(m0, filtered.subrange(0, i as int)),
                forall|a: int|
                    0 <= a < items@.len() ==> (#[trigger] items@[a]).0 == a as usize,
                forall|a: int|
                    0 <= a < tags@.len() ==> (#[trigger] tags@[a]) < i && m0.contains_key(
                        filtered[tags@[a] as int],
                    ) && ts_of_value(m0[filtered[tags@[a] as int]]) is Some,
                forall|a: int, b: int| 0 <= a < b < tags@.len() ==> tags@[a] != tags@[b],
            decreases keys@.len() - i,
        {
            let ghost pre = filtered.subrange(0, i as int);
            let ghost pre1 = filtered.subrange(0, i as int + 1);
            proof {
                assert(pre1.drop_last() =~= pre);
                assert(pre1.last() == filtered[i as int]);
            }
            match store.get(keys[i].as_str()) {
                Some(v) => {
                    match ts_of_value_exec(v) {
                        Some(t) => {
                            let idx = items.len();
                            items.push((idx, t, 0));
                            tags.push(i);
                        },
                        None => {},
                    }
                },
                None => {},
            }
            i += 1;
        }
        proof {
            assert(filtered.subrange(0, filtered.len() as int) =~= filtered);
        }

        if items.len() <= keep_recent_count {
            let empty_keys: Vec<String> = Vec::new();
            proof {
                assert(Seq::new(0, |a: int| empty_keys@[a]@) =~= Seq::<Seq<char>>::empty());
            }
            return Ok((empty_keys, String::new()));
        }
        let to_compress = items.len() - keep_recent_count;

        let sorted = sort_by_keys(items);
        proof {
            assert(items@.no_duplicates()) by {
                assert forall|a: int, b: int|
                    0 <= a < b < items@.len() implies items@[a] != items@[b] by {
                    assert(items@[a].0 == a as usize);
                    assert(items@[b].0 == b as usize);
                }
            }
            items@.lemma_multiset_has_no_duplicates();
            sorted@.lemma_multiset_has_no_duplicates_conv();
        }

        let mut plan: Vec<String> = Vec::new();
        let mut transcript = String::new();
        let mut j: usize = 0;
        while j < to_compress
            invariant
                j <= to_compress,
                to_compress <= sorted@.len(),
                store@ == m0,
                store.key_seq() == ks0,
                store.coherent(),
                filtered == keys_in_ns(ks0, Some(nsv)),
                filtered.no_duplicates(),
                keys@.len() == filtered.len(),
                forall|j2: int| 0 <= j2 < filtered.len() ==> keys@[j2]@ == filtered[j2],
                forall|j2: int|
                    0 <= j2 < filtered.len() ==> ns_matches(Some(nsv), #[trigger] filtered[j2]),
                items@.len() == tags@.len(),
                items@.len() <= filtered.len(),
                sorted@.len() == items@.len(),
                sorted@.no_duplicates(),
                sorted@.to_multiset() == items@.to_multiset(),
                forall|a: int|
                    0 <= a < items@.len() ==> (#[trigger] items@[a]).0 == a as usize,
                forall|a: int|
                    0 <= a < tags@.len() ==> (#[trigger] tags@[a]) < keys@.len()
                        && m0.contains_key(filtered[tags@[a] as int]) && ts_of_value(
                        m0[filtered[tags@[a] as int]],
                    ) is Some,
                forall|a: int, b: int| 0 <= a < b < tags@.len() ==> tags@[a] != tags@[b],
                plan@.len() == j,
                forall|a: int|
                    0 <= a < plan@.len() ==> (#[trigger] plan@[a])@ == filtered[tags@[(
                    sorted@[a]).0 as int] as int],
                forall|a: int|
                    0 <= a < plan@.len() ==> ns_matches(Some(nsv), (#[trigger] plan@[a])@)
                        && m0.contains_key(plan@[a]@) && ts_of_value(m0[plan@[a]@]) is Some,
                forall|a: int, b: int| 0 <= a < b < plan@.len() ==> plan@[a]@ != plan@[b]@,
                transcript@ == transcript_of(m0, Seq::new(plan@.len(), |a: int| plan@[a]@)),
            decreases to_compress - j,
        {
            proof {
                crate::ranking::lemma_tagged_entry(items@, sorted@, j as int);
            }
            let slot = sorted[j].0;
            let t = tags[slot];
            let ghost kview = filtered[t as int];
            let ghost planv = Seq::new(plan@.len(), |a: int| plan@[a]@);
            proof {
                assert(!planv.contains(kview)) by {
                    if planv.contains(kview) {
                        let a = choose|a: int| 0 <= a < planv.len() && planv[a] == kview;
                        assert(plan@[a]@ == kview);
                        crate::ranking::lemma_tagged_entry(items@, sorted@, a);
                        let slot_a = (sorted@[a]).0 as int;
                        if slot_a == slot as int {
                            assert(sorted@[a] == items@[slot as int]);
                            assert(sorted@[j as int] == items@[slot as int]);
                        } else {
                            assert(filtered[tags@[slot_a] as int] != filtered[tags@[
                                slot as int
                            ] as int]);
                        }
                    }
                }
            }
            plan.push(keys[t].clone());
            match store.get(keys[t].as_str()) {
                Some(v) => {
                    match v {
                        MemoryValue::Json(fields) => {
                            let role = doc_get(fields, "role");
                            let content = doc_get(fields, "content");
                            match (role, content) {
                                (Some(MemoryValue::Str(ro)), Some(MemoryValue::Str(co))) => {
                                    transcript.append(ro.as_str());
                                    transcript.append(": ");
                                    transcript.append(co.as_str());
                                    transcript.append("\n");
                                },
                                _ => {},
                            }
                        },
                        _ => {},
                    }
                },
                None => {
                    proof {
                        assert(false);
                    }
                },
            }
            proof {
                let planv1 = Seq::new(plan@.len(), |a: int| plan@[a]@);
                assert(planv1.drop_last() =~= planv);
                assert(planv1.last() == kview);
                assert forall|a: int, b: int|
                    0 <= a < b < plan@.len() implies plan@[a]@ != plan@[b]@ by {
                    if b == plan@.len() - 1 {
                        assert(planv[a] == plan@[a]@);
                    }
                }
            }
            j += 1;
        }
        proof {
            assert(items@.len() == ts_count(m0, filtered));
        }
        Ok((plan, transcript))
    }

    /// Applies a planned compression: stores the summary under the
    /// namespace's compressed-summary key, with the compressed count and a
    /// timestamp, then deletes the planned keys.
    pub fn apply_conversation_compression(
        &self,
        store: &mut MemoryStore,
        namespace: &str,
        plan_keys: &Vec<String>,
        summary: &str,
    ) -> (r: Result<usize, MemoryError>)
        ensures
            r matches Ok(n) && n <= plan_keys@.len(),
            exists|t: i64, doc: ValueModel|
                final(store)@ == old(store)@.insert(
                    #[trigger] summary_key_spec(namespace@),
                    doc,
                ).remove_keys(
                    Set::new(
                        |k: Seq<char>| exists|a: int|
                            0 <= a < plan_keys@.len() && (#[trigger] plan_keys@[a])@ == k,
                    ),
                ) && doc == (ValueModel::Json(
                    seq![
                        ("summary"@, ValueModel::Str(summary@)),
                        (
                            "compressed_count"@,
                            ValueModel::Int(
                                if plan_keys@.len() > 0x7fff_ffff_ffff_ffff {
                                    0x7fff_ffff_ffff_ffffint
                                } else {
                                    plan_keys@.len() as int
                                },
                            ),
                        ),
                        ("compressed_at"@, ValueModel::Str(rfc3339_of(t))),
                    ],
                )),
            final(store).coherent(),
    {
        let now_raw = now_millis();
        let now = if now_raw < 0 {
            0
        } else if now_raw >= MAX_FORMAT_MILLIS {
            MAX_FORMAT_MILLIS - 1
        } else {
            now_raw
        };
        let ts = match format_rfc3339(now) {
            Some(sv) => sv,
            None => String::new(),
        };
        let skey = str_join(namespace, "::summary::compressed");
        let mut fields: Vec<(String, MemoryValue)> = Vec::new();
        fields.push((String::from_str("summary"), MemoryValue::Str(String::from_str(summary))));
        let count_stored: i64 = if plan_keys.len() as u64 > 0x7fff_ffff_ffff_ffffu64 {
            0x7fff_ffff_ffff_ffff
        } else {
            plan_keys.len() as i64
        };
        fields.push((String::from_str("compressed_count"), MemoryValue::Int(count_stored)));
        fields.push((String::from_str("compressed_at"), MemoryValue::Str(ts)));
        let ghost tsn = now;
        proof {
            crate::value::lemma_fields_model(fields@);
            assert(crate::value::fields_model(fields@) =~= seq![
                ("summary"@, ValueModel::Str(summary@)),
                (
                    "compressed_count"@,
                    ValueModel::Int(
                        if plan_keys@.len() > 0x7fff_ffff_ffff_ffff {
                            0x7fff_ffff_ffff_ffffint
                        } else {
                            plan_keys@.len() as int
                        },
                    ),
                ),
                ("compressed_at"@, ValueModel::Str(rfc3339_of(tsn))),
            ]);
        }
        store.set(skey, MemoryValue::Json(fields));
        let n = store.delete_all(plan_keys);
        proof {
            assert(store@ == old(store)@.insert(
                summary_key_spec(namespace@),
                ValueModel::Json(
                    seq![
                        ("summary"@, ValueModel::Str(summary@)),
                        (
                            "compressed_count"@,
                            ValueModel::Int(
                                if plan_keys@.len() > 0x7fff_ffff_ffff_ffff {
                                    0x7fff_ffff_ffff_ffffint
                                } else {
                                    plan_keys@.len() as int
                                },
                            ),
                        ),
                        ("compressed_at"@, ValueModel::Str(rfc3339_of(tsn))),
                    ],
                ),
            ).remove_keys(
                Set::new(
                    |k: Seq<char>| exists|a: int|
                        0 <= a < plan_keys@.len() && (#[trigger] plan_keys@[a])@ == k,
                ),
            ));
        }
        if n > plan_keys.len() {
            Ok(plan_keys.len())
        } else {
            Ok(n)
        }
    }
}



/// Counting stale keys equals the length of any duplicate-free list of
/// exactly the stale keys, as long as the counted keys are duplicate-free.
proof fn lemma_stale_count_matches(
    m: Map<Seq<char>, ValueModel>,
    keys: Seq<Seq<char>>,
    cutoff: int,
    doomed: Seq<Seq<char>>,
)
    requires
        keys.no_duplicates(),
        doomed.no_duplicates(),
        forall|a: int| 0 <= a < doomed.len() ==> keys.contains(#[trigger] doomed[a]),
        forall|a: int|
            0 <= a < doomed.len() ==> m.contains_key(#[trigger] doomed[a]) && stale(
                m[doomed[a]],
                cutoff,
            ),
        forall|j: int|
            0 <= j < keys.len() && m.contains_key(#[trigger] keys[j]) && stale(m[keys[j]], cutoff)
                ==> doomed.contains(keys[j]),
    ensures
        stale_count(m, keys, cutoff) == doomed.len(),
    decreases keys.len(),
{
    if keys.len() == 0 {
        if doomed.len() > 0 {
            assert(keys.contains(doomed[0]));
        }
    } else {
        let kl = keys.last();
        let rest = keys.drop_last();
        assert(forall|j: int| 0 <= j < rest.len() ==> rest[j] == keys[j]);
        assert(keys[keys.len() - 1] == kl);
        if m.contains_key(kl) && stale(m[kl], cutoff) {
            assert(doomed.contains(kl));
            let a = choose|a: int| 0 <= a < doomed.len() && doomed[a] == kl;
            let doomed2 = doomed.remove(a);
            assert(doomed2.no_duplicates());
            assert forall|b: int| 0 <= b < doomed2.len() implies rest.contains(
                #[trigger] doomed2[b],
            ) && m.contains_key(doomed2[b]) && stale(m[doomed2[b]], cutoff) by {
                let src: int = if b < a {
                    b
                } else {
                    b + 1
                };
                assert(doomed2[b] == doomed[src]);
                assert(keys.contains(doomed[src]));
                let j = choose|j: int| 0 <= j < keys.len() && keys[j] == doomed[src];
                assert(doomed[src] != kl) by {
                    if doomed[src] == kl {
                        assert(doomed[src] == doomed[a]);
                    }
                }
                assert(j < keys.len() - 1);
                assert(rest[j] == keys[j]);
            }
            assert forall|j: int|
                0 <= j < rest.len() && m.contains_key(#[trigger] rest[j]) && stale(
                    m[rest[j]],
                    cutoff,
                ) implies doomed2.contains(rest[j]) by {
                assert(rest[j] == keys[j]);
                assert(doomed.contains(keys[j]));
                let b = choose|b: int| 0 <= b < doomed.len() && doomed[b] == keys[j];
                assert(rest[j] != kl) by {
                    if rest[j] == kl {
                        assert(keys[j] == keys[keys.len() - 1]);
                    }
                }
                assert(b != a);
                let dst: int = if b < a {
                    b
                } else {
                    b - 1
                };
                assert(doomed2[dst] == doomed[b]);
            }
            lemma_stale_count_matches(m, rest, cutoff, doomed2);
        } else {
            assert forall|b: int| 0 <= b < doomed.len() implies rest.contains(
                #[trigger] doomed[b],
            ) by {
                assert(keys.contains(doomed[b]));
                let j = choose|j: int| 0 <= j < keys.len() && keys[j] == doomed[b];
                assert(doomed[b] != kl) by {
                    if doomed[b] == kl {
                        assert(m.contains_key(kl) && stale(m[kl], cutoff));
                    }
                }
                assert(j < keys.len() - 1);
                assert(rest[j] == keys[j]);
            }
            assert forall|j: int|
                0 <= j < rest.len() && m.contains_key(#[trigger] rest[j]) && stale(
                    m[rest[j]],
                    cutoff,
                ) implies doomed.contains(rest[j]) by {
                assert(rest[j] == keys[j]);
            }
            lemma_stale_count_matches(m, rest, cutoff, doomed);
        }
    }
}

} // verus!
