//! The conversation store: an ordered, length-bounded message log with
//! positional compaction.
//!
//! Messages live at keys `<ns>::msg_<i>` with a persisted counter at
//! `<ns>::count`. Pruning preserves a system message at index 0, deletes the
//! oldest surplus messages and shifts the survivors down so indices stay
//! contiguous.

use vstd::prelude::*;
use vstd::string::StringExecFns;

use crate::error::MemoryError;
use crate::message::Message;
use crate::message::MessageModel;
use crate::message::Role;
use crate::message::decode_message;
use crate::message::decode_message_value;
use crate::message::encode_message;
use crate::outside::MAX_FORMAT_MILLIS;
use crate::outside::format_rfc3339;
use crate::outside::new_uuid;
use crate::outside::now_millis;
use crate::scope::session_ns;
use crate::scope::session_ns_spec;
use crate::store::MemoryStore;
use crate::store::frame_outside;
use crate::text::dec_str;
use crate::text::is_prefix_of;
use crate::text::lemma_dec_str_injective;
use crate::text::str_join;
use crate::text::u64_to_dec;
use crate::value::MemoryValue;
use crate::value::ValueModel;

verus! {

broadcast use vstd::string::group_string_axioms;

/// The counter key of a conversation namespace.
pub open spec fn count_key_spec(ns: Seq<char>) -> Seq<char> {
    ns + "::count"@
}

/// The key of the message at `index`.
pub open spec fn msg_key_spec(ns: Seq<char>, index: nat) -> Seq<char> {
    ns + "::msg_"@ + dec_str(index)
}

/// The stored message count: the integer under the counter key, clamped to
/// machine range; anything else counts as zero.
pub open spec fn counter_of(m: Map<Seq<char>, ValueModel>, ns: Seq<char>) -> nat {
    if m.contains_key(count_key_spec(ns)) {
        match m[count_key_spec(ns)] {
            ValueModel::Int(n) => if n <= 0 {
                0nat
            } else if n > usize::MAX as int {
                usize::MAX as nat
            } else {
                n as nat
            },
            _ => 0nat,
        }
    } else {
        0nat
    }
}

/// What the slot at `index` holds, as a message.
pub open spec fn slot_of(m: Map<Seq<char>, ValueModel>, ns: Seq<char>, index: nat) -> Option<
    MessageModel,
> {
    if m.contains_key(msg_key_spec(ns, index)) {
        decode_message(m[msg_key_spec(ns, index)])
    } else {
        None
    }
}

/// The message at `index`, defaulting to an empty user message.
pub open spec fn msg_at(m: Map<Seq<char>, ValueModel>, ns: Seq<char>, index: nat) -> MessageModel {
    match slot_of(m, ns, index) {
        Some(x) => x,
        None => MessageModel { role: Role::User, content: Seq::empty() },
    }
}

/// The conversation a storage state holds: the messages at indices
/// `0 .. counter`.
pub open spec fn conv_model(m: Map<Seq<char>, ValueModel>, ns: Seq<char>) -> Seq<MessageModel> {
    Seq::new(counter_of(m, ns) as nat, |i: int| msg_at(m, ns, i as nat))
}

/// A well-formed conversation state: the counter is a sane machine integer,
/// every slot below it decodes, and nothing else lives under the namespace.
pub open spec fn conv_wf(m: Map<Seq<char>, ValueModel>, ns: Seq<char>) -> bool {
    &&& (m.contains_key(count_key_spec(ns)) ==> (m[count_key_spec(ns)] matches ValueModel::Int(n)
        && 0 <= n))
    &&& (forall|i: nat| i < counter_of(m, ns) ==> #[trigger] slot_of(m, ns, i) is Some)
    &&& (forall|k: Seq<char>|
        #[trigger] m.contains_key(k) && is_prefix_of(ns, k) ==> k == count_key_spec(ns) || (
        exists|i: nat| i < counter_of(m, ns) && k == #[trigger] msg_key_spec(ns, i)))
}

/// The stored counter can still be incremented within machine range.
pub open spec fn counter_headroom(m: Map<Seq<char>, ValueModel>, ns: Seq<char>) -> bool {
    counter_of(m, ns) < usize::MAX as nat && (counter_of(m, ns) as int) < 0x7fff_ffff_ffff_ffff
}

/// What pruning leaves of a conversation `s` under length bound `max`: if
/// the bound is not exceeded, everything; otherwise a leading system message
/// is preserved and the oldest surplus messages after it are dropped.
pub open spec fn prune_spec(s: Seq<MessageModel>, max: nat) -> Seq<MessageModel> {
    if s.len() <= max {
        s
    } else {
        let excess = s.len() - max;
        if s.len() > 0 && s[0].role == Role::System {
            seq![s[0]] + s.subrange(1 + excess, s.len() as int)
        } else {
            s.subrange(excess, s.len() as int)
        }
    }
}

/// A preserved system message survives pruning at index 0, whatever the
/// bound: pruning never evicts it.
pub proof fn lemma_prune_keeps_system(s: Seq<MessageModel>, max: nat)
    requires
        s.len() > 0,
        s[0].role == Role::System,
        max >= 1,
    ensures
        prune_spec(s, max).len() > 0,
        prune_spec(s, max)[0] == s[0],
        prune_spec(s, max).len() == if s.len() <= max {
            s.len()
        } else {
            max
        },
{
}

/// Without a system message, pruning keeps exactly the newest `max`
/// messages, in their original order.
pub proof fn lemma_prune_keeps_suffix(s: Seq<MessageModel>, max: nat)
    requires
        s.len() == 0 || s[0].role != Role::System,
    ensures
        prune_spec(s, max) == if s.len() <= max {
            s
        } else {
            s.subrange(s.len() - max, s.len() as int)
        },
        prune_spec(s, max).len() == if s.len() <= max {
            s.len()
        } else {
            max
        },
        forall|i: int|
            0 <= i < prune_spec(s, max).len() ==> prune_spec(s, max)[i] == s[
                s.len() - prune_spec(s, max).len() + i
            ],
{
    if s.len() > max {
        assert(prune_spec(s, max) =~= s.subrange(s.len() - max, s.len() as int));
    }
}

proof fn lemma_msg_key_prefix(ns: Seq<char>, i: nat)
    ensures
        is_prefix_of(ns, msg_key_spec(ns, i)),
        msg_key_spec(ns, i).len() > ns.len() + 6,
{
    reveal_strlit("::msg_");
    crate::text::lemma_dec_str_len(i);
    assert(msg_key_spec(ns, i).subrange(0, ns.len() as int) =~= ns);
}

proof fn lemma_count_key_prefix(ns: Seq<char>)
    ensures
        is_prefix_of(ns, count_key_spec(ns)),
        count_key_spec(ns).len() == ns.len() + 7,
{
    reveal_strlit("::count");
    assert(count_key_spec(ns).subrange(0, ns.len() as int) =~= ns);
}

proof fn lemma_msg_key_ne_count(ns: Seq<char>, i: nat)
    ensures
        msg_key_spec(ns, i) != count_key_spec(ns),
{
    reveal_strlit("::msg_");
    reveal_strlit("::count");
    assert(("::msg_"@).len() == 6);
    assert(("::count"@).len() == 7);
    assert(msg_key_spec(ns, i)[ns.len() as int + 2] == 'm');
    assert(count_key_spec(ns)[ns.len() as int + 2] == 'c');
}

proof fn lemma_msg_key_inj(ns: Seq<char>, i: nat, j: nat)
    requires
        msg_key_spec(ns, i) == msg_key_spec(ns, j),
    ensures
        i == j,
{
    let p = ns + "::msg_"@;
    assert(msg_key_spec(ns, i).subrange(p.len() as int, msg_key_spec(ns, i).len() as int)
        =~= dec_str(i));
    assert(msg_key_spec(ns, j).subrange(p.len() as int, msg_key_spec(ns, j).len() as int)
        =~= dec_str(j));
    lemma_dec_str_injective(i, j);
}

/// The ordered, bounded message history of one session.
pub struct ConversationMemoryStore {
    namespace: String,
    max_length: usize,
    persist: bool,
}

impl ConversationMemoryStore {
    /// The namespace of this conversation.
    pub closed spec fn ns(self) -> Seq<char> {
        self.namespace@
    }

    /// The length bound.
    pub closed spec fn max(self) -> usize {
        self.max_length
    }

    /// Whether the conversation is persisted at all.
    pub closed spec fn persist_on(self) -> bool {
        self.persist
    }

    /// A conversation store for `session_id`, keeping at most `max_length`
    /// messages when `persist` is set; with persistence off, every operation
    /// is a no-op with an empty result.
    pub fn new(session_id: &str, max_length: usize, persist: bool) -> (r: ConversationMemoryStore)
        ensures
            r.ns() == session_ns_spec(session_id@, "conversation"@),
            r.max() == max_length,
            r.persist_on() == persist,
    {
        ConversationMemoryStore {
            namespace: session_ns(session_id, "conversation"),
            max_length,
            persist,
        }
    }

    /// The storage key of the message at `index`.
    pub fn message_key(&self, index: usize) -> (r: String)
        ensures
            r@ == msg_key_spec(self.ns(), index as nat),
    {
        let mut s = str_join(self.namespace.as_str(), "::msg_");
        s.append(u64_to_dec(index as u64).as_str());
        s
    }

    fn count_key(&self) -> (r: String)
        ensures
            r@ == count_key_spec(self.ns()),
    {
        str_join(self.namespace.as_str(), "::count")
    }

    /// How many messages are stored (zero with persistence off).
    pub fn count(&self, store: &MemoryStore) -> (r: Result<usize, MemoryError>)
        ensures
            r matches Ok(n) && n == if self.persist_on() {
                counter_of(store@, self.ns())
            } else {
                0nat
            },
    {
        if !self.persist {
            return Ok(0);
        }
        let ck = self.count_key();
        match store.get(ck.as_str()) {
            Some(v) => match v.as_int() {
                Some(n) => {
                    if n <= 0 {
                        Ok(0)
                    } else {
                        let nu = n as u64;
                        if nu > usize::MAX as u64 {
                            Ok(usize::MAX)
                        } else {
                            Ok(nu as usize)
                        }
                    }
                },
                None => Ok(0),
            },
            None => Ok(0),
        }
    }

    /// Whether the conversation is empty.
    pub fn is_empty(&self, store: &MemoryStore) -> (r: Result<bool, MemoryError>)
        ensures
            r matches Ok(b) && b == if self.persist_on() {
                counter_of(store@, self.ns()) == 0
            } else {
                true
            },
    {
        let c = self.count(store)?;
        Ok(c == 0)
    }

    /// Appends `message` at the current count, persists the incremented
    /// counter, and prunes if the bound is now exceeded. On a well-formed
    /// state the stored conversation becomes the old one plus `message`,
    /// pruned to the bound; keys outside the namespace are untouched.
    pub fn add_message(&self, store: &mut MemoryStore, message: Message) -> (r: Result<
        (),
        MemoryError,
    >)
        ensures
            r is Ok,
            !self.persist_on() ==> final(store)@ == old(store)@ && final(store).key_seq() == old(
                store,
            ).key_seq(),
            self.persist_on() ==> frame_outside(old(store)@, final(store)@, self.ns()),
            self.persist_on() && conv_wf(old(store)@, self.ns()) && counter_headroom(
                old(store)@,
                self.ns(),
            ) && self.max() >= 1 ==> conv_wf(final(store)@, self.ns()) && conv_model(
                final(store)@,
                self.ns(),
            ) == prune_spec(
                conv_model(old(store)@, self.ns()).push(message@),
                self.max() as nat,
            ),
    {
        if !self.persist {
            return Ok(());
        }
        let ghost m0 = store@;
        let ghost ns = self.ns();
        let ghost wf0 = conv_wf(m0, ns) && counter_headroom(m0, ns);
        let count = self.count(store)?;

        // render a wall-clock timestamp for the stored document
        let now_raw = now_millis();
        let now = if now_raw < 0 {
            0
        } else if now_raw >= MAX_FORMAT_MILLIS {
            MAX_FORMAT_MILLIS - 1
        } else {
            now_raw
        };
        let ts = match format_rfc3339(now) {
            Some(s) => s,
            None => String::new(),
        };

        let ghost msg_model = message@;
        let key = self.message_key(count);
        let value = encode_message(message, ts);
        let ghost doc = value@;
        store.set(key, value);
        let ghost m1 = store@;

        let new_count = if count < usize::MAX {
            count + 1
        } else {
            count
        };
        let stored_count: i64 = if new_count as u64 > 0x7fff_ffff_ffff_ffffu64 {
            0x7fff_ffff_ffff_ffff
        } else {
            new_count as i64
        };
        let ck = self.count_key();
        store.set(ck, MemoryValue::Int(stored_count));
        let ghost m2 = store@;

        proof {
            lemma_count_key_prefix(ns);
            lemma_msg_key_prefix(ns, count as nat);
            lemma_msg_key_ne_count(ns, count as nat);
            if wf0 && self.max() >= 1 {
                assert(count == counter_of(m0, ns));
                assert(count < usize::MAX);
                assert(new_count == count + 1);
                assert(stored_count == new_count as i64);
                assert(counter_of(m2, ns) == count + 1);
                crate::message::lemma_message_round_trip(msg_model, ts@);
                assert forall|i: nat| i < counter_of(m2, ns) implies #[trigger] slot_of(
                    m2,
                    ns,
                    i,
                ) is Some by {
                    lemma_msg_key_ne_count(ns, i);
                    if i < count as nat {
                        lemma_msg_key_inj_auto(ns);
                        assert(msg_key_spec(ns, i) != msg_key_spec(ns, count as nat));
                        assert(slot_of(m2, ns, i) == slot_of(m0, ns, i));
                    } else {
                        assert(i == count as nat);
                        assert(m2[msg_key_spec(ns, i)] == doc);
                    }
                }
                assert(conv_wf(m2, ns)) by {
                    assert forall|k: Seq<char>|
                        #[trigger] m2.contains_key(k) && is_prefix_of(ns, k) implies k
                        == count_key_spec(ns) || (exists|i: nat|
                        i < counter_of(m2, ns) && k == #[trigger] msg_key_spec(ns, i)) by {
                        if k != count_key_spec(ns) && k != msg_key_spec(ns, count as nat) {
                            assert(m0.contains_key(k));
                            let i = choose|i: nat|
                                i < counter_of(m0, ns) && k == #[trigger] msg_key_spec(ns, i);
                            assert(i < counter_of(m2, ns) && k == msg_key_spec(ns, i));
                        } else if k == msg_key_spec(ns, count as nat) {
                            assert((count as nat) < counter_of(m2, ns));
                        }
                    }
                }
                assert(conv_model(m2, ns) =~= conv_model(m0, ns).push(msg_model)) by {
                    assert forall|i: int| 0 <= i < count + 1 implies conv_model(m2, ns)[i]
                        == conv_model(m0, ns).push(msg_model)[i] by {
                        lemma_msg_key_ne_count(ns, i as nat);
                        if i < count as int {
                            lemma_msg_key_inj_auto(ns);
                            assert(msg_key_spec(ns, i as nat) != msg_key_spec(ns, count as nat));
                            assert(slot_of(m2, ns, i as nat) == slot_of(m0, ns, i as nat));
                        } else {
                            assert(m2[msg_key_spec(ns, i as nat)] == doc);
                        }
                    }
                }
            }
            assert(frame_outside(m0, m2, ns));
        }

        if new_count > self.max_length {
            self.prune_old_messages(store)?;
            proof {
                if wf0 && self.max() >= 1 {
                    assert(conv_model(store@, ns) == prune_spec(
                        conv_model(m0, ns).push(msg_model),
                        self.max() as nat,
                    ));
                }
            }
        } else {
            proof {
                if wf0 && self.max() >= 1 {
                    assert(conv_model(m2, ns).len() <= self.max() as nat);
                }
            }
        }
        Ok(())
    }

    /// Reads the stored conversation in order. A missing index silently
    /// truncates the result; an undecodable slot is a serialization error.
    /// On a well-formed state this returns exactly the stored conversation.
    pub fn get_messages(&self, store: &MemoryStore) -> (r: Result<Vec<Message>, MemoryError>)
        ensures
            !self.persist_on() ==> (r matches Ok(v) && v@.len() == 0),
            self.persist_on() && conv_wf(store@, self.ns()) ==> (r matches Ok(v) && v@.len()
                == counter_of(store@, self.ns()) && forall|i: int|
                0 <= i < v@.len() ==> (#[trigger] v@[i])@ == conv_model(store@, self.ns())[i]),
    {
        if !self.persist {
            return Ok(Vec::new());
        }
        let ghost ns = self.ns();
        let ghost wf = conv_wf(store@, ns);
        let count = self.count(store)?;
        let mut out: Vec<Message> = Vec::new();
        let mut idx: usize = 0;
        while idx < count
            invariant
                idx <= count,
                self.persist_on(),
                wf == conv_wf(store@, ns),
                ns == self.ns(),
                wf ==> count == counter_of(store@, ns),
                wf ==> out@.len() == idx,
                wf ==> forall|i: int|
                    0 <= i < out@.len() ==> (#[trigger] out@[i])@ == msg_at(store@, ns, i as nat),
            decreases count - idx,
        {
            let key = self.message_key(idx);
            match store.get(key.as_str()) {
                Some(v) => {
                    match decode_message_value(v) {
                        Some(m) => {
                            out.push(m);
                        },
                        None => {
                            proof {
                                if wf {
                                    assert(slot_of(store@, ns, idx as nat) is Some);
                                }
                            }
                            return Err(
                                MemoryError::Serialization {
                                    operation: String::from_str("decode_message"),
                                },
                            );
                        },
                    }
                },
                None => {
                    // a gap truncates the result; impossible on a well-formed state
                    proof {
                        if wf {
                            assert(slot_of(store@, ns, idx as nat) is Some);
                            assert(false);
                        }
                    }
                    return Ok(out);
                },
            }
            idx += 1;
        }
        Ok(out)
    }

    /// Clears the conversation, re-adding a leading system message if one
    /// was stored. On a well-formed state the conversation becomes either
    /// just the old system message or nothing.
    pub fn clear(&self, store: &mut MemoryStore) -> (r: Result<(), MemoryError>)
        ensures
            r is Ok,
            !self.persist_on() ==> final(store)@ == old(store)@ && final(store).key_seq() == old(
                store,
            ).key_seq(),
            self.persist_on() ==> frame_outside(old(store)@, final(store)@, self.ns()),
            self.persist_on() && conv_wf(old(store)@, self.ns()) && self.max() >= 1 ==> conv_wf(
                final(store)@,
                self.ns(),
            ) && conv_model(final(store)@, self.ns()) == {
                let s = conv_model(old(store)@, self.ns());
                if s.len() > 0 && s[0].role == Role::System {
                    seq![s[0]]
                } else {
                    Seq::<MessageModel>::empty()
                }
            },
    {
        if !self.persist {
            return Ok(());
        }
        let ghost m0 = store@;
        let ghost ns = self.ns();
        let ghost wf0 = conv_wf(m0, ns);
        let count = self.count(store)?;

        let system_msg: Option<Message> = if count > 0 {
            let key0 = self.message_key(0);
            match store.get(key0.as_str()) {
                Some(v) => match decode_message_value(v) {
                    Some(m) => if matches!(m.role, Role::System) {
                        Some(m)
                    } else {
                        None
                    },
                    None => None,
                },
                None => None,
            }
        } else {
            None
        };

        store.clear(Some(self.namespace.as_str()));
        let ghost m1 = store@;
        proof {
            lemma_count_key_prefix(ns);
            assert(!m1.contains_key(count_key_spec(ns)));
            assert(counter_of(m1, ns) == 0);
            assert(conv_wf(m1, ns));
            assert(conv_model(m1, ns) =~= Seq::<MessageModel>::empty());
        }

        match system_msg {
            Some(m) => {
                let ghost mm = m@;
                self.add_message(store, m)?;
                proof {
                    if wf0 && self.max() >= 1 {
                        assert(counter_of(m0, ns) > 0);
                        assert(slot_of(m0, ns, 0nat) is Some);
                        assert(conv_model(m0, ns)[0] == mm);
                        assert(conv_model(m1, ns).push(mm) =~= seq![mm]);
                        assert(prune_spec(seq![mm], self.max() as nat) =~= seq![mm]);
                        assert(conv_model(store@, ns) =~= seq![conv_model(m0, ns)[0]]);
                    }
                }
            },
            None => {
                proof {
                    if wf0 && self.max() >= 1 {
                        let s = conv_model(m0, ns);
                        if s.len() > 0 && s[0].role == Role::System {
                            assert(slot_of(m0, ns, 0nat) is Some);
                        }
                    }
                }
            },
        }
        Ok(())
    }

    /// Prunes the conversation down to the bound: preserves a leading
    /// system message, deletes the oldest surplus, shifts survivors down and
    /// rewrites the counter.
    #[verifier::rlimit(100)]
    #[verifier::spinoff_prover]
    fn prune_old_messages(&self, store: &mut MemoryStore) -> (r: Result<(), MemoryError>)
        requires
            old(store).coherent(),
            self.persist_on(),
        ensures
            r is Ok,
            final(store).coherent(),
            frame_outside(old(store)@, final(store)@, self.ns()),
            conv_wf(old(store)@, self.ns()) && self.max() >= 1 && (self.max() as int)
                < 0x7fff_ffff_ffff_ffff ==> conv_wf(final(store)@, self.ns()) && conv_model(
                final(store)@,
                self.ns(),
            ) == prune_spec(conv_model(old(store)@, self.ns()), self.max() as nat),
    {
        let ghost m0 = store@;
        let ghost ns = self.ns();
        let ghost model0 = conv_model(m0, ns);
        let ghost wfc = conv_wf(m0, ns) && self.max() >= 1 && (self.max() as int)
            < 0x7fff_ffff_ffff_ffff;
        let count = self.count(store)?;
        if count <= self.max_length {
            return Ok(());
        }

        // does a system message sit at index 0?
        let key0 = self.message_key(0);
        let has_system = match store.get(key0.as_str()) {
            Some(v) => match decode_message_value(v) {
                Some(m) => matches!(m.role, Role::System),
                None => false,
            },
            None => false,
        };
        proof {
            if wfc {
                assert(slot_of(m0, ns, 0nat) is Some);
                assert(has_system == (model0[0].role == Role::System));
            }
        }

        let start: usize = if has_system {
            1
        } else {
            0
        };
        let excess: usize = count - self.max_length;

        // delete the surplus messages at indices [start, start + excess)
        let mut j: usize = 0;
        while j < excess
            invariant
                j <= excess,
                ns == self.ns(),
                self.persist_on(),
                excess == count - self.max(),
                count > self.max(),
                start <= 1,
                excess <= count,
                store.coherent(),
                wfc == (conv_wf(m0, ns) && self.max() >= 1 && (self.max() as int)
                    < 0x7fff_ffff_ffff_ffff),
                wfc ==> count == counter_of(m0, ns),
                frame_outside(m0, store@, ns),
                forall|k: Seq<char>|
                    #[trigger] store@.contains_key(k) ==> m0.contains_key(k) && store@[k] == m0[k],
                forall|i: nat|
                    !(start as int <= i as int && (i as int) < start as int + j as int)
                        ==> store@.contains_key(#[trigger] msg_key_spec(ns, i))
                        == m0.contains_key(msg_key_spec(ns, i)),
                forall|i: nat|
                    start as int <= i as int && (i as int) < start as int + j as int
                        ==> !store@.contains_key(#[trigger] msg_key_spec(ns, i)),
                store@.contains_key(count_key_spec(ns)) == m0.contains_key(count_key_spec(ns)),
            decreases excess - j,
        {
            let key = self.message_key(start + j);
            store.delete(key.as_str());
            proof {
                lemma_msg_key_inj_auto(ns);
                lemma_msg_key_ne_count(ns, (start + j) as nat);
                lemma_msg_key_prefix(ns, (start + j) as nat);
            }
            j += 1;
        }

        // shift the survivors down by `excess`
        let shift_count: usize = if self.max_length >= start {
            self.max_length - start
        } else {
            0
        };
        let mut t: usize = 0;
        while t < shift_count
            invariant
                t <= shift_count,
                shift_count == if self.max() >= start {
                    (self.max() - start) as int
                } else {
                    0int
                },
                ns == self.ns(),
                self.persist_on(),
                excess == count - self.max(),
                count > self.max(),
                start <= 1,
                excess <= count,
                store.coherent(),
                wfc == (conv_wf(m0, ns) && self.max() >= 1 && (self.max() as int)
                    < 0x7fff_ffff_ffff_ffff),
                wfc ==> count == counter_of(m0, ns),
                frame_outside(m0, store@, ns),
                wfc ==> (forall|k: Seq<char>|
                    #[trigger] store@.contains_key(k) ==> m0.contains_key(k)),
                store@.contains_key(count_key_spec(ns)) == m0.contains_key(count_key_spec(ns)),
                store@.contains_key(count_key_spec(ns)) ==> store@[count_key_spec(ns)] == m0[
                    count_key_spec(ns)
                ],
                // an untouched leading system message
                wfc ==> (forall|i: nat|
                    (i as int) < start as int ==> store@.contains_key(
                        #[trigger] msg_key_spec(ns, i),
                    ) == m0.contains_key(msg_key_spec(ns, i)) && (store@.contains_key(
                        msg_key_spec(ns, i),
                    ) ==> store@[msg_key_spec(ns, i)] == m0[msg_key_spec(ns, i)])),
                // survivors shifted so far
                wfc ==> (forall|i: nat|
                    start as int <= i as int && (i as int) < start as int + t as int
                        ==> store@.contains_key(#[trigger] msg_key_spec(ns, i))
                        == m0.contains_key(msg_key_spec(ns, (i + excess as nat) as nat)) && (
                    store@.contains_key(msg_key_spec(ns, i)) ==> store@[msg_key_spec(ns, i)] == m0[
                        msg_key_spec(ns, (i + excess as nat) as nat)
                    ])),
                // the hole between the shifted part and the unread part
                wfc ==> (forall|i: nat|
                    start as int + t as int <= i as int && (i as int) < start as int + excess
                        as int + t as int ==> !store@.contains_key(
                        #[trigger] msg_key_spec(ns, i),
                    )),
                // unread survivors still in place
                wfc ==> (forall|i: nat|
                    start as int + excess as int + t as int <= i as int
                        ==> store@.contains_key(#[trigger] msg_key_spec(ns, i))
                        == m0.contains_key(msg_key_spec(ns, i)) && (store@.contains_key(
                        msg_key_spec(ns, i),
                    ) ==> store@[msg_key_spec(ns, i)] == m0[msg_key_spec(ns, i)])),
            decreases shift_count - t,
        {
            let old_idx = start + excess + t;
            let new_idx = start + t;
            let old_key = self.message_key(old_idx);
            let new_key = self.message_key(new_idx);
            let dup = match store.get(old_key.as_str()) {
                Some(v) => Some(v.duplicate()),
                None => None,
            };
            match dup {
                Some(d) => {
                    store.set(new_key, d);
                    store.delete(old_key.as_str());
                },
                None => {
                    // a malformed slot is skipped, as in a best-effort pass
                },
            }
            proof {
                lemma_msg_key_inj_auto(ns);
                lemma_msg_key_ne_count(ns, old_idx as nat);
                lemma_msg_key_ne_count(ns, new_idx as nat);
                lemma_msg_key_prefix(ns, old_idx as nat);
                lemma_msg_key_prefix(ns, new_idx as nat);
                if wfc {
                    assert(slot_of(m0, ns, old_idx as nat) is Some);
                    assert(m0.contains_key(msg_key_spec(ns, old_idx as nat)));
                    assert(slot_of(m0, ns, new_idx as nat) is Some);
                    assert(m0.contains_key(msg_key_spec(ns, new_idx as nat)));
                    assert forall|i: nat|
                        start as int <= i as int && (i as int) < start as int + t as int + 1
                        implies store@.contains_key(#[trigger] msg_key_spec(ns, i))
                        == m0.contains_key(msg_key_spec(ns, (i + excess as nat) as nat)) && (
                    store@.contains_key(msg_key_spec(ns, i)) ==> store@[msg_key_spec(ns, i)]
                        == m0[msg_key_spec(ns, (i + excess as nat) as nat)]) by {
                        if (i as int) < start as int + t as int {
                            assert(msg_key_spec(ns, i) != msg_key_spec(ns, new_idx as nat));
                            assert(msg_key_spec(ns, i) != msg_key_spec(ns, old_idx as nat));
                        } else {
                            assert(i as int == new_idx as int);
                        }
                    }
                }
            }
            t += 1;
        }
        let ghost m2 = store@;

        // rewrite the counter to the bound
        let ck = self.count_key();
        let stored: i64 = if self.max_length as u64 > 0x7fff_ffff_ffff_ffffu64 {
            0x7fff_ffff_ffff_ffff
        } else {
            self.max_length as i64
        };
        store.set(ck, MemoryValue::Int(stored));
        let ghost m3 = store@;

        proof {
            lemma_count_key_prefix(ns);
            lemma_msg_key_inj_auto(ns);
            assert(frame_outside(m0, m3, ns));
            if wfc {
                let max = self.max() as nat;
                assert(stored == self.max() as i64);
                assert(counter_of(m3, ns) == max);
                let target = prune_spec(model0, max);
                assert(target.len() == max);
                assert(start as nat <= max);
                assert(shift_count == self.max() - start);
                assert forall|i: nat| i < max implies #[trigger] slot_of(m3, ns, i) is Some
                    && msg_at(m3, ns, i) == target[i as int] by {
                    lemma_msg_key_ne_count(ns, i);
                    if (i as int) < start as int {
                        assert(slot_of(m0, ns, i) is Some);
                        assert(m0.contains_key(msg_key_spec(ns, i)));
                        assert(m3.contains_key(msg_key_spec(ns, i)));
                        assert(m3[msg_key_spec(ns, i)] == m0[msg_key_spec(ns, i)]);
                        assert(slot_of(m3, ns, i) == slot_of(m0, ns, i));
                        assert(target[i as int] == model0[0]);
                    } else {
                        let src = (i + excess as nat) as nat;
                        assert(src < count as nat);
                        assert(slot_of(m0, ns, src) is Some);
                        assert(m0.contains_key(msg_key_spec(ns, src)));
                        assert(m3.contains_key(msg_key_spec(ns, i)));
                        assert(m3[msg_key_spec(ns, i)] == m0[msg_key_spec(ns, src)]);
                        assert(slot_of(m3, ns, i) == slot_of(m0, ns, src));
                        assert(target[i as int] == model0[i as int + excess as int]);
                    }
                }
                assert(conv_wf(m3, ns)) by {
                    assert forall|k: Seq<char>|
                        #[trigger] m3.contains_key(k) && is_prefix_of(ns, k) implies k
                        == count_key_spec(ns) || (exists|i: nat|
                        i < counter_of(m3, ns) && k == #[trigger] msg_key_spec(ns, i)) by {
                        if k != count_key_spec(ns) {
                            assert(m2.contains_key(k) || k == count_key_spec(ns));
                            assert(m0.contains_key(k));
                            let i = choose|i: nat|
                                i < counter_of(m0, ns) && k == #[trigger] msg_key_spec(ns, i);
                            if (i as int) < start as int {
                                assert(i < counter_of(m3, ns) && k == msg_key_spec(ns, i));
                            } else if (i as int) < start as int + shift_count {
                                assert(i < counter_of(m3, ns) && k == msg_key_spec(ns, i));
                            } else {
                                assert(!m2.contains_key(msg_key_spec(ns, i)));
                                assert(!m3.contains_key(k));
                            }
                        }
                    }
                }
                assert(conv_model(m3, ns) =~= target);
            }
        }
        Ok(())
    }
}

/// All message keys of one namespace are pairwise distinct across indices.
proof fn lemma_msg_key_inj_auto(ns: Seq<char>)
    ensures
        forall|i: nat, j: nat|
            #[trigger] msg_key_spec(ns, i) == #[trigger] msg_key_spec(ns, j) ==> i == j,
{
    assert forall|i: nat, j: nat|
        #[trigger] msg_key_spec(ns, i) == #[trigger] msg_key_spec(ns, j) implies i == j by {
        lemma_msg_key_inj(ns, i, j);
    }
}

/// A fresh, globally unique session identifier.
pub fn generate_session_id() -> (r: String)
    ensures
        r@.len() == 36,
{
    new_uuid()
}

} // verus!
