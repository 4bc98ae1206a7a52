//! Working memory: an ephemeral per-session scratchpad.
//!
//! The view is a thin namespace over the store; entries have no identity
//! beyond their key. Cleanup is never implicit: callers invoke [`WorkingMemory::clear`]
//! themselves, and the `auto_clear` flag only records the intent.

use vstd::prelude::*;

use crate::error::MemoryError;
use crate::scope::child_key;
use crate::scope::child_key_spec;
use crate::scope::session_ns;
use crate::scope::session_ns_spec;
use crate::store::MemoryStore;
use crate::store::clear_model;
use crate::store::insert_all;
use crate::store::keys_in_ns;
use crate::store::keys_out_ns;

use crate::value::MemoryValue;
use crate::value::ValueModel;

verus! {

/// The session-scoped scratchpad view.
pub struct WorkingMemory {
    namespace: String,
    auto_clear: bool,
}

/// The keys of `pairs` each placed below `ns`, values modelled.
pub open spec fn scoped_pairs(
    ns: Seq<char>,
    pairs: Seq<(String, MemoryValue)>,
) -> Seq<(Seq<char>, ValueModel)> {
    Seq::new(pairs.len(), |i: int| (child_key_spec(ns, pairs[i].0@), crate::value::value_model(pairs[i].1)))
}

impl WorkingMemory {
    /// The namespace this scratchpad lives under.
    pub closed spec fn namespace_view(self) -> Seq<char> {
        self.namespace@
    }

    /// Whether the owner intends to clear the namespace when the session ends.
    pub closed spec fn auto_clear_on(self) -> bool {
        self.auto_clear
    }

    /// A scratchpad for `session_id` that intends end-of-session cleanup.
    pub fn new(session_id: &str) -> (r: WorkingMemory)
        ensures
            r.namespace_view() == session_ns_spec(session_id@, "working"@),
            r.auto_clear_on(),
    {
        WorkingMemory { namespace: session_ns(session_id, "working"), auto_clear: true }
    }

    /// A scratchpad whose entries are meant to outlive the session.
    pub fn new_persistent(session_id: &str) -> (r: WorkingMemory)
        ensures
            r.namespace_view() == session_ns_spec(session_id@, "working"@),
            !r.auto_clear_on(),
    {
        WorkingMemory { namespace: session_ns(session_id, "working"), auto_clear: false }
    }

    /// The full storage key of a scratchpad entry.
    pub fn make_key(&self, key: &str) -> (r: String)
        ensures
            r@ == child_key_spec(self.namespace_view(), key@),
    {
        child_key(self.namespace.as_str(), key)
    }

    /// Stores `value` under `key`.
    pub fn set(&self, store: &mut MemoryStore, key: &str, value: MemoryValue) -> (r: Result<
        (),
        MemoryError,
    >)
        ensures
            r is Ok,
            final(store)@ == old(store)@.insert(
                child_key_spec(self.namespace_view(), key@),
                value@,
            ),
            final(store).key_seq() == if old(store)@.contains_key(
                child_key_spec(self.namespace_view(), key@),
            ) {
                old(store).key_seq()
            } else {
                old(store).key_seq().push(child_key_spec(self.namespace_view(), key@))
            },
            final(store).coherent(),
    {
        let full = self.make_key(key);
        store.set(full, value);
        Ok(())
    }

    /// The value stored under `key`, if any.
    pub fn get<'a>(&self, store: &'a MemoryStore, key: &str) -> (r: Result<
        Option<&'a MemoryValue>,
        MemoryError,
    >)
        ensures
            r matches Ok(v) && match v {
                Some(mv) => store@.contains_key(child_key_spec(self.namespace_view(), key@))
                    && mv@ == store@[child_key_spec(self.namespace_view(), key@)],
                None => !store@.contains_key(child_key_spec(self.namespace_view(), key@)),
            },
    {
        let full = self.make_key(key);
        Ok(store.get(full.as_str()))
    }

    /// Removes `key`; reports whether it was present.
    pub fn delete(&self, store: &mut MemoryStore, key: &str) -> (r: Result<bool, MemoryError>)
        ensures
            r matches Ok(b) && b == old(store)@.contains_key(
                child_key_spec(self.namespace_view(), key@),
            ),
            final(store)@ == old(store)@.remove(child_key_spec(self.namespace_view(), key@)),
            final(store).coherent(),
    {
        let full = self.make_key(key);
        Ok(store.delete(full.as_str()))
    }

    /// Whether `key` is present.
    pub fn exists_key(&self, store: &MemoryStore, key: &str) -> (r: Result<bool, MemoryError>)
        ensures
            r matches Ok(b) && b == store@.contains_key(
                child_key_spec(self.namespace_view(), key@),
            ),
    {
        let full = self.make_key(key);
        Ok(store.contains(full.as_str()))
    }

    /// Removes everything under this scratchpad's namespace.
    pub fn clear(&self, store: &mut MemoryStore) -> (r: Result<(), MemoryError>)
        ensures
            r is Ok,
            final(store)@ == clear_model(old(store)@, Some(self.namespace_view())),
            final(store).key_seq() == keys_out_ns(
                old(store).key_seq(),
                Some(self.namespace_view()),
            ),
            keys_in_ns(final(store).key_seq(), Some(self.namespace_view()))
                == Seq::<Seq<char>>::empty(),
            final(store).coherent(),
    {
        store.clear(Some(self.namespace.as_str()));
        Ok(())
    }

    /// How many entries the scratchpad holds.
    pub fn count(&self, store: &MemoryStore) -> (r: Result<usize, MemoryError>)
        ensures
            r matches Ok(n) && n == keys_in_ns(
                store.key_seq(),
                Some(self.namespace_view()),
            ).len(),
    {
        Ok(store.count(Some(self.namespace.as_str())))
    }

    /// The scratchpad's logical keys, namespace prefix stripped.
    pub fn keys(&self, store: &MemoryStore) -> (r: Result<Vec<String>, MemoryError>)
        ensures
            r matches Ok(ks) && {
                let full = keys_in_ns(store.key_seq(), Some(self.namespace_view() + "::"@));
                ks@.len() == full.len() && forall|i: int|
                    0 <= i < full.len() ==> ks@[i]@ == full[i].subrange(
                        self.namespace_view().len() as int + 2,
                        full[i].len() as int,
                    )
            },
    {
        let prefix = crate::text::str_join(self.namespace.as_str(), "::");
        let ghost pfx = prefix@;
        let raw = store.keys(Some(prefix.as_str()));
        let ghost full = keys_in_ns(store.key_seq(), Some(pfx));
        proof {
            crate::store::lemma_keys_in_ns_elements(store.key_seq(), Some(pfx));
        }
        let mut out: Vec<String> = Vec::new();
        let mut i: usize = 0;
        while i < raw.len()
            invariant
                i <= raw@.len(),
                raw@.len() == full.len(),
                forall|j: int| 0 <= j < full.len() ==> raw@[j]@ == full[j],
                forall|j: int|
                    0 <= j < full.len() ==> crate::text::is_prefix_of(pfx, #[trigger] full[j]),
                pfx == self.namespace_view() + "::"@,
                prefix@ == pfx,
                out@.len() == i,
                forall|j: int|
                    0 <= j < i ==> out@[j]@ == full[j].subrange(
                        self.namespace_view().len() as int + 2,
                        full[j].len() as int,
                    ),
            decreases raw@.len() - i,
        {
            proof {
                reveal_strlit("::");
                assert(pfx.len() == self.namespace_view().len() + 2);
                assert(raw@[i as int]@ == full[i as int]);
                assert(crate::text::is_prefix_of(pfx, full[i as int]));
            }
            let item_str = raw[i].as_str();
            let prefix_str = prefix.as_str();
            proof {
                assert(item_str@ == raw@[i as int]@);
                assert(item_str@ == full[i as int]);
                assert(crate::text::is_prefix_of(prefix_str@, item_str@));
            }
            let rest = crate::text::strip_known_prefix(item_str, prefix_str);
            out.push(rest);
            i += 1;
        }
        Ok(out)
    }

    /// Stores several entries at once, in order.
    pub fn set_many(&self, store: &mut MemoryStore, pairs: Vec<(String, MemoryValue)>) -> (r:
        Result<(), MemoryError>)
        ensures
            r is Ok,
            final(store)@ == insert_all(old(store)@, scoped_pairs(self.namespace_view(), pairs@)),
            final(store).coherent(),
    {
        let ghost given = pairs@;
        let mut full: Vec<(String, MemoryValue)> = Vec::new();
        let mut pairs = pairs;
        let mut i: usize = 0;
        let total = pairs.len();
        while pairs.len() > 0
            invariant
                i <= total,
                total == given.len(),
                pairs@ =~= given.subrange(i as int, total as int),
                full@.len() == i,
                forall|j: int|
                    0 <= j < i ==> (#[trigger] full@[j]).0@ == child_key_spec(
                        self.namespace_view(),
                        given[j].0@,
                    ) && crate::value::value_model(full@[j].1) == crate::value::value_model(
                        given[j].1,
                    ),
            decreases pairs@.len(),
        {
            let p = pairs.remove(0);
            proof {
                assert(p == given[i as int]);
            }
            let fk = self.make_key(p.0.as_str());
            full.push((fk, p.1));
            i += 1;
        }
        proof {
            crate::value::lemma_fields_model(full@);
            assert(crate::value::fields_model(full@) =~= scoped_pairs(
                self.namespace_view(),
                given,
            ));
        }
        store.set_all(full);
        Ok(())
    }

    /// Looks up several keys at once, in order.
    pub fn get_many<'a>(&self, store: &'a MemoryStore, keys: &Vec<String>) -> (r: Result<
        Vec<Option<&'a MemoryValue>>,
        MemoryError,
    >)
        ensures
            r matches Ok(vs) && vs@.len() == keys@.len() && forall|i: int|
                0 <= i < keys@.len() ==> match #[trigger] vs@[i] {
                    Some(mv) => store@.contains_key(
                        child_key_spec(self.namespace_view(), keys@[i]@),
                    ) && mv@ == store@[child_key_spec(self.namespace_view(), keys@[i]@)],
                    None => !store@.contains_key(
                        child_key_spec(self.namespace_view(), keys@[i]@),
                    ),
                },
    {
        let mut out: Vec<Option<&MemoryValue>> = Vec::new();
        let mut i: usize = 0;
        while i < keys.len()
            invariant
                i <= keys@.len(),
                out@.len() == i,
                forall|j: int|
                    0 <= j < i ==> match #[trigger] out@[j] {
                        Some(mv) => store@.contains_key(
                            child_key_spec(self.namespace_view(), keys@[j]@),
                        ) && mv@ == store@[child_key_spec(self.namespace_view(), keys@[j]@)],
                        None => !store@.contains_key(
                            child_key_spec(self.namespace_view(), keys@[j]@),
                        ),
                    },
            decreases keys@.len() - i,
        {
            let full = self.make_key(keys[i].as_str());
            out.push(store.get(full.as_str()));
            i += 1;
        }
        Ok(out)
    }

    /// Records that the owner no longer intends end-of-session cleanup.
    pub fn disable_auto_clear(&mut self)
        ensures
            !final(self).auto_clear_on(),
            final(self).namespace_view() == old(self).namespace_view(),
    {
        self.auto_clear = false;
    }

    /// Records that the owner intends end-of-session cleanup.
    pub fn enable_auto_clear(&mut self)
        ensures
            final(self).auto_clear_on(),
            final(self).namespace_view() == old(self).namespace_view(),
    {
        self.auto_clear = true;
    }
}

} // verus!
