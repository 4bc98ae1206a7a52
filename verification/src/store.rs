//! The namespaced key-value store underneath every memory view.
//!
//! Keys are plain strings; a namespace is a key prefix. The store's model is
//! a map from key character-sequences to value models, together with the
//! sequence of keys in insertion order.

use vstd::prelude::*;

use crate::text::is_prefix_of;
use crate::text::str_eq;
use crate::text::str_starts_with;
use crate::value::MemoryValue;
use crate::value::ValueModel;
use crate::value::fields_model;
use crate::value::value_model;

verus! {

/// Whether key `k` falls under namespace `ns` (`None` matches every key).
pub open spec fn ns_matches(ns: Option<Seq<char>>, k: Seq<char>) -> bool {
    match ns {
        None => true,
        Some(p) => is_prefix_of(p, k),
    }
}

/// The view of an optional namespace argument.
pub open spec fn ns_view(ns: Option<&str>) -> Option<Seq<char>> {
    match ns {
        None => None,
        Some(p) => Some(p@),
    }
}

/// The keys of an entry sequence, in order.
pub open spec fn entry_keys(s: Seq<(String, MemoryValue)>) -> Seq<Seq<char>> {
    Seq::new(s.len(), |i: int| s[i].0@)
}

/// The subsequence of `ks` that falls under `ns`, in order.
pub open spec fn keys_in_ns(ks: Seq<Seq<char>>, ns: Option<Seq<char>>) -> Seq<Seq<char>>
    decreases ks.len(),
{
    if ks.len() == 0 {
        Seq::empty()
    } else {
        let rest = keys_in_ns(ks.drop_last(), ns);
        if ns_matches(ns, ks.last()) {
            rest.push(ks.last())
        } else {
            rest
        }
    }
}

/// The subsequence of `ks` that does not fall under `ns`, in order.
pub open spec fn keys_out_ns(ks: Seq<Seq<char>>, ns: Option<Seq<char>>) -> Seq<Seq<char>>
    decreases ks.len(),
{
    if ks.len() == 0 {
        Seq::empty()
    } else {
        let rest = keys_out_ns(ks.drop_last(), ns);
        if ns_matches(ns, ks.last()) {
            rest
        } else {
            rest.push(ks.last())
        }
    }
}

/// The index of the first entry with key `k`, or `-1`.
pub open spec fn find_key(s: Seq<(String, MemoryValue)>, k: Seq<char>) -> int
    decreases s.len(),
{
    if s.len() == 0 {
        -1
    } else if s[0].0@ == k {
        0
    } else {
        let r = find_key(s.drop_first(), k);
        if r < 0 {
            -1
        } else {
            r + 1
        }
    }
}

/// The map modelled by an entry sequence (first occurrence wins).
pub open spec fn entries_map(s: Seq<(String, MemoryValue)>) -> Map<Seq<char>, ValueModel> {
    Map::new(
        |k: Seq<char>| find_key(s, k) >= 0,
        |k: Seq<char>| value_model(s[find_key(s, k)].1),
    )
}

/// The map `m` with every key under `ns` removed.
pub open spec fn clear_model(
    m: Map<Seq<char>, ValueModel>,
    ns: Option<Seq<char>>,
) -> Map<Seq<char>, ValueModel> {
    Map::new(|k: Seq<char>| m.contains_key(k) && !ns_matches(ns, k), |k: Seq<char>| m[k])
}

/// Keys outside the namespace are untouched between two states.
pub open spec fn frame_outside(
    m0: Map<Seq<char>, ValueModel>,
    m1: Map<Seq<char>, ValueModel>,
    ns: Seq<char>,
) -> bool {
    forall|k: Seq<char>|
        !is_prefix_of(ns, k) ==> (#[trigger] m1.contains_key(k) == m0.contains_key(k) && (
        m1.contains_key(k) ==> m1[k] == m0[k]))
}

/// The map `m` after inserting every pair of `ps` in order.
pub open spec fn insert_all(
    m: Map<Seq<char>, ValueModel>,
    ps: Seq<(Seq<char>, ValueModel)>,
) -> Map<Seq<char>, ValueModel>
    decreases ps.len(),
{
    if ps.len() == 0 {
        m
    } else {
        insert_all(m.insert(ps[0].0, ps[0].1), ps.drop_first())
    }
}

pub proof fn lemma_find_key(s: Seq<(String, MemoryValue)>, k: Seq<char>)
    ensures
        find_key(s, k) >= 0 ==> find_key(s, k) < s.len() && s[find_key(s, k)].0@ == k,
        find_key(s, k) >= 0 ==> forall|j: int| 0 <= j < find_key(s, k) ==> s[j].0@ != k,
        find_key(s, k) < 0 ==> forall|j: int| 0 <= j < s.len() ==> s[j].0@ != k,
    decreases s.len(),
{
    if s.len() > 0 && s[0].0@ != k {
        let t = s.drop_first();
        lemma_find_key(t, k);
        let f = find_key(s, k);
        let ft = find_key(t, k);
        if ft >= 0 {
            assert(t[ft] == s[ft + 1]);
            assert forall|j: int| 0 <= j < f implies s[j].0@ != k by {
                if j > 0 {
                    assert(t[j - 1] == s[j]);
                }
            }
        } else {
            assert forall|j: int| 0 <= j < s.len() implies s[j].0@ != k by {
                if j > 0 {
                    assert(t[j - 1] == s[j]);
                }
            }
        }
    }
}

/// Pairwise-distinct keys in an entry sequence.
pub open spec fn entries_distinct(s: Seq<(String, MemoryValue)>) -> bool {
    forall|i: int, j: int| 0 <= i < j < s.len() ==> s[i].0@ != s[j].0@
}

pub proof fn lemma_entries_map(s: Seq<(String, MemoryValue)>)
    requires
        entries_distinct(s),
    ensures
        forall|k: Seq<char>|
            #[trigger] entries_map(s).contains_key(k) == entry_keys(s).contains(k),
        forall|i: int|
            0 <= i < s.len() ==> entries_map(s).contains_key(#[trigger] s[i].0@)
                && entries_map(s)[s[i].0@] == value_model(s[i].1),
{
    assert forall|k: Seq<char>|
        #[trigger] entries_map(s).contains_key(k) == entry_keys(s).contains(k) by {
        lemma_find_key(s, k);
        if entries_map(s).contains_key(k) {
            let f = find_key(s, k);
            assert(entry_keys(s)[f] == k);
        }
        if entry_keys(s).contains(k) {
            let i = choose|i: int| 0 <= i < entry_keys(s).len() && entry_keys(s)[i] == k;
            assert(s[i].0@ == k);
        }
    }
    assert forall|i: int| 0 <= i < s.len() implies entries_map(s).contains_key(
        #[trigger] s[i].0@,
    ) && entries_map(s)[s[i].0@] == value_model(s[i].1) by {
        lemma_find_key(s, s[i].0@);
        let f = find_key(s, s[i].0@);
        if f < 0 {
            assert(s[i].0@ != s[i].0@);
        }
        if f != i {
            assert(s[f].0@ == s[i].0@);
        }
    }
}

/// The namespaced key-value store: the collaborator contract of the memory
/// layer, realized in memory and verified.
pub struct MemoryStore {
    entries: Vec<(String, MemoryValue)>,
}

impl View for MemoryStore {
    type V = Map<Seq<char>, ValueModel>;

    closed spec fn view(&self) -> Map<Seq<char>, ValueModel> {
        entries_map(self.entries@)
    }
}

impl MemoryStore {
    #[verifier::type_invariant]
    spec fn inv(self) -> bool {
        entries_distinct(self.entries@)
    }

    /// The stored keys, in insertion order.
    pub closed spec fn key_seq(self) -> Seq<Seq<char>> {
        entry_keys(self.entries@)
    }

    /// The key sequence and the map view describe the same population.
    pub open spec fn coherent(self) -> bool {
        self.key_seq().no_duplicates() && forall|k: Seq<char>|
            #[trigger] self@.contains_key(k) == self.key_seq().contains(k)
    }

    proof fn lemma_coherent(self)
        requires
            self.inv(),
        ensures
            self.coherent(),
    {
        lemma_entries_map(self.entries@);
        assert forall|i: int, j: int|
            0 <= i < j < self.key_seq().len() implies self.key_seq()[i] != self.key_seq()[j] by {
            assert(self.entries@[i].0@ != self.entries@[j].0@);
        }
    }

    /// An empty store.
    pub fn new() -> (r: MemoryStore)
        ensures
            r@ == Map::<Seq<char>, ValueModel>::empty(),
            r.key_seq() == Seq::<Seq<char>>::empty(),
            r.coherent(),
    {
        let r = MemoryStore { entries: Vec::new() };
        proof {
            r.lemma_coherent();
            assert(r@ =~= Map::<Seq<char>, ValueModel>::empty());
        }
        r
    }

    fn find_index(&self, key: &str) -> (r: Option<usize>)
        ensures
            match r {
                Some(i) => i < self.entries@.len() && self.entries@[i as int].0@ == key@
                    && find_key(self.entries@, key@) == i as int,
                None => find_key(self.entries@, key@) < 0,
            },
    {
        let mut i: usize = 0;
        while i < self.entries.len()
            invariant
                i <= self.entries@.len(),
                forall|j: int| 0 <= j < i ==> self.entries@[j].0@ != key@,
            decreases self.entries@.len() - i,
        {
            if str_eq(self.entries[i].0.as_str(), key) {
                proof {
                    lemma_find_key(self.entries@, key@);
                    let f = find_key(self.entries@, key@);
                    if f < 0 {
                        assert(self.entries@[i as int].0@ != key@);
                    }
                    if f < i as int {
                        assert(self.entries@[f].0@ != key@);
                    }
                    if f > i as int {
                        assert(self.entries@[i as int].0@ != key@);
                    }
                }
                return Some(i);
            }
            i += 1;
        }
        proof {
            lemma_find_key(self.entries@, key@);
            let f = find_key(self.entries@, key@);
            if f >= 0 {
                assert(self.entries@[f].0@ != key@);
            }
        }
        None
    }

    /// The value stored under `key`, if any.
    pub fn get(&self, key: &str) -> (r: Option<&MemoryValue>)
        ensures
            match r {
                Some(v) => self@.contains_key(key@) && v@ == self@[key@],
                None => !self@.contains_key(key@),
            },
            self.coherent(),
    {
        proof {
            use_type_invariant(&*self);
            self.lemma_coherent();
        }
        match self.find_index(key) {
            Some(i) => Some(&self.entries[i].1),
            None => None,
        }
    }

    /// Whether a value is stored under `key`.
    pub fn contains(&self, key: &str) -> (r: bool)
        ensures
            r == self@.contains_key(key@),
            self.coherent(),
    {
        match self.get(key) {
            Some(_) => true,
            None => false,
        }
    }

    /// Stores `value` under `key`, replacing any previous value.
    pub fn set(&mut self, key: String, value: MemoryValue)
        ensures
            final(self)@ == old(self)@.insert(key@, value@),
            final(self).key_seq() == if old(self)@.contains_key(key@) {
                old(self).key_seq()
            } else {
                old(self).key_seq().push(key@)
            },
            final(self).coherent(),
            old(self).coherent(),
    {
        proof {
            use_type_invariant(&*self);
            self.lemma_coherent();
            lemma_entries_map(self.entries@);
        }
        let ghost s0 = self.entries@;
        match self.find_index(key.as_str()) {
            Some(i) => {
                let mut entries = Vec::new();
                core::mem::swap(&mut entries, &mut self.entries);
                entries.remove(i);
                entries.insert(i, (key, value));
                proof {
                    assert(entries@ =~= s0.update(i as int, (key, value)));
                    assert(entries_distinct(entries@));
                }
                core::mem::swap(&mut entries, &mut self.entries);
                proof {
                    lemma_entries_map(self.entries@);
                    assert(self.key_seq() =~= old(self).key_seq());
                    assert forall|k: Seq<char>|
                        #[trigger] self@.contains_key(k) == old(self)@.insert(
                            key@,
                            value@,
                        ).contains_key(k) && (self@.contains_key(k) ==> self@[k] == old(self)@.insert(
                        key@,
                        value@,
                    )[k]) by {
                        if k == key@ {
                            assert(self.entries@[i as int].0@ == k);
                        } else {
                            if entry_keys(self.entries@).contains(k) {
                                let j = choose|j: int|
                                    0 <= j < self.entries@.len() && entry_keys(self.entries@)[j]
                                        == k;
                                assert(s0[j].0@ == k);
                                assert(entry_keys(s0)[j] == k);
                                assert(self@[k] == value_model(self.entries@[j].1));
                                assert(old(self)@[k] == value_model(s0[j].1));
                            }
                            if entry_keys(s0).contains(k) {
                                let j = choose|j: int|
                                    0 <= j < s0.len() && entry_keys(s0)[j] == k;
                                assert(self.entries@[j].0@ == k);
                                assert(entry_keys(self.entries@)[j] == k);
                            }
                        }
                    }
                    assert(self@ =~= old(self)@.insert(key@, value@));
                    self.lemma_coherent();
                }
            },
            None => {
                let ghost kv = key@;
                let mut entries = Vec::new();
                core::mem::swap(&mut entries, &mut self.entries);
                entries.push((key, value));
                proof {
                    lemma_find_key(s0, kv);
                    assert forall|i: int, j: int|
                        0 <= i < j < entries@.len() implies entries@[i].0@ != entries@[j].0@ by {
                        if j == entries@.len() - 1 {
                            assert(entries@[i] == s0[i]);
                        } else {
                            assert(entries@[i] == s0[i]);
                            assert(entries@[j] == s0[j]);
                        }
                    }
                }
                core::mem::swap(&mut entries, &mut self.entries);
                proof {
                    lemma_entries_map(self.entries@);
                    assert(self.key_seq() =~= old(self).key_seq().push(kv));
                    assert forall|k: Seq<char>|
                        #[trigger] self@.contains_key(k) == old(self)@.insert(
                            kv,
                            value@,
                        ).contains_key(k) && (self@.contains_key(k) ==> self@[k] == old(self)@.insert(
                        kv,
                        value@,
                    )[k]) by {
                        let n = s0.len() as int;
                        if k == kv {
                            assert(self.entries@[n].0@ == k);
                        } else {
                            if entry_keys(self.entries@).contains(k) {
                                let j = choose|j: int|
                                    0 <= j < self.entries@.len() && entry_keys(self.entries@)[j]
                                        == k;
                                assert(j < n);
                                assert(entry_keys(s0)[j] == k);
                                assert(self@[k] == value_model(self.entries@[j].1));
                            }
                            if entry_keys(s0).contains(k) {
                                let j = choose|j: int| 0 <= j < s0.len() && entry_keys(s0)[j] == k;
                                assert(entry_keys(self.entries@)[j] == k);
                                assert(self@[k] == value_model(self.entries@[j].1));
                            }
                        }
                    }
                    assert(self@ =~= old(self)@.insert(kv, value@));
                    self.lemma_coherent();
                }
            },
        }
    }

    /// Removes `key`; reports whether it was present.
    pub fn delete(&mut self, key: &str) -> (r: bool)
        ensures
            final(self)@ == old(self)@.remove(key@),
            r == old(self)@.contains_key(key@),
            r ==> final(self).key_seq() == old(self).key_seq().remove_value(key@),
            !r ==> final(self).key_seq() == old(self).key_seq(),
            final(self).coherent(),
            old(self).coherent(),
    {
        proof {
            use_type_invariant(&*self);
            self.lemma_coherent();
            lemma_entries_map(self.entries@);
        }
        let ghost s0 = self.entries@;
        match self.find_index(key) {
            Some(i) => {
                let mut entries = Vec::new();
                core::mem::swap(&mut entries, &mut self.entries);
                entries.remove(i);
                proof {
                    assert(entries@ =~= s0.remove(i as int));
                    assert forall|a: int, b: int|
                        0 <= a < b < entries@.len() implies entries@[a].0@ != entries@[b].0@ by {
                        let sa: int = if a < i as int { a } else { a + 1 };
                        let sb: int = if b < i as int { b } else { b + 1 };
                        assert(entries@[a] == s0[sa]);
                        assert(entries@[b] == s0[sb]);
                    }
                }
                core::mem::swap(&mut entries, &mut self.entries);
                proof {
                    lemma_entries_map(self.entries@);
                    assert forall|k: Seq<char>|
                        #[trigger] self@.contains_key(k) == old(self)@.remove(key@).contains_key(k)
                            && (self@.contains_key(k) ==> self@[k] == old(self)@.remove(key@)[k]) by {
                        if k != key@ {
                            if entry_keys(self.entries@).contains(k) {
                                let j = choose|j: int|
                                    0 <= j < self.entries@.len() && entry_keys(self.entries@)[j]
                                        == k;
                                let sj: int = if j < i as int { j } else { j + 1 };
                                assert(self.entries@[j] == s0[sj]);
                                assert(entry_keys(s0)[sj] == k);
                                assert(self@[k] == value_model(self.entries@[j].1));
                                assert(old(self)@[k] == value_model(s0[sj].1));
                            }
                            if entry_keys(s0).contains(k) {
                                let j = choose|j: int| 0 <= j < s0.len() && entry_keys(s0)[j] == k;
                                assert(j != i as int);
                                let tj: int = if j < i as int { j } else { j - 1 };
                                assert(self.entries@[tj] == s0[j]);
                                assert(entry_keys(self.entries@)[tj] == k);
                            }
                        } else {
                            if entry_keys(self.entries@).contains(k) {
                                let j = choose|j: int|
                                    0 <= j < self.entries@.len() && entry_keys(self.entries@)[j]
                                        == k;
                                let sj: int = if j < i as int { j } else { j + 1 };
                                assert(s0[sj].0@ == k && sj != i as int);
                            }
                        }
                    }
                    assert(self@ =~= old(self)@.remove(key@));
                    assert(self.key_seq() =~= entry_keys(s0).remove(i as int));
                    assert(entry_keys(s0).index_of_first(key@) == Some(i as int)) by {
                        assert(entry_keys(s0)[i as int] == key@);
                        let fst = entry_keys(s0).index_of_first(key@);
                        entry_keys(s0).index_of_first_ensures(key@);
                        match fst {
                            Some(f) => {
                                if f != i as int {
                                    assert(entry_keys(s0)[f] == key@);
                                    assert(s0[f].0@ == key@);
                                }
                            },
                            None => {
                                assert(entry_keys(s0).contains(key@));
                            },
                        }
                    }
                    self.lemma_coherent();
                }
                true
            },
            None => {
                proof {
                    lemma_find_key(s0, key@);
                    if old(self)@.contains_key(key@) {
                        assert(s0[find_key(s0, key@)].0@ == key@);
                    }
                    assert(self@ =~= old(self)@.remove(key@));
                }
                false
            },
        }
    }

    /// How many stored keys fall under `ns`.
    pub fn count(&self, ns: Option<&str>) -> (r: usize)
        ensures
            r == keys_in_ns(self.key_seq(), ns_view(ns)).len(),
            self.coherent(),
    {
        proof {
            use_type_invariant(&*self);
            self.lemma_coherent();
        }
        let mut i: usize = 0;
        let mut c: usize = 0;
        while i < self.entries.len()
            invariant
                i <= self.entries@.len(),
                c <= i,
                c == keys_in_ns(entry_keys(self.entries@.subrange(0, i as int)), ns_view(ns)).len(),
            decreases self.entries@.len() - i,
        {
            let ghost prefix = entry_keys(self.entries@.subrange(0, i as int));
            let ghost prefix1 = entry_keys(self.entries@.subrange(0, i as int + 1));
            proof {
                assert(prefix1.drop_last() =~= prefix);
                assert(prefix1.last() == self.entries@[i as int].0@);
            }
            let matched = match ns {
                None => true,
                Some(p) => str_starts_with(self.entries[i].0.as_str(), p),
            };
            if matched {
                c += 1;
            }
            i += 1;
        }
        proof {
            assert(self.entries@.subrange(0, self.entries@.len() as int) =~= self.entries@);
        }
        c
    }

    /// The stored keys under `ns`, in insertion order.
    pub fn keys(&self, ns: Option<&str>) -> (r: Vec<String>)
        ensures
            r@.len() == keys_in_ns(self.key_seq(), ns_view(ns)).len(),
            forall|i: int|
                0 <= i < r@.len() ==> r@[i]@ == keys_in_ns(self.key_seq(), ns_view(ns))[i],
            self.coherent(),
    {
        proof {
            use_type_invariant(&*self);
            self.lemma_coherent();
        }
        let mut i: usize = 0;
        let mut out: Vec<String> = Vec::new();
        while i < self.entries.len()
            invariant
                i <= self.entries@.len(),
                out@.len() == keys_in_ns(
                    entry_keys(self.entries@.subrange(0, i as int)),
                    ns_view(ns),
                ).len(),
                forall|j: int|
                    0 <= j < out@.len() ==> out@[j]@ == keys_in_ns(
                        entry_keys(self.entries@.subrange(0, i as int)),
                        ns_view(ns),
                    )[j],
            decreases self.entries@.len() - i,
        {
            let ghost prefix = entry_keys(self.entries@.subrange(0, i as int));
            let ghost prefix1 = entry_keys(self.entries@.subrange(0, i as int + 1));
            proof {
                assert(prefix1.drop_last() =~= prefix);
                assert(prefix1.last() == self.entries@[i as int].0@);
            }
            let matched = match ns {
                None => true,
                Some(p) => str_starts_with(self.entries[i].0.as_str(), p),
            };
            if matched {
                out.push(self.entries[i].0.clone());
            }
            i += 1;
        }
        proof {
            assert(self.entries@.subrange(0, self.entries@.len() as int) =~= self.entries@);
        }
        out
    }

    /// Removes every key under `ns`. Idempotent: a second `clear` of the
    /// same namespace finds nothing left to remove.
    pub fn clear(&mut self, ns: Option<&str>)
        ensures
            final(self)@ == clear_model(old(self)@, ns_view(ns)),
            final(self).key_seq() == keys_out_ns(old(self).key_seq(), ns_view(ns)),
            keys_in_ns(final(self).key_seq(), ns_view(ns)) == Seq::<Seq<char>>::empty(),
            final(self).coherent(),
            old(self).coherent(),
    {
        proof {
            use_type_invariant(&*self);
            self.lemma_coherent();
        }
        let ghost s0 = self.entries@;
        let mut rest = Vec::new();
        core::mem::swap(&mut rest, &mut self.entries);
        let total = rest.len();
        let mut kept: Vec<(String, MemoryValue)> = Vec::new();
        let mut i: usize = 0;
        while rest.len() > 0
            invariant
                i <= total,
                total == s0.len(),
                rest@ =~= s0.subrange(i as int, total as int),
                kept@ == entries_keep(s0.subrange(0, i as int), ns_view(ns)),
            decreases rest@.len(),
        {
            let ghost pre = s0.subrange(0, i as int);
            let ghost pre1 = s0.subrange(0, i as int + 1);
            proof {
                assert(pre1.drop_last() =~= pre);
                assert(pre1.last() == s0[i as int]);
            }
            let e = rest.remove(0);
            let matched = match ns {
                None => true,
                Some(p) => str_starts_with(e.0.as_str(), p),
            };
            proof {
                assert(e == s0[i as int]);
            }
            if !matched {
                kept.push(e);
            }
            i += 1;
            proof {
                assert(rest@ =~= s0.subrange(i as int, total as int));
            }
        }
        proof {
            assert(s0.subrange(0, total as int) =~= s0);
            lemma_entries_keep(s0, ns_view(ns));
        }
        core::mem::swap(&mut kept, &mut self.entries);
        proof {
            lemma_entries_map(self.entries@);
            lemma_entries_map(s0);
            assert(self@ =~= clear_model(old(self)@, ns_view(ns)));
            lemma_keys_in_ns_of_out(old(self).key_seq(), ns_view(ns));
            self.lemma_coherent();
        }
    }

    /// Stores every pair of `pairs`, in order.
    pub fn set_all(&mut self, pairs: Vec<(String, MemoryValue)>)
        ensures
            final(self)@ == insert_all(old(self)@, fields_model(pairs@)),
            final(self).coherent(),
    {
        let mut pairs = pairs;
        let ghost all = pairs@;
        let total = pairs.len();
        proof {
            use_type_invariant(&*self);
            self.lemma_coherent();
            crate::value::lemma_fields_model(all);
            assert(all.subrange(0, all.len() as int) =~= all);
        }
        let mut i: usize = 0;
        while pairs.len() > 0
            invariant
                i <= total,
                total == all.len(),
                pairs@ =~= all.subrange(i as int, all.len() as int),
                insert_all(old(self)@, fields_model(all)) == insert_all(
                    self@,
                    fields_model(all.subrange(i as int, all.len() as int)),
                ),
                self.coherent(),
            decreases pairs@.len(),
        {
            let ghost before = self@;
            let ghost rest_models = fields_model(all.subrange(i as int, all.len() as int));
            proof {
                crate::value::lemma_fields_model(all.subrange(i as int, all.len() as int));
                crate::value::lemma_fields_model(all.subrange(i as int + 1, all.len() as int));
            }
            let p = pairs.remove(0);
            self.set(p.0, p.1);
            proof {
                assert(fields_model(all.subrange(i as int + 1, all.len() as int))
                    =~= rest_models.drop_first());
                assert(insert_all(before, rest_models) == insert_all(
                    before.insert(rest_models[0].0, rest_models[0].1),
                    rest_models.drop_first(),
                ));
                assert(self@ == before.insert(rest_models[0].0, rest_models[0].1));
            }
            i += 1;
        }
        proof {
            assert(all.subrange(i as int, all.len() as int) =~= Seq::<(String, MemoryValue)>::empty());
        }
    }

    /// Looks up every key of `keys`, in order.
    pub fn get_all<'a>(&'a self, keys: &Vec<String>) -> (r: Vec<Option<&'a MemoryValue>>)
        ensures
            r@.len() == keys@.len(),
            forall|i: int|
                0 <= i < keys@.len() ==> match #[trigger] r@[i] {
                    Some(v) => self@.contains_key(keys@[i]@) && v@ == self@[keys@[i]@],
                    None => !self@.contains_key(keys@[i]@),
                },
            self.coherent(),
    {
        proof {
            use_type_invariant(&*self);
            self.lemma_coherent();
        }
        let mut out: Vec<Option<&MemoryValue>> = Vec::new();
        let mut i: usize = 0;
        while i < keys.len()
            invariant
                i <= keys@.len(),
                out@.len() == i,
                forall|j: int|
                    0 <= j < i ==> match #[trigger] out@[j] {
                        Some(v) => self@.contains_key(keys@[j]@) && v@ == self@[keys@[j]@],
                        None => !self@.contains_key(keys@[j]@),
                    },
            decreases keys@.len() - i,
        {
            out.push(self.get(keys[i].as_str()));
            i += 1;
        }
        out
    }

    /// Removes every key of `keys`; reports how many were present.
    pub fn delete_all(&mut self, keys: &Vec<String>) -> (r: usize)
        ensures
            final(self)@ == old(self)@.remove_keys(
                Set::new(|k: Seq<char>| exists|i: int| 0 <= i < keys@.len() && keys@[i]@ == k),
            ),
            final(self).coherent(),
    {
        proof {
            use_type_invariant(&*self);
            self.lemma_coherent();
        }
        let ghost key_set = Set::new(
            |k: Seq<char>| exists|i: int| 0 <= i < keys@.len() && keys@[i]@ == k,
        );
        let mut deleted: usize = 0;
        let mut i: usize = 0;
        while i < keys.len()
            invariant
                i <= keys@.len(),
                deleted <= i,
                forall|k: Seq<char>|
                    #[trigger] self@.contains_key(k) ==> old(self)@.contains_key(k),
                forall|k: Seq<char>|
                    #[trigger] self@.contains_key(k) ==> self@[k] == old(self)@[k],
                forall|k: Seq<char>|
                    old(self)@.contains_key(k) && !self@.contains_key(k) ==> exists|j: int|
                        0 <= j < i && keys@[j]@ == k,
                forall|j: int| 0 <= j < i ==> !self@.contains_key(#[trigger] keys@[j]@),
                self.coherent(),
            decreases keys@.len() - i,
        {
            if self.delete(keys[i].as_str()) {
                deleted += 1;
            }
            i += 1;
        }
        proof {
            assert(self@ =~= old(self)@.remove_keys(key_set));
        }
        deleted
    }
}

/// The entries whose keys do not fall under `ns`, in order.
pub open spec fn entries_keep(
    s: Seq<(String, MemoryValue)>,
    ns: Option<Seq<char>>,
) -> Seq<(String, MemoryValue)>
    decreases s.len(),
{
    if s.len() == 0 {
        Seq::empty()
    } else {
        let rest = entries_keep(s.drop_last(), ns);
        if ns_matches(ns, s.last().0@) {
            rest
        } else {
            rest.push(s.last())
        }
    }
}

#[verifier::rlimit(60)]
proof fn lemma_entries_keep(s: Seq<(String, MemoryValue)>, ns: Option<Seq<char>>)
    requires
        entries_distinct(s),
    ensures
        entries_distinct(entries_keep(s, ns)),
        entry_keys(entries_keep(s, ns)) == keys_out_ns(entry_keys(s), ns),
        entries_map(entries_keep(s, ns)) == clear_model(entries_map(s), ns),
    decreases s.len(),
{
    let t = entries_keep(s, ns);
    if s.len() == 0 {
        assert(entry_keys(t) =~= keys_out_ns(entry_keys(s), ns));
        assert(entries_map(t) =~= clear_model(entries_map(s), ns));
    } else {
        let s1 = s.drop_last();
        let e = s.last();
        lemma_entries_keep(s1, ns);
        let t1 = entries_keep(s1, ns);
        let m_s = entries_map(s);
        let m_s1 = entries_map(s1);
        let m_t1 = entries_map(t1);
        lemma_entries_map(s);
        lemma_entries_map(s1);
        lemma_entries_map(t1);
        assert(entry_keys(s).drop_last() =~= entry_keys(s1));
        assert(entry_keys(s).last() == e.0@);
        assert(s[s.len() - 1] == e);
        // the last key of s is fresh with respect to s1
        assert forall|j: int| 0 <= j < s1.len() implies s1[j].0@ != e.0@ by {
            assert(s[j].0@ != s[s.len() - 1].0@);
        }
        assert(!entry_keys(s1).contains(e.0@)) by {
            if entry_keys(s1).contains(e.0@) {
                let j = choose|j: int| 0 <= j < s1.len() && entry_keys(s1)[j] == e.0@;
                assert(s1[j].0@ == e.0@);
            }
        }
        assert(!m_s1.contains_key(e.0@));
        assert(!m_t1.contains_key(e.0@));
        assert(!entry_keys(t1).contains(e.0@));
        // how the maps of s and s1 relate on every key other than e's
        assert forall|k: Seq<char>| k != e.0@ implies #[trigger] m_s.contains_key(k)
            == m_s1.contains_key(k) && (m_s.contains_key(k) ==> m_s[k] == m_s1[k]) by {
            if m_s.contains_key(k) {
                let j = choose|j: int| 0 <= j < s.len() && entry_keys(s)[j] == k;
                assert(s[j].0@ == k);
                assert(j != s.len() - 1);
                assert(s1[j] == s[j]);
                assert(m_s1.contains_key(s1[j].0@));
                assert(m_s1[k] == value_model(s1[j].1));
                assert(m_s[k] == value_model(s[j].1));
            }
            if m_s1.contains_key(k) {
                let j = choose|j: int| 0 <= j < s1.len() && entry_keys(s1)[j] == k;
                assert(s1[j].0@ == k);
                assert(s[j].0@ == k);
                assert(m_s.contains_key(s[j].0@));
            }
        }
        assert(m_s.contains_key(e.0@) && m_s[e.0@] == value_model(e.1));
        if ns_matches(ns, e.0@) {
            assert(t == t1);
            assert(entry_keys(t) =~= keys_out_ns(entry_keys(s), ns));
            assert forall|k: Seq<char>|
                #[trigger] entries_map(t).contains_key(k) == clear_model(m_s, ns).contains_key(k)
                    && (entries_map(t).contains_key(k) ==> entries_map(t)[k] == clear_model(
                    m_s,
                    ns,
                )[k]) by {
                if k != e.0@ {
                    assert(m_t1.contains_key(k) == (m_s1.contains_key(k) && !ns_matches(ns, k)));
                } else {
                    assert(!m_t1.contains_key(k));
                    assert(!clear_model(m_s, ns).contains_key(k));
                }
            }
            assert(entries_map(t) =~= clear_model(m_s, ns));
        } else {
            assert(t == t1.push(e));
            assert(entry_keys(t) =~= entry_keys(t1).push(e.0@));
            assert(entry_keys(t) =~= keys_out_ns(entry_keys(s), ns));
            assert forall|a: int, b: int| 0 <= a < b < t.len() implies t[a].0@ != t[b].0@ by {
                assert(t[a] == t1[a]);
                if b < t.len() - 1 {
                    assert(t[b] == t1[b]);
                } else {
                    assert(t[b] == e);
                    assert(entry_keys(t1)[a] == t1[a].0@);
                    assert(entry_keys(t1).contains(t1[a].0@));
                }
            }
            lemma_entries_map(t);
            let m_t = entries_map(t);
            // the maps of t and t1 relate exactly as those of s and s1
            assert(t[t.len() - 1] == e);
            assert(m_t.contains_key(e.0@) && m_t[e.0@] == value_model(e.1));
            assert forall|k: Seq<char>| k != e.0@ implies #[trigger] m_t.contains_key(k)
                == m_t1.contains_key(k) && (m_t.contains_key(k) ==> m_t[k] == m_t1[k]) by {
                if m_t.contains_key(k) {
                    let j = choose|j: int| 0 <= j < t.len() && entry_keys(t)[j] == k;
                    assert(t[j].0@ == k);
                    assert(j != t.len() - 1);
                    assert(t1[j] == t[j]);
                    assert(m_t1.contains_key(t1[j].0@));
                    assert(m_t1[k] == value_model(t1[j].1));
                    assert(m_t[k] == value_model(t[j].1));
                }
                if m_t1.contains_key(k) {
                    let j = choose|j: int| 0 <= j < t1.len() && entry_keys(t1)[j] == k;
                    assert(t1[j].0@ == k);
                    assert(t[j].0@ == k);
                    assert(m_t.contains_key(t[j].0@));
                }
            }
            assert forall|k: Seq<char>|
                #[trigger] m_t.contains_key(k) == clear_model(m_s, ns).contains_key(k) && (
                m_t.contains_key(k) ==> m_t[k] == clear_model(m_s, ns)[k]) by {
                if k == e.0@ {
                } else {
                    assert(m_t1.contains_key(k) == (m_s1.contains_key(k) && !ns_matches(ns, k)));
                }
            }
            assert(entries_map(t) =~= clear_model(m_s, ns));
        }
    }
}

/// Every key selected by `keys_in_ns` falls under the namespace and comes
/// from the original sequence.
pub proof fn lemma_keys_in_ns_elements(ks: Seq<Seq<char>>, ns: Option<Seq<char>>)
    ensures
        forall|i: int|
            0 <= i < keys_in_ns(ks, ns).len() ==> ns_matches(
                ns,
                #[trigger] keys_in_ns(ks, ns)[i],
            ) && ks.contains(keys_in_ns(ks, ns)[i]),
    decreases ks.len(),
{
    if ks.len() > 0 {
        lemma_keys_in_ns_elements(ks.drop_last(), ns);
        let prev = keys_in_ns(ks.drop_last(), ns);
        assert forall|i: int|
            0 <= i < keys_in_ns(ks, ns).len() implies ns_matches(
            ns,
            #[trigger] keys_in_ns(ks, ns)[i],
        ) && ks.contains(keys_in_ns(ks, ns)[i]) by {
            if i < prev.len() {
                assert(keys_in_ns(ks, ns)[i] == prev[i]);
                let j = choose|j: int|
                    0 <= j < ks.drop_last().len() && ks.drop_last()[j] == prev[i];
                assert(ks[j] == prev[i]);
            } else {
                assert(keys_in_ns(ks, ns)[i] == ks.last());
                assert(ks[ks.len() - 1] == ks.last());
            }
        }
    }
}

/// Removing index `i` removes one filtered key when it matches.
pub proof fn lemma_keys_in_ns_remove(ks: Seq<Seq<char>>, ns: Option<Seq<char>>, i: int)
    requires
        0 <= i < ks.len(),
    ensures
        keys_in_ns(ks.remove(i), ns).len() == keys_in_ns(ks, ns).len() - (if ns_matches(
            ns,
            ks[i],
        ) {
            1int
        } else {
            0int
        }),
    decreases ks.len(),
{
    if i == ks.len() - 1 {
        assert(ks.remove(i) =~= ks.drop_last());
    } else {
        let t = ks.drop_last();
        lemma_keys_in_ns_remove(t, ns, i);
        assert(ks.remove(i).drop_last() =~= t.remove(i));
        assert(ks.remove(i).last() == ks.last());
        assert(t[i] == ks[i]);
    }
}

/// Filtering keeps a duplicate-free sequence duplicate-free.
pub proof fn lemma_keys_in_ns_no_dup(ks: Seq<Seq<char>>, ns: Option<Seq<char>>)
    requires
        ks.no_duplicates(),
    ensures
        keys_in_ns(ks, ns).no_duplicates(),
    decreases ks.len(),
{
    if ks.len() > 0 {
        let t = ks.drop_last();
        assert(t.no_duplicates());
        lemma_keys_in_ns_no_dup(t, ns);
        lemma_keys_in_ns_elements(t, ns);
        if ns_matches(ns, ks.last()) {
            let prev = keys_in_ns(t, ns);
            assert forall|a: int, b: int|
                0 <= a < b < prev.push(ks.last()).len() implies prev.push(ks.last())[a]
                != prev.push(ks.last())[b] by {
                if b == prev.len() {
                    assert(prev.push(ks.last())[a] == prev[a]);
                    assert(t.contains(prev[a]));
                    let j = choose|j: int| 0 <= j < t.len() && t[j] == prev[a];
                    assert(ks[j] == t[j]);
                    assert(ks[ks.len() - 1] == ks.last());
                }
            }
        }
    }
}

/// Two namespaces that agree on every key of `ks` filter it identically.
pub proof fn lemma_keys_in_ns_congruent(
    ks: Seq<Seq<char>>,
    a: Option<Seq<char>>,
    b: Option<Seq<char>>,
)
    requires
        forall|i: int| 0 <= i < ks.len() ==> ns_matches(a, #[trigger] ks[i]) == ns_matches(b, ks[i]),
    ensures
        keys_in_ns(ks, a) == keys_in_ns(ks, b),
    decreases ks.len(),
{
    if ks.len() > 0 {
        let t = ks.drop_last();
        assert(forall|i: int| 0 <= i < t.len() ==> t[i] == ks[i]);
        lemma_keys_in_ns_congruent(t, a, b);
        assert(ks[ks.len() - 1] == ks.last());
    }
}

/// Every matching key of `ks` appears in the filtered sequence.
pub proof fn lemma_keys_in_ns_complete(ks: Seq<Seq<char>>, ns: Option<Seq<char>>, k: Seq<char>)
    requires
        ks.contains(k),
        ns_matches(ns, k),
    ensures
        keys_in_ns(ks, ns).contains(k),
    decreases ks.len(),
{
    if ks.len() > 0 {
        let t = ks.drop_last();
        if ks.last() == k {
            assert(keys_in_ns(ks, ns).last() == k);
        } else {
            let i = choose|i: int| 0 <= i < ks.len() && ks[i] == k;
            assert(t[i] == k);
            assert(t.contains(k));
            lemma_keys_in_ns_complete(t, ns, k);
            let prev = keys_in_ns(t, ns);
            let j = choose|j: int| 0 <= j < prev.len() && prev[j] == k;
            if ns_matches(ns, ks.last()) {
                assert(keys_in_ns(ks, ns)[j] == k);
            }
        }
    }
}

/// Nothing under `ns` survives a `keys_out_ns` pass.
pub proof fn lemma_keys_in_ns_of_out(ks: Seq<Seq<char>>, ns: Option<Seq<char>>)
    ensures
        keys_in_ns(keys_out_ns(ks, ns), ns) == Seq::<Seq<char>>::empty(),
    decreases ks.len(),
{
    if ks.len() > 0 {
        lemma_keys_in_ns_of_out(ks.drop_last(), ns);
        if !ns_matches(ns, ks.last()) {
            let prev = keys_out_ns(ks.drop_last(), ns);
            assert(keys_out_ns(ks, ns) == prev.push(ks.last()));
            assert(prev.push(ks.last()).drop_last() =~= prev);
        }
    }
}

/// Filtering a sequence extended by one element keeps the element exactly
/// when the predicate holds of it.
pub proof fn lemma_filter_push<A>(s: Seq<A>, x: A, pred: spec_fn(A) -> bool)
    ensures
        (s.push(x)).filter(pred) == if pred(x) {
            s.filter(pred).push(x)
        } else {
            s.filter(pred)
        },
{
    reveal(Seq::filter);
    assert(s.push(x).drop_last() =~= s);
    assert(s.push(x).last() == x);
}

/// Clearing a namespace twice is a no-op the second time: the cleared map is
/// a fixed point of `clear_model`.
pub proof fn lemma_clear_idempotent(m: Map<Seq<char>, ValueModel>, ns: Option<Seq<char>>)
    ensures
        clear_model(clear_model(m, ns), ns) == clear_model(m, ns),
{
    assert(clear_model(clear_model(m, ns), ns) =~= clear_model(m, ns));
}

/// After clearing a namespace, no key of that namespace remains: for every
/// map and namespace, the cleared map holds no key under the namespace.
pub proof fn lemma_clear_empties_namespace(
    m: Map<Seq<char>, ValueModel>,
    ns: Option<Seq<char>>,
    k: Seq<char>,
)
    requires
        ns_matches(ns, k),
    ensures
        !clear_model(m, ns).contains_key(k),
{
}

} // verus!
