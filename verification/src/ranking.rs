//! A verified selection sort over items tagged with two integer keys,
//! shared by the eviction and retrieval policies.

use vstd::prelude::*;
use vstd::multiset::Multiset;

verus! {

broadcast use vstd::seq_lib::group_to_multiset_ensures;

/// A tag with its primary and secondary sort key.
pub type Ranked = (usize, i64, i64);

/// Ascending lexicographic order on the two keys.
pub open spec fn key_le(a: Ranked, b: Ranked) -> bool {
    a.1 < b.1 || (a.1 == b.1 && a.2 <= b.2)
}

/// The sequence is sorted ascending by the two keys.
pub open spec fn sorted_by_keys(s: Seq<Ranked>) -> bool {
    forall|i: int, j: int| 0 <= i < j < s.len() ==> key_le(#[trigger] s[i], #[trigger] s[j])
}

fn key_lt_exec(a: Ranked, b: Ranked) -> (r: bool)
    ensures
        r == !key_le(b, a),
{
    a.1 < b.1 || (a.1 == b.1 && a.2 < b.2)
}

/// A permutation contains every element of the other sequence.
pub proof fn lemma_perm_contains(a: Seq<Ranked>, b: Seq<Ranked>, i: int)
    requires
        a.to_multiset() == b.to_multiset(),
        0 <= i < a.len(),
    ensures
        b.contains(a[i]),
{
    a.to_multiset_ensures();
    b.to_multiset_ensures();
    assert(a.contains(a[i]));
    assert(a.to_multiset().count(a[i]) > 0);
    assert(b.to_multiset().count(a[i]) > 0);
}

/// In a permutation of a sequence whose entries carry their own index as
/// tag, every entry is the original entry of its tag.
pub proof fn lemma_tagged_entry(items: Seq<Ranked>, sorted: Seq<Ranked>, a: int)
    requires
        sorted.to_multiset() == items.to_multiset(),
        items.len() <= usize::MAX,
        forall|t: int| 0 <= t < items.len() ==> (#[trigger] items[t]).0 == t as usize,
        0 <= a < sorted.len(),
    ensures
        0 <= (sorted[a].0 as int) < items.len(),
        sorted[a] == items[sorted[a].0 as int],
{
    lemma_perm_contains(sorted, items, a);
    let t = choose|t: int| 0 <= t < items.len() && items[t] == sorted[a];
    assert(items[t].0 == t as usize);
}

/// Sorts ascending by the two keys; the result is a permutation of the
/// input.
pub fn sort_by_keys(v: Vec<Ranked>) -> (r: Vec<Ranked>)
    ensures
        sorted_by_keys(r@),
        r@.to_multiset() == v@.to_multiset(),
        r@.len() == v@.len(),
{
    let ghost orig = v@;
    let mut input = v;
    let mut out: Vec<Ranked> = Vec::new();
    while input.len() > 0
        invariant
            out@.to_multiset().add(input@.to_multiset()) == orig.to_multiset(),
            out@.len() + input@.len() == orig.len(),
            sorted_by_keys(out@),
            forall|a: int, b: int|
                0 <= a < out@.len() && 0 <= b < input@.len() ==> key_le(
                    #[trigger] out@[a],
                    #[trigger] input@[b],
                ),
        decreases input@.len(),
    {
        // find the least remaining element
        let mut m: usize = 0;
        let mut b: usize = 1;
        while b < input.len()
            invariant
                m < input@.len(),
                b <= input@.len(),
                forall|c: int| 0 <= c < b ==> key_le(input@[m as int], #[trigger] input@[c]),
            decreases input@.len() - b,
        {
            if key_lt_exec(input[b], input[m]) {
                m = b;
            }
            b += 1;
        }
        let ghost before = input@;
        let x = input.remove(m);
        proof {
            assert(x == before[m as int]);
            assert(input@.to_multiset() =~= before.to_multiset().remove(x));
            assert(out@.push(x).to_multiset() =~= out@.to_multiset().insert(x));
            assert(out@.push(x).to_multiset().add(input@.to_multiset()) =~= orig.to_multiset());
            assert forall|a: int, bb: int|
                0 <= a < out@.len() + 1 && 0 <= bb < input@.len() implies key_le(
                #[trigger] out@.push(x)[a],
                #[trigger] input@[bb],
            ) by {
                let src: int = if bb < m as int {
                    bb
                } else {
                    bb + 1
                };
                assert(input@[bb] == before[src]);
                if a < out@.len() {
                    assert(out@.push(x)[a] == out@[a]);
                } else {
                    assert(out@.push(x)[a] == x);
                    assert(key_le(before[m as int], before[src]));
                }
            }
            assert forall|i: int, j: int|
                0 <= i < j < out@.push(x).len() implies key_le(
                #[trigger] out@.push(x)[i],
                #[trigger] out@.push(x)[j],
            ) by {
                if j < out@.len() {
                    assert(key_le(out@[i], out@[j]));
                } else {
                    assert(out@.push(x)[i] == out@[i]);
                    assert(out@.push(x)[j] == x);
                    assert(key_le(out@[i], before[m as int]));
                }
            }
        }
        out.push(x);
    }
    proof {
        assert(input@.to_multiset() =~= Multiset::<Ranked>::empty());
        assert(out@.to_multiset() =~= orig.to_multiset());
    }
    out
}

} // verus!
