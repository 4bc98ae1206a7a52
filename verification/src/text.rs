//! Verified text utilities: equality, prefix and substring tests on string
//! slices, and decimal rendering of counters used in key derivation.

use vstd::prelude::*;
use vstd::string::StrSliceExecFns;
use vstd::string::StringExecFns;

verus! {

/// `p` is a prefix of `s`.
pub open spec fn is_prefix_of(p: Seq<char>, s: Seq<char>) -> bool {
    p.len() <= s.len() && s.subrange(0, p.len() as int) == p
}

/// `n` occurs as a contiguous run inside `s`.
pub open spec fn contains_seq(s: Seq<char>, n: Seq<char>) -> bool {
    exists|i: int|
        0 <= i && i + n.len() <= s.len() && #[trigger] s.subrange(i, i + n.len() as int) == n
}

/// Prefixes compose: a prefix of a prefix is a prefix.
pub proof fn lemma_prefix_trans(a: Seq<char>, b: Seq<char>, c: Seq<char>)
    requires
        is_prefix_of(a, b),
        is_prefix_of(b, c),
    ensures
        is_prefix_of(a, c),
{
    assert(c.subrange(0, a.len() as int) =~= b.subrange(0, a.len() as int));
    assert(b.subrange(0, a.len() as int) =~= b.subrange(0, b.len() as int).subrange(
        0,
        a.len() as int,
    ));
}

/// Character-wise equality of two string slices.
pub fn str_eq(a: &str, b: &str) -> (r: bool)
    ensures
        r == (a@ == b@),
{
    let alen = a.unicode_len();
    let blen = b.unicode_len();
    if alen != blen {
        proof {
            assert(a@ != b@) by {
                assert(a@.len() != b@.len());
            }
        }
        return false;
    }
    let mut i: usize = 0;
    while i < alen
        invariant
            alen == a@.len(),
            blen == b@.len(),
            alen == blen,
            i <= alen,
            forall|j: int| 0 <= j < i ==> a@[j] == b@[j],
        decreases alen - i,
    {
        if a.get_char(i) != b.get_char(i) {
            return false;
        }
        i += 1;
    }
    proof {
        assert(a@ =~= b@);
    }
    true
}

/// Whether `s` starts with `p`, character-wise.
pub fn str_starts_with(s: &str, p: &str) -> (r: bool)
    ensures
        r == is_prefix_of(p@, s@),
{
    let slen = s.unicode_len();
    let plen = p.unicode_len();
    if plen > slen {
        return false;
    }
    let mut i: usize = 0;
    while i < plen
        invariant
            slen == s@.len(),
            plen == p@.len(),
            plen <= slen,
            i <= plen,
            forall|j: int| 0 <= j < i ==> s@[j] == p@[j],
        decreases plen - i,
    {
        if s.get_char(i) != p.get_char(i) {
            proof {
                assert(s@.subrange(0, p@.len() as int)[i as int] != p@[i as int]);
            }
            return false;
        }
        i += 1;
    }
    proof {
        assert(s@.subrange(0, p@.len() as int) =~= p@);
    }
    true
}

fn match_at(s: &str, n: &str, start: usize) -> (r: bool)
    requires
        start + n@.len() <= s@.len(),
    ensures
        r == (s@.subrange(start as int, start + n@.len() as int) == n@),
{
    let slen = s.unicode_len();
    let nlen = n.unicode_len();
    let mut i: usize = 0;
    while i < nlen
        invariant
            slen == s@.len(),
            nlen == n@.len(),
            start + nlen <= s@.len(),
            i <= nlen,
            forall|j: int| 0 <= j < i ==> s@[start + j] == n@[j],
        decreases nlen - i,
    {
        if s.get_char(start + i) != n.get_char(i) {
            proof {
                assert(s@.subrange(start as int, start + n@.len() as int)[i as int]
                    != n@[i as int]);
            }
            return false;
        }
        i += 1;
    }
    proof {
        assert(s@.subrange(start as int, start + n@.len() as int) =~= n@);
    }
    true
}

/// The remainder of `s` after a prefix known to be present.
pub fn strip_known_prefix(s: &str, p: &str) -> (r: String)
    requires
        is_prefix_of(p@, s@),
    ensures
        r@ == s@.subrange(p@.len() as int, s@.len() as int),
{
    let rest = s.substring_char(p.unicode_len(), s.unicode_len());
    String::from_str(rest)
}

/// Whether `n` occurs as a contiguous run inside `s`.
pub fn str_contains(s: &str, n: &str) -> (r: bool)
    ensures
        r == contains_seq(s@, n@),
{
    let slen = s.unicode_len();
    let nlen = n.unicode_len();
    if nlen > slen {
        return false;
    }
    if nlen == 0 {
        proof {
            assert(s@.subrange(0, 0 + n@.len() as int) =~= n@);
        }
        return true;
    }
    let mut start: usize = 0;
    while start <= slen - nlen
        invariant
            slen == s@.len(),
            nlen == n@.len(),
            1 <= nlen <= slen,
            start <= slen - nlen + 1,
            forall|k: int|
                0 <= k < start ==> #[trigger] s@.subrange(k, k + n@.len() as int) != n@,
        decreases slen - start,
    {
        if match_at(s, n, start) {
            return true;
        }
        start += 1;
    }
    proof {
        assert forall|i: int| 0 <= i && i + n@.len() <= s@.len() implies #[trigger] s@.subrange(
            i,
            i + n@.len() as int,
        ) != n@ by {
            assert(i < start);
        }
    }
    false
}

/// Concatenation of two string slices into an owned string.
pub fn str_join(a: &str, b: &str) -> (r: String)
    ensures
        r@ == a@ + b@,
{
    let mut s = String::from_str(a);
    s.append(b);
    s
}

/// The character for a single decimal digit.
pub open spec fn digit_char(d: nat) -> char {
    if d == 0 {
        '0'
    } else if d == 1 {
        '1'
    } else if d == 2 {
        '2'
    } else if d == 3 {
        '3'
    } else if d == 4 {
        '4'
    } else if d == 5 {
        '5'
    } else if d == 6 {
        '6'
    } else if d == 7 {
        '7'
    } else if d == 8 {
        '8'
    } else {
        '9'
    }
}

/// Decimal rendering of a natural number, most significant digit first.
pub open spec fn dec_str(n: nat) -> Seq<char>
    decreases n,
{
    if n < 10 {
        seq![digit_char(n)]
    } else {
        dec_str(n / 10) + seq![digit_char(n % 10)]
    }
}

pub proof fn lemma_dec_str_len(n: nat)
    ensures
        dec_str(n).len() >= 1,
        n >= 10 ==> dec_str(n).len() >= 2,
    decreases n,
{
    if n >= 10 {
        lemma_dec_str_len(n / 10);
    }
}

/// Distinct numbers render to distinct decimal strings.
pub proof fn lemma_dec_str_injective(a: nat, b: nat)
    requires
        dec_str(a) == dec_str(b),
    ensures
        a == b,
    decreases a + b,
{
    lemma_dec_str_len(a);
    lemma_dec_str_len(b);
    if a < 10 && b < 10 {
        assert(dec_str(a)[0] == digit_char(a));
        assert(dec_str(b)[0] == digit_char(b));
    } else if a < 10 {
        assert(dec_str(a).len() == 1);
        assert(dec_str(b).len() >= 2);
    } else if b < 10 {
        assert(dec_str(b).len() == 1);
        assert(dec_str(a).len() >= 2);
    } else {
        let la = dec_str(a).len();
        assert(dec_str(a).last() == digit_char(a % 10));
        assert(dec_str(b).last() == digit_char(b % 10));
        assert(a % 10 == b % 10);
        assert(dec_str(a).drop_last() =~= dec_str(a / 10));
        assert(dec_str(b).drop_last() =~= dec_str(b / 10));
        lemma_dec_str_injective(a / 10, b / 10);
        assert(a == (a / 10) * 10 + a % 10) by (nonlinear_arith);
        assert(b == (b / 10) * 10 + b % 10) by (nonlinear_arith);
    }
}

fn digit_slice(d: u64) -> (r: &'static str)
    requires
        d < 10,
    ensures
        r@ == seq![digit_char(d as nat)],
{
    proof {
        reveal_strlit("0");
        reveal_strlit("1");
        reveal_strlit("2");
        reveal_strlit("3");
        reveal_strlit("4");
        reveal_strlit("5");
        reveal_strlit("6");
        reveal_strlit("7");
        reveal_strlit("8");
        reveal_strlit("9");
    }
    match d {
        0 => "0",
        1 => "1",
        2 => "2",
        3 => "3",
        4 => "4",
        5 => "5",
        6 => "6",
        7 => "7",
        8 => "8",
        _ => "9",
    }
}

/// Renders `n` in decimal.
pub fn u64_to_dec(n: u64) -> (r: String)
    ensures
        r@ == dec_str(n as nat),
    decreases n,
{
    if n < 10 {
        String::from_str(digit_slice(n))
    } else {
        let mut s = u64_to_dec(n / 10);
        s.append(digit_slice(n % 10));
        s
    }
}

/// An ASCII whitespace character (the separator used for word counting).
pub open spec fn is_space(c: char) -> bool {
    c == ' ' || c == '\n' || c == '\t' || c == '\r'
}

/// Number of maximal non-whitespace runs in the first `i` characters.
pub open spec fn word_count_upto(s: Seq<char>, i: int) -> nat
    decreases i,
{
    if i <= 0 || i > s.len() {
        0
    } else if !is_space(s[i - 1]) && (i == 1 || is_space(s[i - 2])) {
        word_count_upto(s, i - 1) + 1
    } else {
        word_count_upto(s, i - 1)
    }
}

/// Number of ASCII-whitespace-separated words in `s`.
pub open spec fn word_count(s: Seq<char>) -> nat {
    word_count_upto(s, s.len() as int)
}

fn is_space_exec(c: char) -> (r: bool)
    ensures
        r == is_space(c),
{
    c == ' ' || c == '\n' || c == '\t' || c == '\r'
}

/// Counts ASCII-whitespace-separated words.
pub fn count_words(s: &str) -> (r: usize)
    ensures
        r == word_count(s@),
{
    let len = s.unicode_len();
    let mut i: usize = 0;
    let mut count: usize = 0;
    let mut prev_space = true;
    while i < len
        invariant
            len == s@.len(),
            i <= len,
            count == word_count_upto(s@, i as int),
            count <= i,
            prev_space == (i == 0 || is_space(s@[i - 1])),
        decreases len - i,
    {
        let c = s.get_char(i);
        if !is_space_exec(c) && prev_space {
            count += 1;
        }
        prev_space = is_space_exec(c);
        i += 1;
    }
    count
}

} // verus!
