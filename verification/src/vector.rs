//! Fixed-point embeddings and similarity.
//!
//! Vectors hold coordinates in thousandths, each in `-1000 ..= 1000`;
//! similarities and distances are integers in the same fixed-point scale,
//! computed with exact integer arithmetic and a verified integer square
//! root.

use vstd::prelude::*;
use vstd::std_specs::hash::DefaultHasherAdditionalSpecFns;
use vstd::string::StrSliceExecFns;
use vstd::string::StringExecFns;

use core::hash::Hasher;

use crate::error::MemoryError;
use crate::text::dec_str;
use crate::text::u64_to_dec;

verus! {

/// The dot product of two equally long vectors.
pub open spec fn dot(a: Seq<i64>, b: Seq<i64>) -> int
    decreases a.len(),
{
    if a.len() == 0 || b.len() == 0 {
        0
    } else {
        dot(a.drop_last(), b.drop_last()) + (a.last() as int) * (b.last() as int)
    }
}

/// `r` is the integer square root of `n`.
pub open spec fn is_sqrt(n: int, r: int) -> bool {
    r >= 0 && r * r <= n && n < (r + 1) * (r + 1)
}

/// The integer square root.
pub open spec fn sqrt_floor(n: int) -> int {
    choose|r: int| is_sqrt(n, r)
}

/// Division truncating toward zero, as machine division does.
pub open spec fn trunc_div(a: int, b: int) -> int {
    if a >= 0 {
        a / b
    } else {
        -((-a) / b)
    }
}

/// The fixed-point cosine similarity of two vectors: the dot product over
/// the floored square root of the product of the two squared norms, scaled
/// by a thousand; zero when either norm vanishes. Taking one root of the
/// product (rather than the product of two floored roots) keeps the
/// similarity of a vector with itself at exactly one thousand.
pub open spec fn cosine_milli(a: Seq<i64>, b: Seq<i64>) -> int {
    let den = sqrt_floor(dot(a, a) * dot(b, b));
    if den == 0 {
        0
    } else {
        trunc_div(dot(a, b) * 1000, den)
    }
}

/// The squared euclidean distance of two vectors.
pub open spec fn dist2(a: Seq<i64>, b: Seq<i64>) -> int
    decreases a.len(),
{
    if a.len() == 0 || b.len() == 0 {
        0
    } else {
        dist2(a.drop_last(), b.drop_last()) + (a.last() - b.last()) * (a.last() - b.last())
    }
}

/// Integer square roots are unique.
pub proof fn lemma_sqrt_unique(n: int, r: int)
    requires
        is_sqrt(n, r),
    ensures
        sqrt_floor(n) == r,
{
    let w = choose|w: int| is_sqrt(n, w);
    assert(is_sqrt(n, w));
    assert(w == r) by (nonlinear_arith)
        requires
            is_sqrt(n, r),
            is_sqrt(n, w),
    ;
}

/// Dot products of a vector with itself are nonnegative.
pub proof fn lemma_self_dot_nonneg(a: Seq<i64>)
    ensures
        dot(a, a) >= 0,
    decreases a.len(),
{
    if a.len() > 0 {
        lemma_self_dot_nonneg(a.drop_last());
        assert((a.last() as int) * (a.last() as int) >= 0) by (nonlinear_arith);
    }
}

/// A vector with a nonzero coordinate has a positive dot product with
/// itself.
pub proof fn lemma_nonzero_dot(a: Seq<i64>, i: int)
    requires
        0 <= i < a.len(),
        a[i] != 0,
    ensures
        dot(a, a) > 0,
    decreases a.len(),
{
    lemma_self_dot_nonneg(a.drop_last());
    if i == a.len() - 1 {
        assert((a.last() as int) * (a.last() as int) > 0) by (nonlinear_arith)
            requires
                a.last() != 0,
        ;
    } else {
        assert(a.drop_last()[i] == a[i]);
        lemma_nonzero_dot(a.drop_last(), i);
        assert((a.last() as int) * (a.last() as int) >= 0) by (nonlinear_arith);
    }
}

/// The cosine similarity of a vector of positive norm with itself is
/// exactly one: a thousand in thousandths.
pub proof fn lemma_cosine_self(a: Seq<i64>)
    requires
        dot(a, a) > 0,
    ensures
        cosine_milli(a, a) == 1000,
{
    let d = dot(a, a);
    assert(is_sqrt(d * d, d)) by (nonlinear_arith)
        requires
            d > 0,
    ;
    lemma_sqrt_unique(d * d, d);
    assert(d * 1000 > 0) by (nonlinear_arith)
        requires
            d > 0,
    ;
    assert((d * 1000) / d == 1000) by (nonlinear_arith)
        requires
            d > 0,
    ;
}

/// The cosine similarity of orthogonal vectors (dot product zero) is zero.
pub proof fn lemma_cosine_orthogonal(a: Seq<i64>, b: Seq<i64>)
    requires
        dot(a, b) == 0,
    ensures
        cosine_milli(a, b) == 0,
{
    let den = sqrt_floor(dot(a, a) * dot(b, b));
    if den != 0 {
        assert(trunc_div(0int * 1000, den) == 0);
    }
}

fn isqrt(n: u64) -> (r: u64)
    requires
        n <= 4_000_000_000_000,
    ensures
        is_sqrt(n as int, r as int),
        r as int == sqrt_floor(n as int),
        r <= 2_000_001,
{
    let mut lo: u64 = 0;
    let mut hi: u64 = 2_000_001;
    proof {
        assert((2_000_001 + 1) * (2_000_001 + 1) > 4_000_000_000_000) by (nonlinear_arith);
    }
    while lo < hi
        invariant
            lo <= hi <= 2_000_001,
            (lo as int) * (lo as int) <= n,
            (n as int) < (hi + 1) * (hi + 1),
        decreases hi - lo,
    {
        let mid = lo + (hi - lo + 1) / 2;
        proof {
            assert(lo < mid <= hi);
            assert((mid as int) * (mid as int) <= 4_000_008_000_001) by (nonlinear_arith)
                requires
                    mid <= 2_000_001,
            ;
        }
        if mid * mid <= n {
            lo = mid;
        } else {
            hi = mid - 1;
            proof {
                assert((n as int) < (mid as int) * (mid as int));
            }
        }
    }
    proof {
        lemma_sqrt_unique(n as int, lo as int);
    }
    lo
}

fn isqrt_wide(n: u128) -> (r: u64)
    requires
        n <= 1_000_000_000_000_000_000_000_000u128,
    ensures
        is_sqrt(n as int, r as int),
        r as int == sqrt_floor(n as int),
        r <= 1_000_000_000_000,
{
    let mut lo: u64 = 0;
    let mut hi: u64 = 1_000_000_000_000;
    proof {
        assert((1_000_000_000_000int + 1) * (1_000_000_000_000int + 1)
            > 1_000_000_000_000_000_000_000_000int) by (nonlinear_arith);
    }
    while lo < hi
        invariant
            lo <= hi <= 1_000_000_000_000,
            (lo as int) * (lo as int) <= n as int,
            (n as int) < (hi + 1) * (hi + 1),
        decreases hi - lo,
    {
        let mid = lo + (hi - lo + 1) / 2;
        proof {
            assert(lo < mid <= hi);
            assert((mid as int) * (mid as int) < (1_000_000_000_001int) * (
            1_000_000_000_001int)) by (nonlinear_arith)
                requires
                    mid <= 1_000_000_000_000u64,
            ;
        }
        let m2: u128 = (mid as u128) * (mid as u128);
        if m2 <= n {
            lo = mid;
        } else {
            hi = mid - 1;
            proof {
                assert((n as int) < (mid as int) * (mid as int));
            }
        }
    }
    proof {
        lemma_sqrt_unique(n as int, lo as int);
    }
    lo
}

/// The mathematical model of an embedding.
pub struct EmbedModel {
    /// The coordinates, in thousandths.
    pub vector: Seq<i64>,
    /// The dimensionality.
    pub dimensions: int,
    /// The model that produced the embedding.
    pub model: Seq<char>,
}

/// A dense fixed-point vector with its dimensionality and the name of the
/// model that produced it. Coordinates are clamped into `-1000 ..= 1000`
/// on construction; two embeddings are comparable only when their
/// dimensionalities match.
#[derive(Debug)]
pub struct Embedding {
    vector: Vec<i64>,
    dimensions: usize,
    model: String,
}

impl View for Embedding {
    type V = EmbedModel;

    closed spec fn view(&self) -> EmbedModel {
        EmbedModel {
            vector: self.vector@,
            dimensions: self.dimensions as int,
            model: self.model@,
        }
    }
}

impl Embedding {
    #[verifier::type_invariant]
    spec fn inv(self) -> bool {
        &&& self.dimensions == self.vector@.len()
        &&& self.vector@.len() <= 1_000_000
        &&& forall|i: int|
            0 <= i < self.vector@.len() ==> -1000 <= #[trigger] self.vector@[i] <= 1000
    }

    /// The coordinates.
    pub closed spec fn values(self) -> Seq<i64> {
        self.vector@
    }

    /// The dimensionality.
    pub closed spec fn dims(self) -> int {
        self.dimensions as int
    }

    /// The producing model's name.
    pub closed spec fn model_view(self) -> Seq<char> {
        self.model@
    }

    /// An embedding over `vector`, coordinates clamped into
    /// `-1000 ..= 1000`, dimensionality the vector's length.
    pub fn new(vector: Vec<i64>, model: &str) -> (r: Embedding)
        requires
            vector@.len() <= 1_000_000,
        ensures
            r.values().len() == vector@.len(),
            r.dims() == vector@.len(),
            r.model_view() == model@,
            forall|i: int|
                0 <= i < vector@.len() ==> #[trigger] r.values()[i] == clamp_milli_signed(
                    vector@[i],
                ),
    {
        let mut clamped: Vec<i64> = Vec::new();
        let mut i: usize = 0;
        while i < vector.len()
            invariant
                i <= vector@.len(),
                vector@.len() <= 1_000_000,
                clamped@.len() == i,
                forall|j: int|
                    0 <= j < i ==> #[trigger] clamped@[j] == clamp_milli_signed(vector@[j]),
                forall|j: int| 0 <= j < i ==> -1000 <= #[trigger] clamped@[j] <= 1000,
            decreases vector@.len() - i,
        {
            let v = vector[i];
            let c: i64 = if v < -1000 {
                -1000
            } else if v > 1000 {
                1000
            } else {
                v
            };
            clamped.push(c);
            i += 1;
        }
        let dimensions = clamped.len();
        Embedding { vector: clamped, dimensions, model: String::from_str(model) }
    }

    /// The dimensionality.
    pub fn dimensions(&self) -> (r: usize)
        ensures
            r == self.dims(),
            self.dims() == self.values().len(),
            self.values().len() <= 1_000_000,
    {
        proof {
            use_type_invariant(self);
        }
        self.dimensions
    }

    /// The producing model's name.
    pub fn model_name(&self) -> (r: &str)
        ensures
            r@ == self.model_view(),
    {
        self.model.as_str()
    }

    /// The coordinates.
    pub fn coordinates(&self) -> (r: &Vec<i64>)
        ensures
            r@ == self.values(),
            self.values().len() <= 1_000_000,
            forall|i: int| 0 <= i < self.values().len() ==> -1000 <= #[trigger] self.values()[i]
                <= 1000,
    {
        proof {
            use_type_invariant(self);
        }
        &self.vector
    }

    /// A copy with the same model.
    pub fn duplicate(&self) -> (r: Embedding)
        ensures
            r@ == self@,
    {
        proof {
            use_type_invariant(self);
        }
        let mut vector: Vec<i64> = Vec::new();
        let mut i: usize = 0;
        while i < self.vector.len()
            invariant
                i <= self.vector@.len(),
                vector@.len() == i,
                forall|j: int| 0 <= j < i ==> #[trigger] vector@[j] == self.vector@[j],
            decreases self.vector@.len() - i,
        {
            vector.push(self.vector[i]);
            i += 1;
        }
        proof {
            assert(vector@ =~= self.vector@);
        }
        Embedding { vector, dimensions: self.dimensions, model: self.model.clone() }
    }

    /// The fixed-point cosine similarity with `other`: a dimensionality
    /// mismatch is a validation error; a zero-norm side yields zero.
    pub fn cosine_similarity(&self, other: &Embedding) -> (r: Result<i64, MemoryError>)
        ensures
            self.dims() != other.dims() ==> r is Err,
            self.dims() == other.dims() ==> (r matches Ok(s) && s as int == cosine_milli(
                self.values(),
                other.values(),
            )),
    {
        proof {
            use_type_invariant(self);
            use_type_invariant(other);
        }
        if self.dimensions != other.dimensions {
            return Err(
                MemoryError::Validation {
                    field: String::from_str("embedding_dimensions"),
                    rule: String::from_str("dimensions must match"),
                    observed: String::from_str("differing dimensionalities"),
                },
            );
        }
        let n = self.vector.len();
        let mut dot_ab: i64 = 0;
        let mut dot_aa: i64 = 0;
        let mut dot_bb: i64 = 0;
        let mut i: usize = 0;
        while i < n
            invariant
                i <= n,
                n == self.vector@.len(),
                n == other.vector@.len(),
                n <= 1_000_000,
                forall|j: int| 0 <= j < n ==> -1000 <= #[trigger] self.vector@[j] <= 1000,
                forall|j: int| 0 <= j < n ==> -1000 <= #[trigger] other.vector@[j] <= 1000,
                dot_ab as int == dot(
                    self.vector@.subrange(0, i as int),
                    other.vector@.subrange(0, i as int),
                ),
                dot_aa as int == dot(
                    self.vector@.subrange(0, i as int),
                    self.vector@.subrange(0, i as int),
                ),
                dot_bb as int == dot(
                    other.vector@.subrange(0, i as int),
                    other.vector@.subrange(0, i as int),
                ),
                -1_000_000 * (i as int) <= dot_ab as int <= 1_000_000 * (i as int),
                0 <= dot_aa as int <= 1_000_000 * (i as int),
                0 <= dot_bb as int <= 1_000_000 * (i as int),
            decreases n - i,
        {
            let a = self.vector[i];
            let b = other.vector[i];
            proof {
                let pa = self.vector@.subrange(0, i as int);
                let pa1 = self.vector@.subrange(0, i as int + 1);
                let pb = other.vector@.subrange(0, i as int);
                let pb1 = other.vector@.subrange(0, i as int + 1);
                assert(pa1.drop_last() =~= pa);
                assert(pb1.drop_last() =~= pb);
                assert(pa1.last() == self.vector@[i as int]);
                assert(pb1.last() == other.vector@[i as int]);
                assert(-1_000_000 <= (a as int) * (b as int) <= 1_000_000) by (nonlinear_arith)
                    requires
                        -1000 <= a <= 1000,
                        -1000 <= b <= 1000,
                ;
                assert(0 <= (a as int) * (a as int) <= 1_000_000) by (nonlinear_arith)
                    requires
                        -1000 <= a <= 1000,
                ;
                assert(0 <= (b as int) * (b as int) <= 1_000_000) by (nonlinear_arith)
                    requires
                        -1000 <= b <= 1000,
                ;
            }
            dot_ab = dot_ab + a * b;
            dot_aa = dot_aa + a * a;
            dot_bb = dot_bb + b * b;
            i += 1;
        }
        proof {
            assert(self.vector@.subrange(0, n as int) =~= self.vector@);
            assert(other.vector@.subrange(0, n as int) =~= other.vector@);
            assert(1_000_000 * (n as int) <= 1_000_000_000_000) by (nonlinear_arith)
                requires
                    n <= 1_000_000,
            ;
            assert((dot_aa as int) * (dot_bb as int) <= 1_000_000_000_000_000_000_000_000int)
                by (nonlinear_arith)
                requires
                    0 <= dot_aa as int <= 1_000_000_000_000,
                    0 <= dot_bb as int <= 1_000_000_000_000,
            ;
        }
        let prod: u128 = (dot_aa as u128) * (dot_bb as u128);
        let den = isqrt_wide(prod);
        if den == 0 {
            return Ok(0);
        }
        let neg = dot_ab < 0;
        let mag: i64 = if neg {
            -dot_ab
        } else {
            dot_ab
        };
        let q = (mag * 1000) / (den as i64);
        let s = if neg {
            -q
        } else {
            q
        };
        proof {
            assert(sqrt_floor(dot(self.values(), self.values()) * dot(
                other.values(),
                other.values(),
            )) == den as int);
            if neg {
                assert(trunc_div(dot_ab as int * 1000, den as int) == -(((mag as int) * 1000) / (
                den as int)));
            }
        }
        Ok(s)
    }

    /// The fixed-point euclidean distance to `other`: a dimensionality
    /// mismatch is a validation error.
    pub fn euclidean_distance(&self, other: &Embedding) -> (r: Result<i64, MemoryError>)
        ensures
            self.dims() != other.dims() ==> r is Err,
            self.dims() == other.dims() ==> (r matches Ok(d) && d as int == sqrt_floor(
                dist2(self.values(), other.values()),
            )),
    {
        proof {
            use_type_invariant(self);
            use_type_invariant(other);
        }
        if self.dimensions != other.dimensions {
            return Err(
                MemoryError::Validation {
                    field: String::from_str("embedding_dimensions"),
                    rule: String::from_str("dimensions must match"),
                    observed: String::from_str("differing dimensionalities"),
                },
            );
        }
        let n = self.vector.len();
        let mut sum: i64 = 0;
        let mut i: usize = 0;
        while i < n
            invariant
                i <= n,
                n == self.vector@.len(),
                n == other.vector@.len(),
                n <= 1_000_000,
                forall|j: int| 0 <= j < n ==> -1000 <= #[trigger] self.vector@[j] <= 1000,
                forall|j: int| 0 <= j < n ==> -1000 <= #[trigger] other.vector@[j] <= 1000,
                sum as int == dist2(
                    self.vector@.subrange(0, i as int),
                    other.vector@.subrange(0, i as int),
                ),
                0 <= sum as int <= 4_000_000 * (i as int),
            decreases n - i,
        {
            let a = self.vector[i];
            let b = other.vector[i];
            proof {
                let pa = self.vector@.subrange(0, i as int);
                let pa1 = self.vector@.subrange(0, i as int + 1);
                let pb = other.vector@.subrange(0, i as int);
                let pb1 = other.vector@.subrange(0, i as int + 1);
                assert(pa1.drop_last() =~= pa);
                assert(pb1.drop_last() =~= pb);
                assert(pa1.last() == self.vector@[i as int]);
                assert(pb1.last() == other.vector@[i as int]);
                assert(0 <= ((a - b) as int) * ((a - b) as int) <= 4_000_000) by (nonlinear_arith)
                    requires
                        -1000 <= a <= 1000,
                        -1000 <= b <= 1000,
                ;
            }
            let d = a - b;
            sum = sum + d * d;
            i += 1;
        }
        proof {
            assert(self.vector@.subrange(0, n as int) =~= self.vector@);
            assert(other.vector@.subrange(0, n as int) =~= other.vector@);
            assert(4_000_000 * (n as int) <= 4_000_000_000_000) by (nonlinear_arith)
                requires
                    n <= 1_000_000,
            ;
        }
        let root = isqrt(sum as u64);
        Ok(root as i64)
    }
}

/// The view of an embedding is exactly its coordinates, dimensionality
/// and model name.
pub proof fn lemma_embedding_view(e: Embedding)
    ensures
        e@ == (EmbedModel { vector: e.values(), dimensions: e.dims(), model: e.model_view() }),
{
}

/// Clamps a coordinate into `-1000 ..= 1000`.
pub open spec fn clamp_milli_signed(v: i64) -> i64 {
    if v < -1000 {
        -1000i64
    } else if v > 1000 {
        1000i64
    } else {
        v
    }
}

/// An embedding generation backend.
pub trait EmbeddingProvider {
    /// The dimensionality this provider produces.
    spec fn dims_spec(&self) -> int;

    /// What this provider's successful result for `text` looks like; each
    /// implementation pins it down as far as its source of embeddings
    /// allows.
    spec fn embeds(&self, text: Seq<char>, e: EmbedModel) -> bool;

    /// Embeds `text`; the result has this provider's dimensionality and is
    /// an embedding of exactly the text handed in.
    fn embed(&self, text: &str) -> (r: Result<Embedding, MemoryError>)
        ensures
            r matches Ok(e) ==> e.dims() == self.dims_spec() && self.embeds(text@, e@),
    ;

    /// The producing model's name.
    fn model_name(&self) -> &str;

    /// The dimensionality this provider produces.
    fn dimensions(&self) -> (r: usize)
        ensures
            r as int == self.dims_spec(),
    ;
}

/// The coordinate the hash embedder derives for `text` at position `k`:
/// the standard hasher's digest of the text's bytes followed by the
/// decimal rendering of `k`, mapped into `-1000 ..= 1000`.
pub open spec fn hash_coord(text: Seq<char>, k: nat) -> int {
    let digest = std::collections::hash_map::DefaultHasher::spec_finish(
        seq![
            vstd::utf8::encode_utf8(text),
            vstd::utf8::encode_utf8(dec_str(k)),
        ],
    );
    (digest as int) % 2001 - 1000
}

/// A deterministic hash-based embedding backend, for demonstration and
/// tests rather than semantic quality.
pub struct HashEmbeddingProvider {
    dimensions: usize,
}

impl HashEmbeddingProvider {
    /// A provider producing `dimensions`-dimensional embeddings (capped at
    /// a million).
    pub fn new(dimensions: usize) -> (r: HashEmbeddingProvider)
        ensures
            r.dims_spec() == if dimensions > 1_000_000 {
                1_000_000int
            } else {
                dimensions as int
            },
    {
        let capped = if dimensions > 1_000_000 {
            1_000_000
        } else {
            dimensions
        };
        HashEmbeddingProvider { dimensions: capped }
    }
}

impl EmbeddingProvider for HashEmbeddingProvider {
    closed spec fn dims_spec(&self) -> int {
        self.dimensions as int
    }

    /// The hash embedder's result is fully determined: model `hash`, this
    /// provider's dimensionality, every coordinate the hash of the text and
    /// its position.
    open spec fn embeds(&self, text: Seq<char>, e: EmbedModel) -> bool {
        &&& e.dimensions == self.dims_spec()
        &&& e.vector.len() == self.dims_spec()
        &&& e.model == "hash"@
        &&& forall|k: int| 0 <= k < e.vector.len() ==> #[trigger] e.vector[k] == hash_coord(
            text,
            k as nat,
        )
    }

    /// Embeds `text` coordinate by coordinate through the standard hasher.
    fn embed(&self, text: &str) -> (r: Result<Embedding, MemoryError>)
        ensures
            r matches Ok(e) ==> e.dims() == self.dims_spec() && forall|k: int|
                0 <= k < e.dims() ==> #[trigger] e.values()[k] == hash_coord(text@, k as nat),
    {
        let mut vector: Vec<i64> = Vec::new();
        let mut k: usize = 0;
        while k < self.dimensions
            invariant
                k <= self.dimensions,
                self.dimensions <= 1_000_000 || vector@.len() <= k,
                vector@.len() == k,
                forall|j: int|
                    0 <= j < k ==> #[trigger] vector@[j] == hash_coord(text@, j as nat),
                forall|j: int| 0 <= j < k ==> -1000 <= #[trigger] vector@[j] <= 1000,
            decreases self.dimensions - k,
        {
            let mut hasher = std::collections::hash_map::DefaultHasher::new();
            let text_bytes = text.as_bytes();
            hasher.write(text_bytes);
            let index_text = u64_to_dec(k as u64);
            let index_bytes = index_text.as_str().as_bytes();
            hasher.write(index_bytes);
            let digest = hasher.finish();
            let coord: i64 = (digest % 2001) as i64 - 1000;
            proof {
                assert(hasher@ =~= seq![
                    vstd::utf8::encode_utf8(text@),
                    vstd::utf8::encode_utf8(dec_str(k as nat)),
                ]);
            }
            vector.push(coord);
            k += 1;
        }
        if vector.len() > 1_000_000 {
            return Err(
                MemoryError::Validation {
                    field: String::from_str("dimensions"),
                    rule: String::from_str("at most a million"),
                    observed: String::from_str("more"),
                },
            );
        }
        let ghost views = vector@;
        let e = Embedding::new(vector, "hash");
        proof {
            assert forall|k2: int| 0 <= k2 < e.dims() implies #[trigger] e.values()[k2]
                == hash_coord(text@, k2 as nat) by {
                assert(e.values()[k2] == clamp_milli_signed(views[k2]));
            }
            assert(e@.vector =~= e.values());
        }
        Ok(e)
    }

    fn model_name(&self) -> &str {
        "hash"
    }

    fn dimensions(&self) -> (r: usize)
        ensures
            r as int == self.dims_spec(),
    {
        self.dimensions
    }
}

/// A search hit with its similarity score in thousandths.
#[derive(Debug)]
pub struct SearchResult<T> {
    /// The item that was found.
    pub item: T,
    /// Similarity in thousandths, higher is more similar.
    pub score: i64,
    /// An optional distance metric, in thousandths.
    pub distance: Option<i64>,
}

impl<T> SearchResult<T> {
    /// A hit without a distance.
    pub fn new(item: T, score: i64) -> (r: SearchResult<T>)
        ensures
            r.item == item,
            r.score == score,
            r.distance is None,
    {
        SearchResult { item, score, distance: None }
    }

    /// The same hit with a distance.
    pub fn with_distance(self, distance: i64) -> (r: SearchResult<T>)
        ensures
            r.item == self.item,
            r.score == self.score,
            r.distance matches Some(d) && d == distance,
    {
        SearchResult { distance: Some(distance), ..self }
    }
}

} // verus!
