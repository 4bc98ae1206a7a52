//! The tagged union of everything a memory store can hold, and its
//! mathematical model.

use vstd::prelude::*;

verus! {

/// A value storable in agent memory.
///
/// Floating-point payloads are carried as their IEEE 754 bit pattern
/// (`FloatBits`), so the verified layer never performs float arithmetic;
/// callers convert with `f64::to_bits` / `f64::from_bits`.
#[derive(Debug)]
pub enum MemoryValue {
    /// UTF-8 text.
    Str(String),
    /// 64-bit signed integer.
    Int(i64),
    /// 64-bit float, stored as its bit pattern.
    FloatBits(u64),
    /// Boolean flag.
    Bool(bool),
    /// A structured document: an ordered list of named fields.
    Json(Vec<(String, MemoryValue)>),
    /// Raw bytes.
    Bytes(Vec<u8>),
    /// Ordered list of values.
    List(Vec<MemoryValue>),
    /// Ordered mapping from string keys to values.
    Dict(Vec<(String, MemoryValue)>),
}

/// The mathematical model of a [`MemoryValue`]: strings become character
/// sequences and containers become sequences, so two values with the same
/// model are indistinguishable to every contract in this crate.
pub enum ValueModel {
    /// Model of `MemoryValue::Str`.
    Str(Seq<char>),
    /// Model of `MemoryValue::Int`.
    Int(int),
    /// Model of `MemoryValue::FloatBits`.
    FloatBits(u64),
    /// Model of `MemoryValue::Bool`.
    Bool(bool),
    /// Model of `MemoryValue::Json`.
    Json(Seq<(Seq<char>, ValueModel)>),
    /// Model of `MemoryValue::Bytes`.
    Bytes(Seq<u8>),
    /// Model of `MemoryValue::List`.
    List(Seq<ValueModel>),
    /// Model of `MemoryValue::Dict`.
    Dict(Seq<(Seq<char>, ValueModel)>),
}

/// The model of a value.
pub open spec fn value_model(v: MemoryValue) -> ValueModel
    decreases v,
{
    match v {
        MemoryValue::Str(s) => ValueModel::Str(s@),
        MemoryValue::Int(n) => ValueModel::Int(n as int),
        MemoryValue::FloatBits(b) => ValueModel::FloatBits(b),
        MemoryValue::Bool(b) => ValueModel::Bool(b),
        MemoryValue::Json(fs) => ValueModel::Json(fields_model(fs@)),
        MemoryValue::Bytes(bs) => ValueModel::Bytes(bs@),
        MemoryValue::List(vs) => ValueModel::List(list_model(vs@)),
        MemoryValue::Dict(fs) => ValueModel::Dict(fields_model(fs@)),
    }
}

/// The model of a sequence of named fields.
pub open spec fn fields_model(s: Seq<(String, MemoryValue)>) -> Seq<(Seq<char>, ValueModel)>
    decreases s,
{
    if s.len() == 0 {
        Seq::empty()
    } else {
        seq![(s[0].0@, value_model(s[0].1))] + fields_model(s.drop_first())
    }
}

/// The model of a sequence of values.
pub open spec fn list_model(s: Seq<MemoryValue>) -> Seq<ValueModel>
    decreases s,
{
    if s.len() == 0 {
        Seq::empty()
    } else {
        seq![value_model(s[0])] + list_model(s.drop_first())
    }
}

impl View for MemoryValue {
    type V = ValueModel;

    open spec fn view(&self) -> ValueModel {
        value_model(*self)
    }
}

/// `fields_model` is the pointwise model of its argument.
pub proof fn lemma_fields_model(s: Seq<(String, MemoryValue)>)
    ensures
        fields_model(s).len() == s.len(),
        forall|i: int|
            0 <= i < s.len() ==> fields_model(s)[i] == (s[i].0@, value_model(s[i].1)),
    decreases s,
{
    if s.len() > 0 {
        lemma_fields_model(s.drop_first());
    }
}

/// `list_model` is the pointwise model of its argument.
pub proof fn lemma_list_model(s: Seq<MemoryValue>)
    ensures
        list_model(s).len() == s.len(),
        forall|i: int| 0 <= i < s.len() ==> list_model(s)[i] == value_model(s[i]),
    decreases s,
{
    if s.len() > 0 {
        lemma_list_model(s.drop_first());
    }
}

/// Pointwise-equal field sequences have equal models.
pub proof fn lemma_fields_model_congruence(
    a: Seq<(String, MemoryValue)>,
    b: Seq<(String, MemoryValue)>,
)
    requires
        a.len() == b.len(),
        forall|i: int|
            0 <= i < a.len() ==> a[i].0@ == b[i].0@ && value_model(a[i].1) == value_model(b[i].1),
    ensures
        fields_model(a) == fields_model(b),
{
    lemma_fields_model(a);
    lemma_fields_model(b);
    assert(fields_model(a) =~= fields_model(b));
}

/// Pointwise-equal value sequences have equal models.
pub proof fn lemma_list_model_congruence(a: Seq<MemoryValue>, b: Seq<MemoryValue>)
    requires
        a.len() == b.len(),
        forall|i: int| 0 <= i < a.len() ==> value_model(a[i]) == value_model(b[i]),
    ensures
        list_model(a) == list_model(b),
{
    lemma_list_model(a);
    lemma_list_model(b);
    assert(list_model(a) =~= list_model(b));
}

/// The index of the first field named `name`, or `-1`.
pub open spec fn doc_find(fs: Seq<(Seq<char>, ValueModel)>, name: Seq<char>) -> int
    decreases fs.len(),
{
    if fs.len() == 0 {
        -1
    } else if fs[0].0 == name {
        0
    } else {
        let r = doc_find(fs.drop_first(), name);
        if r < 0 {
            -1
        } else {
            r + 1
        }
    }
}

/// The value of the first field named `name`, if any.
pub open spec fn doc_lookup(fs: Seq<(Seq<char>, ValueModel)>, name: Seq<char>) -> Option<
    ValueModel,
> {
    if doc_find(fs, name) >= 0 {
        Some(fs[doc_find(fs, name)].1)
    } else {
        None
    }
}

pub proof fn lemma_doc_find(fs: Seq<(Seq<char>, ValueModel)>, name: Seq<char>)
    ensures
        doc_find(fs, name) >= 0 ==> doc_find(fs, name) < fs.len() && fs[doc_find(fs, name)].0
            == name,
        doc_find(fs, name) >= 0 ==> forall|j: int| 0 <= j < doc_find(fs, name) ==> fs[j].0 != name,
        doc_find(fs, name) < 0 ==> forall|j: int| 0 <= j < fs.len() ==> fs[j].0 != name,
    decreases fs.len(),
{
    if fs.len() > 0 && fs[0].0 != name {
        let t = fs.drop_first();
        lemma_doc_find(t, name);
        let f = doc_find(fs, name);
        let ft = doc_find(t, name);
        if ft >= 0 {
            assert(t[ft] == fs[ft + 1]);
            assert forall|j: int| 0 <= j < f implies fs[j].0 != name by {
                if j > 0 {
                    assert(t[j - 1] == fs[j]);
                }
            }
        } else {
            assert forall|j: int| 0 <= j < fs.len() implies fs[j].0 != name by {
                if j > 0 {
                    assert(t[j - 1] == fs[j]);
                }
            }
        }
    }
}

/// The first field of `fields` named `name`, if any.
pub fn doc_get<'a>(fields: &'a Vec<(String, MemoryValue)>, name: &str) -> (r: Option<
    &'a MemoryValue,
>)
    ensures
        match r {
            Some(v) => doc_lookup(fields_model(fields@), name@) == Some(v@),
            None => doc_lookup(fields_model(fields@), name@) is None,
        },
{
    proof {
        lemma_fields_model(fields@);
        lemma_doc_find(fields_model(fields@), name@);
    }
    let ghost fm = fields_model(fields@);
    let mut i: usize = 0;
    while i < fields.len()
        invariant
            i <= fields@.len(),
            fm == fields_model(fields@),
            fm.len() == fields@.len(),
            forall|j: int| 0 <= j < fm.len() ==> fm[j] == (fields@[j].0@, value_model(fields@[j].1)),
            forall|j: int| 0 <= j < i ==> fm[j].0 != name@,
            doc_find(fm, name@) >= 0 ==> doc_find(fm, name@) < fm.len() && fm[doc_find(fm, name@)].0
                == name@,
            doc_find(fm, name@) >= 0 ==> forall|j: int|
                0 <= j < doc_find(fm, name@) ==> fm[j].0 != name@,
            doc_find(fm, name@) < 0 ==> forall|j: int| 0 <= j < fm.len() ==> fm[j].0 != name@,
        decreases fields@.len() - i,
    {
        if crate::text::str_eq(fields[i].0.as_str(), name) {
            proof {
                let f = doc_find(fm, name@);
                if f < 0 {
                    assert(fm[i as int].0 != name@);
                }
                if f < i as int {
                    assert(fm[f].0 != name@);
                }
                if f > i as int {
                    assert(fm[i as int].0 != name@);
                }
            }
            return Some(&fields[i].1);
        }
        i += 1;
    }
    proof {
        let f = doc_find(fm, name@);
        if f >= 0 {
            assert(fm[f].0 != name@);
        }
    }
    None
}

impl MemoryValue {
    /// Accessor attempt: the string payload, or `None` on type mismatch.
    pub fn as_str(&self) -> (r: Option<&String>)
        ensures
            match r {
                Some(s) => self@ matches ValueModel::Str(v) && s@ == v,
                None => !(self@ matches ValueModel::Str(_)),
            },
    {
        match self {
            MemoryValue::Str(s) => Some(s),
            _ => None,
        }
    }

    /// Accessor attempt: the integer payload, or `None` on type mismatch.
    pub fn as_int(&self) -> (r: Option<i64>)
        ensures
            match r {
                Some(n) => self@ matches ValueModel::Int(v) && n as int == v,
                None => !(self@ matches ValueModel::Int(_)),
            },
    {
        match self {
            MemoryValue::Int(n) => Some(*n),
            _ => None,
        }
    }

    /// Accessor attempt: the boolean payload, or `None` on type mismatch.
    pub fn as_bool(&self) -> (r: Option<bool>)
        ensures
            match r {
                Some(b) => self@ matches ValueModel::Bool(v) && b == v,
                None => !(self@ matches ValueModel::Bool(_)),
            },
    {
        match self {
            MemoryValue::Bool(b) => Some(*b),
            _ => None,
        }
    }

    /// Accessor attempt: the float bit pattern, or `None` on type mismatch.
    pub fn as_float_bits(&self) -> (r: Option<u64>)
        ensures
            match r {
                Some(b) => self@ matches ValueModel::FloatBits(v) && b == v,
                None => !(self@ matches ValueModel::FloatBits(_)),
            },
    {
        match self {
            MemoryValue::FloatBits(b) => Some(*b),
            _ => None,
        }
    }

    /// A deep copy whose model equals this value's model.
    pub fn duplicate(&self) -> (r: MemoryValue)
        ensures
            r@ == self@,
        decreases self,
    {
        match self {
            MemoryValue::Str(s) => MemoryValue::Str(s.clone()),
            MemoryValue::Int(n) => MemoryValue::Int(*n),
            MemoryValue::FloatBits(b) => MemoryValue::FloatBits(*b),
            MemoryValue::Bool(b) => MemoryValue::Bool(*b),
            MemoryValue::Json(fs) => MemoryValue::Json(duplicate_fields(fs)),
            MemoryValue::Bytes(bs) => MemoryValue::Bytes(duplicate_bytes(bs)),
            MemoryValue::List(vs) => MemoryValue::List(duplicate_list(vs)),
            MemoryValue::Dict(fs) => MemoryValue::Dict(duplicate_fields(fs)),
        }
    }
}

fn duplicate_bytes(bs: &Vec<u8>) -> (r: Vec<u8>)
    ensures
        r@ == bs@,
{
    let mut out: Vec<u8> = Vec::new();
    let mut i: usize = 0;
    while i < bs.len()
        invariant
            i <= bs@.len(),
            out@ =~= bs@.subrange(0, i as int),
        decreases bs@.len() - i,
    {
        out.push(bs[i]);
        i += 1;
    }
    proof {
        assert(out@ =~= bs@);
    }
    out
}

fn duplicate_fields(fs: &Vec<(String, MemoryValue)>) -> (r: Vec<(String, MemoryValue)>)
    ensures
        fields_model(r@) == fields_model(fs@),
        r@.len() == fs@.len(),
    decreases fs,
{
    let mut out: Vec<(String, MemoryValue)> = Vec::new();
    let mut i: usize = 0;
    while i < fs.len()
        invariant
            i <= fs@.len(),
            out@.len() == i,
            forall|j: int|
                0 <= j < i ==> out@[j].0@ == fs@[j].0@ && value_model(out@[j].1) == value_model(
                    fs@[j].1,
                ),
        decreases fs@.len() - i,
    {
        let name = fs[i].0.clone();
        let value = fs[i].1.duplicate();
        out.push((name, value));
        i += 1;
    }
    proof {
        lemma_fields_model_congruence(out@, fs@);
    }
    out
}

fn duplicate_list(vs: &Vec<MemoryValue>) -> (r: Vec<MemoryValue>)
    ensures
        list_model(r@) == list_model(vs@),
        r@.len() == vs@.len(),
    decreases vs,
{
    let mut out: Vec<MemoryValue> = Vec::new();
    let mut i: usize = 0;
    while i < vs.len()
        invariant
            i <= vs@.len(),
            out@.len() == i,
            forall|j: int| 0 <= j < i ==> value_model(out@[j]) == value_model(vs@[j]),
        decreases vs@.len() - i,
    {
        let value = vs[i].duplicate();
        out.push(value);
        i += 1;
    }
    proof {
        lemma_list_model_congruence(out@, vs@);
    }
    out
}

} // verus!
