//! Helpers shared by the record encodings: string lists, string
//! dictionaries, and lookups in documents with distinct field names.

use vstd::prelude::*;

use crate::value::MemoryValue;
use crate::value::ValueModel;
use crate::value::doc_find;
use crate::value::doc_lookup;
use crate::value::lemma_doc_find;
use crate::value::lemma_list_model;
use crate::value::list_model;
use crate::value::lemma_fields_model;
use crate::value::fields_model;

verus! {

/// The views of a vector of strings.
pub open spec fn views_of(ss: Seq<String>) -> Seq<Seq<char>> {
    Seq::new(ss.len(), |i: int| ss[i]@)
}

/// The views of a vector of string pairs.
pub open spec fn pair_views_of(ps: Seq<(String, String)>) -> Seq<(Seq<char>, Seq<char>)> {
    Seq::new(ps.len(), |i: int| (ps[i].0@, ps[i].1@))
}

/// The encoding of a list of strings.
pub open spec fn str_list_model(ss: Seq<Seq<char>>) -> ValueModel {
    ValueModel::List(Seq::new(ss.len(), |i: int| ValueModel::Str(ss[i])))
}

/// The encoding of a string-to-string dictionary.
pub open spec fn str_dict_model(md: Seq<(Seq<char>, Seq<char>)>) -> ValueModel {
    ValueModel::Dict(Seq::new(md.len(), |i: int| (md[i].0, ValueModel::Str(md[i].1))))
}

/// The strings of a value list, if every element is a string.
pub open spec fn strs_of(items: Seq<ValueModel>) -> Option<Seq<Seq<char>>>
    decreases items.len(),
{
    if items.len() == 0 {
        Some(Seq::empty())
    } else {
        match items[0] {
            ValueModel::Str(s) => match strs_of(items.drop_first()) {
                Some(rest) => Some(Seq::empty().push(s) + rest),
                None => None,
            },
            _ => None,
        }
    }
}

/// The pairs of a dictionary, if every value is a string.
pub open spec fn str_pairs_of(fs: Seq<(Seq<char>, ValueModel)>) -> Option<
    Seq<(Seq<char>, Seq<char>)>,
>
    decreases fs.len(),
{
    if fs.len() == 0 {
        Some(Seq::empty())
    } else {
        match fs[0].1 {
            ValueModel::Str(s) => match str_pairs_of(fs.drop_first()) {
                Some(rest) => Some(Seq::empty().push((fs[0].0, s)) + rest),
                None => None,
            },
            _ => None,
        }
    }
}

/// Decoding a string-list encoding yields the strings back.
pub proof fn lemma_str_list_round_trip(ss: Seq<Seq<char>>)
    ensures
        str_list_model(ss) matches ValueModel::List(items) && strs_of(items) == Some(ss),
    decreases ss.len(),
{
    let items = Seq::new(ss.len(), |i: int| ValueModel::Str(ss[i]));
    if ss.len() > 0 {
        lemma_str_list_round_trip(ss.drop_first());
        let items1 = Seq::new(ss.drop_first().len(), |i: int| ValueModel::Str(ss.drop_first()[i]));
        assert(items.drop_first() =~= items1);
        assert(Seq::empty().push(ss[0]) + ss.drop_first() =~= ss);
    }
}

/// Decoding a string-dictionary encoding yields the pairs back.
pub proof fn lemma_str_dict_round_trip(md: Seq<(Seq<char>, Seq<char>)>)
    ensures
        str_dict_model(md) matches ValueModel::Dict(fs) && str_pairs_of(fs) == Some(md),
    decreases md.len(),
{
    let fs = Seq::new(md.len(), |i: int| (md[i].0, ValueModel::Str(md[i].1)));
    if md.len() > 0 {
        lemma_str_dict_round_trip(md.drop_first());
        let fs1 = Seq::new(
            md.drop_first().len(),
            |i: int| (md.drop_first()[i].0, ValueModel::Str(md.drop_first()[i].1)),
        );
        assert(fs.drop_first() =~= fs1);
        assert(Seq::empty().push((md[0].0, md[0].1)) + md.drop_first() =~= md);
    }
}

/// In a document whose field names are pairwise distinct, looking up the
/// name of field `i` yields field `i`.
pub proof fn lemma_doc_lookup_distinct(fs: Seq<(Seq<char>, ValueModel)>, i: int)
    requires
        0 <= i < fs.len(),
        forall|a: int, b: int| 0 <= a < b < fs.len() ==> fs[a].0 != fs[b].0,
    ensures
        doc_lookup(fs, fs[i].0) == Some(fs[i].1),
{
    lemma_doc_find(fs, fs[i].0);
    let f = doc_find(fs, fs[i].0);
    if f < 0 {
        assert(fs[i].0 != fs[i].0);
    }
    if f != i {
        assert(fs[f].0 == fs[i].0);
    }
}

/// A name that no field carries looks up to nothing.
pub proof fn lemma_doc_lookup_absent(fs: Seq<(Seq<char>, ValueModel)>, name: Seq<char>)
    requires
        forall|a: int| 0 <= a < fs.len() ==> fs[a].0 != name,
    ensures
        doc_lookup(fs, name) is None,
{
    lemma_doc_find(fs, name);
    let f = doc_find(fs, name);
    if f >= 0 {
        assert(fs[f].0 != name);
    }
}

/// Encodes a list of strings.
pub fn encode_str_list(items: Vec<String>) -> (r: MemoryValue)
    ensures
        r@ == str_list_model(views_of(items@)),
{
    let ghost given = items@;
    let mut items = items;
    let mut out: Vec<MemoryValue> = Vec::new();
    let total = items.len();
    let mut i: usize = 0;
    while items.len() > 0
        invariant
            i <= total,
            total == given.len(),
            items@ =~= given.subrange(i as int, total as int),
            out@.len() == i,
            forall|j: int|
                0 <= j < i ==> crate::value::value_model(#[trigger] out@[j]) == ValueModel::Str(
                    given[j]@,
                ),
        decreases items@.len(),
    {
        let s = items.remove(0);
        proof {
            assert(s == given[i as int]);
        }
        out.push(MemoryValue::Str(s));
        i += 1;
    }
    proof {
        lemma_list_model(out@);
        assert(list_model(out@) =~= Seq::new(views_of(given).len(), |j: int| ValueModel::Str(
            views_of(given)[j],
        )));
    }
    MemoryValue::List(out)
}

/// Encodes a string-to-string dictionary.
pub fn encode_str_dict(pairs: Vec<(String, String)>) -> (r: MemoryValue)
    ensures
        r@ == str_dict_model(pair_views_of(pairs@)),
{
    let ghost given = pairs@;
    let mut pairs = pairs;
    let mut out: Vec<(String, MemoryValue)> = Vec::new();
    let total = pairs.len();
    let mut i: usize = 0;
    while pairs.len() > 0
        invariant
            i <= total,
            total == given.len(),
            pairs@ =~= given.subrange(i as int, total as int),
            out@.len() == i,
            forall|j: int|
                0 <= j < i ==> (#[trigger] out@[j]).0@ == given[j].0@ && crate::value::value_model(
                    out@[j].1,
                ) == ValueModel::Str(given[j].1@),
        decreases pairs@.len(),
    {
        let p = pairs.remove(0);
        proof {
            assert(p == given[i as int]);
        }
        out.push((p.0, MemoryValue::Str(p.1)));
        i += 1;
    }
    proof {
        lemma_fields_model(out@);
        assert(fields_model(out@) =~= Seq::new(
            pair_views_of(given).len(),
            |j: int| (pair_views_of(given)[j].0, ValueModel::Str(pair_views_of(given)[j].1)),
        ));
    }
    MemoryValue::Dict(out)
}

/// What a value decodes to as a list of strings.
pub open spec fn decodes_str_list(v: ValueModel) -> Option<Seq<Seq<char>>> {
    match v {
        ValueModel::List(items) => strs_of(items),
        _ => None,
    }
}

/// Decodes a list of strings.
pub fn decode_str_list(v: &MemoryValue) -> (r: Option<Vec<String>>)
    ensures
        match r {
            Some(ss) => decodes_str_list(v@) == Some(views_of(ss@)),
            None => decodes_str_list(v@) is None,
        },
{
    match v {
        MemoryValue::List(items) => {
            let ghost im = list_model(items@);
            proof {
                lemma_list_model(items@);
                lemma_strs_of(im);
            }
            let mut out: Vec<String> = Vec::new();
            let mut i: usize = 0;
            while i < items.len()
                invariant
                    i <= items@.len(),
                    im == list_model(items@),
                    v@ == ValueModel::List(im),
                    im.len() == items@.len(),
                    forall|j: int|
                        0 <= j < im.len() ==> im[j] == crate::value::value_model(items@[j]),
                    strs_of(im) is Some ==> (strs_of(im) matches Some(ss) && ss.len() == im.len()
                        && forall|j: int| 0 <= j < im.len() ==> #[trigger] im[j] == ValueModel::Str(ss[j])),
                    strs_of(im) is None ==> exists|j: int|
                        0 <= j < im.len() && !(#[trigger] im[j] matches ValueModel::Str(_)),
                    forall|j: int| 0 <= j < im.len() && j < i ==> (#[trigger] im[j]) matches ValueModel::Str(_),
                    out@.len() == i,
                    forall|j: int|
                        0 <= j < i ==> im[j] == ValueModel::Str((#[trigger] out@[j])@),
                decreases items@.len() - i,
            {
                match &items[i] {
                    MemoryValue::Str(s) => {
                        out.push(s.clone());
                    },
                    it => {
                        proof {
                            assert(!(*it matches MemoryValue::Str(_)));
                            assert(im[i as int] == crate::value::value_model(items@[i as int]));
                            assert(!(im[i as int] matches ValueModel::Str(_)));
                            if strs_of(im) is Some {
                                assert(im[i as int] matches ValueModel::Str(_));
                                assert(false);
                            }
                        }
                        return None;
                    },
                }
                i += 1;
            }
            proof {
                if strs_of(im) is None {
                    let j = choose|j: int|
                        0 <= j < im.len() && !(#[trigger] im[j] matches ValueModel::Str(_));
                    assert(im[j] matches ValueModel::Str(_));
                }
                let ss = strs_of(im)->Some_0;
                assert(views_of(out@) =~= ss);
            }
            Some(out)
        },
        _ => None,
    }
}

/// What a value decodes to as a string dictionary.
pub open spec fn decodes_str_dict(v: ValueModel) -> Option<Seq<(Seq<char>, Seq<char>)>> {
    match v {
        ValueModel::Dict(fs) => str_pairs_of(fs),
        _ => None,
    }
}

/// Decodes a string-to-string dictionary.
pub fn decode_str_dict(v: &MemoryValue) -> (r: Option<Vec<(String, String)>>)
    ensures
        match r {
            Some(ps) => decodes_str_dict(v@) == Some(pair_views_of(ps@)),
            None => decodes_str_dict(v@) is None,
        },
{
    match v {
        MemoryValue::Dict(fs) => {
            let ghost fm = fields_model(fs@);
            proof {
                lemma_fields_model(fs@);
                lemma_str_pairs_of(fm);
            }
            let mut out: Vec<(String, String)> = Vec::new();
            let mut i: usize = 0;
            while i < fs.len()
                invariant
                    i <= fs@.len(),
                    fm == fields_model(fs@),
                    v@ == ValueModel::Dict(fm),
                    fm.len() == fs@.len(),
                    forall|j: int|
                        0 <= j < fm.len() ==> fm[j] == (
                            fs@[j].0@,
                            crate::value::value_model(fs@[j].1),
                        ),
                    str_pairs_of(fm) is Some ==> (str_pairs_of(fm) matches Some(ps) && ps.len()
                        == fm.len() && forall|j: int|
                        0 <= j < fm.len() ==> #[trigger] fm[j] == (ps[j].0, ValueModel::Str(ps[j].1))),
                    str_pairs_of(fm) is None ==> exists|j: int|
                        0 <= j < fm.len() && !(#[trigger] fm[j].1 matches ValueModel::Str(_)),
                    forall|j: int|
                        0 <= j < fm.len() && j < i ==> (#[trigger] fm[j]).1 matches ValueModel::Str(_),
                    out@.len() == i,
                    forall|j: int|
                        0 <= j < i ==> fm[j] == (
                            (#[trigger] out@[j]).0@,
                            ValueModel::Str(out@[j].1@),
                        ),
                decreases fs@.len() - i,
            {
                match &fs[i].1 {
                    MemoryValue::Str(s) => {
                        out.push((fs[i].0.clone(), s.clone()));
                    },
                    it => {
                        proof {
                            assert(!(*it matches MemoryValue::Str(_)));
                            assert(fm[i as int].1 == crate::value::value_model(fs@[i as int].1));
                            assert(!(fm[i as int].1 matches ValueModel::Str(_)));
                            if str_pairs_of(fm) is Some {
                                assert(fm[i as int].1 matches ValueModel::Str(_));
                                assert(false);
                            }
                        }
                        return None;
                    },
                }
                i += 1;
            }
            proof {
                if str_pairs_of(fm) is None {
                    let j = choose|j: int|
                        0 <= j < fm.len() && !(#[trigger] fm[j].1 matches ValueModel::Str(_));
                    assert(fm[j].1 matches ValueModel::Str(_));
                }
                let ps = str_pairs_of(fm)->Some_0;
                assert(pair_views_of(out@) =~= ps);
            }
            Some(out)
        },
        _ => None,
    }
}

/// The pointwise shape of `strs_of`.
pub proof fn lemma_strs_of(items: Seq<ValueModel>)
    ensures
        strs_of(items) is Some ==> (strs_of(items) matches Some(ss) && ss.len() == items.len()
            && forall|j: int| 0 <= j < items.len() ==> #[trigger] items[j] == ValueModel::Str(ss[j])),
        strs_of(items) is None ==> exists|j: int|
            0 <= j < items.len() && !(#[trigger] items[j] matches ValueModel::Str(_)),
    decreases items.len(),
{
    if items.len() > 0 {
        lemma_strs_of(items.drop_first());
        match items[0] {
            ValueModel::Str(s) => {
                match strs_of(items.drop_first()) {
                    Some(rest) => {
                        let ss = Seq::empty().push(s) + rest;
                        assert forall|j: int|
                            0 <= j < items.len() implies items[j] == ValueModel::Str(ss[j]) by {
                            if j > 0 {
                                assert(items.drop_first()[j - 1] == items[j]);
                                assert(rest[j - 1] == ss[j]);
                            }
                        }
                    },
                    None => {
                        let j = choose|j: int|
                            0 <= j < items.drop_first().len() && !(#[trigger] items.drop_first()[j]
                                matches ValueModel::Str(_));
                        assert(items[j + 1] == items.drop_first()[j]);
                        assert(!(items[j + 1] matches ValueModel::Str(_)));
                    },
                }
            },
            _ => {
                assert(!(items[0] matches ValueModel::Str(_)));
            },
        }
    }
}

/// The pointwise shape of `str_pairs_of`.
pub proof fn lemma_str_pairs_of(fs: Seq<(Seq<char>, ValueModel)>)
    ensures
        str_pairs_of(fs) is Some ==> (str_pairs_of(fs) matches Some(ps) && ps.len() == fs.len()
            && forall|j: int| 0 <= j < fs.len() ==> #[trigger] fs[j] == (ps[j].0, ValueModel::Str(ps[j].1))),
        str_pairs_of(fs) is None ==> exists|j: int|
            0 <= j < fs.len() && !(#[trigger] fs[j].1 matches ValueModel::Str(_)),
    decreases fs.len(),
{
    if fs.len() > 0 {
        lemma_str_pairs_of(fs.drop_first());
        match fs[0].1 {
            ValueModel::Str(s) => {
                match str_pairs_of(fs.drop_first()) {
                    Some(rest) => {
                        let ps = Seq::empty().push((fs[0].0, s)) + rest;
                        assert forall|j: int|
                            0 <= j < fs.len() implies fs[j] == (
                            ps[j].0,
                            ValueModel::Str(ps[j].1),
                        ) by {
                            if j > 0 {
                                assert(fs.drop_first()[j - 1] == fs[j]);
                                assert(rest[j - 1] == ps[j]);
                            }
                        }
                    },
                    None => {
                        let j = choose|j: int|
                            0 <= j < fs.drop_first().len() && !(#[trigger] fs.drop_first()[j].1
                                matches ValueModel::Str(_));
                        assert(fs[j + 1] == fs.drop_first()[j]);
                        assert(!(fs[j + 1].1 matches ValueModel::Str(_)));
                    },
                }
            },
            _ => {
                assert(!(fs[0].1 matches ValueModel::Str(_)));
            },
        }
    }
}

/// The encoding of a list of integers.
pub open spec fn int_list_model(xs: Seq<i64>) -> ValueModel {
    ValueModel::List(Seq::new(xs.len(), |i: int| ValueModel::Int(xs[i] as int)))
}

/// The integers of a value list, if every element is a machine integer.
pub open spec fn ints_of(items: Seq<ValueModel>) -> Option<Seq<i64>>
    decreases items.len(),
{
    if items.len() == 0 {
        Some(Seq::empty())
    } else {
        match items[0] {
            ValueModel::Int(n) => if i64::MIN <= n <= i64::MAX {
                match ints_of(items.drop_first()) {
                    Some(rest) => Some(Seq::empty().push(n as i64) + rest),
                    None => None,
                }
            } else {
                None
            },
            _ => None,
        }
    }
}

/// A model value that is a machine integer.
pub open spec fn is_mach_int(v: ValueModel) -> bool {
    v matches ValueModel::Int(n) && i64::MIN <= n <= i64::MAX
}

/// What a value decodes to as a list of integers.
pub open spec fn decodes_int_list(v: ValueModel) -> Option<Seq<i64>> {
    match v {
        ValueModel::List(items) => ints_of(items),
        _ => None,
    }
}

/// Decoding an integer-list encoding yields the integers back.
pub proof fn lemma_int_list_round_trip(xs: Seq<i64>)
    ensures
        decodes_int_list(int_list_model(xs)) == Some(xs),
    decreases xs.len(),
{
    let items = Seq::new(xs.len(), |i: int| ValueModel::Int(xs[i] as int));
    if xs.len() > 0 {
        lemma_int_list_round_trip(xs.drop_first());
        let items1 = Seq::new(
            xs.drop_first().len(),
            |i: int| ValueModel::Int(xs.drop_first()[i] as int),
        );
        assert(items.drop_first() =~= items1);
        assert(Seq::empty().push(xs[0]) + xs.drop_first() =~= xs);
    }
}

/// Encodes a list of integers.
pub fn encode_int_list(items: &Vec<i64>) -> (r: MemoryValue)
    ensures
        r@ == int_list_model(items@),
{
    let mut out: Vec<MemoryValue> = Vec::new();
    let mut i: usize = 0;
    while i < items.len()
        invariant
            i <= items@.len(),
            out@.len() == i,
            forall|j: int|
                0 <= j < i ==> crate::value::value_model(#[trigger] out@[j]) == ValueModel::Int(
                    items@[j] as int,
                ),
        decreases items@.len() - i,
    {
        out.push(MemoryValue::Int(items[i]));
        i += 1;
    }
    proof {
        lemma_list_model(out@);
        assert(list_model(out@) =~= Seq::new(items@.len(), |j: int| ValueModel::Int(items@[j] as int)));
    }
    MemoryValue::List(out)
}

/// Decodes a list of integers.
pub fn decode_int_list(v: &MemoryValue) -> (r: Option<Vec<i64>>)
    ensures
        match r {
            Some(xs) => decodes_int_list(v@) == Some(xs@),
            None => decodes_int_list(v@) is None,
        },
{
    match v {
        MemoryValue::List(items) => {
            let ghost im = list_model(items@);
            proof {
                lemma_list_model(items@);
                lemma_ints_of(im);
            }
            let mut out: Vec<i64> = Vec::new();
            let mut i: usize = 0;
            while i < items.len()
                invariant
                    i <= items@.len(),
                    im == list_model(items@),
                    v@ == ValueModel::List(im),
                    im.len() == items@.len(),
                    forall|j: int|
                        0 <= j < im.len() ==> im[j] == crate::value::value_model(items@[j]),
                    ints_of(im) is Some ==> (ints_of(im) matches Some(xs) && xs.len() == im.len()
                        && forall|j: int|
                        0 <= j < im.len() ==> #[trigger] im[j] == ValueModel::Int(xs[j] as int)),
                    ints_of(im) is None ==> exists|j: int|
                        0 <= j < im.len() && !is_mach_int(#[trigger] im[j]),
                    forall|j: int| 0 <= j < im.len() && j < i ==> is_mach_int(#[trigger] im[j]),
                    out@.len() == i,
                    forall|j: int| 0 <= j < i ==> im[j] == ValueModel::Int((#[trigger] out@[j]) as int),
                decreases items@.len() - i,
            {
                match &items[i] {
                    MemoryValue::Int(n) => {
                        out.push(*n);
                    },
                    it => {
                        proof {
                            assert(!(*it matches MemoryValue::Int(_)));
                            assert(!is_mach_int(im[i as int]));
                            if ints_of(im) is Some {
                                assert(im[i as int] == ValueModel::Int(
                                    (ints_of(im)->Some_0)[i as int] as int,
                                ));
                                assert(false);
                            }
                        }
                        return None;
                    },
                }
                i += 1;
            }
            proof {
                if ints_of(im) is None {
                    let j = choose|j: int| 0 <= j < im.len() && !is_mach_int(#[trigger] im[j]);
                    assert(is_mach_int(im[j]));
                }
                let xs = ints_of(im)->Some_0;
                assert(out@ =~= xs);
            }
            Some(out)
        },
        _ => None,
    }
}

/// The pointwise shape of `ints_of`.
pub proof fn lemma_ints_of(items: Seq<ValueModel>)
    ensures
        ints_of(items) is Some ==> (ints_of(items) matches Some(xs) && xs.len() == items.len()
            && forall|j: int|
            0 <= j < items.len() ==> #[trigger] items[j] == ValueModel::Int(xs[j] as int)),
        ints_of(items) is None ==> exists|j: int|
            0 <= j < items.len() && !is_mach_int(#[trigger] items[j]),
    decreases items.len(),
{
    if items.len() > 0 {
        lemma_ints_of(items.drop_first());
        match items[0] {
            ValueModel::Int(n) => {
                if i64::MIN <= n <= i64::MAX {
                    match ints_of(items.drop_first()) {
                        Some(rest) => {
                            let xs = Seq::empty().push(n as i64) + rest;
                            assert forall|j: int|
                                0 <= j < items.len() implies #[trigger] items[j]
                                == ValueModel::Int(xs[j] as int) by {
                                if j > 0 {
                                    assert(items.drop_first()[j - 1] == items[j]);
                                    assert(rest[j - 1] == xs[j]);
                                }
                            }
                        },
                        None => {
                            let j = choose|j: int|
                                0 <= j < items.drop_first().len() && !is_mach_int(
                                    #[trigger] items.drop_first()[j],
                                );
                            assert(items[j + 1] == items.drop_first()[j]);
                            assert(!is_mach_int(items[j + 1]));
                        },
                    }
                } else {
                    assert(!is_mach_int(items[0]));
                }
            },
            _ => {
                assert(!is_mach_int(items[0]));
            },
        }
    }
}

} // verus!
