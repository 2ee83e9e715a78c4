use vstd::prelude::*;
use vstd::string::StringSliceAdditionalSpecFns;
use vstd::utf8::{decode_utf8, valid_utf8};

use crate::decode::{decode_prefix, parse_value};
use crate::model::{entries_view, lemma_entries_view, lemma_list_view, list_view, DecodeError, Val, Value};

verus! {

/// The interchange form of a decoded value: text, numbers, arrays and
/// objects, as JSON-based tools take them.
///
/// Numbers are signed 64-bit integers, the width of [`Value::Int`], so no
/// integer is ever narrowed. Object members keep the dictionary's order,
/// repeated keys included.
#[derive(PartialEq, Eq, Debug)]
pub enum Json {
    Str(String),
    Int(i64),
    Array(Vec<Json>),
    Object(Vec<(String, Json)>),
}

/// The mathematical model of a [`Json`].
pub enum JsonVal {
    Str(Seq<char>),
    Int(int),
    Array(Seq<JsonVal>),
    Object(Seq<(Seq<char>, JsonVal)>),
}

pub open spec fn json_view(j: Json) -> JsonVal
    decreases j,
{
    match j {
        Json::Str(t) => JsonVal::Str(t@),
        Json::Int(i) => JsonVal::Int(i as int),
        Json::Array(a) => JsonVal::Array(array_view(a@)),
        Json::Object(o) => JsonVal::Object(members_view(o@)),
    }
}

pub open spec fn array_view(a: Seq<Json>) -> Seq<JsonVal>
    decreases a,
{
    if a.len() == 0 {
        Seq::empty()
    } else {
        seq![json_view(a[0])] + array_view(a.subrange(1, a.len() as int))
    }
}

pub open spec fn members_view(o: Seq<(String, Json)>) -> Seq<(Seq<char>, JsonVal)>
    decreases o,
{
    if o.len() == 0 {
        Seq::empty()
    } else {
        seq![(o[0].0@, json_view(o[0].1))] + members_view(o.subrange(1, o.len() as int))
    }
}

impl View for Json {
    type V = JsonVal;

    open spec fn view(&self) -> JsonVal {
        json_view(*self)
    }
}

pub proof fn lemma_array_view(a: Seq<Json>)
    ensures
        array_view(a).len() == a.len(),
        forall|i: int| 0 <= i < a.len() ==> #[trigger] array_view(a)[i] == json_view(a[i]),
    decreases a.len(),
{
    if a.len() > 0 {
        lemma_array_view(a.subrange(1, a.len() as int));
    }
}

pub proof fn lemma_array_view_push(a: Seq<Json>, x: Json)
    ensures
        array_view(a.push(x)) == array_view(a).push(json_view(x)),
{
    lemma_array_view(a);
    lemma_array_view(a.push(x));
    assert(array_view(a.push(x)) =~= array_view(a).push(json_view(x)));
}

pub proof fn lemma_members_view(o: Seq<(String, Json)>)
    ensures
        members_view(o).len() == o.len(),
        forall|i: int|
            0 <= i < o.len() ==> #[trigger] members_view(o)[i] == (o[i].0@, json_view(o[i].1)),
    decreases o.len(),
{
    if o.len() > 0 {
        lemma_members_view(o.subrange(1, o.len() as int));
    }
}

pub proof fn lemma_members_view_push(o: Seq<(String, Json)>, x: (String, Json))
    ensures
        members_view(o.push(x)) == members_view(o).push((x.0@, json_view(x.1))),
{
    lemma_members_view(o);
    lemma_members_view(o.push(x));
    assert(members_view(o.push(x)) =~= members_view(o).push((x.0@, json_view(x.1))));
}

/// The interchange form of a value: byte strings must be UTF-8 text, and so
/// must dictionary keys.
pub open spec fn json_of(v: Val) -> Result<JsonVal, DecodeError>
    decreases v,
{
    match v {
        Val::Bytes(b) => if valid_utf8(b) {
            Ok(JsonVal::Str(decode_utf8(b)))
        } else {
            Err(DecodeError::NotUtf8)
        },
        Val::Int(n) => Ok(JsonVal::Int(n)),
        Val::List(l) => match array_of(l) {
            Ok(a) => Ok(JsonVal::Array(a)),
            Err(k) => Err(k),
        },
        Val::Dict(d) => match object_of(d) {
            Ok(o) => Ok(JsonVal::Object(o)),
            Err(k) => Err(k),
        },
    }
}

pub open spec fn array_of(l: Seq<Val>) -> Result<Seq<JsonVal>, DecodeError>
    decreases l,
{
    if l.len() == 0 {
        Ok(Seq::empty())
    } else {
        match json_of(l[0]) {
            Err(k) => Err(k),
            Ok(j) => match array_of(l.subrange(1, l.len() as int)) {
                Ok(js) => Ok(seq![j] + js),
                Err(k) => Err(k),
            },
        }
    }
}

pub open spec fn object_of(d: Seq<(Seq<u8>, Val)>) -> Result<Seq<(Seq<char>, JsonVal)>, DecodeError>
    decreases d,
{
    if d.len() == 0 {
        Ok(Seq::empty())
    } else if !valid_utf8(d[0].0) {
        Err(DecodeError::KeyNotUtf8)
    } else {
        match json_of(d[0].1) {
            Err(k) => Err(k),
            Ok(j) => match object_of(d.subrange(1, d.len() as int)) {
                Ok(ms) => Ok(seq![(decode_utf8(d[0].0), j)] + ms),
                Err(k) => Err(k),
            },
        }
    }
}

/// Relies on std::str::from_utf8: it accepts exactly the valid UTF-8 byte
/// sequences and then reads their characters.
#[verifier::external_body]
fn text_of(b: &[u8]) -> (r: Option<&str>)
    ensures
        match r {
            Some(t) => valid_utf8(b@) && t@ == decode_utf8(b@),
            None => !valid_utf8(b@),
        },
{
    std::str::from_utf8(b).ok()
}

/// Converts a value to its interchange form.
pub fn to_json(v: &Value) -> (r: Result<Json, DecodeError>)
    ensures
        match r {
            Ok(j) => json_of(v@) == Ok::<_, DecodeError>(j@),
            Err(k) => json_of(v@) == Err::<JsonVal, _>(k),
        },
    decreases v,
{
    match v {
        Value::Bytes(b) => match text_of(b.as_slice()) {
            Some(t) => Ok(Json::Str(t.to_owned())),
            None => Err(DecodeError::NotUtf8),
        },
        Value::Int(n) => Ok(Json::Int(*n)),
        Value::List(l) => {
            let mut out: Vec<Json> = Vec::new();
            let mut i: usize = 0;
            proof {
                lemma_list_view(l@);
                assert(list_view(l@).subrange(0, l@.len() as int) =~= list_view(l@));
                assert(array_view(out@) =~= Seq::<JsonVal>::empty());
            }
            while i < l.len()
                invariant
                    *v == Value::List(*l),
                    i <= l@.len(),
                    list_view(l@).len() == l@.len(),
                    forall|k: int| 0 <= k < l@.len() ==> #[trigger] list_view(l@)[k] == l@[k]@,
                    array_of(list_view(l@)) == (match array_of(list_view(l@).subrange(i as int, l@.len() as int)) {
                        Ok(js) => Ok(array_view(out@) + js),
                        Err(k) => Err::<Seq<JsonVal>, DecodeError>(k),
                    }),
                decreases l@.len() - i,
            {
                proof {
                    assert(decreases_to!(l => l[i as int]));
                    assert(decreases_to!(*v => *l));
                    assert(decreases_to!(*v => l[i as int]));
                    let sub = list_view(l@).subrange(i as int, l@.len() as int);
                    assert(sub[0] == l@[i as int]@);
                    assert(sub.subrange(1, sub.len() as int) =~= list_view(l@).subrange(i + 1, l@.len() as int));
                }
                let j = match to_json(&l[i]) {
                    Ok(j) => j,
                    Err(k) => {
                        return Err(k);
                    },
                };
                proof {
                    lemma_array_view_push(out@, j);
                    if let Ok(js) = array_of(list_view(l@).subrange(i + 1, l@.len() as int)) {
                        assert(array_view(out@) + (seq![j@] + js) =~= array_view(out@).push(j@) + js);
                    }
                }
                out.push(j);
                i = i + 1;
            }
            proof {
                assert(list_view(l@).subrange(i as int, l@.len() as int) =~= Seq::<Val>::empty());
                assert(array_view(out@) + Seq::<JsonVal>::empty() =~= array_view(out@));
            }
            Ok(Json::Array(out))
        },
        Value::Dict(d) => {
            let mut out: Vec<(String, Json)> = Vec::new();
            let mut i: usize = 0;
            proof {
                lemma_entries_view(d@);
                assert(entries_view(d@).subrange(0, d@.len() as int) =~= entries_view(d@));
                assert(members_view(out@) =~= Seq::<(Seq<char>, JsonVal)>::empty());
            }
            while i < d.len()
                invariant
                    *v == Value::Dict(*d),
                    i <= d@.len(),
                    entries_view(d@).len() == d@.len(),
                    forall|k: int| 0 <= k < d@.len() ==> #[trigger] entries_view(d@)[k] == (d@[k].0@, d@[k].1@),
                    object_of(entries_view(d@)) == (match object_of(entries_view(d@).subrange(i as int, d@.len() as int)) {
                        Ok(ms) => Ok(members_view(out@) + ms),
                        Err(k) => Err::<Seq<(Seq<char>, JsonVal)>, DecodeError>(k),
                    }),
                decreases d@.len() - i,
            {
                proof {
                    let sub = entries_view(d@).subrange(i as int, d@.len() as int);
                    assert(sub[0] == (d@[i as int].0@, d@[i as int].1@));
                    assert(sub.subrange(1, sub.len() as int) =~= entries_view(d@).subrange(i + 1, d@.len() as int));
                }
                let key = match text_of(d[i].0.as_slice()) {
                    Some(t) => t.to_owned(),
                    None => {
                        return Err(DecodeError::KeyNotUtf8);
                    },
                };
                proof {
                    assert(decreases_to!(d => d[i as int]));
                    assert(decreases_to!(d[i as int] => d[i as int].1));
                    assert(decreases_to!(*v => *d));
                    assert(decreases_to!(*v => d[i as int].1));
                }
                let j = match to_json(&d[i].1) {
                    Ok(j) => j,
                    Err(k) => {
                        return Err(k);
                    },
                };
                proof {
                    lemma_members_view_push(out@, (key, j));
                    if let Ok(ms) = object_of(entries_view(d@).subrange(i + 1, d@.len() as int)) {
                        assert(members_view(out@) + (seq![(key@, j@)] + ms) =~= members_view(out@).push((key@, j@)) + ms);
                    }
                }
                out.push((key, j));
                i = i + 1;
            }
            proof {
                assert(entries_view(d@).subrange(i as int, d@.len() as int) =~= Seq::<(Seq<u8>, Val)>::empty());
                assert(members_view(out@) + Seq::<(Seq<char>, JsonVal)>::empty() =~= members_view(out@));
            }
            Ok(Json::Object(out))
        },
    }
}

/// The interchange form of the value at the start of `s`; bytes after that
/// value are ignored.
pub open spec fn spec_decode_json(s: Seq<u8>) -> Result<JsonVal, DecodeError> {
    match parse_value(s, 0, 0) {
        Ok((v, _)) => json_of(v),
        Err(k) => Err(k),
    }
}

/// Decodes the bencode value at the start of `encoded_value` (read as its
/// UTF-8 bytes) and converts it to its interchange form. Bytes after the
/// value are ignored: `5:helloo` gives `"hello"`.
pub fn decode_bencoded_value(encoded_value: &str) -> (r: Result<Json, DecodeError>)
    ensures
        match r {
            Ok(j) => spec_decode_json(encoded_value.spec_bytes()) == Ok::<_, DecodeError>(j@),
            Err(k) => spec_decode_json(encoded_value.spec_bytes()) == Err::<JsonVal, _>(k),
        },
{
    let bytes = encoded_value.as_bytes();
    match decode_prefix(bytes) {
        Ok((v, _)) => to_json(&v),
        Err(k) => Err(k),
    }
}

} // verus!
