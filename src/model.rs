use vstd::prelude::*;

verus! {

/// A bencode value: a byte string, an integer, a list or a dictionary.
///
/// Dictionary entries are kept in the order in which they were read or
/// built; the encoder emits them in ascending key order.
#[derive(PartialEq, Eq, Debug)]
pub enum Value {
    Bytes(Vec<u8>),
    Int(i64),
    List(Vec<Value>),
    Dict(Vec<(Vec<u8>, Value)>),
}

/// The mathematical model of a [`Value`].
pub enum Val {
    Bytes(Seq<u8>),
    Int(int),
    List(Seq<Val>),
    Dict(Seq<(Seq<u8>, Val)>),
}

/// Why a bencode input was rejected, or why a value has no interchange form.
#[derive(PartialEq, Eq, Structural, Clone, Copy, Debug)]
pub enum DecodeError {
    /// A value starts with a byte other than a digit, `i`, `l` or `d`.
    InvalidTag,
    /// A byte-string length is empty, has a leading zero or lacks its `:`.
    InvalidLength,
    /// The input ends where a value should start, or a byte string declares
    /// more bytes than remain.
    UnexpectedEof,
    /// An integer is empty, has a leading zero, is `-0`, holds a non-digit,
    /// lacks its `e`, or does not fit in 64 bits.
    InvalidInteger,
    /// A list is missing its closing `e`.
    UnterminatedList,
    /// A dictionary is missing its closing `e`, or ends after a key.
    UnterminatedDict,
    /// A dictionary key is not a byte string.
    InvalidKey,
    /// A byte string is not UTF-8 text.
    NotUtf8,
    /// A dictionary key is not UTF-8 text.
    KeyNotUtf8,
    /// Lists and dictionaries nest deeper than the decoder accepts.
    NestingTooDeep,
    /// Bytes follow the value where the whole input should be one value.
    TrailingData,
}

pub open spec fn value_view(v: Value) -> Val
    decreases v,
{
    match v {
        Value::Bytes(b) => Val::Bytes(b@),
        Value::Int(i) => Val::Int(i as int),
        Value::List(l) => Val::List(list_view(l@)),
        Value::Dict(d) => Val::Dict(entries_view(d@)),
    }
}

pub open spec fn list_view(l: Seq<Value>) -> Seq<Val>
    decreases l,
{
    if l.len() == 0 {
        Seq::empty()
    } else {
        seq![value_view(l[0])] + list_view(l.subrange(1, l.len() as int))
    }
}

pub open spec fn entries_view(d: Seq<(Vec<u8>, Value)>) -> Seq<(Seq<u8>, Val)>
    decreases d,
{
    if d.len() == 0 {
        Seq::empty()
    } else {
        seq![(d[0].0@, value_view(d[0].1))] + entries_view(d.subrange(1, d.len() as int))
    }
}

impl View for Value {
    type V = Val;

    open spec fn view(&self) -> Val {
        value_view(*self)
    }
}

} // verus!

verus! {

pub proof fn lemma_list_view(l: Seq<Value>)
    ensures
        list_view(l).len() == l.len(),
        forall|i: int| 0 <= i < l.len() ==> #[trigger] list_view(l)[i] == value_view(l[i]),
    decreases l.len(),
{
    if l.len() > 0 {
        lemma_list_view(l.subrange(1, l.len() as int));
    }
}

pub proof fn lemma_list_view_push(l: Seq<Value>, x: Value)
    ensures
        list_view(l.push(x)) == list_view(l).push(value_view(x)),
{
    lemma_list_view(l);
    lemma_list_view(l.push(x));
    assert(list_view(l.push(x)) =~= list_view(l).push(value_view(x)));
}

pub proof fn lemma_entries_view(d: Seq<(Vec<u8>, Value)>)
    ensures
        entries_view(d).len() == d.len(),
        forall|i: int|
            0 <= i < d.len() ==> #[trigger] entries_view(d)[i] == (d[i].0@, value_view(d[i].1)),
    decreases d.len(),
{
    if d.len() > 0 {
        lemma_entries_view(d.subrange(1, d.len() as int));
    }
}

pub proof fn lemma_entries_view_push(d: Seq<(Vec<u8>, Value)>, x: (Vec<u8>, Value))
    ensures
        entries_view(d.push(x)) == entries_view(d).push((x.0@, value_view(x.1))),
{
    lemma_entries_view(d);
    lemma_entries_view(d.push(x));
    assert(entries_view(d.push(x)) =~= entries_view(d).push((x.0@, value_view(x.1))));
}

} // verus!
