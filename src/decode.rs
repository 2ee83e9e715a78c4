use vstd::prelude::*;

use crate::decimal::{
    digit_end, digits_value, is_digit, lemma_digit_end, read_decimal, scan_digits, NINE, ZERO,
};
use crate::model::{
    entries_view, lemma_entries_view_push, lemma_list_view_push, list_view, DecodeError, Val,
    Value,
};

verus! {

pub const COLON: u8 = 58;

pub const MINUS: u8 = 45;

pub const TAG_DICT: u8 = 100;

pub const TAG_END: u8 = 101;

pub const TAG_INT: u8 = 105;

pub const TAG_LIST: u8 = 108;

/// The deepest nesting of lists and dictionaries that the decoder accepts.
pub const MAX_DEPTH: usize = 256;

/// A byte string `<length>:<bytes>` whose length starts at `pos`: its bytes
/// and the index just past it.
pub open spec fn spec_bytes(s: Seq<u8>, pos: int) -> Result<(Seq<u8>, int), DecodeError> {
    let end = digit_end(s, pos);
    if end == pos || end >= s.len() || s[end] != COLON || (s[pos] == ZERO && end - pos > 1) {
        Err(DecodeError::InvalidLength)
    } else {
        let n = digits_value(s.subrange(pos, end)) as int;
        if n > s.len() - (end + 1) {
            Err(DecodeError::UnexpectedEof)
        } else {
            Ok((s.subrange(end + 1, end + 1 + n), end + 1 + n))
        }
    }
}

/// The body `[-]<digits>e` of an integer that starts at `pos` (just past
/// the `i`): its value and the index just past the `e`.
pub open spec fn spec_int(s: Seq<u8>, pos: int) -> Result<(int, int), DecodeError> {
    let neg = 0 <= pos < s.len() && s[pos] == MINUS;
    let start = if neg {
        pos + 1
    } else {
        pos
    };
    let end = digit_end(s, start);
    if end == start || end >= s.len() || s[end] != TAG_END || (s[start] == ZERO && (end
        - start > 1 || neg)) {
        Err(DecodeError::InvalidInteger)
    } else {
        let m = digits_value(s.subrange(start, end)) as int;
        let n = if neg {
            -m
        } else {
            m
        };
        if n < i64::MIN || n > i64::MAX {
            Err(DecodeError::InvalidInteger)
        } else {
            Ok((n, end + 1))
        }
    }
}

/// One value starting at `pos`, inside `depth` enclosing containers: the
/// value and the index just past it.
pub open spec fn parse_value(s: Seq<u8>, pos: int, depth: int) -> Result<(Val, int), DecodeError>
    decreases s.len() - pos, 0int,
{
    if pos < 0 || pos >= s.len() {
        Err(DecodeError::UnexpectedEof)
    } else if is_digit(s[pos]) {
        match spec_bytes(s, pos) {
            Ok((b, e)) => Ok((Val::Bytes(b), e)),
            Err(k) => Err(k),
        }
    } else if s[pos] == TAG_INT {
        match spec_int(s, pos + 1) {
            Ok((n, e)) => Ok((Val::Int(n), e)),
            Err(k) => Err(k),
        }
    } else if s[pos] == TAG_LIST || s[pos] == TAG_DICT {
        if depth >= MAX_DEPTH {
            Err(DecodeError::NestingTooDeep)
        } else if s[pos] == TAG_LIST {
            match parse_list(s, pos + 1, depth + 1) {
                Ok((l, e)) => Ok((Val::List(l), e)),
                Err(k) => Err(k),
            }
        } else {
            match parse_dict(s, pos + 1, depth + 1) {
                Ok((d, e)) => Ok((Val::Dict(d), e)),
                Err(k) => Err(k),
            }
        }
    } else {
        Err(DecodeError::InvalidTag)
    }
}

/// The elements of a list from `pos` up to and including its `e`.
pub open spec fn parse_list(s: Seq<u8>, pos: int, depth: int) -> Result<
    (Seq<Val>, int),
    DecodeError,
>
    decreases s.len() - pos, 1int,
{
    if pos < 0 || pos >= s.len() {
        Err(DecodeError::UnterminatedList)
    } else if s[pos] == TAG_END {
        Ok((Seq::empty(), pos + 1))
    } else {
        match parse_value(s, pos, depth) {
            Err(k) => Err(k),
            Ok((v, p)) => if p <= pos || p > s.len() {
                Err(DecodeError::UnterminatedList)
            } else {
                match parse_list(s, p, depth) {
                    Ok((vs, e)) => Ok((seq![v] + vs, e)),
                    Err(k) => Err(k),
                }
            },
        }
    }
}

/// The entries of a dictionary from `pos` up to and including its `e`.
pub open spec fn parse_dict(s: Seq<u8>, pos: int, depth: int) -> Result<
    (Seq<(Seq<u8>, Val)>, int),
    DecodeError,
>
    decreases s.len() - pos, 1int,
{
    if pos < 0 || pos >= s.len() {
        Err(DecodeError::UnterminatedDict)
    } else if s[pos] == TAG_END {
        Ok((Seq::empty(), pos + 1))
    } else if !is_digit(s[pos]) {
        Err(DecodeError::InvalidKey)
    } else {
        match spec_bytes(s, pos) {
            Err(k) => Err(k),
            Ok((key, q)) => if q <= pos || q >= s.len() {
                Err(DecodeError::UnterminatedDict)
            } else {
                match parse_value(s, q, depth) {
                    Err(k) => Err(k),
                    Ok((v, p)) => if p <= q || p > s.len() {
                        Err(DecodeError::UnterminatedDict)
                    } else {
                        match parse_dict(s, p, depth) {
                            Ok((es, e)) => Ok((seq![(key, v)] + es, e)),
                            Err(k) => Err(k),
                        }
                    },
                }
            },
        }
    }
}

/// Decoding of a whole input: one value that must end where the input ends.
pub open spec fn spec_decode(s: Seq<u8>) -> Result<Val, DecodeError> {
    match parse_value(s, 0, 0) {
        Ok((v, e)) => if e == s.len() {
            Ok(v)
        } else {
            Err(DecodeError::TrailingData)
        },
        Err(k) => Err(k),
    }
}


/// Reads the byte string whose length starts at `pos`.
fn read_bytes(s: &[u8], pos: usize) -> (r: Result<(Vec<u8>, usize), DecodeError>)
    requires
        pos <= s@.len(),
    ensures
        match r {
            Ok((b, e)) => spec_bytes(s@, pos as int) == Ok::<_, DecodeError>((b@, e as int)) && pos
                < e <= s@.len(),
            Err(k) => spec_bytes(s@, pos as int) == Err::<(Seq<u8>, int), _>(k),
        },
{
    let end = scan_digits(s, pos);
    proof {
        lemma_digit_end(s@, pos as int);
    }
    if end == pos || end >= s.len() || s[end] != COLON || (s[pos] == ZERO && end - pos > 1) {
        return Err(DecodeError::InvalidLength);
    }
    let avail = s.len() - (end + 1);
    match read_decimal(s, pos, end, avail as u64) {
        None => Err(DecodeError::UnexpectedEof),
        Some(n) => {
            let start = end + 1;
            let stop = start + n as usize;
            let mut out: Vec<u8> = Vec::new();
            let mut i: usize = start;
            while i < stop
                invariant
                    start <= i <= stop <= s@.len(),
                    out@ == s@.subrange(start as int, i as int),
                decreases stop - i,
            {
                out.push(s[i]);
                i = i + 1;
                assert(out@ =~= s@.subrange(start as int, i as int));
            }
            Ok((out, stop))
        },
    }
}

/// Reads the body of an integer that starts just past its `i`.
fn read_int(s: &[u8], pos: usize) -> (r: Result<(i64, usize), DecodeError>)
    requires
        pos <= s@.len(),
    ensures
        match r {
            Ok((n, e)) => spec_int(s@, pos as int) == Ok::<_, DecodeError>((n as int, e as int))
                && pos < e <= s@.len(),
            Err(k) => spec_int(s@, pos as int) == Err::<(int, int), _>(k),
        },
{
    let neg = pos < s.len() && s[pos] == MINUS;
    let start = if neg {
        pos + 1
    } else {
        pos
    };
    let end = scan_digits(s, start);
    proof {
        lemma_digit_end(s@, start as int);
    }
    if end == start || end >= s.len() || s[end] != TAG_END || (s[start] == ZERO && (end - start
        > 1 || neg)) {
        return Err(DecodeError::InvalidInteger);
    }
    let cap: u64 = if neg {
        9223372036854775808
    } else {
        9223372036854775807
    };
    match read_decimal(s, start, end, cap) {
        None => Err(DecodeError::InvalidInteger),
        Some(m) => {
            let n: i64 = if !neg {
                m as i64
            } else if m == 9223372036854775808 {
                i64::MIN
            } else {
                -(m as i64)
            };
            Ok((n, end + 1))
        },
    }
}

/// Decodes one value starting at `pos`, inside `depth` enclosing containers.
fn value_at(s: &[u8], pos: usize, depth: usize) -> (r: Result<(Value, usize), DecodeError>)
    requires
        pos <= s@.len(),
        depth <= MAX_DEPTH,
    ensures
        match r {
            Ok((v, e)) => parse_value(s@, pos as int, depth as int) == Ok::<_, DecodeError>(
                (v@, e as int),
            ) && pos < e <= s@.len(),
            Err(k) => parse_value(s@, pos as int, depth as int) == Err::<(Val, int), _>(k),
        },
    decreases s@.len() - pos, 0int,
{
    if pos >= s.len() {
        return Err(DecodeError::UnexpectedEof);
    }
    let tag = s[pos];
    if ZERO <= tag && tag <= NINE {
        match read_bytes(s, pos) {
            Ok((b, e)) => Ok((Value::Bytes(b), e)),
            Err(k) => Err(k),
        }
    } else if tag == TAG_INT {
        match read_int(s, pos + 1) {
            Ok((n, e)) => Ok((Value::Int(n), e)),
            Err(k) => Err(k),
        }
    } else if tag == TAG_LIST || tag == TAG_DICT {
        if depth >= MAX_DEPTH {
            Err(DecodeError::NestingTooDeep)
        } else if tag == TAG_LIST {
            match list_at(s, pos + 1, depth + 1) {
                Ok((l, e)) => Ok((Value::List(l), e)),
                Err(k) => Err(k),
            }
        } else {
            match dict_at(s, pos + 1, depth + 1) {
                Ok((d, e)) => Ok((Value::Dict(d), e)),
                Err(k) => Err(k),
            }
        }
    } else {
        Err(DecodeError::InvalidTag)
    }
}

/// What a list parse from some point gives, once `done` has been read before it.
pub open spec fn after_list(done: Seq<Val>, rest: Result<(Seq<Val>, int), DecodeError>) -> Result<
    (Seq<Val>, int),
    DecodeError,
> {
    match rest {
        Ok((vs, e)) => Ok((done + vs, e)),
        Err(k) => Err(k),
    }
}

/// What a dictionary parse from some point gives, once `done` has been read before it.
pub open spec fn after_dict(
    done: Seq<(Seq<u8>, Val)>,
    rest: Result<(Seq<(Seq<u8>, Val)>, int), DecodeError>,
) -> Result<(Seq<(Seq<u8>, Val)>, int), DecodeError> {
    match rest {
        Ok((es, e)) => Ok((done + es, e)),
        Err(k) => Err(k),
    }
}

/// Decodes list elements from `pos` through the closing `e`.
fn list_at(s: &[u8], pos: usize, depth: usize) -> (r: Result<(Vec<Value>, usize), DecodeError>)
    requires
        pos <= s@.len(),
        depth <= MAX_DEPTH,
    ensures
        match r {
            Ok((l, e)) => parse_list(s@, pos as int, depth as int) == Ok::<_, DecodeError>(
                (list_view(l@), e as int),
            ) && pos < e <= s@.len(),
            Err(k) => parse_list(s@, pos as int, depth as int) == Err::<(Seq<Val>, int), _>(k),
        },
    decreases s@.len() - pos, 1int,
{
    let mut items: Vec<Value> = Vec::new();
    let mut p: usize = pos;
    assert(list_view(items@) =~= Seq::<Val>::empty());
    assert(after_list(Seq::empty(), parse_list(s@, pos as int, depth as int)) =~= parse_list(s@, pos as int, depth as int));
    loop
        invariant
            pos <= p <= s@.len(),
            depth <= MAX_DEPTH,
            parse_list(s@, pos as int, depth as int) == after_list(
                list_view(items@),
                parse_list(s@, p as int, depth as int),
            ),
        decreases s@.len() - p,
    {
        if p >= s.len() {
            return Err(DecodeError::UnterminatedList);
        }
        if s[p] == TAG_END {
            assert(list_view(items@) + Seq::<Val>::empty() =~= list_view(items@));
            return Ok((items, p + 1));
        }
        match value_at(s, p, depth) {
            Err(k) => {
                return Err(k);
            },
            Ok((v, q)) => {
                proof {
                    lemma_list_view_push(items@, v);
                    let rest = parse_list(s@, q as int, depth as int);
                    if let Ok((vs, e)) = rest {
                        assert(list_view(items@) + (seq![v@] + vs) =~= list_view(items@).push(v@)
                            + vs);
                    }
                }
                items.push(v);
                p = q;
            },
        }
    }
}

/// Decodes dictionary entries from `pos` through the closing `e`.
fn dict_at(s: &[u8], pos: usize, depth: usize) -> (r: Result<
    (Vec<(Vec<u8>, Value)>, usize),
    DecodeError,
>)
    requires
        pos <= s@.len(),
        depth <= MAX_DEPTH,
    ensures
        match r {
            Ok((d, e)) => parse_dict(s@, pos as int, depth as int) == Ok::<_, DecodeError>(
                (entries_view(d@), e as int),
            ) && pos < e <= s@.len(),
            Err(k) => parse_dict(s@, pos as int, depth as int) == Err::<
                (Seq<(Seq<u8>, Val)>, int),
                _,
            >(k),
        },
    decreases s@.len() - pos, 1int,
{
    let mut entries: Vec<(Vec<u8>, Value)> = Vec::new();
    let mut p: usize = pos;
    assert(entries_view(entries@) =~= Seq::<(Seq<u8>, Val)>::empty());
    assert(after_dict(Seq::empty(), parse_dict(s@, pos as int, depth as int)) =~= parse_dict(s@, pos as int, depth as int));
    loop
        invariant
            pos <= p <= s@.len(),
            depth <= MAX_DEPTH,
            parse_dict(s@, pos as int, depth as int) == after_dict(
                entries_view(entries@),
                parse_dict(s@, p as int, depth as int),
            ),
        decreases s@.len() - p,
    {
        if p >= s.len() {
            return Err(DecodeError::UnterminatedDict);
        }
        let b = s[p];
        if b == TAG_END {
            assert(entries_view(entries@) + Seq::<(Seq<u8>, Val)>::empty() =~= entries_view(entries@));
            return Ok((entries, p + 1));
        }
        if !(ZERO <= b && b <= NINE) {
            return Err(DecodeError::InvalidKey);
        }
        let (key, q) = match read_bytes(s, p) {
            Ok(x) => x,
            Err(k) => {
                return Err(k);
            },
        };
        if q >= s.len() {
            return Err(DecodeError::UnterminatedDict);
        }
        match value_at(s, q, depth) {
            Err(k) => {
                return Err(k);
            },
            Ok((v, e)) => {
                proof {
                    lemma_entries_view_push(entries@, (key, v));
                    let rest = parse_dict(s@, e as int, depth as int);
                    if let Ok((es, f)) = rest {
                        assert(entries_view(entries@) + (seq![(key@, v@)] + es) =~= entries_view(
                            entries@,
                        ).push((key@, v@)) + es);
                    }
                }
                entries.push((key, v));
                p = e;
            },
        }
    }
}

/// Decodes the one value at the start of `input` and reports how many bytes
/// it took; whatever follows is left alone.
pub fn decode_prefix(input: &[u8]) -> (r: Result<(Value, usize), DecodeError>)
    ensures
        match r {
            Ok((v, n)) => parse_value(input@, 0, 0) == Ok::<_, DecodeError>((v@, n as int)) && 0
                < n <= input@.len(),
            Err(k) => parse_value(input@, 0, 0) == Err::<(Val, int), _>(k),
        },
{
    value_at(input, 0, 0)
}

/// Decodes `input` as exactly one value; bytes after it are an error.
pub fn decode(input: &[u8]) -> (r: Result<Value, DecodeError>)
    ensures
        match r {
            Ok(v) => spec_decode(input@) == Ok::<_, DecodeError>(v@),
            Err(k) => spec_decode(input@) == Err::<Val, _>(k),
        },
{
    match value_at(input, 0, 0) {
        Ok((v, n)) => if n == input.len() {
            Ok(v)
        } else {
            Err(DecodeError::TrailingData)
        },
        Err(k) => Err(k),
    }
}

} // verus!
