use vstd::prelude::*;

use crate::decimal::{decimal, digit_end, digits_value, is_digit, lemma_decimal, ZERO};
use crate::decode::{
    parse_dict, parse_list, parse_value, spec_bytes, spec_decode, spec_int, COLON, MAX_DEPTH,
    MINUS, TAG_DICT, TAG_END, TAG_INT, TAG_LIST,
};
use crate::encode::{
    enc, enc_bytes, enc_entries, enc_int, enc_list, insert_pair, join, key_le, sort_pairs,
};
use crate::json::{json_of, JsonVal};
use crate::model::Val;
use vstd::utf8::valid_utf8;

verus! {

/// `t` stands in `s` from index `pos` on.
pub open spec fn occurs_at(s: Seq<u8>, pos: int, t: Seq<u8>) -> bool {
    0 <= pos && pos + t.len() <= s.len() && s.subrange(pos, pos + t.len()) == t
}

/// A value that decoding gives back from its encoding, when it stands inside
/// `depth` containers: integers fit in 64 bits, each dictionary lists its
/// keys in ascending raw-byte order, and nesting stays within `MAX_DEPTH`.
pub open spec fn canonical_at(v: Val, depth: int) -> bool
    decreases v,
{
    match v {
        Val::Bytes(_) => true,
        Val::Int(n) => i64::MIN <= n <= i64::MAX,
        Val::List(l) => depth < MAX_DEPTH && canonical_list(l, depth + 1),
        Val::Dict(d) => depth < MAX_DEPTH && canonical_entries(d, depth + 1),
    }
}

pub open spec fn canonical_list(l: Seq<Val>, depth: int) -> bool
    decreases l,
{
    l.len() == 0 || (canonical_at(l[0], depth) && canonical_list(
        l.subrange(1, l.len() as int),
        depth,
    ))
}

pub open spec fn canonical_entries(d: Seq<(Seq<u8>, Val)>, depth: int) -> bool
    decreases d,
{
    d.len() == 0 || (canonical_at(d[0].1, depth) && (d.len() == 1 || key_le(d[0].0, d[1].0))
        && canonical_entries(d.subrange(1, d.len() as int), depth))
}

proof fn lemma_occurs_split(s: Seq<u8>, pos: int, a: Seq<u8>, b: Seq<u8>)
    requires
        occurs_at(s, pos, a + b),
    ensures
        occurs_at(s, pos, a),
        occurs_at(s, pos + a.len(), b),
{
    let w = s.subrange(pos, pos + (a + b).len());
    assert(w == a + b);
    assert(s.subrange(pos, pos + a.len()) =~= w.subrange(0, a.len() as int));
    assert(w.subrange(0, a.len() as int) =~= a);
    assert(s.subrange(pos + a.len(), pos + a.len() + b.len()) =~= w.subrange(
        a.len() as int,
        (a.len() + b.len()) as int,
    ));
    assert(w.subrange(a.len() as int, (a.len() + b.len()) as int) =~= b);
}

proof fn lemma_occurs_index(s: Seq<u8>, pos: int, t: Seq<u8>, k: int)
    requires
        occurs_at(s, pos, t),
        0 <= k < t.len(),
    ensures
        s[pos + k] == t[k],
{
    assert(s.subrange(pos, pos + t.len())[k] == s[pos + k]);
}

proof fn lemma_digit_end_exact(s: Seq<u8>, i: int, j: int)
    requires
        0 <= i <= j < s.len(),
        forall|k: int| i <= k < j ==> is_digit(#[trigger] s[k]),
        !is_digit(s[j]),
    ensures
        digit_end(s, i) == j,
    decreases j - i,
{
    if i < j {
        lemma_digit_end_exact(s, i + 1, j);
    }
}

/// The digits of `decimal(n)` at `pos`, followed by a non-digit, read back as `n`.
proof fn lemma_read_decimal_at(s: Seq<u8>, pos: int, n: nat)
    requires
        occurs_at(s, pos, decimal(n)),
        pos + decimal(n).len() < s.len(),
        !is_digit(s[pos + decimal(n).len()]),
    ensures
        digit_end(s, pos) == pos + decimal(n).len(),
        s.subrange(pos, pos + decimal(n).len()) == decimal(n),
        digits_value(decimal(n)) == n,
        decimal(n).len() >= 1,
        decimal(n).len() > 1 ==> s[pos] != ZERO,
        s[pos] == ZERO <==> n == 0,
        is_digit(s[pos]),
{
    lemma_decimal(n);
    let d = decimal(n);
    assert forall|k: int| pos <= k < pos + d.len() implies is_digit(#[trigger] s[k]) by {
        lemma_occurs_index(s, pos, d, k - pos);
    }
    lemma_occurs_index(s, pos, d, 0);
    lemma_digit_end_exact(s, pos, pos + d.len());
}

proof fn lemma_bytes_round_trip(s: Seq<u8>, pos: int, b: Seq<u8>)
    requires
        occurs_at(s, pos, enc_bytes(b)),
    ensures
        spec_bytes(s, pos) == Ok::<_, crate::model::DecodeError>((b, pos + enc_bytes(b).len())),
        is_digit(s[pos]),
{
    let d = decimal(b.len());
    lemma_occurs_split(s, pos, d + seq![COLON], b);
    lemma_occurs_split(s, pos, d, seq![COLON]);
    lemma_occurs_index(s, pos + d.len(), seq![COLON], 0);
    lemma_read_decimal_at(s, pos, b.len());
    let end = pos + d.len();
    assert(s.subrange(end + 1, end + 1 + b.len()) == b);
}

proof fn lemma_int_round_trip(s: Seq<u8>, pos: int, n: int, depth: int)
    requires
        occurs_at(s, pos, enc_int(n)),
        i64::MIN <= n <= i64::MAX,
    ensures
        parse_value(s, pos, depth) == Ok::<_, crate::model::DecodeError>(
            (Val::Int(n), pos + enc_int(n).len()),
        ),
{
    let mag: nat = if n < 0 {
        (-n) as nat
    } else {
        n as nat
    };
    let body = if n < 0 {
        seq![MINUS] + decimal(mag)
    } else {
        decimal(mag)
    };
    lemma_occurs_split(s, pos, seq![TAG_INT] + body, seq![TAG_END]);
    lemma_occurs_split(s, pos, seq![TAG_INT], body);
    lemma_occurs_index(s, pos, seq![TAG_INT], 0);
    lemma_occurs_index(s, pos + 1 + body.len(), seq![TAG_END], 0);
    let start = if n < 0 {
        pos + 2
    } else {
        pos + 1
    };
    if n < 0 {
        lemma_occurs_split(s, pos + 1, seq![MINUS], decimal(mag));
        lemma_occurs_index(s, pos + 1, seq![MINUS], 0);
    }
    lemma_read_decimal_at(s, start, mag);
    assert(spec_int(s, pos + 1) == Ok::<_, crate::model::DecodeError>(
        (n, pos + enc_int(n).len()),
    ));
}

proof fn lemma_enc_first(v: Val)
    ensures
        enc(v).len() >= 1,
        enc(v)[0] != TAG_END,
{
    match v {
        Val::Bytes(b) => {
            lemma_decimal(b.len());
        },
        _ => {},
    }
}

proof fn lemma_sorted_pairs(ps: Seq<(Seq<u8>, Seq<u8>)>)
    requires
        forall|i: int| 0 <= i < ps.len() - 1 ==> key_le(#[trigger] ps[i].0, ps[i + 1].0),
    ensures
        sort_pairs(ps) == ps,
    decreases ps.len(),
{
    if ps.len() > 0 {
        let t = ps.drop_first();
        assert forall|i: int| 0 <= i < t.len() - 1 implies key_le(#[trigger] t[i].0, t[i + 1].0) by {
            assert(t[i] == ps[i + 1]);
        }
        lemma_sorted_pairs(t);
        if t.len() > 0 {
            assert(key_le(ps[0].0, ps[1].0));
        }
        assert(seq![ps[0]] + t =~= ps);
    }
}

proof fn lemma_enc_entries_keys(d: Seq<(Seq<u8>, Val)>, depth: int)
    requires
        canonical_entries(d, depth),
    ensures
        enc_entries(d).len() == d.len(),
        forall|i: int| 0 <= i < d.len() ==> (#[trigger] enc_entries(d)[i]).0 == d[i].0,
        forall|i: int| 0 <= i < d.len() - 1 ==> key_le(#[trigger] d[i].0, d[i + 1].0),
    decreases d.len(),
{
    if d.len() > 0 {
        let t = d.subrange(1, d.len() as int);
        lemma_enc_entries_keys(t, depth);
        assert forall|i: int| 0 <= i < d.len() - 1 implies key_le(#[trigger] d[i].0, d[i + 1].0) by {
            if i > 0 {
                assert(d[i] == t[i - 1]);
                assert(d[i + 1] == t[i]);
            }
        }
        assert forall|i: int| 0 <= i < d.len() implies (#[trigger] enc_entries(d)[i]).0 == d[i].0 by {
            if i > 0 {
                assert(enc_entries(d)[i] == enc_entries(t)[i - 1]);
            }
        }
    }
}

proof fn lemma_value_round_trip(v: Val, s: Seq<u8>, pos: int, depth: int)
    requires
        canonical_at(v, depth),
        occurs_at(s, pos, enc(v)),
    ensures
        parse_value(s, pos, depth) == Ok::<_, crate::model::DecodeError>(
            (v, pos + enc(v).len()),
        ),
    decreases v, 0int,
{
    match v {
        Val::Bytes(b) => {
            lemma_bytes_round_trip(s, pos, b);
        },
        Val::Int(n) => {
            lemma_int_round_trip(s, pos, n, depth);
        },
        Val::List(l) => {
            let body = enc_list(l);
            lemma_occurs_split(s, pos, seq![TAG_LIST] + body, seq![TAG_END]);
            lemma_occurs_split(s, pos, seq![TAG_LIST], body);
            lemma_occurs_index(s, pos, seq![TAG_LIST], 0);
            assert(occurs_at(s, pos + 1, body + seq![TAG_END])) by {
                assert(s.subrange(pos + 1, pos + 1 + body.len() + 1) =~= s.subrange(
                    pos,
                    pos + enc(v).len(),
                ).subrange(1, enc(v).len() as int));
                assert(enc(v).subrange(1, enc(v).len() as int) =~= body + seq![TAG_END]);
            }
            lemma_list_round_trip(l, s, pos + 1, depth + 1);
        },
        Val::Dict(d) => {
            lemma_enc_entries_keys(d, depth + 1);
            lemma_sorted_pairs(enc_entries(d));
            let body = join(enc_entries(d));
            assert(enc(v) == seq![TAG_DICT] + body + seq![TAG_END]);
            lemma_occurs_split(s, pos, seq![TAG_DICT] + body, seq![TAG_END]);
            lemma_occurs_split(s, pos, seq![TAG_DICT], body);
            lemma_occurs_index(s, pos, seq![TAG_DICT], 0);
            assert(occurs_at(s, pos + 1, body + seq![TAG_END])) by {
                assert(s.subrange(pos + 1, pos + 1 + body.len() + 1) =~= s.subrange(
                    pos,
                    pos + enc(v).len(),
                ).subrange(1, enc(v).len() as int));
                assert(enc(v).subrange(1, enc(v).len() as int) =~= body + seq![TAG_END]);
            }
            lemma_dict_round_trip(d, s, pos + 1, depth + 1);
        },
    }
}

proof fn lemma_list_round_trip(l: Seq<Val>, s: Seq<u8>, pos: int, depth: int)
    requires
        canonical_list(l, depth),
        occurs_at(s, pos, enc_list(l) + seq![TAG_END]),
    ensures
        parse_list(s, pos, depth) == Ok::<_, crate::model::DecodeError>(
            (l, pos + enc_list(l).len() + 1),
        ),
    decreases l, 1int,
{
    if l.len() == 0 {
        lemma_occurs_index(s, pos, enc_list(l) + seq![TAG_END], 0);
        assert(l =~= Seq::<Val>::empty());
    } else {
        let t = l.subrange(1, l.len() as int);
        let e0 = enc(l[0]);
        assert(enc_list(l) + seq![TAG_END] =~= e0 + (enc_list(t) + seq![TAG_END]));
        lemma_occurs_split(s, pos, e0, enc_list(t) + seq![TAG_END]);
        lemma_enc_first(l[0]);
        lemma_occurs_index(s, pos, e0, 0);
        lemma_value_round_trip(l[0], s, pos, depth);
        lemma_list_round_trip(t, s, pos + e0.len(), depth);
        assert(seq![l[0]] + t =~= l);
    }
}

proof fn lemma_dict_round_trip(d: Seq<(Seq<u8>, Val)>, s: Seq<u8>, pos: int, depth: int)
    requires
        canonical_entries(d, depth),
        occurs_at(s, pos, join(enc_entries(d)) + seq![TAG_END]),
    ensures
        parse_dict(s, pos, depth) == Ok::<_, crate::model::DecodeError>(
            (d, pos + join(enc_entries(d)).len() + 1),
        ),
    decreases d, 1int,
{
    if d.len() == 0 {
        lemma_occurs_index(s, pos, join(enc_entries(d)) + seq![TAG_END], 0);
        assert(d =~= Seq::<(Seq<u8>, Val)>::empty());
    } else {
        let t = d.subrange(1, d.len() as int);
        let kb = enc_bytes(d[0].0);
        let vb = enc(d[0].1);
        assert(enc_entries(d).drop_first() =~= enc_entries(t));
        assert(join(enc_entries(d)) + seq![TAG_END] =~= kb + (vb + (join(enc_entries(t))
            + seq![TAG_END])));
        lemma_occurs_split(s, pos, kb, vb + (join(enc_entries(t)) + seq![TAG_END]));
        lemma_occurs_split(s, pos + kb.len(), vb, join(enc_entries(t)) + seq![TAG_END]);
        lemma_bytes_round_trip(s, pos, d[0].0);
        lemma_decimal(d[0].0.len());
        assert(s[pos] != TAG_END);
        lemma_enc_first(d[0].1);
        lemma_value_round_trip(d[0].1, s, pos + kb.len(), depth);
        lemma_dict_round_trip(t, s, pos + kb.len() + vb.len(), depth);
        assert(seq![(d[0].0, d[0].1)] + t =~= d);
    }
}

/// Decoding the encoding of a value gives the value back, whole input
/// consumed, whenever its integers fit in 64 bits, its dictionaries list
/// their keys in ascending raw-byte order and it nests at most `MAX_DEPTH`
/// containers deep.
pub proof fn round_trip(v: Val)
    requires
        canonical_at(v, 0),
    ensures
        spec_decode(enc(v)) == Ok::<_, crate::model::DecodeError>(v),
{
    let s = enc(v);
    assert(s.subrange(0, s.len() as int) =~= s);
    lemma_value_round_trip(v, s, 0, 0);
}

proof fn lemma_key_le_total(a: Seq<u8>, b: Seq<u8>)
    ensures
        key_le(a, b) || key_le(b, a),
    decreases a.len(),
{
    if a.len() > 0 && b.len() > 0 && a[0] == b[0] {
        lemma_key_le_total(a.drop_first(), b.drop_first());
    }
}

pub open spec fn keys_ascend(ps: Seq<(Seq<u8>, Seq<u8>)>) -> bool {
    forall|i: int| 0 <= i < ps.len() - 1 ==> key_le(#[trigger] ps[i].0, ps[i + 1].0)
}

proof fn lemma_insert_pair_sorted(p: (Seq<u8>, Seq<u8>), ps: Seq<(Seq<u8>, Seq<u8>)>)
    requires
        keys_ascend(ps),
    ensures
        keys_ascend(insert_pair(p, ps)),
        insert_pair(p, ps).len() == ps.len() + 1,
        insert_pair(p, ps)[0] == p || (ps.len() > 0 && insert_pair(p, ps)[0] == ps[0]),
        insert_pair(p, ps).to_multiset() == ps.to_multiset().insert(p),
    decreases ps.len(),
{
    broadcast use vstd::seq_lib::to_multiset_insert;

    if ps.len() == 0 || key_le(p.0, ps[0].0) {
        assert(seq![p] + ps =~= ps.insert(0, p));
        let r = seq![p] + ps;
        assert forall|i: int| 0 <= i < r.len() - 1 implies key_le(#[trigger] r[i].0, r[i + 1].0) by {
            if i > 0 {
                assert(r[i] == ps[i - 1]);
                assert(r[i + 1] == ps[i]);
            }
        }
    } else {
        let t = ps.drop_first();
        assert forall|i: int| 0 <= i < t.len() - 1 implies key_le(#[trigger] t[i].0, t[i + 1].0) by {
            assert(t[i] == ps[i + 1]);
        }
        lemma_insert_pair_sorted(p, t);
        let it = insert_pair(p, t);
        let r = seq![ps[0]] + it;
        lemma_key_le_total(p.0, ps[0].0);
        assert forall|i: int| 0 <= i < r.len() - 1 implies key_le(#[trigger] r[i].0, r[i + 1].0) by {
            if i > 0 {
                assert(r[i] == it[i - 1]);
                assert(r[i + 1] == it[i]);
            } else if it[0] != p {
                assert(ps[1] == t[0]);
            }
        }
        assert(r =~= it.insert(0, ps[0]));
        assert(ps =~= t.insert(0, ps[0]));
        assert(r.to_multiset() =~= ps.to_multiset().insert(p));
    }
}

proof fn lemma_sort_pairs_sorted(ps: Seq<(Seq<u8>, Seq<u8>)>)
    ensures
        keys_ascend(sort_pairs(ps)),
        sort_pairs(ps).to_multiset() == ps.to_multiset(),
    decreases ps.len(),
{
    broadcast use vstd::seq_lib::to_multiset_insert;

    if ps.len() > 0 {
        let t = ps.drop_first();
        lemma_sort_pairs_sorted(t);
        lemma_insert_pair_sorted(ps[0], sort_pairs(t));
        assert(ps =~= t.insert(0, ps[0]));
    }
}

/// A dictionary is encoded with its entries in ascending raw-byte order of
/// their keys, whatever order it holds them in; each entry (its key, then
/// its value) is emitted exactly once.
pub proof fn dict_encoding_is_ordered(d: Seq<(Seq<u8>, Val)>)
    ensures
        enc(Val::Dict(d)) == seq![TAG_DICT] + join(sort_pairs(enc_entries(d))) + seq![TAG_END],
        keys_ascend(sort_pairs(enc_entries(d))),
        sort_pairs(enc_entries(d)).to_multiset() == enc_entries(d).to_multiset(),
{
    lemma_sort_pairs_sorted(enc_entries(d));
}

/// Decoding is a function of its input: an input that is rejected once is
/// rejected again, with the same error.
pub proof fn rejection_is_repeatable(
    input: Seq<u8>,
    first: Result<Val, crate::model::DecodeError>,
    second: Result<Val, crate::model::DecodeError>,
)
    requires
        first == spec_decode(input),
        second == spec_decode(input),
        first is Err,
    ensures
        second == first,
{
}

/// A byte string that is not UTF-8 text decodes back as its raw bytes, but
/// has no interchange form.
pub proof fn raw_bytes_survive_but_are_not_text(b: Seq<u8>)
    requires
        !valid_utf8(b),
    ensures
        spec_decode(enc(Val::Bytes(b))) == Ok::<_, crate::model::DecodeError>(Val::Bytes(b)),
        json_of(Val::Bytes(b)) == Err::<JsonVal, _>(crate::model::DecodeError::NotUtf8),
{
    round_trip(Val::Bytes(b));
}

} // verus!
