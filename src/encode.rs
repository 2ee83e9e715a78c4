use vstd::prelude::*;

use crate::decimal::{decimal, ZERO};
use crate::decode::{COLON, MINUS, TAG_DICT, TAG_END, TAG_INT, TAG_LIST};
use crate::model::{entries_view, lemma_entries_view, lemma_list_view, list_view, Val, Value};

verus! {

/// Raw byte order on keys: `a` sorts at or before `b`.
pub open spec fn key_le(a: Seq<u8>, b: Seq<u8>) -> bool
    decreases a.len(),
{
    if a.len() == 0 {
        true
    } else if b.len() == 0 {
        false
    } else if a[0] != b[0] {
        a[0] < b[0]
    } else {
        key_le(a.drop_first(), b.drop_first())
    }
}

pub open spec fn enc_bytes(b: Seq<u8>) -> Seq<u8> {
    decimal(b.len()) + seq![COLON] + b
}

pub open spec fn enc_int(n: int) -> Seq<u8> {
    seq![TAG_INT] + (if n < 0 {
        seq![MINUS] + decimal((-n) as nat)
    } else {
        decimal(n as nat)
    }) + seq![TAG_END]
}

/// The canonical encoding of a value.
pub open spec fn enc(v: Val) -> Seq<u8>
    decreases v,
{
    match v {
        Val::Bytes(b) => enc_bytes(b),
        Val::Int(n) => enc_int(n),
        Val::List(l) => seq![TAG_LIST] + enc_list(l) + seq![TAG_END],
        Val::Dict(d) => seq![TAG_DICT] + join(sort_pairs(enc_entries(d))) + seq![TAG_END],
    }
}

/// The encodings of list elements, one after another.
pub open spec fn enc_list(l: Seq<Val>) -> Seq<u8>
    decreases l,
{
    if l.len() == 0 {
        Seq::empty()
    } else {
        enc(l[0]) + enc_list(l.subrange(1, l.len() as int))
    }
}

/// Each dictionary entry as its key and the encoding of key and value.
pub open spec fn enc_entries(d: Seq<(Seq<u8>, Val)>) -> Seq<(Seq<u8>, Seq<u8>)>
    decreases d,
{
    if d.len() == 0 {
        Seq::empty()
    } else {
        seq![(d[0].0, enc_bytes(d[0].0) + enc(d[0].1))] + enc_entries(
            d.subrange(1, d.len() as int),
        )
    }
}

pub open spec fn join(ps: Seq<(Seq<u8>, Seq<u8>)>) -> Seq<u8>
    decreases ps.len(),
{
    if ps.len() == 0 {
        Seq::empty()
    } else {
        ps[0].1 + join(ps.drop_first())
    }
}

/// Places `p` before the first entry whose key it does not follow.
pub open spec fn insert_pair(p: (Seq<u8>, Seq<u8>), ps: Seq<(Seq<u8>, Seq<u8>)>) -> Seq<
    (Seq<u8>, Seq<u8>),
>
    decreases ps.len(),
{
    if ps.len() == 0 || key_le(p.0, ps[0].0) {
        seq![p] + ps
    } else {
        seq![ps[0]] + insert_pair(p, ps.drop_first())
    }
}

/// Entries in ascending key order; entries with equal keys keep their order.
pub open spec fn sort_pairs(ps: Seq<(Seq<u8>, Seq<u8>)>) -> Seq<(Seq<u8>, Seq<u8>)>
    decreases ps.len(),
{
    if ps.len() == 0 {
        ps
    } else {
        insert_pair(ps[0], sort_pairs(ps.drop_first()))
    }
}

pub open spec fn pairs_view(ps: Seq<(Vec<u8>, Vec<u8>)>) -> Seq<(Seq<u8>, Seq<u8>)> {
    ps.map_values(|p: (Vec<u8>, Vec<u8>)| (p.0@, p.1@))
}

pub proof fn lemma_enc_list_push(l: Seq<Val>, x: Val)
    ensures
        enc_list(l.push(x)) == enc_list(l) + enc(x),
    decreases l.len(),
{
    if l.len() == 0 {
        assert(l.push(x).subrange(1, 1) =~= Seq::<Val>::empty());
        assert(enc_list(l.push(x).subrange(1, 1)) == Seq::<u8>::empty());
        assert(l.push(x)[0] == x);
        assert(enc_list(l.push(x)) =~= enc_list(l) + enc(x));
    } else {
        let t = l.subrange(1, l.len() as int);
        assert(l.push(x).subrange(1, (l.len() + 1) as int) =~= t.push(x));
        lemma_enc_list_push(t, x);
        assert(l.push(x)[0] == l[0]);
        assert(enc_list(l.push(x)) == enc(l[0]) + enc_list(t.push(x)));
        assert(enc_list(l) == enc(l[0]) + enc_list(t));
        assert(enc_list(l.push(x)) =~= enc_list(l) + enc(x));
    }
}

pub proof fn lemma_enc_entries_push(d: Seq<(Seq<u8>, Val)>, x: (Seq<u8>, Val))
    ensures
        enc_entries(d.push(x)) == enc_entries(d).push((x.0, enc_bytes(x.0) + enc(x.1))),
    decreases d.len(),
{
    if d.len() == 0 {
        assert(d.push(x).subrange(1, 1) =~= Seq::<(Seq<u8>, Val)>::empty());
        assert(enc_entries(d.push(x).subrange(1, 1)) == Seq::<(Seq<u8>, Seq<u8>)>::empty());
        assert(d.push(x)[0] == x);
        assert(enc_entries(d.push(x)) =~= enc_entries(d).push((x.0, enc_bytes(x.0) + enc(x.1))));
    } else {
        let t = d.subrange(1, d.len() as int);
        assert(d.push(x).subrange(1, (d.len() + 1) as int) =~= t.push(x));
        lemma_enc_entries_push(t, x);
        assert(d.push(x)[0] == d[0]);
        assert(enc_entries(d.push(x)) == seq![(d[0].0, enc_bytes(d[0].0) + enc(d[0].1))] + enc_entries(t.push(x)));
        assert(enc_entries(d.push(x)) =~= enc_entries(d).push((x.0, enc_bytes(x.0) + enc(x.1))));
    }
}

pub proof fn lemma_join_push(ps: Seq<(Seq<u8>, Seq<u8>)>, x: (Seq<u8>, Seq<u8>))
    ensures
        join(ps.push(x)) == join(ps) + x.1,
    decreases ps.len(),
{
    if ps.len() == 0 {
        assert(ps.push(x).drop_first() =~= Seq::<(Seq<u8>, Seq<u8>)>::empty());
        assert(join(ps.push(x).drop_first()) == Seq::<u8>::empty());
        assert(ps.push(x)[0] == x);
        assert(join(ps.push(x)) =~= join(ps) + x.1);
    } else {
        assert(ps.push(x).drop_first() =~= ps.drop_first().push(x));
        lemma_join_push(ps.drop_first(), x);
        assert(ps.push(x)[0] == ps[0]);
        assert(join(ps.push(x)) == ps[0].1 + join(ps.drop_first().push(x)));
        assert(join(ps.push(x)) =~= join(ps) + x.1);
    }
}

pub proof fn lemma_insert_pair_at(p: (Seq<u8>, Seq<u8>), ps: Seq<(Seq<u8>, Seq<u8>)>, j: int)
    requires
        0 <= j <= ps.len(),
        forall|q: int| 0 <= q < j ==> !key_le(p.0, #[trigger] ps[q].0),
        j < ps.len() ==> key_le(p.0, ps[j].0),
    ensures
        insert_pair(p, ps) == ps.insert(j, p),
    decreases j,
{
    if j == 0 {
        assert(seq![p] + ps =~= ps.insert(0, p));
    } else {
        let t = ps.drop_first();
        assert forall|q: int| 0 <= q < j - 1 implies !key_le(p.0, #[trigger] t[q].0) by {
            assert(t[q] == ps[q + 1]);
        }
        lemma_insert_pair_at(p, t, j - 1);
        assert(!key_le(p.0, ps[0].0));
        assert(seq![ps[0]] + t.insert(j - 1, p) =~= ps.insert(j, p));
    }
}

/// Whether key `a` sorts at or before key `b` in raw byte order.
fn key_le_exec(a: &[u8], b: &[u8]) -> (r: bool)
    ensures
        r == key_le(a@, b@),
{
    let mut i: usize = 0;
    assert(a@.subrange(0, a@.len() as int) =~= a@);
    assert(b@.subrange(0, b@.len() as int) =~= b@);
    loop
        invariant
            i <= a@.len(),
            i <= b@.len(),
            key_le(a@, b@) == key_le(
                a@.subrange(i as int, a@.len() as int),
                b@.subrange(i as int, b@.len() as int),
            ),
        decreases a@.len() - i,
    {
        if i == a.len() {
            return true;
        }
        if i == b.len() {
            return false;
        }
        if a[i] != b[i] {
            return a[i] < b[i];
        }
        proof {
            let sa = a@.subrange(i as int, a@.len() as int);
            let sb = b@.subrange(i as int, b@.len() as int);
            assert(sa.drop_first() =~= a@.subrange(i + 1, a@.len() as int));
            assert(sb.drop_first() =~= b@.subrange(i + 1, b@.len() as int));
        }
        i = i + 1;
    }
}

/// Appends the bytes of `b` to `out`.
fn push_all(out: &mut Vec<u8>, b: &[u8])
    ensures
        final(out)@ == old(out)@ + b@,
{
    let mut i: usize = 0;
    while i < b.len()
        invariant
            i <= b@.len(),
            out@ == old(out)@ + b@.subrange(0, i as int),
        decreases b@.len() - i,
    {
        out.push(b[i]);
        i = i + 1;
        assert(out@ =~= old(out)@ + b@.subrange(0, i as int));
    }
    assert(b@.subrange(0, i as int) =~= b@);
}

/// Appends the shortest decimal form of `n` to `out`.
fn push_decimal(out: &mut Vec<u8>, n: u64)
    ensures
        final(out)@ == old(out)@ + decimal(n as nat),
    decreases n,
{
    if n < 10 {
        out.push(n as u8 + ZERO);
        assert(out@ =~= old(out)@ + decimal(n as nat));
    } else {
        push_decimal(out, n / 10);
        out.push((n % 10) as u8 + ZERO);
        assert(out@ =~= old(out)@ + decimal(n as nat));
    }
}

/// Sorts encoded entries by key, stably.
fn sort_by_key(pairs: Vec<(Vec<u8>, Vec<u8>)>) -> (r: Vec<(Vec<u8>, Vec<u8>)>)
    ensures
        pairs_view(r@) == sort_pairs(pairs_view(pairs@)),
{
    let ghost all = pairs_view(pairs@);
    let mut pairs = pairs;
    let mut sorted: Vec<(Vec<u8>, Vec<u8>)> = Vec::new();
    proof {
        assert(all.subrange(all.len() as int, all.len() as int) =~= Seq::<
            (Seq<u8>, Seq<u8>),
        >::empty());
        assert(pairs_view(sorted@) =~= Seq::<(Seq<u8>, Seq<u8>)>::empty());
    }
    while pairs.len() > 0
        invariant
            pairs@.len() <= all.len(),
            pairs_view(pairs@) == all.subrange(0, pairs@.len() as int),
            pairs_view(sorted@) == sort_pairs(
                all.subrange(pairs@.len() as int, all.len() as int),
            ),
        decreases pairs@.len(),
    {
        let ghost before = pairs@;
        let p = pairs.pop().unwrap();
        let ghost k: int = pairs@.len() as int;
        let mut j: usize = 0;
        while j < sorted.len() && !key_le_exec(p.0.as_slice(), sorted[j].0.as_slice())
            invariant
                j <= sorted@.len(),
                forall|q: int|
                    0 <= q < j ==> !key_le(p.0@, #[trigger] pairs_view(sorted@)[q].0),
            decreases sorted@.len() - j,
        {
            j = j + 1;
        }
        proof {
            let rest = all.subrange(k + 1, all.len() as int);
            let here = all.subrange(k, all.len() as int);
            assert(here.drop_first() =~= rest);
            assert(before[k] == p);
            assert(all[k] == pairs_view(before)[k]);
            assert(here[0] == (p.0@, p.1@));
            lemma_insert_pair_at((p.0@, p.1@), pairs_view(sorted@), j as int);
            assert(pairs_view(sorted@.insert(j as int, p)) =~= pairs_view(sorted@).insert(
                j as int,
                (p.0@, p.1@),
            ));
            assert(pairs_view(pairs@) =~= all.subrange(0, k));
        }
        sorted.insert(j, p);
    }
    assert(all.subrange(0, all.len() as int) =~= all);
    sorted
}

/// Appends the canonical encoding of `v` to `out`.
fn encode_into(v: &Value, out: &mut Vec<u8>)
    ensures
        final(out)@ == old(out)@ + enc(v@),
    decreases v,
{
    match v {
        Value::Bytes(b) => {
            push_decimal(out, b.len() as u64);
            out.push(COLON);
            push_all(out, b.as_slice());
            assert(out@ =~= old(out)@ + enc(v@));
        },
        Value::Int(n) => {
            out.push(TAG_INT);
            if *n < 0 {
                out.push(MINUS);
                let m: u64 = if *n == i64::MIN {
                    9223372036854775808
                } else {
                    (-*n) as u64
                };
                push_decimal(out, m);
            } else {
                push_decimal(out, *n as u64);
            }
            out.push(TAG_END);
            assert(out@ =~= old(out)@ + enc(v@));
        },
        Value::List(l) => {
            out.push(TAG_LIST);
            let mut i: usize = 0;
            proof {
                assert(decreases_to!(*v => *l));
                lemma_list_view(l@);
                assert(list_view(l@).subrange(0, 0) =~= Seq::<Val>::empty());
                assert(out@ =~= old(out)@ + seq![TAG_LIST] + enc_list(Seq::<Val>::empty()));
            }
            while i < l.len()
                invariant
                    *v == Value::List(*l),
                    decreases_to!(*v => *l),
                    i <= l@.len(),
                    list_view(l@).len() == l@.len(),
                    forall|k: int| 0 <= k < l@.len() ==> #[trigger] list_view(l@)[k] == l@[k]@,
                    out@ == old(out)@ + seq![TAG_LIST] + enc_list(
                        list_view(l@).subrange(0, i as int),
                    ),
                decreases l@.len() - i,
            {
                proof {
                    assert(decreases_to!(l => l[i as int]));
                    assert(decreases_to!(*v => l[i as int]));
                    assert(list_view(l@).subrange(0, i + 1) =~= list_view(l@).subrange(
                        0,
                        i as int,
                    ).push(l@[i as int]@));
                    lemma_enc_list_push(list_view(l@).subrange(0, i as int), l@[i as int]@);
                }
                encode_into(&l[i], out);
                i = i + 1;
            }
            out.push(TAG_END);
            assert(list_view(l@).subrange(0, i as int) =~= list_view(l@));
            assert(out@ =~= old(out)@ + enc(v@));
        },
        Value::Dict(d) => {
            let mut pairs: Vec<(Vec<u8>, Vec<u8>)> = Vec::new();
            let mut i: usize = 0;
            proof {
                assert(decreases_to!(*v => *d));
                lemma_entries_view(d@);
                assert(entries_view(d@).subrange(0, 0) =~= Seq::<(Seq<u8>, Val)>::empty());
                assert(pairs_view(pairs@) =~= Seq::<(Seq<u8>, Seq<u8>)>::empty());
            }
            while i < d.len()
                invariant
                    *v == Value::Dict(*d),
                    decreases_to!(*v => *d),
                    i <= d@.len(),
                    entries_view(d@).len() == d@.len(),
                    forall|k: int|
                        0 <= k < d@.len() ==> #[trigger] entries_view(d@)[k] == (
                            d@[k].0@,
                            d@[k].1@,
                        ),
                    pairs_view(pairs@) == enc_entries(entries_view(d@).subrange(0, i as int)),
                decreases d@.len() - i,
            {
                proof {
                    assert(decreases_to!(d => d[i as int]));
                    assert(decreases_to!(d[i as int] => d[i as int].1));
                    assert(decreases_to!(*v => d[i as int].1));
                }
                let mut key: Vec<u8> = Vec::new();
                push_all(&mut key, d[i].0.as_slice());
                let mut bytes: Vec<u8> = Vec::new();
                push_decimal(&mut bytes, d[i].0.len() as u64);
                bytes.push(COLON);
                push_all(&mut bytes, d[i].0.as_slice());
                encode_into(&d[i].1, &mut bytes);
                proof {
                    let e = (d@[i as int].0@, d@[i as int].1@);
                    assert(entries_view(d@).subrange(0, i + 1) =~= entries_view(d@).subrange(
                        0,
                        i as int,
                    ).push(e));
                    lemma_enc_entries_push(entries_view(d@).subrange(0, i as int), e);
                    assert(key@ =~= e.0);
                    assert(bytes@ =~= enc_bytes(e.0) + enc(e.1));
                }
                pairs.push((key, bytes));
                assert(pairs_view(pairs@) =~= enc_entries(
                    entries_view(d@).subrange(0, i + 1),
                ));
                i = i + 1;
            }
            assert(entries_view(d@).subrange(0, i as int) =~= entries_view(d@));
            let ghost all = pairs_view(pairs@);
            let sorted = sort_by_key(pairs);
            out.push(TAG_DICT);
            let mut m: usize = 0;
            proof {
                assert(pairs_view(sorted@).subrange(0, 0) =~= Seq::<(Seq<u8>, Seq<u8>)>::empty());
                assert(out@ =~= old(out)@ + seq![TAG_DICT] + join(Seq::<(Seq<u8>, Seq<u8>)>::empty()));
            }
            while m < sorted.len()
                invariant
                    m <= sorted@.len(),
                    pairs_view(sorted@) == sort_pairs(all),
                    all == enc_entries(entries_view(d@)),
                    *v == Value::Dict(*d),
                    out@ == old(out)@ + seq![TAG_DICT] + join(
                        pairs_view(sorted@).subrange(0, m as int),
                    ),
                decreases sorted@.len() - m,
            {
                push_all(out, sorted[m].1.as_slice());
                proof {
                    let ps = pairs_view(sorted@);
                    assert(ps.subrange(0, m + 1) =~= ps.subrange(0, m as int).push(ps[m as int]));
                    lemma_join_push(ps.subrange(0, m as int), ps[m as int]);
                }
                m = m + 1;
            }
            out.push(TAG_END);
            assert(pairs_view(sorted@).subrange(0, m as int) =~= pairs_view(sorted@));
            assert(out@ =~= old(out)@ + enc(v@));
        },
    }
}

/// The canonical bencode encoding of `v`: dictionary entries come out in
/// ascending raw-byte order of their keys.
pub fn encode(v: &Value) -> (r: Vec<u8>)
    ensures
        r@ == enc(v@),
{
    let mut out: Vec<u8> = Vec::new();
    encode_into(v, &mut out);
    assert(out@ =~= enc(v@));
    out
}

} // verus!
