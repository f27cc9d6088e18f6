//! Round trip of the canonical encoding: decoding gives back the value in
//! canonical form, and re-encoding that form gives the same bytes.

use vstd::prelude::*;
use vstd::utf8::{encode_utf8, encode_utf8_valid_utf8, encode_utf8_decode_utf8};
use crate::bytes::{lex_lt, be16, be32, be64, be16_value, be32_value, be64_value, lemma_be16_roundtrip, lemma_be32_roundtrip, lemma_be64_roundtrip};
use super::CborValue;
use super::canonical::{head, concat, concat_entries, encoded_items, encoded_entries, encode_value, sort_by_key};
use super::order::{
    key_sorted, lemma_sort_map_values, lemma_sort_members, lemma_sort_sorted, lemma_sort_of_sorted, distinct_keys,
    lemma_sort_keeps_all, lemma_sort_distinct, lemma_strictly_sorted, lemma_strictly_sorted_unique, lemma_permutation_onto,
};
use super::parse::{decode_at, decode_items, decode_pairs, read_arg_spec, lemma_decode_items_step, lemma_decode_pairs_step};

verus! {

/// Every length inside the value fits the 64-bit argument of a CBOR head.
pub open spec fn well_sized(v: CborValue) -> bool
    decreases v,
{
    match v {
        CborValue::Bytes(b) => b.len() <= u64::MAX,
        CborValue::Text(s) => encode_utf8(s).len() <= u64::MAX,
        CborValue::Array(items) => items.len() <= u64::MAX && forall|i: int|
            #![trigger items[i]]
            0 <= i < items.len() ==> well_sized(items[i]),
        CborValue::Mapping(pairs) => pairs.len() <= u64::MAX && forall|i: int|
            #![trigger pairs[i]]
            0 <= i < pairs.len() ==> well_sized(pairs[i].0) && well_sized(pairs[i].1),
        CborValue::Tag(_, inner) => well_sized(*inner),
        _ => true,
    }
}

/// The canonical form of a value, as decoding its encoding yields it: a
/// non-negative `I` becomes `U`, and map pairs are ordered by the bytes of
/// their encoded keys (stably).
pub open spec fn normalize(v: CborValue) -> CborValue
    decreases v, 1nat,
{
    match v {
        CborValue::I(n) => if n < 0 {
            CborValue::I(n)
        } else {
            CborValue::U(n as u64)
        },
        CborValue::Array(items) => CborValue::Array(
            Seq::new(
                items.len(),
                |i: int|
                    if 0 <= i < items.len() {
                        normalize(items[i])
                    } else {
                        CborValue::Null
                    },
            ),
        ),
        CborValue::Mapping(pairs) => CborValue::Mapping(pair_values(sort_by_key(normalized_entries(pairs)))),
        CborValue::Tag(t, inner) => CborValue::Tag(t, Box::new(normalize(*inner))),
        _ => v,
    }
}

/// Each pair of a map in canonical form, keyed by the encoding of its key.
pub open spec fn normalized_entries(pairs: Seq<(CborValue, CborValue)>) -> Seq<(Seq<u8>, (CborValue, CborValue))>
    decreases pairs, 0nat,
{
    Seq::new(
        pairs.len(),
        |i: int|
            if 0 <= i < pairs.len() {
                (encode_value(pairs[i].0), (normalize(pairs[i].0), normalize(pairs[i].1)))
            } else {
                (seq![], (CborValue::Null, CborValue::Null))
            },
    )
}

/// The values of keyed entries.
pub open spec fn pair_values(s: Seq<(Seq<u8>, (CborValue, CborValue))>) -> Seq<(CborValue, CborValue)> {
    s.map_values(|e: (Seq<u8>, (CborValue, CborValue))| e.1)
}

/// The map entries keyed by encoded key, with the given pairs as values.
pub open spec fn keyed_pairs(pairs: Seq<(CborValue, CborValue)>) -> Seq<(Seq<u8>, (CborValue, CborValue))> {
    Seq::new(pairs.len(), |i: int| (encode_value(pairs[i].0), pairs[i]))
}

spec fn encode_value_of_pair(e: (Seq<u8>, (CborValue, CborValue))) -> (Seq<u8>, Seq<u8>) {
    (e.0, encode_value(e.1.1))
}

spec fn normalize_pair(e: (Seq<u8>, (CborValue, CborValue))) -> (Seq<u8>, (CborValue, CborValue)) {
    (e.0, (normalize(e.1.0), normalize(e.1.1)))
}

proof fn lemma_initial_byte(m: u8, x: u8)
    requires
        m < 8,
        x < 32,
    ensures
        (((m << 5u8) as u8) | x) >> 5u8 == m,
        (((m << 5u8) as u8) | x) & 0x1fu8 == x,
{
    assert((((m << 5u8) as u8) | x) >> 5u8 == m && (((m << 5u8) as u8) | x) & 0x1fu8 == x) by (bit_vector)
        requires
            m < 8,
            x < 32,
    ;
}

/// Reading a head back gives its major type and argument.
proof fn lemma_head(m: u8, n: u64, pre: Seq<u8>, rest: Seq<u8>)
    requires
        m < 7,
    ensures
        ({
            let b = pre + head(m, n) + rest;
            let p = pre.len() as int;
            &&& head(m, n).len() >= 1
            &&& b[p] >> 5u8 == m
            &&& (b[p] & 0x1fu8) < 28
            &&& read_arg_spec(b, b[p] & 0x1fu8, p + 1) == Ok::<(u64, int), Seq<char>>((n, p + head(m, n).len()))
        }),
{
    let b = pre + head(m, n) + rest;
    let p = pre.len() as int;
    let h = head(m, n);
    assert(b[p] == h[0]);
    if n < 24 {
        lemma_initial_byte(m, n as u8);
    } else if n < 0x100 {
        lemma_initial_byte(m, 24);
        assert(b[p + 1] == h[1]);
    } else if n < 0x1_0000 {
        lemma_initial_byte(m, 25);
        lemma_be16_roundtrip(n as u16);
        assert(b[p + 1] == be16(n as u16)[0]);
        assert(b[p + 2] == be16(n as u16)[1]);
    } else if n < 0x1_0000_0000 {
        lemma_initial_byte(m, 26);
        lemma_be32_roundtrip(n as u32);
        assert(b.subrange(p + 1, p + 5) =~= be32(n as u32));
    } else {
        lemma_initial_byte(m, 27);
        lemma_be64_roundtrip(n);
        assert(b.subrange(p + 1, p + 9) =~= be64(n));
    }
}

/// An encoding is never empty.
pub proof fn lemma_encoding_nonempty(v: CborValue)
    ensures
        encode_value(v).len() >= 1,
{
    match v {
        CborValue::U(n) => lemma_head(0, n, seq![], seq![]),
        CborValue::I(n) => {
            lemma_head(0, n as u64, seq![], seq![]);
            lemma_head(1, (-1 - n) as u64, seq![], seq![]);
        },
        CborValue::Bytes(b) => lemma_head(2, b.len() as u64, seq![], seq![]),
        CborValue::Text(s) => lemma_head(3, encode_utf8(s).len() as u64, seq![], seq![]),
        CborValue::Array(items) => lemma_head(4, items.len() as u64, seq![], seq![]),
        CborValue::Mapping(pairs) => lemma_head(5, pairs.len() as u64, seq![], seq![]),
        CborValue::Tag(t, _) => lemma_head(6, t, seq![], seq![]),
        _ => {},
    }
}

proof fn lemma_concat_front(s: Seq<Seq<u8>>)
    requires
        s.len() > 0,
    ensures
        concat(s) == s[0] + concat(s.drop_first()),
    decreases s.len(),
{
    if s.len() == 1 {
        assert(concat(s.drop_first()) =~= Seq::<u8>::empty());
        assert(concat(s.drop_last()) =~= Seq::<u8>::empty());
        assert(concat(s) =~= s[0] + concat(s.drop_first()));
    } else {
        lemma_concat_front(s.drop_last());
        assert(s.drop_last().drop_first() =~= s.drop_first().drop_last());
        assert(s.drop_first().last() == s.last());
        assert(concat(s) =~= s[0] + concat(s.drop_first()));
    }
}

proof fn lemma_concat_entries_front(s: Seq<(Seq<u8>, Seq<u8>)>)
    requires
        s.len() > 0,
    ensures
        concat_entries(s) == s[0].0 + s[0].1 + concat_entries(s.drop_first()),
    decreases s.len(),
{
    if s.len() == 1 {
        assert(concat_entries(s.drop_first()) =~= Seq::<u8>::empty());
        assert(concat_entries(s.drop_last()) =~= Seq::<u8>::empty());
        assert(concat_entries(s) =~= s[0].0 + s[0].1 + concat_entries(s.drop_first()));
    } else {
        lemma_concat_entries_front(s.drop_last());
        assert(s.drop_last().drop_first() =~= s.drop_first().drop_last());
        assert(s.drop_first().last() == s.last());
        assert(concat_entries(s) =~= s[0].0 + s[0].1 + concat_entries(s.drop_first()));
    }
}

/// Decoding the canonical encoding of a value, wherever it sits in a byte
/// string, gives its canonical form and the position just past it.
pub proof fn lemma_decode_encode(v: CborValue, pre: Seq<u8>, post: Seq<u8>)
    requires
        well_sized(v),
    ensures
        decode_at(pre + encode_value(v) + post, pre.len() as int)
            == Ok::<(CborValue, int), Seq<char>>((normalize(v), (pre.len() + encode_value(v).len()) as int)),
    decreases v, 0nat,
{
    let b = pre + encode_value(v) + post;
    let p = pre.len() as int;
    match v {
        CborValue::U(n) => {
            lemma_head(0, n, pre, post);
        },
        CborValue::I(n) => {
            if n < 0 {
                lemma_head(1, (-1 - n) as u64, pre, post);
            } else {
                lemma_head(0, n as u64, pre, post);
            }
        },
        CborValue::Bytes(bs) => lemma_decode_bytes(bs, pre, post),
        CborValue::Text(s) => lemma_decode_text(s, pre, post),
        CborValue::Array(items) => {
            assert(forall|i: int| #![trigger items[i]] 0 <= i < items.len() ==> well_sized(items[i]));
            lemma_decode_array(items, pre, post);
        },
        CborValue::Mapping(pairs) => {
            assert(forall|i: int| #![trigger pairs[i]] 0 <= i < pairs.len() ==> well_sized(pairs[i].0) && well_sized(pairs[i].1));
            lemma_decode_map(pairs, pre, post);
        },
        CborValue::Bool(x) => {
            let byte: u8 = if x { 0xf5u8 } else { 0xf4u8 };
            assert(b[p] == byte);
            assert(0xf5u8 >> 5u8 == 7u8 && 0xf5u8 & 0x1fu8 == 21u8) by (bit_vector);
            assert(0xf4u8 >> 5u8 == 7u8 && 0xf4u8 & 0x1fu8 == 20u8) by (bit_vector);
        },
        CborValue::Null => {
            assert(b[p] == 0xf6u8);
            assert(0xf6u8 >> 5u8 == 7u8 && 0xf6u8 & 0x1fu8 == 22u8) by (bit_vector);
        },
        CborValue::Tag(t, inner) => {
            let h = head(6, t);
            let body = encode_value(*inner);
            lemma_head(6, t, pre, body + post);
            assert(b =~= (pre + h) + body + post);
            lemma_decode_encode(*inner, pre + h, post);
        },
    }
}

proof fn lemma_decode_bytes(bs: Seq<u8>, pre: Seq<u8>, post: Seq<u8>)
    requires
        bs.len() <= u64::MAX,
    ensures
        decode_at(pre + encode_value(CborValue::Bytes(bs)) + post, pre.len() as int)
            == Ok::<(CborValue, int), Seq<char>>((CborValue::Bytes(bs), (pre.len() + encode_value(CborValue::Bytes(bs)).len()) as int)),
{
    let b = pre + encode_value(CborValue::Bytes(bs)) + post;
    let p = pre.len() as int;
    let h = head(2, bs.len() as u64);
    lemma_head(2, bs.len() as u64, pre, bs + post);
    assert(b =~= pre + h + (bs + post));
    assert(b.subrange(p + h.len(), p + h.len() + bs.len()) =~= bs);
}

proof fn lemma_decode_text(s: Seq<char>, pre: Seq<u8>, post: Seq<u8>)
    requires
        encode_utf8(s).len() <= u64::MAX,
    ensures
        decode_at(pre + encode_value(CborValue::Text(s)) + post, pre.len() as int)
            == Ok::<(CborValue, int), Seq<char>>((CborValue::Text(s), (pre.len() + encode_value(CborValue::Text(s)).len()) as int)),
{
    let b = pre + encode_value(CborValue::Text(s)) + post;
    let p = pre.len() as int;
    let u = encode_utf8(s);
    let h = head(3, u.len() as u64);
    lemma_head(3, u.len() as u64, pre, u + post);
    assert(b =~= pre + h + (u + post));
    assert(b.subrange(p + h.len(), p + h.len() + u.len()) =~= u);
    encode_utf8_valid_utf8(s);
    encode_utf8_decode_utf8(s);
}

proof fn lemma_decode_array(items: Seq<CborValue>, pre: Seq<u8>, post: Seq<u8>)
    requires
        items.len() <= u64::MAX,
        forall|i: int| #![trigger items[i]] 0 <= i < items.len() ==> well_sized(items[i]),
    ensures
        decode_at(pre + encode_value(CborValue::Array(items)) + post, pre.len() as int)
            == Ok::<(CborValue, int), Seq<char>>((normalize(CborValue::Array(items)), (pre.len() + encode_value(CborValue::Array(items)).len()) as int)),
    decreases items, 1nat,
{
    let v = CborValue::Array(items);
    let b = pre + encode_value(v) + post;
    let h = head(4, items.len() as u64);
    let body = concat(encoded_items(items));
    lemma_head(4, items.len() as u64, pre, body + post);
    assert(b =~= pre + h + (body + post));
    assert(b =~= (pre + h) + body + post);
    lemma_decode_items(items, pre + h, post);
    assert(items.map_values(|x: CborValue| normalize(x)) =~= normalize(v)->Array_0);
}

#[verifier::rlimit(30)]
proof fn lemma_decode_map(pairs: Seq<(CborValue, CborValue)>, pre: Seq<u8>, post: Seq<u8>)
    requires
        pairs.len() <= u64::MAX,
        forall|i: int| #![trigger pairs[i]] 0 <= i < pairs.len() ==> well_sized(pairs[i].0) && well_sized(pairs[i].1),
    ensures
        decode_at(pre + encode_value(CborValue::Mapping(pairs)) + post, pre.len() as int)
            == Ok::<(CborValue, int), Seq<char>>((normalize(CborValue::Mapping(pairs)), (pre.len() + encode_value(CborValue::Mapping(pairs)).len()) as int)),
    decreases pairs, pairs.len() + 1,
{
    let v = CborValue::Mapping(pairs);
    let b = pre + encode_value(v) + post;
    let h = head(5, pairs.len() as u64);
    let kp = keyed_pairs(pairs);
    let es = sort_by_key(kp);
    let f = |e: (Seq<u8>, (CborValue, CborValue))| encode_value_of_pair(e);
    let g = |e: (Seq<u8>, (CborValue, CborValue))| normalize_pair(e);
    assert(encoded_entries(pairs) =~= kp.map_values(f));
    lemma_sort_map_values(kp, f);
    let body = concat_entries(es.map_values(f));
    lemma_head(5, pairs.len() as u64, pre, body + post);
    assert(b =~= (pre + h) + body + post);
    lemma_sort_members(kp);
    lemma_sort_sorted(kp);
    assert forall|i: int| 0 <= i < es.len() implies #[trigger] pairs.contains(es[i].1) && es[i].0 == encode_value(es[i].1.0) by {
        assert(kp.contains(es[i]));
        let m = choose|m: int| 0 <= m < kp.len() && kp[m] == es[i];
        assert(pairs[m] == es[i].1);
    }
    lemma_decode_pairs(pairs, es, pre + h, post);
    let norm_entries = normalized_entries(pairs);
    assert(norm_entries =~= kp.map_values(g));
    lemma_sort_map_values(kp, g);
    let hh = |e: (Seq<u8>, (CborValue, CborValue))| (normalize(e.1.0), normalize(e.1.1));
    let sel = |e: (Seq<u8>, (CborValue, CborValue))| e.1;
    assert(es.map_values(g).map_values(sel) =~= es.map_values(hh));
    assert(pair_values(sort_by_key(norm_entries)) =~= es.map_values(hh));
    assert(encode_value(v) == h + body);
    let q = pre.len() + h.len();
    assert(decode_pairs(b, q as int, es.len()) == Ok::<(Seq<(CborValue, CborValue)>, int), Seq<char>>(
        (es.map_values(hh), (q + body.len()) as int)));
    assert(es.len() == pairs.len());
    assert((pairs.len() as u64) as nat == pairs.len());
}

/// Decoding the concatenated encodings of a sequence of values gives their
/// canonical forms.
proof fn lemma_decode_items(items: Seq<CborValue>, pre: Seq<u8>, post: Seq<u8>)
    requires
        forall|i: int| #![trigger items[i]] 0 <= i < items.len() ==> well_sized(items[i]),
    ensures
        decode_items(pre + concat(encoded_items(items)) + post, pre.len() as int, items.len())
            == Ok::<(Seq<CborValue>, int), Seq<char>>((items.map_values(|x: CborValue| normalize(x)), (pre.len() + concat(encoded_items(items)).len()) as int)),
    decreases items, 0nat,
{
    let body = concat(encoded_items(items));
    if items.len() == 0 {
        assert(body =~= Seq::<u8>::empty());
        assert(items.map_values(|x: CborValue| normalize(x)) =~= Seq::<CborValue>::empty());
    } else {
        let first = items[0];
        let rest = items.drop_first();
        lemma_concat_front(encoded_items(items));
        assert(encoded_items(items).drop_first() =~= encoded_items(rest));
        let e0 = encode_value(first);
        let tail = concat(encoded_items(rest));
        assert(body == e0 + tail);
        let b = pre + body + post;
        assert(b =~= pre + e0 + (tail + post));
        assert(decreases_to!(items => items[0]));
        lemma_decode_encode(first, pre, tail + post);
        lemma_encoding_nonempty(first);
        assert(b =~= (pre + e0) + tail + post);
        assert(decreases_to!(items => items.subrange(1, items.len() as int)));
        assert forall|i: int| #![trigger rest[i]] 0 <= i < rest.len() implies well_sized(rest[i]) by {
            assert(rest[i] == items[i + 1]);
        }
        lemma_decode_items(rest, pre + e0, post);
        lemma_decode_items_step(b, pre.len() as int, items.len(), normalize(first), (pre.len() + e0.len()) as int,
            rest.map_values(|x: CborValue| normalize(x)), (pre.len() + e0.len() + tail.len()) as int);
        assert(seq![normalize(first)] + rest.map_values(|x: CborValue| normalize(x))
            =~= items.map_values(|x: CborValue| normalize(x)));
    }
}

/// Decoding the concatenated key/value encodings of entries drawn from a map
/// gives their canonical pairs.
#[verifier::spinoff_prover]
#[verifier::rlimit(40)]
proof fn lemma_decode_pairs(
    pairs: Seq<(CborValue, CborValue)>,
    es: Seq<(Seq<u8>, (CborValue, CborValue))>,
    pre: Seq<u8>,
    post: Seq<u8>,
)
    requires
        forall|i: int| #![trigger pairs[i]] 0 <= i < pairs.len() ==> well_sized(pairs[i].0) && well_sized(pairs[i].1),
        forall|i: int| 0 <= i < es.len() ==> #[trigger] pairs.contains(es[i].1) && es[i].0 == encode_value(es[i].1.0),
    ensures
        ({
            let body = concat_entries(es.map_values(|e: (Seq<u8>, (CborValue, CborValue))| encode_value_of_pair(e)));
            decode_pairs(pre + body + post, pre.len() as int, es.len()) == Ok::<(Seq<(CborValue, CborValue)>, int), Seq<char>>(
                (es.map_values(|e: (Seq<u8>, (CborValue, CborValue))| (normalize(e.1.0), normalize(e.1.1))), (pre.len() + body.len()) as int),
            )
        }),
    decreases pairs, es.len(),
{
    let f = |e: (Seq<u8>, (CborValue, CborValue))| encode_value_of_pair(e);
    let h = |e: (Seq<u8>, (CborValue, CborValue))| (normalize(e.1.0), normalize(e.1.1));
    let ef = es.map_values(f);
    let body = concat_entries(ef);
    if es.len() == 0 {
        assert(body =~= Seq::<u8>::empty());
        assert(es.map_values(h) =~= Seq::<(CborValue, CborValue)>::empty());
    } else {
        let e = es[0];
        let rest = es.drop_first();
        assert(pairs.contains(e.1));
        let m = choose|m: int| 0 <= m < pairs.len() && pairs[m] == e.1;
        let k = e.1.0;
        let v = e.1.1;
        lemma_concat_entries_front(ef);
        assert(ef.drop_first() =~= rest.map_values(f));
        let kb = encode_value(k);
        let vb = encode_value(v);
        let tail = concat_entries(rest.map_values(f));
        assert(ef[0] == (kb, vb));
        assert(body == kb + vb + tail);
        let b = pre + body + post;
        assert(decreases_to!(pairs => pairs[m]));
        assert(decreases_to!(pairs[m] => pairs[m].0));
        assert(decreases_to!(pairs[m] => pairs[m].1));
        assert(well_sized(pairs[m].0) && well_sized(pairs[m].1));
        assert(b =~= pre + kb + (vb + tail + post));
        lemma_decode_encode(k, pre, vb + tail + post);
        assert(b =~= (pre + kb) + vb + (tail + post));
        lemma_decode_encode(v, pre + kb, tail + post);
        lemma_encoding_nonempty(k);
        lemma_encoding_nonempty(v);
        assert(b =~= (pre + kb + vb) + tail + post);
        assert forall|i: int| 0 <= i < rest.len() implies #[trigger] pairs.contains(rest[i].1) && rest[i].0 == encode_value(rest[i].1.0) by {
            assert(rest[i] == es[i + 1]);
        }
        lemma_decode_pairs(pairs, rest, pre + kb + vb, post);
        lemma_decode_pairs_step(b, pre.len() as int, es.len(), normalize(k), (pre.len() + kb.len()) as int,
            normalize(v), (pre.len() + kb.len() + vb.len()) as int, rest.map_values(h), (pre.len() + kb.len() + vb.len() + tail.len()) as int);
        assert(seq![(normalize(k), normalize(v))] + rest.map_values(h) =~= es.map_values(h));
    }
}

/// Re-encoding the canonical form of a value gives the same bytes: the
/// encoding is canonical and stable.
pub proof fn lemma_encode_normalize(v: CborValue)
    ensures
        encode_value(normalize(v)) == encode_value(v),
    decreases v, 1nat,
{
    match v {
        CborValue::Array(items) => {
            let n = normalize(v)->Array_0;
            assert forall|i: int| 0 <= i < items.len() implies #[trigger] encoded_items(n)[i] == encoded_items(items)[i] by {
                assert(decreases_to!(items => items[i]));
                lemma_encode_normalize(items[i]);
            }
            assert(encoded_items(n) =~= encoded_items(items));
        },
        CborValue::Mapping(pairs) => {
            lemma_encode_normalize_map(pairs);
        },
        CborValue::Tag(t, inner) => {
            lemma_encode_normalize(*inner);
        },
        _ => {},
    }
}

proof fn lemma_encode_normalize_map(pairs: Seq<(CborValue, CborValue)>)
    ensures
        encode_value(normalize(CborValue::Mapping(pairs))) == encode_value(CborValue::Mapping(pairs)),
    decreases pairs, 0nat,
{
    let kp = keyed_pairs(pairs);
    let es = sort_by_key(kp);
    let f = |e: (Seq<u8>, (CborValue, CborValue))| encode_value_of_pair(e);
    let g = |e: (Seq<u8>, (CborValue, CborValue))| normalize_pair(e);
    let hh = |e: (Seq<u8>, (CborValue, CborValue))| (normalize(e.1.0), normalize(e.1.1));
    assert(encoded_entries(pairs) =~= kp.map_values(f));
    lemma_sort_map_values(kp, f);
    assert(normalized_entries(pairs) =~= kp.map_values(g));
    lemma_sort_map_values(kp, g);
    let np = pair_values(sort_by_key(normalized_entries(pairs)));
    assert(np =~= es.map_values(hh));
    lemma_sort_members(kp);
    lemma_sort_sorted(kp);
    assert forall|i: int| 0 <= i < es.len() implies #[trigger] encoded_entries(np)[i] == es.map_values(f)[i] by {
        assert(kp.contains(es[i]));
        let m = choose|m: int| 0 <= m < kp.len() && kp[m] == es[i];
        assert(pairs[m] == es[i].1);
        assert(decreases_to!(pairs => pairs[m]));
        assert(decreases_to!(pairs[m] => pairs[m].0));
        assert(decreases_to!(pairs[m] => pairs[m].1));
        lemma_encode_normalize(pairs[m].0);
        lemma_encode_normalize(pairs[m].1);
    }
    assert(encoded_entries(np) =~= es.map_values(f));
    assert(key_sorted(es.map_values(f))) by {
        assert forall|i: int, j: int| 0 <= i < j < es.len() implies !lex_lt(#[trigger] es.map_values(f)[j].0, #[trigger] es.map_values(f)[i].0) by {
            assert(!lex_lt(es[j].0, es[i].0));
        }
    }
    lemma_sort_of_sorted(es.map_values(f));
}

/// Decoding the canonical encoding of a value yields its canonical form and
/// consumes exactly the encoding, and encoding that form again yields the
/// same bytes.
pub proof fn law_canonical_round_trip(v: CborValue)
    requires
        well_sized(v),
    ensures
        decode_at(encode_value(v), 0) == Ok::<(CborValue, int), Seq<char>>((normalize(v), encode_value(v).len() as int)),
        encode_value(normalize(v)) == encode_value(v),
{
    lemma_decode_encode(v, seq![], seq![]);
    assert(Seq::<u8>::empty() + encode_value(v) + Seq::<u8>::empty() =~= encode_value(v));
    lemma_encode_normalize(v);
}

/// No two pairs of a map have keys with the same encoding.
pub open spec fn distinct_map_keys(pairs: Seq<(CborValue, CborValue)>) -> bool {
    forall|i: int, j: int| 0 <= i < j < pairs.len() ==> encode_value(#[trigger] pairs[i].0) != encode_value(#[trigger] pairs[j].0)
}

proof fn lemma_sorted_entries(p: Seq<(CborValue, CborValue)>)
    requires
        distinct_map_keys(p),
    ensures
        super::order::strictly_sorted(sort_by_key(encoded_entries(p))),
        sort_by_key(encoded_entries(p)).len() == p.len(),
        forall|x: (Seq<u8>, Seq<u8>)| sort_by_key(encoded_entries(p)).contains(x) <==> encoded_entries(p).contains(x),
{
    let e = encoded_entries(p);
    assert(distinct_keys(e)) by {
        assert forall|i: int, j: int| 0 <= i < j < e.len() implies #[trigger] e[i].0 != #[trigger] e[j].0 by {
            assert(e[i].0 == encode_value(p[i].0) && e[j].0 == encode_value(p[j].0));
        }
    }
    lemma_sort_distinct(e);
    lemma_sort_sorted(e);
    lemma_strictly_sorted(sort_by_key(e));
    lemma_sort_members(e);
    lemma_sort_keeps_all(e);
    let r = sort_by_key(e);
    assert forall|x: (Seq<u8>, Seq<u8>)| r.contains(x) <==> e.contains(x) by {
        if r.contains(x) {
            let i = choose|i: int| 0 <= i < r.len() && r[i] == x;
            assert(e.contains(r[i]));
        }
        if e.contains(x) {
            let i = choose|i: int| 0 <= i < e.len() && e[i] == x;
            assert(r.contains(e[i]));
        }
    }
}

/// A map whose keys are distinct encodes to the same bytes whatever the
/// order of its pairs: two maps holding the same pairs, each with distinct
/// keys, have one canonical encoding.
pub proof fn law_map_order_independent(p: Seq<(CborValue, CborValue)>, q: Seq<(CborValue, CborValue)>)
    requires
        distinct_map_keys(p),
        distinct_map_keys(q),
        forall|x: (CborValue, CborValue)| p.contains(x) <==> q.contains(x),
    ensures
        encode_value(CborValue::Mapping(p)) == encode_value(CborValue::Mapping(q)),
{
    let ep = encoded_entries(p);
    let eq = encoded_entries(q);
    lemma_sorted_entries(p);
    lemma_sorted_entries(q);
    assert forall|x: (Seq<u8>, Seq<u8>)| ep.contains(x) <==> eq.contains(x) by {
        if ep.contains(x) {
            let i = choose|i: int| 0 <= i < ep.len() && ep[i] == x;
            assert(p.contains(p[i]));
            let j = choose|j: int| 0 <= j < q.len() && q[j] == p[i];
            assert(eq[j] == x);
        }
        if eq.contains(x) {
            let i = choose|i: int| 0 <= i < eq.len() && eq[i] == x;
            assert(q.contains(q[i]));
            let j = choose|j: int| 0 <= j < p.len() && p[j] == q[i];
            assert(ep[j] == x);
        }
    }
    let sp = sort_by_key(ep);
    let sq = sort_by_key(eq);
    assert forall|x: (Seq<u8>, Seq<u8>)| sp.contains(x) <==> sq.contains(x) by {
        assert(sp.contains(x) <==> ep.contains(x));
        assert(sq.contains(x) <==> eq.contains(x));
    }
    lemma_strictly_sorted_unique(sp, sq);
}

/// Rearranging the pairs of a map with distinct keys leaves its encoding
/// unchanged: the pairs taken in any order `order` (a permutation of their
/// positions) encode to the same bytes.
pub proof fn law_map_permutation(p: Seq<(CborValue, CborValue)>, order: Seq<int>)
    requires
        distinct_map_keys(p),
        order.len() == p.len(),
        forall|j: int| 0 <= j < order.len() ==> 0 <= #[trigger] order[j] < order.len(),
        forall|i: int, j: int| 0 <= i < j < order.len() ==> order[i] != order[j],
    ensures
        encode_value(CborValue::Mapping(Seq::new(p.len(), |j: int| p[order[j]]))) == encode_value(CborValue::Mapping(p)),
{
    let q = Seq::new(p.len(), |j: int| p[order[j]]);
    lemma_permutation_onto(order);
    assert forall|i: int, j: int| 0 <= i < j < q.len() implies encode_value(#[trigger] q[i].0) != encode_value(
        #[trigger] q[j].0,
    ) by {
        assert(q[i] == p[order[i]] && q[j] == p[order[j]]);
        if order[i] < order[j] {
        } else {
            assert(order[j] < order[i]);
        }
    }
    assert forall|x: (CborValue, CborValue)| p.contains(x) <==> q.contains(x) by {
        if p.contains(x) {
            let i = choose|i: int| 0 <= i < p.len() && p[i] == x;
            assert(order.contains(i));
            let j = choose|j: int| 0 <= j < order.len() && order[j] == i;
            assert(q[j] == x);
        }
        if q.contains(x) {
            let j = choose|j: int| 0 <= j < q.len() && q[j] == x;
            assert(p[order[j]] == x);
        }
    }
    law_map_order_independent(q, p);
}

/// An unsigned integer is encoded in the shortest head that holds it: the
/// value itself below 24, else the marker 24, 25, 26 or 27 followed by the
/// value in 1, 2, 4 or 8 big-endian bytes, whichever is the fewest that hold it.
pub proof fn law_unsigned_shortest_form(n: u64)
    ensures
        n < 24 ==> encode_value(CborValue::U(n)) == seq![n as u8],
        24 <= n < 0x100 ==> encode_value(CborValue::U(n)) == seq![0x18u8, n as u8],
        0x100 <= n < 0x1_0000 ==> encode_value(CborValue::U(n)) == seq![0x19u8, (n / 0x100) as u8, (n % 0x100) as u8],
        0x1_0000 <= n < 0x1_0000_0000 ==> encode_value(CborValue::U(n)) == seq![
            0x1au8,
            (n / 0x100_0000) as u8,
            (n / 0x1_0000 % 0x100) as u8,
            (n / 0x100 % 0x100) as u8,
            (n % 0x100) as u8,
        ],
        0x1_0000_0000 <= n ==> encode_value(CborValue::U(n)) == seq![
            0x1bu8,
            (n / 0x100_0000_0000_0000) as u8,
            (n / 0x1_0000_0000_0000 % 0x100) as u8,
            (n / 0x100_0000_0000 % 0x100) as u8,
            (n / 0x1_0000_0000 % 0x100) as u8,
            (n / 0x100_0000 % 0x100) as u8,
            (n / 0x1_0000 % 0x100) as u8,
            (n / 0x100 % 0x100) as u8,
            (n % 0x100) as u8,
        ],
{
    let m = (0u8 << 5u8) as u8;
    assert(m == 0u8 && m | 24u8 == 0x18u8 && m | 25u8 == 0x19u8 && m | 26u8 == 0x1au8 && m | 27u8 == 0x1bu8)
        by (bit_vector)
        requires
            m == (0u8 << 5u8) as u8,
    ;
    let e = encode_value(CborValue::U(n));
    if n < 24 {
        assert(m | (n as u8) == n as u8) by (bit_vector)
            requires
                m == 0u8,
        ;
    } else if n < 0x100 {
    } else if n < 0x1_0000 {
        let h = n as u16;
        assert((h >> 8u16) as u8 == (n / 0x100) as u8 && h as u8 == (n % 0x100) as u8) by (bit_vector)
            requires
                h == n as u16,
                n < 0x1_0000,
        ;
        assert(e =~= seq![0x19u8, (n / 0x100) as u8, (n % 0x100) as u8]);
    } else if n < 0x1_0000_0000 {
        let w = n as u32;
        assert((w >> 24u32) as u8 == (n / 0x100_0000) as u8 && (w >> 16u32) as u8 == (n / 0x1_0000 % 0x100) as u8
            && (w >> 8u32) as u8 == (n / 0x100 % 0x100) as u8 && w as u8 == (n % 0x100) as u8) by (bit_vector)
            requires
                w == n as u32,
                n < 0x1_0000_0000,
        ;
        assert(e =~= seq![
            0x1au8,
            (n / 0x100_0000) as u8,
            (n / 0x1_0000 % 0x100) as u8,
            (n / 0x100 % 0x100) as u8,
            (n % 0x100) as u8,
        ]);
    } else {
        assert((n >> 56u64) as u8 == (n / 0x100_0000_0000_0000) as u8
            && (n >> 48u64) as u8 == (n / 0x1_0000_0000_0000 % 0x100) as u8
            && (n >> 40u64) as u8 == (n / 0x100_0000_0000 % 0x100) as u8
            && (n >> 32u64) as u8 == (n / 0x1_0000_0000 % 0x100) as u8
            && (n >> 24u64) as u8 == (n / 0x100_0000 % 0x100) as u8
            && (n >> 16u64) as u8 == (n / 0x1_0000 % 0x100) as u8
            && (n >> 8u64) as u8 == (n / 0x100 % 0x100) as u8
            && n as u8 == (n % 0x100) as u8) by (bit_vector);
        assert(e =~= seq![
            0x1bu8,
            (n / 0x100_0000_0000_0000) as u8,
            (n / 0x1_0000_0000_0000 % 0x100) as u8,
            (n / 0x100_0000_0000 % 0x100) as u8,
            (n / 0x1_0000_0000 % 0x100) as u8,
            (n / 0x100_0000 % 0x100) as u8,
            (n / 0x1_0000 % 0x100) as u8,
            (n / 0x100 % 0x100) as u8,
            (n % 0x100) as u8,
        ]);
    }
}

/// A signed integer is encoded as the unsigned integer it equals when it is
/// not negative, and otherwise as `-1 - n` with the major type of its first
/// byte set to 1 (the first byte raised by 0x20), the rest unchanged.
pub proof fn law_signed_form(n: i64)
    ensures
        n >= 0 ==> encode_value(CborValue::I(n)) == encode_value(CborValue::U(n as u64)),
        n < 0 ==> ({
            let u = encode_value(CborValue::U((-1 - n) as u64));
            let e = encode_value(CborValue::I(n));
            &&& e.len() == u.len()
            &&& e[0] == u[0] + 0x20
            &&& e.skip(1) == u.skip(1)
        }),
{
    if n < 0 {
        let a = (-1 - n) as u64;
        let u = encode_value(CborValue::U(a));
        let e = encode_value(CborValue::I(n));
        let m0 = (0u8 << 5u8) as u8;
        let m1 = (1u8 << 5u8) as u8;
        assert(forall|x: u8| x < 32 ==> #[trigger] (m1 | x) == (m0 | x) + 0x20) by (bit_vector)
            requires
                m0 == (0u8 << 5u8) as u8,
                m1 == (1u8 << 5u8) as u8,
        ;
        if a < 24 {
            assert((m1 | (a as u8)) == (m0 | (a as u8)) + 0x20);
        } else if a < 0x100 {
            assert((m1 | 24u8) == (m0 | 24u8) + 0x20);
        } else if a < 0x1_0000 {
            assert((m1 | 25u8) == (m0 | 25u8) + 0x20);
        } else if a < 0x1_0000_0000 {
            assert((m1 | 26u8) == (m0 | 26u8) + 0x20);
        } else {
            assert((m1 | 27u8) == (m0 | 27u8) + 0x20);
        }
        assert(e.skip(1) =~= u.skip(1));
    }
}

/// A map is encoded as its pairs' encoded keys and values with the keys in
/// non-decreasing bytewise order, after a head announcing the pair count.
pub proof fn law_map_keys_ascend(pairs: Seq<(CborValue, CborValue)>)
    ensures
        encode_value(CborValue::Mapping(pairs)) == head(5, pairs.len() as u64) + concat_entries(
            sort_by_key(encoded_entries(pairs)),
        ),
        sort_by_key(encoded_entries(pairs)).len() == pairs.len(),
        forall|i: int, j: int|
            0 <= i < j < pairs.len() ==> !lex_lt(
                #[trigger] sort_by_key(encoded_entries(pairs))[j].0,
                #[trigger] sort_by_key(encoded_entries(pairs))[i].0,
            ),
{
    lemma_sort_sorted(encoded_entries(pairs));
}

} // verus!
