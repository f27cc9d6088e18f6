//! Canonical encoding: shortest-form heads and maps ordered by the bytes of
//! their encoded keys.

use vstd::prelude::*;
use vstd::utf8::encode_utf8;
use crate::bytes::{be16, be32, be64, lex_lt, lex_less, push_be16, push_be32, push_be64, append_bytes};
use super::{Cbor, CborValue, value_of};
use super::laws::{well_sized, normalize, law_canonical_round_trip};
use super::parse::decode_at;

verus! {

/// The initial byte(s) of an item: major type in the top three bits, then the
/// argument `n` in its shortest form.
pub open spec fn head(major: u8, n: u64) -> Seq<u8> {
    let m = (major << 5u8) as u8;
    if n < 24 {
        seq![m | (n as u8)]
    } else if n < 0x100 {
        seq![m | 24u8, n as u8]
    } else if n < 0x1_0000 {
        seq![m | 25u8] + be16(n as u16)
    } else if n < 0x1_0000_0000 {
        seq![m | 26u8] + be32(n as u32)
    } else {
        seq![m | 27u8] + be64(n)
    }
}

/// Concatenation of a sequence of byte strings.
pub open spec fn concat(parts: Seq<Seq<u8>>) -> Seq<u8>
    decreases parts.len(),
{
    if parts.len() == 0 {
        seq![]
    } else {
        concat(parts.drop_last()) + parts.last()
    }
}

/// Concatenation of key/value entries, each key followed by its value.
pub open spec fn concat_entries(entries: Seq<(Seq<u8>, Seq<u8>)>) -> Seq<u8>
    decreases entries.len(),
{
    if entries.len() == 0 {
        seq![]
    } else {
        concat_entries(entries.drop_last()) + entries.last().0 + entries.last().1
    }
}

/// Inserts `e` into `sorted` after every entry whose key is not greater than
/// `e`'s key (one step of a stable insertion sort).
pub open spec fn insert_by_key<V>(sorted: Seq<(Seq<u8>, V)>, e: (Seq<u8>, V)) -> Seq<(Seq<u8>, V)>
    decreases sorted.len(),
{
    if sorted.len() == 0 {
        seq![e]
    } else if lex_lt(e.0, sorted.last().0) {
        insert_by_key(sorted.drop_last(), e).push(sorted.last())
    } else {
        sorted.push(e)
    }
}

/// Stable sort of entries by the lexicographic order of their keys.
pub open spec fn sort_by_key<V>(entries: Seq<(Seq<u8>, V)>) -> Seq<(Seq<u8>, V)>
    decreases entries.len(),
{
    if entries.len() == 0 {
        entries
    } else {
        insert_by_key(sort_by_key(entries.drop_last()), entries.last())
    }
}

/// The encoded key and value of each pair of a map, in the map's order.
pub open spec fn encoded_entries(pairs: Seq<(CborValue, CborValue)>) -> Seq<(Seq<u8>, Seq<u8>)>
    decreases pairs, 0nat,
{
    Seq::new(
        pairs.len(),
        |i: int|
            if 0 <= i < pairs.len() {
                (encode_value(pairs[i].0), encode_value(pairs[i].1))
            } else {
                (seq![], seq![])
            },
    )
}

/// The encoding of each item of an array, in order.
pub open spec fn encoded_items(items: Seq<CborValue>) -> Seq<Seq<u8>>
    decreases items, 0nat,
{
    Seq::new(
        items.len(),
        |i: int|
            if 0 <= i < items.len() {
                encode_value(items[i])
            } else {
                seq![]
            },
    )
}

/// Deterministic encoding of a value (RFC 8949 §4.2 core deterministic rules).
pub open spec fn encode_value(v: CborValue) -> Seq<u8>
    decreases v, 1nat,
{
    match v {
        CborValue::U(n) => head(0, n),
        CborValue::I(n) => if n < 0 {
            head(1, (-1 - n) as u64)
        } else {
            head(0, n as u64)
        },
        CborValue::Bytes(b) => head(2, b.len() as u64) + b,
        CborValue::Text(s) => head(3, encode_utf8(s).len() as u64) + encode_utf8(s),
        CborValue::Array(items) => head(4, items.len() as u64) + concat(encoded_items(items)),
        CborValue::Mapping(pairs) => head(5, pairs.len() as u64) + concat_entries(
            sort_by_key(encoded_entries(pairs)),
        ),
        CborValue::Bool(b) => seq![if b { 0xf5u8 } else { 0xf4u8 }],
        CborValue::Null => seq![0xf6u8],
        CborValue::Tag(t, inner) => head(6, t) + encode_value(*inner),
    }
}


/// Appends the head of an item with major type `major` and argument `n`.
pub fn write_head(major: u8, n: u64, out: &mut Vec<u8>)
    requires
        major < 8,
    ensures
        final(out)@ == old(out)@ + head(major, n),
{
    let m: u8 = major << 5;
    if n < 24 {
        out.push(m | (n as u8));
    } else if n < 0x100 {
        out.push(m | 24);
        out.push(n as u8);
    } else if n < 0x1_0000 {
        out.push(m | 25);
        push_be16(out, n as u16);
    } else if n < 0x1_0000_0000 {
        out.push(m | 26);
        push_be32(out, n as u32);
    } else {
        out.push(m | 27);
        push_be64(out, n);
    }
    assert(final(out)@ =~= old(out)@ + head(major, n));
}

/// View of a vector of encoded entries as byte sequences.
pub open spec fn entries_view(v: Seq<(Vec<u8>, Vec<u8>)>) -> Seq<(Seq<u8>, Seq<u8>)> {
    v.map_values(|e: (Vec<u8>, Vec<u8>)| (e.0@, e.1@))
}

/// Inserting at the position found by scanning back past larger keys is one
/// step of the stable insertion sort.
proof fn lemma_insert_at_scan_position(s: Seq<(Seq<u8>, Seq<u8>)>, e: (Seq<u8>, Seq<u8>), j: int)
    requires
        0 <= j <= s.len(),
        forall|t: int| j <= t < s.len() ==> lex_lt(e.0, #[trigger] s[t].0),
        j > 0 ==> !lex_lt(e.0, s[j - 1].0),
    ensures
        insert_by_key(s, e) == s.insert(j, e),
    decreases s.len(),
{
    if s.len() == 0 {
        assert(s.insert(j, e) =~= seq![e]);
    } else if j == s.len() {
        assert(s.insert(j, e) =~= s.push(e));
    } else {
        assert(lex_lt(e.0, s[s.len() - 1].0));
        lemma_insert_at_scan_position(s.drop_last(), e, j);
        assert(s.drop_last().insert(j, e).push(s.last()) =~= s.insert(j, e));
    }
}

/// Inserts `e` into `sorted` keeping the stable key order.
fn insert_entry(sorted: &mut Vec<(Vec<u8>, Vec<u8>)>, e: (Vec<u8>, Vec<u8>))
    ensures
        entries_view(final(sorted)@) == insert_by_key(entries_view(old(sorted)@), (e.0@, e.1@)),
{
    let ghost s = entries_view(sorted@);
    let mut j: usize = sorted.len();
    while j > 0 && lex_less(e.0.as_slice(), sorted[j - 1].0.as_slice())
        invariant
            j <= sorted@.len(),
            sorted@ == old(sorted)@,
            s == entries_view(sorted@),
            forall|t: int| j <= t < s.len() ==> lex_lt(e.0@, #[trigger] s[t].0),
        decreases j,
    {
        j -= 1;
    }
    proof {
        lemma_insert_at_scan_position(s, (e.0@, e.1@), j as int);
    }
    sorted.insert(j, e);
    assert(entries_view(sorted@) =~= s.insert(j as int, (e.0@, e.1@)));
}

/// Appends the canonical encoding of `c` to `out`.
fn enc(c: &Cbor, out: &mut Vec<u8>)
    ensures
        final(out)@ == old(out)@ + encode_value(c@),
        well_sized(c@),
    decreases c,
{
    match c {
        Cbor::U(n) => write_head(0, *n, out),
        Cbor::I(n) => {
            if *n < 0 {
                write_head(1, (-1 - *n) as u64, out);
            } else {
                write_head(0, *n as u64, out);
            }
        },
        Cbor::Bytes(b) => {
            write_head(2, b.len() as u64, out);
            append_bytes(out, b.as_slice());
            assert(final(out)@ =~= old(out)@ + encode_value(c@));
        },
        Cbor::Text(s) => {
            let bytes = s.as_str().as_bytes();
            write_head(3, bytes.len() as u64, out);
            append_bytes(out, bytes);
            assert(final(out)@ =~= old(out)@ + encode_value(c@));
        },
        Cbor::Array(items) => {
            let ghost parts = encoded_items(c@->Array_0);
            write_head(4, items.len() as u64, out);
            let ghost start = out@;
            let mut i: usize = 0;
            while i < items.len()
                invariant
                    *c == Cbor::Array(*items),
                    i <= items@.len(),
                    parts.len() == items@.len(),
                    forall|k: int| 0 <= k < items@.len() ==> #[trigger] parts[k] == encode_value(items@[k]@),
                    out@ == start + concat(parts.take(i as int)),
                    forall|k: int| 0 <= k < i ==> well_sized(#[trigger] items@[k]@),
                decreases items@.len() - i,
            {
                proof {
                    assert(decreases_to!(*c => (*c)->Array_0));
                    assert(decreases_to!(*items => items[i as int]));
                    assert(decreases_to!(*c => items[i as int]));
                }
                enc(&items[i], out);
                assert(parts.take(i + 1).drop_last() =~= parts.take(i as int));
                i += 1;
            }
            assert(parts.take(i as int) =~= parts);
            assert(final(out)@ =~= old(out)@ + encode_value(c@));
            assert forall|k: int| #![trigger c@->Array_0[k]] 0 <= k < c@->Array_0.len() implies well_sized(c@->Array_0[k]) by {
                assert(c@->Array_0[k] == items@[k]@);
            }
        },
        Cbor::Mapping(pairs) => {
            let ghost entries = encoded_entries(c@->Mapping_0);
            let mut sorted: Vec<(Vec<u8>, Vec<u8>)> = Vec::new();
            let mut i: usize = 0;
            while i < pairs.len()
                invariant
                    *c == Cbor::Mapping(*pairs),
                    i <= pairs@.len(),
                    entries.len() == pairs@.len(),
                    forall|k: int| 0 <= k < pairs@.len() ==> #[trigger] entries[k] == (encode_value(pairs@[k].0@), encode_value(pairs@[k].1@)),
                    entries_view(sorted@) == sort_by_key(entries.take(i as int)),
                    forall|k: int| 0 <= k < i ==> well_sized(#[trigger] pairs@[k].0@) && well_sized(pairs@[k].1@),
                decreases pairs@.len() - i,
            {
                proof {
                    assert(decreases_to!(*c => (*c)->Mapping_0));
                    assert(decreases_to!(*pairs => pairs[i as int]));
                    assert(decreases_to!(pairs[i as int] => pairs[i as int].0));
                    assert(decreases_to!(pairs[i as int] => pairs[i as int].1));
                    assert(decreases_to!(*c => pairs[i as int].0));
                    assert(decreases_to!(*c => pairs[i as int].1));
                }
                let mut kb: Vec<u8> = Vec::new();
                enc(&pairs[i].0, &mut kb);
                let mut vb: Vec<u8> = Vec::new();
                enc(&pairs[i].1, &mut vb);
                assert(kb@ =~= entries[i as int].0);
                assert(vb@ =~= entries[i as int].1);
                let ghost i0 = i as int;
                assert(well_sized(pairs@[i0].0@) && well_sized(pairs@[i0].1@));
                insert_entry(&mut sorted, (kb, vb));
                assert(entries.take(i + 1).drop_last() =~= entries.take(i as int));
                i += 1;
                assert forall|k: int| 0 <= k < i implies well_sized(#[trigger] pairs@[k].0@) && well_sized(pairs@[k].1@) by {
                    if k == i0 {
                        assert(well_sized(pairs@[i0].0@) && well_sized(pairs@[i0].1@));
                    } else {
                        assert(k < i0);
                        assert(well_sized(pairs@[k].0@));
                        assert(well_sized(pairs@[k].1@));
                    }
                }
            }
            assert(entries.take(i as int) =~= entries);
            assert forall|k: int| #![trigger c@->Mapping_0[k]] 0 <= k < c@->Mapping_0.len() implies well_sized(
                c@->Mapping_0[k].0,
            ) && well_sized(c@->Mapping_0[k].1) by {
                assert(c@->Mapping_0[k] == (pairs@[k].0@, pairs@[k].1@));
            }
            let ghost sv = entries_view(sorted@);
            write_head(5, pairs.len() as u64, out);
            let ghost start = out@;
            let mut j: usize = 0;
            while j < sorted.len()
                invariant
                    j <= sorted@.len(),
                    sv == entries_view(sorted@),
                    out@ == start + concat_entries(sv.take(j as int)),
                decreases sorted@.len() - j,
            {
                append_bytes(out, sorted[j].0.as_slice());
                append_bytes(out, sorted[j].1.as_slice());
                assert(sv.take(j + 1).drop_last() =~= sv.take(j as int));
                j += 1;
            }
            assert(sv.take(j as int) =~= sv);
            assert(final(out)@ =~= old(out)@ + encode_value(c@));
        },
        Cbor::Bool(b) => {
            out.push(if *b { 0xf5 } else { 0xf4 });
            assert(final(out)@ =~= old(out)@ + encode_value(c@));
        },
        Cbor::Null => {
            out.push(0xf6);
            assert(final(out)@ =~= old(out)@ + encode_value(c@));
        },
        Cbor::Tag(t, inner) => {
            write_head(6, *t, out);
            enc(inner, out);
            assert(final(out)@ =~= old(out)@ + encode_value(c@));
        },
    }
}

/// Deterministically encodes a value (RFC 8949 §4.2 core deterministic).
/// Decoding the result gives back the value in canonical form, which encodes
/// to the same bytes.
pub fn encode_canonical(c: &Cbor) -> (out: Vec<u8>)
    ensures
        out@ == encode_value(c@),
        well_sized(c@),
        decode_at(out@, 0) == Ok::<(CborValue, int), Seq<char>>((normalize(c@), out@.len() as int)),
        encode_value(normalize(c@)) == out@,
{
    let mut out: Vec<u8> = Vec::new();
    enc(c, &mut out);
    assert(out@ =~= encode_value(c@));
    proof {
        law_canonical_round_trip(c@);
    }
    out
}

} // verus!
