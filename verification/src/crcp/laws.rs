//! What the CRCP wire format promises across its functions: the pre-image
//! ignores the signature field and separates message kinds, a payload unit
//! decodes back to its header and body, and fragments fed in any order
//! reassemble the body.

use vstd::prelude::*;
use crate::cbor::{CborValue, drop_key};
use crate::cbor::canonical::encode_value;
use crate::cbor::laws::{law_canonical_round_trip, normalize, well_sized, normalized_entries};
use crate::cbor::canonical::sort_by_key;
use crate::cbor::order::{lemma_sort_sorted, lemma_permutation_onto};
use crate::crcp::{
    MsgType, WireHeader, selector_of, msg_type_of, domain_tag, preimage_spec, header_spec, frag_bit,
    wire_spec, decode_wire_spec, split_chunks, MAX_CRCP_FRAGMENT, fragments_spec, ReassemblyState, reassemble_step,
    has_part, insert_by_index, sort_by_index, join_chunks, parts_with, parts_without,
};
use crate::cbor::parse::decode_at;

verus! {

proof fn lemma_drop_key_append(a: Seq<(CborValue, CborValue)>, b: Seq<(CborValue, CborValue)>, key: Seq<char>)
    ensures
        drop_key(a + b, key) == drop_key(a, key) + drop_key(b, key),
    decreases b.len(),
{
    if b.len() == 0 {
        assert(a + b =~= a);
        assert(drop_key(b, key) =~= Seq::<(CborValue, CborValue)>::empty());
        assert(drop_key(a, key) + drop_key(b, key) =~= drop_key(a, key));
    } else {
        lemma_drop_key_append(a, b.drop_last(), key);
        assert((a + b).drop_last() =~= a + b.drop_last());
        assert((a + b).last() == b.last());
        if b.last().0 == CborValue::Text(key) {
        } else {
            assert(drop_key(a, key) + drop_key(b.drop_last(), key).push(b.last())
                =~= (drop_key(a, key) + drop_key(b.drop_last(), key)).push(b.last()));
        }
    }
}

/// The signing pre-image does not depend on a `signature` field: a body with
/// a signature pair anywhere among its pairs has the pre-image of the body
/// without it, so a signature made before the field was attached still
/// verifies on the body as it travels.
pub proof fn law_preimage_ignores_signature(
    t: MsgType,
    before: Seq<(CborValue, CborValue)>,
    after: Seq<(CborValue, CborValue)>,
    sig: CborValue,
)
    ensures
        preimage_spec(t, CborValue::Mapping(before + seq![(CborValue::Text("signature"@), sig)] + after))
            == preimage_spec(t, CborValue::Mapping(before + after)),
{
    let key = "signature"@;
    let one = seq![(CborValue::Text(key), sig)];
    lemma_drop_key_append(before + one, after, key);
    lemma_drop_key_append(before, one, key);
    lemma_drop_key_append(before, after, key);
    assert(one.drop_last() =~= Seq::<(CborValue, CborValue)>::empty());
    assert(drop_key(one.drop_last(), key) =~= Seq::<(CborValue, CborValue)>::empty());
    assert(one.last().0 == CborValue::Text(key));
    assert(drop_key(one, key) =~= Seq::<(CborValue, CborValue)>::empty());
    assert(drop_key(before, key) + drop_key(one, key) =~= drop_key(before, key));
}

proof fn lemma_drop_key_members(p: Seq<(CborValue, CborValue)>, key: Seq<char>)
    ensures
        drop_key(p, key).len() <= p.len(),
        forall|i: int| 0 <= i < drop_key(p, key).len() ==> p.contains(#[trigger] drop_key(p, key)[i]),
    decreases p.len(),
{
    if p.len() > 0 {
        let d = p.drop_last();
        lemma_drop_key_members(d, key);
        let r = drop_key(p, key);
        let rd = drop_key(d, key);
        assert forall|i: int| 0 <= i < r.len() implies p.contains(#[trigger] r[i]) by {
            if i < rd.len() {
                assert(r[i] == rd[i]);
                let j = choose|j: int| 0 <= j < d.len() && d[j] == rd[i];
                assert(p[j] == d[j]);
            } else {
                assert(r[i] == p[p.len() - 1]);
            }
        }
    }
}

proof fn lemma_well_sized_sub(p: Seq<(CborValue, CborValue)>, q: Seq<(CborValue, CborValue)>)
    requires
        well_sized(CborValue::Mapping(p)),
        q.len() <= p.len(),
        forall|i: int| 0 <= i < q.len() ==> p.contains(#[trigger] q[i]),
    ensures
        well_sized(CborValue::Mapping(q)),
{
    assert forall|i: int| #![trigger q[i]] 0 <= i < q.len() implies well_sized(q[i].0) && well_sized(q[i].1) by {
        assert(p.contains(q[i]));
        let j = choose|j: int| 0 <= j < p.len() && p[j] == q[i];
        assert(well_sized(p[j].0) && well_sized(p[j].1));
    }
}

/// Adding a field other than `signature` to a map body changes its
/// pre-image, so a signature over the untampered body does not cover the
/// tampered one.
pub proof fn law_preimage_detects_added_field(t: MsgType, p: Seq<(CborValue, CborValue)>, x: (CborValue, CborValue))
    requires
        well_sized(CborValue::Mapping(p.push(x))),
        x.0 != CborValue::Text("signature"@),
    ensures
        preimage_spec(t, CborValue::Mapping(p.push(x))) != preimage_spec(t, CborValue::Mapping(p)),
{
    let key = "signature"@;
    let px = p.push(x);
    assert(px.drop_last() =~= p);
    let d0 = drop_key(p, key);
    let d1 = drop_key(px, key);
    assert(d1 == d0.push(x));
    lemma_drop_key_members(px, key);
    lemma_drop_key_members(p, key);
    lemma_well_sized_sub(px, d1);
    assert forall|i: int| 0 <= i < d0.len() implies px.contains(#[trigger] d0[i]) by {
        assert(p.contains(d0[i]));
        let j = choose|j: int| 0 <= j < p.len() && p[j] == d0[i];
        assert(px[j] == p[j]);
    }
    lemma_well_sized_sub(px, d0);
    let v0 = CborValue::Mapping(d0);
    let v1 = CborValue::Mapping(d1);
    law_canonical_round_trip(v0);
    law_canonical_round_trip(v1);
    lemma_sort_sorted(normalized_entries(d0));
    lemma_sort_sorted(normalized_entries(d1));
    let a = preimage_spec(t, CborValue::Mapping(px));
    let b = preimage_spec(t, CborValue::Mapping(p));
    if a == b {
        assert(a.skip(6) =~= encode_value(v1));
        assert(b.skip(6) =~= encode_value(v0));
        assert(normalize(v0) == normalize(v1));
        assert(normalize(v0)->Mapping_0.len() == d0.len());
        assert(normalize(v1)->Mapping_0.len() == d1.len());
    }
}

/// Every pre-image starts with the domain tag and then the selector of the
/// message kind, so one body signed as two different kinds has two
/// different pre-images.
pub proof fn law_preimage_layout(t: MsgType, u: MsgType, body: CborValue)
    ensures
        preimage_spec(t, body).len() >= 6,
        preimage_spec(t, body).take(5) == domain_tag(),
        preimage_spec(t, body)[5] == selector_of(t),
        t != u ==> preimage_spec(t, body) != preimage_spec(u, body),
{
    let p = preimage_spec(t, body);
    assert(p.take(5) =~= domain_tag());
    assert(p[5] == selector_of(t));
    assert(preimage_spec(u, body)[5] == selector_of(u));
}

/// The fields a header byte carries: version 1, the FRAG flag, the selector.
proof fn lemma_header_fields(t: MsgType, frag: bool)
    ensures
        frag_bit(header_spec(t, frag)) == frag,
        header_spec(t, frag) >> 4u8 == 1u8,
        msg_type_of(header_spec(t, frag) & 3u8) == t,
{
    let sel = selector_of(t);
    let f: u8 = if frag { 8u8 } else { 0u8 };
    assert(header_spec(t, frag) == 0x10u8 | f | sel);
    assert(((0x10u8 | f | sel) >> 3u8) & 1u8 == (if f == 8u8 { 1u8 } else { 0u8 })
        && (0x10u8 | f | sel) >> 4u8 == 1u8
        && (0x10u8 | f | sel) & 3u8 == sel
        && sel & 3u8 == sel) by (bit_vector)
        requires
            sel < 4u8,
            f == 0u8 || f == 8u8,
    ;
}

/// A payload unit decodes back to header version 1, FRAG clear, its message
/// kind, and the body in canonical form (which encodes to the same bytes).
pub proof fn law_wire_round_trip(t: MsgType, body: CborValue)
    requires
        well_sized(body),
    ensures
        decode_wire_spec(wire_spec(t, body)) == Ok::<(WireHeader, CborValue), Seq<char>>(
            (WireHeader { version: 1, frag: false, msg_type: t }, normalize(body)),
        ),
        encode_value(normalize(body)) == encode_value(body),
{
    let w = wire_spec(t, body);
    lemma_header_fields(t, false);
    law_canonical_round_trip(body);
    assert(w.subrange(1, w.len() as int) =~= encode_value(body));
}

/// The state after feeding the units `fs` one by one, starting from `s`.
pub open spec fn feed_state(s: ReassemblyState, fs: Seq<Seq<u8>>) -> ReassemblyState
    decreases fs.len(),
{
    if fs.len() == 0 {
        s
    } else {
        reassemble_step(feed_state(s, fs.drop_last()), fs.last()).0
    }
}

/// The result of feeding the last of the units `fs`, after the others were
/// fed one by one, starting from `s`.
pub open spec fn feed_result(s: ReassemblyState, fs: Seq<Seq<u8>>) -> Result<Option<(MsgType, CborValue)>, Seq<char>> {
    reassemble_step(feed_state(s, fs.drop_last()), fs.last()).1
}

/// The parts a reassembler keeps for the chunks of one unit, in index order.
pub open spec fn chunk_parts(chunks: Seq<Seq<u8>>, frag_id: u8) -> Seq<(u8, u8, Seq<u8>)> {
    Seq::new(chunks.len(), |i: int| (frag_id, i as u8, chunks[i]))
}

/// The parts of `c` at the positions in `s`, in order.
pub open spec fn select_parts(c: Seq<(u8, u8, Seq<u8>)>, s: Set<int>) -> Seq<(u8, u8, Seq<u8>)>
    decreases c.len(),
{
    if c.len() == 0 {
        c
    } else {
        let rest = select_parts(c.drop_last(), s);
        if s.contains(c.len() - 1) {
            rest.push(c.last())
        } else {
            rest
        }
    }
}

/// Parts whose index is their position.
pub open spec fn indexed(c: Seq<(u8, u8, Seq<u8>)>) -> bool {
    &&& c.len() <= 256
    &&& forall|i: int| 0 <= i < c.len() ==> #[trigger] c[i].1 == i as u8
}

proof fn lemma_select_bound(c: Seq<(u8, u8, Seq<u8>)>, s: Set<int>)
    requires
        indexed(c),
    ensures
        forall|j: int| 0 <= j < select_parts(c, s).len() ==> (#[trigger] select_parts(c, s)[j]).1 < c.len(),
    decreases c.len(),
{
    if c.len() > 0 {
        let c1 = c.drop_last();
        assert(indexed(c1)) by {
            assert forall|i: int| 0 <= i < c1.len() implies #[trigger] c1[i].1 == i as u8 by {
                assert(c1[i] == c[i]);
            }
        }
        lemma_select_bound(c1, s);
        let last = c.len() - 1;
        assert(c[last].1 == last as u8);
        assert(last as u8 == last);
        let rest = select_parts(c1, s);
        let sel = select_parts(c, s);
        assert forall|j: int| 0 <= j < sel.len() implies (#[trigger] sel[j]).1 < c.len() by {
            if j < rest.len() {
                assert(sel[j] == rest[j]);
            } else {
                assert(sel[j] == c[last]);
            }
        }
    }
}

proof fn lemma_select_same(c: Seq<(u8, u8, Seq<u8>)>, s1: Set<int>, s2: Set<int>)
    requires
        forall|x: int| 0 <= x < c.len() ==> s1.contains(x) == s2.contains(x),
    ensures
        select_parts(c, s1) == select_parts(c, s2),
    decreases c.len(),
{
    if c.len() > 0 {
        lemma_select_same(c.drop_last(), s1, s2);
    }
}

proof fn lemma_select_all(c: Seq<(u8, u8, Seq<u8>)>, s: Set<int>)
    requires
        forall|x: int| 0 <= x < c.len() ==> s.contains(x),
    ensures
        select_parts(c, s) == c,
    decreases c.len(),
{
    if c.len() > 0 {
        lemma_select_all(c.drop_last(), s);
        assert(c.drop_last().push(c.last()) =~= c);
    }
}

/// Inserting the part at position `m` into the selection of the positions
/// in `s` gives the selection of `s` with `m` added.
proof fn lemma_insert_select(c: Seq<(u8, u8, Seq<u8>)>, s: Set<int>, m: int)
    requires
        indexed(c),
        0 <= m < c.len(),
        !s.contains(m),
    ensures
        insert_by_index(select_parts(c, s), c[m]) == select_parts(c, s.insert(m)),
    decreases c.len(),
{
    let last = c.len() - 1;
    let c1 = c.drop_last();
    assert(indexed(c1)) by {
        assert forall|i: int| 0 <= i < c1.len() implies #[trigger] c1[i].1 == i as u8 by {
            assert(c1[i] == c[i]);
        }
    }
    assert(c[m].1 == m as u8);
    assert(c[last].1 == last as u8);
    if last == m {
        lemma_select_same(c1, s.insert(m), s);
        lemma_select_bound(c1, s);
        let sel = select_parts(c1, s);
        if sel.len() > 0 {
            assert(sel.last().1 < c1.len());
        }
    } else {
        assert(c1[m] == c[m]);
        lemma_insert_select(c1, s, m);
        if s.contains(last) {
            let sel = select_parts(c1, s);
            assert(select_parts(c, s) == sel.push(c.last()));
            assert(select_parts(c, s).drop_last() =~= sel);
        }
    }
}

/// The positions fed among the first `k` of `order`.
pub open spec fn fed_positions(order: Seq<int>, k: int) -> Set<int> {
    Set::new(|x: int| exists|j: int| 0 <= j < k && order[j] == x)
}

/// The parts of `c` in the order given by the first `k` entries of `order`.
pub open spec fn fed_parts(c: Seq<(u8, u8, Seq<u8>)>, order: Seq<int>, k: int) -> Seq<(u8, u8, Seq<u8>)> {
    Seq::new(k as nat, |j: int| c[order[j]])
}

proof fn lemma_sort_fed(c: Seq<(u8, u8, Seq<u8>)>, order: Seq<int>, k: int)
    requires
        indexed(c),
        0 <= k <= order.len(),
        forall|j: int| 0 <= j < order.len() ==> 0 <= #[trigger] order[j] < c.len(),
        forall|i: int, j: int| 0 <= i < j < order.len() ==> order[i] != order[j],
    ensures
        sort_by_index(fed_parts(c, order, k)) == select_parts(c, fed_positions(order, k)),
    decreases k,
{
    let p = fed_parts(c, order, k);
    if k == 0 {
        assert(p =~= Seq::<(u8, u8, Seq<u8>)>::empty());
        lemma_select_same(c, fed_positions(order, 0), Set::<int>::empty());
        assert(forall|x: int| !fed_positions(order, 0).contains(x));
        lemma_select_none(c, fed_positions(order, 0));
        assert(select_parts(c, fed_positions(order, 0)) =~= Seq::<(u8, u8, Seq<u8>)>::empty());
    } else {
        lemma_sort_fed(c, order, k - 1);
        assert(p.drop_last() =~= fed_parts(c, order, k - 1));
        let m = order[k - 1];
        assert(!fed_positions(order, k - 1).contains(m));
        lemma_insert_select(c, fed_positions(order, k - 1), m);
        assert(fed_positions(order, k - 1).insert(m) =~= fed_positions(order, k));
    }
}

proof fn lemma_select_none(c: Seq<(u8, u8, Seq<u8>)>, s: Set<int>)
    requires
        forall|x: int| !s.contains(x),
    ensures
        select_parts(c, s).len() == 0,
    decreases c.len(),
{
    if c.len() > 0 {
        lemma_select_none(c.drop_last(), s);
    }
}

proof fn lemma_join_front(p: Seq<(u8, u8, Seq<u8>)>)
    requires
        p.len() > 0,
    ensures
        join_chunks(p) == p[0].2 + join_chunks(p.drop_first()),
    decreases p.len(),
{
    if p.len() == 1 {
        assert(p.drop_last() =~= Seq::<(u8, u8, Seq<u8>)>::empty());
        assert(p.drop_first() =~= Seq::<(u8, u8, Seq<u8>)>::empty());
        assert(join_chunks(p) =~= p[0].2 + join_chunks(p.drop_first()));
    } else {
        lemma_join_front(p.drop_last());
        assert(p.drop_last().drop_first() =~= p.drop_first().drop_last());
        assert(p.drop_first().last() == p.last());
        assert(join_chunks(p) =~= p[0].2 + join_chunks(p.drop_first()));
    }
}

/// Joining parts that carry the chunks of `b` gives `b` back.
proof fn lemma_join_split(b: Seq<u8>, max: nat, p: Seq<(u8, u8, Seq<u8>)>)
    requires
        max > 0,
        p.len() == split_chunks(b, max).len(),
        forall|i: int| 0 <= i < p.len() ==> #[trigger] p[i].2 == split_chunks(b, max)[i],
    ensures
        join_chunks(p) == b,
    decreases b.len(),
{
    if b.len() == 0 {
        assert(b =~= Seq::<u8>::empty());
    } else if b.len() <= max {
        lemma_join_front(p);
        assert(p.drop_first().len() == 0);
        assert(join_chunks(p) =~= b);
    } else {
        let rest = b.skip(max as int);
        let tail = p.drop_first();
        assert(split_chunks(b, max) == seq![b.take(max as int)] + split_chunks(rest, max));
        assert forall|i: int| 0 <= i < tail.len() implies #[trigger] tail[i].2 == split_chunks(rest, max)[i] by {
            assert(tail[i] == p[i + 1]);
        }
        lemma_join_split(rest, max, tail);
        lemma_join_front(p);
        assert(p[0].2 == b.take(max as int));
        assert(b.take(max as int) + rest =~= b);
    }
}

/// A sequence of distinct positions in `[0, n)` of length `n` holds each of them.
proof fn lemma_order_covers(order: Seq<int>)
    requires
        forall|j: int| 0 <= j < order.len() ==> 0 <= #[trigger] order[j] < order.len(),
        forall|i: int, j: int| 0 <= i < j < order.len() ==> order[i] != order[j],
    ensures
        forall|x: int| 0 <= x < order.len() ==> #[trigger] fed_positions(order, order.len() as int).contains(x),
{
    lemma_permutation_onto(order);
    assert forall|x: int| 0 <= x < order.len() implies #[trigger] fed_positions(order, order.len() as int).contains(x) by {
        assert(order.contains(x));
        let j = choose|j: int| 0 <= j < order.len() && order[j] == x;
    }
}

proof fn lemma_parts_with_members(parts: Seq<(u8, u8, Seq<u8>)>, id: u8)
    ensures
        forall|x: (u8, u8, Seq<u8>)|
            #![trigger parts_with(parts, id).contains(x)]
            #![trigger parts.contains(x)]
            parts_with(parts, id).contains(x) <==> (parts.contains(x) && x.0 == id),
    decreases parts.len(),
{
    if parts.len() > 0 {
        let d = parts.drop_last();
        lemma_parts_with_members(d, id);
        let w = parts_with(parts, id);
        let wd = parts_with(d, id);
        assert forall|x: (u8, u8, Seq<u8>)| w.contains(x) <==> (parts.contains(x) && x.0 == id) by {
            if w.contains(x) {
                let q = choose|q: int| 0 <= q < w.len() && w[q] == x;
                if q < wd.len() {
                    assert(w[q] == wd[q]);
                    assert(wd.contains(x));
                    assert(d.contains(x));
                    let r = choose|r: int| 0 <= r < d.len() && d[r] == x;
                    assert(parts[r] == x);
                } else {
                    assert(x == parts[parts.len() - 1]);
                }
            }
            if parts.contains(x) && x.0 == id {
                let r = choose|r: int| 0 <= r < parts.len() && parts[r] == x;
                if r < d.len() {
                    assert(d[r] == x);
                    assert(d.contains(x));
                    let q = choose|q: int| 0 <= q < wd.len() && wd[q] == x;
                    assert(w[q] == x);
                } else {
                    assert(w[w.len() - 1] == x);
                }
            }
        }
    }
}

/// Whether a part with an index is kept depends only on the parts of its id.
proof fn lemma_has_part_own(parts: Seq<(u8, u8, Seq<u8>)>, id: u8, index: u8)
    ensures
        has_part(parts, id, index) <==> exists|q: int|
            0 <= q < parts_with(parts, id).len() && #[trigger] parts_with(parts, id)[q].1 == index,
{
    lemma_parts_with_members(parts, id);
    let w = parts_with(parts, id);
    if has_part(parts, id, index) {
        let k = choose|k: int| 0 <= k < parts.len() && #[trigger] parts[k].0 == id && parts[k].1 == index;
        assert(parts.contains(parts[k]));
        assert(w.contains(parts[k]));
        let q = choose|q: int| 0 <= q < w.len() && w[q] == parts[k];
        assert(w[q].1 == index);
    }
    if exists|q: int| 0 <= q < w.len() && #[trigger] w[q].1 == index {
        let q = choose|q: int| 0 <= q < w.len() && #[trigger] w[q].1 == index;
        assert(w.contains(w[q]));
        assert(parts.contains(w[q]));
        let k = choose|k: int| 0 <= k < parts.len() && parts[k] == w[q];
        assert(parts[k].0 == id && parts[k].1 == index);
    }
}

proof fn lemma_without_keeps_others(parts: Seq<(u8, u8, Seq<u8>)>, gone: u8, id: u8)
    ensures
        gone != id ==> parts_with(parts_without(parts, gone), id) == parts_with(parts, id),
        parts_with(parts_without(parts, gone), gone).len() == 0,
    decreases parts.len(),
{
    if parts.len() > 0 {
        let d = parts.drop_last();
        lemma_without_keeps_others(d, gone, id);
        let wo = parts_without(parts, gone);
        if parts.last().0 != gone {
            assert(wo == parts_without(d, gone).push(parts.last()));
            assert(wo.drop_last() =~= parts_without(d, gone));
        }
    }
}

/// Feeding the fragment of position `order[k]` to a reassembler that keeps,
/// for this fragment id, the parts of the first `k` positions fed.
proof fn lemma_feed_step(
    st: ReassemblyState,
    t: MsgType,
    chunks: Seq<Seq<u8>>,
    frag_id: u8,
    order: Seq<int>,
    k: int,
    f: Seq<u8>,
)
    requires
        chunks.len() < 256,
        order.len() == chunks.len(),
        forall|j: int| 0 <= j < order.len() ==> 0 <= #[trigger] order[j] < order.len(),
        forall|i: int, j: int| 0 <= i < j < order.len() ==> order[i] != order[j],
        0 <= k < chunks.len(),
        parts_with(st.parts, frag_id) == fed_parts(chunk_parts(chunks, frag_id), order, k),
        f == seq![header_spec(t, true), frag_id, order[k] as u8, chunks.len() as u8] + chunks[order[k]],
    ensures
        k + 1 < chunks.len() ==> parts_with(reassemble_step(st, f).0.parts, frag_id) == fed_parts(
            chunk_parts(chunks, frag_id),
            order,
            k + 1,
        ),
        k + 1 == chunks.len() ==> parts_with(reassemble_step(st, f).0.parts, frag_id).len() == 0,
        reassemble_step(st, f).1 == (if k + 1 < chunks.len() {
            Ok::<Option<(MsgType, CborValue)>, Seq<char>>(None)
        } else {
            match decode_at(join_chunks(sort_by_index(fed_parts(chunk_parts(chunks, frag_id), order, k + 1))), 0) {
                Ok((body, _)) => Ok(Some((t, body))),
                Err(e) => Err(e),
            }
        }),
{
    let c = chunk_parts(chunks, frag_id);
    let m = order[k];
    let mine = parts_with(st.parts, frag_id);
    lemma_header_fields(t, true);
    assert(f[0] == header_spec(t, true));
    assert(f[1] == frag_id && f[2] == m as u8 && f[3] == chunks.len() as u8);
    assert(f.skip(4) =~= chunks[m]);
    lemma_has_part_own(st.parts, frag_id, m as u8);
    assert(!has_part(st.parts, frag_id, m as u8)) by {
        assert forall|q: int| 0 <= q < mine.len() implies #[trigger] mine[q].1 != m as u8 by {
            assert(mine[q] == c[order[q]]);
            assert(order[q] != m);
            assert(order[q] as u8 == order[q]);
            assert(m as u8 == m);
        }
    }
    assert(c[m] == (frag_id, m as u8, chunks[m]));
    let parts = st.parts.push((frag_id, m as u8, f.skip(4)));
    assert(parts.drop_last() =~= st.parts);
    assert(parts_with(parts, frag_id) =~= fed_parts(c, order, k + 1));
    lemma_without_keeps_others(parts, frag_id, frag_id);
}

proof fn lemma_feed_prefix(
    s: ReassemblyState,
    t: MsgType,
    chunks: Seq<Seq<u8>>,
    frag_id: u8,
    order: Seq<int>,
    fs: Seq<Seq<u8>>,
    k: int,
)
    requires
        parts_with(s.parts, frag_id).len() == 0,
        chunks.len() < 256,
        order.len() == chunks.len(),
        forall|j: int| 0 <= j < order.len() ==> 0 <= #[trigger] order[j] < order.len(),
        forall|i: int, j: int| 0 <= i < j < order.len() ==> order[i] != order[j],
        fs.len() == chunks.len(),
        forall|j: int| 0 <= j < fs.len() ==> #[trigger] fs[j]
            == seq![header_spec(t, true), frag_id, order[j] as u8, chunks.len() as u8] + chunks[order[j]],
        0 <= k <= fs.len(),
    ensures
        k < fs.len() ==> parts_with(feed_state(s, fs.take(k)).parts, frag_id) == fed_parts(
            chunk_parts(chunks, frag_id),
            order,
            k,
        ),
        k == fs.len() ==> parts_with(feed_state(s, fs.take(k)).parts, frag_id).len() == 0,
        1 <= k < fs.len() ==> feed_result(s, fs.take(k)) == Ok::<Option<(MsgType, CborValue)>, Seq<char>>(None),
        k == fs.len() && k >= 1 ==> feed_result(s, fs.take(k)) == match decode_at(
            join_chunks(sort_by_index(fed_parts(chunk_parts(chunks, frag_id), order, k))),
            0,
        ) {
            Ok((body, _)) => Ok::<Option<(MsgType, CborValue)>, Seq<char>>(Some((t, body))),
            Err(e) => Err(e),
        },
    decreases k,
{
    let c = chunk_parts(chunks, frag_id);
    if k == 0 {
        assert(fed_parts(c, order, 0) =~= parts_with(s.parts, frag_id));
        assert(fs.take(0).len() == 0);
    } else {
        lemma_feed_prefix(s, t, chunks, frag_id, order, fs, k - 1);
        assert(fs.take(k).drop_last() =~= fs.take(k - 1));
        assert(fs.take(k).last() == fs[k - 1]);
        lemma_feed_step(feed_state(s, fs.take(k - 1)), t, chunks, frag_id, order, k - 1, fs[k - 1]);
    }
}

/// Fragments fed to a reassembler that keeps no part of their fragment id,
/// in any order, each once, give back the message kind and the body in
/// canonical form: every fragment but the last yields nothing, the last one
/// yields the body, and no part of that id is kept afterwards. A body that
/// fits in `max` bytes travels as one plain unit, which decodes at once. This
/// holds while the fragment count fits the one-byte total (fewer than 256).
pub proof fn law_fragments_reassemble(
    t: MsgType,
    body: CborValue,
    max: nat,
    frag_id: u8,
    order: Seq<int>,
    s: ReassemblyState,
)
    requires
        well_sized(body),
        max > 0,
        parts_with(s.parts, frag_id).len() == 0,
        fragments_spec(t, body, max, frag_id).len() < 256,
        order.len() == fragments_spec(t, body, max, frag_id).len(),
        forall|j: int| 0 <= j < order.len() ==> 0 <= #[trigger] order[j] < order.len(),
        forall|i: int, j: int| 0 <= i < j < order.len() ==> order[i] != order[j],
    ensures
        ({
            let frags = fragments_spec(t, body, max, frag_id);
            let fs = Seq::new(order.len(), |j: int| frags[order[j]]);
            &&& forall|k: int| 1 <= k < fs.len() ==> feed_result(s, #[trigger] fs.take(k))
                == Ok::<Option<(MsgType, CborValue)>, Seq<char>>(None)
            &&& feed_result(s, fs) == Ok::<Option<(MsgType, CborValue)>, Seq<char>>(Some((t, normalize(body))))
            &&& parts_with(feed_state(s, fs).parts, frag_id).len() == 0
        }),
{
    let frags = fragments_spec(t, body, max, frag_id);
    let fs = Seq::new(order.len(), |j: int| frags[order[j]]);
    let bytes = encode_value(body);
    law_canonical_round_trip(body);
    if bytes.len() <= max {
        assert(order.len() == 1);
        assert(order[0] == 0);
        assert(fs.drop_last().len() == 0);
        assert(fs.drop_last() =~= Seq::<Seq<u8>>::empty());
        assert(fs.last() == wire_spec(t, body));
        lemma_header_fields(t, false);
        law_wire_round_trip(t, body);
    } else {
        let chunks = split_chunks(bytes, max);
        let c = chunk_parts(chunks, frag_id);
        let n = chunks.len() as int;
        assert(fs.len() == n);
        assert forall|j: int| 0 <= j < fs.len() implies #[trigger] fs[j]
            == seq![header_spec(t, true), frag_id, order[j] as u8, chunks.len() as u8] + chunks[order[j]] by {
            assert(fs[j] == frags[order[j]]);
        }
        assert forall|k: int| 1 <= k < fs.len() implies feed_result(s, #[trigger] fs.take(k))
            == Ok::<Option<(MsgType, CborValue)>, Seq<char>>(None) by {
            lemma_feed_prefix(s, t, chunks, frag_id, order, fs, k);
        }
        lemma_feed_prefix(s, t, chunks, frag_id, order, fs, n);
        assert(fs.take(n) =~= fs);
        assert(indexed(c)) by {
            assert forall|i: int| 0 <= i < c.len() implies #[trigger] c[i].1 == i as u8 by {}
        }
        lemma_sort_fed(c, order, n);
        lemma_order_covers(order);
        lemma_select_all(c, fed_positions(order, n));
        lemma_join_split(bytes, max, c);
    }
}

/// A unit that is not a fragment of id `id` (a plain unit, a fragment of
/// another id, or a unit too short to carry an id) leaves the kept parts of
/// `id` as they are.
pub proof fn law_other_units_leave_id_alone(s: ReassemblyState, f: Seq<u8>, id: u8)
    requires
        !(f.len() >= 4 && frag_bit(f[0]) && f[1] == id),
    ensures
        parts_with(reassemble_step(s, f).0.parts, id) == parts_with(s.parts, id),
{
    if f.len() >= 4 && frag_bit(f[0]) {
        let fid = f[1];
        let parts = if has_part(s.parts, fid, f[2]) {
            s.parts
        } else {
            s.parts.push((fid, f[2], f.skip(4)))
        };
        assert(parts_with(parts, id) == parts_with(s.parts, id)) by {
            if !has_part(s.parts, fid, f[2]) {
                assert(parts.drop_last() =~= s.parts);
            }
        }
        lemma_without_keeps_others(parts, fid, id);
    }
}

/// What a fragment yields, and what it leaves kept of its own id, depends
/// only on the parts kept of that id: units of other ids fed in between
/// change neither.
pub proof fn law_fragment_sees_only_its_id(s1: ReassemblyState, s2: ReassemblyState, f: Seq<u8>)
    requires
        f.len() >= 4,
        frag_bit(f[0]),
        parts_with(s1.parts, f[1]) == parts_with(s2.parts, f[1]),
    ensures
        reassemble_step(s1, f).1 == reassemble_step(s2, f).1,
        parts_with(reassemble_step(s1, f).0.parts, f[1]) == parts_with(reassemble_step(s2, f).0.parts, f[1]),
{
    let id = f[1];
    let idx = f[2];
    lemma_has_part_own(s1.parts, id, idx);
    lemma_has_part_own(s2.parts, id, idx);
    let x = (id, idx, f.skip(4));
    let p1 = if has_part(s1.parts, id, idx) { s1.parts } else { s1.parts.push(x) };
    let p2 = if has_part(s2.parts, id, idx) { s2.parts } else { s2.parts.push(x) };
    assert(s1.parts.push(x).drop_last() =~= s1.parts);
    assert(s2.parts.push(x).drop_last() =~= s2.parts);
    assert(parts_with(p1, id) == parts_with(p2, id));
    lemma_without_keeps_others(p1, id, id);
    lemma_without_keeps_others(p2, id, id);
}

/// Whether a unit is a fragment of id `id`.
pub open spec fn is_fragment_of(f: Seq<u8>, id: u8) -> bool {
    f.len() >= 4 && frag_bit(f[0]) && f[1] == id
}

/// The fragments of id `id` among `fs`, in the order they come.
pub open spec fn own_units(fs: Seq<Seq<u8>>, id: u8) -> Seq<Seq<u8>>
    decreases fs.len(),
{
    if fs.len() == 0 {
        fs
    } else {
        let rest = own_units(fs.drop_last(), id);
        if is_fragment_of(fs.last(), id) {
            rest.push(fs.last())
        } else {
            rest
        }
    }
}

/// Units of any other ids interleaved with the fragments of id `id` change
/// nothing for that id: the parts kept of it, and what each of its
/// fragments yields, are as if its fragments alone had been fed, from any
/// state that keeps the same parts of `id`.
pub proof fn law_interleaved_units(s1: ReassemblyState, s2: ReassemblyState, fs: Seq<Seq<u8>>, id: u8)
    requires
        parts_with(s1.parts, id) == parts_with(s2.parts, id),
    ensures
        parts_with(feed_state(s1, fs).parts, id) == parts_with(feed_state(s2, own_units(fs, id)).parts, id),
        fs.len() > 0 && is_fragment_of(fs.last(), id) ==> feed_result(s1, fs) == feed_result(s2, own_units(fs, id)),
    decreases fs.len(),
{
    if fs.len() > 0 {
        let prev = fs.drop_last();
        let f = fs.last();
        law_interleaved_units(s1, s2, prev, id);
        let st1 = feed_state(s1, prev);
        let st2 = feed_state(s2, own_units(prev, id));
        if is_fragment_of(f, id) {
            let o = own_units(fs, id);
            assert(o.drop_last() =~= own_units(prev, id));
            assert(o.last() == f);
            law_fragment_sees_only_its_id(st1, st2, f);
        } else {
            law_other_units_leave_id_alone(st1, f, id);
        }
    }
}

/// A body that passes the e-stop size check travels as one plain unit: it
/// is never split into fragments.
pub proof fn law_fitting_body_is_one_unit(t: MsgType, body: CborValue, frag_id: u8)
    requires
        encode_value(body).len() <= MAX_CRCP_FRAGMENT,
    ensures
        fragments_spec(t, body, MAX_CRCP_FRAGMENT as nat, frag_id) == seq![wire_spec(t, body)],
{
}

/// The header byte of a payload unit: version 1 in the high nibble, the
/// FRAG flag as bit 3, and the kind in the low two bits (manifest 0, task 1,
/// telemetry 2, e-stop 3).
pub proof fn law_header_byte_layout(t: MsgType, frag: bool)
    ensures
        header_spec(t, frag) == 16 + (if frag { 8int } else { 0int }) + match t {
            MsgType::Manifest => 0int,
            MsgType::Task => 1int,
            MsgType::Telemetry => 2int,
            MsgType::EStop => 3int,
        },
{
    let sel = selector_of(t);
    let f: u8 = if frag { 8u8 } else { 0u8 };
    assert((0x10u8 | f | sel) as int == 16 + f as int + sel as int) by (bit_vector)
        requires
            sel < 4u8,
            f == 0u8 || f == 8u8,
    ;
}

} // verus!
