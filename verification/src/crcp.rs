//! CRCP wire format: the signing pre-image, the `0x04` payload unit header,
//! fragmentation and reassembly.

pub mod laws;

use vstd::prelude::*;
use vstd::slice::slice_subrange;
use vstd::string::StringExecFns;
use crate::bytes::{append_bytes, copy_range};
use crate::cbor::{Cbor, CborValue, remove_key};
use crate::cbor::canonical::{encode_value, encode_canonical};
use crate::cbor::laws::{normalize, well_sized};
use crate::cbor::parse::{decode, decode_at};
use crate::ed25519::{SigningKey, VerifyingKey, ed25519_signature, ed25519_accepts, ed25519_public};

verus! {

/// RFC 0001 Type byte for robot-dispatch (CRCP) frames.
pub const CRCP_PAYLOAD_TYPE: u8 = 0x04;

/// CRCP major version, carried in the high nibble of the header byte.
pub const CRCP_VERSION: u8 = 0x1;

/// Domain-separation tag prepended to every signing pre-image: `"CRCP1"`.
pub const DOMAIN_TAG: [u8; 5] = [0x43, 0x52, 0x43, 0x50, 0x31];

/// Largest canonical CBOR body that travels unfragmented.
pub const MAX_CRCP_FRAGMENT: usize = 200;

/// CRCP message kind, carried as a 2-bit selector in the header byte.
#[derive(Debug, Clone, Copy, PartialEq, Eq, Structural)]
pub enum MsgType {
    Manifest,
    Task,
    Telemetry,
    EStop,
}

/// The 2-bit selector of a message kind.
pub open spec fn selector_of(t: MsgType) -> u8 {
    match t {
        MsgType::Manifest => 0,
        MsgType::Task => 1,
        MsgType::Telemetry => 2,
        MsgType::EStop => 3,
    }
}

/// The message kind of a selector value (only its two low bits count).
pub open spec fn msg_type_of(s: u8) -> MsgType {
    let sel = s & 3u8;
    if sel == 0 {
        MsgType::Manifest
    } else if sel == 1 {
        MsgType::Task
    } else if sel == 2 {
        MsgType::Telemetry
    } else {
        MsgType::EStop
    }
}

impl MsgType {
    /// The message kind selected by the two low bits of `s`.
    pub fn from_selector(s: u8) -> (res: Option<MsgType>)
        ensures
            res == Some(msg_type_of(s)),
    {
        let sel = s & 0x3;
        assert(sel < 4) by (bit_vector)
            requires
                sel == s & 3u8,
        ;
        if sel == 0 {
            Some(MsgType::Manifest)
        } else if sel == 1 {
            Some(MsgType::Task)
        } else if sel == 2 {
            Some(MsgType::Telemetry)
        } else {
            Some(MsgType::EStop)
        }
    }

    /// The 2-bit selector of this message kind.
    pub fn selector(self) -> (s: u8)
        ensures
            s == selector_of(self),
    {
        match self {
            MsgType::Manifest => 0,
            MsgType::Task => 1,
            MsgType::Telemetry => 2,
            MsgType::EStop => 3,
        }
    }
}

/// The bytes of [`DOMAIN_TAG`].
pub open spec fn domain_tag() -> Seq<u8> {
    seq![0x43u8, 0x52u8, 0x43u8, 0x50u8, 0x31u8]
}

/// The signing pre-image: `DOMAIN_TAG || selector || detCBOR(body \ "signature")`.
pub open spec fn preimage_spec(t: MsgType, body: CborValue) -> Seq<u8> {
    domain_tag() + seq![selector_of(t)] + encode_value(remove_key(body, "signature"@))
}

/// Builds the transport-independent signing pre-image of a body.
pub fn preimage(t: MsgType, body: &Cbor) -> (out: Vec<u8>)
    ensures
        out@ == preimage_spec(t, body@),
{
    let stripped = body.without_key("signature");
    let mut out: Vec<u8> = Vec::new();
    append_bytes(&mut out, &DOMAIN_TAG);
    assert(DOMAIN_TAG@ =~= domain_tag());
    out.push(t.selector());
    let enc = encode_canonical(&stripped);
    append_bytes(&mut out, enc.as_slice());
    assert(out@ =~= preimage_spec(t, body@));
    out
}

/// Signs a CRCP body: the ed25519 signature of its pre-image.
pub fn sign(sk: &SigningKey, t: MsgType, body: &Cbor) -> (sig: [u8; 64])
    ensures
        sig@ == ed25519_signature(sk.secret(), preimage_spec(t, body@)),
        ed25519_accepts(ed25519_public(sk.secret()), preimage_spec(t, body@), sig@),
{
    let msg = preimage(t, body);
    sk.sign(msg.as_slice())
}

/// Verifies a CRCP body against a 64-byte signature over its pre-image.
pub fn verify(vk: &VerifyingKey, t: MsgType, body: &Cbor, sig: &[u8; 64]) -> (ok: bool)
    ensures
        ok == ed25519_accepts(vk.key(), preimage_spec(t, body@), sig@),
{
    let msg = preimage(t, body);
    vk.verify(msg.as_slice(), sig)
}

/// The header byte of a payload unit: version nibble, FRAG flag, selector.
pub open spec fn header_spec(t: MsgType, frag: bool) -> u8 {
    0x10u8 | (if frag { 8u8 } else { 0u8 }) | selector_of(t)
}

fn header_byte(t: MsgType, frag: bool) -> (hb: u8)
    ensures
        hb == header_spec(t, frag),
{
    let v: u8 = CRCP_VERSION << 4;
    assert(v == 0x10u8) by (bit_vector)
        requires
            v == 1u8 << 4u8,
    ;
    v | (if frag { 8u8 } else { 0u8 }) | t.selector()
}

/// A non-fragmented payload unit: header byte, then the canonical CBOR body.
pub open spec fn wire_spec(t: MsgType, body: CborValue) -> Seq<u8> {
    seq![header_spec(t, false)] + encode_value(body)
}

/// Encodes a single (non-fragmented) CRCP payload unit: the application
/// payload that rides inside an RFC 0001 `0x04` frame.
pub fn encode_wire(t: MsgType, body: &Cbor) -> (out: Vec<u8>)
    ensures
        out@ == wire_spec(t, body@),
        decode_wire_spec(out@) == Ok::<(WireHeader, CborValue), Seq<char>>(
            (WireHeader { version: CRCP_VERSION, frag: false, msg_type: t }, normalize(body@)),
        ),
{
    let mut out: Vec<u8> = Vec::new();
    out.push(header_byte(t, false));
    let enc = encode_canonical(body);
    append_bytes(&mut out, enc.as_slice());
    assert(out@ =~= wire_spec(t, body@));
    proof {
        laws::law_wire_round_trip(t, body@);
    }
    out
}

/// Parsed header of a CRCP payload unit.
#[derive(Debug, Clone, Copy, PartialEq, Eq, Structural)]
pub struct WireHeader {
    pub version: u8,
    pub frag: bool,
    pub msg_type: MsgType,
}

/// Whether the FRAG bit of a header byte is set.
pub open spec fn frag_bit(hb: u8) -> bool {
    (hb >> 3u8) & 1u8 == 1u8
}

/// Decoding of a non-fragmented payload unit into its header and body.
pub open spec fn decode_wire_spec(b: Seq<u8>) -> Result<(WireHeader, CborValue), Seq<char>> {
    if b.len() == 0 {
        Err("empty"@)
    } else if frag_bit(b[0]) {
        Err("fragmented unit: use Reassembler"@)
    } else {
        match decode_at(b.subrange(1, b.len() as int), 0) {
            Ok((v, _)) => Ok(
                (WireHeader { version: b[0] >> 4u8, frag: false, msg_type: msg_type_of(b[0] & 3u8) }, v),
            ),
            Err(e) => Err(e),
        }
    }
}

/// Decodes a non-fragmented payload unit into (header, body).
pub fn decode_wire(bytes: &[u8]) -> (res: Result<(WireHeader, Cbor), String>)
    ensures
        match res {
            Ok((h, c)) => decode_wire_spec(bytes@) == Ok::<(WireHeader, CborValue), Seq<char>>((h, c@)),
            Err(e) => decode_wire_spec(bytes@) == Err::<(WireHeader, CborValue), Seq<char>>(e@),
        },
{
    if bytes.len() == 0 {
        return Err(String::from_str("empty"));
    }
    let hb = bytes[0];
    let version = hb >> 4;
    let frag = (hb >> 3) & 1 == 1;
    let msg_type = match MsgType::from_selector(hb & 0x3) {
        Some(m) => m,
        None => return Err(String::from_str("bad selector")),
    };
    if frag {
        return Err(String::from_str("fragmented unit: use Reassembler"));
    }
    let rest = slice_subrange(bytes, 1, bytes.len());
    match decode(rest) {
        Ok((body, _)) => Ok((WireHeader { version, frag, msg_type }, body)),
        Err(e) => Err(e),
    }
}

/// `b` cut into consecutive chunks of `max` bytes (the last may be shorter).
pub open spec fn split_chunks(b: Seq<u8>, max: nat) -> Seq<Seq<u8>>
    decreases b.len(),
{
    if b.len() == 0 || max == 0 {
        seq![]
    } else if b.len() <= max {
        seq![b]
    } else {
        seq![b.take(max as int)] + split_chunks(b.skip(max as int), max)
    }
}

/// The payload units that carry `body`: one plain unit when its encoding fits
/// in `max` bytes, else one fragment per chunk, each prefixed by the header
/// byte with FRAG set and `[frag_id, index, total]` (index and total as bytes).
pub open spec fn fragments_spec(t: MsgType, body: CborValue, max: nat, frag_id: u8) -> Seq<Seq<u8>> {
    let bytes = encode_value(body);
    if bytes.len() <= max {
        seq![wire_spec(t, body)]
    } else {
        let chunks = split_chunks(bytes, max);
        Seq::new(
            chunks.len(),
            |i: int| seq![header_spec(t, true), frag_id, i as u8, chunks.len() as u8] + chunks[i],
        )
    }
}

/// Splits a payload unit into fragments when the CBOR body exceeds `max`
/// bytes; returns the single non-fragmented unit when it fits.
pub fn fragment_unit(t: MsgType, body: &Cbor, max: usize, frag_id: u8) -> (frags: Vec<Vec<u8>>)
    requires
        max > 0,
    ensures
        frags@.map_values(|f: Vec<u8>| f@) == fragments_spec(t, body@, max as nat, frag_id),
        well_sized(body@),
{
    let body_bytes = encode_canonical(body);
    if body_bytes.len() <= max {
        let mut single: Vec<Vec<u8>> = Vec::new();
        single.push(encode_wire(t, body));
        assert(single@.map_values(|f: Vec<u8>| f@) =~= fragments_spec(t, body@, max as nat, frag_id));
        return single;
    }
    let ghost bytes = body_bytes@;
    let len = body_bytes.len();
    let mut ranges: Vec<(usize, usize)> = Vec::new();
    let mut start: usize = 0;
    assert(bytes.skip(0) =~= bytes);
    assert(ranges@.map_values(|r: (usize, usize)| bytes.subrange(r.0 as int, r.1 as int)) =~= Seq::<Seq<u8>>::empty());
    while start < len
        invariant
            bytes == body_bytes@,
            len == bytes.len(),
            max > 0,
            start <= len,
            forall|k: int| 0 <= k < ranges@.len() ==> #[trigger] ranges@[k].0 <= ranges@[k].1 <= len,
            split_chunks(bytes, max as nat) == ranges@.map_values(|r: (usize, usize)| bytes.subrange(r.0 as int, r.1 as int))
                + split_chunks(bytes.skip(start as int), max as nat),
        decreases len - start,
    {
        let ghost before = ranges@.map_values(|r: (usize, usize)| bytes.subrange(r.0 as int, r.1 as int));
        let ghost rest = bytes.skip(start as int);
        let end = if len - start <= max { len } else { start + max };
        ranges.push((start, end));
        proof {
            if len - start <= max {
                assert(split_chunks(rest, max as nat) == seq![rest]);
                assert(rest =~= bytes.subrange(start as int, end as int));
                assert(bytes.skip(end as int).len() == 0);
                assert(split_chunks(bytes.skip(end as int), max as nat) =~= Seq::<Seq<u8>>::empty());
            } else {
                assert(rest.take(max as int) =~= bytes.subrange(start as int, end as int));
                assert(rest.skip(max as int) =~= bytes.skip(end as int));
            }
            assert(ranges@.map_values(|r: (usize, usize)| bytes.subrange(r.0 as int, r.1 as int))
                =~= before.push(bytes.subrange(start as int, end as int)));
        }
        start = end;
    }
    let ghost chunks = split_chunks(bytes, max as nat);
    assert(bytes.skip(start as int).len() == 0);
    assert(split_chunks(bytes.skip(start as int), max as nat) =~= Seq::<Seq<u8>>::empty());
    assert(chunks =~= ranges@.map_values(|r: (usize, usize)| bytes.subrange(r.0 as int, r.1 as int)));
    let total = ranges.len() as u8;
    let hb = header_byte(t, true);
    let mut frags: Vec<Vec<u8>> = Vec::new();
    let mut i: usize = 0;
    while i < ranges.len()
        invariant
            bytes == body_bytes@,
            chunks.len() == ranges@.len(),
            total == chunks.len() as u8,
            hb == header_spec(t, true),
            forall|k: int| 0 <= k < ranges@.len() ==> #[trigger] ranges@[k].0 <= ranges@[k].1 <= bytes.len(),
            forall|k: int| 0 <= k < ranges@.len() ==> #[trigger] chunks[k] == bytes.subrange(ranges@[k].0 as int, ranges@[k].1 as int),
            i <= ranges@.len(),
            frags@.len() == i,
            forall|k: int| 0 <= k < i ==> #[trigger] frags@[k]@ == seq![hb, frag_id, k as u8, total] + chunks[k],
        decreases ranges@.len() - i,
    {
        let (s, e) = ranges[i];
        let mut f: Vec<u8> = Vec::new();
        f.push(hb);
        f.push(frag_id);
        f.push(i as u8);
        f.push(total);
        let chunk = copy_range(body_bytes.as_slice(), s, e);
        append_bytes(&mut f, chunk.as_slice());
        assert(f@ =~= seq![hb, frag_id, i as u8, total] + chunks[i as int]);
        frags.push(f);
        i += 1;
    }
    assert(frags@.map_values(|f: Vec<u8>| f@) =~= fragments_spec(t, body@, max as nat, frag_id));
    frags
}

/// True if an e-stop body fits in a single packet (an e-stop must never fragment).
pub fn estop_fits_single_packet(body: &Cbor) -> (fits: bool)
    ensures
        fits == (encode_value(body@).len() <= MAX_CRCP_FRAGMENT),
{
    encode_canonical(body).len() <= MAX_CRCP_FRAGMENT
}

/// A stored fragment: (frag_id, index, chunk).
pub type Part = (u8, u8, Vec<u8>);

/// Mathematical state of a [`Reassembler`].
pub struct ReassemblyState {
    /// Fragments kept so far, in arrival order, as (frag_id, index, chunk).
    pub parts: Seq<(u8, u8, Seq<u8>)>,
    /// Total announced by the latest fragment.
    pub total: Option<u8>,
    /// Message kind of the latest fragment.
    pub msg_type: Option<MsgType>,
}

/// Reassembles fragmented payload units.
pub struct Reassembler {
    parts: Vec<Part>,
    total: Option<u8>,
    msg_type: Option<MsgType>,
}

/// Whether a fragment with this (frag_id, index) is already kept.
pub open spec fn has_part(parts: Seq<(u8, u8, Seq<u8>)>, frag_id: u8, index: u8) -> bool {
    exists|k: int| 0 <= k < parts.len() && #[trigger] parts[k].0 == frag_id && parts[k].1 == index
}

/// Inserts a part after every part whose index is not greater (stable insertion).
pub open spec fn insert_by_index(sorted: Seq<(u8, u8, Seq<u8>)>, e: (u8, u8, Seq<u8>)) -> Seq<(u8, u8, Seq<u8>)>
    decreases sorted.len(),
{
    if sorted.len() == 0 {
        seq![e]
    } else if e.1 < sorted.last().1 {
        insert_by_index(sorted.drop_last(), e).push(sorted.last())
    } else {
        sorted.push(e)
    }
}

/// Stable sort of parts by fragment index.
pub open spec fn sort_by_index(parts: Seq<(u8, u8, Seq<u8>)>) -> Seq<(u8, u8, Seq<u8>)>
    decreases parts.len(),
{
    if parts.len() == 0 {
        parts
    } else {
        insert_by_index(sort_by_index(parts.drop_last()), parts.last())
    }
}

/// The kept parts of fragment id `id`, in arrival order.
pub open spec fn parts_with(parts: Seq<(u8, u8, Seq<u8>)>, id: u8) -> Seq<(u8, u8, Seq<u8>)>
    decreases parts.len(),
{
    if parts.len() == 0 {
        parts
    } else {
        let rest = parts_with(parts.drop_last(), id);
        if parts.last().0 == id {
            rest.push(parts.last())
        } else {
            rest
        }
    }
}

/// The kept parts of every fragment id other than `id`, in arrival order.
pub open spec fn parts_without(parts: Seq<(u8, u8, Seq<u8>)>, id: u8) -> Seq<(u8, u8, Seq<u8>)>
    decreases parts.len(),
{
    if parts.len() == 0 {
        parts
    } else {
        let rest = parts_without(parts.drop_last(), id);
        if parts.last().0 != id {
            rest.push(parts.last())
        } else {
            rest
        }
    }
}

/// Concatenation of the chunks of the given parts, in order.
pub open spec fn join_chunks(parts: Seq<(u8, u8, Seq<u8>)>) -> Seq<u8>
    decreases parts.len(),
{
    if parts.len() == 0 {
        seq![]
    } else {
        join_chunks(parts.drop_last()) + parts.last().2
    }
}

/// The effect of feeding one payload unit to a reassembler in state `s`: the
/// next state and the result.
pub open spec fn reassemble_step(s: ReassemblyState, f: Seq<u8>) -> (ReassemblyState, Result<Option<(MsgType, CborValue)>, Seq<char>>) {
    if f.len() == 0 {
        (s, Err("empty frag"@))
    } else {
        let hb = f[0];
        let mt = msg_type_of(hb & 3u8);
        if !frag_bit(hb) {
            (s, match decode_wire_spec(f) {
                Ok((_, body)) => Ok(Some((mt, body))),
                Err(e) => Err(e),
            })
        } else if f.len() < 2 {
            (s, Err("eof frag_id"@))
        } else if f.len() < 3 {
            (s, Err("eof index"@))
        } else if f.len() < 4 {
            (s, Err("eof total"@))
        } else {
            let frag_id = f[1];
            let index = f[2];
            let total = f[3];
            let parts = if has_part(s.parts, frag_id, index) {
                s.parts
            } else {
                s.parts.push((frag_id, index, f.skip(4)))
            };
            let mine = parts_with(parts, frag_id);
            if mine.len() == total as nat {
                (
                    ReassemblyState { parts: parts_without(parts, frag_id), total: Some(total), msg_type: Some(mt) },
                    match decode_at(join_chunks(sort_by_index(mine)), 0) {
                        Ok((body, _)) => Ok(Some((mt, body))),
                        Err(e) => Err(e),
                    },
                )
            } else {
                (ReassemblyState { parts, total: Some(total), msg_type: Some(mt) }, Ok(None))
            }
        }
    }
}

/// View of stored parts as sequences.
pub open spec fn parts_view(v: Seq<Part>) -> Seq<(u8, u8, Seq<u8>)> {
    v.map_values(|p: Part| (p.0, p.1, p.2@))
}

impl View for Reassembler {
    type V = ReassemblyState;

    closed spec fn view(&self) -> ReassemblyState {
        ReassemblyState { parts: parts_view(self.parts@), total: self.total, msg_type: self.msg_type }
    }
}

proof fn lemma_insert_index_at(s: Seq<(u8, u8, Seq<u8>)>, e: (u8, u8, Seq<u8>), j: int)
    requires
        0 <= j <= s.len(),
        forall|t: int| j <= t < s.len() ==> e.1 < #[trigger] s[t].1,
        j > 0 ==> !(e.1 < s[j - 1].1),
    ensures
        insert_by_index(s, e) == s.insert(j, e),
    decreases s.len(),
{
    if s.len() == 0 {
        assert(s.insert(j, e) =~= seq![e]);
    } else if j == s.len() {
        assert(s.insert(j, e) =~= s.push(e));
    } else {
        assert(e.1 < s[s.len() - 1].1);
        lemma_insert_index_at(s.drop_last(), e, j);
        assert(s.drop_last().insert(j, e).push(s.last()) =~= s.insert(j, e));
    }
}

impl Reassembler {
    /// An empty reassembler.
    pub fn new() -> (r: Reassembler)
        ensures
            r@.parts == Seq::<(u8, u8, Seq<u8>)>::empty(),
            r@.total is None,
            r@.msg_type is None,
    {
        let r = Reassembler { parts: Vec::new(), total: None, msg_type: None };
        assert(r@.parts =~= Seq::<(u8, u8, Seq<u8>)>::empty());
        r
    }

    /// Copies of the given parts, stably sorted by fragment index.
    fn ordered_parts(parts: &Vec<Part>) -> (out: Vec<Part>)
        ensures
            parts_view(out@) == sort_by_index(parts_view(parts@)),
    {
        let ghost all = parts_view(parts@);
        let mut out: Vec<Part> = Vec::new();
        let mut i: usize = 0;
        while i < parts.len()
            invariant
                all == parts_view(parts@),
                i <= parts@.len(),
                parts_view(out@) == sort_by_index(all.take(i as int)),
            decreases parts@.len() - i,
        {
            let fid = parts[i].0;
            let idx = parts[i].1;
            let chunk = copy_range(parts[i].2.as_slice(), 0, parts[i].2.len());
            let ghost e = (fid, idx, chunk@);
            assert(chunk@ =~= parts@[i as int].2@);
            assert(all[i as int] == e);
            let ghost sorted = parts_view(out@);
            let mut j: usize = out.len();
            while j > 0 && idx < out[j - 1].1
                invariant
                    j <= out@.len(),
                    sorted == parts_view(out@),
                    forall|t: int| j <= t < sorted.len() ==> idx < #[trigger] sorted[t].1,
                decreases j,
            {
                j -= 1;
            }
            proof {
                lemma_insert_index_at(sorted, e, j as int);
            }
            out.insert(j, (fid, idx, chunk));
            assert(parts_view(out@) =~= sorted.insert(j as int, e));
            assert(all.take(i + 1).drop_last() =~= all.take(i as int));
            i += 1;
        }
        assert(all.take(i as int) =~= all);
        out
    }

    /// Copies of the kept parts of fragment id `id`, and of all the others.
    fn split_parts(&self, id: u8) -> (res: (Vec<Part>, Vec<Part>))
        ensures
            parts_view(res.0@) == parts_with(parts_view(self.parts@), id),
            parts_view(res.1@) == parts_without(parts_view(self.parts@), id),
    {
        let ghost all = parts_view(self.parts@);
        let mut mine: Vec<Part> = Vec::new();
        let mut others: Vec<Part> = Vec::new();
        let mut i: usize = 0;
        while i < self.parts.len()
            invariant
                all == parts_view(self.parts@),
                i <= self.parts@.len(),
                parts_view(mine@) == parts_with(all.take(i as int), id),
                parts_view(others@) == parts_without(all.take(i as int), id),
            decreases self.parts@.len() - i,
        {
            let fid = self.parts[i].0;
            let idx = self.parts[i].1;
            let chunk = copy_range(self.parts[i].2.as_slice(), 0, self.parts[i].2.len());
            let ghost e = (fid, idx, chunk@);
            assert(chunk@ =~= self.parts@[i as int].2@);
            assert(all[i as int] == e);
            let ghost m0 = parts_view(mine@);
            let ghost o0 = parts_view(others@);
            assert(all.take(i + 1).drop_last() =~= all.take(i as int));
            if fid == id {
                mine.push((fid, idx, chunk));
                assert(parts_view(mine@) =~= m0.push(e));
            } else {
                others.push((fid, idx, chunk));
                assert(parts_view(others@) =~= o0.push(e));
            }
            i += 1;
        }
        assert(all.take(i as int) =~= all);
        (mine, others)
    }

    /// Whether a part with this (frag_id, index) is already kept.
    fn contains_part(&self, frag_id: u8, index: u8) -> (found: bool)
        ensures
            found == has_part(parts_view(self.parts@), frag_id, index),
    {
        let ghost all = parts_view(self.parts@);
        let mut i: usize = 0;
        while i < self.parts.len()
            invariant
                all == parts_view(self.parts@),
                i <= self.parts@.len(),
                forall|k: int| 0 <= k < i ==> !(#[trigger] all[k].0 == frag_id && all[k].1 == index),
            decreases self.parts@.len() - i,
        {
            if self.parts[i].0 == frag_id && self.parts[i].1 == index {
                assert(all[i as int].0 == frag_id && all[i as int].1 == index);
                return true;
            }
            i += 1;
        }
        false
    }

    /// Feeds one payload unit. A non-fragmented unit is decoded at once; a
    /// fragment is kept (unless one with the same id and index already is),
    /// and once as many parts of its fragment id are kept as the fragment's
    /// total announces, those parts are taken out, their chunks joined in
    /// index order and the body decoded. Parts of other ids stay.
    pub fn push(&mut self, fragment: &[u8]) -> (res: Result<Option<(MsgType, Cbor)>, String>)
        ensures
            final(self)@ == reassemble_step(old(self)@, fragment@).0,
            match res {
                Ok(Some((t, c))) => reassemble_step(old(self)@, fragment@).1 == Ok::<Option<(MsgType, CborValue)>, Seq<char>>(Some((t, c@))),
                Ok(None) => reassemble_step(old(self)@, fragment@).1 == Ok::<Option<(MsgType, CborValue)>, Seq<char>>(None),
                Err(e) => reassemble_step(old(self)@, fragment@).1 == Err::<Option<(MsgType, CborValue)>, Seq<char>>(e@),
            },
    {
        if fragment.len() == 0 {
            return Err(String::from_str("empty frag"));
        }
        let hb = fragment[0];
        let frag = (hb >> 3) & 1 == 1;
        let mt = match MsgType::from_selector(hb & 0x3) {
            Some(m) => m,
            None => return Err(String::from_str("bad selector")),
        };
        if !frag {
            return match decode_wire(fragment) {
                Ok((_, body)) => Ok(Some((mt, body))),
                Err(e) => Err(e),
            };
        }
        if fragment.len() < 2 {
            return Err(String::from_str("eof frag_id"));
        }
        let frag_id = fragment[1];
        if fragment.len() < 3 {
            return Err(String::from_str("eof index"));
        }
        let index = fragment[2];
        if fragment.len() < 4 {
            return Err(String::from_str("eof total"));
        }
        let total = fragment[3];
        let chunk = copy_range(fragment, 4, fragment.len());
        assert(chunk@ =~= fragment@.skip(4));
        self.total = Some(total);
        self.msg_type = Some(mt);
        let ghost before = parts_view(self.parts@);
        if !self.contains_part(frag_id, index) {
            self.parts.push((frag_id, index, chunk));
            assert(parts_view(self.parts@) =~= before.push((frag_id, index, fragment@.skip(4))));
        }
        let (mine, others) = self.split_parts(frag_id);
        if mine.len() == total as usize {
            self.parts = others;
            let ordered = Self::ordered_parts(&mine);
            let ghost ov = parts_view(ordered@);
            let mut body_bytes: Vec<u8> = Vec::new();
            let mut i: usize = 0;
            while i < ordered.len()
                invariant
                    ov == parts_view(ordered@),
                    i <= ordered@.len(),
                    body_bytes@ == join_chunks(ov.take(i as int)),
                decreases ordered@.len() - i,
            {
                append_bytes(&mut body_bytes, ordered[i].2.as_slice());
                assert(ov.take(i + 1).drop_last() =~= ov.take(i as int));
                i += 1;
            }
            assert(ov.take(i as int) =~= ov);
            return match decode(body_bytes.as_slice()) {
                Ok((body, _)) => Ok(Some((mt, body))),
                Err(e) => Err(e),
            };
        }
        Ok(None)
    }
}

impl Default for Reassembler {
    fn default() -> (r: Reassembler)
        ensures
            r@.parts == Seq::<(u8, u8, Seq<u8>)>::empty(),
            r@.total is None,
            r@.msg_type is None,
    {
        Reassembler::new()
    }
}

} // verus!
