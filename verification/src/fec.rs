use vstd::prelude::*;
use crate::bytes::{be16, be16_value, push_be16, append_bytes, copy_range, lemma_be16_roundtrip};

verus! {

/// FEC strength selector: which Reed-Solomon code protects a frame body.
#[derive(Debug, Clone, Copy, PartialEq, Eq, Structural)]
pub enum FecProfile {
    /// RS(255,223): data and control frames.
    Data,
    /// RS(255,191): voice frames, more redundancy for fading HF links.
    Voice,
}

impl FecProfile {
    /// Parity bytes per 255-byte block, as a mathematical value.
    pub open spec fn spec_ecc_len(self) -> nat {
        match self {
            FecProfile::Data => 32,
            FecProfile::Voice => 64,
        }
    }

    /// Data bytes per 255-byte block.
    pub open spec fn spec_block_data_len(self) -> nat {
        (255 - self.spec_ecc_len()) as nat
    }

    /// Number of ECC (parity) bytes per 255-byte block.
    pub fn ecc_len(self) -> (n: usize)
        ensures
            n == self.spec_ecc_len(),
    {
        match self {
            FecProfile::Data => 32,
            FecProfile::Voice => 64,
        }
    }

    /// Data bytes per block (`255 - ecc_len`).
    pub fn block_data_len(self) -> (n: usize)
        ensures
            n == self.spec_block_data_len(),
            n + self.spec_ecc_len() == 255,
    {
        255 - self.ecc_len()
    }

    /// Largest number of byte errors per block the code can correct (`ecc_len / 2`).
    pub fn correctable(self) -> (n: usize)
        ensures
            n == self.spec_ecc_len() / 2,
    {
        self.ecc_len() / 2
    }
}

/// Largest payload the codec frames (its length travels as a u16).
pub const MAX_PAYLOAD: usize = 65535;

/// Why an FEC stream could not be produced or recovered.
#[derive(Debug, Clone, PartialEq, Eq, Structural)]
pub enum FecError {
    /// Payload exceeds the u16 length prefix capacity.
    TooLarge,
    /// Encoded stream is not a whole, non-zero number of 255-byte blocks.
    BadBlockAlignment,
    /// A block had more errors than the profile can correct.
    Uncorrectable,
    /// Decoded length prefix is inconsistent with the recovered data.
    BadLength,
}

/// The parity bytes that `reed-solomon`'s encoder appends to a data block
/// for a code with `ecc` parity bytes.
pub uninterp spec fn rs_parity(ecc: nat, data: Seq<u8>) -> Seq<u8>;

/// The data part that `reed-solomon`'s decoder recovers from a received
/// block of a code with `ecc` parity bytes, or `None` when it reports the
/// block as uncorrectable.
pub uninterp spec fn rs_corrected(ecc: nat, block: Seq<u8>) -> Option<Seq<u8>>;

/// Number of positions at which two equally long byte strings differ.
pub open spec fn diff_count(a: Seq<u8>, b: Seq<u8>) -> nat
    decreases a.len(),
{
    if a.len() == 0 || b.len() == 0 {
        0
    } else {
        diff_count(a.drop_last(), b.drop_last()) + (if a.last() != b.last() { 1nat } else { 0nat })
    }
}

/// Calls `reed_solomon::Encoder::encode`. Claimed, as the crate's source
/// shows: the block is the data followed by `ecc_len` parity bytes, which
/// depend only on `ecc_len` and the data; since the block is a codeword (all
/// syndromes zero), the decoder hands its data part back unchanged; and, as
/// for any Reed-Solomon code with `ecc_len` parity symbols, a full 255-byte
/// block received with at most `ecc_len / 2` wrong bytes is decoded back to
/// the data. The generator the encoder builds for `ecc_len` parity bytes is
/// the product of `(x - a^i)` for `i < ecc_len`, so the 64-parity generator is
/// a multiple of the 32-parity one: a full 64-parity block is also a 32-parity
/// codeword of its first 223 bytes, which the 32-parity decoder hands back.
#[verifier::external_body]
fn rs_encode_block(ecc_len: usize, data: &[u8]) -> (block: Vec<u8>)
    requires
        data@.len() + ecc_len <= 255,
    ensures
        block@ == data@ + rs_parity(ecc_len as nat, data@),
        block@.len() == data@.len() + ecc_len,
        rs_corrected(ecc_len as nat, block@) == Some(data@),
        (ecc_len == 32 || ecc_len == 64) && data@.len() + ecc_len == 255 ==> forall|r: Seq<u8>|
            r.len() == 255 && diff_count(r, block@) <= ecc_len / 2 ==> #[trigger] rs_corrected(ecc_len as nat, r)
                == Some(data@),
        ecc_len == 64 && data@.len() == 191 ==> rs_parity(32, block@.take(223)) == block@.skip(223)
            && rs_corrected(32, block@) == Some(block@.take(223)),
{
    reed_solomon::Encoder::new(ecc_len).encode(data)[..].to_vec()
}

/// Calls `reed_solomon::Decoder::correct` without known erasures. Claimed, as
/// the crate's source shows: the result depends only on `ecc_len` and the
/// block, and a recovered data part is the block minus its parity bytes.
#[verifier::external_body]
fn rs_correct_block(ecc_len: usize, block: &[u8]) -> (res: Option<Vec<u8>>)
    requires
        ecc_len == 32 || ecc_len == 64,
        block@.len() == 255,
    ensures
        res is Some <==> rs_corrected(ecc_len as nat, block@) is Some,
        res matches Some(d) ==> rs_corrected(ecc_len as nat, block@) == Some(d@),
        res matches Some(d) ==> d@.len() == block@.len() - ecc_len,
{
    match reed_solomon::Decoder::new(ecc_len).correct(block, None) {
        Ok(recovered) => Some(recovered.data().to_vec()),
        Err(_) => None,
    }
}

/// The `i`-th 255-byte block of a stream.
pub open spec fn block_at(s: Seq<u8>, i: int) -> Seq<u8> {
    s.subrange(255 * i, 255 * i + 255)
}

/// Whether `r` is `e` received with at most `t` wrong bytes in each of its
/// 255-byte blocks.
pub open spec fn close_blocks(t: nat, r: Seq<u8>, e: Seq<u8>) -> bool {
    &&& r.len() == e.len()
    &&& forall|i: int| 0 <= i < e.len() / 255 ==> diff_count(#[trigger] block_at(r, i), block_at(e, i)) <= t
}

/// Number of zero bytes that pad `n` up to a multiple of `k`.
pub open spec fn pad_len(n: nat, k: nat) -> nat {
    if k == 0 || n % k == 0 {
        0
    } else {
        (k - n % k) as nat
    }
}

/// The logical stream: u16 big-endian length, payload, zero padding to whole blocks.
pub open spec fn logical_stream(profile: FecProfile, payload: Seq<u8>) -> Seq<u8> {
    let framed = be16(payload.len() as u16) + payload;
    framed + Seq::new(pad_len(framed.len(), profile.spec_block_data_len()), |i: int| 0u8)
}

/// Each `k`-byte data chunk followed by its parity, concatenated.
pub open spec fn encode_blocks(ecc: nat, k: nat, logical: Seq<u8>) -> Seq<u8>
    decreases logical.len(),
{
    if logical.len() == 0 || k == 0 {
        seq![]
    } else if logical.len() <= k {
        logical + rs_parity(ecc, logical)
    } else {
        logical.take(k as int) + rs_parity(ecc, logical.take(k as int)) + encode_blocks(ecc, k, logical.skip(k as int))
    }
}

/// The FEC stream of a payload.
pub open spec fn fec_encode_spec(profile: FecProfile, payload: Seq<u8>) -> Result<Seq<u8>, FecError> {
    if payload.len() > MAX_PAYLOAD {
        Err(FecError::TooLarge)
    } else {
        Ok(encode_blocks(profile.spec_ecc_len(), profile.spec_block_data_len(), logical_stream(profile, payload)))
    }
}

/// The data parts recovered from consecutive 255-byte blocks, concatenated;
/// `None` as soon as one block is uncorrectable.
pub open spec fn correct_blocks(ecc: nat, encoded: Seq<u8>) -> Option<Seq<u8>>
    decreases encoded.len(),
{
    if encoded.len() < 255 {
        Some(seq![])
    } else {
        match rs_corrected(ecc, encoded.take(255)) {
            None => None,
            Some(d) => match correct_blocks(ecc, encoded.skip(255)) {
                None => None,
                Some(rest) => Some(d + rest),
            },
        }
    }
}

/// Recovery of a payload from an FEC stream.
pub open spec fn fec_decode_spec(profile: FecProfile, encoded: Seq<u8>) -> Result<Seq<u8>, FecError> {
    if encoded.len() == 0 || encoded.len() % 255 != 0 {
        Err(FecError::BadBlockAlignment)
    } else {
        match correct_blocks(profile.spec_ecc_len(), encoded) {
            None => Err(FecError::Uncorrectable),
            Some(logical) => if logical.len() < 2 {
                Err(FecError::BadLength)
            } else {
                let n = be16_value(logical[0], logical[1]);
                if 2 + n > logical.len() {
                    Err(FecError::BadLength)
                } else {
                    Ok(logical.subrange(2, 2 + n))
                }
            },
        }
    }
}

proof fn lemma_pad_multiple(n: nat, k: nat)
    requires
        k > 0,
    ensures
        (n + pad_len(n, k)) % k == 0,
        pad_len(n, k) < k,
{
    if n % k != 0 {
        assert(((n + (k - n % k)) as nat) % k == 0) by (nonlinear_arith)
            requires
                k > 0,
                n % k != 0,
        ;
    }
}

proof fn lemma_multiple_step(m: nat, k: nat)
    requires
        k > 0,
        m % k == 0,
        m >= k,
    ensures
        ((m - k) as nat) % k == 0,
{
    assert(((m - k) as nat) % k == 0) by (nonlinear_arith)
        requires
            k > 0,
            m % k == 0,
            m >= k,
    ;
}

proof fn lemma_ceil(m: nat, k: nat)
    requires
        k > 0,
    ensures
        (m + pad_len(m, k)) as int / k as int == (m + k - 1) as int / k as int,
{
    let mi = m as int;
    let ki = k as int;
    let q = mi / ki;
    let r = mi % ki;
    assert(mi == ki * q + r && 0 <= r < ki) by (nonlinear_arith)
        requires
            ki > 0,
            q == mi / ki,
            r == mi % ki,
    ;
    if r == 0 {
        assert(pad_len(m, k) == 0);
        assert((mi + ki - 1) / ki == q && mi / ki == q) by (nonlinear_arith)
            requires
                ki > 0,
                mi == ki * q,
        ;
    } else {
        assert(pad_len(m, k) == ki - r);
        assert((mi + (ki - r)) / ki == q + 1 && (mi + ki - 1) / ki == q + 1) by (nonlinear_arith)
            requires
                ki > 0,
                mi == ki * q + r,
                0 < r < ki,
        ;
    }
}

proof fn lemma_positive_multiple(x: int, k: int)
    requires
        k > 0,
        x > 0,
        x % k == 0,
    ensures
        x >= k,
{
    assert(x >= k) by (nonlinear_arith)
        requires
            k > 0,
            x > 0,
            x % k == 0,
    ;
}

/// Correcting a stream that ends in one more 255-byte block corrects the
/// prefix and then that block.
proof fn lemma_correct_blocks_append(ecc: nat, prefix: Seq<u8>, block: Seq<u8>)
    requires
        prefix.len() % 255 == 0,
        block.len() == 255,
    ensures
        correct_blocks(ecc, prefix + block) == match correct_blocks(ecc, prefix) {
            None => None,
            Some(d) => match rs_corrected(ecc, block) {
                None => None,
                Some(x) => Some(d + x),
            },
        },
    decreases prefix.len(),
{
    let s = prefix + block;
    if prefix.len() == 0 {
        assert(s =~= block);
        assert(s.take(255) =~= block);
        assert(s.skip(255).len() == 0);
        assert(correct_blocks(ecc, s.skip(255)) == Some(Seq::<u8>::empty()));
        match rs_corrected(ecc, block) {
            None => {},
            Some(x) => {
                assert(x + Seq::<u8>::empty() =~= x);
                assert(Seq::<u8>::empty() + x =~= x);
            },
        }
    } else {
        lemma_positive_multiple(prefix.len() as int, 255);
        let rest = prefix.skip(255);
        assert(rest.len() % 255 == 0) by {
            lemma_multiple_step(prefix.len(), 255);
        }
        lemma_correct_blocks_append(ecc, rest, block);
        assert(s.take(255) =~= prefix.take(255));
        assert(s.skip(255) =~= rest + block);
        match rs_corrected(ecc, prefix.take(255)) {
            None => {},
            Some(d0) => {
                match correct_blocks(ecc, rest) {
                    None => {},
                    Some(r) => {
                        match rs_corrected(ecc, block) {
                            None => {},
                            Some(x) => {
                                assert(d0 + (r + x) =~= (d0 + r) + x);
                            },
                        }
                    },
                }
            },
        }
    }
}

/// A received stream close to the stream so far followed by one more block
/// is corrected to the data so far followed by that block's data.
proof fn lemma_close_append(ecc: usize, before: Seq<u8>, block: Seq<u8>, data: Seq<u8>, so_far: Seq<u8>)
    requires
        ecc == 32 || ecc == 64,
        before.len() % 255 == 0,
        block.len() == 255,
        data.len() + ecc == 255,
        forall|r: Seq<u8>| r.len() == 255 && diff_count(r, block) <= ecc / 2 ==> #[trigger] rs_corrected(ecc as nat, r)
            == Some(data),
        forall|r: Seq<u8>| close_blocks((ecc / 2) as nat, r, before) ==> #[trigger] correct_blocks(ecc as nat, r)
            == Some(so_far),
    ensures
        forall|r: Seq<u8>| close_blocks((ecc / 2) as nat, r, before + block) ==> #[trigger] correct_blocks(ecc as nat, r)
            == Some(so_far + data),
{
    let n = before.len() as int;
    let nb = n / 255;
    assert(n == 255 * nb) by (nonlinear_arith)
        requires
            n % 255 == 0,
            nb == n / 255,
            n >= 0,
    ;
    let e = before + block;
    assert(e.len() / 255 == nb + 1) by (nonlinear_arith)
        requires
            e.len() == n + 255,
            n == 255 * nb,
    ;
    assert forall|r: Seq<u8>| close_blocks((ecc / 2) as nat, r, e) implies #[trigger] correct_blocks(ecc as nat, r)
        == Some(so_far + data) by {
        let p = r.take(n);
        let q = r.skip(n);
        assert(r =~= p + q);
        assert forall|i: int| 0 <= i < before.len() / 255 implies diff_count(#[trigger] block_at(p, i), block_at(before, i))
            <= (ecc / 2) as nat by {
            assert(block_at(p, i) =~= block_at(r, i));
            assert(block_at(before, i) =~= block_at(e, i));
        }
        assert(close_blocks((ecc / 2) as nat, p, before));
        assert(block_at(r, nb) =~= q);
        assert(block_at(e, nb) =~= block);
        assert(diff_count(q, block) <= ecc / 2);
        assert(rs_corrected(ecc as nat, q) == Some(data));
        lemma_correct_blocks_append(ecc as nat, p, q);
    }
}

/// Encodes `payload` with the given FEC profile: a whole number of 255-byte blocks.
pub fn encode(profile: FecProfile, payload: &[u8]) -> (res: Result<Vec<u8>, FecError>)
    ensures
        match res {
            Ok(v) => fec_encode_spec(profile, payload@) == Ok::<Seq<u8>, FecError>(v@),
            Err(e) => fec_encode_spec(profile, payload@) == Err::<Seq<u8>, FecError>(e),
        },
        res matches Ok(v) ==> fec_decode_spec(profile, v@) == Ok::<Seq<u8>, FecError>(payload@),
        res matches Ok(v) ==> v@.len() % 255 == 0 && v@.len() > 0,
        res matches Ok(v) ==> v@.len() == 255 * ((payload@.len() + 1 + profile.spec_block_data_len())
            / profile.spec_block_data_len()),
        res matches Ok(v) ==> forall|r: Seq<u8>|
            close_blocks(profile.spec_ecc_len() / 2, r, v@) ==> #[trigger] fec_decode_spec(profile, r)
                == Ok::<Seq<u8>, FecError>(payload@),
        profile == FecProfile::Voice && payload@.len() > 0 && res is Ok ==> (fec_decode_spec(
            FecProfile::Data,
            res->Ok_0@,
        ) matches Ok(b) && b.len() > 0 && b[0] == payload@[0]),
{
    if payload.len() > MAX_PAYLOAD {
        return Err(FecError::TooLarge);
    }
    let k = profile.block_data_len();
    let ecc = profile.ecc_len();
    let mut logical: Vec<u8> = Vec::new();
    push_be16(&mut logical, payload.len() as u16);
    append_bytes(&mut logical, payload);
    let ghost framed = logical@;
    let rem = logical.len() % k;
    if rem != 0 {
        let pad = k - rem;
        let mut z: usize = 0;
        while z < pad
            invariant
                z <= pad,
                logical@ == framed + Seq::new(z as nat, |i: int| 0u8),
            decreases pad - z,
        {
            logical.push(0);
            z += 1;
            assert(logical@ =~= framed + Seq::new(z as nat, |i: int| 0u8));
        }
    }
    assert(logical@ =~= logical_stream(profile, payload@));
    proof {
        lemma_pad_multiple(framed.len(), k as nat);
    }
    let mut out: Vec<u8> = Vec::new();
    let mut start: usize = 0;
    let ghost whole = logical@;
    let ghost mut dr: Seq<u8> = Seq::empty();
    assert(whole.skip(0) =~= whole);
    while start < logical.len()
        invariant
            whole == logical@,
            k + ecc == 255,
            k == profile.spec_block_data_len(),
            ecc == profile.spec_ecc_len(),
            k > 0,
            start <= whole.len(),
            (whole.len() - start) % (k as int) == 0,
            start % k == 0,
            out@.len() % 255 == 0,
            out@.len() == (start / k) * 255,
            correct_blocks(ecc as nat, out@) == Some(whole.take(start as int)),
            forall|r: Seq<u8>| close_blocks((ecc / 2) as nat, r, out@) ==> #[trigger] correct_blocks(ecc as nat, r)
                == Some(whole.take(start as int)),
            encode_blocks(ecc as nat, k as nat, whole) == out@ + encode_blocks(ecc as nat, k as nat, whole.skip(start as int)),
            profile == FecProfile::Voice ==> correct_blocks(32, out@) == Some(dr) && dr.len() == (start / k) * 223
                && (start >= k ==> dr.take(3) == whole.take(3)),
        decreases whole.len() - start,
    {
        let ghost rest = whole.skip(start as int);
        proof {
            lemma_positive_multiple(whole.len() - start, k as int);
        }
        let end = start + k;
        let chunk = copy_range(logical.as_slice(), start, end);
        let block = rs_encode_block(ecc, chunk.as_slice());
        let ghost before = out@;
        append_bytes(&mut out, block.as_slice());
        proof {
            lemma_close_append(ecc, before, block@, chunk@, whole.take(start as int));
            lemma_correct_blocks_append(ecc as nat, before, block@);
            assert(whole.take(start as int) + chunk@ =~= whole.take(end as int));
            if profile == FecProfile::Voice {
                let ghost d0 = dr;
                lemma_correct_blocks_append(32, before, block@);
                dr = d0 + block@.take(223);
                assert(end / k == start / k + 1) by (nonlinear_arith)
                    requires
                        start % k == 0,
                        end == start + k,
                        k > 0;
                assert(dr.len() == (end / k) * 223) by (nonlinear_arith)
                    requires
                        dr.len() == d0.len() + 223,
                        d0.len() == (start / k) * 223,
                        end / k == start / k + 1;
                if start == 0 {
                    assert(d0.len() == 0);
                    assert(dr.take(3) =~= chunk@.take(3));
                    assert(chunk@.take(3) =~= whole.take(3));
                } else {
                    assert(start >= k) by (nonlinear_arith)
                        requires
                            start % k == 0,
                            start > 0,
                            k > 0;
                    assert(dr.take(3) =~= d0.take(3));
                }
            }
            assert(out@.len() % 255 == 0) by {
                assert(out@.len() == before.len() + 255);
                assert((before.len() + 255) % 255 == before.len() % 255) by (nonlinear_arith);
            }
            assert(end % k == 0 && end / k == start / k + 1) by (nonlinear_arith)
                requires
                    start % k == 0,
                    end == start + k,
                    k > 0;
            assert(out@.len() == (end / k) * 255) by (nonlinear_arith)
                requires
                    out@.len() == before.len() + 255,
                    before.len() == (start / k) * 255,
                    end / k == start / k + 1;
            assert(chunk@ =~= rest.take(k as int));
            if rest.len() == k {
                assert(rest.take(k as int) =~= rest);
                assert(whole.skip(end as int).len() == 0);
            } else {
                assert(rest.skip(k as int) =~= whole.skip(end as int));
                lemma_multiple_step((whole.len() - start) as nat, k as nat);
            }
        }
        start = end;
    }
    assert(out@ =~= encode_blocks(ecc as nat, k as nat, whole));
    proof {
        assert(whole.take(start as int) =~= whole);
        assert(start == whole.len());
        assert(start >= k) by {
            lemma_positive_multiple(whole.len() as int, k as int);
        }
        assert(out@.len() > 0) by (nonlinear_arith)
            requires
                out@.len() == (start / k) * 255,
                start >= k,
                k > 0;
        lemma_ceil(framed.len(), k as nat);
        lemma_be16_roundtrip(payload@.len() as u16);
        assert(whole[0] == be16(payload@.len() as u16)[0]);
        assert(whole[1] == be16(payload@.len() as u16)[1]);
        assert(whole.subrange(2, 2 + payload@.len() as int) =~= payload@);
        if profile == FecProfile::Voice && payload@.len() > 0 {
            assert(dr.len() >= whole.len()) by (nonlinear_arith)
                requires
                    dr.len() == (start / k) * 223,
                    start == whole.len(),
                    start % k == 0,
                    k == 191;
            assert(dr[0] == whole[0] && dr[1] == whole[1] && dr[2] == whole[2]) by {
                assert(dr.take(3)[0] == whole.take(3)[0]);
                assert(dr.take(3)[1] == whole.take(3)[1]);
                assert(dr.take(3)[2] == whole.take(3)[2]);
            }
            assert(whole[2] == payload@[0]);
        }
    }
    Ok(out)
}

/// Decodes and error-corrects an FEC stream produced by [`encode`].
pub fn decode(profile: FecProfile, encoded: &[u8]) -> (res: Result<Vec<u8>, FecError>)
    ensures
        match res {
            Ok(v) => fec_decode_spec(profile, encoded@) == Ok::<Seq<u8>, FecError>(v@),
            Err(e) => fec_decode_spec(profile, encoded@) == Err::<Seq<u8>, FecError>(e),
        },
{
    if encoded.len() == 0 || encoded.len() % 255 != 0 {
        return Err(FecError::BadBlockAlignment);
    }
    let ecc = profile.ecc_len();
    let ghost whole = encoded@;
    let mut logical: Vec<u8> = Vec::new();
    let mut start: usize = 0;
    assert(whole.skip(0) =~= whole);
    while start < encoded.len()
        invariant
            whole == encoded@,
            whole.len() > 0,
            whole.len() % 255 == 0,
            ecc == profile.spec_ecc_len(),
            start <= whole.len(),
            (whole.len() - start) % 255 == 0,
            correct_blocks(ecc as nat, whole) == match correct_blocks(ecc as nat, whole.skip(start as int)) {
                None => None,
                Some(rest) => Some(logical@ + rest),
            },
        decreases whole.len() - start,
    {
        let ghost rest = whole.skip(start as int);
        proof {
            lemma_positive_multiple(whole.len() - start, 255);
        }
        let end = start + 255;
        let block = copy_range(encoded, start, end);
        assert(block@ =~= rest.take(255));
        let recovered = match rs_correct_block(ecc, block.as_slice()) {
            Some(d) => d,
            None => {
                assert(correct_blocks(ecc as nat, rest) is None);
                return Err(FecError::Uncorrectable);
            },
        };
        append_bytes(&mut logical, recovered.as_slice());
        proof {
            assert(rest.skip(255) =~= whole.skip(end as int));
            match correct_blocks(ecc as nat, whole.skip(end as int)) {
                None => {},
                Some(r2) => {
                    assert(logical@ + r2 =~= (logical@.subrange(0, logical@.len() - recovered@.len()) + recovered@) + r2);
                },
            }
        }
        start = end;
    }
    assert(whole.skip(start as int).len() == 0);
    assert(logical@ + Seq::<u8>::empty() =~= logical@);
    if logical.len() < 2 {
        return Err(FecError::BadLength);
    }
    let len = (((logical[0] as u16) << 8) | (logical[1] as u16)) as usize;
    if len > logical.len() - 2 {
        return Err(FecError::BadLength);
    }
    Ok(copy_range(logical.as_slice(), 2, 2 + len))
}

} // verus!
