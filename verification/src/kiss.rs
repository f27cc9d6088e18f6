//! KISS framing: the outermost on-air wrapper that lets a byte-stream
//! transport find frame boundaries.
//!
//! `FEND` (0xC0) delimits frames; inside a frame a literal `0xC0` becomes
//! `FESC TFEND` (0xDB 0xDC) and a literal `0xDB` becomes `FESC TFESC`
//! (0xDB 0xDD).

use vstd::prelude::*;

verus! {

pub const FEND: u8 = 0xC0;
pub const FESC: u8 = 0xDB;
pub const TFEND: u8 = 0xDC;
pub const TFESC: u8 = 0xDD;

/// Why no frame could be taken from a stream.
#[derive(Debug, Clone, PartialEq, Eq, Structural)]
pub enum KissError {
    /// `FESC` was followed by a byte other than `TFEND`/`TFESC`.
    BadEscape,
    /// Stream ended mid-frame (no closing `FEND`) or held no complete frame.
    Incomplete,
}

/// The escaped form of one byte.
pub open spec fn escape_byte(b: u8) -> Seq<u8> {
    if b == FEND {
        seq![FESC, TFEND]
    } else if b == FESC {
        seq![FESC, TFESC]
    } else {
        seq![b]
    }
}

/// The escaped form of a payload.
pub open spec fn escape(p: Seq<u8>) -> Seq<u8>
    decreases p.len(),
{
    if p.len() == 0 {
        seq![]
    } else {
        escape(p.drop_last()) + escape_byte(p.last())
    }
}

/// A payload wrapped in one KISS frame: `FEND <escaped> FEND`.
pub open spec fn encode_spec(p: Seq<u8>) -> Seq<u8> {
    seq![FEND] + escape(p) + seq![FEND]
}

/// Wraps a payload in a single KISS frame: `FEND <escaped> FEND`.
pub fn encode(payload: &[u8]) -> (out: Vec<u8>)
    ensures
        out@ == encode_spec(payload@),
{
    let mut out: Vec<u8> = Vec::new();
    out.push(FEND);
    let mut i: usize = 0;
    while i < payload.len()
        invariant
            i <= payload@.len(),
            out@ == seq![FEND] + escape(payload@.take(i as int)),
        decreases payload@.len() - i,
    {
        let b = payload[i];
        if b == FEND {
            out.push(FESC);
            out.push(TFEND);
        } else if b == FESC {
            out.push(FESC);
            out.push(TFESC);
        } else {
            out.push(b);
        }
        assert(payload@.take(i + 1).drop_last() =~= payload@.take(i as int));
        i += 1;
        assert(out@ =~= seq![FEND] + escape(payload@.take(i as int)));
    }
    out.push(FEND);
    assert(payload@.take(i as int) =~= payload@);
    assert(out@ =~= encode_spec(payload@));
    out
}

/// Position of the first `FEND` at or after `i`, or the stream length.
pub open spec fn next_fend(s: Seq<u8>, i: int) -> int
    decreases s.len() - i,
{
    if i >= s.len() {
        s.len() as int
    } else if s[i] == FEND {
        i
    } else {
        next_fend(s, i + 1)
    }
}

/// Unescapes the frame contents that start at `i` up to the closing `FEND`:
/// the payload and the position just past the closing `FEND`. `escaping`
/// says that the previous byte was an unconsumed `FESC`.
pub open spec fn unescape_from(s: Seq<u8>, i: int, escaping: bool) -> Result<(Seq<u8>, int), KissError>
    decreases s.len() - i,
{
    if i < 0 || i >= s.len() {
        Err(KissError::Incomplete)
    } else {
        let b = s[i];
        if escaping {
            if b == TFEND {
                prepend(FEND, unescape_from(s, i + 1, false))
            } else if b == TFESC {
                prepend(FESC, unescape_from(s, i + 1, false))
            } else {
                Err(KissError::BadEscape)
            }
        } else if b == FESC {
            unescape_from(s, i + 1, true)
        } else if b == FEND {
            Ok((seq![], i + 1))
        } else {
            prepend(b, unescape_from(s, i + 1, false))
        }
    }
}

/// `r` with `b` put in front of its payload.
pub open spec fn prepend(b: u8, r: Result<(Seq<u8>, int), KissError>) -> Result<(Seq<u8>, int), KissError> {
    match r {
        Ok((p, j)) => Ok((seq![b] + p, j)),
        Err(e) => Err(e),
    }
}

/// The first non-empty frame found from position `i` on, and the position
/// just past its closing `FEND`. Empty frames (`FEND FEND`) are delimiter
/// runs and are skipped; bytes before an opening `FEND` are noise.
pub open spec fn decode_from(s: Seq<u8>, i: int) -> Result<(Seq<u8>, int), KissError>
    decreases s.len() - i,
{
    let open = next_fend(s, i);
    if i < 0 || open >= s.len() {
        Err(KissError::Incomplete)
    } else {
        match unescape_from(s, open + 1, false) {
            Err(e) => Err(e),
            Ok((p, j)) => if p.len() > 0 {
                Ok((p, j))
            } else if i < j - 1 <= s.len() {
                decode_from(s, j - 1)
            } else {
                Err(KissError::Incomplete)
            },
        }
    }
}

proof fn lemma_next_fend(s: Seq<u8>, i: int)
    requires
        0 <= i,
    ensures
        i <= next_fend(s, i) <= s.len() || (i > s.len() && next_fend(s, i) == s.len()),
        next_fend(s, i) < s.len() ==> s[next_fend(s, i)] == FEND,
        forall|k: int| i <= k < next_fend(s, i) ==> s[k] != FEND,
    decreases s.len() - i,
{
    if i < s.len() && s[i] != FEND {
        lemma_next_fend(s, i + 1);
    }
}

proof fn lemma_unescape_bounds(s: Seq<u8>, i: int, escaping: bool)
    ensures
        unescape_from(s, i, escaping) matches Ok((p, j)) ==> i < j <= s.len(),
    decreases s.len() - i,
{
    if 0 <= i < s.len() {
        lemma_unescape_bounds(s, i + 1, false);
        lemma_unescape_bounds(s, i + 1, true);
    }
}

proof fn lemma_escape_front(p: Seq<u8>)
    requires
        p.len() > 0,
    ensures
        escape(p) == escape_byte(p[0]) + escape(p.drop_first()),
    decreases p.len(),
{
    if p.len() == 1 {
        assert(p.drop_last() =~= Seq::<u8>::empty());
        assert(p.drop_first() =~= Seq::<u8>::empty());
        assert(escape(p) =~= escape_byte(p[0]) + escape(p.drop_first()));
    } else {
        lemma_escape_front(p.drop_last());
        assert(p.drop_last().drop_first() =~= p.drop_first().drop_last());
        assert(p.drop_first().last() == p.last());
        assert(escape(p) =~= escape_byte(p[0]) + escape(p.drop_first()));
    }
}

/// The escaped form of a payload never holds a raw `FEND`: the only `FEND`s
/// of an encoded frame are its two delimiters.
pub proof fn law_escape_has_no_fend(p: Seq<u8>)
    ensures
        forall|i: int| 0 <= i < escape(p).len() ==> escape(p)[i] != FEND,
    decreases p.len(),
{
    if p.len() > 0 {
        law_escape_has_no_fend(p.drop_last());
        let e = escape(p.drop_last());
        let x = escape_byte(p.last());
        assert forall|i: int| 0 <= i < escape(p).len() implies escape(p)[i] != FEND by {
            if i < e.len() {
                assert(escape(p)[i] == e[i]);
            } else {
                assert(escape(p)[i] == x[i - e.len()]);
            }
        }
    }
}

/// Unescaping the escaped form of `q` followed by `FEND` gives `q` back and
/// the position just past that `FEND`.
proof fn lemma_unescape_escape(pre: Seq<u8>, q: Seq<u8>, rest: Seq<u8>)
    ensures
        unescape_from(pre + escape(q) + seq![FEND] + rest, pre.len() as int, false)
            == Ok::<(Seq<u8>, int), KissError>((q, (pre.len() + escape(q).len() + 1) as int)),
    decreases q.len(),
{
    let s = pre + escape(q) + seq![FEND] + rest;
    let i = pre.len() as int;
    if q.len() == 0 {
        assert(escape(q) =~= Seq::<u8>::empty());
        assert(q =~= Seq::<u8>::empty());
        assert(s[i] == FEND);
    } else {
        lemma_escape_front(q);
        let b = q[0];
        let eb = escape_byte(b);
        let tail = q.drop_first();
        assert(s =~= (pre + eb) + escape(tail) + seq![FEND] + rest);
        lemma_unescape_escape(pre + eb, tail, rest);
        assert(seq![b] + tail =~= q);
        let end = (pre.len() + escape(q).len() + 1) as int;
        let after = unescape_from(s, i + eb.len(), false);
        assert(after == Ok::<(Seq<u8>, int), KissError>((tail, end)));
        if b == FEND {
            assert(s[i] == FESC && s[i + 1] == TFEND);
            assert(unescape_from(s, i + 1, true) == prepend(FEND, after));
            assert(unescape_from(s, i, false) == unescape_from(s, i + 1, true));
        } else if b == FESC {
            assert(s[i] == FESC && s[i + 1] == TFESC);
            assert(unescape_from(s, i + 1, true) == prepend(FESC, after));
            assert(unescape_from(s, i, false) == unescape_from(s, i + 1, true));
        } else {
            assert(s[i] == b);
            assert(unescape_from(s, i, false) == prepend(b, after));
        }
    }
}

/// From any position, a frame preceded by noise bytes (no `FEND`) and by a
/// run of `FEND`s (empty frames) is found and decoded, and the position just
/// past its closing `FEND` is reported.
pub proof fn law_decode_finds_frame(pre: Seq<u8>, noise: Seq<u8>, run: nat, p: Seq<u8>, rest: Seq<u8>)
    requires
        p.len() > 0,
        forall|i: int| 0 <= i < noise.len() ==> noise[i] != FEND,
    ensures
        ({
            let s = pre + noise + Seq::new(run, |i: int| FEND) + encode_spec(p) + rest;
            decode_from(s, pre.len() as int) == Ok::<(Seq<u8>, int), KissError>(
                (p, (pre.len() + noise.len() + run + encode_spec(p).len()) as int),
            )
        }),
    decreases run,
{
    let fends = Seq::new(run, |i: int| FEND);
    let s = pre + noise + fends + encode_spec(p) + rest;
    let i = pre.len() as int;
    let start = (pre.len() + noise.len()) as int;
    assert forall|k: int| i <= k < start implies s[k] != FEND by {
        assert(s[k] == noise[k - i]);
    }
    assert(s[start] == FEND) by {
        if run > 0 {
            assert(s[start] == fends[0]);
        } else {
            assert(s[start] == encode_spec(p)[0]);
        }
    }
    assert(next_fend(s, i) == start) by {
        lemma_next_fend_skip(s, i, start);
    }
    if run == 0 {
        assert(s =~= (pre + noise + seq![FEND]) + escape(p) + seq![FEND] + rest);
        lemma_unescape_escape(pre + noise + seq![FEND], p, rest);
    } else {
        assert(s[start + 1] == FEND) by {
            if run > 1 {
                assert(s[start + 1] == fends[1]);
            } else {
                assert(s[start + 1] == encode_spec(p)[0]);
            }
        }
        let fewer = Seq::new((run - 1) as nat, |i: int| FEND);
        let pre2 = pre + noise + seq![FEND];
        assert(s =~= pre2 + Seq::<u8>::empty() + fewer + encode_spec(p) + rest);
        law_decode_finds_frame(pre2, Seq::<u8>::empty(), (run - 1) as nat, p, rest);
    }
}

proof fn lemma_next_fend_skip(s: Seq<u8>, i: int, k: int)
    requires
        0 <= i <= k < s.len(),
        s[k] == FEND,
        forall|j: int| i <= j < k ==> s[j] != FEND,
    ensures
        next_fend(s, i) == k,
    decreases k - i,
{
    if i < k {
        lemma_next_fend_skip(s, i + 1, k);
    }
}

/// Decoding an encoded non-empty payload gives it back, consuming exactly
/// the encoded frame.
pub proof fn law_kiss_round_trip(p: Seq<u8>, rest: Seq<u8>)
    requires
        p.len() > 0,
    ensures
        decode_from(encode_spec(p) + rest, 0) == Ok::<(Seq<u8>, int), KissError>((p, encode_spec(p).len() as int)),
{
    law_decode_finds_frame(Seq::<u8>::empty(), Seq::<u8>::empty(), 0, p, rest);
    assert(Seq::<u8>::empty() + Seq::<u8>::empty() + Seq::new(0, |i: int| FEND) + encode_spec(p) + rest
        =~= encode_spec(p) + rest);
}

/// Like [`decode`], but also returns the index just past the closing `FEND`,
/// so a caller draining a byte stream can resume after a frame.
pub fn decode_first(stream: &[u8]) -> (res: Result<(Vec<u8>, usize), KissError>)
    ensures
        match res {
            Ok((p, n)) => decode_from(stream@, 0) == Ok::<(Seq<u8>, int), KissError>((p@, n as int)),
            Err(e) => decode_from(stream@, 0) == Err::<(Seq<u8>, int), KissError>(e),
        },
{
    let ghost s = stream@;
    let mut i: usize = 0;
    loop
        invariant
            s == stream@,
            i <= s.len(),
            decode_from(s, 0) == decode_from(s, i as int),
        decreases s.len() - i,
    {
        let ghost start = i as int;
        proof {
            lemma_next_fend(s, start);
        }
        while i < stream.len() && stream[i] != FEND
            invariant
                s == stream@,
                start <= i <= s.len(),
                next_fend(s, start) == next_fend(s, i as int),
            decreases s.len() - i,
        {
            i += 1;
        }
        if i >= stream.len() {
            return Err(KissError::Incomplete);
        }
        let ghost open = i as int;
        i += 1;
        let mut out: Vec<u8> = Vec::new();
        let mut escaping = false;
        let mut closed = false;
        while i < stream.len()
            invariant_except_break
                s == stream@,
                0 <= start <= open,
                open == next_fend(s, start),
                open < s.len(),
                decode_from(s, 0) == decode_from(s, start),
                open < i <= s.len(),
                !closed,
                unescape_from(s, open + 1, false) == match unescape_from(s, i as int, escaping) {
                    Ok((p, j)) => Ok::<(Seq<u8>, int), KissError>((out@ + p, j)),
                    Err(e) => Err(e),
                },
            ensures
                s == stream@,
                0 <= start <= open,
                open == next_fend(s, start),
                open < s.len(),
                decode_from(s, 0) == decode_from(s, start),
                open < i <= s.len(),
                closed ==> unescape_from(s, open + 1, false) == Ok::<(Seq<u8>, int), KissError>((out@, i as int)),
                !closed ==> i == s.len() && unescape_from(s, open + 1, false) == match unescape_from(s, i as int, escaping) {
                    Ok((p, j)) => Ok::<(Seq<u8>, int), KissError>((out@ + p, j)),
                    Err(e) => Err(e),
                },
            decreases s.len() - i,
        {
            let b = stream[i];
            let ghost at = i as int;
            let ghost before = out@;
            i += 1;
            if escaping {
                if b == TFEND {
                    out.push(FEND);
                } else if b == TFESC {
                    out.push(FESC);
                } else {
                    return Err(KissError::BadEscape);
                }
                escaping = false;
            } else {
                if b == FESC {
                    escaping = true;
                } else if b == FEND {
                    closed = true;
                    assert(out@ =~= out@ + Seq::<u8>::empty());
                    break;
                } else {
                    out.push(b);
                }
            }
            proof {
                match unescape_from(s, i as int, escaping) {
                    Ok((p, j)) => {
                        if out@.len() > before.len() {
                            let x = out@.last();
                            assert(out@ =~= before.push(x));
                            assert(before + (seq![x] + p) =~= out@ + p);
                        } else {
                            assert(out@ =~= before);
                        }
                    },
                    Err(e) => {},
                }
            }
        }
        if !closed {
            return Err(KissError::Incomplete);
        }
        if out.len() == 0 {
            i -= 1;
            proof {
                lemma_unescape_bounds(s, open + 1, false);
            }
            continue;
        }
        return Ok((out, i));
    }
}

/// Decodes the first complete, non-empty KISS frame in `stream`, tolerating
/// leading noise and runs of `FEND`; returns the unescaped payload.
pub fn decode(stream: &[u8]) -> (res: Result<Vec<u8>, KissError>)
    ensures
        match res {
            Ok(p) => decode_from(stream@, 0) matches Ok((q, _)) && q == p@,
            Err(e) => decode_from(stream@, 0) == Err::<(Seq<u8>, int), KissError>(e),
        },
{
    match decode_first(stream) {
        Ok((p, _)) => Ok(p),
        Err(e) => Err(e),
    }
}

/// KISS escaping works byte by byte: the escaped form of two payloads
/// joined is their escaped forms joined, `0xC0` becomes `0xDB 0xDC`, `0xDB`
/// becomes `0xDB 0xDD`, and every other byte stands for itself; the frame
/// is the escaped payload between two `0xC0` bytes.
pub proof fn law_escape_bytewise(p: Seq<u8>, q: Seq<u8>, b: u8)
    ensures
        escape(p + q) == escape(p) + escape(q),
        escape(seq![b]) == (if b == 0xC0 {
            seq![0xDBu8, 0xDCu8]
        } else if b == 0xDB {
            seq![0xDBu8, 0xDDu8]
        } else {
            seq![b]
        }),
        encode_spec(p) == seq![0xC0u8] + escape(p) + seq![0xC0u8],
    decreases q.len(),
{
    assert(seq![b].drop_last() =~= Seq::<u8>::empty());
    assert(seq![b].last() == b);
    assert(escape(Seq::<u8>::empty()) =~= Seq::<u8>::empty());
    assert(escape(seq![b].drop_last()) + escape_byte(b) =~= escape_byte(b));
    assert(escape(seq![b]) =~= escape_byte(b));
    if q.len() == 0 {
        assert(p + q =~= p);
        assert(escape(p) + escape(q) =~= escape(p));
    } else {
        law_escape_bytewise(p, q.drop_last(), b);
        assert((p + q).drop_last() =~= p + q.drop_last());
        assert((p + q).last() == q.last());
        assert(escape(p + q) =~= escape(p) + escape(q));
    }
}

} // verus!
