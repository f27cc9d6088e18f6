//! Decoding of a single CBOR item from the front of a byte string.

use vstd::prelude::*;
use vstd::string::StringExecFns;
use vstd::utf8::{valid_utf8, decode_utf8};
use crate::bytes::{be16_value, be32_value, be64_value, copy_range};
use super::{Cbor, CborValue, value_of};

verus! {

/// The argument of an item whose additional-information field is `ai`, read
/// from `b` at `pos`, and the position after it.
pub open spec fn read_arg_spec(b: Seq<u8>, ai: u8, pos: int) -> Result<(u64, int), Seq<char>> {
    if ai < 24 {
        Ok((ai as u64, pos))
    } else if ai == 24 {
        if pos + 1 <= b.len() {
            Ok((b[pos] as u64, pos + 1))
        } else {
            Err("eof u8"@)
        }
    } else if ai == 25 {
        if pos + 2 <= b.len() {
            Ok((be16_value(b[pos], b[pos + 1]) as u64, pos + 2))
        } else {
            Err("eof u16"@)
        }
    } else if ai == 26 {
        if pos + 4 <= b.len() {
            Ok((be32_value(b.subrange(pos, pos + 4)) as u64, pos + 4))
        } else {
            Err("eof u32"@)
        }
    } else if ai == 27 {
        if pos + 8 <= b.len() {
            Ok((be64_value(b.subrange(pos, pos + 8)), pos + 8))
        } else {
            Err("eof u64"@)
        }
    } else {
        Err("bad additional info"@)
    }
}

/// The item encoded in `b` at `pos` and the position just past it, or the
/// reason it cannot be read.
pub open spec fn decode_at(b: Seq<u8>, pos: int) -> Result<(CborValue, int), Seq<char>>
    decreases b.len() - pos, 0nat,
{
    if !(0 <= pos < b.len()) {
        Err("eof head"@)
    } else {
        let ib = b[pos];
        let major = ib >> 5u8;
        let ai = ib & 0x1fu8;
        let p = pos + 1;
        if major == 7 {
            if ai == 20 {
                Ok((CborValue::Bool(false), p))
            } else if ai == 21 {
                Ok((CborValue::Bool(true), p))
            } else if ai == 22 {
                Ok((CborValue::Null, p))
            } else {
                Err("unsupported simple"@)
            }
        } else {
            match read_arg_spec(b, ai, p) {
                Err(e) => Err(e),
                Ok((n, q)) => {
                    if major == 0 {
                        Ok((CborValue::U(n), q))
                    } else if major == 1 {
                        if n <= i64::MAX {
                            Ok((CborValue::I((-1 - n) as i64), q))
                        } else {
                            Err("negative integer out of range"@)
                        }
                    } else if major == 2 {
                        if n <= b.len() - q {
                            Ok((CborValue::Bytes(b.subrange(q, q + n)), q + n))
                        } else {
                            Err("eof bytes"@)
                        }
                    } else if major == 3 {
                        if n <= b.len() - q {
                            let s = b.subrange(q, q + n);
                            if valid_utf8(s) {
                                Ok((CborValue::Text(decode_utf8(s)), q + n))
                            } else {
                                Err("utf8"@)
                            }
                        } else {
                            Err("eof text"@)
                        }
                    } else if major == 4 {
                        match decode_items(b, q, n as nat) {
                            Ok((items, r)) => Ok((CborValue::Array(items), r)),
                            Err(e) => Err(e),
                        }
                    } else if major == 5 {
                        match decode_pairs(b, q, n as nat) {
                            Ok((pairs, r)) => Ok((CborValue::Mapping(pairs), r)),
                            Err(e) => Err(e),
                        }
                    } else {
                        match decode_at(b, q) {
                            Ok((v, r)) => Ok((CborValue::Tag(n, Box::new(v)), r)),
                            Err(e) => Err(e),
                        }
                    }
                },
            }
        }
    }
}

/// `n` consecutive items starting at `pos`.
pub open spec fn decode_items(b: Seq<u8>, pos: int, n: nat) -> Result<(Seq<CborValue>, int), Seq<char>>
    decreases b.len() - pos, n + 1,
{
    if n == 0 {
        Ok((seq![], pos))
    } else {
        match decode_at(b, pos) {
            Err(e) => Err(e),
            Ok((v, q)) => if !(pos < q <= b.len()) {
                Err("eof head"@)
            } else {
                match decode_items(b, q, (n - 1) as nat) {
                    Ok((rest, r)) => Ok((seq![v] + rest, r)),
                    Err(e) => Err(e),
                }
            },
        }
    }
}

/// `n` consecutive key/value pairs starting at `pos`.
pub open spec fn decode_pairs(b: Seq<u8>, pos: int, n: nat) -> Result<(Seq<(CborValue, CborValue)>, int), Seq<char>>
    decreases b.len() - pos, n + 1,
{
    if n == 0 {
        Ok((seq![], pos))
    } else {
        match decode_at(b, pos) {
            Err(e) => Err(e),
            Ok((k, q)) => if !(pos < q <= b.len()) {
                Err("eof head"@)
            } else {
                match decode_at(b, q) {
                    Err(e) => Err(e),
                    Ok((v, r)) => if !(q < r <= b.len()) {
                        Err("eof head"@)
                    } else {
                        match decode_pairs(b, r, (n - 1) as nat) {
                            Ok((rest, t)) => Ok((seq![(k, v)] + rest, t)),
                            Err(e) => Err(e),
                        }
                    },
                }
            },
        }
    }
}

/// Calls `String::from_utf8`, which accepts exactly the well-formed UTF-8
/// byte strings and then holds the characters they encode.
#[verifier::external_body]
fn string_from_utf8(bytes: Vec<u8>) -> (res: Option<String>)
    ensures
        res is Some <==> valid_utf8(bytes@),
        res matches Some(s) ==> s@ == decode_utf8(bytes@),
{
    String::from_utf8(bytes).ok()
}

fn read_arg(b: &[u8], ai: u8, pos: &mut usize) -> (res: Result<u64, String>)
    requires
        *old(pos) <= b@.len(),
    ensures
        match res {
            Ok(n) => read_arg_spec(b@, ai, *old(pos) as int) == Ok::<(u64, int), Seq<char>>((n, *final(pos) as int)),
            Err(e) => read_arg_spec(b@, ai, *old(pos) as int) == Err::<(u64, int), Seq<char>>(e@),
        },
        *final(pos) <= b@.len(),
{
    let p = *pos;
    if ai < 24 {
        Ok(ai as u64)
    } else if ai == 24 {
        if p < b.len() {
            *pos = p + 1;
            Ok(b[p] as u64)
        } else {
            Err(String::from_str("eof u8"))
        }
    } else if ai == 25 {
        if b.len() - p >= 2 {
            *pos = p + 2;
            let v: u16 = ((b[p] as u16) << 8) | (b[p + 1] as u16);
            Ok(v as u64)
        } else {
            Err(String::from_str("eof u16"))
        }
    } else if ai == 26 {
        if b.len() - p >= 4 {
            *pos = p + 4;
            let v: u32 = ((b[p] as u32) << 24) | ((b[p + 1] as u32) << 16) | ((b[p + 2] as u32) << 8)
                | (b[p + 3] as u32);
            proof {
                let s = b@.subrange(p as int, p + 4);
                assert(s[0] == b@[p as int] && s[1] == b@[p + 1] && s[2] == b@[p + 2] && s[3] == b@[p + 3]);
            }
            Ok(v as u64)
        } else {
            Err(String::from_str("eof u32"))
        }
    } else if ai == 27 {
        if b.len() - p >= 8 {
            *pos = p + 8;
            let v: u64 = ((b[p] as u64) << 56) | ((b[p + 1] as u64) << 48) | ((b[p + 2] as u64) << 40)
                | ((b[p + 3] as u64) << 32) | ((b[p + 4] as u64) << 24) | ((b[p + 5] as u64) << 16)
                | ((b[p + 6] as u64) << 8) | (b[p + 7] as u64);
            proof {
                let s = b@.subrange(p as int, p + 8);
                assert(s[0] == b@[p as int] && s[1] == b@[p + 1] && s[2] == b@[p + 2] && s[3] == b@[p + 3]);
                assert(s[4] == b@[p + 4] && s[5] == b@[p + 5] && s[6] == b@[p + 6] && s[7] == b@[p + 7]);
            }
            Ok(v)
        } else {
            Err(String::from_str("eof u64"))
        }
    } else {
        Err(String::from_str("bad additional info"))
    }
}

fn dec_at(b: &[u8], pos: &mut usize) -> (res: Result<Cbor, String>)
    requires
        *old(pos) <= b@.len(),
    ensures
        match res {
            Ok(c) => decode_at(b@, *old(pos) as int) == Ok::<(CborValue, int), Seq<char>>((c@, *final(pos) as int)),
            Err(e) => decode_at(b@, *old(pos) as int) == Err::<(CborValue, int), Seq<char>>(e@),
        },
        *final(pos) <= b@.len(),
        res is Ok ==> *old(pos) < *final(pos),
    decreases b@.len() - *old(pos),
{
    if *pos >= b.len() {
        return Err(String::from_str("eof head"));
    }
    let ib = b[*pos];
    *pos = *pos + 1;
    let major = ib >> 5;
    let ai = ib & 0x1f;
    if major == 7 {
        return if ai == 20 {
            Ok(Cbor::Bool(false))
        } else if ai == 21 {
            Ok(Cbor::Bool(true))
        } else if ai == 22 {
            Ok(Cbor::Null)
        } else {
            Err(String::from_str("unsupported simple"))
        };
    }
    let n = match read_arg(b, ai, pos) {
        Ok(n) => n,
        Err(e) => return Err(e),
    };
    if major == 0 {
        Ok(Cbor::U(n))
    } else if major == 1 {
        if n > i64::MAX as u64 {
            return Err(String::from_str("negative integer out of range"));
        }
        Ok(Cbor::I(-1 - (n as i64)))
    } else if major == 2 {
        if n > (b.len() - *pos) as u64 {
            return Err(String::from_str("eof bytes"));
        }
        let start = *pos;
        let end = start + n as usize;
        let v = copy_range(b, start, end);
        *pos = end;
        Ok(Cbor::Bytes(v))
    } else if major == 3 {
        if n > (b.len() - *pos) as u64 {
            return Err(String::from_str("eof text"));
        }
        let start = *pos;
        let end = start + n as usize;
        let v = copy_range(b, start, end);
        *pos = end;
        match string_from_utf8(v) {
            Some(s) => Ok(Cbor::Text(s)),
            None => Err(String::from_str("utf8")),
        }
    } else if major == 4 {
        let ghost q = *pos as int;
        let mut items: Vec<Cbor> = Vec::new();
        let mut k: u64 = 0;
        while k < n
            invariant
                q <= *pos <= b@.len(),
                *old(pos) < q,
                k <= n,
                decode_at(b@, *old(pos) as int) == match decode_items(b@, q, n as nat) {
                    Ok((items, r)) => Ok::<(CborValue, int), Seq<char>>((CborValue::Array(items), r)),
                    Err(e) => Err(e),
                },
                decode_items(b@, q, n as nat) == match decode_items(b@, *pos as int, (n - k) as nat) {
                    Ok((rest, r)) => Ok::<(Seq<CborValue>, int), Seq<char>>((items@.map_values(|c: Cbor| c@) + rest, r)),
                    Err(e) => Err(e),
                },
            decreases n - k,
        {
            let ghost before = *pos as int;
            let item = match dec_at(b, pos) {
                Ok(c) => c,
                Err(e) => {
                    assert(decode_items(b@, before, (n - k) as nat) == Err::<(Seq<CborValue>, int), Seq<char>>(e@));
                    return Err(e);
                },
            };
            let ghost old_items = items@.map_values(|c: Cbor| c@);
            items.push(item);
            assert(items@.map_values(|c: Cbor| c@) =~= old_items.push(item@));
            k += 1;
            proof {
                match decode_items(b@, *pos as int, (n - k) as nat) {
                    Ok((rest, r)) => {
                        assert(old_items + (seq![item@] + rest) =~= old_items.push(item@) + rest);
                    },
                    Err(e) => {},
                }
            }
        }
        let ghost vals = items@.map_values(|c: Cbor| c@);
        let res = Cbor::Array(items);
        assert(res@ == CborValue::Array(vals)) by {
            assert(res@->Array_0 =~= vals);
        }
        Ok(res)
    } else if major == 5 {
        let ghost q = *pos as int;
        let mut pairs: Vec<(Cbor, Cbor)> = Vec::new();
        let mut k: u64 = 0;
        while k < n
            invariant
                q <= *pos <= b@.len(),
                *old(pos) < q,
                k <= n,
                decode_at(b@, *old(pos) as int) == match decode_pairs(b@, q, n as nat) {
                    Ok((pairs, r)) => Ok::<(CborValue, int), Seq<char>>((CborValue::Mapping(pairs), r)),
                    Err(e) => Err(e),
                },
                decode_pairs(b@, q, n as nat) == match decode_pairs(b@, *pos as int, (n - k) as nat) {
                    Ok((rest, r)) => Ok::<(Seq<(CborValue, CborValue)>, int), Seq<char>>((pairs@.map_values(|e: (Cbor, Cbor)| (e.0@, e.1@)) + rest, r)),
                    Err(e) => Err(e),
                },
            decreases n - k,
        {
            let ghost before = *pos as int;
            let key = match dec_at(b, pos) {
                Ok(c) => c,
                Err(e) => {
                    assert(decode_pairs(b@, before, (n - k) as nat) == Err::<(Seq<(CborValue, CborValue)>, int), Seq<char>>(e@));
                    return Err(e);
                },
            };
            let ghost mid = *pos as int;
            let val = match dec_at(b, pos) {
                Ok(c) => c,
                Err(e) => {
                    assert(decode_pairs(b@, before, (n - k) as nat) == Err::<(Seq<(CborValue, CborValue)>, int), Seq<char>>(e@));
                    return Err(e);
                },
            };
            let ghost old_pairs = pairs@.map_values(|e: (Cbor, Cbor)| (e.0@, e.1@));
            let ghost kv = (key@, val@);
            pairs.push((key, val));
            assert(pairs@.map_values(|e: (Cbor, Cbor)| (e.0@, e.1@)) =~= old_pairs.push(kv));
            k += 1;
            proof {
                match decode_pairs(b@, *pos as int, (n - k) as nat) {
                    Ok((rest, r)) => {
                        assert(old_pairs + (seq![kv] + rest) =~= old_pairs.push(kv) + rest);
                    },
                    Err(e) => {},
                }
            }
        }
        let ghost vals = pairs@.map_values(|e: (Cbor, Cbor)| (e.0@, e.1@));
        let res = Cbor::Mapping(pairs);
        assert(res@ == CborValue::Mapping(vals)) by {
            assert(res@->Mapping_0 =~= vals);
        }
        Ok(res)
    } else {
        let inner = match dec_at(b, pos) {
            Ok(c) => c,
            Err(e) => return Err(e),
        };
        Ok(Cbor::Tag(n, Box::new(inner)))
    }
}

/// Decodes a single CBOR item from the front of `b`; returns the value and
/// the number of bytes consumed.
pub fn decode(b: &[u8]) -> (res: Result<(Cbor, usize), String>)
    ensures
        match res {
            Ok((c, used)) => decode_at(b@, 0) == Ok::<(CborValue, int), Seq<char>>((c@, used as int)),
            Err(e) => decode_at(b@, 0) == Err::<(CborValue, int), Seq<char>>(e@),
        },
{
    let mut pos: usize = 0;
    match dec_at(b, &mut pos) {
        Ok(v) => Ok((v, pos)),
        Err(e) => Err(e),
    }
}

/// One step of reading `n > 0` items: the first item, then the rest.
pub proof fn lemma_decode_items_step(b: Seq<u8>, pos: int, n: nat, v: CborValue, q: int, rest: Seq<CborValue>, r: int)
    requires
        n > 0,
        pos < q <= b.len(),
        decode_at(b, pos) == Ok::<(CborValue, int), Seq<char>>((v, q)),
        decode_items(b, q, (n - 1) as nat) == Ok::<(Seq<CborValue>, int), Seq<char>>((rest, r)),
    ensures
        decode_items(b, pos, n) == Ok::<(Seq<CborValue>, int), Seq<char>>((seq![v] + rest, r)),
{
}

/// One step of reading `n > 0` pairs: the first key and value, then the rest.
pub proof fn lemma_decode_pairs_step(
    b: Seq<u8>,
    pos: int,
    n: nat,
    k: CborValue,
    q: int,
    v: CborValue,
    r: int,
    rest: Seq<(CborValue, CborValue)>,
    t: int,
)
    requires
        n > 0,
        pos < q <= b.len(),
        q < r <= b.len(),
        decode_at(b, pos) == Ok::<(CborValue, int), Seq<char>>((k, q)),
        decode_at(b, q) == Ok::<(CborValue, int), Seq<char>>((v, r)),
        decode_pairs(b, r, (n - 1) as nat) == Ok::<(Seq<(CborValue, CborValue)>, int), Seq<char>>((rest, t)),
    ensures
        decode_pairs(b, pos, n) == Ok::<(Seq<(CborValue, CborValue)>, int), Seq<char>>((seq![(k, v)] + rest, t)),
{
}

} // verus!
