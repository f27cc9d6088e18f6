//! Deterministic CBOR (RFC 8949 §4.2), restricted to the subset CRCP uses.

pub mod canonical;
pub mod laws;
pub mod order;
pub mod parse;

use vstd::prelude::*;
use vstd::string::StringExecFns;
use crate::bytes::{bytes_equal, copy_range};

verus! {

/// A CBOR data item, restricted to the subset the CRCP wire format uses.
#[derive(Debug, PartialEq)]
pub enum Cbor {
    U(u64),
    I(i64),
    Bytes(Vec<u8>),
    Text(String),
    Array(Vec<Cbor>),
    /// A map as key/value pairs in insertion order; the canonical order is
    /// applied when the map is encoded.
    Mapping(Vec<(Cbor, Cbor)>),
    Bool(bool),
    Null,
    Tag(u64, Box<Cbor>),
}

/// Mathematical value of a [`Cbor`] item: byte strings and text as sequences.
pub enum CborValue {
    U(u64),
    I(i64),
    Bytes(Seq<u8>),
    Text(Seq<char>),
    Array(Seq<CborValue>),
    Mapping(Seq<(CborValue, CborValue)>),
    Bool(bool),
    Null,
    Tag(u64, Box<CborValue>),
}

/// The value an executable item stands for.
pub open spec fn value_of(c: Cbor) -> CborValue
    decreases c,
{
    match c {
        Cbor::U(n) => CborValue::U(n),
        Cbor::I(n) => CborValue::I(n),
        Cbor::Bytes(b) => CborValue::Bytes(b@),
        Cbor::Text(s) => CborValue::Text(s@),
        Cbor::Array(items) => CborValue::Array(
            Seq::new(
                items.len() as nat,
                |i: int|
                    if 0 <= i < items.len() {
                        value_of(items[i])
                    } else {
                        CborValue::Null
                    },
            ),
        ),
        Cbor::Mapping(pairs) => CborValue::Mapping(
            Seq::new(
                pairs.len() as nat,
                |i: int|
                    if 0 <= i < pairs.len() {
                        (value_of(pairs[i].0), value_of(pairs[i].1))
                    } else {
                        (CborValue::Null, CborValue::Null)
                    },
            ),
        ),
        Cbor::Bool(b) => CborValue::Bool(b),
        Cbor::Null => CborValue::Null,
        Cbor::Tag(t, inner) => CborValue::Tag(t, Box::new(value_of(*inner))),
    }
}

impl View for Cbor {
    type V = CborValue;

    open spec fn view(&self) -> CborValue {
        value_of(*self)
    }
}

/// Whether two strings hold the same characters.
pub fn str_eq(a: &str, b: &str) -> (res: bool)
    ensures
        res == (a@ == b@),
{
    let r = bytes_equal(a.as_bytes(), b.as_bytes());
    proof {
        vstd::utf8::encode_utf8_decode_utf8(a@);
        vstd::utf8::encode_utf8_decode_utf8(b@);
    }
    r
}

/// The value stored under the first text key equal to `key`.
pub open spec fn find_key(pairs: Seq<(CborValue, CborValue)>, key: Seq<char>) -> Option<CborValue>
    decreases pairs.len(),
{
    if pairs.len() == 0 {
        None
    } else if pairs[0].0 == CborValue::Text(key) {
        Some(pairs[0].1)
    } else {
        find_key(pairs.drop_first(), key)
    }
}

/// Lookup of a text key in a map value; `None` for any other kind of value.
pub open spec fn lookup(v: CborValue, key: Seq<char>) -> Option<CborValue> {
    match v {
        CborValue::Mapping(pairs) => find_key(pairs, key),
        _ => None,
    }
}

/// The pairs of a map whose key is not the text `key`, in their order.
pub open spec fn drop_key(pairs: Seq<(CborValue, CborValue)>, key: Seq<char>) -> Seq<(CborValue, CborValue)>
    decreases pairs.len(),
{
    if pairs.len() == 0 {
        pairs
    } else {
        let rest = drop_key(pairs.drop_last(), key);
        if pairs.last().0 == CborValue::Text(key) {
            rest
        } else {
            rest.push(pairs.last())
        }
    }
}

/// A map value without the pairs keyed by the text `key`; any other value unchanged.
pub open spec fn remove_key(v: CborValue, key: Seq<char>) -> CborValue {
    match v {
        CborValue::Mapping(pairs) => CborValue::Mapping(drop_key(pairs, key)),
        _ => v,
    }
}

impl Clone for Cbor {
    fn clone(&self) -> (res: Self)
        ensures
            res@ == self@,
        decreases self,
    {
        match self {
            Cbor::U(n) => Cbor::U(*n),
            Cbor::I(n) => Cbor::I(*n),
            Cbor::Bytes(b) => {
                let v = copy_range(b.as_slice(), 0, b.len());
                assert(v@ =~= b@);
                Cbor::Bytes(v)
            },
            Cbor::Text(s) => Cbor::Text(s.clone()),
            Cbor::Array(items) => {
                let mut out: Vec<Cbor> = Vec::new();
                let mut i: usize = 0;
                while i < items.len()
                    invariant
                        *self == Cbor::Array(*items),
                        i <= items@.len(),
                        out@.len() == i,
                        forall|k: int| 0 <= k < i ==> #[trigger] out@[k]@ == items@[k]@,
                    decreases items@.len() - i,
                {
                    proof {
                        assert(decreases_to!(*self => (*self)->Array_0));
                        assert(decreases_to!(*items => items[i as int]));
                    }
                    out.push(items[i].clone());
                    i += 1;
                }
                let res = Cbor::Array(out);
                assert forall|k: int| 0 <= k < items@.len() implies #[trigger] res@->Array_0[k] == self@->Array_0[k] by {
                    assert(res@->Array_0[k] == out@[k]@);
                    assert(self@->Array_0[k] == items@[k]@);
                }
                assert(res@->Array_0 =~= self@->Array_0);
                res
            },
            Cbor::Mapping(pairs) => {
                let mut out: Vec<(Cbor, Cbor)> = Vec::new();
                let mut i: usize = 0;
                while i < pairs.len()
                    invariant
                        *self == Cbor::Mapping(*pairs),
                        i <= pairs@.len(),
                        out@.len() == i,
                        forall|k: int| 0 <= k < i ==> #[trigger] out@[k].0@ == pairs@[k].0@ && out@[k].1@ == pairs@[k].1@,
                    decreases pairs@.len() - i,
                {
                    proof {
                        assert(decreases_to!(*self => (*self)->Mapping_0));
                        assert(decreases_to!(*pairs => pairs[i as int]));
                        assert(decreases_to!(pairs[i as int] => pairs[i as int].0));
                        assert(decreases_to!(pairs[i as int] => pairs[i as int].1));
                    }
                    let k = pairs[i].0.clone();
                    let v = pairs[i].1.clone();
                    out.push((k, v));
                    i += 1;
                }
                let res = Cbor::Mapping(out);
                assert forall|k: int| 0 <= k < pairs@.len() implies #[trigger] res@->Mapping_0[k] == self@->Mapping_0[k] by {
                    assert(res@->Mapping_0[k] == (out@[k].0@, out@[k].1@));
                    assert(self@->Mapping_0[k] == (pairs@[k].0@, pairs@[k].1@));
                }
                assert(res@->Mapping_0 =~= self@->Mapping_0);
                res
            },
            Cbor::Bool(b) => Cbor::Bool(*b),
            Cbor::Null => Cbor::Null,
            Cbor::Tag(t, inner) => Cbor::Tag(*t, Box::new((**inner).clone())),
        }
    }
}

impl Cbor {
    /// A text item holding a copy of `s`.
    pub fn text(s: &str) -> (res: Cbor)
        ensures
            res@ == CborValue::Text(s@),
    {
        Cbor::Text(String::from_str(s))
    }

    /// Looks up a text key in a map item; `None` when absent or when `self`
    /// is not a map.
    pub fn get(&self, key: &str) -> (res: Option<&Cbor>)
        ensures
            match res {
                Some(v) => lookup(self@, key@) == Some(v@),
                None => lookup(self@, key@) is None,
            },
    {
        if let Cbor::Mapping(pairs) = self {
            let ghost vals = self@->Mapping_0;
            let mut i: usize = 0;
            assert(vals.subrange(0, vals.len() as int) =~= vals);
            while i < pairs.len()
                invariant
                    *self == Cbor::Mapping(*pairs),
                    vals == self@->Mapping_0,
                    i <= pairs@.len(),
                    find_key(vals, key@) == find_key(vals.subrange(i as int, vals.len() as int), key@),
                decreases pairs@.len() - i,
            {
                let ghost rest = vals.subrange(i as int, vals.len() as int);
                assert(rest.drop_first() =~= vals.subrange(i + 1, vals.len() as int));
                assert(rest[0] == (pairs@[i as int].0@, pairs@[i as int].1@));
                if let Cbor::Text(s) = &pairs[i].0 {
                    if str_eq(s.as_str(), key) {
                        return Some(&pairs[i].1);
                    }
                }
                i += 1;
            }
            None
        } else {
            None
        }
    }

    /// A copy of this map without the pairs keyed by the text `key` (used to
    /// strip `signature`); any other item is copied unchanged.
    pub fn without_key(&self, key: &str) -> (res: Cbor)
        ensures
            res@ == remove_key(self@, key@),
    {
        if let Cbor::Mapping(pairs) = self {
            let ghost vals = self@->Mapping_0;
            let mut kept: Vec<(Cbor, Cbor)> = Vec::new();
            let mut i: usize = 0;
            while i < pairs.len()
                invariant
                    *self == Cbor::Mapping(*pairs),
                    vals == self@->Mapping_0,
                    i <= pairs@.len(),
                    kept@.map_values(|e: (Cbor, Cbor)| (e.0@, e.1@)) == drop_key(vals.take(i as int), key@),
                decreases pairs@.len() - i,
            {
                let ghost before = kept@.map_values(|e: (Cbor, Cbor)| (e.0@, e.1@));
                assert(vals.take(i + 1).drop_last() =~= vals.take(i as int));
                let matches = match &pairs[i].0 {
                    Cbor::Text(s) => str_eq(s.as_str(), key),
                    _ => false,
                };
                if !matches {
                    let k = pairs[i].0.clone();
                    let v = pairs[i].1.clone();
                    kept.push((k, v));
                    assert(kept@.map_values(|e: (Cbor, Cbor)| (e.0@, e.1@)) =~= before.push(vals[i as int]));
                }
                i += 1;
            }
            assert(vals.take(i as int) =~= vals);
            let res = Cbor::Mapping(kept);
            assert(res@->Mapping_0 =~= drop_key(vals, key@));
            res
        } else {
            self.clone()
        }
    }
}

} // verus!
