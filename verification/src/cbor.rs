//! CBOR values as plain data, and their conversion to and from JSON.

use vstd::prelude::*;
use crate::error::Error;
use crate::json::{Float, Json, JsonV, lookup, put};
use crate::text::owned;
use crate::wire::{base64_encode, base64_text, decimal, decimal_string};

verus! {

/// A CBOR data item, as `ciborium::Value` holds it. Integers lie in `-2^64 .. 2^64`.
#[derive(Debug)]
pub enum Cbor {
    Integer(i128),
    Bytes(Vec<u8>),
    Float(Float),
    Text(String),
    Bool(bool),
    Null,
    Tag(u64, Box<Cbor>),
    Array(Vec<Cbor>),
    Pairs(Vec<(Cbor, Cbor)>),
}

/// The mathematical value of a [`Cbor`].
pub enum CborV {
    Integer(i128),
    Bytes(Seq<u8>),
    Float(Float),
    Text(Seq<char>),
    Bool(bool),
    Null,
    Tag(u64, Box<CborV>),
    Array(Seq<CborV>),
    Pairs(Seq<(CborV, CborV)>),
}

impl View for Cbor {
    type V = CborV;

    open spec fn view(&self) -> CborV {
        self.model()
    }
}

impl Cbor {
    pub open spec fn model(&self) -> CborV
        decreases self,
    {
        match self {
            Cbor::Integer(n) => CborV::Integer(*n),
            Cbor::Bytes(b) => CborV::Bytes(b@),
            Cbor::Float(f) => CborV::Float(*f),
            Cbor::Text(s) => CborV::Text(s@),
            Cbor::Bool(b) => CborV::Bool(*b),
            Cbor::Null => CborV::Null,
            Cbor::Tag(t, v) => CborV::Tag(*t, Box::new((**v).model())),
            Cbor::Array(items) => CborV::Array(
                Seq::new(
                    items@.len(),
                    |i: int|
                        if 0 <= i < items@.len() {
                            items@[i].model()
                        } else {
                            CborV::Null
                        },
                ),
            ),
            Cbor::Pairs(pairs) => CborV::Pairs(
                Seq::new(
                    pairs@.len(),
                    |i: int|
                        if 0 <= i < pairs@.len() {
                            (pairs@[i].0.model(), pairs@[i].1.model())
                        } else {
                            (CborV::Null, CborV::Null)
                        },
                ),
            ),
        }
    }
}

impl Cbor {
    /// A copy of `self`.
    pub fn copy(&self) -> (r: Cbor)
        ensures
            r@ == self@,
        decreases self,
    {
        match self {
            Cbor::Integer(n) => Cbor::Integer(*n),
            Cbor::Bytes(b) => Cbor::Bytes(b.clone()),
            Cbor::Float(f) => Cbor::Float(*f),
            Cbor::Text(s) => Cbor::Text(s.clone()),
            Cbor::Bool(b) => Cbor::Bool(*b),
            Cbor::Null => Cbor::Null,
            Cbor::Tag(t, v) => {
                proof {
                    assert(decreases_to!(*self => (*self)->Tag_1));
                }
                Cbor::Tag(*t, Box::new((**v).copy()))
            },
            Cbor::Array(items) => {
                let mut out: Vec<Cbor> = Vec::new();
                let mut i: usize = 0;
                while i < items.len()
                    invariant
                        i <= items@.len(),
                        out@.len() == i,
                        *self == Cbor::Array(*items),
                        forall|k: int| 0 <= k < i ==> out@[k]@ == items@[k]@,
                    decreases items.len() - i,
                {
                    proof {
                        assert(decreases_to!(*self => (*self)->Array_0));
                        assert(decreases_to!(*items => items@));
                        assert(decreases_to!(items@ => items@[i as int]));
                    }
                    out.push(items[i].copy());
                    i = i + 1;
                }
                let r = Cbor::Array(out);
                assert(r@ =~= self@) by {
                    if let CborV::Array(a) = r@ {
                        if let CborV::Array(b) = self@ {
                            assert(a =~= b);
                        }
                    }
                }
                r
            },
            Cbor::Pairs(pairs) => {
                let mut out: Vec<(Cbor, Cbor)> = Vec::new();
                let mut i: usize = 0;
                while i < pairs.len()
                    invariant
                        i <= pairs@.len(),
                        out@.len() == i,
                        *self == Cbor::Pairs(*pairs),
                        forall|k: int| 0 <= k < i ==> out@[k].0@ == pairs@[k].0@ && out@[k].1@ == pairs@[k].1@,
                    decreases pairs.len() - i,
                {
                    proof {
                        assert(decreases_to!(*self => (*self)->Pairs_0));
                        assert(decreases_to!(*pairs => pairs@));
                        assert(decreases_to!(pairs@ => pairs@[i as int]));
                        assert(decreases_to!(pairs@[i as int] => pairs@[i as int].0));
                        assert(decreases_to!(pairs@[i as int] => pairs@[i as int].1));
                    }
                    let k = pairs[i].0.copy();
                    let v = pairs[i].1.copy();
                    out.push((k, v));
                    i = i + 1;
                }
                let r = Cbor::Pairs(out);
                assert(r@ =~= self@) by {
                    if let CborV::Pairs(a) = r@ {
                        if let CborV::Pairs(b) = self@ {
                            assert(a =~= b);
                        }
                    }
                }
                r
            },
        }
    }
}

/// The CBOR form of a JSON value: objects become maps with text keys (`Pairs`, a CBOR map).
pub open spec fn cbor_of(v: JsonV) -> CborV
    decreases v,
{
    match v {
        JsonV::Null => CborV::Null,
        JsonV::Bool(b) => CborV::Bool(b),
        JsonV::Str(s) => CborV::Text(s),
        JsonV::UInt(n) => CborV::Integer(n as i128),
        JsonV::Int(n) => CborV::Integer(n as i128),
        JsonV::Float(f) => CborV::Float(f),
        JsonV::Array(items) => CborV::Array(
            Seq::new(items.len(), |i: int| if 0 <= i < items.len() { cbor_of(items[i]) } else { CborV::Null }),
        ),
        JsonV::Object(pairs) => CborV::Pairs(
            Seq::new(
                pairs.len(),
                |i: int|
                    if 0 <= i < pairs.len() {
                        (CborV::Text(pairs[i].0), cbor_of(pairs[i].1))
                    } else {
                        (CborV::Null, CborV::Null)
                    },
            ),
        ),
    }
}

/// Converts a JSON value to CBOR (`cbor_of`).
pub fn cbor_value(v: &Json) -> (r: Cbor)
    ensures
        r@ == cbor_of(v@),
    decreases v,
{
    match v {
        Json::Null => Cbor::Null,
        Json::Bool(b) => Cbor::Bool(*b),
        Json::Str(s) => Cbor::Text(owned(s.as_str())),
        Json::UInt(n) => Cbor::Integer(*n as i128),
        Json::Int(n) => Cbor::Integer(*n as i128),
        Json::Float(f) => Cbor::Float(*f),
        Json::Array(items) => {
            let mut out: Vec<Cbor> = Vec::new();
            let mut i: usize = 0;
            while i < items.len()
                invariant
                    i <= items@.len(),
                    *v == Json::Array(*items),
                    out@.len() == i,
                    forall|k: int| 0 <= k < i ==> out@[k]@ == cbor_of(items@[k]@),
                decreases items.len() - i,
            {
                proof {
                    assert(decreases_to!(*v => (*v)->Array_0));
                    assert(decreases_to!(*items => items@));
                    assert(decreases_to!(items@ => items@[i as int]));
                }
                out.push(cbor_value(&items[i]));
                i = i + 1;
            }
            let r = Cbor::Array(out);
            assert(r@ =~= cbor_of(v@)) by {
                if let CborV::Array(a) = r@ {
                    if let CborV::Array(b) = cbor_of(v@) {
                        assert(a =~= b);
                    }
                }
            }
            r
        },
        Json::Object(pairs) => {
            let mut out: Vec<(Cbor, Cbor)> = Vec::new();
            let mut i: usize = 0;
            while i < pairs.len()
                invariant
                    i <= pairs@.len(),
                    *v == Json::Object(*pairs),
                    out@.len() == i,
                    forall|k: int| 0 <= k < i ==> out@[k].0@ == CborV::Text(pairs@[k].0@)
                        && out@[k].1@ == cbor_of(pairs@[k].1@),
                decreases pairs.len() - i,
            {
                proof {
                    assert(decreases_to!(*v => (*v)->Object_0));
                    assert(decreases_to!(*pairs => pairs@));
                    assert(decreases_to!(pairs@ => pairs@[i as int]));
                    assert(decreases_to!(pairs@[i as int] => pairs@[i as int].1));
                }
                let key = Cbor::Text(owned(pairs[i].0.as_str()));
                let value = cbor_value(&pairs[i].1);
                out.push((key, value));
                i = i + 1;
            }
            let r = Cbor::Pairs(out);
            assert(r@ =~= cbor_of(v@)) by {
                if let CborV::Pairs(a) = r@ {
                    if let CborV::Pairs(b) = cbor_of(v@) {
                        assert(a =~= b);
                    }
                }
            }
            r
        },
    }
}

/// The unsigned little-endian integer that `b` holds.
pub open spec fn le_value(b: Seq<u8>) -> nat
    decreases b.len(),
{
    if b.len() == 0 {
        0
    } else {
        b[0] as nat + 256 * le_value(b.drop_first())
    }
}

/// The byte size of one element of a typed array `tag` (RFC 8746, little endian).
pub open spec fn element_size(tag: u64) -> nat {
    if tag == 72 { 1 }
    else if tag == 69 || tag == 77 { 2 }
    else if tag == 70 || tag == 78 || tag == 85 { 4 }
    else if tag == 71 || tag == 79 || tag == 86 { 8 }
    else { 0 }
}

pub open spec fn is_signed_tag(tag: u64) -> bool {
    tag == 72 || tag == 77 || tag == 78 || tag == 79
}

/// The number of values in `size` bytes.
pub open spec fn modulus(size: nat) -> int {
    if size == 1 { 0x100 }
    else if size == 2 { 0x1_0000 }
    else if size == 4 { 0x1_0000_0000 }
    else { 0x1_0000_0000_0000_0000 }
}

/// The bits of an infinity or a NaN: all exponent bits set.
pub open spec fn non_finite(bits: u64, single: bool) -> bool {
    (single && (bits / 0x80_0000) % 0x100 == 0xff) || (!single && (bits / 0x10_0000_0000_0000) % 0x800 == 0x7ff)
}

/// A float that is infinite or not a number reads as `null`, as `serde_json` holds no such number.
pub open spec fn float_json(bits: u64, single: bool) -> JsonV {
    if non_finite(bits, single) {
        JsonV::Null
    } else {
        JsonV::Float(Float { bits, single, seconds: None })
    }
}

/// One element of a typed array `tag` held in `b`.
pub open spec fn typed_element(tag: u64, b: Seq<u8>) -> JsonV {
    let u = le_value(b);
    if tag == 85 {
        float_json(u as u64, true)
    } else if tag == 86 {
        float_json(u as u64, false)
    } else if is_signed_tag(tag) && u >= modulus(element_size(tag)) / 2 {
        JsonV::Int((u - modulus(element_size(tag))) as i64)
    } else {
        JsonV::UInt(u as u64)
    }
}

/// A tagged byte string read as JSON: tag 64 as Base64 text, the typed-array
/// tags as arrays of numbers; `None` for other tags, other contents, or a length
/// that is not a whole number of elements.
pub open spec fn typed_array_of(tag: u64, v: CborV) -> Option<JsonV> {
    match v {
        CborV::Bytes(b) => if tag == 64 {
            Some(JsonV::Str(base64_text(b)))
        } else if element_size(tag) > 0 {
            let size = element_size(tag);
            if b.len() % size == 0 {
                Some(JsonV::Array(Seq::new(b.len() / size, |i: int| typed_element(tag, b.subrange(i * size, i * size + size)))))
            } else {
                None
            }
        } else {
            None
        },
        _ => None,
    }
}

/// The JSON value of a CBOR item, or `None` where the item has no JSON form.
pub open spec fn json_of(v: CborV) -> Option<JsonV>
    decreases v, 1nat,
{
    match v {
        CborV::Null => Some(JsonV::Null),
        CborV::Bool(b) => Some(JsonV::Bool(b)),
        CborV::Text(s) => Some(JsonV::Str(s)),
        CborV::Float(f) => Some(if non_finite(f.bits, f.single) { JsonV::Null } else { JsonV::Float(f) }),
        CborV::Integer(n) => if n < 0 {
            if n >= i64::MIN { Some(JsonV::Int(n as i64)) } else { None }
        } else {
            if n <= u64::MAX { Some(JsonV::UInt(n as u64)) } else { None }
        },
        CborV::Bytes(b) => Some(JsonV::Str(base64_text(b))),
        CborV::Tag(t, inner) => typed_array_of(t, *inner),
        CborV::Array(items) => match json_list(items) {
            Some(l) => Some(JsonV::Array(l)),
            None => None,
        },
        CborV::Pairs(pairs) => match json_members(pairs) {
            Some(m) => Some(JsonV::Object(m)),
            None => None,
        },
    }
}

/// The JSON values of CBOR items, where every item has one.
pub open spec fn json_list(items: Seq<CborV>) -> Option<Seq<JsonV>>
    decreases items, 0nat,
{
    if items.len() == 0 {
        Some(Seq::empty())
    } else {
        match (json_list(items.drop_last()), json_of(items.last())) {
            (Some(a), Some(b)) => Some(a.push(b)),
            _ => None,
        }
    }
}

/// The members of a JSON object from CBOR pairs, where every key is text and every
/// value has a JSON form; a later duplicate key replaces an earlier value.
pub open spec fn json_members(pairs: Seq<(CborV, CborV)>) -> Option<Seq<(Seq<char>, JsonV)>>
    decreases pairs, 0nat,
{
    if pairs.len() == 0 {
        Some(Seq::empty())
    } else {
        proof {
            assert(decreases_to!(pairs => pairs[pairs.len() - 1]));
        }
        match (json_members(pairs.drop_last()), pairs.last().0, json_of(pairs.last().1)) {
            (Some(m), CborV::Text(k), Some(x)) => Some(put(m, k, x)),
            _ => None,
        }
    }
}

/// Whether `v` has the form that JSON text reads into: only integers below
/// zero as `Int`, finite floats, and objects with distinct keys, throughout.
pub open spec fn plain_json(v: JsonV) -> bool
    decreases v, 1nat,
{
    match v {
        JsonV::Int(n) => n < 0,
        JsonV::Float(f) => !non_finite(f.bits, f.single),
        JsonV::Array(items) => plain_list(items),
        JsonV::Object(pairs) => distinct_keys(pairs) && plain_members(pairs),
        _ => true,
    }
}

/// Every item of `items` is `plain_json`.
pub open spec fn plain_list(items: Seq<JsonV>) -> bool
    decreases items, 0nat,
{
    if items.len() == 0 {
        true
    } else {
        plain_list(items.drop_last()) && plain_json(items.last())
    }
}

/// Every member value of `pairs` is `plain_json`.
pub open spec fn plain_members(pairs: Seq<(Seq<char>, JsonV)>) -> bool
    decreases pairs, 0nat,
{
    if pairs.len() == 0 {
        true
    } else {
        proof {
            assert(decreases_to!(pairs => pairs[pairs.len() - 1]));
        }
        plain_members(pairs.drop_last()) && plain_json(pairs.last().1)
    }
}

/// No key occurs twice among `pairs`.
pub open spec fn distinct_keys(pairs: Seq<(Seq<char>, JsonV)>) -> bool {
    forall|i: int, j: int| 0 <= i < j < pairs.len() ==> #[trigger] pairs[i].0 != #[trigger] pairs[j].0
}

/// A JSON value in the form that JSON text reads into comes back unchanged
/// from its CBOR form.
pub proof fn lemma_cbor_round_trip(v: JsonV)
    requires
        plain_json(v),
    ensures
        json_of(cbor_of(v)) == Some(v),
    decreases v, 1int,
{
    match v {
        JsonV::Array(items) => {
            let ms = cbor_of(v)->Array_0;
            assert(ms.len() == items.len());
            lemma_list_round_trip(items, ms);
        },
        JsonV::Object(pairs) => {
            let ps = cbor_of(v)->Pairs_0;
            assert(ps.len() == pairs.len());
            lemma_members_round_trip(pairs, ps);
        },
        _ => {},
    }
}

proof fn lemma_list_round_trip(items: Seq<JsonV>, ms: Seq<CborV>)
    requires
        ms.len() == items.len(),
        forall|i: int| 0 <= i < items.len() ==> #[trigger] ms[i] == cbor_of(items[i]),
        plain_list(items),
    ensures
        json_list(ms) == Some(items),
    decreases items, 0int,
{
    if items.len() > 0 {
        let n = items.len() - 1;
        assert(forall|i: int| 0 <= i < n ==> #[trigger] ms.drop_last()[i] == cbor_of(items.drop_last()[i])) by {
            assert forall|i: int| 0 <= i < n implies #[trigger] ms.drop_last()[i] == cbor_of(items.drop_last()[i]) by {
                assert(ms[i] == cbor_of(items[i]));
            }
        }
        assert(decreases_to!(items => items[n]));
        lemma_list_round_trip(items.drop_last(), ms.drop_last());
        lemma_cbor_round_trip(items.last());
        assert(ms.last() == cbor_of(items[n]));
        assert(items.drop_last().push(items.last()) =~= items);
    } else {
        assert(items =~= Seq::<JsonV>::empty());
    }
}

proof fn lemma_members_round_trip(pairs: Seq<(Seq<char>, JsonV)>, ps: Seq<(CborV, CborV)>)
    requires
        ps.len() == pairs.len(),
        forall|i: int| 0 <= i < pairs.len() ==> #[trigger] ps[i] == (CborV::Text(pairs[i].0), cbor_of(pairs[i].1)),
        distinct_keys(pairs),
        plain_members(pairs),
    ensures
        json_members(ps) == Some(pairs),
    decreases pairs, 0int,
{
    if pairs.len() > 0 {
        let n = pairs.len() - 1;
        let before = pairs.drop_last();
        assert(forall|i: int| 0 <= i < n ==> #[trigger] ps.drop_last()[i] == (CborV::Text(before[i].0), cbor_of(before[i].1))) by {
            assert forall|i: int| 0 <= i < n implies #[trigger] ps.drop_last()[i] == (CborV::Text(before[i].0), cbor_of(before[i].1)) by {
                assert(ps[i] == (CborV::Text(pairs[i].0), cbor_of(pairs[i].1)));
            }
        }
        assert(distinct_keys(before)) by {
            assert forall|i: int, j: int| 0 <= i < j < before.len() implies #[trigger] before[i].0 != #[trigger] before[j].0 by {
                assert(pairs[i].0 != pairs[j].0);
            }
        }
        assert(decreases_to!(pairs => pairs[n]));
        lemma_members_round_trip(before, ps.drop_last());
        lemma_cbor_round_trip(pairs[n].1);
        assert(ps.last() == (CborV::Text(pairs[n].0), cbor_of(pairs[n].1)));
        let key = pairs[n].0;
        assert(!exists|i: int| crate::json::first_key(before, key, i)) by {
            if exists|i: int| crate::json::first_key(before, key, i) {
                let i = choose|i: int| crate::json::first_key(before, key, i);
                assert(pairs[i].0 != pairs[n].0);
            }
        }
        assert(put(before, key, pairs[n].1) == before.push((key, pairs[n].1)));
        assert(before.push(pairs[n]) =~= pairs);
    } else {
        assert(pairs =~= Seq::<(Seq<char>, JsonV)>::empty());
    }
}

/// The little-endian value of `b[from..from + size]`.
fn le_at(b: &Vec<u8>, from: usize, size: usize) -> (r: u64)
    requires
        1 <= size <= 8,
        from + size <= b@.len(),
    ensures
        r == le_value(b@.subrange(from as int, from + size)),
{
    let mut acc: u128 = 0;
    let mut i: usize = size;
    let len = b.len();
    assert(b@.subrange(from + size, from + size).len() == 0);
    while i > 0
        invariant
            0 <= i <= size,
            size <= 8,
            from + size <= b@.len(),
            b@.len() <= usize::MAX,
            acc == le_value(b@.subrange(from + i, from + size)),
            acc < pow256(size - i),
        decreases i,
    {
        proof {
            lemma_pow256_mono(size - i, 8);
        }
        let x = b[from + i - 1];
        proof {
            let s = b@.subrange(from + i - 1, from + size);
            assert(s.drop_first() == b@.subrange(from + i, from + size));
            assert(s[0] == x);
            assert(acc * 256 + x < pow256(size - i + 1)) by (nonlinear_arith)
                requires acc < pow256(size - i), x < 256, pow256(size - i + 1) == 256 * pow256(size - i);
        }
        acc = acc * 256 + x as u128;
        i = i - 1;
    }
    assert(pow256(size as int) <= 0x1_0000_0000_0000_0000) by {
        lemma_pow256_mono(size as int, 8);
    }
    acc as u64
}

pub open spec fn pow256(n: int) -> int
    decreases n,
{
    if n <= 0 { 1 } else { 256 * pow256(n - 1) }
}

proof fn lemma_pow256_mono(a: int, b: int)
    requires
        0 <= a <= b,
    ensures
        pow256(a) <= pow256(b),
        pow256(8) == 0x1_0000_0000_0000_0000,
    decreases b - a,
{
    reveal_with_fuel(pow256, 9);
    if a < b {
        lemma_pow256_mono(a, b - 1);
        assert(pow256(b) == 256 * pow256(b - 1));
        assert(pow256(b - 1) >= 1) by {
            lemma_pow256_positive(b - 1);
        }
    }
}

proof fn lemma_pow256_positive(n: int)
    ensures
        pow256(n) >= 1,
    decreases n,
{
    if n > 0 {
        lemma_pow256_positive(n - 1);
    }
}

fn element(tag: u64, b: &Vec<u8>, from: usize, size: usize) -> (r: Json)
    requires
        size == element_size(tag),
        1 <= size <= 8,
        from + size <= b@.len(),
    ensures
        r@ == typed_element(tag, b@.subrange(from as int, from + size)),
{
    let u = le_at(b, from, size);
    let m: u128 = if size == 1 { 0x100 } else if size == 2 { 0x1_0000 } else if size == 4 { 0x1_0000_0000 } else { 0x1_0000_0000_0000_0000 };
    assert(m == modulus(size as nat));
    if tag == 85 {
        if (u / 0x80_0000) % 0x100 == 0xff {
            Json::Null
        } else {
            Json::Float(Float { bits: u, single: true, seconds: None })
        }
    } else if tag == 86 {
        if (u / 0x10_0000_0000_0000) % 0x800 == 0x7ff {
            Json::Null
        } else {
            Json::Float(Float { bits: u, single: false, seconds: None })
        }
    } else if (tag == 72 || tag == 77 || tag == 78 || tag == 79) && (u as u128) >= m / 2 {
        assert(u < m) by {
            assert(u < pow256(size as int)) by {
                lemma_le_bound(b@.subrange(from as int, from + size));
            }
            reveal_with_fuel(pow256, 9);
        }
        Json::Int(((u as u128) as i128 - m as i128) as i64)
    } else {
        Json::UInt(u)
    }
}

proof fn lemma_le_bound(b: Seq<u8>)
    ensures
        le_value(b) < pow256(b.len() as int),
    decreases b.len(),
{
    if b.len() > 0 {
        lemma_le_bound(b.drop_first());
        assert(pow256(b.len() as int) == 256 * pow256(b.len() - 1));
    }
}

/// Each element of a signed typed array (tags 72, 77, 78, 79: int8, int16,
/// int32, int64, little endian) reads as the two's-complement value of its
/// bytes: a number at or above zero below half the element's range is the
/// bytes' unsigned value, a negative one is that value less the whole range.
pub proof fn lemma_signed_elements(tag: u64, b: Seq<u8>)
    requires
        (tag == 72 && b.len() == 1) || (tag == 77 && b.len() == 2) || (tag == 78 && b.len() == 4)
            || (tag == 79 && b.len() == 8),
    ensures
        ({
            let half: int = if tag == 72 {
                0x80
            } else if tag == 77 {
                0x8000
            } else if tag == 78 {
                0x8000_0000
            } else {
                0x8000_0000_0000_0000
            };
            match typed_element(tag, b) {
                JsonV::Int(i) => -half <= i < 0 && i == le_value(b) - 2 * half,
                JsonV::UInt(u) => u < half && u == le_value(b),
                _ => false,
            }
        }),
{
    lemma_le_bound(b);
    reveal_with_fuel(pow256, 9);
}

/// A typed array (RFC 8746, little endian) is read element by element: one
/// byte each under tag 72, two under 69 and 77, four under 70, 78 and 85
/// (float32), eight under 71, 79 and 86 (float64); its bytes must make
/// whole elements.
pub proof fn lemma_typed_array_elements(tag: u64, b: Seq<u8>)
    requires
        tag == 72 || tag == 69 || tag == 77 || tag == 70 || tag == 78 || tag == 85 || tag == 71 || tag == 79 || tag == 86,
    ensures
        ({
            let size: int = if tag == 72 {
                1
            } else if tag == 69 || tag == 77 {
                2
            } else if tag == 70 || tag == 78 || tag == 85 {
                4
            } else {
                8
            };
            &&& (typed_array_of(tag, CborV::Bytes(b)) is Some) == ((b.len() as int) % size == 0)
            &&& typed_array_of(tag, CborV::Bytes(b)) matches Some(JsonV::Array(items)) ==> items.len() == (b.len() as int) / size
                && forall|i: int| 0 <= i < items.len() ==> #[trigger] items[i] == typed_element(tag, b.subrange(i * size, i * size + size))
        }),
{
}

/// Each element of an unsigned typed array (tags 69, 70, 71: uint16, uint32,
/// uint64, little endian) reads as the unsigned value of its bytes.
pub proof fn lemma_unsigned_elements(tag: u64, b: Seq<u8>)
    requires
        (tag == 69 && b.len() == 2) || (tag == 70 && b.len() == 4) || (tag == 71 && b.len() == 8),
    ensures
        typed_element(tag, b) == JsonV::UInt(le_value(b) as u64),
        le_value(b) < 0x1_0000_0000_0000_0000,
{
    lemma_le_bound(b);
    reveal_with_fuel(pow256, 9);
}

/// A tagged value read as JSON (`typed_array_of`).
pub fn typed_array(tag: u64, value: &Cbor) -> (r: Result<Json, Error>)
    ensures
        match r {
            Ok(j) => typed_array_of(tag, value@) == Some(j@),
            Err(_) => typed_array_of(tag, value@) is None,
        },
{
    let bytes = match value {
        Cbor::Bytes(b) => b,
        _ => {
            return Err(Error::new("typed array must contain bytes"));
        },
    };
    if tag == 64 {
        return Ok(Json::Str(base64_encode(bytes.as_slice())));
    }
    let size: usize = if tag == 72 { 1 }
        else if tag == 69 || tag == 77 { 2 }
        else if tag == 70 || tag == 78 || tag == 85 { 4 }
        else if tag == 71 || tag == 79 || tag == 86 { 8 }
        else { 0 };
    if size == 0 {
        let mut e = Error::new("unsupported CBOR tag ");
        let digits = decimal_string(tag);
        crate::text::append(&mut e.message, digits.as_str());
        return Err(e);
    }
    if bytes.len() % size != 0 {
        return Err(Error::new("invalid typed array length"));
    }
    let n = bytes.len() / size;
    let mut out: Vec<Json> = Vec::new();
    let mut i: usize = 0;
    while i < n
        invariant
            size == element_size(tag),
            1 <= size <= 8,
            n == bytes@.len() as int / size as int,
            bytes@.len() as int % size as int == 0,
            i <= n,
            bytes@.len() <= usize::MAX,
            out@.len() == i,
            forall|k: int| 0 <= k < i ==> #[trigger] out@[k]@ == typed_element(tag, bytes@.subrange(k * size, k * size + size)),
        decreases n - i,
    {
        assert(i * size + size <= bytes@.len()) by (nonlinear_arith)
            requires i < n, n == bytes@.len() as int / size as int, bytes@.len() as int % size as int == 0, size >= 1;
        out.push(element(tag, &bytes, i * size, size));
        i = i + 1;
    }
    let r = Json::Array(out);
    assert(r@ =~= typed_array_of(tag, value@).unwrap()) by {
        if let JsonV::Array(a) = r@ {
            assert forall|k: int| 0 <= k < n implies a[k] == typed_element(tag, bytes@.subrange(k * size, k * size + size)) by {
                assert(a[k] == out@[k]@);
            }
            assert(a =~= Seq::new(n as nat, |k: int| typed_element(tag, bytes@.subrange(k * size, k * size + size))));
        }
    }
    Ok(r)
}

/// A prefix without a JSON form leaves the whole list without one.
pub proof fn lemma_list_none(s: Seq<CborV>, j: int)
    requires
        0 <= j <= s.len(),
        json_list(s.take(j)) is None,
    ensures
        json_list(s) is None,
    decreases s.len() - j,
{
    if j < s.len() {
        let t = s.take(j + 1);
        assert(t.drop_last() =~= s.take(j));
        lemma_list_none(s, j + 1);
    } else {
        assert(s.take(j) =~= s);
    }
}

pub proof fn lemma_members_none(s: Seq<(CborV, CborV)>, j: int)
    requires
        0 <= j <= s.len(),
        json_members(s.take(j)) is None,
    ensures
        json_members(s) is None,
    decreases s.len() - j,
{
    if j < s.len() {
        let t = s.take(j + 1);
        assert(t.drop_last() =~= s.take(j));
        lemma_members_none(s, j + 1);
    } else {
        assert(s.take(j) =~= s);
    }
}

fn float_value(f: Float) -> (r: Json)
    ensures
        r@ == (if non_finite(f.bits, f.single) { JsonV::Null } else { JsonV::Float(f) }),
{
    let nan = if f.single {
        (f.bits / 0x80_0000) % 0x100 == 0xff
    } else {
        (f.bits / 0x10_0000_0000_0000) % 0x800 == 0x7ff
    };
    if nan {
        Json::Null
    } else {
        Json::Float(f)
    }
}

/// Converts a CBOR item to JSON (`json_of`).
pub fn json_value(v: &Cbor) -> (r: Result<Json, Error>)
    ensures
        match r {
            Ok(j) => json_of(v@) == Some(j@),
            Err(_) => json_of(v@) is None,
        },
    decreases v,
{
    match v {
        Cbor::Null => Ok(Json::Null),
        Cbor::Bool(b) => Ok(Json::Bool(*b)),
        Cbor::Text(s) => Ok(Json::Str(owned(s.as_str()))),
        Cbor::Float(f) => Ok(float_value(*f)),
        Cbor::Integer(n) => {
            if *n < 0 {
                if *n >= -9223372036854775808i128 {
                    Ok(Json::Int(*n as i64))
                } else {
                    Err(Error::new("out of range integral type conversion attempted"))
                }
            } else if *n <= 18446744073709551615i128 {
                Ok(Json::UInt(*n as u64))
            } else {
                Err(Error::new("out of range integral type conversion attempted"))
            }
        },
        Cbor::Bytes(b) => Ok(Json::Str(base64_encode(b.as_slice()))),
        Cbor::Tag(t, inner) => {
            typed_array(*t, &**inner)
        },
        Cbor::Array(items) => {
            let ghost spec_items = v@->Array_0;
            let mut out: Vec<Json> = Vec::new();
            let mut i: usize = 0;
            assert(spec_items.take(0) =~= Seq::<CborV>::empty());
            while i < items.len()
                invariant
                    i <= items@.len(),
                    *v == Cbor::Array(*items),
                    spec_items == v@->Array_0,
                    spec_items.len() == items@.len(),
                    out@.len() == i,
                    json_list(spec_items.take(i as int)) == Some(Seq::new(i as nat, |k: int| out@[k]@)),
                decreases items.len() - i,
            {
                proof {
                    assert(decreases_to!(*v => (*v)->Array_0));
                    assert(decreases_to!(*items => items@));
                    assert(decreases_to!(items@ => items@[i as int]));
                    assert(spec_items[i as int] == items@[i as int]@);
                    let t = spec_items.take(i + 1);
                    assert(t.drop_last() =~= spec_items.take(i as int));
                    assert(t.last() == spec_items[i as int]);
                }
                match json_value(&items[i]) {
                    Ok(j) => {
                        let ghost prev = Seq::new(i as nat, |k: int| out@[k]@);
                        out.push(j);
                        assert(Seq::new((i + 1) as nat, |k: int| out@[k]@) =~= prev.push(out@[i as int]@));
                    },
                    Err(e) => {
                        proof {
                            lemma_list_none(spec_items, i + 1);
                        }
                        return Err(e);
                    },
                }
                i = i + 1;
            }
            let r = Json::Array(out);
            proof {
                assert(spec_items.take(i as int) =~= spec_items);
                assert(r@ =~= JsonV::Array(Seq::new(i as nat, |k: int| out@[k]@))) by {
                    if let JsonV::Array(a) = r@ {
                        assert(a =~= Seq::new(i as nat, |k: int| out@[k]@));
                    }
                }
            }
            Ok(r)
        },
        Cbor::Pairs(pairs) => {
            let ghost spec_pairs = v@->Pairs_0;
            let mut out = Json::object();
            let mut i: usize = 0;
            assert(spec_pairs.take(0) =~= Seq::<(CborV, CborV)>::empty());
            while i < pairs.len()
                invariant
                    i <= pairs@.len(),
                    *v == Cbor::Pairs(*pairs),
                    spec_pairs == v@->Pairs_0,
                    spec_pairs.len() == pairs@.len(),
                    json_members(spec_pairs.take(i as int)) == Some(out@.members()),
                    out@ is Object,
                decreases pairs.len() - i,
            {
                proof {
                    assert(decreases_to!(*v => (*v)->Pairs_0));
                    assert(decreases_to!(*pairs => pairs@));
                    assert(decreases_to!(pairs@ => pairs@[i as int]));
                    assert(decreases_to!(pairs@[i as int] => pairs@[i as int].1));
                    assert(spec_pairs[i as int] == (pairs@[i as int].0@, pairs@[i as int].1@));
                    let t = spec_pairs.take(i + 1);
                    assert(t.drop_last() =~= spec_pairs.take(i as int));
                    assert(t.last() == spec_pairs[i as int]);
                }
                let key = match &pairs[i].0 {
                    Cbor::Text(k) => k.as_str(),
                    _ => {
                        proof {
                            lemma_members_none(spec_pairs, i + 1);
                        }
                        return Err(Error::new("CBOR object keys must be strings"));
                    },
                };
                let value = match json_value(&pairs[i].1) {
                    Ok(j) => j,
                    Err(e) => {
                        proof {
                            lemma_members_none(spec_pairs, i + 1);
                        }
                        return Err(e);
                    },
                };
                out.set(key, value);
                i = i + 1;
            }
            proof {
                assert(spec_pairs.take(i as int) =~= spec_pairs);
            }
            Ok(out)
        },
    }
}

} // verus!
