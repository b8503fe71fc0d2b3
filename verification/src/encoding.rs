//! Owned protocol encoding jobs and the memory they retain while queued.

use vstd::prelude::*;
use crate::cbor::{Cbor, CborV};
use crate::json::{Json, JsonV};
use crate::wire::{Compression, Options};

verus! {

/// The sum of `s`, stopping at `usize::MAX`.
pub open spec fn saturating_sum(s: Seq<usize>) -> nat
    decreases s.len(),
{
    if s.len() == 0 {
        0
    } else {
        let t: nat = saturating_sum(s.drop_last()) + s.last() as nat;
        if t > usize::MAX {
            usize::MAX as nat
        } else {
            t
        }
    }
}

/// Adds the values, stopping at `usize::MAX`.
pub fn sum(values: &Vec<usize>) -> (r: usize)
    ensures
        r == saturating_sum(values@),
{
    let mut acc: usize = 0;
    let mut i: usize = 0;
    while i < values.len()
        invariant
            i <= values@.len(),
            acc == saturating_sum(values@.take(i as int)),
        decreases values.len() - i,
    {
        assert(values@.take(i + 1).drop_last() =~= values@.take(i as int));
        acc = acc.saturating_add(values[i]);
        i = i + 1;
    }
    assert(values@.take(i as int) =~= values@);
    acc
}

/// `a * b`, stopping at `usize::MAX` (`usize::saturating_mul`).
fn mul_sat(a: usize, b: usize) -> (r: usize)
    ensures
        r == (if a * b > usize::MAX { usize::MAX as int } else { a * b }),
{
    match a.checked_mul(b) {
        Some(p) => p,
        None => usize::MAX,
    }
}

/// Calls `String::capacity`; what the allocator reserved is left unstated.
#[verifier::external_body]
fn string_capacity(s: &String) -> usize {
    s.capacity()
}

/// Calls `Vec::capacity`; what the allocator reserved is left unstated.
#[verifier::external_body]
fn vec_capacity<T>(v: &Vec<T>) -> usize {
    v.capacity()
}

/// An estimate of the memory that a JSON value keeps: never below the size of
/// the value itself, since the estimate only adds to it.
pub fn json_storage(value: &Json) -> (r: usize)
    ensures
        r >= vstd::layout::size_of::<Json>() || r == usize::MAX,
    decreases value,
{
    let heap: usize = match value {
        Json::Str(s) => string_capacity(s),
        Json::Array(items) => {
            let mut parts: Vec<usize> = Vec::new();
            let mut i: usize = 0;
            while i < items.len()
                invariant
                    i <= items@.len(),
                    *value == Json::Array(*items),
                decreases items.len() - i,
            {
                proof {
                    assert(decreases_to!(*value => (*value)->Array_0));
                    assert(decreases_to!(*items => items@));
                    assert(decreases_to!(items@ => items@[i as int]));
                }
                parts.push(json_storage(&items[i]));
                i = i + 1;
            }
            mul_sat(vec_capacity(items), std::mem::size_of::<Json>()).saturating_add(sum(&parts))
        },
        Json::Object(pairs) => {
            let mut parts: Vec<usize> = Vec::new();
            let mut i: usize = 0;
            while i < pairs.len()
                invariant
                    i <= pairs@.len(),
                    *value == Json::Object(*pairs),
                decreases pairs.len() - i,
            {
                proof {
                    assert(decreases_to!(*value => (*value)->Object_0));
                    assert(decreases_to!(*pairs => pairs@));
                    assert(decreases_to!(pairs@ => pairs@[i as int]));
                    assert(decreases_to!(pairs@[i as int] => pairs@[i as int].1));
                }
                let entry = std::mem::size_of::<String>().saturating_add(mul_sat(std::mem::size_of::<usize>(), 4));
                let part = string_capacity(&pairs[i].0).saturating_add(entry).saturating_add(json_storage(&pairs[i].1));
                parts.push(part);
                i = i + 1;
            }
            sum(&parts)
        },
        _ => 0,
    };
    std::mem::size_of::<Json>().saturating_add(heap)
}

/// An estimate of the memory that a CBOR item keeps: never below the size of
/// the item itself.
pub fn cbor_storage(value: &Cbor) -> (r: usize)
    ensures
        r >= vstd::layout::size_of::<Cbor>() || r == usize::MAX,
    decreases value,
{
    let heap: usize = match value {
        Cbor::Text(s) => string_capacity(s),
        Cbor::Bytes(v) => vec_capacity(v),
        Cbor::Array(items) => {
            let mut parts: Vec<usize> = Vec::new();
            let mut i: usize = 0;
            while i < items.len()
                invariant
                    i <= items@.len(),
                    *value == Cbor::Array(*items),
                decreases items.len() - i,
            {
                proof {
                    assert(decreases_to!(*value => (*value)->Array_0));
                    assert(decreases_to!(*items => items@));
                    assert(decreases_to!(items@ => items@[i as int]));
                }
                parts.push(cbor_storage(&items[i]));
                i = i + 1;
            }
            mul_sat(vec_capacity(items), std::mem::size_of::<Cbor>()).saturating_add(sum(&parts))
        },
        Cbor::Pairs(pairs) => {
            let mut parts: Vec<usize> = Vec::new();
            let mut i: usize = 0;
            while i < pairs.len()
                invariant
                    i <= pairs@.len(),
                    *value == Cbor::Pairs(*pairs),
                decreases pairs.len() - i,
            {
                proof {
                    assert(decreases_to!(*value => (*value)->Pairs_0));
                    assert(decreases_to!(*pairs => pairs@));
                    assert(decreases_to!(pairs@ => pairs@[i as int]));
                    assert(decreases_to!(pairs@[i as int] => pairs@[i as int].0));
                    assert(decreases_to!(pairs@[i as int] => pairs@[i as int].1));
                }
                parts.push(cbor_storage(&pairs[i].0).saturating_add(cbor_storage(&pairs[i].1)));
                i = i + 1;
            }
            mul_sat(vec_capacity(pairs), std::mem::size_of::<(Cbor, Cbor)>()).saturating_add(sum(&parts))
        },
        Cbor::Tag(_, inner) => {
            proof {
                assert(decreases_to!(*value => (*value)->Tag_1));
            }
            cbor_storage(inner)
        },
        _ => 0,
    };
    std::mem::size_of::<Cbor>().saturating_add(heap)
}

/// A message for one client, with what it takes to encode it.
pub struct Request {
    pub value: Json,
    /// The message as CBOR, where it was received as such.
    pub binary: Option<Cbor>,
    pub options: Options,
    pub fragment_id: String,
}

/// Whether the options ask for a binary encoding.
pub open spec fn binary_encoding(o: Options) -> bool {
    o.compression == Compression::Cbor || o.compression == Compression::Raw
}

impl Request {
    /// A request that keeps only what its encoding uses: the CBOR form where
    /// the encoding is binary and one is given (the JSON value is dropped),
    /// and the JSON value otherwise.
    pub fn new(value: Json, binary: Option<Cbor>, options: Options, fragment_id: String) -> (r: Request)
        ensures
            r.options == options,
            r.fragment_id@ == fragment_id@,
            binary_encoding(options) && binary is Some ==> r.value@ == JsonV::Null && r.binary == binary,
            !(binary_encoding(options) && binary is Some) ==> r.value@ == value@ && r.binary is None,
    {
        let binary_out = options.compression == Compression::Cbor || options.compression == Compression::Raw;
        if binary_out && binary.is_some() {
            Request { value: Json::Null, binary, options, fragment_id }
        } else {
            Request { value, binary: None, options, fragment_id }
        }
    }

    /// The one CBOR data item written for the request where its encoding is
    /// binary (whatever the fragment size: a binary message is never split):
    /// the form the message was received in, where there is one, else its
    /// JSON value as CBOR. None for a text encoding.
    pub fn binary_frame(&self) -> (r: Option<Cbor>)
        ensures
            r is Some <==> binary_encoding(self.options),
            r matches Some(c) ==> match self.binary {
                Some(b) => c@ == b@,
                None => c@ == crate::cbor::cbor_of(self.value@),
            },
    {
        if !(self.options.compression == Compression::Cbor || self.options.compression == Compression::Raw) {
            return None;
        }
        match &self.binary {
            Some(b) => Some(b.copy()),
            None => Some(crate::cbor::cbor_value(&self.value)),
        }
    }

    /// An estimate of the memory the request keeps while queued: never below
    /// the size of the request itself.
    pub fn retained_bytes(&self) -> (r: usize)
        ensures
            r >= vstd::layout::size_of::<Request>() || r == usize::MAX,
    {
        let binary = match &self.binary {
            Some(b) => cbor_storage(b),
            None => 0,
        };
        std::mem::size_of::<Request>()
            .saturating_add(json_storage(&self.value))
            .saturating_add(binary)
            .saturating_add(string_capacity(&self.fragment_id))
    }
}

} // verus!
