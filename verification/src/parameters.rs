//! ROS 2 parameter values (`rcl_interfaces/ParameterValue`) and plain JSON.

use vstd::prelude::*;
use crate::error::Error;
use crate::json::{Json, JsonV};

verus! {

/// The member of a `ParameterValue` that holds a value of parameter type `t`.
pub open spec fn parameter_field(t: u64) -> Option<Seq<char>> {
    if t == 1 {
        Some("bool_value"@)
    } else if t == 2 {
        Some("integer_value"@)
    } else if t == 3 {
        Some("double_value"@)
    } else if t == 4 {
        Some("string_value"@)
    } else if t == 5 {
        Some("byte_array_value"@)
    } else if t == 6 {
        Some("bool_array_value"@)
    } else if t == 7 {
        Some("integer_array_value"@)
    } else if t == 8 {
        Some("double_array_value"@)
    } else if t == 9 {
        Some("string_array_value"@)
    } else {
        None
    }
}

/// The plain value that a `ParameterValue` holds; null where it holds none.
pub open spec fn parameter_json_of(v: JsonV) -> JsonV {
    let t = match v.unsigned_at("type"@) {
        Some(t) => t,
        None => 0,
    };
    match parameter_field(t) {
        None => JsonV::Null,
        Some(f) => match v.field(f) {
            Some(x) => x,
            None => JsonV::Null,
        },
    }
}

fn field_name(t: u64) -> (r: Option<&'static str>)
    ensures
        match r {
            Some(f) => parameter_field(t) == Some(f@),
            None => parameter_field(t) is None,
        },
{
    if t == 1 {
        Some("bool_value")
    } else if t == 2 {
        Some("integer_value")
    } else if t == 3 {
        Some("double_value")
    } else if t == 4 {
        Some("string_value")
    } else if t == 5 {
        Some("byte_array_value")
    } else if t == 6 {
        Some("bool_array_value")
    } else if t == 7 {
        Some("integer_array_value")
    } else if t == 8 {
        Some("double_array_value")
    } else if t == 9 {
        Some("string_array_value")
    } else {
        None
    }
}

/// The plain value of a `ParameterValue` message.
pub fn parameter_json(value: &Json) -> (r: Json)
    ensures
        r@ == parameter_json_of(value@),
{
    let t = match value.u64_at("type") {
        Some(t) => t,
        None => 0,
    };
    match field_name(t) {
        None => Json::Null,
        Some(f) => match value.get(f) {
            Some(x) => x.copy(),
            None => Json::Null,
        },
    }
}

/// A number that fits an `i64`.
pub open spec fn is_integer(v: JsonV) -> bool {
    match v {
        JsonV::UInt(n) => n <= i64::MAX,
        JsonV::Int(_) => true,
        _ => false,
    }
}

pub open spec fn is_number(v: JsonV) -> bool {
    v is UInt || v is Int || v is Float
}

/// The parameter type and member for a plain value, where it has one.
pub open spec fn parameter_kind(v: JsonV) -> Option<(u64, Seq<char>)> {
    match v {
        JsonV::Bool(_) => Some((1, "bool_value"@)),
        JsonV::UInt(_) | JsonV::Int(_) => if is_integer(v) {
            Some((2, "integer_value"@))
        } else {
            Some((3, "double_value"@))
        },
        JsonV::Float(_) => Some((3, "double_value"@)),
        JsonV::Str(_) => Some((4, "string_value"@)),
        JsonV::Array(items) => if forall|i: int| 0 <= i < items.len() ==> #[trigger] items[i] is Bool {
            Some((6, "bool_array_value"@))
        } else if forall|i: int| 0 <= i < items.len() ==> is_integer(#[trigger] items[i]) {
            Some((7, "integer_array_value"@))
        } else if forall|i: int| 0 <= i < items.len() ==> is_number(#[trigger] items[i]) {
            Some((8, "double_array_value"@))
        } else if forall|i: int| 0 <= i < items.len() ==> #[trigger] items[i] is Str {
            Some((9, "string_array_value"@))
        } else {
            None
        },
        _ => None,
    }
}

/// The `ParameterValue` message for a plain value: null clears the parameter,
/// scalars and homogeneous arrays are typed; nothing else is a parameter value.
pub open spec fn parameter_message(v: JsonV) -> Option<JsonV> {
    if v is Null {
        Some(JsonV::Object(seq![("type"@, JsonV::UInt(0))]))
    } else {
        match parameter_kind(v) {
            Some((t, f)) => Some(JsonV::Object(seq![("type"@, JsonV::UInt(t)), (f, v)])),
            None => None,
        }
    }
}

/// How the items of an array qualify: all booleans, all integers, all numbers, all strings.
fn item_kinds(items: &Vec<Json>) -> (r: (bool, bool, bool, bool))
    ensures
        r.0 == forall|i: int| 0 <= i < items@.len() ==> #[trigger] items@[i]@ is Bool,
        r.1 == forall|i: int| 0 <= i < items@.len() ==> is_integer(#[trigger] items@[i]@),
        r.2 == forall|i: int| 0 <= i < items@.len() ==> is_number(#[trigger] items@[i]@),
        r.3 == forall|i: int| 0 <= i < items@.len() ==> #[trigger] items@[i]@ is Str,
{
    let mut bools = true;
    let mut ints = true;
    let mut nums = true;
    let mut strs = true;
    let mut i: usize = 0;
    while i < items.len()
        invariant
            i <= items@.len(),
            bools == forall|k: int| 0 <= k < i ==> #[trigger] items@[k]@ is Bool,
            ints == forall|k: int| 0 <= k < i ==> is_integer(#[trigger] items@[k]@),
            nums == forall|k: int| 0 <= k < i ==> is_number(#[trigger] items@[k]@),
            strs == forall|k: int| 0 <= k < i ==> #[trigger] items@[k]@ is Str,
        decreases items.len() - i,
    {
        let (b, n, f, s) = match &items[i] {
            Json::Bool(_) => (true, false, false, false),
            Json::UInt(v) => (false, *v <= 9223372036854775807u64, true, false),
            Json::Int(_) => (false, true, true, false),
            Json::Float(_) => (false, false, true, false),
            Json::Str(_) => (false, false, false, true),
            _ => (false, false, false, false),
        };
        assert(b == items@[i as int]@ is Bool);
        assert(n == is_integer(items@[i as int]@));
        assert(f == is_number(items@[i as int]@));
        assert(s == items@[i as int]@ is Str);
        bools = bools && b;
        ints = ints && n;
        nums = nums && f;
        strs = strs && s;
        i = i + 1;
    }
    (bools, ints, nums, strs)
}

/// A two-member object `{"type": t, field: value}`.
fn typed(t: u64, field: &str, value: Json) -> (r: Json)
    ensures
        r@ == JsonV::Object(seq![("type"@, JsonV::UInt(t)), (field@, value@)]),
{
    let mut members: Vec<(String, Json)> = Vec::new();
    members.push((crate::text::owned("type"), Json::UInt(t)));
    let ghost v = value@;
    members.push((crate::text::owned(field), value));
    let ghost mv = members@;
    assert(mv[0].1@ == JsonV::UInt(t));
    assert(mv[1].1@ == v);
    let r = Json::Object(members);
    assert(r@ =~= JsonV::Object(seq![("type"@, JsonV::UInt(t)), (field@, v)])) by {
        if let JsonV::Object(m) = r@ {
            assert(m =~= seq![("type"@, JsonV::UInt(t)), (field@, v)]);
        }
    }
    r
}

/// The `ParameterValue` message for a plain value.
pub fn parameter_value(value: &Json) -> (r: Result<Json, Error>)
    ensures
        match r {
            Ok(m) => parameter_message(value@) == Some(m@),
            Err(e) => parameter_message(value@) is None
                && e.message@ == "parameter value must be a scalar or homogeneous array"@,
        },
{
    let kind: Option<(u64, &str)> = match value {
        Json::Null => return Ok(typed0()),
        Json::Bool(_) => Some((1, "bool_value")),
        Json::UInt(n) => if *n <= 9223372036854775807u64 {
            Some((2, "integer_value"))
        } else {
            Some((3, "double_value"))
        },
        Json::Int(_) => Some((2, "integer_value")),
        Json::Float(_) => Some((3, "double_value")),
        Json::Str(_) => Some((4, "string_value")),
        Json::Array(items) => {
            let (b, n, f, s) = item_kinds(items);
            proof {
                let vs = value@->Array_0;
                assert(vs.len() == items@.len());
                if b {
                    assert forall|i: int| 0 <= i < vs.len() implies #[trigger] vs[i] is Bool by {
                        assert(vs[i] == items@[i]@);
                    }
                } else {
                    let k = choose|k: int| 0 <= k < items@.len() && !(#[trigger] items@[k]@ is Bool);
                    assert(vs[k] == items@[k]@);
                }
                assert(b == forall|i: int| 0 <= i < vs.len() ==> #[trigger] vs[i] is Bool);
                if n {
                    assert forall|i: int| 0 <= i < vs.len() implies is_integer(#[trigger] vs[i]) by {
                        assert(vs[i] == items@[i]@);
                    }
                } else {
                    let k = choose|k: int| 0 <= k < items@.len() && !is_integer(#[trigger] items@[k]@);
                    assert(vs[k] == items@[k]@);
                }
                assert(n == forall|i: int| 0 <= i < vs.len() ==> is_integer(#[trigger] vs[i]));
                if f {
                    assert forall|i: int| 0 <= i < vs.len() implies is_number(#[trigger] vs[i]) by {
                        assert(vs[i] == items@[i]@);
                    }
                } else {
                    let k = choose|k: int| 0 <= k < items@.len() && !is_number(#[trigger] items@[k]@);
                    assert(vs[k] == items@[k]@);
                }
                assert(f == forall|i: int| 0 <= i < vs.len() ==> is_number(#[trigger] vs[i]));
                if s {
                    assert forall|i: int| 0 <= i < vs.len() implies #[trigger] vs[i] is Str by {
                        assert(vs[i] == items@[i]@);
                    }
                } else {
                    let k = choose|k: int| 0 <= k < items@.len() && !(#[trigger] items@[k]@ is Str);
                    assert(vs[k] == items@[k]@);
                }
                assert(s == forall|i: int| 0 <= i < vs.len() ==> #[trigger] vs[i] is Str);
            }
            if b {
                Some((6, "bool_array_value"))
            } else if n {
                Some((7, "integer_array_value"))
            } else if f {
                Some((8, "double_array_value"))
            } else if s {
                Some((9, "string_array_value"))
            } else {
                None
            }
        },
        Json::Object(_) => None,
    };
    match kind {
        Some((t, field)) => Ok(typed(t, field, value.copy())),
        None => Err(Error::new("parameter value must be a scalar or homogeneous array")),
    }
}

/// `{"type": 0}`: the message that clears a parameter.
fn typed0() -> (r: Json)
    ensures
        r@ == JsonV::Object(seq![("type"@, JsonV::UInt(0))]),
{
    let mut members: Vec<(String, Json)> = Vec::new();
    members.push((crate::text::owned("type"), Json::UInt(0)));
    let ghost mv = members@;
    assert(mv[0].1@ == JsonV::UInt(0));
    let r = Json::Object(members);
    assert(r@ =~= JsonV::Object(seq![("type"@, JsonV::UInt(0))])) by {
        if let JsonV::Object(m) = r@ {
            assert(m =~= seq![("type"@, JsonV::UInt(0))]);
        }
    }
    r
}

/// The member `key` of `v` (the first of that name), or null where it has none.
pub open spec fn member_or_null(v: JsonV, key: Seq<char>) -> JsonV {
    match v.field(key) {
        Some(x) => x,
        None => JsonV::Null,
    }
}

/// Each parameter type of `rcl_interfaces/ParameterValue` is read from its
/// own member: 1 `bool_value`, 2 `integer_value`, 3 `double_value`,
/// 4 `string_value`, 5 `byte_array_value`, 6 `bool_array_value`,
/// 7 `integer_array_value`, 8 `double_array_value`, 9 `string_array_value`;
/// any other type, or none, holds no value.
pub proof fn lemma_parameter_members(v: JsonV)
    ensures
        v.unsigned_at("type"@) == Some(1u64) ==> parameter_json_of(v) == member_or_null(v, "bool_value"@),
        v.unsigned_at("type"@) == Some(2u64) ==> parameter_json_of(v) == member_or_null(v, "integer_value"@),
        v.unsigned_at("type"@) == Some(3u64) ==> parameter_json_of(v) == member_or_null(v, "double_value"@),
        v.unsigned_at("type"@) == Some(4u64) ==> parameter_json_of(v) == member_or_null(v, "string_value"@),
        v.unsigned_at("type"@) == Some(5u64) ==> parameter_json_of(v) == member_or_null(v, "byte_array_value"@),
        v.unsigned_at("type"@) == Some(6u64) ==> parameter_json_of(v) == member_or_null(v, "bool_array_value"@),
        v.unsigned_at("type"@) == Some(7u64) ==> parameter_json_of(v) == member_or_null(v, "integer_array_value"@),
        v.unsigned_at("type"@) == Some(8u64) ==> parameter_json_of(v) == member_or_null(v, "double_array_value"@),
        v.unsigned_at("type"@) == Some(9u64) ==> parameter_json_of(v) == member_or_null(v, "string_array_value"@),
        !(exists|t: u64| 1 <= t <= 9 && v.unsigned_at("type"@) == Some(t)) ==> parameter_json_of(v) == JsonV::Null,
{
    if v.unsigned_at("type"@) is Some {
        let t = v.unsigned_at("type"@)->Some_0;
        if 1 <= t <= 9 {
            assert(exists|t: u64| 1 <= t <= 9 && v.unsigned_at("type"@) == Some(t));
        }
    }
}

/// The `ParameterValue` message made for a plain value gives that value back
/// when read: a value set as a parameter is the value got.
pub proof fn lemma_parameter_round_trip(v: JsonV)
    requires
        parameter_message(v) is Some,
    ensures
        parameter_json_of(parameter_message(v)->Some_0) == v,
{
    let m = parameter_message(v)->Some_0;
    reveal_strlit("type");
    reveal_strlit("bool_value");
    reveal_strlit("integer_value");
    reveal_strlit("double_value");
    reveal_strlit("string_value");
    reveal_strlit("bool_array_value");
    reveal_strlit("integer_array_value");
    reveal_strlit("double_array_value");
    reveal_strlit("string_array_value");
    let pairs = m->Object_0;
    assert(crate::json::first_key(pairs, "type"@, 0));
    crate::json::lemma_lookup_at(pairs, "type"@, 0);
    if !(v is Null) {
        let (t, f) = parameter_kind(v)->Some_0;
        assert(parameter_field(t) == Some(f));
        assert(f.len() != ("type"@).len());
        assert(pairs[0].0 != f);
        assert(crate::json::first_key(pairs, f, 1));
        crate::json::lemma_lookup_at(pairs, f, 1);
    }
}

} // verus!
