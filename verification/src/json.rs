//! The JSON documents of the rosbridge protocol, as plain values.
//!
//! Text is parsed into and printed from this type at the program's edge; the
//! library reads and builds documents only through it.

use vstd::prelude::*;
use crate::text::owned;

verus! {

/// A JSON number with a fractional part or an exponent.
#[derive(Clone, Copy, Debug, PartialEq)]
pub struct Float {
    /// The IEEE 754 bits of the number: binary64, or binary32 where `single` is set.
    pub bits: u64,
    pub single: bool,
    /// The number as a duration `(seconds, nanoseconds)`: present where the number
    /// is finite, at least zero and below 2^64, as converted where the number was read.
    /// Numbers unpacked from binary typed arrays carry none.
    pub seconds: Option<(u64, u32)>,
}

/// A JSON value. Integers at or above zero are `UInt`; those below zero are `Int`.
/// An object keeps its members in order. A key may occur more than once (as
/// `member` appends without looking); a lookup finds the first member with
/// that key, and `set` replaces that member.
#[derive(Debug)]
pub enum Json {
    Null,
    Bool(bool),
    UInt(u64),
    Int(i64),
    Float(Float),
    Str(String),
    Array(Vec<Json>),
    Object(Vec<(String, Json)>),
}

/// The mathematical value of a [`Json`].
pub enum JsonV {
    Null,
    Bool(bool),
    UInt(u64),
    Int(i64),
    Float(Float),
    Str(Seq<char>),
    Array(Seq<JsonV>),
    Object(Seq<(Seq<char>, JsonV)>),
}

impl View for Json {
    type V = JsonV;

    open spec fn view(&self) -> JsonV {
        self.model()
    }
}

impl Json {
    /// The value of `self`, member by member.
    pub open spec fn model(&self) -> JsonV
        decreases self,
    {
        match self {
            Json::Null => JsonV::Null,
            Json::Bool(b) => JsonV::Bool(*b),
            Json::UInt(n) => JsonV::UInt(*n),
            Json::Int(n) => JsonV::Int(*n),
            Json::Float(f) => JsonV::Float(*f),
            Json::Str(s) => JsonV::Str(s@),
            Json::Array(items) => JsonV::Array(
                Seq::new(
                    items@.len(),
                    |i: int|
                        if 0 <= i < items@.len() {
                            items@[i].model()
                        } else {
                            JsonV::Null
                        },
                ),
            ),
            Json::Object(pairs) => JsonV::Object(
                Seq::new(
                    pairs@.len(),
                    |i: int|
                        if 0 <= i < pairs@.len() {
                            (pairs@[i].0@, pairs@[i].1.model())
                        } else {
                            (Seq::empty(), JsonV::Null)
                        },
                ),
            ),
        }
    }
}

/// `i` is the first position of `key` among `pairs`.
pub open spec fn first_key(pairs: Seq<(Seq<char>, JsonV)>, key: Seq<char>, i: int) -> bool {
    &&& 0 <= i < pairs.len()
    &&& pairs[i].0 == key
    &&& forall|k: int| 0 <= k < i ==> pairs[k].0 != key
}

/// The value of the first member named `key`.
pub open spec fn lookup(pairs: Seq<(Seq<char>, JsonV)>, key: Seq<char>) -> Option<JsonV> {
    if exists|i: int| first_key(pairs, key, i) {
        Some(pairs[choose|i: int| first_key(pairs, key, i)].1)
    } else {
        None
    }
}

pub proof fn lemma_lookup_at(pairs: Seq<(Seq<char>, JsonV)>, key: Seq<char>, i: int)
    requires
        first_key(pairs, key, i),
    ensures
        lookup(pairs, key) == Some(pairs[i].1),
{
    let j = choose|j: int| first_key(pairs, key, j);
    if i < j {
        assert(pairs[i].0 != key);
    } else if j < i {
        assert(pairs[j].0 != key);
    }
}

/// Keys in the same places, values equal but at `i`, where the key is `key`:
/// every other key looks up the same value.
pub proof fn lemma_lookup_update(
    a: Seq<(Seq<char>, JsonV)>,
    b: Seq<(Seq<char>, JsonV)>,
    i: int,
    key: Seq<char>,
)
    requires
        a.len() == b.len(),
        0 <= i < a.len(),
        a[i].0 == key,
        forall|m: int| 0 <= m < a.len() ==> a[m].0 == b[m].0,
        forall|m: int| 0 <= m < a.len() && m != i ==> a[m].1 == b[m].1,
    ensures
        forall|k: Seq<char>| k != key ==> #[trigger] lookup(a, k) == lookup(b, k),
{
    assert forall|k: Seq<char>| k != key implies #[trigger] lookup(a, k) == lookup(b, k) by {
        if exists|j: int| first_key(a, k, j) {
            let j = choose|j: int| first_key(a, k, j);
            assert(first_key(b, k, j));
            lemma_lookup_at(a, k, j);
            lemma_lookup_at(b, k, j);
        } else if exists|j: int| first_key(b, k, j) {
            let j = choose|j: int| first_key(b, k, j);
            assert forall|m: int| 0 <= m < j implies a[m].0 != k by {
                assert(b[m].0 != k);
            }
            assert(a[j].0 == b[j].0);
            assert(first_key(a, k, j));
        }
    }
}

pub proof fn lemma_lookup_push(a: Seq<(Seq<char>, JsonV)>, p: (Seq<char>, JsonV))
    ensures
        forall|k: Seq<char>| k != p.0 ==> #[trigger] lookup(a.push(p), k) == lookup(a, k),
        (forall|m: int| 0 <= m < a.len() ==> a[m].0 != p.0) ==> lookup(a.push(p), p.0) == Some(p.1),
{
    let b = a.push(p);
    assert forall|k: Seq<char>| k != p.0 implies #[trigger] lookup(b, k) == lookup(a, k) by {
        if exists|j: int| first_key(a, k, j) {
            let j = choose|j: int| first_key(a, k, j);
            assert(first_key(b, k, j));
            lemma_lookup_at(a, k, j);
            lemma_lookup_at(b, k, j);
        } else if exists|j: int| first_key(b, k, j) {
            let j = choose|j: int| first_key(b, k, j);
            if j == a.len() {
                assert(b[j] == p);
            }
            assert forall|m: int| 0 <= m < j implies a[m].0 != k by {
                assert(a[m] == b[m]);
            }
            assert(a[j] == b[j]);
            assert(first_key(a, k, j));
        }
    }
    if forall|m: int| 0 <= m < a.len() ==> a[m].0 != p.0 {
        assert(first_key(b, p.0, a.len() as int));
        lemma_lookup_at(b, p.0, a.len() as int);
    }
}

/// `members` with member `key` set to `value`: replaced in place where present,
/// added at the end where not.
pub open spec fn put(members: Seq<(Seq<char>, JsonV)>, key: Seq<char>, value: JsonV) -> Seq<(Seq<char>, JsonV)> {
    if exists|i: int| first_key(members, key, i) {
        members.update(choose|i: int| first_key(members, key, i), (key, value))
    } else {
        members.push((key, value))
    }
}

/// A key that occurs has a first occurrence.
pub proof fn lemma_first_exists(members: Seq<(Seq<char>, JsonV)>, key: Seq<char>, m: int)
    requires
        0 <= m < members.len(),
        members[m].0 == key,
    ensures
        exists|i: int| first_key(members, key, i),
    decreases m,
{
    if exists|g: int| 0 <= g < m && members[g].0 == key {
        let g = choose|g: int| 0 <= g < m && members[g].0 == key;
        lemma_first_exists(members, key, g);
    } else {
        assert(first_key(members, key, m));
    }
}

pub proof fn lemma_put(members: Seq<(Seq<char>, JsonV)>, key: Seq<char>, value: JsonV)
    ensures
        lookup(put(members, key, value), key) == Some(value),
        forall|k: Seq<char>| k != key ==> #[trigger] lookup(put(members, key, value), k) == lookup(members, k),
{
    let after = put(members, key, value);
    if exists|i: int| first_key(members, key, i) {
        let i = choose|i: int| first_key(members, key, i);
        assert(first_key(after, key, i));
        lemma_lookup_at(after, key, i);
        lemma_lookup_update(after, members, i, key);
    } else {
        assert forall|m: int| 0 <= m < members.len() implies members[m].0 != key by {
            if members[m].0 == key {
                lemma_first_exists(members, key, m);
            }
        }
        lemma_lookup_push(members, (key, value));
    }
}

impl JsonV {
    /// The member `key` of an object; nothing for other values.
    pub open spec fn field(self, key: Seq<char>) -> Option<JsonV> {
        match self {
            JsonV::Object(pairs) => lookup(pairs, key),
            _ => None,
        }
    }

    pub open spec fn text(self) -> Option<Seq<char>> {
        match self {
            JsonV::Str(s) => Some(s),
            _ => None,
        }
    }

    pub open spec fn unsigned(self) -> Option<u64> {
        match self {
            JsonV::UInt(n) => Some(n),
            _ => None,
        }
    }

    pub open spec fn signed(self) -> Option<i64> {
        match self {
            JsonV::UInt(n) => if n <= i64::MAX {
                Some(n as i64)
            } else {
                None
            },
            JsonV::Int(n) => Some(n),
            _ => None,
        }
    }

    pub open spec fn boolean(self) -> Option<bool> {
        match self {
            JsonV::Bool(b) => Some(b),
            _ => None,
        }
    }

    /// `self[key]` as text.
    pub open spec fn text_at(self, key: Seq<char>) -> Option<Seq<char>> {
        match self.field(key) {
            Some(v) => v.text(),
            None => None,
        }
    }

    pub open spec fn unsigned_at(self, key: Seq<char>) -> Option<u64> {
        match self.field(key) {
            Some(v) => v.unsigned(),
            None => None,
        }
    }

    pub open spec fn signed_at(self, key: Seq<char>) -> Option<i64> {
        match self.field(key) {
            Some(v) => v.signed(),
            None => None,
        }
    }

    pub open spec fn boolean_at(self, key: Seq<char>) -> Option<bool> {
        match self.field(key) {
            Some(v) => v.boolean(),
            None => None,
        }
    }

    pub open spec fn is_obj(self) -> bool {
        self is Object
    }

    /// The members of an object, or none.
    pub open spec fn members(self) -> Seq<(Seq<char>, JsonV)> {
        match self {
            JsonV::Object(pairs) => pairs,
            _ => Seq::empty(),
        }
    }
}

/// The position of the first member named `key`, or the number of members.
fn find_key(pairs: &Vec<(String, Json)>, key: &str) -> (i: usize)
    ensures
        i <= pairs@.len(),
        i < pairs@.len() ==> pairs@[i as int].0@ == key@,
        forall|k: int| 0 <= k < i ==> pairs@[k].0@ != key@,
{
    let mut i: usize = 0;
    while i < pairs.len()
        invariant
            i <= pairs@.len(),
            forall|k: int| 0 <= k < i ==> pairs@[k].0@ != key@,
        decreases pairs.len() - i,
    {
        if crate::text::same(pairs[i].0.as_str(), key) {
            return i;
        }
        i = i + 1;
    }
    i
}

impl Json {
    /// The member `key` of an object.
    pub fn get(&self, key: &str) -> (r: Option<&Json>)
        ensures
            match r {
                Some(v) => self@.field(key@) == Some(v@),
                None => self@.field(key@) is None,
            },
    {
        match self {
            Json::Object(pairs) => {
                let i = find_key(pairs, key);
                proof {
                    let m = self@.members();
                    assert(m.len() == pairs@.len());
                    assert forall|k: int| 0 <= k < i implies m[k].0 != key@ by {
                        assert(m[k].0 == pairs@[k].0@);
                    }
                    if i < pairs@.len() {
                        assert(m[i as int].0 == pairs@[i as int].0@);
                        assert(first_key(m, key@, i as int));
                        lemma_lookup_at(m, key@, i as int);
                    }
                }
                if i < pairs.len() {
                    Some(&pairs[i].1)
                } else {
                    None
                }
            },
            _ => None,
        }
    }

    pub fn as_str(&self) -> (r: Option<&str>)
        ensures
            match r {
                Some(s) => self@.text() == Some(s@),
                None => self@.text() is None,
            },
    {
        match self {
            Json::Str(s) => Some(s.as_str()),
            _ => None,
        }
    }

    pub fn as_u64(&self) -> (r: Option<u64>)
        ensures
            r == self@.unsigned(),
    {
        match self {
            Json::UInt(n) => Some(*n),
            _ => None,
        }
    }

    pub fn as_i64(&self) -> (r: Option<i64>)
        ensures
            r == self@.signed(),
    {
        match self {
            Json::UInt(n) => if *n <= 9223372036854775807u64 {
                Some(*n as i64)
            } else {
                None
            },
            Json::Int(n) => Some(*n),
            _ => None,
        }
    }

    pub fn as_bool(&self) -> (r: Option<bool>)
        ensures
            r == self@.boolean(),
    {
        match self {
            Json::Bool(b) => Some(*b),
            _ => None,
        }
    }

    pub fn is_object(&self) -> (r: bool)
        ensures
            r == self@.is_obj(),
    {
        match self {
            Json::Object(_) => true,
            _ => false,
        }
    }

    pub fn str_at(&self, key: &str) -> (r: Option<&str>)
        ensures
            match r {
                Some(s) => self@.text_at(key@) == Some(s@),
                None => self@.text_at(key@) is None,
            },
    {
        match self.get(key) {
            Some(v) => v.as_str(),
            None => None,
        }
    }

    pub fn u64_at(&self, key: &str) -> (r: Option<u64>)
        ensures
            r == self@.unsigned_at(key@),
    {
        match self.get(key) {
            Some(v) => v.as_u64(),
            None => None,
        }
    }

    pub fn i64_at(&self, key: &str) -> (r: Option<i64>)
        ensures
            r == self@.signed_at(key@),
    {
        match self.get(key) {
            Some(v) => v.as_i64(),
            None => None,
        }
    }

    pub fn bool_at(&self, key: &str) -> (r: Option<bool>)
        ensures
            r == self@.boolean_at(key@),
    {
        match self.get(key) {
            Some(v) => v.as_bool(),
            None => None,
        }
    }

    /// A copy of `self`.
    pub fn copy(&self) -> (r: Json)
        ensures
            r@ == self@,
        decreases self,
    {
        match self {
            Json::Null => Json::Null,
            Json::Bool(b) => Json::Bool(*b),
            Json::UInt(n) => Json::UInt(*n),
            Json::Int(n) => Json::Int(*n),
            Json::Float(f) => Json::Float(*f),
            Json::Str(s) => Json::Str(s.clone()),
            Json::Array(items) => {
                let mut out: Vec<Json> = Vec::new();
                let mut i: usize = 0;
                while i < items.len()
                    invariant
                        i <= items@.len(),
                        out@.len() == i,
                        *self == Json::Array(*items),
                        forall|k: int| 0 <= k < i ==> out@[k]@ == items@[k]@,
                    decreases items.len() - i,
                {
                    proof {
                        assert(decreases_to!(*self => (*self)->Array_0));
                        assert(decreases_to!(*items => items@));
                        assert(decreases_to!(items@ => items@[i as int]));
                    }
                    out.push(items[i].copy());
                    i = i + 1;
                }
                let r = Json::Array(out);
                assert(r@ =~= self@) by {
                    if let JsonV::Array(a) = r@ {
                        if let JsonV::Array(b) = self@ {
                            assert(a =~= b);
                        }
                    }
                }
                r
            },
            Json::Object(pairs) => {
                let mut out: Vec<(String, Json)> = Vec::new();
                let mut i: usize = 0;
                while i < pairs.len()
                    invariant
                        i <= pairs@.len(),
                        out@.len() == i,
                        *self == Json::Object(*pairs),
                        forall|k: int| 0 <= k < i ==> out@[k].0@ == pairs@[k].0@ && out@[k].1@ == pairs@[k].1@,
                    decreases pairs.len() - i,
                {
                    let key = pairs[i].0.clone();
                    proof {
                        assert(decreases_to!(*self => (*self)->Object_0));
                        assert(decreases_to!(*pairs => pairs@));
                        assert(decreases_to!(pairs@ => pairs@[i as int]));
                        assert(decreases_to!(pairs@[i as int] => pairs@[i as int].1));
                    }
                    let value = pairs[i].1.copy();
                    out.push((key, value));
                    i = i + 1;
                }
                let r = Json::Object(out);
                assert(r@ =~= self@) by {
                    if let JsonV::Object(a) = r@ {
                        if let JsonV::Object(b) = self@ {
                            assert(a =~= b);
                        }
                    }
                }
                r
            },
        }
    }

    /// An empty object.
    pub fn object() -> (r: Json)
        ensures
            r@ == JsonV::Object(Seq::empty()),
    {
        let r = Json::Object(Vec::new());
        assert(r@ =~= JsonV::Object(Seq::empty())) by {
            if let JsonV::Object(a) = r@ {
                assert(a =~= Seq::empty());
            }
        }
        r
    }

    pub fn string(s: &str) -> (r: Json)
        ensures
            r@ == JsonV::Str(s@),
    {
        Json::Str(owned(s))
    }

    /// Sets member `key` of an object to `value`, replacing any earlier value;
    /// other members keep their values. Other values become an object first.
    pub fn set(&mut self, key: &str, value: Json)
        ensures
            final(self)@ == JsonV::Object(put(old(self)@.members(), key@, value@)),
            final(self)@.field(key@) == Some(value@),
            forall|k: Seq<char>| k != key@ ==> #[trigger] final(self)@.field(k) == lookup(old(self)@.members(), k),
    {
        let mut pairs = match self {
            Json::Object(p) => {
                let mut taken: Vec<(String, Json)> = Vec::new();
                std::mem::swap(&mut taken, p);
                taken
            },
            _ => Vec::new(),
        };
        let ghost before = Json::Object(pairs)@.members();
        assert(before == old(self)@.members()) by {
            if old(self)@ is Object {
                assert(before =~= old(self)@.members());
            } else {
                assert(before =~= Seq::empty());
            }
        }
        let i = find_key(&pairs, key);
        if i < pairs.len() {
            let name = pairs[i].0.clone();
            let ghost value_v = value@;
            pairs.set(i, (name, value));
            proof {
                let after = Json::Object(pairs)@.members();
                assert(after.len() == before.len());
                assert forall|k: int| 0 <= k < i implies after[k].0 != key@ by {
                    assert(after[k].0 == pairs@[k].0@);
                }
                assert(after[i as int].0 == key@);
                assert(first_key(after, key@, i as int));
                lemma_lookup_at(after, key@, i as int);
                assert(after[i as int].1 == value_v);
                lemma_lookup_update(after, before, i as int, key@);
                assert forall|k: int| 0 <= k < i implies before[k].0 != key@ by {
                    assert(before[k].0 == after[k].0);
                }
                assert(first_key(before, key@, i as int));
                let c = choose|c: int| first_key(before, key@, c);
                if c < i {
                    assert(before[c].0 != key@);
                } else if i < c {
                    assert(before[i as int].0 != key@);
                }
                assert(after =~= put(before, key@, value_v));
                lemma_put(before, key@, value_v);
            }
        } else {
            let entry = (owned(key), value);
            let ghost old_pairs = pairs@;
            pairs.push(entry);
            proof {
                let after = Json::Object(pairs)@.members();
                let e = (key@, pairs@[i as int].1@);
                assert(after =~= before.push(e));
                assert forall|m: int| 0 <= m < before.len() implies before[m].0 != e.0 by {
                    assert(before[m].0 == old_pairs[m].0@);
                }
                lemma_lookup_push(before, e);
                assert(!exists|c: int| first_key(before, key@, c));
                assert(after =~= put(before, key@, e.1));
            }
        }
        *self = Json::Object(pairs);
    }

    /// An object: the members of `self` followed by `key: value`. The key is
    /// not looked for among the members already there.
    pub fn member(self, key: &str, value: Json) -> (r: Json)
        ensures
            r@ == JsonV::Object(self@.members().push((key@, value@))),
    {
        let ghost before = self@.members();
        let ghost v = value@;
        let mut pairs = match self {
            Json::Object(p) => p,
            _ => Vec::new(),
        };
        assert(Json::Object(pairs)@.members() =~= before) by {
            if !(self@ is Object) {
                assert(pairs@.len() == 0);
            }
        }
        let ghost old_pairs = pairs@;
        pairs.push((owned(key), value));
        let ghost pv = pairs@;
        assert(pv[pv.len() - 1].1@ == v);
        let r = Json::Object(pairs);
        assert(r@.members() =~= before.push((key@, v))) by {
            assert forall|i: int| 0 <= i < old_pairs.len() implies #[trigger] pv[i] == old_pairs[i] by {}
        }
        r
    }

    /// `self` with member `key` set to `value`.
    pub fn with(self, key: &str, value: Json) -> (r: Json)
        ensures
            r@ is Object,
            r@.field(key@) == Some(value@),
            forall|k: Seq<char>| k != key@ ==> #[trigger] r@.field(k) == lookup(self@.members(), k),
    {
        let mut r = self;
        r.set(key, value);
        r
    }
}

} // verus!
