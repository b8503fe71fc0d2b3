//! QoS values and interface names shared by the protocol and the ROS backend.

use vstd::prelude::*;
use crate::error::Error;
use crate::json::{Json, JsonV};
use crate::text::{
    append, eq_ignore_case, is_next, is_word, is_word_char, lemma_next_index, owned, pieces,
    push_char, same, same_ignoring_case, split, split_at_char, views, word,
};

verus! {

/// A ROS entity: publisher, subscription, client or service.
pub type Entity = u64;

/// A QoS profile in the numeric policy values of `rmw_qos_profile_t`
/// (0: system default; history 1 keep last, 2 keep all; reliability 1 reliable,
/// 2 best effort, 4 best available; durability 1 transient local, 2 volatile,
/// 4 best available). Durations are `(seconds, nanoseconds)`.
#[derive(Clone, Copy, Debug, PartialEq, Eq)]
pub struct Qos {
    pub history: u32,
    pub depth: usize,
    pub reliability: u32,
    pub durability: u32,
    pub deadline: (u64, u64),
    pub lifespan: (u64, u64),
}

pub open spec fn zero_qos() -> Qos {
    Qos { history: 0, depth: 0, reliability: 0, durability: 0, deadline: (0, 0), lifespan: (0, 0) }
}

impl Default for Qos {
    fn default() -> (q: Qos)
        ensures
            q == zero_qos(),
    {
        Qos { history: 0, depth: 0, reliability: 0, durability: 0, deadline: (0, 0), lifespan: (0, 0) }
    }
}

/// The duration that stands for "infinite".
pub open spec fn infinite() -> (u64, u64) {
    (9223372036, 854775807)
}

/// The deadline that stands for "best available".
pub open spec fn best_available_deadline() -> (u64, u64) {
    (9223372036, 854775806)
}

/// The unit to which IEEE binary64 rounds an integer the size of `n`.
pub open spec fn double_unit(n: u64) -> int {
    if n < 0x20_0000_0000_0000 { 1 }
    else if n < 0x40_0000_0000_0000 { 2 }
    else if n < 0x80_0000_0000_0000 { 4 }
    else if n < 0x100_0000_0000_0000 { 8 }
    else if n < 0x200_0000_0000_0000 { 16 }
    else if n < 0x400_0000_0000_0000 { 32 }
    else if n < 0x800_0000_0000_0000 { 64 }
    else if n < 0x1000_0000_0000_0000 { 128 }
    else if n < 0x2000_0000_0000_0000 { 256 }
    else if n < 0x4000_0000_0000_0000 { 512 }
    else if n < 0x8000_0000_0000_0000 { 1024 }
    else { 2048 }
}

/// `n` as the nearest IEEE binary64 value, ties to even (`n as f64`).
pub open spec fn to_double(n: u64) -> int {
    let p = double_unit(n);
    let q = n as int / p;
    let r = n as int % p;
    if 2 * r > p || (2 * r == p && q % 2 == 1) {
        (q + 1) * p
    } else {
        q * p
    }
}

pub fn rounded_double(n: u64) -> (r: u128)
    ensures
        r == to_double(n),
{
    let p: u64 = if n < 0x20_0000_0000_0000 { 1 }
        else if n < 0x40_0000_0000_0000 { 2 }
        else if n < 0x80_0000_0000_0000 { 4 }
        else if n < 0x100_0000_0000_0000 { 8 }
        else if n < 0x200_0000_0000_0000 { 16 }
        else if n < 0x400_0000_0000_0000 { 32 }
        else if n < 0x800_0000_0000_0000 { 64 }
        else if n < 0x1000_0000_0000_0000 { 128 }
        else if n < 0x2000_0000_0000_0000 { 256 }
        else if n < 0x4000_0000_0000_0000 { 512 }
        else if n < 0x8000_0000_0000_0000 { 1024 }
        else { 2048 };
    assert(p == double_unit(n));
    let q: u64 = n / p;
    let r: u64 = n % p;
    assert(q * p <= n) by (nonlinear_arith)
        requires
            q == n / p,
            p > 0,
    ;
    assert((q + 1) * p <= n as int + p) by (nonlinear_arith)
        requires
            q == n / p,
            p > 0,
    ;
    if 2 * (r as u128) > p as u128 || (2 * (r as u128) == p as u128 && q % 2 == 1) {
        (q as u128 + 1) * (p as u128)
    } else {
        (q as u128) * (p as u128)
    }
}

/// A JSON value read as a nonnegative duration `(seconds, nanoseconds)`:
/// "infinite" in any letter case, a number of seconds, or `{"secs", "nsecs"}`;
/// or why it is not one.
pub open spec fn spec_duration(v: JsonV) -> Result<(u64, u64), Seq<char>> {
    match v {
        JsonV::Str(s) => if same_ignoring_case(s, "infinite"@) {
            Ok(infinite())
        } else {
            secs_nsecs(v)
        },
        JsonV::UInt(n) => if to_double(n) < 0x1_0000_0000_0000_0000 {
            Ok((to_double(n) as u64, 0))
        } else {
            Err("invalid duration"@)
        },
        JsonV::Int(_) => Err("invalid duration"@),
        JsonV::Float(f) => match f.seconds {
            Some((s, ns)) => if ns < 1_000_000_000 {
                Ok((s, ns as u64))
            } else {
                Err("invalid duration"@)
            },
            None => Err("invalid duration"@),
        },
        _ => secs_nsecs(v),
    }
}

/// `{"secs": s, "nsecs": n}` with whole seconds carried out of `n`.
pub open spec fn secs_nsecs(v: JsonV) -> Result<(u64, u64), Seq<char>> {
    match (v.unsigned_at("secs"@), v.unsigned_at("nsecs"@)) {
        (Some(s), Some(n)) => if s + n / 1_000_000_000 <= u64::MAX {
            Ok(((s + n / 1_000_000_000) as u64, n % 1_000_000_000))
        } else {
            Err("duration overflow"@)
        },
        _ => Err("duration requires nonnegative secs and nsecs"@),
    }
}

fn duration(v: &Json) -> (r: Result<(u64, u64), Error>)
    ensures
        match r {
            Ok(d) => spec_duration(v@) == Ok::<(u64, u64), Seq<char>>(d),
            Err(e) => spec_duration(v@) == Err::<(u64, u64), Seq<char>>(e.message@),
        },
{
    if let Some(s) = v.as_str() {
        if eq_ignore_case(s, "infinite") {
            return Ok((9223372036, 854775807));
        }
    }
    match v {
        Json::UInt(n) => {
            let d = rounded_double(*n);
            if d < 0x1_0000_0000_0000_0000u128 {
                return Ok((d as u64, 0));
            }
            return Err(Error::new("invalid duration"));
        },
        Json::Int(_) => {
            return Err(Error::new("invalid duration"));
        },
        Json::Float(f) => {
            return match f.seconds {
                Some((s, ns)) => if ns < 1_000_000_000 {
                    Ok((s, ns as u64))
                } else {
                    Err(Error::new("invalid duration"))
                },
                None => Err(Error::new("invalid duration")),
            };
        },
        _ => {},
    }
    let secs = v.u64_at("secs");
    let nanos = v.u64_at("nsecs");
    match (secs, nanos) {
        (Some(s), Some(n)) => match s.checked_add(n / 1_000_000_000) {
            Some(total) => Ok((total, n % 1_000_000_000)),
            None => Err(Error::new("duration overflow")),
        },
        _ => Err(Error::new("duration requires nonnegative secs and nsecs")),
    }
}

/// The value of policy name `name` among `names`, ignoring ASCII case.
pub open spec fn spec_policy(name: Seq<char>, names: Seq<(Seq<char>, u32)>) -> Option<u32>
    decreases names.len(),
{
    if names.len() == 0 {
        None
    } else if same_ignoring_case(names[0].0, name) {
        Some(names[0].1)
    } else {
        spec_policy(name, names.drop_first())
    }
}

pub open spec fn history_names() -> Seq<(Seq<char>, u32)> {
    seq![("keep_last"@, 1u32), ("keep_all"@, 2u32)]
}

pub open spec fn reliability_names() -> Seq<(Seq<char>, u32)> {
    seq![("reliable"@, 1u32), ("best_effort"@, 2u32), ("best_available"@, 4u32)]
}

pub open spec fn durability_names() -> Seq<(Seq<char>, u32)> {
    seq![("transient_local"@, 1u32), ("volatile"@, 2u32), ("best_available"@, 4u32)]
}

/// QoS policies are named as ROS names them, in any ASCII case, and read as
/// the values of `rmw`: history `keep_last` 1 and `keep_all` 2; reliability
/// `reliable` 1, `best_effort` 2 and `best_available` 4; durability
/// `transient_local` 1, `volatile` 2 and `best_available` 4.
pub proof fn lemma_policy_names(s: Seq<char>)
    ensures
        same_ignoring_case("keep_last"@, s) ==> spec_policy(s, history_names()) == Some(1u32),
        same_ignoring_case("keep_all"@, s) ==> spec_policy(s, history_names()) == Some(2u32),
        same_ignoring_case("reliable"@, s) ==> spec_policy(s, reliability_names()) == Some(1u32),
        same_ignoring_case("best_effort"@, s) ==> spec_policy(s, reliability_names()) == Some(2u32),
        same_ignoring_case("best_available"@, s) ==> spec_policy(s, reliability_names()) == Some(4u32),
        same_ignoring_case("transient_local"@, s) ==> spec_policy(s, durability_names()) == Some(1u32),
        same_ignoring_case("volatile"@, s) ==> spec_policy(s, durability_names()) == Some(2u32),
        same_ignoring_case("best_available"@, s) ==> spec_policy(s, durability_names()) == Some(4u32),
{
    reveal_strlit("keep_last");
    reveal_strlit("keep_all");
    reveal_strlit("reliable");
    reveal_strlit("best_effort");
    reveal_strlit("best_available");
    reveal_strlit("transient_local");
    reveal_strlit("volatile");
    reveal_with_fuel(spec_policy, 4);
    let h = history_names();
    let r = reliability_names();
    let d = durability_names();
    assert(h.drop_first() =~= seq![("keep_all"@, 2u32)]);
    assert(r.drop_first() =~= seq![("best_effort"@, 2u32), ("best_available"@, 4u32)]);
    assert(r.drop_first().drop_first() =~= seq![("best_available"@, 4u32)]);
    assert(d.drop_first() =~= seq![("volatile"@, 2u32), ("best_available"@, 4u32)]);
    assert(d.drop_first().drop_first() =~= seq![("best_available"@, 4u32)]);
}

/// The value of a policy given by name, or why it is not one.
pub open spec fn policy_of(v: JsonV, names: Seq<(Seq<char>, u32)>) -> Result<u32, Seq<char>> {
    match v.text() {
        Some(s) => match spec_policy(s, names) {
            Some(p) => Ok(p),
            None => Err("invalid QoS policy: "@ + s),
        },
        None => Err("QoS policy must be a string"@),
    }
}

pub open spec fn policy_table(names: Seq<(&str, u32)>) -> Seq<(Seq<char>, u32)> {
    names.map_values(|n: (&str, u32)| (n.0@, n.1))
}

fn policy(v: &Json, names: &[(&str, u32)]) -> (r: Result<u32, Error>)
    ensures
        match r {
            Ok(p) => policy_of(v@, policy_table(names@)) == Ok::<u32, Seq<char>>(p),
            Err(e) => policy_of(v@, policy_table(names@)) == Err::<u32, Seq<char>>(e.message@),
        },
{
    let ghost table = policy_table(names@);
    assert(table.skip(0) =~= table);
    let name = match v.as_str() {
        Some(s) => s,
        None => {
            return Err(Error::new("QoS policy must be a string"));
        },
    };
    let mut i: usize = 0;
    while i < names.len()
        invariant
            i <= names@.len(),
            table == policy_table(names@),
            v@.text() == Some(name@),
            spec_policy(name@, table) == spec_policy(name@, table.skip(i as int)),
        decreases names.len() - i,
    {
        assert(table.skip(i as int).drop_first() =~= table.skip(i + 1));
        assert(table.skip(i as int)[0] == (names@[i as int].0@, names@[i as int].1));
        if eq_ignore_case(names[i].0, name) {
            assert(table.skip(i as int).len() > 0);
            assert(spec_policy(name@, table.skip(i as int)) == Some(names@[i as int].1));
            return Ok(names[i].1);
        }
        i = i + 1;
    }
    assert(table.skip(i as int).len() == 0);
    Err(Error::with("invalid QoS policy: ", name))
}

fn history(v: &Json) -> (r: Result<u32, Error>)
    ensures
        match r {
            Ok(p) => policy_of(v@, history_names()) == Ok::<u32, Seq<char>>(p),
            Err(e) => policy_of(v@, history_names()) == Err::<u32, Seq<char>>(e.message@),
        },
{
    let names = [("keep_last", 1u32), ("keep_all", 2u32)];
    assert(policy_table(names@) =~= history_names());
    policy(v, &names)
}

fn reliability(v: &Json) -> (r: Result<u32, Error>)
    ensures
        match r {
            Ok(p) => policy_of(v@, reliability_names()) == Ok::<u32, Seq<char>>(p),
            Err(e) => policy_of(v@, reliability_names()) == Err::<u32, Seq<char>>(e.message@),
        },
{
    let names = [("reliable", 1u32), ("best_effort", 2u32), ("best_available", 4u32)];
    assert(policy_table(names@) =~= reliability_names());
    policy(v, &names)
}

fn durability(v: &Json) -> (r: Result<u32, Error>)
    ensures
        match r {
            Ok(p) => policy_of(v@, durability_names()) == Ok::<u32, Seq<char>>(p),
            Err(e) => policy_of(v@, durability_names()) == Err::<u32, Seq<char>>(e.message@),
        },
{
    let names = [("transient_local", 1u32), ("volatile", 2u32), ("best_available", 4u32)];
    assert(policy_table(names@) =~= durability_names());
    policy(v, &names)
}

/// One member of a `qos` object applied to `q`, or why it cannot be.
pub open spec fn qos_member(q: Qos, key: Seq<char>, v: JsonV) -> Result<Qos, Seq<char>> {
    if key == "history"@ {
        match policy_of(v, history_names()) {
            Ok(p) => Ok(Qos { history: p, ..q }),
            Err(e) => Err(e),
        }
    } else if key == "reliability"@ {
        match policy_of(v, reliability_names()) {
            Ok(p) => Ok(Qos { reliability: p, ..q }),
            Err(e) => Err(e),
        }
    } else if key == "durability"@ {
        match policy_of(v, durability_names()) {
            Ok(p) => Ok(Qos { durability: p, ..q }),
            Err(e) => Err(e),
        }
    } else if key == "depth"@ {
        match v.unsigned() {
            Some(n) => if n <= usize::MAX {
                Ok(Qos { depth: n as usize, ..q })
            } else {
                Err("out of range integral type conversion attempted"@)
            },
            None => Err("depth must be a nonnegative integer"@),
        }
    } else if key == "deadline"@ {
        if v.text() matches Some(s) && same_ignoring_case(s, "best_available"@) {
            Ok(Qos { deadline: best_available_deadline(), ..q })
        } else {
            match spec_duration(v) {
                Ok(d) => Ok(Qos { deadline: d, ..q }),
                Err(e) => Err(e),
            }
        }
    } else if key == "lifespan"@ {
        match spec_duration(v) {
            Ok(d) => Ok(Qos { lifespan: d, ..q }),
            Err(e) => Err(e),
        }
    } else {
        Err("unknown QoS field: "@ + key)
    }
}

/// The members of a `qos` object applied in order, or the error of the first that fails.
pub open spec fn qos_members(q: Qos, members: Seq<(Seq<char>, JsonV)>) -> Result<Qos, Seq<char>>
    decreases members.len(),
{
    if members.len() == 0 {
        Ok(q)
    } else {
        match qos_member(q, members[0].0, members[0].1) {
            Ok(next) => qos_members(next, members.drop_first()),
            Err(e) => Err(e),
        }
    }
}

/// Both durations of `q` hold fewer than a second of nanoseconds.
pub open spec fn durations_normal(q: Qos) -> bool {
    q.deadline.1 < 1_000_000_000 && q.lifespan.1 < 1_000_000_000
}

/// Every duration read into a profile carries fewer than a second of nanoseconds.
pub proof fn lemma_qos_members_normal(q: Qos, members: Seq<(Seq<char>, JsonV)>)
    requires
        durations_normal(q),
    ensures
        qos_members(q, members) matches Ok(r) ==> durations_normal(r),
    decreases members.len(),
{
    if members.len() > 0 {
        if let Ok(next) = qos_member(q, members[0].0, members[0].1) {
            lemma_qos_members_normal(next, members.drop_first());
        }
    }
}

/// A `qos` object read over the all-zero profile, or why it cannot be.
pub open spec fn spec_qos(v: JsonV) -> Result<Qos, Seq<char>> {
    match v {
        JsonV::Object(members) => qos_members(zero_qos(), members),
        _ => Err("qos must be an object"@),
    }
}

impl Qos {
    /// Keep last 100, reliable, transient local.
    pub fn publisher() -> (q: Qos)
        ensures
            q == (Qos { history: 1, depth: 100, reliability: 1, durability: 1, ..zero_qos() }),
    {
        Qos { history: 1, depth: 100, reliability: 1, durability: 1, deadline: (0, 0), lifespan: (0, 0) }
    }

    /// Keep last 10, best effort, volatile.
    pub fn subscriber() -> (q: Qos)
        ensures
            q == (Qos { history: 1, depth: 10, reliability: 2, durability: 2, ..zero_qos() }),
    {
        Qos { history: 1, depth: 10, reliability: 2, durability: 2, deadline: (0, 0), lifespan: (0, 0) }
    }

    /// Keep last 10, reliable, volatile.
    pub fn service() -> (q: Qos)
        ensures
            q == (Qos { history: 1, depth: 10, reliability: 1, durability: 2, ..zero_qos() }),
    {
        Qos { history: 1, depth: 10, reliability: 1, durability: 2, deadline: (0, 0), lifespan: (0, 0) }
    }

    /// Reads a `qos` object: members `history`, `reliability`, `durability`
    /// (policy names in any letter case), `depth`, `deadline` and `lifespan`,
    /// each over the all-zero profile; any other member is refused.
    pub fn parse(value: &Json) -> (r: Result<Qos, Error>)
        ensures
            match r {
                Ok(q) => spec_qos(value@) == Ok::<Qos, Seq<char>>(q),
                Err(e) => spec_qos(value@) == Err::<Qos, Seq<char>>(e.message@),
            },
            r matches Ok(q) ==> durations_normal(q),
    {
        proof {
            if let JsonV::Object(m) = value@ {
                lemma_qos_members_normal(zero_qos(), m);
            }
        }
        let pairs = match value {
            Json::Object(pairs) => pairs,
            _ => {
                return Err(Error::new("qos must be an object"));
            },
        };
        let ghost members = value@.members();
        let mut q = Qos::default();
        assert(members.skip(0) =~= members);
        let mut i: usize = 0;
        while i < pairs.len()
            invariant
                i <= pairs@.len(),
                *value == Json::Object(*pairs),
                members == value@.members(),
                members.len() == pairs@.len(),
                qos_members(zero_qos(), members) == qos_members(q, members.skip(i as int)),
            decreases pairs.len() - i,
        {
            let key = pairs[i].0.as_str();
            let v = &pairs[i].1;
            assert(members[i as int] == (key@, v@));
            assert(members.skip(i as int).drop_first() == members.skip(i + 1));
            assert(members.skip(i as int)[0] == members[i as int]);
            let ghost q0 = q;
            if same(key, "history") {
                match history(v) {
                    Ok(p) => q.history = p,
                    Err(e) => return Err(e),
                }
            } else if same(key, "reliability") {
                match reliability(v) {
                    Ok(p) => q.reliability = p,
                    Err(e) => return Err(e),
                }
            } else if same(key, "durability") {
                match durability(v) {
                    Ok(p) => q.durability = p,
                    Err(e) => return Err(e),
                }
            } else if same(key, "depth") {
                match v.as_u64() {
                    Some(n) => {
                        if n <= usize::MAX as u64 {
                            q.depth = n as usize;
                        } else {
                            return Err(Error::new("out of range integral type conversion attempted"));
                        }
                    },
                    None => {
                        return Err(Error::new("depth must be a nonnegative integer"));
                    },
                }
            } else if same(key, "deadline") && v.as_str().is_some() && eq_ignore_case(v.as_str().unwrap(), "best_available") {
                q.deadline = (9223372036, 854775806);
            } else if same(key, "deadline") {
                match duration(v) {
                    Ok(d) => q.deadline = d,
                    Err(e) => return Err(e),
                }
            } else if same(key, "lifespan") {
                match duration(v) {
                    Ok(d) => q.lifespan = d,
                    Err(e) => return Err(e),
                }
            } else {
                return Err(Error::with("unknown QoS field: ", key));
            }
            assert(qos_member(q0, key@, v@) == Ok::<Qos, Seq<char>>(q));
            i = i + 1;
        }
        Ok(q)
    }
}

/// A word holds no `/`.
proof fn lemma_word_has_no_slash(w: Seq<char>, k: int)
    requires
        is_word(w),
        0 <= k < w.len(),
    ensures
        w[k] != '/',
{
    assert(is_word_char(w[k]));
}

/// Three words joined by `/` split back into them.
pub(crate) proof fn lemma_split_three(a: Seq<char>, b: Seq<char>, c: Seq<char>)
    requires
        is_word(a),
        is_word(b),
        is_word(c),
    ensures
        split_at_char(a + seq!['/'] + b + seq!['/'] + c, '/') == seq![a, b, c],
{
    let s = a + seq!['/'] + b + seq!['/'] + c;
    let i = a.len() as int;
    let j = i + 1 + b.len();
    assert(s[i] == '/');
    assert(s[j] == '/');
    assert forall|k: int| 0 <= k < i implies s[k] != '/' by {
        assert(s[k] == a[k]);
        lemma_word_has_no_slash(a, k);
    }
    assert forall|k: int| i + 1 <= k < j implies s[k] != '/' by {
        assert(s[k] == b[k - i - 1]);
        lemma_word_has_no_slash(b, k - i - 1);
    }
    assert forall|k: int| j + 1 <= k < s.len() implies s[k] != '/' by {
        assert(s[k] == c[k - j - 1]);
        lemma_word_has_no_slash(c, k - j - 1);
    }
    assert(is_next(s, '/', 0, i));
    lemma_next_index(s, '/', 0, i);
    assert(is_next(s, '/', i + 1, j));
    lemma_next_index(s, '/', i + 1, j);
    assert(is_next(s, '/', j + 1, s.len() as int));
    lemma_next_index(s, '/', j + 1, s.len() as int);
    assert(s.subrange(0, i) =~= a);
    assert(s.subrange(i + 1, j) =~= b);
    assert(s.subrange(j + 1, s.len() as int) =~= c);
    assert(pieces(s, '/', j + 1) == seq![c]);
    assert(pieces(s, '/', i + 1) =~= seq![b, c]);
    assert(pieces(s, '/', 0) =~= seq![a, b, c]);
}

/// A normalized interface name normalizes to itself.
pub proof fn lemma_interface_name_idempotent(name: Seq<char>, category: Seq<char>)
    requires
        spec_interface_name(name, category) is Some,
    ensures
        spec_interface_name(spec_interface_name(name, category)->Some_0, category) == spec_interface_name(name, category),
{
    let q = interface_parts(name, category)->Some_0;
    let package = if category == "srv"@ && q[0] == "rosapi"@ { "rosapi_msgs"@ } else { q[0] };
    assert(is_word(package)) by {
        if category == "srv"@ && q[0] == "rosapi"@ {
            reveal_strlit("rosapi_msgs");
            assert forall|k: int| 0 <= k < package.len() implies is_word_char(#[trigger] package[k]) by {}
        }
    }
    assert(q[1] == category) by {
        let p = split_at_char(name, '/');
        if p.len() == 2 {
            assert(q == seq![p[0], category, p[1]]);
        }
    }
    lemma_split_three(package, q[1], q[2]);
    let out = package + seq!['/'] + q[1] + seq!['/'] + q[2];
    assert(interface_parts(out, category) == Some(seq![package, q[1], q[2]]));
    assert(category == "srv"@ ==> package != "rosapi"@) by {
        reveal_strlit("rosapi");
        reveal_strlit("rosapi_msgs");
        if category == "srv"@ && q[0] == "rosapi"@ {
            assert(package.len() != "rosapi"@.len());
        }
    }
}

/// The three parts `package/category/name` of an interface name, given as
/// `package/name` or `package/category/name`.
pub open spec fn interface_parts(name: Seq<char>, category: Seq<char>) -> Option<Seq<Seq<char>>> {
    let p = split_at_char(name, '/');
    if p.len() == 2 {
        Some(seq![p[0], category, p[1]])
    } else if p.len() == 3 && p[1] == category {
        Some(p)
    } else {
        None
    }
}

/// The full interface name `package/category/name`; the ROS 1 package `rosapi`
/// of a service stands for `rosapi_msgs`.
pub open spec fn spec_interface_name(name: Seq<char>, category: Seq<char>) -> Option<Seq<char>> {
    match interface_parts(name, category) {
        Some(q) => if is_word(q[0]) && is_word(q[1]) && is_word(q[2]) {
            let package = if category == "srv"@ && q[0] == "rosapi"@ {
                "rosapi_msgs"@
            } else {
                q[0]
            };
            Some(package + seq!['/'] + q[1] + seq!['/'] + q[2])
        } else {
            None
        },
        None => None,
    }
}

/// Why an interface name is refused.
pub open spec fn interface_error(name: Seq<char>, category: Seq<char>) -> Seq<char> {
    if interface_parts(name, category) is None {
        "invalid "@ + category + " type: "@ + name
    } else {
        "invalid interface type"@
    }
}

/// Normalizes an interface name of `category` (`msg`, `srv` or `action`) to
/// `package/category/name`.
pub fn interface_name(name: &str, category: &str) -> (r: Result<String, Error>)
    ensures
        match r {
            Ok(s) => spec_interface_name(name@, category@) == Some(s@),
            Err(e) => spec_interface_name(name@, category@) is None
                && e.message@ == interface_error(name@, category@),
        },
{
    let parts = split(name, '/');
    let ghost p = split_at_char(name@, '/');
    assert(views(parts@) == p);
    let (a, b, c) = if parts.len() == 2 {
        assert(parts@[0]@ == p[0] && parts@[1]@ == p[1]);
        (parts[0].as_str(), category, parts[1].as_str())
    } else if parts.len() == 3 && same(parts[1].as_str(), category) {
        assert(parts@[0]@ == p[0] && parts@[1]@ == p[1] && parts@[2]@ == p[2]);
        (parts[0].as_str(), parts[1].as_str(), parts[2].as_str())
    } else {
        if parts.len() == 3 {
            assert(parts@[1]@ == p[1]);
        }
        let mut e = Error::around("invalid ", category, " type: ");
        append(&mut e.message, name);
        return Err(e);
    };
    let ghost q = interface_parts(name@, category@).unwrap();
    assert(q == seq![a@, b@, c@]);
    if !(word(a) && word(b) && word(c)) {
        return Err(Error::new("invalid interface type"));
    }
    let package = if same(category, "srv") && same(a, "rosapi") {
        "rosapi_msgs"
    } else {
        a
    };
    let mut r = owned(package);
    push_char(&mut r, '/');
    append(&mut r, b);
    push_char(&mut r, '/');
    append(&mut r, c);
    Ok(r)
}

} // verus!

verus! {

/// A message received from ROS in the three forms that clients may ask for.
pub struct RosMessage {
    pub json: Json,
    pub cbor: crate::cbor::Cbor,
    /// The serialized (CDR) bytes.
    pub raw: Vec<u8>,
    /// The receive time `(seconds, nanoseconds)`.
    pub stamp: (i64, u32),
}

impl RosMessage {
    pub fn copy(&self) -> (r: RosMessage)
        ensures
            r.json@ == self.json@,
            r.cbor@ == self.cbor@,
            r.raw@ == self.raw@,
            r.stamp == self.stamp,
    {
        RosMessage { json: self.json.copy(), cbor: self.cbor.copy(), raw: self.raw.clone(), stamp: self.stamp }
    }
}

/// What the ROS side reports.
pub enum Event {
    /// A message on a subscription.
    Message(Entity, RosMessage),
    /// A request to a service that a client offers.
    Request { entity: Entity, request: u64, args: Json },
    /// The reply to a request made through a client entity.
    Response { entity: Entity, sequence: i64, values: Json },
}

/// A call handed to a [`Backend`]: what it was given and, where it gives
/// something back, what that was (`None` for an error).
pub enum Handed {
    Publisher(Seq<char>, Seq<char>, Option<Entity>),
    Subscription(Seq<char>, Seq<char>, Option<Entity>),
    Client(Seq<char>, Seq<char>, Option<Entity>),
    Service(Seq<char>, Seq<char>, Option<Entity>),
    Publish(Entity, JsonV),
    Request(Entity, JsonV, Option<i64>),
    Respond(Entity, u64, JsonV),
    Discard(Entity, u64),
    Destroy(Entity),
    Poll(Option<Seq<Event>>),
    Topics(Option<Seq<(Seq<char>, Seq<Seq<char>>)>>),
    Services(Option<Seq<(Seq<char>, Seq<Seq<char>>)>>),
    PublisherQos(Seq<char>),
    Now(i64, u32),
}

/// An outcome without its error.
pub open spec fn outcome<T>(r: Result<T, Error>) -> Option<T> {
    match r {
        Ok(v) => Some(v),
        Err(_) => None,
    }
}

/// A graph listing as names and their types.
pub open spec fn listing(g: Seq<(String, Vec<String>)>) -> Seq<(Seq<char>, Seq<Seq<char>>)> {
    Seq::new(g.len(), |i: int| (g[i].0@, crate::text::views(g[i].1@)))
}

/// A graph read without its error.
pub open spec fn read_outcome(r: Result<Vec<(String, Vec<String>)>, Error>) -> Option<Seq<(Seq<char>, Seq<Seq<char>>)>> {
    match r {
        Ok(v) => Some(listing(v@)),
        Err(_) => None,
    }
}

/// Dropping what was just pushed gives the sequence back.
pub broadcast proof fn lemma_push_drop_last<A>(s: Seq<A>, x: A)
    ensures
        #[trigger] s.push(x).drop_last() == s,
{
    assert(s.push(x).drop_last() =~= s);
}

/// The replies handed to `respond`, in order: the service, the request and
/// the reply.
pub open spec fn responded(h: Seq<Handed>) -> Seq<(Entity, u64, JsonV)>
    decreases h.len(),
{
    if h.len() == 0 {
        Seq::empty()
    } else {
        let rest = responded(h.drop_last());
        match h.last() {
            Handed::Respond(e, r, v) => rest.push((e, r, v)),
            _ => rest,
        }
    }
}

/// The entities handed to `destroy`, in order.
pub open spec fn destroyed_of(h: Seq<Handed>) -> Seq<Entity>
    decreases h.len(),
{
    if h.len() == 0 {
        Seq::empty()
    } else {
        let rest = destroyed_of(h.drop_last());
        match h.last() {
            Handed::Destroy(e) => rest.push(e),
            _ => rest,
        }
    }
}

/// The messages handed to `publish`, in order: the publisher and the message.
pub open spec fn published_of(h: Seq<Handed>) -> Seq<(Entity, JsonV)>
    decreases h.len(),
{
    if h.len() == 0 {
        Seq::empty()
    } else {
        let rest = published_of(h.drop_last());
        match h.last() {
            Handed::Publish(e, m) => rest.push((e, m)),
            _ => rest,
        }
    }
}

/// The requests handed to `request`, in order: the client and the request.
pub open spec fn requested_of(h: Seq<Handed>) -> Seq<(Entity, JsonV)>
    decreases h.len(),
{
    if h.len() == 0 {
        Seq::empty()
    } else {
        let rest = requested_of(h.drop_last());
        match h.last() {
            Handed::Request(e, a, _) => rest.push((e, a)),
            _ => rest,
        }
    }
}

/// The entities asked for, in order: each name and interface type.
pub open spec fn asked_of(h: Seq<Handed>) -> Seq<(Seq<char>, Seq<char>)>
    decreases h.len(),
{
    if h.len() == 0 {
        Seq::empty()
    } else {
        let rest = asked_of(h.drop_last());
        match h.last() {
            Handed::Publisher(n, t, _) => rest.push((n, t)),
            Handed::Subscription(n, t, _) => rest.push((n, t)),
            Handed::Client(n, t, _) => rest.push((n, t)),
            Handed::Service(n, t, _) => rest.push((n, t)),
            _ => rest,
        }
    }
}

/// The entities created, in order.
pub open spec fn created_of(h: Seq<Handed>) -> Seq<Entity>
    decreases h.len(),
{
    if h.len() == 0 {
        Seq::empty()
    } else {
        let rest = created_of(h.drop_last());
        match h.last() {
            Handed::Publisher(_, _, Some(e)) => rest.push(e),
            Handed::Subscription(_, _, Some(e)) => rest.push(e),
            Handed::Client(_, _, Some(e)) => rest.push(e),
            Handed::Service(_, _, Some(e)) => rest.push(e),
            _ => rest,
        }
    }
}

/// The events that polling reported, in order.
pub open spec fn polled_of(h: Seq<Handed>) -> Seq<Event>
    decreases h.len(),
{
    if h.len() == 0 {
        Seq::empty()
    } else {
        let rest = polled_of(h.drop_last());
        match h.last() {
            Handed::Poll(Some(evs)) => rest + evs,
            _ => rest,
        }
    }
}

/// The readings of the clock, in order.
pub open spec fn clocks_of(h: Seq<Handed>) -> Seq<(i64, u32)>
    decreases h.len(),
{
    if h.len() == 0 {
        Seq::empty()
    } else {
        let rest = clocks_of(h.drop_last());
        match h.last() {
            Handed::Now(sec, nanosec) => rest.push((sec, nanosec)),
            _ => rest,
        }
    }
}

/// Each record of what was handed is that of the calls before the last,
/// with what the last one adds.
pub proof fn lemma_handed(h: Seq<Handed>)
    ensures
        h.len() > 0 ==> responded(h) == (match h.last() {
            Handed::Respond(e, r, v) => responded(h.drop_last()).push((e, r, v)),
            _ => responded(h.drop_last()),
        }),
        h.len() > 0 ==> destroyed_of(h) == (match h.last() {
            Handed::Destroy(e) => destroyed_of(h.drop_last()).push(e),
            _ => destroyed_of(h.drop_last()),
        }),
        h.len() > 0 ==> published_of(h) == (match h.last() {
            Handed::Publish(e, m) => published_of(h.drop_last()).push((e, m)),
            _ => published_of(h.drop_last()),
        }),
        h.len() > 0 ==> requested_of(h) == (match h.last() {
            Handed::Request(e, a, _) => requested_of(h.drop_last()).push((e, a)),
            _ => requested_of(h.drop_last()),
        }),
        h.len() > 0 ==> asked_of(h) == (match h.last() {
            Handed::Publisher(n, t, _) => asked_of(h.drop_last()).push((n, t)),
            Handed::Subscription(n, t, _) => asked_of(h.drop_last()).push((n, t)),
            Handed::Client(n, t, _) => asked_of(h.drop_last()).push((n, t)),
            Handed::Service(n, t, _) => asked_of(h.drop_last()).push((n, t)),
            _ => asked_of(h.drop_last()),
        }),
        h.len() > 0 ==> created_of(h) == (match h.last() {
            Handed::Publisher(_, _, Some(e)) => created_of(h.drop_last()).push(e),
            Handed::Subscription(_, _, Some(e)) => created_of(h.drop_last()).push(e),
            Handed::Client(_, _, Some(e)) => created_of(h.drop_last()).push(e),
            Handed::Service(_, _, Some(e)) => created_of(h.drop_last()).push(e),
            _ => created_of(h.drop_last()),
        }),
        h.len() > 0 ==> clocks_of(h) == (match h.last() {
            Handed::Now(sec, nanosec) => clocks_of(h.drop_last()).push((sec, nanosec)),
            _ => clocks_of(h.drop_last()),
        }),
        h.len() > 0 ==> polled_of(h) == (match h.last() {
            Handed::Poll(Some(evs)) => polled_of(h.drop_last()) + evs,
            _ => polled_of(h.drop_last()),
        }),
{
}

/// The record of the calls handed to a backend. It is ghost: compiled code
/// never reads it.
pub type Record = Ghost<Seq<Handed>>;

/// A record for an implementation that Verus does not see; compiled code
/// never reads it, and what [`Backend`] states of it is believed of such an
/// implementation unchecked.
pub fn unread() -> (r: Record)
    ensures
        r@.len() == 0,
{
    Ghost(Seq::empty())
}

/// The ROS side of the bridge: entities are created, used and destroyed
/// through it. All of it is owned and used by the bridge's single worker.
/// Every call that changes it is recorded, in order, in [`Backend::handed`].
pub trait Backend {
    /// Every call handed to the backend so far, in order.
    spec fn handed(&self) -> Record;

    fn publisher(&mut self, name: &str, typ: &str, qos: Qos) -> (r: Result<Entity, Error>)
        ensures
            final(self).handed()@ == old(self).handed()@.push(Handed::Publisher(name@, typ@, outcome(r)));

    fn subscription(&mut self, name: &str, typ: &str, qos: Qos) -> (r: Result<Entity, Error>)
        ensures
            final(self).handed()@ == old(self).handed()@.push(Handed::Subscription(name@, typ@, outcome(r)));

    fn client(&mut self, name: &str, typ: &str) -> (r: Result<Entity, Error>)
        ensures
            final(self).handed()@ == old(self).handed()@.push(Handed::Client(name@, typ@, outcome(r)));

    fn service(&mut self, name: &str, typ: &str) -> (r: Result<Entity, Error>)
        ensures
            final(self).handed()@ == old(self).handed()@.push(Handed::Service(name@, typ@, outcome(r)));

    fn publish(&mut self, entity: Entity, message: &Json) -> (r: Result<(), Error>)
        ensures
            final(self).handed()@ == old(self).handed()@.push(Handed::Publish(entity, message@));

    fn request(&mut self, entity: Entity, args: &Json) -> (r: Result<i64, Error>)
        ensures
            final(self).handed()@ == old(self).handed()@.push(Handed::Request(entity, args@, outcome(r)));

    /// Checks a service response without sending it or consuming a request.
    fn validate_response(&self, entity: Entity, values: &Json) -> Result<(), Error>;

    fn respond(&mut self, entity: Entity, request: u64, values: &Json) -> (r: Result<(), Error>)
        ensures
            final(self).handed()@ == old(self).handed()@.push(Handed::Respond(entity, request, values@));

    fn discard_request(&mut self, entity: Entity, request: u64)
        ensures
            final(self).handed()@ == old(self).handed()@.push(Handed::Discard(entity, request));

    fn destroy(&mut self, entity: Entity)
        ensures
            final(self).handed()@ == old(self).handed()@.push(Handed::Destroy(entity));

    fn poll(&mut self) -> (r: Result<Vec<Event>, Error>)
        ensures
            final(self).handed()@ == old(self).handed()@.push(Handed::Poll(match r {
                Ok(v) => Some(v@),
                Err(_) => None,
            }));

    /// The topics of the ROS graph and their types, by name.
    fn topics(&mut self) -> (r: Result<Vec<(String, Vec<String>)>, Error>)
        ensures
            final(self).handed()@ == old(self).handed()@.push(Handed::Topics(read_outcome(r)));

    /// The services of the ROS graph and their types, by name.
    fn services(&mut self) -> (r: Result<Vec<(String, Vec<String>)>, Error>)
        ensures
            final(self).handed()@ == old(self).handed()@.push(Handed::Services(read_outcome(r)));

    fn publisher_qos(&mut self, topic: &str) -> (r: Result<Vec<Qos>, Error>)
        ensures
            final(self).handed()@ == old(self).handed()@.push(Handed::PublisherQos(topic@));

    /// The ROS clock `(seconds, nanoseconds)`.
    fn now(&mut self) -> (r: (i64, u32))
        ensures
            final(self).handed()@ == old(self).handed()@.push(Handed::Now(r.0, r.1));
}

} // verus!
