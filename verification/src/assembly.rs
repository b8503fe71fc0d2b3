//! Reassembly of fragmented inbound protocol messages.

use vstd::prelude::*;
use crate::error::Error;
use crate::json::{Json, JsonV, first_key, lemma_lookup_at, lookup};
use crate::text::{append, owned, same};
use crate::wire::{byte_len, chunks, fit, lemma_fit_bounds};
use vstd::utf8::encode_utf8;

verus! {

/// The largest number of fragments a message may have.
pub const MAX_FRAGMENTS: u64 = 65536;

/// The largest number of messages under assembly at once.
pub const MAX_ASSEMBLIES: usize = 16;

/// How long an unfinished assembly is kept, in milliseconds.
pub const DEFAULT_FRAGMENT_TIMEOUT_MS: u64 = 30000;

/// The fragments of one message received so far.
pub struct Assembly {
    pub parts: Vec<Option<String>>,
    pub bytes: usize,
    pub created_ms: u64,
}

/// The mathematical value of an [`Assembly`].
pub struct AssemblyV {
    pub parts: Seq<Option<Seq<char>>>,
    pub bytes: nat,
    pub created_ms: u64,
}

/// The text of each part, where it has arrived.
pub open spec fn part_views(parts: Seq<Option<String>>) -> Seq<Option<Seq<char>>> {
    Seq::new(parts.len(), |i: int| match parts[i] {
        Some(s) => Some(s@),
        None => None,
    })
}

impl View for Assembly {
    type V = AssemblyV;

    open spec fn view(&self) -> AssemblyV {
        AssemblyV { parts: part_views(self.parts@), bytes: self.bytes as nat, created_ms: self.created_ms }
    }
}

/// Fragmented messages under assembly, by fragment id.
pub struct Decoder {
    pub fragments: Vec<(String, Assembly)>,
    pub timeout_ms: u64,
}

/// What one inbound message amounts to.
pub enum Decoded {
    /// A complete protocol message.
    Ready(Json),
    /// A fragment of a message that is not complete yet.
    Pending,
    /// The text of a message whose last fragment arrived; once parsed it is
    /// checked with [`Decoder::finish`].
    Assembled(String),
}

/// What a message amounts to, or the reason it was refused.
pub enum Outcome {
    Ready(JsonV),
    Pending,
    Assembled(Seq<char>),
    Refused(Seq<char>),
}

/// The outcome that `r` reports.
pub open spec fn outcome(r: &Result<Decoded, Error>) -> Outcome {
    match r {
        Ok(Decoded::Ready(v)) => Outcome::Ready(v@),
        Ok(Decoded::Pending) => Outcome::Pending,
        Ok(Decoded::Assembled(s)) => Outcome::Assembled(s@),
        Err(e) => Outcome::Refused(e.message@),
    }
}

/// The assemblies of a decoder, as (id, assembly) in order.
pub open spec fn assemblies(d: &Decoder) -> Seq<(Seq<char>, AssemblyV)> {
    Seq::new(d.fragments@.len(), |i: int| (d.fragments@[i].0@, d.fragments@[i].1@))
}

/// The position of assembly `id`, or none.
pub open spec fn position(s: Seq<(Seq<char>, AssemblyV)>, id: Seq<char>) -> Option<int> {
    if exists|i: int| 0 <= i < s.len() && s[i].0 == id {
        Some(choose|i: int| 0 <= i < s.len() && s[i].0 == id)
    } else {
        None
    }
}

/// No id occurs twice.
pub open spec fn distinct_ids(s: Seq<(Seq<char>, AssemblyV)>) -> bool {
    forall|i: int, j: int| 0 <= i < s.len() && 0 <= j < s.len() && i != j ==> s[i].0 != s[j].0
}

/// The text of all parts, in order.
pub open spec fn joined(parts: Seq<Option<Seq<char>>>) -> Seq<char>
    decreases parts.len(),
{
    if parts.len() == 0 {
        Seq::empty()
    } else {
        joined(parts.drop_last()) + match parts.last() {
            Some(s) => s,
            None => Seq::empty(),
        }
    }
}

/// Every part has arrived.
pub open spec fn complete(parts: Seq<Option<Seq<char>>>) -> bool {
    forall|i: int| 0 <= i < parts.len() ==> #[trigger] parts[i] is Some
}

/// A new assembly of `total` parts begun at `now`.
pub open spec fn fresh(total: nat, now: u64) -> AssemblyV {
    AssemblyV { parts: Seq::new(total, |i: int| None), bytes: 0, created_ms: now }
}

/// The assembly after fragment `num` carrying `data` arrived; a repeated fragment changes nothing.
pub open spec fn with_part(a: AssemblyV, num: int, data: Seq<char>) -> AssemblyV {
    if a.parts[num] is None {
        AssemblyV { parts: a.parts.update(num, Some(data)), bytes: a.bytes + byte_len(data) as nat, created_ms: a.created_ms }
    } else {
        a
    }
}

/// An assembly begun at `created` is kept at `now` while it is younger than `timeout`.
pub open spec fn young(now: u64, timeout: u64) -> spec_fn((Seq<char>, AssemblyV)) -> bool {
    |e: (Seq<char>, AssemblyV)| (if now >= e.1.created_ms { now - e.1.created_ms } else { 0 }) < timeout
}

/// The assemblies kept at `now`.
pub open spec fn expired(s: Seq<(Seq<char>, AssemblyV)>, now: u64, timeout: u64) -> Seq<(Seq<char>, AssemblyV)> {
    s.filter(young(now, timeout))
}

/// Assembly `i` after it took its part `a`: dropped when the message is over
/// `limit` bytes or complete, kept otherwise.
pub open spec fn settle(t: Seq<(Seq<char>, AssemblyV)>, i: int, a: AssemblyV, limit: nat) -> (Outcome, Seq<(Seq<char>, AssemblyV)>) {
    if a.bytes > limit {
        (Outcome::Refused("assembled message too large"@), t.remove(i))
    } else if complete(a.parts) {
        (Outcome::Assembled(joined(a.parts)), t.remove(i))
    } else {
        (Outcome::Pending, t)
    }
}

/// What one message `v` amounts to against the assemblies `s`, and the assemblies after it.
pub open spec fn step(s: Seq<(Seq<char>, AssemblyV)>, v: JsonV, limit: nat, now: u64) -> (Outcome, Seq<(Seq<char>, AssemblyV)>) {
    if !v.is_obj() {
        (Outcome::Refused("message must be an object"@), s)
    } else if v.text_at("op"@) != Some("fragment"@) {
        (Outcome::Ready(v), s)
    } else if v.text_at("id"@) is None {
        (Outcome::Refused("fragment id is required"@), s)
    } else if v.unsigned_at("total"@) is None {
        (Outcome::Refused("fragment total is required"@), s)
    } else if v.unsigned_at("num"@) is None {
        (Outcome::Refused("fragment num is required"@), s)
    } else if v.text_at("data"@) is None {
        (Outcome::Refused("fragment data is required"@), s)
    } else {
        let id = v.text_at("id"@)->0;
        let total = v.unsigned_at("total"@)->0;
        let num = v.unsigned_at("num"@)->0;
        let data = v.text_at("data"@)->0;
        if !(0 < total <= MAX_FRAGMENTS && num < total) {
            (Outcome::Refused("invalid fragment indices"@), s)
        } else {
            match position(s, id) {
                None => if s.len() >= MAX_ASSEMBLIES {
                    (Outcome::Refused("too many fragment assemblies"@), s)
                } else {
                    let a = with_part(fresh(total as nat, now), num as int, data);
                    settle(s.push((id, a)), s.len() as int, a, limit)
                },
                Some(i) => if s[i].1.parts.len() != total {
                    (Outcome::Refused("fragment total changed"@), s)
                } else {
                    let a = with_part(s[i].1, num as int, data);
                    settle(s.update(i, (id, a)), i, a, limit)
                },
            }
        }
    }
}

/// The position of `id` among `list`, or its length.
fn find(list: &Vec<(String, Assembly)>, id: &str) -> (i: usize)
    ensures
        i <= list@.len(),
        i < list@.len() ==> list@[i as int].0@ == id@,
        forall|k: int| 0 <= k < i ==> list@[k].0@ != id@,
{
    let mut i: usize = 0;
    while i < list.len()
        invariant
            i <= list@.len(),
            forall|k: int| 0 <= k < i ==> list@[k].0@ != id@,
        decreases list.len() - i,
    {
        if same(list[i].0.as_str(), id) {
            return i;
        }
        i = i + 1;
    }
    i
}

/// Whether every part has arrived.
fn all_arrived(parts: &Vec<Option<String>>) -> (r: bool)
    ensures
        r == complete(part_views(parts@)),
{
    let mut i: usize = 0;
    while i < parts.len()
        invariant
            i <= parts@.len(),
            forall|k: int| 0 <= k < i ==> #[trigger] part_views(parts@)[k] is Some,
        decreases parts.len() - i,
    {
        if parts[i].is_none() {
            assert(!(part_views(parts@)[i as int] is Some));
            return false;
        }
        i = i + 1;
    }
    true
}

/// The text of all parts, in order.
fn join_parts(parts: &Vec<Option<String>>) -> (r: String)
    ensures
        r@ == joined(part_views(parts@)),
{
    let ghost views = part_views(parts@);
    let mut r = String::new();
    let mut i: usize = 0;
    while i < parts.len()
        invariant
            i <= parts@.len(),
            views == part_views(parts@),
            r@ == joined(views.take(i as int)),
        decreases parts.len() - i,
    {
        assert(views.take(i + 1).drop_last() == views.take(i as int));
        match &parts[i] {
            Some(s) => append(&mut r, s.as_str()),
            None => {},
        }
        i = i + 1;
    }
    assert(views.take(i as int) == views);
    r
}

/// A new assembly of `total` parts begun at `now_ms`.
fn new_assembly(total: usize, now_ms: u64) -> (a: Assembly)
    ensures
        a@ == fresh(total as nat, now_ms),
{
    let mut parts: Vec<Option<String>> = Vec::new();
    let mut i: usize = 0;
    while i < total
        invariant
            i <= total,
            parts@.len() == i,
            forall|k: int| 0 <= k < i ==> parts@[k] is None,
        decreases total - i,
    {
        parts.push(None);
        i = i + 1;
    }
    let a = Assembly { parts, bytes: 0, created_ms: now_ms };
    assert(a@.parts =~= fresh(total as nat, now_ms).parts);
    a
}

/// Records part `num`; false where the byte count would not fit in a `usize`.
fn add_part(a: &mut Assembly, num: usize, data: &str) -> (fits: bool)
    requires
        num < old(a).parts@.len(),
    ensures
        fits ==> final(a)@ == with_part(old(a)@, num as int, data@),
        !fits ==> with_part(old(a)@, num as int, data@).bytes > usize::MAX,
{
    if a.parts[num].is_some() {
        return true;
    }
    match a.bytes.checked_add(data.as_bytes().len()) {
        Some(b) => {
            let ghost before = a@;
            a.bytes = b;
            a.parts.set(num, Some(owned(data)));
            assert(a@.parts =~= before.parts.update(num as int, Some(data@)));
            true
        },
        None => false,
    }
}

impl Default for Decoder {
    /// A decoder that keeps unfinished messages for thirty seconds.
    fn default() -> (d: Decoder)
        ensures
            d.wf(),
            assemblies(&d).len() == 0,
            d.timeout_ms == DEFAULT_FRAGMENT_TIMEOUT_MS,
    {
        Decoder::with_timeout(DEFAULT_FRAGMENT_TIMEOUT_MS)
    }
}

impl Decoder {
    pub open spec fn wf(&self) -> bool {
        &&& distinct_ids(assemblies(self))
        &&& assemblies(self).len() <= MAX_ASSEMBLIES
    }

    /// A decoder that keeps unfinished messages for `timeout_ms` milliseconds.
    pub fn with_timeout(timeout_ms: u64) -> (d: Decoder)
        ensures
            d.wf(),
            assemblies(&d).len() == 0,
            d.timeout_ms == timeout_ms,
    {
        let d = Decoder { fragments: Vec::new(), timeout_ms };
        assert(assemblies(&d) =~= Seq::empty());
        d
    }

    /// Refuses a message of `size` bytes over `limit`.
    pub fn check_size(size: usize, limit: usize) -> (r: Result<(), Error>)
        ensures
            r is Ok <==> size <= limit,
            r matches Err(e) ==> e.message@ == "message too large"@,
    {
        if size <= limit {
            Ok(())
        } else {
            Err(Error::new("message too large"))
        }
    }

    /// Drops the assemblies begun `timeout_ms` or more before `now_ms`.
    pub fn expire(&mut self, now_ms: u64)
        requires
            old(self).wf(),
        ensures
            final(self).wf(),
            final(self).timeout_ms == old(self).timeout_ms,
            assemblies(final(self)) == expired(assemblies(old(self)), now_ms, old(self).timeout_ms),
    {
        let ghost before = assemblies(self);
        let ghost keep = young(now_ms, self.timeout_ms);
        let mut rest: Vec<(String, Assembly)> = Vec::new();
        std::mem::swap(&mut rest, &mut self.fragments);
        let mut kept: Vec<(String, Assembly)> = Vec::new();
        let ghost src = rest@;
        let ghost n = src.len();
        let mut i: usize = 0;
        while rest.len() > 0
            invariant
                n == src.len(),
                n <= usize::MAX,
                before.len() == n,
                forall|k: int| 0 <= k < n ==> (#[trigger] src[k].0@, src[k].1@) == before[k],
                i + rest@.len() == n,
                forall|k: int| 0 <= k < rest@.len() ==> #[trigger] rest@[k] == src[i + k],
                Seq::new(kept@.len(), |k: int| (kept@[k].0@, kept@[k].1@)) == before.take(i as int).filter(keep),
                keep == young(now_ms, self.timeout_ms),
                distinct_ids(before),
                distinct_ids(Seq::new(kept@.len(), |k: int| (kept@[k].0@, kept@[k].1@))),
                forall|k: int| 0 <= k < kept@.len() ==> exists|j: int| 0 <= j < i && #[trigger] kept@[k].0@ == before[j].0,
            decreases rest.len(),
        {
            let ghost kept_before = Seq::new(kept@.len(), |k: int| (kept@[k].0@, kept@[k].1@));
            let entry = rest.remove(0);
            assert(entry == src[i as int]);
            let ghost e = (entry.0@, entry.1@);
            assert(e == before[i as int]);
            assert(before.take(i + 1).drop_last() == before.take(i as int));
            assert(before.take(i + 1).last() == e);
            proof {
                reveal(Seq::filter);
            }
            let young_enough = now_ms.saturating_sub(entry.1.created_ms) < self.timeout_ms;
            assert(young_enough == keep(e));
            if young_enough {
                let ghost old_kept = kept@;
                kept.push(entry);
                assert(Seq::new(kept@.len(), |k: int| (kept@[k].0@, kept@[k].1@)) =~= kept_before.push(e));
                assert forall|k: int| 0 <= k < old_kept.len() implies #[trigger] old_kept[k].0@ != e.0 by {
                    let j = choose|j: int| 0 <= j < i && old_kept[k].0@ == before[j].0;
                    assert(before[j].0 != before[i as int].0);
                }
                assert forall|k: int| 0 <= k < kept@.len() implies exists|j: int| 0 <= j < i + 1 && #[trigger] kept@[k].0@ == before[j].0 by {
                    if k < old_kept.len() {
                        assert(kept@[k] == old_kept[k]);
                        let j = choose|j: int| 0 <= j < i && old_kept[k].0@ == before[j].0;
                        assert(0 <= j < i + 1 && kept@[k].0@ == before[j].0);
                    } else {
                        assert(kept@[k].0@ == before[i as int].0);
                    }
                }
            } else {
                assert(Seq::new(kept@.len(), |k: int| (kept@[k].0@, kept@[k].1@)) =~= kept_before);
            }
            i = i + 1;
        }
        assert(before.take(n as int) == before);
        self.fragments = kept;
        proof {
            let after = assemblies(self);
            assert(after =~= before.filter(keep));
            before.lemma_filter_len(keep);
        }
    }

    /// Takes one parsed message: a message that is not a fragment is ready as it
    /// is; a fragment is recorded, and the text of its message comes out once
    /// every fragment arrived. Assemblies begun `timeout_ms` before `now_ms` are
    /// dropped first; `limit` bounds the bytes of an assembled message.
    pub fn decode(&mut self, value: Json, limit: usize, now_ms: u64) -> (r: Result<Decoded, Error>)
        requires
            old(self).wf(),
        ensures
            final(self).wf(),
            final(self).timeout_ms == old(self).timeout_ms,
            ({
                let (out, s) = step(
                    expired(assemblies(old(self)), now_ms, old(self).timeout_ms),
                    value@,
                    limit as nat,
                    now_ms,
                );
                outcome(&r) == out && assemblies(final(self)) == s
            }),
    {
        self.expire(now_ms);
        let ghost s = assemblies(self);
        let ghost v = value@;
        if !value.is_object() {
            return Err(Error::new("message must be an object"));
        }
        let is_fragment = match value.str_at("op") {
            Some(op) => same(op, "fragment"),
            None => false,
        };
        if !is_fragment {
            return Ok(Decoded::Ready(value));
        }
        let id = match value.str_at("id") {
            Some(t) => owned(t),
            None => return Err(Error::new("fragment id is required")),
        };
        let total = match value.u64_at("total") {
            Some(n) => n,
            None => return Err(Error::new("fragment total is required")),
        };
        let num = match value.u64_at("num") {
            Some(n) => n,
            None => return Err(Error::new("fragment num is required")),
        };
        let data = match value.str_at("data") {
            Some(t) => owned(t),
            None => return Err(Error::new("fragment data is required")),
        };
        if !(total > 0 && total <= MAX_FRAGMENTS && num < total) {
            return Err(Error::new("invalid fragment indices"));
        }
        let i = find(&self.fragments, id.as_str());
        proof {
            if i < s.len() {
                assert(s[i as int].0 == id@);
                let c = choose|c: int| 0 <= c < s.len() && s[c].0 == id@;
                assert(c == i);
                assert(position(s, id@) == Some(i as int));
            } else {
                assert forall|k: int| 0 <= k < s.len() implies s[k].0 != id@ by {
                    assert(s[k].0 == self.fragments@[k].0@);
                }
                assert(position(s, id@) is None);
            }
        }
        if i == self.fragments.len() {
            if self.fragments.len() >= MAX_ASSEMBLIES {
                return Err(Error::new("too many fragment assemblies"));
            }
            let mut a = new_assembly(total as usize, now_ms);
            let fits = add_part(&mut a, num as usize, data.as_str());
            let ghost t = s.push((id@, a@));
            if !fits || a.bytes > limit {
                assert(t.remove(s.len() as int) =~= s);
                return Err(Error::new("assembled message too large"));
            }
            if all_arrived(&a.parts) {
                assert(t.remove(s.len() as int) =~= s);
                return Ok(Decoded::Assembled(join_parts(&a.parts)));
            }
            self.fragments.push((id, a));
            assert(assemblies(self) =~= t);
            Ok(Decoded::Pending)
        } else {
            if self.fragments[i].1.parts.len() as u64 != total {
                return Err(Error::new("fragment total changed"));
            }
            let (name, mut a) = self.fragments.remove(i);
            let fits = add_part(&mut a, num as usize, data.as_str());
            let ghost t = s.update(i as int, (id@, a@));
            assert(assemblies(self) =~= t.remove(i as int));
            if !fits || a.bytes > limit {
                return Err(Error::new("assembled message too large"));
            }
            if all_arrived(&a.parts) {
                return Ok(Decoded::Assembled(join_parts(&a.parts)));
            }
            self.fragments.insert(i, (name, a));
            assert(assemblies(self) =~= t);
            Ok(Decoded::Pending)
        }
    }

    /// Checks the message that a completed assembly held, once parsed.
    pub fn finish(value: Json) -> (r: Result<Json, Error>)
        ensures
            r is Ok <==> value@.is_obj() && value@.text_at("op"@) != Some("fragment"@),
            r matches Ok(v) ==> v@ == value@,
            r matches Err(e) ==> e.message@ == "invalid assembled operation"@,
    {
        let ok = value.is_object() && match value.str_at("op") {
            Some(op) => !same(op, "fragment"),
            None => true,
        };
        if ok {
            Ok(value)
        } else {
            Err(Error::new("invalid assembled operation"))
        }
    }
}


/// The text of every part, in order.
pub open spec fn whole(parts: Seq<Seq<char>>) -> Seq<char> {
    joined(Seq::new(parts.len(), |j: int| Some(parts[j])))
}

/// The fragment message that carries part `num` of the `total` parts of message
/// `id`, with the members that `frame_text` writes.
pub open spec fn fragment_value(data: Seq<char>, id: Seq<char>, num: nat, total: nat) -> JsonV {
    JsonV::Object(seq![
        ("data"@, JsonV::Str(data)),
        ("id"@, JsonV::Str(id)),
        ("num"@, JsonV::UInt(num as u64)),
        ("op"@, JsonV::Str("fragment"@)),
        ("total"@, JsonV::UInt(total as u64)),
    ])
}

/// The outcomes of the messages `msgs` taken one after another from the
/// assemblies `s`, and the assemblies after the last.
pub open spec fn run(s: Seq<(Seq<char>, AssemblyV)>, msgs: Seq<JsonV>, limit: nat, now: u64) -> (Seq<Outcome>, Seq<(Seq<char>, AssemblyV)>)
    decreases msgs.len(),
{
    if msgs.len() == 0 {
        (Seq::empty(), s)
    } else {
        let (outs, t) = run(s, msgs.drop_last(), limit, now);
        let (o, u) = step(t, msgs.last(), limit, now);
        (outs.push(o), u)
    }
}

/// `order` lists each of `0 .. n` exactly once.
pub open spec fn permutation(order: Seq<int>, n: int) -> bool {
    &&& order.len() == n
    &&& forall|i: int| 0 <= i < n ==> 0 <= #[trigger] order[i] < n
    &&& forall|i: int, j: int| 0 <= i < n && 0 <= j < n && i != j ==> order[i] != order[j]
    &&& forall|j: int| 0 <= j < n ==> #[trigger] listed(order, n, j)
}

/// `j` occurs among the first `n` entries of `order`.
pub open spec fn listed(order: Seq<int>, n: int, j: int) -> bool {
    exists|i: int| 0 <= i < n && order[i] == j
}

/// The fragments of the message `id` cut into `parts`, sent in the order `order`.
pub open spec fn shuffled(parts: Seq<Seq<char>>, id: Seq<char>, order: Seq<int>) -> Seq<JsonV> {
    Seq::new(order.len(), |i: int| fragment_value(parts[order[i]], id, order[i] as nat, parts.len()))
}

/// The parts that the first `m` fragments of `order` carried.
pub open spec fn placed(parts: Seq<Seq<char>>, order: Seq<int>, m: int) -> Seq<Option<Seq<char>>> {
    Seq::new(parts.len(), |j: int| if exists|i: int| 0 <= i < m && order[i] == j { Some(parts[j]) } else { None })
}

pub open spec fn partial(parts: Seq<Seq<char>>, order: Seq<int>, m: int, now: u64) -> AssemblyV {
    AssemblyV { parts: placed(parts, order, m), bytes: byte_len(joined(placed(parts, order, m))) as nat, created_ms: now }
}

proof fn lemma_byte_len_add(a: Seq<char>, b: Seq<char>)
    ensures
        byte_len(a + b) == byte_len(a) + byte_len(b),
    decreases a.len(),
{
    if a.len() == 0 {
        assert(a + b =~= b);
    } else {
        lemma_byte_len_add(a.drop_first(), b);
        assert((a + b).drop_first() =~= a.drop_first() + b);
        assert((a + b)[0] == a[0]);
        assert(encode_utf8(a + b) == vstd::utf8::encode_scalar(a[0] as u32) + encode_utf8(a.drop_first() + b));
    }
}

proof fn lemma_joined_add(a: Seq<Option<Seq<char>>>, b: Seq<Option<Seq<char>>>)
    ensures
        joined(a + b) == joined(a) + joined(b),
    decreases b.len(),
{
    if b.len() == 0 {
        assert(a + b =~= a);
        assert(joined(a) + joined(b) =~= joined(a));
    } else {
        lemma_joined_add(a, b.drop_last());
        assert((a + b).drop_last() =~= a + b.drop_last());
        assert((a + b).last() == b.last());
    }
}

proof fn lemma_joined_single(x: Option<Seq<char>>)
    ensures
        joined(seq![x]) == match x { Some(t) => t, None => Seq::<char>::empty() },
{
    assert(seq![x].drop_last() =~= Seq::<Option<Seq<char>>>::empty());
    assert(joined(Seq::<Option<Seq<char>>>::empty()) == Seq::<char>::empty());
    assert(joined(seq![x]) =~= match x { Some(t) => t, None => Seq::<char>::empty() });
}

/// Filling an empty slot adds the bytes of its text.
proof fn lemma_fill(p: Seq<Option<Seq<char>>>, j: int, x: Seq<char>)
    requires
        0 <= j < p.len(),
        p[j] is None,
    ensures
        byte_len(joined(p.update(j, Some(x)))) == byte_len(joined(p)) + byte_len(x),
{
    let a = p.take(j);
    let c = p.skip(j + 1);
    assert(p =~= a + seq![p[j]] + c);
    assert(p.update(j, Some(x)) =~= a + seq![Some(x)] + c);
    lemma_joined_add(a + seq![p[j]], c);
    lemma_joined_add(a, seq![p[j]]);
    lemma_joined_add(a + seq![Some(x)], c);
    lemma_joined_add(a, seq![Some(x)]);
    lemma_joined_single(p[j]);
    lemma_joined_single(Some(x));
    assert(joined(a) + Seq::<char>::empty() =~= joined(a));
    lemma_byte_len_add(joined(a), joined(c));
    lemma_byte_len_add(joined(a) + x, joined(c));
    lemma_byte_len_add(joined(a), x);
}

/// Nothing has arrived: no bytes.
proof fn lemma_joined_none(n: nat)
    ensures
        joined(Seq::new(n, |j: int| None::<Seq<char>>)) == Seq::<char>::empty(),
    decreases n,
{
    if n > 0 {
        let p = Seq::new(n, |j: int| None::<Seq<char>>);
        lemma_joined_none((n - 1) as nat);
        assert(p.drop_last() =~= Seq::new((n - 1) as nat, |j: int| None::<Seq<char>>));
    }
}

/// Parts that are a subset of others take no more bytes.
proof fn lemma_joined_mono(p: Seq<Option<Seq<char>>>, q: Seq<Option<Seq<char>>>)
    requires
        p.len() == q.len(),
        forall|j: int| 0 <= j < p.len() ==> p[j] is None || p[j] == q[j],
    ensures
        byte_len(joined(p)) <= byte_len(joined(q)),
    decreases p.len(),
{
    if p.len() > 0 {
        lemma_joined_mono(p.drop_last(), q.drop_last());
        let tp = match p.last() { Some(t) => t, None => Seq::<char>::empty() };
        let tq = match q.last() { Some(t) => t, None => Seq::<char>::empty() };
        lemma_byte_len_add(joined(p.drop_last()), tp);
        lemma_byte_len_add(joined(q.drop_last()), tq);
        assert(byte_len(Seq::<char>::empty()) == 0);
    }
}

proof fn lemma_fragment_fields(data: Seq<char>, id: Seq<char>, num: nat, total: nat)
    requires
        num <= u64::MAX,
        total <= u64::MAX,
    ensures
        fragment_value(data, id, num, total).is_obj(),
        fragment_value(data, id, num, total).text_at("op"@) == Some("fragment"@),
        fragment_value(data, id, num, total).text_at("id"@) == Some(id),
        fragment_value(data, id, num, total).text_at("data"@) == Some(data),
        fragment_value(data, id, num, total).unsigned_at("num"@) == Some(num as u64),
        fragment_value(data, id, num, total).unsigned_at("total"@) == Some(total as u64),
{
    reveal_strlit("data");
    reveal_strlit("id");
    reveal_strlit("num");
    reveal_strlit("op");
    reveal_strlit("total");
    let v = fragment_value(data, id, num, total);
    let m = v.members();
    assert("data"@.len() == 4 && "id"@.len() == 2 && "num"@.len() == 3 && "op"@.len() == 2 && "total"@.len() == 5);
    assert("data"@ != "id"@ && "data"@ != "num"@ && "data"@ != "op"@ && "data"@ != "total"@);
    assert("id"@[0] != "op"@[0]);
    assert("id"@ != "num"@ && "id"@ != "op"@ && "id"@ != "total"@);
    assert("num"@ != "op"@ && "num"@ != "total"@);
    assert("op"@ != "total"@);
    assert(first_key(m, "data"@, 0));
    assert(first_key(m, "id"@, 1));
    assert(first_key(m, "num"@, 2));
    assert(first_key(m, "op"@, 3));
    assert(first_key(m, "total"@, 4));
    lemma_lookup_at(m, "data"@, 0);
    lemma_lookup_at(m, "id"@, 1);
    lemma_lookup_at(m, "num"@, 2);
    lemma_lookup_at(m, "op"@, 3);
    lemma_lookup_at(m, "total"@, 4);
}

/// Before the last fragment: the first `m` fragments leave the message pending.
proof fn lemma_run_prefix(
    s: Seq<(Seq<char>, AssemblyV)>,
    id: Seq<char>,
    parts: Seq<Seq<char>>,
    order: Seq<int>,
    limit: nat,
    now: u64,
    m: int,
)
    requires
        forall|k: int| 0 <= k < s.len() ==> s[k].0 != id,
        s.len() < MAX_ASSEMBLIES,
        0 < parts.len() <= MAX_FRAGMENTS,
        permutation(order, parts.len() as int),
        byte_len(whole(parts)) <= limit,
        0 <= m <= parts.len(),
    ensures
        ({
            let (outs, t) = run(s, shuffled(parts, id, order).take(m), limit, now);
            &&& outs.len() == m
            &&& m < parts.len() ==> (forall|i: int| 0 <= i < m ==> outs[i] == Outcome::Pending)
            &&& m < parts.len() ==> t == (if m == 0 { s } else { s.push((id, partial(parts, order, m, now))) })
            &&& m == parts.len() ==> (forall|i: int| 0 <= i < m - 1 ==> outs[i] == Outcome::Pending)
            &&& m == parts.len() ==> outs[m - 1] == Outcome::Assembled(whole(parts))
            &&& m == parts.len() ==> t == s
        }),
    decreases m,
{
    let n = parts.len() as int;
    let msgs = shuffled(parts, id, order);
    if m == 0 {
        assert(msgs.take(0) =~= Seq::<JsonV>::empty());
    } else {
        lemma_run_prefix(s, id, parts, order, limit, now, m - 1);
        let k = m - 1;
        assert(msgs.take(m).drop_last() =~= msgs.take(k));
        assert(msgs.take(m).last() == msgs[k]);
        let (outs0, t) = run(s, msgs.take(k), limit, now);
        let j = order[k];
        let data = parts[j];
        lemma_fragment_fields(data, id, j as nat, n as nat);
        let v = msgs[k];
        assert(v == fragment_value(data, id, j as nat, n as nat));
        let before = if k == 0 { fresh(n as nat, now) } else { partial(parts, order, k, now) };
        let a = with_part(before, j, data);
        let after = partial(parts, order, m, now);
        // The slot of this fragment is still empty, and filling it gives the next partial assembly.
        assert(before.parts.len() == n);
        assert(before.parts[j] is None) by {
            if k > 0 {
                if exists|i: int| 0 <= i < k && order[i] == j {
                    let i = choose|i: int| 0 <= i < k && order[i] == j;
                    assert(order[i] != order[k]);
                }
            }
        }
        assert(a.parts =~= after.parts) by {
            assert forall|q: int| 0 <= q < n implies #[trigger] a.parts[q] == after.parts[q] by {
                if q == j {
                    assert(0 <= k < m && order[k] == q);
                } else if exists|i: int| 0 <= i < m && order[i] == q {
                    let i = choose|i: int| 0 <= i < m && order[i] == q;
                    assert(i != k);
                    if k > 0 {
                        assert(0 <= i < k && order[i] == q);
                    }
                } else if k > 0 {
                    assert(!exists|i: int| 0 <= i < k && order[i] == q);
                }
            }
        }
        if k == 0 {
            lemma_joined_none(n as nat);
            assert(before.parts =~= Seq::new(n as nat, |q: int| None::<Seq<char>>));
        }
        lemma_fill(before.parts, j, data);
        assert(a == after);
        // The message stays within the limit.
        let full = Seq::new(n as nat, |q: int| Some(parts[q]));
        lemma_joined_mono(after.parts, full);
        assert(a.bytes <= limit);
        // The message is complete exactly with its last fragment.
        if m < n {
            let missing = order[m];
            assert(a.parts[missing] is None) by {
                if exists|i: int| 0 <= i < m && order[i] == missing {
                    let i = choose|i: int| 0 <= i < m && order[i] == missing;
                    assert(order[i] != order[m]);
                }
            }
            assert(!complete(a.parts));
        } else {
            assert forall|q: int| 0 <= q < n implies #[trigger] a.parts[q] is Some by {
                assert(listed(order, n, q));
                let i = choose|i: int| 0 <= i < n && order[i] == q;
                assert(0 <= i < m && order[i] == q);
            }
            assert(a.parts =~= full);
        }
        // Where the assembly of `id` stands.
        if k == 0 {
            assert(t == s);
            assert(!exists|i: int| 0 <= i < s.len() && s[i].0 == id);
            assert(position(s, id) is None);
            assert(s.push((id, a)).remove(s.len() as int) =~= s);
        } else {
            let tt = s.push((id, before));
            assert(t == tt);
            assert(tt[s.len() as int].0 == id);
            let i = choose|i: int| 0 <= i < tt.len() && tt[i].0 == id;
            assert(i == s.len()) by {
                if i < s.len() {
                    assert(tt[i] == s[i]);
                }
            }
            assert(position(tt, id) == Some(s.len() as int));
            assert(tt.update(s.len() as int, (id, a)) =~= s.push((id, a)));
            assert(s.push((id, a)).remove(s.len() as int) =~= s);
        }
    }
}

/// Fragments of one message reassemble, in whatever order they arrive, into
/// the text of all its parts in order: every fragment but the last is pending,
/// the last gives the whole text, and no assembly is left behind.
pub proof fn lemma_fragments_reassemble(
    s: Seq<(Seq<char>, AssemblyV)>,
    id: Seq<char>,
    parts: Seq<Seq<char>>,
    order: Seq<int>,
    limit: nat,
    now: u64,
)
    requires
        forall|k: int| 0 <= k < s.len() ==> s[k].0 != id,
        s.len() < MAX_ASSEMBLIES,
        0 < parts.len() <= MAX_FRAGMENTS,
        permutation(order, parts.len() as int),
        byte_len(whole(parts)) <= limit,
    ensures
        ({
            let (outs, after) = run(s, shuffled(parts, id, order), limit, now);
            &&& outs.len() == parts.len()
            &&& forall|i: int| 0 <= i < parts.len() - 1 ==> outs[i] == Outcome::Pending
            &&& outs[parts.len() - 1] == Outcome::Assembled(whole(parts))
            &&& after == s
        }),
{
    let msgs = shuffled(parts, id, order);
    lemma_run_prefix(s, id, parts, order, limit, now, parts.len() as int);
    assert(msgs.take(parts.len() as int) =~= msgs);
}

/// The chunks that a text is cut into for fragmentation join back into the text.
pub proof fn lemma_chunks_rejoin(cs: Seq<char>, limit: int)
    requires
        chunks(cs, limit) is Some,
    ensures
        whole(chunks(cs, limit)->0) == cs,
    decreases cs.len(),
{
    if cs.len() == 0 {
        assert(whole(Seq::<Seq<char>>::empty()) =~= Seq::<char>::empty()) by {
            assert(Seq::new(0, |j: int| Some(Seq::<Seq<char>>::empty()[j])) =~= Seq::<Option<Seq<char>>>::empty());
        }
    } else {
        let k = fit(cs, limit);
        lemma_fit_bounds(cs, limit);
        let rest = chunks(cs.skip(k), limit)->0;
        lemma_chunks_rejoin(cs.skip(k), limit);
        let p = seq![cs.take(k)] + rest;
        assert(chunks(cs, limit)->0 == p);
        let whole_p = Seq::new(p.len(), |j: int| Some(p[j]));
        let whole_rest = Seq::new(rest.len(), |j: int| Some(rest[j]));
        assert(whole_p =~= seq![Some(cs.take(k))] + whole_rest);
        lemma_joined_add(seq![Some(cs.take(k))], whole_rest);
        lemma_joined_single(Some(cs.take(k)));
        assert(cs.take(k) + cs.skip(k) =~= cs);
    }
}

/// A text cut into fragments for sending reassembles into the same text on
/// the receiving side, whatever order its fragments arrive in.
pub proof fn lemma_fragmented_text_reassembles(
    s: Seq<(Seq<char>, AssemblyV)>,
    id: Seq<char>,
    text: Seq<char>,
    fragment: int,
    order: Seq<int>,
    limit: nat,
    now: u64,
)
    requires
        forall|k: int| 0 <= k < s.len() ==> s[k].0 != id,
        s.len() < MAX_ASSEMBLIES,
        chunks(text, fragment) is Some,
        0 < (chunks(text, fragment)->0).len() <= MAX_FRAGMENTS,
        permutation(order, (chunks(text, fragment)->0).len() as int),
        byte_len(text) <= limit,
    ensures
        ({
            let parts = chunks(text, fragment)->0;
            let (outs, after) = run(s, shuffled(parts, id, order), limit, now);
            &&& outs.len() == parts.len()
            &&& forall|i: int| 0 <= i < parts.len() - 1 ==> outs[i] == Outcome::Pending
            &&& outs[parts.len() - 1] == Outcome::Assembled(text)
            &&& after == s
        }),
{
    lemma_chunks_rejoin(text, fragment);
    lemma_fragments_reassemble(s, id, chunks(text, fragment)->0, order, limit, now);
}

} // verus!
