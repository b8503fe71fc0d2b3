//! Service advertisements, request correlation, and responses.

use vstd::prelude::*;
use super::{
    ActionCall, Bridge, Call, Connection, ExternalRequest, GoalRequest, Service, Writer, concat,
    connected, id, lemma_within_refl, lemma_within_remove, member_copy, name, name_of, required,
    member_or_null, required_of, same_tables, with_id, within,
};
use super::actions::goal_index;
use super::topics::millis;
use crate::access::service_check;
use crate::backend::{Backend, Entity, interface_name, to_double};
use crate::error::Error;
use crate::json::{Float, Json, JsonV};
use crate::text::{chars_of, owned, push_char, same};
use crate::wire::{Options, byte_len, char_width, fit, width};

verus! {

broadcast use crate::backend::lemma_push_drop_last;

/// The most bytes of a payload that a debug preview keeps.
pub const PREVIEW_LIMIT: usize = 4096;

/// The debug preview of a service payload: the start of its JSON text, at
/// most `PREVIEW_LIMIT` bytes and cut between characters, and whether
/// anything was left out. Text stops at the limit rather than growing with
/// the payload.
pub struct PayloadPreview {
    text: String,
    size: usize,
    truncated: bool,
}

impl View for PayloadPreview {
    type V = (Seq<char>, bool);

    closed spec fn view(&self) -> (Seq<char>, bool) {
        (self.text@, self.truncated)
    }
}

/// Appending a character adds its UTF-8 width to the byte length.
proof fn lemma_byte_len_push(s: Seq<char>, c: char)
    ensures
        byte_len(s.push(c)) == byte_len(s) + width(c),
    decreases s.len(),
{
    let t = s.push(c);
    assert(t.len() > 0);
    if s.len() == 0 {
        assert(t.drop_first() =~= Seq::<char>::empty());
        assert(t[0] == c);
        assert(vstd::utf8::encode_utf8(t.drop_first()) == Seq::<u8>::empty());
        assert(vstd::utf8::encode_utf8(s) == Seq::<u8>::empty());
    } else {
        lemma_byte_len_push(s.drop_first(), c);
        assert(t.drop_first() =~= s.drop_first().push(c));
        assert(t[0] == s[0]);
    }
    assert(vstd::utf8::encode_utf8(t) == vstd::utf8::encode_scalar(t[0] as u32) + vstd::utf8::encode_utf8(t.drop_first()));
}

impl PayloadPreview {
    /// The byte count kept beside the text is its UTF-8 length, within the limit.
    pub closed spec fn wf(&self) -> bool {
        &&& self.size == byte_len(self.text@)
        &&& self.size <= PREVIEW_LIMIT
    }

    /// Appends as much of `value` as fits within the limit, stopping before
    /// the first character that does not fit whole; an error tells that
    /// some of `value` was left out, and the preview is then marked truncated.
    pub fn write_str(&mut self, value: &str) -> (r: Result<(), ()>)
        requires
            old(self).wf(),
        ensures
            final(self).wf(),
            ({
                let k = fit(value@, PREVIEW_LIMIT - byte_len(old(self)@.0));
                &&& final(self)@.0 == old(self)@.0 + value@.take(k)
                &&& final(self)@.1 == (old(self)@.1 || k < value@.len())
                &&& (r is Ok <==> k == value@.len())
            }),
            byte_len(final(self)@.0) <= PREVIEW_LIMIT,
    {
        let cs = chars_of(value);
        let ghost budget = PREVIEW_LIMIT - self.size;
        let ghost start = self.text@;
        let mut j: usize = 0;
        let mut full = false;
        assert(cs@.skip(0) =~= cs@);
        assert(cs@.take(0) =~= Seq::<char>::empty());
        while j < cs.len() && !full
            invariant
                j <= cs@.len(),
                cs@ == value@,
                self.text@ == start + cs@.take(j as int),
                self.size == byte_len(self.text@),
                self.size <= PREVIEW_LIMIT,
                budget == PREVIEW_LIMIT - byte_len(start),
                fit(cs@, budget) == j + fit(cs@.skip(j as int), PREVIEW_LIMIT - self.size),
                full ==> j < cs@.len() && width(cs@[j as int]) > PREVIEW_LIMIT - self.size,
                self.truncated == old(self).truncated,
            decreases 2 * (cs.len() - j) + (if full { 0int } else { 1int }),
        {
            let w = char_width(cs[j]);
            assert(cs@.skip(j as int)[0] == cs@[j as int]);
            assert(cs@.skip(j as int).drop_first() =~= cs@.skip(j + 1));
            if w > PREVIEW_LIMIT - self.size {
                full = true;
            } else {
                proof {
                    lemma_byte_len_push(self.text@, cs@[j as int]);
                    assert(cs@.take(j + 1) =~= cs@.take(j as int).push(cs@[j as int]));
                }
                push_char(&mut self.text, cs[j]);
                self.size = self.size + w;
                j = j + 1;
            }
        }
        if full {
            assert(cs@.skip(j as int)[0] == cs@[j as int]);
            self.truncated = true;
            Err(())
        } else {
            assert(cs@.skip(j as int).len() == 0);
            Ok(())
        }
    }

    /// The text kept so far.
    pub fn text(&self) -> (r: &str)
        ensures
            r@ == self@.0,
    {
        self.text.as_str()
    }

    /// Whether some of the payload was left out.
    pub fn truncated(&self) -> (r: bool)
        ensures
            r == self@.1,
    {
        self.truncated
    }
}

impl Default for PayloadPreview {
    fn default() -> (r: PayloadPreview)
        ensures
            r.wf(),
            r@ == (Seq::<char>::empty(), false),
    {
        PayloadPreview { text: String::new(), size: 0, truncated: false }
    }
}

/// A float whose sign bit is set and that is not NaN.
pub open spec fn negative_float(f: Float) -> bool {
    if f.single {
        let exp = (f.bits / 0x80_0000) % 256;
        let mant = f.bits % 0x80_0000;
        (f.bits / 0x8000_0000) % 2 == 1 && !(exp == 255 && mant != 0)
    } else {
        let exp = (f.bits / 0x10_0000_0000_0000) % 2048;
        let mant = f.bits % 0x10_0000_0000_0000;
        f.bits / 0x8000_0000_0000_0000 == 1 && !(exp == 2047 && mant != 0)
    }
}

/// The error of a number of seconds that is no duration.
pub open spec fn duration_error(negative: bool) -> Seq<char> {
    if negative {
        "cannot convert float seconds to Duration: value is negative"@
    } else {
        "cannot convert float seconds to Duration: value is either too big or NaN"@
    }
}

/// The `timeout` member of a call, as `(seconds, nanoseconds)`; none where absent.
pub open spec fn call_timeout(v: JsonV) -> Result<Option<(u64, u64)>, Seq<char>> {
    match v.field("timeout"@) {
        None => Ok(None),
        Some(JsonV::UInt(n)) => if to_double(n) < 0x1_0000_0000_0000_0000 {
            Ok(Some((to_double(n) as u64, 0)))
        } else {
            Err(duration_error(false))
        },
        Some(JsonV::Int(_)) => Err(duration_error(true)),
        Some(JsonV::Float(f)) => match f.seconds {
            Some((s, ns)) => Ok(Some((s, ns as u64))),
            None => Err(duration_error(negative_float(f))),
        },
        Some(_) => Err("timeout must be a number"@),
    }
}

fn is_negative(f: Float) -> (r: bool)
    ensures
        r == negative_float(f),
{
    if f.single {
        let exp = (f.bits / 0x80_0000) % 256;
        let mant = f.bits % 0x80_0000;
        (f.bits / 0x8000_0000) % 2 == 1 && !(exp == 255 && mant != 0)
    } else {
        let exp = (f.bits / 0x10_0000_0000_0000) % 2048;
        let mant = f.bits % 0x10_0000_0000_0000;
        f.bits / 0x8000_0000_0000_0000 == 1 && !(exp == 2047 && mant != 0)
    }
}

/// The `timeout` member of a call.
fn timeout_of(v: &Json) -> (r: Result<Option<(u64, u64)>, Error>)
    ensures
        match r {
            Ok(t) => call_timeout(v@) == Ok::<Option<(u64, u64)>, Seq<char>>(t),
            Err(e) => call_timeout(v@) == Err::<Option<(u64, u64)>, Seq<char>>(e.message@),
        },
{
    match v.get("timeout") {
        None => Ok(None),
        Some(Json::UInt(n)) => {
            let d = crate::backend::rounded_double(*n);
            if d < 0x1_0000_0000_0000_0000u128 {
                Ok(Some((d as u64, 0)))
            } else {
                Err(Error::new("cannot convert float seconds to Duration: value is either too big or NaN"))
            }
        },
        Some(Json::Int(_)) => Err(Error::new("cannot convert float seconds to Duration: value is negative")),
        Some(Json::Float(f)) => match f.seconds {
            Some((s, ns)) => Ok(Some((s, ns as u64))),
            None => if is_negative(*f) {
                Err(Error::new("cannot convert float seconds to Duration: value is negative"))
            } else {
                Err(Error::new("cannot convert float seconds to Duration: value is either too big or NaN"))
            },
        },
        Some(_) => Err(Error::new("timeout must be a number")),
    }
}

/// A duration `(seconds, nanoseconds)` in nanoseconds, stopping at the largest value.
pub fn nanos(d: (u64, u64)) -> (r: u64)
    ensures
        r == (if d.0 * 1_000_000_000 + d.1 > u64::MAX { u64::MAX as int } else { d.0 * 1_000_000_000 + d.1 }),
{
    match d.0.checked_mul(1_000_000_000) {
        Some(s) => match s.checked_add(d.1) {
            Some(t) => t,
            None => u64::MAX,
        },
        None => u64::MAX,
    }
}

/// The position of the service `name`, or their number.
/// Whether a service call waits for the reply with `sequence` through `entity`.
pub open spec fn call_waiting(cs: Seq<super::Call>, entity: Entity, sequence: i64) -> bool {
    exists|k: int| 0 <= k < cs.len() && #[trigger] cs[k].entity == entity && cs[k].sequence == sequence
}

/// Whether a request made for a goal waits for the reply with `sequence` through `entity`.
pub open spec fn goal_request_waiting(rs: Seq<super::GoalRequest>, entity: Entity, sequence: i64) -> bool {
    exists|k: int| 0 <= k < rs.len() && #[trigger] rs[k].entity == entity && rs[k].sequence == sequence
}

/// Whether `entity` is a service that a client offers.
pub open spec fn service_entity(ss: Seq<Service>, entity: Entity) -> bool {
    exists|k: int| 0 <= k < ss.len() && #[trigger] ss[k].entity == entity
}

/// Whether `i` is the first service named `name`.
pub open spec fn first_service(ss: Seq<Service>, name: Seq<char>, i: int) -> bool {
    &&& 0 <= i < ss.len()
    &&& ss[i].name@ == name
    &&& forall|k: int| 0 <= k < i ==> #[trigger] ss[k].name@ != name
}

/// Whether `owner` offers service `name`, as the first service of that name.
pub open spec fn offers_service(ss: Seq<Service>, owner: Connection, name: Seq<char>) -> bool {
    exists|i: int| first_service(ss, name, i) && #[trigger] ss[i].owner == owner
}

pub fn service_index(ss: &Vec<Service>, name: &str) -> (i: usize)
    ensures
        i <= ss@.len(),
        i < ss@.len() ==> ss@[i as int].name@ == name@,
        forall|k: int| 0 <= k < i ==> ss@[k].name@ != name@,
{
    let mut i: usize = 0;
    while i < ss.len()
        invariant
            i <= ss@.len(),
            forall|k: int| 0 <= k < i ==> ss@[k].name@ != name@,
        decreases ss.len() - i,
    {
        if same(ss[i].name.as_str(), name) {
            return i;
        }
        i = i + 1;
    }
    i
}

/// The position of the waiting request `id`, or their number.
pub fn external_index(rs: &Vec<ExternalRequest>, id: &str) -> (i: usize)
    ensures
        i <= rs@.len(),
        i < rs@.len() ==> rs@[i as int].id@ == id@,
        forall|k: int| 0 <= k < i ==> rs@[k].id@ != id@,
{
    let mut i: usize = 0;
    while i < rs.len()
        invariant
            i <= rs@.len(),
            forall|k: int| 0 <= k < i ==> rs@[k].id@ != id@,
        decreases rs.len() - i,
    {
        if same(rs[i].id.as_str(), id) {
            return i;
        }
        i = i + 1;
    }
    i
}

/// The owner and service of the first waiting request `id`, if there is one.
pub open spec fn waiting(rs: Seq<ExternalRequest>, id: Seq<char>) -> Option<(Connection, Seq<char>)> {
    if exists|i: int| 0 <= i < rs.len() && rs[i].id@ == id {
        let i = choose|i: int| 0 <= i < rs.len() && rs[i].id@ == id && forall|k: int| 0 <= k < i ==> #[trigger] rs[k].id@ != id;
        Some((rs[i].owner, rs[i].service@))
    } else {
        None
    }
}

/// How long a call waits, in nanoseconds: its `timeout` in seconds
/// (saturating), else the bridge's `default`.
pub open spec fn call_wait(t: Option<(u64, u64)>, default: u64) -> u64 {
    match t {
        Some(d) => if d.0 * 1_000_000_000 + d.1 > u64::MAX { u64::MAX } else { (d.0 * 1_000_000_000 + d.1) as u64 },
        None => default,
    }
}

/// Whether `after` is `before` with one call added for `owner`'s request `v`
/// at `now`: to the service it names, under its id and options, expiring
/// after its timeout (or `default`).
pub open spec fn call_added(before: Seq<Call>, after: Seq<Call>, owner: Connection, v: JsonV, now: u64, default: u64) -> bool {
    let c = after.last();
    &&& after.len() == before.len() + 1
    &&& after.drop_last() == before
    &&& c.owner == owner
    &&& c.service@ == name_of(v, "service"@)->Ok_0
    &&& super::actions::id_text(c.id) == super::id_of(v)->Ok_0
    &&& Some(c.options) == crate::wire::spec_options(v)
    &&& call_timeout(v) matches Ok(t) && c.expires == super::saturated(now, call_wait(t, default))
}

/// Whether `i` is the first waiting ROS request with id `id`.
pub open spec fn first_request(rs: Seq<ExternalRequest>, id: Seq<char>, i: int) -> bool {
    &&& 0 <= i < rs.len()
    &&& rs[i].id@ == id
    &&& forall|k: int| 0 <= k < i ==> #[trigger] rs[k].id@ != id
}

/// Whether `v` is `owner`'s successful response to a ROS request waiting for
/// it, for the service it offers: nothing the bridge refuses stands in the
/// way of handing it to the backend.
pub open spec fn response_owed(rs: Seq<ExternalRequest>, owner: Connection, v: JsonV) -> bool {
    &&& required_of(v, "id"@) matches Some(id)
    &&& name_of(v, "service"@) matches Ok(service)
    &&& waiting(rs, id) == Some((owner, service))
    &&& v.boolean_at("result"@) == Some(true)
}

/// A response to a request of another connection, or for another service.
pub open spec fn spoofed(rs: Seq<ExternalRequest>, owner: Connection, v: JsonV) -> bool {
    match (required_of(v, "id"@), name_of(v, "service"@)) {
        (Some(id), Ok(service)) => match waiting(rs, id) {
            Some((o, s)) => o != owner || s != service,
            None => false,
        },
        _ => false,
    }
}

/// Drops the waiting requests to service entity `entity`.
fn drop_requests(rs: &mut Vec<ExternalRequest>, entity: Entity)
    ensures
        forall|k: int| 0 <= k < final(rs)@.len() ==> #[trigger] final(rs)@[k].entity != entity,
        super::within(final(rs)@, old(rs)@),
{
    proof {
        super::lemma_within_refl(rs@);
    }
    let mut i: usize = 0;
    while i < rs.len()
        invariant
            i <= rs@.len(),
            forall|k: int| 0 <= k < i ==> #[trigger] rs@[k].entity != entity,
            super::within(rs@, old(rs)@),
        decreases rs.len() - i,
    {
        if rs[i].entity == entity {
            let ghost before = rs@;
            rs.remove(i);
            proof {
                super::lemma_within_remove(before, old(rs)@, i as int);
            }
        } else {
            i = i + 1;
        }
    }
}

impl<B: Backend, W: Writer> Bridge<B, W> {
    /// Calls a ROS service for `owner` through a new client entity; the reply,
    /// or its timeout, is answered with the call's id.
    pub(super) fn call_service(&mut self, owner: Connection, v: &Json, now: u64) -> (r: Result<(), Error>)
        ensures
            old(self).wf() ==> final(self).wf(),
            final(self).publishers == old(self).publishers,
            final(self).subscriptions == old(self).subscriptions,
            final(self).services == old(self).services,
            final(self).external == old(self).external,
            final(self).goals == old(self).goals,
            final(self).action_calls == old(self).action_calls,
            final(self).action_servers == old(self).action_servers,
            final(self).server_goals == old(self).server_goals,
            final(self).access == old(self).access,
            final(self).timeout == old(self).timeout,
            final(self).sent@ == old(self).sent@,
            final(self).outputs@ == old(self).outputs@,
            final(self).failed@ == old(self).failed@,
            (match name_of(v@, "service"@) {
                Ok(n) => match (super::id_of(v@), service_check(old(self).access@, n)) {
                    (Ok(_), Err(m)) => r matches Err(e) && e.message@ == m && final(self).backend == old(self).backend
                        && final(self).calls == old(self).calls,
                    _ => true,
                },
                Err(_) => true,
            }),
            r is Err ==> final(self).calls == old(self).calls,
            r is Ok ==> call_added(old(self).calls@, final(self).calls@, owner, v@, now, old(self).timeout),
    {
        let request_id = id(v)?;
        let service = name(v, "service")?;
        self.access.service(service.as_str())?;
        let options = Options::parse(v)?;
        let typ = self.resolve(v, "service", "srv")?;
        let null = Json::Null;
        let args_ref = match v.get("args") {
            Some(a) => a,
            None => &null,
        };
        self.access.parameter_service(typ.as_str(), args_ref)?;
        let timeout = match timeout_of(v)? {
            Some(d) => nanos(d),
            None => self.timeout,
        };
        let entity = self.new_client(service.as_str(), typ.as_str())?;
        let args = match v.get("args") {
            Some(a) => a.copy(),
            None => Json::object(),
        };
        let sequence = match self.new_request(entity, &args) {
            Ok(s) => s,
            Err(e) => {
                self.backend.destroy(entity);
                return Err(e);
            },
        };
        let parameter_names = same(typ.as_str(), "rosapi_msgs/srv/GetParamNames");
        self.calls.push(Call {
            entity,
            sequence,
            owner,
            id: request_id,
            service,
            options,
            expires: now.saturating_add(timeout),
            parameter_names,
        });
        assert(self.calls@.drop_last() =~= old(self).calls@);
        Ok(())
    }

    /// Offers a client's service on ROS; offering it again with another type
    /// replaces it.
    pub(super) fn advertise_service(&mut self, owner: Connection, v: &Json) -> (r: Result<(), Error>)
        ensures
            old(self).wf() ==> final(self).wf(),
            final(self).publishers == old(self).publishers,
            final(self).subscriptions == old(self).subscriptions,
            final(self).calls == old(self).calls,
            final(self).goals == old(self).goals,
            final(self).action_calls == old(self).action_calls,
            final(self).action_servers == old(self).action_servers,
            final(self).server_goals == old(self).server_goals,
            final(self).access == old(self).access,
            final(self).timeout == old(self).timeout,
            final(self).sent@ == old(self).sent@,
            final(self).outputs@ == old(self).outputs@,
            final(self).failed@ == old(self).failed@,
            (match name_of(v@, "service"@) {
                Ok(n) => service_check(old(self).access@, n) matches Err(m) ==> r matches Err(e) && e.message@ == m
                    && final(self).backend == old(self).backend && final(self).services == old(self).services
                    && final(self).external == old(self).external,
                Err(_) => true,
            }),
    {
        let service = name(v, "service")?;
        self.access.service(service.as_str())?;
        let typ = interface_name(required(v, "type")?, "srv")?;
        self.access.advertise_service(typ.as_str())?;
        let i = service_index(&self.services, service.as_str());
        if i < self.services.len() {
            if self.services[i].owner != owner {
                return Err(Error::new("service is advertised by another client"));
            }
            if same(self.services[i].typ.as_str(), typ.as_str()) {
                return Ok(());
            }
            self.remove_service(owner, service.as_str())?;
        }
        let entity = self.new_service(service.as_str(), typ.as_str())?;
        let ghost before = self.services@;
        let ghost n = service@;
        assert(old(self).wf() ==> forall|k: int| 0 <= k < before.len() ==> #[trigger] before[k].name@ != n);
        self.services.push(Service { name: service, next_request: 0, owner, entity, typ });
        proof {
            if old(self).wf() {
                assert forall|a: int, b: int| 0 <= a < b < self.services@.len() implies #[trigger] self.services@[a].name@ != #[trigger] self.services@[b].name@ by {
                    assert(self.services@[a] == before[a]);
                    if b < before.len() {
                        assert(self.services@[b] == before[b]);
                    }
                }
            }
        }
        Ok(())
    }

    /// Withdraws service `i`: its entity is destroyed and the requests
    /// waiting for it are forgotten.
    pub(super) fn remove_service_at(&mut self, i: usize)
        requires
            i < old(self).services@.len(),
        ensures
            final(self).publishers == old(self).publishers,
            final(self).subscriptions == old(self).subscriptions,
            final(self).calls == old(self).calls,
            final(self).goals == old(self).goals,
            final(self).action_calls == old(self).action_calls,
            final(self).action_servers == old(self).action_servers,
            final(self).server_goals == old(self).server_goals,
            final(self).access == old(self).access,
            final(self).timeout == old(self).timeout,
            final(self).sent@ == old(self).sent@,
            final(self).outputs@ == old(self).outputs@,
            final(self).failed@ == old(self).failed@,
            final(self).services@ == old(self).services@.remove(i as int),
            super::within(final(self).external@, old(self).external@),
            final(self).destroyed() == old(self).destroyed().push(old(self).services@[i as int].entity),
    {
        let s = self.services.remove(i);
        self.backend.destroy(s.entity);
        drop_requests(&mut self.external, s.entity);
    }

    /// Withdraws `owner`'s service `name`: its entity is destroyed and the
    /// requests waiting for it are forgotten.
    pub(super) fn remove_service(&mut self, owner: Connection, name: &str) -> (r: Result<(), Error>)
        ensures
            old(self).wf() ==> final(self).wf(),
            final(self).publishers == old(self).publishers,
            final(self).subscriptions == old(self).subscriptions,
            final(self).calls == old(self).calls,
            final(self).goals == old(self).goals,
            final(self).action_calls == old(self).action_calls,
            final(self).action_servers == old(self).action_servers,
            final(self).server_goals == old(self).server_goals,
            final(self).access == old(self).access,
            final(self).timeout == old(self).timeout,
            final(self).sent@ == old(self).sent@,
            final(self).outputs@ == old(self).outputs@,
            final(self).failed@ == old(self).failed@,
            super::within(final(self).services@, old(self).services@),
            super::within(final(self).external@, old(self).external@),
            r is Ok <==> offers_service(old(self).services@, owner, name@),
            r is Ok ==> final(self).services@.len() == old(self).services@.len() - 1,
            r is Ok && old(self).wf() ==> forall|k: int| 0 <= k < final(self).services@.len() ==> #[trigger] final(self).services@[k].name@ != name@,
            r matches Err(e) ==> e.message@ == "service is not advertised by this client"@
                && final(self).services == old(self).services && final(self).external == old(self).external,
    {
        proof {
            super::lemma_within_refl(self.services@);
            super::lemma_within_refl(self.external@);
        }
        let i = service_index(&self.services, name);
        proof {
            if offers_service(self.services@, owner, name@) {
                let j = choose|j: int| first_service(self.services@, name@, j) && #[trigger] self.services@[j].owner == owner;
                if j < i {
                    assert(self.services@[j].name@ != name@);
                } else if i < j {
                    assert(self.services@[i as int].name@ != name@);
                }
            }
            if i < self.services.len() && self.services@[i as int].owner == owner {
                assert(first_service(self.services@, name@, i as int));
            }
        }
        if i == self.services.len() || self.services[i].owner != owner {
            return Err(Error::new("service is not advertised by this client"));
        }
        proof {
            super::lemma_within_remove(self.services@, self.services@, i as int);
        }
        let ghost before = self.services@;
        self.remove_service_at(i);
        proof {
            if old(self).wf() {
                assert forall|k: int| 0 <= k < self.services@.len() implies #[trigger] self.services@[k].name@ != name@ by {
                    if k < i {
                        assert(self.services@[k] == before[k]);
                        assert(before[k].name@ != before[i as int].name@);
                    } else {
                        assert(self.services@[k] == before[k + 1]);
                        assert(before[i as int].name@ != before[k + 1].name@);
                    }
                }
            }
        }
        Ok(())
    }

    /// Passes a client's response to the ROS request it answers; only the
    /// connection the request was handed to may answer it.
    pub(super) fn service_response(&mut self, owner: Connection, v: &Json) -> (r: Result<(), Error>)
        ensures
            old(self).wf() ==> final(self).wf(),
            final(self).publishers == old(self).publishers,
            final(self).subscriptions == old(self).subscriptions,
            final(self).services == old(self).services,
            final(self).calls == old(self).calls,
            final(self).goals == old(self).goals,
            final(self).action_calls == old(self).action_calls,
            final(self).action_servers == old(self).action_servers,
            final(self).server_goals == old(self).server_goals,
            final(self).access == old(self).access,
            final(self).timeout == old(self).timeout,
            final(self).sent@ == old(self).sent@,
            final(self).outputs@ == old(self).outputs@,
            final(self).failed@ == old(self).failed@,
            spoofed(old(self).external@, owner, v@) ==> (r matches Err(e)
                && e.message@ == "service response does not belong to this client"@
                && final(self).backend == old(self).backend && final(self).external == old(self).external),
            r is Ok ==> forall|i: int| #[trigger] first_request(old(self).external@, required_of(v@, "id"@)->Some_0, i) ==> {
                &&& final(self).responses() == old(self).responses().push((old(self).external@[i].entity, old(self).external@[i].request, member_or_null(v@, "values"@)))
                &&& final(self).external@ == old(self).external@.remove(i)
            },
            r is Ok ==> exists|i: int| #[trigger] first_request(old(self).external@, required_of(v@, "id"@)->Some_0, i),
            response_owed(old(self).external@, owner, v@) ==> forall|i: int|
                #[trigger] first_request(old(self).external@, required_of(v@, "id"@)->Some_0, i) ==> {
                &&& final(self).responses() == old(self).responses().push((old(self).external@[i].entity, old(self).external@[i].request, member_or_null(v@, "values"@)))
                &&& (r is Ok ==> final(self).external@ == old(self).external@.remove(i))
                &&& (r is Err ==> final(self).external == old(self).external)
            },
    {
        let id = required(v, "id")?;
        let service = name(v, "service")?;
        let i = external_index(&self.external, id);
        proof {
            let rs = self.external@;
            if i < rs.len() {
                let c = choose|c: int| 0 <= c < rs.len() && rs[c].id@ == id@ && forall|k: int| 0 <= k < c ==> #[trigger] rs[k].id@ != id@;
                if c < i {
                    assert(rs[c].id@ != id@);
                } else if i < c {
                    assert(rs[i as int].id@ != id@);
                }
                assert(waiting(rs, id@) == Some((rs[i as int].owner, rs[i as int].service@)));
            } else {
                assert forall|k: int| 0 <= k < rs.len() implies rs[k].id@ != id@ by {}
                assert(waiting(rs, id@) is None);
            }
        }
        if i == self.external.len() {
            return Err(Error::new("unknown service request id"));
        }
        if self.external[i].owner != owner || !same(self.external[i].service.as_str(), service.as_str()) {
            return Err(Error::new("service response does not belong to this client"));
        }
        let ok = match v.bool_at("result") {
            Some(b) => b,
            None => return Err(Error::new("result must be boolean")),
        };
        if !ok {
            return Err(Error::new("ROS services cannot carry an error response; request will time out"));
        }
        let values = super::member_copy(v, "values");
        proof {
            assert(first_request(old(self).external@, id@, i as int));
            assert forall|b: int| #[trigger] first_request(old(self).external@, id@, b) implies b == i by {
                if b < i {
                    assert(old(self).external@[b].id@ != id@);
                } else if b > i {
                    assert(old(self).external@[i as int].id@ != id@);
                }
            }
        }
        self.backend.respond(self.external[i].entity, self.external[i].request, &values)?;
        self.external.remove(i);
        Ok(())
    }
}

/// The parameter names that the allowlist lets through: each `<node>:<name>`
/// whose short `name` passes, in order.
pub open spec fn kept_names(items: Seq<JsonV>, a: crate::access::AccessV) -> Seq<JsonV>
    decreases items.len(),
{
    if items.len() == 0 {
        Seq::empty()
    } else {
        let rest = kept_names(items.drop_last(), a);
        match items.last().text() {
            Some(full) => match crate::text::split_char(full, ':') {
                Some((_, name)) => if crate::access::allowed(a.params, name) { rest.push(items.last()) } else { rest },
                None => rest,
            },
            None => rest,
        }
    }
}

/// The names a parameter listing shows are exactly, in order, the listed
/// `<node>:<name>` texts whose `name` the allowlist lets through.
pub proof fn lemma_kept_names(items: Seq<JsonV>, a: crate::access::AccessV)
    ensures
        kept_names(items, a) == items.filter(|x: JsonV| x.text() is Some
            && crate::text::split_char(x.text()->0, ':') is Some
            && crate::access::allowed(a.params, (crate::text::split_char(x.text()->0, ':')->0).1)),
    decreases items.len(),
{
    let f = |x: JsonV| x.text() is Some
        && crate::text::split_char(x.text()->0, ':') is Some
        && crate::access::allowed(a.params, (crate::text::split_char(x.text()->0, ':')->0).1);
    if items.len() == 0 {
        assert(items.filter(f) =~= Seq::<JsonV>::empty()) by {
            reveal(Seq::filter);
        }
    } else {
        let rest = items.drop_last();
        lemma_kept_names(rest, a);
        assert(rest.push(items.last()) =~= items);
        crate::rosapi_node::lemma_filter_push(rest, items.last(), f);
    }
}

/// Whether `c` is the first waiting call that the reply with `sequence` through `entity` answers.
pub open spec fn first_call(cs: Seq<super::Call>, entity: Entity, sequence: i64, c: int) -> bool {
    &&& 0 <= c < cs.len()
    &&& cs[c].entity == entity && cs[c].sequence == sequence
    &&& forall|k: int| 0 <= k < c ==> !(#[trigger] cs[k].entity == entity && cs[k].sequence == sequence)
}

/// Whether `shown` is the reply `values` as its caller sees it: where the
/// call lists parameter names, its `names` as the parameter allowlist keeps
/// them and every other member as it was; otherwise `values` itself.
pub open spec fn shown_values(lists_names: bool, values: JsonV, a: crate::access::AccessV, shown: JsonV) -> bool {
    if lists_names && values.field("names"@) is Some {
        &&& shown is Object
        &&& shown.field("names"@) == Some(visible_names_of(values.field("names"@)->0, a))
        &&& forall|k: Seq<char>| k != "names"@ ==> #[trigger] shown.field(k) == crate::json::lookup(values.members(), k)
    } else {
        shown == values
    }
}

/// The response that hands a caller of `service` the reply `shown`.
pub open spec fn call_reply(service: Seq<char>, shown: JsonV) -> JsonV {
    JsonV::Object(seq![
        ("op"@, JsonV::Str("service_response"@)),
        ("service"@, JsonV::Str(service)),
        ("result"@, JsonV::Bool(true)),
        ("values"@, shown),
    ])
}

/// Whether `after` is `before` with the response to `call` carrying `values`
/// sent to its caller, where connected among `outputs`.
pub open spec fn call_answered<W>(before: Seq<(Connection, JsonV)>, after: Seq<(Connection, JsonV)>, outputs: Seq<(Connection, W)>, call: super::Call, values: JsonV, a: crate::access::AccessV) -> bool {
    exists|shown: JsonV| #[trigger] shown_values(call.parameter_names, values, a, shown)
        && after == if connected(outputs, call.owner) {
            before.push((call.owner, with_id(call_reply(call.service@, shown), call.id)))
        } else {
            before
        }
}

/// A `names` list as a client sees it: filtered where there is a parameter
/// allowlist and the list is an array, unchanged otherwise.
pub open spec fn visible_names_of(names: JsonV, a: crate::access::AccessV) -> JsonV {
    match names {
        JsonV::Array(items) => if a.params is Some { JsonV::Array(kept_names(items, a)) } else { names },
        _ => names,
    }
}

fn visible_names(names: &Json, access: &crate::access::Access) -> (r: Json)
    ensures
        r@ == visible_names_of(names@, access@),
{
    match (names, &access.params) {
        (Json::Array(items), Some(_)) => {
            let ghost iv = Seq::new(items@.len(), |k: int| items@[k]@);
            assert(names@ == JsonV::Array(iv)) by {
                if let JsonV::Array(a) = names@ {
                    assert(a =~= iv);
                }
            }
            let mut kept: Vec<Json> = Vec::new();
            let mut i: usize = 0;
            while i < items.len()
                invariant
                    i <= items@.len(),
                    iv == Seq::new(items@.len(), |k: int| items@[k]@),
                    access@.params is Some,
                    Seq::new(kept@.len(), |k: int| kept@[k]@) == kept_names(iv.take(i as int), access@),
                decreases items.len() - i,
            {
                assert(iv.take(i + 1).drop_last() =~= iv.take(i as int));
                assert(iv.take(i + 1).last() == items@[i as int]@);
                let ghost before = Seq::new(kept@.len(), |k: int| kept@[k]@);
                match items[i].as_str() {
                    Some(full) => match crate::text::split_once_char(full, ':') {
                        Some((_, param)) => {
                            if crate::access::matches(&access.params, param.as_str()) {
                                let item = items[i].copy();
                                kept.push(item);
                                assert(Seq::new(kept@.len(), |k: int| kept@[k]@) =~= before.push(items@[i as int]@));
                            }
                        },
                        None => {},
                    },
                    None => {},
                }
                i = i + 1;
            }
            assert(iv.take(i as int) =~= iv);
            let r = Json::Array(kept);
            assert(r@ =~= JsonV::Array(kept_names(iv, access@))) by {
                if let JsonV::Array(a) = r@ {
                    assert(a =~= Seq::new(kept@.len(), |k: int| kept@[k]@));
                }
            }
            r
        },
        _ => names.copy(),
    }
}

impl<B: Backend, W: Writer> Bridge<B, W> {
    /// A ROS request to a service: an action server's request is handled as
    /// such; a client's service gets the request with a fresh id,
    /// `service_request:<service>:<n>`, and the request waits for its response.
    pub(super) fn service_request(&mut self, entity: Entity, request: u64, args: Json, now: u64) -> (r: Result<(), Error>)
        ensures
            super::distinct_connections(old(self).outputs@) ==> super::distinct_connections(final(self).outputs@),
            super::distinct_goals(old(self).goals@) ==> super::distinct_goals(final(self).goals@),
            super::distinct_server_goals(old(self).server_goals@) ==> super::distinct_server_goals(final(self).server_goals@),
            final(self).publishers == old(self).publishers,
            final(self).subscriptions == old(self).subscriptions,
            final(self).calls == old(self).calls,
            final(self).goals == old(self).goals,
            final(self).action_calls == old(self).action_calls,
            final(self).action_servers == old(self).action_servers,
            final(self).services@.len() == old(self).services@.len(),
            forall|k: int| 0 <= k < old(self).services@.len() ==> #[trigger] final(self).services@[k].name@ == old(self).services@[k].name@,
            forall|k: int| 0 <= k < old(self).services@.len() ==> #[trigger] final(self).services@[k].owner == old(self).services@[k].owner,
            final(self).access == old(self).access,
            final(self).timeout == old(self).timeout,
            final(self).outputs@.len() == old(self).outputs@.len(),
            super::starts_with(final(self).failed@, old(self).failed@),
            !super::actions::action_entity(old(self).action_servers@, entity) && !service_entity(old(self).services@, entity)
                ==> r is Ok && final(self).external == old(self).external && final(self).sent@ == old(self).sent@,
            !super::actions::action_entity(old(self).action_servers@, entity) && service_entity(old(self).services@, entity)
                ==> r is Ok && final(self).external@.len() == old(self).external@.len() + 1
                && final(self).external@.drop_last() == old(self).external@
                && final(self).external@.last().entity == entity && final(self).external@.last().request == request
                && final(self).external@.last().expires == super::saturated(now, old(self).timeout),
            forall|a: int| #[trigger] super::actions::first_serving(old(self).action_servers@, entity, a) ==> {
                let done = match r {
                    Ok(_) => Ok::<bool, Error>(true),
                    Err(e) => Err::<bool, Error>(e),
                };
                &&& entity == old(self).action_servers@[a].send
                    ==> super::actions::goal_request_done(old(self), final(self), a, entity, request, args@, done)
                &&& entity != old(self).action_servers@[a].send && entity == old(self).action_servers@[a].result
                    ==> super::actions::result_request_done(old(self), final(self), a, entity, request, args@, done)
                &&& entity != old(self).action_servers@[a].send && entity != old(self).action_servers@[a].result
                    ==> super::actions::cancel_request_done(old(self), final(self), a, entity, request, args@, done)
            },
    {
        match self.action_request(entity, request, args.copy()) {
            Ok(true) => {
                return Ok(());
            },
            Ok(false) => {},
            Err(e) => {
                return Err(e);
            },
        }
        proof {
            assert forall|a: int| #[trigger] super::actions::first_serving(old(self).action_servers@, entity, a) implies false by {
                assert(super::actions::serves_entity(old(self).action_servers@[a], entity));
                assert(super::actions::action_entity(old(self).action_servers@, entity));
            }
        }
        let mut i: usize = 0;
        while i < self.services.len()
            invariant
                i <= self.services@.len(),
                forall|k: int| 0 <= k < i ==> #[trigger] self.services@[k].entity != entity,
            ensures
                i <= self.services@.len(),
                forall|k: int| 0 <= k < i ==> #[trigger] self.services@[k].entity != entity,
                i < self.services@.len() ==> self.services@[i as int].entity == entity,
            decreases self.services.len() - i,
        {
            if self.services[i].entity == entity {
                break;
            }
            i = i + 1;
        }
        if i == self.services.len() {
            return Ok(());
        }
        let mut s = self.services.remove(i);
        s.next_request = s.next_request.wrapping_add(1);
        let owner = s.owner;
        let service = owned(s.name.as_str());
        let id = concat(concat(concat("service_request:", service.as_str()).as_str(), ":").as_str(), crate::wire::decimal_string(s.next_request).as_str());
        self.services.insert(i, s);
        self.external.push(ExternalRequest {
            id: owned(id.as_str()),
            owner,
            entity,
            request,
            service: owned(service.as_str()),
            expires: now.saturating_add(self.timeout),
        });
        let message = Json::object()
            .member("op", Json::string("call_service"))
            .member("service", Json::string(service.as_str()))
            .member("args", args);
        let options = Options::default();
        self.send(owner, message, &Some(id), &options, None, None);
        Ok(())
    }

    /// The reply to a request made through client entity `entity`: a service
    /// call is answered and its client destroyed; a goal's acceptance asks for
    /// its result; a goal's result ends it; a refused cancellation is reported.
    pub(super) fn response(&mut self, entity: Entity, sequence: i64, values: Json) -> (r: Result<(), Error>)
        ensures
            super::distinct_connections(old(self).outputs@) ==> super::distinct_connections(final(self).outputs@),
            super::distinct_goals(old(self).goals@) ==> super::distinct_goals(final(self).goals@),
            super::distinct_server_goals(old(self).server_goals@) ==> super::distinct_server_goals(final(self).server_goals@),
            final(self).publishers == old(self).publishers,
            final(self).subscriptions == old(self).subscriptions,
            final(self).services == old(self).services,
            final(self).external == old(self).external,
            final(self).action_servers == old(self).action_servers,
            final(self).server_goals == old(self).server_goals,
            within(super::call_owners(final(self).calls@), super::call_owners(old(self).calls@)),
            within(super::goal_owners(final(self).goals@), super::goal_owners(old(self).goals@)),
            final(self).access == old(self).access,
            final(self).timeout == old(self).timeout,
            final(self).outputs@.len() == old(self).outputs@.len(),
            super::starts_with(final(self).failed@, old(self).failed@),
            call_waiting(old(self).calls@, entity, sequence) ==> r is Ok
                && final(self).calls@.len() == old(self).calls@.len() - 1
                && final(self).action_calls == old(self).action_calls,
            forall|c: int| #[trigger] first_call(old(self).calls@, entity, sequence, c) ==> {
                &&& final(self).calls@ == old(self).calls@.remove(c)
                &&& final(self).destroyed() == old(self).destroyed().push(entity)
                &&& call_answered(old(self).sent@, final(self).sent@, old(self).outputs@, old(self).calls@[c], values@, old(self).access@)
            },
            !call_waiting(old(self).calls@, entity, sequence) && !goal_request_waiting(old(self).action_calls@, entity, sequence)
                ==> r is Ok && final(self).calls == old(self).calls && final(self).goals == old(self).goals
                && final(self).action_calls == old(self).action_calls && final(self).sent@ == old(self).sent@
                && final(self).backend == old(self).backend,
    {
        proof {
            lemma_within_refl(super::call_owners(self.calls@));
            lemma_within_refl(super::goal_owners(self.goals@));
        }
        let mut c: usize = 0;
        while c < self.calls.len()
            invariant
                c <= self.calls@.len(),
                forall|k: int| 0 <= k < c ==> !(#[trigger] self.calls@[k].entity == entity && self.calls@[k].sequence == sequence),
            ensures
                c <= self.calls@.len(),
                forall|k: int| 0 <= k < c ==> !(#[trigger] self.calls@[k].entity == entity && self.calls@[k].sequence == sequence),
                c < self.calls@.len() ==> self.calls@[c as int].entity == entity && self.calls@[c as int].sequence == sequence,
            decreases self.calls.len() - c,
        {
            if self.calls[c].entity == entity && self.calls[c].sequence == sequence {
                break;
            }
            c = c + 1;
        }
        if c < self.calls.len() {
            let ghost before = self.calls@;
            assert(forall|b: int| #[trigger] first_call(before, entity, sequence, b) ==> b == c) by {
                assert forall|b: int| #[trigger] first_call(before, entity, sequence, b) implies b == c by {
                    if b < c {
                        assert(!(before[b].entity == entity && before[b].sequence == sequence));
                    } else if b > c {
                        assert(!(before[c as int].entity == entity && before[c as int].sequence == sequence));
                    }
                }
            }
            let ghost values0 = values@;
            let call = self.calls.remove(c);
            proof {
                let ob = super::call_owners(before);
                lemma_within_remove(ob, ob, c as int);
                assert(super::call_owners(self.calls@) =~= ob.remove(c as int));
            }
            let shown = if call.parameter_names {
                match values.get("names") {
                    Some(names) => {
                        let kept = visible_names(names, &self.access);
                        values.with("names", kept)
                    },
                    None => values,
                }
            } else {
                values
            };
            assert(shown_values(call.parameter_names, values0, self.access@, shown@));
            let ghost shown_v = shown@;
            let message = Json::object()
                .member("op", Json::string("service_response"))
                .member("service", Json::string(call.service.as_str()))
                .member("result", Json::Bool(true))
                .member("values", shown);
            proof {
                if let JsonV::Object(m) = message@ {
                    assert(m =~= seq![
                        ("op"@, JsonV::Str("service_response"@)),
                        ("service"@, JsonV::Str(call.service@)),
                        ("result"@, JsonV::Bool(true)),
                        ("values"@, shown_v),
                    ]);
                }
            }
            self.send(call.owner, message, &call.id, &call.options, None, None);
            self.backend.destroy(entity);
            return Ok(());
        }
        let mut k: usize = 0;
        while k < self.action_calls.len()
            invariant
                k <= self.action_calls@.len(),
                forall|j: int| 0 <= j < k ==> !(#[trigger] self.action_calls@[j].entity == entity && self.action_calls@[j].sequence == sequence),
            ensures
                k <= self.action_calls@.len(),
                forall|j: int| 0 <= j < k ==> !(#[trigger] self.action_calls@[j].entity == entity && self.action_calls@[j].sequence == sequence),
                k < self.action_calls@.len() ==> self.action_calls@[k as int].entity == entity && self.action_calls@[k as int].sequence == sequence,
            decreases self.action_calls.len() - k,
        {
            if self.action_calls[k].entity == entity && self.action_calls[k].sequence == sequence {
                break;
            }
            k = k + 1;
        }
        if k == self.action_calls.len() {
            return Ok(());
        }
        let pending = self.action_calls.remove(k);
        match pending.call {
            ActionCall::Send(key) => {
                let accepted = match values.get("accepted") {
                    Some(Json::Bool(true)) => true,
                    _ => false,
                };
                if !accepted {
                    self.finish_goal(key.as_str(), Json::string("goal rejected"), 6, false);
                } else {
                    let g = goal_index(&self.goals, key.as_str());
                    if g < self.goals.len() {
                        let request = Json::object().member("goal_id", self.goals[g].uuid.copy());
                        let result = self.goals[g].result;
                        let ghost before = self.goals@;
                        let mut goal = self.goals.remove(g);
                        goal.accepted = true;
                        self.goals.insert(g, goal);
                        assert(super::goal_owners(self.goals@) =~= super::goal_owners(before));
                        let seq = self.new_request(result, &request)?;
                        self.action_calls.push(GoalRequest { entity: result, sequence: seq, call: ActionCall::Result(key) });
                    }
                }
            },
            ActionCall::Result(key) => {
                let status = match values.i64_at("status") {
                    Some(s) => s,
                    None => 0,
                };
                let result = member_copy(&values, "result");
                self.finish_goal(key.as_str(), result, status, status == 4);
            },
            ActionCall::Cancel(key) => {
                let zero = match values.i64_at("return_code") {
                    Some(n) => n == 0,
                    None => false,
                };
                if !zero {
                    let g = goal_index(&self.goals, key.as_str());
                    if g < self.goals.len() {
                        let ghost before = self.goals@;
                        let mut goal = self.goals.remove(g);
                        goal.cancelling = false;
                        let owner = goal.owner;
                        let goal_id = super::topics::copy_id(&goal.id);
                        self.goals.insert(g, goal);
                        assert(super::goal_owners(self.goals@) =~= super::goal_owners(before));
                        let message = Json::object()
                            .member("op", Json::string("status"))
                            .member("level", Json::string("error"))
                            .member("msg", Json::string("action cancellation rejected"));
                        let options = Options::default();
                        self.send(owner, message, &goal_id, &options, None, None);
                    }
                }
            },
        }
        Ok(())
    }
}

} // verus!
