//! Protocol dispatch and connection-owned ROS resources.

mod actions;
mod services;
mod topics;

use vstd::prelude::*;
use crate::access::Access;
use crate::backend::{Backend, Entity, RosMessage};
use crate::cbor::Cbor;
use crate::error::Error;
use crate::incoming::Command;
use crate::json::{Json, JsonV};
use crate::text::{all_word_chars, append, has_char, owned, push_char, same, split, split_at_char, views};
use crate::wire::{Compression, Options};
use std::collections::VecDeque;
pub use services::{PREVIEW_LIMIT, PayloadPreview};
use base64::Engine;

verus! {

broadcast use crate::backend::lemma_push_drop_last;

/// A WebSocket connection.
pub type Connection = u64;

/// What base64 decoding of `text` gives: the bytes, or the decoder's error
/// text (`base64::engine::general_purpose::STANDARD.decode`).
pub uninterp spec fn base64_decoded(text: Seq<char>) -> Result<Seq<u8>, Seq<char>>;

/// Calls `STANDARD.decode` from the base64 crate; its error comes back as its
/// text. That engine takes only canonical text (`=` padding required, unused
/// bits zero), so the text that decodes is the standard encoding of its bytes.
#[verifier::external_body]
fn base64_decode(text: &str) -> (r: Result<Vec<u8>, String>)
    ensures
        match r {
            Ok(b) => base64_decoded(text@) == Ok::<Seq<u8>, Seq<char>>(b@) && crate::wire::base64_text(b@) == text@,
            Err(e) => base64_decoded(text@) == Err::<Seq<u8>, Seq<char>>(e@),
        },
{
    match base64::engine::general_purpose::STANDARD.decode(text) {
        Ok(b) => Ok(b),
        Err(e) => Err(e.to_string()),
    }
}

/// Calls `uuid::Uuid::new_v4`: sixteen random bytes, with the version (4) and
/// variant (RFC 4122) bits set as that function sets them.
#[verifier::external_body]
fn random_uuid() -> (r: Vec<u8>)
    ensures
        r@.len() == 16,
        r@[6] / 16 == 4,
        r@[8] / 64 == 2,
{
    uuid::Uuid::new_v4().as_bytes().to_vec()
}

/// The text under `key`, where it is a nonempty string.
pub open spec fn required_of(v: JsonV, key: Seq<char>) -> Option<Seq<char>> {
    match v.text_at(key) {
        Some(s) => if s.len() > 0 {
            Some(s)
        } else {
            None
        },
        None => None,
    }
}

/// The text under `key`, which must be a nonempty string.
pub fn required<'a>(v: &'a Json, key: &str) -> (r: Result<&'a str, Error>)
    ensures
        match r {
            Ok(s) => required_of(v@, key@) == Some(s@),
            Err(e) => required_of(v@, key@) is None && e.message@ == key@ + " must be a nonempty string"@,
        },
{
    match v.str_at(key) {
        Some(s) => {
            if crate::text::chars_of(s).len() > 0 {
                Ok(s)
            } else {
                Err(Error::with(key, " must be a nonempty string"))
            }
        },
        None => Err(Error::with(key, " must be a nonempty string")),
    }
}

/// The request id: absent, or a string.
pub open spec fn id_of(v: JsonV) -> Result<Option<Seq<char>>, Seq<char>> {
    match v.field("id"@) {
        None => Ok(None),
        Some(x) => match x.text() {
            Some(s) => Ok(Some(s)),
            None => Err("id must be a string"@),
        },
    }
}

/// The request id of a message.
pub fn id(v: &Json) -> (r: Result<Option<String>, Error>)
    ensures
        match r {
            Ok(Some(s)) => id_of(v@) == Ok::<Option<Seq<char>>, Seq<char>>(Some(s@)),
            Ok(None) => id_of(v@) == Ok::<Option<Seq<char>>, Seq<char>>(None),
            Err(e) => id_of(v@) == Err::<Option<Seq<char>>, Seq<char>>(e.message@),
        },
{
    match v.get("id") {
        None => Ok(None),
        Some(x) => match x.as_str() {
            Some(s) => Ok(Some(owned(s))),
            None => Err(Error::new("id must be a string")),
        },
    }
}

/// A ROS name: no `~`, and each `/`-separated part made of ASCII letters,
/// digits and `_`.
pub open spec fn valid_ros_name(n: Seq<char>) -> bool {
    &&& !has_char(n, '~')
    &&& forall|i: int| 0 <= i < split_at_char(n, '/').len() ==> all_word_chars(#[trigger] split_at_char(n, '/')[i])
}

/// The absolute ROS name under `key`.
pub open spec fn name_of(v: JsonV, key: Seq<char>) -> Result<Seq<char>, Seq<char>> {
    match required_of(v, key) {
        None => Err(key + " must be a nonempty string"@),
        Some(n) => if !valid_ros_name(n) {
            Err("invalid ROS name"@)
        } else if n[0] == '/' {
            Ok(n)
        } else {
            Ok(seq!['/'] + n)
        },
    }
}

/// Every name the bridge takes is absolute: a valid name under `key` is taken
/// as it is where it begins with `/`, and with a `/` put before it otherwise.
pub proof fn lemma_names_absolute(v: JsonV, key: Seq<char>)
    ensures
        name_of(v, key) is Ok ==> (name_of(v, key)->Ok_0).len() > 0 && (name_of(v, key)->Ok_0)[0] == '/',
        required_of(v, key) is Some && valid_ros_name(required_of(v, key)->0) ==> name_of(v, key) == Ok::<Seq<char>, Seq<char>>(
            if (required_of(v, key)->0)[0] == '/' { required_of(v, key)->0 } else { seq!['/'] + required_of(v, key)->0 },
        ),
        required_of(v, key) is None ==> name_of(v, key) is Err,
{
}

/// The absolute ROS name under `key`: a relative name gets a leading `/`.
pub fn name(v: &Json, key: &str) -> (r: Result<String, Error>)
    ensures
        match r {
            Ok(s) => name_of(v@, key@) == Ok::<Seq<char>, Seq<char>>(s@),
            Err(e) => name_of(v@, key@) == Err::<Seq<char>, Seq<char>>(e.message@),
        },
{
    let n = required(v, key)?;
    let cs = crate::text::chars_of(n);
    let tilde = crate::text::find_char(&cs, 0, '~');
    proof {
        if tilde < cs.len() {
            assert(has_char(n@, '~'));
        } else {
            assert(!has_char(n@, '~'));
        }
    }
    let parts = split(n, '/');
    let mut ok = tilde == cs.len();
    let mut i: usize = 0;
    while i < parts.len()
        invariant
            i <= parts@.len(),
            views(parts@) == split_at_char(n@, '/'),
            ok == (!has_char(n@, '~') && forall|k: int| 0 <= k < i ==> all_word_chars(#[trigger] split_at_char(n@, '/')[k])),
        decreases parts.len() - i,
    {
        let p = crate::text::chars_of(parts[i].as_str());
        let good = crate::text::word_chars(&p, 0, p.len());
        assert(p@.subrange(0, p@.len() as int) =~= p@);
        assert(split_at_char(n@, '/')[i as int] == parts@[i as int]@);
        ok = ok && good;
        i = i + 1;
    }
    if !ok {
        return Err(Error::new("invalid ROS name"));
    }
    if cs[0] == '/' {
        Ok(owned(n))
    } else {
        let mut r = String::new();
        push_char(&mut r, '/');
        append(&mut r, n);
        Ok(r)
    }
}

/// The bytes of the first `n` items of a UUID array; the first item that is
/// not a byte value decides the error.
pub open spec fn uuid_items(items: Seq<JsonV>, n: int) -> Result<Seq<u8>, Seq<char>>
    decreases n,
{
    if n <= 0 {
        Ok(Seq::empty())
    } else {
        match uuid_items(items, n - 1) {
            Err(e) => Err(e),
            Ok(b) => match items[n - 1] {
                JsonV::UInt(x) => if x > 255 {
                    Err("out of range integral type conversion attempted"@)
                } else {
                    Ok(b.push(x as u8))
                },
                _ => Err("invalid UUID byte"@),
            },
        }
    }
}

/// The bytes of a goal UUID: base64 text, or an array of byte values.
pub open spec fn uuid_bytes(v: JsonV) -> Result<Seq<u8>, Seq<char>> {
    let u = match v.field("uuid"@) {
        Some(x) => x,
        None => JsonV::Null,
    };
    match u {
        JsonV::Str(s) => base64_decoded(s),
        JsonV::Array(items) => uuid_items(items, items.len() as int),
        _ => Err("missing goal UUID"@),
    }
}

/// An error among the first items stays the error of the whole array.
proof fn lemma_uuid_items_stay(items: Seq<JsonV>, n: int, m: int)
    requires
        0 <= n <= m,
        uuid_items(items, n) is Err,
    ensures
        uuid_items(items, m) == uuid_items(items, n),
    decreases m - n,
{
    if n < m {
        lemma_uuid_items_stay(items, n, m - 1);
    }
}

/// Two lowercase hexadecimal digits for each byte.
pub open spec fn hex(bytes: Seq<u8>) -> Seq<char>
    decreases bytes.len(),
{
    if bytes.len() == 0 {
        Seq::empty()
    } else {
        hex(bytes.drop_last()) + seq![
            crate::wire::hex_digit((bytes.last() / 16) as int),
            crate::wire::hex_digit((bytes.last() % 16) as int),
        ]
    }
}

/// The number that a lowercase hexadecimal digit stands for.
pub open spec fn digit_value(c: char) -> int {
    if '0' <= c && c <= '9' {
        c as int - 48
    } else {
        c as int - 87
    }
}

proof fn lemma_hex_digit(d: int)
    requires
        0 <= d < 16,
    ensures
        ('0' <= crate::wire::hex_digit(d) <= '9') || ('a' <= crate::wire::hex_digit(d) <= 'f'),
        digit_value(crate::wire::hex_digit(d)) == d,
{
}

/// The hexadecimal text of bytes reads back as those bytes: two lowercase
/// digits for each, high then low.
pub proof fn lemma_hex_reads_back(bytes: Seq<u8>)
    ensures
        hex(bytes).len() == 2 * bytes.len(),
        forall|i: int| 0 <= i < hex(bytes).len() ==> ('0' <= #[trigger] hex(bytes)[i] <= '9') || ('a' <= hex(bytes)[i] <= 'f'),
        forall|i: int| 0 <= i < bytes.len() ==> 16 * digit_value(hex(bytes)[2 * i]) + digit_value(hex(bytes)[2 * i + 1]) == #[trigger] bytes[i],
    decreases bytes.len(),
{
    if bytes.len() > 0 {
        let rest = bytes.drop_last();
        lemma_hex_reads_back(rest);
        let b = bytes.last();
        lemma_hex_digit((b / 16) as int);
        lemma_hex_digit((b % 16) as int);
        let h = hex(bytes);
        let hr = hex(rest);
        assert(h == hr + seq![crate::wire::hex_digit((b / 16) as int), crate::wire::hex_digit((b % 16) as int)]);
        assert forall|i: int| 0 <= i < h.len() implies ('0' <= #[trigger] h[i] <= '9') || ('a' <= h[i] <= 'f') by {
            if i < hr.len() {
                assert(h[i] == hr[i]);
            }
        }
        assert forall|i: int| 0 <= i < bytes.len() implies 16 * digit_value(h[2 * i]) + digit_value(h[2 * i + 1]) == #[trigger] bytes[i] by {
            if i < rest.len() {
                assert(h[2 * i] == hr[2 * i]);
                assert(h[2 * i + 1] == hr[2 * i + 1]);
                assert(rest[i] == bytes[i]);
            } else {
                assert(h[2 * i] == crate::wire::hex_digit((b / 16) as int));
                assert(h[2 * i + 1] == crate::wire::hex_digit((b % 16) as int));
            }
        }
    }
}

/// Distinct UUID bytes give distinct goal keys.
pub proof fn lemma_hex_injective(a: Seq<u8>, b: Seq<u8>)
    requires
        hex(a) == hex(b),
    ensures
        a == b,
{
    lemma_hex_reads_back(a);
    lemma_hex_reads_back(b);
    assert forall|i: int| 0 <= i < a.len() implies a[i] == b[i] by {
        assert(a[i] == 16 * digit_value(hex(a)[2 * i]) + digit_value(hex(a)[2 * i + 1]));
        assert(b[i] == 16 * digit_value(hex(b)[2 * i]) + digit_value(hex(b)[2 * i + 1]));
    }
    assert(a =~= b);
}

/// The key of a goal: its sixteen UUID bytes in hexadecimal.
pub open spec fn uuid_key_of(v: JsonV) -> Result<Seq<char>, Seq<char>> {
    match uuid_bytes(v) {
        Err(e) => Err(e),
        Ok(b) => if b.len() != 16 {
            Err("goal UUID must be 16 bytes"@)
        } else {
            Ok(hex(b))
        },
    }
}

fn hex_char(d: u8) -> (c: char)
    requires
        d < 16,
    ensures
        c == crate::wire::hex_digit(d as int),
{
    if d < 10 {
        ((d + 48) as u8) as char
    } else {
        ((d + 87) as u8) as char
    }
}

/// The goal key of a message's `uuid` member.
pub fn uuid_key(v: &Json) -> (r: Result<String, Error>)
    ensures
        match r {
            Ok(s) => uuid_key_of(v@) == Ok::<Seq<char>, Seq<char>>(s@),
            Err(e) => uuid_key_of(v@) == Err::<Seq<char>, Seq<char>>(e.message@),
        },
{
    let null = Json::Null;
    let u = match v.get("uuid") {
        Some(x) => x,
        None => &null,
    };
    let bytes: Vec<u8> = match u {
        Json::Str(s) => match base64_decode(s.as_str()) {
            Ok(b) => b,
            Err(message) => return Err(Error { message }),
        },
        Json::Array(items) => {
            let ghost vs = u@->Array_0;
            assert(uuid_bytes(v@) == uuid_items(vs, vs.len() as int));
            let mut out: Vec<u8> = Vec::new();
            let mut i: usize = 0;
            while i < items.len()
                invariant
                    i <= items@.len(),
                    *u == Json::Array(*items),
                    vs == u@->Array_0,
                    vs.len() == items@.len(),
                    uuid_items(vs, i as int) == Ok::<Seq<u8>, Seq<char>>(out@),
                    uuid_bytes(v@) == uuid_items(vs, vs.len() as int),
                decreases items.len() - i,
            {
                assert(vs[i as int] == items@[i as int]@);
                match &items[i] {
                    Json::UInt(n) => {
                        if *n > 255 {
                            proof {
                                lemma_uuid_items_stay(vs, i + 1, vs.len() as int);
                            }
                            return Err(Error::new("out of range integral type conversion attempted"));
                        }
                        out.push(*n as u8);
                    },
                    _ => {
                        proof {
                            lemma_uuid_items_stay(vs, i + 1, vs.len() as int);
                        }
                        return Err(Error::new("invalid UUID byte"));
                    },
                }
                i = i + 1;
            }
            out
        },
        _ => return Err(Error::new("missing goal UUID")),
    };
    if bytes.len() != 16 {
        return Err(Error::new("goal UUID must be 16 bytes"));
    }
    let mut r = String::new();
    let mut i: usize = 0;
    while i < bytes.len()
        invariant
            i <= bytes@.len(),
            r@ == hex(bytes@.take(i as int)),
        decreases bytes.len() - i,
    {
        assert(bytes@.take(i + 1).drop_last() =~= bytes@.take(i as int));
        push_char(&mut r, hex_char(bytes[i] / 16));
        push_char(&mut r, hex_char(bytes[i] % 16));
        i = i + 1;
    }
    assert(bytes@.take(i as int) =~= bytes@);
    Ok(r)
}

/// A client's writer: where the bridge hands the messages for one connection.
pub trait Writer {
    /// Queues a message (its JSON form, the options it is encoded with, its
    /// CBOR form where it has one, its fragment id, and the topic of a topic
    /// sample, which a full queue may drop); false where the writer cannot take it.
    fn try_send(&mut self, value: &Json, options: &Options, binary: Option<Cbor>, key: &str, topic: Option<&str>) -> bool;

    /// Whether the connection's writer is gone.
    fn is_closed(&self) -> bool;
}

/// A topic advertised by clients, with the registration ids of each owner.
pub struct Publisher {
    pub topic: String,
    pub entity: Entity,
    pub typ: String,
    pub owners: Vec<(Connection, Vec<Option<String>>)>,
}

/// One connection's share of a subscription.
pub struct ClientSubscription {
    pub owner: Connection,
    /// Options by registration id.
    pub registrations: Vec<(Option<String>, Options)>,
    /// When a message was last delivered, in nanoseconds.
    pub last: Option<u64>,
    /// Messages held back by throttling.
    pub pending: VecDeque<RosMessage>,
}

/// A ROS subscription shared by the clients subscribed to its topic.
pub struct Subscription {
    pub topic: String,
    pub transient_local: bool,
    /// The latest sample, replayed to clients that join a transient-local topic.
    pub retained: Option<RosMessage>,
    pub entity: Entity,
    pub typ: String,
    pub clients: Vec<ClientSubscription>,
}

/// A service offered by a client.
pub struct Service {
    pub name: String,
    pub next_request: u64,
    pub owner: Connection,
    pub entity: Entity,
    pub typ: String,
}

/// A service call made for a client.
pub struct Call {
    pub entity: Entity,
    pub sequence: i64,
    pub owner: Connection,
    pub id: Option<String>,
    pub service: String,
    pub options: Options,
    /// The deadline, in nanoseconds.
    pub expires: u64,
    /// The call lists parameter names, which the parameter allowlist filters.
    pub parameter_names: bool,
}

/// A ROS request to a client's service, waiting for the client's response.
pub struct ExternalRequest {
    pub id: String,
    pub owner: Connection,
    pub entity: Entity,
    pub request: u64,
    pub service: String,
    pub expires: u64,
}

/// An action goal sent for a client.
pub struct ClientGoal {
    pub key: String,
    pub owner: Connection,
    pub id: Option<String>,
    pub action: String,
    pub uuid: Json,
    pub feedback: bool,
    pub options: Options,
    pub send: Entity,
    pub result: Entity,
    pub cancel: Entity,
    pub feedback_sub: Entity,
    pub status_sub: Entity,
    pub accepted: bool,
    pub acceptance_deadline: u64,
    pub cancelling: bool,
}

/// What a request made for a goal was.
pub enum ActionCall {
    Send(String),
    Result(String),
    Cancel(String),
}

/// A request made for a goal, by the client entity and sequence it went out with.
pub struct GoalRequest {
    pub entity: Entity,
    pub sequence: i64,
    pub call: ActionCall,
}

/// An action offered by a client.
pub struct ActionServer {
    pub name: String,
    pub owner: Connection,
    pub advertised_type: String,
    pub typ: String,
    pub send: Entity,
    pub cancel: Entity,
    pub result: Entity,
    pub feedback: Entity,
    pub status: Entity,
}

/// A goal sent to a client's action server.
pub struct ServerGoal {
    pub key: String,
    pub owner: Connection,
    pub action: String,
    pub id: String,
    pub uuid: Json,
    pub status: i64,
    pub stamp: Json,
    pub result: Option<Json>,
    /// Result requests waiting for the goal to finish.
    pub requests: Vec<(Entity, u64)>,
    /// When the goal finished, in nanoseconds.
    pub completed: Option<u64>,
}

/// The protocol state of the bridge: connections and the ROS entities they own.
pub struct Bridge<B: Backend, W: Writer> {
    pub backend: B,
    pub access: Access,
    pub outputs: Vec<(Connection, W)>,
    pub publishers: Vec<Publisher>,
    pub subscriptions: Vec<Subscription>,
    pub services: Vec<Service>,
    pub calls: Vec<Call>,
    pub external: Vec<ExternalRequest>,
    pub goals: Vec<ClientGoal>,
    pub action_calls: Vec<GoalRequest>,
    pub action_servers: Vec<ActionServer>,
    pub server_goals: Vec<ServerGoal>,
    pub next: u64,
    /// How long calls and goals wait for ROS, in nanoseconds.
    pub timeout: u64,
    pub failed: Vec<Connection>,
    /// Every message handed to a connection's writer, in order.
    pub sent: Ghost<Seq<(Connection, JsonV)>>,
}

impl<B: Backend, W: Writer> Bridge<B, W> {
    /// Every reply handed to the backend for a ROS request, in order: the
    /// service entity, the request, and the reply.
    pub open spec fn responses(&self) -> Seq<(Entity, u64, JsonV)> {
        crate::backend::responded(self.backend.handed()@)
    }

    /// Every entity handed to the backend to destroy, in order.
    pub open spec fn destroyed(&self) -> Seq<Entity> {
        crate::backend::destroyed_of(self.backend.handed()@)
    }

    /// Every message handed to the backend to publish, in order: the
    /// publisher entity and the message.
    pub open spec fn published(&self) -> Seq<(Entity, JsonV)> {
        crate::backend::published_of(self.backend.handed()@)
    }

    /// Every event the backend reported, in order.
    pub open spec fn polled(&self) -> Seq<crate::backend::Event> {
        crate::backend::polled_of(self.backend.handed()@)
    }

    /// Every entity asked of the backend, in order: its name and interface type.
    pub open spec fn asked(&self) -> Seq<(Seq<char>, Seq<char>)> {
        crate::backend::asked_of(self.backend.handed()@)
    }

    /// Every entity the backend created, in order.
    pub open spec fn created(&self) -> Seq<Entity> {
        crate::backend::created_of(self.backend.handed()@)
    }

    /// Every reading of the backend's clock, in order: seconds and nanoseconds.
    pub open spec fn clock(&self) -> Seq<(i64, u32)> {
        crate::backend::clocks_of(self.backend.handed()@)
    }

    /// Every request handed to the backend, in order: the client entity and the request.
    pub open spec fn requested(&self) -> Seq<(Entity, JsonV)> {
        crate::backend::requested_of(self.backend.handed()@)
    }
}


/// Whether `b` is `a` with only the backend and the records of what was
/// asked of it changed.
pub open spec fn backend_only<B: Backend, W: Writer>(a: &Bridge<B, W>, b: &Bridge<B, W>) -> bool {
    &&& same_tables(b, a)
    &&& b.access == a.access
    &&& b.outputs == a.outputs
    &&& b.next == a.next
    &&& b.timeout == a.timeout
    &&& b.failed == a.failed
    &&& b.sent == a.sent
    &&& b.responses() == a.responses()
    &&& b.destroyed() == a.destroyed()
    &&& b.published() == a.published()
    &&& b.polled() == a.polled()
}

impl<B: Backend, W: Writer> Bridge<B, W> {
    /// Asks the backend for a publisher `name` of type `typ`.
    fn new_publisher(&mut self, name: &str, typ: &str, qos: crate::backend::Qos) -> (r: Result<Entity, Error>)
        ensures
            backend_only(old(self), final(self)),
            final(self).requested() == old(self).requested(),
            final(self).asked() == old(self).asked().push((name@, typ@)),
            final(self).created() == match r {
                Ok(e) => old(self).created().push(e),
                Err(_) => old(self).created(),
            },
    {
        let r = self.backend.publisher(name, typ, qos);
        if let Ok(e) = r {
        }
        r
    }

    /// Asks the backend for a subscription `name` of type `typ`.
    fn new_subscription(&mut self, name: &str, typ: &str, qos: crate::backend::Qos) -> (r: Result<Entity, Error>)
        ensures
            backend_only(old(self), final(self)),
            final(self).requested() == old(self).requested(),
            final(self).asked() == old(self).asked().push((name@, typ@)),
            final(self).created() == match r {
                Ok(e) => old(self).created().push(e),
                Err(_) => old(self).created(),
            },
    {
        let r = self.backend.subscription(name, typ, qos);
        if let Ok(e) = r {
        }
        r
    }

    /// Asks the backend for a service client `name` of type `typ`.
    fn new_client(&mut self, name: &str, typ: &str) -> (r: Result<Entity, Error>)
        ensures
            backend_only(old(self), final(self)),
            final(self).requested() == old(self).requested(),
            final(self).asked() == old(self).asked().push((name@, typ@)),
            final(self).created() == match r {
                Ok(e) => old(self).created().push(e),
                Err(_) => old(self).created(),
            },
    {
        let r = self.backend.client(name, typ);
        if let Ok(e) = r {
        }
        r
    }

    /// Asks the backend for a service `name` of type `typ`.
    fn new_service(&mut self, name: &str, typ: &str) -> (r: Result<Entity, Error>)
        ensures
            backend_only(old(self), final(self)),
            final(self).requested() == old(self).requested(),
            final(self).asked() == old(self).asked().push((name@, typ@)),
            final(self).created() == match r {
                Ok(e) => old(self).created().push(e),
                Err(_) => old(self).created(),
            },
    {
        let r = self.backend.service(name, typ);
        if let Ok(e) = r {
        }
        r
    }

    /// Hands request `args` to the backend through client `entity`.
    fn new_request(&mut self, entity: Entity, args: &Json) -> (r: Result<i64, Error>)
        ensures
            backend_only(old(self), final(self)),
            final(self).asked() == old(self).asked(),
            final(self).created() == old(self).created(),
            final(self).requested() == old(self).requested().push((entity, args@)),
    {
        self.backend.request(entity, args)
    }
}

/// `a` and `b`, one after the other.
pub fn concat(a: &str, b: &str) -> (r: String)
    ensures
        r@ == a@ + b@,
{
    let mut r = owned(a);
    append(&mut r, b);
    r
}

/// `now + span`, stopping at the largest time.
pub open spec fn saturated(now: u64, span: u64) -> u64 {
    if now + span > u64::MAX {
        u64::MAX
    } else {
        (now + span) as u64
    }
}

/// `a` begins with `b`: connections are only ever added behind those listed.
pub open spec fn starts_with(a: Seq<Connection>, b: Seq<Connection>) -> bool {
    &&& b.len() <= a.len()
    &&& forall|k: int| 0 <= k < b.len() ==> #[trigger] a[k] == b[k]
}

/// Every connection of `a` is also one of `b`.
pub open spec fn among<W>(a: Seq<(Connection, W)>, b: Seq<(Connection, W)>) -> bool {
    forall|c: Connection| #[trigger] connected(a, c) ==> connected(b, c)
}

/// Whether a connection is among `outputs`.
pub open spec fn connected<W>(outputs: Seq<(Connection, W)>, c: Connection) -> bool {
    exists|i: int| 0 <= i < outputs.len() && outputs[i].0 == c
}

/// The position of a connection among `outputs`, or their number.
fn output_index<W>(outputs: &Vec<(Connection, W)>, c: Connection) -> (i: usize)
    ensures
        i <= outputs@.len(),
        i < outputs@.len() ==> outputs@[i as int].0 == c,
        forall|k: int| 0 <= k < i ==> outputs@[k].0 != c,
{
    let mut i: usize = 0;
    while i < outputs.len()
        invariant
            i <= outputs@.len(),
            forall|k: int| 0 <= k < i ==> outputs@[k].0 != c,
        decreases outputs.len() - i,
    {
        if outputs[i].0 == c {
            return i;
        }
        i = i + 1;
    }
    i
}

impl<B: Backend, W: Writer> Bridge<B, W> {
    /// A bridge over `backend` whose calls and goals wait `timeout` nanoseconds.
    pub fn new(backend: B, timeout: u64) -> (r: Self)
        ensures
            r.backend == backend,
            r.timeout == timeout,
            r.outputs@.len() == 0,
            r.publishers@.len() == 0,
            r.subscriptions@.len() == 0,
            r.services@.len() == 0,
            r.calls@.len() == 0,
            r.external@.len() == 0,
            r.goals@.len() == 0,
            r.action_servers@.len() == 0,
            r.server_goals@.len() == 0,
            r.sent@.len() == 0,
            r.wf(),
    {
        Bridge {
            backend,
            access: Access::default(),
            outputs: Vec::new(),
            publishers: Vec::new(),
            subscriptions: Vec::new(),
            services: Vec::new(),
            calls: Vec::new(),
            external: Vec::new(),
            goals: Vec::new(),
            action_calls: Vec::new(),
            action_servers: Vec::new(),
            server_goals: Vec::new(),
            next: 0,
            timeout,
            failed: Vec::new(),
            sent: Ghost(Seq::empty()),
        }
    }

    /// Registers connection `c` and its writer, replacing an earlier one.
    pub fn connect(&mut self, c: Connection, output: W)
        ensures
            old(self).wf() ==> final(self).wf(),
            connected(final(self).outputs@, c),
            final(self).backend == old(self).backend,
            final(self).sent@ == old(self).sent@,
    {
        let i = output_index(&self.outputs, c);
        if i < self.outputs.len() {
            self.outputs.remove(i);
        }
        self.outputs.push((c, output));
        assert(self.outputs@[self.outputs@.len() - 1].0 == c);
    }

    /// A fresh fragment id, `rosbridge:<n>`.
    fn unique(&mut self) -> (r: String)
        ensures
            final(self).backend == old(self).backend,
            same_tables(final(self), old(self)),
            final(self).access == old(self).access,
            final(self).timeout == old(self).timeout,
            final(self).sent@ == old(self).sent@,
            final(self).outputs@ == old(self).outputs@,
            final(self).failed@ == old(self).failed@,
            final(self).responses() == old(self).responses(),
            final(self).destroyed() == old(self).destroyed(),
            final(self).published() == old(self).published(),
            final(self).clock() == old(self).clock(),
            final(self).next == (if old(self).next == u64::MAX { 0 } else { (old(self).next + 1) as u64 }),
            r@ == "rosbridge:"@ + crate::wire::decimal(final(self).next as nat),
    {
        self.next = self.next.wrapping_add(1);
        concat("rosbridge:", crate::wire::decimal_string(self.next).as_str())
    }

    /// Hands `value` (with the request id, where there is one) to `owner`'s
    /// writer; a writer that refuses it marks the connection failed.
    fn send(&mut self, owner: Connection, value: Json, request_id: &Option<String>, options: &Options, binary: Option<Cbor>, topic: Option<&str>)
        ensures
            final(self).backend == old(self).backend,
            same_tables(final(self), old(self)),
            final(self).access == old(self).access,
            final(self).timeout == old(self).timeout,
            final(self).outputs@.len() == old(self).outputs@.len(),
            forall|k: int| 0 <= k < old(self).outputs@.len() ==> #[trigger] final(self).outputs@[k].0 == old(self).outputs@[k].0,
            starts_with(final(self).failed@, old(self).failed@),
            final(self).failed@ == old(self).failed@ || final(self).failed@ == old(self).failed@.push(owner),
            final(self).responses() == old(self).responses(),
            final(self).destroyed() == old(self).destroyed(),
            final(self).published() == old(self).published(),
            final(self).clock() == old(self).clock(),
            final(self).sent@ == if connected(old(self).outputs@, owner) {
                old(self).sent@.push((owner, with_id(value@, *request_id)))
            } else {
                old(self).sent@
            },
    {
        let mut value = value;
        let ghost v0 = value@;
        match request_id {
            Some(id) => value.set("id", Json::string(id.as_str())),
            None => {},
        }
        let ghost v = value@;
        assert(v == with_id(v0, *request_id));
        let key = self.unique();
        let i = output_index(&self.outputs, owner);
        if i < self.outputs.len() {
            let ghost before = self.outputs@;
            let (c, mut w) = self.outputs.remove(i);
            let ok = w.try_send(&value, options, binary, key.as_str(), topic);
            self.outputs.insert(i, (c, w));
            assert forall|k: int| 0 <= k < before.len() implies #[trigger] self.outputs@[k].0 == before[k].0 by {
                if k != i {
                    assert(self.outputs@[k] == before[k]);
                }
            }
            proof {
                self.sent@ = self.sent@.push((owner, v));
            }
            if !ok {
                self.failed.push(owner);
            }
        } else {
            assert(!connected(self.outputs@, owner));
        }
    }
}

/// `value` with member `id` set where there is a request id.
pub open spec fn with_id(value: JsonV, request_id: Option<String>) -> JsonV {
    match request_id {
        Some(id) => JsonV::Object(crate::json::put(value.members(), "id"@, JsonV::Str(id@))),
        None => value,
    }
}

/// A JSON object of the given members.
pub open spec fn obj(members: Seq<(Seq<char>, JsonV)>) -> JsonV {
    JsonV::Object(members)
}

/// A member of `v`, or null where it has none (`v[key]`).
pub open spec fn member_or_null(v: JsonV, key: Seq<char>) -> JsonV {
    match v.field(key) {
        Some(x) => x,
        None => JsonV::Null,
    }
}

/// The reply to a refused request: a failed service response, a failed
/// action result, or an error status, after the request's operation.
pub open spec fn error_reply(v: JsonV, message: Seq<char>) -> JsonV {
    let op = match v.text_at("op"@) {
        Some(op) => op,
        None => Seq::empty(),
    };
    if op == "call_service"@ {
        obj(seq![
            ("op"@, JsonV::Str("service_response"@)),
            ("service"@, member_or_null(v, "service"@)),
            ("result"@, JsonV::Bool(false)),
            ("values"@, JsonV::Str(message)),
        ])
    } else if op == "send_action_goal"@ {
        obj(seq![
            ("op"@, JsonV::Str("action_result"@)),
            ("action"@, member_or_null(v, "action"@)),
            ("result"@, JsonV::Bool(false)),
            ("status"@, JsonV::UInt(6)),
            ("values"@, JsonV::Str(message)),
        ])
    } else {
        obj(seq![
            ("op"@, JsonV::Str("status"@)),
            ("level"@, JsonV::Str("error"@)),
            ("msg"@, JsonV::Str(message)),
        ])
    }
}

/// The request id of a message where it has a valid one.
pub open spec fn reply_id(v: JsonV) -> Option<Seq<char>> {
    match id_of(v) {
        Ok(Some(s)) => Some(s),
        _ => None,
    }
}

/// `reply` with member `id` where the request carried one.
pub open spec fn with_reply_id(reply: JsonV, id: Option<Seq<char>>) -> JsonV {
    match id {
        Some(s) => JsonV::Object(crate::json::put(reply.members(), "id"@, JsonV::Str(s))),
        None => reply,
    }
}

/// A copy of member `key`, or null.
fn member_copy(v: &Json, key: &str) -> (r: Json)
    ensures
        r@ == member_or_null(v@, key@),
{
    match v.get(key) {
        Some(x) => x.copy(),
        None => Json::Null,
    }
}

/// The reply to request `v`, refused for `message`.
fn error_value(v: &Json, message: &str) -> (r: Json)
    ensures
        r@ == error_reply(v@, message@),
{
    let (is_call, is_goal) = match v.str_at("op") {
        Some(op) => (crate::text::same(op, "call_service"), crate::text::same(op, "send_action_goal")),
        None => (false, false),
    };
    proof {
        reveal_strlit("call_service");
        reveal_strlit("send_action_goal");
    }
    if is_call {
        let service = member_copy(v, "service");
        let ghost sv = service@;
        let r = Json::object()
            .member("op", Json::string("service_response"))
            .member("service", service)
            .member("result", Json::Bool(false))
            .member("values", Json::string(message));
        assert(r@.members() =~= seq![
            ("op"@, JsonV::Str("service_response"@)),
            ("service"@, sv),
            ("result"@, JsonV::Bool(false)),
            ("values"@, JsonV::Str(message@)),
        ]);
        assert(v@.text_at("op"@) == Some("call_service"@));
        assert(r@ == error_reply(v@, message@));
        r
    } else if is_goal {
        let action = member_copy(v, "action");
        let ghost av = action@;
        let r = Json::object()
            .member("op", Json::string("action_result"))
            .member("action", action)
            .member("result", Json::Bool(false))
            .member("status", Json::UInt(6))
            .member("values", Json::string(message));
        assert(r@.members() =~= seq![
            ("op"@, JsonV::Str("action_result"@)),
            ("action"@, av),
            ("result"@, JsonV::Bool(false)),
            ("status"@, JsonV::UInt(6)),
            ("values"@, JsonV::Str(message@)),
        ]);
        assert(v@.text_at("op"@) == Some("send_action_goal"@));
        assert("send_action_goal"@ != "call_service"@);
        assert(r@ == error_reply(v@, message@));
        r
    } else {
        let r = Json::object()
            .member("op", Json::string("status"))
            .member("level", Json::string("error"))
            .member("msg", Json::string(message));
        assert(r@.members() =~= seq![
            ("op"@, JsonV::Str("status"@)),
            ("level"@, JsonV::Str("error"@)),
            ("msg"@, JsonV::Str(message@)),
        ]);
        assert(v@.text_at("op"@) != Some("send_action_goal"@));
        assert(v@.text_at("op"@) != Some("call_service"@));
        assert("call_service"@.len() == 12);
        assert("send_action_goal"@.len() == 16);
        assert(r@ == error_reply(v@, message@));
        r
    }
}

/// Whether no two publishers share a topic.
pub open spec fn distinct_publishers(ps: Seq<Publisher>) -> bool {
    forall|i: int, j: int| 0 <= i < j < ps.len() ==> #[trigger] ps[i].topic@ != #[trigger] ps[j].topic@
}

/// Whether one of the first `n` publishers of `src` is for topic `t`.
pub open spec fn publisher_before(src: Seq<Publisher>, t: Seq<char>, n: int) -> bool {
    exists|j: int| 0 <= j < n && #[trigger] src[j].topic@ == t
}

/// Whether one of the first `n` subscriptions of `src` is for topic `t`.
pub open spec fn subscription_before(src: Seq<Subscription>, t: Seq<char>, n: int) -> bool {
    exists|j: int| 0 <= j < n && #[trigger] src[j].topic@ == t
}

/// Taking an entry out of a list of services keeps their names apart.
pub proof fn lemma_distinct_services_remove(ss: Seq<Service>, i: int)
    requires
        distinct_services(ss),
        0 <= i < ss.len(),
    ensures
        distinct_services(ss.remove(i)),
{
    let r = ss.remove(i);
    assert forall|a: int, b: int| 0 <= a < b < r.len() implies #[trigger] r[a].name@ != #[trigger] r[b].name@ by {
        let x = if a < i { a } else { a + 1 };
        let y = if b < i { b } else { b + 1 };
        assert(r[a] == ss[x] && r[b] == ss[y]);
        assert(ss[x].name@ != ss[y].name@);
    }
}

/// Taking an entry out of a list of goals keeps their keys apart.
pub proof fn lemma_distinct_goals_remove(gs: Seq<ClientGoal>, i: int)
    requires
        distinct_goals(gs),
        0 <= i < gs.len(),
    ensures
        distinct_goals(gs.remove(i)),
{
    let r = gs.remove(i);
    assert forall|a: int, b: int| 0 <= a < b < r.len() implies #[trigger] r[a].key@ != #[trigger] r[b].key@ by {
        let x = if a < i { a } else { a + 1 };
        let y = if b < i { b } else { b + 1 };
        assert(r[a] == gs[x] && r[b] == gs[y]);
        assert(gs[x].key@ != gs[y].key@);
    }
}

/// Taking an entry out of a list of server goals keeps their keys apart.
pub proof fn lemma_distinct_server_goals_remove(gs: Seq<ServerGoal>, i: int)
    requires
        distinct_server_goals(gs),
        0 <= i < gs.len(),
    ensures
        distinct_server_goals(gs.remove(i)),
{
    let r = gs.remove(i);
    assert forall|a: int, b: int| 0 <= a < b < r.len() implies #[trigger] r[a].key@ != #[trigger] r[b].key@ by {
        let x = if a < i { a } else { a + 1 };
        let y = if b < i { b } else { b + 1 };
        assert(r[a] == gs[x] && r[b] == gs[y]);
        assert(gs[x].key@ != gs[y].key@);
    }
}

/// Putting back, at its place, a server goal with its key unchanged keeps the
/// keys apart.
pub proof fn lemma_distinct_server_goals_update(gs: Seq<ServerGoal>, i: int, g: ServerGoal)
    requires
        distinct_server_goals(gs),
        0 <= i < gs.len(),
        g.key@ == gs[i].key@,
    ensures
        distinct_server_goals(gs.update(i, g)),
{
    let r = gs.update(i, g);
    assert forall|a: int, b: int| 0 <= a < b < r.len() implies #[trigger] r[a].key@ != #[trigger] r[b].key@ by {
        assert(r[a].key@ == gs[a].key@ && r[b].key@ == gs[b].key@);
    }
}

/// Putting back, at its place, a goal with its key unchanged keeps the keys
/// apart.
pub proof fn lemma_distinct_goals_update(gs: Seq<ClientGoal>, i: int, g: ClientGoal)
    requires
        distinct_goals(gs),
        0 <= i < gs.len(),
        g.key@ == gs[i].key@,
    ensures
        distinct_goals(gs.update(i, g)),
{
    let r = gs.update(i, g);
    assert forall|a: int, b: int| 0 <= a < b < r.len() implies #[trigger] r[a].key@ != #[trigger] r[b].key@ by {
        assert(r[a].key@ == gs[a].key@ && r[b].key@ == gs[b].key@);
    }
}

/// Taking an entry out of a list of action servers keeps their names apart.
pub proof fn lemma_distinct_servers_remove(ss: Seq<ActionServer>, i: int)
    requires
        distinct_action_servers(ss),
        0 <= i < ss.len(),
    ensures
        distinct_action_servers(ss.remove(i)),
{
    let r = ss.remove(i);
    assert forall|a: int, b: int| 0 <= a < b < r.len() implies #[trigger] r[a].name@ != #[trigger] r[b].name@ by {
        let x = if a < i { a } else { a + 1 };
        let y = if b < i { b } else { b + 1 };
        assert(r[a] == ss[x] && r[b] == ss[y]);
        assert(ss[x].name@ != ss[y].name@);
    }
}

/// Whether no connection has two writers.
pub open spec fn distinct_connections<W>(outs: Seq<(Connection, W)>) -> bool {
    forall|i: int, j: int| 0 <= i < j < outs.len() ==> #[trigger] outs[i].0 != #[trigger] outs[j].0
}

/// Taking a writer out keeps the connections apart.
pub proof fn lemma_distinct_connections_remove<W>(outs: Seq<(Connection, W)>, i: int)
    requires
        distinct_connections(outs),
        0 <= i < outs.len(),
    ensures
        distinct_connections(outs.remove(i)),
{
    let r = outs.remove(i);
    assert forall|a: int, b: int| 0 <= a < b < r.len() implies #[trigger] r[a].0 != #[trigger] r[b].0 by {
        let x = if a < i { a } else { a + 1 };
        let y = if b < i { b } else { b + 1 };
        assert(r[a] == outs[x] && r[b] == outs[y]);
        assert(outs[x].0 != outs[y].0);
    }
}

/// Writers for the same connections, in the same order, keep them apart.
pub proof fn lemma_same_ids_distinct<W>(a: Seq<(Connection, W)>, b: Seq<(Connection, W)>)
    requires
        same_ids(a, b),
        distinct_connections(b),
    ensures
        distinct_connections(a),
{
    assert forall|i: int, j: int| 0 <= i < j < a.len() implies #[trigger] a[i].0 != #[trigger] a[j].0 by {
        assert(a[i].0 == b[i].0 && a[j].0 == b[j].0);
    }
}

/// Whether no two goals sent for clients share a key.
pub open spec fn distinct_goals(gs: Seq<ClientGoal>) -> bool {
    forall|i: int, j: int| 0 <= i < j < gs.len() ==> #[trigger] gs[i].key@ != #[trigger] gs[j].key@
}

/// Whether no two goals sent to client action servers share a key.
pub open spec fn distinct_server_goals(gs: Seq<ServerGoal>) -> bool {
    forall|i: int, j: int| 0 <= i < j < gs.len() ==> #[trigger] gs[i].key@ != #[trigger] gs[j].key@
}

/// Whether no two subscriptions share a topic.
pub open spec fn distinct_subscriptions(ss: Seq<Subscription>) -> bool {
    forall|i: int, j: int| 0 <= i < j < ss.len() ==> #[trigger] ss[i].topic@ != #[trigger] ss[j].topic@
}

/// Whether no two advertised services share a name.
pub open spec fn distinct_services(ss: Seq<Service>) -> bool {
    forall|i: int, j: int| 0 <= i < j < ss.len() ==> #[trigger] ss[i].name@ != #[trigger] ss[j].name@
}

/// Whether no two advertised actions share a name.
pub open spec fn distinct_action_servers(ss: Seq<ActionServer>) -> bool {
    forall|i: int, j: int| 0 <= i < j < ss.len() ==> #[trigger] ss[i].name@ != #[trigger] ss[j].name@
}

impl<B: Backend, W: Writer> Bridge<B, W> {
    /// The bridge's tables are keyed as maps: no topic has two publishers or
    /// two subscriptions, no service or action is advertised twice, and no
    /// goal key is used twice; each connection has one writer.
    pub open spec fn wf(&self) -> bool {
        &&& distinct_publishers(self.publishers@)
        &&& distinct_subscriptions(self.subscriptions@)
        &&& distinct_services(self.services@)
        &&& distinct_action_servers(self.action_servers@)
        &&& distinct_goals(self.goals@)
        &&& distinct_server_goals(self.server_goals@)
        &&& distinct_connections(self.outputs@)
    }
}

/// The tables of `a` and `b` are the same.
pub open spec fn same_tables<B: Backend, W: Writer>(a: &Bridge<B, W>, b: &Bridge<B, W>) -> bool {
    &&& a.publishers == b.publishers
    &&& a.subscriptions == b.subscriptions
    &&& a.services == b.services
    &&& a.calls == b.calls
    &&& a.external == b.external
    &&& a.goals == b.goals
    &&& a.action_calls == b.action_calls
    &&& a.action_servers == b.action_servers
    &&& a.server_goals == b.server_goals
}

impl<B: Backend, W: Writer> Bridge<B, W> {
    /// Answers request `v` of `owner`, refused for `error`: a failed service
    /// response for `call_service`, a failed action result for
    /// `send_action_goal`, and an error status otherwise.
    pub fn error(&mut self, owner: Connection, v: &Json, error: &Error)
        ensures
            old(self).wf() ==> final(self).wf(),
            final(self).backend == old(self).backend,
            final(self).responses() == old(self).responses(),
            final(self).published() == old(self).published(),
            final(self).outputs@.len() == old(self).outputs@.len(),
            forall|k: int| 0 <= k < old(self).outputs@.len() ==> #[trigger] final(self).outputs@[k].0 == old(self).outputs@[k].0,
            final(self).access == old(self).access,
            final(self).timeout == old(self).timeout,
            same_tables(final(self), old(self)),
            final(self).sent@ == if connected(old(self).outputs@, owner) {
                old(self).sent@.push((owner, with_reply_id(error_reply(v@, error.message@), reply_id(v@))))
            } else {
                old(self).sent@
            },
    {
        let request_id = match id(v) {
            Ok(i) => i,
            Err(_) => None,
        };
        let reply = error_value(v, error.message.as_str());
        let options = Options::default();
        self.send(owner, reply, &request_id, &options, None, None);
    }
}

/// The ROS graph: names and the types they are used with.
pub open spec fn graph_view(g: Seq<(String, Vec<String>)>) -> Seq<(Seq<char>, Seq<Seq<char>>)> {
    Seq::new(g.len(), |i: int| (g[i].0@, views(g[i].1@)))
}

/// The types of `name` in the graph, from its first entry.
pub open spec fn graph_types(g: Seq<(Seq<char>, Seq<Seq<char>>)>, name: Seq<char>) -> Option<Seq<Seq<char>>> {
    if exists|i: int| 0 <= i < g.len() && g[i].0 == name {
        let i = choose|i: int| 0 <= i < g.len() && g[i].0 == name && forall|k: int| 0 <= k < i ==> #[trigger] g[k].0 != name;
        Some(g[i].1)
    } else {
        None
    }
}

/// A list of types as `["a", "b"]`.
pub open spec fn quoted_list(types: Seq<Seq<char>>) -> Seq<char> {
    seq!['['] + quoted_items(types) + seq![']']
}

pub open spec fn quoted_items(types: Seq<Seq<char>>) -> Seq<char>
    decreases types.len(),
{
    if types.len() == 0 {
        Seq::empty()
    } else if types.len() == 1 {
        seq!['"'] + crate::wire::escape(types[0]) + seq!['"']
    } else {
        quoted_items(types.drop_last()) + ", \""@ + crate::wire::escape(types.last()) + seq!['"']
    }
}

/// Every entry of `types` is `typ`.
pub open spec fn all_equal(types: Seq<Seq<char>>, typ: Seq<char>) -> bool {
    forall|i: int| 0 <= i < types.len() ==> #[trigger] types[i] == typ
}

/// The type of interface `key` of request `v` of `kind` (`msg` or `srv`): the
/// requested type, which must agree with the graph, or else the graph's one type.
pub open spec fn resolved(g: Seq<(Seq<char>, Seq<Seq<char>>)>, v: JsonV, key: Seq<char>, kind: Seq<char>) -> Result<Seq<char>, Seq<char>> {
    match name_of(v, key) {
        Err(e) => Err(e),
        Ok(topic) => match v.field("type"@) {
            Some(t) => match t.text() {
                None => Err("type must be a string"@),
                Some(ts) => match crate::backend::spec_interface_name(ts, kind) {
                    None => Err(crate::backend::interface_error(ts, kind)),
                    Some(typ) => match graph_types(g, topic) {
                        Some(types) => if all_equal(types, typ) {
                            Ok(typ)
                        } else {
                            Err(topic + " has another type: requested "@ + typ + ", ROS graph "@ + quoted_list(types))
                        },
                        None => Ok(typ),
                    },
                },
            },
            None => match graph_types(g, topic) {
                None => Err("type is required when interface is absent from ROS graph"@),
                Some(types) => if types.len() != 1 {
                    Err("interface has ambiguous types"@)
                } else {
                    Ok(types[0])
                },
            },
        },
    }
}

/// The position of the first entry of `name` in the graph, or its length.
fn graph_index(g: &Vec<(String, Vec<String>)>, name: &str) -> (i: usize)
    ensures
        i <= g@.len(),
        i < g@.len() ==> g@[i as int].0@ == name@,
        forall|k: int| 0 <= k < i ==> g@[k].0@ != name@,
{
    let mut i: usize = 0;
    while i < g.len()
        invariant
            i <= g@.len(),
            forall|k: int| 0 <= k < i ==> g@[k].0@ != name@,
        decreases g.len() - i,
    {
        if same(g[i].0.as_str(), name) {
            return i;
        }
        i = i + 1;
    }
    i
}

/// `types` as `["a", "b"]`.
fn quote_types(types: &Vec<String>) -> (r: String)
    ensures
        r@ == quoted_list(views(types@)),
{
    let ghost tv = views(types@);
    let mut r = String::new();
    let mut i: usize = 0;
    while i < types.len()
        invariant
            i <= types@.len(),
            tv == views(types@),
            r@ == quoted_items(tv.take(i as int)),
        decreases types.len() - i,
    {
        assert(tv.take(i + 1).drop_last() =~= tv.take(i as int));
        if i > 0 {
            append(&mut r, ", ");
        }
        push_char(&mut r, '"');
        crate::wire::append_escaped(&mut r, types[i].as_str());
        push_char(&mut r, '"');
        proof {
            if i == 0 {
                assert(r@ =~= seq!['"'] + crate::wire::escape(tv[0]) + seq!['"']);
            } else {
                reveal_strlit(", ");
                assert(r@ =~= quoted_items(tv.take(i as int)) + ", \""@ + crate::wire::escape(tv.take(i + 1).last()) + seq!['"']) by {
                    reveal_strlit(", \"");
                }
            }
        }
        i = i + 1;
    }
    assert(tv.take(i as int) =~= tv);
    let mut out = String::new();
    push_char(&mut out, '[');
    append(&mut out, r.as_str());
    push_char(&mut out, ']');
    assert(out@ =~= quoted_list(tv));
    out
}

/// The type of interface `key` of request `v` against the graph `g`.
pub fn resolve_in(g: &Vec<(String, Vec<String>)>, v: &Json, key: &str, kind: &str) -> (r: Result<String, Error>)
    ensures
        match r {
            Ok(t) => resolved(graph_view(g@), v@, key@, kind@) == Ok::<Seq<char>, Seq<char>>(t@),
            Err(e) => resolved(graph_view(g@), v@, key@, kind@) == Err::<Seq<char>, Seq<char>>(e.message@),
        },
{
    let ghost gv = graph_view(g@);
    let topic = name(v, key)?;
    let i = graph_index(g, topic.as_str());
    proof {
        if i < g@.len() {
            assert(gv[i as int].0 == topic@);
            assert forall|k: int| 0 <= k < i implies #[trigger] gv[k].0 != topic@ by {
                assert(gv[k].0 == g@[k].0@);
            }
            let c = choose|c: int| 0 <= c < gv.len() && gv[c].0 == topic@ && forall|k: int| 0 <= k < c ==> #[trigger] gv[k].0 != topic@;
            if c < i {
                assert(gv[c].0 != topic@);
            } else if i < c {
                assert(gv[i as int].0 != topic@);
            }
            assert(graph_types(gv, topic@) == Some(views(g@[i as int].1@)));
        } else {
            assert forall|k: int| 0 <= k < gv.len() implies gv[k].0 != topic@ by {
                assert(gv[k].0 == g@[k].0@);
            }
            assert(graph_types(gv, topic@) is None);
        }
    }
    match v.get("type") {
        Some(t) => {
            let ts = match t.as_str() {
                Some(ts) => ts,
                None => return Err(Error::new("type must be a string")),
            };
            let typ = crate::backend::interface_name(ts, kind)?;
            if i < g.len() {
                let types = &g[i].1;
                let ghost tv = views(types@);
                let mut j: usize = 0;
                while j < types.len()
                    invariant
                        j <= types@.len(),
                        tv == views(types@),
                        forall|k: int| 0 <= k < j ==> #[trigger] tv[k] == typ@,
                        graph_types(graph_view(g@), topic@) == Some(tv),
                        name_of(v@, key@) == Ok::<Seq<char>, Seq<char>>(topic@),
                        v@.field("type"@) == Some(t@),
                        t@.text() == Some(ts@),
                        crate::backend::spec_interface_name(ts@, kind@) == Some(typ@),
                    decreases types.len() - j,
                {
                    if !same(types[j].as_str(), typ.as_str()) {
                        let mut m = concat(topic.as_str(), " has another type: requested ");
                        append(&mut m, typ.as_str());
                        append(&mut m, ", ROS graph ");
                        append(&mut m, quote_types(types).as_str());
                        assert(!(tv[j as int] == typ@));
                        assert(!all_equal(tv, typ@));
                        assert(m@ == topic@ + " has another type: requested "@ + typ@ + ", ROS graph "@ + quoted_list(tv));
                        assert(resolved(graph_view(g@), v@, key@, kind@) == Err::<Seq<char>, Seq<char>>(m@));
                        return Err(Error { message: m });
                    }
                    j = j + 1;
                }
            }
            Ok(typ)
        },
        None => {
            if i == g.len() {
                return Err(Error::new("type is required when interface is absent from ROS graph"));
            }
            let types = &g[i].1;
            if types.len() != 1 {
                return Err(Error::new("interface has ambiguous types"));
            }
            Ok(owned(types[0].as_str()))
        },
    }
}

impl<B: Backend, W: Writer> Bridge<B, W> {
    /// The type of interface `key` of request `v`, against the topics (`msg`)
    /// or services of the ROS graph.
    fn resolve(&mut self, v: &Json, key: &str, kind: &str) -> (r: Result<String, Error>)
        ensures
            same_tables(final(self), old(self)),
            final(self).access == old(self).access,
            final(self).timeout == old(self).timeout,
            final(self).sent@ == old(self).sent@,
            final(self).outputs@ == old(self).outputs@,
            final(self).failed@ == old(self).failed@,
            final(self).published() == old(self).published(),
            final(self).destroyed() == old(self).destroyed(),
            final(self).responses() == old(self).responses(),
            r is Ok ==> name_of(v@, key@) is Ok,
            r matches Ok(t) ==> exists|g: Seq<(Seq<char>, Seq<Seq<char>>)>|
                #[trigger] resolved(g, v@, key@, kind@) == Ok::<Seq<char>, Seq<char>>(t@),
    {
        let graph = if same(kind, "msg") {
            self.backend.topics()?
        } else {
            self.backend.services()?
        };
        let r = resolve_in(&graph, v, key, kind);
        r
    }
}

/// Every element of `a` is an element of `b`.
pub open spec fn within<T>(a: Seq<T>, b: Seq<T>) -> bool {
    forall|k: int| 0 <= k < a.len() ==> b.contains(#[trigger] a[k])
}

pub proof fn lemma_within_refl<T>(a: Seq<T>)
    ensures
        within(a, a),
{
    assert forall|k: int| 0 <= k < a.len() implies a.contains(#[trigger] a[k]) by {
        assert(a[k] == a[k]);
    }
}

pub proof fn lemma_within_remove<T>(a: Seq<T>, b: Seq<T>, i: int)
    requires
        within(a, b),
        0 <= i < a.len(),
    ensures
        within(a.remove(i), b),
{
    assert forall|k: int| 0 <= k < a.remove(i).len() implies b.contains(#[trigger] a.remove(i)[k]) by {
        let m = if k < i { k } else { k + 1 };
        assert(a.remove(i)[k] == a[m]);
    }
}

pub proof fn lemma_within_trans<T>(a: Seq<T>, b: Seq<T>, c: Seq<T>)
    requires
        within(a, b),
        within(b, c),
    ensures
        within(a, c),
{
    assert forall|k: int| 0 <= k < a.len() implies c.contains(#[trigger] a[k]) by {
        assert(b.contains(a[k]));
        let j = choose|j: int| 0 <= j < b.len() && b[j] == a[k];
        assert(c.contains(b[j]));
    }
}

/// The owner of each client goal.
pub open spec fn goal_owners(gs: Seq<ClientGoal>) -> Seq<Connection> {
    Seq::new(gs.len(), |i: int| gs[i].owner)
}

/// The owner of each call.
pub open spec fn call_owners(cs: Seq<Call>) -> Seq<Connection> {
    Seq::new(cs.len(), |i: int| cs[i].owner)
}

/// The allowlist's refusal of request `v`, where the request names what it
/// uses and the allowlist denies it: topics to publish or subscribe, services
/// to call or offer, actions to use or offer.
pub open spec fn denial(a: crate::access::AccessV, v: JsonV) -> Option<Seq<char>> {
    if id_of(v) is Err {
        None
    } else {
        match required_of(v, "op"@) {
            None => None,
            Some(op) => {
                let checked = if op == "advertise"@ {
                    match name_of(v, "topic"@) {
                        Ok(t) => crate::access::topic_check(a, t, true),
                        Err(_) => Ok(()),
                    }
                } else if op == "publish"@ {
                    match (name_of(v, "topic"@), v.field("msg"@)) {
                        (Ok(t), Some(JsonV::Object(_))) => crate::access::topic_check(a, t, true),
                        _ => Ok(()),
                    }
                } else if op == "subscribe"@ {
                    match name_of(v, "topic"@) {
                        Ok(t) => crate::access::topic_check(a, t, false),
                        Err(_) => Ok(()),
                    }
                } else if op == "call_service"@ || op == "advertise_service"@ {
                    match name_of(v, "service"@) {
                        Ok(s) => crate::access::service_check(a, s),
                        Err(_) => Ok(()),
                    }
                } else if op == "send_action_goal"@ {
                    match name_of(v, "action"@) {
                        Ok(n) => crate::access::action_check(a, n, false),
                        Err(_) => Ok(()),
                    }
                } else if op == "advertise_action"@ {
                    match name_of(v, "action"@) {
                        Ok(n) => crate::access::action_check(a, n, true),
                        Err(_) => Ok(()),
                    }
                } else {
                    Ok(())
                };
                match checked {
                    Err(m) => Some(m),
                    Ok(()) => None,
                }
            },
        }
    }
}

/// Each request is held to the allowlist of what it touches: subscribing to
/// the subscription topic list, advertising and publishing to the publishing
/// topic list, calling and offering services to the service list; a request
/// that a list refuses is refused with that list's denial.
pub proof fn lemma_requests_checked(a: crate::access::AccessV, v: JsonV, t: Seq<char>)
    requires
        id_of(v) is Ok,
    ensures
        required_of(v, "op"@) == Some("subscribe"@) && name_of(v, "topic"@) == Ok::<Seq<char>, Seq<char>>(t)
            ==> (denial(a, v) is None) == crate::access::allowed(a.sub_topics, t),
        required_of(v, "op"@) == Some("advertise"@) && name_of(v, "topic"@) == Ok::<Seq<char>, Seq<char>>(t)
            ==> (denial(a, v) is None) == crate::access::allowed(a.pub_topics, t),
        required_of(v, "op"@) == Some("publish"@) && name_of(v, "topic"@) == Ok::<Seq<char>, Seq<char>>(t)
            && v.field("msg"@) is Some && v.field("msg"@)->0 is Object
            ==> (denial(a, v) is None) == crate::access::allowed(a.pub_topics, t),
        (required_of(v, "op"@) == Some("call_service"@) || required_of(v, "op"@) == Some("advertise_service"@))
            && name_of(v, "service"@) == Ok::<Seq<char>, Seq<char>>(t)
            ==> (denial(a, v) is None) == crate::access::allowed(a.services, t),
        denial(a, v) is Some ==> (denial(a, v)->0).len() > 0,
{
    reveal_strlit("subscribe");
    reveal_strlit("advertise");
    reveal_strlit("publish");
    reveal_strlit("call_service");
    reveal_strlit("advertise_service");
    reveal_strlit("send_action_goal");
    reveal_strlit("advertise_action");
    reveal_strlit(" denies ");
    assert(("subscribe"@)[0] == 's' && ("advertise"@)[0] == 'a' && ("publish"@)[0] == 'p');
    assert(("call_service"@)[0] == 'c' && ("send_action_goal"@)[0] == 's');
    assert(("subscribe"@)[1] == 'u' && ("send_action_goal"@)[1] == 'e');
    assert(("advertise"@).len() != ("advertise_service"@).len() && ("advertise"@).len() != ("advertise_action"@).len());
    assert(("advertise_service"@).len() != ("advertise_action"@).len());
    assert(("subscribe"@).len() != ("send_action_goal"@).len());
}

/// Whether `op` names an operation that a client can ask for.
pub open spec fn known_op(op: Seq<char>) -> bool {
    ||| op == "advertise"@ || op == "unadvertise"@ || op == "publish"@ || op == "subscribe"@
    ||| op == "unsubscribe"@ || op == "call_service"@ || op == "advertise_service"@
    ||| op == "unadvertise_service"@ || op == "service_response"@ || op == "send_action_goal"@
    ||| op == "cancel_action_goal"@ || op == "advertise_action"@ || op == "unadvertise_action"@
    ||| op == "action_feedback"@ || op == "action_result"@
}

/// The refusal of request `v` before its operation is looked at further: an
/// id that is not a string, a missing operation, or an unknown one.
pub open spec fn malformed(v: JsonV) -> Option<Seq<char>> {
    match id_of(v) {
        Err(m) => Some(m),
        Ok(_) => match required_of(v, "op"@) {
            None => Some("op"@ + " must be a nonempty string"@),
            Some(op) => if known_op(op) {
                None
            } else {
                Some("unknown operation: "@ + op)
            },
        },
    }
}

impl<B: Backend, W: Writer> Bridge<B, W> {
    /// Carries out request `v` of `owner`.
    fn execute(&mut self, owner: Connection, v: &Json, now: u64) -> (r: Result<(), Error>)
        ensures
            old(self).wf() ==> final(self).wf(),
            final(self).access == old(self).access,
            final(self).timeout == old(self).timeout,
            denial(old(self).access@, v@) matches Some(m) ==> r matches Err(e) && e.message@ == m
                && final(self).backend == old(self).backend && same_tables(final(self), old(self))
                && final(self).sent@ == old(self).sent@ && final(self).outputs@ == old(self).outputs@,
            malformed(v@) matches Some(m) ==> r matches Err(e) && e.message@ == m
                && final(self).backend == old(self).backend && same_tables(final(self), old(self))
                && final(self).sent@ == old(self).sent@ && final(self).outputs@ == old(self).outputs@,
            topics::type_mismatch(old(self).access@, old(self).publishers@, v@)
                ==> (r matches Err(e) && e.message@ == "topic type mismatch"@)
                && final(self).backend == old(self).backend && same_tables(final(self), old(self))
                && final(self).sent@ == old(self).sent@ && final(self).outputs@ == old(self).outputs@,
            services::response_owed(old(self).external@, owner, v@) && required_of(v@, "op"@) == Some("service_response"@)
                && id_of(v@) is Ok ==> forall|i: int| #[trigger] services::first_request(old(self).external@, required_of(v@, "id"@)->Some_0, i) ==> {
                &&& final(self).responses() == old(self).responses().push((old(self).external@[i].entity, old(self).external@[i].request, member_or_null(v@, "values"@)))
                &&& (r is Ok ==> final(self).external@ == old(self).external@.remove(i))
            },
            topics::publish_owed(old(self).access@, old(self).publishers@, v@) ==> forall|i: int|
                #[trigger] topics::first_publisher(old(self).publishers@, name_of(v@, "topic"@)->Ok_0, i)
                ==> final(self).published() == old(self).published().push((old(self).publishers@[i].entity, member_or_null(v@, "msg"@))),
            required_of(v@, "op"@) == Some("publish"@) && r is Ok ==> {
                &&& final(self).published().len() == old(self).published().len() + 1
                &&& final(self).published().drop_last() == old(self).published()
                &&& final(self).published().last().1 == member_or_null(v@, "msg"@)
                &&& exists|i: int| #[trigger] topics::first_publisher(final(self).publishers@, name_of(v@, "topic"@)->Ok_0, i)
                    && final(self).published().last().0 == final(self).publishers@[i].entity
            },
            required_of(v@, "op"@) == Some("subscribe"@) && r is Ok
                ==> topics::subscribed_with(final(self).subscriptions@, owner, name_of(v@, "topic"@)->Ok_0, id_of(v@)->Ok_0,
                    crate::wire::spec_options(v@)->Some_0),
            required_of(v@, "op"@) == Some("call_service"@) && r is Ok
                ==> services::call_added(old(self).calls@, final(self).calls@, owner, v@, now, old(self).timeout),
            required_of(v@, "op"@) == Some("call_service"@) && r is Err ==> final(self).calls == old(self).calls,
            required_of(v@, "op"@) == Some("service_response"@) && id_of(v@) is Ok && services::spoofed(old(self).external@, owner, v@)
                ==> (r matches Err(e) && e.message@ == "service response does not belong to this client"@)
                && final(self).backend == old(self).backend && final(self).external == old(self).external
                && same_tables(final(self), old(self)) && final(self).sent@ == old(self).sent@
                && final(self).outputs@ == old(self).outputs@,
            required_of(v@, "op"@) == Some("service_response"@) && r is Ok
                ==> forall|i: int| #[trigger] services::first_request(old(self).external@, required_of(v@, "id"@)->Some_0, i) ==> {
                    &&& final(self).responses() == old(self).responses().push((old(self).external@[i].entity, old(self).external@[i].request, member_or_null(v@, "values"@)))
                    &&& final(self).external@ == old(self).external@.remove(i)
                },
    {
        proof {
            reveal_strlit("advertise");
            reveal_strlit("unadvertise");
            reveal_strlit("publish");
            reveal_strlit("subscribe");
            reveal_strlit("unsubscribe");
            reveal_strlit("call_service");
            reveal_strlit("advertise_service");
            reveal_strlit("unadvertise_service");
            reveal_strlit("service_response");
            reveal_strlit("send_action_goal");
            reveal_strlit("cancel_action_goal");
            reveal_strlit("advertise_action");
            reveal_strlit("unadvertise_action");
            reveal_strlit("action_feedback");
            reveal_strlit("action_result");
            assert("subscribe"@[0] != "advertise"@[0]);
            assert("service_response"@[2] != "send_action_goal"@[2]);
            assert("service_response"@[0] != "advertise_action"@[0]);
            assert("advertise_action"@[0] != "send_action_goal"@[0]);
        }
        match id(v) {
            Ok(_) => {},
            Err(e) => return Err(e),
        }
        let op = match required(v, "op") {
            Ok(op) => op,
            Err(e) => return Err(e),
        };
        if same(op, "advertise") {
            proof {
                if topics::type_mismatch(self.access@, self.publishers@, v@) {
                    let t = name_of(v@, "topic"@)->Ok_0;
                    let i = choose|i: int| #[trigger] topics::first_publisher(self.publishers@, t, i) && topics::type_conflict(v@, self.publishers@[i].typ@);
                    assert(topics::first_publisher(self.publishers@, t, i));
                    assert(topics::advertised(self.publishers@, t));
                }
            }
            self.advertise(owner, v)
        } else if same(op, "unadvertise") {
            let topic = name(v, "topic")?;
            let registration = id(v)?;
            self.unadvertise(owner, topic.as_str(), registration)
        } else if same(op, "publish") {
            let topic = name(v, "topic")?;
            let is_object = match v.get("msg") {
                Some(m) => m.is_object(),
                None => false,
            };
            if !is_object {
                return Err(Error::new("msg must be an object"));
            }
            self.advertise(owner, v)?;
            let i = topics::publisher_index(&self.publishers, topic.as_str());
            proof {
                if topics::publish_owed(old(self).access@, old(self).publishers@, v@) {
                    let ps = old(self).publishers@;
                    assert(topics::same_publishers(self.publishers@, ps));
                    let w = choose|w: int| 0 <= w < ps.len() && ps[w].topic@ == topic@;
                    assert(self.publishers@[w].entity == ps[w].entity);
                    assert(self.publishers@[w].topic@ == topic@);
                    assert(i < self.publishers@.len());
                    assert forall|b: int| #[trigger] topics::first_publisher(ps, topic@, b) implies b == i by {
                        if b < i {
                            assert(self.publishers@[b].entity == ps[b].entity);
                            assert(self.publishers@[b].topic@ == ps[b].topic@);
                        } else if b > i {
                            assert(self.publishers@[i as int].entity == ps[i as int].entity);
                            assert(self.publishers@[i as int].topic@ == ps[i as int].topic@);
                        }
                    }
                    assert(self.publishers@[i as int].entity == ps[i as int].entity);
                }
            }
            if i == self.publishers.len() {
                return Err(Error::new("topic is not advertised"));
            }
            let msg = member_copy(v, "msg");
            proof {
                assert(topics::first_publisher(self.publishers@, name_of(v@, "topic"@)->Ok_0, i as int));
            }
            let sent = self.backend.publish(self.publishers[i].entity, &msg);
            assert(self.published().drop_last() =~= old(self).published());
            assert(topics::first_publisher(self.publishers@, name_of(v@, "topic"@)->Ok_0, i as int));
            sent
        } else if same(op, "subscribe") {
            self.subscribe(owner, v, now)
        } else if same(op, "unsubscribe") {
            let topic = name(v, "topic")?;
            let registration = id(v)?;
            self.unsubscribe(owner, topic.as_str(), registration)
        } else if same(op, "call_service") {
            self.call_service(owner, v, now)
        } else if same(op, "advertise_service") {
            self.advertise_service(owner, v)
        } else if same(op, "unadvertise_service") {
            let service = name(v, "service")?;
            self.remove_service(owner, service.as_str())
        } else if same(op, "service_response") {
            self.service_response(owner, v)
        } else if same(op, "send_action_goal") {
            self.send_goal(owner, v, now)
        } else if same(op, "cancel_action_goal") {
            self.cancel_goal(owner, v)
        } else if same(op, "advertise_action") {
            self.advertise_action(owner, v)
        } else if same(op, "unadvertise_action") {
            let action = name(v, "action")?;
            self.remove_action(owner, action.as_str())
        } else if same(op, "action_feedback") {
            self.action_feedback(owner, v)
        } else if same(op, "action_result") {
            self.action_result(owner, v, now)
        } else {
            Err(Error::with("unknown operation: ", op))
        }
    }

    /// Carries out request `v` of `owner` at time `now` (nanoseconds); a
    /// refused request is answered with the reason.
    pub fn command(&mut self, owner: Connection, v: Json, now: u64)
        ensures
            old(self).wf() ==> final(self).wf(),
            final(self).access == old(self).access,
            final(self).timeout == old(self).timeout,
            denial(old(self).access@, v@) matches Some(m) ==> final(self).backend == old(self).backend
                && same_tables(final(self), old(self))
                && final(self).sent@ == if connected(old(self).outputs@, owner) {
                    old(self).sent@.push((owner, with_reply_id(error_reply(v@, m), reply_id(v@))))
                } else {
                    old(self).sent@
                },
            malformed(v@) matches Some(m) ==> final(self).backend == old(self).backend
                && same_tables(final(self), old(self))
                && final(self).sent@ == if connected(old(self).outputs@, owner) {
                    old(self).sent@.push((owner, with_reply_id(error_reply(v@, m), reply_id(v@))))
                } else {
                    old(self).sent@
                },
            topics::type_mismatch(old(self).access@, old(self).publishers@, v@)
                ==> final(self).backend == old(self).backend && same_tables(final(self), old(self))
                && final(self).sent@ == if connected(old(self).outputs@, owner) {
                    old(self).sent@.push((owner, with_reply_id(error_reply(v@, "topic type mismatch"@), reply_id(v@))))
                } else {
                    old(self).sent@
                },
            required_of(v@, "op"@) == Some("subscribe"@) ==> topics::subscribed_with(final(self).subscriptions@, owner,
                name_of(v@, "topic"@)->Ok_0, id_of(v@)->Ok_0, crate::wire::spec_options(v@)->Some_0)
                || (connected(final(self).outputs@, owner) ==> refusal_sent(final(self).sent@, owner, v@)),
            services::response_owed(old(self).external@, owner, v@) && required_of(v@, "op"@) == Some("service_response"@)
                && id_of(v@) is Ok ==> forall|i: int| #[trigger] services::first_request(old(self).external@, required_of(v@, "id"@)->Some_0, i) ==> {
                &&& final(self).responses() == old(self).responses().push((old(self).external@[i].entity, old(self).external@[i].request, member_or_null(v@, "values"@)))
            },
            topics::publish_owed(old(self).access@, old(self).publishers@, v@) ==> forall|i: int|
                #[trigger] topics::first_publisher(old(self).publishers@, name_of(v@, "topic"@)->Ok_0, i)
                ==> final(self).published() == old(self).published().push((old(self).publishers@[i].entity, member_or_null(v@, "msg"@))),
            required_of(v@, "op"@) == Some("publish"@) ==> {
                ||| {
                    &&& final(self).published().len() == old(self).published().len() + 1
                    &&& final(self).published().drop_last() == old(self).published()
                    &&& final(self).published().last().1 == member_or_null(v@, "msg"@)
                    &&& exists|i: int| #[trigger] topics::first_publisher(final(self).publishers@, name_of(v@, "topic"@)->Ok_0, i)
                        && final(self).published().last().0 == final(self).publishers@[i].entity
                }
                ||| connected(final(self).outputs@, owner) ==> refusal_sent(final(self).sent@, owner, v@)
            },
            required_of(v@, "op"@) == Some("call_service"@) ==> (final(self).calls == old(self).calls
                && (connected(final(self).outputs@, owner) ==> refusal_sent(final(self).sent@, owner, v@)))
                || services::call_added(old(self).calls@, final(self).calls@, owner, v@, now, old(self).timeout),
            required_of(v@, "op"@) == Some("service_response"@) && id_of(v@) is Ok && services::spoofed(old(self).external@, owner, v@)
                ==> final(self).backend == old(self).backend && same_tables(final(self), old(self))
                && final(self).sent@ == if connected(old(self).outputs@, owner) {
                    old(self).sent@.push((owner, with_reply_id(error_reply(v@, "service response does not belong to this client"@), reply_id(v@))))
                } else {
                    old(self).sent@
                },
    {
        match self.execute(owner, &v, now) {
            Ok(()) => {},
            Err(e) => {
                let ghost outs = self.outputs@;
                self.error(owner, &v, &e);
                proof {
                    lemma_connected_kept(outs, self.outputs@, owner);
                    if connected(self.outputs@, owner) {
                        assert(self.sent@.last() == (owner, with_reply_id(error_reply(v@, e.message@), reply_id(v@))));
                    }
                }
            },
        }
    }
}

/// Whether the last message sent is a refusal of request `v` to `owner`.
pub open spec fn refusal_sent(sent: Seq<(Connection, JsonV)>, owner: Connection, v: JsonV) -> bool {
    sent.len() > 0 && exists|m: Seq<char>| sent.last() == (owner, with_reply_id(#[trigger] error_reply(v, m), reply_id(v)))
}

/// Whether `owner` has an advertisement of publisher `p`.
pub open spec fn advertises(p: Publisher, owner: Connection) -> bool {
    exists|j: int| 0 <= j < p.owners@.len() && p.owners@[j].0 == owner
}

/// Whether another connection than `owner` advertises publisher `p`.
pub open spec fn shared_publisher(p: Publisher, owner: Connection) -> bool {
    exists|j: int| 0 <= j < p.owners@.len() && p.owners@[j].0 != owner
}

/// Whether `owner` is subscribed through subscription `s`.
pub open spec fn subscribes(s: Subscription, owner: Connection) -> bool {
    exists|j: int| 0 <= j < s.clients@.len() && s.clients@[j].owner == owner
}

/// Whether another connection than `owner` is subscribed through `s`.
pub open spec fn shared_subscription(s: Subscription, owner: Connection) -> bool {
    exists|j: int| 0 <= j < s.clients@.len() && s.clients@[j].owner != owner
}

/// The entities of the publishers.
pub open spec fn publisher_entities(ps: Seq<Publisher>) -> Seq<Entity> {
    Seq::new(ps.len(), |i: int| ps[i].entity)
}

/// The entities of the subscriptions.
pub open spec fn subscription_entities(ss: Seq<Subscription>) -> Seq<Entity> {
    Seq::new(ss.len(), |i: int| ss[i].entity)
}

/// Whether `owner` holds anything of the bridge: an advertisement, a
/// subscription, a service, an action server, a goal, a call, or a request
/// waiting for its response.
pub open spec fn holds<B: Backend, W: Writer>(b: &Bridge<B, W>, owner: Connection) -> bool {
    ||| exists|k: int| 0 <= k < b.publishers@.len() && advertises(b.publishers@[k], owner)
    ||| exists|k: int| 0 <= k < b.subscriptions@.len() && subscribes(b.subscriptions@[k], owner)
    ||| exists|k: int| 0 <= k < b.services@.len() && b.services@[k].owner == owner
    ||| exists|k: int| 0 <= k < b.action_servers@.len() && b.action_servers@[k].owner == owner
    ||| exists|k: int| 0 <= k < b.goals@.len() && b.goals@[k].owner == owner
    ||| exists|k: int| 0 <= k < b.calls@.len() && b.calls@[k].owner == owner
    ||| exists|k: int| 0 <= k < b.external@.len() && b.external@[k].owner == owner
}

/// The entities of the publishers of `ps` that no connection but `owner` advertises, in order.
pub open spec fn unshared_publishers(ps: Seq<Publisher>, owner: Connection) -> Seq<Entity>
    decreases ps.len(),
{
    if ps.len() == 0 {
        Seq::empty()
    } else if shared_publisher(ps.last(), owner) {
        unshared_publishers(ps.drop_last(), owner)
    } else {
        unshared_publishers(ps.drop_last(), owner).push(ps.last().entity)
    }
}

/// The entities of the subscriptions of `ss` that no connection but `owner` uses, in order.
pub open spec fn unshared_subscriptions(ss: Seq<Subscription>, owner: Connection) -> Seq<Entity>
    decreases ss.len(),
{
    if ss.len() == 0 {
        Seq::empty()
    } else if shared_subscription(ss.last(), owner) {
        unshared_subscriptions(ss.drop_last(), owner)
    } else {
        unshared_subscriptions(ss.drop_last(), owner).push(ss.last().entity)
    }
}

/// `owner`'s advertisements dropped from `p`.
fn without_owner(p: &mut Publisher, owner: Connection)
    ensures
        final(p).entity == old(p).entity,
        final(p).topic == old(p).topic,
        !advertises(*final(p), owner),
        shared_publisher(*old(p), owner) ==> final(p).owners@.len() > 0,
        !shared_publisher(*old(p), owner) ==> final(p).owners@.len() == 0,
{
    let ghost start = *p;
    let mut i: usize = 0;
    while i < p.owners.len()
        invariant
            i <= p.owners@.len(),
            forall|k: int| 0 <= k < p.owners@.len() ==> start.owners@.contains(#[trigger] p.owners@[k]),
            p.entity == start.entity,
            p.topic == start.topic,
            forall|k: int| 0 <= k < i ==> #[trigger] p.owners@[k].0 != owner,
            shared_publisher(start, owner) ==> shared_publisher(*p, owner),
        decreases p.owners.len() - i,
    {
        if p.owners[i].0 == owner {
            let ghost before = p.owners@;
            p.owners.remove(i);
            proof {
                assert forall|k: int| 0 <= k < p.owners@.len() implies start.owners@.contains(#[trigger] p.owners@[k]) by {
                    if k < i {
                        assert(p.owners@[k] == before[k]);
                    } else {
                        assert(p.owners@[k] == before[k + 1]);
                    }
                }
                if shared_publisher(start, owner) {
                    let j = choose|j: int| 0 <= j < before.len() && before[j].0 != owner;
                    let m = if j < i { j } else { j - 1 };
                    assert(p.owners@[m] == before[j]);
                }
            }
        } else {
            i = i + 1;
        }
    }
    proof {
        if !shared_publisher(start, owner) && p.owners@.len() > 0 {
            assert(start.owners@.contains(p.owners@[0]));
            let j = choose|j: int| 0 <= j < start.owners@.len() && start.owners@[j] == p.owners@[0];
            assert(start.owners@[j].0 == owner);
        }
    }
}

/// `owner`'s share dropped from subscription `s`.
fn without_client(s: &mut Subscription, owner: Connection)
    ensures
        final(s).entity == old(s).entity,
        final(s).topic == old(s).topic,
        !subscribes(*final(s), owner),
        shared_subscription(*old(s), owner) ==> final(s).clients@.len() > 0,
        !shared_subscription(*old(s), owner) ==> final(s).clients@.len() == 0,
{
    let ghost start = *s;
    let mut i: usize = 0;
    while i < s.clients.len()
        invariant
            i <= s.clients@.len(),
            forall|k: int| 0 <= k < s.clients@.len() ==> start.clients@.contains(#[trigger] s.clients@[k]),
            s.entity == start.entity,
            s.topic == start.topic,
            forall|k: int| 0 <= k < i ==> #[trigger] s.clients@[k].owner != owner,
            shared_subscription(start, owner) ==> shared_subscription(*s, owner),
        decreases s.clients.len() - i,
    {
        if s.clients[i].owner == owner {
            let ghost before = s.clients@;
            s.clients.remove(i);
            proof {
                assert forall|k: int| 0 <= k < s.clients@.len() implies start.clients@.contains(#[trigger] s.clients@[k]) by {
                    if k < i {
                        assert(s.clients@[k] == before[k]);
                    } else {
                        assert(s.clients@[k] == before[k + 1]);
                    }
                }
                if shared_subscription(start, owner) {
                    let j = choose|j: int| 0 <= j < before.len() && before[j].owner != owner;
                    let m = if j < i { j } else { j - 1 };
                    assert(s.clients@[m] == before[j]);
                }
            }
        } else {
            i = i + 1;
        }
    }
    proof {
        if !shared_subscription(start, owner) && s.clients@.len() > 0 {
            assert(start.clients@.contains(s.clients@[0]));
            let j = choose|j: int| 0 <= j < start.clients@.len() && start.clients@[j] == s.clients@[0];
            assert(start.clients@[j].owner == owner);
        }
    }
}

/// The connections of `a` and `b` are the same, in the same places.
pub open spec fn same_ids<W>(a: Seq<(Connection, W)>, b: Seq<(Connection, W)>) -> bool {
    &&& a.len() == b.len()
    &&& forall|k: int| 0 <= k < a.len() ==> #[trigger] a[k].0 == b[k].0
}

impl<B: Backend, W: Writer> Bridge<B, W> {
    /// Forgets connection `owner` and releases what it held: its
    /// advertisements and subscriptions (an entity is destroyed when its last
    /// user goes), its services and action servers, its goals (accepted ones
    /// are cancelled), its calls, and the requests waiting for its responses.
    pub fn disconnect(&mut self, owner: Connection)
        ensures
            old(self).wf() ==> final(self).wf(),
            !connected(final(self).outputs@, owner),
            !holds(final(self), owner),
            forall|k: int| 0 <= k < old(self).publishers@.len() && shared_publisher(#[trigger] old(self).publishers@[k], owner)
                ==> publisher_entities(final(self).publishers@).contains(old(self).publishers@[k].entity),
            forall|k: int| 0 <= k < old(self).subscriptions@.len() && shared_subscription(#[trigger] old(self).subscriptions@[k], owner)
                ==> subscription_entities(final(self).subscriptions@).contains(old(self).subscriptions@[k].entity),
            within(final(self).calls@, old(self).calls@),
            within(final(self).external@, old(self).external@),
            within(final(self).goals@, old(self).goals@),
            final(self).access == old(self).access,
            final(self).timeout == old(self).timeout,
            final(self).outputs@.len() <= old(self).outputs@.len(),
            connected(old(self).outputs@, owner) ==> final(self).outputs@.len() < old(self).outputs@.len(),
            among(final(self).outputs@, old(self).outputs@),
            starts_with(final(self).destroyed(), old(self).destroyed() + unshared_publishers(old(self).publishers@, owner)
                + unshared_subscriptions(old(self).subscriptions@, owner)),
    {
        proof {
            lemma_within_refl(self.calls@);
            lemma_within_refl(self.external@);
            lemma_within_refl(self.goals@);
        }
        let mut i: usize = 0;
        while i < self.outputs.len()
            invariant
                i <= self.outputs@.len(),
                forall|k: int| 0 <= k < i ==> #[trigger] self.outputs@[k].0 != owner,
                self.outputs@.len() <= old(self).outputs@.len(),
                connected(old(self).outputs@, owner) ==> (self.outputs@.len() < old(self).outputs@.len()
                    || exists|k: int| i <= k < self.outputs@.len() && self.outputs@[k].0 == owner),
                among(self.outputs@, old(self).outputs@),
                old(self).wf() ==> distinct_connections(self.outputs@),
                self.calls == old(self).calls,
                self.external == old(self).external,
                self.publishers == old(self).publishers,
                self.subscriptions == old(self).subscriptions,
                self.services == old(self).services,
                self.server_goals == old(self).server_goals,
                self.action_servers == old(self).action_servers,
                self.goals == old(self).goals,
                self.access == old(self).access,
                self.timeout == old(self).timeout,
                self.destroyed() == old(self).destroyed(),
            decreases self.outputs.len() - i,
        {
            if self.outputs[i].0 == owner {
                let ghost before = self.outputs@;
                self.outputs.remove(i);
                proof {
                    if old(self).wf() {
                        lemma_distinct_connections_remove(before, i as int);
                    }
                    assert forall|c: Connection| #[trigger] connected(self.outputs@, c) implies connected(old(self).outputs@, c) by {
                        let k = choose|k: int| 0 <= k < self.outputs@.len() && self.outputs@[k].0 == c;
                        if k < i {
                            assert(before[k].0 == c);
                        } else {
                            assert(before[k + 1].0 == c);
                        }
                        assert(connected(before, c));
                    }
                }
            } else {
                i = i + 1;
            }
        }
        let ghost outs_len = self.outputs@.len();
        let ghost kept_outs = self.outputs@;
        // Advertisements: a publisher nobody else advertises is destroyed.
        let mut rest: Vec<Publisher> = Vec::new();
        std::mem::swap(&mut rest, &mut self.publishers);
        let ghost src = rest@;
        let mut kept: Vec<Publisher> = Vec::new();
        let ghost mut n: int = 0;
        while rest.len() > 0
            invariant
                0 <= n <= src.len(),
                rest@ == src.skip(n),
                src == old(self).publishers@,
                self.destroyed() == old(self).destroyed() + unshared_publishers(src.take(n), owner),
                forall|k: int| 0 <= k < kept@.len() ==> publisher_before(src, #[trigger] kept@[k].topic@, n),
                self.services == old(self).services,
                self.server_goals == old(self).server_goals,
                self.action_servers == old(self).action_servers,
                old(self).wf() ==> distinct_publishers(kept@),
                forall|k: int| 0 <= k < kept@.len() ==> !advertises(#[trigger] kept@[k], owner),
                forall|k: int| 0 <= k < n && shared_publisher(#[trigger] src[k], owner)
                    ==> publisher_entities(kept@).contains(src[k].entity),
                !connected(self.outputs@, owner),
                self.outputs@.len() == outs_len,
                same_ids(self.outputs@, kept_outs),
                self.calls == old(self).calls,
                self.external == old(self).external,
                self.subscriptions == old(self).subscriptions,
                self.goals == old(self).goals,
                self.access == old(self).access,
                self.timeout == old(self).timeout,
            decreases rest@.len(),
        {
            assert(rest@[0] == src[n]);
            let mut p = rest.remove(0);
            assert(rest@ =~= src.skip(n + 1));
            assert(src.take(n + 1).drop_last() =~= src.take(n));
            assert(src.take(n + 1).last() == src[n]);
            without_owner(&mut p, owner);
            if p.owners.len() == 0 {
                self.backend.destroy(p.entity);
                proof {
                    assert(self.destroyed() =~= old(self).destroyed() + unshared_publishers(src.take(n + 1), owner));
                    assert forall|k: int| 0 <= k < kept@.len() implies publisher_before(src, #[trigger] kept@[k].topic@, n + 1) by {
                        assert(publisher_before(src, kept@[k].topic@, n));
                        let j = choose|j: int| 0 <= j < n && #[trigger] src[j].topic@ == kept@[k].topic@;
                    }
                }
            } else {
                let ghost before = kept@;
                let e = p.entity;
                let ghost t = p.topic@;
                assert(t == src[n].topic@);
                kept.push(p);
                proof {
                    assert forall|k: int| 0 <= k < kept@.len() implies publisher_before(src, #[trigger] kept@[k].topic@, n + 1) by {
                        if k < before.len() {
                            assert(kept@[k] == before[k]);
                            assert(publisher_before(src, before[k].topic@, n));
                        } else {
                            assert(src[n].topic@ == kept@[k].topic@);
                        }
                    }
                    if old(self).wf() {
                        assert forall|a: int, b: int| 0 <= a < b < kept@.len() implies #[trigger] kept@[a].topic@ != #[trigger] kept@[b].topic@ by {
                            assert(kept@[a] == before[a]);
                            if b < before.len() {
                                assert(kept@[b] == before[b]);
                            } else {
                                assert(publisher_before(src, before[a].topic@, n));
                                let j = choose|j: int| 0 <= j < n && #[trigger] src[j].topic@ == before[a].topic@;
                                assert(src[j].topic@ != src[n].topic@);
                            }
                        }
                    }
                    assert(publisher_entities(kept@)[before.len() as int] == e);
                    assert forall|k: int| 0 <= k < n + 1 && shared_publisher(#[trigger] src[k], owner)
                        implies publisher_entities(kept@).contains(src[k].entity) by {
                        if k < n {
                            let w = choose|w: int| 0 <= w < publisher_entities(before).len() && publisher_entities(before)[w] == src[k].entity;
                            assert(publisher_entities(kept@)[w] == src[k].entity);
                        }
                    }
                }
            }
            proof {
                n = n + 1;
            }
        }
        self.publishers = kept;
        assert(src.take(n) =~= src) by {
            if n < src.len() {
                assert(rest@.len() > 0);
            }
        }
        // Subscriptions: a subscription nobody else uses is destroyed.
        let mut srest: Vec<Subscription> = Vec::new();
        std::mem::swap(&mut srest, &mut self.subscriptions);
        let ghost ssrc = srest@;
        let mut skept: Vec<Subscription> = Vec::new();
        let ghost mut m: int = 0;
        let ghost pubs = self.publishers;
        while srest.len() > 0
            invariant
                0 <= m <= ssrc.len(),
                srest@ == ssrc.skip(m),
                ssrc == old(self).subscriptions@,
                forall|k: int| 0 <= k < skept@.len() ==> subscription_before(ssrc, #[trigger] skept@[k].topic@, m),
                self.services == old(self).services,
                self.server_goals == old(self).server_goals,
                self.action_servers == old(self).action_servers,
                old(self).wf() ==> distinct_subscriptions(skept@),
                old(self).wf() ==> distinct_publishers(pubs@),
                self.destroyed() == old(self).destroyed() + unshared_publishers(src, owner) + unshared_subscriptions(ssrc.take(m), owner),
                src == old(self).publishers@,
                forall|k: int| 0 <= k < skept@.len() ==> !subscribes(#[trigger] skept@[k], owner),
                forall|k: int| 0 <= k < m && shared_subscription(#[trigger] ssrc[k], owner)
                    ==> subscription_entities(skept@).contains(ssrc[k].entity),
                !connected(self.outputs@, owner),
                self.outputs@.len() == outs_len,
                same_ids(self.outputs@, kept_outs),
                self.publishers == pubs,
                self.calls == old(self).calls,
                self.external == old(self).external,
                self.goals == old(self).goals,
                self.access == old(self).access,
                self.timeout == old(self).timeout,
            decreases srest@.len(),
        {
            assert(srest@[0] == ssrc[m]);
            let mut sub = srest.remove(0);
            assert(srest@ =~= ssrc.skip(m + 1));
            assert(ssrc.take(m + 1).drop_last() =~= ssrc.take(m));
            assert(ssrc.take(m + 1).last() == ssrc[m]);
            without_client(&mut sub, owner);
            if sub.clients.len() == 0 {
                self.backend.destroy(sub.entity);
                proof {
                    assert forall|k: int| 0 <= k < skept@.len() implies subscription_before(ssrc, #[trigger] skept@[k].topic@, m + 1) by {
                        assert(subscription_before(ssrc, skept@[k].topic@, m));
                        let j = choose|j: int| 0 <= j < m && #[trigger] ssrc[j].topic@ == skept@[k].topic@;
                    }
                    assert(self.destroyed() =~= old(self).destroyed() + unshared_publishers(src, owner) + unshared_subscriptions(ssrc.take(m + 1), owner));
                }
            } else {
                let ghost before = skept@;
                let e = sub.entity;
                assert(sub.topic@ == ssrc[m].topic@);
                skept.push(sub);
                proof {
                    assert forall|k: int| 0 <= k < skept@.len() implies subscription_before(ssrc, #[trigger] skept@[k].topic@, m + 1) by {
                        if k < before.len() {
                            assert(skept@[k] == before[k]);
                            assert(subscription_before(ssrc, before[k].topic@, m));
                        } else {
                            assert(ssrc[m].topic@ == skept@[k].topic@);
                        }
                    }
                    if old(self).wf() {
                        assert forall|a: int, b: int| 0 <= a < b < skept@.len() implies #[trigger] skept@[a].topic@ != #[trigger] skept@[b].topic@ by {
                            assert(skept@[a] == before[a]);
                            if b < before.len() {
                                assert(skept@[b] == before[b]);
                            } else {
                                assert(subscription_before(ssrc, before[a].topic@, m));
                                let j = choose|j: int| 0 <= j < m && #[trigger] ssrc[j].topic@ == before[a].topic@;
                                assert(ssrc[j].topic@ != ssrc[m].topic@);
                            }
                        }
                    }
                    assert(subscription_entities(skept@)[before.len() as int] == e);
                    assert forall|k: int| 0 <= k < m + 1 && shared_subscription(#[trigger] ssrc[k], owner)
                        implies subscription_entities(skept@).contains(ssrc[k].entity) by {
                        if k < m {
                            let w = choose|w: int| 0 <= w < subscription_entities(before).len() && subscription_entities(before)[w] == ssrc[k].entity;
                            assert(subscription_entities(skept@)[w] == ssrc[k].entity);
                        }
                    }
                }
            }
            proof {
                m = m + 1;
            }
        }
        self.subscriptions = skept;
        assert(ssrc.take(m) =~= ssrc) by {
            if m < ssrc.len() {
                assert(srest@.len() > 0);
            }
        }
        let ghost released = self.destroyed();
        assert(starts_with(self.destroyed(), released));
        let ghost subs = self.subscriptions;
        // Services.
        let mut k: usize = 0;
        while k < self.services.len()
            invariant
                k <= self.services@.len(),
                forall|j: int| 0 <= j < k ==> #[trigger] self.services@[j].owner != owner,
                old(self).wf() ==> distinct_services(self.services@),
                old(self).wf() ==> distinct_action_servers(self.action_servers@),
                old(self).wf() ==> distinct_goals(self.goals@) && distinct_server_goals(self.server_goals@),
                old(self).wf() ==> distinct_publishers(pubs@) && distinct_subscriptions(subs@),
                !connected(self.outputs@, owner),
                self.outputs@.len() == outs_len,
                same_ids(self.outputs@, kept_outs),
                self.publishers == pubs,
                self.subscriptions == subs,
                self.calls == old(self).calls,
                within(self.external@, old(self).external@),
                self.goals == old(self).goals,
                self.access == old(self).access,
                self.timeout == old(self).timeout,
                starts_with(self.destroyed(), released),
            decreases self.services.len() - k,
        {
            if self.services[k].owner == owner {
                let ghost ext = self.external@;
                let ghost svs = self.services@;
                self.remove_service_at(k);
                proof {
                    if old(self).wf() {
                        lemma_distinct_services_remove(svs, k as int);
                    }
                    lemma_within_trans(self.external@, ext, old(self).external@);
                }
            } else {
                k = k + 1;
            }
        }
        let ghost svcs = self.services;
        // Action servers.
        let mut a: usize = 0;
        while a < self.action_servers.len()
            invariant
                a <= self.action_servers@.len(),
                forall|j: int| 0 <= j < a ==> #[trigger] self.action_servers@[j].owner != owner,
                old(self).wf() ==> distinct_action_servers(self.action_servers@),
                old(self).wf() ==> distinct_publishers(pubs@) && distinct_subscriptions(subs@) && distinct_services(svcs@),
                old(self).wf() ==> distinct_goals(self.goals@) && distinct_server_goals(self.server_goals@),
                !connected(self.outputs@, owner),
                self.outputs@.len() == outs_len,
                same_ids(self.outputs@, kept_outs),
                self.publishers == pubs,
                self.subscriptions == subs,
                self.services == svcs,
                forall|j: int| 0 <= j < self.services@.len() ==> #[trigger] self.services@[j].owner != owner,
                self.calls == old(self).calls,
                within(self.external@, old(self).external@),
                self.goals == old(self).goals,
                self.access == old(self).access,
                self.timeout == old(self).timeout,
                starts_with(self.destroyed(), released),
            decreases self.action_servers.len() - a,
        {
            if self.action_servers[a].owner == owner {
                let ghost servers_before = self.action_servers@;
                self.remove_action_at(a);
                proof {
                    if old(self).wf() {
                        lemma_distinct_servers_remove(servers_before, a as int);
                    }
                }
            } else {
                a = a + 1;
            }
        }
        let ghost servers = self.action_servers;
        // Goals: accepted ones are cancelled, and each ends as disconnected.
        loop
            invariant
                !connected(self.outputs@, owner),
                self.outputs@.len() == outs_len,
                same_ids(self.outputs@, kept_outs),
                self.publishers == pubs,
                self.subscriptions == subs,
                self.services == svcs,
                self.action_servers == servers,
                old(self).wf() ==> distinct_goals(self.goals@) && distinct_server_goals(self.server_goals@),
                forall|j: int| 0 <= j < self.services@.len() ==> #[trigger] self.services@[j].owner != owner,
                forall|j: int| 0 <= j < self.action_servers@.len() ==> #[trigger] self.action_servers@[j].owner != owner,
                self.calls == old(self).calls,
                within(self.external@, old(self).external@),
                within(self.goals@, old(self).goals@),
                self.access == old(self).access,
                self.timeout == old(self).timeout,
                starts_with(self.destroyed(), released),
            ensures
                !connected(self.outputs@, owner),
                self.outputs@.len() == outs_len,
                same_ids(self.outputs@, kept_outs),
                self.publishers == pubs,
                self.subscriptions == subs,
                self.services == svcs,
                self.action_servers == servers,
                old(self).wf() ==> distinct_goals(self.goals@) && distinct_server_goals(self.server_goals@),
                forall|j: int| 0 <= j < self.services@.len() ==> #[trigger] self.services@[j].owner != owner,
                forall|j: int| 0 <= j < self.action_servers@.len() ==> #[trigger] self.action_servers@[j].owner != owner,
                forall|j: int| 0 <= j < self.goals@.len() ==> #[trigger] self.goals@[j].owner != owner,
                self.calls == old(self).calls,
                within(self.external@, old(self).external@),
                within(self.goals@, old(self).goals@),
                self.access == old(self).access,
                self.timeout == old(self).timeout,
                starts_with(self.destroyed(), released),
            decreases self.goals@.len(),
        {
            let mut k: usize = 0;
            while k < self.goals.len()
                invariant
                    k <= self.goals@.len(),
                    forall|j: int| 0 <= j < k ==> #[trigger] self.goals@[j].owner != owner,
                decreases self.goals.len() - k,
            {
                if self.goals[k].owner == owner {
                    break;
                }
                k = k + 1;
            }
            if k == self.goals.len() {
                break;
            }
            if self.goals[k].accepted {
                let request = actions::cancel_info(&self.goals[k].uuid);
                let _ = self.new_request(self.goals[k].cancel, &request);
            }
            let key = owned(self.goals[k].key.as_str());
            assert(actions::has_goal(self.goals@, key@));
            let ghost outs = self.outputs@;
            let ghost gs = self.goals@;
            self.finish_goal(key.as_str(), Json::string("client disconnected"), 6, false);
            proof {
                lemma_within_trans(self.goals@, gs, old(self).goals@);
                assert forall|c: int| 0 <= c < self.outputs@.len() implies #[trigger] self.outputs@[c].0 != owner by {
                    assert(self.outputs@[c].0 == outs[c].0);
                    if outs[c].0 == owner {
                        assert(connected(outs, owner));
                    }
                }
            }
        }
        // Calls: their client entities are destroyed.
        let mut c: usize = 0;
        while c < self.calls.len()
            invariant
                c <= self.calls@.len(),
                forall|j: int| 0 <= j < c ==> #[trigger] self.calls@[j].owner != owner,
                within(self.calls@, old(self).calls@),
                !connected(self.outputs@, owner),
                self.outputs@.len() == outs_len,
                same_ids(self.outputs@, kept_outs),
                self.publishers == pubs,
                self.subscriptions == subs,
                self.services == svcs,
                self.action_servers == servers,
                old(self).wf() ==> distinct_goals(self.goals@) && distinct_server_goals(self.server_goals@),
                forall|j: int| 0 <= j < self.services@.len() ==> #[trigger] self.services@[j].owner != owner,
                forall|j: int| 0 <= j < self.action_servers@.len() ==> #[trigger] self.action_servers@[j].owner != owner,
                forall|j: int| 0 <= j < self.goals@.len() ==> #[trigger] self.goals@[j].owner != owner,
                within(self.external@, old(self).external@),
                within(self.goals@, old(self).goals@),
                self.access == old(self).access,
                self.timeout == old(self).timeout,
                starts_with(self.destroyed(), released),
            decreases self.calls.len() - c,
        {
            if self.calls[c].owner == owner {
                let ghost before = self.calls@;
                let call = self.calls.remove(c);
                proof {
                    lemma_within_remove(before, old(self).calls@, c as int);
                }
                self.backend.destroy(call.entity);
            } else {
                c = c + 1;
            }
        }
        // Requests waiting for this connection's responses are forgotten.
        let mut x: usize = 0;
        while x < self.external.len()
            invariant
                x <= self.external@.len(),
                forall|j: int| 0 <= j < x ==> #[trigger] self.external@[j].owner != owner,
                within(self.external@, old(self).external@),
                !connected(self.outputs@, owner),
                self.outputs@.len() == outs_len,
                same_ids(self.outputs@, kept_outs),
                self.publishers == pubs,
                self.subscriptions == subs,
                self.services == svcs,
                self.action_servers == servers,
                old(self).wf() ==> distinct_goals(self.goals@) && distinct_server_goals(self.server_goals@),
                forall|j: int| 0 <= j < self.services@.len() ==> #[trigger] self.services@[j].owner != owner,
                forall|j: int| 0 <= j < self.action_servers@.len() ==> #[trigger] self.action_servers@[j].owner != owner,
                forall|j: int| 0 <= j < self.goals@.len() ==> #[trigger] self.goals@[j].owner != owner,
                forall|j: int| 0 <= j < self.calls@.len() ==> #[trigger] self.calls@[j].owner != owner,
                within(self.calls@, old(self).calls@),
                within(self.goals@, old(self).goals@),
                self.access == old(self).access,
                self.timeout == old(self).timeout,
                starts_with(self.destroyed(), released),
            decreases self.external.len() - x,
        {
            if self.external[x].owner == owner {
                let ghost before = self.external@;
                self.external.remove(x);
                proof {
                    lemma_within_remove(before, old(self).external@, x as int);
                }
            } else {
                x = x + 1;
            }
        }
        proof {
            assert forall|c: Connection| #[trigger] connected(self.outputs@, c) implies connected(old(self).outputs@, c) by {
                let k = choose|k: int| 0 <= k < self.outputs@.len() && self.outputs@[k].0 == c;
                assert(kept_outs[k].0 == c);
                assert(connected(kept_outs, c));
            }
            if old(self).wf() {
                lemma_same_ids_distinct(self.outputs@, kept_outs);
            }
        }
    }

    /// Disconnects every connection.
    pub fn shutdown(&mut self)
        ensures
            old(self).wf() ==> final(self).wf(),
            final(self).outputs@.len() == 0,
    {
        while self.outputs.len() > 0
            invariant
                old(self).wf() ==> self.wf(),
            decreases self.outputs@.len(),
        {
            let c = self.outputs[0].0;
            assert(connected(self.outputs@, c));
            self.disconnect(c);
        }
    }

    /// Carries out a command from the connections' queues at time `now`
    /// (nanoseconds): a connection registered or forgotten, a request carried
    /// out, or every connection let go at shutdown. True after a shutdown.
    pub fn apply(&mut self, command: Command<Json, W>, now: u64) -> (stop: bool)
        ensures
            old(self).wf() ==> final(self).wf(),
            stop == (command is Shutdown),
            command is Shutdown ==> final(self).outputs@.len() == 0,
            command matches Command::Connect(c, _) ==> connected(final(self).outputs@, c),
            command matches Command::Disconnect(c) ==> !connected(final(self).outputs@, c) && !holds(final(self), c),
            command matches Command::Message(c, v) ==> (malformed(v@) matches Some(m) ==> final(self).backend == old(self).backend
                && same_tables(final(self), old(self))
                && final(self).sent@ == if connected(old(self).outputs@, c) {
                    old(self).sent@.push((c, with_reply_id(error_reply(v@, m), reply_id(v@))))
                } else {
                    old(self).sent@
                }),
    {
        match command {
            Command::Connect(c, output) => {
                self.connect(c, output);
                false
            },
            Command::Message(c, v) => {
                self.command(c, v, now);
                false
            },
            Command::Disconnect(c) => {
                self.disconnect(c);
                false
            },
            Command::Shutdown => {
                self.shutdown();
                true
            },
        }
    }
}

/// The time left until `deadline`, zero where it passed.
pub open spec fn remaining(deadline: u64, now: u64) -> u64 {
    if deadline > now {
        (deadline - now) as u64
    } else {
        0
    }
}

pub open spec fn min_u64(a: u64, b: u64) -> u64 {
    if a < b {
        a
    } else {
        b
    }
}

/// `w`, bounded by the time left for each call.
pub open spec fn calls_wait(cs: Seq<Call>, now: u64, w: u64) -> u64
    decreases cs.len(),
{
    if cs.len() == 0 {
        w
    } else {
        min_u64(calls_wait(cs.drop_last(), now, w), remaining(cs.last().expires, now))
    }
}

/// `w`, bounded by the time left for each waiting request.
pub open spec fn external_wait(rs: Seq<ExternalRequest>, now: u64, w: u64) -> u64
    decreases rs.len(),
{
    if rs.len() == 0 {
        w
    } else {
        min_u64(external_wait(rs.drop_last(), now, w), remaining(rs.last().expires, now))
    }
}

/// `w`, bounded by the time left for each goal to be accepted.
pub open spec fn goals_wait(gs: Seq<ClientGoal>, now: u64, w: u64) -> u64
    decreases gs.len(),
{
    if gs.len() == 0 {
        w
    } else if gs.last().accepted {
        goals_wait(gs.drop_last(), now, w)
    } else {
        min_u64(goals_wait(gs.drop_last(), now, w), remaining(gs.last().acceptance_deadline, now))
    }
}

/// The time until a throttled client may get its next queued sample.
pub open spec fn throttle_wait(c: ClientSubscription, now: u64) -> u64 {
    match c.last {
        None => 0,
        Some(t) => {
            let throttle = topics::millis_of(merged_of(c).throttle_ms);
            let gone = if now >= t { (now - t) as u64 } else { 0 };
            if throttle > gone {
                (throttle - gone) as u64
            } else {
                0
            }
        },
    }
}

/// A throttled client waits until its throttle interval has passed since its
/// last delivery and no longer: where `throttle_ms` milliseconds have not yet
/// passed the wait is exactly what is left of them, after that none; a
/// client that never had a delivery does not wait.
pub proof fn lemma_throttle_wait(c: ClientSubscription, now: u64)
    ensures
        c.last is None ==> throttle_wait(c, now) == 0,
        c.last is Some && now >= c.last->0 && merged_of(c).throttle_ms * 1_000_000 <= u64::MAX ==> {
            let t = c.last->0;
            let interval = merged_of(c).throttle_ms * 1_000_000;
            &&& now - t < interval ==> throttle_wait(c, now) == t + interval - now
            &&& now - t >= interval ==> throttle_wait(c, now) == 0
        },
{
}

/// The options that a client's registrations add up to.
pub open spec fn merged_of(c: ClientSubscription) -> Options {
    topics::merged_options(topics::registration_options(c.registrations@))
}

/// `w`, bounded by the wait of each client with queued samples.
pub open spec fn clients_wait(cs: Seq<ClientSubscription>, now: u64, w: u64) -> u64
    decreases cs.len(),
{
    if cs.len() == 0 {
        w
    } else if cs.last().pending@.len() == 0 {
        clients_wait(cs.drop_last(), now, w)
    } else {
        min_u64(clients_wait(cs.drop_last(), now, w), throttle_wait(cs.last(), now))
    }
}

/// `w`, bounded by the waits of every subscription's clients.
pub open spec fn subscriptions_wait(ss: Seq<Subscription>, now: u64, w: u64) -> u64
    decreases ss.len(),
{
    if ss.len() == 0 {
        w
    } else {
        clients_wait(ss.last().clients@, now, subscriptions_wait(ss.drop_last(), now, w))
    }
}

/// How long the worker may wait for ROS at `now`: at most 100 ms, and no
/// longer than until the next call, request or goal deadline, or the next
/// queued sample that throttling lets through.
pub open spec fn wakeup<B: Backend, W: Writer>(b: &Bridge<B, W>, now: u64) -> u64 {
    subscriptions_wait(
        b.subscriptions@,
        now,
        goals_wait(b.goals@, now, external_wait(b.external@, now, calls_wait(b.calls@, now, 100_000_000))),
    )
}

proof fn lemma_calls_wait(cs: Seq<Call>, now: u64, w: u64)
    ensures
        calls_wait(cs, now, w) <= w,
        forall|k: int| 0 <= k < cs.len() ==> calls_wait(cs, now, w) <= remaining(#[trigger] cs[k].expires, now),
        calls_wait(cs, now, w) == w || exists|k: int| 0 <= k < cs.len() && calls_wait(cs, now, w) == remaining(#[trigger] cs[k].expires, now),
    decreases cs.len(),
{
    if cs.len() > 0 {
        let rest = cs.drop_last();
        lemma_calls_wait(rest, now, w);
        assert forall|k: int| 0 <= k < cs.len() implies calls_wait(cs, now, w) <= remaining(#[trigger] cs[k].expires, now) by {
            if k < cs.len() - 1 {
                assert(cs[k] == rest[k]);
            }
        }
        if calls_wait(cs, now, w) != w && calls_wait(cs, now, w) != remaining(cs[cs.len() - 1].expires, now) {
            let k = choose|k: int| 0 <= k < rest.len() && calls_wait(rest, now, w) == remaining(#[trigger] rest[k].expires, now);
            assert(cs[k] == rest[k]);
        }
    }
}

proof fn lemma_external_wait(rs: Seq<ExternalRequest>, now: u64, w: u64)
    ensures
        external_wait(rs, now, w) <= w,
        forall|k: int| 0 <= k < rs.len() ==> external_wait(rs, now, w) <= remaining(#[trigger] rs[k].expires, now),
        external_wait(rs, now, w) == w || exists|k: int| 0 <= k < rs.len() && external_wait(rs, now, w) == remaining(#[trigger] rs[k].expires, now),
    decreases rs.len(),
{
    if rs.len() > 0 {
        let rest = rs.drop_last();
        lemma_external_wait(rest, now, w);
        assert forall|k: int| 0 <= k < rs.len() implies external_wait(rs, now, w) <= remaining(#[trigger] rs[k].expires, now) by {
            if k < rs.len() - 1 {
                assert(rs[k] == rest[k]);
            }
        }
        if external_wait(rs, now, w) != w && external_wait(rs, now, w) != remaining(rs[rs.len() - 1].expires, now) {
            let k = choose|k: int| 0 <= k < rest.len() && external_wait(rest, now, w) == remaining(#[trigger] rest[k].expires, now);
            assert(rs[k] == rest[k]);
        }
    }
}

proof fn lemma_goals_wait(gs: Seq<ClientGoal>, now: u64, w: u64)
    ensures
        goals_wait(gs, now, w) <= w,
        forall|k: int| 0 <= k < gs.len() && !(#[trigger] gs[k]).accepted ==> goals_wait(gs, now, w) <= remaining(gs[k].acceptance_deadline, now),
        goals_wait(gs, now, w) == w || exists|k: int| 0 <= k < gs.len() && !(#[trigger] gs[k]).accepted
            && goals_wait(gs, now, w) == remaining(gs[k].acceptance_deadline, now),
    decreases gs.len(),
{
    if gs.len() > 0 {
        let rest = gs.drop_last();
        let last = gs.len() - 1;
        lemma_goals_wait(rest, now, w);
        assert forall|k: int| 0 <= k < gs.len() && !(#[trigger] gs[k]).accepted implies goals_wait(gs, now, w) <= remaining(gs[k].acceptance_deadline, now) by {
            if k < last {
                assert(gs[k] == rest[k]);
            }
        }
        if goals_wait(gs, now, w) != w && !(!gs[last].accepted && goals_wait(gs, now, w) == remaining(gs[last].acceptance_deadline, now)) {
            let k = choose|k: int| 0 <= k < rest.len() && !(#[trigger] rest[k]).accepted
                && goals_wait(rest, now, w) == remaining(rest[k].acceptance_deadline, now);
            assert(gs[k] == rest[k]);
        }
    }
}

proof fn lemma_clients_wait(cs: Seq<ClientSubscription>, now: u64, w: u64)
    ensures
        clients_wait(cs, now, w) <= w,
        forall|k: int| 0 <= k < cs.len() && (#[trigger] cs[k]).pending@.len() > 0 ==> clients_wait(cs, now, w) <= throttle_wait(cs[k], now),
        clients_wait(cs, now, w) == w || exists|k: int| 0 <= k < cs.len() && (#[trigger] cs[k]).pending@.len() > 0
            && clients_wait(cs, now, w) == throttle_wait(cs[k], now),
    decreases cs.len(),
{
    if cs.len() > 0 {
        let rest = cs.drop_last();
        let last = cs.len() - 1;
        lemma_clients_wait(rest, now, w);
        assert forall|k: int| 0 <= k < cs.len() && (#[trigger] cs[k]).pending@.len() > 0 implies clients_wait(cs, now, w) <= throttle_wait(cs[k], now) by {
            if k < last {
                assert(cs[k] == rest[k]);
            }
        }
        if clients_wait(cs, now, w) != w && !(cs[last].pending@.len() > 0 && clients_wait(cs, now, w) == throttle_wait(cs[last], now)) {
            let k = choose|k: int| 0 <= k < rest.len() && (#[trigger] rest[k]).pending@.len() > 0
                && clients_wait(rest, now, w) == throttle_wait(rest[k], now);
            assert(cs[k] == rest[k]);
        }
    }
}

/// A client subscription `j` of subscription `i` that holds samples back.
pub open spec fn waiting_client(ss: Seq<Subscription>, i: int, j: int) -> bool {
    &&& 0 <= i < ss.len()
    &&& 0 <= j < ss[i].clients@.len()
    &&& ss[i].clients@[j].pending@.len() > 0
}

proof fn lemma_subscriptions_wait(ss: Seq<Subscription>, now: u64, w: u64)
    ensures
        subscriptions_wait(ss, now, w) <= w,
        forall|i: int, j: int| #[trigger] waiting_client(ss, i, j) ==> subscriptions_wait(ss, now, w) <= throttle_wait(ss[i].clients@[j], now),
        subscriptions_wait(ss, now, w) == w || exists|i: int, j: int| #[trigger] waiting_client(ss, i, j)
            && subscriptions_wait(ss, now, w) == throttle_wait(ss[i].clients@[j], now),
    decreases ss.len(),
{
    if ss.len() > 0 {
        let rest = ss.drop_last();
        let last = ss.len() - 1;
        lemma_subscriptions_wait(rest, now, w);
        let inner = subscriptions_wait(rest, now, w);
        let cs = ss[last].clients@;
        lemma_clients_wait(cs, now, inner);
        assert forall|i: int, j: int| #[trigger] waiting_client(ss, i, j) implies subscriptions_wait(ss, now, w) <= throttle_wait(ss[i].clients@[j], now) by {
            if i < last {
                assert(ss[i] == rest[i]);
                assert(waiting_client(rest, i, j));
            } else {
                assert(cs[j].pending@.len() > 0);
            }
        }
        let r = subscriptions_wait(ss, now, w);
        if r != w {
            if r == inner {
                let (i, j) = choose|i: int, j: int| #[trigger] waiting_client(rest, i, j) && inner == throttle_wait(rest[i].clients@[j], now);
                assert(ss[i] == rest[i]);
                assert(waiting_client(ss, i, j));
            } else {
                let j = choose|j: int| 0 <= j < cs.len() && (#[trigger] cs[j]).pending@.len() > 0 && r == throttle_wait(cs[j], now);
                assert(waiting_client(ss, last, j));
            }
        }
    }
}

/// The worker never sleeps past 100 ms, nor past a call's, a waiting
/// request's or an unaccepted goal's deadline, nor past the moment a
/// throttled client may get its next held-back sample; and it sleeps until
/// the first of these, not less.
pub proof fn lemma_wakeup_bounds<B: Backend, W: Writer>(b: &Bridge<B, W>, now: u64)
    ensures
        wakeup(b, now) <= 100_000_000,
        forall|k: int| 0 <= k < b.calls@.len() ==> wakeup(b, now) <= remaining(#[trigger] b.calls@[k].expires, now),
        forall|k: int| 0 <= k < b.external@.len() ==> wakeup(b, now) <= remaining(#[trigger] b.external@[k].expires, now),
        forall|k: int| 0 <= k < b.goals@.len() && !(#[trigger] b.goals@[k]).accepted
            ==> wakeup(b, now) <= remaining(b.goals@[k].acceptance_deadline, now),
        forall|i: int, j: int| #[trigger] waiting_client(b.subscriptions@, i, j)
            ==> wakeup(b, now) <= throttle_wait(b.subscriptions@[i].clients@[j], now),
        wakeup(b, now) == 100_000_000
            || (exists|k: int| 0 <= k < b.calls@.len() && wakeup(b, now) == remaining(#[trigger] b.calls@[k].expires, now))
            || (exists|k: int| 0 <= k < b.external@.len() && wakeup(b, now) == remaining(#[trigger] b.external@[k].expires, now))
            || (exists|k: int| 0 <= k < b.goals@.len() && !(#[trigger] b.goals@[k]).accepted
                && wakeup(b, now) == remaining(b.goals@[k].acceptance_deadline, now))
            || (exists|i: int, j: int| #[trigger] waiting_client(b.subscriptions@, i, j)
                && wakeup(b, now) == throttle_wait(b.subscriptions@[i].clients@[j], now)),
{
    let w1 = calls_wait(b.calls@, now, 100_000_000);
    let w2 = external_wait(b.external@, now, w1);
    let w3 = goals_wait(b.goals@, now, w2);
    lemma_calls_wait(b.calls@, now, 100_000_000);
    lemma_external_wait(b.external@, now, w1);
    lemma_goals_wait(b.goals@, now, w2);
    lemma_subscriptions_wait(b.subscriptions@, now, w3);
}

fn left(deadline: u64, now: u64) -> (r: u64)
    ensures
        r == remaining(deadline, now),
{
    if deadline > now {
        deadline - now
    } else {
        0
    }
}

fn min_of(a: u64, b: u64) -> (r: u64)
    ensures
        r == min_u64(a, b),
{
    if a < b {
        a
    } else {
        b
    }
}

fn client_wait(c: &ClientSubscription, now: u64) -> (r: u64)
    ensures
        r == throttle_wait(*c, now),
{
    match c.last {
        None => 0,
        Some(t) => {
            let throttle = topics::millis(c.options().throttle_ms);
            let gone = topics::elapsed(t, now);
            if throttle > gone {
                throttle - gone
            } else {
                0
            }
        },
    }
}

impl<B: Backend, W: Writer> Bridge<B, W> {
    /// How long the worker may wait for ROS events at `now`, in nanoseconds.
    pub fn next_wakeup(&self, now: u64) -> (r: u64)
        ensures
            r == wakeup(self, now),
    {
        let mut wait: u64 = 100_000_000;
        let mut i: usize = 0;
        while i < self.calls.len()
            invariant
                i <= self.calls@.len(),
                wait == calls_wait(self.calls@.take(i as int), now, 100_000_000),
            decreases self.calls.len() - i,
        {
            assert(self.calls@.take(i + 1).drop_last() =~= self.calls@.take(i as int));
            wait = min_of(wait, left(self.calls[i].expires, now));
            i = i + 1;
        }
        assert(self.calls@.take(i as int) =~= self.calls@);
        let ghost w1 = wait;
        let mut i: usize = 0;
        while i < self.external.len()
            invariant
                i <= self.external@.len(),
                wait == external_wait(self.external@.take(i as int), now, w1),
            decreases self.external.len() - i,
        {
            assert(self.external@.take(i + 1).drop_last() =~= self.external@.take(i as int));
            wait = min_of(wait, left(self.external[i].expires, now));
            i = i + 1;
        }
        assert(self.external@.take(i as int) =~= self.external@);
        let ghost w2 = wait;
        let mut i: usize = 0;
        while i < self.goals.len()
            invariant
                i <= self.goals@.len(),
                wait == goals_wait(self.goals@.take(i as int), now, w2),
            decreases self.goals.len() - i,
        {
            assert(self.goals@.take(i + 1).drop_last() =~= self.goals@.take(i as int));
            if !self.goals[i].accepted {
                wait = min_of(wait, left(self.goals[i].acceptance_deadline, now));
            }
            i = i + 1;
        }
        assert(self.goals@.take(i as int) =~= self.goals@);
        let ghost w3 = wait;
        let mut s: usize = 0;
        while s < self.subscriptions.len()
            invariant
                s <= self.subscriptions@.len(),
                wait == subscriptions_wait(self.subscriptions@.take(s as int), now, w3),
            decreases self.subscriptions.len() - s,
        {
            assert(self.subscriptions@.take(s + 1).drop_last() =~= self.subscriptions@.take(s as int));
            let clients = &self.subscriptions[s].clients;
            let ghost w0 = wait;
            let mut c: usize = 0;
            while c < clients.len()
                invariant
                    c <= clients@.len(),
                    wait == clients_wait(clients@.take(c as int), now, w0),
                decreases clients.len() - c,
            {
                assert(clients@.take(c + 1).drop_last() =~= clients@.take(c as int));
                if clients[c].pending.len() > 0 {
                    wait = min_of(wait, client_wait(&clients[c], now));
                }
                c = c + 1;
            }
            assert(clients@.take(c as int) =~= clients@);
            s = s + 1;
        }
        assert(self.subscriptions@.take(s as int) =~= self.subscriptions@);
        wait
    }
}

/// How long a finished goal of a client's action server stays known.
pub const FINISHED_GOAL_NS: u64 = 60_000_000_000;

/// The calls of `cs` still within their deadline at `now`, in order.
pub open spec fn unexpired(cs: Seq<Call>, now: u64) -> Seq<Call>
    decreases cs.len(),
{
    if cs.len() == 0 {
        Seq::empty()
    } else if cs.last().expires > now {
        unexpired(cs.drop_last(), now).push(cs.last())
    } else {
        unexpired(cs.drop_last(), now)
    }
}

/// The clients of the calls of `cs` past their deadline at `now`, in order.
pub open spec fn expired_clients(cs: Seq<Call>, now: u64) -> Seq<Entity>
    decreases cs.len(),
{
    if cs.len() == 0 {
        Seq::empty()
    } else if cs.last().expires > now {
        expired_clients(cs.drop_last(), now)
    } else {
        expired_clients(cs.drop_last(), now).push(cs.last().entity)
    }
}

/// The failure that answers a call of `service` that outlived its deadline.
pub open spec fn timeout_reply(service: Seq<char>) -> JsonV {
    JsonV::Object(seq![
        ("op"@, JsonV::Str("service_response"@)),
        ("service"@, JsonV::Str(service)),
        ("values"@, JsonV::Str("Timeout exceeded while waiting for service response"@)),
        ("result"@, JsonV::Bool(false)),
    ])
}

/// The failures sent for the calls of `cs` past their deadline at `now`,
/// in order, to those of their callers among `outputs`.
pub open spec fn timeout_replies<W>(outputs: Seq<(Connection, W)>, cs: Seq<Call>, now: u64) -> Seq<(Connection, JsonV)>
    decreases cs.len(),
{
    if cs.len() == 0 {
        Seq::empty()
    } else if cs.last().expires <= now && connected(outputs, cs.last().owner) {
        timeout_replies(outputs, cs.drop_last(), now).push((cs.last().owner, with_id(timeout_reply(cs.last().service@), cs.last().id)))
    } else {
        timeout_replies(outputs, cs.drop_last(), now)
    }
}

/// No call kept is past its deadline.
pub proof fn lemma_unexpired(cs: Seq<Call>, now: u64)
    ensures
        forall|j: int| 0 <= j < unexpired(cs, now).len() ==> #[trigger] unexpired(cs, now)[j].expires > now,
    decreases cs.len(),
{
    if cs.len() > 0 {
        lemma_unexpired(cs.drop_last(), now);
    }
}

/// Expiring calls at `now` keeps exactly the calls whose deadline is later,
/// in order, destroys the clients of exactly the others, in order, and
/// answers each of those others whose caller is still connected with the
/// timeout failure, under the call's id.
pub proof fn lemma_expiry_partitions<W>(outputs: Seq<(Connection, W)>, cs: Seq<Call>, now: u64)
    ensures
        unexpired(cs, now) == cs.filter(|c: Call| c.expires > now),
        expired_clients(cs, now) == cs.filter(|c: Call| c.expires <= now).map_values(|c: Call| c.entity),
        timeout_replies(outputs, cs, now) == cs.filter(|c: Call| c.expires <= now && connected(outputs, c.owner))
            .map_values(|c: Call| (c.owner, with_id(timeout_reply(c.service@), c.id))),
    decreases cs.len(),
{
    let f = |c: Call| c.expires > now;
    let g = |c: Call| c.expires <= now;
    let h = |c: Call| c.entity;
    let t = |c: Call| c.expires <= now && connected(outputs, c.owner);
    let u = |c: Call| (c.owner, with_id(timeout_reply(c.service@), c.id));
    if cs.len() == 0 {
        assert(cs.filter(f) =~= Seq::<Call>::empty()) by {
            reveal(Seq::filter);
        }
        assert(cs.filter(g) =~= Seq::<Call>::empty()) by {
            reveal(Seq::filter);
        }
        assert(cs.filter(g).map_values(h) =~= Seq::<Entity>::empty());
        assert(cs.filter(t) =~= Seq::<Call>::empty()) by {
            reveal(Seq::filter);
        }
        assert(cs.filter(t).map_values(u) =~= Seq::<(Connection, JsonV)>::empty());
    } else {
        let rest = cs.drop_last();
        lemma_expiry_partitions(outputs, rest, now);
        assert(rest.push(cs.last()) =~= cs);
        crate::rosapi_node::lemma_filter_push(rest, cs.last(), f);
        crate::rosapi_node::lemma_filter_push(rest, cs.last(), g);
        crate::rosapi_node::lemma_filter_push(rest, cs.last(), t);
        if t(cs.last()) {
            assert(cs.filter(t).map_values(u) =~= rest.filter(t).map_values(u).push(u(cs.last())));
        } else {
            assert(cs.filter(t).map_values(u) =~= rest.filter(t).map_values(u));
        }
        if g(cs.last()) {
            assert(cs.filter(g).map_values(h) =~= rest.filter(g).map_values(h).push(h(cs.last())));
        } else {
            assert(cs.filter(g).map_values(h) =~= rest.filter(g).map_values(h));
        }
    }
}

/// Connections keep their places when only their writers change.
proof fn lemma_connected_kept<W>(a: Seq<(Connection, W)>, b: Seq<(Connection, W)>, c: Connection)
    requires
        a.len() == b.len(),
        forall|k: int| 0 <= k < a.len() ==> #[trigger] b[k].0 == a[k].0,
    ensures
        connected(b, c) == connected(a, c),
{
    if connected(a, c) {
        let i = choose|i: int| 0 <= i < a.len() && a[i].0 == c;
        assert(b[i].0 == c);
    }
    if connected(b, c) {
        let i = choose|i: int| 0 <= i < b.len() && b[i].0 == c;
        assert(a[i].0 == c);
    }
}

/// What answering the calls past their deadline at `now` does, as
/// `expire_calls` states it.
pub open spec fn calls_expired<B: Backend, W: Writer>(old: &Bridge<B, W>, new: &Bridge<B, W>, now: u64) -> bool {
    &&& new.calls@ == unexpired(old.calls@, now)
    &&& new.destroyed() == old.destroyed() + expired_clients(old.calls@, now)
    &&& new.sent@ == old.sent@ + timeout_replies(old.outputs@, old.calls@, now)
    &&& new.goals == old.goals
    &&& new.external == old.external
    &&& new.access == old.access
    &&& new.timeout == old.timeout
    &&& starts_with(new.failed@, old.failed@)
}

impl<B: Backend, W: Writer> Bridge<B, W> {
    /// Answers each call past its deadline at `now` with a failure (to its
    /// caller, where still connected) and destroys its client, in order;
    /// the calls within their deadline stay, in order.
    pub fn expire_calls(&mut self, now: u64)
        ensures
            old(self).wf() ==> final(self).wf(),
            final(self).calls@ == unexpired(old(self).calls@, now),
            final(self).destroyed() == old(self).destroyed() + expired_clients(old(self).calls@, now),
            final(self).sent@ == old(self).sent@ + timeout_replies(old(self).outputs@, old(self).calls@, now),
            calls_expired(old(self), final(self), now),
            final(self).publishers == old(self).publishers,
            final(self).subscriptions == old(self).subscriptions,
            final(self).services == old(self).services,
            final(self).external == old(self).external,
            final(self).goals == old(self).goals,
            final(self).action_calls == old(self).action_calls,
            final(self).action_servers == old(self).action_servers,
            final(self).server_goals == old(self).server_goals,
            final(self).access == old(self).access,
            final(self).timeout == old(self).timeout,
            final(self).responses() == old(self).responses(),
            final(self).outputs@.len() == old(self).outputs@.len(),
            forall|k: int| 0 <= k < old(self).outputs@.len() ==> #[trigger] final(self).outputs@[k].0 == old(self).outputs@[k].0,
            starts_with(final(self).failed@, old(self).failed@),
    {
        let ghost cs = self.calls@;
        let ghost mut i: int = 0;
        let mut c: usize = 0;
        assert(cs.take(0) =~= Seq::<Call>::empty());
        assert(cs.skip(0) =~= cs);
        assert(self.calls@ =~= unexpired(cs.take(0), now) + cs.skip(0));
        assert(self.destroyed() =~= old(self).destroyed() + expired_clients(cs.take(0), now));
        assert(self.sent@ =~= old(self).sent@ + timeout_replies(old(self).outputs@, cs.take(0), now));
        while c < self.calls.len()
            invariant
                0 <= i <= cs.len(),
                cs == old(self).calls@,
                c == unexpired(cs.take(i), now).len(),
                self.calls@ == unexpired(cs.take(i), now) + cs.skip(i),
                self.destroyed() == old(self).destroyed() + expired_clients(cs.take(i), now),
                self.sent@ == old(self).sent@ + timeout_replies(old(self).outputs@, cs.take(i), now),
                self.publishers == old(self).publishers,
                self.subscriptions == old(self).subscriptions,
                self.services == old(self).services,
                self.external == old(self).external,
                self.goals == old(self).goals,
                self.action_calls == old(self).action_calls,
                self.action_servers == old(self).action_servers,
                self.server_goals == old(self).server_goals,
                self.access == old(self).access,
                self.timeout == old(self).timeout,
                self.responses() == old(self).responses(),
                self.outputs@.len() == old(self).outputs@.len(),
                forall|k: int| 0 <= k < old(self).outputs@.len() ==> #[trigger] self.outputs@[k].0 == old(self).outputs@[k].0,
                starts_with(self.failed@, old(self).failed@),
            decreases self.calls.len() - c,
        {
            assert(i < cs.len());
            assert(self.calls@[c as int] == cs[i]);
            assert(cs.take(i + 1).drop_last() =~= cs.take(i));
            assert(cs.take(i + 1).last() == cs[i]);
            if self.calls[c].expires <= now {
                let ghost before = self.calls@;
                let call = self.calls.remove(c);
                let message = Json::object()
                    .member("op", Json::string("service_response"))
                    .member("service", Json::string(call.service.as_str()))
                    .member("values", Json::string("Timeout exceeded while waiting for service response"))
                    .member("result", Json::Bool(false));
                proof {
                    if let JsonV::Object(m) = message@ {
                        assert(m =~= seq![
                            ("op"@, JsonV::Str("service_response"@)),
                            ("service"@, JsonV::Str(call.service@)),
                            ("values"@, JsonV::Str("Timeout exceeded while waiting for service response"@)),
                            ("result"@, JsonV::Bool(false)),
                        ]);
                    }
                    lemma_connected_kept(old(self).outputs@, self.outputs@, call.owner);
                }
                self.send(call.owner, message, &call.id, &call.options, None, None);
                self.backend.destroy(call.entity);
                proof {
                    assert(self.calls@ =~= unexpired(cs.take(i + 1), now) + cs.skip(i + 1)) by {
                        assert(before.remove(c as int) =~= unexpired(cs.take(i), now) + cs.skip(i + 1));
                    }
                    assert(self.destroyed() =~= old(self).destroyed() + expired_clients(cs.take(i + 1), now));
                    if connected(old(self).outputs@, call.owner) {
                        assert(self.sent@ =~= old(self).sent@ + timeout_replies(old(self).outputs@, cs.take(i + 1), now));
                    } else {
                        assert(self.sent@ =~= old(self).sent@ + timeout_replies(old(self).outputs@, cs.take(i + 1), now));
                    }
                    i = i + 1;
                }
            } else {
                proof {
                    assert(unexpired(cs.take(i + 1), now) == unexpired(cs.take(i), now).push(cs[i]));
                    assert(self.calls@ =~= unexpired(cs.take(i + 1), now) + cs.skip(i + 1));
                    assert(expired_clients(cs.take(i + 1), now) == expired_clients(cs.take(i), now));
                    assert(timeout_replies(old(self).outputs@, cs.take(i + 1), now) == timeout_replies(old(self).outputs@, cs.take(i), now));
                    i = i + 1;
                }
                c = c + 1;
            }
        }
        proof {
            if i < cs.len() {
                assert(self.calls@.len() == c + cs.skip(i).len());
            }
            assert(cs.take(i) =~= cs);
            assert(cs.skip(i) =~= Seq::<Call>::empty());
            assert(self.calls@ =~= unexpired(cs, now));
        }
    }
}

/// What handling `event` at `now` with outcome `r` does: a sample goes to
/// the subscribers of its subscription, a reply answers the call waiting for
/// it, and a request to an action server is carried out.
pub open spec fn event_handled<B: Backend, W: Writer>(old: &Bridge<B, W>, new: &Bridge<B, W>, event: crate::backend::Event, now: u64, r: Result<(), Error>) -> bool {
    &&& new.access == old.access
    &&& new.timeout == old.timeout
    &&& starts_with(new.failed@, old.failed@)
    &&& match event {
        crate::backend::Event::Message(entity, message) => !topics::feedback_entity(old.goals@, entity)
            ==> forall|i: int| #[trigger] topics::subscription_at(old.subscriptions@, entity, i)
            ==> topics::delivered_to(old.subscriptions@[i], old.sent@, new.sent@, message.json@),
        crate::backend::Event::Response { entity, sequence, values } => forall|c: int|
            #[trigger] services::first_call(old.calls@, entity, sequence, c) ==> {
                &&& new.calls@ == old.calls@.remove(c)
                &&& new.destroyed() == old.destroyed().push(entity)
                &&& services::call_answered(old.sent@, new.sent@, old.outputs@, old.calls@[c], values@, old.access@)
            },
        crate::backend::Event::Request { entity, request, args } => r is Ok ==> forall|a: int|
            #[trigger] actions::first_serving(old.action_servers@, entity, a) ==> {
                &&& entity == old.action_servers@[a].send
                    ==> actions::goal_request_done(old, new, a, entity, request, args@, Ok::<bool, Error>(true))
                &&& entity != old.action_servers@[a].send && entity == old.action_servers@[a].result
                    ==> actions::result_request_done(old, new, a, entity, request, args@, Ok::<bool, Error>(true))
                &&& entity != old.action_servers@[a].send && entity != old.action_servers@[a].result
                    ==> actions::cancel_request_done(old, new, a, entity, request, args@, Ok::<bool, Error>(true))
            },
    }
}

impl<B: Backend, W: Writer> Bridge<B, W> {
    /// Handles one event that ROS reported at time `now` (nanoseconds): a
    /// sample goes to the subscribers of its subscription (or is held back
    /// by their throttling), a reply answers the call that waits for it, and
    /// a request goes to the client serving it (refused ones are discarded).
    pub fn handle_event(&mut self, event: crate::backend::Event, now: u64) -> (r: Result<(), Error>)
        ensures
            old(self).wf() ==> final(self).wf(),
            event_handled(old(self), final(self), event, now, r),
    {
        match event {
            crate::backend::Event::Message(entity, message) => self.topic_message(entity, message, now),
            crate::backend::Event::Response { entity, sequence, values } => self.response(entity, sequence, values),
            crate::backend::Event::Request { entity, request, args } => {
                match self.service_request(entity, request, args, now) {
                    Ok(()) => Ok(()),
                    Err(e) => {
                        self.backend.discard_request(entity, request);
                        Err(e)
                    },
                }
            },
        }
    }
}

/// Whether `event` at `now` took the bridge from `a` to `b` as
/// `handle_event` does, whatever its outcome.
pub open spec fn handled_step<B: Backend, W: Writer>(a: Bridge<B, W>, b: Bridge<B, W>, event: crate::backend::Event, now: u64) -> bool {
    exists|r: Result<(), Error>| #[trigger] event_handled(&a, &b, event, now, r)
}

/// Whether step `k` of `states` handles `events[k]`.
pub open spec fn handled_at<B: Backend, W: Writer>(states: Seq<Bridge<B, W>>, events: Seq<crate::backend::Event>, k: int, now: u64) -> bool {
    handled_step(states[k], states[k + 1], events[k], now)
}

/// Whether `b` is `a` with one goal that was not accepted by `now` ended as
/// failed (status 6).
pub open spec fn goal_timed_out<B: Backend, W: Writer>(a: Bridge<B, W>, b: Bridge<B, W>, now: u64) -> bool {
    exists|j: int| 0 <= j < a.goals@.len() && !a.goals@[j].accepted && a.goals@[j].acceptance_deadline <= now
        && #[trigger] actions::goal_finished(&a, &b, a.goals@[j].key@, JsonV::Object(Seq::empty()), 6, false)
}

/// Whether step `k` of `states` ends a goal not accepted in time.
pub open spec fn timed_out_at<B: Backend, W: Writer>(states: Seq<Bridge<B, W>>, k: int, now: u64) -> bool {
    goal_timed_out(states[k], states[k + 1], now)
}

/// Whether `b` is `a` after polling: only the backend and the record of
/// polled events changed.
pub open spec fn polled_only<B: Backend, W: Writer>(a: Bridge<B, W>, b: Bridge<B, W>) -> bool {
    &&& b.access == a.access
    &&& b.outputs == a.outputs
    &&& b.publishers == a.publishers
    &&& b.subscriptions == a.subscriptions
    &&& b.services == a.services
    &&& b.calls == a.calls
    &&& b.external == a.external
    &&& b.goals == a.goals
    &&& b.action_calls == a.action_calls
    &&& b.action_servers == a.action_servers
    &&& b.server_goals == a.server_goals
    &&& b.next == a.next
    &&& b.timeout == a.timeout
    &&& b.failed == a.failed
    &&& b.sent == a.sent
    &&& b.responses() == a.responses()
    &&& b.destroyed() == a.destroyed()
    &&& b.published() == a.published()
    &&& b.polled().len() >= a.polled().len()
    &&& b.polled().take(a.polled().len() as int) == a.polled()
}

/// A sequence that begins with `b` and then more begins with `b`; and
/// beginning with something that begins with `c` is beginning with `c`.
pub proof fn lemma_starts_with_prefix(a: Seq<Connection>, b: Seq<Connection>, c: Seq<Connection>)
    requires
        exists|x: Seq<Connection>| starts_with(a, b + x),
        starts_with(b, c),
    ensures
        starts_with(a, c),
{
    let x = choose|x: Seq<Connection>| starts_with(a, b + x);
    assert forall|k: int| 0 <= k < c.len() implies #[trigger] a[k] == c[k] by {
        assert((b + x)[k] == b[k]);
    }
}

/// The stages of a tick from `old` to `new` at `now`: the events polled
/// (`evs[0]` holds them) are handled in order (`evs`); then goals not
/// accepted in time end as failed, one by one (`fins`); then due throttled
/// samples are delivered (to `d`), leaving calls, goals and requests alone;
/// then the calls past their deadline are answered with a failure and their
/// clients destroyed (to `e`); what follows only destroys more.
pub open spec fn tick_stages<B: Backend, W: Writer>(old: Bridge<B, W>, new: Bridge<B, W>, evs: Seq<Bridge<B, W>>, fins: Seq<Bridge<B, W>>, d: Bridge<B, W>, e: Bridge<B, W>, now: u64) -> bool {
    let events = evs[0].polled().skip(old.polled().len() as int);
    &&& evs.len() == events.len() + 1
    &&& polled_only(old, evs[0])
    &&& forall|k: int| 0 <= k < events.len() ==> #[trigger] handled_at(evs, events, k, now)
    &&& fins.len() >= 1
    &&& fins[0] == evs.last()
    &&& forall|k: int| 0 <= k < fins.len() - 1 ==> #[trigger] timed_out_at(fins, k, now)
    &&& forall|k: int| 0 <= k < fins.last().goals@.len() ==> #[trigger] fins.last().goals@[k].accepted
        || fins.last().goals@[k].acceptance_deadline > now
    &&& d.calls == fins.last().calls
    &&& d.goals == fins.last().goals
    &&& d.external == fins.last().external
    &&& d.destroyed() == fins.last().destroyed()
    &&& d.responses() == fins.last().responses()
    &&& calls_expired(&d, &e, now)
    &&& starts_with(new.destroyed(), e.destroyed())
}

impl<B: Backend, W: Writer> Bridge<B, W> {
    /// Handles what ROS reported, one event at a time (`handle_event`), then
    /// what the time `now` (nanoseconds) brings: goals not accepted in time
    /// end as failed (`finish_goal`), throttled samples whose time came are
    /// delivered, calls past their deadline are answered with a failure
    /// (`expire_calls`), requests past theirs are given up, finished goals
    /// of client action servers are forgotten after a minute, and
    /// connections whose writer failed or closed are disconnected.
    pub fn tick(&mut self, now: u64) -> (r: Result<(), Error>)
        ensures
            old(self).wf() ==> final(self).wf(),
            final(self).access == old(self).access,
            final(self).timeout == old(self).timeout,
            r is Ok ==> forall|k: int| 0 <= k < final(self).calls@.len() ==> #[trigger] final(self).calls@[k].expires > now,
            r is Ok ==> forall|k: int| 0 <= k < final(self).external@.len() ==> #[trigger] final(self).external@[k].expires > now,
            r is Ok ==> forall|k: int| 0 <= k < final(self).goals@.len()
                ==> #[trigger] final(self).goals@[k].accepted || final(self).goals@[k].acceptance_deadline > now,
            r is Ok ==> forall|c: Connection| #[trigger] old(self).failed@.contains(c) ==> !connected(final(self).outputs@, c),
            r is Ok ==> exists|evs: Seq<Bridge<B, W>>, fins: Seq<Bridge<B, W>>, delivered: Bridge<B, W>, expired: Bridge<B, W>|
                #[trigger] tick_stages(*old(self), *final(self), evs, fins, delivered, expired, now),
            r is Err ==> same_tables(final(self), old(self)) && final(self).outputs@ == old(self).outputs@
                && final(self).failed@ == old(self).failed@ && final(self).sent@ == old(self).sent@,
    {
        let mut events = self.backend.poll()?;
        let ghost s0 = *self;
        let ghost all = events@;
        let ghost mut evs: Seq<Bridge<B, W>> = seq![s0];
        let ghost mut n: int = 0;
        assert(s0.polled().skip(old(self).polled().len() as int) =~= all);
        assert(s0.polled().take(old(self).polled().len() as int) =~= old(self).polled());
        assert(all.skip(0) =~= all);
        while events.len() > 0
            invariant
                old(self).wf() ==> self.wf(),
                self.access == old(self).access,
                self.timeout == old(self).timeout,
                starts_with(self.failed@, old(self).failed@),
                0 <= n <= all.len(),
                events@ == all.skip(n),
                evs.len() == n + 1,
                evs[0] == s0,
                evs.last() == *self,
                forall|k: int| 0 <= k < n ==> #[trigger] handled_at(evs, all, k, now),
            decreases events@.len(),
        {
            assert(events@[0] == all[n]);
            let event = events.remove(0);
            let ghost ev = event;
            let ghost before = *self;
            let res = self.handle_event(event, now);
            proof {
                assert(event_handled(&before, &*self, ev, now, res));
                let evs2 = evs.push(*self);
                assert(evs2[n] == before);
                assert(evs2[n + 1] == *self);
                assert(handled_at(evs2, all, n, now));
                assert forall|k: int| 0 <= k < n + 1 implies #[trigger] handled_at(evs2, all, k, now) by {
                    if k < n {
                        assert(evs2[k] == evs[k]);
                        assert(evs2[k + 1] == evs[k + 1]);
                        assert(handled_at(evs, all, k, now));
                    }
                }
                assert(events@ =~= all.skip(n + 1));
                evs = evs2;
                n = n + 1;
            }
        }
        let ghost after_events = *self;
        let ghost mut fins: Seq<Bridge<B, W>> = seq![after_events];
        // Goals that were not accepted in time.
        loop
            invariant
                old(self).wf() ==> self.wf(),
                self.access == old(self).access,
                self.timeout == old(self).timeout,
                starts_with(self.failed@, old(self).failed@),
                fins.len() >= 1,
                fins[0] == after_events,
                fins.last() == *self,
                forall|k: int| 0 <= k < fins.len() - 1 ==> #[trigger] timed_out_at(fins, k, now),
            ensures
                old(self).wf() ==> self.wf(),
                self.access == old(self).access,
                self.timeout == old(self).timeout,
                starts_with(self.failed@, old(self).failed@),
                fins.len() >= 1,
                fins[0] == after_events,
                fins.last() == *self,
                forall|k: int| 0 <= k < fins.len() - 1 ==> #[trigger] timed_out_at(fins, k, now),
                forall|k: int| 0 <= k < self.goals@.len() ==> #[trigger] self.goals@[k].accepted
                    || self.goals@[k].acceptance_deadline > now,
            decreases self.goals@.len(),
        {
            let mut k: usize = 0;
            while k < self.goals.len()
                invariant
                    k <= self.goals@.len(),
                    forall|j: int| 0 <= j < k ==> #[trigger] self.goals@[j].accepted || self.goals@[j].acceptance_deadline > now,
                ensures
                    k <= self.goals@.len(),
                    forall|j: int| 0 <= j < k ==> #[trigger] self.goals@[j].accepted || self.goals@[j].acceptance_deadline > now,
                    k < self.goals@.len() ==> !self.goals@[k as int].accepted && self.goals@[k as int].acceptance_deadline <= now,
                decreases self.goals.len() - k,
            {
                if !self.goals[k].accepted && self.goals[k].acceptance_deadline <= now {
                    break;
                }
                k = k + 1;
            }
            if k == self.goals.len() {
                break;
            }
            let key = owned(self.goals[k].key.as_str());
            assert(actions::has_goal(self.goals@, key@));
            let ghost before = *self;
            let ghost j = k as int;
            let done = Json::object();
            assert(done@ == JsonV::Object(Seq::<(Seq<char>, JsonV)>::empty()));
            self.finish_goal(key.as_str(), done, 6, false);
            proof {
                assert(actions::goal_finished(&before, &*self, before.goals@[j].key@, JsonV::Object(Seq::empty()), 6, false));
                assert(goal_timed_out(before, *self, now));
                let fins2 = fins.push(*self);
                assert(timed_out_at(fins2, fins.len() - 1, now)) by {
                    assert(fins2[fins.len() - 1] == before);
                    assert(fins2[fins.len() as int] == *self);
                }
                assert forall|q: int| 0 <= q < fins2.len() - 1 implies #[trigger] timed_out_at(fins2, q, now) by {
                    if q < fins.len() - 1 {
                        assert(fins2[q] == fins[q]);
                        assert(fins2[q + 1] == fins[q + 1]);
                        assert(timed_out_at(fins, q, now));
                    }
                }
                fins = fins2;
            }
        }
        let ghost goals = self.goals@;
        let ghost fin_state = *self;
        // Throttled samples whose time came.
        let mut deliveries: Vec<(Connection, String, RosMessage, Options)> = Vec::new();
        let mut s: usize = 0;
        while s < self.subscriptions.len()
            invariant
                old(self).wf() ==> self.wf(),
                s <= self.subscriptions@.len(),
                self.goals@ == goals,
                self.goals == fin_state.goals,
                self.calls == fin_state.calls,
                self.external == fin_state.external,
                self.destroyed() == fin_state.destroyed(),
                self.responses() == fin_state.responses(),
                self.access == old(self).access,
                self.timeout == old(self).timeout,
                starts_with(self.failed@, old(self).failed@),
            decreases self.subscriptions.len() - s,
        {
            let ghost pre_subs = self.subscriptions@;
            let mut sub = self.subscriptions.remove(s);
            let ghost topic0 = sub.topic@;
            let mut c: usize = 0;
            while c < sub.clients.len()
                invariant
                    c <= sub.clients@.len(),
                    sub.topic@ == topic0,
                decreases sub.clients.len() - c,
            {
                let mut client = sub.clients.remove(c);
                let options = client.options();
                let ready = match client.last {
                    None => true,
                    Some(t) => topics::elapsed(t, now) >= topics::millis(options.throttle_ms),
                };
                if ready {
                    match client.pending.pop_front() {
                        Some(message) => {
                            client.last = Some(now);
                            deliveries.push((client.owner, owned(sub.topic.as_str()), message, options));
                        },
                        None => {},
                    }
                }
                sub.clients.insert(c, client);
                c = c + 1;
            }
            self.subscriptions.insert(s, sub);
            proof {
                assert(pre_subs[s as int].topic@ == topic0);
                if old(self).wf() {
                    assert forall|a: int, b: int| 0 <= a < b < self.subscriptions@.len() implies #[trigger] self.subscriptions@[a].topic@ != #[trigger] self.subscriptions@[b].topic@ by {
                        assert(self.subscriptions@[a].topic@ == pre_subs[a].topic@);
                        assert(self.subscriptions@[b].topic@ == pre_subs[b].topic@);
                    }
                }
            }
            s = s + 1;
        }
        while deliveries.len() > 0
            invariant
                old(self).wf() ==> self.wf(),
                self.goals@ == goals,
                self.goals == fin_state.goals,
                self.calls == fin_state.calls,
                self.external == fin_state.external,
                self.destroyed() == fin_state.destroyed(),
                self.responses() == fin_state.responses(),
                self.access == old(self).access,
                self.timeout == old(self).timeout,
                starts_with(self.failed@, old(self).failed@),
            decreases deliveries@.len(),
        {
            let (owner, topic, message, options) = deliveries.remove(0);
            self.deliver_topic(owner, topic.as_str(), message, &options);
        }
        // Calls past their deadline.
        let ghost calls_before = self.calls;
        let ghost delivered = *self;
        self.expire_calls(now);
        let ghost expired = *self;
        proof {
            assert forall|j: int| 0 <= j < self.calls@.len() implies #[trigger] self.calls@[j].expires > now by {
                lemma_unexpired(calls_before@, now);
            }
        }
        let ghost calls = self.calls@;
        // Requests past their deadline.
        let mut x: usize = 0;
        while x < self.external.len()
            invariant
                old(self).wf() ==> self.wf(),
                x <= self.external@.len(),
                starts_with(self.destroyed(), expired.destroyed()),
                forall|j: int| 0 <= j < x ==> #[trigger] self.external@[j].expires > now,
                self.calls@ == calls,
                self.goals@ == goals,
                self.access == old(self).access,
                self.timeout == old(self).timeout,
                starts_with(self.failed@, old(self).failed@),
            decreases self.external.len() - x,
        {
            if self.external[x].expires <= now {
                let r = self.external.remove(x);
                self.backend.discard_request(r.entity, r.request);
            } else {
                x = x + 1;
            }
        }
        // Finished goals of client action servers are kept for a minute.
        let mut g: usize = 0;
        while g < self.server_goals.len()
            invariant
                old(self).wf() ==> self.wf(),
                g <= self.server_goals@.len(),
                starts_with(self.destroyed(), expired.destroyed()),
                self.calls@ == calls,
                self.goals@ == goals,
                forall|j: int| 0 <= j < self.external@.len() ==> #[trigger] self.external@[j].expires > now,
                self.access == old(self).access,
                self.timeout == old(self).timeout,
                starts_with(self.failed@, old(self).failed@),
            decreases self.server_goals.len() - g,
        {
            let expired = match self.server_goals[g].completed {
                Some(t) => topics::elapsed(t, now) >= FINISHED_GOAL_NS,
                None => false,
            };
            if expired {
                self.server_goals.remove(g);
            } else {
                g = g + 1;
            }
        }
        // Connections whose writer refused a message, then those whose writer closed.
        let ghost checked = *self;
        assert(self.goals@ == goals);
        assert(self.access == old(self).access);
        let mut gone: Vec<Connection> = Vec::new();
        while self.failed.len() > 0
            invariant
                old(self).wf() ==> self.wf(),
                self.calls == checked.calls,
                self.external == checked.external,
                self.goals == checked.goals,
                self.access == checked.access,
                self.timeout == checked.timeout,
                self.destroyed() == checked.destroyed(),
                gone@ + self.failed@ == checked.failed@,
            decreases self.failed@.len(),
        {
            let ghost rest = self.failed@;
            let c = self.failed.remove(0);
            let ghost done = gone@;
            gone.push(c);
            assert(gone@ + self.failed@ =~= done + rest);
        }
        let mut o: usize = 0;
        while o < self.outputs.len()
            invariant
                old(self).wf() ==> self.wf(),
                o <= self.outputs@.len(),
                self.calls == checked.calls,
                self.external == checked.external,
                self.goals == checked.goals,
                self.access == checked.access,
                self.timeout == checked.timeout,
                self.destroyed() == checked.destroyed(),
                starts_with(gone@, checked.failed@),
            decreases self.outputs.len() - o,
        {
            if self.outputs[o].1.is_closed() {
                gone.push(self.outputs[o].0);
            }
            o = o + 1;
        }
        let mut d: usize = 0;
        while d < gone.len()
            invariant
                old(self).wf() ==> self.wf(),
                d <= gone@.len(),
                forall|j: int| 0 <= j < self.calls@.len() ==> #[trigger] self.calls@[j].expires > now,
                forall|j: int| 0 <= j < self.external@.len() ==> #[trigger] self.external@[j].expires > now,
                forall|j: int| 0 <= j < self.goals@.len() ==> #[trigger] self.goals@[j].accepted
                    || self.goals@[j].acceptance_deadline > now,
                self.access == old(self).access,
                self.timeout == old(self).timeout,
                forall|j: int| 0 <= j < d ==> !connected(self.outputs@, #[trigger] gone@[j]),
                starts_with(self.destroyed(), expired.destroyed()),
            decreases gone.len() - d,
        {
            let ghost before = *self;
            self.disconnect(gone[d]);
            proof {
                lemma_starts_with_prefix(self.destroyed(), before.destroyed(), expired.destroyed());
                assert forall|j: int| 0 <= j < self.calls@.len() implies #[trigger] self.calls@[j].expires > now by {
                    assert(before.calls@.contains(self.calls@[j]));
                }
                assert forall|j: int| 0 <= j < self.external@.len() implies #[trigger] self.external@[j].expires > now by {
                    assert(before.external@.contains(self.external@[j]));
                }
                assert forall|j: int| 0 <= j < self.goals@.len() implies #[trigger] self.goals@[j].accepted
                    || self.goals@[j].acceptance_deadline > now by {
                    assert(before.goals@.contains(self.goals@[j]));
                }
                assert forall|j: int| 0 <= j < d + 1 implies !connected(self.outputs@, #[trigger] gone@[j]) by {
                    if j < d && connected(self.outputs@, gone@[j]) {
                        assert(connected(before.outputs@, gone@[j]));
                    }
                }
            }
            d = d + 1;
        }
        proof {
            assert forall|c: Connection| #[trigger] old(self).failed@.contains(c) implies !connected(self.outputs@, c) by {
                let k = choose|k: int| 0 <= k < old(self).failed@.len() && old(self).failed@[k] == c;
                assert(checked.failed@[k] == c);
                assert(gone@[k] == c);
            }
        }
        proof {
            let events = evs[0].polled().skip(old(self).polled().len() as int);
            assert(events =~= all);
            assert(polled_only(*old(self), evs[0]));
            assert(fins.last() == fin_state);
            assert(calls_expired(&delivered, &expired, now));
            assert(tick_stages(*old(self), *self, evs, fins, delivered, expired, now));
        }
        Ok(())
    }
}

} // verus!
