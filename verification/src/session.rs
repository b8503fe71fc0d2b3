//! The decisions of one WebSocket session: its deadlines, the heartbeat that
//! probes an idle peer, and how a session that ends is closed.
//!
//! The socket itself, the timers and the tasks that wait on them belong to the
//! program; they ask these values what to send and when to give up.

use vstd::prelude::*;
use crate::incoming::Refused;
use crate::json::{Json, JsonV};
use crate::text::owned;

verus! {

/// Deadlines of a session, in milliseconds. A ping interval of zero disables
/// active probes; the write deadline still applies.
#[derive(Clone, Copy, Debug)]
pub struct Timing {
    pub write_timeout_ms: u64,
    pub ping_interval_ms: u64,
    pub ping_timeout_ms: u64,
}

impl Default for Timing {
    fn default() -> (t: Timing)
        ensures
            t.write_timeout_ms == 10_000,
            t.ping_interval_ms == 30_000,
            t.ping_timeout_ms == 30_000,
    {
        Timing { write_timeout_ms: 10_000, ping_interval_ms: 30_000, ping_timeout_ms: 30_000 }
    }
}

impl Timing {
    /// Whether the session sends pings of its own.
    pub fn probes(&self) -> (r: bool)
        ensures
            r == (self.ping_interval_ms > 0),
    {
        self.ping_interval_ms > 0
    }
}

/// The payload of the ping with sequence number `n`: its eight bytes, most
/// significant first.
pub open spec fn ping_payload(n: u64) -> Seq<u8> {
    seq![
        (n >> 56u64) as u8,
        (n >> 48u64) as u8,
        (n >> 40u64) as u8,
        (n >> 32u64) as u8,
        (n >> 24u64) as u8,
        (n >> 16u64) as u8,
        (n >> 8u64) as u8,
        n as u8,
    ]
}

/// The probing side of a session: how many pings were sent, and the payload of
/// the one that still awaits its pong.
pub struct Heartbeat {
    sequence: u64,
    pending: Option<Vec<u8>>,
}

pub struct HeartbeatV {
    pub sequence: u64,
    pub pending: Option<Seq<u8>>,
}

impl View for Heartbeat {
    type V = HeartbeatV;

    closed spec fn view(&self) -> HeartbeatV {
        HeartbeatV {
            sequence: self.sequence,
            pending: match self.pending {
                Some(p) => Some(p@),
                None => None,
            },
        }
    }
}

fn same_bytes(a: &Vec<u8>, b: &[u8]) -> (r: bool)
    ensures
        r == (a@ == b@),
{
    if a.len() != b.len() {
        return false;
    }
    let mut i: usize = 0;
    while i < a.len()
        invariant
            a@.len() == b@.len(),
            i <= a@.len(),
            forall|k: int| 0 <= k < i ==> a@[k] == b@[k],
        decreases a@.len() - i,
    {
        if a[i] != b[i] {
            return false;
        }
        i = i + 1;
    }
    assert(a@ =~= b@);
    true
}

impl Heartbeat {
    pub fn new() -> (h: Heartbeat)
        ensures
            h@.sequence == 0,
            h@.pending.is_none(),
    {
        Heartbeat { sequence: 0, pending: None }
    }

    /// Starts the next probe: numbers it one past the last (wrapping), records
    /// its payload as awaiting a pong, and gives the payload to send.
    pub fn ping(&mut self) -> (payload: Vec<u8>)
        ensures
            final(self)@.sequence == old(self)@.sequence.wrapping_add(1),
            payload@ == ping_payload(final(self)@.sequence),
            final(self)@.pending == Some(payload@),
    {
        self.sequence = self.sequence.wrapping_add(1);
        let n = self.sequence;
        let mut payload: Vec<u8> = Vec::new();
        payload.push((n >> 56u64) as u8);
        payload.push((n >> 48u64) as u8);
        payload.push((n >> 40u64) as u8);
        payload.push((n >> 32u64) as u8);
        payload.push((n >> 24u64) as u8);
        payload.push((n >> 16u64) as u8);
        payload.push((n >> 8u64) as u8);
        payload.push(n as u8);
        assert(payload@ =~= ping_payload(n));
        self.pending = Some(payload.clone());
        payload
    }

    /// A pong arrived. It acknowledges the probe only if it carries the payload
    /// that awaits one; any other pong changes nothing.
    pub fn pong(&mut self, payload: &[u8]) -> (acknowledged: bool)
        ensures
            acknowledged == (old(self)@.pending == Some(payload@)),
            final(self)@.sequence == old(self)@.sequence,
            final(self)@.pending == (if acknowledged { None } else { old(self)@.pending }),
    {
        let matched = match &self.pending {
            Some(p) => same_bytes(p, payload),
            None => false,
        };
        if matched {
            self.pending = None;
        }
        matched
    }

    /// Whether no probe awaits its pong.
    pub fn acknowledged(&self) -> (r: bool)
        ensures
            r == self@.pending.is_none(),
    {
        self.pending.is_none()
    }
}

/// Distinct sequence numbers give distinct payloads, so the pong to an earlier
/// probe never acknowledges a later one.
pub proof fn lemma_payloads_distinct(a: u64, b: u64)
    requires
        a != b,
    ensures
        ping_payload(a) != ping_payload(b),
{
    if ping_payload(a) == ping_payload(b) {
        assert(ping_payload(a)[0] == ping_payload(b)[0]);
        assert(ping_payload(a)[1] == ping_payload(b)[1]);
        assert(ping_payload(a)[2] == ping_payload(b)[2]);
        assert(ping_payload(a)[3] == ping_payload(b)[3]);
        assert(ping_payload(a)[4] == ping_payload(b)[4]);
        assert(ping_payload(a)[5] == ping_payload(b)[5]);
        assert(ping_payload(a)[6] == ping_payload(b)[6]);
        assert(ping_payload(a)[7] == ping_payload(b)[7]);
        assert(a == b) by (bit_vector)
            requires
                (a >> 56u64) as u8 == (b >> 56u64) as u8,
                (a >> 48u64) as u8 == (b >> 48u64) as u8,
                (a >> 40u64) as u8 == (b >> 40u64) as u8,
                (a >> 32u64) as u8 == (b >> 32u64) as u8,
                (a >> 24u64) as u8 == (b >> 24u64) as u8,
                (a >> 16u64) as u8 == (b >> 16u64) as u8,
                (a >> 8u64) as u8 == (b >> 8u64) as u8,
                a as u8 == b as u8,
        ;
    }
}

/// How a session came to an end.
#[derive(Clone, Copy, Debug, PartialEq, Eq, Structural)]
pub enum Ending {
    /// The peer sent a Close frame.
    PeerClose,
    /// The peer's stream ended without one.
    Eof,
    /// The bridge closed the session's output queue.
    OutputClosed,
    /// A probe went unanswered past its deadline.
    HeartbeatTimeout,
    /// The client's incoming command queue was full.
    QueueFull,
    /// A write missed its deadline.
    WriteTimedOut,
    /// Reading or writing the socket failed otherwise.
    Failed,
}

/// The close codes the server sends.
#[derive(Clone, Copy, Debug, PartialEq, Eq, Structural)]
pub enum CloseCode {
    /// 1001: going away.
    Away,
    /// 1011: internal error.
    Error,
    /// 1013: try again later.
    Again,
}

/// The Close frame the server sends for an ending, if any, and the reason
/// logged for it. `output_reason` is why the output queue was closed, if it was.
pub open spec fn close_for(ending: Ending, output_reason: Option<Seq<char>>) -> (Option<CloseCode>, Seq<char>) {
    match ending {
        Ending::PeerClose => (None, "peer close"@),
        Ending::Eof => (None, "peer stream ended"@),
        Ending::HeartbeatTimeout => (Some(CloseCode::Away), "WebSocket pong timed out"@),
        Ending::OutputClosed => match output_reason {
            Some(r) => if r == "outbound encoding failed"@ {
                (Some(CloseCode::Error), r)
            } else {
                (Some(CloseCode::Again), r)
            },
            None => (Some(CloseCode::Away), "bridge disconnected"@),
        },
        Ending::QueueFull => (Some(CloseCode::Again), "client incoming queue full"@),
        Ending::WriteTimedOut => (Some(CloseCode::Error), "WebSocket write timed out"@),
        Ending::Failed => (Some(CloseCode::Error), "WebSocket session failed"@),
    }
}

impl Ending {
    /// The Close frame to send and the reason to log.
    pub fn close(&self, output_reason: Option<&str>) -> (r: (Option<CloseCode>, String))
        ensures
            r.0 == close_for(*self, match output_reason { Some(s) => Some(s@), None => None }).0,
            r.1@ == close_for(*self, match output_reason { Some(s) => Some(s@), None => None }).1,
    {
        match self {
            Ending::PeerClose => (None, owned("peer close")),
            Ending::Eof => (None, owned("peer stream ended")),
            Ending::HeartbeatTimeout => (Some(CloseCode::Away), owned("WebSocket pong timed out")),
            Ending::OutputClosed => match output_reason {
                Some(r) => if crate::text::same(r, "outbound encoding failed") {
                    (Some(CloseCode::Error), owned(r))
                } else {
                    (Some(CloseCode::Again), owned(r))
                },
                None => (Some(CloseCode::Away), owned("bridge disconnected")),
            },
            Ending::QueueFull => (Some(CloseCode::Again), owned("client incoming queue full")),
            Ending::WriteTimedOut => (Some(CloseCode::Error), owned("WebSocket write timed out")),
            Ending::Failed => (Some(CloseCode::Error), owned("WebSocket session failed")),
        }
    }

    /// How a session ends when the bridge refuses one of its messages: a full
    /// command queue is the client's doing, any other refusal a failure.
    pub fn refusal(refused: &Refused) -> (r: Ending)
        ensures
            r == (if refused is Full { Ending::QueueFull } else { Ending::Failed }),
    {
        match refused {
            Refused::Full(_) => Ending::QueueFull,
            _ => Ending::Failed,
        }
    }

    /// Whether the server still runs a closing handshake: every ending but a
    /// stream that simply ended.
    pub fn handshake(&self) -> (r: bool)
        ensures
            r == (*self != Ending::Eof),
    {
        !matches!(self, Ending::Eof)
    }
}

/// The server sends a Close frame for every ending but the peer's own close
/// and a stream that ended: going away for an unanswered probe or a bridge
/// that let the session go, try-again-later for a client that fell behind
/// (its incoming queue full, or its output queue closed for a reason other
/// than a failed encoding), and internal error for a failed write or encoding.
pub proof fn lemma_close_frames(e: Ending, output_reason: Option<Seq<char>>)
    ensures
        (close_for(e, output_reason).0 is Some) == (e != Ending::PeerClose && e != Ending::Eof),
        e == Ending::HeartbeatTimeout ==> close_for(e, output_reason).0 == Some(CloseCode::Away),
        e == Ending::OutputClosed && output_reason is None ==> close_for(e, output_reason).0 == Some(CloseCode::Away),
        e == Ending::QueueFull ==> close_for(e, output_reason).0 == Some(CloseCode::Again),
        e == Ending::OutputClosed && output_reason is Some && output_reason != Some("outbound encoding failed"@)
            ==> close_for(e, output_reason).0 == Some(CloseCode::Again),
        e == Ending::OutputClosed && output_reason == Some("outbound encoding failed"@)
            ==> close_for(e, output_reason).0 == Some(CloseCode::Error),
        e == Ending::WriteTimedOut || e == Ending::Failed ==> close_for(e, output_reason).0 == Some(CloseCode::Error),
{
}

/// The status message sent to a client whose frame could not be decoded.
pub open spec fn decode_status(message: Seq<char>) -> JsonV {
    JsonV::Object(seq![
        ("op"@, JsonV::Str("status"@)),
        ("level"@, JsonV::Str("error"@)),
        ("msg"@, JsonV::Str(message)),
    ])
}

pub fn decode_status_value(message: &str) -> (r: Json)
    ensures
        r@ == decode_status(message@),
{
    let r = Json::object()
        .member("op", Json::string("status"))
        .member("level", Json::string("error"))
        .member("msg", Json::string(message));
    assert(r@.members() =~= seq![
        ("op"@, JsonV::Str("status"@)),
        ("level"@, JsonV::Str("error"@)),
        ("msg"@, JsonV::Str(message@)),
    ]);
    r
}

} // verus!
