//! Per-connection FIFO command queues, served one command at a time round-robin.

use vstd::prelude::*;
use std::collections::VecDeque;

verus! {

/// A client sent more messages than its queue holds.
#[derive(Debug, Clone, Copy, PartialEq, Eq)]
pub struct QueueFull;

impl QueueFull {
    pub fn text(&self) -> (r: &'static str)
        ensures
            r@ == "client incoming queue full"@,
    {
        "client incoming queue full"
    }
}

/// Why a command was not queued.
#[derive(Debug, Clone, Copy, PartialEq, Eq)]
pub enum Refused {
    /// The receiving side is gone.
    Closed,
    /// A connection with that id is registered already.
    Duplicate,
    /// No connection with that id is registered.
    Unregistered,
    /// The connection is being closed.
    Closing,
    /// The connection's queue is full.
    Full(QueueFull),
}

pub open spec fn refusal_text(r: Refused) -> Seq<char> {
    match r {
        Refused::Closed => "ROS command receiver closed"@,
        Refused::Duplicate => "duplicate connection"@,
        Refused::Unregistered => "connection is not registered"@,
        Refused::Closing => "connection is closing"@,
        Refused::Full(_) => "client incoming queue full"@,
    }
}

impl Refused {
    pub fn text(&self) -> (r: &'static str)
        ensures
            r@ == refusal_text(*self),
    {
        match self {
            Refused::Closed => "ROS command receiver closed",
            Refused::Duplicate => "duplicate connection",
            Refused::Unregistered => "connection is not registered",
            Refused::Closing => "connection is closing",
            Refused::Full(q) => q.text(),
        }
    }
}

/// What the worker is handed next.
pub enum Command<T, O> {
    /// A new connection and the sink for its replies.
    Connect(u64, O),
    /// The next message of a connection.
    Message(u64, T),
    /// A connection closed; it is forgotten.
    Disconnect(u64),
    /// The receiving side is closing.
    Shutdown,
}

/// One connection's queue.
pub struct Client<T, O> {
    pub id: u64,
    /// The reply sink, until the worker is told of the connection.
    pub output: Option<O>,
    pub messages: VecDeque<T>,
    pub disconnect: bool,
    /// Whether the connection is in the ready queue.
    pub scheduled: bool,
}

/// The mathematical value of a [`Client`].
pub struct ClientV<T, O> {
    pub id: u64,
    pub output: Option<O>,
    pub messages: Seq<T>,
    pub disconnect: bool,
    pub scheduled: bool,
}

impl<T, O> View for Client<T, O> {
    type V = ClientV<T, O>;

    open spec fn view(&self) -> ClientV<T, O> {
        ClientV {
            id: self.id,
            output: self.output,
            messages: self.messages@,
            disconnect: self.disconnect,
            scheduled: self.scheduled,
        }
    }
}

/// The connections and the order in which they are served.
pub struct Incoming<T, O> {
    clients: Vec<Client<T, O>>,
    /// Connections with something to hand over, in the order they will be served.
    ready: VecDeque<u64>,
    /// How many messages each connection may have queued.
    capacity: usize,
    closed: bool,
}

/// The mathematical value of an [`Incoming`].
pub struct IncomingV<T, O> {
    pub clients: Seq<ClientV<T, O>>,
    pub ready: Seq<u64>,
    pub capacity: nat,
    pub closed: bool,
}

impl<T, O> View for Incoming<T, O> {
    type V = IncomingV<T, O>;

    closed spec fn view(&self) -> IncomingV<T, O> {
        IncomingV {
            clients: Seq::new(self.clients@.len(), |i: int| self.clients@[i]@),
            ready: self.ready@,
            capacity: self.capacity as nat,
            closed: self.closed,
        }
    }
}

/// The position of connection `id`, or none.
pub open spec fn find<T, O>(cs: Seq<ClientV<T, O>>, id: u64) -> Option<int> {
    if exists|i: int| 0 <= i < cs.len() && cs[i].id == id {
        Some(choose|i: int| 0 <= i < cs.len() && cs[i].id == id)
    } else {
        None
    }
}

/// Whether connection `id` is registered.
pub open spec fn registered<T, O>(cs: Seq<ClientV<T, O>>, id: u64) -> bool {
    exists|i: int| 0 <= i < cs.len() && cs[i].id == id
}

/// The invariant of the queues.
pub open spec fn consistent<T, O>(s: IncomingV<T, O>) -> bool {
    &&& s.capacity > 0
    &&& forall|i: int, j: int| 0 <= i < s.clients.len() && 0 <= j < s.clients.len() && i != j
        ==> s.clients[i].id != s.clients[j].id
    &&& forall|i: int, j: int| 0 <= i < s.ready.len() && 0 <= j < s.ready.len() && i != j ==> s.ready[i] != s.ready[j]
    &&& forall|k: int| 0 <= k < s.ready.len() ==> registered(s.clients, #[trigger] s.ready[k])
    &&& forall|i: int| 0 <= i < s.clients.len() ==> (#[trigger] s.clients[i].scheduled <==> s.ready.contains(s.clients[i].id))
    &&& forall|i: int| 0 <= i < s.clients.len() ==> #[trigger] s.clients[i].messages.len() <= s.capacity
    &&& forall|i: int| 0 <= i < s.clients.len() ==> #[trigger] s.clients[i].disconnect ==> s.clients[i].messages.len() == 0
    &&& forall|i: int| 0 <= i < s.clients.len() ==> #[trigger] s.clients[i].scheduled
        ==> (s.clients[i].disconnect || s.clients[i].output is Some || s.clients[i].messages.len() > 0)
    &&& s.closed ==> s.clients.len() == 0 && s.ready.len() == 0
}

/// Connection `i` put in the ready queue, unless it is there already.
pub open spec fn schedule<T, O>(s: IncomingV<T, O>, i: int) -> IncomingV<T, O> {
    if s.clients[i].scheduled {
        s
    } else {
        let c = s.clients[i];
        IncomingV {
            clients: s.clients.update(
                i,
                ClientV { id: c.id, output: c.output, messages: c.messages, disconnect: c.disconnect, scheduled: true },
            ),
            ready: s.ready.push(c.id),
            capacity: s.capacity,
            closed: s.closed,
        }
    }
}

/// `s` with connection `i` replaced by `c`.
pub open spec fn with_client<T, O>(s: IncomingV<T, O>, i: int, c: ClientV<T, O>) -> IncomingV<T, O> {
    IncomingV { clients: s.clients.update(i, c), ready: s.ready, capacity: s.capacity, closed: s.closed }
}

/// Registering connection `id` with its reply sink.
pub open spec fn connect_step<T, O>(s: IncomingV<T, O>, id: u64, output: O) -> (Result<(), Refused>, IncomingV<T, O>) {
    if s.closed {
        (Err(Refused::Closed), s)
    } else if registered(s.clients, id) {
        (Err(Refused::Duplicate), s)
    } else {
        let c = ClientV { id, output: Some(output), messages: Seq::empty(), disconnect: false, scheduled: false };
        let t = IncomingV { clients: s.clients.push(c), ready: s.ready, capacity: s.capacity, closed: s.closed };
        (Ok(()), schedule(t, s.clients.len() as int))
    }
}

/// Queueing message `v` of connection `id`.
pub open spec fn message_step<T, O>(s: IncomingV<T, O>, id: u64, v: T) -> (Result<(), Refused>, IncomingV<T, O>) {
    if s.closed {
        (Err(Refused::Closed), s)
    } else {
        match find(s.clients, id) {
            None => (Err(Refused::Unregistered), s),
            Some(i) => {
                let c = s.clients[i];
                if c.disconnect {
                    (Err(Refused::Closing), s)
                } else if c.messages.len() >= s.capacity {
                    (Err(Refused::Full(QueueFull)), s)
                } else {
                    let d = ClientV { id, output: c.output, messages: c.messages.push(v), disconnect: false, scheduled: c.scheduled };
                    (Ok(()), schedule(with_client(s, i, d), i))
                }
            },
        }
    }
}

/// Closing connection `id`: its queued messages are dropped and its
/// disconnection is queued; nothing can refuse it.
pub open spec fn disconnect_step<T, O>(s: IncomingV<T, O>, id: u64) -> IncomingV<T, O> {
    match find(s.clients, id) {
        None => s,
        Some(i) => {
            let c = s.clients[i];
            let d = ClientV { id, output: c.output, messages: Seq::empty(), disconnect: true, scheduled: c.scheduled };
            schedule(with_client(s, i, d), i)
        },
    }
}

/// Closing the receiving side: every queue is dropped.
pub open spec fn shutdown_step<T, O>(s: IncomingV<T, O>) -> IncomingV<T, O> {
    IncomingV { clients: Seq::empty(), ready: Seq::empty(), capacity: s.capacity, closed: true }
}

/// Handing the next command to the worker: the connection at the front of the
/// ready queue gives one command, and goes to the back while it has more.
pub open spec fn recv_step<T, O>(s: IncomingV<T, O>) -> (Option<Command<T, O>>, IncomingV<T, O>) {
    if s.closed {
        (Some(Command::Shutdown), s)
    } else if s.ready.len() == 0 {
        (None, s)
    } else {
        let id = s.ready[0];
        let rest = s.ready.drop_first();
        let i = find(s.clients, id)->0;
        let c = s.clients[i];
        if c.disconnect {
            (
                Some(Command::Disconnect(id)),
                IncomingV { clients: s.clients.remove(i), ready: rest, capacity: s.capacity, closed: s.closed },
            )
        } else {
            let (command, d) = match c.output {
                Some(o) => (
                    Command::Connect(id, o),
                    ClientV { id, output: None, messages: c.messages, disconnect: false, scheduled: false },
                ),
                None => (
                    Command::Message(id, c.messages[0]),
                    ClientV { id, output: None, messages: c.messages.drop_first(), disconnect: false, scheduled: false },
                ),
            };
            let t = IncomingV { clients: s.clients.update(i, d), ready: rest, capacity: s.capacity, closed: s.closed };
            (Some(command), if d.messages.len() > 0 { schedule(t, i) } else { t })
        }
    }
}

/// How many commands the worker takes from the queues before it lets the
/// bridge handle what ROS reported.
pub const COMMAND_BATCH: usize = 64;

/// What taking up to `n` commands from queues `s`, one after another, gives
/// in order, and the queues after; it stops early where none is ready.
pub open spec fn drain_step<T, O>(s: IncomingV<T, O>, n: nat) -> (Seq<Command<T, O>>, IncomingV<T, O>)
    decreases n,
{
    if n == 0 {
        (Seq::empty(), s)
    } else {
        match recv_step(s).0 {
            None => (Seq::empty(), recv_step(s).1),
            Some(c) => {
                let rest = drain_step(recv_step(s).1, (n - 1) as nat);
                (seq![c] + rest.0, rest.1)
            },
        }
    }
}

/// A connection's position in the ready queue, where it is there.
pub open spec fn place(ready: Seq<u64>, id: u64) -> Option<int> {
    if ready.contains(id) {
        Some(ready.index_of(id))
    } else {
        None
    }
}

/// The position of connection `id` among `clients`, or their number.
fn locate<T, O>(clients: &Vec<Client<T, O>>, id: u64) -> (i: usize)
    ensures
        i <= clients@.len(),
        i < clients@.len() ==> clients@[i as int].id == id,
        forall|k: int| 0 <= k < i ==> clients@[k].id != id,
{
    let mut i: usize = 0;
    while i < clients.len()
        invariant
            i <= clients@.len(),
            forall|k: int| 0 <= k < i ==> clients@[k].id != id,
        decreases clients.len() - i,
    {
        if clients[i].id == id {
            return i;
        }
        i = i + 1;
    }
    i
}

impl<T, O> Incoming<T, O> {
    pub open spec fn wf(&self) -> bool {
        consistent(self@)
    }

    /// The position of `id` in the model, from [`locate`].
    proof fn lemma_found(&self, id: u64, i: usize)
        requires
            self.wf(),
            i <= self.clients@.len(),
            i < self.clients@.len() ==> self.clients@[i as int].id == id,
            forall|k: int| 0 <= k < i ==> self.clients@[k].id != id,
        ensures
            i < self.clients@.len() ==> find(self@.clients, id) == Some(i as int) && registered(self@.clients, id),
            i == self.clients@.len() ==> find(self@.clients, id) is None && !registered(self@.clients, id),
    {
        let cs = self@.clients;
        if i < self.clients@.len() {
            assert(cs[i as int].id == id);
            let c = choose|c: int| 0 <= c < cs.len() && cs[c].id == id;
            assert(c == i);
        } else {
            assert forall|k: int| 0 <= k < cs.len() implies cs[k].id != id by {
                assert(cs[k].id == self.clients@[k].id);
            }
        }
    }

    /// Queues for connections that may each hold `capacity` messages.
    pub fn new(capacity: usize) -> (r: Incoming<T, O>)
        requires
            capacity > 0,
        ensures
            r.wf(),
            r@.clients.len() == 0,
            r@.ready.len() == 0,
            r@.capacity == capacity,
            !r@.closed,
    {
        let r = Incoming { clients: Vec::new(), ready: VecDeque::new(), capacity, closed: false };
        assert(r@.clients =~= Seq::empty());
        r
    }

    /// Puts connection `i` in the ready queue, unless it is there already.
    fn schedule_at(&mut self, i: usize)
        requires
            i < old(self).clients@.len(),
        ensures
            final(self)@ == schedule(old(self)@, i as int),
            final(self).capacity == old(self).capacity,
    {
        let ghost before = self@;
        let mut c = self.clients.remove(i);
        if !c.scheduled {
            c.scheduled = true;
            self.ready.push_back(c.id);
        }
        self.clients.insert(i, c);
        assert(self@.clients =~= schedule(before, i as int).clients);
    }
}

} // verus!

verus! {

/// Scheduling keeps the invariant where the connection has something to hand over.
proof fn lemma_schedule<T, O>(s: IncomingV<T, O>, i: int)
    requires
        0 <= i < s.clients.len(),
        s.capacity > 0,
        forall|a: int, b: int| 0 <= a < s.clients.len() && 0 <= b < s.clients.len() && a != b
            ==> s.clients[a].id != s.clients[b].id,
        forall|a: int, b: int| 0 <= a < s.ready.len() && 0 <= b < s.ready.len() && a != b ==> s.ready[a] != s.ready[b],
        forall|k: int| 0 <= k < s.ready.len() ==> registered(s.clients, #[trigger] s.ready[k]),
        forall|a: int| 0 <= a < s.clients.len() ==> (#[trigger] s.clients[a].scheduled <==> s.ready.contains(s.clients[a].id)),
        forall|a: int| 0 <= a < s.clients.len() ==> #[trigger] s.clients[a].messages.len() <= s.capacity,
        forall|a: int| 0 <= a < s.clients.len() ==> #[trigger] s.clients[a].disconnect ==> s.clients[a].messages.len() == 0,
        forall|a: int| 0 <= a < s.clients.len() && a != i ==> #[trigger] s.clients[a].scheduled
            ==> (s.clients[a].disconnect || s.clients[a].output is Some || s.clients[a].messages.len() > 0),
        s.clients[i].disconnect || s.clients[i].output is Some || s.clients[i].messages.len() > 0,
        !s.closed,
    ensures
        consistent(schedule(s, i)),
{
    let t = schedule(s, i);
    if !s.clients[i].scheduled {
        let id = s.clients[i].id;
        assert(!s.ready.contains(id));
        assert forall|k: int| 0 <= k < t.ready.len() implies registered(t.clients, #[trigger] t.ready[k]) by {
            if k < s.ready.len() {
                let j = choose|j: int| 0 <= j < s.clients.len() && s.clients[j].id == s.ready[k];
                assert(t.clients[j].id == s.ready[k]);
            } else {
                assert(t.clients[i].id == id);
            }
        }
        assert forall|a: int| 0 <= a < t.clients.len() implies (#[trigger] t.clients[a].scheduled <==> t.ready.contains(t.clients[a].id)) by {
            if a != i {
                assert(s.clients[a].id != id);
                if s.ready.contains(s.clients[a].id) {
                    let k = s.ready.index_of(s.clients[a].id);
                    assert(t.ready[k] == s.clients[a].id);
                }
                if t.ready.contains(t.clients[a].id) {
                    let k = t.ready.index_of(t.clients[a].id);
                    assert(k < s.ready.len());
                    assert(s.ready[k] == s.clients[a].id);
                }
            } else {
                assert(t.ready[s.ready.len() as int] == id);
            }
        }
        assert forall|a: int, b: int| 0 <= a < t.ready.len() && 0 <= b < t.ready.len() && a != b implies t.ready[a] != t.ready[b] by {
            if a == s.ready.len() && b < s.ready.len() {
                assert(s.ready.contains(s.ready[b]));
            } else if b == s.ready.len() && a < s.ready.len() {
                assert(s.ready.contains(s.ready[a]));
            }
        }
    }
}

/// Registering a connection keeps the invariant.
pub proof fn lemma_connect<T, O>(s: IncomingV<T, O>, id: u64, output: O)
    requires
        consistent(s),
    ensures
        consistent(connect_step(s, id, output).1),
{
    if !s.closed && !registered(s.clients, id) {
        let c = ClientV { id, output: Some(output), messages: Seq::<T>::empty(), disconnect: false, scheduled: false };
        let t = IncomingV { clients: s.clients.push(c), ready: s.ready, capacity: s.capacity, closed: s.closed };
        let n = s.clients.len() as int;
        assert forall|k: int| 0 <= k < t.ready.len() implies registered(t.clients, #[trigger] t.ready[k]) by {
            let j = choose|j: int| 0 <= j < s.clients.len() && s.clients[j].id == s.ready[k];
            assert(t.clients[j].id == s.ready[k]);
        }
        assert(!s.ready.contains(id)) by {
            if s.ready.contains(id) {
                let k = s.ready.index_of(id);
                assert(registered(s.clients, s.ready[k]));
            }
        }
        assert forall|a: int, b: int| 0 <= a < t.clients.len() && 0 <= b < t.clients.len() && a != b
            implies t.clients[a].id != t.clients[b].id by {
            if a == n {
                assert(t.clients[b] == s.clients[b]);
            } else if b == n {
                assert(t.clients[a] == s.clients[a]);
            }
        }
        lemma_schedule(t, n);
    }
}

/// Queueing a message keeps the invariant.
pub proof fn lemma_message<T, O>(s: IncomingV<T, O>, id: u64, v: T)
    requires
        consistent(s),
    ensures
        consistent(message_step(s, id, v).1),
{
    if !s.closed && registered(s.clients, id) {
        let i = find(s.clients, id)->0;
        let c = s.clients[i];
        if !c.disconnect && c.messages.len() < s.capacity {
            let d = ClientV { id, output: c.output, messages: c.messages.push(v), disconnect: false, scheduled: c.scheduled };
            let t = with_client(s, i, d);
            assert forall|k: int| 0 <= k < t.ready.len() implies registered(t.clients, #[trigger] t.ready[k]) by {
                let j = choose|j: int| 0 <= j < s.clients.len() && s.clients[j].id == s.ready[k];
                assert(t.clients[j].id == s.ready[k]);
            }
            lemma_schedule(t, i);
        }
    }
}

/// Closing a connection keeps the invariant.
pub proof fn lemma_disconnect<T, O>(s: IncomingV<T, O>, id: u64)
    requires
        consistent(s),
    ensures
        consistent(disconnect_step(s, id)),
{
    if registered(s.clients, id) {
        let i = find(s.clients, id)->0;
        let c = s.clients[i];
        let d = ClientV { id, output: c.output, messages: Seq::<T>::empty(), disconnect: true, scheduled: c.scheduled };
        let t = with_client(s, i, d);
        assert forall|k: int| 0 <= k < t.ready.len() implies registered(t.clients, #[trigger] t.ready[k]) by {
            let j = choose|j: int| 0 <= j < s.clients.len() && s.clients[j].id == s.ready[k];
            assert(t.clients[j].id == s.ready[k]);
        }
        lemma_schedule(t, i);
    }
}

/// Handing over a command keeps the invariant.
pub proof fn lemma_recv<T, O>(s: IncomingV<T, O>)
    requires
        consistent(s),
    ensures
        consistent(recv_step(s).1),
{
    if !s.closed && s.ready.len() > 0 {
        let id = s.ready[0];
        let rest = s.ready.drop_first();
        assert(registered(s.clients, s.ready[0]));
        let i = find(s.clients, id)->0;
        let c = s.clients[i];
        assert(s.ready.contains(id));
        assert(c.scheduled);
        assert forall|k: int| 0 <= k < rest.len() implies #[trigger] rest[k] != id by {
            assert(rest[k] == s.ready[k + 1]);
        }
        assert forall|a: int| 0 <= a < s.clients.len() && a != i implies
            (#[trigger] rest.contains(s.clients[a].id) <==> s.ready.contains(s.clients[a].id)) by {
            let x = s.clients[a].id;
            assert(x != id);
            if s.ready.contains(x) {
                let k = s.ready.index_of(x);
                assert(k != 0);
                assert(rest[k - 1] == x);
            }
            if rest.contains(x) {
                let k = rest.index_of(x);
                assert(s.ready[k + 1] == x);
            }
        }
        if c.disconnect {
            let t = recv_step(s).1;
            assert(t.clients == s.clients.remove(i));
            assert forall|k: int| 0 <= k < t.ready.len() implies registered(t.clients, #[trigger] t.ready[k]) by {
                let x = rest[k];
                assert(x == s.ready[k + 1]);
                assert(registered(s.clients, s.ready[k + 1]));
                let j = choose|j: int| 0 <= j < s.clients.len() && s.clients[j].id == x;
                assert(j != i);
                if j < i {
                    assert(t.clients[j].id == x);
                } else {
                    assert(t.clients[j - 1].id == x);
                }
            }
            assert forall|a: int| 0 <= a < t.clients.len() implies (#[trigger] t.clients[a].scheduled <==> t.ready.contains(t.clients[a].id)) by {
                if a < i {
                    assert(t.clients[a] == s.clients[a]);
                } else {
                    assert(t.clients[a] == s.clients[a + 1]);
                }
            }
            assert forall|a: int, b: int| 0 <= a < t.ready.len() && 0 <= b < t.ready.len() && a != b implies t.ready[a] != t.ready[b] by {
                assert(t.ready[a] == s.ready[a + 1]);
                assert(t.ready[b] == s.ready[b + 1]);
            }
        } else {
            let d = match c.output {
                Some(o) => ClientV { id, output: None, messages: c.messages, disconnect: false, scheduled: false },
                None => ClientV { id, output: None::<O>, messages: c.messages.drop_first(), disconnect: false, scheduled: false },
            };
            let t = IncomingV { clients: s.clients.update(i, d), ready: rest, capacity: s.capacity, closed: s.closed };
            assert forall|k: int| 0 <= k < t.ready.len() implies registered(t.clients, #[trigger] t.ready[k]) by {
                let x = rest[k];
                assert(x == s.ready[k + 1]);
                assert(registered(s.clients, s.ready[k + 1]));
                let j = choose|j: int| 0 <= j < s.clients.len() && s.clients[j].id == x;
                assert(t.clients[j].id == x);
            }
            assert forall|a: int, b: int| 0 <= a < t.ready.len() && 0 <= b < t.ready.len() && a != b implies t.ready[a] != t.ready[b] by {
                assert(t.ready[a] == s.ready[a + 1]);
                assert(t.ready[b] == s.ready[b + 1]);
            }
            assert forall|a: int| 0 <= a < t.clients.len() implies (#[trigger] t.clients[a].scheduled <==> t.ready.contains(t.clients[a].id)) by {
                if a == i {
                    assert(!rest.contains(id));
                }
            }
            if d.messages.len() > 0 {
                lemma_schedule(t, i);
            }
            assert(recv_step(s).1 == (if d.messages.len() > 0 { schedule(t, i) } else { t }));
        }
    }

}

} // verus!

verus! {

impl<T, O> Incoming<T, O> {
    /// Registers connection `id`; its first command will hand `output` over.
    pub fn connect(&mut self, id: u64, output: O) -> (r: Result<(), Refused>)
        requires
            old(self).wf(),
        ensures
            final(self).wf(),
            (r, final(self)@) == connect_step(old(self)@, id, output),
    {
        proof {
            lemma_connect(self@, id, output);
        }
        if self.closed {
            return Err(Refused::Closed);
        }
        let i = locate(&self.clients, id);
        proof {
            self.lemma_found(id, i);
        }
        if i < self.clients.len() {
            return Err(Refused::Duplicate);
        }
        let ghost before = self@;
        self.clients.push(Client { id, output: Some(output), messages: VecDeque::new(), disconnect: false, scheduled: false });
        let ghost c = ClientV { id, output: Some(output), messages: Seq::<T>::empty(), disconnect: false, scheduled: false };
        assert(self@.clients =~= before.clients.push(c));
        assert(self@ == IncomingV { clients: before.clients.push(c), ready: before.ready, capacity: before.capacity, closed: before.closed });
        self.schedule_at(i);
        Ok(())
    }

    /// Queues message `value` of connection `id`.
    pub fn message(&mut self, id: u64, value: T) -> (r: Result<(), Refused>)
        requires
            old(self).wf(),
        ensures
            final(self).wf(),
            (r, final(self)@) == message_step(old(self)@, id, value),
    {
        proof {
            lemma_message(self@, id, value);
        }
        if self.closed {
            return Err(Refused::Closed);
        }
        let i = locate(&self.clients, id);
        proof {
            self.lemma_found(id, i);
        }
        if i == self.clients.len() {
            return Err(Refused::Unregistered);
        }
        if self.clients[i].disconnect {
            return Err(Refused::Closing);
        }
        if self.clients[i].messages.len() >= self.capacity {
            return Err(Refused::Full(QueueFull));
        }
        let ghost before = self@;
        let mut c = self.clients.remove(i);
        c.messages.push_back(value);
        self.clients.insert(i, c);
        let ghost old_c = before.clients[i as int];
        let ghost d = ClientV { id, output: old_c.output, messages: old_c.messages.push(value), disconnect: false, scheduled: old_c.scheduled };
        assert(self@.clients =~= with_client(before, i as int, d).clients);
        self.schedule_at(i);
        Ok(())
    }

    /// Closes connection `id`: its queued messages are dropped and its
    /// disconnection is queued. Capacity never refuses it.
    pub fn disconnect(&mut self, id: u64)
        requires
            old(self).wf(),
        ensures
            final(self).wf(),
            final(self)@ == disconnect_step(old(self)@, id),
    {
        proof {
            lemma_disconnect(self@, id);
        }
        let i = locate(&self.clients, id);
        proof {
            self.lemma_found(id, i);
        }
        if i < self.clients.len() {
            let ghost before = self@;
            let mut c = self.clients.remove(i);
            c.messages.clear();
            c.disconnect = true;
            self.clients.insert(i, c);
            let ghost old_c = before.clients[i as int];
            let ghost d = ClientV { id, output: old_c.output, messages: Seq::<T>::empty(), disconnect: true, scheduled: old_c.scheduled };
            assert(self@.clients =~= with_client(before, i as int, d).clients);
            self.schedule_at(i);
        }
    }

    /// Closes the receiving side and drops every queue.
    pub fn shutdown(&mut self)
        requires
            old(self).wf(),
        ensures
            final(self).wf(),
            final(self)@ == shutdown_step(old(self)@),
    {
        self.closed = true;
        self.clients.clear();
        self.ready.clear();
        assert(self@.clients =~= Seq::empty());
    }

    /// Submits a command from a connection's side: a registration, a
    /// message, a disconnection (never refused), or the shutdown.
    pub fn submit(&mut self, command: Command<T, O>) -> (r: Result<(), Refused>)
        requires
            old(self).wf(),
        ensures
            final(self).wf(),
            match command {
                Command::Connect(id, output) => (r, final(self)@) == connect_step(old(self)@, id, output),
                Command::Message(id, value) => (r, final(self)@) == message_step(old(self)@, id, value),
                Command::Disconnect(id) => r is Ok && final(self)@ == disconnect_step(old(self)@, id),
                Command::Shutdown => r is Ok && final(self)@ == shutdown_step(old(self)@),
            },
    {
        match command {
            Command::Connect(id, output) => self.connect(id, output),
            Command::Message(id, value) => self.message(id, value),
            Command::Disconnect(id) => {
                self.disconnect(id);
                Ok(())
            },
            Command::Shutdown => {
                self.shutdown();
                Ok(())
            },
        }
    }

    /// Whether a command is waiting.
    pub fn has_pending(&self) -> (r: bool)
        ensures
            r == (self@.closed || self@.ready.len() > 0),
    {
        self.closed || self.ready.len() > 0
    }

    /// Up to `limit` commands, taken one after another as [`Incoming::try_recv`]
    /// takes them, stopping early where none is ready.
    pub fn drain(&mut self, limit: usize) -> (r: Vec<Command<T, O>>)
        requires
            old(self).wf(),
        ensures
            final(self).wf(),
            (r@, final(self)@) == drain_step(old(self)@, limit as nat),
            r@.len() <= limit,
    {
        let mut out: Vec<Command<T, O>> = Vec::new();
        loop
            invariant
                self.wf(),
                out@.len() <= limit,
                drain_step(old(self)@, limit as nat) == (out@ + drain_step(self@, (limit - out@.len()) as nat).0,
                    drain_step(self@, (limit - out@.len()) as nat).1),
            ensures
                self.wf(),
                (out@, self@) == drain_step(old(self)@, limit as nat),
                out@.len() <= limit,
            decreases limit - out@.len(),
        {
            if out.len() >= limit {
                assert(out@ + Seq::<Command<T, O>>::empty() =~= out@);
                return out;
            }
            let ghost s = self@;
            let ghost m = (limit - out@.len()) as nat;
            let ghost before = out@;
            match self.try_recv() {
                Some(c) => {
                    let ghost rest = drain_step(self@, (m - 1) as nat);
                    out.push(c);
                    assert(before + (seq![c] + rest.0) =~= out@ + rest.0);
                },
                None => {
                    assert(before + Seq::<Command<T, O>>::empty() =~= before);
                    break;
                },
            }
        }
        out
    }

    /// The next command, if any: a closed side hands over `Shutdown`; otherwise
    /// the connection at the front of the ready queue gives its next command.
    pub fn try_recv(&mut self) -> (r: Option<Command<T, O>>)
        requires
            old(self).wf(),
        ensures
            final(self).wf(),
            (r, final(self)@) == recv_step(old(self)@),
    {
        proof {
            lemma_recv(self@);
        }
        if self.closed {
            return Some(Command::Shutdown);
        }
        let ghost before = self@;
        let id = match self.ready.pop_front() {
            Some(id) => id,
            None => return None,
        };
        let i = locate(&self.clients, id);
        proof {
            assert(before.ready[0] == id);
            assert(registered(before.clients, before.ready[0]));
            let j = choose|j: int| 0 <= j < before.clients.len() && before.clients[j].id == id;
            assert(self.clients@[j].id == id);
            assert(i < self.clients@.len());
            assert(before.clients[i as int].id == id);
            let c = choose|c: int| 0 <= c < before.clients.len() && before.clients[c].id == id;
            assert(c == i);
        }
        let mut c = self.clients.remove(i);
        proof {
            assert(c@ == before.clients[i as int]);
            assert(before.ready.contains(id));
            assert(before.clients[i as int].scheduled);
            assert(c.scheduled);
        }
        c.scheduled = false;
        if c.disconnect {
            assert(self@.clients =~= before.clients.remove(i as int));
            return Some(Command::Disconnect(id));
        }
        let command = match c.output.take() {
            Some(output) => Command::Connect(id, output),
            None => {
                let value = c.messages.pop_front();
                match value {
                    Some(v) => Command::Message(id, v),
                    None => {
                        proof {
                            assert(false);
                        }
                        return None;
                    },
                }
            },
        };
        let more = c.messages.len() > 0;
        let ghost d = c@;
        assert(d.messages =~= (if before.clients[i as int].output is Some {
            before.clients[i as int].messages
        } else {
            before.clients[i as int].messages.drop_first()
        }));
        self.clients.insert(i, c);
        assert(self@.clients =~= before.clients.update(i as int, d));
        assert(self@.ready =~= before.ready.drop_first());
        if more {
            self.schedule_at(i);
        }
        Some(command)
    }
}


/// Handing out a command never lets one connection jump the line: every other
/// ready connection moves one place forward, and the one served, if it has
/// more to give, goes to the back.
pub proof fn lemma_recv_rotates<T, O>(s: IncomingV<T, O>)
    requires
        consistent(s),
        !s.closed,
        s.ready.len() > 0,
    ensures
        ({
            let t = recv_step(s).1;
            &&& t.ready == s.ready.drop_first() || t.ready == s.ready.drop_first().push(s.ready[0])
        }),
{
    let id = s.ready[0];
    assert(registered(s.clients, id));
    let i = find(s.clients, id)->0;
}

} // verus!
