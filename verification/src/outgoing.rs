//! Bounded per-client send queues. A fragmented protocol message is always one batch.

use vstd::prelude::*;
use std::collections::VecDeque;
use crate::text::{owned, same};

verus! {

/// The bytes a client's queues may hold by default.
pub const DEFAULT_BYTE_LIMIT: usize = 67108864;

/// How many control batches (replies that are never dropped) may wait.
pub const CONTROL_CAPACITY: usize = 16;

/// Why a batch was not queued.
#[derive(Debug, Clone, Copy, PartialEq, Eq)]
pub enum SendError {
    /// The client is gone.
    Closed,
    /// The control queue overflowed; the client is being closed.
    ControlFull,
}

/// Why nothing was taken from the queues.
#[derive(Debug, Clone, Copy, PartialEq, Eq)]
pub enum Empty {
    /// Nothing waits now.
    Waiting,
    /// Nothing waits, and the sending side is closed.
    Disconnected,
}

/// One protocol message for one client: its frames, or the work that makes them.
pub struct Batch<P> {
    pub connection: u64,
    /// The topic of a data message; none for a reply that must not be dropped.
    pub topic: Option<String>,
    pub payload: P,
    pub bytes: usize,
}

/// The mathematical value of a [`Batch`].
pub struct BatchV<P> {
    pub connection: u64,
    pub topic: Option<Seq<char>>,
    pub payload: P,
    pub bytes: nat,
}

impl<P> View for Batch<P> {
    type V = BatchV<P>;

    open spec fn view(&self) -> BatchV<P> {
        BatchV {
            connection: self.connection,
            topic: match self.topic {
                Some(t) => Some(t@),
                None => None,
            },
            payload: self.payload,
            bytes: self.bytes as nat,
        }
    }
}

/// The send queues of one client.
pub struct Outgoing<P> {
    topics: VecDeque<Batch<P>>,
    control: VecDeque<Batch<P>>,
    topic_bytes: usize,
    control_bytes: usize,
    /// How many topic batches may wait.
    capacity: usize,
    /// How many bytes each queue may hold.
    byte_limit: usize,
    sender_closed: bool,
    receiver_closed: bool,
    close_reason: Option<&'static str>,
    /// Topic batches dropped so far.
    dropped: u64,
}

/// The mathematical value of an [`Outgoing`].
pub struct OutgoingV<P> {
    pub topics: Seq<BatchV<P>>,
    pub control: Seq<BatchV<P>>,
    pub capacity: nat,
    pub byte_limit: nat,
    pub sender_closed: bool,
    pub receiver_closed: bool,
    pub close_reason: Option<Seq<char>>,
    pub dropped: u64,
}

pub open spec fn batch_views<P>(q: Seq<Batch<P>>) -> Seq<BatchV<P>> {
    Seq::new(q.len(), |i: int| q[i]@)
}

impl<P> View for Outgoing<P> {
    type V = OutgoingV<P>;

    closed spec fn view(&self) -> OutgoingV<P> {
        OutgoingV {
            topics: batch_views(self.topics@),
            control: batch_views(self.control@),
            capacity: self.capacity as nat,
            byte_limit: self.byte_limit as nat,
            sender_closed: self.sender_closed,
            receiver_closed: self.receiver_closed,
            close_reason: match self.close_reason {
                Some(r) => Some(r@),
                None => None,
            },
            dropped: self.dropped,
        }
    }
}

/// The bytes of a queue.
pub open spec fn total<P>(q: Seq<BatchV<P>>) -> nat
    decreases q.len(),
{
    if q.len() == 0 {
        0
    } else {
        total(q.drop_last()) + q.last().bytes
    }
}

/// How many batches of topic `t` a queue holds.
pub open spec fn count<P>(q: Seq<BatchV<P>>, t: Seq<char>) -> nat
    decreases q.len(),
{
    if q.len() == 0 {
        0
    } else {
        count(q.drop_last(), t) + if q.last().topic == Some(t) {
            1nat
        } else {
            0nat
        }
    }
}

/// `i` is the first batch of topic `t`.
pub open spec fn first_of<P>(q: Seq<BatchV<P>>, t: Seq<char>, i: int) -> bool {
    &&& 0 <= i < q.len()
    &&& q[i].topic == Some(t)
    &&& forall|k: int| 0 <= k < i ==> #[trigger] q[k].topic != Some(t)
}

/// Whether a new batch of `bytes` for topic `t` needs room made first.
pub open spec fn crowded<P>(q: Seq<BatchV<P>>, t: Seq<char>, topic_limit: nat, capacity: nat, byte_limit: nat, bytes: nat) -> bool {
    count(q, t) >= topic_limit || q.len() >= capacity || bytes + total(q) > byte_limit
}

/// The queue after the oldest batches of topic `t` made room, and how many left.
pub open spec fn evict<P>(q: Seq<BatchV<P>>, t: Seq<char>, topic_limit: nat, capacity: nat, byte_limit: nat, bytes: nat) -> (Seq<BatchV<P>>, nat)
    decreases q.len(),
{
    if crowded(q, t, topic_limit, capacity, byte_limit, bytes) && exists|i: int| first_of(q, t, i) {
        let i = choose|i: int| first_of(q, t, i);
        let (r, n) = evict(q.remove(i), t, topic_limit, capacity, byte_limit, bytes);
        (r, n + 1)
    } else {
        (q, 0)
    }
}

/// Adds `n` to the drop counter, which stops at its largest value.
pub open spec fn bump(dropped: u64, n: nat) -> u64 {
    if dropped + n > u64::MAX {
        u64::MAX
    } else {
        (dropped + n) as u64
    }
}

/// The queues emptied, the sending side closed for `reason`.
pub open spec fn closed_for<P>(s: OutgoingV<P>, reason: Seq<char>) -> OutgoingV<P> {
    OutgoingV {
        topics: Seq::empty(),
        control: Seq::empty(),
        capacity: s.capacity,
        byte_limit: s.byte_limit,
        sender_closed: true,
        receiver_closed: s.receiver_closed,
        close_reason: Some(reason),
        dropped: s.dropped,
    }
}

/// Queueing batch `b`: a topic batch makes room by dropping the oldest batches
/// of its own topic where `topic_limit` is set, and is dropped itself where no
/// room is left; a control batch that does not fit closes the client.
pub open spec fn enqueue_step<P>(s: OutgoingV<P>, b: BatchV<P>, topic_limit: nat) -> (Result<(), SendError>, OutgoingV<P>) {
    if s.receiver_closed || s.sender_closed {
        (Err(SendError::Closed), s)
    } else {
        match b.topic {
            Some(t) => {
                let (q, n) = if b.bytes <= s.byte_limit && topic_limit > 0 {
                    evict(s.topics, t, topic_limit, s.capacity, s.byte_limit, b.bytes)
                } else {
                    (s.topics, 0)
                };
                let fits = q.len() < s.capacity && b.bytes + total(q) <= s.byte_limit;
                let after = OutgoingV {
                    topics: if fits { q.push(b) } else { q },
                    control: s.control,
                    capacity: s.capacity,
                    byte_limit: s.byte_limit,
                    sender_closed: s.sender_closed,
                    receiver_closed: s.receiver_closed,
                    close_reason: s.close_reason,
                    dropped: bump(s.dropped, if fits { n } else { n + 1 }),
                };
                (Ok(()), after)
            },
            None => if s.control.len() >= CONTROL_CAPACITY || b.bytes + total(s.control) > s.byte_limit {
                (Err(SendError::ControlFull), closed_for(s, "control send queue full"@))
            } else {
                (
                    Ok(()),
                    OutgoingV {
                        topics: s.topics,
                        control: s.control.push(b),
                        capacity: s.capacity,
                        byte_limit: s.byte_limit,
                        sender_closed: s.sender_closed,
                        receiver_closed: s.receiver_closed,
                        close_reason: s.close_reason,
                        dropped: s.dropped,
                    },
                )
            },
        }
    }
}

/// Taking the next batch: control before topics, each oldest first.
pub open spec fn take_step<P>(s: OutgoingV<P>) -> (Result<BatchV<P>, Empty>, OutgoingV<P>) {
    if s.control.len() > 0 {
        (
            Ok(s.control[0]),
            OutgoingV {
                topics: s.topics,
                control: s.control.drop_first(),
                capacity: s.capacity,
                byte_limit: s.byte_limit,
                sender_closed: s.sender_closed,
                receiver_closed: s.receiver_closed,
                close_reason: s.close_reason,
                dropped: s.dropped,
            },
        )
    } else if s.topics.len() > 0 {
        (
            Ok(s.topics[0]),
            OutgoingV {
                topics: s.topics.drop_first(),
                control: s.control,
                capacity: s.capacity,
                byte_limit: s.byte_limit,
                sender_closed: s.sender_closed,
                receiver_closed: s.receiver_closed,
                close_reason: s.close_reason,
                dropped: s.dropped,
            },
        )
    } else if s.sender_closed {
        (Err(Empty::Disconnected), s)
    } else {
        (Err(Empty::Waiting), s)
    }
}

/// Judging an encoded batch: `encoded` is its byte size, or none where encoding
/// failed. Whether it goes out, and the queues after: a topic batch that fails
/// is dropped; a control batch that fails closes the client.
pub open spec fn finish_step<P>(s: OutgoingV<P>, topic: bool, encoded: Option<nat>) -> (bool, OutgoingV<P>) {
    if s.sender_closed || s.receiver_closed {
        (false, s)
    } else if encoded matches Some(n) && n <= s.byte_limit {
        (true, s)
    } else {
        let reason = if encoded is Some {
            "encoded batch exceeds byte limit"@
        } else {
            "outbound encoding failed"@
        };
        if topic {
            (
                false,
                OutgoingV {
                    topics: s.topics,
                    control: s.control,
                    capacity: s.capacity,
                    byte_limit: s.byte_limit,
                    sender_closed: s.sender_closed,
                    receiver_closed: s.receiver_closed,
                    close_reason: s.close_reason,
                    dropped: bump(s.dropped, 1),
                },
            )
        } else {
            (false, closed_for(s, reason))
        }
    }
}

/// The invariant of the queues.
pub open spec fn sound<P>(s: OutgoingV<P>) -> bool {
    &&& s.capacity > 0
    &&& s.byte_limit > 0
    &&& s.topics.len() <= s.capacity
    &&& s.control.len() <= CONTROL_CAPACITY
    &&& total(s.topics) <= s.byte_limit
    &&& total(s.control) <= s.byte_limit
    &&& forall|i: int| 0 <= i < s.topics.len() ==> #[trigger] s.topics[i].topic is Some
    &&& forall|i: int| 0 <= i < s.control.len() ==> #[trigger] s.control[i].topic is None
}

} // verus!

verus! {

pub proof fn lemma_push<P>(q: Seq<BatchV<P>>, b: BatchV<P>, t: Seq<char>)
    ensures
        total(q.push(b)) == total(q) + b.bytes,
        count(q.push(b), t) == count(q, t) + if b.topic == Some(t) { 1nat } else { 0nat },
{
    assert(q.push(b).drop_last() =~= q);
}

pub proof fn lemma_remove<P>(q: Seq<BatchV<P>>, i: int, t: Seq<char>)
    requires
        0 <= i < q.len(),
    ensures
        total(q.remove(i)) + q[i].bytes == total(q),
        count(q.remove(i), t) + (if q[i].topic == Some(t) { 1nat } else { 0nat }) == count(q, t),
    decreases q.len(),
{
    if i == q.len() - 1 {
        assert(q.remove(i) =~= q.drop_last());
    } else {
        lemma_remove(q.drop_last(), i, t);
        assert(q.remove(i).drop_last() =~= q.drop_last().remove(i));
        assert(q.remove(i).last() == q.last());
    }
}

pub proof fn lemma_first_unique<P>(q: Seq<BatchV<P>>, t: Seq<char>, i: int)
    requires
        first_of(q, t, i),
    ensures
        (choose|j: int| first_of(q, t, j)) == i,
{
    let j = choose|j: int| first_of(q, t, j);
    if j < i {
        assert(q[j].topic != Some(t));
    } else if i < j {
        assert(q[i].topic != Some(t));
    }
}

/// Batches of topic `u`.
pub open spec fn on_topic<P>(u: Seq<char>) -> spec_fn(BatchV<P>) -> bool {
    |x: BatchV<P>| x.topic == Some(u)
}

proof fn lemma_remove_other<P>(q: Seq<BatchV<P>>, i: int, u: Seq<char>)
    requires
        0 <= i < q.len(),
        q[i].topic != Some(u),
    ensures
        q.remove(i).filter(on_topic(u)) == q.filter(on_topic(u)),
{
    let f = on_topic::<P>(u);
    let a = q.take(i);
    let c = q.skip(i + 1);
    assert(q =~= a + (seq![q[i]] + c));
    assert(q.remove(i) =~= a + c);
    Seq::filter_distributes_over_add(a, seq![q[i]] + c, f);
    Seq::filter_distributes_over_add(seq![q[i]], c, f);
    Seq::filter_distributes_over_add(a, c, f);
    assert(seq![q[i]] =~= Seq::<BatchV<P>>::empty().push(q[i]));
    Seq::<BatchV<P>>::empty().lemma_filter_push(q[i], f);
    assert(Seq::<BatchV<P>>::empty().filter(f) =~= Seq::<BatchV<P>>::empty()) by {
        reveal(Seq::filter);
    }
    assert(seq![q[i]].filter(f) =~= Seq::<BatchV<P>>::empty());
    assert(Seq::<BatchV<P>>::empty() + c.filter(f) =~= c.filter(f));
}

proof fn lemma_evict_keeps_other<P>(q: Seq<BatchV<P>>, t: Seq<char>, topic_limit: nat, capacity: nat, byte_limit: nat, bytes: nat, u: Seq<char>)
    requires
        u != t,
    ensures
        evict(q, t, topic_limit, capacity, byte_limit, bytes).0.filter(on_topic(u)) == q.filter(on_topic(u)),
    decreases q.len(),
{
    if crowded(q, t, topic_limit, capacity, byte_limit, bytes) && exists|i: int| first_of(q, t, i) {
        let i = choose|i: int| first_of(q, t, i);
        lemma_remove_other(q, i, u);
        lemma_evict_keeps_other(q.remove(i), t, topic_limit, capacity, byte_limit, bytes, u);
    }
}

/// Making room for a batch of one topic never drops a batch of another: the
/// queued batches of every other topic stay, in their order.
pub proof fn lemma_enqueue_keeps_other_topics<P>(s: OutgoingV<P>, b: BatchV<P>, topic_limit: nat, u: Seq<char>)
    requires
        b.topic is Some,
        b.topic != Some(u),
    ensures
        enqueue_step(s, b, topic_limit).1.topics.filter(on_topic(u)) == s.topics.filter(on_topic(u)),
{
    if !(s.receiver_closed || s.sender_closed) {
        let t = b.topic->0;
        if b.bytes <= s.byte_limit && topic_limit > 0 {
            lemma_evict_keeps_other(s.topics, t, topic_limit, s.capacity, s.byte_limit, b.bytes, u);
        }
        let q = if b.bytes <= s.byte_limit && topic_limit > 0 {
            evict(s.topics, t, topic_limit, s.capacity, s.byte_limit, b.bytes).0
        } else {
            s.topics
        };
        q.lemma_filter_push(b, on_topic(u));
    }
}

proof fn lemma_evict_count<P>(q: Seq<BatchV<P>>, t: Seq<char>, topic_limit: nat, capacity: nat, byte_limit: nat, bytes: nat)
    ensures
        evict(q, t, topic_limit, capacity, byte_limit, bytes).0.len() + evict(q, t, topic_limit, capacity, byte_limit, bytes).1 == q.len(),
    decreases q.len(),
{
    if crowded(q, t, topic_limit, capacity, byte_limit, bytes) && exists|i: int| first_of(q, t, i) {
        let i = choose|i: int| first_of(q, t, i);
        lemma_evict_count(q.remove(i), t, topic_limit, capacity, byte_limit, bytes);
    }
}

proof fn lemma_remove_first<P>(q: Seq<BatchV<P>>, t: Seq<char>, i: int)
    requires
        first_of(q, t, i),
    ensures
        q.remove(i).filter(on_topic(t)) == q.filter(on_topic(t)).drop_first(),
        q.filter(on_topic(t)).len() > 0,
{
    let f = on_topic::<P>(t);
    let a = q.take(i);
    let c = q.skip(i + 1);
    assert(q =~= a + (seq![q[i]] + c));
    assert(q.remove(i) =~= a + c);
    Seq::filter_distributes_over_add(a, seq![q[i]] + c, f);
    Seq::filter_distributes_over_add(seq![q[i]], c, f);
    Seq::filter_distributes_over_add(a, c, f);
    assert(a.filter(f) =~= Seq::<BatchV<P>>::empty()) by {
        assert forall|k: int| 0 <= k < a.len() implies !f(a[k]) by {
            assert(a[k] == q[k]);
        }
        broadcast use vstd::seq_lib::group_filter_ensures;
        if a.filter(f).len() > 0 {
            let x = a.filter(f)[0];
            assert(f(x));
            assert(a.filter(f).contains(x));
            a.lemma_filter_contains_rev(f, x);
            let k = choose|k: int| 0 <= k < a.len() && a[k] == x;
            assert(!f(a[k]));
        }
    }
    assert(seq![q[i]] =~= Seq::<BatchV<P>>::empty().push(q[i]));
    Seq::<BatchV<P>>::empty().lemma_filter_push(q[i], f);
    assert(Seq::<BatchV<P>>::empty().filter(f) =~= Seq::<BatchV<P>>::empty()) by {
        reveal(Seq::filter);
    }
    assert(seq![q[i]].filter(f) =~= seq![q[i]]);
    assert(q.filter(f) =~= seq![q[i]] + c.filter(f));
    assert(q.remove(i).filter(f) =~= c.filter(f));
}

/// Making room drops the oldest batches of the topic, and only those.
proof fn lemma_evict_oldest<P>(q: Seq<BatchV<P>>, t: Seq<char>, topic_limit: nat, capacity: nat, byte_limit: nat, bytes: nat)
    ensures
        ({
            let (r, n) = evict(q, t, topic_limit, capacity, byte_limit, bytes);
            &&& n <= q.filter(on_topic(t)).len()
            &&& r.filter(on_topic(t)) == q.filter(on_topic(t)).skip(n as int)
        }),
    decreases q.len(),
{
    if crowded(q, t, topic_limit, capacity, byte_limit, bytes) && exists|i: int| first_of(q, t, i) {
        let i = choose|i: int| first_of(q, t, i);
        lemma_remove_first(q, t, i);
        lemma_evict_oldest(q.remove(i), t, topic_limit, capacity, byte_limit, bytes);
        let n = evict(q.remove(i), t, topic_limit, capacity, byte_limit, bytes).1;
        assert(q.filter(on_topic(t)).drop_first().skip(n as int) =~= q.filter(on_topic(t)).skip((n + 1) as int));
    } else {
        assert(q.filter(on_topic(t)).skip(0) =~= q.filter(on_topic(t)));
    }
}

/// Where a topic's queue is full, the new message of that topic takes the
/// place of its oldest: the messages of the topic that stay queued are the
/// newest of those queued before, in order, followed by the new one if it fit.
pub proof fn lemma_enqueue_drops_oldest<P>(s: OutgoingV<P>, b: BatchV<P>, topic_limit: nat)
    requires
        b.topic is Some,
        !s.sender_closed,
        !s.receiver_closed,
    ensures
        ({
            let t = b.topic->0;
            let (r, after) = enqueue_step(s, b, topic_limit);
            let kept = after.topics.filter(on_topic(t));
            let before = s.topics.filter(on_topic(t));
            exists|n: int| 0 <= n <= before.len() && (kept == before.skip(n) || kept == before.skip(n).push(b))
        }),
{
    let t = b.topic->0;
    let f = on_topic::<P>(t);
    let before = s.topics.filter(f);
    let q = if b.bytes <= s.byte_limit && topic_limit > 0 {
        lemma_evict_oldest(s.topics, t, topic_limit, s.capacity, s.byte_limit, b.bytes);
        evict(s.topics, t, topic_limit, s.capacity, s.byte_limit, b.bytes).0
    } else {
        assert(before.skip(0) =~= before);
        s.topics
    };
    let n: int = if b.bytes <= s.byte_limit && topic_limit > 0 {
        evict(s.topics, t, topic_limit, s.capacity, s.byte_limit, b.bytes).1 as int
    } else {
        0
    };
    assert(q.filter(f) == before.skip(n));
    q.lemma_filter_push(b, f);
    assert(f(b));
}

/// No topic message is lost without being counted: offering one to an open
/// client leaves every message that was queued, and the new one, either still
/// queued or counted as dropped (while the counter has room); and where the
/// queue grows, the new one is its newest.
pub proof fn lemma_enqueue_accounts<P>(s: OutgoingV<P>, b: BatchV<P>, topic_limit: nat)
    requires
        b.topic is Some,
        !s.sender_closed,
        !s.receiver_closed,
        s.dropped + s.topics.len() + 1 <= u64::MAX,
    ensures
        ({
            let (r, t) = enqueue_step(s, b, topic_limit);
            &&& r is Ok
            &&& t.topics.len() + t.dropped == s.topics.len() + s.dropped + 1
            &&& t.topics.len() > s.topics.len() ==> t.topics.last() == b
            &&& t.control == s.control
        }),
{
    let tp = b.topic->0;
    lemma_evict_count(s.topics, tp, topic_limit, s.capacity, s.byte_limit, b.bytes);
}

/// A control message is never dropped quietly: it is queued behind the earlier
/// ones, or the client is closed for it.
pub proof fn lemma_control_queued_or_closed<P>(s: OutgoingV<P>, b: BatchV<P>, topic_limit: nat)
    requires
        b.topic is None,
        !s.sender_closed,
        !s.receiver_closed,
    ensures
        ({
            let (r, t) = enqueue_step(s, b, topic_limit);
            &&& r is Ok ==> t.control == s.control.push(b) && t.topics == s.topics
            &&& r is Err ==> r == Err::<(), SendError>(SendError::ControlFull) && t.sender_closed
                && t.close_reason == Some("control send queue full"@)
        }),
{
}

} // verus!

verus! {

/// The topic of a batch, for a topic given as text.
pub open spec fn topic_view(t: Option<&str>) -> Option<Seq<char>> {
    match t {
        Some(s) => Some(s@),
        None => None,
    }
}

impl<P> Outgoing<P> {
    /// The queues keep the invariant of [`sound`], and the byte counters are
    /// the sizes of the batches each queue holds.
    pub closed spec fn wf(&self) -> bool {
        &&& sound(self@)
        &&& self.topic_bytes == total(self@.topics)
        &&& self.control_bytes == total(self@.control)
    }

    /// The bounds that every queue keeps, whatever was sent or taken: at most
    /// `capacity` topic batches and at most 16 control batches wait, each
    /// queue holds at most `byte_limit` bytes, and every topic batch names its
    /// topic while no control batch does.
    pub proof fn lemma_bounds(&self)
        requires
            self.wf(),
        ensures
            self@.capacity > 0,
            self@.byte_limit > 0,
            self@.topics.len() <= self@.capacity,
            self@.control.len() <= CONTROL_CAPACITY,
            total(self@.topics) <= self@.byte_limit,
            total(self@.control) <= self@.byte_limit,
            forall|i: int| 0 <= i < self@.topics.len() ==> #[trigger] self@.topics[i].topic is Some,
            forall|i: int| 0 <= i < self@.control.len() ==> #[trigger] self@.control[i].topic is None,
    {
    }

    /// Queues for at most `capacity` topic batches and `byte_limit` bytes each way.
    pub fn new(capacity: usize, byte_limit: usize) -> (r: Outgoing<P>)
        requires
            capacity > 0,
            byte_limit > 0,
        ensures
            r.wf(),
            r@ == (OutgoingV::<P> {
                topics: Seq::empty(),
                control: Seq::empty(),
                capacity: capacity as nat,
                byte_limit: byte_limit as nat,
                sender_closed: false,
                receiver_closed: false,
                close_reason: None,
                dropped: 0,
            }),
    {
        let r = Outgoing {
            topics: VecDeque::new(),
            control: VecDeque::new(),
            topic_bytes: 0,
            control_bytes: 0,
            capacity,
            byte_limit,
            sender_closed: false,
            receiver_closed: false,
            close_reason: None,
            dropped: 0,
        };
        assert(r@.topics =~= Seq::empty());
        assert(r@.control =~= Seq::empty());
        r
    }

    /// How many queued topic batches belong to topic `t`.
    fn count_topic(&self, t: &str) -> (n: usize)
        ensures
            n == count(self@.topics, t@),
    {
        let ghost q = self@.topics;
        let mut n: usize = 0;
        let mut i: usize = 0;
        while i < self.topics.len()
            invariant
                q == self@.topics,
                i <= q.len(),
                n == count(q.take(i as int), t@),
                n <= i,
            decreases self.topics.len() - i,
        {
            proof {
                assert(q.take(i + 1).drop_last() =~= q.take(i as int));
            }
            let hit = match &self.topics[i].topic {
                Some(name) => same(name.as_str(), t),
                None => false,
            };
            assert(hit == (q[i as int].topic == Some(t@)));
            if hit {
                n = n + 1;
            }
            i = i + 1;
        }
        assert(q.take(i as int) =~= q);
        n
    }

    /// The position of the oldest batch of topic `t`, or the queue's length.
    fn first_topic(&self, t: &str) -> (i: usize)
        ensures
            i <= self@.topics.len(),
            i < self@.topics.len() ==> first_of(self@.topics, t@, i as int),
            i == self@.topics.len() ==> !exists|j: int| first_of(self@.topics, t@, j),
    {
        let ghost q = self@.topics;
        let mut i: usize = 0;
        while i < self.topics.len()
            invariant
                q == self@.topics,
                i <= q.len(),
                forall|k: int| 0 <= k < i ==> #[trigger] q[k].topic != Some(t@),
            decreases self.topics.len() - i,
        {
            let hit = match &self.topics[i].topic {
                Some(name) => same(name.as_str(), t),
                None => false,
            };
            assert(hit == (q[i as int].topic == Some(t@)));
            if hit {
                return i;
            }
            i = i + 1;
        }
        i
    }

    /// Empties both queues and closes the sending side.
    fn close_sending(&mut self, reason: &'static str)
        requires
            old(self).wf(),
        ensures
            final(self).wf(),
            final(self)@ == closed_for(old(self)@, reason@),
    {
        self.close_reason = Some(reason);
        self.sender_closed = true;
        self.topics.clear();
        self.control.clear();
        self.topic_bytes = 0;
        self.control_bytes = 0;
        assert(self@.topics =~= Seq::empty());
        assert(self@.control =~= Seq::empty());
    }
}

} // verus!

verus! {

impl<P> Outgoing<P> {
    /// Queues a batch of `bytes` for `connection`: a data message of `topic`,
    /// or a reply (no topic) that is never dropped silently. Where `topic_limit`
    /// is above zero, the topic keeps at most that many batches, oldest evicted
    /// first; other topics' batches are never evicted.
    pub fn enqueue(&mut self, connection: u64, topic: Option<&str>, topic_limit: usize, payload: P, bytes: usize) -> (r: Result<(), SendError>)
        requires
            old(self).wf(),
        ensures
            final(self).wf(),
            (r, final(self)@) == enqueue_step(
                old(self)@,
                BatchV { connection, topic: topic_view(topic), payload, bytes: bytes as nat },
                topic_limit as nat,
            ),
    {
        let ghost start = self@;
        let ghost b = BatchV { connection, topic: topic_view(topic), payload, bytes: bytes as nat };
        if self.receiver_closed || self.sender_closed {
            return Err(SendError::Closed);
        }
        match topic {
            Some(t) => {
                let mut n: usize = 0;
                if bytes <= self.byte_limit && topic_limit > 0 {
                    let ghost whole = evict(start.topics, t@, topic_limit as nat, start.capacity, start.byte_limit, bytes as nat);
                    loop
                        invariant
                            self.wf(),
                            self@.capacity == start.capacity,
                            self@.byte_limit == start.byte_limit,
                            self@.control == start.control,
                            !self.sender_closed && !self.receiver_closed,
                            self@.close_reason == start.close_reason,
                            self@.dropped == start.dropped,
                            n + self@.topics.len() == start.topics.len(),
                            start.topics.len() <= start.capacity,
                            start.capacity == self.capacity,
                            whole == evict(start.topics, t@, topic_limit as nat, start.capacity, start.byte_limit, bytes as nat),
                            whole.0 == evict(self@.topics, t@, topic_limit as nat, start.capacity, start.byte_limit, bytes as nat).0,
                            whole.1 == n + evict(self@.topics, t@, topic_limit as nat, start.capacity, start.byte_limit, bytes as nat).1,
                        ensures
                            self.wf(),
                            self@.capacity == start.capacity,
                            self@.byte_limit == start.byte_limit,
                            self@.control == start.control,
                            !self.sender_closed && !self.receiver_closed,
                            self@.close_reason == start.close_reason,
                            self@.dropped == start.dropped,
                            n + self@.topics.len() == start.topics.len(),
                            whole == (self@.topics, n as nat),
                        decreases self@.topics.len(),
                    {
                        let c = self.count_topic(t);
                        let crowd = c >= topic_limit || self.topics.len() >= self.capacity
                            || bytes > self.byte_limit - self.topic_bytes;
                        if !crowd {
                            break;
                        }
                        let i = self.first_topic(t);
                        if i == self.topics.len() {
                            break;
                        }
                        let ghost before = self@.topics;
                        proof {
                            lemma_first_unique(before, t@, i as int);
                            lemma_remove(before, i as int, t@);
                        }
                        let old = self.topics.remove(i);
                        match old {
                            Some(batch) => {
                                self.topic_bytes = self.topic_bytes - batch.bytes;
                            },
                            None => {},
                        }
                        assert(self@.topics =~= before.remove(i as int));
                        n = n + 1;
                    }
                }
                let ghost q = self@.topics;
                let fits = self.topics.len() < self.capacity && bytes <= self.byte_limit - self.topic_bytes;
                let ghost evicted: nat = n as nat;
                if fits {
                    proof {
                        lemma_push(q, b, t@);
                    }
                    self.topic_bytes = self.topic_bytes + bytes;
                    self.topics.push_back(Batch { connection, topic: Some(owned(t)), payload, bytes });
                    assert(self@.topics =~= q.push(b));
                    self.dropped = self.dropped.saturating_add(n as u64);
                } else {
                    self.dropped = self.dropped.saturating_add(n as u64);
                    self.dropped = self.dropped.saturating_add(1);
                }
                proof {
                    assert forall|i: int| 0 <= i < self@.topics.len() implies #[trigger] self@.topics[i].topic is Some by {
                        if i < q.len() {
                            assert(self@.topics[i] == q[i]);
                        }
                    }
                }
                Ok(())
            },
            None => {
                if self.control.len() >= CONTROL_CAPACITY || bytes > self.byte_limit - self.control_bytes {
                    self.close_sending("control send queue full");
                    return Err(SendError::ControlFull);
                }
                let ghost q = self@.control;
                proof {
                    lemma_push(q, b, Seq::empty());
                }
                self.control_bytes = self.control_bytes + bytes;
                self.control.push_back(Batch { connection, topic: None, payload, bytes });
                assert(self@.control =~= q.push(b));
                Ok(())
            },
        }
    }
}

} // verus!

verus! {

impl<P> Outgoing<P> {
    /// Takes the next batch: replies first, then topic batches, oldest first.
    pub fn take(&mut self) -> (r: Result<Batch<P>, Empty>)
        requires
            old(self).wf(),
        ensures
            final(self).wf(),
            ({
                let (expected, after) = take_step(old(self)@);
                &&& final(self)@ == after
                &&& match r {
                    Ok(b) => expected == Ok::<BatchV<P>, Empty>(b@),
                    Err(e) => expected == Err::<BatchV<P>, Empty>(e),
                }
            }),
    {
        let ghost start = self@;
        if self.control.len() > 0 {
            proof {
                lemma_remove(start.control, 0, Seq::empty());
                assert(start.control.remove(0) =~= start.control.drop_first());
            }
            match self.control.pop_front() {
                Some(batch) => {
                    self.control_bytes = self.control_bytes - batch.bytes;
                    assert(self@.control =~= start.control.drop_first());
                    return Ok(batch);
                },
                None => {},
            }
        }
        if self.topics.len() > 0 {
            proof {
                lemma_remove(start.topics, 0, Seq::empty());
                assert(start.topics.remove(0) =~= start.topics.drop_first());
            }
            match self.topics.pop_front() {
                Some(batch) => {
                    self.topic_bytes = self.topic_bytes - batch.bytes;
                    assert(self@.topics =~= start.topics.drop_first());
                    assert forall|i: int| 0 <= i < self@.topics.len() implies #[trigger] self@.topics[i].topic is Some by {
                        assert(self@.topics[i] == start.topics[i + 1]);
                    }
                    return Ok(batch);
                },
                None => {},
            }
        }
        if self.sender_closed {
            Err(Empty::Disconnected)
        } else {
            Err(Empty::Waiting)
        }
    }

    /// Judges a batch once encoded: `encoded` is the byte size of its frames,
    /// or none where encoding failed. True where the frames go out.
    pub fn finish(&mut self, topic: bool, encoded: Option<usize>) -> (r: bool)
        requires
            old(self).wf(),
        ensures
            final(self).wf(),
            (r, final(self)@) == finish_step(
                old(self)@,
                topic,
                match encoded {
                    Some(n) => Some(n as nat),
                    None => None,
                },
            ),
    {
        if self.sender_closed || self.receiver_closed {
            return false;
        }
        let reason = match encoded {
            Some(n) => {
                if n <= self.byte_limit {
                    return true;
                }
                "encoded batch exceeds byte limit"
            },
            None => "outbound encoding failed",
        };
        if topic {
            self.dropped = self.dropped.saturating_add(1);
        } else {
            self.close_sending(reason);
        }
        false
    }

    /// The sending side is gone: the queues are emptied.
    pub fn close_sender(&mut self)
        requires
            old(self).wf(),
        ensures
            final(self).wf(),
            final(self)@ == (OutgoingV::<P> {
                topics: Seq::empty(),
                control: Seq::empty(),
                sender_closed: true,
                ..old(self)@
            }),
    {
        self.sender_closed = true;
        self.topics.clear();
        self.control.clear();
        self.topic_bytes = 0;
        self.control_bytes = 0;
        assert(self@.topics =~= Seq::empty());
        assert(self@.control =~= Seq::empty());
    }

    /// The receiving side is gone: the queues are emptied.
    pub fn close_receiver(&mut self)
        requires
            old(self).wf(),
        ensures
            final(self).wf(),
            final(self)@ == (OutgoingV::<P> {
                topics: Seq::empty(),
                control: Seq::empty(),
                receiver_closed: true,
                ..old(self)@
            }),
    {
        self.receiver_closed = true;
        self.topics.clear();
        self.control.clear();
        self.topic_bytes = 0;
        self.control_bytes = 0;
        assert(self@.topics =~= Seq::empty());
        assert(self@.control =~= Seq::empty());
    }

    pub fn is_closed(&self) -> (r: bool)
        ensures
            r == (self@.sender_closed || self@.receiver_closed),
    {
        self.receiver_closed || self.sender_closed
    }

    /// Why the sending side closed itself, if it did.
    pub fn close_reason(&self) -> (r: Option<&'static str>)
        ensures
            match r {
                Some(s) => self@.close_reason == Some(s@),
                None => self@.close_reason is None,
            },
    {
        self.close_reason
    }
}

} // verus!
