//! Topic registrations, shared subscriptions, and message delivery.

use vstd::prelude::*;
use super::{
    actions, Bridge, ClientSubscription, Connection, Publisher, Subscription, Writer, connected, id, id_of,
    name, name_of, same_tables, starts_with,
};
use crate::access::topic_check;
use crate::backend::{Backend, Entity, Qos, RosMessage, interface_name};
use crate::cbor::Cbor;
use crate::error::Error;
use crate::json::{Json, JsonV};
use crate::text::{owned, same};
use crate::wire::{Compression, Options};
use std::collections::VecDeque;

verus! {

broadcast use crate::backend::lemma_push_drop_last;

/// Whether any registration asks for compression `c`.
pub open spec fn any_compression(regs: Seq<Options>, c: Compression) -> bool {
    exists|i: int| 0 <= i < regs.len() && #[trigger] regs[i].compression == c
}

/// The smallest throttle among the registrations, or zero.
pub open spec fn min_throttle(regs: Seq<Options>) -> u64
    decreases regs.len(),
{
    if regs.len() == 0 {
        0
    } else if regs.len() == 1 || regs.last().throttle_ms < min_throttle(regs.drop_last()) {
        regs.last().throttle_ms
    } else {
        min_throttle(regs.drop_last())
    }
}

/// The smallest queue length among the registrations, or zero.
pub open spec fn min_queue(regs: Seq<Options>) -> usize
    decreases regs.len(),
{
    if regs.len() == 0 {
        0
    } else if regs.len() == 1 || regs.last().queue < min_queue(regs.drop_last()) {
        regs.last().queue
    } else {
        min_queue(regs.drop_last())
    }
}

/// The smallest fragment size that a registration asks for, if any does.
pub open spec fn min_fragment(regs: Seq<Options>) -> Option<usize>
    decreases regs.len(),
{
    if regs.len() == 0 {
        None
    } else {
        match (regs.last().fragment, min_fragment(regs.drop_last())) {
            (Some(f), Some(g)) => Some(if f < g { f } else { g }),
            (Some(f), None) => Some(f),
            (None, g) => g,
        }
    }
}

/// The options of a connection's shared subscription: the least throttle,
/// queue and fragment size, and compression by precedence raw, cbor, png.
pub open spec fn merged_options(regs: Seq<Options>) -> Options {
    Options {
        compression: if any_compression(regs, Compression::Raw) {
            Compression::Raw
        } else if any_compression(regs, Compression::Cbor) {
            Compression::Cbor
        } else if any_compression(regs, Compression::Png) {
            Compression::Png
        } else {
            Compression::Plain
        },
        fragment: min_fragment(regs),
        throttle_ms: min_throttle(regs),
        queue: min_queue(regs),
    }
}

/// The least throttle is no greater than any registration's and is one of them.
proof fn lemma_min_throttle(regs: Seq<Options>)
    requires
        regs.len() > 0,
    ensures
        forall|k: int| 0 <= k < regs.len() ==> min_throttle(regs) <= #[trigger] regs[k].throttle_ms,
        exists|k: int| 0 <= k < regs.len() && min_throttle(regs) == #[trigger] regs[k].throttle_ms,
    decreases regs.len(),
{
    let last = regs.len() - 1;
    if regs.len() == 1 {
        assert(min_throttle(regs) == regs[0].throttle_ms);
    } else {
        let rest = regs.drop_last();
        lemma_min_throttle(rest);
        assert forall|k: int| 0 <= k < regs.len() implies min_throttle(regs) <= #[trigger] regs[k].throttle_ms by {
            if k < last {
                assert(regs[k] == rest[k]);
            }
        }
        if regs.last().throttle_ms < min_throttle(rest) {
            assert(min_throttle(regs) == regs[last].throttle_ms);
        } else {
            let j = choose|j: int| 0 <= j < rest.len() && min_throttle(rest) == #[trigger] rest[j].throttle_ms;
            assert(regs[j] == rest[j]);
        }
    }
}

/// The least queue is no greater than any registration's and is one of them.
proof fn lemma_min_queue(regs: Seq<Options>)
    requires
        regs.len() > 0,
    ensures
        forall|k: int| 0 <= k < regs.len() ==> min_queue(regs) <= #[trigger] regs[k].queue,
        exists|k: int| 0 <= k < regs.len() && min_queue(regs) == #[trigger] regs[k].queue,
    decreases regs.len(),
{
    let last = regs.len() - 1;
    if regs.len() == 1 {
        assert(min_queue(regs) == regs[0].queue);
    } else {
        let rest = regs.drop_last();
        lemma_min_queue(rest);
        assert forall|k: int| 0 <= k < regs.len() implies min_queue(regs) <= #[trigger] regs[k].queue by {
            if k < last {
                assert(regs[k] == rest[k]);
            }
        }
        if regs.last().queue < min_queue(rest) {
            assert(min_queue(regs) == regs[last].queue);
        } else {
            let j = choose|j: int| 0 <= j < rest.len() && min_queue(rest) == #[trigger] rest[j].queue;
            assert(regs[j] == rest[j]);
        }
    }
}

/// The least fragment size is no greater than any that a registration asks
/// for and is one of them; there is none only where no registration asks.
proof fn lemma_min_fragment(regs: Seq<Options>)
    ensures
        forall|k: int| 0 <= k < regs.len() && (#[trigger] regs[k].fragment) is Some
            ==> min_fragment(regs) is Some && min_fragment(regs)->Some_0 <= regs[k].fragment->Some_0,
        min_fragment(regs) is Some ==> exists|k: int| 0 <= k < regs.len() && #[trigger] regs[k].fragment == min_fragment(regs),
    decreases regs.len(),
{
    if regs.len() > 0 {
        let last = regs.len() - 1;
        let rest = regs.drop_last();
        lemma_min_fragment(rest);
        assert forall|k: int| 0 <= k < regs.len() && (#[trigger] regs[k].fragment) is Some
            implies min_fragment(regs) is Some && min_fragment(regs)->Some_0 <= regs[k].fragment->Some_0 by {
            if k < last {
                assert(regs[k] == rest[k]);
            }
        }
        if min_fragment(regs) is Some {
            if min_fragment(regs) == regs[last].fragment {
            } else {
                let j = choose|j: int| 0 <= j < rest.len() && #[trigger] rest[j].fragment == min_fragment(rest);
                assert(regs[j] == rest[j]);
            }
        }
    }
}

/// A connection subscribed to a topic under several registrations gets the
/// samples as the least demanding of them asks: the throttle and the queue
/// length of its shared subscription are the smallest that a registration
/// gives (no greater than any, and equal to one); so is its fragment size,
/// which is none only where no registration asks for fragments; and its
/// compression is raw where any registration asks for raw, else CBOR where any
/// asks for it, else PNG where any asks for it, else plain.
pub proof fn lemma_coalesced_options(c: ClientSubscription)
    requires
        c.registrations@.len() > 0,
    ensures
        ({
            let o = merged_options(registration_options(c.registrations@));
            &&& forall|k: int| 0 <= k < c.registrations@.len() ==> o.throttle_ms <= #[trigger] c.registrations@[k].1.throttle_ms
            &&& exists|k: int| 0 <= k < c.registrations@.len() && o.throttle_ms == #[trigger] c.registrations@[k].1.throttle_ms
            &&& forall|k: int| 0 <= k < c.registrations@.len() ==> o.queue <= #[trigger] c.registrations@[k].1.queue
            &&& exists|k: int| 0 <= k < c.registrations@.len() && o.queue == #[trigger] c.registrations@[k].1.queue
            &&& (exists|k: int| 0 <= k < c.registrations@.len() && #[trigger] c.registrations@[k].1.compression == Compression::Raw)
                ==> o.compression == Compression::Raw
            &&& (forall|k: int| 0 <= k < c.registrations@.len() ==> #[trigger] c.registrations@[k].1.compression == Compression::Plain)
                ==> o.compression == Compression::Plain
            &&& o.compression == Compression::Plain || (exists|k: int| 0 <= k < c.registrations@.len() && #[trigger] c.registrations@[k].1.compression == o.compression)
            &&& !(exists|k: int| 0 <= k < c.registrations@.len() && #[trigger] c.registrations@[k].1.compression == Compression::Raw)
                && (exists|k: int| 0 <= k < c.registrations@.len() && #[trigger] c.registrations@[k].1.compression == Compression::Cbor)
                ==> o.compression == Compression::Cbor
            &&& (forall|k: int| 0 <= k < c.registrations@.len() ==> #[trigger] c.registrations@[k].1.compression != Compression::Raw
                    && c.registrations@[k].1.compression != Compression::Cbor)
                && (exists|k: int| 0 <= k < c.registrations@.len() && #[trigger] c.registrations@[k].1.compression == Compression::Png)
                ==> o.compression == Compression::Png
            &&& forall|k: int| 0 <= k < c.registrations@.len() && (#[trigger] c.registrations@[k].1.fragment) is Some
                ==> o.fragment is Some && o.fragment->Some_0 <= c.registrations@[k].1.fragment->Some_0
            &&& o.fragment is Some ==> exists|k: int| 0 <= k < c.registrations@.len() && #[trigger] c.registrations@[k].1.fragment == o.fragment
        }),
{
    let regs = registration_options(c.registrations@);
    lemma_min_throttle(regs);
    lemma_min_queue(regs);
    lemma_min_fragment(regs);
    assert forall|k: int| 0 <= k < c.registrations@.len() && (#[trigger] c.registrations@[k].1.fragment) is Some
        implies merged_options(regs).fragment is Some && merged_options(regs).fragment->Some_0 <= c.registrations@[k].1.fragment->Some_0 by {
        assert(regs[k] == c.registrations@[k].1);
    }
    if merged_options(regs).fragment is Some {
        let f = choose|f: int| 0 <= f < regs.len() && #[trigger] regs[f].fragment == min_fragment(regs);
        assert(regs[f] == c.registrations@[f].1);
    }
    if exists|k: int| 0 <= k < c.registrations@.len() && #[trigger] c.registrations@[k].1.compression == Compression::Cbor {
        let k = choose|k: int| 0 <= k < c.registrations@.len() && #[trigger] c.registrations@[k].1.compression == Compression::Cbor;
        assert(regs[k] == c.registrations@[k].1);
    }
    if exists|k: int| 0 <= k < c.registrations@.len() && #[trigger] c.registrations@[k].1.compression == Compression::Png {
        let k = choose|k: int| 0 <= k < c.registrations@.len() && #[trigger] c.registrations@[k].1.compression == Compression::Png;
        assert(regs[k] == c.registrations@[k].1);
    }
    if forall|k: int| 0 <= k < c.registrations@.len() ==> #[trigger] c.registrations@[k].1.compression != Compression::Raw
        && c.registrations@[k].1.compression != Compression::Cbor {
        assert forall|i: int| 0 <= i < regs.len() implies #[trigger] regs[i].compression != Compression::Raw
            && regs[i].compression != Compression::Cbor by {
            assert(regs[i] == c.registrations@[i].1);
        }
    }
    if exists|k: int| 0 <= k < c.registrations@.len() && #[trigger] c.registrations@[k].1.compression == Compression::Raw {
    } else {
        assert forall|i: int| 0 <= i < regs.len() implies #[trigger] regs[i].compression != Compression::Raw by {
            assert(regs[i] == c.registrations@[i].1);
        }
    }
    let o = merged_options(regs);
    assert forall|k: int| 0 <= k < c.registrations@.len() implies o.throttle_ms <= #[trigger] c.registrations@[k].1.throttle_ms by {
        assert(regs[k] == c.registrations@[k].1);
    }
    let j = choose|j: int| 0 <= j < regs.len() && min_throttle(regs) == #[trigger] regs[j].throttle_ms;
    assert(regs[j] == c.registrations@[j].1);
    assert forall|k: int| 0 <= k < c.registrations@.len() implies o.queue <= #[trigger] c.registrations@[k].1.queue by {
        assert(regs[k] == c.registrations@[k].1);
    }
    let q = choose|q: int| 0 <= q < regs.len() && min_queue(regs) == #[trigger] regs[q].queue;
    assert(regs[q] == c.registrations@[q].1);
    if exists|k: int| 0 <= k < c.registrations@.len() && #[trigger] c.registrations@[k].1.compression == Compression::Raw {
        let k = choose|k: int| 0 <= k < c.registrations@.len() && #[trigger] c.registrations@[k].1.compression == Compression::Raw;
        assert(regs[k] == c.registrations@[k].1);
    }
    if forall|k: int| 0 <= k < c.registrations@.len() ==> #[trigger] c.registrations@[k].1.compression == Compression::Plain {
        assert forall|i: int| 0 <= i < regs.len() implies #[trigger] regs[i].compression == Compression::Plain by {
            assert(regs[i] == c.registrations@[i].1);
        }
    }
    if o.compression != Compression::Plain {
        let cc = o.compression;
        let i = choose|i: int| 0 <= i < regs.len() && #[trigger] regs[i].compression == cc;
        assert(regs[i] == c.registrations@[i].1);
    }
}

/// The options of each registration.
pub open spec fn registration_options(regs: Seq<(Option<String>, Options)>) -> Seq<Options> {
    Seq::new(regs.len(), |i: int| regs[i].1)
}

impl ClientSubscription {
    /// The options that the connection's registrations add up to.
    pub fn options(&self) -> (r: Options)
        ensures
            r == merged_options(registration_options(self.registrations@)),
    {
        let ghost regs = registration_options(self.registrations@);
        let mut throttle: u64 = 0;
        let mut queue: usize = 0;
        let mut fragment: Option<usize> = None;
        let mut raw = false;
        let mut cbor = false;
        let mut png = false;
        let mut i: usize = 0;
        while i < self.registrations.len()
            invariant
                i <= regs.len(),
                regs == registration_options(self.registrations@),
                throttle == min_throttle(regs.take(i as int)),
                queue == min_queue(regs.take(i as int)),
                fragment == min_fragment(regs.take(i as int)),
                raw == any_compression(regs.take(i as int), Compression::Raw),
                cbor == any_compression(regs.take(i as int), Compression::Cbor),
                png == any_compression(regs.take(i as int), Compression::Png),
            decreases self.registrations.len() - i,
        {
            let o = self.registrations[i].1;
            let ghost prefix = regs.take(i as int);
            let ghost next = regs.take(i + 1);
            assert(next.drop_last() =~= prefix);
            assert(next.last() == o);
            if i == 0 || o.throttle_ms < throttle {
                throttle = o.throttle_ms;
            }
            if i == 0 || o.queue < queue {
                queue = o.queue;
            }
            fragment = match (o.fragment, fragment) {
                (Some(f), Some(g)) => Some(if f < g { f } else { g }),
                (Some(f), None) => Some(f),
                (None, g) => g,
            };
            proof {
                assert forall|c: Compression| any_compression(next, c) == (any_compression(prefix, c) || o.compression == c) by {
                    if any_compression(next, c) {
                        let k = choose|k: int| 0 <= k < next.len() && #[trigger] next[k].compression == c;
                        if k < prefix.len() {
                            assert(prefix[k] == next[k]);
                        }
                    }
                    if any_compression(prefix, c) {
                        let k = choose|k: int| 0 <= k < prefix.len() && #[trigger] prefix[k].compression == c;
                        assert(next[k] == prefix[k]);
                    }
                    if o.compression == c {
                        assert(next[i as int].compression == c);
                    }
                }
            }
            raw = raw || o.compression == Compression::Raw;
            cbor = cbor || o.compression == Compression::Cbor;
            png = png || o.compression == Compression::Png;
            i = i + 1;
        }
        assert(regs.take(i as int) =~= regs);
        Options {
            compression: if raw {
                Compression::Raw
            } else if cbor {
                Compression::Cbor
            } else if png {
                Compression::Png
            } else {
                Compression::Plain
            },
            fragment,
            throttle_ms: throttle,
            queue,
        }
    }
}

/// Whether two registration ids are the same: both absent, or the same text.
pub open spec fn id_eq(a: Option<String>, b: Option<String>) -> bool {
    match (a, b) {
        (Some(x), Some(y)) => x@ == y@,
        (None, None) => true,
        _ => false,
    }
}

/// Whether two registration ids are the same.
pub fn same_id(a: &Option<String>, b: &Option<String>) -> (r: bool)
    ensures
        r == id_eq(*a, *b),
{
    match (a, b) {
        (Some(x), Some(y)) => same(x.as_str(), y.as_str()),
        (None, None) => true,
        _ => false,
    }
}

/// A copy of a registration id.
pub fn copy_id(a: &Option<String>) -> (r: Option<String>)
    ensures
        match (r, *a) {
            (Some(x), Some(y)) => x@ == y@,
            (None, None) => true,
            _ => false,
        },
{
    match a {
        Some(x) => Some(owned(x.as_str())),
        None => None,
    }
}

/// The position of the publisher of `topic`, or their number.
pub fn publisher_index(ps: &Vec<Publisher>, topic: &str) -> (i: usize)
    ensures
        i <= ps@.len(),
        i < ps@.len() ==> ps@[i as int].topic@ == topic@,
        forall|k: int| 0 <= k < i ==> ps@[k].topic@ != topic@,
{
    let mut i: usize = 0;
    while i < ps.len()
        invariant
            i <= ps@.len(),
            forall|k: int| 0 <= k < i ==> ps@[k].topic@ != topic@,
        decreases ps.len() - i,
    {
        if same(ps[i].topic.as_str(), topic) {
            return i;
        }
        i = i + 1;
    }
    i
}

/// The position of the subscription of `topic`, or their number.
pub fn subscription_index(ss: &Vec<Subscription>, topic: &str) -> (i: usize)
    ensures
        i <= ss@.len(),
        i < ss@.len() ==> ss@[i as int].topic@ == topic@,
        forall|k: int| 0 <= k < i ==> ss@[k].topic@ != topic@,
{
    let mut i: usize = 0;
    while i < ss.len()
        invariant
            i <= ss@.len(),
            forall|k: int| 0 <= k < i ==> ss@[k].topic@ != topic@,
        decreases ss.len() - i,
    {
        if same(ss[i].topic.as_str(), topic) {
            return i;
        }
        i = i + 1;
    }
    i
}

/// The position of the entry of `owner` among `owners`, or their number.
fn owner_index(owners: &Vec<(Connection, Vec<Option<String>>)>, owner: Connection) -> (i: usize)
    ensures
        i <= owners@.len(),
        i < owners@.len() ==> owners@[i as int].0 == owner,
        forall|k: int| 0 <= k < i ==> owners@[k].0 != owner,
{
    let mut i: usize = 0;
    while i < owners.len()
        invariant
            i <= owners@.len(),
            forall|k: int| 0 <= k < i ==> owners@[k].0 != owner,
        decreases owners.len() - i,
    {
        if owners[i].0 == owner {
            return i;
        }
        i = i + 1;
    }
    i
}

/// The position of `owner`'s share of a subscription, or their number.
fn client_index(cs: &Vec<ClientSubscription>, owner: Connection) -> (i: usize)
    ensures
        i <= cs@.len(),
        i < cs@.len() ==> cs@[i as int].owner == owner,
        forall|k: int| 0 <= k < i ==> cs@[k].owner != owner,
{
    let mut i: usize = 0;
    while i < cs.len()
        invariant
            i <= cs@.len(),
            forall|k: int| 0 <= k < i ==> cs@[k].owner != owner,
        decreases cs.len() - i,
    {
        if cs[i].owner == owner {
            return i;
        }
        i = i + 1;
    }
    i
}

/// The position of registration `id` among `ids`, or their number.
fn id_index(ids: &Vec<Option<String>>, id: &Option<String>) -> (i: usize)
    ensures
        i <= ids@.len(),
        i < ids@.len() ==> id_eq(ids@[i as int], *id),
        forall|k: int| 0 <= k < i ==> !id_eq(#[trigger] ids@[k], *id),
{
    let mut i: usize = 0;
    while i < ids.len()
        invariant
            i <= ids@.len(),
            forall|k: int| 0 <= k < i ==> !id_eq(#[trigger] ids@[k], *id),
        decreases ids.len() - i,
    {
        if same_id(&ids[i], id) {
            return i;
        }
        i = i + 1;
    }
    i
}

/// The position of registration `id` among a client's registrations, or their number.
fn registration_index(regs: &Vec<(Option<String>, Options)>, id: &Option<String>) -> (i: usize)
    ensures
        i <= regs@.len(),
        i < regs@.len() ==> id_eq(regs@[i as int].0, *id),
        forall|k: int| 0 <= k < i ==> !id_eq(#[trigger] regs@[k].0, *id),
{
    let mut i: usize = 0;
    while i < regs.len()
        invariant
            i <= regs@.len(),
            forall|k: int| 0 <= k < i ==> !id_eq(#[trigger] regs@[k].0, *id),
        decreases regs.len() - i,
    {
        if same_id(&regs[i].0, id) {
            return i;
        }
        i = i + 1;
    }
    i
}

/// The publish message of a topic sample: `{"op": "publish", "topic", "msg"}`.
pub open spec fn publish_message(topic: Seq<char>, msg: JsonV) -> JsonV {
    JsonV::Object(seq![("op"@, JsonV::Str("publish"@)), ("topic"@, JsonV::Str(topic)), ("msg"@, msg)])
}

impl<B: Backend, W: Writer> Bridge<B, W> {
    /// Registers `owner` as a publisher of the request's topic; the first
    /// advertisement creates the ROS publisher, with the QoS it asks for.
    pub(super) fn advertise(&mut self, owner: Connection, v: &Json) -> (r: Result<(), Error>)
        ensures
            old(self).wf() ==> final(self).wf(),
            final(self).published() == old(self).published(),
            final(self).subscriptions == old(self).subscriptions,
            final(self).services == old(self).services,
            final(self).calls == old(self).calls,
            final(self).external == old(self).external,
            final(self).goals == old(self).goals,
            final(self).action_calls == old(self).action_calls,
            final(self).action_servers == old(self).action_servers,
            final(self).server_goals == old(self).server_goals,
            final(self).access == old(self).access,
            final(self).timeout == old(self).timeout,
            final(self).sent@ == old(self).sent@,
            final(self).outputs@ == old(self).outputs@,
            final(self).failed@ == old(self).failed@,
            (match name_of(v@, "topic"@) {
                Ok(t) => topic_check(old(self).access@, t, true) matches Err(m) ==> r matches Err(e) && e.message@ == m
                    && final(self).backend == old(self).backend && final(self).publishers == old(self).publishers,
                Err(m) => r matches Err(e) && e.message@ == m && final(self).backend == old(self).backend
                    && final(self).publishers == old(self).publishers,
            }),
            (match name_of(v@, "topic"@) {
                Ok(t) => advertised(old(self).publishers@, t) ==> final(self).backend == old(self).backend
                    && same_publishers(final(self).publishers@, old(self).publishers@),
                Err(_) => true,
            }),
            (match name_of(v@, "topic"@) {
                Ok(t) => topic_check(old(self).access@, t, true) is Ok && id_of(v@) is Ok && advertised(old(self).publishers@, t)
                    && type_fits(v@, old(self).publishers@, t) ==> r is Ok,
                Err(_) => true,
            }),
            (match name_of(v@, "topic"@) {
                Ok(t) => topic_check(old(self).access@, t, true) is Ok && id_of(v@) is Ok ==> forall|i: int|
                    #[trigger] first_publisher(old(self).publishers@, t, i) && type_conflict(v@, old(self).publishers@[i].typ@)
                    ==> (r matches Err(e) && e.message@ == "topic type mismatch"@) && final(self).publishers == old(self).publishers,
                Err(_) => true,
            }),
    {
        let topic = name(v, "topic")?;
        self.access.topic(topic.as_str(), true)?;
        let registration = id(v)?;
        let i = publisher_index(&self.publishers, topic.as_str());
        if i < self.publishers.len() {
            proof {
                assert forall|b: int| #[trigger] first_publisher(old(self).publishers@, topic@, b) implies b == i by {
                    if b < i {
                        assert(old(self).publishers@[b].topic@ != topic@);
                    } else if b > i {
                        assert(old(self).publishers@[i as int].topic@ != topic@);
                    }
                }
                assert(first_publisher(old(self).publishers@, topic@, i as int));
            }
            match v.get("type") {
                Some(t) => {
                    let ts = match t.as_str() {
                        Some(ts) => ts,
                        None => return Err(Error::new("invalid type")),
                    };
                    let typ = interface_name(ts, "msg")?;
                    proof {
                        assert forall|b: int| #[trigger] first_publisher(old(self).publishers@, topic@, b) implies b == i by {
                            if b < i {
                                assert(old(self).publishers@[b].topic@ != topic@);
                            } else if b > i {
                                assert(old(self).publishers@[i as int].topic@ != topic@);
                            }
                        }
                    }
                    if !same(typ.as_str(), self.publishers[i].typ.as_str()) {
                        return Err(Error::new("topic type mismatch"));
                    }
                },
                None => {},
            }
            let mut p = self.publishers.remove(i);
            let j = owner_index(&p.owners, owner);
            if j < p.owners.len() {
                let (o, mut ids) = p.owners.remove(j);
                if id_index(&ids, &registration) == ids.len() {
                    ids.push(registration);
                }
                p.owners.insert(j, (o, ids));
            } else {
                let mut ids: Vec<Option<String>> = Vec::new();
                ids.push(registration);
                p.owners.push((owner, ids));
            }
            let ghost before = self.publishers@;
            self.publishers.insert(i, p);
            proof {
                assert forall|k: int| 0 <= k < self.publishers@.len() implies
                    #[trigger] self.publishers@[k].entity == old(self).publishers@[k].entity
                    && self.publishers@[k].topic@ == old(self).publishers@[k].topic@
                    && self.publishers@[k].typ@ == old(self).publishers@[k].typ@ by {
                    if k < i {
                        assert(self.publishers@[k] == before[k]);
                    } else if k > i {
                        assert(self.publishers@[k] == before[k - 1]);
                    }
                }
            }
            return Ok(());
        }
        proof {
            if advertised(old(self).publishers@, topic@) {
                let k = choose|k: int| 0 <= k < old(self).publishers@.len() && old(self).publishers@[k].topic@ == topic@;
                assert(self.publishers@[k].topic@ != topic@);
            }
        }
        let typ = self.resolve(v, "topic", "msg")?;
        let mut q = match v.get("qos") {
            Some(q) => Qos::parse(q)?,
            None => Qos::publisher(),
        };
        if v.get("qos").is_none() {
            match v.get("queue_size") {
                Some(depth) => {
                    let d = match depth.as_u64() {
                        Some(d) => d,
                        None => return Err(Error::new("queue_size must be nonnegative")),
                    };
                    if d > usize::MAX as u64 {
                        return Err(Error::new("out of range integral type conversion attempted"));
                    }
                    q.depth = d as usize;
                },
                None => {},
            }
            match v.get("latch") {
                Some(latch) => {
                    let l = match latch.as_bool() {
                        Some(l) => l,
                        None => return Err(Error::new("latch must be a boolean")),
                    };
                    q.durability = if l {
                        1
                    } else {
                        2
                    };
                },
                None => {},
            }
        }
        let entity = self.new_publisher(topic.as_str(), typ.as_str(), q)?;
        let mut ids: Vec<Option<String>> = Vec::new();
        ids.push(registration);
        let mut owners: Vec<(Connection, Vec<Option<String>>)> = Vec::new();
        owners.push((owner, ids));
        self.publishers.push(Publisher { topic, entity, typ, owners });
        Ok(())
    }

    /// Withdraws `owner`'s advertisement `id` of `topic`, or all of them; the
    /// last owner's withdrawal destroys the ROS publisher.
    pub(super) fn unadvertise(&mut self, owner: Connection, topic: &str, id: Option<String>) -> (r: Result<(), Error>)
        ensures
            old(self).wf() ==> final(self).wf(),
            final(self).subscriptions == old(self).subscriptions,
            final(self).services == old(self).services,
            final(self).calls == old(self).calls,
            final(self).external == old(self).external,
            final(self).goals == old(self).goals,
            final(self).action_calls == old(self).action_calls,
            final(self).action_servers == old(self).action_servers,
            final(self).server_goals == old(self).server_goals,
            final(self).access == old(self).access,
            final(self).timeout == old(self).timeout,
            final(self).sent@ == old(self).sent@,
            final(self).outputs@ == old(self).outputs@,
            final(self).failed@ == old(self).failed@,
            unadvertise_refusal(old(self).publishers@, topic@, owner, id) matches Some(m)
                ==> (r matches Err(e) && e.message@ == m) && same_publishers(final(self).publishers@, old(self).publishers@),
            unadvertise_refusal(old(self).publishers@, topic@, owner, id) is None
                ==> r is Ok && withdrawn(old(self).publishers@, final(self).publishers@, topic@, owner),
    {
        let i = publisher_index(&self.publishers, topic);
        proof {
            if i < self.publishers.len() {
                assert(first_publisher(self.publishers@, topic@, i as int));
            } else {
                assert(!advertised(self.publishers@, topic@));
            }
        }
        if i == self.publishers.len() {
            return Err(Error::new("topic is not advertised"));
        }
        let ghost ps = self.publishers@;
        let mut p = self.publishers.remove(i);
        let j = owner_index(&p.owners, owner);
        proof {
            assert forall|a: int, b: int| first_publisher(ps, topic@, a) && #[trigger] first_owner(ps[a].owners@, owner, b)
                implies a == i && b == j by {
                if a < i {
                    assert(ps[a].topic@ != topic@);
                } else if i < a {
                    assert(ps[i as int].topic@ != topic@);
                }
                if b < j {
                    assert(p.owners@[b].0 != owner);
                } else if j < b && j < p.owners@.len() {
                    assert(ps[a].owners@[j as int].0 != owner);
                }
            }
            if j < p.owners.len() {
                assert(first_owner(ps[i as int].owners@, owner, j as int));
            }
        }
        if j == p.owners.len() {
            self.publishers.insert(i, p);
            proof {
                assert(self.publishers@ =~= ps);
            }
            return Err(Error::new("topic is not advertised by this client"));
        }
        let ghost os = p.owners@;
        let (o, mut ids) = p.owners.remove(j);
        let ghost ids0 = ids@;
        assert(ids0 == ps[i as int].owners@[j as int].1@);
        match id {
            Some(name) => {
                let some = Some(name);
                let k = id_index(&ids, &some);
                if k == ids.len() {
                    p.owners.insert(j, (o, ids));
                    self.publishers.insert(i, p);
                    proof {
                        assert(self.publishers@[i as int].topic@ == ps[i as int].topic@);
                        assert(same_publishers(self.publishers@, ps)) by {
                            assert forall|x: int| 0 <= x < self.publishers@.len() implies #[trigger] self.publishers@[x].entity == ps[x].entity
                                && self.publishers@[x].topic@ == ps[x].topic@ && self.publishers@[x].typ@ == ps[x].typ@ by {
                                if x != i {
                                    assert(self.publishers@[x] == ps[x]);
                                }
                            }
                        }
                        assert forall|a: int, b: int, c: int| first_publisher(ps, topic@, a) && first_owner(ps[a].owners@, owner, b)
                            && 0 <= c < ps[a].owners@[b].1@.len() implies !#[trigger] id_eq(ps[a].owners@[b].1@[c], id) by {
                            assert(a == i && b == j);
                        }
                    }
                    return Err(Error::new("unknown advertisement id"));
                }
                ids.remove(k);
            },
            None => {
                ids.clear();
            },
        }
        proof {
            if id is Some {
                assert(ids@.len() + 1 == ids0.len());
            }
        }
        if ids.len() > 0 {
            p.owners.insert(j, (o, ids));
        }
        if p.owners.len() == 0 {
            self.backend.destroy(p.entity);
            proof {
                assert(self.publishers@.len() + 1 == ps.len());
            }
        } else {
            self.publishers.insert(i, p);
        }
        proof {
            assert(first_publisher(ps, topic@, i as int) && first_owner(ps[i as int].owners@, owner, j as int));
        }
        Ok(())
    }
}

/// Whether `i` is the first publisher of `topic`.
pub open spec fn first_publisher(ps: Seq<Publisher>, topic: Seq<char>, i: int) -> bool {
    &&& 0 <= i < ps.len()
    &&& ps[i].topic@ == topic
    &&& forall|k: int| 0 <= k < i ==> #[trigger] ps[k].topic@ != topic
}

/// Whether `j` is the first entry of `owner` among a publisher's owners.
pub open spec fn first_owner(os: Seq<(Connection, Vec<Option<String>>)>, owner: Connection, j: int) -> bool {
    &&& 0 <= j < os.len()
    &&& os[j].0 == owner
    &&& forall|k: int| 0 <= k < j ==> #[trigger] os[k].0 != owner
}

/// The refusal of `owner`'s withdrawal of advertisement `id` of `topic`: the
/// topic is not advertised, not by this client, or not under that id.
pub open spec fn unadvertise_refusal(ps: Seq<Publisher>, topic: Seq<char>, owner: Connection, id: Option<String>) -> Option<Seq<char>> {
    if !advertised(ps, topic) {
        Some("topic is not advertised"@)
    } else if !(exists|i: int, j: int| first_publisher(ps, topic, i) && #[trigger] first_owner(ps[i].owners@, owner, j)) {
        Some("topic is not advertised by this client"@)
    } else if id is Some && !(exists|i: int, j: int, k: int| first_publisher(ps, topic, i) && first_owner(ps[i].owners@, owner, j)
        && 0 <= k < ps[i].owners@[j].1@.len() && #[trigger] id_eq(ps[i].owners@[j].1@[k], id)) {
        Some("unknown advertisement id"@)
    } else {
        None
    }
}

/// Whether `owner`'s withdrawal from the first publisher of `topic` took
/// effect: the publisher is gone, or the owner's entry, or one of its ids.
pub open spec fn withdrawn(before: Seq<Publisher>, after: Seq<Publisher>, topic: Seq<char>, owner: Connection) -> bool {
    exists|i: int, j: int| #![trigger first_publisher(before, topic, i), first_owner(before[i].owners@, owner, j)]
        first_publisher(before, topic, i) && first_owner(before[i].owners@, owner, j) && {
        ||| after.len() + 1 == before.len()
        ||| after.len() == before.len() && after[i].owners@.len() + 1 == before[i].owners@.len()
        ||| after.len() == before.len() && after[i].owners@.len() == before[i].owners@.len()
            && after[i].owners@[j].1@.len() + 1 == before[i].owners@[j].1@.len()
    }
}

/// Whether `v` is the publish message of sample `msg` on some topic.
pub open spec fn is_publish_of(v: JsonV, msg: JsonV) -> bool {
    exists|t: Seq<char>| v == #[trigger] publish_message(t, msg)
}

/// Whether `entity` carries the feedback of a client goal.
pub open spec fn feedback_entity(gs: Seq<super::ClientGoal>, entity: Entity) -> bool {
    exists|k: int| 0 <= k < gs.len() && #[trigger] gs[k].feedback_sub == entity
}

/// Whether `entity` is a subscription's.
pub open spec fn subscription_entity(ss: Seq<Subscription>, entity: Entity) -> bool {
    exists|k: int| 0 <= k < ss.len() && #[trigger] ss[k].entity == entity
}

/// Whether `i` is the first subscription of `topic`.
pub open spec fn first_subscription(ss: Seq<Subscription>, topic: Seq<char>, i: int) -> bool {
    &&& 0 <= i < ss.len()
    &&& ss[i].topic@ == topic
    &&& forall|k: int| 0 <= k < i ==> #[trigger] ss[k].topic@ != topic
}

/// Whether `j` is the first share of `owner` in a subscription's clients.
pub open spec fn first_client(cs: Seq<ClientSubscription>, owner: Connection, j: int) -> bool {
    &&& 0 <= j < cs.len()
    &&& cs[j].owner == owner
    &&& forall|k: int| 0 <= k < j ==> #[trigger] cs[k].owner != owner
}

/// Whether a subscription of `topic` exists.
pub open spec fn subscribed(ss: Seq<Subscription>, topic: Seq<char>) -> bool {
    exists|k: int| 0 <= k < ss.len() && ss[k].topic@ == topic
}

/// The refusal of `owner`'s withdrawal of subscription `id` of `topic`: the
/// topic is not subscribed, not by this client, or not under that id.
pub open spec fn unsubscribe_refusal(ss: Seq<Subscription>, topic: Seq<char>, owner: Connection, id: Option<String>) -> Option<Seq<char>> {
    if !subscribed(ss, topic) {
        Some("topic is not subscribed"@)
    } else if !(exists|i: int, j: int| first_subscription(ss, topic, i) && #[trigger] first_client(ss[i].clients@, owner, j)) {
        Some("topic is not subscribed by this client"@)
    } else if id is Some && !(exists|i: int, j: int, k: int| first_subscription(ss, topic, i) && first_client(ss[i].clients@, owner, j)
        && 0 <= k < ss[i].clients@[j].registrations@.len() && #[trigger] id_eq(ss[i].clients@[j].registrations@[k].0, id)) {
        Some("unknown subscription id"@)
    } else {
        None
    }
}

/// Whether `owner`'s withdrawal from the first subscription of `topic` took
/// effect: the subscription is gone, or the owner's share, or one of its registrations.
pub open spec fn unsubscribed(before: Seq<Subscription>, after: Seq<Subscription>, topic: Seq<char>, owner: Connection) -> bool {
    exists|i: int, j: int| #![trigger first_subscription(before, topic, i), first_client(before[i].clients@, owner, j)]
        first_subscription(before, topic, i) && first_client(before[i].clients@, owner, j) && {
        ||| after.len() + 1 == before.len()
        ||| after.len() == before.len() && after[i].clients@.len() + 1 == before[i].clients@.len()
        ||| after.len() == before.len() && after[i].clients@.len() == before[i].clients@.len()
            && after[i].clients@[j].registrations@.len() + 1 == before[i].clients@[j].registrations@.len()
    }
}

/// Whether some publisher of `topic` exists.
pub open spec fn advertised(ps: Seq<Publisher>, topic: Seq<char>) -> bool {
    exists|k: int| 0 <= k < ps.len() && ps[k].topic@ == topic
}

/// Whether request `v` names a message type other than `typ`.
pub open spec fn type_conflict(v: JsonV, typ: Seq<char>) -> bool {
    v.field("type"@) matches Some(JsonV::Str(ts))
        && crate::backend::spec_interface_name(ts, "msg"@) matches Some(n) && n != typ
}

/// Whether `v` advertises a topic already advertised with another message type.
pub open spec fn type_mismatch(a: crate::access::AccessV, ps: Seq<Publisher>, v: JsonV) -> bool {
    &&& super::required_of(v, "op"@) == Some("advertise"@)
    &&& id_of(v) is Ok
    &&& name_of(v, "topic"@) matches Ok(t)
    &&& topic_check(a, t, true) is Ok
    &&& exists|i: int| #[trigger] first_publisher(ps, t, i) && type_conflict(v, ps[i].typ@)
}

/// Whether `owner` is subscribed through `s` with a registration under id
/// `id` (by its text) and options `options`.
pub open spec fn registered_with(s: Subscription, owner: Connection, id: Option<Seq<char>>, options: Options) -> bool {
    exists|j: int, m: int|
        0 <= j < s.clients@.len() && #[trigger] s.clients@[j].owner == owner
        && 0 <= m < s.clients@[j].registrations@.len()
        && super::actions::id_text(#[trigger] s.clients@[j].registrations@[m].0) == id
        && s.clients@[j].registrations@[m].1 == options
}

/// Whether `owner` is subscribed to `topic` through one of `ss`, with a
/// registration under id `id` and options `options`.
pub open spec fn subscribed_with(ss: Seq<Subscription>, owner: Connection, topic: Seq<char>, id: Option<Seq<char>>, options: Options) -> bool {
    exists|k: int| 0 <= k < ss.len() && #[trigger] ss[k].topic@ == topic && registered_with(ss[k], owner, id, options)
}

/// Whether `i` is the first subscription with entity `entity`.
pub open spec fn subscription_at(ss: Seq<Subscription>, entity: Entity, i: int) -> bool {
    &&& 0 <= i < ss.len()
    &&& ss[i].entity == entity
    &&& forall|k: int| 0 <= k < i ==> #[trigger] ss[k].entity != entity
}

/// Whether what `after` adds to `before` is the sample `msg` of `sub`'s topic,
/// each to one of its subscribers.
pub open spec fn delivered_to(sub: Subscription, before: Seq<(Connection, JsonV)>, after: Seq<(Connection, JsonV)>, msg: JsonV) -> bool {
    forall|k: int| before.len() <= k < after.len() ==> {
        &&& super::subscribes(sub, #[trigger] after[k].0)
        &&& after[k].1 == publish_message(sub.topic@, msg)
    }
}

/// Whether request `v` names no message type, or the one that the first
/// publisher of `t` among `ps` has.
pub open spec fn type_fits(v: JsonV, ps: Seq<Publisher>, t: Seq<char>) -> bool {
    v.field("type"@) is None || forall|i: int| #[trigger] first_publisher(ps, t, i) ==> (v.field("type"@) matches Some(JsonV::Str(ts))
        && crate::backend::spec_interface_name(ts, "msg"@) == Some(ps[i].typ@))
}

/// Whether `v` publishes to a topic already advertised, with nothing in the
/// request that the bridge refuses: no ROS call decides whether the message
/// is handed over.
pub open spec fn publish_owed(a: crate::access::AccessV, ps: Seq<Publisher>, v: JsonV) -> bool {
    &&& super::required_of(v, "op"@) == Some("publish"@)
    &&& id_of(v) is Ok
    &&& name_of(v, "topic"@) matches Ok(t)
    &&& topic_check(a, t, true) is Ok
    &&& v.field("msg"@) matches Some(m) && m.is_obj()
    &&& advertised(ps, t)
    &&& type_fits(v, ps, t)
}

/// The same publishers, by topic, type and entity, in the same order.
pub open spec fn same_publishers(a: Seq<Publisher>, b: Seq<Publisher>) -> bool {
    &&& a.len() == b.len()
    &&& forall|k: int| 0 <= k < a.len() ==> #[trigger] a[k].entity == b[k].entity && a[k].topic@ == b[k].topic@ && a[k].typ@ == b[k].typ@
}

impl<B: Backend, W: Writer> Bridge<B, W> {
    /// Hands a topic sample to `owner`: as JSON, and as CBOR for the binary
    /// encodings (the serialized bytes and receive time for `cbor-raw`).
    pub(super) fn deliver_topic(&mut self, owner: Connection, topic: &str, msg: RosMessage, options: &Options)
        ensures
            same_tables(final(self), old(self)),
            final(self).destroyed() == old(self).destroyed(),
            final(self).responses() == old(self).responses(),
            final(self).published() == old(self).published(),
            final(self).backend == old(self).backend,
            final(self).access == old(self).access,
            final(self).timeout == old(self).timeout,
            final(self).outputs@.len() == old(self).outputs@.len(),
            forall|k: int| 0 <= k < old(self).outputs@.len() ==> #[trigger] final(self).outputs@[k].0 == old(self).outputs@[k].0,
            starts_with(final(self).failed@, old(self).failed@),
            final(self).sent@ == if connected(old(self).outputs@, owner) {
                old(self).sent@.push((owner, publish_message(topic@, msg.json@)))
            } else {
                old(self).sent@
            },
    {
        let ghost mv = msg.json@;
        let value = Json::object()
            .member("op", Json::string("publish"))
            .member("topic", Json::string(topic))
            .member("msg", msg.json);
        assert(value@.members() =~= seq![("op"@, JsonV::Str("publish"@)), ("topic"@, JsonV::Str(topic@)), ("msg"@, mv)]);
        let body = if options.compression == Compression::Raw {
            let mut pairs: Vec<(Cbor, Cbor)> = Vec::new();
            pairs.push((Cbor::Text(owned("bytes")), Cbor::Bytes(msg.raw)));
            pairs.push((Cbor::Text(owned("secs")), Cbor::Integer(msg.stamp.0 as i128)));
            pairs.push((Cbor::Text(owned("nsecs")), Cbor::Integer(msg.stamp.1 as i128)));
            Cbor::Pairs(pairs)
        } else {
            msg.cbor
        };
        let mut pairs: Vec<(Cbor, Cbor)> = Vec::new();
        pairs.push((Cbor::Text(owned("op")), Cbor::Text(owned("publish"))));
        pairs.push((Cbor::Text(owned("topic")), Cbor::Text(owned(topic))));
        pairs.push((Cbor::Text(owned("msg")), body));
        let none: Option<String> = None;
        self.send(owner, value, &none, options, Some(Cbor::Pairs(pairs)), Some(topic));
    }

    /// Subscribes `owner` to the request's topic under the request's id; the
    /// first subscriber creates the ROS subscription. A connection that joins a
    /// transient-local topic is handed its latest sample.
    pub(super) fn subscribe(&mut self, owner: Connection, v: &Json, now: u64) -> (r: Result<(), Error>)
        ensures
            old(self).wf() ==> final(self).wf(),
            final(self).publishers == old(self).publishers,
            final(self).services == old(self).services,
            final(self).calls == old(self).calls,
            final(self).external == old(self).external,
            final(self).goals == old(self).goals,
            final(self).action_calls == old(self).action_calls,
            final(self).action_servers == old(self).action_servers,
            final(self).server_goals == old(self).server_goals,
            final(self).access == old(self).access,
            final(self).timeout == old(self).timeout,
            final(self).outputs@.len() == old(self).outputs@.len(),
            (match name_of(v@, "topic"@) {
                Ok(t) => topic_check(old(self).access@, t, false) matches Err(m) ==> r matches Err(e) && e.message@ == m
                    && final(self).backend == old(self).backend && final(self).subscriptions == old(self).subscriptions
                    && final(self).sent@ == old(self).sent@ && final(self).outputs@ == old(self).outputs@,
                Err(m) => r matches Err(e) && e.message@ == m && final(self).backend == old(self).backend
                    && final(self).subscriptions == old(self).subscriptions && final(self).sent@ == old(self).sent@,
            }),
            r is Ok ==> subscribed_with(final(self).subscriptions@, owner, name_of(v@, "topic"@)->Ok_0, id_of(v@)->Ok_0,
                crate::wire::spec_options(v@)->Some_0),
    {
        let topic = name(v, "topic")?;
        self.access.topic(topic.as_str(), false)?;
        let options = Options::parse(v)?;
        let typ = self.resolve(v, "topic", "msg")?;
        let mut si = subscription_index(&self.subscriptions, topic.as_str());
        if si < self.subscriptions.len() {
            if !same(self.subscriptions[si].typ.as_str(), typ.as_str()) {
                return Err(Error::new("topic type mismatch"));
            }
        } else {
            let q = match v.get("qos") {
                Some(q) => Qos::parse(q)?,
                None => {
                    let mut q = Qos::subscriber();
                    let pubs = self.backend.publisher_qos(topic.as_str())?;
                    if pubs.len() > 0 {
                        let mut best_effort = false;
                        let mut transient = true;
                        let mut k: usize = 0;
                        while k < pubs.len()
                            invariant
                                k <= pubs@.len(),
                            decreases pubs.len() - k,
                        {
                            if pubs[k].reliability == 2 {
                                best_effort = true;
                            }
                            if pubs[k].durability != 1 {
                                transient = false;
                            }
                            k = k + 1;
                        }
                        q.reliability = if best_effort {
                            2
                        } else {
                            1
                        };
                        if transient {
                            q.durability = 1;
                            q.reliability = 1;
                        }
                    }
                    q
                },
            };
            let entity = self.new_subscription(topic.as_str(), typ.as_str(), q)?;
            self.subscriptions.push(Subscription {
                topic: owned(topic.as_str()),
                transient_local: q.durability == 1,
                retained: None,
                entity,
                typ,
                clients: Vec::new(),
            });
            si = self.subscriptions.len() - 1;
        }
        let registration = id(v)?;
        let mut s = self.subscriptions.remove(si);
        let mut ci = client_index(&s.clients, owner);
        let new_client = ci == s.clients.len();
        if new_client {
            s.clients.push(ClientSubscription { owner, registrations: Vec::new(), last: None, pending: VecDeque::new() });
            ci = s.clients.len() - 1;
        }
        let mut c = s.clients.remove(ci);
        let k = registration_index(&c.registrations, &registration);
        if k < c.registrations.len() {
            c.registrations.remove(k);
            c.registrations.insert(k, (registration, options));
        } else {
            c.registrations.push((registration, options));
        }
        let retained = if new_client {
            match &s.retained {
                Some(m) => Some(m.copy()),
                None => None,
            }
        } else {
            None
        };
        if retained.is_some() {
            c.last = Some(now);
        }
        let ghost c_view = c;
        let ghost reg_at: int = if k < c.registrations@.len() { k as int } else { c.registrations@.len() - 1 };
        assert(c.registrations@[reg_at].0 == registration && c.registrations@[reg_at].1 == options);
        assert(actions::id_text(registration) == id_of(v@)->Ok_0);
        s.clients.insert(ci, c);
        assert(s.clients@[ci as int] == c_view);
        assert(c_view.owner == owner);
        assert(s.clients@[ci as int].owner == owner);
        assert(actions::id_text(s.clients@[ci as int].registrations@[reg_at].0) == id_of(v@)->Ok_0);
        assert(registered_with(s, owner, id_of(v@)->Ok_0, options));
        assert(s.topic@ == topic@);
        self.subscriptions.insert(si, s);
        assert(self.subscriptions@[si as int].topic@ == topic@);
        assert(subscribed_with(self.subscriptions@, owner, topic@, id_of(v@)->Ok_0, options));
        match retained {
            Some(message) => self.deliver_topic(owner, topic.as_str(), message, &options),
            None => {},
        }
        Ok(())
    }

    /// Withdraws `owner`'s subscription `id` of `topic`, or all of them; the
    /// last subscriber's withdrawal destroys the ROS subscription.
    pub(super) fn unsubscribe(&mut self, owner: Connection, topic: &str, id: Option<String>) -> (r: Result<(), Error>)
        ensures
            old(self).wf() ==> final(self).wf(),
            final(self).publishers == old(self).publishers,
            final(self).services == old(self).services,
            final(self).calls == old(self).calls,
            final(self).external == old(self).external,
            final(self).goals == old(self).goals,
            final(self).action_calls == old(self).action_calls,
            final(self).action_servers == old(self).action_servers,
            final(self).server_goals == old(self).server_goals,
            final(self).access == old(self).access,
            final(self).timeout == old(self).timeout,
            final(self).sent@ == old(self).sent@,
            final(self).outputs@ == old(self).outputs@,
            final(self).failed@ == old(self).failed@,
            unsubscribe_refusal(old(self).subscriptions@, topic@, owner, id) matches Some(m)
                ==> (r matches Err(e) && e.message@ == m) && final(self).subscriptions@.len() == old(self).subscriptions@.len(),
            unsubscribe_refusal(old(self).subscriptions@, topic@, owner, id) is None
                ==> r is Ok && unsubscribed(old(self).subscriptions@, final(self).subscriptions@, topic@, owner),
    {
        let i = subscription_index(&self.subscriptions, topic);
        proof {
            if i < self.subscriptions.len() {
                assert(first_subscription(self.subscriptions@, topic@, i as int));
            } else {
                assert(!subscribed(self.subscriptions@, topic@));
            }
        }
        if i == self.subscriptions.len() {
            return Err(Error::new("topic is not subscribed"));
        }
        let ghost ss = self.subscriptions@;
        let mut s = self.subscriptions.remove(i);
        let j = client_index(&s.clients, owner);
        proof {
            assert forall|a: int, b: int| first_subscription(ss, topic@, a) && #[trigger] first_client(ss[a].clients@, owner, b)
                implies a == i && b == j by {
                if a < i {
                    assert(ss[a].topic@ != topic@);
                } else if i < a {
                    assert(ss[i as int].topic@ != topic@);
                }
                if b < j {
                    assert(s.clients@[b].owner != owner);
                } else if j < b && j < s.clients@.len() {
                    assert(ss[a].clients@[j as int].owner != owner);
                }
            }
            if j < s.clients.len() {
                assert(first_client(ss[i as int].clients@, owner, j as int));
            }
        }
        if j == s.clients.len() {
            self.subscriptions.insert(i, s);
            return Err(Error::new("topic is not subscribed by this client"));
        }
        let mut c = s.clients.remove(j);
        let ghost regs0 = c.registrations@;
        assert(regs0 == ss[i as int].clients@[j as int].registrations@);
        match id {
            Some(name) => {
                let some = Some(name);
                let k = registration_index(&c.registrations, &some);
                if k == c.registrations.len() {
                    s.clients.insert(j, c);
                    self.subscriptions.insert(i, s);
                    proof {
                        assert forall|a: int, b: int, x: int| first_subscription(ss, topic@, a) && first_client(ss[a].clients@, owner, b)
                            && 0 <= x < ss[a].clients@[b].registrations@.len() implies !#[trigger] id_eq(ss[a].clients@[b].registrations@[x].0, id) by {
                            assert(a == i && b == j);
                        }
                    }
                    return Err(Error::new("unknown subscription id"));
                }
                c.registrations.remove(k);
            },
            None => {
                c.registrations.clear();
            },
        }
        proof {
            if id is Some {
                assert(c.registrations@.len() + 1 == regs0.len());
            }
        }
        if c.registrations.len() > 0 {
            s.clients.insert(j, c);
        }
        if s.clients.len() == 0 {
            self.backend.destroy(s.entity);
        } else {
            self.subscriptions.insert(i, s);
        }
        proof {
            assert(first_subscription(ss, topic@, i as int) && first_client(ss[i as int].clients@, owner, j as int));
        }
        Ok(())
    }
}

impl<B: Backend, W: Writer> Bridge<B, W> {
    /// A sample arrived on `entity`: action feedback is passed to the goal's
    /// client where it asked for feedback; a topic sample goes to each
    /// subscribed connection now, or waits in its queue while throttled.
    pub(super) fn topic_message(&mut self, entity: Entity, message: RosMessage, now: u64) -> (r: Result<(), Error>)
        ensures
            super::distinct_connections(old(self).outputs@) ==> super::distinct_connections(final(self).outputs@),
            super::distinct_goals(old(self).goals@) ==> super::distinct_goals(final(self).goals@),
            super::distinct_server_goals(old(self).server_goals@) ==> super::distinct_server_goals(final(self).server_goals@),
            final(self).publishers == old(self).publishers,
            final(self).services == old(self).services,
            final(self).calls == old(self).calls,
            final(self).external == old(self).external,
            final(self).goals == old(self).goals,
            final(self).action_calls == old(self).action_calls,
            final(self).action_servers == old(self).action_servers,
            final(self).server_goals == old(self).server_goals,
            final(self).subscriptions@.len() == old(self).subscriptions@.len(),
            forall|k: int| 0 <= k < old(self).subscriptions@.len() ==> #[trigger] final(self).subscriptions@[k].topic@ == old(self).subscriptions@[k].topic@,
            final(self).backend == old(self).backend,
            final(self).access == old(self).access,
            final(self).timeout == old(self).timeout,
            final(self).outputs@.len() == old(self).outputs@.len(),
            starts_with(final(self).failed@, old(self).failed@),
            !feedback_entity(old(self).goals@, entity) && !subscription_entity(old(self).subscriptions@, entity)
                ==> r is Ok && final(self).subscriptions == old(self).subscriptions && final(self).sent@ == old(self).sent@,
            !feedback_entity(old(self).goals@, entity) && subscription_entity(old(self).subscriptions@, entity) ==> {
                &&& r is Ok
                &&& final(self).sent@.len() >= old(self).sent@.len()
                &&& forall|k: int| 0 <= k < old(self).sent@.len() ==> #[trigger] final(self).sent@[k] == old(self).sent@[k]
                &&& forall|k: int| old(self).sent@.len() <= k < final(self).sent@.len() ==> is_publish_of(#[trigger] final(self).sent@[k].1, message.json@)
            },
            !feedback_entity(old(self).goals@, entity) ==> forall|i: int| #[trigger] subscription_at(old(self).subscriptions@, entity, i) ==>
                delivered_to(old(self).subscriptions@[i], old(self).sent@, final(self).sent@, message.json@),
    {
        let mut gi: usize = 0;
        while gi < self.goals.len()
            invariant
                gi <= self.goals@.len(),
                forall|k: int| 0 <= k < gi ==> #[trigger] self.goals@[k].feedback_sub != entity,
            ensures
                gi <= self.goals@.len(),
                forall|k: int| 0 <= k < gi ==> #[trigger] self.goals@[k].feedback_sub != entity,
                gi < self.goals@.len() ==> self.goals@[gi as int].feedback_sub == entity,
            decreases self.goals.len() - gi,
        {
            if self.goals[gi].feedback_sub == entity {
                break;
            }
            gi = gi + 1;
        }
        if gi < self.goals.len() {
            if self.goals[gi].feedback {
                let a = super::uuid_key(&self.goals[gi].uuid)?;
                let goal_id = super::member_copy(&message.json, "goal_id");
                let b = super::uuid_key(&goal_id)?;
                if same(a.as_str(), b.as_str()) {
                    let owner = self.goals[gi].owner;
                    let request_id = copy_id(&self.goals[gi].id);
                    let options = self.goals[gi].options;
                    let response = Json::object()
                        .member("op", Json::string("action_feedback"))
                        .member("action", Json::string(self.goals[gi].action.as_str()))
                        .member("values", super::member_copy(&message.json, "feedback"));
                    let ghost outs = self.outputs@;
                    self.send(owner, response, &request_id, &options, None, None);
                    proof {
                        if super::distinct_connections(outs) {
                            super::lemma_same_ids_distinct(self.outputs@, outs);
                        }
                    }
                }
            }
            return Ok(());
        }
        assert(!feedback_entity(old(self).goals@, entity));
        let mut si: usize = 0;
        while si < self.subscriptions.len()
            invariant
                si <= self.subscriptions@.len(),
                forall|k: int| 0 <= k < si ==> #[trigger] self.subscriptions@[k].entity != entity,
            ensures
                si <= self.subscriptions@.len(),
                forall|k: int| 0 <= k < si ==> #[trigger] self.subscriptions@[k].entity != entity,
                si < self.subscriptions@.len() ==> self.subscriptions@[si as int].entity == entity,
            decreases self.subscriptions.len() - si,
        {
            if self.subscriptions[si].entity == entity {
                break;
            }
            si = si + 1;
        }
        if si == self.subscriptions.len() {
            return Ok(());
        }
        assert forall|b: int| #[trigger] subscription_at(old(self).subscriptions@, entity, b) implies b == si by {
            if b < si {
                assert(old(self).subscriptions@[b].entity != entity);
            } else if b > si {
                assert(old(self).subscriptions@[si as int].entity != entity);
            }
        }
        let ghost s0 = self.subscriptions@[si as int];
        assert(s0 == old(self).subscriptions@[si as int]);
        let mut s = self.subscriptions.remove(si);
        if s.transient_local {
            s.retained = Some(message.copy());
        }
        let mut deliveries: Vec<(Connection, Options)> = Vec::new();
        let mut ci: usize = 0;
        while ci < s.clients.len()
            invariant
                ci <= s.clients@.len(),
                s.topic == s0.topic,
                s.clients@.len() == s0.clients@.len(),
                forall|k: int| 0 <= k < s.clients@.len() ==> #[trigger] s.clients@[k].owner == s0.clients@[k].owner,
                forall|d: int| 0 <= d < deliveries@.len() ==> super::subscribes(s0, #[trigger] deliveries@[d].0),
            decreases s.clients.len() - ci,
        {
            let ghost pre = s.clients@;
            let mut c = s.clients.remove(ci);
            assert(c.owner == s0.clients@[ci as int].owner);
            assert(super::subscribes(s0, c.owner));
            let options = c.options();
            let ready = match c.last {
                None => true,
                Some(t) => elapsed(t, now) >= millis(options.throttle_ms),
            };
            if c.pending.len() == 0 && ready {
                c.last = Some(now);
                deliveries.push((c.owner, options));
            } else if options.queue > 0 {
                while c.pending.len() >= options.queue
                    invariant
                        options.queue > 0,
                        c.owner == s0.clients@[ci as int].owner,
                    decreases c.pending@.len(),
                {
                    c.pending.pop_front();
                }
                c.pending.push_back(message.copy());
            }
            let ghost cv = c;
            s.clients.insert(ci, c);
            proof {
                assert(s.clients@ =~= pre.update(ci as int, cv));
                assert forall|k: int| 0 <= k < s.clients@.len() implies #[trigger] s.clients@[k].owner == s0.clients@[k].owner by {
                    if k != ci {
                        assert(s.clients@[k] == pre[k]);
                    }
                }
            }
            ci = ci + 1;
        }
        let topic = owned(s.topic.as_str());
        let ghost removed = self.subscriptions@;
        self.subscriptions.insert(si, s);
        assert forall|k: int| 0 <= k < old(self).subscriptions@.len() implies #[trigger] self.subscriptions@[k].topic@ == old(self).subscriptions@[k].topic@ by {
            if k < si {
                assert(self.subscriptions@[k] == removed[k]);
            } else if k > si {
                assert(self.subscriptions@[k] == removed[k - 1]);
            }
        }
        let ghost sent0 = self.sent@;
        assert(sent0 == old(self).sent@);
        let mut k: usize = 0;
        while k < deliveries.len()
            invariant
                k <= deliveries@.len(),
                final_frame(self, old(self)),
                self.subscriptions@.len() == old(self).subscriptions@.len(),
                forall|x: int| 0 <= x < old(self).subscriptions@.len() ==> #[trigger] self.subscriptions@[x].topic@ == old(self).subscriptions@[x].topic@,
                super::distinct_connections(old(self).outputs@) ==> super::distinct_connections(self.outputs@),
                sent0 == old(self).sent@,
                self.sent@.len() >= sent0.len(),
                forall|x: int| 0 <= x < sent0.len() ==> #[trigger] self.sent@[x] == sent0[x],
                forall|x: int| sent0.len() <= x < self.sent@.len() ==> is_publish_of(#[trigger] self.sent@[x].1, message.json@),
                topic@ == s0.topic@,
                forall|d: int| 0 <= d < deliveries@.len() ==> super::subscribes(s0, #[trigger] deliveries@[d].0),
                forall|x: int| sent0.len() <= x < self.sent@.len() ==> super::subscribes(s0, #[trigger] self.sent@[x].0)
                    && self.sent@[x].1 == publish_message(s0.topic@, message.json@),
            decreases deliveries.len() - k,
        {
            let (owner, options) = deliveries[k];
            let copy = message.copy();
            let ghost before = self.sent@;
            let ghost outs = self.outputs@;
            self.deliver_topic(owner, topic.as_str(), copy, &options);
            proof {
                if super::distinct_connections(outs) {
                    super::lemma_same_ids_distinct(self.outputs@, outs);
                }
            }
            assert forall|x: int| sent0.len() <= x < self.sent@.len() implies is_publish_of(#[trigger] self.sent@[x].1, message.json@) by {
                if x < before.len() {
                    assert(self.sent@[x] == before[x]);
                } else {
                    assert(self.sent@[x].1 == publish_message(topic@, message.json@));
                }
            }
            assert forall|x: int| sent0.len() <= x < self.sent@.len() implies super::subscribes(s0, #[trigger] self.sent@[x].0)
                && self.sent@[x].1 == publish_message(s0.topic@, message.json@) by {
                if x < before.len() {
                    assert(self.sent@[x] == before[x]);
                } else {
                    assert(self.sent@[x] == (owner, publish_message(topic@, message.json@)));
                    assert(super::subscribes(s0, deliveries@[k as int].0));
                }
            }
            assert forall|x: int| 0 <= x < sent0.len() implies #[trigger] self.sent@[x] == sent0[x] by {
                assert(self.sent@[x] == before[x]);
            }
            k = k + 1;
        }
        assert(delivered_to(s0, old(self).sent@, self.sent@, message.json@));
        assert forall|i: int| #[trigger] subscription_at(old(self).subscriptions@, entity, i) implies
            delivered_to(old(self).subscriptions@[i], old(self).sent@, self.sent@, message.json@) by {
            assert(i == si);
        }
        Ok(())
    }
}

/// The time from `since` to `now`, zero where the clock went back.
pub fn elapsed(since: u64, now: u64) -> (r: u64)
    ensures
        r == (if now >= since { now - since } else { 0 }),
{
    if now >= since {
        now - since
    } else {
        0
    }
}

/// `ms` milliseconds in nanoseconds, stopping at the largest value.
pub open spec fn millis_of(ms: u64) -> u64 {
    if ms * 1_000_000 > u64::MAX {
        u64::MAX
    } else {
        (ms * 1_000_000) as u64
    }
}

/// `ms` milliseconds in nanoseconds, stopping at the largest value.
pub fn millis(ms: u64) -> (r: u64)
    ensures
        r == millis_of(ms),
{
    match ms.checked_mul(1_000_000) {
        Some(n) => n,
        None => u64::MAX,
    }
}

/// What delivering topic samples keeps: every table but the subscriptions,
/// the backend, the settings, the connections, and the ones that failed.
pub open spec fn final_frame<B: Backend, W: Writer>(a: &Bridge<B, W>, b: &Bridge<B, W>) -> bool {
    &&& a.publishers == b.publishers
    &&& a.services == b.services
    &&& a.calls == b.calls
    &&& a.external == b.external
    &&& a.goals == b.goals
    &&& a.action_calls == b.action_calls
    &&& a.action_servers == b.action_servers
    &&& a.server_goals == b.server_goals
    &&& a.backend == b.backend
    &&& a.access == b.access
    &&& a.timeout == b.timeout
    &&& a.outputs@.len() == b.outputs@.len()
    &&& starts_with(a.failed@, b.failed@)
}

} // verus!
