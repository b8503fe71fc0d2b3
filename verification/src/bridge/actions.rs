//! ROS action goal lifecycle and WebSocket action servers.

use vstd::prelude::*;
use super::{
    ActionCall, ActionServer, Bridge, ClientGoal, Connection, GoalRequest, ServerGoal, Writer,
    concat, connected, id, id_of, member_copy, member_or_null, name, name_of, required,
    required_of, uuid_key, uuid_key_of, with_id, within, lemma_within_refl, lemma_within_remove,
};
use super::topics::same_id;
use crate::access::action_check;
use crate::backend::{Backend, Entity, Qos, interface_name};
use crate::error::Error;
use crate::json::{Json, JsonV};
use crate::text::{owned, same, views};
use crate::wire::{Options, spec_options};

verus! {

broadcast use crate::backend::lemma_push_drop_last;

/// The position of the client goal `key`, or their number.
pub fn goal_index(gs: &Vec<ClientGoal>, key: &str) -> (i: usize)
    ensures
        i <= gs@.len(),
        i < gs@.len() ==> gs@[i as int].key@ == key@,
        forall|k: int| 0 <= k < i ==> gs@[k].key@ != key@,
{
    let mut i: usize = 0;
    while i < gs.len()
        invariant
            i <= gs@.len(),
            forall|k: int| 0 <= k < i ==> gs@[k].key@ != key@,
        decreases gs.len() - i,
    {
        if same(gs[i].key.as_str(), key) {
            return i;
        }
        i = i + 1;
    }
    i
}

/// The position of the action server `name`, or their number.
pub fn server_index(ss: &Vec<ActionServer>, name: &str) -> (i: usize)
    ensures
        i <= ss@.len(),
        i < ss@.len() ==> ss@[i as int].name@ == name@,
        i == ss@.len() ==> !has_server(ss@, name@),
        forall|k: int| 0 <= k < i ==> #[trigger] ss@[k].name@ != name@,
{
    let mut i: usize = 0;
    while i < ss.len()
        invariant
            i <= ss@.len(),
            forall|k: int| 0 <= k < i ==> #[trigger] ss@[k].name@ != name@,
        decreases ss.len() - i,
    {
        if same(ss[i].name.as_str(), name) {
            return i;
        }
        i = i + 1;
    }
    i
}

/// Whether a client offers action `name`.
pub open spec fn has_server(ss: Seq<ActionServer>, name: Seq<char>) -> bool {
    exists|k: int| 0 <= k < ss.len() && ss[k].name@ == name
}

/// Whether server goal `g` is goal `id` of `owner`'s action `action`.
pub open spec fn goal_matches(g: ServerGoal, owner: Connection, id: Seq<char>, action: Seq<char>) -> bool {
    g.owner == owner && g.id@ == id && g.action@ == action
}

/// Whether the server goals hold goal `id` of `owner`'s action `action`.
pub open spec fn has_server_goal(gs: Seq<ServerGoal>, owner: Connection, id: Seq<char>, action: Seq<char>) -> bool {
    exists|k: int| 0 <= k < gs.len() && goal_matches(gs[k], owner, id, action)
}

/// Whether `i` is the first server goal that is goal `id` of `owner`'s action `action`.
pub open spec fn first_server_goal(gs: Seq<ServerGoal>, owner: Connection, id: Seq<char>, action: Seq<char>, i: int) -> bool {
    &&& 0 <= i < gs.len()
    &&& goal_matches(gs[i], owner, id, action)
    &&& forall|k: int| 0 <= k < i ==> !goal_matches(#[trigger] gs[k], owner, id, action)
}

/// The refusal of feedback request `v` of `owner`: a missing goal id or
/// action, an unknown or completed goal, values that are not an object, or an
/// action no longer offered.
pub open spec fn feedback_refusal(gs: Seq<ServerGoal>, ss: Seq<ActionServer>, owner: Connection, v: JsonV) -> Option<Seq<char>> {
    match super::required_of(v, "id"@) {
        None => Some("id"@ + " must be a nonempty string"@),
        Some(id) => match super::name_of(v, "action"@) {
            Err(m) => Some(m),
            Ok(a) => if !has_server_goal(gs, owner, id, a) {
                Some("unknown goal"@)
            } else if completed_goal(gs, owner, id, a) {
                Some("goal has completed"@)
            } else if !(v.field("values"@) matches Some(JsonV::Object(_))) {
                Some("feedback values must be an object"@)
            } else if !has_server(ss, a) {
                Some("unknown goal"@)
            } else {
                None
            },
        },
    }
}

/// Whether the first goal `id` of `owner`'s action `action` has its result.
pub open spec fn completed_goal(gs: Seq<ServerGoal>, owner: Connection, id: Seq<char>, action: Seq<char>) -> bool {
    exists|i: int| first_server_goal(gs, owner, id, action, i) && #[trigger] gs[i].result is Some
}

/// The refusal of result request `v` of `owner`: a missing goal id or action,
/// an unknown or completed goal, a status that is not a terminal one, a
/// result flag that is not boolean, successful values that are not an
/// object, or an action no longer offered.
pub open spec fn result_refusal(gs: Seq<ServerGoal>, ss: Seq<ActionServer>, owner: Connection, v: JsonV) -> Option<Seq<char>> {
    match super::required_of(v, "id"@) {
        None => Some("id"@ + " must be a nonempty string"@),
        Some(id) => match super::name_of(v, "action"@) {
            Err(m) => Some(m),
            Ok(a) => if !has_server_goal(gs, owner, id, a) {
                Some("unknown goal"@)
            } else if completed_goal(gs, owner, id, a) {
                Some("goal has completed"@)
            } else {
                match v.signed_at("status"@) {
                    None => Some("status must be an integer"@),
                    Some(st) => if !(4 <= st <= 6) {
                        Some("result requires terminal action status (4,5,6)"@)
                    } else {
                        match v.boolean_at("result"@) {
                            None => Some("result must be boolean"@),
                            Some(b) => if b && !(v.field("values"@) matches Some(JsonV::Object(_))) {
                                Some("values must be an object"@)
                            } else if !has_server(ss, a) {
                                Some("unknown goal"@)
                            } else {
                                None
                            },
                        }
                    },
                }
            },
        },
    }
}

/// Whether the goal that result request `v` of `owner` names has finished at
/// `now` with the request's status.
pub open spec fn result_taken(gs: Seq<ServerGoal>, owner: Connection, v: JsonV, now: u64) -> bool {
    match (super::required_of(v, "id"@), super::name_of(v, "action"@)) {
        (Some(id), Ok(a)) => exists|i: int| #[trigger] first_server_goal(gs, owner, id, a, i) && gs[i].result is Some
            && gs[i].completed == Some(now) && Some(gs[i].status) == v.signed_at("status"@),
        _ => false,
    }
}

/// Whether one of action server `s`'s services is `entity`.
pub open spec fn serves_entity(s: ActionServer, entity: Entity) -> bool {
    s.send == entity || s.cancel == entity || s.result == entity
}

/// Whether `entity` is a service of an action that a client offers.
pub open spec fn action_entity(ss: Seq<ActionServer>, entity: Entity) -> bool {
    exists|k: int| 0 <= k < ss.len() && serves_entity(#[trigger] ss[k], entity)
}

/// Whether `i` is the first action server offering `name`.
pub open spec fn first_server(ss: Seq<ActionServer>, name: Seq<char>, i: int) -> bool {
    &&& 0 <= i < ss.len()
    &&& ss[i].name@ == name
    &&& forall|k: int| 0 <= k < i ==> #[trigger] ss[k].name@ != name
}

/// Whether `owner` offers action `name`, as the first server of that name.
pub open spec fn offers_action(ss: Seq<ActionServer>, owner: Connection, name: Seq<char>) -> bool {
    exists|i: int| first_server(ss, name, i) && #[trigger] ss[i].owner == owner
}

/// Whether client goal `g` is goal `id` of `owner` on action `action`.
pub open spec fn client_goal_matches(g: ClientGoal, owner: Connection, action: Seq<char>, id: Seq<char>) -> bool {
    g.owner == owner && g.action@ == action && (g.id matches Some(s) && s@ == id)
}

/// Whether `i` is the first client goal that is goal `id` of `owner` on `action`.
pub open spec fn first_client_goal(gs: Seq<ClientGoal>, owner: Connection, action: Seq<char>, id: Seq<char>, i: int) -> bool {
    &&& 0 <= i < gs.len()
    &&& client_goal_matches(gs[i], owner, action, id)
    &&& forall|k: int| 0 <= k < i ==> !client_goal_matches(#[trigger] gs[k], owner, action, id)
}

/// The refusal of cancellation request `v` of `owner`: a missing action or
/// goal id, an unknown goal, one being cancelled already, or one not yet accepted.
pub open spec fn cancel_refusal(gs: Seq<ClientGoal>, owner: Connection, v: JsonV) -> Option<Seq<char>> {
    match super::name_of(v, "action"@) {
        Err(m) => Some(m),
        Ok(a) => match super::required_of(v, "id"@) {
            None => Some("id"@ + " must be a nonempty string"@),
            Some(id) => if !(exists|i: int| first_client_goal(gs, owner, a, id, i)) {
                Some("unknown active goal"@)
            } else if gs[choose|i: int| first_client_goal(gs, owner, a, id, i)].cancelling {
                Some("goal cancellation is already in progress"@)
            } else if !gs[choose|i: int| first_client_goal(gs, owner, a, id, i)].accepted {
                Some("goal is not accepted yet"@)
            } else {
                None
            },
        },
    }
}

/// The position of the server goal `key`, or their number.
pub fn server_goal_index(gs: &Vec<ServerGoal>, key: &str) -> (i: usize)
    ensures
        i <= gs@.len(),
        i < gs@.len() ==> gs@[i as int].key@ == key@,
        forall|k: int| 0 <= k < i ==> #[trigger] gs@[k].key@ != key@,
{
    let mut i: usize = 0;
    while i < gs.len()
        invariant
            i <= gs@.len(),
            forall|k: int| 0 <= k < i ==> #[trigger] gs@[k].key@ != key@,
        decreases gs.len() - i,
    {
        if same(gs[i].key.as_str(), key) {
            return i;
        }
        i = i + 1;
    }
    i
}

/// The request that cancels a goal: `{"goal_info": {"goal_id": uuid, "stamp": {"sec": 0, "nanosec": 0}}}`.
pub open spec fn cancel_request(uuid: JsonV) -> JsonV {
    JsonV::Object(seq![(
        "goal_info"@,
        JsonV::Object(seq![
            ("goal_id"@, uuid),
            ("stamp"@, JsonV::Object(seq![("sec"@, JsonV::UInt(0)), ("nanosec"@, JsonV::UInt(0))])),
        ]),
    )])
}

pub fn cancel_info(uuid: &Json) -> (r: Json)
    ensures
        r@ == cancel_request(uuid@),
{
    let stamp = Json::object().member("sec", Json::UInt(0)).member("nanosec", Json::UInt(0));
    assert(stamp@.members() =~= seq![("sec"@, JsonV::UInt(0)), ("nanosec"@, JsonV::UInt(0))]);
    let ghost sv = stamp@;
    let id = uuid.copy();
    let ghost iv = id@;
    let info = Json::object().member("goal_id", id).member("stamp", stamp);
    assert(info@.members() =~= seq![("goal_id"@, iv), ("stamp"@, sv)]);
    let ghost fv = info@;
    let r = Json::object().member("goal_info", info);
    assert(r@.members() =~= seq![("goal_info"@, fv)]);
    r
}

/// The stamp `(sec, nanosec)` of a goal info's stamp object, zero where missing.
pub open spec fn stamp_of(stamp: JsonV) -> (i64, u64) {
    (
        match stamp.signed_at("sec"@) { Some(s) => s, None => 0 },
        match stamp.unsigned_at("nanosec"@) { Some(n) => n, None => 0 },
    )
}

fn stamp_pair(stamp: &Json) -> (r: (i64, u64))
    ensures
        r == stamp_of(stamp@),
{
    let sec = match stamp.i64_at("sec") {
        Some(s) => s,
        None => 0,
    };
    let nanosec = match stamp.u64_at("nanosec") {
        Some(n) => n,
        None => 0,
    };
    (sec, nanosec)
}

/// Whether `(a0, a1)` comes no later than `(b0, b1)`.
fn no_later(a: (i64, u64), b: (i64, u64)) -> (r: bool)
    ensures
        r == (a.0 < b.0 || (a.0 == b.0 && a.1 <= b.1)),
{
    a.0 < b.0 || (a.0 == b.0 && a.1 <= b.1)
}

/// The five entities that a goal request asks for, under `<action>/_action/`:
/// clients for its send-goal, get-result and cancel-goal services, and
/// subscriptions to its feedback and status topics, typed from action type `typ`.
pub open spec fn goal_entities_asked(action: Seq<char>, typ: Seq<char>) -> Seq<(Seq<char>, Seq<char>)> {
    let base = action + "/_action/"@;
    seq![
        (base + "send_goal"@, typ + "_SendGoal"@),
        (base + "get_result"@, typ + "_GetResult"@),
        (base + "cancel_goal"@, "action_msgs/srv/CancelGoal"@),
        (base + "feedback"@, typ + "_FeedbackMessage"@),
        (base + "status"@, "action_msgs/msg/GoalStatusArray"@),
    ]
}

/// The arguments of goal request `v`, or an empty object.
pub open spec fn goal_args(v: JsonV) -> JsonV {
    match v.field("args"@) {
        Some(a) => a,
        None => JsonV::Object(Seq::empty()),
    }
}

/// The request that sends goal `uuid` of request `v` to the action server.
pub open spec fn goal_request_json(uuid: JsonV, v: JsonV) -> JsonV {
    JsonV::Object(seq![("goal_id"@, uuid), ("goal"@, goal_args(v))])
}

/// A request id as text.
pub open spec fn id_text(id: Option<String>) -> Option<Seq<char>> {
    match id {
        Some(s) => Some(s@),
        None => None,
    }
}

/// Why a goal request `v` of a client is refused before anything is asked
/// of ROS, as far as its action, type and id tell.
pub open spec fn goal_refusal(v: JsonV, a: crate::access::AccessV) -> Option<Seq<char>> {
    match name_of(v, "action"@) {
        Err(m) => Some(m),
        Ok(n) => match action_check(a, n, false) {
            Err(m) => Some(m),
            Ok(_) => match required_of(v, "action_type"@) {
                None => Some("action_type"@ + " must be a nonempty string"@),
                Some(t) => match crate::backend::spec_interface_name(t, "action"@) {
                    None => Some(crate::backend::interface_error(t, "action"@)),
                    Some(_) => match id_of(v) {
                        Err(m) => Some(m),
                        Ok(_) => None,
                    },
                },
            },
        },
    }
}

/// Whether `owner` already has a goal of `action` with request id `id`.
pub open spec fn goal_active(gs: Seq<ClientGoal>, owner: Connection, action: Seq<char>, id: Option<Seq<char>>) -> bool {
    exists|k: int| 0 <= k < gs.len() && #[trigger] gs[k].owner == owner && gs[k].action@ == action && id_text(gs[k].id) == id
}

/// Whether a `feedback` member is there and not a boolean.
pub open spec fn bad_feedback(v: JsonV) -> bool {
    v.field("feedback"@) matches Some(f) && !(f is Bool)
}

/// Whether `b` holds what a refused goal request leaves alone.
pub open spec fn goal_untouched<B: Backend, W: Writer>(b: &Bridge<B, W>, a: &Bridge<B, W>) -> bool {
    &&& b.backend == a.backend
    &&& b.goals == a.goals
    &&& b.action_calls == a.action_calls
    &&& b.destroyed() == a.destroyed()
}

impl<B: Backend, W: Writer> Bridge<B, W> {
    /// Sends an action goal for `owner` through five new entities; the goal
    /// must be accepted before the bridge's timeout.
    pub(super) fn send_goal(&mut self, owner: Connection, v: &Json, now: u64) -> (r: Result<(), Error>)
        ensures
            old(self).wf() ==> final(self).wf(),
            final(self).publishers == old(self).publishers,
            final(self).subscriptions == old(self).subscriptions,
            final(self).services == old(self).services,
            final(self).calls == old(self).calls,
            final(self).external == old(self).external,
            final(self).action_servers == old(self).action_servers,
            final(self).server_goals == old(self).server_goals,
            final(self).access == old(self).access,
            final(self).timeout == old(self).timeout,
            final(self).sent@ == old(self).sent@,
            final(self).outputs@ == old(self).outputs@,
            final(self).failed@ == old(self).failed@,
            (match name_of(v@, "action"@) {
                Ok(n) => action_check(old(self).access@, n, false) matches Err(m) ==> r matches Err(e) && e.message@ == m
                    && final(self).backend == old(self).backend && final(self).goals == old(self).goals
                    && final(self).action_calls == old(self).action_calls,
                Err(_) => true,
            }),
            goal_refusal(v@, old(self).access@) matches Some(m) ==> (r matches Err(e) && e.message@ == m) && goal_untouched(final(self), old(self)),
            goal_refusal(v@, old(self).access@) is None && spec_options(v@) is None ==> r is Err && goal_untouched(final(self), old(self)),
            goal_refusal(v@, old(self).access@) is None && spec_options(v@) is Some
                && goal_active(old(self).goals@, owner, name_of(v@, "action"@)->Ok_0, id_of(v@)->Ok_0)
                ==> (r matches Err(e) && e.message@ == "goal id is already active"@) && goal_untouched(final(self), old(self)),
            goal_refusal(v@, old(self).access@) is None && spec_options(v@) is Some
                && !goal_active(old(self).goals@, owner, name_of(v@, "action"@)->Ok_0, id_of(v@)->Ok_0) && bad_feedback(v@)
                ==> (r matches Err(e) && e.message@ == "feedback must be boolean"@) && goal_untouched(final(self), old(self)),
            r is Ok ==> goal_refusal(v@, old(self).access@) is None && spec_options(v@) is Some
                && !goal_active(old(self).goals@, owner, name_of(v@, "action"@)->Ok_0, id_of(v@)->Ok_0) && !bad_feedback(v@),
            r is Err && final(self).created().len() > old(self).created().len()
                ==> final(self).destroyed() == old(self).destroyed() + final(self).created().skip(old(self).created().len() as int),
            r is Ok ==> {
                let g = final(self).goals@.last();
                let action = name_of(v@, "action"@)->Ok_0;
                let typ = crate::backend::spec_interface_name(required_of(v@, "action_type"@)->Some_0, "action"@)->Some_0;
                &&& final(self).asked() == old(self).asked() + goal_entities_asked(action, typ)
                &&& final(self).created() == old(self).created() + seq![g.send, g.result, g.cancel, g.feedback_sub, g.status_sub]
                &&& final(self).requested() == old(self).requested().push((g.send, goal_request_json(g.uuid@, v@)))
                &&& g.feedback == (v@.boolean_at("feedback"@) == Some(true))
                &&& uuid_key_of(g.uuid@) == Ok::<Seq<char>, Seq<char>>(g.key@)
                &&& final(self).goals@.len() > 0
                &&& (if has_goal(old(self).goals@, g.key@) {
                    forall|i: int| #[trigger] first_goal(old(self).goals@, g.key@, i) ==> final(self).goals@.drop_last() == old(self).goals@.remove(i)
                } else {
                    final(self).goals@.drop_last() == old(self).goals@
                })
                &&& g.owner == owner
                &&& g.action@ == name_of(v@, "action"@)->Ok_0
                &&& id_text(g.id) == id_of(v@)->Ok_0
                &&& Some(g.options) == spec_options(v@)
                &&& !g.accepted
                &&& !g.cancelling
                &&& g.acceptance_deadline == super::saturated(now, old(self).timeout)
                &&& final(self).action_calls@.len() == old(self).action_calls@.len() + 1
                &&& final(self).action_calls@.drop_last() == old(self).action_calls@
                &&& final(self).action_calls@.last().entity == g.send
                &&& final(self).action_calls@.last().call matches ActionCall::Send(k) && k@ == g.key@
                &&& final(self).destroyed() == old(self).destroyed()
            },
    {
        let action = name(v, "action")?;
        self.access.action(action.as_str(), false)?;
        let typ = interface_name(required(v, "action_type")?, "action")?;
        let request_id = id(v)?;
        assert(goal_refusal(v@, old(self).access@) is None);
        assert(id_text(request_id) == id_of(v@)->Ok_0);
        let options = Options::parse(v)?;
        let mut k: usize = 0;
        while k < self.goals.len()
            invariant
                k <= self.goals@.len(),
                self.goals == old(self).goals,
                self.backend == old(self).backend,
                self.action_calls == old(self).action_calls,
                self.destroyed() == old(self).destroyed(),
                name_of(v@, "action"@) == Ok::<Seq<char>, Seq<char>>(action@),
                action_check(old(self).access@, action@, false) is Ok,
                id_text(request_id) == id_of(v@)->Ok_0,
                goal_refusal(v@, old(self).access@) is None,
                forall|j: int| 0 <= j < k ==> !(#[trigger] self.goals@[j].owner == owner && self.goals@[j].action@ == action@
                    && id_text(self.goals@[j].id) == id_text(request_id)),
            decreases self.goals.len() - k,
        {
            if self.goals[k].owner == owner && same(self.goals[k].action.as_str(), action.as_str())
                && same_id(&self.goals[k].id, &request_id) {
                assert(self.goals@[k as int].owner == owner && self.goals@[k as int].action@ == action@
                    && id_text(self.goals@[k as int].id) == id_text(request_id));
                return Err(Error::new("goal id is already active"));
            }
            k = k + 1;
        }
        assert(!goal_active(old(self).goals@, owner, action@, id_text(request_id))) by {
            if goal_active(old(self).goals@, owner, action@, id_text(request_id)) {
                let j = choose|j: int| 0 <= j < old(self).goals@.len() && #[trigger] old(self).goals@[j].owner == owner
                    && old(self).goals@[j].action@ == action@ && id_text(old(self).goals@[j].id) == id_text(request_id);
                assert(!(self.goals@[j].owner == owner && self.goals@[j].action@ == action@
                    && id_text(self.goals@[j].id) == id_text(request_id)));
            }
        }
        let feedback = match v.get("feedback") {
            Some(f) => match f.as_bool() {
                Some(b) => b,
                None => return Err(Error::new("feedback must be boolean")),
            },
            None => false,
        };
        let bytes = super::random_uuid();
        let mut items: Vec<Json> = Vec::new();
        let mut b: usize = 0;
        while b < bytes.len()
            invariant
                b <= bytes@.len(),
            decreases bytes.len() - b,
        {
            items.push(Json::UInt(bytes[b] as u64));
            b = b + 1;
        }
        let uuid = Json::object().member("uuid", Json::Array(items));
        let key = uuid_key(&uuid)?;
        let base = concat(action.as_str(), "/_action/");
        let ghost c0 = self.created();
        let ghost a0 = self.asked();
        let ghost r0 = self.requested();
        assert(c0 == old(self).created() && a0 == old(self).asked() && r0 == old(self).requested());
        assert(self.destroyed() == old(self).destroyed());
        let send = self.new_client(concat(base.as_str(), "send_goal").as_str(), concat(typ.as_str(), "_SendGoal").as_str())?;
        let result = match self.new_client(concat(base.as_str(), "get_result").as_str(), concat(typ.as_str(), "_GetResult").as_str()) {
            Ok(e) => e,
            Err(e) => {
                self.backend.destroy(send);
                proof {
                    crate::backend::lemma_handed(self.backend.handed()@);
                }
                assert(self.destroyed() =~= old(self).destroyed() + self.created().skip(c0.len() as int));
                return Err(e);
            },
        };
        let cancel = match self.new_client(concat(base.as_str(), "cancel_goal").as_str(), "action_msgs/srv/CancelGoal") {
            Ok(e) => e,
            Err(e) => {
                self.backend.destroy(send);
                proof {
                    crate::backend::lemma_handed(self.backend.handed()@);
                }
                self.backend.destroy(result);
                proof {
                    crate::backend::lemma_handed(self.backend.handed()@);
                }
                assert(self.destroyed() =~= old(self).destroyed() + self.created().skip(c0.len() as int));
                return Err(e);
            },
        };
        let feedback_sub = match self.new_subscription(
            concat(base.as_str(), "feedback").as_str(),
            concat(typ.as_str(), "_FeedbackMessage").as_str(),
            Qos::service(),
        ) {
            Ok(e) => e,
            Err(e) => {
                self.backend.destroy(send);
                proof {
                    crate::backend::lemma_handed(self.backend.handed()@);
                }
                self.backend.destroy(result);
                proof {
                    crate::backend::lemma_handed(self.backend.handed()@);
                }
                self.backend.destroy(cancel);
                proof {
                    crate::backend::lemma_handed(self.backend.handed()@);
                }
                assert(self.destroyed() =~= old(self).destroyed() + self.created().skip(c0.len() as int));
                return Err(e);
            },
        };
        let mut q = Qos::service();
        q.durability = 1;
        let status_sub = match self.new_subscription(concat(base.as_str(), "status").as_str(), "action_msgs/msg/GoalStatusArray", q) {
            Ok(e) => e,
            Err(e) => {
                self.backend.destroy(send);
                proof {
                    crate::backend::lemma_handed(self.backend.handed()@);
                }
                self.backend.destroy(result);
                proof {
                    crate::backend::lemma_handed(self.backend.handed()@);
                }
                self.backend.destroy(cancel);
                proof {
                    crate::backend::lemma_handed(self.backend.handed()@);
                }
                self.backend.destroy(feedback_sub);
                proof {
                    crate::backend::lemma_handed(self.backend.handed()@);
                }
                assert(self.destroyed() =~= old(self).destroyed() + self.created().skip(c0.len() as int));
                return Err(e);
            },
        };
        let args = match v.get("args") {
            Some(a) => a.copy(),
            None => Json::object(),
        };
        let request = Json::object().member("goal_id", uuid.copy()).member("goal", args);
        proof {
            if let JsonV::Object(m) = request@ {
                assert(m =~= seq![("goal_id"@, uuid@), ("goal"@, goal_args(v@))]);
            }
        }
        let sequence = match self.new_request(send, &request) {
            Ok(s) => s,
            Err(e) => {
                self.backend.destroy(send);
                proof {
                    crate::backend::lemma_handed(self.backend.handed()@);
                }
                self.backend.destroy(result);
                proof {
                    crate::backend::lemma_handed(self.backend.handed()@);
                }
                self.backend.destroy(cancel);
                proof {
                    crate::backend::lemma_handed(self.backend.handed()@);
                }
                self.backend.destroy(feedback_sub);
                proof {
                    crate::backend::lemma_handed(self.backend.handed()@);
                }
                self.backend.destroy(status_sub);
                proof {
                    crate::backend::lemma_handed(self.backend.handed()@);
                }
                assert(self.destroyed() =~= old(self).destroyed() + self.created().skip(c0.len() as int));
                return Err(e);
            },
        };
        self.action_calls.push(GoalRequest { entity: send, sequence, call: ActionCall::Send(owned(key.as_str())) });
        let ghost before = self.goals@;
        let i = goal_index(&self.goals, key.as_str());
        if i < self.goals.len() {
            self.goals.remove(i);
            proof {
                assert forall|b: int| #[trigger] first_goal(before, key@, b) implies self.goals@ == before.remove(b) by {
                    if b < i {
                        assert(before[b].key@ != key@);
                    } else if b > i {
                        assert(before[i as int].key@ != key@);
                    }
                }
                assert(has_goal(before, key@));
            }
        } else {
            assert(!has_goal(before, key@)) by {
                if has_goal(before, key@) {
                    let j = choose|j: int| 0 <= j < before.len() && before[j].key@ == key@;
                    assert(before[j].key@ != key@);
                }
            }
        }
        let ghost trimmed = self.goals@;
        self.goals.push(ClientGoal {
            key,
            owner,
            id: request_id,
            action,
            uuid,
            feedback,
            options,
            send,
            result,
            cancel,
            feedback_sub,
            status_sub,
            accepted: false,
            acceptance_deadline: now.saturating_add(self.timeout),
            cancelling: false,
        });
        assert(self.goals@.drop_last() =~= trimmed);
        assert(self.asked() =~= old(self).asked() + goal_entities_asked(action@, typ@));
        assert(self.created() =~= old(self).created() + seq![send, result, cancel, feedback_sub, status_sub]);
        Ok(())
    }

    /// Asks ROS to cancel `owner`'s accepted goal with the request's id.
    pub(super) fn cancel_goal(&mut self, owner: Connection, v: &Json) -> (r: Result<(), Error>)
        ensures
            old(self).wf() ==> final(self).wf(),
            final(self).publishers == old(self).publishers,
            final(self).subscriptions == old(self).subscriptions,
            final(self).services == old(self).services,
            final(self).calls == old(self).calls,
            final(self).external == old(self).external,
            final(self).action_servers == old(self).action_servers,
            final(self).server_goals == old(self).server_goals,
            final(self).access == old(self).access,
            final(self).timeout == old(self).timeout,
            final(self).sent@ == old(self).sent@,
            final(self).outputs@ == old(self).outputs@,
            final(self).failed@ == old(self).failed@,
            cancel_refusal(old(self).goals@, owner, v@) matches Some(m) ==> (r matches Err(e) && e.message@ == m)
                && final(self).goals == old(self).goals && final(self).action_calls == old(self).action_calls,
            r is Ok ==> cancel_refusal(old(self).goals@, owner, v@) is None
                && final(self).action_calls@.len() == old(self).action_calls@.len() + 1
                && final(self).action_calls@.last().call is Cancel,
    {
        let action = name(v, "action")?;
        let goal_id = required(v, "id")?;
        let mut i: usize = 0;
        while i < self.goals.len()
            invariant
                i <= self.goals@.len(),
                forall|k: int| 0 <= k < i ==> !client_goal_matches(#[trigger] self.goals@[k], owner, action@, goal_id@),
            ensures
                i <= self.goals@.len(),
                forall|k: int| 0 <= k < i ==> !client_goal_matches(#[trigger] self.goals@[k], owner, action@, goal_id@),
                i < self.goals@.len() ==> client_goal_matches(self.goals@[i as int], owner, action@, goal_id@),
            decreases self.goals.len() - i,
        {
            let g = &self.goals[i];
            let matches_id = match &g.id {
                Some(s) => same(s.as_str(), goal_id),
                None => false,
            };
            if g.owner == owner && same(g.action.as_str(), action.as_str()) && matches_id {
                break;
            }
            i = i + 1;
        }
        proof {
            if i < self.goals.len() {
                assert(first_client_goal(self.goals@, owner, action@, goal_id@, i as int));
                let j = choose|j: int| first_client_goal(self.goals@, owner, action@, goal_id@, j);
                if j < i {
                    assert(!client_goal_matches(self.goals@[j], owner, action@, goal_id@));
                } else if i < j {
                    assert(!client_goal_matches(self.goals@[i as int], owner, action@, goal_id@));
                }
            } else {
                assert(!(exists|j: int| first_client_goal(self.goals@, owner, action@, goal_id@, j)));
            }
        }
        if i == self.goals.len() {
            return Err(Error::new("unknown active goal"));
        }
        if self.goals[i].cancelling {
            return Err(Error::new("goal cancellation is already in progress"));
        }
        if !self.goals[i].accepted {
            return Err(Error::new("goal is not accepted yet"));
        }
        let request = cancel_info(&self.goals[i].uuid);
        let sequence = self.new_request(self.goals[i].cancel, &request)?;
        let mut g = self.goals.remove(i);
        g.cancelling = true;
        let entity = g.cancel;
        let key = owned(g.key.as_str());
        self.goals.insert(i, g);
        self.action_calls.push(GoalRequest { entity, sequence, call: ActionCall::Cancel(key) });
        Ok(())
    }

    /// Ends client goal `key`: its client is answered with the result, its
    /// entities are destroyed, and its pending requests are forgotten.
    pub(super) fn finish_goal(&mut self, key: &str, values: Json, status: i64, success: bool)
        ensures
            final(self).publishers == old(self).publishers,
            final(self).subscriptions == old(self).subscriptions,
            final(self).services == old(self).services,
            final(self).calls == old(self).calls,
            final(self).external == old(self).external,
            final(self).action_servers == old(self).action_servers,
            final(self).server_goals == old(self).server_goals,
            final(self).access == old(self).access,
            final(self).timeout == old(self).timeout,
            super::same_ids(final(self).outputs@, old(self).outputs@),
            within(super::goal_owners(final(self).goals@), super::goal_owners(old(self).goals@)),
            within(final(self).goals@, old(self).goals@),
            final(self).goals@.len() <= old(self).goals@.len(),
            has_goal(old(self).goals@, key@) ==> final(self).goals@.len() < old(self).goals@.len(),
            super::starts_with(final(self).failed@, old(self).failed@),
            final(self).responses() == old(self).responses(),
            !has_goal(old(self).goals@, key@) ==> final(self).sent == old(self).sent && final(self).destroyed() == old(self).destroyed(),
            super::starts_with(final(self).destroyed(), old(self).destroyed()),
            goal_finished(old(self), final(self), key@, values@, status, success),
            super::distinct_goals(old(self).goals@) ==> super::distinct_goals(final(self).goals@),
            forall|i: int| #[trigger] first_goal(old(self).goals@, key@, i) ==> {
                let g = old(self).goals@[i];
                &&& final(self).goals@ == old(self).goals@.remove(i)
                &&& final(self).destroyed() == old(self).destroyed() + goal_entities(g)
                &&& final(self).sent@ == if connected(old(self).outputs@, g.owner) {
                    old(self).sent@.push((g.owner, with_id(goal_result_message(g.action@, values@, status, success), g.id)))
                } else {
                    old(self).sent@
                }
            },
    {
        proof {
            lemma_within_refl(super::goal_owners(self.goals@));
            lemma_within_refl(self.goals@);
        }
        let i = goal_index(&self.goals, key);
        if i == self.goals.len() {
            assert(!has_goal(old(self).goals@, key@)) by {
                if has_goal(old(self).goals@, key@) {
                    let j = choose|j: int| 0 <= j < old(self).goals@.len() && old(self).goals@[j].key@ == key@;
                    assert(old(self).goals@[j].key@ != key@);
                }
            }
            return;
        }
        assert(forall|b: int| #[trigger] first_goal(old(self).goals@, key@, b) ==> b == i) by {
            assert forall|b: int| #[trigger] first_goal(old(self).goals@, key@, b) implies b == i by {
                if b < i {
                    assert(old(self).goals@[b].key@ != key@);
                } else if b > i {
                    assert(old(self).goals@[i as int].key@ != key@);
                }
            }
        }
        let ghost values0 = values@;
        let ghost before = self.goals@;
        let g = self.goals.remove(i);
        proof {
            if super::distinct_goals(before) {
                super::lemma_distinct_goals_remove(before, i as int);
            }
            let ob = super::goal_owners(before);
            lemma_within_remove(ob, ob, i as int);
            assert(super::goal_owners(self.goals@) =~= ob.remove(i as int));
            lemma_within_remove(before, before, i as int);
        }
        let response = Json::object()
            .member("op", Json::string("action_result"))
            .member("action", Json::string(g.action.as_str()))
            .member("values", values)
            .member("status", int_value(status))
            .member("result", Json::Bool(success));
        proof {
            if let JsonV::Object(m) = response@ {
                assert(m =~= seq![
                    ("op"@, JsonV::Str("action_result"@)),
                    ("action"@, JsonV::Str(g.action@)),
                    ("values"@, values0),
                    ("status"@, int_json(status)),
                    ("result"@, JsonV::Bool(success)),
                ]);
            }
        }
        self.send(g.owner, response, &g.id, &g.options, None, None);
        self.backend.destroy(g.send);
        proof {
            crate::backend::lemma_handed(self.backend.handed()@);
        }
        self.backend.destroy(g.result);
        proof {
            crate::backend::lemma_handed(self.backend.handed()@);
        }
        self.backend.destroy(g.cancel);
        proof {
            crate::backend::lemma_handed(self.backend.handed()@);
        }
        self.backend.destroy(g.feedback_sub);
        proof {
            crate::backend::lemma_handed(self.backend.handed()@);
        }
        self.backend.destroy(g.status_sub);
        proof {
            crate::backend::lemma_handed(self.backend.handed()@);
        }
        assert(self.destroyed() =~= old(self).destroyed() + goal_entities(g));
        let ghost mid = *self;
        let mut k: usize = 0;
        while k < self.action_calls.len()
            invariant
                k <= self.action_calls@.len(),
                self.sent == mid.sent,
                self.destroyed() == mid.destroyed(),
                self.responses() == mid.responses(),
                self.publishers == mid.publishers,
                self.subscriptions == mid.subscriptions,
                self.services == mid.services,
                self.calls == mid.calls,
                self.external == mid.external,
                self.action_servers == mid.action_servers,
                self.server_goals == mid.server_goals,
                self.goals == mid.goals,
                self.access == mid.access,
                self.timeout == mid.timeout,
                self.outputs@ == mid.outputs@,
                self.failed@ == mid.failed@,
            decreases self.action_calls.len() - k,
        {
            let hit = match &self.action_calls[k].call {
                ActionCall::Send(x) => same(x.as_str(), key),
                ActionCall::Result(x) => same(x.as_str(), key),
                ActionCall::Cancel(x) => same(x.as_str(), key),
            };
            if hit {
                self.action_calls.remove(k);
            } else {
                k = k + 1;
            }
        }
    }
}

/// Whether `i` is the first client goal kept under `key`.
pub open spec fn first_goal(gs: Seq<ClientGoal>, key: Seq<char>, i: int) -> bool {
    &&& 0 <= i < gs.len()
    &&& gs[i].key@ == key
    &&& forall|k: int| 0 <= k < i ==> #[trigger] gs[k].key@ != key
}

/// The result that ends a client goal of action `action`.
pub open spec fn goal_result_message(action: Seq<char>, values: JsonV, status: i64, success: bool) -> JsonV {
    JsonV::Object(seq![
        ("op"@, JsonV::Str("action_result"@)),
        ("action"@, JsonV::Str(action)),
        ("values"@, values),
        ("status"@, int_json(status)),
        ("result"@, JsonV::Bool(success)),
    ])
}

/// The five entities of a client goal.
pub open spec fn goal_entities(g: ClientGoal) -> Seq<Entity> {
    seq![g.send, g.result, g.cancel, g.feedback_sub, g.status_sub]
}

/// What ending client goal `key` with `values`, `status` and `success` does:
/// its client gets the `action_result`, its five entities are destroyed, and
/// it is forgotten; nothing else changes that the other stages rely on.
pub open spec fn goal_finished<B: Backend, W: Writer>(old: &Bridge<B, W>, new: &Bridge<B, W>, key: Seq<char>, values: JsonV, status: i64, success: bool) -> bool {
    &&& new.calls == old.calls
    &&& new.external == old.external
    &&& new.subscriptions == old.subscriptions
    &&& new.server_goals == old.server_goals
    &&& new.access == old.access
    &&& new.timeout == old.timeout
    &&& new.responses() == old.responses()
    &&& super::same_ids(new.outputs@, old.outputs@)
    &&& super::starts_with(new.failed@, old.failed@)
    &&& forall|i: int| #[trigger] first_goal(old.goals@, key, i) ==> {
        let g = old.goals@[i];
        &&& new.goals@ == old.goals@.remove(i)
        &&& new.destroyed() == old.destroyed() + goal_entities(g)
        &&& new.sent@ == if connected(old.outputs@, g.owner) {
            old.sent@.push((g.owner, with_id(goal_result_message(g.action@, values, status, success), g.id)))
        } else {
            old.sent@
        }
    }
}

/// Whether a client goal `key` exists.
pub open spec fn has_goal(gs: Seq<ClientGoal>, key: Seq<char>) -> bool {
    exists|i: int| 0 <= i < gs.len() && gs[i].key@ == key
}

/// A JSON integer.
pub fn int_value(n: i64) -> (r: Json)
    ensures
        n >= 0 ==> r@ == JsonV::UInt(n as u64),
        n < 0 ==> r@ == JsonV::Int(n),
{
    if n >= 0 {
        Json::UInt(n as u64)
    } else {
        Json::Int(n)
    }
}

impl<B: Backend, W: Writer> Bridge<B, W> {
    /// Offers a client's action on ROS through three services and two
    /// publishers; offering it again with another type replaces it.
    pub(super) fn advertise_action(&mut self, owner: Connection, v: &Json) -> (r: Result<(), Error>)
        ensures
            old(self).wf() ==> final(self).wf(),
            final(self).publishers == old(self).publishers,
            final(self).subscriptions == old(self).subscriptions,
            final(self).services == old(self).services,
            final(self).calls == old(self).calls,
            final(self).external == old(self).external,
            final(self).goals == old(self).goals,
            final(self).action_calls == old(self).action_calls,
            final(self).access == old(self).access,
            final(self).timeout == old(self).timeout,
            final(self).sent@ == old(self).sent@,
            final(self).outputs@ == old(self).outputs@,
            final(self).failed@ == old(self).failed@,
            (match name_of(v@, "action"@) {
                Ok(n) => action_check(old(self).access@, n, true) matches Err(m) ==> r matches Err(e) && e.message@ == m
                    && final(self).backend == old(self).backend && final(self).action_servers == old(self).action_servers
                    && final(self).server_goals == old(self).server_goals,
                Err(_) => true,
            }),
    {
        let action = name(v, "action")?;
        self.access.action(action.as_str(), true)?;
        let advertised = required(v, "type")?;
        let typ = interface_name(advertised, "action")?;
        let i = server_index(&self.action_servers, action.as_str());
        if i < self.action_servers.len() {
            if self.action_servers[i].owner != owner {
                return Err(Error::new("action is advertised by another client"));
            }
            if same(self.action_servers[i].typ.as_str(), typ.as_str()) {
                return Ok(());
            }
            self.remove_action(owner, action.as_str())?;
        }
        let ghost listed = self.action_servers@;
        let ghost n = action@;
        assert(old(self).wf() ==> forall|k: int| 0 <= k < listed.len() ==> #[trigger] listed[k].name@ != n);
        let base = concat(action.as_str(), "/_action/");
        let send = self.new_service(concat(base.as_str(), "send_goal").as_str(), concat(typ.as_str(), "_SendGoal").as_str())?;
        let result = match self.new_service(concat(base.as_str(), "get_result").as_str(), concat(typ.as_str(), "_GetResult").as_str()) {
            Ok(e) => e,
            Err(e) => {
                self.backend.destroy(send);
                proof {
                    crate::backend::lemma_handed(self.backend.handed()@);
                }
                return Err(e);
            },
        };
        let cancel = match self.new_service(concat(base.as_str(), "cancel_goal").as_str(), "action_msgs/srv/CancelGoal") {
            Ok(e) => e,
            Err(e) => {
                self.backend.destroy(send);
                proof {
                    crate::backend::lemma_handed(self.backend.handed()@);
                }
                self.backend.destroy(result);
                proof {
                    crate::backend::lemma_handed(self.backend.handed()@);
                }
                return Err(e);
            },
        };
        let feedback = match self.new_publisher(
            concat(base.as_str(), "feedback").as_str(),
            concat(typ.as_str(), "_FeedbackMessage").as_str(),
            Qos::service(),
        ) {
            Ok(e) => e,
            Err(e) => {
                self.backend.destroy(send);
                proof {
                    crate::backend::lemma_handed(self.backend.handed()@);
                }
                self.backend.destroy(result);
                proof {
                    crate::backend::lemma_handed(self.backend.handed()@);
                }
                self.backend.destroy(cancel);
                proof {
                    crate::backend::lemma_handed(self.backend.handed()@);
                }
                return Err(e);
            },
        };
        let mut q = Qos::service();
        q.durability = 1;
        q.depth = 1;
        let status = match self.new_publisher(concat(base.as_str(), "status").as_str(), "action_msgs/msg/GoalStatusArray", q) {
            Ok(e) => e,
            Err(e) => {
                self.backend.destroy(send);
                proof {
                    crate::backend::lemma_handed(self.backend.handed()@);
                }
                self.backend.destroy(result);
                proof {
                    crate::backend::lemma_handed(self.backend.handed()@);
                }
                self.backend.destroy(cancel);
                proof {
                    crate::backend::lemma_handed(self.backend.handed()@);
                }
                self.backend.destroy(feedback);
                proof {
                    crate::backend::lemma_handed(self.backend.handed()@);
                }
                return Err(e);
            },
        };
        let ghost before = self.action_servers@;
        self.action_servers.push(ActionServer {
            name: action,
            owner,
            advertised_type: owned(advertised),
            typ,
            send,
            cancel,
            result,
            feedback,
            status,
        });
        proof {
            if old(self).wf() {
                assert forall|a: int, b: int| 0 <= a < b < self.action_servers@.len() implies #[trigger] self.action_servers@[a].name@ != #[trigger] self.action_servers@[b].name@ by {
                    assert(self.action_servers@[a] == before[a]);
                    if b < before.len() {
                        assert(self.action_servers@[b] == before[b]);
                    }
                }
            }
        }
        Ok(())
    }

    /// Withdraws action server `i`: its goals' waiting result requests are
    /// answered as aborted, and its entities are destroyed.
    pub(super) fn remove_action_at(&mut self, i: usize)
        requires
            i < old(self).action_servers@.len(),
        ensures
            final(self).publishers == old(self).publishers,
            final(self).subscriptions == old(self).subscriptions,
            final(self).services == old(self).services,
            final(self).calls == old(self).calls,
            final(self).external == old(self).external,
            final(self).goals == old(self).goals,
            final(self).action_calls == old(self).action_calls,
            final(self).access == old(self).access,
            final(self).timeout == old(self).timeout,
            final(self).sent@ == old(self).sent@,
            final(self).outputs@ == old(self).outputs@,
            final(self).failed@ == old(self).failed@,
            final(self).action_servers@ == old(self).action_servers@.remove(i as int),
            super::starts_with(final(self).destroyed(), old(self).destroyed()),
            super::distinct_server_goals(old(self).server_goals@) ==> super::distinct_server_goals(final(self).server_goals@),
    {
        let ghost start = *self;
        let action = owned(self.action_servers[i].name.as_str());
        let mut k: usize = 0;
        while k < self.server_goals.len()
            invariant
                k <= self.server_goals@.len(),
                self.publishers == start.publishers,
                self.subscriptions == start.subscriptions,
                self.services == start.services,
                self.calls == start.calls,
                self.external == start.external,
                self.goals == start.goals,
                self.action_calls == start.action_calls,
                self.action_servers == start.action_servers,
                self.access == start.access,
                self.timeout == start.timeout,
                self.sent@ == start.sent@,
                self.outputs@ == start.outputs@,
                self.failed@ == start.failed@,
                self.destroyed() == start.destroyed(),
                super::distinct_server_goals(start.server_goals@) ==> super::distinct_server_goals(self.server_goals@),
            decreases self.server_goals.len() - k,
        {
            if same(self.server_goals[k].action.as_str(), action.as_str()) {
                let ghost listed = self.server_goals@;
                let g = self.server_goals.remove(k);
                proof {
                    if super::distinct_server_goals(start.server_goals@) {
                        super::lemma_distinct_server_goals_remove(listed, k as int);
                    }
                }
                let ghost sg = self.server_goals;
                let aborted = Json::object().member("status", Json::UInt(6)).member("result", Json::object());
                let mut j: usize = 0;
                while j < g.requests.len()
                    invariant
                        j <= g.requests@.len(),
                        self.server_goals == sg,
                        k <= sg@.len(),
                        self.publishers == start.publishers,
                        self.subscriptions == start.subscriptions,
                        self.services == start.services,
                        self.calls == start.calls,
                        self.external == start.external,
                        self.goals == start.goals,
                        self.action_calls == start.action_calls,
                        self.action_servers == start.action_servers,
                        self.access == start.access,
                        self.timeout == start.timeout,
                        self.sent@ == start.sent@,
                        self.outputs@ == start.outputs@,
                        self.failed@ == start.failed@,
                        self.destroyed() == start.destroyed(),
                    decreases g.requests.len() - j,
                {
                    let (entity, request) = g.requests[j];
                    let _ = self.backend.respond(entity, request, &aborted);
                    j = j + 1;
                }
            } else {
                k = k + 1;
            }
        }
        let a = self.action_servers.remove(i);
        self.backend.destroy(a.send);
        proof {
            crate::backend::lemma_handed(self.backend.handed()@);
        }
        self.backend.destroy(a.result);
        proof {
            crate::backend::lemma_handed(self.backend.handed()@);
        }
        self.backend.destroy(a.cancel);
        proof {
            crate::backend::lemma_handed(self.backend.handed()@);
        }
        self.backend.destroy(a.feedback);
        proof {
            crate::backend::lemma_handed(self.backend.handed()@);
        }
        self.backend.destroy(a.status);
        proof {
            assert(self.destroyed() =~= old(self).destroyed() + seq![a.send, a.result, a.cancel, a.feedback, a.status]);
        }
    }

    /// Withdraws `owner`'s action server `action`.
    pub(super) fn remove_action(&mut self, owner: Connection, action: &str) -> (r: Result<(), Error>)
        ensures
            old(self).wf() ==> final(self).wf(),
            final(self).publishers == old(self).publishers,
            final(self).subscriptions == old(self).subscriptions,
            final(self).services == old(self).services,
            final(self).calls == old(self).calls,
            final(self).external == old(self).external,
            final(self).goals == old(self).goals,
            final(self).action_calls == old(self).action_calls,
            final(self).access == old(self).access,
            final(self).timeout == old(self).timeout,
            final(self).sent@ == old(self).sent@,
            final(self).outputs@ == old(self).outputs@,
            final(self).failed@ == old(self).failed@,
            within(final(self).action_servers@, old(self).action_servers@),
            r is Ok <==> offers_action(old(self).action_servers@, owner, action@),
            r is Ok ==> final(self).action_servers@.len() == old(self).action_servers@.len() - 1,
            r is Ok && old(self).wf() ==> forall|k: int| 0 <= k < final(self).action_servers@.len() ==> #[trigger] final(self).action_servers@[k].name@ != action@,
            r matches Err(e) ==> e.message@ == "action is not advertised by this client"@
                && final(self).action_servers == old(self).action_servers,
    {
        proof {
            lemma_within_refl(self.action_servers@);
        }
        let i = server_index(&self.action_servers, action);
        proof {
            if offers_action(self.action_servers@, owner, action@) {
                let j = choose|j: int| first_server(self.action_servers@, action@, j) && #[trigger] self.action_servers@[j].owner == owner;
                if j < i {
                    assert(self.action_servers@[j].name@ != action@);
                } else if i < j {
                    assert(self.action_servers@[i as int].name@ != action@);
                }
            }
            if i < self.action_servers.len() && self.action_servers@[i as int].owner == owner {
                assert(first_server(self.action_servers@, action@, i as int));
            }
        }
        if i == self.action_servers.len() || self.action_servers[i].owner != owner {
            return Err(Error::new("action is not advertised by this client"));
        }
        proof {
            lemma_within_remove(self.action_servers@, self.action_servers@, i as int);
        }
        let ghost before = self.action_servers@;
        self.remove_action_at(i);
        proof {
            if old(self).wf() {
                assert forall|k: int| 0 <= k < self.action_servers@.len() implies #[trigger] self.action_servers@[k].name@ != action@ by {
                    if k < i {
                        assert(self.action_servers@[k] == before[k]);
                        assert(before[k].name@ != before[i as int].name@);
                    } else {
                        assert(self.action_servers@[k] == before[k + 1]);
                        assert(before[i as int].name@ != before[k + 1].name@);
                    }
                }
            }
        }
        Ok(())
    }

    /// The position of the server goal `id` of `owner`'s action `action`, or their number.
    fn find_server_goal(&self, owner: Connection, id: &str, action: &str) -> (i: usize)
        ensures
            i <= self.server_goals@.len(),
            i < self.server_goals@.len() ==> self.server_goals@[i as int].owner == owner
                && self.server_goals@[i as int].id@ == id@ && self.server_goals@[i as int].action@ == action@,
            forall|k: int| 0 <= k < i ==> !(#[trigger] self.server_goals@[k].owner == owner
                && self.server_goals@[k].id@ == id@ && self.server_goals@[k].action@ == action@),
            i < self.server_goals@.len() ==> first_server_goal(self.server_goals@, owner, id@, action@, i as int),
            i == self.server_goals@.len() ==> !has_server_goal(self.server_goals@, owner, id@, action@),
    {
        let mut i: usize = 0;
        while i < self.server_goals.len()
            invariant
                i <= self.server_goals@.len(),
                forall|k: int| 0 <= k < i ==> !(#[trigger] self.server_goals@[k].owner == owner
                    && self.server_goals@[k].id@ == id@ && self.server_goals@[k].action@ == action@),
            decreases self.server_goals.len() - i,
        {
            let g = &self.server_goals[i];
            if g.owner == owner && same(g.id.as_str(), id) && same(g.action.as_str(), action) {
                return i;
            }
            i = i + 1;
        }
        i
    }

    /// Publishes a client action server's feedback for one of its goals.
    pub(super) fn action_feedback(&mut self, owner: Connection, v: &Json) -> (r: Result<(), Error>)
        ensures
            old(self).wf() ==> final(self).wf(),
            super::same_tables(final(self), old(self)),
            final(self).access == old(self).access,
            final(self).timeout == old(self).timeout,
            final(self).sent@ == old(self).sent@,
            final(self).outputs@ == old(self).outputs@,
            final(self).failed@ == old(self).failed@,
            feedback_refusal(old(self).server_goals@, old(self).action_servers@, owner, v@) matches Some(m)
                ==> (r matches Err(e) && e.message@ == m),
    {
        let goal_id = required(v, "id")?;
        let action = name(v, "action")?;
        let i = self.find_server_goal(owner, goal_id, action.as_str());
        if i == self.server_goals.len() {
            return Err(Error::new("unknown goal"));
        }
        if self.server_goals[i].result.is_some() {
            return Err(Error::new("goal has completed"));
        }
        let values = match v.get("values") {
            Some(x) => x,
            None => return Err(Error::new("feedback values must be an object")),
        };
        if !values.is_object() {
            return Err(Error::new("feedback values must be an object"));
        }
        let a = server_index(&self.action_servers, action.as_str());
        if a == self.action_servers.len() {
            return Err(Error::new("unknown goal"));
        }
        let message = Json::object().member("goal_id", self.server_goals[i].uuid.copy()).member("feedback", values.copy());
        self.backend.publish(self.action_servers[a].feedback, &message)
    }

    /// Publishes the status list of action `action`'s goals.
    pub(super) fn publish_status(&mut self, action: &str) -> (r: Result<(), Error>)
        ensures
            super::same_tables(final(self), old(self)),
            final(self).access == old(self).access,
            final(self).timeout == old(self).timeout,
            final(self).sent@ == old(self).sent@,
            final(self).outputs@ == old(self).outputs@,
            final(self).failed@ == old(self).failed@,
            final(self).responses() == old(self).responses(),
            final(self).destroyed() == old(self).destroyed(),
            final(self).next == old(self).next,
            final(self).clock() == old(self).clock(),
            !has_server(old(self).action_servers@, action@) ==> (r matches Err(e) && e.message@ == "action is not advertised"@)
                && final(self).published() == old(self).published(),
            status_published(old(self).published(), final(self).published(), old(self).action_servers@, old(self).server_goals@, action@),
    {
        let mut list: Vec<Json> = Vec::new();
        let mut k: usize = 0;
        let ghost gs = self.server_goals@;
        assert(gs.take(0) =~= Seq::<ServerGoal>::empty());
        while k < self.server_goals.len()
            invariant
                k <= self.server_goals@.len(),
                gs == self.server_goals@,
                list@.len() == status_entries(gs.take(k as int), action@).len(),
                forall|j: int| 0 <= j < list@.len() ==> #[trigger] list@[j]@ == status_entries(gs.take(k as int), action@)[j],
            decreases self.server_goals.len() - k,
        {
            let g = &self.server_goals[k];
            assert(gs.take(k + 1).drop_last() =~= gs.take(k as int));
            assert(gs.take(k + 1).last() == gs[k as int]);
            if same(g.action.as_str(), action) {
                let info = Json::object().member("goal_id", g.uuid.copy()).member("stamp", g.stamp.copy());
                let entry = Json::object().member("goal_info", info).member("status", int_value(g.status));
                proof {
                    if let JsonV::Object(m) = info@ {
                        assert(m =~= seq![("goal_id"@, gs[k as int].uuid@), ("stamp"@, gs[k as int].stamp@)]);
                    }
                    if let JsonV::Object(m) = entry@ {
                        assert(m =~= seq![
                            ("goal_info"@, JsonV::Object(seq![("goal_id"@, gs[k as int].uuid@), ("stamp"@, gs[k as int].stamp@)])),
                            ("status"@, int_json(gs[k as int].status)),
                        ]);
                    }
                }
                list.push(entry);
            }
            k = k + 1;
        }
        assert(gs.take(k as int) =~= gs);
        let a = server_index(&self.action_servers, action);
        if a == self.action_servers.len() {
            return Err(Error::new("action is not advertised"));
        }
        let ghost entries = status_entries(gs, action@);
        let arr = Json::Array(list);
        assert(arr@ == JsonV::Array(entries)) by {
            if let JsonV::Array(m) = arr@ {
                assert(m.len() == entries.len());
                assert forall|j: int| 0 <= j < m.len() implies m[j] == entries[j] by {
                    assert(list@[j]@ == entries[j]);
                }
                assert(m =~= entries);
            }
        }
        let message = Json::object().member("status_list", arr);
        proof {
            if let JsonV::Object(m) = message@ {
                assert(m =~= seq![("status_list"@, JsonV::Array(entries))]);
            }
            assert forall|i: int| #[trigger] first_server(old(self).action_servers@, action@, i) implies i == a by {
                if i < a {
                    assert(old(self).action_servers@[i].name@ != action@);
                } else if i > a {
                    assert(old(self).action_servers@[a as int].name@ != action@);
                }
            }
        }
        self.backend.publish(self.action_servers[a].status, &message)
    }

    /// Takes a client action server's result for one of its goals: waiting
    /// result requests are answered, and the result is kept for later ones.
    pub(super) fn action_result(&mut self, owner: Connection, v: &Json, now: u64) -> (r: Result<(), Error>)
        ensures
            old(self).wf() ==> final(self).wf(),
            final(self).publishers == old(self).publishers,
            final(self).subscriptions == old(self).subscriptions,
            final(self).services == old(self).services,
            final(self).calls == old(self).calls,
            final(self).external == old(self).external,
            final(self).goals == old(self).goals,
            final(self).action_calls == old(self).action_calls,
            final(self).action_servers == old(self).action_servers,
            final(self).server_goals@.len() == old(self).server_goals@.len(),
            final(self).access == old(self).access,
            final(self).timeout == old(self).timeout,
            final(self).sent@ == old(self).sent@,
            final(self).outputs@ == old(self).outputs@,
            final(self).failed@ == old(self).failed@,
            result_refusal(old(self).server_goals@, old(self).action_servers@, owner, v@) matches Some(m)
                ==> (r matches Err(e) && e.message@ == m) && final(self).server_goals == old(self).server_goals,
            r is Ok ==> result_refusal(old(self).server_goals@, old(self).action_servers@, owner, v@) is None
                && result_taken(final(self).server_goals@, owner, v@, now),
    {
        let goal_id = required(v, "id")?;
        let action = name(v, "action")?;
        let i = self.find_server_goal(owner, goal_id, action.as_str());
        proof {
            if i < self.server_goals.len() {
                if completed_goal(self.server_goals@, owner, goal_id@, action@) {
                    let j = choose|j: int| first_server_goal(self.server_goals@, owner, goal_id@, action@, j) && #[trigger] self.server_goals@[j].result is Some;
                    if j < i {
                        assert(!goal_matches(self.server_goals@[j], owner, goal_id@, action@));
                    } else if i < j {
                        assert(!goal_matches(self.server_goals@[i as int], owner, goal_id@, action@));
                    }
                }
                if self.server_goals@[i as int].result is Some {
                    assert(first_server_goal(self.server_goals@, owner, goal_id@, action@, i as int));
                }
            }
        }
        if i == self.server_goals.len() {
            return Err(Error::new("unknown goal"));
        }
        if self.server_goals[i].result.is_some() {
            return Err(Error::new("goal has completed"));
        }
        let status = match v.i64_at("status") {
            Some(s) => s,
            None => return Err(Error::new("status must be an integer")),
        };
        if !(4 <= status && status <= 6) {
            return Err(Error::new("result requires terminal action status (4,5,6)"));
        }
        let success = match v.bool_at("result") {
            Some(b) => b,
            None => return Err(Error::new("result must be boolean")),
        };
        let values = if success {
            match v.get("values") {
                Some(x) => {
                    if !x.is_object() {
                        return Err(Error::new("values must be an object"));
                    }
                    x.copy()
                },
                None => return Err(Error::new("values must be an object")),
            }
        } else {
            Json::object()
        };
        let a = server_index(&self.action_servers, action.as_str());
        if a == self.action_servers.len() {
            return Err(Error::new("unknown goal"));
        }
        let response = Json::object().member("status", int_value(status)).member("result", values.copy());
        self.backend.validate_response(self.action_servers[a].result, &response)?;
        let mut g = self.server_goals.remove(i);
        while g.requests.len() > 0
            invariant
                self.server_goals@.len() + 1 == old(self).server_goals@.len(),
                self.publishers == old(self).publishers,
                self.subscriptions == old(self).subscriptions,
                self.services == old(self).services,
                self.calls == old(self).calls,
                self.external == old(self).external,
                self.goals == old(self).goals,
                self.action_calls == old(self).action_calls,
                self.action_servers == old(self).action_servers,
                self.access == old(self).access,
                self.timeout == old(self).timeout,
                self.sent@ == old(self).sent@,
                self.outputs@ == old(self).outputs@,
                self.failed@ == old(self).failed@,
                i <= self.server_goals@.len(),
                i < old(self).server_goals@.len(),
                self.server_goals@ == old(self).server_goals@.remove(i as int),
                g.key == old(self).server_goals@[i as int].key,
                goal_matches(g, owner, goal_id@, action@),
                forall|k: int| 0 <= k < i ==> !goal_matches(#[trigger] old(self).server_goals@[k], owner, goal_id@, action@),
                result_refusal(old(self).server_goals@, old(self).action_servers@, owner, v@) is None,
                v@.signed_at("status"@) == Some(status),
            decreases g.requests@.len(),
        {
            let last = g.requests.len() - 1;
            let (entity, request) = g.requests[last];
            match self.backend.respond(entity, request, &response) {
                Ok(()) => {},
                Err(e) => {
                    let ghost put = g;
                    self.server_goals.insert(i, g);
                    proof {
                        assert(self.server_goals@ =~= old(self).server_goals@.update(i as int, put));
                        if super::distinct_server_goals(old(self).server_goals@) {
                            super::lemma_distinct_server_goals_update(old(self).server_goals@, i as int, put);
                        }
                    }
                    return Err(e);
                },
            }
            g.requests.pop();
        }
        g.status = status;
        g.result = Some(values);
        g.completed = Some(now);
        let ghost before = self.server_goals@;
        let ghost put = g;
        self.server_goals.insert(i, g);
        proof {
            assert(self.server_goals@ =~= old(self).server_goals@.update(i as int, put));
            if super::distinct_server_goals(old(self).server_goals@) {
                super::lemma_distinct_server_goals_update(old(self).server_goals@, i as int, put);
            }
            assert(self.server_goals@[i as int].result is Some && self.server_goals@[i as int].completed == Some(now));
            assert(first_server_goal(self.server_goals@, owner, goal_id@, action@, i as int)) by {
                assert forall|k: int| 0 <= k < i implies !goal_matches(#[trigger] self.server_goals@[k], owner, goal_id@, action@) by {
                    assert(self.server_goals@[k] == before[k]);
                    assert(before[k] == old(self).server_goals@[k]);
                    assert(!goal_matches(old(self).server_goals@[k], owner, goal_id@, action@));
                }
            }
        }
        self.publish_status(action.as_str())
    }
}

/// The status entry of a goal kept for a client's action server.
pub open spec fn status_entry(g: ServerGoal) -> JsonV {
    JsonV::Object(seq![
        ("goal_info"@, JsonV::Object(seq![("goal_id"@, g.uuid@), ("stamp"@, g.stamp@)])),
        ("status"@, int_json(g.status)),
    ])
}

/// The status entries of the goals of action `name`, in order.
pub open spec fn status_entries(gs: Seq<ServerGoal>, name: Seq<char>) -> Seq<JsonV>
    decreases gs.len(),
{
    if gs.len() == 0 {
        Seq::empty()
    } else if gs.last().action@ == name {
        status_entries(gs.drop_last(), name).push(status_entry(gs.last()))
    } else {
        status_entries(gs.drop_last(), name)
    }
}

/// The status list of an action holds one entry for each of its goals, in
/// the order they are kept, and none for another action's.
pub proof fn lemma_status_entries(gs: Seq<ServerGoal>, name: Seq<char>)
    ensures
        status_entries(gs, name) == gs.filter(|g: ServerGoal| g.action@ == name).map_values(|g: ServerGoal| status_entry(g)),
    decreases gs.len(),
{
    let f = |g: ServerGoal| g.action@ == name;
    let h = |g: ServerGoal| status_entry(g);
    if gs.len() == 0 {
        assert(gs.filter(f) =~= Seq::<ServerGoal>::empty()) by {
            reveal(Seq::filter);
        }
        assert(gs.filter(f).map_values(h) =~= Seq::<JsonV>::empty());
    } else {
        let rest = gs.drop_last();
        lemma_status_entries(rest, name);
        assert(rest.push(gs.last()) =~= gs);
        crate::rosapi_node::lemma_filter_push(rest, gs.last(), f);
        if f(gs.last()) {
            assert(gs.filter(f).map_values(h) =~= rest.filter(f).map_values(h).push(h(gs.last())));
        } else {
            assert(gs.filter(f).map_values(h) =~= rest.filter(f).map_values(h));
        }
    }
}

/// The status list of action `name`'s goals, as published on its status topic.
pub open spec fn status_message(gs: Seq<ServerGoal>, name: Seq<char>) -> JsonV {
    JsonV::Object(seq![("status_list"@, JsonV::Array(status_entries(gs, name)))])
}

/// Whether `after` is `before` with the status list of action `name` published
/// on the status topic of the first server offering it.
pub open spec fn status_published(before: Seq<(Entity, JsonV)>, after: Seq<(Entity, JsonV)>, ss: Seq<ActionServer>, gs: Seq<ServerGoal>, name: Seq<char>) -> bool {
    forall|i: int| #[trigger] first_server(ss, name, i) ==> after == before.push((ss[i].status, status_message(gs, name)))
}

/// The key under which goal `uuid` of action `name` is kept.
pub open spec fn goal_key(name: Seq<char>, uuid: Seq<char>) -> Seq<char> {
    name + ":"@ + uuid
}

/// Whether a goal is kept under `key`.
pub open spec fn has_goal_key(gs: Seq<ServerGoal>, key: Seq<char>) -> bool {
    exists|i: int| 0 <= i < gs.len() && #[trigger] gs[i].key@ == key
}

/// Whether `a` is the first action server with `entity` among its services.
pub open spec fn first_serving(ss: Seq<ActionServer>, entity: Entity, a: int) -> bool {
    &&& 0 <= a < ss.len()
    &&& serves_entity(ss[a], entity)
    &&& forall|k: int| 0 <= k < a ==> !serves_entity(#[trigger] ss[k], entity)
}

/// A signed integer as JSON.
pub open spec fn int_json(n: i64) -> JsonV {
    if n >= 0 {
        JsonV::UInt(n as u64)
    } else {
        JsonV::Int(n)
    }
}

/// A time stamp `{sec, nanosec}`.
pub open spec fn stamp_json(sec: i64, nanosec: u32) -> JsonV {
    JsonV::Object(seq![("sec"@, int_json(sec)), ("nanosec"@, JsonV::UInt(nanosec as u64))])
}

/// The reply to a goal request: whether the goal is accepted, and when.
pub open spec fn goal_reply(accepted: bool, stamp: JsonV) -> JsonV {
    JsonV::Object(seq![("accepted"@, JsonV::Bool(accepted)), ("stamp"@, stamp)])
}

/// Whether `after` is `before` and then the reply to goal request `request`
/// through `entity`, accepted or not, stamped with the backend's time.
pub open spec fn goal_answered(before: Seq<(Entity, u64, JsonV)>, after: Seq<(Entity, u64, JsonV)>, entity: Entity, request: u64, accepted: bool) -> bool {
    exists|sec: i64, nanosec: u32| after == before.push((entity, request, goal_reply(accepted, #[trigger] stamp_json(sec, nanosec))))
}

/// The message that hands goal `goal` of action `name` (of type `typ`) to
/// the client serving it.
pub open spec fn goal_message(name: Seq<char>, typ: Seq<char>, goal: JsonV) -> JsonV {
    JsonV::Object(seq![
        ("op"@, JsonV::Str("send_action_goal"@)),
        ("action"@, JsonV::Str(name)),
        ("action_type"@, JsonV::Str(typ)),
        ("args"@, goal),
        ("feedback"@, JsonV::Bool(true)),
    ])
}

/// Whether `after` is `before` with one running goal added for server `s`:
/// kept under `key`, with UUID `uuid`, accepted (status 2).
pub open spec fn goal_added(before: Seq<ServerGoal>, after: Seq<ServerGoal>, s: ActionServer, key: Seq<char>, uuid: JsonV) -> bool {
    &&& after.len() == before.len() + 1
    &&& after.drop_last() == before
    &&& after.last().key@ == key
    &&& after.last().owner == s.owner
    &&& after.last().action@ == s.name@
    &&& after.last().uuid@ == uuid
    &&& after.last().status == 2
    &&& after.last().result is None
    &&& after.last().requests@.len() == 0
    &&& after.last().completed is None
}

/// Whether `b` keeps what a refused request leaves alone.
pub open spec fn untouched<B: Backend, W: Writer>(b: &Bridge<B, W>, a: &Bridge<B, W>) -> bool {
    &&& b.server_goals == a.server_goals
    &&& b.sent == a.sent
    &&& b.responses() == a.responses()
    &&& b.published() == a.published()
    &&& b.backend == a.backend
    &&& b.next == a.next
    &&& b.outputs@ == a.outputs@
    &&& b.failed@ == a.failed@
}

/// What a goal request through server `a`'s send-goal service does: a UUID
/// that is not 16 bytes is refused with nothing done; a known goal is
/// refused in the reply and nothing else happens; a new goal is accepted in
/// the reply, kept, and handed to the server's client.
pub open spec fn goal_request_done<B: Backend, W: Writer>(old: &Bridge<B, W>, new: &Bridge<B, W>, a: int, entity: Entity, request: u64, args: JsonV, r: Result<bool, Error>) -> bool {
    let s = old.action_servers@[a];
    let uuid = member_or_null(args, "goal_id"@);
    match uuid_key_of(uuid) {
        Err(m) => (r matches Err(e) && e.message@ == m) && untouched(new, old),
        Ok(k) => if has_goal_key(old.server_goals@, goal_key(s.name@, k)) {
            &&& goal_answered(old.responses(), new.responses(), entity, request, false)
            &&& clock_read(old.clock(), new.clock())
            &&& (r is Ok ==> new.responses() == old.responses().push((entity, request, goal_reply(false, stamp_json(new.clock().last().0, new.clock().last().1)))))
            &&& new.server_goals == old.server_goals
            &&& new.sent == old.sent
            &&& new.published() == old.published()
            &&& (r matches Ok(b) ==> b)
        } else {
            &&& goal_answered(old.responses(), new.responses(), entity, request, true)
            &&& clock_read(old.clock(), new.clock())
            &&& r matches Ok(b) ==> {
                &&& b
                &&& goal_added(old.server_goals@, new.server_goals@, s, goal_key(s.name@, k), uuid)
                &&& new.server_goals@.last().id@ == "rosbridge:"@ + crate::wire::decimal(next_after(old.next) as nat)
                &&& new.responses() == old.responses().push((entity, request, goal_reply(true, new.server_goals@.last().stamp@)))
                &&& new.server_goals@.last().stamp@ == stamp_json(new.clock().last().0, new.clock().last().1)
                &&& status_published(old.published(), new.published(), old.action_servers@, new.server_goals@, s.name@)
                &&& new.sent@ == if connected(old.outputs@, s.owner) {
                    old.sent@.push((s.owner, with_id(goal_message(s.name@, s.advertised_type@, member_or_null(args, "goal"@)), Some(new.server_goals@.last().id))))
                } else {
                    old.sent@
                }
            }
        },
    }
}

/// Whether `after` is `before` with one more reading of the clock.
pub open spec fn clock_read(before: Seq<(i64, u32)>, after: Seq<(i64, u32)>) -> bool {
    after.len() == before.len() + 1 && after.drop_last() == before
}

/// The counter that names the next message or goal after `next`.
pub open spec fn next_after(next: u64) -> u64 {
    if next == u64::MAX {
        0
    } else {
        (next + 1) as u64
    }
}

/// Whether `b` is goal `a` with one more result request waiting.
pub open spec fn goal_waits_more(a: ServerGoal, b: ServerGoal, entity: Entity, request: u64) -> bool {
    &&& b.key == a.key
    &&& b.owner == a.owner
    &&& b.action == a.action
    &&& b.id == a.id
    &&& b.uuid == a.uuid
    &&& b.status == a.status
    &&& b.stamp == a.stamp
    &&& b.result == a.result
    &&& b.completed == a.completed
    &&& b.requests@ == a.requests@.push((entity, request))
}

/// Whether `i` is the first kept goal under `key`.
pub open spec fn first_goal_key(gs: Seq<ServerGoal>, key: Seq<char>, i: int) -> bool {
    &&& 0 <= i < gs.len()
    &&& gs[i].key@ == key
    &&& forall|k: int| 0 <= k < i ==> #[trigger] gs[k].key@ != key
}

/// The reply to a result request for a finished goal.
pub open spec fn result_reply(status: i64, result: JsonV) -> JsonV {
    JsonV::Object(seq![("status"@, int_json(status)), ("result"@, result)])
}

/// The reply to a result request for an unknown goal.
pub open spec fn unknown_result_reply() -> JsonV {
    JsonV::Object(seq![("status"@, JsonV::UInt(0)), ("result"@, JsonV::Object(Seq::empty()))])
}

/// What a result request through server `a`'s result service does: a UUID
/// that is not 16 bytes is refused with nothing done; a finished goal is
/// answered with its status and result; a running goal keeps the request
/// waiting until it finishes; an unknown goal is answered with status 0 and
/// an empty result.
pub open spec fn result_request_done<B: Backend, W: Writer>(old: &Bridge<B, W>, new: &Bridge<B, W>, a: int, entity: Entity, request: u64, args: JsonV, r: Result<bool, Error>) -> bool {
    let s = old.action_servers@[a];
    match uuid_key_of(member_or_null(args, "goal_id"@)) {
        Err(m) => (r matches Err(e) && e.message@ == m) && untouched(new, old),
        Ok(k) => {
            let key = goal_key(s.name@, k);
            &&& (r matches Ok(b) ==> b)
            &&& new.sent == old.sent
            &&& new.published() == old.published()
            &&& (!has_goal_key(old.server_goals@, key) ==> new.server_goals == old.server_goals
                && new.responses() == old.responses().push((entity, request, unknown_result_reply())))
            &&& forall|i: int| #[trigger] first_goal_key(old.server_goals@, key, i) ==> (match old.server_goals@[i].result {
                Some(v) => new.server_goals == old.server_goals
                    && new.responses() == old.responses().push((entity, request, result_reply(old.server_goals@[i].status, v@))),
                None => r == Ok::<bool, Error>(true) && new.responses() == old.responses()
                    && new.server_goals@.len() == old.server_goals@.len()
                    && goal_waits_more(old.server_goals@[i], new.server_goals@[i], entity, request)
                    && forall|j: int| 0 <= j < old.server_goals@.len() && j != i ==> #[trigger] new.server_goals@[j] == old.server_goals@[j],
            })
        },
    }
}

/// The zero UUID, which names every goal.
pub open spec fn zero_uuid() -> Seq<char> {
    "00000000000000000000000000000000"@
}

/// Whether a cancel request for the goal keyed `requested` at `stamp`
/// cancels goal `g` of action `name`: a running goal named by its UUID, every
/// running goal (the zero UUID with a zero stamp), or every running goal
/// accepted no later than a nonzero stamp.
pub open spec fn cancels(g: ServerGoal, name: Seq<char>, requested: Seq<char>, stamp: (i64, u64)) -> bool {
    let at = stamp_of(g.stamp@);
    &&& g.action@ == name
    &&& g.result is None
    &&& (uuid_key_of(g.uuid@) == Ok::<Seq<char>, Seq<char>>(requested)
        || (requested == zero_uuid() && stamp == (0i64, 0u64))
        || (stamp != (0i64, 0u64) && (at.0 < stamp.0 || (at.0 == stamp.0 && at.1 <= stamp.1))))
}

/// Which goals a cancel request reaches, as the ROS `CancelGoal` service has
/// it: none that has finished or belongs to another action; of the running
/// goals of the action, the one its UUID names; every one where the UUID is
/// zero and the stamp is zero; every one accepted at or before a nonzero
/// stamp; and no other.
pub proof fn lemma_cancel_policy(g: ServerGoal, name: Seq<char>, requested: Seq<char>, stamp: (i64, u64))
    ensures
        g.result is Some || g.action@ != name ==> !cancels(g, name, requested, stamp),
        g.result is None && g.action@ == name ==> {
            let at = stamp_of(g.stamp@);
            &&& uuid_key_of(g.uuid@) == Ok::<Seq<char>, Seq<char>>(requested) ==> cancels(g, name, requested, stamp)
            &&& requested == "00000000000000000000000000000000"@ && stamp == (0i64, 0u64) ==> cancels(g, name, requested, stamp)
            &&& stamp != (0i64, 0u64) && (at.0 < stamp.0 || (at.0 == stamp.0 && at.1 <= stamp.1))
                ==> cancels(g, name, requested, stamp)
            &&& uuid_key_of(g.uuid@) != Ok::<Seq<char>, Seq<char>>(requested)
                && !(requested == "00000000000000000000000000000000"@ && stamp == (0i64, 0u64))
                && !(stamp != (0i64, 0u64) && (at.0 < stamp.0 || (at.0 == stamp.0 && at.1 <= stamp.1)))
                ==> !cancels(g, name, requested, stamp)
        },
{
}

/// A goal as listed among those cancelling.
pub open spec fn canceling_entry(g: ServerGoal) -> JsonV {
    JsonV::Object(seq![("goal_id"@, g.uuid@), ("stamp"@, g.stamp@)])
}

/// A cancel request read over goals `gs` in order: the goals it cancels, as
/// listed and by id, whether a goal of the action has the requested UUID,
/// and whether the last such goal has finished.
pub open spec fn cancel_scan(gs: Seq<ServerGoal>, name: Seq<char>, requested: Seq<char>, stamp: (i64, u64)) -> (Seq<JsonV>, Seq<Seq<char>>, bool, bool)
    decreases gs.len(),
{
    if gs.len() == 0 {
        (Seq::empty(), Seq::empty(), false, false)
    } else {
        let (list, ids, known, terminal) = cancel_scan(gs.drop_last(), name, requested, stamp);
        let g = gs.last();
        if g.action@ != name {
            (list, ids, known, terminal)
        } else {
            let exact = uuid_key_of(g.uuid@) == Ok::<Seq<char>, Seq<char>>(requested);
            let known2 = known || exact;
            let terminal2 = if exact { g.result is Some } else { terminal };
            if cancels(g, name, requested, stamp) {
                (list.push(canceling_entry(g)), ids.push(g.id@), known2, terminal2)
            } else {
                (list, ids, known2, terminal2)
            }
        }
    }
}

/// A cancel request lists, in the order the goals are kept, exactly the goals
/// that it cancels, and tells their clients of exactly those goals' ids.
pub proof fn lemma_cancel_lists(gs: Seq<ServerGoal>, name: Seq<char>, requested: Seq<char>, stamp: (i64, u64))
    ensures
        cancel_scan(gs, name, requested, stamp).0
            == gs.filter(|g: ServerGoal| cancels(g, name, requested, stamp)).map_values(|g: ServerGoal| canceling_entry(g)),
        cancel_scan(gs, name, requested, stamp).1
            == gs.filter(|g: ServerGoal| cancels(g, name, requested, stamp)).map_values(|g: ServerGoal| g.id@),
    decreases gs.len(),
{
    let f = |g: ServerGoal| cancels(g, name, requested, stamp);
    let h = |g: ServerGoal| canceling_entry(g);
    let k = |g: ServerGoal| g.id@;
    if gs.len() == 0 {
        assert(gs.filter(f) =~= Seq::<ServerGoal>::empty()) by {
            reveal(Seq::filter);
        }
        assert(gs.filter(f).map_values(h) =~= Seq::<JsonV>::empty());
        assert(gs.filter(f).map_values(k) =~= Seq::<Seq<char>>::empty());
    } else {
        let rest = gs.drop_last();
        lemma_cancel_lists(rest, name, requested, stamp);
        assert(rest.push(gs.last()) =~= gs);
        crate::rosapi_node::lemma_filter_push(rest, gs.last(), f);
        if f(gs.last()) {
            assert(gs.filter(f).map_values(h) =~= rest.filter(f).map_values(h).push(h(gs.last())));
            assert(gs.filter(f).map_values(k) =~= rest.filter(f).map_values(k).push(k(gs.last())));
        } else {
            assert(gs.filter(f).map_values(h) =~= rest.filter(f).map_values(h));
            assert(gs.filter(f).map_values(k) =~= rest.filter(f).map_values(k));
        }
    }
}

/// The reply to a cancel request: 0 where goals are cancelling (or all were
/// asked for), else 3 where the goal has finished, 2 where it is unknown, 1
/// otherwise; with the goals cancelling.
pub open spec fn cancel_reply(list: Seq<JsonV>, all: bool, known: bool, terminal: bool) -> JsonV {
    let code: u64 = if list.len() > 0 || all {
        0
    } else if terminal {
        3
    } else if !known {
        2
    } else {
        1
    };
    JsonV::Object(seq![("return_code"@, JsonV::UInt(code)), ("goals_canceling"@, JsonV::Array(list))])
}

/// Whether `g` is the goal of action `name` with UUID key `requested`.
pub open spec fn names_goal(g: ServerGoal, name: Seq<char>, requested: Seq<char>) -> bool {
    g.action@ == name && uuid_key_of(g.uuid@) == Ok::<Seq<char>, Seq<char>>(requested)
}

/// Whether action `name` has at most one goal with UUID key `requested`.
pub open spec fn one_goal_per_uuid(gs: Seq<ServerGoal>, name: Seq<char>, requested: Seq<char>) -> bool {
    forall|i: int, j: int| 0 <= i < gs.len() && 0 <= j < gs.len() && #[trigger] names_goal(gs[i], name, requested)
        && #[trigger] names_goal(gs[j], name, requested) ==> i == j
}

/// What a scan for a cancel request learns: whether the goal it names is
/// known, and, where the action has one goal of that UUID, whether that goal
/// has finished.
proof fn lemma_scan_learns(gs: Seq<ServerGoal>, name: Seq<char>, requested: Seq<char>, stamp: (i64, u64))
    ensures
        cancel_scan(gs, name, requested, stamp).2 <==> exists|i: int| 0 <= i < gs.len() && #[trigger] names_goal(gs[i], name, requested),
        one_goal_per_uuid(gs, name, requested) ==> (cancel_scan(gs, name, requested, stamp).3
            <==> exists|i: int| 0 <= i < gs.len() && #[trigger] names_goal(gs[i], name, requested) && gs[i].result is Some),
    decreases gs.len(),
{
    if gs.len() > 0 {
        let rest = gs.drop_last();
        let last = gs.len() - 1;
        lemma_scan_learns(rest, name, requested, stamp);
        let r = cancel_scan(rest, name, requested, stamp);
        let s = cancel_scan(gs, name, requested, stamp);
        let g = gs.last();
        assert(g == gs[last]);
        if g.action@ != name {
            assert(!names_goal(gs[last], name, requested));
            assert(s.2 == r.2 && s.3 == r.3);
        } else {
            let exact = uuid_key_of(g.uuid@) == Ok::<Seq<char>, Seq<char>>(requested);
            assert(names_goal(gs[last], name, requested) == exact);
            assert(s.2 == (r.2 || exact));
            assert(s.3 == if exact { g.result is Some } else { r.3 });
        }
        if one_goal_per_uuid(gs, name, requested) {
            assert forall|i: int, j: int| 0 <= i < rest.len() && 0 <= j < rest.len() && #[trigger] names_goal(rest[i], name, requested)
                && #[trigger] names_goal(rest[j], name, requested) implies i == j by {
                assert(rest[i] == gs[i] && rest[j] == gs[j]);
            }
        }
        if exists|i: int| 0 <= i < rest.len() && #[trigger] names_goal(rest[i], name, requested) {
            let i = choose|i: int| 0 <= i < rest.len() && #[trigger] names_goal(rest[i], name, requested);
            assert(gs[i] == rest[i]);
        }
        if exists|i: int| 0 <= i < gs.len() && #[trigger] names_goal(gs[i], name, requested) {
            let i = choose|i: int| 0 <= i < gs.len() && #[trigger] names_goal(gs[i], name, requested);
            if i < last {
                assert(rest[i] == gs[i]);
            }
        }
        if one_goal_per_uuid(gs, name, requested) {
            if exists|i: int| 0 <= i < rest.len() && #[trigger] names_goal(rest[i], name, requested) && rest[i].result is Some {
                let i = choose|i: int| 0 <= i < rest.len() && #[trigger] names_goal(rest[i], name, requested) && rest[i].result is Some;
                assert(gs[i] == rest[i]);
                if names_goal(gs[last], name, requested) {
                    assert(names_goal(gs[i], name, requested));
                }
            }
            if exists|i: int| 0 <= i < gs.len() && #[trigger] names_goal(gs[i], name, requested) && gs[i].result is Some {
                let i = choose|i: int| 0 <= i < gs.len() && #[trigger] names_goal(gs[i], name, requested) && gs[i].result is Some;
                if i < last {
                    assert(rest[i] == gs[i]);
                    if names_goal(gs[last], name, requested) {
                        assert(names_goal(gs[i], name, requested));
                    }
                }
            }
        }
    }
}

/// The return code of a cancel request that cancels no goal and does not ask
/// for every goal says why: 3 where the action's goal of that UUID has already
/// finished, 2 where the action has no goal of that UUID; a request that
/// cancels goals, or asks for every goal, is answered with code 0 and the
/// goals cancelling.
pub proof fn lemma_cancel_return_codes(gs: Seq<ServerGoal>, name: Seq<char>, requested: Seq<char>, stamp: (i64, u64), all: bool)
    requires
        one_goal_per_uuid(gs, name, requested),
    ensures
        ({
            let (list, ids, known, terminal) = cancel_scan(gs, name, requested, stamp);
            &&& list.len() == 0 && !all && (exists|i: int| 0 <= i < gs.len() && #[trigger] names_goal(gs[i], name, requested) && gs[i].result is Some)
                ==> cancel_reply(list, all, known, terminal)
                    == JsonV::Object(seq![("return_code"@, JsonV::UInt(3)), ("goals_canceling"@, JsonV::Array(Seq::empty()))])
            &&& list.len() == 0 && !all && !(exists|i: int| 0 <= i < gs.len() && #[trigger] names_goal(gs[i], name, requested))
                ==> cancel_reply(list, all, known, terminal)
                    == JsonV::Object(seq![("return_code"@, JsonV::UInt(2)), ("goals_canceling"@, JsonV::Array(Seq::empty()))])
            &&& (list.len() > 0 || all)
                ==> cancel_reply(list, all, known, terminal)
                    == JsonV::Object(seq![("return_code"@, JsonV::UInt(0)), ("goals_canceling"@, JsonV::Array(list))])
        }),
{
    lemma_scan_learns(gs, name, requested, stamp);
    let (list, ids, known, terminal) = cancel_scan(gs, name, requested, stamp);
    if list.len() == 0 {
        assert(list =~= Seq::<JsonV>::empty());
    }
}

/// The message that tells the client serving action `name` that goal `id` is cancelled.
pub open spec fn cancel_notice(name: Seq<char>, id: Seq<char>) -> JsonV {
    JsonV::Object(crate::json::put(
        seq![("op"@, JsonV::Str("cancel_action_goal"@)), ("action"@, JsonV::Str(name))],
        "id"@,
        JsonV::Str(id),
    ))
}

/// A cancel notice to `owner` for each goal id, in order.
pub open spec fn cancel_notices(owner: Connection, name: Seq<char>, ids: Seq<Seq<char>>) -> Seq<(Connection, JsonV)> {
    Seq::new(ids.len(), |i: int| (owner, cancel_notice(name, ids[i])))
}

/// The goals after a cancel request: those it cancels marked cancelling (status 3).
pub open spec fn after_cancel(gs: Seq<ServerGoal>, name: Seq<char>, requested: Seq<char>, stamp: (i64, u64)) -> Seq<ServerGoal> {
    Seq::new(gs.len(), |i: int| if cancels(gs[i], name, requested, stamp) {
        ServerGoal { status: 3, ..gs[i] }
    } else {
        gs[i]
    })
}

/// What a cancel request through server `a`'s cancel service does: a UUID
/// that is not 16 bytes is refused with nothing done; otherwise the goals
/// it cancels are marked cancelling, the reply lists them with its return
/// code, and the server's client is told of each.
pub open spec fn cancel_request_done<B: Backend, W: Writer>(old: &Bridge<B, W>, new: &Bridge<B, W>, a: int, entity: Entity, request: u64, args: JsonV, r: Result<bool, Error>) -> bool {
    let s = old.action_servers@[a];
    let info = member_or_null(args, "goal_info"@);
    let stamp = stamp_of(member_or_null(info, "stamp"@));
    match uuid_key_of(member_or_null(info, "goal_id"@)) {
        Err(m) => (r matches Err(e) && e.message@ == m) && untouched(new, old),
        Ok(q) => r matches Ok(b) ==> {
            let (list, ids, known, terminal) = cancel_scan(old.server_goals@, s.name@, q, stamp);
            &&& b
            &&& new.responses() == old.responses().push((entity, request, cancel_reply(list, q == zero_uuid(), known, terminal)))
            &&& new.server_goals@ == after_cancel(old.server_goals@, s.name@, q, stamp)
            &&& status_published(old.published(), new.published(), old.action_servers@, new.server_goals@, s.name@)
            &&& new.sent@ == if connected(old.outputs@, s.owner) {
                old.sent@ + cancel_notices(s.owner, s.name@, ids)
            } else {
                old.sent@
            }
        },
    }
}

impl<B: Backend, W: Writer> Bridge<B, W> {
    /// A new goal through server `a`'s send-goal service.
    fn goal_request(&mut self, a: usize, entity: Entity, request: u64, args: &Json) -> (r: Result<bool, Error>)
        requires
            a < old(self).action_servers@.len(),
            entity == old(self).action_servers@[a as int].send,
        ensures
            super::distinct_connections(old(self).outputs@) ==> super::distinct_connections(final(self).outputs@),
            super::distinct_server_goals(old(self).server_goals@) ==> super::distinct_server_goals(final(self).server_goals@),
            final(self).publishers == old(self).publishers,
            final(self).subscriptions == old(self).subscriptions,
            final(self).services == old(self).services,
            final(self).calls == old(self).calls,
            final(self).external == old(self).external,
            final(self).goals == old(self).goals,
            final(self).action_calls == old(self).action_calls,
            final(self).action_servers == old(self).action_servers,
            final(self).access == old(self).access,
            final(self).timeout == old(self).timeout,
            final(self).outputs@.len() == old(self).outputs@.len(),
            super::starts_with(final(self).failed@, old(self).failed@),
            goal_request_done(old(self), final(self), a as int, entity, request, args@, r),
    {
        let action = owned(self.action_servers[a].name.as_str());
        let owner = self.action_servers[a].owner;
        let typ = owned(self.action_servers[a].advertised_type.as_str());
        let ghost s = self.action_servers@[a as int];
        let prefix = concat(action.as_str(), ":");
        let uuid = member_copy(args, "goal_id");
        let k = match uuid_key(&uuid) {
            Ok(k) => k,
            Err(e) => return Err(e),
        };
        let key = concat(prefix.as_str(), k.as_str());
        assert(key@ == goal_key(s.name@, k@));
        let (sec, nanosec) = self.backend.now();
        proof {
            crate::backend::lemma_handed(self.backend.handed()@);
        }
        let stamp = Json::object().member("sec", int_value(sec)).member("nanosec", Json::UInt(nanosec as u64));
        assert(stamp@ == stamp_json(sec, nanosec)) by {
            if let JsonV::Object(m) = stamp@ {
                assert(m =~= seq![("sec"@, int_json(sec)), ("nanosec"@, JsonV::UInt(nanosec as u64))]);
            }
        }
        let found = server_goal_index(&self.server_goals, key.as_str());
        if found < self.server_goals.len() {
            let refused = Json::object().member("accepted", Json::Bool(false)).member("stamp", stamp);
            proof {
                if let JsonV::Object(m) = refused@ {
                    assert(m =~= seq![("accepted"@, JsonV::Bool(false)), ("stamp"@, stamp_json(sec, nanosec))]);
                }
            }
            let answered = self.backend.respond(entity, request, &refused);
            assert(self.responses() == old(self).responses().push((entity, request, goal_reply(false, stamp_json(sec, nanosec)))));
            answered?;
            return Ok(true);
        }
        proof {
            if has_goal_key(old(self).server_goals@, key@) {
                let i = choose|i: int| 0 <= i < old(self).server_goals@.len() && #[trigger] old(self).server_goals@[i].key@ == key@;
                assert(old(self).server_goals@[i].key@ != key@);
            }
        }
        let goal_id = self.unique();
        let accepted = Json::object().member("accepted", Json::Bool(true)).member("stamp", stamp.copy());
        proof {
            if let JsonV::Object(m) = accepted@ {
                assert(m =~= seq![("accepted"@, JsonV::Bool(true)), ("stamp"@, stamp_json(sec, nanosec))]);
            }
        }
        let answered = self.backend.respond(entity, request, &accepted);
        assert(self.responses() == old(self).responses().push((entity, request, goal_reply(true, stamp_json(sec, nanosec)))));
        answered?;
        self.server_goals.push(ServerGoal {
            key,
            owner,
            action: owned(action.as_str()),
            id: owned(goal_id.as_str()),
            uuid,
            status: 2,
            stamp,
            result: None,
            requests: Vec::new(),
            completed: None,
        });
        assert(self.server_goals@.drop_last() =~= old(self).server_goals@);
        let message = Json::object()
            .member("op", Json::string("send_action_goal"))
            .member("action", Json::string(action.as_str()))
            .member("action_type", Json::string(typ.as_str()))
            .member("args", member_copy(args, "goal"))
            .member("feedback", Json::Bool(true));
        proof {
            if let JsonV::Object(m) = message@ {
                assert(m =~= seq![
                    ("op"@, JsonV::Str("send_action_goal"@)),
                    ("action"@, JsonV::Str(s.name@)),
                    ("action_type"@, JsonV::Str(s.advertised_type@)),
                    ("args"@, member_or_null(args@, "goal"@)),
                    ("feedback"@, JsonV::Bool(true)),
                ]);
            }
        }
        let options = Options::default();
        let id = Some(goal_id);
        self.send(owner, message, &id, &options, None, None);
        assert(with_id(message@, id) == with_id(message@, Some(self.server_goals@.last().id)));
        self.publish_status(action.as_str())?;
        Ok(true)
    }
}

impl<B: Backend, W: Writer> Bridge<B, W> {
    /// A result request through server `a`'s result service: answered now
    /// where the goal has finished or is unknown, else kept until it finishes.
    fn result_request(&mut self, a: usize, entity: Entity, request: u64, args: &Json) -> (r: Result<bool, Error>)
        requires
            a < old(self).action_servers@.len(),
        ensures
            super::distinct_connections(old(self).outputs@) ==> super::distinct_connections(final(self).outputs@),
            super::distinct_server_goals(old(self).server_goals@) ==> super::distinct_server_goals(final(self).server_goals@),
            final(self).publishers == old(self).publishers,
            final(self).subscriptions == old(self).subscriptions,
            final(self).services == old(self).services,
            final(self).calls == old(self).calls,
            final(self).external == old(self).external,
            final(self).goals == old(self).goals,
            final(self).action_calls == old(self).action_calls,
            final(self).action_servers == old(self).action_servers,
            final(self).access == old(self).access,
            final(self).timeout == old(self).timeout,
            final(self).outputs@ == old(self).outputs@,
            final(self).failed@ == old(self).failed@,
            final(self).sent == old(self).sent,
            result_request_done(old(self), final(self), a as int, entity, request, args@, r),
    {
        let action = owned(self.action_servers[a].name.as_str());
        let prefix = concat(action.as_str(), ":");
        let goal = member_copy(args, "goal_id");
        let k = match uuid_key(&goal) {
            Ok(k) => k,
            Err(e) => return Err(e),
        };
        let key = concat(prefix.as_str(), k.as_str());
        let i = server_goal_index(&self.server_goals, key.as_str());
        proof {
            if i < self.server_goals@.len() {
                assert forall|b: int| #[trigger] first_goal_key(old(self).server_goals@, key@, b) implies b == i by {
                    if b < i {
                        assert(old(self).server_goals@[b].key@ != key@);
                    } else if b > i {
                        assert(old(self).server_goals@[i as int].key@ != key@);
                    }
                }
            } else {
                assert(!has_goal_key(old(self).server_goals@, key@)) by {
                    if has_goal_key(old(self).server_goals@, key@) {
                        let j = choose|j: int| 0 <= j < old(self).server_goals@.len() && #[trigger] old(self).server_goals@[j].key@ == key@;
                        assert(old(self).server_goals@[j].key@ != key@);
                    }
                }
                assert forall|b: int| #[trigger] first_goal_key(old(self).server_goals@, key@, b) implies false by {}
            }
        }
        if i < self.server_goals.len() {
            match &self.server_goals[i].result {
                Some(value) => {
                    let response = Json::object()
                        .member("status", int_value(self.server_goals[i].status))
                        .member("result", value.copy());
                    proof {
                        if let JsonV::Object(m) = response@ {
                            assert(m =~= seq![("status"@, int_json(self.server_goals@[i as int].status)), ("result"@, value@)]);
                        }
                    }
                    self.backend.respond(entity, request, &response)?;
                },
                None => {
                    let ghost before = self.server_goals@;
                    let mut g = self.server_goals.remove(i);
                    g.requests.push((entity, request));
                    let ghost gv = g;
                    self.server_goals.insert(i, g);
                    proof {
                        assert(self.server_goals@ =~= before.update(i as int, gv));
                    }
                },
            }
        } else {
            let unknown = Json::object().member("status", Json::UInt(0)).member("result", Json::object());
            proof {
                if let JsonV::Object(m) = unknown@ {
                    assert(m =~= seq![("status"@, JsonV::UInt(0)), ("result"@, JsonV::Object(Seq::empty()))]);
                }
            }
            self.backend.respond(entity, request, &unknown)?;
        }
        Ok(true)
    }

    /// A cancel request through server `a`'s cancel service.
    fn cancel_request(&mut self, a: usize, entity: Entity, request: u64, args: &Json) -> (r: Result<bool, Error>)
        requires
            a < old(self).action_servers@.len(),
        ensures
            super::distinct_connections(old(self).outputs@) ==> super::distinct_connections(final(self).outputs@),
            super::distinct_server_goals(old(self).server_goals@) ==> super::distinct_server_goals(final(self).server_goals@),
            final(self).publishers == old(self).publishers,
            final(self).subscriptions == old(self).subscriptions,
            final(self).services == old(self).services,
            final(self).calls == old(self).calls,
            final(self).external == old(self).external,
            final(self).goals == old(self).goals,
            final(self).action_calls == old(self).action_calls,
            final(self).action_servers == old(self).action_servers,
            final(self).access == old(self).access,
            final(self).timeout == old(self).timeout,
            final(self).outputs@.len() == old(self).outputs@.len(),
            super::starts_with(final(self).failed@, old(self).failed@),
            cancel_request_done(old(self), final(self), a as int, entity, request, args@, r),
    {
        let action = owned(self.action_servers[a].name.as_str());
        let owner = self.action_servers[a].owner;
        let ghost s = self.action_servers@[a as int];
        let info = member_copy(args, "goal_info");
        let requested = match uuid_key(&member_copy(&info, "goal_id")) {
            Ok(q) => q,
            Err(e) => return Err(e),
        };
        let all = same(requested.as_str(), "00000000000000000000000000000000");
        let stamp = stamp_pair(&member_copy(&info, "stamp"));
        let zero = stamp.0 == 0 && stamp.1 == 0;
        let ghost gs0 = self.server_goals@;
        let mut cancelling: Vec<Json> = Vec::new();
        let mut notify: Vec<String> = Vec::new();
        let mut known = false;
        let mut terminal = false;
        let mut k: usize = 0;
        while k < self.server_goals.len()
            invariant
                k <= self.server_goals@.len(),
                self.server_goals@.len() == gs0.len(),
                gs0 == old(self).server_goals@,
                s == old(self).action_servers@[a as int],
                action@ == s.name@,
                uuid_key_of(member_or_null(member_or_null(args@, "goal_info"@), "goal_id"@)) == Ok::<Seq<char>, Seq<char>>(requested@),
                all == (requested@ == zero_uuid()),
                zero == (stamp == (0i64, 0u64)),
                forall|j: int| 0 <= j < k ==> #[trigger] self.server_goals@[j] == after_cancel(gs0, s.name@, requested@, stamp)[j],
                forall|j: int| k <= j < gs0.len() ==> #[trigger] self.server_goals@[j] == gs0[j],
                ({
                    let (list, ids, kn, te) = cancel_scan(gs0.take(k as int), s.name@, requested@, stamp);
                    &&& cancelling@.len() == list.len()
                    &&& forall|j: int| 0 <= j < list.len() ==> #[trigger] cancelling@[j]@ == list[j]
                    &&& views(notify@) == ids
                    &&& known == kn
                    &&& terminal == te
                }),
                self.publishers == old(self).publishers,
                self.subscriptions == old(self).subscriptions,
                self.services == old(self).services,
                self.calls == old(self).calls,
                self.external == old(self).external,
                self.goals == old(self).goals,
                self.action_calls == old(self).action_calls,
                self.action_servers == old(self).action_servers,
                self.access == old(self).access,
                self.timeout == old(self).timeout,
                self.outputs == old(self).outputs,
                self.failed == old(self).failed,
                self.sent == old(self).sent,
                self.responses() == old(self).responses(),
                self.published() == old(self).published(),
                self.backend == old(self).backend,
                self.next == old(self).next,
            decreases self.server_goals.len() - k,
        {
            let ghost take = gs0.take(k as int);
            assert(gs0.take(k + 1).drop_last() =~= take);
            assert(gs0.take(k + 1).last() == gs0[k as int]);
            let ghost prev = cancel_scan(take, s.name@, requested@, stamp);
            if same(self.server_goals[k].action.as_str(), action.as_str()) {
                let exact = match uuid_key(&self.server_goals[k].uuid) {
                    Ok(u) => same(u.as_str(), requested.as_str()),
                    Err(e) => return Err(e),
                };
                if exact {
                    known = true;
                    terminal = self.server_goals[k].result.is_some();
                }
                let before = no_later(stamp_pair(&self.server_goals[k].stamp), stamp);
                if self.server_goals[k].result.is_none() && (exact || (all && zero) || (!zero && before)) {
                    assert(cancels(gs0[k as int], s.name@, requested@, stamp));
                    let mut g = self.server_goals.remove(k);
                    g.status = 3;
                    let entry = Json::object().member("goal_id", g.uuid.copy()).member("stamp", g.stamp.copy());
                    proof {
                        if let JsonV::Object(m) = entry@ {
                            assert(m =~= seq![("goal_id"@, gs0[k as int].uuid@), ("stamp"@, gs0[k as int].stamp@)]);
                        }
                    }
                    cancelling.push(entry);
                    notify.push(owned(g.id.as_str()));
                    self.server_goals.insert(k, g);
                    proof {
                        assert(views(notify@) =~= prev.1.push(gs0[k as int].id@));
                    }
                } else {
                    assert(!cancels(gs0[k as int], s.name@, requested@, stamp));
                }
            } else {
                assert(!cancels(gs0[k as int], s.name@, requested@, stamp));
            }
            k = k + 1;
        }
        assert(gs0.take(k as int) =~= gs0);
        assert(self.server_goals@ =~= after_cancel(gs0, s.name@, requested@, stamp));
        let ghost scan = cancel_scan(gs0, s.name@, requested@, stamp);
        let code: u64 = if cancelling.len() > 0 || all {
            0
        } else if terminal {
            3
        } else if !known {
            2
        } else {
            1
        };
        let list = Json::Array(cancelling);
        assert(list@ == JsonV::Array(scan.0)) by {
            if let JsonV::Array(m) = list@ {
                assert(m.len() == scan.0.len());
                assert forall|j: int| 0 <= j < m.len() implies m[j] == scan.0[j] by {
                    assert(cancelling@[j]@ == scan.0[j]);
                }
                assert(m =~= scan.0);
            }
        }
        let response = Json::object().member("return_code", Json::UInt(code)).member("goals_canceling", list);
        proof {
            if let JsonV::Object(m) = response@ {
                assert(m =~= seq![("return_code"@, JsonV::UInt(code)), ("goals_canceling"@, JsonV::Array(scan.0))]);
            }
        }
        self.backend.respond(entity, request, &response)?;
        let ghost sent0 = self.sent@;
        let ghost on = connected(old(self).outputs@, owner);
        let mut n: usize = 0;
        while n < notify.len()
            invariant
                n <= notify@.len(),
                views(notify@) == scan.1,
                s == old(self).action_servers@[a as int],
                action@ == s.name@,
                owner == s.owner,
                sent0 == old(self).sent@,
                on == connected(old(self).outputs@, owner),
                self.sent@ == if on { sent0 + cancel_notices(owner, s.name@, scan.1.take(n as int)) } else { sent0 },
                self.outputs@.len() == old(self).outputs@.len(),
                forall|j: int| 0 <= j < old(self).outputs@.len() ==> #[trigger] self.outputs@[j].0 == old(self).outputs@[j].0,
                self.server_goals@ == after_cancel(gs0, s.name@, requested@, stamp),
                gs0 == old(self).server_goals@,
                self.responses() == old(self).responses().push((entity, request, cancel_reply(scan.0, requested@ == zero_uuid(), scan.2, scan.3))),
                self.publishers == old(self).publishers,
                self.subscriptions == old(self).subscriptions,
                self.services == old(self).services,
                self.calls == old(self).calls,
                self.external == old(self).external,
                self.goals == old(self).goals,
                self.action_calls == old(self).action_calls,
                self.action_servers == old(self).action_servers,
                self.access == old(self).access,
                self.timeout == old(self).timeout,
                self.published() == old(self).published(),
                super::starts_with(self.failed@, old(self).failed@),
            decreases notify.len() - n,
        {
            let message = Json::object()
                .member("op", Json::string("cancel_action_goal"))
                .member("action", Json::string(action.as_str()));
            proof {
                if let JsonV::Object(m) = message@ {
                    assert(m =~= seq![("op"@, JsonV::Str("cancel_action_goal"@)), ("action"@, JsonV::Str(s.name@))]);
                }
                assert(connected(self.outputs@, owner) == on) by {
                    if on {
                        let i = choose|i: int| 0 <= i < old(self).outputs@.len() && old(self).outputs@[i].0 == owner;
                        assert(self.outputs@[i].0 == owner);
                    }
                    if connected(self.outputs@, owner) {
                        let i = choose|i: int| 0 <= i < self.outputs@.len() && self.outputs@[i].0 == owner;
                        assert(old(self).outputs@[i].0 == owner);
                    }
                }
            }
            let options = Options::default();
            let goal_id = Some(owned(notify[n].as_str()));
            assert(notify@[n as int]@ == scan.1[n as int]);
            self.send(owner, message, &goal_id, &options, None, None);
            proof {
                assert(cancel_notices(owner, s.name@, scan.1.take(n + 1)) =~= cancel_notices(owner, s.name@, scan.1.take(n as int)).push((owner, cancel_notice(s.name@, scan.1[n as int]))));
                if on {
                    assert(sent0 + cancel_notices(owner, s.name@, scan.1.take(n + 1)) =~= (sent0 + cancel_notices(owner, s.name@, scan.1.take(n as int))).push((owner, cancel_notice(s.name@, scan.1[n as int]))));
                }
            }
            n = n + 1;
        }
        assert(scan.1.take(n as int) =~= scan.1);
        self.publish_status(action.as_str())?;
        Ok(true)
    }
}

impl<B: Backend, W: Writer> Bridge<B, W> {
    /// A ROS request to one of the services of a client's action server:
    /// a new goal (accepted unless its UUID is known, and handed to the
    /// client), a result request (answered now where the goal finished), or a
    /// cancellation (of the goals it names, reported to the client). False
    /// where `entity` belongs to no action server.
    pub(super) fn action_request(&mut self, entity: Entity, request: u64, args: Json) -> (r: Result<bool, Error>)
        ensures
            super::distinct_connections(old(self).outputs@) ==> super::distinct_connections(final(self).outputs@),
            super::distinct_server_goals(old(self).server_goals@) ==> super::distinct_server_goals(final(self).server_goals@),
            final(self).publishers == old(self).publishers,
            final(self).subscriptions == old(self).subscriptions,
            final(self).services == old(self).services,
            final(self).calls == old(self).calls,
            final(self).external == old(self).external,
            final(self).goals == old(self).goals,
            final(self).action_calls == old(self).action_calls,
            final(self).action_servers == old(self).action_servers,
            final(self).access == old(self).access,
            final(self).timeout == old(self).timeout,
            final(self).outputs@.len() == old(self).outputs@.len(),
            super::starts_with(final(self).failed@, old(self).failed@),
            !action_entity(old(self).action_servers@, entity) ==> r == Ok::<bool, Error>(false)
                && final(self).server_goals == old(self).server_goals && final(self).sent@ == old(self).sent@
                && final(self).backend == old(self).backend && final(self).failed@ == old(self).failed@
                && final(self).outputs@ == old(self).outputs@ && final(self).next == old(self).next
                && final(self).responses() == old(self).responses(),
            action_entity(old(self).action_servers@, entity) ==> (r matches Ok(b) ==> b),
            forall|a: int| #[trigger] first_serving(old(self).action_servers@, entity, a) ==> {
                &&& entity == old(self).action_servers@[a].send
                    ==> goal_request_done(old(self), final(self), a, entity, request, args@, r)
                &&& entity != old(self).action_servers@[a].send && entity == old(self).action_servers@[a].result
                    ==> result_request_done(old(self), final(self), a, entity, request, args@, r)
                &&& entity != old(self).action_servers@[a].send && entity != old(self).action_servers@[a].result
                    ==> cancel_request_done(old(self), final(self), a, entity, request, args@, r)
            },
    {
        let mut a: usize = 0;
        while a < self.action_servers.len()
            invariant
                a <= self.action_servers@.len(),
                forall|k: int| 0 <= k < a ==> !serves_entity(#[trigger] self.action_servers@[k], entity),
            ensures
                a <= self.action_servers@.len(),
                forall|k: int| 0 <= k < a ==> !serves_entity(#[trigger] self.action_servers@[k], entity),
                a < self.action_servers@.len() ==> serves_entity(self.action_servers@[a as int], entity),
            decreases self.action_servers.len() - a,
        {
            let s = &self.action_servers[a];
            if s.send == entity || s.cancel == entity || s.result == entity {
                break;
            }
            a = a + 1;
        }
        if a == self.action_servers.len() {
            return Ok(false);
        }
        assert(forall|b: int| #[trigger] first_serving(self.action_servers@, entity, b) ==> b == a as int) by {
            assert forall|b: int| #[trigger] first_serving(self.action_servers@, entity, b) implies b == a as int by {
                if b < a {
                    assert(!serves_entity(self.action_servers@[b], entity));
                } else if b > a {
                    assert(!serves_entity(self.action_servers@[a as int], entity));
                }
            }
        }
        let send = self.action_servers[a].send;
        let result = self.action_servers[a].result;
        if entity == send {
            self.goal_request(a, entity, request, &args)
        } else if entity == result {
            self.result_request(a, entity, request, &args)
        } else {
            self.cancel_request(a, entity, request, &args)
        }
    }
}

} // verus!
