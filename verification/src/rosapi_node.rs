//! The built-in rosapi node: its services are offered through the backend and
//! answered between polls of the ROS side. A parameter request asks the nodes
//! concerned through their parameter services and is answered once they have
//! replied, or once it has waited too long.

use vstd::prelude::*;
use crate::access::{
    compile_all, glob_error, list_view, merge, merged, param, param_value, Access, AccessV, Glob,
};
use crate::backend::{responded, Entity, Event, Handed};
use crate::definitions::{unquote, unquoted};
use crate::error::Error;
use crate::json::{Json, JsonV};
use crate::parameters::parameter_value;
use crate::rosapi::{
    exists_outcome_of, get_outcome_of, get_reply_value, get_request_value, get_result_value, has_reply_value,
    list_request_value, listed_names_of, operation_list, operations, param_op, reply, set_outcome_of,
    set_reply_value, set_request_value, single_json, strings_json, target, text_of, unset_value_json, Discovery,
    ParamOp,
};
use crate::text::{chars_of, owned, same, split, split_at_char, split_once_char, string_of, trim, trimmed, views};

verus! {

broadcast use crate::backend::lemma_push_drop_last;

/// `s` without leading and trailing square brackets (`trim_matches(['[', ']'])`).
pub open spec fn unbracketed(s: Seq<char>) -> Seq<char>
    decreases s.len(),
{
    if s.len() > 0 && (s[0] == '[' || s[0] == ']') {
        unbracketed(s.drop_first())
    } else if s.len() > 0 && (s.last() == '[' || s.last() == ']') {
        unbracketed(s.drop_last())
    } else {
        s
    }
}

fn unbracket(s: &str) -> (r: String)
    ensures
        r@ == unbracketed(s@),
{
    let cs = chars_of(s);
    let mut i: usize = 0;
    let mut j: usize = cs.len();
    assert(cs@.subrange(0, cs@.len() as int) =~= s@);
    while i < j && (cs[i] == '[' || cs[i] == ']')
        invariant
            cs@ == s@,
            i <= j == cs@.len(),
            unbracketed(s@) == unbracketed(cs@.subrange(i as int, j as int)),
        decreases j - i,
    {
        assert(cs@.subrange(i as int, j as int).drop_first() =~= cs@.subrange(i + 1, j as int));
        i = i + 1;
    }
    while i < j && (cs[j - 1] == '[' || cs[j - 1] == ']')
        invariant
            cs@ == s@,
            i <= j <= cs@.len(),
            i < j ==> !(cs@[i as int] == '[' || cs@[i as int] == ']'),
            unbracketed(s@) == unbracketed(cs@.subrange(i as int, j as int)),
        decreases j - i,
    {
        assert(cs@.subrange(i as int, j as int).drop_last() =~= cs@.subrange(i as int, j - 1));
        j = j - 1;
    }
    string_of(&cs, i, j)
}

/// Filtering what was kept so far and one more item.
pub proof fn lemma_filter_push<A>(s: Seq<A>, x: A, p: spec_fn(A) -> bool)
    ensures
        s.push(x).filter(p) == if p(x) {
            s.filter(p).push(x)
        } else {
            s.filter(p)
        },
{
    reveal(Seq::filter);
    assert(s.push(x).drop_last() =~= s);
}

/// A piece of an allowlist value as a pattern: trimmed of blanks, then of quotes.
pub open spec fn loose_piece(p: Seq<char>) -> Seq<char> {
    unquoted(trimmed(p))
}

/// Whether a pattern text is kept: it is not empty.
pub open spec fn nonempty(p: Seq<char>) -> bool {
    p.len() > 0
}

/// The patterns of a rosapi allowlist value: the value without surrounding
/// brackets, split at commas, each piece trimmed of blanks and then of
/// quotes, the empty ones left out.
pub open spec fn loose_patterns(value: Seq<char>) -> Seq<Seq<char>> {
    split_at_char(unbracketed(value), ',').map_values(|p: Seq<char>| loose_piece(p)).filter(|p: Seq<char>| nonempty(p))
}

fn loose_list(value: &str) -> (r: Vec<String>)
    ensures
        views(r@) == loose_patterns(value@),
{
    let inner = unbracket(value);
    let pieces = split(inner.as_str(), ',');
    let ghost pv = views(pieces@);
    let ghost f = |p: Seq<char>| loose_piece(p);
    let ghost keep = |p: Seq<char>| nonempty(p);
    let mut out: Vec<String> = Vec::new();
    let mut i: usize = 0;
    assert(pv.take(0).map_values(f).filter(keep) =~= Seq::<Seq<char>>::empty()) by {
        reveal(Seq::filter);
    }
    while i < pieces.len()
        invariant
            pv == views(pieces@),
            pv == split_at_char(unbracketed(value@), ','),
            f == (|p: Seq<char>| loose_piece(p)),
            keep == (|p: Seq<char>| nonempty(p)),
            i <= pieces@.len(),
            views(out@) == pv.take(i as int).map_values(f).filter(keep),
        decreases pieces.len() - i,
    {
        let trimmed_piece = trim(pieces[i].as_str());
        let piece = unquote(trimmed_piece.as_str());
        assert(pv[i as int] == pieces@[i as int]@);
        assert(piece@ == f(pv[i as int]));
        let ghost before = pv.take(i as int).map_values(f);
        assert(pv.take(i + 1).map_values(f) =~= before.push(f(pv[i as int])));
        proof {
            lemma_filter_push(before, f(pv[i as int]), keep);
        }
        if chars_of(piece.as_str()).len() > 0 {
            let ghost old_out = views(out@);
            out.push(piece);
            assert(views(out@) =~= old_out.push(piece@));
        }
        i = i + 1;
    }
    assert(pv.take(pv.len() as int) =~= pv);
    out
}

/// The allowlist that the arguments give the rosapi node's setting `name`:
/// none where no argument sets it or its value is empty.
pub open spec fn loose_setting(args: Seq<Seq<char>>, name: Seq<char>) -> Result<Option<Seq<Seq<char>>>, Seq<char>> {
    match param_value(args, name) {
        None => Ok(None),
        Some(v) => if v.len() == 0 {
            Ok(None)
        } else {
            let ps = loose_patterns(v);
            match glob_error(ps, ps.len() as int) {
                Some(e) => Err(e),
                None => Ok(Some(ps)),
            }
        },
    }
}

fn loose_setting_of(args: &Vec<String>, name: &str) -> (r: Result<Option<Vec<Glob>>, Error>)
    ensures
        match r {
            Ok(v) => loose_setting(views(args@), name@) == Ok::<Option<Seq<Seq<char>>>, Seq<char>>(list_view(v)),
            Err(e) => loose_setting(views(args@), name@) == Err::<Option<Seq<Seq<char>>>, Seq<char>>(e.message@),
        },
{
    match param(args, name) {
        None => Ok(None),
        Some(value) => {
            if chars_of(value.as_str()).len() == 0 {
                return Ok(None);
            }
            let texts = loose_list(value.as_str());
            match compile_all(&texts) {
                Ok(globs) => Ok(Some(globs)),
                Err(e) => Err(e),
            }
        },
    }
}

/// The allowlists of the rosapi node that ROS arguments give, or the first error.
pub open spec fn node_access(args: Seq<Seq<char>>) -> Result<AccessV, Seq<char>> {
    match (
        loose_setting(args, "topics_glob"@),
        loose_setting(args, "topics_pub_glob"@),
        loose_setting(args, "topics_sub_glob"@),
        loose_setting(args, "services_glob"@),
        loose_setting(args, "params_glob"@),
    ) {
        (Err(e), _, _, _, _) => Err(e),
        (Ok(_), Err(e), _, _, _) => Err(e),
        (Ok(_), Ok(_), Err(e), _, _) => Err(e),
        (Ok(_), Ok(_), Ok(_), Err(e), _) => Err(e),
        (Ok(_), Ok(_), Ok(_), Ok(_), Err(e)) => Err(e),
        (Ok(legacy), Ok(p), Ok(s), Ok(services), Ok(params)) => Ok(
            AccessV { pub_topics: merged(p, legacy), sub_topics: merged(s, legacy), services, params },
        ),
    }
}

/// Reads the rosapi node's allowlists from ROS arguments `-p <name>:=<value>`.
pub fn node_allowlists(args: &Vec<String>) -> (r: Result<Access, Error>)
    ensures
        match r {
            Ok(a) => node_access(views(args@)) == Ok::<AccessV, Seq<char>>(a@),
            Err(e) => node_access(views(args@)) == Err::<AccessV, Seq<char>>(e.message@),
        },
{
    let legacy = match loose_setting_of(args, "topics_glob") {
        Ok(l) => l,
        Err(e) => return Err(e),
    };
    let pub_specific = match loose_setting_of(args, "topics_pub_glob") {
        Ok(l) => l,
        Err(e) => return Err(e),
    };
    let sub_specific = match loose_setting_of(args, "topics_sub_glob") {
        Ok(l) => l,
        Err(e) => return Err(e),
    };
    let services = match loose_setting_of(args, "services_glob") {
        Ok(l) => l,
        Err(e) => return Err(e),
    };
    let params = match loose_setting_of(args, "params_glob") {
        Ok(l) => l,
        Err(e) => return Err(e),
    };
    let pub_topics = merge(pub_specific, &legacy);
    let sub_topics = merge(sub_specific, &legacy);
    Ok(Access { pub_topics, sub_topics, services, params })
}

/// Reads and writes JSON text, as `serde_json` does where the node runs.
pub trait JsonText {
    /// The value that `text` holds, or why it holds none.
    fn parse(&self, text: &str) -> Result<Json, Error>;

    /// `value` as JSON text.
    fn write(&self, value: &Json) -> String;
}

/// A reply that a parameter request waits for: the client entity and sequence
/// it comes through, the request, the node asked, and whether it tells if a
/// parameter exists before it is deleted.
pub struct Pending {
    pub entity: Entity,
    pub sequence: i64,
    pub group: u64,
    pub node: String,
    pub delete_check: bool,
}

/// A parameter request in progress: the service and request to answer, the
/// operation and its arguments, how many replies it still waits for, the
/// parameter names gathered so far, and when it times out (nanoseconds).
pub struct Group {
    pub service: Entity,
    pub request: u64,
    pub op: ParamOp,
    pub args: Json,
    pub remaining: usize,
    pub names: Vec<String>,
    pub deadline: u64,
}

/// The rosapi node: which entity serves which operation, the parameter
/// requests in progress and the replies they wait for, the allowlists, and
/// how long a parameter request may wait (nanoseconds).
pub struct Api {
    pub operations: Vec<(Entity, &'static str)>,
    pub pending: Vec<Pending>,
    pub groups: Vec<Group>,
    pub access: Access,
    pub timeout: u64,
    /// Every reply to a request to one of the node's services handed to the
    /// backend, in order: the service, the request, and the reply.
    pub answered: Ghost<Seq<(Entity, u64, JsonV)>>,
    /// The services offered through the backend when the node was made, in
    /// order: each name and its interface type.
    pub registered: Ghost<Seq<(Seq<char>, Seq<char>)>>,
    /// Every request handed to a node's parameter service, in order: the
    /// service, its interface type, and the request.
    pub requested: Ghost<Seq<(Seq<char>, Seq<char>, JsonV)>>,
}

/// The services that the node offers: `/rosapi/<operation>` of type
/// `rosapi_msgs/srv/<Type>`, one for each operation, in order.
pub open spec fn offered_services() -> Seq<(Seq<char>, Seq<char>)> {
    Seq::new(
        operations().len(),
        |i: int| ("/rosapi/"@ + operations()[i].0, "rosapi_msgs/srv/"@ + operations()[i].1),
    )
}

/// The parameter request `id` in progress.
pub open spec fn group_of(gs: Seq<Group>, id: u64) -> Group {
    gs[choose|i: int| 0 <= i < gs.len() && gs[i].request == id]
}

/// An optional error as its text.
pub open spec fn error_view(e: Option<String>) -> Option<Seq<char>> {
    match e {
        Some(x) => Some(x@),
        None => None,
    }
}

/// An optional value as its model.
pub open spec fn value_view(v: Option<Json>) -> Option<JsonV> {
    match v {
        Some(x) => Some(x@),
        None => None,
    }
}

/// Whether `reply` answers parameter request `g`, whose node replied `value`
/// (or failed with `error`): the names gathered, whether the parameter
/// exists, its value as JSON text (the request's default where it failed),
/// or the outcome of setting it.
pub open spec fn final_reply(g: Group, value: Option<JsonV>, error: Option<Seq<char>>, reply: JsonV) -> bool {
    match g.op {
        ParamOp::GetParamNames => reply == crate::rosapi::single("names"@, crate::rosapi::str_array(views(g.names@))),
        ParamOp::HasParam => reply == crate::rosapi::has_reply(value, error),
        ParamOp::GetParam => exists|text: Seq<char>| reply == #[trigger] crate::rosapi::get_reply(text, error),
        _ => reply == crate::rosapi::set_reply(error),
    }
}

/// The request ids of the parameter requests in progress.
pub open spec fn group_ids(gs: Seq<Group>) -> Seq<u64> {
    Seq::new(gs.len(), |i: int| gs[i].request)
}

/// Whether a parameter request `id` is in progress.
pub open spec fn has_group(gs: Seq<Group>, id: u64) -> bool {
    exists|i: int| 0 <= i < gs.len() && gs[i].request == id
}

impl Api {
    /// Each request is in progress once, and each awaited reply belongs to
    /// a request in progress.
    pub open spec fn wf(&self) -> bool {
        &&& forall|i: int, j: int| 0 <= i < j < self.groups@.len() ==> #[trigger] self.groups@[i].request != #[trigger] self.groups@[j].request
        &&& forall|k: int| 0 <= k < self.pending@.len() ==> has_group(self.groups@, #[trigger] self.pending@[k].group)
    }
}

/// The position of the parameter request `id`, or their number.
fn group_index(gs: &Vec<Group>, id: u64) -> (i: usize)
    ensures
        i <= gs@.len(),
        i < gs@.len() ==> gs@[i as int].request == id,
        i == gs@.len() ==> !has_group(gs@, id),
{
    let mut i: usize = 0;
    while i < gs.len()
        invariant
            i <= gs@.len(),
            forall|k: int| 0 <= k < i ==> gs@[k].request != id,
        decreases gs.len() - i,
    {
        if gs[i].request == id {
            return i;
        }
        i = i + 1;
    }
    i
}

/// The position of the awaited reply through `entity` with `sequence`, or their number.
fn pending_index(ps: &Vec<Pending>, entity: Entity, sequence: i64) -> (i: usize)
    ensures
        i <= ps@.len(),
        i < ps@.len() ==> ps@[i as int].entity == entity && ps@[i as int].sequence == sequence,
        i == ps@.len() ==> !awaited(ps@, entity, sequence),
{
    let mut i: usize = 0;
    while i < ps.len()
        invariant
            i <= ps@.len(),
            forall|k: int| 0 <= k < i ==> !(#[trigger] ps@[k].entity == entity && ps@[k].sequence == sequence),
        decreases ps.len() - i,
    {
        if ps[i].entity == entity && ps[i].sequence == sequence {
            return i;
        }
        i = i + 1;
    }
    i
}

/// Whether a parameter request waits for reply `sequence` of client `entity`.
pub open spec fn awaited(ps: Seq<Pending>, entity: Entity, sequence: i64) -> bool {
    exists|k: int| 0 <= k < ps.len() && ps[k].entity == entity && ps[k].sequence == sequence
}

/// Whether handling `events` asks nothing of ROS: none is a request to a
/// rosapi service or a reply that a parameter request waits for, and no
/// parameter request in `groups` has waited until `now`.
pub open spec fn quiet(events: Seq<Event>, ops: Seq<(Entity, &'static str)>, ps: Seq<Pending>, groups: Seq<Group>, now: u64) -> bool {
    &&& forall|k: int| 0 <= k < events.len() ==> !for_rosapi(#[trigger] events[k], ops)
    &&& forall|k: int| 0 <= k < events.len() ==> !(#[trigger] events[k] matches Event::Response { entity, sequence, .. } && awaited(ps, entity, sequence))
    &&& forall|k: int| 0 <= k < groups.len() ==> #[trigger] groups[k].deadline > now
}

/// Whether `entity` serves a rosapi operation.
pub open spec fn serves(ops: Seq<(Entity, &'static str)>, entity: Entity) -> bool {
    exists|k: int| 0 <= k < ops.len() && ops[k].0 == entity
}

/// The operation that `entity` serves.
fn operation_of(ops: &Vec<(Entity, &'static str)>, entity: Entity) -> (r: Option<&'static str>)
    ensures
        r is Some <==> serves(ops@, entity),
        r matches Some(op) ==> exists|k: int| 0 <= k < ops@.len() && ops@[k].0 == entity && #[trigger] ops@[k].1 == op,
{
    let mut i: usize = 0;
    while i < ops.len()
        invariant
            i <= ops@.len(),
            forall|k: int| 0 <= k < i ==> ops@[k].0 != entity,
        decreases ops.len() - i,
    {
        if ops[i].0 == entity {
            return Some(ops[i].1);
        }
        i = i + 1;
    }
    None
}

/// Whether the service graph has a service named `name`.
fn offered(graph: &Vec<(String, Vec<String>)>, name: &str) -> (r: bool)
    ensures
        r == exists|k: int| 0 <= k < graph@.len() && #[trigger] graph@[k].0@ == name@,
{
    let mut i: usize = 0;
    while i < graph.len()
        invariant
            i <= graph@.len(),
            forall|k: int| 0 <= k < i ==> #[trigger] graph@[k].0@ != name@,
        decreases graph.len() - i,
    {
        if same(graph[i].0.as_str(), name) {
            return true;
        }
        i = i + 1;
    }
    false
}

/// Removing an item keeps wf's two facts for the others.
proof fn lemma_groups_remove(gs: Seq<Group>, i: int)
    requires
        0 <= i < gs.len(),
        forall|a: int, b: int| 0 <= a < b < gs.len() ==> #[trigger] gs[a].request != #[trigger] gs[b].request,
    ensures
        forall|a: int, b: int| 0 <= a < b < gs.remove(i).len() ==> #[trigger] gs.remove(i)[a].request != #[trigger] gs.remove(i)[b].request,
        forall|id: u64| id != gs[i].request && has_group(gs, id) ==> #[trigger] has_group(gs.remove(i), id),
        !has_group(gs.remove(i), gs[i].request),
{
    let r = gs.remove(i);
    assert forall|a: int, b: int| 0 <= a < b < r.len() implies #[trigger] r[a].request != #[trigger] r[b].request by {
        let a2 = if a < i { a } else { a + 1 };
        let b2 = if b < i { b } else { b + 1 };
        assert(r[a] == gs[a2]);
        assert(r[b] == gs[b2]);
    }
    assert forall|id: u64| id != gs[i].request && has_group(gs, id) implies #[trigger] has_group(r, id) by {
        let j = choose|j: int| 0 <= j < gs.len() && gs[j].request == id;
        if j < i {
            assert(r[j] == gs[j]);
        } else {
            assert(r[j - 1] == gs[j]);
        }
    }
    if has_group(r, gs[i].request) {
        let j = choose|j: int| 0 <= j < r.len() && r[j].request == gs[i].request;
        if j < i {
            assert(r[j] == gs[j]);
        } else {
            assert(r[j] == gs[j + 1]);
        }
    }
}

impl Api {
    /// Offers every rosapi service through `ros` as `/rosapi/<operation>`,
    /// with the allowlists that `args` give and parameter requests waiting at
    /// most `timeout` nanoseconds.
    pub fn new<D: Discovery>(ros: &mut D, args: &Vec<String>, timeout: u64) -> (r: Result<Api, Error>)
        ensures
            timeout == 0 ==> (r matches Err(e) && e.message@ == "params_timeout must be positive"@),
            timeout > 0 ==> match node_access(views(args@)) {
                Err(m) => r matches Err(e) && e.message@ == m,
                Ok(a) => r matches Ok(api) ==> api.access@ == a,
            },
            r matches Ok(api) ==> {
                &&& api.wf()
                &&& api.timeout == timeout
                &&& api.groups@.len() == 0
                &&& api.pending@.len() == 0
                &&& api.operations@.len() == operations().len()
                &&& forall|k: int| 0 <= k < operations().len() ==> #[trigger] api.operations@[k].1@ == operations()[k].0
                &&& api.registered@ == offered_services()
                &&& api.requested@.len() == 0
                &&& crate::backend::asked_of(final(ros).handed()@) == crate::backend::asked_of(old(ros).handed()@) + offered_services()
            },
    {
        if timeout == 0 {
            return Err(Error::new("params_timeout must be positive"));
        }
        let access = match node_allowlists(args) {
            Ok(a) => a,
            Err(e) => return Err(e),
        };
        let list = operation_list();
        let ghost spec_ops = Seq::new(list@.len(), |i: int| (list@[i].0@, list@[i].1@));
        let mut ops: Vec<(Entity, &'static str)> = Vec::new();
        let ghost mut registered: Seq<(Seq<char>, Seq<char>)> = Seq::empty();
        let mut i: usize = 0;
        while i < list.len()
            invariant
                i <= list@.len(),
                registered == offered_services().take(i as int),
                crate::backend::asked_of(ros.handed()@) == crate::backend::asked_of(old(ros).handed()@) + registered,
                spec_ops == Seq::new(list@.len(), |i: int| (list@[i].0@, list@[i].1@)),
                spec_ops == operations(),
                ops@.len() == i,
                forall|k: int| 0 <= k < i ==> #[trigger] ops@[k].1@ == operations()[k].0,
                timeout > 0,
                node_access(views(args@)) == Ok::<AccessV, Seq<char>>(access@),
            decreases list.len() - i,
        {
            let (name, typ) = list[i];
            let service = crate::bridge::concat("/rosapi/", name);
            let service_type = crate::bridge::concat("rosapi_msgs/srv/", typ);
            let entity = ros.service(service.as_str(), service_type.as_str())?;
            proof {
                assert(crate::backend::asked_of(old(ros).handed()@) + registered.push((service@, service_type@))
                    =~= (crate::backend::asked_of(old(ros).handed()@) + registered).push((service@, service_type@)));
                registered = registered.push((service@, service_type@));
            }
            assert(spec_ops[i as int].0 == name@);
            assert(spec_ops[i as int].1 == typ@);
            assert(registered =~= offered_services().take(i + 1));
            ops.push((entity, name));
            i = i + 1;
        }
        assert(registered =~= offered_services());
        Ok(Api {
            operations: ops,
            pending: Vec::new(),
            groups: Vec::new(),
            access,
            timeout,
            answered: Ghost(Seq::empty()),
            registered: Ghost(registered),
            requested: Ghost(Seq::empty()),
        })
    }
}

impl Api {
    /// Answers parameter request `id` with the outcome: the names gathered,
    /// whether the parameter exists, its value (else the request's default),
    /// or whether it was set; `value` and `error` are what its node replied.
    /// The replies it still waited for are forgotten and their clients
    /// destroyed.
    fn finish<D: Discovery, T: JsonText>(&mut self, ros: &mut D, id: u64, value: Option<Json>, error: Option<String>, text: &T) -> (r: Result<(), Error>)
        requires
            old(self).wf(),
        ensures
            final(self).wf(),
            final(self).operations == old(self).operations,
            final(self).access == old(self).access,
            final(self).timeout == old(self).timeout,
            !has_group(final(self).groups@, id),
            forall|k: int| 0 <= k < final(self).groups@.len() ==> old(self).groups@.contains(#[trigger] final(self).groups@[k]),
            final(self).groups@.len() <= old(self).groups@.len(),
            has_group(old(self).groups@, id) ==> final(self).groups@.len() < old(self).groups@.len(),
            !has_group(old(self).groups@, id) ==> (r matches Err(e) && e.message@ == "missing parameter request"@)
                && final(self).answered@ == old(self).answered@,
            has_group(old(self).groups@, id) ==> {
                let g = group_of(old(self).groups@, id);
                &&& final(self).answered@.len() == old(self).answered@.len() + 1
                &&& final(self).answered@.drop_last() == old(self).answered@
                &&& final(self).answered@.last().0 == g.service
                &&& final(self).answered@.last().1 == id
                &&& final_reply(g, value_view(value), error_view(error), final(self).answered@.last().2)
            },
            forall|k: int| 0 <= k < final(self).pending@.len() ==> old(self).pending@.contains(#[trigger] final(self).pending@[k]),
            handed_answers(old(ros).handed()@, final(ros).handed()@, old(self).answered@, final(self).answered@),
            extends(old(ros).handed()@, final(ros).handed()@),
    {
        let i = group_index(&self.groups, id);
        if i == self.groups.len() {
            proof {
                lemma_no_answer(ros.handed()@, ros.handed()@, self.answered@);
            }
            return Err(Error::new("missing parameter request"));
        }
        let ghost before = self.groups@;
        let group = self.groups.remove(i);
        proof {
            lemma_groups_remove(before, i as int);
            assert forall|k: int| 0 <= k < self.groups@.len() implies before.contains(#[trigger] self.groups@[k]) by {
                if k < i {
                    assert(self.groups@[k] == before[k]);
                } else {
                    assert(self.groups@[k] == before[k + 1]);
                }
            }
        }
        let ghost groups = self.groups@;
        let mut k: usize = 0;
        while k < self.pending.len()
            invariant
                k <= self.pending@.len(),
                self.groups@ == groups,
                self.operations == old(self).operations,
                self.access == old(self).access,
                self.timeout == old(self).timeout,
                forall|a: int, b: int| 0 <= a < b < groups.len() ==> #[trigger] groups[a].request != #[trigger] groups[b].request,
                forall|j: int| 0 <= j < k ==> #[trigger] self.pending@[j].group != id,
                forall|j: int| 0 <= j < self.pending@.len() ==> (#[trigger] self.pending@[j].group == id
                    || has_group(groups, self.pending@[j].group)),
                forall|j: int| 0 <= j < self.pending@.len() ==> old(self).pending@.contains(#[trigger] self.pending@[j]),
                self.answered == old(self).answered,
                responded(ros.handed()@) == responded(old(ros).handed()@),
                extends(old(ros).handed()@, ros.handed()@),
            decreases self.pending.len() - k,
        {
            if self.pending[k].group == id {
                let ghost ps = self.pending@;
                let p = self.pending.remove(k);
                ros.destroy(p.entity);
                proof {
                    crate::backend::lemma_handed(ros.handed()@);
                }
                assert forall|j: int| 0 <= j < self.pending@.len() implies (#[trigger] self.pending@[j].group == id
                    || has_group(groups, self.pending@[j].group)) by {
                    if j < k {
                        assert(self.pending@[j] == ps[j]);
                    } else {
                        assert(self.pending@[j] == ps[j + 1]);
                    }
                }
                assert forall|j: int| 0 <= j < self.pending@.len() implies old(self).pending@.contains(#[trigger] self.pending@[j]) by {
                    if j < k {
                        assert(self.pending@[j] == ps[j]);
                    } else {
                        assert(self.pending@[j] == ps[j + 1]);
                    }
                }
            } else {
                k = k + 1;
            }
        }
        let response = match group.op {
            ParamOp::GetParamNames => single_json("names", strings_json(&group.names)),
            ParamOp::HasParam => has_reply_value(&value, &error),
            ParamOp::GetParam => {
                let default = match text.parse(text_of(&group.args, "default_value")) {
                    Ok(v) => v,
                    Err(_) => Json::string(""),
                };
                let result = get_result_value(&value, &error, default);
                let written = text.write(&result);
                let reply = get_reply_value(written.as_str(), &error);
                assert(reply@ == crate::rosapi::get_reply(written@, error_view(error)));
                reply
            },
            _ => set_reply_value(&error),
        };
        proof {
            assert(final_reply(group, value_view(value), error_view(error), response@));
            let j = choose|j: int| 0 <= j < before.len() && before[j].request == id;
            assert(before[i as int].request == id);
            assert(j == i as int);
            assert(group == group_of(before, id));
            self.answered@ = self.answered@.push((group.service, group.request, response@));
            assert(self.answered@.drop_last() =~= old(self).answered@);
            assert(before == old(self).groups@);
        }
        let sent = ros.respond(group.service, group.request, &response);
        proof {
            lemma_one_answer(old(ros).handed()@, ros.handed()@, old(self).answered@, (group.service, group.request, response@));
        }
        sent
    }
}

/// Replacing a parameter request by one with the same id keeps wf's facts.
proof fn lemma_groups_update(gs: Seq<Group>, i: int, g: Group)
    requires
        0 <= i < gs.len(),
        gs[i].request == g.request,
    ensures
        group_ids(gs.update(i, g)) == group_ids(gs),
        forall|id: u64| #[trigger] has_group(gs.update(i, g), id) == has_group(gs, id),
{
    let u = gs.update(i, g);
    assert(group_ids(u) =~= group_ids(gs));
    assert forall|id: u64| #[trigger] has_group(u, id) == has_group(gs, id) by {
        if has_group(gs, id) {
            let j = choose|j: int| 0 <= j < gs.len() && gs[j].request == id;
            assert(u[j].request == id);
        }
        if has_group(u, id) {
            let j = choose|j: int| 0 <= j < u.len() && u[j].request == id;
            assert(gs[j].request == id);
        }
    }
}

/// Whether `a` is request `b` still: the same id, service, operation and deadline.
pub open spec fn same_request(a: Group, b: Group) -> bool {
    a.request == b.request && a.service == b.service && a.deadline == b.deadline && a.op == b.op
}

/// One more reply to wait for, stopping at the largest count.
pub open spec fn more(n: usize) -> usize {
    if n == usize::MAX {
        n
    } else {
        (n + 1) as usize
    }
}

impl Api {
    /// Counts one more reply that request `id` waits for.
    fn expect_reply(&mut self, id: u64)
        requires
            old(self).wf(),
            has_group(old(self).groups@, id),
        ensures
            final(self).wf(),
            group_ids(final(self).groups@) == group_ids(old(self).groups@),
            forall|x: u64| #[trigger] has_group(final(self).groups@, x) == has_group(old(self).groups@, x),
            final(self).pending == old(self).pending,
            final(self).requested == old(self).requested,
            final(self).operations == old(self).operations,
            final(self).access == old(self).access,
            final(self).timeout == old(self).timeout,
            final(self).groups@.len() == old(self).groups@.len(),
            forall|k: int| 0 <= k < old(self).groups@.len() ==> #[trigger] final(self).groups@[k] == if old(self).groups@[k].request == id {
                Group { remaining: more(old(self).groups@[k].remaining), ..old(self).groups@[k] }
            } else {
                old(self).groups@[k]
            },
            final(self).answered == old(self).answered,
    {
        let i = group_index(&self.groups, id);
        let ghost before = self.groups@;
        let mut g = self.groups.remove(i);
        g.remaining = g.remaining.saturating_add(1);
        let ghost updated = g;
        self.groups.insert(i, g);
        assert(self.groups@ =~= before.update(i as int, updated));
        proof {
            lemma_groups_update(before, i as int, updated);
            assert forall|a: int, b: int| 0 <= a < b < self.groups@.len() implies #[trigger] self.groups@[a].request != #[trigger] self.groups@[b].request by {
                assert(group_ids(self.groups@)[a] == group_ids(before)[a]);
                assert(group_ids(self.groups@)[b] == group_ids(before)[b]);
            }
        }
    }

    /// Starts parameter request `g`, in place of one with the same id.
    fn start(&mut self, g: Group)
        requires
            old(self).wf(),
        ensures
            final(self).wf(),
            has_group(final(self).groups@, g.request),
            group_of(final(self).groups@, g.request) == g,
            final(self).pending == old(self).pending,
            final(self).operations == old(self).operations,
            final(self).access == old(self).access,
            final(self).timeout == old(self).timeout,
            final(self).answered == old(self).answered,
    {
        let i = group_index(&self.groups, g.request);
        let ghost before = self.groups@;
        let ghost added = g;
        if i < self.groups.len() {
            self.groups.remove(i);
            self.groups.insert(i, g);
            assert(self.groups@ =~= before.update(i as int, added));
            proof {
                lemma_groups_update(before, i as int, added);
            }
            assert(self.groups@[i as int].request == added.request);
            proof {
                let j = choose|j: int| 0 <= j < self.groups@.len() && self.groups@[j].request == added.request;
                assert(j == i as int);
            }
        } else {
            self.groups.push(g);
            assert forall|a: int, b: int| 0 <= a < b < self.groups@.len() implies #[trigger] self.groups@[a].request != #[trigger] self.groups@[b].request by {
                if b == before.len() {
                    assert(self.groups@[a] == before[a]);
                } else {
                    assert(self.groups@[a] == before[a]);
                    assert(self.groups@[b] == before[b]);
                }
            }
            assert forall|k: int| 0 <= k < self.pending@.len() implies has_group(self.groups@, #[trigger] self.pending@[k].group) by {
                let j = choose|j: int| 0 <= j < before.len() && before[j].request == self.pending@[k].group;
                assert(self.groups@[j] == before[j]);
            }
            assert(self.groups@[before.len() as int] == added);
            proof {
                let j = choose|j: int| 0 <= j < self.groups@.len() && self.groups@[j].request == added.request;
                assert(j == before.len());
            }
        }
    }

    /// Asks the nodes that parameter request `request` concerns: every node's
    /// parameter list for `get_param_names`, else the node named in the
    /// request, whose parameter service must be offered.
    fn calls<D: Discovery, T: JsonText>(&mut self, ros: &mut D, request: u64, op: &str, p: ParamOp, args: &Json, text: &T) -> (r: Result<(), Error>)
        requires
            old(self).wf(),
            has_group(old(self).groups@, request),
        ensures
            responded(final(ros).handed()@) == responded(old(ros).handed()@),
            extends(old(ros).handed()@, final(ros).handed()@),
            r is Ok && p != ParamOp::GetParamNames ==> waiting(final(self).groups@, request),
            r is Ok && p != ParamOp::GetParamNames ==> handed_as_logged(final(ros).handed()@, final(self).requested@.last()),
            r is Err && p != ParamOp::GetParamNames && p != ParamOp::SetParam
                && crate::rosapi::parameter_target(op@, args@, old(self).access@) is Ok
                ==> asking_failed(old(ros).handed()@, final(ros).handed()@, crate::rosapi::parameter_target(op@, args@, old(self).access@)->Ok_0.2),
            final(self).wf(),
            has_group(final(self).groups@, request),
            final(self).operations == old(self).operations,
            final(self).access == old(self).access,
            final(self).timeout == old(self).timeout,
            final(self).answered == old(self).answered,
            final(self).groups@.len() == old(self).groups@.len(),
            forall|k: int| 0 <= k < old(self).groups@.len() ==> same_request(#[trigger] final(self).groups@[k], old(self).groups@[k]),
            forall|k: int| 0 <= k < old(self).groups@.len() ==> #[trigger] final(self).groups@[k].names@ == old(self).groups@[k].names@,
            final(self).pending@.len() >= old(self).pending@.len(),
            forall|k: int| 0 <= k < old(self).pending@.len() ==> #[trigger] final(self).pending@[k] == old(self).pending@[k],
            forall|k: int| old(self).pending@.len() <= k < final(self).pending@.len() ==> #[trigger] final(self).pending@[k].group == request,
            forall|k: int| old(self).pending@.len() <= k < final(self).pending@.len() ==> #[trigger] final(self).pending@[k].delete_check == (p == ParamOp::DeleteParam),
            r is Ok && p != ParamOp::GetParamNames ==> crate::rosapi::parameter_target(op@, args@, old(self).access@) is Ok
                && final(self).pending@.len() == old(self).pending@.len() + 1
                && final(self).pending@.last().node@ == crate::rosapi::parameter_target(op@, args@, old(self).access@)->Ok_0.0,
            final(self).requested@.len() >= old(self).requested@.len(),
            forall|k: int| 0 <= k < old(self).requested@.len() ==> #[trigger] final(self).requested@[k] == old(self).requested@[k],
            p == ParamOp::GetParamNames ==> forall|k: int| old(self).requested@.len() <= k < final(self).requested@.len()
                ==> #[trigger] final(self).requested@[k].1 == "rcl_interfaces/srv/"@ + "ListParameters"@ && final(self).requested@[k].2 == crate::rosapi::list_request(),
            r is Ok && p != ParamOp::GetParamNames ==> final(self).requested@.len() == old(self).requested@.len() + 1
                && param_request_made(op@, args@, old(self).access@, p, final(self).requested@.last()),
    {
        let graph = match ros.services() {
            Ok(g) => g,
            Err(e) => {
                proof {
                    assert(refusal(ros.handed()@[old(ros).handed()@.len() as int], crate::rosapi::parameter_target(op@, args@, old(self).access@)->Ok_0.2));
                }
                return Err(e);
            },
        };
        let ghost listing = crate::backend::listing(graph@);
        let ghost h_read = ros.handed()@;
        assert(h_read.last() == Handed::Services(Some(listing)));
        let mut calls: Vec<(String, String, &'static str, Json)> = Vec::new();
        if p == ParamOp::GetParamNames {
            let nodes = ros.nodes()?;
            let mut i: usize = 0;
            while i < nodes.len()
                invariant
                    i <= nodes@.len(),
                    list_calls(calls@),
                    responded(ros.handed()@) == responded(old(ros).handed()@),
                    ros.handed()@ == h_read,
                decreases nodes.len() - i,
            {
                let service = crate::bridge::concat(nodes[i].as_str(), "/list_parameters");
                if offered(&graph, service.as_str()) {
                    let ghost before = calls@;
                    let request = list_request_value();
                    calls.push((owned(nodes[i].as_str()), service, "ListParameters", request));
                    proof {
                        reveal_strlit("ListParameters");
                    }
                    assert forall|k: int| 0 <= k < calls@.len() implies #[trigger] calls@[k].2@ == "ListParameters"@ && calls@[k].3@ == crate::rosapi::list_request() by {
                        if k < before.len() {
                            assert(calls@[k] == before[k]);
                        }
                    }
                }
                i = i + 1;
            }
        } else {
            let t = target(op, args, &self.access)?;
            let payload = if p == ParamOp::SetParam {
                let value = text.parse(text_of(args, "value"))?;
                let parameter = parameter_value(&value)?;
                set_request_value(t.name.as_str(), parameter)
            } else {
                get_request_value(t.name.as_str())
            };
            if !offered(&graph, t.service.as_str()) {
                proof {
                    if listed_in(listing, t.service@) {
                        let k = choose|k: int| 0 <= k < listing.len() && #[trigger] listing[k].0 == t.service@;
                        assert(graph@[k].0@ == t.service@);
                    }
                    assert(refusal(ros.handed()@[old(ros).handed()@.len() as int], t.service@));
                }
                return Err(Error::around("Service ", t.service.as_str(), " is not available"));
            }
            calls.push((t.node, t.service, t.typ, payload));
        }
        assert(p != ParamOp::GetParamNames ==> calls@.len() == 1 && crate::rosapi::parameter_target(op@, args@, self.access@) is Ok
            && calls@[0].0@ == crate::rosapi::parameter_target(op@, args@, self.access@)->Ok_0.0
            && param_request_made(op@, args@, self.access@, p, made(calls@[0])));
        let ghost asked_before = self.requested@;
        let mut c: usize = 0;
        while c < calls.len()
            invariant
                c <= calls@.len(),
                self.wf(),
                responded(ros.handed()@) == responded(old(ros).handed()@),
                extends(old(ros).handed()@, ros.handed()@),
                extends(h_read, ros.handed()@),
                old(ros).handed()@.len() < h_read.len(),
                c > 0 ==> waiting(self.groups@, request),
                c > 0 ==> handed_as_logged(ros.handed()@, self.requested@.last()),
                p != ParamOp::GetParamNames && p != ParamOp::SetParam ==> crate::rosapi::parameter_target(op@, args@, old(self).access@) is Ok
                    && calls@[0].1@ == crate::rosapi::parameter_target(op@, args@, old(self).access@)->Ok_0.2,
                has_group(self.groups@, request),
                self.operations == old(self).operations,
                self.access == old(self).access,
                self.timeout == old(self).timeout,
                self.answered == old(self).answered,
                self.groups@.len() == old(self).groups@.len(),
                forall|k: int| 0 <= k < old(self).groups@.len() ==> same_request(#[trigger] self.groups@[k], old(self).groups@[k]),
                forall|k: int| 0 <= k < old(self).groups@.len() ==> #[trigger] self.groups@[k].names@ == old(self).groups@[k].names@,
                p != ParamOp::GetParamNames ==> calls@.len() == 1 && crate::rosapi::parameter_target(op@, args@, self.access@) is Ok
                    && calls@[0].0@ == crate::rosapi::parameter_target(op@, args@, self.access@)->Ok_0.0,
                p != ParamOp::GetParamNames && c == 1 ==> self.pending@.last().node@ == crate::rosapi::parameter_target(op@, args@, self.access@)->Ok_0.0,
                self.pending@.len() == old(self).pending@.len() + c,
                asked_before == old(self).requested@,
                self.requested@.len() == asked_before.len() + c,
                forall|k: int| 0 <= k < asked_before.len() ==> #[trigger] self.requested@[k] == asked_before[k],
                forall|k: int| asked_before.len() <= k < self.requested@.len() ==> #[trigger] self.requested@[k] == made(calls@[k - asked_before.len()]),
                p != ParamOp::GetParamNames ==> param_request_made(op@, args@, self.access@, p, made(calls@[0])),
                p == ParamOp::GetParamNames ==> list_calls(calls@),
                forall|k: int| 0 <= k < old(self).pending@.len() ==> #[trigger] self.pending@[k] == old(self).pending@[k],
                forall|k: int| old(self).pending@.len() <= k < self.pending@.len() ==> #[trigger] self.pending@[k].group == request,
                forall|k: int| old(self).pending@.len() <= k < self.pending@.len() ==> #[trigger] self.pending@[k].delete_check == (p == ParamOp::DeleteParam),
            decreases calls.len() - c,
        {
            let service_type = crate::bridge::concat("rcl_interfaces/srv/", calls[c].2);
            let entity = match ros.client(calls[c].1.as_str(), service_type.as_str()) {
                Ok(e) => e,
                Err(e) => {
                    proof {
                        let k = ros.handed()@.len() - 1;
                        assert(refusal(ros.handed()@[k], calls@[c as int].1@));
                    }
                    return Err(e);
                },
            };
            proof {
                let before = self.requested@;
                self.requested@ = self.requested@.push((calls@[c as int].1@, service_type@, calls@[c as int].3@));
                assert forall|k: int| asked_before.len() <= k < self.requested@.len() implies #[trigger] self.requested@[k] == made(calls@[k - asked_before.len()]) by {
                    if k < before.len() {
                        assert(self.requested@[k] == before[k]);
                    }
                }
            }
            let sequence = match ros.request(entity, &calls[c].3) {
                Ok(s) => s,
                Err(e) => {
                    proof {
                        crate::backend::lemma_handed(ros.handed()@);
                    }
                    let ghost refused_at = ros.handed()@.len() - 1;
                    assert(refusal(ros.handed()@[refused_at], calls@[c as int].1@));
                    ros.destroy(entity);
                    proof {
                        crate::backend::lemma_handed(ros.handed()@);
                        assert(ros.handed()@[refused_at] == ros.handed()@.drop_last()[refused_at]);
                    }
                    return Err(e);
                },
            };
            proof {
                crate::backend::lemma_handed(ros.handed()@);
            }
            let ghost before = self.pending@;
            self.pending.push(Pending {
                entity,
                sequence,
                group: request,
                node: owned(calls[c].0.as_str()),
                delete_check: p == ParamOp::DeleteParam,
            });
            assert forall|k: int| 0 <= k < self.pending@.len() implies has_group(self.groups@, #[trigger] self.pending@[k].group) by {
                if k < before.len() {
                    assert(self.pending@[k] == before[k]);
                }
            }
            let ghost pushed = self.pending@;
            let ghost gs = self.groups@;
            self.expect_reply(request);
            proof {
                let j = choose|j: int| 0 <= j < gs.len() && gs[j].request == request;
                assert(self.groups@[j].remaining > 0);
            }
            assert forall|k: int| 0 <= k < old(self).groups@.len() implies same_request(#[trigger] self.groups@[k], old(self).groups@[k]) by {
                assert(same_request(gs[k], old(self).groups@[k]));
            }
            assert forall|k: int| 0 <= k < old(self).groups@.len() implies #[trigger] self.groups@[k].names@ == old(self).groups@[k].names@ by {
                assert(gs[k].names@ == old(self).groups@[k].names@);
            }
            assert(self.pending@ == pushed);
            assert(pushed == before.push(pushed.last()));
            assert(pushed.last().group == request && pushed.last().delete_check == (p == ParamOp::DeleteParam));
            assert forall|k: int| 0 <= k < old(self).pending@.len() implies #[trigger] self.pending@[k] == old(self).pending@[k] by {
                assert(self.pending@[k] == before[k]);
            }
            assert forall|k: int| old(self).pending@.len() <= k < self.pending@.len() implies #[trigger] self.pending@[k].group == request by {
                if k < before.len() {
                    assert(self.pending@[k] == before[k]);
                }
            }
            assert forall|k: int| old(self).pending@.len() <= k < self.pending@.len() implies #[trigger] self.pending@[k].delete_check == (p == ParamOp::DeleteParam) by {
                if k < before.len() {
                    assert(self.pending@[k] == before[k]);
                }
            }
            c = c + 1;
        }
        Ok(())
    }
}

/// Whether every call is a request for a node's parameter list.
pub open spec fn list_calls(calls: Seq<(String, String, &'static str, Json)>) -> bool {
    forall|k: int| 0 <= k < calls.len() ==> #[trigger] calls[k].2@ == "ListParameters"@ && calls[k].3@ == crate::rosapi::list_request()
}

/// A request to a node's parameter service as it is logged: the service, its
/// interface type, and the request.
pub open spec fn made(call: (String, String, &'static str, Json)) -> (Seq<char>, Seq<char>, JsonV) {
    (call.1@, "rcl_interfaces/srv/"@ + call.2@, call.3@)
}

/// Whether `request` is what parameter operation `p` (named `op`) with
/// arguments `args` hands to its node's parameter service: that service and
/// its type, and the parameter's name with, to set it, the value given.
pub open spec fn param_request_made(op: Seq<char>, args: JsonV, a: AccessV, p: ParamOp, request: (Seq<char>, Seq<char>, JsonV)) -> bool {
    match crate::rosapi::parameter_target(op, args, a) {
        Ok(t) => {
            &&& request.0 == t.2
            &&& request.1 == "rcl_interfaces/srv/"@ + t.3
            &&& if p == ParamOp::SetParam {
                exists|v: JsonV| #[trigger] crate::parameters::parameter_message(v) is Some
                    && request.2 == crate::rosapi::set_request(t.1, crate::parameters::parameter_message(v)->Some_0)
            } else {
                request.2 == crate::rosapi::get_request(t.1)
            }
        },
        Err(_) => false,
    }
}

/// Whether record `after` is record `before` with more calls behind it.
pub open spec fn extends(before: Seq<Handed>, after: Seq<Handed>) -> bool {
    before.len() <= after.len() && after.take(before.len() as int) =~= before
}

/// Whether a listing names `name`.
pub open spec fn listed_in(l: Seq<(Seq<char>, Seq<Seq<char>>)>, name: Seq<char>) -> bool {
    exists|k: int| 0 <= k < l.len() && #[trigger] l[k].0 == name
}

/// Whether call `h`, made to ask a node through `service`, failed: the
/// service list could not be read or does not list `service`, or a client or
/// a request was refused.
pub open spec fn refusal(h: Handed, service: Seq<char>) -> bool {
    match h {
        Handed::Services(None) => true,
        Handed::Services(Some(l)) => !listed_in(l, service),
        Handed::Client(_, _, None) => true,
        Handed::Request(_, _, None) => true,
        _ => false,
    }
}

/// Whether one of the calls added between records `before` and `after`
/// failed in asking a node through `service`.
pub open spec fn asking_failed(before: Seq<Handed>, after: Seq<Handed>, service: Seq<char>) -> bool {
    exists|k: int| before.len() <= k < after.len() && #[trigger] refusal(after[k], service)
}

/// Whether the last entity asked of the backend in record `h` and the last
/// request handed to it are the service, its type and the request logged as
/// `made`.
pub open spec fn handed_as_logged(h: Seq<Handed>, made: (Seq<char>, Seq<char>, JsonV)) -> bool {
    &&& crate::backend::asked_of(h).len() > 0
    &&& crate::backend::asked_of(h).last() == (made.0, made.1)
    &&& crate::backend::requested_of(h).len() > 0
    &&& crate::backend::requested_of(h).last().1 == made.2
}

/// Whether parameter request `id` is among `gs` and waits for a reply.
pub open spec fn waiting(gs: Seq<Group>, id: u64) -> bool {
    exists|j: int| 0 <= j < gs.len() && gs[j].request == id && #[trigger] gs[j].remaining > 0
}

/// Whether the replies handed to the backend from record `before` to record
/// `after` are, in order, the answers added to the log from `a` to `b`.
pub open spec fn handed_answers(before: Seq<Handed>, after: Seq<Handed>, a: Seq<(Entity, u64, JsonV)>, b: Seq<(Entity, u64, JsonV)>) -> bool {
    &&& a.len() <= b.len()
    &&& b.take(a.len() as int) =~= a
    &&& responded(after) =~= responded(before) + b.skip(a.len() as int)
}

/// Handing no reply adds no answer.
pub proof fn lemma_no_answer(before: Seq<Handed>, after: Seq<Handed>, a: Seq<(Entity, u64, JsonV)>)
    requires
        responded(after) == responded(before),
    ensures
        handed_answers(before, after, a, a),
{
    assert(a.take(a.len() as int) =~= a);
    assert(responded(before) + a.skip(a.len() as int) =~= responded(before));
}

/// Handing one reply adds it as the one answer.
pub proof fn lemma_one_answer(before: Seq<Handed>, after: Seq<Handed>, a: Seq<(Entity, u64, JsonV)>, x: (Entity, u64, JsonV))
    requires
        responded(after) == responded(before).push(x),
    ensures
        handed_answers(before, after, a, a.push(x)),
{
    assert(a.push(x).take(a.len() as int) =~= a);
    assert(responded(before) + a.push(x).skip(a.len() as int) =~= responded(before).push(x));
}

/// The replies handed over two stretches are those of the two, one after the other.
pub proof fn lemma_answers_trans(h0: Seq<Handed>, h1: Seq<Handed>, h2: Seq<Handed>, a0: Seq<(Entity, u64, JsonV)>, a1: Seq<(Entity, u64, JsonV)>, a2: Seq<(Entity, u64, JsonV)>)
    requires
        handed_answers(h0, h1, a0, a1),
        handed_answers(h1, h2, a1, a2),
    ensures
        handed_answers(h0, h2, a0, a2),
{
    assert(a2.take(a0.len() as int) =~= a1.take(a0.len() as int)) by {
        assert forall|k: int| 0 <= k < a0.len() implies a2.take(a0.len() as int)[k] == a1.take(a0.len() as int)[k] by {
            assert(a2.take(a1.len() as int)[k] == a1[k]);
        }
    }
    assert(a1.skip(a0.len() as int) + a2.skip(a1.len() as int) =~= a2.skip(a0.len() as int)) by {
        assert forall|k: int| 0 <= k < a2.len() - a0.len() implies (a1.skip(a0.len() as int) + a2.skip(a1.len() as int))[k] == a2.skip(a0.len() as int)[k] by {
            if k < a1.len() - a0.len() {
                assert(a2.take(a1.len() as int)[k + a0.len()] == a1[k + a0.len()]);
            }
        }
    }
    assert(responded(h0) + a1.skip(a0.len() as int) + a2.skip(a1.len() as int) =~= responded(h0) + a2.skip(a0.len() as int));
}

/// `now + timeout`, stopping at the largest time.
pub open spec fn saturating(now: u64, timeout: u64) -> u64 {
    if now + timeout > u64::MAX {
        u64::MAX
    } else {
        (now + timeout) as u64
    }
}

/// Whether parameter request `request` of operation `op` to `service` either
/// waits for replies until `deadline`, or has been answered as the one
/// answer given since `before`.
pub open spec fn waits_or_answered(api: &Api, before: Seq<(Entity, u64, JsonV)>, service: Entity, request: u64, op: ParamOp, deadline: u64) -> bool {
    ||| {
        &&& has_group(api.groups@, request)
        &&& group_of(api.groups@, request).service == service
        &&& group_of(api.groups@, request).op == op
        &&& group_of(api.groups@, request).deadline == deadline
        &&& group_of(api.groups@, request).remaining > 0
        &&& api.answered@ == before
    }
    ||| {
        &&& !has_group(api.groups@, request)
        &&& api.answered@.len() == before.len() + 1
        &&& api.answered@.drop_last() == before
        &&& api.answered@.last().0 == service
        &&& api.answered@.last().1 == request
    }
}

/// A request found again after its group changed only in what `same_request`
/// leaves out and not in its names keeps its operation and names.
proof fn lemma_group_kept(before: Seq<Group>, after: Seq<Group>, id: u64)
    requires
        before.len() == after.len(),
        forall|k: int| 0 <= k < before.len() ==> same_request(#[trigger] after[k], before[k]),
        forall|k: int| 0 <= k < before.len() ==> #[trigger] after[k].names@ == before[k].names@,
        forall|i: int, j: int| 0 <= i < j < before.len() ==> #[trigger] before[i].request != #[trigger] before[j].request,
        has_group(before, id),
    ensures
        has_group(after, id),
        group_of(after, id).op == group_of(before, id).op,
        group_of(after, id).names@ == group_of(before, id).names@,
{
    let i = choose|i: int| 0 <= i < before.len() && before[i].request == id;
    assert(same_request(after[i], before[i]));
    assert(after[i].request == id);
    let a = choose|a: int| 0 <= a < after.len() && after[a].request == id;
    assert(same_request(after[a], before[a]));
    assert(before[a].request == id);
    if a < i {
        assert(before[a].request != before[i].request);
    } else if i < a {
        assert(before[i].request != before[a].request);
    }
}

/// Whether `reply` answers a parameter request of operation `op` that got no
/// value from a node: no names, no value (the request's default), or the
/// outcome, with `error` where asking failed.
pub open spec fn reply_without_value(op: ParamOp, error: Option<Seq<char>>, reply: JsonV) -> bool {
    match op {
        ParamOp::GetParamNames => reply == crate::rosapi::single("names"@, crate::rosapi::str_array(Seq::empty())),
        ParamOp::HasParam => reply == crate::rosapi::has_reply(None, error),
        ParamOp::GetParam => exists|text: Seq<char>| reply == #[trigger] crate::rosapi::get_reply(text, error),
        _ => reply == crate::rosapi::set_reply(error),
    }
}

impl Api {
    /// Starts parameter request `request` to `service` at time `now`: it is
    /// answered at once where asking the nodes fails or there is nobody to
    /// ask, and otherwise once the replies have come.
    fn parameter<D: Discovery, T: JsonText>(&mut self, ros: &mut D, service: Entity, request: u64, op: &str, p: ParamOp, args: Json, now: u64, text: &T) -> (r: Result<(), Error>)
        requires
            old(self).wf(),
        ensures
            handed_answers(old(ros).handed()@, final(ros).handed()@, old(self).answered@, final(self).answered@),
            final(self).wf(),
            final(self).operations == old(self).operations,
            final(self).access == old(self).access,
            final(self).timeout == old(self).timeout,
            waits_or_answered(final(self), old(self).answered@, service, request, p, saturating(now, old(self).timeout)),
            has_group(final(self).groups@, request) && p != ParamOp::GetParamNames ==> final(self).pending@.len() > 0
                && final(self).pending@.last().group == request
                && (p != ParamOp::GetParamNames ==> crate::rosapi::parameter_target(op@, args@, old(self).access@) is Ok
                    && final(self).pending@.last().node@ == crate::rosapi::parameter_target(op@, args@, old(self).access@)->Ok_0.0),
            !has_group(final(self).groups@, request) ==> exists|e: Option<Seq<char>>| #[trigger] reply_without_value(p, e, final(self).answered@.last().2),
            p != ParamOp::GetParamNames && crate::rosapi::parameter_target(op@, args@, old(self).access@) is Err ==> !has_group(final(self).groups@, request),
            extends(old(ros).handed()@, final(ros).handed()@),
            p != ParamOp::GetParamNames && p != ParamOp::SetParam && crate::rosapi::parameter_target(op@, args@, old(self).access@) is Ok
                && !has_group(final(self).groups@, request)
                ==> asking_failed(old(ros).handed()@, final(ros).handed()@, crate::rosapi::parameter_target(op@, args@, old(self).access@)->Ok_0.2),
    {
        let planned = args.copy();
        self.start(Group {
            service,
            request,
            op: p,
            args,
            remaining: 0,
            names: Vec::new(),
            deadline: now.saturating_add(self.timeout),
        });
        let ghost started = self.groups@;
        assert(group_of(started, request).names@ == Seq::<String>::empty());
        match self.calls(ros, request, op, p, &planned, text) {
            Err(e) => {
                proof {
                    lemma_group_kept(started, self.groups@, request);
                }
                let ghost m = e.message@;
                let ghost h_mid = ros.handed()@;
                let r = self.finish(ros, request, None, Some(e.message), text);
                proof {
                    if p != ParamOp::GetParamNames && p != ParamOp::SetParam && crate::rosapi::parameter_target(op@, args@, old(self).access@) is Ok {
                        let service = crate::rosapi::parameter_target(op@, args@, old(self).access@)->Ok_0.2;
                        let k = choose|k: int| old(ros).handed()@.len() <= k < h_mid.len() && #[trigger] refusal(h_mid[k], service);
                        assert(ros.handed()@.take(h_mid.len() as int)[k] == h_mid[k]);
                        assert(refusal(ros.handed()@[k], service));
                    }
                    assert(views(group_of(started, request).names@) =~= Seq::<Seq<char>>::empty());
                    assert(reply_without_value(p, Some(m), self.answered@.last().2));
                }
                r
            },
            Ok(()) => {
                let i = group_index(&self.groups, request);
                if self.groups[i].remaining == 0 {
                    proof {
                        lemma_group_kept(started, self.groups@, request);
                        if p != ParamOp::GetParamNames {
                            let j = choose|j: int| 0 <= j < self.groups@.len() && self.groups@[j].request == request && #[trigger] self.groups@[j].remaining > 0;
                            if j != i {
                                if j < i {
                                    assert(self.groups@[j].request != self.groups@[i as int].request);
                                } else {
                                    assert(self.groups@[i as int].request != self.groups@[j].request);
                                }
                            }
                        }
                    }
                    let r = self.finish(ros, request, None, None, text);
                    proof {
                        assert(views(group_of(started, request).names@) =~= Seq::<Seq<char>>::empty());
                        assert(reply_without_value(p, None, self.answered@.last().2));
                    }
                    r
                } else {
                    Ok(())
                }
            },
        }
    }

    /// Handles the reply that `pending` waited for: a parameter that exists is
    /// then deleted; parameter names are gathered until every node has
    /// replied; a value or an outcome answers the request.
    fn parameter_response<D: Discovery, T: JsonText>(&mut self, ros: &mut D, pending: Pending, response: &Json, text: &T) -> (r: Result<(), Error>)
        requires
            old(self).wf(),
            has_group(old(self).groups@, pending.group),
        ensures
            handed_answers(old(ros).handed()@, final(ros).handed()@, old(self).answered@, final(self).answered@),
            final(self).wf(),
            final(self).operations == old(self).operations,
            final(self).access == old(self).access,
            final(self).timeout == old(self).timeout,
            ({
                let g = group_of(old(self).groups@, pending.group);
                let answers = final(self).answered@.len() == old(self).answered@.len() + 1
                    && final(self).answered@.drop_last() == old(self).answered@
                    && final(self).answered@.last().0 == g.service
                    && final(self).answered@.last().1 == pending.group
                    && !has_group(final(self).groups@, pending.group);
                &&& pending.delete_check && !crate::rosapi::exists_outcome(response@) ==> answers
                    && final_reply(g, None, None, final(self).answered@.last().2)
                &&& pending.delete_check && crate::rosapi::exists_outcome(response@) && r is Ok ==> answers
                    || (final(self).answered@ == old(self).answered@
                    && final(self).pending@.last().group == pending.group && !final(self).pending@.last().delete_check
                    && final(self).pending@.last().node@ == pending.node@)
                &&& !pending.delete_check && (g.op == ParamOp::GetParam || g.op == ParamOp::HasParam) ==> answers
                    && final_reply(g, crate::rosapi::get_outcome(response@).0, crate::rosapi::get_outcome(response@).1, final(self).answered@.last().2)
                &&& !pending.delete_check && (g.op == ParamOp::SetParam || g.op == ParamOp::DeleteParam) ==> answers
                    && final_reply(g, None, crate::rosapi::set_outcome(response@), final(self).answered@.last().2)
            }),
            r is Ok ==> took_reply(*old(self), *final(self), pending, response@),
    {
        let gi = group_index(&self.groups, pending.group);
        let ghost before = self.groups@;
        let mut g = self.groups.remove(gi);
        g.remaining = if g.remaining > 0 { g.remaining - 1 } else { 0 };
        let op = g.op;
        let name = match split_once_char(text_of(&g.args, "name"), ':') {
            Some((_, n)) => n,
            None => String::new(),
        };
        let ghost updated = g;
        self.groups.insert(gi, g);
        proof {
            assert(self.groups@ =~= before.update(gi as int, updated));
            lemma_groups_update(before, gi as int, updated);
            let j = choose|j: int| 0 <= j < before.len() && before[j].request == pending.group;
            assert(before[gi as int].request == pending.group);
            assert(j == gi as int);
            let j2 = choose|j: int| 0 <= j < self.groups@.len() && self.groups@[j].request == pending.group;
            assert(self.groups@[gi as int].request == pending.group);
            assert(j2 == gi as int);
            assert(group_of(self.groups@, pending.group) == updated);
            assert forall|a: int, b: int| 0 <= a < b < self.groups@.len() implies #[trigger] self.groups@[a].request != #[trigger] self.groups@[b].request by {
                assert(group_ids(self.groups@)[a] == group_ids(before)[a]);
                assert(group_ids(self.groups@)[b] == group_ids(before)[b]);
            }
        }
        if pending.delete_check {
            if !exists_outcome_of(response) {
                return self.finish(ros, pending.group, None, None, text);
            }
            let service = crate::bridge::concat(pending.node.as_str(), "/set_parameters");
            let entity = ros.client(service.as_str(), "rcl_interfaces/srv/SetParameters")?;
            let unset = set_request_value(name.as_str(), unset_value_json());
            let sequence = match ros.request(entity, &unset) {
                Ok(s) => s,
                Err(e) => {
                    proof {
                        crate::backend::lemma_handed(ros.handed()@);
                    }
                    ros.destroy(entity);
                    proof {
                        crate::backend::lemma_handed(ros.handed()@);
                    }
                    return self.finish(ros, pending.group, None, Some(e.message), text);
                },
            };
            proof {
                crate::backend::lemma_handed(ros.handed()@);
            }
            self.expect_reply(pending.group);
            let ghost ps = self.pending@;
            self.pending.push(Pending { entity, sequence, group: pending.group, node: pending.node, delete_check: false });
            assert forall|k: int| 0 <= k < self.pending@.len() implies has_group(self.groups@, #[trigger] self.pending@[k].group) by {
                if k < ps.len() {
                    assert(self.pending@[k] == ps[k]);
                }
            }
            return Ok(());
        }
        match op {
            ParamOp::GetParamNames => {
                let listed = listed_names_of(pending.node.as_str(), response, &self.access);
                let gi = group_index(&self.groups, pending.group);
                let ghost before = self.groups@;
                let mut g = self.groups.remove(gi);
                let mut k: usize = 0;
                while k < listed.len()
                    invariant
                        k <= listed@.len(),
                        g.request == pending.group,
                    decreases listed.len() - k,
                {
                    g.names.push(owned(listed[k].as_str()));
                    k = k + 1;
                }
                let done = g.remaining == 0;
                let ghost updated = g;
                self.groups.insert(gi, g);
                proof {
                    assert(self.groups@ =~= before.update(gi as int, updated));
                    lemma_groups_update(before, gi as int, updated);
                    assert forall|a: int, b: int| 0 <= a < b < self.groups@.len() implies #[trigger] self.groups@[a].request != #[trigger] self.groups@[b].request by {
                        assert(group_ids(self.groups@)[a] == group_ids(before)[a]);
                        assert(group_ids(self.groups@)[b] == group_ids(before)[b]);
                    }
                }
                if done {
                    self.finish(ros, pending.group, None, None, text)?;
                }
                Ok(())
            },
            ParamOp::GetParam | ParamOp::HasParam => {
                let (value, error) = get_outcome_of(response);
                self.finish(ros, pending.group, value, error, text)
            },
            _ => {
                let error = set_outcome_of(response);
                self.finish(ros, pending.group, None, error, text)
            },
        }
    }
}

/// Whether an event is a request to a rosapi service.
pub open spec fn for_rosapi(e: Event, ops: Seq<(Entity, &'static str)>) -> bool {
    match e {
        Event::Request { entity, .. } => serves(ops, entity),
        _ => false,
    }
}

/// Whether `after` is `before` with one reply more, to request `request` to
/// `entity`: a reply that graph operation `op` gives to `args` for some
/// outcome of its reads.
pub open spec fn graph_reply_logged(before: Seq<(Entity, u64, JsonV)>, after: Seq<(Entity, u64, JsonV)>, entity: Entity, request: u64, op: Seq<char>, a: AccessV, args: JsonV) -> bool {
    &&& after.len() == before.len() + 1
    &&& after.drop_last() == before
    &&& after.last().0 == entity
    &&& after.last().1 == request
    &&& crate::rosapi::graph_op_of(op) matches Some(g) && crate::rosapi::replied(g, a, args, op, after.last().2)
}

/// What answering request `request` to `entity` (operation `op`, arguments
/// `args`) at time `now` does to the node `a`: a parameter request either
/// waits for its nodes or has been answered without a value (at once where
/// its target is refused); a graph request leaves the parameter requests
/// alone and has its reply logged, surely where no read can fail.
pub open spec fn answered_as(a: Api, b: Api, entity: Entity, request: u64, op: Seq<char>, args: JsonV, now: u64) -> bool {
    &&& b.wf()
    &&& b.operations == a.operations
    &&& b.access == a.access
    &&& b.timeout == a.timeout
    &&& match crate::rosapi::param_op_of(op) {
        Some(p) => waits_or_answered(&b, a.answered@, entity, request, p, saturating(now, a.timeout))
            && (!has_group(b.groups@, request) ==> exists|e: Option<Seq<char>>| #[trigger] reply_without_value(p, e, b.answered@.last().2))
            && (p != ParamOp::GetParamNames && crate::rosapi::parameter_target(op, args, a.access@) is Err
                ==> !has_group(b.groups@, request)),
        None => b.groups == a.groups && b.pending == a.pending
            && (b.answered@ == a.answered@ || graph_reply_logged(a.answered@, b.answered@, entity, request, op, a.access@, args))
            && (crate::rosapi::graph_op_of(op) matches Some(g) && crate::rosapi::cannot_fail(g, a.access@, args)
                ==> graph_reply_logged(a.answered@, b.answered@, entity, request, op, a.access@, args)),
    }
}

/// What handling event `e` at time `now` does to the node `a`: a request to
/// one of its services is answered as [`answered_as`] states (a request that
/// fails is discarded); a reply that a parameter request waits for is taken
/// as [`took_reply`] states; anything else leaves the node as it was.
pub open spec fn processed(a: Api, b: Api, e: Event, now: u64) -> bool {
    match e {
        Event::Request { entity, request, args } => if serves(a.operations@, entity) {
            exists|k: int| 0 <= k < a.operations@.len() && a.operations@[k].0 == entity
                && #[trigger] answered_as(a, b, entity, request, a.operations@[k].1@, args@, now)
        } else {
            b == a
        },
        Event::Response { entity, sequence, values } => if awaited(a.pending@, entity, sequence) {
            exists|k: int| 0 <= k < a.pending@.len() && a.pending@[k].entity == entity && a.pending@[k].sequence == sequence
                && #[trigger] took_reply(a, b, a.pending@[k], values@)
        } else {
            b == a
        },
        Event::Message(..) => b == a,
    }
}

/// Whether state `k + 1` follows from state `k` by handling event `k`.
pub open spec fn processed_at(states: Seq<Api>, events: Seq<Event>, k: int, now: u64) -> bool {
    processed(states[k], states[k + 1], events[k], now)
}

/// What taking reply `response`, awaited as `p`, does to the node `a`: the
/// parameter request is answered with the value or outcome the reply gives
/// (a deletion first learns whether the parameter exists, and then asks its
/// node to delete it, or answers at once where it does not exist).
pub open spec fn took_reply(a: Api, b: Api, p: Pending, response: JsonV) -> bool {
    let g = group_of(a.groups@, p.group);
    let answers = b.answered@.len() == a.answered@.len() + 1
        && b.answered@.drop_last() == a.answered@
        && b.answered@.last().0 == g.service
        && b.answered@.last().1 == p.group
        && !has_group(b.groups@, p.group);
    &&& b.wf()
    &&& b.operations == a.operations
    &&& b.access == a.access
    &&& b.timeout == a.timeout
    &&& p.delete_check && !crate::rosapi::exists_outcome(response) ==> answers
        && final_reply(g, None, None, b.answered@.last().2)
    &&& p.delete_check && crate::rosapi::exists_outcome(response) ==> answers
        || (b.answered@ == a.answered@
        && b.pending@.last().group == p.group && !b.pending@.last().delete_check
        && b.pending@.last().node@ == p.node@)
    &&& !p.delete_check && (g.op == ParamOp::GetParam || g.op == ParamOp::HasParam) ==> answers
        && final_reply(g, crate::rosapi::get_outcome(response).0, crate::rosapi::get_outcome(response).1, b.answered@.last().2)
    &&& !p.delete_check && (g.op == ParamOp::SetParam || g.op == ParamOp::DeleteParam) ==> answers
        && final_reply(g, None, crate::rosapi::set_outcome(response), b.answered@.last().2)
}

/// Whether `x` answers, as timed out, a parameter request of `gs` that has
/// waited until `now`.
pub open spec fn timeout_answer(gs: Seq<Group>, x: (Entity, u64, JsonV), now: u64) -> bool {
    exists|j: int| 0 <= j < gs.len() && #[trigger] gs[j].deadline <= now && x.0 == gs[j].service && x.1 == gs[j].request
        && final_reply(gs[j], None, Some("Timeout occurred"@), x.2)
}

/// Whether `b` is `a` after the parameter requests that waited until `now`
/// were answered as timed out: only such answers were added, and what waits
/// still was waiting before.
pub open spec fn timed_out(a: Api, b: Api, now: u64) -> bool {
    &&& b.answered@.len() >= a.answered@.len()
    &&& forall|k: int| 0 <= k < a.answered@.len() ==> #[trigger] b.answered@[k] == a.answered@[k]
    &&& forall|k: int| a.answered@.len() <= k < b.answered@.len() ==> timeout_answer(a.groups@, #[trigger] b.answered@[k], now)
    &&& forall|k: int| 0 <= k < b.groups@.len() ==> a.groups@.contains(#[trigger] b.groups@[k])
}

/// Whether an event is handed on whatever the parameter requests wait for:
/// a topic message, or a request to a service that is not rosapi's.
pub open spec fn handed_on(e: Event, ops: Seq<(Entity, &'static str)>) -> bool {
    match e {
        Event::Message(..) => true,
        Event::Request { entity, .. } => !serves(ops, entity),
        Event::Response { .. } => false,
    }
}

/// The events of `s` that are handed on whatever the parameter requests wait for.
pub open spec fn forwarded(s: Seq<Event>, ops: Seq<(Entity, &'static str)>) -> Seq<Event> {
    s.filter(|e: Event| handed_on(e, ops))
}

impl Api {
    /// Answers a request to rosapi operation `op`: a parameter service starts
    /// a parameter request, any other is answered from the graph at once.
    fn answer<D: Discovery, T: JsonText>(&mut self, ros: &mut D, entity: Entity, request: u64, op: &'static str, args: &Json, now: u64, text: &T) -> (r: Result<(), Error>)
        requires
            old(self).wf(),
        ensures
            handed_answers(old(ros).handed()@, final(ros).handed()@, old(self).answered@, final(self).answered@),
            final(self).wf(),
            final(self).operations == old(self).operations,
            final(self).access == old(self).access,
            final(self).timeout == old(self).timeout,
            answered_as(*old(self), *final(self), entity, request, op@, args@, now),
            r is Ok && crate::rosapi::param_op_of(op@) is None
                ==> graph_reply_logged(old(self).answered@, final(self).answered@, entity, request, op@, old(self).access@, args@),
    {
        match param_op(op) {
            Some(p) => self.parameter(ros, entity, request, op, p, args.copy(), now, text),
            None => {
                let (outcome, _, _) = reply(ros, &self.access, op, args);
                let value = outcome?;
                proof {
                    self.answered@ = self.answered@.push((entity, request, value@));
                    assert(self.answered@.drop_last() =~= old(self).answered@);
                }
                ros.respond(entity, request, &value)
            },
        }
    }

    /// Handles the events that ROS reported at time `now` (nanoseconds):
    /// requests to rosapi's services are answered (a request that fails is
    /// discarded), replies that parameter requests wait for are taken, and
    /// every other event is handed back, in order. Parameter requests that
    /// waited until `now` are then answered as timed out.
    pub fn process<D: Discovery, T: JsonText>(&mut self, ros: &mut D, events: Vec<Event>, now: u64, text: &T) -> (r: Result<Vec<Event>, Error>)
        requires
            old(self).wf(),
        ensures
            r is Ok ==> handed_answers(old(ros).handed()@, final(ros).handed()@, old(self).answered@, final(self).answered@),
            final(self).wf(),
            final(self).operations == old(self).operations,
            final(self).access == old(self).access,
            final(self).timeout == old(self).timeout,
            r matches Ok(out) ==> forwarded(out@, old(self).operations@) == forwarded(events@, old(self).operations@),
            r matches Ok(out) ==> forall|k: int| 0 <= k < out@.len() ==> !for_rosapi(#[trigger] out@[k], old(self).operations@),
            r is Ok ==> forall|k: int| 0 <= k < final(self).groups@.len() ==> #[trigger] final(self).groups@[k].deadline > now,
            r is Ok ==> exists|states: Seq<Api>| {
                &&& states.len() == events@.len() + 1
                &&& states[0] == *old(self)
                &&& forall|k: int| 0 <= k < events@.len() ==> #[trigger] processed_at(states, events@, k, now)
                &&& timed_out(states.last(), *final(self), now)
            },
            quiet(events@, old(self).operations@, old(self).pending@, old(self).groups@, now) ==> (r matches Ok(out) && out@ == events@
                && final(self).groups == old(self).groups && final(self).pending == old(self).pending
                && final(self).answered@ == old(self).answered@),
    {
        let ghost calm = quiet(events@, old(self).operations@, old(self).pending@, old(self).groups@, now);
        let ghost ops = self.operations@;
        let ghost all = events@;
        let ghost keep = |e: Event| handed_on(e, ops);
        let mut queue = events;
        let mut out: Vec<Event> = Vec::new();
        let ghost mut done: Seq<Event> = Seq::empty();
        let ghost mut states: Seq<Api> = seq![*self];
        assert(forwarded(done, ops) =~= Seq::<Event>::empty()) by {
            reveal(Seq::filter);
        }
        assert(forwarded(out@, ops) =~= Seq::<Event>::empty()) by {
            reveal(Seq::filter);
        }
        proof {
            lemma_no_answer(ros.handed()@, ros.handed()@, self.answered@);
        }
        while queue.len() > 0
            invariant
                handed_answers(old(ros).handed()@, ros.handed()@, old(self).answered@, self.answered@),
                self.wf(),
                self.operations == old(self).operations,
                ops == old(self).operations@,
                self.access == old(self).access,
                self.timeout == old(self).timeout,
                keep == (|e: Event| handed_on(e, ops)),
                done + queue@ == all,
                all == events@,
                states.len() == done.len() + 1,
                states[0] == *old(self),
                states.last() == *self,
                forall|k: int| 0 <= k < done.len() ==> #[trigger] processed_at(states, done, k, now),
                forwarded(out@, ops) == forwarded(done, ops),
                forall|k: int| 0 <= k < out@.len() ==> !for_rosapi(#[trigger] out@[k], ops),
                calm == quiet(all, old(self).operations@, old(self).pending@, old(self).groups@, now),
                calm ==> self.groups == old(self).groups && self.pending == old(self).pending
                    && self.answered@ == old(self).answered@ && out@ == done,
            decreases queue@.len(),
        {
            let ghost rest = queue@;
            let event = queue.remove(0);
            let ghost e = event;
            assert(rest[0] == e);
            assert(all[done.len() as int] == e);
            let ghost before = out@;
            let ghost pre = *self;
            let ghost h_pre = ros.handed()@;
            match event {
                Event::Request { entity, request, args } => {
                    match operation_of(&self.operations, entity) {
                        Some(op) => {
                            let answered = self.answer(ros, entity, request, op, &args, now, text);
                            let ghost h_mid = ros.handed()@;
                            if answered.is_err() {
                                ros.discard_request(entity, request);
                                proof {
                                    crate::backend::lemma_handed(ros.handed()@);
                                    lemma_no_answer(h_mid, ros.handed()@, self.answered@);
                                    lemma_answers_trans(h_pre, h_mid, ros.handed()@, pre.answered@, self.answered@, self.answered@);
                                }
                            }
                        },
                        None => {
                            out.push(Event::Request { entity, request, args });
                        },
                    }
                },
                Event::Response { entity, sequence, values } => {
                    let k = pending_index(&self.pending, entity, sequence);
                    if k < self.pending.len() {
                        let ghost ps = self.pending@;
                        proof {
                            if calm {
                                assert(awaited(old(self).pending@, entity, sequence));
                                assert(all[done.len() as int] matches Event::Response { entity, sequence, .. } && awaited(old(self).pending@, entity, sequence));
                            }
                        }
                        let p = self.pending.remove(k);
                        assert(has_group(self.groups@, ps[k as int].group));
                        assert forall|j: int| 0 <= j < self.pending@.len() implies has_group(self.groups@, #[trigger] self.pending@[j].group) by {
                            if j < k {
                                assert(self.pending@[j] == ps[j]);
                            } else {
                                assert(self.pending@[j] == ps[j + 1]);
                            }
                        }
                        ros.destroy(entity);
                        proof {
                            crate::backend::lemma_handed(ros.handed()@);
                        }
                        let ghost h_mid = ros.handed()@;
                        let ghost mid = *self;
                        let ghost taken = p;
                        if let Err(e) = self.parameter_response(ros, p, &values, text) {
                            return Err(e);
                        }
                        proof {
                            lemma_no_answer(h_pre, h_mid, pre.answered@);
                            lemma_answers_trans(h_pre, h_mid, ros.handed()@, pre.answered@, mid.answered@, self.answered@);
                            assert(took_reply(mid, *self, taken, values@));
                            assert(took_reply(pre, *self, pre.pending@[k as int], values@));
                        }
                    } else {
                        out.push(Event::Response { entity, sequence, values });
                    }
                },
                Event::Message(entity, message) => {
                    out.push(Event::Message(entity, message));
                },
            }
            proof {
                if ros.handed()@ == h_pre && self.answered@ == pre.answered@ {
                    lemma_no_answer(h_pre, h_pre, pre.answered@);
                }
                lemma_answers_trans(old(ros).handed()@, h_pre, ros.handed()@, old(self).answered@, pre.answered@, self.answered@);
                assert(processed(pre, *self, e, now));
                let grown = states.push(*self);
                assert forall|k: int| 0 <= k < done.len() + 1 implies #[trigger] processed_at(grown, done.push(e), k, now) by {
                    if k < done.len() {
                        assert(processed_at(states, done, k, now));
                        assert(grown[k] == states[k] && grown[k + 1] == states[k + 1]);
                    } else {
                        assert(grown[k] == pre && grown[k + 1] == *self);
                    }
                }
                states = grown;
                lemma_filter_push(done, e, keep);
                if out@.len() > before.len() {
                    assert(out@ == before.push(e));
                    lemma_filter_push(before, e, keep);
                }
                assert(rest =~= seq![e] + queue@);
                assert(done.push(e) + queue@ =~= done + rest);
                done = done.push(e);
            }
        }
        assert(done =~= all);
        let ghost mid = *self;
        loop
            invariant
                self.wf(),
                self.operations == old(self).operations,
                ops == old(self).operations@,
                self.access == old(self).access,
                self.timeout == old(self).timeout,
                calm ==> self.groups == old(self).groups && self.pending == old(self).pending
                    && self.answered@ == old(self).answered@,
                calm ==> forall|k: int| 0 <= k < self.groups@.len() ==> #[trigger] self.groups@[k].deadline > now,
                calm == quiet(all, old(self).operations@, old(self).pending@, old(self).groups@, now),
                all == events@,
                timed_out(mid, *self, now),
                mid.wf(),
                handed_answers(old(ros).handed()@, ros.handed()@, old(self).answered@, self.answered@),
            ensures
                handed_answers(old(ros).handed()@, ros.handed()@, old(self).answered@, self.answered@),

                timed_out(mid, *self, now),
                calm == quiet(all, old(self).operations@, old(self).pending@, old(self).groups@, now),
                self.wf(),
                self.operations == old(self).operations,
                ops == old(self).operations@,
                self.access == old(self).access,
                self.timeout == old(self).timeout,
                forall|k: int| 0 <= k < self.groups@.len() ==> #[trigger] self.groups@[k].deadline > now,
                calm ==> self.groups == old(self).groups && self.pending == old(self).pending
                    && self.answered@ == old(self).answered@,
            decreases self.groups@.len(),
        {
            let mut k: usize = 0;
            while k < self.groups.len()
                invariant
                    k <= self.groups@.len(),
                    forall|j: int| 0 <= j < k ==> #[trigger] self.groups@[j].deadline > now,
                ensures
                    k <= self.groups@.len(),
                    forall|j: int| 0 <= j < k ==> #[trigger] self.groups@[j].deadline > now,
                    k < self.groups@.len() ==> self.groups@[k as int].deadline <= now,
                decreases self.groups.len() - k,
            {
                if self.groups[k].deadline <= now {
                    break;
                }
                k = k + 1;
            }
            if k == self.groups.len() {
                break;
            }
            let id = self.groups[k].request;
            assert(has_group(self.groups@, id));
            let ghost pre = *self;
            let ghost h_pre = ros.handed()@;
            let ghost g = self.groups@[k as int];
            proof {
                let j = choose|j: int| 0 <= j < pre.groups@.len() && pre.groups@[j].request == id;
                if j != k {
                    if j < k {
                        assert(pre.groups@[j].request != pre.groups@[k as int].request);
                    } else {
                        assert(pre.groups@[k as int].request != pre.groups@[j].request);
                    }
                }
                assert(group_of(pre.groups@, id) == g);
                assert(mid.groups@.contains(pre.groups@[k as int]));
            }
            if let Err(e) = self.finish(ros, id, None, Some(owned("Timeout occurred")), text) {
                return Err(e);
            }
            proof {
                lemma_answers_trans(old(ros).handed()@, h_pre, ros.handed()@, old(self).answered@, pre.answered@, self.answered@);
            }
            proof {
                let j = choose|j: int| 0 <= j < mid.groups@.len() && mid.groups@[j] == g;
                assert(timeout_answer(mid.groups@, self.answered@.last(), now)) by {
                    assert(mid.groups@[j].deadline <= now);
                }
                assert forall|x: int| mid.answered@.len() <= x < self.answered@.len() implies timeout_answer(mid.groups@, #[trigger] self.answered@[x], now) by {
                    if x < pre.answered@.len() {
                        assert(self.answered@[x] == pre.answered@[x]);
                    }
                }
                assert forall|x: int| 0 <= x < mid.answered@.len() implies #[trigger] self.answered@[x] == mid.answered@[x] by {
                    assert(self.answered@[x] == pre.answered@[x]);
                }
                assert forall|x: int| 0 <= x < self.groups@.len() implies mid.groups@.contains(#[trigger] self.groups@[x]) by {
                    assert(pre.groups@.contains(self.groups@[x]));
                    let y = choose|y: int| 0 <= y < pre.groups@.len() && pre.groups@[y] == self.groups@[x];
                    assert(mid.groups@.contains(pre.groups@[y]));
                }
            }
        }
        assert(states.len() == events@.len() + 1 && states[0] == *old(self) && timed_out(states.last(), *self, now));
        Ok(out)
    }
}

/// An empty value for a rosapi allowlist setting lets every name through.
pub proof fn lemma_empty_setting_allows_all(args: Seq<Seq<char>>, setting: Seq<char>, name: Seq<char>)
    requires
        param_value(args, setting) == Some(Seq::<char>::empty()),
    ensures
        loose_setting(args, setting) == Ok::<Option<Seq<Seq<char>>>, Seq<char>>(None),
        crate::access::allowed(None, name),
{
}

/// The value `[]` for a rosapi allowlist setting lets no name through.
pub proof fn lemma_empty_list_allows_none(args: Seq<Seq<char>>, setting: Seq<char>, name: Seq<char>)
    requires
        param_value(args, setting) == Some("[]"@),
    ensures
        loose_setting(args, setting) == Ok::<Option<Seq<Seq<char>>>, Seq<char>>(Some(Seq::empty())),
        !crate::access::allowed(Some(Seq::empty()), name),
{
    reveal_strlit("[]");
    let v: Seq<char> = "[]"@;
    let e = Seq::<char>::empty();
    assert(v.drop_first() =~= seq![']']);
    assert(seq![']'].drop_first() =~= e);
    assert(unbracketed(e) == e);
    assert(unbracketed(seq![']']) == e);
    assert(unbracketed(v) == e);
    crate::text::lemma_next_index(e, ',', 0, 0);
    assert(e.subrange(0, 0) =~= e);
    assert(split_at_char(e, ',') =~= seq![e]);
    assert(trimmed(e) == e) by {
        reveal_with_fuel(crate::text::trim_front, 1);
        reveal_with_fuel(crate::text::trim_back, 1);
    }
    assert(unquoted(e) == e);
    let pieces = split_at_char(e, ',').map_values(|p: Seq<char>| loose_piece(p));
    assert(pieces =~= seq![e]);
    assert(pieces == Seq::<Seq<char>>::empty().push(e));
    lemma_filter_push(Seq::<Seq<char>>::empty(), e, |p: Seq<char>| nonempty(p));
    assert(Seq::<Seq<char>>::empty().filter(|p: Seq<char>| nonempty(p)) =~= Seq::<Seq<char>>::empty()) by {
        reveal(Seq::filter);
    }
    assert(loose_patterns(v) =~= Seq::<Seq<char>>::empty());
}

} // verus!
