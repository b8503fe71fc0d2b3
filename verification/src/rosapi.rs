//! The replies of the built-in rosapi services: what each reports of the ROS
//! graph, filtered by the forwarding allowlists.
//!
//! The graph itself (topics, services, nodes, message definitions) is read
//! through [`Discovery`]; each reply is built from what it returned.

use vstd::prelude::*;
use crate::access::{allowed, Access, AccessV};
use crate::backend::{interface_name, spec_interface_name, Backend};
use crate::error::Error;
use crate::json::{Json, JsonV};
use crate::text::{append, chars_of, owned, same, views};

verus! {

broadcast use crate::backend::lemma_push_drop_last;

/// The rosapi services, by operation name and service type.
pub open spec fn operations() -> Seq<(Seq<char>, Seq<char>)> {
    seq![
        ("topics"@, "Topics"@),
        ("interfaces"@, "Interfaces"@),
        ("topics_for_type"@, "TopicsForType"@),
        ("topics_and_raw_types"@, "TopicsAndRawTypes"@),
        ("services"@, "Services"@),
        ("services_for_type"@, "ServicesForType"@),
        ("nodes"@, "Nodes"@),
        ("node_details"@, "NodeDetails"@),
        ("action_servers"@, "GetActionServers"@),
        ("action_type"@, "ActionType"@),
        ("topic_type"@, "TopicType"@),
        ("service_type"@, "ServiceType"@),
        ("publishers"@, "Publishers"@),
        ("subscribers"@, "Subscribers"@),
        ("service_providers"@, "ServiceProviders"@),
        ("service_node"@, "ServiceNode"@),
        ("message_details"@, "MessageDetails"@),
        ("service_request_details"@, "ServiceRequestDetails"@),
        ("service_response_details"@, "ServiceResponseDetails"@),
        ("action_goal_details"@, "ActionGoalDetails"@),
        ("action_result_details"@, "ActionResultDetails"@),
        ("action_feedback_details"@, "ActionFeedbackDetails"@),
        ("set_param"@, "SetParam"@),
        ("get_param"@, "GetParam"@),
        ("has_param"@, "HasParam"@),
        ("delete_param"@, "DeleteParam"@),
        ("get_param_names"@, "GetParamNames"@),
        ("get_time"@, "GetTime"@),
        ("get_ros_version"@, "GetROSVersion"@),
    ]
}

/// All 29 rosapi services are built in, and the topic and service queries,
/// the parameter services and the time and version queries are among them.
pub proof fn lemma_all_rosapi_services()
    ensures
        operations().len() == 29,
        operations()[0] == ("topics"@, "Topics"@),
        operations()[4] == ("services"@, "Services"@),
        operations()[22] == ("set_param"@, "SetParam"@),
        operations()[23] == ("get_param"@, "GetParam"@),
        operations()[24] == ("has_param"@, "HasParam"@),
        operations()[25] == ("delete_param"@, "DeleteParam"@),
        operations()[26] == ("get_param_names"@, "GetParamNames"@),
        operations()[27] == ("get_time"@, "GetTime"@),
        operations()[28] == ("get_ros_version"@, "GetROSVersion"@),
{
}

/// The rosapi services that the server offers, as (operation, service type).
pub fn operation_list() -> (r: Vec<(&'static str, &'static str)>)
    ensures
        Seq::new(r@.len(), |i: int| (r@[i].0@, r@[i].1@)) == operations(),
{
    let r = vec![
        ("topics", "Topics"),
        ("interfaces", "Interfaces"),
        ("topics_for_type", "TopicsForType"),
        ("topics_and_raw_types", "TopicsAndRawTypes"),
        ("services", "Services"),
        ("services_for_type", "ServicesForType"),
        ("nodes", "Nodes"),
        ("node_details", "NodeDetails"),
        ("action_servers", "GetActionServers"),
        ("action_type", "ActionType"),
        ("topic_type", "TopicType"),
        ("service_type", "ServiceType"),
        ("publishers", "Publishers"),
        ("subscribers", "Subscribers"),
        ("service_providers", "ServiceProviders"),
        ("service_node", "ServiceNode"),
        ("message_details", "MessageDetails"),
        ("service_request_details", "ServiceRequestDetails"),
        ("service_response_details", "ServiceResponseDetails"),
        ("action_goal_details", "ActionGoalDetails"),
        ("action_result_details", "ActionResultDetails"),
        ("action_feedback_details", "ActionFeedbackDetails"),
        ("set_param", "SetParam"),
        ("get_param", "GetParam"),
        ("has_param", "HasParam"),
        ("delete_param", "DeleteParam"),
        ("get_param_names", "GetParamNames"),
        ("get_time", "GetTime"),
        ("get_ros_version", "GetROSVersion"),
    ];
    assert(Seq::new(r@.len(), |i: int| (r@[i].0@, r@[i].1@)) =~= operations());
    r
}

/// No segment of the name starts with `_`: hidden names are never reported.
pub open spec fn is_public(name: Seq<char>) -> bool {
    &&& (name.len() > 0 ==> name[0] != '_')
    &&& forall|k: int| 1 <= k < name.len() && name[k - 1] == '/' ==> #[trigger] name[k] != '_'
}

pub fn public(name: &str) -> (r: bool)
    ensures
        r == is_public(name@),
{
    let cs = chars_of(name);
    if cs.len() > 0 && cs[0] == '_' {
        return false;
    }
    let mut k: usize = 1;
    while k < cs.len()
        invariant
            cs@ == name@,
            1 <= k,
            forall|j: int| 1 <= j < k && j < cs@.len() && cs@[j - 1] == '/' ==> #[trigger] cs@[j] != '_',
        decreases cs.len() - k,
    {
        if cs[k - 1] == '/' && cs[k] == '_' {
            return false;
        }
        k = k + 1;
    }
    true
}

/// A graph of names and their types, as ROS reports it.
pub open spec fn graph_view(g: Seq<(String, Vec<String>)>) -> Seq<(Seq<char>, Seq<Seq<char>>)> {
    Seq::new(g.len(), |i: int| (g[i].0@, views(g[i].1@)))
}

/// The JSON array of some texts.
pub open spec fn str_array(s: Seq<Seq<char>>) -> JsonV {
    JsonV::Array(Seq::new(s.len(), |i: int| JsonV::Str(s[i])))
}

pub(crate) fn strings_json(v: &Vec<String>) -> (r: Json)
    ensures
        r@ == str_array(views(v@)),
{
    let mut items: Vec<Json> = Vec::new();
    let mut i: usize = 0;
    while i < v.len()
        invariant
            i <= v@.len(),
            items@.len() == i,
            forall|k: int| 0 <= k < i ==> #[trigger] items@[k]@ == JsonV::Str(v@[k]@),
        decreases v.len() - i,
    {
        items.push(Json::string(v[i].as_str()));
        i = i + 1;
    }
    let r = Json::Array(items);
    assert(r@ =~= str_array(views(v@))) by {
        if let JsonV::Array(a) = r@ {
            assert forall|k: int| 0 <= k < a.len() implies a[k] == JsonV::Str(views(v@)[k]) by {
                assert(a[k] == items@[k]@);
            }
            assert(a =~= Seq::new(views(v@).len(), |k: int| JsonV::Str(views(v@)[k])));
        }
    }
    r
}

/// An object of one member.
pub open spec fn single(key: Seq<char>, value: JsonV) -> JsonV {
    JsonV::Object(seq![(key, value)])
}

pub(crate) fn single_json(key: &str, value: Json) -> (r: Json)
    ensures
        r@ == single(key@, value@),
{
    let ghost v = value@;
    let r = Json::object().member(key, value);
    assert(r@.members() =~= seq![(key@, v)]);
    r
}

/// The text under `key`, or the empty text (`v[key].as_str().unwrap_or("")`).
pub open spec fn text_or_empty(v: JsonV, key: Seq<char>) -> Seq<char> {
    match v.text_at(key) {
        Some(t) => t,
        None => Seq::empty(),
    }
}

pub(crate) fn text_of<'a>(v: &'a Json, key: &str) -> (r: &'a str)
    ensures
        r@ == text_or_empty(v@, key@),
{
    proof {
        reveal_strlit("");
    }
    match v.str_at(key) {
        Some(t) => t,
        None => "",
    }
}

/// Whether a topic is reported: it is public and either allowlist lets it through.
pub open spec fn topic_visible(a: AccessV, name: Seq<char>) -> bool {
    is_public(name) && (allowed(a.pub_topics, name) || allowed(a.sub_topics, name))
}

/// The reported topics and their first types, in graph order.
pub open spec fn topic_pairs(g: Seq<(Seq<char>, Seq<Seq<char>>)>, a: AccessV) -> Seq<(Seq<char>, Seq<char>)>
    decreases g.len(),
{
    if g.len() == 0 {
        Seq::empty()
    } else {
        let rest = topic_pairs(g.drop_last(), a);
        let e = g.last();
        if topic_visible(a, e.0) && e.1.len() > 0 {
            rest.push((e.0, e.1[0]))
        } else {
            rest
        }
    }
}

/// The topic queries report exactly the visible topics that have a type, in
/// graph order, each with its first type.
pub proof fn lemma_reported_topics(g: Seq<(Seq<char>, Seq<Seq<char>>)>, a: AccessV)
    ensures
        topic_pairs(g, a) == g.filter(|e: (Seq<char>, Seq<Seq<char>>)| topic_visible(a, e.0) && e.1.len() > 0)
            .map_values(|e: (Seq<char>, Seq<Seq<char>>)| (e.0, e.1[0])),
    decreases g.len(),
{
    let f = |e: (Seq<char>, Seq<Seq<char>>)| topic_visible(a, e.0) && e.1.len() > 0;
    let h = |e: (Seq<char>, Seq<Seq<char>>)| (e.0, e.1[0]);
    if g.len() == 0 {
        assert(g.filter(f) =~= Seq::<(Seq<char>, Seq<Seq<char>>)>::empty()) by {
            reveal(Seq::filter);
        }
        assert(g.filter(f).map_values(h) =~= Seq::<(Seq<char>, Seq<char>)>::empty());
    } else {
        let rest = g.drop_last();
        lemma_reported_topics(rest, a);
        assert(rest.push(g.last()) =~= g);
        crate::rosapi_node::lemma_filter_push(rest, g.last(), f);
        if f(g.last()) {
            assert(g.filter(f).map_values(h) =~= rest.filter(f).map_values(h).push(h(g.last())));
        } else {
            assert(g.filter(f).map_values(h) =~= rest.filter(f).map_values(h));
        }
    }
}

pub open spec fn pair_views(p: Seq<(String, String)>) -> Seq<(Seq<char>, Seq<char>)> {
    Seq::new(p.len(), |i: int| (p[i].0@, p[i].1@))
}

/// The topics that the rosapi topic queries report.
pub fn topic_list(graph: &Vec<(String, Vec<String>)>, access: &Access) -> (r: Vec<(String, String)>)
    ensures
        pair_views(r@) == topic_pairs(graph_view(graph@), access@),
{
    let ghost g = graph_view(graph@);
    let mut r: Vec<(String, String)> = Vec::new();
    let mut i: usize = 0;
    while i < graph.len()
        invariant
            i <= graph@.len(),
            g == graph_view(graph@),
            pair_views(r@) == topic_pairs(g.take(i as int), access@),
        decreases graph.len() - i,
    {
        assert(g.take(i + 1).drop_last() =~= g.take(i as int));
        let name = graph[i].0.as_str();
        let types = &graph[i].1;
        let visible = public(name) && (crate::access::matches(&access.pub_topics, name) || crate::access::matches(&access.sub_topics, name));
        if visible && types.len() > 0 {
            let ghost before = r@;
            r.push((owned(name), owned(types[0].as_str())));
            assert(pair_views(r@) =~= pair_views(before).push((g[i as int].0, g[i as int].1[0])));
        }
        i = i + 1;
    }
    assert(g.take(i as int) =~= g);
    r
}

pub open spec fn names_of(p: Seq<(Seq<char>, Seq<char>)>) -> Seq<Seq<char>> {
    Seq::new(p.len(), |i: int| p[i].0)
}

pub open spec fn types_of(p: Seq<(Seq<char>, Seq<char>)>) -> Seq<Seq<char>> {
    Seq::new(p.len(), |i: int| p[i].1)
}

fn firsts(p: &Vec<(String, String)>) -> (r: Vec<String>)
    ensures
        views(r@) == names_of(pair_views(p@)),
{
    let mut r: Vec<String> = Vec::new();
    let mut i: usize = 0;
    while i < p.len()
        invariant
            i <= p@.len(),
            r@.len() == i,
            forall|k: int| 0 <= k < i ==> #[trigger] r@[k]@ == p@[k].0@,
        decreases p.len() - i,
    {
        r.push(owned(p[i].0.as_str()));
        i = i + 1;
    }
    assert(views(r@) =~= names_of(pair_views(p@)));
    r
}

fn seconds(p: &Vec<(String, String)>) -> (r: Vec<String>)
    ensures
        views(r@) == types_of(pair_views(p@)),
{
    let mut r: Vec<String> = Vec::new();
    let mut i: usize = 0;
    while i < p.len()
        invariant
            i <= p@.len(),
            r@.len() == i,
            forall|k: int| 0 <= k < i ==> #[trigger] r@[k]@ == p@[k].1@,
        decreases p.len() - i,
    {
        r.push(owned(p[i].1.as_str()));
        i = i + 1;
    }
    assert(views(r@) =~= types_of(pair_views(p@)));
    r
}

/// `{"topics": [...], "types": [...]}`.
pub open spec fn topics_reply(p: Seq<(Seq<char>, Seq<char>)>) -> JsonV {
    JsonV::Object(seq![("topics"@, str_array(names_of(p))), ("types"@, str_array(types_of(p)))])
}

pub fn topics_value(pairs: &Vec<(String, String)>) -> (r: Json)
    ensures
        r@ == topics_reply(pair_views(pairs@)),
{
    let names = strings_json(&firsts(pairs));
    let types = strings_json(&seconds(pairs));
    let ghost (nv, tv) = (names@, types@);
    let r = Json::object().member("topics", names).member("types", types);
    assert(r@.members() =~= seq![("topics"@, nv), ("types"@, tv)]);
    r
}

/// The topic reply with the full text of each topic's type definition.
pub open spec fn topics_and_raw_types_reply(p: Seq<(Seq<char>, Seq<char>)>, raws: Seq<Seq<char>>) -> JsonV {
    JsonV::Object(seq![
        ("topics"@, str_array(names_of(p))),
        ("types"@, str_array(types_of(p))),
        ("typedefs_full_text"@, str_array(raws)),
    ])
}

pub fn topics_and_raw_types_value(pairs: &Vec<(String, String)>, raws: &Vec<String>) -> (r: Json)
    ensures
        r@ == topics_and_raw_types_reply(pair_views(pairs@), views(raws@)),
{
    let names = strings_json(&firsts(pairs));
    let types = strings_json(&seconds(pairs));
    let defs = strings_json(raws);
    let ghost (nv, tv, dv) = (names@, types@, defs@);
    let r = Json::object().member("topics", names).member("types", types).member("typedefs_full_text", defs);
    assert(r@.members() =~= seq![("topics"@, nv), ("types"@, tv), ("typedefs_full_text"@, dv)]);
    r
}

/// The names whose type is `t`, in order.
pub open spec fn of_type(p: Seq<(Seq<char>, Seq<char>)>, t: Seq<char>) -> Seq<Seq<char>>
    decreases p.len(),
{
    if p.len() == 0 {
        Seq::empty()
    } else if p.last().1 == t {
        of_type(p.drop_last(), t).push(p.last().0)
    } else {
        of_type(p.drop_last(), t)
    }
}

/// rosapi's `topics_for_type` names exactly the topics of the type asked
/// for, in the order of the pairs: the names of the pairs whose type is `t`.
pub proof fn lemma_topics_for_type(p: Seq<(Seq<char>, Seq<char>)>, t: Seq<char>)
    ensures
        of_type(p, t) == p.filter(|x: (Seq<char>, Seq<char>)| x.1 == t).map_values(|x: (Seq<char>, Seq<char>)| x.0),
    decreases p.len(),
{
    let f = |x: (Seq<char>, Seq<char>)| x.1 == t;
    let g = |x: (Seq<char>, Seq<char>)| x.0;
    if p.len() == 0 {
        assert(p.filter(f) =~= Seq::<(Seq<char>, Seq<char>)>::empty()) by {
            reveal(Seq::filter);
        }
        assert(p.filter(f).map_values(g) =~= Seq::<Seq<char>>::empty());
    } else {
        let rest = p.drop_last();
        lemma_topics_for_type(rest, t);
        assert(rest.push(p.last()) =~= p);
        crate::rosapi_node::lemma_filter_push(rest, p.last(), f);
        if f(p.last()) {
            assert(p.filter(f).map_values(g) =~= rest.filter(f).map_values(g).push(p.last().0));
        } else {
            assert(p.filter(f).map_values(g) =~= rest.filter(f).map_values(g));
        }
    }
}

pub fn topics_for_type_value(pairs: &Vec<(String, String)>, typ: &str) -> (r: Json)
    ensures
        r@ == single("topics"@, str_array(of_type(pair_views(pairs@), typ@))),
{
    let ghost p = pair_views(pairs@);
    let mut names: Vec<String> = Vec::new();
    let mut i: usize = 0;
    while i < pairs.len()
        invariant
            i <= pairs@.len(),
            p == pair_views(pairs@),
            views(names@) == of_type(p.take(i as int), typ@),
        decreases pairs.len() - i,
    {
        assert(p.take(i + 1).drop_last() =~= p.take(i as int));
        if same(pairs[i].1.as_str(), typ) {
            names.push(owned(pairs[i].0.as_str()));
            assert(views(names@) =~= of_type(p.take(i as int), typ@).push(p[i as int].0));
        }
        i = i + 1;
    }
    assert(p.take(i as int) =~= p);
    single_json("topics", strings_json(&names))
}

/// The type of the first entry named `name`, or the empty text.
pub open spec fn type_of(p: Seq<(Seq<char>, Seq<char>)>, name: Seq<char>) -> Seq<char>
    decreases p.len(),
{
    if p.len() == 0 {
        Seq::empty()
    } else if p[0].0 == name {
        p[0].1
    } else {
        type_of(p.drop_first(), name)
    }
}

/// A topic's reported type is that of its first pair; a topic with no pair
/// has the empty type.
pub proof fn lemma_topic_type(p: Seq<(Seq<char>, Seq<char>)>, name: Seq<char>)
    ensures
        forall|i: int| 0 <= i < p.len() && #[trigger] p[i].0 == name && (forall|k: int| 0 <= k < i ==> p[k].0 != name)
            ==> type_of(p, name) == p[i].1,
        (forall|i: int| 0 <= i < p.len() ==> #[trigger] p[i].0 != name) ==> type_of(p, name) == Seq::<char>::empty(),
    decreases p.len(),
{
    if p.len() > 0 {
        let rest = p.drop_first();
        lemma_topic_type(rest, name);
        assert forall|i: int| 0 <= i < p.len() && #[trigger] p[i].0 == name && (forall|k: int| 0 <= k < i ==> p[k].0 != name)
            implies type_of(p, name) == p[i].1 by {
            if i > 0 {
                assert(p[0].0 != name);
                assert(rest[i - 1] == p[i]);
                assert forall|k: int| 0 <= k < i - 1 implies rest[k].0 != name by {
                    assert(rest[k] == p[k + 1]);
                }
            }
        }
        if forall|i: int| 0 <= i < p.len() ==> #[trigger] p[i].0 != name {
            assert(p[0].0 != name);
            assert forall|i: int| 0 <= i < rest.len() implies #[trigger] rest[i].0 != name by {
                assert(rest[i] == p[i + 1]);
            }
        }
    }
}

pub fn topic_type_value(pairs: &Vec<(String, String)>, topic: &str) -> (r: Json)
    ensures
        r@ == single("type"@, JsonV::Str(type_of(pair_views(pairs@), topic@))),
{
    proof {
        reveal_strlit("");
    }
    let ghost p = pair_views(pairs@);
    assert(p.skip(0) =~= p);
    let mut i: usize = 0;
    while i < pairs.len()
        invariant
            i <= pairs@.len(),
            p == pair_views(pairs@),
            type_of(p, topic@) == type_of(p.skip(i as int), topic@),
        decreases pairs.len() - i,
    {
        assert(p.skip(i as int).drop_first() =~= p.skip(i + 1));
        if same(pairs[i].0.as_str(), topic) {
            return single_json("type", Json::string(pairs[i].1.as_str()));
        }
        i = i + 1;
    }
    assert(p.skip(i as int) =~= Seq::<(Seq<char>, Seq<char>)>::empty());
    assert(""@ =~= Seq::<char>::empty());
    single_json("type", Json::string(""))
}

/// Whether a service is reported: it is public and the allowlist lets it through.
pub open spec fn service_visible(a: AccessV, name: Seq<char>) -> bool {
    is_public(name) && allowed(a.services, name)
}

/// The reported services, of type `t` where one is given, in graph order.
pub open spec fn service_names(g: Seq<(Seq<char>, Seq<Seq<char>>)>, a: AccessV, t: Option<Seq<char>>) -> Seq<Seq<char>>
    decreases g.len(),
{
    if g.len() == 0 {
        Seq::empty()
    } else {
        let rest = service_names(g.drop_last(), a, t);
        let e = g.last();
        let typed = match t {
            None => true,
            Some(t) => e.1.len() > 0 && e.1[0] == t,
        };
        if service_visible(a, e.0) && typed {
            rest.push(e.0)
        } else {
            rest
        }
    }
}

/// The service queries report exactly the visible services, of the type
/// asked for where one is (by their first type), in graph order.
pub proof fn lemma_reported_services(g: Seq<(Seq<char>, Seq<Seq<char>>)>, a: AccessV, t: Option<Seq<char>>)
    ensures
        service_names(g, a, t) == g.filter(|e: (Seq<char>, Seq<Seq<char>>)| service_visible(a, e.0)
            && (t is None || (e.1.len() > 0 && e.1[0] == t->Some_0)))
            .map_values(|e: (Seq<char>, Seq<Seq<char>>)| e.0),
    decreases g.len(),
{
    let f = |e: (Seq<char>, Seq<Seq<char>>)| service_visible(a, e.0) && (t is None || (e.1.len() > 0 && e.1[0] == t->Some_0));
    let h = |e: (Seq<char>, Seq<Seq<char>>)| e.0;
    if g.len() == 0 {
        assert(g.filter(f) =~= Seq::<(Seq<char>, Seq<Seq<char>>)>::empty()) by {
            reveal(Seq::filter);
        }
        assert(g.filter(f).map_values(h) =~= Seq::<Seq<char>>::empty());
    } else {
        let rest = g.drop_last();
        lemma_reported_services(rest, a, t);
        assert(rest.push(g.last()) =~= g);
        crate::rosapi_node::lemma_filter_push(rest, g.last(), f);
        if f(g.last()) {
            assert(g.filter(f).map_values(h) =~= rest.filter(f).map_values(h).push(h(g.last())));
        } else {
            assert(g.filter(f).map_values(h) =~= rest.filter(f).map_values(h));
        }
    }
}

/// `{"services": [...]}` for the services of type `typ`, or of any type.
pub fn services_value(graph: &Vec<(String, Vec<String>)>, access: &Access, typ: Option<&str>) -> (r: Json)
    ensures
        r@ == single("services"@, str_array(service_names(graph_view(graph@), access@, match typ {
            Some(t) => Some(t@),
            None => None,
        }))),
{
    let ghost g = graph_view(graph@);
    let ghost t = match typ {
        Some(t) => Some(t@),
        None => None::<Seq<char>>,
    };
    let mut names: Vec<String> = Vec::new();
    let mut i: usize = 0;
    while i < graph.len()
        invariant
            i <= graph@.len(),
            g == graph_view(graph@),
            t == match typ {
                Some(t) => Some(t@),
                None => None::<Seq<char>>,
            },
            views(names@) == service_names(g.take(i as int), access@, t),
        decreases graph.len() - i,
    {
        assert(g.take(i + 1).drop_last() =~= g.take(i as int));
        let name = graph[i].0.as_str();
        let types = &graph[i].1;
        let typed = match typ {
            None => true,
            Some(t) => types.len() > 0 && same(types[0].as_str(), t),
        };
        if public(name) && crate::access::matches(&access.services, name) && typed {
            names.push(owned(name));
            assert(views(names@) =~= service_names(g.take(i as int), access@, t).push(g[i as int].0));
        }
        i = i + 1;
    }
    assert(g.take(i as int) =~= g);
    single_json("services", strings_json(&names))
}

/// The first type of the first entry named `name`, or the empty text.
pub open spec fn first_type(g: Seq<(Seq<char>, Seq<Seq<char>>)>, name: Seq<char>) -> Seq<char>
    decreases g.len(),
{
    if g.len() == 0 {
        Seq::empty()
    } else if g[0].0 == name {
        if g[0].1.len() > 0 { g[0].1[0] } else { Seq::empty() }
    } else {
        first_type(g.drop_first(), name)
    }
}

/// A service's type is the first type of its first entry, or the empty text
/// where that entry lists no type or no entry has the name.
pub proof fn lemma_first_type(g: Seq<(Seq<char>, Seq<Seq<char>>)>, name: Seq<char>)
    ensures
        forall|i: int| 0 <= i < g.len() && #[trigger] g[i].0 == name && (forall|k: int| 0 <= k < i ==> g[k].0 != name)
            ==> first_type(g, name) == if g[i].1.len() > 0 { g[i].1[0] } else { Seq::<char>::empty() },
        (forall|i: int| 0 <= i < g.len() ==> #[trigger] g[i].0 != name) ==> first_type(g, name) == Seq::<char>::empty(),
    decreases g.len(),
{
    if g.len() > 0 {
        let rest = g.drop_first();
        lemma_first_type(rest, name);
        assert forall|i: int| 0 <= i < g.len() && #[trigger] g[i].0 == name && (forall|k: int| 0 <= k < i ==> g[k].0 != name)
            implies first_type(g, name) == if g[i].1.len() > 0 { g[i].1[0] } else { Seq::<char>::empty() } by {
            if i > 0 {
                assert(g[0].0 != name);
                assert(rest[i - 1] == g[i]);
                assert forall|k: int| 0 <= k < i - 1 implies rest[k].0 != name by {
                    assert(rest[k] == g[k + 1]);
                }
            }
        }
        if forall|i: int| 0 <= i < g.len() ==> #[trigger] g[i].0 != name {
            assert(g[0].0 != name);
            assert forall|i: int| 0 <= i < rest.len() implies #[trigger] rest[i].0 != name by {
                assert(rest[i] == g[i + 1]);
            }
        }
    }
}

fn first_type_of(graph: &Vec<(String, Vec<String>)>, name: &str) -> (r: String)
    ensures
        r@ == first_type(graph_view(graph@), name@),
{
    let ghost g = graph_view(graph@);
    assert(g.skip(0) =~= g);
    let mut i: usize = 0;
    while i < graph.len()
        invariant
            i <= graph@.len(),
            g == graph_view(graph@),
            first_type(g, name@) == first_type(g.skip(i as int), name@),
        decreases graph.len() - i,
    {
        assert(g.skip(i as int).drop_first() =~= g.skip(i + 1));
        if same(graph[i].0.as_str(), name) {
            if graph[i].1.len() > 0 {
                return owned(graph[i].1[0].as_str());
            }
            return String::new();
        }
        i = i + 1;
    }
    assert(g.skip(i as int) =~= Seq::<(Seq<char>, Seq<Seq<char>>)>::empty());
    String::new()
}

/// `{"type": ...}`: the first type of a reported service, else the empty text.
pub fn service_type_value(graph: &Vec<(String, Vec<String>)>, access: &Access, name: &str) -> (r: Json)
    ensures
        r@ == single("type"@, JsonV::Str(
            if service_visible(access@, name@) { first_type(graph_view(graph@), name@) } else { Seq::empty() },
        )),
{
    proof {
        reveal_strlit("");
        assert(""@ =~= Seq::<char>::empty());
    }
    if public(name) && crate::access::matches(&access.services, name) {
        let t = first_type_of(graph, name);
        single_json("type", Json::string(t.as_str()))
    } else {
        single_json("type", Json::string(""))
    }
}

/// The action servers that the topics show: names with both a feedback and a
/// status topic, where either topic allowlist lets the name through.
pub open spec fn action_servers(g: Seq<(Seq<char>, Seq<Seq<char>>)>, a: AccessV, all: Seq<(Seq<char>, Seq<Seq<char>>)>) -> Seq<Seq<char>>
    decreases g.len(),
{
    if g.len() == 0 {
        Seq::empty()
    } else {
        let rest = action_servers(g.drop_last(), a, all);
        let n = g.last().0;
        let suffix = "/_action/feedback"@;
        if n.len() >= suffix.len() && n.subrange(n.len() - suffix.len(), n.len() as int) == suffix && {
            let base = n.subrange(0, n.len() - suffix.len());
            (exists|k: int| 0 <= k < all.len() && all[k].0 == base + "/_action/status"@)
                && (allowed(a.pub_topics, base) || allowed(a.sub_topics, base))
        } {
            rest.push(n.subrange(0, n.len() - suffix.len()))
        } else {
            rest
        }
    }
}

/// The action servers reported are exactly, in topic order, the names `n`
/// such that the topics hold `n/_action/feedback` and `n/_action/status` and
/// either topic allowlist lets `n` through.
pub proof fn lemma_reported_action_servers(g: Seq<(Seq<char>, Seq<Seq<char>>)>, a: AccessV, all: Seq<(Seq<char>, Seq<Seq<char>>)>)
    ensures
        action_servers(g, a, all) == g.filter(|e: (Seq<char>, Seq<Seq<char>>)|
            e.0.len() >= 17 && e.0.subrange(e.0.len() - 17, e.0.len() as int) == "/_action/feedback"@
            && (exists|k: int| 0 <= k < all.len() && all[k].0 == e.0.subrange(0, e.0.len() - 17) + "/_action/status"@)
            && (allowed(a.pub_topics, e.0.subrange(0, e.0.len() - 17)) || allowed(a.sub_topics, e.0.subrange(0, e.0.len() - 17))))
            .map_values(|e: (Seq<char>, Seq<Seq<char>>)| e.0.subrange(0, e.0.len() - 17)),
    decreases g.len(),
{
    reveal_strlit("/_action/feedback");
    let f = |e: (Seq<char>, Seq<Seq<char>>)|
        e.0.len() >= 17 && e.0.subrange(e.0.len() - 17, e.0.len() as int) == "/_action/feedback"@
        && (exists|k: int| 0 <= k < all.len() && all[k].0 == e.0.subrange(0, e.0.len() - 17) + "/_action/status"@)
        && (allowed(a.pub_topics, e.0.subrange(0, e.0.len() - 17)) || allowed(a.sub_topics, e.0.subrange(0, e.0.len() - 17)));
    let h = |e: (Seq<char>, Seq<Seq<char>>)| e.0.subrange(0, e.0.len() - 17);
    if g.len() == 0 {
        assert(g.filter(f) =~= Seq::<(Seq<char>, Seq<Seq<char>>)>::empty()) by {
            reveal(Seq::filter);
        }
        assert(g.filter(f).map_values(h) =~= Seq::<Seq<char>>::empty());
    } else {
        let rest = g.drop_last();
        lemma_reported_action_servers(rest, a, all);
        assert(rest.push(g.last()) =~= g);
        crate::rosapi_node::lemma_filter_push(rest, g.last(), f);
        assert(("/_action/feedback"@).len() == 17);
        if f(g.last()) {
            assert(g.filter(f).map_values(h) =~= rest.filter(f).map_values(h).push(h(g.last())));
        } else {
            assert(g.filter(f).map_values(h) =~= rest.filter(f).map_values(h));
        }
    }
}

fn strip_suffix(name: &str, suffix: &str) -> (r: Option<String>)
    ensures
        match r {
            Some(b) => name@.len() >= suffix@.len() && name@.subrange(name@.len() - suffix@.len(), name@.len() as int) == suffix@
                && b@ == name@.subrange(0, name@.len() - suffix@.len()),
            None => !(name@.len() >= suffix@.len() && name@.subrange(name@.len() - suffix@.len(), name@.len() as int) == suffix@),
        },
{
    let n = chars_of(name);
    let s = chars_of(suffix);
    if n.len() < s.len() {
        return None;
    }
    let start = n.len() - s.len();
    let mut i: usize = 0;
    while i < s.len()
        invariant
            n@ == name@,
            s@ == suffix@,
            n@.len() >= s@.len(),
            n@.len() <= usize::MAX,
            start == n@.len() - s@.len(),
            i <= s@.len(),
            forall|k: int| 0 <= k < i ==> n@[start + k] == s@[k],
        decreases s.len() - i,
    {
        if n[start + i] != s[i] {
            assert(name@.subrange(start as int, name@.len() as int)[i as int] != suffix@[i as int]);
            return None;
        }
        i = i + 1;
    }
    assert(name@.subrange(start as int, name@.len() as int) =~= suffix@);
    Some(crate::text::string_of(&n, 0, start))
}

fn has_name(graph: &Vec<(String, Vec<String>)>, name: &str) -> (r: bool)
    ensures
        r == exists|k: int| 0 <= k < graph@.len() && graph_view(graph@)[k].0 == name@,
{
    let mut i: usize = 0;
    while i < graph.len()
        invariant
            i <= graph@.len(),
            forall|k: int| 0 <= k < i ==> graph_view(graph@)[k].0 != name@,
        decreases graph.len() - i,
    {
        if same(graph[i].0.as_str(), name) {
            assert(graph_view(graph@)[i as int].0 == name@);
            return true;
        }
        i = i + 1;
    }
    false
}

pub fn action_servers_value(topics: &Vec<(String, Vec<String>)>, access: &Access) -> (r: Json)
    ensures
        r@ == single("action_servers"@, str_array(action_servers(graph_view(topics@), access@, graph_view(topics@)))),
{
    let ghost g = graph_view(topics@);
    let mut names: Vec<String> = Vec::new();
    let mut i: usize = 0;
    while i < topics.len()
        invariant
            i <= topics@.len(),
            g == graph_view(topics@),
            views(names@) == action_servers(g.take(i as int), access@, g),
        decreases topics.len() - i,
    {
        assert(g.take(i + 1).drop_last() =~= g.take(i as int));
        assert(g.take(i + 1).last() == g[i as int]);
        match strip_suffix(topics[i].0.as_str(), "/_action/feedback") {
            Some(base) => {
                let mut status = owned(base.as_str());
                append(&mut status, "/_action/status");
                let found = has_name(topics, status.as_str());
                let ok = crate::access::matches(&access.pub_topics, base.as_str()) || crate::access::matches(&access.sub_topics, base.as_str());
                if found && ok {
                    names.push(base);
                    assert(views(names@) =~= action_servers(g.take(i as int), access@, g).push(base@));
                }
            },
            None => {},
        }
        i = i + 1;
    }
    assert(g.take(i as int) =~= g);
    single_json("action_servers", strings_json(&names))
}

/// `{"type": ...}`: the action type that an action's goal service shows.
pub open spec fn action_type_of(services: Seq<(Seq<char>, Seq<Seq<char>>)>, action: Seq<char>) -> Seq<char> {
    let t = first_type(services, action + "/_action/send_goal"@);
    let suffix = "_SendGoal"@;
    if t.len() >= suffix.len() && t.subrange(t.len() - suffix.len(), t.len() as int) == suffix {
        t.subrange(0, t.len() - suffix.len())
    } else {
        Seq::empty()
    }
}

pub fn action_type_value(services: &Vec<(String, Vec<String>)>, action: &str) -> (r: Json)
    ensures
        r@ == single("type"@, JsonV::Str(action_type_of(graph_view(services@), action@))),
{
    proof {
        reveal_strlit("");
        assert(""@ =~= Seq::<char>::empty());
    }
    let mut goal = owned(action);
    append(&mut goal, "/_action/send_goal");
    let t = first_type_of(services, goal.as_str());
    match strip_suffix(t.as_str(), "_SendGoal") {
        Some(base) => single_json("type", Json::string(base.as_str())),
        None => single_json("type", Json::string("")),
    }
}

/// Whether a node's graph holds `query` as a name, or, `by_type`, among its types.
pub open spec fn answers(g: Seq<(Seq<char>, Seq<Seq<char>>)>, query: Seq<char>, by_type: bool) -> bool {
    if by_type {
        exists|k: int, j: int| 0 <= k < g.len() && 0 <= j < g[k].1.len() && g[k].1[j] == query
    } else {
        exists|k: int| 0 <= k < g.len() && g[k].0 == query
    }
}

/// The nodes whose graph answers a query: those whose graph could be read and
/// holds `query` as a name, or, for providers, among its types.
pub open spec fn answering(nodes: Seq<(Seq<char>, Option<Seq<(Seq<char>, Seq<Seq<char>>)>>)>, query: Seq<char>, by_type: bool) -> Seq<Seq<char>>
    decreases nodes.len(),
{
    if nodes.len() == 0 {
        Seq::empty()
    } else {
        let rest = answering(nodes.drop_last(), query, by_type);
        let (node, graph) = nodes.last();
        match graph {
            None => rest,
            Some(g) => if answers(g, query, by_type) {
                rest.push(node)
            } else {
                rest
            },
        }
    }
}

/// The nodes named in answer to a query are exactly, in order, those whose
/// graph could be read and answers it.
pub proof fn lemma_answering_nodes(nodes: Seq<(Seq<char>, Option<Seq<(Seq<char>, Seq<Seq<char>>)>>)>, query: Seq<char>, by_type: bool)
    ensures
        answering(nodes, query, by_type) == nodes.filter(|n: (Seq<char>, Option<Seq<(Seq<char>, Seq<Seq<char>>)>>)|
            n.1 is Some && answers(n.1->Some_0, query, by_type))
            .map_values(|n: (Seq<char>, Option<Seq<(Seq<char>, Seq<Seq<char>>)>>)| n.0),
    decreases nodes.len(),
{
    let f = |n: (Seq<char>, Option<Seq<(Seq<char>, Seq<Seq<char>>)>>)| n.1 is Some && answers(n.1->Some_0, query, by_type);
    let h = |n: (Seq<char>, Option<Seq<(Seq<char>, Seq<Seq<char>>)>>)| n.0;
    if nodes.len() == 0 {
        assert(nodes.filter(f) =~= Seq::<(Seq<char>, Option<Seq<(Seq<char>, Seq<Seq<char>>)>>)>::empty()) by {
            reveal(Seq::filter);
        }
        assert(nodes.filter(f).map_values(h) =~= Seq::<Seq<char>>::empty());
    } else {
        let rest = nodes.drop_last();
        lemma_answering_nodes(rest, query, by_type);
        assert(rest.push(nodes.last()) =~= nodes);
        crate::rosapi_node::lemma_filter_push(rest, nodes.last(), f);
        if f(nodes.last()) {
            assert(nodes.filter(f).map_values(h) =~= rest.filter(f).map_values(h).push(h(nodes.last())));
        } else {
            assert(nodes.filter(f).map_values(h) =~= rest.filter(f).map_values(h));
        }
    }
}

/// The nodes and what each one's graph query gave.
pub open spec fn node_graphs_view(v: Seq<(String, Option<Vec<(String, Vec<String>)>>)>) -> Seq<(Seq<char>, Option<Seq<(Seq<char>, Seq<Seq<char>>)>>)> {
    Seq::new(v.len(), |i: int| (v[i].0@, match v[i].1 {
        Some(g) => Some(graph_view(g@)),
        None => None,
    }))
}

fn has_type(graph: &Vec<(String, Vec<String>)>, t: &str) -> (r: bool)
    ensures
        r == exists|k: int, j: int| 0 <= k < graph@.len() && 0 <= j < graph_view(graph@)[k].1.len() && graph_view(graph@)[k].1[j] == t@,
{
    let ghost g = graph_view(graph@);
    let mut k: usize = 0;
    while k < graph.len()
        invariant
            k <= graph@.len(),
            g == graph_view(graph@),
            forall|a: int, b: int| 0 <= a < k && 0 <= b < g[a].1.len() ==> g[a].1[b] != t@,
        decreases graph.len() - k,
    {
        let types = &graph[k].1;
        let mut j: usize = 0;
        while j < types.len()
            invariant
                k < graph@.len(),
                j <= types@.len(),
                g == graph_view(graph@),
                *types == graph@[k as int].1,
                forall|a: int, b: int| 0 <= a < k && 0 <= b < g[a].1.len() ==> g[a].1[b] != t@,
                forall|b: int| 0 <= b < j ==> g[k as int].1[b] != t@,
            decreases types.len() - j,
        {
            if same(types[j].as_str(), t) {
                assert(g[k as int].1[j as int] == t@);
                return true;
            }
            j = j + 1;
        }
        k = k + 1;
    }
    false
}

fn answering_nodes(nodes: &Vec<(String, Option<Vec<(String, Vec<String>)>>)>, query: &str, by_type: bool) -> (r: Vec<String>)
    ensures
        views(r@) == answering(node_graphs_view(nodes@), query@, by_type),
{
    let ghost v = node_graphs_view(nodes@);
    let mut r: Vec<String> = Vec::new();
    let mut i: usize = 0;
    while i < nodes.len()
        invariant
            i <= nodes@.len(),
            v == node_graphs_view(nodes@),
            views(r@) == answering(v.take(i as int), query@, by_type),
        decreases nodes.len() - i,
    {
        assert(v.take(i + 1).drop_last() =~= v.take(i as int));
        assert(v.take(i + 1).last() == v[i as int]);
        let ghost node_view = v[i as int];
        match &nodes[i].1 {
            None => {
                assert(node_view.1 is None);
                assert(answering(v.take(i + 1), query@, by_type) == answering(v.take(i as int), query@, by_type));
            },
            Some(g) => {
                let hit = if by_type { has_type(g, query) } else { has_name(g, query) };
                let ghost gv = graph_view(g@);
                assert(v[i as int].1 == Some(gv));
                assert(hit == answers(gv, query@, by_type));
                if hit {
                    r.push(owned(nodes[i].0.as_str()));
                    assert(views(r@) =~= answering(v.take(i as int), query@, by_type).push(v[i as int].0));
                    assert(answering(v.take(i + 1), query@, by_type) == answering(v.take(i as int), query@, by_type).push(node_view.0));
                } else {
                    assert(answering(v.take(i + 1), query@, by_type) == answering(v.take(i as int), query@, by_type));
                }
            },
        }
        i = i + 1;
    }
    assert(v.take(i as int) =~= v);
    r
}

/// Which graph a node query reads, and how its answer is reported.
#[derive(Clone, Copy, Debug, PartialEq, Eq, Structural)]
pub enum NodeQuery {
    Publishers,
    Subscribers,
    ServiceNode,
    ServiceProviders,
}

/// The reply to a node query: with the allowlist for its name letting `query`
/// through, the nodes that answer it; with it refusing, none.
pub open spec fn node_query_reply(q: NodeQuery, a: AccessV, query: Seq<char>, nodes: Seq<(Seq<char>, Option<Seq<(Seq<char>, Seq<Seq<char>>)>>)>) -> JsonV {
    let list = match q {
        NodeQuery::Publishers => a.pub_topics,
        NodeQuery::Subscribers => a.sub_topics,
        _ => a.services,
    };
    let names = if allowed(list, query) {
        answering(nodes, query, q is ServiceProviders)
    } else {
        Seq::empty()
    };
    match q {
        NodeQuery::Publishers => single("publishers"@, str_array(names)),
        NodeQuery::Subscribers => single("subscribers"@, str_array(names)),
        NodeQuery::ServiceNode => single("node"@, JsonV::Str(if names.len() > 0 { names[0] } else { Seq::empty() })),
        NodeQuery::ServiceProviders => single("providers"@, str_array(names)),
    }
}

pub fn node_query_value(q: NodeQuery, access: &Access, query: &str, nodes: &Vec<(String, Option<Vec<(String, Vec<String>)>>)>) -> (r: Json)
    ensures
        r@ == node_query_reply(q, access@, query@, node_graphs_view(nodes@)),
{
    proof {
        reveal_strlit("");
        assert(""@ =~= Seq::<char>::empty());
    }
    let ok = match q {
        NodeQuery::Publishers => crate::access::matches(&access.pub_topics, query),
        NodeQuery::Subscribers => crate::access::matches(&access.sub_topics, query),
        _ => crate::access::matches(&access.services, query),
    };
    let by_type = q == NodeQuery::ServiceProviders;
    let names = if ok { answering_nodes(nodes, query, by_type) } else { Vec::new() };
    assert(!ok ==> views(names@) =~= Seq::<Seq<char>>::empty());
    match q {
        NodeQuery::Publishers => single_json("publishers", strings_json(&names)),
        NodeQuery::Subscribers => single_json("subscribers", strings_json(&names)),
        NodeQuery::ServiceNode => {
            if names.len() > 0 {
                single_json("node", Json::string(names[0].as_str()))
            } else {
                single_json("node", Json::string(""))
            }
        },
        NodeQuery::ServiceProviders => single_json("providers", strings_json(&names)),
    }
}

pub open spec fn graph_names(g: Seq<(Seq<char>, Seq<Seq<char>>)>) -> Seq<Seq<char>> {
    Seq::new(g.len(), |i: int| g[i].0)
}

fn names_in(graph: &Vec<(String, Vec<String>)>) -> (r: Vec<String>)
    ensures
        views(r@) == graph_names(graph_view(graph@)),
{
    let mut r: Vec<String> = Vec::new();
    let mut i: usize = 0;
    while i < graph.len()
        invariant
            i <= graph@.len(),
            r@.len() == i,
            forall|k: int| 0 <= k < i ==> #[trigger] r@[k]@ == graph@[k].0@,
        decreases graph.len() - i,
    {
        r.push(owned(graph[i].0.as_str()));
        i = i + 1;
    }
    assert(views(r@) =~= graph_names(graph_view(graph@)));
    r
}

/// `{"subscribing": [...], "publishing": [...], "services": [...]}` of one node.
pub open spec fn node_details_reply(subs: Seq<(Seq<char>, Seq<Seq<char>>)>, pubs: Seq<(Seq<char>, Seq<Seq<char>>)>, srvs: Seq<(Seq<char>, Seq<Seq<char>>)>) -> JsonV {
    JsonV::Object(seq![
        ("subscribing"@, str_array(graph_names(subs))),
        ("publishing"@, str_array(graph_names(pubs))),
        ("services"@, str_array(graph_names(srvs))),
    ])
}

pub fn node_details_value(subs: &Vec<(String, Vec<String>)>, pubs: &Vec<(String, Vec<String>)>, srvs: &Vec<(String, Vec<String>)>) -> (r: Json)
    ensures
        r@ == node_details_reply(graph_view(subs@), graph_view(pubs@), graph_view(srvs@)),
{
    let a = strings_json(&names_in(subs));
    let b = strings_json(&names_in(pubs));
    let c = strings_json(&names_in(srvs));
    let ghost (av, bv, cv) = (a@, b@, c@);
    let r = Json::object().member("subscribing", a).member("publishing", b).member("services", c);
    assert(r@.members() =~= seq![("subscribing"@, av), ("publishing"@, bv), ("services"@, cv)]);
    r
}

/// The interface kind and type suffix of a definition query.
pub open spec fn details_kind(op: Seq<char>) -> Option<(Seq<char>, Seq<char>)> {
    if op == "message_details"@ {
        Some(("msg"@, Seq::empty()))
    } else if op == "service_request_details"@ {
        Some(("srv"@, "_Request"@))
    } else if op == "service_response_details"@ {
        Some(("srv"@, "_Response"@))
    } else if op == "action_goal_details"@ {
        Some(("action"@, "_Goal"@))
    } else if op == "action_result_details"@ {
        Some(("action"@, "_Result"@))
    } else if op == "action_feedback_details"@ {
        Some(("action"@, "_Feedback"@))
    } else {
        None
    }
}

pub fn details_of(op: &str) -> (r: Option<(&'static str, &'static str)>)
    ensures
        match r {
            Some((k, s)) => details_kind(op@) == Some((k@, s@)),
            None => details_kind(op@) is None,
        },
{
    proof {
        reveal_strlit("");
    }
    if same(op, "message_details") {
        Some(("msg", ""))
    } else if same(op, "service_request_details") {
        Some(("srv", "_Request"))
    } else if same(op, "service_response_details") {
        Some(("srv", "_Response"))
    } else if same(op, "action_goal_details") {
        Some(("action", "_Goal"))
    } else if same(op, "action_result_details") {
        Some(("action", "_Result"))
    } else if same(op, "action_feedback_details") {
        Some(("action", "_Feedback"))
    } else {
        None
    }
}

/// `{"time": {"sec": ..., "nanosec": ...}}`.
pub open spec fn time_reply(sec: i64, nanosec: u32) -> JsonV {
    single("time"@, JsonV::Object(seq![
        ("sec"@, if sec >= 0 { JsonV::UInt(sec as u64) } else { JsonV::Int(sec) }),
        ("nanosec"@, JsonV::UInt(nanosec as u64)),
    ]))
}

pub fn time_value(sec: i64, nanosec: u32) -> (r: Json)
    ensures
        r@ == time_reply(sec, nanosec),
{
    let s = if sec >= 0 { Json::UInt(sec as u64) } else { Json::Int(sec) };
    let ghost sv = s@;
    let t = Json::object().member("sec", s).member("nanosec", Json::UInt(nanosec as u64));
    assert(t@.members() =~= seq![("sec"@, sv), ("nanosec"@, JsonV::UInt(nanosec as u64))]);
    single_json("time", t)
}

/// `{"version": 2, "distro": ...}`.
pub open spec fn version_reply(distro: Seq<char>) -> JsonV {
    JsonV::Object(seq![("version"@, JsonV::UInt(2)), ("distro"@, JsonV::Str(distro))])
}

pub fn version_value(distro: &str) -> (r: Json)
    ensures
        r@ == version_reply(distro@),
{
    let r = Json::object().member("version", Json::UInt(2)).member("distro", Json::string(distro));
    assert(r@.members() =~= seq![("version"@, JsonV::UInt(2)), ("distro"@, JsonV::Str(distro@))]);
    r
}

/// What the rosapi replies read of the ROS side beyond the backend.
pub trait Discovery: Backend {
    /// The fully qualified names of the nodes in the graph.
    fn nodes(&self) -> Result<Vec<String>, Error>;

    /// What node `node` publishes, subscribes to or serves (`kind` is
    /// `publishers`, `subscribers`, or anything else for services), by name.
    fn node_graph(&self, node: &str, kind: &str) -> Result<Vec<(String, Vec<String>)>, Error>;

    /// The full text of a message type's definition.
    fn raw_definition(&self, typ: &str) -> String;

    /// The typedefs that describe an interface type.
    fn definition_details(&self, typ: &str) -> Json;

    /// Every interface type installed.
    fn interfaces(&self) -> Vec<String>;

    /// The ROS distribution's name.
    fn distro(&self) -> String;
}

/// The parameter services of rosapi.
#[derive(Clone, Copy, Debug, PartialEq, Eq, Structural)]
pub enum ParamOp {
    GetParamNames,
    HasParam,
    GetParam,
    SetParam,
    DeleteParam,
}

/// The parameter service named `op`, if it is one.
pub open spec fn param_op_of(op: Seq<char>) -> Option<ParamOp> {
    if op == "get_param_names"@ {
        Some(ParamOp::GetParamNames)
    } else if op == "has_param"@ {
        Some(ParamOp::HasParam)
    } else if op == "get_param"@ {
        Some(ParamOp::GetParam)
    } else if op == "set_param"@ {
        Some(ParamOp::SetParam)
    } else if op == "delete_param"@ {
        Some(ParamOp::DeleteParam)
    } else {
        None
    }
}

pub fn param_op(op: &str) -> (r: Option<ParamOp>)
    ensures
        r == param_op_of(op@),
{
    if same(op, "get_param_names") {
        Some(ParamOp::GetParamNames)
    } else if same(op, "has_param") {
        Some(ParamOp::HasParam)
    } else if same(op, "get_param") {
        Some(ParamOp::GetParam)
    } else if same(op, "set_param") {
        Some(ParamOp::SetParam)
    } else if same(op, "delete_param") {
        Some(ParamOp::DeleteParam)
    } else {
        None
    }
}

/// A read of the ROS graph that [`reply`] makes, by what it asks for.
pub enum Query {
    Topics,
    Services,
    Nodes,
    NodeGraph(Seq<char>, Seq<char>),
    RawDefinition(Seq<char>),
    Details(Seq<char>),
    Interfaces,
    Now,
    Distro,
}

/// A log of one read.
pub open spec fn one_read(q: Query, ok: bool) -> Seq<(Query, bool)> {
    seq![(q, ok)]
}

/// What a log of reads asked for, in order.
pub open spec fn asked(log: Seq<(Query, bool)>) -> Seq<Query> {
    log.map_values(|x: (Query, bool)| x.0)
}

/// The reads of what each listed node offers of `kind`, and whether each
/// gave an answer.
pub open spec fn node_reads(nodes: Seq<(Seq<char>, Option<Seq<(Seq<char>, Seq<Seq<char>>)>>)>, kind: Seq<char>) -> Seq<(Query, bool)> {
    nodes.map_values(|n: (Seq<char>, Option<Seq<(Seq<char>, Seq<Seq<char>>)>>)| (Query::NodeGraph(n.0, kind), n.1 is Some))
}

/// The reads of the definitions of the types of some topics.
pub open spec fn raw_reads(pairs: Seq<(Seq<char>, Seq<char>)>) -> Seq<(Query, bool)> {
    pairs.map_values(|p: (Seq<char>, Seq<char>)| (Query::RawDefinition(p.1), true))
}

fn nodes_and_graphs<D: Discovery>(d: &D, kind: &str) -> (r: (Result<Vec<(String, Option<Vec<(String, Vec<String>)>>)>, Error>, Ghost<Seq<(Query, bool)>>))
    ensures
        match r.0 {
            Ok(out) => r.1@ == seq![(Query::Nodes, true)] + node_reads(node_graphs_view(out@), kind@),
            Err(_) => r.1@ == seq![(Query::Nodes, false)],
        },
{
    let nodes = match d.nodes() {
        Ok(n) => n,
        Err(e) => {
            return (Err(e), Ghost(one_read(Query::Nodes, false)));
        },
    };
    let mut out: Vec<(String, Option<Vec<(String, Vec<String>)>>)> = Vec::new();
    let ghost mut log: Seq<(Query, bool)> = seq![(Query::Nodes, true)];
    let mut i: usize = 0;
    while i < nodes.len()
        invariant
            i <= nodes@.len(),
            log == seq![(Query::Nodes, true)] + node_reads(node_graphs_view(out@), kind@),
        decreases nodes.len() - i,
    {
        // A node may leave the graph while it is enumerated.
        let g = match d.node_graph(nodes[i].as_str(), kind) {
            Ok(g) => Some(g),
            Err(_) => None,
        };
        let ghost before = out@;
        let ghost read = (Query::NodeGraph(nodes@[i as int]@, kind@), g is Some);
        out.push((owned(nodes[i].as_str()), g));
        proof {
            assert(node_graphs_view(out@) =~= node_graphs_view(before).push(node_graphs_view(out@).last()));
            assert(node_reads(node_graphs_view(out@), kind@) =~= node_reads(node_graphs_view(before), kind@).push(read));
            log = log.push(read);
        }
        i = i + 1;
    }
    (Ok(out), Ghost(log))
}

fn topic_raws<D: Discovery>(d: &D, pairs: &Vec<(String, String)>) -> (r: (Vec<String>, Ghost<Seq<(Query, bool)>>))
    ensures
        r.0@.len() == pairs@.len(),
        r.1@ == raw_reads(pair_views(pairs@)),
{
    let mut out: Vec<String> = Vec::new();
    let ghost mut log: Seq<(Query, bool)> = Seq::empty();
    let mut i: usize = 0;
    while i < pairs.len()
        invariant
            i <= pairs@.len(),
            out@.len() == i,
            log == raw_reads(pair_views(pairs@).take(i as int)),
        decreases pairs.len() - i,
    {
        out.push(d.raw_definition(pairs[i].1.as_str()));
        proof {
            assert(pair_views(pairs@).take(i + 1) =~= pair_views(pairs@).take(i as int).push(pair_views(pairs@)[i as int]));
            assert(raw_reads(pair_views(pairs@).take(i + 1)) =~= raw_reads(pair_views(pairs@).take(i as int)).push((Query::RawDefinition(pairs@[i as int].1@), true)));
            log = log.push((Query::RawDefinition(pairs@[i as int].1@), true));
        }
        i = i + 1;
    }
    assert(pair_views(pairs@).take(pairs@.len() as int) =~= pair_views(pairs@));
    (out, Ghost(log))
}

/// The operations that [`reply`] answers: every rosapi operation but the
/// parameter services.
#[derive(Clone, Copy, Debug, PartialEq, Eq, Structural)]
pub enum GraphOp {
    Topics,
    TopicsForType,
    TopicsAndRawTypes,
    TopicType,
    Interfaces,
    Services,
    ServicesForType,
    ServiceType,
    Nodes,
    NodeDetails,
    Ask(NodeQuery),
    ActionServers,
    ActionType,
    Time,
    Version,
    Details,
}

/// The graph operation named `op`, if it is one.
pub open spec fn graph_op_of(op: Seq<char>) -> Option<GraphOp> {
    if op == "topics"@ {
        Some(GraphOp::Topics)
    } else if op == "interfaces"@ {
        Some(GraphOp::Interfaces)
    } else if op == "topics_for_type"@ {
        Some(GraphOp::TopicsForType)
    } else if op == "topics_and_raw_types"@ {
        Some(GraphOp::TopicsAndRawTypes)
    } else if op == "services"@ {
        Some(GraphOp::Services)
    } else if op == "services_for_type"@ {
        Some(GraphOp::ServicesForType)
    } else if op == "nodes"@ {
        Some(GraphOp::Nodes)
    } else if op == "node_details"@ {
        Some(GraphOp::NodeDetails)
    } else if op == "action_servers"@ {
        Some(GraphOp::ActionServers)
    } else if op == "action_type"@ {
        Some(GraphOp::ActionType)
    } else if op == "topic_type"@ {
        Some(GraphOp::TopicType)
    } else if op == "service_type"@ {
        Some(GraphOp::ServiceType)
    } else if op == "publishers"@ {
        Some(GraphOp::Ask(NodeQuery::Publishers))
    } else if op == "subscribers"@ {
        Some(GraphOp::Ask(NodeQuery::Subscribers))
    } else if op == "service_providers"@ {
        Some(GraphOp::Ask(NodeQuery::ServiceProviders))
    } else if op == "service_node"@ {
        Some(GraphOp::Ask(NodeQuery::ServiceNode))
    } else if op == "get_time"@ {
        Some(GraphOp::Time)
    } else if op == "get_ros_version"@ {
        Some(GraphOp::Version)
    } else if details_kind(op) is Some {
        Some(GraphOp::Details)
    } else {
        None
    }
}

pub fn graph_op(op: &str) -> (r: Option<GraphOp>)
    ensures
        r == graph_op_of(op@),
{
    if same(op, "topics") {
        Some(GraphOp::Topics)
    } else if same(op, "interfaces") {
        Some(GraphOp::Interfaces)
    } else if same(op, "topics_for_type") {
        Some(GraphOp::TopicsForType)
    } else if same(op, "topics_and_raw_types") {
        Some(GraphOp::TopicsAndRawTypes)
    } else if same(op, "services") {
        Some(GraphOp::Services)
    } else if same(op, "services_for_type") {
        Some(GraphOp::ServicesForType)
    } else if same(op, "nodes") {
        Some(GraphOp::Nodes)
    } else if same(op, "node_details") {
        Some(GraphOp::NodeDetails)
    } else if same(op, "action_servers") {
        Some(GraphOp::ActionServers)
    } else if same(op, "action_type") {
        Some(GraphOp::ActionType)
    } else if same(op, "topic_type") {
        Some(GraphOp::TopicType)
    } else if same(op, "service_type") {
        Some(GraphOp::ServiceType)
    } else if same(op, "publishers") {
        Some(GraphOp::Ask(NodeQuery::Publishers))
    } else if same(op, "subscribers") {
        Some(GraphOp::Ask(NodeQuery::Subscribers))
    } else if same(op, "service_providers") {
        Some(GraphOp::Ask(NodeQuery::ServiceProviders))
    } else if same(op, "service_node") {
        Some(GraphOp::Ask(NodeQuery::ServiceNode))
    } else if same(op, "get_time") {
        Some(GraphOp::Time)
    } else if same(op, "get_ros_version") {
        Some(GraphOp::Version)
    } else if details_of(op).is_some() {
        Some(GraphOp::Details)
    } else {
        None
    }
}

/// The argument that names what a node query asks about.
pub open spec fn query_key(q: NodeQuery) -> Seq<char> {
    match q {
        NodeQuery::Publishers | NodeQuery::Subscribers => "topic"@,
        _ => "service"@,
    }
}

/// The allowlist that a node query's name must pass.
pub open spec fn query_list(q: NodeQuery, a: AccessV) -> Option<Seq<Seq<char>>> {
    match q {
        NodeQuery::Publishers => a.pub_topics,
        NodeQuery::Subscribers => a.sub_topics,
        _ => a.services,
    }
}

/// What the reads through [`Discovery`] gave for one reply: a topic or
/// service graph, a list of names (nodes, interfaces, or the raw definitions
/// of the listed topics' types), a node's graphs, the nodes with their graphs,
/// the time, the distribution, and a type's typedefs.
pub struct Seen {
    pub graph: Seq<(Seq<char>, Seq<Seq<char>>)>,
    pub names: Seq<Seq<char>>,
    pub subs: Seq<(Seq<char>, Seq<Seq<char>>)>,
    pub pubs: Seq<(Seq<char>, Seq<Seq<char>>)>,
    pub srvs: Seq<(Seq<char>, Seq<Seq<char>>)>,
    pub nodes: Seq<(Seq<char>, Option<Seq<(Seq<char>, Seq<Seq<char>>)>>)>,
    pub sec: i64,
    pub nanosec: u32,
    pub text: Seq<char>,
    pub details: JsonV,
}

/// Nothing read yet.
pub open spec fn unseen() -> Seen {
    Seen {
        graph: Seq::empty(),
        names: Seq::empty(),
        subs: Seq::empty(),
        pubs: Seq::empty(),
        srvs: Seq::empty(),
        nodes: Seq::empty(),
        sec: 0,
        nanosec: 0,
        text: Seq::empty(),
        details: JsonV::Null,
    }
}

/// The reply to graph operation `g` (named `op`) with arguments `args`, from
/// what the reads gave.
pub open spec fn answer(g: GraphOp, a: AccessV, args: JsonV, op: Seq<char>, s: Seen) -> JsonV {
    match g {
        GraphOp::Topics => topics_reply(topic_pairs(s.graph, a)),
        GraphOp::TopicsForType => single("topics"@, str_array(of_type(topic_pairs(s.graph, a), text_or_empty(args, "type"@)))),
        GraphOp::TopicsAndRawTypes => topics_and_raw_types_reply(topic_pairs(s.graph, a), s.names),
        GraphOp::TopicType => single("type"@, JsonV::Str(type_of(topic_pairs(s.graph, a), text_or_empty(args, "topic"@)))),
        GraphOp::Interfaces => single("interfaces"@, str_array(s.names)),
        GraphOp::Services => single("services"@, str_array(service_names(s.graph, a, None))),
        GraphOp::ServicesForType => single("services"@, str_array(service_names(s.graph, a, Some(text_or_empty(args, "type"@))))),
        GraphOp::ServiceType => {
            let name = text_or_empty(args, "service"@);
            single("type"@, JsonV::Str(if service_visible(a, name) { first_type(s.graph, name) } else { Seq::empty() }))
        },
        GraphOp::Nodes => single("nodes"@, str_array(s.names)),
        GraphOp::NodeDetails => node_details_reply(s.subs, s.pubs, s.srvs),
        GraphOp::Ask(q) => node_query_reply(q, a, text_or_empty(args, query_key(q)), s.nodes),
        GraphOp::ActionServers => single("action_servers"@, str_array(action_servers(s.graph, a, s.graph))),
        GraphOp::ActionType => single("type"@, JsonV::Str(action_type_of(s.graph, text_or_empty(args, "action"@)))),
        GraphOp::Time => time_reply(s.sec, s.nanosec),
        GraphOp::Version => version_reply(s.text),
        GraphOp::Details => single("typedefs"@, match details_kind(op) {
            Some(kind) => match spec_interface_name(text_or_empty(args, "type"@), kind.0) {
                Some(_) => s.details,
                None => JsonV::Array(Seq::empty()),
            },
            None => JsonV::Array(Seq::empty()),
        }),
    }
}

/// Whether what the reads gave fits together: one raw definition for each
/// listed topic.
pub open spec fn consistent(g: GraphOp, a: AccessV, s: Seen) -> bool {
    g is TopicsAndRawTypes ==> s.names.len() == topic_pairs(s.graph, a).len()
}

/// Whether `v` is the reply to `g` for some outcome of the reads.
pub open spec fn replied(g: GraphOp, a: AccessV, args: JsonV, op: Seq<char>, v: JsonV) -> bool {
    exists|s: Seen| consistent(g, a, s) && #[trigger] answer(g, a, args, op, s) == v
}

/// Whether `g` is answered without a read that can fail: the interface list,
/// the time, the distribution, a type's typedefs, and a node query whose name
/// the allowlist refuses.
pub open spec fn cannot_fail(g: GraphOp, a: AccessV, args: JsonV) -> bool {
    match g {
        GraphOp::Interfaces | GraphOp::Time | GraphOp::Version | GraphOp::Details => true,
        GraphOp::Ask(q) => !allowed(query_list(q, a), text_or_empty(args, query_key(q))),
        _ => false,
    }
}

/// The reads that graph operation `g` (named `op`) with arguments `args`
/// makes, in order, given what the earlier reads gave: the topic list and the
/// definition of each listed topic's type; a node's subscriptions,
/// publications and services, each by the node's name; the node list and what
/// each node offers of `op`, where the allowlist lets the name asked about
/// through; the typedefs of the interface named in `args` with the
/// operation's suffix; or the one list, clock or name the reply is made of.
pub open spec fn queries(g: GraphOp, a: AccessV, args: JsonV, op: Seq<char>, s: Seen) -> Seq<Query> {
    match g {
        GraphOp::Topics | GraphOp::TopicsForType | GraphOp::TopicType | GraphOp::ActionServers => seq![Query::Topics],
        GraphOp::TopicsAndRawTypes => asked(seq![(Query::Topics, true)] + raw_reads(topic_pairs(s.graph, a))),
        GraphOp::Interfaces => seq![Query::Interfaces],
        GraphOp::Services | GraphOp::ServicesForType | GraphOp::ServiceType | GraphOp::ActionType => seq![Query::Services],
        GraphOp::Nodes => seq![Query::Nodes],
        GraphOp::NodeDetails => {
            let n = text_or_empty(args, "node"@);
            seq![Query::NodeGraph(n, "subscribers"@), Query::NodeGraph(n, "publishers"@), Query::NodeGraph(n, "services"@)]
        },
        GraphOp::Ask(q) => if allowed(query_list(q, a), text_or_empty(args, query_key(q))) {
            asked(seq![(Query::Nodes, true)] + node_reads(s.nodes, op))
        } else {
            Seq::empty()
        },
        GraphOp::Time => seq![Query::Now],
        GraphOp::Version => seq![Query::Distro],
        GraphOp::Details => match details_kind(op) {
            Some(kind) => match spec_interface_name(text_or_empty(args, "type"@), kind.0) {
                Some(t) => seq![Query::Details(t + kind.1)],
                None => Seq::empty(),
            },
            None => Seq::empty(),
        },
    }
}

/// Whether `g` reads nothing but the topic or the service list.
pub open spec fn lists_only(g: GraphOp) -> bool {
    match g {
        GraphOp::Topics | GraphOp::TopicsForType | GraphOp::TopicType | GraphOp::ActionServers
            | GraphOp::Services | GraphOp::ServicesForType | GraphOp::ServiceType | GraphOp::ActionType => true,
        _ => false,
    }
}

/// The backend read of the list that `g` reads, with what it gave.
pub open spec fn listed(g: GraphOp, list: Option<Seq<(Seq<char>, Seq<Seq<char>>)>>) -> crate::backend::Handed {
    match g {
        GraphOp::Topics | GraphOp::TopicsForType | GraphOp::TopicType | GraphOp::ActionServers
            | GraphOp::TopicsAndRawTypes => crate::backend::Handed::Topics(list),
        _ => crate::backend::Handed::Services(list),
    }
}

/// Whether `log` is the start of the reads `qs`.
pub open spec fn begins(log: Seq<(Query, bool)>, qs: Seq<Query>) -> bool {
    log.len() <= qs.len() && forall|k: int| 0 <= k < log.len() ==> #[trigger] log[k].0 == qs[k]
}

/// The reply of a rosapi service other than the parameter services: the graph
/// is read through `d`, and the reply built from what it gave by the functions
/// above. Any other operation is refused. Beside the reply come what the reads
/// gave and the log of the reads made, each with whether it gave an answer:
/// the reads are those of [`queries`] for what they gave, up to the one that
/// failed where one did.
pub fn reply<D: Discovery>(d: &mut D, access: &Access, op: &str, args: &Json) -> (r: (Result<Json, Error>, Ghost<Seen>, Ghost<Seq<(Query, bool)>>))
    ensures
        crate::backend::responded(final(d).handed()@) == crate::backend::responded(old(d).handed()@),
        match graph_op_of(op@) {
            None => r.0 matches Err(e) && e.message@ == "unknown rosapi operation "@ + op@ && r.2@.len() == 0,
            Some(g) => {
                &&& begins(r.2@, queries(g, access@, args@, op@, r.1@))
                &&& r.0 is Err ==> r.2@.len() > 0 && !r.2@.last().1
                &&& r.0 matches Ok(v) ==> asked(r.2@) == queries(g, access@, args@, op@, r.1@)
                    && consistent(g, access@, r.1@) && answer(g, access@, args@, op@, r.1@) == v@
                &&& cannot_fail(g, access@, args@) ==> r.0 is Ok
                &&& g is Time ==> final(d).handed()@ == old(d).handed()@.push(crate::backend::Handed::Now(r.1@.sec, r.1@.nanosec))
                &&& lists_only(g) ==> final(d).handed()@ == old(d).handed()@.push(
                    listed(g, if r.0 is Ok { Some(r.1@.graph) } else { None }))
            },
        },
{
    let g = match graph_op(op) {
        Some(g) => g,
        None => return (Err(Error::with("unknown rosapi operation ", op)), Ghost(unseen()), Ghost(Seq::empty())),
    };
    let ghost mut seen = unseen();
    let ghost mut log: Seq<(Query, bool)> = Seq::empty();
    let v = match g {
        GraphOp::Topics | GraphOp::TopicsAndRawTypes | GraphOp::TopicsForType | GraphOp::TopicType => {
            let graph = match d.topics() {
                Ok(t) => t,
                Err(e) => {
                    return (Err(e), Ghost(seen), Ghost(one_read(Query::Topics, false)));
                },
            };
            let pairs = topic_list(&graph, access);
            proof {
                seen = Seen { graph: graph_view(graph@), ..unseen() };
                log = seq![(Query::Topics, true)];
            }
            match g {
                GraphOp::TopicsForType => topics_for_type_value(&pairs, text_of(args, "type")),
                GraphOp::TopicType => topic_type_value(&pairs, text_of(args, "topic")),
                GraphOp::Topics => topics_value(&pairs),
                _ => {
                    let (raws, Ghost(reads)) = topic_raws(d, &pairs);
                    let v = topics_and_raw_types_value(&pairs, &raws);
                    proof {
                        seen = Seen { names: views(raws@), ..seen };
                        log = log + reads;
                    }
                    v
                },
            }
        },
        GraphOp::Interfaces => {
            let list = d.interfaces();
            proof {
                seen = Seen { names: views(list@), ..unseen() };
                log = seq![(Query::Interfaces, true)];
            }
            single_json("interfaces", strings_json(&list))
        },
        GraphOp::Services | GraphOp::ServicesForType | GraphOp::ServiceType => {
            let graph = match d.services() {
                Ok(t) => t,
                Err(e) => {
                    return (Err(e), Ghost(seen), Ghost(one_read(Query::Services, false)));
                },
            };
            proof {
                seen = Seen { graph: graph_view(graph@), ..unseen() };
                log = seq![(Query::Services, true)];
            }
            match g {
                GraphOp::ServiceType => service_type_value(&graph, access, text_of(args, "service")),
                GraphOp::Services => services_value(&graph, access, None),
                _ => services_value(&graph, access, Some(text_of(args, "type"))),
            }
        },
        GraphOp::Nodes => {
            let nodes = match d.nodes() {
                Ok(t) => t,
                Err(e) => {
                    return (Err(e), Ghost(seen), Ghost(one_read(Query::Nodes, false)));
                },
            };
            proof {
                seen = Seen { names: views(nodes@), ..unseen() };
                log = seq![(Query::Nodes, true)];
            }
            single_json("nodes", strings_json(&nodes))
        },
        GraphOp::NodeDetails => {
            let node = text_of(args, "node");
            let ghost n = node@;
            let subs = match d.node_graph(node, "subscribers") {
                Ok(t) => t,
                Err(e) => {
                    return (Err(e), Ghost(seen), Ghost(one_read(Query::NodeGraph(n, "subscribers"@), false)));
                },
            };
            let pubs = match d.node_graph(node, "publishers") {
                Ok(t) => t,
                Err(e) => {
                    return (Err(e), Ghost(seen), Ghost(one_read(Query::NodeGraph(n, "subscribers"@), true) + one_read(Query::NodeGraph(n, "publishers"@), false)));
                },
            };
            let srvs = match d.node_graph(node, "services") {
                Ok(t) => t,
                Err(e) => {
                    return (Err(e), Ghost(seen), Ghost(one_read(Query::NodeGraph(n, "subscribers"@), true) + one_read(Query::NodeGraph(n, "publishers"@), true) + one_read(Query::NodeGraph(n, "services"@), false)));
                },
            };
            proof {
                seen = Seen { subs: graph_view(subs@), pubs: graph_view(pubs@), srvs: graph_view(srvs@), ..unseen() };
                log = seq![(Query::NodeGraph(n, "subscribers"@), true), (Query::NodeGraph(n, "publishers"@), true), (Query::NodeGraph(n, "services"@), true)];
            }
            node_details_value(&subs, &pubs, &srvs)
        },
        GraphOp::Ask(q) => {
            let key = match q {
                NodeQuery::Publishers | NodeQuery::Subscribers => "topic",
                _ => "service",
            };
            let query = text_of(args, key);
            let allowed_query = match q {
                NodeQuery::Publishers => crate::access::matches(&access.pub_topics, query),
                NodeQuery::Subscribers => crate::access::matches(&access.sub_topics, query),
                _ => crate::access::matches(&access.services, query),
            };
            let nodes = if allowed_query {
                let (found, Ghost(reads)) = nodes_and_graphs(d, op);
                match found {
                    Ok(n) => {
                        proof {
                            log = reads;
                        }
                        n
                    },
                    Err(e) => {
                        return (Err(e), Ghost(seen), Ghost(reads));
                    },
                }
            } else {
                Vec::new()
            };
            proof {
                seen = Seen { nodes: node_graphs_view(nodes@), ..unseen() };
            }
            node_query_value(q, access, query, &nodes)
        },
        GraphOp::ActionServers => {
            let topics = match d.topics() {
                Ok(t) => t,
                Err(e) => {
                    return (Err(e), Ghost(seen), Ghost(one_read(Query::Topics, false)));
                },
            };
            proof {
                seen = Seen { graph: graph_view(topics@), ..unseen() };
                log = seq![(Query::Topics, true)];
            }
            action_servers_value(&topics, access)
        },
        GraphOp::ActionType => {
            let services = match d.services() {
                Ok(t) => t,
                Err(e) => {
                    return (Err(e), Ghost(seen), Ghost(one_read(Query::Services, false)));
                },
            };
            proof {
                seen = Seen { graph: graph_view(services@), ..unseen() };
                log = seq![(Query::Services, true)];
            }
            action_type_value(&services, text_of(args, "action"))
        },
        GraphOp::Time => {
            let (sec, nanosec) = d.now();
            proof {
                seen = Seen { sec, nanosec, ..unseen() };
                log = seq![(Query::Now, true)];
            }
            time_value(sec, nanosec)
        },
        GraphOp::Version => {
            let distro = d.distro();
            proof {
                seen = Seen { text: distro@, ..unseen() };
                log = seq![(Query::Distro, true)];
            }
            version_value(distro.as_str())
        },
        GraphOp::Details => {
            let details = match details_of(op) {
                Some((kind, suffix)) => match interface_name(text_of(args, "type"), kind) {
                    Ok(typ) => {
                        let mut full = typ;
                        append(&mut full, suffix);
                        let found = d.definition_details(full.as_str());
                        proof {
                            seen = Seen { details: found@, ..unseen() };
                            log = seq![(Query::Details(full@), true)];
                        }
                        found
                    },
                    Err(_) => Json::Array(Vec::new()),
                },
                None => Json::Array(Vec::new()),
            };
            proof {
                if let JsonV::Array(items) = details@ {
                    if items.len() == 0 {
                        assert(items =~= Seq::<JsonV>::empty());
                    }
                }
            }
            single_json("typedefs", details)
        },
    };
    proof {
        reveal_strlit("subscribers");
        reveal_strlit("publishers");
        reveal_strlit("services");
    }
    assert(consistent(g, access@, seen) && answer(g, access@, args@, op@, seen) == v@);
    assert(asked(log) =~= queries(g, access@, args@, op@, seen));
    (Ok(v), Ghost(seen), Ghost(log))
}


/// `s` without its leading `/` characters.
pub open spec fn without_slashes(s: Seq<char>) -> Seq<char>
    decreases s.len(),
{
    if s.len() > 0 && s[0] == '/' {
        without_slashes(s.drop_first())
    } else {
        s
    }
}

/// Where a parameter request goes: the node (made absolute), the parameter's
/// short name, and the node's service and its type; or why it cannot go.
pub open spec fn parameter_target(op: Seq<char>, args: JsonV, a: AccessV) -> Result<(Seq<char>, Seq<char>, Seq<char>, Seq<char>), Seq<char>> {
    match crate::text::split_char(text_or_empty(args, "name"@), ':') {
        None => Err("expected <node_name>:<param_name>"@),
        Some((node, name)) => if !allowed(a.params, name) {
            Err("Parameter "@ + name + " does not match any of the glob strings"@)
        } else {
            let n = seq!['/'] + without_slashes(node);
            let reads = op == "get_param"@ || op == "has_param"@ || op == "delete_param"@;
            let method = if reads { "get_parameters"@ } else { "set_parameters"@ };
            let typ = if reads { "GetParameters"@ } else { "SetParameters"@ };
            Ok((n, name, n + seq!['/'] + method, typ))
        },
    }
}

/// A parameter request for `node:name` goes to the node named absolutely,
/// with one leading `/` whatever slashes `node` began with: reads, existence
/// checks and deletions ask its `get_parameters` service (`GetParameters`),
/// and writes its `set_parameters` service (`SetParameters`); a name that
/// the parameter allowlist refuses goes nowhere.
pub proof fn lemma_parameter_routing(op: Seq<char>, node: Seq<char>, name: Seq<char>, args: JsonV, a: AccessV)
    requires
        !crate::text::has_char(node, ':'),
        args.text_at("name"@) == Some(node + seq![':'] + name),
    ensures
        !allowed(a.params, name) ==> parameter_target(op, args, a) is Err,
        allowed(a.params, name) ==> (parameter_target(op, args, a) matches Ok((n, short, service, typ)) && {
            &&& short == name
            &&& n.len() >= 1 && n[0] == '/' && (n.len() > 1 ==> n[1] != '/')
            &&& exists|k: int| 0 <= k <= node.len() && (forall|j: int| 0 <= j < k ==> #[trigger] node[j] == '/') && n == seq!['/'] + node.skip(k)
            &&& (op == "get_param"@ || op == "has_param"@ || op == "delete_param"@)
                ==> service == n + "/get_parameters"@ && typ == "GetParameters"@
            &&& op == "set_param"@ ==> service == n + "/set_parameters"@ && typ == "SetParameters"@
        }),
{
    reveal_strlit("get_param");
    reveal_strlit("has_param");
    reveal_strlit("delete_param");
    reveal_strlit("set_param");
    reveal_strlit("/get_parameters");
    reveal_strlit("/set_parameters");
    reveal_strlit("get_parameters");
    reveal_strlit("set_parameters");
    let full = node + seq![':'] + name;
    let i = node.len() as int;
    assert(full[i] == ':');
    assert forall|k: int| 0 <= k < i implies full[k] != ':' by {
        assert(full[k] == node[k]);
    }
    assert(crate::text::is_next(full, ':', 0, i));
    crate::text::lemma_next_index(full, ':', 0, i);
    assert(full.take(i) =~= node);
    assert(full.skip(i + 1) =~= name);
    let k = lemma_without_slashes(node);
    let n = seq!['/'] + without_slashes(node);
    assert(n.len() > 1 ==> n[1] == node[k]);
    assert(("set_param"@)[0] == 's' && ("get_param"@)[0] == 'g' && ("has_param"@)[0] == 'h' && ("delete_param"@)[0] == 'd');
    assert(op == "set_param"@ ==> !(op == "get_param"@ || op == "has_param"@ || op == "delete_param"@));
    assert(seq!['/'] + "get_parameters"@ =~= "/get_parameters"@);
    assert(seq!['/'] + "set_parameters"@ =~= "/set_parameters"@);
    assert(n + seq!['/'] + "get_parameters"@ =~= n + "/get_parameters"@);
    assert(n + seq!['/'] + "set_parameters"@ =~= n + "/set_parameters"@);
}

/// Taking the leading slashes off leaves the rest of the text, which does
/// not begin with a slash: the `k` slashes before it are what is taken.
proof fn lemma_without_slashes(s: Seq<char>) -> (k: int)
    ensures
        0 <= k <= s.len(),
        forall|j: int| 0 <= j < k ==> #[trigger] s[j] == '/',
        without_slashes(s) == s.skip(k),
        k < s.len() ==> s[k] != '/',
    decreases s.len(),
{
    if s.len() > 0 && s[0] == '/' {
        let t = s.drop_first();
        let k = lemma_without_slashes(t);
        assert forall|j: int| 0 <= j < k + 1 implies #[trigger] s[j] == '/' by {
            if j > 0 {
                assert(t[j - 1] == s[j]);
            }
        }
        assert(t.skip(k) =~= s.skip(k + 1));
        assert(k + 1 < s.len() ==> s[k + 1] == t[k]);
        k + 1
    } else {
        assert(s.skip(0) =~= s);
        0
    }
}

/// The parameter request that a rosapi parameter service makes of one node.
pub struct Target {
    pub node: String,
    pub name: String,
    pub service: String,
    pub typ: &'static str,
}

fn slashless(s: &str) -> (r: String)
    ensures
        r@ == without_slashes(s@),
{
    let cs = chars_of(s);
    assert(s@.skip(0) =~= s@);
    let mut i: usize = 0;
    while i < cs.len() && cs[i] == '/'
        invariant
            cs@ == s@,
            i <= cs@.len(),
            without_slashes(s@) == without_slashes(s@.skip(i as int)),
        decreases cs.len() - i,
    {
        assert(s@.skip(i as int).drop_first() =~= s@.skip(i + 1));
        i = i + 1;
    }
    assert(cs@.subrange(i as int, cs@.len() as int) =~= s@.skip(i as int));
    crate::text::string_of(&cs, i, cs.len())
}

/// Reads where a parameter request goes, as [`parameter_target`] states.
pub fn target(op: &str, args: &Json, access: &Access) -> (r: Result<Target, Error>)
    ensures
        match r {
            Ok(t) => parameter_target(op@, args@, access@) == Ok::<(Seq<char>, Seq<char>, Seq<char>, Seq<char>), Seq<char>>(
                (t.node@, t.name@, t.service@, t.typ@),
            ),
            Err(e) => parameter_target(op@, args@, access@) == Err::<(Seq<char>, Seq<char>, Seq<char>, Seq<char>), Seq<char>>(e.message@),
        },
{
    let (node, name) = match crate::text::split_once_char(text_of(args, "name"), ':') {
        Some(p) => p,
        None => return Err(Error::new("expected <node_name>:<param_name>")),
    };
    if !crate::access::matches(&access.params, name.as_str()) {
        return Err(Error::around("Parameter ", name.as_str(), " does not match any of the glob strings"));
    }
    let mut n = String::new();
    crate::text::push_char(&mut n, '/');
    let rest = slashless(node.as_str());
    append(&mut n, rest.as_str());
    let reads = same(op, "get_param") || same(op, "has_param") || same(op, "delete_param");
    let (method, typ) = if reads { ("get_parameters", "GetParameters") } else { ("set_parameters", "SetParameters") };
    let mut service = owned(n.as_str());
    crate::text::push_char(&mut service, '/');
    append(&mut service, method);
    assert(seq!['/'] + without_slashes(node@) =~= n@);
    assert(service@ =~= n@ + seq!['/'] + method@);
    Ok(Target { node: n, name, service, typ })
}

/// The arguments of a `GetParameters` call for one name.
pub open spec fn get_request(name: Seq<char>) -> JsonV {
    single("names"@, str_array(seq![name]))
}

pub fn get_request_value(name: &str) -> (r: Json)
    ensures
        r@ == get_request(name@),
{
    let mut names: Vec<String> = Vec::new();
    names.push(owned(name));
    assert(views(names@) =~= seq![name@]);
    single_json("names", strings_json(&names))
}

/// The arguments of a `SetParameters` call setting `name` to `value`.
pub open spec fn set_request(name: Seq<char>, value: JsonV) -> JsonV {
    single("parameters"@, JsonV::Array(seq![JsonV::Object(seq![("name"@, JsonV::Str(name)), ("value"@, value)])]))
}

pub fn set_request_value(name: &str, value: Json) -> (r: Json)
    ensures
        r@ == set_request(name@, value@),
{
    let ghost v = value@;
    let entry = Json::object().member("name", Json::string(name)).member("value", value);
    assert(entry@.members() =~= seq![("name"@, JsonV::Str(name@)), ("value"@, v)]);
    let ghost ev = entry@;
    let mut items: Vec<Json> = Vec::new();
    items.push(entry);
    let list = Json::Array(items);
    assert(list@ =~= JsonV::Array(seq![ev])) by {
        if let JsonV::Array(a) = list@ {
            assert(a[0] == items@[0]@);
            assert(a =~= seq![ev]);
        }
    }
    single_json("parameters", list)
}

/// The arguments of a `ListParameters` call for every parameter.
pub open spec fn list_request() -> JsonV {
    JsonV::Object(seq![("prefixes"@, JsonV::Array(Seq::empty())), ("depth"@, JsonV::UInt(0))])
}

pub fn list_request_value() -> (r: Json)
    ensures
        r@ == list_request(),
{
    let empty = Json::Array(Vec::new());
    assert(empty@ =~= JsonV::Array(Seq::empty())) by {
        if let JsonV::Array(a) = empty@ {
            assert(a =~= Seq::<JsonV>::empty());
        }
    }
    let r = Json::object().member("prefixes", empty).member("depth", Json::UInt(0));
    assert(r@.members() =~= seq![("prefixes"@, JsonV::Array(Seq::empty())), ("depth"@, JsonV::UInt(0))]);
    r
}

/// The parameter value that unsets a parameter.
pub open spec fn unset_value() -> JsonV {
    single("type"@, JsonV::UInt(0))
}

pub fn unset_value_json() -> (r: Json)
    ensures
        r@ == unset_value(),
{
    single_json("type", Json::UInt(0))
}

/// The first item of `v[key]`, where it is a nonempty array.
pub open spec fn first_item(v: JsonV, key: Seq<char>) -> Option<JsonV> {
    match v.field(key) {
        Some(JsonV::Array(items)) => if items.len() > 0 { Some(items[0]) } else { None },
        _ => None,
    }
}

fn first_of<'a>(v: &'a Json, key: &str) -> (r: Option<&'a Json>)
    ensures
        match r {
            Some(x) => first_item(v@, key@) == Some(x@),
            None => first_item(v@, key@) is None,
        },
{
    match v.get(key) {
        Some(Json::Array(items)) => {
            if items.len() > 0 {
                Some(&items[0])
            } else {
                None
            }
        },
        _ => None,
    }
}

/// What a `GetParameters` reply gives: its first value, and the error where
/// there is none or it is unset.
pub open spec fn get_outcome(response: JsonV) -> (Option<JsonV>, Option<Seq<char>>) {
    let value = first_item(response, "values"@);
    let missing = match value {
        None => true,
        Some(v) => v.signed_at("type"@) == Some(0i64),
    };
    (value, if missing { Some("Parameter not found"@) } else { None })
}

pub fn get_outcome_of(response: &Json) -> (r: (Option<Json>, Option<String>))
    ensures
        (match r.0 { Some(v) => Some(v@), None => None }, match r.1 { Some(e) => Some(e@), None => None }) == get_outcome(response@),
{
    match first_of(response, "values") {
        None => (None, Some(owned("Parameter not found"))),
        Some(v) => {
            let missing = v.i64_at("type") == Some(0i64);
            (Some(v.copy()), if missing { Some(owned("Parameter not found")) } else { None })
        },
    }
}

/// Whether a `GetParameters` reply shows the parameter set, before deleting it.
pub open spec fn exists_outcome(response: JsonV) -> bool {
    match first_item(response, "values"@) {
        Some(v) => match v.unsigned_at("type"@) {
            Some(t) => t > 0,
            None => false,
        },
        None => false,
    }
}

pub fn exists_outcome_of(response: &Json) -> (r: bool)
    ensures
        r == exists_outcome(response@),
{
    match first_of(response, "values") {
        Some(v) => match v.u64_at("type") {
            Some(t) => t > 0,
            None => false,
        },
        None => false,
    }
}

/// The error of a `SetParameters` reply, if its first result failed.
pub open spec fn set_outcome(response: JsonV) -> Option<Seq<char>> {
    let result = match first_item(response, "results"@) {
        Some(r) => r,
        None => JsonV::Null,
    };
    if result.boolean_at("successful"@) == Some(true) {
        None
    } else {
        Some(text_or_empty(result, "reason"@))
    }
}

pub fn set_outcome_of(response: &Json) -> (r: Option<String>)
    ensures
        match r { Some(e) => Some(e@), None => None } == set_outcome(response@),
{
    let null = Json::Null;
    let result = match first_of(response, "results") {
        Some(r) => r,
        None => &null,
    };
    if result.bool_at("successful") == Some(true) {
        None
    } else {
        Some(owned(text_of(result, "reason")))
    }
}

/// The parameter names of a `ListParameters` reply that the allowlist lets
/// through, as `<node>:<name>`, in order; other items are skipped.
pub open spec fn listed_names(node: Seq<char>, items: Seq<JsonV>, a: AccessV) -> Seq<Seq<char>>
    decreases items.len(),
{
    if items.len() == 0 {
        Seq::empty()
    } else {
        let rest = listed_names(node, items.drop_last(), a);
        match items.last().text() {
            Some(name) => if allowed(a.params, name) { rest.push(node + seq![':'] + name) } else { rest },
            None => rest,
        }
    }
}

/// The items of `response.result.names`, where it is an array.
pub open spec fn name_items(response: JsonV) -> Seq<JsonV> {
    match response.field("result"@) {
        Some(r) => match r.field("names"@) {
            Some(JsonV::Array(items)) => items,
            _ => Seq::empty(),
        },
        None => Seq::empty(),
    }
}

pub fn listed_names_of(node: &str, response: &Json, access: &Access) -> (r: Vec<String>)
    ensures
        views(r@) == listed_names(node@, name_items(response@), access@),
{
    let empty: Vec<Json> = Vec::new();
    let items: &Vec<Json> = match response.get("result") {
        Some(result) => match result.get("names") {
            Some(Json::Array(items)) => items,
            _ => &empty,
        },
        None => &empty,
    };
    let ghost iv = Seq::new(items@.len(), |k: int| items@[k]@);
    assert(iv =~= name_items(response@)) by {
        if let Some(result) = response@.field("result"@) {
            if let Some(JsonV::Array(xs)) = result.field("names"@) {
                assert forall|k: int| 0 <= k < xs.len() implies xs[k] == iv[k] by {}
            }
        }
    }
    let mut r: Vec<String> = Vec::new();
    let mut i: usize = 0;
    while i < items.len()
        invariant
            i <= items@.len(),
            iv == Seq::new(items@.len(), |k: int| items@[k]@),
            views(r@) == listed_names(node@, iv.take(i as int), access@),
        decreases items.len() - i,
    {
        assert(iv.take(i + 1).drop_last() =~= iv.take(i as int));
        assert(iv.take(i + 1).last() == items@[i as int]@);
        match items[i].as_str() {
            Some(name) => {
                if crate::access::matches(&access.params, name) {
                    let mut full = owned(node);
                    crate::text::push_char(&mut full, ':');
                    append(&mut full, name);
                    assert(full@ =~= node@ + seq![':'] + name@);
                    let ghost before = r@;
                    r.push(full);
                    assert(views(r@) =~= views(before).push(node@ + seq![':'] + name@));
                    assert(views(r@) =~= listed_names(node@, iv.take(i as int), access@).push(node@ + seq![':'] + name@));
                }
            },
            None => {},
        }
        i = i + 1;
    }
    assert(iv.take(i as int) =~= iv);
    r
}

/// Whether a parameter value is set: its type is one of the nine value types.
pub open spec fn is_set(value: Option<JsonV>) -> bool {
    match value {
        Some(v) => match v.unsigned_at("type"@) {
            Some(t) => 1 <= t <= 9,
            None => false,
        },
        None => false,
    }
}

/// The reply of `has_param`.
pub open spec fn has_reply(value: Option<JsonV>, error: Option<Seq<char>>) -> JsonV {
    single("exists"@, JsonV::Bool(error is None && is_set(value)))
}

pub fn has_reply_value(value: &Option<Json>, error: &Option<String>) -> (r: Json)
    ensures
        r@ == has_reply(match value { Some(v) => Some(v@), None => None }, match error { Some(e) => Some(e@), None => None }),
{
    let set = match value {
        Some(v) => match v.u64_at("type") {
            Some(t) => 1 <= t && t <= 9,
            None => false,
        },
        None => false,
    };
    single_json("exists", Json::Bool(error.is_none() && set))
}

/// The value that `get_param` reports, before it is written as text: the
/// parameter's plain value where it was read, else the default.
pub open spec fn get_result(value: Option<JsonV>, error: Option<Seq<char>>, default: JsonV) -> JsonV {
    if error is None {
        match value {
            Some(v) => crate::parameters::parameter_json_of(v),
            None => default,
        }
    } else {
        default
    }
}

pub fn get_result_value(value: &Option<Json>, error: &Option<String>, default: Json) -> (r: Json)
    ensures
        r@ == get_result(match value { Some(v) => Some(v@), None => None }, match error { Some(e) => Some(e@), None => None }, default@),
{
    if error.is_none() {
        match value {
            Some(v) => crate::parameters::parameter_json(v),
            None => default,
        }
    } else {
        default
    }
}

/// The outcome members of a parameter reply: whether it succeeded and why not.
pub open spec fn outcome_members(error: Option<Seq<char>>) -> Seq<(Seq<char>, JsonV)> {
    seq![
        ("successful"@, JsonV::Bool(error is None)),
        ("reason"@, JsonV::Str(match error { Some(e) => e, None => Seq::empty() })),
    ]
}

/// The reply of `get_param`: the value as JSON text, and the outcome.
pub open spec fn get_reply(text: Seq<char>, error: Option<Seq<char>>) -> JsonV {
    JsonV::Object(seq![("value"@, JsonV::Str(text))] + outcome_members(error))
}

/// The reply of `set_param` and `delete_param`: the outcome.
pub open spec fn set_reply(error: Option<Seq<char>>) -> JsonV {
    JsonV::Object(outcome_members(error))
}

fn outcome_json(start: Json, error: &Option<String>) -> (r: Json)
    requires
        start@ is Object,
    ensures
        r@ == JsonV::Object(start@.members() + outcome_members(match error { Some(e) => Some(e@), None => None })),
{
    proof {
        reveal_strlit("");
    }
    let ghost m = start@.members();
    let reason = match error {
        Some(e) => Json::string(e.as_str()),
        None => Json::string(""),
    };
    let ghost rv = reason@;
    assert(""@ =~= Seq::<char>::empty());
    assert(rv == JsonV::Str(match error { Some(e) => e@, None => Seq::empty() }));
    let r = start.member("successful", Json::Bool(error.is_none())).member("reason", reason);
    assert(r@.members() =~= m + outcome_members(match error { Some(e) => Some(e@), None => None }));
    r
}

pub fn get_reply_value(text: &str, error: &Option<String>) -> (r: Json)
    ensures
        r@ == get_reply(text@, match error { Some(e) => Some(e@), None => None }),
{
    let start = single_json("value", Json::string(text));
    let r = outcome_json(start, error);
    assert(r@ =~= get_reply(text@, match error { Some(e) => Some(e@), None => None }));
    r
}

pub fn set_reply_value(error: &Option<String>) -> (r: Json)
    ensures
        r@ == set_reply(match error { Some(e) => Some(e@), None => None }),
{
    let r = outcome_json(Json::object(), error);
    assert(Seq::<(Seq<char>, JsonV)>::empty() + outcome_members(match error { Some(e) => Some(e@), None => None })
        =~= outcome_members(match error { Some(e) => Some(e@), None => None }));
    r
}

} // verus!
