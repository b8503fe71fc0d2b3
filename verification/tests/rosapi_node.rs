use rosbridge_server_rs::access::Access;
use rosbridge_server_rs::backend::{unread, Record, Backend, Entity, Event, Qos, RosMessage};
use rosbridge_server_rs::cbor::Cbor;
use rosbridge_server_rs::error::Error;
use rosbridge_server_rs::json::Json;
use rosbridge_server_rs::rosapi::Discovery;
use rosbridge_server_rs::rosapi_node::{node_allowlists, Api, JsonText};
use serde_json::Value;

fn from_value(v: &Value) -> Json {
    match v {
        Value::Null => Json::Null,
        Value::Bool(b) => Json::Bool(*b),
        Value::Number(n) => match (n.as_u64(), n.as_i64()) {
            (Some(u), _) => Json::UInt(u),
            (None, Some(i)) => Json::Int(i),
            _ => panic!("no fractions in these tests"),
        },
        Value::String(s) => Json::Str(s.clone()),
        Value::Array(items) => Json::Array(items.iter().map(from_value).collect()),
        Value::Object(m) => Json::Object(m.iter().map(|(k, v)| (k.clone(), from_value(v))).collect()),
    }
}

fn to_value(v: &Json) -> Value {
    match v {
        Json::Null => Value::Null,
        Json::Bool(b) => Value::Bool(*b),
        Json::UInt(u) => Value::from(*u),
        Json::Int(i) => Value::from(*i),
        Json::Float(f) => serde_json::Number::from_f64(f64::from_bits(f.bits)).map(Value::Number).unwrap_or(Value::Null),
        Json::Str(s) => Value::String(s.clone()),
        Json::Array(items) => Value::Array(items.iter().map(to_value).collect()),
        Json::Object(members) => {
            let mut m = serde_json::Map::new();
            for (k, v) in members {
                m.insert(k.clone(), to_value(v));
            }
            Value::Object(m)
        }
    }
}

fn value(text: &str) -> Value {
    serde_json::from_str(text).unwrap()
}

fn j(text: &str) -> Json {
    from_value(&value(text))
}

struct Text;

impl JsonText for Text {
    fn parse(&self, text: &str) -> Result<Json, Error> {
        serde_json::from_str::<Value>(text).map(|v| from_value(&v)).map_err(|e| Error { message: e.to_string() })
    }
    fn write(&self, value: &Json) -> String {
        to_value(value).to_string()
    }
}

/// A ROS side that records what the node asks of it.
#[derive(Default)]
struct Ros {
    next: Entity,
    offered: Vec<(Entity, String, String)>,
    clients: Vec<(Entity, String, String)>,
    requests: Vec<(Entity, Value)>,
    responses: Vec<(Entity, u64, Value)>,
    discarded: Vec<(Entity, u64)>,
    destroyed: Vec<Entity>,
    services: Vec<(String, Vec<String>)>,
    nodes: Vec<String>,
}

impl Ros {
    fn offering(services: &[&str]) -> Ros {
        Ros {
            services: services.iter().map(|s| (s.to_string(), vec!["t".to_string()])).collect(),
            ..Ros::default()
        }
    }
    fn operation(&self, name: &str) -> Entity {
        self.offered.iter().find(|(_, n, _)| n == &format!("/rosapi/{name}")).unwrap().0
    }
    fn client_of(&self, service: &str) -> Entity {
        self.clients.iter().rev().find(|(_, n, _)| n == service).unwrap().0
    }
}

impl Backend for Ros {
    fn handed(&self) -> Record {
        unread()
    }
    fn publisher(&mut self, _name: &str, _typ: &str, _qos: Qos) -> Result<Entity, Error> {
        self.next += 1;
        Ok(self.next)
    }
    fn subscription(&mut self, _name: &str, _typ: &str, _qos: Qos) -> Result<Entity, Error> {
        self.next += 1;
        Ok(self.next)
    }
    fn client(&mut self, name: &str, typ: &str) -> Result<Entity, Error> {
        self.next += 1;
        self.clients.push((self.next, name.to_string(), typ.to_string()));
        Ok(self.next)
    }
    fn service(&mut self, name: &str, typ: &str) -> Result<Entity, Error> {
        self.next += 1;
        self.offered.push((self.next, name.to_string(), typ.to_string()));
        Ok(self.next)
    }
    fn publish(&mut self, _entity: Entity, _message: &Json) -> Result<(), Error> {
        Ok(())
    }
    fn request(&mut self, entity: Entity, args: &Json) -> Result<i64, Error> {
        self.requests.push((entity, to_value(args)));
        Ok(1)
    }
    fn validate_response(&self, _entity: Entity, _values: &Json) -> Result<(), Error> {
        Ok(())
    }
    fn respond(&mut self, entity: Entity, request: u64, values: &Json) -> Result<(), Error> {
        self.responses.push((entity, request, to_value(values)));
        Ok(())
    }
    fn discard_request(&mut self, entity: Entity, request: u64) {
        self.discarded.push((entity, request));
    }
    fn destroy(&mut self, entity: Entity) {
        self.destroyed.push(entity);
    }
    fn poll(&mut self) -> Result<Vec<Event>, Error> {
        Ok(Vec::new())
    }
    fn topics(&mut self) -> Result<Vec<(String, Vec<String>)>, Error> {
        Ok(Vec::new())
    }
    fn services(&mut self) -> Result<Vec<(String, Vec<String>)>, Error> {
        Ok(self.services.clone())
    }
    fn publisher_qos(&mut self, _topic: &str) -> Result<Vec<Qos>, Error> {
        Ok(Vec::new())
    }
    fn now(&mut self) -> (i64, u32) {
        (12, 34)
    }
}

impl Discovery for Ros {
    fn nodes(&self) -> Result<Vec<String>, Error> {
        Ok(self.nodes.clone())
    }
    fn node_graph(&self, _node: &str, _kind: &str) -> Result<Vec<(String, Vec<String>)>, Error> {
        Ok(Vec::new())
    }
    fn raw_definition(&self, _typ: &str) -> String {
        String::new()
    }
    fn definition_details(&self, _typ: &str) -> Json {
        Json::Array(Vec::new())
    }
    fn interfaces(&self) -> Vec<String> {
        Vec::new()
    }
    fn distro(&self) -> String {
        "jazzy".to_string()
    }
}

fn args(settings: &[&str]) -> Vec<String> {
    settings.iter().flat_map(|v| ["-p".to_owned(), (*v).to_owned()]).collect()
}

const SECOND: u64 = 1_000_000_000;

fn node(ros: &mut Ros, settings: &[&str]) -> Api {
    Api::new(ros, &args(settings), 5 * SECOND).map_err(|e| e.text()).unwrap()
}

fn ask(api: &mut Api, ros: &mut Ros, op: &str, request: u64, arguments: &str, now: u64) -> Vec<Event> {
    let entity = ros.operation(op);
    api.process(ros, vec![Event::Request { entity, request, args: j(arguments) }], now, &Text).unwrap()
}

fn reply(api: &mut Api, ros: &mut Ros, service: &str, values: &str, now: u64) -> Vec<Event> {
    let entity = ros.client_of(service);
    api.process(ros, vec![Event::Response { entity, sequence: 1, values: j(values) }], now, &Text).unwrap()
}

fn texts(list: &Option<Vec<rosbridge_server_rs::access::Glob>>) -> Option<Vec<String>> {
    list.as_ref().map(|l| l.iter().map(|g| g.text().to_string()).collect())
}

#[test]
fn rosapi_node_offers_every_service() {
    let mut ros = Ros::default();
    let api = node(&mut ros, &[]);
    assert_eq!(ros.offered.len(), 29);
    assert_eq!(ros.offered[0].1, "/rosapi/topics");
    assert_eq!(ros.offered[0].2, "rosapi_msgs/srv/Topics");
    assert_eq!(ros.offered[28].1, "/rosapi/get_ros_version");
    assert_eq!(ros.offered[28].2, "rosapi_msgs/srv/GetROSVersion");
    assert_eq!(api.operations.len(), 29);
    assert_eq!(api.timeout, 5 * SECOND);
    let refused = Api::new(&mut Ros::default(), &Vec::new(), 0).err().map(|e| e.text());
    assert_eq!(refused, Some("params_timeout must be positive".to_string()));
    let bad = Api::new(&mut Ros::default(), &args(&["params_glob:=[x[y]"]), SECOND).err().map(|e| e.text());
    assert!(bad.is_some());
}

#[test]
fn rosapi_node_allowlists_are_read_loosely() {
    let a = node_allowlists(&args(&["topics_glob:=[/a, '/b']", "services_glob:=/x,/y", "params_glob:="])).unwrap();
    assert_eq!(texts(&a.pub_topics), Some(vec!["/a".to_string(), "/b".to_string()]));
    assert_eq!(texts(&a.sub_topics), Some(vec!["/a".to_string(), "/b".to_string()]));
    assert_eq!(texts(&a.services), Some(vec!["/x".to_string(), "/y".to_string()]));
    assert_eq!(texts(&a.params), None);
    let b = node_allowlists(&args(&["topics_pub_glob:=[/p]", "topics_glob:=[/c]", "params_glob:=[]"])).unwrap();
    assert_eq!(texts(&b.pub_topics), Some(vec!["/p".to_string(), "/c".to_string()]));
    assert_eq!(texts(&b.sub_topics), Some(vec!["/c".to_string()]));
    assert_eq!(texts(&b.params), Some(Vec::new()));
    assert!(Access::from_ros_args(&args(&["services_glob:=/x,/y"])).is_err());
}

#[test]
fn get_param_asks_the_node_and_answers_with_its_value() {
    let mut ros = Ros::offering(&["/node/get_parameters"]);
    let mut api = node(&mut ros, &[]);
    let passed = ask(&mut api, &mut ros, "get_param", 7, r#"{"name":"node:rate","default_value":"5"}"#, 0);
    assert!(passed.is_empty());
    assert_eq!(ros.clients.last().unwrap().1, "/node/get_parameters");
    assert_eq!(ros.clients.last().unwrap().2, "rcl_interfaces/srv/GetParameters");
    assert_eq!(ros.requests.last().unwrap().1, value(r#"{"names":["rate"]}"#));
    assert!(ros.responses.is_empty());
    let client = ros.client_of("/node/get_parameters");
    reply(&mut api, &mut ros, "/node/get_parameters", r#"{"values":[{"type":2,"integer_value":3}]}"#, 1);
    let service = ros.operation("get_param");
    assert_eq!(ros.responses, vec![(service, 7, value(r#"{"value":"3","successful":true,"reason":""}"#))]);
    assert!(ros.destroyed.contains(&client));
    assert!(api.groups.is_empty() && api.pending.is_empty());
}

#[test]
fn missing_parameter_gives_the_default() {
    let mut ros = Ros::offering(&["/node/get_parameters"]);
    let mut api = node(&mut ros, &[]);
    ask(&mut api, &mut ros, "get_param", 1, r#"{"name":"/node:rate","default_value":"5"}"#, 0);
    reply(&mut api, &mut ros, "/node/get_parameters", r#"{"values":[{"type":0}]}"#, 1);
    assert_eq!(ros.responses[0].2, value(r#"{"value":"5","successful":false,"reason":"Parameter not found"}"#));
}

#[test]
fn unavailable_parameter_service_is_reported_at_once() {
    let mut ros = Ros::default();
    let mut api = node(&mut ros, &[]);
    ask(&mut api, &mut ros, "has_param", 3, r#"{"name":"node:rate"}"#, 0);
    assert!(ros.clients.is_empty());
    assert_eq!(ros.responses[0].2, value(r#"{"exists":false}"#));
    assert!(api.groups.is_empty());
}

#[test]
fn parameter_outside_the_allowlist_is_refused() {
    let mut ros = Ros::offering(&["/node/set_parameters"]);
    let mut api = node(&mut ros, &["params_glob:=[public_*]"]);
    ask(&mut api, &mut ros, "set_param", 4, r#"{"name":"node:secret","value":"1"}"#, 0);
    assert!(ros.clients.is_empty());
    assert_eq!(
        ros.responses[0].2,
        value(r#"{"successful":false,"reason":"Parameter secret does not match any of the glob strings"}"#)
    );
}

#[test]
fn set_param_sends_the_typed_value() {
    let mut ros = Ros::offering(&["/node/set_parameters"]);
    let mut api = node(&mut ros, &[]);
    ask(&mut api, &mut ros, "set_param", 4, r#"{"name":"node:rate","value":"[1, 2]"}"#, 0);
    assert_eq!(ros.clients.last().unwrap().2, "rcl_interfaces/srv/SetParameters");
    assert_eq!(
        ros.requests.last().unwrap().1,
        value(r#"{"parameters":[{"name":"rate","value":{"type":7,"integer_array_value":[1,2]}}]}"#)
    );
    reply(&mut api, &mut ros, "/node/set_parameters", r#"{"results":[{"successful":false,"reason":"read-only"}]}"#, 1);
    assert_eq!(ros.responses[0].2, value(r#"{"successful":false,"reason":"read-only"}"#));
}

#[test]
fn unreadable_value_is_reported() {
    let mut ros = Ros::offering(&["/node/set_parameters"]);
    let mut api = node(&mut ros, &[]);
    ask(&mut api, &mut ros, "set_param", 4, r#"{"name":"node:rate","value":"{"}"#, 0);
    assert!(ros.clients.is_empty());
    assert_eq!(ros.responses[0].2["successful"], false);
    assert_ne!(ros.responses[0].2["reason"], "");
}

#[test]
fn delete_param_checks_that_the_parameter_exists() {
    let mut ros = Ros::offering(&["/node/get_parameters", "/node/set_parameters"]);
    let mut api = node(&mut ros, &[]);
    ask(&mut api, &mut ros, "delete_param", 9, r#"{"name":"node:rate"}"#, 0);
    assert_eq!(ros.clients.last().unwrap().1, "/node/get_parameters");
    reply(&mut api, &mut ros, "/node/get_parameters", r#"{"values":[{"type":2,"integer_value":1}]}"#, 1);
    assert_eq!(ros.clients.last().unwrap().1, "/node/set_parameters");
    assert_eq!(ros.requests.last().unwrap().1, value(r#"{"parameters":[{"name":"rate","value":{"type":0}}]}"#));
    assert!(ros.responses.is_empty());
    reply(&mut api, &mut ros, "/node/set_parameters", r#"{"results":[{"successful":true}]}"#, 2);
    assert_eq!(ros.responses[0].2, value(r#"{"successful":true,"reason":""}"#));
}

#[test]
fn deleting_a_missing_parameter_succeeds_without_setting() {
    let mut ros = Ros::offering(&["/node/get_parameters", "/node/set_parameters"]);
    let mut api = node(&mut ros, &[]);
    ask(&mut api, &mut ros, "delete_param", 9, r#"{"name":"node:rate"}"#, 0);
    reply(&mut api, &mut ros, "/node/get_parameters", r#"{"values":[{"type":0}]}"#, 1);
    assert_eq!(ros.clients.len(), 1);
    assert_eq!(ros.responses[0].2, value(r#"{"successful":true,"reason":""}"#));
}

#[test]
fn parameter_names_are_gathered_from_every_node() {
    let mut ros = Ros::offering(&["/a/list_parameters", "/b/list_parameters"]);
    ros.nodes = vec!["/a".to_string(), "/b".to_string(), "/c".to_string()];
    let mut api = node(&mut ros, &["params_glob:=[x*]"]);
    ask(&mut api, &mut ros, "get_param_names", 2, "{}", 0);
    assert_eq!(ros.clients.len(), 2);
    assert_eq!(ros.requests[0].1, value(r#"{"prefixes":[],"depth":0}"#));
    reply(&mut api, &mut ros, "/a/list_parameters", r#"{"result":{"names":["x1","y"]}}"#, 1);
    assert!(ros.responses.is_empty());
    reply(&mut api, &mut ros, "/b/list_parameters", r#"{"result":{"names":["x2"]}}"#, 2);
    assert_eq!(ros.responses[0].2, value(r#"{"names":["/a:x1","/b:x2"]}"#));
}

#[test]
fn parameter_request_times_out() {
    let mut ros = Ros::offering(&["/node/get_parameters"]);
    let mut api = node(&mut ros, &[]);
    ask(&mut api, &mut ros, "get_param", 5, r#"{"name":"node:rate"}"#, 10);
    let client = ros.client_of("/node/get_parameters");
    api.process(&mut ros, Vec::new(), 5 * SECOND + 9, &Text).unwrap();
    assert!(ros.responses.is_empty());
    api.process(&mut ros, Vec::new(), 5 * SECOND + 10, &Text).unwrap();
    assert_eq!(ros.responses[0].2, value(r#"{"value":"\"\"","successful":false,"reason":"Timeout occurred"}"#));
    assert!(ros.destroyed.contains(&client));
    assert!(api.groups.is_empty() && api.pending.is_empty());
}

#[test]
fn graph_requests_are_answered_and_other_events_handed_on() {
    let mut ros = Ros::default();
    let mut api = node(&mut ros, &[]);
    let time = ros.operation("get_time");
    let message = RosMessage { json: j(r#"{"data":1}"#), cbor: Cbor::Null, raw: Vec::new(), stamp: (0, 0) };
    let events = vec![
        Event::Message(100, message),
        Event::Request { entity: time, request: 1, args: j("{}") },
        Event::Request { entity: 200, request: 2, args: j("{}") },
        Event::Response { entity: 300, sequence: 3, values: j("{}") },
    ];
    let out = api.process(&mut ros, events, 0, &Text).unwrap();
    assert_eq!(out.len(), 3);
    assert!(matches!(out[0], Event::Message(100, _)));
    assert!(matches!(out[1], Event::Request { entity: 200, request: 2, .. }));
    assert!(matches!(out[2], Event::Response { entity: 300, sequence: 3, .. }));
    assert_eq!(ros.responses, vec![(time, 1, value(r#"{"time":{"sec":12,"nanosec":34}}"#))]);
}

#[test]
fn malformed_parameter_request_is_answered_with_the_reason() {
    let mut ros = Ros::default();
    let mut api = node(&mut ros, &[]);
    let entity = ros.operation("get_param");
    api.process(&mut ros, vec![Event::Request { entity, request: 8, args: j("{}") }], 0, &Text).unwrap();
    assert_eq!(ros.responses[0].2, value(r#"{"value":"\"\"","successful":false,"reason":"expected <node_name>:<param_name>"}"#));
    assert!(ros.discarded.is_empty());
}

#[test]
fn node_offers_each_operation_under_rosapi_with_its_type() {
    let mut ros = Ros::default();
    let api = node(&mut ros, &[]);
    assert_eq!(ros.offered.len(), api.operations.len());
    for (entity, name, typ) in &ros.offered {
        let op = name.strip_prefix("/rosapi/").unwrap();
        assert!(typ.starts_with("rosapi_msgs/srv/"));
        assert!(api.operations.iter().any(|(e, o)| e == entity && *o == op));
    }
    assert!(ros.offered.iter().any(|(_, n, t)| n == "/rosapi/topics" && t == "rosapi_msgs/srv/Topics"));
    assert!(ros.offered.iter().any(|(_, n, t)| n == "/rosapi/get_param" && t == "rosapi_msgs/srv/GetParam"));
}
