use rosbridge_server_rs::access::Access;
use rosbridge_server_rs::json::Json;
use rosbridge_server_rs::rosapi::{
    action_servers_value, action_type_value, details_of, exists_outcome_of, get_outcome_of, get_reply_value,
    get_request_value, get_result_value, has_reply_value, list_request_value, listed_names_of, node_details_value,
    node_query_value, operation_list, param_op, public, services_value, service_type_value,
    set_outcome_of, set_reply_value, set_request_value, target, time_value, topic_list, topic_type_value,
    topics_and_raw_types_value, topics_for_type_value, topics_value, unset_value_json, version_value, NodeQuery,
    ParamOp,
};
use serde_json::Value;

fn from_value(v: &Value) -> Json {
    match v {
        Value::Null => Json::Null,
        Value::Bool(b) => Json::Bool(*b),
        Value::Number(n) => match (n.as_u64(), n.as_i64()) {
            (Some(u), _) => Json::UInt(u),
            (None, Some(i)) => Json::Int(i),
            _ => panic!("no fractions in these tests"),
        },
        Value::String(s) => Json::Str(s.clone()),
        Value::Array(items) => Json::Array(items.iter().map(from_value).collect()),
        Value::Object(m) => Json::Object(m.iter().map(|(k, v)| (k.clone(), from_value(v))).collect()),
    }
}

fn to_value(v: &Json) -> Value {
    match v {
        Json::Null => Value::Null,
        Json::Bool(b) => Value::Bool(*b),
        Json::UInt(u) => Value::from(*u),
        Json::Int(i) => Value::from(*i),
        Json::Float(f) => serde_json::Number::from_f64(f64::from_bits(f.bits)).map(Value::Number).unwrap_or(Value::Null),
        Json::Str(s) => Value::String(s.clone()),
        Json::Array(items) => Value::Array(items.iter().map(to_value).collect()),
        Json::Object(members) => {
            let mut m = serde_json::Map::new();
            for (k, v) in members {
                m.insert(k.clone(), to_value(v));
            }
            Value::Object(m)
        }
    }
}

fn value(text: &str) -> Value {
    serde_json::from_str(text).unwrap()
}

fn j(text: &str) -> Json {
    from_value(&value(text))
}

fn graph(entries: &[(&str, &[&str])]) -> Vec<(String, Vec<String>)> {
    entries.iter().map(|(n, t)| (n.to_string(), t.iter().map(|x| x.to_string()).collect())).collect()
}

fn access(settings: &[&str]) -> Access {
    let args: Vec<String> = settings.iter().flat_map(|v| ["-p".to_owned(), (*v).to_owned()]).collect();
    Access::from_ros_args(&args).unwrap()
}

#[test]
fn every_rosapi_service_is_offered() {
    let ops = operation_list();
    assert_eq!(ops.len(), 29);
    assert_eq!(ops[0], ("topics", "Topics"));
    assert_eq!(ops[8], ("action_servers", "GetActionServers"));
    assert_eq!(ops[28], ("get_ros_version", "GetROSVersion"));
    assert_eq!(param_op("get_param_names"), Some(ParamOp::GetParamNames));
    assert_eq!(param_op("topics"), None);
}

#[test]
fn hidden_names_are_not_public() {
    assert!(public("/chatter"));
    assert!(public("/a/b_c"));
    assert!(!public("/_hidden"));
    assert!(!public("/a/_b/c"));
    assert!(!public("_x"));
    assert!(public(""));
}

#[test]
fn topic_replies_follow_the_allowlists() {
    let g = graph(&[
        ("/a", &["std_msgs/msg/String"]),
        ("/_hidden", &["std_msgs/msg/String"]),
        ("/b", &["std_msgs/msg/Int32", "other"]),
        ("/c", &[]),
        ("/secret", &["std_msgs/msg/String"]),
    ]);
    let a = access(&["topics_glob:=['/a', '/b', '/c']"]);
    let pairs = topic_list(&g, &a);
    assert_eq!(pairs, vec![("/a".to_string(), "std_msgs/msg/String".to_string()), ("/b".to_string(), "std_msgs/msg/Int32".to_string())]);
    assert_eq!(to_value(&topics_value(&pairs)), value(r#"{"topics":["/a","/b"],"types":["std_msgs/msg/String","std_msgs/msg/Int32"]}"#));
    assert_eq!(
        to_value(&topics_and_raw_types_value(&pairs, &vec!["string data".to_string(), "int32 data".to_string()])),
        value(r#"{"topics":["/a","/b"],"types":["std_msgs/msg/String","std_msgs/msg/Int32"],"typedefs_full_text":["string data","int32 data"]}"#)
    );
    assert_eq!(to_value(&topics_for_type_value(&pairs, "std_msgs/msg/Int32")), value(r#"{"topics":["/b"]}"#));
    assert_eq!(to_value(&topic_type_value(&pairs, "/a")), value(r#"{"type":"std_msgs/msg/String"}"#));
    assert_eq!(to_value(&topic_type_value(&pairs, "/secret")), value(r#"{"type":""}"#));
}

#[test]
fn service_replies_follow_the_allowlist() {
    let g = graph(&[("/add", &["example_interfaces/srv/AddTwoInts"]), ("/_x", &["t"]), ("/hidden", &["t"])]);
    let a = access(&["services_glob:=['/add', '/_x']"]);
    assert_eq!(to_value(&services_value(&g, &a, None)), value(r#"{"services":["/add"]}"#));
    assert_eq!(to_value(&services_value(&g, &a, Some("t"))), value(r#"{"services":[]}"#));
    assert_eq!(to_value(&service_type_value(&g, &a, "/add")), value(r#"{"type":"example_interfaces/srv/AddTwoInts"}"#));
    assert_eq!(to_value(&service_type_value(&g, &a, "/hidden")), value(r#"{"type":""}"#));
}

#[test]
fn actions_are_found_from_their_topics_and_services() {
    let topics = graph(&[
        ("/fib/_action/feedback", &["f"]),
        ("/fib/_action/status", &["s"]),
        ("/half/_action/feedback", &["f"]),
    ]);
    let open = Access::default();
    assert_eq!(to_value(&action_servers_value(&topics, &open)), value(r#"{"action_servers":["/fib"]}"#));
    let services = graph(&[("/fib/_action/send_goal", &["example_interfaces/action/Fibonacci_SendGoal"])]);
    assert_eq!(to_value(&action_type_value(&services, "/fib")), value(r#"{"type":"example_interfaces/action/Fibonacci"}"#));
    assert_eq!(to_value(&action_type_value(&services, "/none")), value(r#"{"type":""}"#));
}

#[test]
fn node_queries() {
    let nodes = vec![
        ("/talker".to_string(), Some(graph(&[("/chatter", &["std_msgs/msg/String"])]))),
        ("/gone".to_string(), None),
        ("/adder".to_string(), Some(graph(&[("/add", &["example_interfaces/srv/AddTwoInts"])]))),
    ];
    let open = Access::default();
    assert_eq!(to_value(&node_query_value(NodeQuery::Publishers, &open, "/chatter", &nodes)), value(r#"{"publishers":["/talker"]}"#));
    assert_eq!(
        to_value(&node_query_value(NodeQuery::ServiceProviders, &open, "example_interfaces/srv/AddTwoInts", &nodes)),
        value(r#"{"providers":["/adder"]}"#)
    );
    assert_eq!(to_value(&node_query_value(NodeQuery::ServiceNode, &open, "/add", &nodes)), value(r#"{"node":"/adder"}"#));
    assert_eq!(to_value(&node_query_value(NodeQuery::ServiceNode, &open, "/none", &nodes)), value(r#"{"node":""}"#));
    let closed = access(&["topics_glob:=[]"]);
    assert_eq!(to_value(&node_query_value(NodeQuery::Subscribers, &closed, "/chatter", &nodes)), value(r#"{"subscribers":[]}"#));
    let details = node_details_value(&graph(&[("/in", &[])]), &graph(&[("/out", &[])]), &graph(&[]));
    assert_eq!(to_value(&details), value(r#"{"subscribing":["/in"],"publishing":["/out"],"services":[]}"#));
}

#[test]
fn definitions_time_and_version() {
    assert_eq!(details_of("message_details"), Some(("msg", "")));
    assert_eq!(details_of("action_feedback_details"), Some(("action", "_Feedback")));
    assert_eq!(details_of("topics"), None);
    assert_eq!(to_value(&time_value(12, 34)), value(r#"{"time":{"sec":12,"nanosec":34}}"#));
    assert_eq!(to_value(&time_value(-1, 0)), value(r#"{"time":{"sec":-1,"nanosec":0}}"#));
    assert_eq!(to_value(&version_value("jazzy")), value(r#"{"version":2,"distro":"jazzy"}"#));
}

#[test]
fn parameter_requests() {
    let open = Access::default();
    let t = target("get_param", &j(r#"{"name":"//node:rate"}"#), &open).unwrap();
    assert_eq!((t.node.as_str(), t.name.as_str(), t.service.as_str(), t.typ), ("/node", "rate", "/node/get_parameters", "GetParameters"));
    let t = target("set_param", &j(r#"{"name":"ns/node:rate"}"#), &open).unwrap();
    assert_eq!((t.service.as_str(), t.typ), ("/ns/node/set_parameters", "SetParameters"));
    assert_eq!(target("get_param", &j(r#"{"name":"rate"}"#), &open).err().map(|e| e.text()), Some("expected <node_name>:<param_name>".to_string()));
    let limited = access(&["params_glob:=['public_*']"]);
    assert_eq!(
        target("get_param", &j(r#"{"name":"/n:secret"}"#), &limited).err().map(|e| e.text()),
        Some("Parameter secret does not match any of the glob strings".to_string())
    );
    assert_eq!(to_value(&get_request_value("rate")), value(r#"{"names":["rate"]}"#));
    assert_eq!(
        to_value(&set_request_value("rate", unset_value_json())),
        value(r#"{"parameters":[{"name":"rate","value":{"type":0}}]}"#)
    );
    assert_eq!(to_value(&list_request_value()), value(r#"{"prefixes":[],"depth":0}"#));
}

#[test]
fn parameter_replies() {
    let (v, e) = get_outcome_of(&j(r#"{"values":[{"type":2,"integer_value":5}]}"#));
    assert_eq!(v.as_ref().map(to_value), Some(value(r#"{"type":2,"integer_value":5}"#)));
    assert_eq!(e, None);
    let (v2, e2) = get_outcome_of(&j(r#"{"values":[{"type":0}]}"#));
    assert!(v2.is_some());
    assert_eq!(e2.as_deref(), Some("Parameter not found"));
    assert_eq!(get_outcome_of(&j(r#"{"values":[]}"#)).1.as_deref(), Some("Parameter not found"));
    assert!(exists_outcome_of(&j(r#"{"values":[{"type":1}]}"#)));
    assert!(!exists_outcome_of(&j(r#"{"values":[{"type":0}]}"#)));
    assert_eq!(set_outcome_of(&j(r#"{"results":[{"successful":true}]}"#)), None);
    assert_eq!(set_outcome_of(&j(r#"{"results":[{"successful":false,"reason":"read only"}]}"#)).as_deref(), Some("read only"));
    assert_eq!(set_outcome_of(&j("{}")).as_deref(), Some(""));
    let names = listed_names_of("/n", &j(r#"{"result":{"names":["public_a","secret",3]}}"#), &access(&["params_glob:=['public_*']"]));
    assert_eq!(names, vec!["/n:public_a".to_string()]);
    assert_eq!(to_value(&has_reply_value(&v, &e)), value(r#"{"exists":true}"#));
    assert_eq!(to_value(&has_reply_value(&v2, &e2)), value(r#"{"exists":false}"#));
    let result = get_result_value(&v, &e, Json::Str(String::new()));
    assert_eq!(to_value(&result), value("5"));
    let fallback = get_result_value(&v2, &e2, Json::Str("d".to_string()));
    assert_eq!(to_value(&fallback), value(r#""d""#));
    assert_eq!(to_value(&get_reply_value("5", &None)), value(r#"{"value":"5","successful":true,"reason":""}"#));
    assert_eq!(
        to_value(&set_reply_value(&Some("Timeout occurred".to_string()))),
        value(r#"{"successful":false,"reason":"Timeout occurred"}"#)
    );
}
