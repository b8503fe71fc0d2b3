use rosbridge_server_rs::access::{raw_parameter_service, rosapi_parameter_service, Access, Glob};
use rosbridge_server_rs::assembly::{DEFAULT_FRAGMENT_TIMEOUT_MS, MAX_ASSEMBLIES};
use rosbridge_server_rs::backend::{rounded_double, Qos};
use rosbridge_server_rs::bridge::{id, name, required, uuid_key};
use rosbridge_server_rs::cbor::{cbor_value, json_value, typed_array, Cbor};
use rosbridge_server_rs::encoding::{sum, Request};
use rosbridge_server_rs::json::{Float, Json};
use rosbridge_server_rs::parameters::{parameter_json, parameter_value};
use rosbridge_server_rs::wire::{decimal_string, frame_text, Compression, Decoded, Decoder, Options};
use serde_json::Value;

fn from_value(v: &Value) -> Json {
    match v {
        Value::Null => Json::Null,
        Value::Bool(b) => Json::Bool(*b),
        Value::Number(n) => {
            if let Some(u) = n.as_u64() {
                Json::UInt(u)
            } else if let Some(i) = n.as_i64() {
                Json::Int(i)
            } else {
                let f = n.as_f64().unwrap();
                let seconds = std::time::Duration::try_from_secs_f64(f)
                    .ok()
                    .map(|d| (d.as_secs(), d.subsec_nanos()));
                Json::Float(Float { bits: f.to_bits(), single: false, seconds })
            }
        }
        Value::String(s) => Json::Str(s.clone()),
        Value::Array(items) => Json::Array(items.iter().map(from_value).collect()),
        Value::Object(members) => {
            Json::Object(members.iter().map(|(k, v)| (k.clone(), from_value(v))).collect())
        }
    }
}

fn to_value(v: &Json) -> Value {
    match v {
        Json::Null => Value::Null,
        Json::Bool(b) => Value::Bool(*b),
        Json::UInt(u) => Value::from(*u),
        Json::Int(i) => Value::from(*i),
        Json::Float(f) => {
            let x = if f.single { f32::from_bits(f.bits as u32) as f64 } else { f64::from_bits(f.bits) };
            serde_json::Number::from_f64(x).map(Value::Number).unwrap_or(Value::Null)
        }
        Json::Str(s) => Value::String(s.clone()),
        Json::Array(items) => Value::Array(items.iter().map(to_value).collect()),
        Json::Object(members) => {
            let mut m = serde_json::Map::new();
            for (k, v) in members {
                m.insert(k.clone(), to_value(v));
            }
            Value::Object(m)
        }
    }
}

fn value(text: &str) -> Value {
    serde_json::from_str(text).unwrap()
}

fn j(text: &str) -> Json {
    from_value(&value(text))
}

#[test]
fn compression_names() {
    assert_eq!(Compression::parse("none").ok(), Some(Compression::Plain));
    assert_eq!(Compression::parse("png").ok(), Some(Compression::Png));
    assert_eq!(Compression::parse("cbor").ok(), Some(Compression::Cbor));
    assert_eq!(Compression::parse("cbor-raw").ok(), Some(Compression::Raw));
    assert_eq!(Compression::parse("zip").err().map(|e| e.text()), Some("unsupported compression zip".to_string()));
    assert_eq!(Compression::default(), Compression::Plain);
}

#[test]
fn delivery_options() {
    assert_eq!(Options::parse(&j("{}")).ok(), Some(Options::default()));
    let o = Options::parse(&j(r#"{"compression":"png","fragment_size":10,"throttle_rate":5,"queue_length":2}"#)).unwrap();
    assert_eq!(o, Options { compression: Compression::Png, fragment: Some(10), throttle_ms: 5, queue: 2 });
    assert_eq!(Options::parse(&j(r#"{"fragment_size":0}"#)).unwrap().fragment, None);
    assert_eq!(
        Options::parse(&j(r#"{"fragment_size":-1}"#)).err().map(|e| e.text()),
        Some("fragment_size must be a nonnegative integer".to_string())
    );
    assert_eq!(
        Options::parse(&j(r#"{"compression":1}"#)).err().map(|e| e.text()),
        Some("compression must be a string".to_string())
    );
}

#[test]
fn parameter_values_by_type() {
    assert_eq!(to_value(&parameter_json(&j(r#"{"type":2,"integer_value":5}"#))), value("5"));
    assert_eq!(to_value(&parameter_json(&j(r#"{"type":4,"string_value":"x"}"#))), value(r#""x""#));
    assert_eq!(to_value(&parameter_json(&j(r#"{"type":0}"#))), Value::Null);
    assert_eq!(to_value(&parameter_json(&j(r#"{"type":10}"#))), Value::Null);
    let cases = [
        ("null", r#"{"type":0}"#),
        ("true", r#"{"type":1,"bool_value":true}"#),
        ("3", r#"{"type":2,"integer_value":3}"#),
        ("-3", r#"{"type":2,"integer_value":-3}"#),
        ("2.5", r#"{"type":3,"double_value":2.5}"#),
        (r#""s""#, r#"{"type":4,"string_value":"s"}"#),
        ("[true,false]", r#"{"type":6,"bool_array_value":[true,false]}"#),
        ("[1,2]", r#"{"type":7,"integer_array_value":[1,2]}"#),
        ("[1,2.5]", r#"{"type":8,"double_array_value":[1,2.5]}"#),
        (r#"["a"]"#, r#"{"type":9,"string_array_value":["a"]}"#),
        ("[]", r#"{"type":6,"bool_array_value":[]}"#),
    ];
    for (input, expected) in cases {
        assert_eq!(to_value(&parameter_value(&j(input)).unwrap()), value(expected), "{input}");
    }
    for input in [r#"[1,"a"]"#, "{}"] {
        assert_eq!(
            parameter_value(&j(input)).err().map(|e| e.text()),
            Some("parameter value must be a scalar or homogeneous array".to_string())
        );
    }
}

#[test]
fn cbor_conversions() {
    let message = j(r#"{"a":[1,-2,"x",true,null]}"#);
    assert_eq!(to_value(&json_value(&cbor_value(&message)).unwrap()), to_value(&message));
    let bytes = Cbor::Tag(64, Box::new(Cbor::Bytes(vec![1, 2, 3])));
    assert_eq!(to_value(&json_value(&bytes).unwrap()), value(r#""AQID""#));
    let shorts = Cbor::Bytes([7u16.to_le_bytes(), 513u16.to_le_bytes()].concat());
    assert_eq!(to_value(&typed_array(69, &shorts).unwrap()), value("[7, 513]"));
    assert!(typed_array(99, &shorts).is_err());
    assert!(typed_array(70, &Cbor::Bytes(vec![1, 2, 3])).is_err());
    let keyed = Cbor::Pairs(vec![(Cbor::Integer(1), Cbor::Null)]);
    assert_eq!(json_value(&keyed).err().map(|e| e.text()), Some("CBOR object keys must be strings".to_string()));
}

#[test]
fn decimal_and_fragments() {
    assert_eq!(decimal_string(0), "0");
    assert_eq!(decimal_string(1234), "1234");
    assert_eq!(frame_text("abcdef", None, "k").unwrap(), vec!["abcdef".to_string()]);
    assert_eq!(frame_text("abcdef", Some(6), "k").unwrap(), vec!["abcdef".to_string()]);
    assert_eq!(
        frame_text("abcdef", Some(4), "k").unwrap(),
        vec![
            r#"{"data":"abcd","id":"k","num":0,"op":"fragment","total":2}"#.to_string(),
            r#"{"data":"ef","id":"k","num":1,"op":"fragment","total":2}"#.to_string(),
        ]
    );
    assert_eq!(
        frame_text("é", Some(1), "k").err().map(|e| e.text()),
        Some("fragment_size is too small for UTF-8 character".to_string())
    );
    let quoted = frame_text(r#"{"q":"a\"b"}"#, Some(8), "k").unwrap();
    let data: String = quoted.iter().map(|f| value(f)["data"].as_str().unwrap().to_string()).collect();
    assert_eq!(data, r#"{"q":"a\"b"}"#);
}

fn fragment(id: &str, num: u64, total: u64, data: &str) -> Json {
    let mut v = value(r#"{"op":"fragment"}"#);
    v["id"] = Value::from(id);
    v["num"] = Value::from(num);
    v["total"] = Value::from(total);
    v["data"] = Value::from(data);
    from_value(&v)
}

fn refusal(r: Result<Decoded, rosbridge_server_rs::error::Error>) -> Option<String> {
    r.err().map(|e| e.text())
}

#[test]
fn decoder_refusals() {
    let mut d = Decoder::default();
    assert_eq!(d.timeout_ms, DEFAULT_FRAGMENT_TIMEOUT_MS);
    assert_eq!(refusal(d.decode(j("[1]"), 100, 0)), Some("message must be an object".to_string()));
    assert!(matches!(d.decode(j(r#"{"op":"publish"}"#), 100, 0), Ok(Decoded::Ready(_))));
    assert_eq!(refusal(d.decode(j(r#"{"op":"fragment"}"#), 100, 0)), Some("fragment id is required".to_string()));
    assert_eq!(
        refusal(d.decode(j(r#"{"op":"fragment","id":"a"}"#), 100, 0)),
        Some("fragment total is required".to_string())
    );
    assert_eq!(
        refusal(d.decode(j(r#"{"op":"fragment","id":"a","total":2}"#), 100, 0)),
        Some("fragment num is required".to_string())
    );
    assert_eq!(
        refusal(d.decode(j(r#"{"op":"fragment","id":"a","total":2,"num":0}"#), 100, 0)),
        Some("fragment data is required".to_string())
    );
    assert_eq!(refusal(d.decode(fragment("a", 2, 2, "x"), 100, 0)), Some("invalid fragment indices".to_string()));
    assert_eq!(refusal(d.decode(fragment("a", 0, 0, "x"), 100, 0)), Some("invalid fragment indices".to_string()));
    assert!(matches!(d.decode(fragment("a", 0, 2, "x"), 100, 0), Ok(Decoded::Pending)));
    assert_eq!(refusal(d.decode(fragment("a", 1, 3, "x"), 100, 0)), Some("fragment total changed".to_string()));
    for k in 1..MAX_ASSEMBLIES {
        assert!(matches!(d.decode(fragment(&k.to_string(), 0, 2, "x"), 100, 0), Ok(Decoded::Pending)));
    }
    assert_eq!(
        refusal(d.decode(fragment("overflow", 0, 2, "x"), 100, 0)),
        Some("too many fragment assemblies".to_string())
    );
    match d.decode(fragment("a", 1, 2, "y"), 100, 0) {
        Ok(Decoded::Assembled(text)) => assert_eq!(text, "xy"),
        _ => panic!("expected the assembled text"),
    }
    assert_eq!(Decoder::check_size(5, 4).err().map(|e| e.text()), Some("message too large".to_string()));
    assert!(Decoder::check_size(4, 4).is_ok());
    assert_eq!(
        Decoder::finish(j(r#"{"op":"fragment"}"#)).err().map(|e| e.text()),
        Some("invalid assembled operation".to_string())
    );
    assert!(Decoder::finish(j("[]")).is_err());
    assert!(Decoder::finish(j(r#"{"op":"publish"}"#)).is_ok());
}

#[test]
fn unfinished_messages_expire() {
    let mut d = Decoder::with_timeout(10);
    assert!(matches!(d.decode(fragment("a", 0, 2, "x"), 100, 0), Ok(Decoded::Pending)));
    assert!(matches!(d.decode(fragment("a", 1, 2, "y"), 100, 10), Ok(Decoded::Pending)));
    match d.decode(fragment("a", 0, 2, "z"), 100, 15) {
        Ok(Decoded::Assembled(text)) => assert_eq!(text, "zy"),
        _ => panic!("expected the assembled text"),
    }
}

#[test]
fn allowlists() {
    let none = Access::default();
    assert!(none.topic("/anything", true).is_ok());
    assert!(rosbridge_server_rs::access::matches(&None, "/x"));
    assert!(!rosbridge_server_rs::access::matches(&Some(vec![]), "/x"));
    let star = Glob::new("/a/*").unwrap();
    assert!(star.matches("/a/b/c"));
    assert!(!star.matches("/b"));
    assert_eq!(star.text(), "/a/*");
    assert!(Glob::new("[").is_err());
    let args: Vec<String> = ["-p", "topics_glob:=['/shared/*']", "-p", "topics_pub_glob:=[/write/*]", "-p", "services_glob:=[]"]
        .iter()
        .map(|s| s.to_string())
        .collect();
    let a = Access::from_ros_args(&args).unwrap();
    assert!(a.topic("/write/x", true).is_ok());
    assert!(a.topic("/shared/x", true).is_ok());
    assert!(a.topic("/shared/x", false).is_ok());
    assert!(a.topic("/other", false).is_ok() == false);
    assert_eq!(a.topic("/read/x", true).err().map(|e| e.text()), Some("topics_pub_glob denies /read/x".to_string()));
    assert_eq!(a.service("/s").err().map(|e| e.text()), Some("services_glob denies /s".to_string()));
    assert_eq!(
        a.action("/move", false).err().map(|e| e.text()),
        Some("services_glob denies /move/_action/send_goal".to_string())
    );
    assert!(raw_parameter_service("rcl_interfaces/srv/SetParameters"));
    assert!(!raw_parameter_service("rosapi_msgs/srv/GetParam"));
    assert!(rosapi_parameter_service("rosapi_msgs/srv/GetParamNames"));
    let params = Access::from_ros_args(&vec!["-p".to_string(), "params_glob:=['public_*']".to_string()]).unwrap();
    assert!(params.parameter_service("rosapi_msgs/srv/GetParam", &j(r#"{"name":"/n:public_x"}"#)).is_ok());
    assert_eq!(
        params.parameter_service("rosapi_msgs/srv/GetParam", &j(r#"{"name":"/n:secret"}"#)).err().map(|e| e.text()),
        Some("params_glob denies secret".to_string())
    );
    assert_eq!(
        params.parameter_service("rosapi_msgs/srv/GetParam", &j(r#"{"name":"secret"}"#)).err().map(|e| e.text()),
        Some("expected <node_name>:<param_name>".to_string())
    );
    assert_eq!(
        params.advertise_service("rosapi_msgs/srv/SetParam").err().map(|e| e.text()),
        Some("params_glob forbids client-advertised parameter services".to_string())
    );
    assert!(Access::from_ros_args(&vec!["-p".to_string(), "topics_glob:=['[']".to_string()]).is_err());
}

#[test]
fn request_fields() {
    let v = j(r#"{"topic":"chatter","id":"7","bad":"a/b~c","empty":"","n":3}"#);
    assert_eq!(required(&v, "topic").unwrap(), "chatter");
    assert_eq!(required(&v, "empty").err().map(|e| e.text()), Some("empty must be a nonempty string".to_string()));
    assert_eq!(required(&v, "n").err().map(|e| e.text()), Some("n must be a nonempty string".to_string()));
    assert_eq!(id(&v).unwrap(), Some("7".to_string()));
    assert_eq!(id(&j("{}")).unwrap(), None);
    assert_eq!(id(&j(r#"{"id":1}"#)).err().map(|e| e.text()), Some("id must be a string".to_string()));
    assert_eq!(name(&v, "topic").unwrap(), "/chatter");
    assert_eq!(name(&j(r#"{"t":"/a/b_1"}"#), "t").unwrap(), "/a/b_1");
    assert_eq!(name(&v, "bad").err().map(|e| e.text()), Some("invalid ROS name".to_string()));
    assert_eq!(rosbridge_server_rs::bridge::concat("ab", "cd"), "abcd");
}

#[test]
fn goal_uuids() {
    let bytes: Vec<String> = (0..16).map(|b| b.to_string()).collect();
    let array = j(&format!(r#"{{"uuid":[{}]}}"#, bytes.join(",")));
    assert_eq!(uuid_key(&array).unwrap(), "000102030405060708090a0b0c0d0e0f");
    assert_eq!(uuid_key(&j(r#"{"uuid":"AAECAwQFBgcICQoLDA0ODw=="}"#)).unwrap(), "000102030405060708090a0b0c0d0e0f");
    assert_eq!(uuid_key(&j(r#"{"uuid":[1,2]}"#)).err().map(|e| e.text()), Some("goal UUID must be 16 bytes".to_string()));
    assert_eq!(uuid_key(&j(r#"{"uuid":[1,"x"]}"#)).err().map(|e| e.text()), Some("invalid UUID byte".to_string()));
    assert_eq!(uuid_key(&j("{}")).err().map(|e| e.text()), Some("missing goal UUID".to_string()));
    assert!(uuid_key(&j(r#"{"uuid":"***"}"#)).is_err());
}

#[test]
fn sizes_and_defaults() {
    assert_eq!(sum(&vec![1, 2, 3]), 6);
    assert_eq!(sum(&vec![usize::MAX, 1]), usize::MAX);
    assert_eq!(Qos::publisher().depth, 100);
    assert_eq!(Qos::subscriber().reliability, 2);
    assert_eq!(Qos::service().durability, 2);
    assert_eq!(rounded_double(3), 3);
    assert_eq!(rounded_double(u64::MAX), 18446744073709551616);
    let r = Request::new(j(r#"{"a":"xyz"}"#), None, Options::default(), "f".to_string());
    assert!(r.retained_bytes() > 0);
}

#[test]
fn qos_refusals_name_their_reason() {
    let reason = |text: &str| Qos::parse(&j(text)).err().map(|e| e.text());
    assert_eq!(reason("[]"), Some("qos must be an object".to_string()));
    assert_eq!(reason(r#"{"history":1}"#), Some("QoS policy must be a string".to_string()));
    assert_eq!(reason(r#"{"history":"random"}"#), Some("invalid QoS policy: random".to_string()));
    assert_eq!(reason(r#"{"depth":-1}"#), Some("depth must be a nonnegative integer".to_string()));
    assert_eq!(reason(r#"{"deadline":-1}"#), Some("invalid duration".to_string()));
    assert_eq!(reason(r#"{"lifespan":{"secs":1}}"#), Some("duration requires nonnegative secs and nsecs".to_string()));
    assert_eq!(
        reason(r#"{"lifespan":{"secs":18446744073709551615,"nsecs":1000000000}}"#),
        Some("duration overflow".to_string())
    );
    assert_eq!(reason(r#"{"color":"red"}"#), Some("unknown QoS field: color".to_string()));
    let q = Qos::parse(&j(r#"{"history":"KEEP_ALL","deadline":"best_available","lifespan":"Infinite","depth":4}"#)).unwrap();
    assert_eq!(q.history, 2);
    assert_eq!(q.deadline, (9223372036, 854775806));
    assert_eq!(q.lifespan, (9223372036, 854775807));
    assert_eq!(q.depth, 4);
}

#[test]
fn binary_frame_prefers_the_received_cbor_and_ignores_fragments() {
    let options = Options { compression: Compression::Cbor, fragment: Some(1), ..Options::default() };
    let received = Request::new(j(r#"{"a":1}"#), Some(Cbor::Text("kept".to_string())), options, String::new());
    assert!(matches!(received.binary_frame(), Some(Cbor::Text(ref t)) if t == "kept"));
    let converted = Request::new(j(r#"{"a":1}"#), None, options, String::new());
    let Some(Cbor::Pairs(pairs)) = converted.binary_frame() else { panic!("expected a map") };
    assert_eq!(pairs.len(), 1);
    assert!(matches!(&pairs[0].0, Cbor::Text(k) if k == "a"));
    assert!(matches!(pairs[0].1, Cbor::Integer(1)));
    let text = Request::new(j(r#"{"a":1}"#), None, Options::default(), String::new());
    assert!(text.binary_frame().is_none());
}
