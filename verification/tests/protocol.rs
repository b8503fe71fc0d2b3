use rosbridge_server_rs::access::Access;
use rosbridge_server_rs::backend::{unread, Record, interface_name, Backend, Entity, Event, Qos, RosMessage};
use rosbridge_server_rs::bridge::{Bridge, PayloadPreview, Writer};
use rosbridge_server_rs::cbor::{cbor_value, json_value, Cbor};
use rosbridge_server_rs::error::Error;
use rosbridge_server_rs::json::{Float, Json};
use rosbridge_server_rs::wire::{encode_text, Compression, Decoded, Decoder, Options};
use base64::Engine;
use serde_json::Value;
use std::cell::RefCell;
use std::collections::{BTreeMap, HashMap, VecDeque};
use std::rc::Rc;

fn from_value(v: &Value) -> Json {
    match v {
        Value::Null => Json::Null,
        Value::Bool(b) => Json::Bool(*b),
        Value::Number(n) => {
            if let Some(u) = n.as_u64() {
                Json::UInt(u)
            } else if let Some(i) = n.as_i64() {
                Json::Int(i)
            } else {
                let f = n.as_f64().unwrap();
                let seconds = std::time::Duration::try_from_secs_f64(f)
                    .ok()
                    .map(|d| (d.as_secs(), d.subsec_nanos()));
                Json::Float(Float { bits: f.to_bits(), single: false, seconds })
            }
        }
        Value::String(s) => Json::Str(s.clone()),
        Value::Array(items) => Json::Array(items.iter().map(from_value).collect()),
        Value::Object(members) => Json::Object(
            members.iter().map(|(k, v)| (k.clone(), from_value(v))).collect(),
        ),
    }
}

fn to_value(v: &Json) -> Value {
    match v {
        Json::Null => Value::Null,
        Json::Bool(b) => Value::Bool(*b),
        Json::UInt(u) => Value::from(*u),
        Json::Int(i) => Value::from(*i),
        Json::Float(f) => {
            let x = if f.single {
                f32::from_bits(f.bits as u32) as f64
            } else {
                f64::from_bits(f.bits)
            };
            serde_json::Number::from_f64(x).map(Value::Number).unwrap_or(Value::Null)
        }
        Json::Str(s) => Value::String(s.clone()),
        Json::Array(items) => Value::Array(items.iter().map(to_value).collect()),
        Json::Object(members) => {
            let mut m = serde_json::Map::new();
            for (k, v) in members {
                m.insert(k.clone(), to_value(v));
            }
            Value::Object(m)
        }
    }
}

fn value(text: &str) -> Value {
    serde_json::from_str(text).unwrap()
}

fn j(text: &str) -> Json {
    from_value(&value(text))
}

#[derive(Default)]
struct TestRos {
    next: u64,
    entities: HashMap<Entity, (String, String, &'static str)>,
    events: Vec<Event>,
    writes: Vec<(Entity, Value)>,
    qos: Vec<Qos>,
    discarded: Vec<(Entity, u64)>,
}

impl TestRos {
    fn create(&mut self, n: &str, t: &str, kind: &'static str) -> Result<Entity, Error> {
        self.next += 1;
        self.entities.insert(self.next, (n.into(), t.into(), kind));
        Ok(self.next)
    }
    fn entity(&self, kind: &str) -> Entity {
        *self.entities.iter().find(|(_, (_, _, k))| *k == kind).unwrap().0
    }
    fn message(&mut self, text: &str) {
        let e = self.entity("subscription");
        let v = j(text);
        self.events.push(Event::Message(
            e,
            RosMessage { cbor: cbor_value(&v), json: v, raw: vec![], stamp: (0, 0) },
        ));
    }
}

impl Backend for TestRos {
    fn handed(&self) -> Record {
        unread()
    }
    fn publisher(&mut self, n: &str, t: &str, q: Qos) -> Result<Entity, Error> {
        self.qos.push(q);
        self.create(n, t, "publisher")
    }
    fn subscription(&mut self, n: &str, t: &str, q: Qos) -> Result<Entity, Error> {
        self.qos.push(q);
        self.create(n, t, "subscription")
    }
    fn client(&mut self, n: &str, t: &str) -> Result<Entity, Error> {
        self.create(n, t, "client")
    }
    fn service(&mut self, n: &str, t: &str) -> Result<Entity, Error> {
        self.create(n, t, "service")
    }
    fn publish(&mut self, e: Entity, v: &Json) -> Result<(), Error> {
        self.writes.push((e, to_value(v)));
        Ok(())
    }
    fn request(&mut self, e: Entity, v: &Json) -> Result<i64, Error> {
        self.writes.push((e, to_value(v)));
        Ok(1)
    }
    fn validate_response(&self, _e: Entity, _v: &Json) -> Result<(), Error> {
        Ok(())
    }
    fn respond(&mut self, e: Entity, _r: u64, v: &Json) -> Result<(), Error> {
        self.writes.push((e, to_value(v)));
        Ok(())
    }
    fn discard_request(&mut self, e: Entity, r: u64) {
        self.discarded.push((e, r));
    }
    fn destroy(&mut self, e: Entity) {
        self.entities.remove(&e);
    }
    fn poll(&mut self) -> Result<Vec<Event>, Error> {
        Ok(std::mem::take(&mut self.events))
    }
    fn topics(&mut self) -> Result<Vec<(String, Vec<String>)>, Error> {
        let graph: BTreeMap<String, Vec<String>> = self
            .entities
            .values()
            .filter(|(_, _, k)| *k == "publisher" || *k == "subscription")
            .map(|(n, t, _)| (n.clone(), vec![t.clone()]))
            .collect();
        Ok(graph.into_iter().collect())
    }
    fn services(&mut self) -> Result<Vec<(String, Vec<String>)>, Error> {
        Ok(vec![("/add".into(), vec!["example_interfaces/srv/AddTwoInts".into()])])
    }
    fn publisher_qos(&mut self, _: &str) -> Result<Vec<Qos>, Error> {
        Ok(vec![])
    }
    fn now(&mut self) -> (i64, u32) {
        (10, 20)
    }
}

#[derive(Debug)]
enum Frame {
    Text(String),
    Binary(Vec<u8>),
}

fn cbor_item(v: &Cbor) -> ciborium::Value {
    match v {
        Cbor::Integer(i) => ciborium::Value::Integer((*i).try_into().unwrap()),
        Cbor::Bytes(b) => ciborium::Value::Bytes(b.clone()),
        Cbor::Float(f) => ciborium::Value::Float(f64::from_bits(f.bits)),
        Cbor::Text(s) => ciborium::Value::Text(s.clone()),
        Cbor::Bool(b) => ciborium::Value::Bool(*b),
        Cbor::Null => ciborium::Value::Null,
        Cbor::Tag(t, inner) => ciborium::Value::Tag(*t, Box::new(cbor_item(inner))),
        Cbor::Array(items) => ciborium::Value::Array(items.iter().map(cbor_item).collect()),
        Cbor::Pairs(pairs) => {
            ciborium::Value::Map(pairs.iter().map(|(k, v)| (cbor_item(k), cbor_item(v))).collect())
        }
    }
}

/// The frames that one message becomes, as the server writes them.
fn encode(value: &Json, options: &Options, binary: Option<Cbor>, key: &str) -> Vec<Frame> {
    match options.compression {
        Compression::Cbor | Compression::Raw => {
            let item = cbor_item(&binary.unwrap_or_else(|| cbor_value(value)));
            let mut bytes = Vec::new();
            ciborium::ser::into_writer(&item, &mut bytes).unwrap();
            vec![Frame::Binary(bytes)]
        }
        _ => {
            let text = serde_json::to_string(&to_value(value)).unwrap();
            encode_text(&text, options, key).unwrap().into_iter().map(Frame::Text).collect()
        }
    }
}

/// A client's output queue holding up to `capacity` batches.
struct Output {
    batches: Rc<RefCell<VecDeque<Vec<Frame>>>>,
    capacity: usize,
}

impl Writer for Output {
    fn try_send(&mut self, value: &Json, options: &Options, binary: Option<Cbor>, key: &str, _topic: Option<&str>) -> bool {
        let mut batches = self.batches.borrow_mut();
        if batches.len() >= self.capacity {
            return false;
        }
        batches.push_back(encode(value, options, binary, key));
        true
    }
    fn is_closed(&self) -> bool {
        false
    }
}

type Inbox = Rc<RefCell<VecDeque<Vec<Frame>>>>;

fn channel(capacity: usize) -> (Output, Inbox) {
    let batches: Inbox = Rc::new(RefCell::new(VecDeque::new()));
    (Output { batches: batches.clone(), capacity }, batches)
}

fn setup() -> (Bridge<TestRos, Output>, Inbox) {
    let mut b = Bridge::new(TestRos::default(), 1_000_000_000);
    let (tx, rx) = channel(64);
    b.connect(1, tx);
    (b, rx)
}

fn receive(rx: &Inbox) -> Value {
    let frames = rx.borrow_mut().pop_front().unwrap();
    let Frame::Text(text) = &frames[0] else { panic!("expected JSON") };
    serde_json::from_str(text).unwrap()
}

#[test]
fn event_wait_respects_service_deadlines() {
    let (mut bridge, _rx) = setup();
    assert_eq!(bridge.next_wakeup(0), 100_000_000);
    bridge.command(
        1,
        j(r#"{"op":"call_service","service":"/deadline_test","type":"example_interfaces/AddTwoInts","args":{},"timeout":0.01}"#),
        0,
    );
    assert!(bridge.next_wakeup(0) <= 10_000_000);
    bridge.disconnect(1);
    assert_eq!(bridge.next_wakeup(0), 100_000_000);
}

#[test]
fn advertisement_ids_and_disconnect_release_only_last_owner() {
    let (mut b, _rx) = setup();
    let (tx, _rx2) = channel(64);
    b.connect(2, tx);
    for (owner, id) in [(1, "a"), (1, "b"), (2, "c")] {
        let text = format!(r#"{{"op":"advertise","id":"{id}","topic":"/x","type":"std_msgs/String"}}"#);
        b.command(owner, j(&text), 0);
    }
    assert_eq!(b.backend.entities.len(), 1);
    b.command(1, j(r#"{"op":"unadvertise","id":"a","topic":"/x"}"#), 0);
    assert_eq!(b.backend.entities.len(), 1);
    b.disconnect(1);
    assert_eq!(b.backend.entities.len(), 1);
    b.disconnect(2);
    assert!(b.backend.entities.is_empty());
}

#[test]
fn subscriptions_are_coalesced_per_connection() {
    let (mut b, rx) = setup();
    for id in ["a", "b"] {
        let text = format!(r#"{{"op":"subscribe","id":"{id}","topic":"/x","type":"std_msgs/String"}}"#);
        b.command(1, j(&text), 0);
    }
    b.backend.message(r#"{"data":"one"}"#);
    b.tick(0).unwrap();
    assert_eq!(receive(&rx)["msg"]["data"], "one");
    assert!(rx.borrow().is_empty());
    b.command(1, j(r#"{"op":"unsubscribe","id":"a","topic":"/x"}"#), 0);
    assert_eq!(b.backend.entities.len(), 1);
    b.command(1, j(r#"{"op":"unsubscribe","id":"b","topic":"/x"}"#), 0);
    assert!(b.backend.entities.is_empty());
}

#[test]
fn first_publisher_qos_wins() {
    let (mut b, _rx) = setup();
    b.command(1, j(r#"{"op":"advertise","topic":"/x","type":"std_msgs/String","qos":{"depth":3}}"#), 0);
    b.command(1, j(r#"{"op":"advertise","topic":"/x","type":"std_msgs/String","qos":{"depth":20}}"#), 0);
    assert_eq!(b.backend.qos.len(), 1);
    assert_eq!(b.backend.qos[0].depth, 3);
}

#[test]
fn conflicting_type_is_rejected_without_changing_publisher() {
    let (mut b, rx) = setup();
    b.command(1, j(r#"{"op":"advertise","topic":"/x","type":"std_msgs/String"}"#), 0);
    b.command(1, j(r#"{"op":"advertise","id":"bad","topic":"/x","type":"std_msgs/Int32"}"#), 0);
    assert_eq!(receive(&rx)["id"], "bad");
    assert_eq!(b.backend.entities.len(), 1);
}

#[test]
fn response_ids_correlate_and_clients_are_destroyed() {
    let (mut b, rx) = setup();
    for id in ["first", "second"] {
        let text = format!(r#"{{"op":"call_service","id":"{id}","service":"/add","args":{{"a":1,"b":2}}}}"#);
        b.command(1, j(&text), 0);
    }
    let ids: Vec<_> = b.backend.writes.iter().map(|(e, _)| *e).collect();
    b.backend.events.push(Event::Response { entity: ids[1], sequence: 1, values: j(r#"{"sum":3}"#) });
    b.tick(0).unwrap();
    assert_eq!(receive(&rx)["id"], "second");
    b.backend.events.push(Event::Response { entity: ids[0], sequence: 1, values: j(r#"{"sum":3}"#) });
    b.tick(0).unwrap();
    assert_eq!(receive(&rx)["id"], "first");
    assert!(b.backend.entities.is_empty());
}

#[test]
fn service_timeout_returns_failure_and_cleans_up() {
    let (mut b, rx) = setup();
    b.command(1, j(r#"{"op":"call_service","id":"t","service":"/add","timeout":0}"#), 0);
    b.tick(0).unwrap();
    let v = receive(&rx);
    assert_eq!(v["result"], false);
    assert_eq!(v["id"], "t");
    assert!(b.backend.entities.is_empty());
}

#[test]
fn client_cannot_spoof_other_clients_service_response() {
    let (mut b, rx) = setup();
    let (tx, attacker) = channel(64);
    b.connect(2, tx);
    b.command(
        1,
        j(r#"{"op":"advertise_service","service":"/add","type":"example_interfaces/AddTwoInts"}"#),
        0,
    );
    let e = b.backend.entity("service");
    b.backend.events.push(Event::Request { entity: e, request: 9, args: j(r#"{"a":1,"b":2}"#) });
    b.tick(0).unwrap();
    let request = receive(&rx);
    let mut spoof = value(r#"{"op":"service_response","service":"/add","result":true,"values":{"sum":99}}"#);
    spoof["id"] = request["id"].clone();
    b.command(2, from_value(&spoof), 0);
    assert_eq!(receive(&attacker)["level"], "error");
    assert!(b.backend.writes.is_empty());
    let mut answer = value(r#"{"op":"service_response","service":"/add","result":true,"values":{"sum":3}}"#);
    answer["id"] = request["id"].clone();
    b.command(1, from_value(&answer), 0);
    assert_eq!(b.backend.writes[0].1["sum"], 3);
}

#[test]
fn stalled_client_is_disconnected_and_entities_removed() {
    let (mut b, _rx) = setup();
    let (tx, _stalled) = channel(1);
    b.connect(1, tx);
    b.command(1, j(r#"{"op":"subscribe","topic":"/x","type":"std_msgs/String"}"#), 0);
    b.backend.message(r#"{"data":"one"}"#);
    b.backend.message(r#"{"data":"two"}"#);
    b.tick(0).unwrap();
    assert!(b.backend.entities.is_empty());
}

#[test]
fn qos_defaults_and_durations() {
    assert_eq!(Qos::parse(&j("{}")).unwrap(), Qos::default());
    let q = Qos::parse(&j(
        r#"{"deadline":1.25,"lifespan":{"secs":2,"nsecs":1500000000},"reliability":"BEST_EFFORT"}"#,
    ))
    .unwrap();
    assert_eq!(q.deadline, (1, 250000000));
    assert_eq!(q.lifespan, (3, 500000000));
    assert_eq!(q.reliability, 2);
    for v in [r#"{"depth":-1}"#, r#"{"deadline":true}"#, r#"{"history":"random"}"#] {
        assert!(Qos::parse(&j(v)).is_err());
    }
}

#[test]
fn interface_names_are_normalized() {
    assert_eq!(interface_name("std_msgs/String", "msg").unwrap(), "std_msgs/msg/String");
    assert_eq!(
        interface_name("test_msgs/action/Fibonacci", "action").unwrap(),
        "test_msgs/action/Fibonacci"
    );
    assert!(interface_name("test_msgs/srv/Foo", "msg").is_err());
    assert!(interface_name("../Foo", "msg").is_err());
}

#[test]
fn legacy_rosapi_service_names_are_normalized() {
    for name in ["rosapi/TopicsAndRawTypes", "rosapi/srv/TopicsAndRawTypes", "rosapi_msgs/srv/TopicsAndRawTypes"] {
        assert_eq!(interface_name(name, "srv").unwrap(), "rosapi_msgs/srv/TopicsAndRawTypes");
    }
    assert_eq!(interface_name("rosapi/Foo", "msg").unwrap(), "rosapi/msg/Foo");
    assert_eq!(interface_name("custom/Foo", "srv").unwrap(), "custom/srv/Foo");
}

/// One received text frame through the decoder, as the server reads it.
fn decode_frame(d: &mut Decoder, text: &str, limit: usize) -> Result<Option<Value>, String> {
    match d.decode(j(text), limit, 0) {
        Ok(Decoded::Ready(v)) => Ok(Some(to_value(&v))),
        Ok(Decoded::Pending) => Ok(None),
        Ok(Decoded::Assembled(t)) => {
            let parsed = serde_json::from_str::<Value>(&t).map_err(|e| e.to_string())?;
            Decoder::finish(from_value(&parsed)).map(|v| Some(to_value(&v))).map_err(|e| e.text())
        }
        Err(e) => Err(e.text()),
    }
}

#[test]
fn unicode_fragments_roundtrip_out_of_order() {
    let message = value(r#"{"op":"publish","topic":"/x","msg":{"data":"中文🦀"}}"#);
    let options = Options { fragment: Some(8), ..Default::default() };
    let text = serde_json::to_string(&message).unwrap();
    let mut frames = encode_text(&text, &options, "f").unwrap();
    frames.reverse();
    let mut decoder = Decoder::default();
    let mut result = None;
    for f in frames {
        if let Some(v) = decode_frame(&mut decoder, &f, 1024).unwrap() {
            result = Some(v);
        }
    }
    assert_eq!(result, Some(message));
}

#[test]
fn fragmented_messages_enforce_aggregate_limit() {
    let mut d = Decoder::default();
    let payload = "x".repeat(180);
    let f = |n: u64| format!(r#"{{"op":"fragment","id":"f","num":{n},"total":2,"data":"{payload}"}}"#);
    assert!(decode_frame(&mut d, &f(0), 300).unwrap().is_none());
    assert!(decode_frame(&mut d, &f(1), 300).is_err());
}

#[test]
fn cbor_typed_array_decodes_to_json() {
    let tag = Cbor::Tag(78, Box::new(Cbor::Bytes([1i32.to_le_bytes(), (-2i32).to_le_bytes()].concat())));
    assert_eq!(to_value(&json_value(&tag).unwrap()), value("[1, -2]"));
}

#[test]
fn png_roundtrips_utf8() {
    let v = value(r#"{"op":"publish","msg":{"data":"中文"}}"#);
    let text = serde_json::to_string(&v).unwrap();
    let frames = encode_text(&text, &Options { compression: Compression::Png, ..Default::default() }, "p").unwrap();
    let envelope: Value = serde_json::from_str(&frames[0]).unwrap();
    let bytes = base64::engine::general_purpose::STANDARD.decode(envelope["data"].as_str().unwrap()).unwrap();
    let mut reader = png::Decoder::new(bytes.as_slice()).read_info().unwrap();
    let mut buffer = vec![0; reader.output_buffer_size()];
    let info = reader.next_frame(&mut buffer).unwrap();
    let decoded: Value = serde_json::from_slice(&buffer[..info.buffer_size()]).unwrap();
    assert_eq!(decoded, v);
}

#[test]
fn absent_action_server_times_out_and_releases_entities() {
    let mut bridge = Bridge::new(TestRos::default(), 0);
    let (tx, rx) = channel(64);
    bridge.connect(1, tx);
    bridge.command(
        1,
        j(r#"{"op":"send_action_goal", "id":"goal", "action":"/missing", "action_type":"example_interfaces/action/Fibonacci", "args":{"order":3}}"#),
        0,
    );
    assert_eq!(bridge.backend.entities.len(), 5);
    bridge.tick(0).unwrap();
    let result = receive(&rx);
    assert_eq!(result["op"], "action_result");
    assert_eq!(result["id"], "goal");
    assert_eq!(result["result"], false);
    assert!(bridge.backend.entities.is_empty());
}

#[test]
fn malformed_action_request_does_not_stop_other_clients() {
    let (mut bridge, _rx) = setup();
    bridge.command(1, j(r#"{"op":"advertise_action", "action":"/action", "type":"test_msgs/Fibonacci"}"#), 0);
    let entity = *bridge
        .backend
        .entities
        .iter()
        .find(|(_, (name, _, _))| name.ends_with("/send_goal"))
        .unwrap()
        .0;
    bridge.backend.events.push(Event::Request { entity, request: 1, args: j(r#"{"goal_id":{"uuid":[]}, "goal":{}}"#) });
    bridge.tick(0).unwrap();
    assert_eq!(bridge.backend.discarded, vec![(entity, 1)]);
    bridge.command(1, j(r#"{"op":"advertise", "topic":"/still_alive", "type":"std_msgs/String"}"#), 0);
    assert!(bridge.backend.entities.values().any(|(name, _, _)| name == "/still_alive"));
}

#[test]
fn transient_local_sample_reaches_late_websocket_client() {
    let (mut bridge, first) = setup();
    bridge.command(
        1,
        j(r#"{"op":"subscribe", "topic":"/retained", "type":"std_msgs/String", "qos":{"durability":"transient_local"}}"#),
        0,
    );
    bridge.backend.message(r#"{"data":"retained"}"#);
    bridge.tick(0).unwrap();
    assert_eq!(receive(&first)["msg"]["data"], "retained");
    let (sender, second) = channel(64);
    bridge.connect(2, sender);
    bridge.command(2, j(r#"{"op":"subscribe", "topic":"/retained", "type":"std_msgs/String"}"#), 0);
    assert_eq!(receive(&second)["msg"]["data"], "retained");
}

#[test]
fn service_request_ids_match_python_and_reset_on_readvertise() {
    let (mut bridge, output) = setup();
    for _ in 0..2 {
        bridge.command(
            1,
            j(r#"{"op":"advertise_service","service":"/add","type":"example_interfaces/AddTwoInts"}"#),
            0,
        );
        let entity = bridge.backend.entity("service");
        for request in 1..=2 {
            bridge.backend.events.push(Event::Request { entity, request, args: j(r#"{"a":1,"b":2}"#) });
            bridge.tick(0).unwrap();
            assert_eq!(receive(&output)["id"], format!("service_request:/add:{request}"));
        }
        bridge.command(1, j(r#"{"op":"unadvertise_service","service":"/add"}"#), 0);
    }
}

#[test]
fn shared_subscription_uses_python_compression_precedence() {
    let (mut bridge, output) = setup();
    for (id, compression) in [("plain", "none"), ("binary", "cbor")] {
        let text = format!(
            r#"{{"op":"subscribe","id":"{id}","topic":"/x","type":"std_msgs/String","compression":"{compression}","fragment_size":1}}"#
        );
        bridge.command(1, j(&text), 0);
    }
    bridge.backend.message(r#"{"data":"hello"}"#);
    bridge.tick(0).unwrap();
    let frames = output.borrow_mut().pop_front().unwrap();
    assert_eq!(frames.len(), 1);
    assert!(matches!(frames[0], Frame::Binary(_)));
    bridge.command(1, j(r#"{"op":"unsubscribe","id":"binary","topic":"/x"}"#), 0);
    bridge.backend.message(r#"{"data":"hello"}"#);
    bridge.tick(0).unwrap();
    let frames = output.borrow_mut().pop_front().unwrap();
    assert!(frames.len() > 1);
    assert!(matches!(frames[0], Frame::Text(_)));
}

fn restricted(settings: &[&str]) -> (Bridge<TestRos, Output>, Inbox) {
    let (mut bridge, rx) = setup();
    let args: Vec<String> = settings.iter().flat_map(|v| ["-p".to_owned(), (*v).to_owned()]).collect();
    bridge.access = Access::from_ros_args(&args).unwrap();
    (bridge, rx)
}

#[test]
fn forwarding_allowlists_reject_before_creating_entities() {
    let (mut bridge, rx) = restricted(&[
        "topics_glob:=[]",
        "topics_pub_glob:=[/write/*]",
        "topics_sub_glob:=[/read/*]",
        "services_glob:=[]",
    ]);
    for request in [
        r#"{"op":"advertise","topic":"/read/imu","type":"std_msgs/String"}"#,
        r#"{"op":"publish","topic":"read/imu","type":"std_msgs/String","msg":{"data":"x"}}"#,
        r#"{"op":"subscribe","topic":"/write/cmd","type":"std_msgs/String"}"#,
        r#"{"op":"call_service","service":"/hidden","type":"std_srvs/Trigger"}"#,
        r#"{"op":"advertise_service","service":"/hidden","type":"std_srvs/Trigger"}"#,
        r#"{"op":"send_action_goal","action":"/move","type":"example_interfaces/Fibonacci"}"#,
        r#"{"op":"advertise_action","action":"/move","type":"example_interfaces/Fibonacci"}"#,
    ] {
        bridge.command(1, j(request), 0);
        let response = receive(&rx);
        assert!(response.to_string().contains("denies"), "{response}");
        assert!(bridge.backend.entities.is_empty());
        assert!(bridge.backend.writes.is_empty());
    }
    bridge.command(1, j(r#"{"op":"subscribe","topic":"/read/imu","type":"std_msgs/String"}"#), 0);
    bridge.command(1, j(r#"{"op":"publish","topic":"/write/cmd","type":"std_msgs/String","msg":{"data":"ok"}}"#), 0);
    assert_eq!(bridge.backend.entities.len(), 2);
    assert_eq!(bridge.backend.writes.len(), 1);
    bridge.disconnect(1);
    assert!(bridge.backend.entities.is_empty());
}

#[test]
fn legacy_topics_union_and_explicit_ros_override() {
    let (mut bridge, rx) = restricted(&[
        "topics_glob:=['/shared/*']",
        "topics_pub_glob:=[]",
        "topics_sub_glob:=['/old/*']",
        "topics_sub_glob:=['/read/*']",
    ]);
    for topic in ["/shared/data", "/read/data"] {
        let text = format!(r#"{{"op":"subscribe","topic":"{topic}","type":"std_msgs/String"}}"#);
        bridge.command(1, j(&text), 0);
    }
    bridge.command(1, j(r#"{"op":"advertise","topic":"/shared/data","type":"std_msgs/String"}"#), 0);
    assert_eq!(bridge.backend.entities.len(), 3);
    bridge.command(1, j(r#"{"op":"subscribe","topic":"/old/data","type":"std_msgs/String"}"#), 0);
    assert!(receive(&rx).to_string().contains("denies"));
    assert_eq!(bridge.backend.entities.len(), 3);
}

#[test]
fn action_topics_cannot_bypass_topic_allowlists() {
    let (mut bridge, rx) = restricted(&["topics_glob:=[]"]);
    for op in ["send_action_goal", "advertise_action"] {
        let text = format!(r#"{{"op":"{op}","action":"/move","type":"example_interfaces/Fibonacci"}}"#);
        bridge.command(1, j(&text), 0);
        assert!(receive(&rx).to_string().contains("denies"));
        assert!(bridge.backend.entities.is_empty());
    }
}

#[test]
fn parameter_allowlist_blocks_raw_services_and_filters_names() {
    let (mut bridge, rx) = restricted(&["params_glob:=['public_*']"]);
    for (service, typ, args) in [
        ("/rosapi/get_param", "rosapi_msgs/GetParam", r#"{"name":"/node:secret"}"#),
        ("/node/get_parameters", "rcl_interfaces/GetParameters", r#"{"names":["secret"]}"#),
        ("/alias", "rcl_interfaces/SetParameters", r#"{"parameters":[]}"#),
    ] {
        let text = format!(r#"{{"op":"call_service","service":"{service}","type":"{typ}","args":{args}}}"#);
        bridge.command(1, j(&text), 0);
        assert_eq!(receive(&rx)["result"], false);
        assert!(bridge.backend.entities.is_empty());
    }
    bridge.command(
        1,
        j(r#"{"op":"call_service","service":"/rosapi/get_param_names","type":"rosapi_msgs/GetParamNames","args":{}}"#),
        0,
    );
    let entity = bridge.backend.entity("client");
    bridge.backend.events.push(Event::Response {
        entity,
        sequence: 1,
        values: j(r#"{"names":["/node:secret","/node:public_rate"]}"#),
    });
    bridge.tick(0).unwrap();
    assert_eq!(receive(&rx)["values"]["names"], value(r#"["/node:public_rate"]"#));
    bridge.command(
        1,
        j(r#"{"op":"call_service","service":"/rosapi/get_param","type":"rosapi_msgs/GetParam","args":{"name":"/node:public_rate"}}"#),
        0,
    );
    assert_eq!(bridge.backend.entities.len(), 1);
}

#[test]
fn malformed_requests_are_answered_with_their_reason() {
    let (mut b, rx) = setup();
    b.command(1, j(r#"{"op":"launch","id":"x"}"#), 0);
    let v = receive(&rx);
    assert_eq!(v["op"], "status");
    assert_eq!(v["level"], "error");
    assert_eq!(v["msg"], "unknown operation: launch");
    assert_eq!(v["id"], "x");
    b.command(1, j(r#"{"topic":"/x"}"#), 0);
    assert_eq!(receive(&rx)["msg"], "op must be a nonempty string");
    b.command(1, j(r#"{"op":"advertise","id":7,"topic":"/x","type":"std_msgs/String"}"#), 0);
    let v = receive(&rx);
    assert_eq!(v["msg"], "id must be a string");
    assert!(v.get("id").is_none());
    assert!(b.backend.entities.is_empty());
}

#[test]
fn payload_preview_is_bounded_and_preserves_utf8() {
    let mut preview = PayloadPreview::default();
    // The text of {"text": "界" x 5000, "tail": "omitted"}, members in the order written.
    let value = format!("{{\"text\":\"{}\",\"tail\":\"omitted\"}}", "界".repeat(5000));
    assert!(preview.write_str(&value).is_err());
    assert!(preview.truncated());
    assert!(preview.text().len() <= 4096);
    assert!(!preview.text().contains("omitted"));
    let mut short = PayloadPreview::default();
    let mut members = serde_json::Map::new();
    members.insert("text".to_string(), Value::String("line\n界".to_string()));
    let value = Value::Object(members);
    short.write_str(&value.to_string()).unwrap();
    assert!(!short.truncated());
    assert_eq!(serde_json::from_str::<Value>(short.text()).unwrap(), value);
    assert!(!short.text().contains('\n'));
}

#[test]
fn payload_preview_stops_before_a_character_that_does_not_fit() {
    let mut preview = PayloadPreview::default();
    assert!(preview.write_str(&"a".repeat(4094)).is_ok());
    assert!(!preview.truncated());
    assert!(preview.write_str("b界c").is_err());
    assert_eq!(preview.text().len(), 4095);
    assert!(preview.text().ends_with('b'));
    assert!(preview.truncated());
    assert!(preview.write_str("").is_ok());
    assert!(preview.truncated());
}

fn entity_named(b: &Bridge<TestRos, Output>, suffix: &str) -> Entity {
    *b.backend.entities.iter().find(|(_, (name, _, _))| name.ends_with(suffix)).unwrap().0
}

#[test]
fn action_goals_are_answered_once_and_cancelled_together() {
    let (mut b, rx) = setup();
    b.command(1, j(r#"{"op":"advertise_action","action":"/a","type":"example_interfaces/Fibonacci"}"#), 0);
    let send = entity_named(&b, "/send_goal");
    let cancel = entity_named(&b, "/cancel_goal");
    let goal = r#"{"goal_id":{"uuid":[1,1,1,1,1,1,1,1,1,1,1,1,1,1,1,1]},"goal":{"order":3}}"#;
    b.backend.events.push(Event::Request { entity: send, request: 1, args: j(goal) });
    b.tick(0).unwrap();
    assert!(b.backend.writes.contains(&(send, value(r#"{"accepted":true,"stamp":{"sec":10,"nanosec":20}}"#))));
    let handed = receive(&rx);
    assert_eq!(handed["op"], "send_action_goal");
    assert_eq!(handed["action"], "/a");
    assert_eq!(handed["id"], "rosbridge:1");
    assert_eq!(handed["args"], value(r#"{"order":3}"#));
    // The same UUID again is refused and keeps one goal.
    b.backend.events.push(Event::Request { entity: send, request: 2, args: j(goal) });
    b.tick(0).unwrap();
    assert!(b.backend.writes.contains(&(send, value(r#"{"accepted":false,"stamp":{"sec":10,"nanosec":20}}"#))));
    assert_eq!(b.server_goals.len(), 1);
    assert!(rx.borrow().is_empty());
    // The zero UUID with a zero stamp cancels every goal.
    let all = r#"{"goal_info":{"goal_id":{"uuid":[0,0,0,0,0,0,0,0,0,0,0,0,0,0,0,0]},"stamp":{"sec":0,"nanosec":0}}}"#;
    b.backend.events.push(Event::Request { entity: cancel, request: 3, args: j(all) });
    b.tick(0).unwrap();
    assert!(b.backend.writes.contains(&(
        cancel,
        value(r#"{"return_code":0,"goals_canceling":[{"goal_id":{"uuid":[1,1,1,1,1,1,1,1,1,1,1,1,1,1,1,1]},"stamp":{"sec":10,"nanosec":20}}]}"#),
    )));
    let notice = receive(&rx);
    assert_eq!(notice, value(r#"{"op":"cancel_action_goal","action":"/a","id":"rosbridge:1"}"#));
    assert_eq!(b.server_goals[0].status, 3);
}

#[test]
fn goal_with_short_uuid_is_refused_without_reply() {
    let (mut b, rx) = setup();
    b.command(1, j(r#"{"op":"advertise_action","action":"/a","type":"example_interfaces/Fibonacci"}"#), 0);
    let send = entity_named(&b, "/send_goal");
    b.backend.events.push(Event::Request { entity: send, request: 1, args: j(r#"{"goal_id":{"uuid":[]},"goal":{}}"#) });
    b.tick(0).unwrap();
    assert!(b.backend.writes.is_empty());
    assert_eq!(b.backend.discarded, vec![(send, 1)]);
    assert!(b.server_goals.is_empty());
    assert!(rx.borrow().is_empty());
}

#[test]
fn cancel_for_unknown_goal_reports_unknown() {
    let (mut b, _rx) = setup();
    b.command(1, j(r#"{"op":"advertise_action","action":"/a","type":"example_interfaces/Fibonacci"}"#), 0);
    let cancel = entity_named(&b, "/cancel_goal");
    let one = r#"{"goal_info":{"goal_id":{"uuid":[2,2,2,2,2,2,2,2,2,2,2,2,2,2,2,2]},"stamp":{"sec":0,"nanosec":0}}}"#;
    b.backend.events.push(Event::Request { entity: cancel, request: 4, args: j(one) });
    b.tick(0).unwrap();
    assert!(b.backend.writes.contains(&(cancel, value(r#"{"return_code":2,"goals_canceling":[]}"#))));
}

#[test]
fn qos_durations_keep_nanoseconds_below_a_second() {
    let mut members = Vec::new();
    members.push((
        "deadline".to_string(),
        Json::Float(Float { bits: 0, single: false, seconds: Some((1, 1_000_000_000)) }),
    ));
    assert_eq!(Qos::parse(&Json::Object(members)).err().map(|e| e.text()), Some("invalid duration".to_string()));
    let q = Qos::parse(&j(r#"{"deadline":"infinite","lifespan":{"secs":1,"nsecs":2999999999}}"#)).unwrap();
    assert_eq!(q.deadline, (9223372036, 854775807));
    assert_eq!(q.lifespan, (3, 999999999));
}

#[test]
fn call_waits_for_its_own_timeout() {
    let (mut b, rx) = setup();
    b.command(1, j(r#"{"op":"call_service","id":"t","service":"/add","timeout":2}"#), 5);
    assert_eq!(b.calls.len(), 1);
    assert_eq!(b.calls[0].expires, 2_000_000_005);
    b.expire_calls(2_000_000_004);
    assert_eq!(b.calls.len(), 1);
    b.expire_calls(2_000_000_005);
    assert!(b.calls.is_empty());
    let v = receive(&rx);
    assert_eq!(v["values"], "Timeout exceeded while waiting for service response");
    assert_eq!(v["result"], false);
    assert_eq!(v["id"], "t");
}

#[test]
fn normalized_interface_names_are_fixed_points() {
    for (name, category) in [
        ("std_msgs/String", "msg"),
        ("std_msgs/msg/String", "msg"),
        ("rosapi/Topics", "srv"),
        ("example_interfaces/action/Fibonacci", "action"),
    ] {
        let once = interface_name(name, category).unwrap();
        assert_eq!(interface_name(&once, category).unwrap(), once);
    }
    assert_eq!(interface_name("rosapi/Topics", "srv").unwrap(), "rosapi_msgs/srv/Topics");
}

#[test]
fn cbor_form_reads_back_as_the_same_json() {
    for text in [
        r#"{"a":[1,-2,3.5,"x",null,true],"b":{"c":{}},"d":[]}"#,
        r#"[18446744073709551615,-9223372036854775808,0.25]"#,
        r#""text""#,
    ] {
        let v = j(text);
        let back = json_value(&cbor_value(&v)).unwrap();
        assert_eq!(to_value(&back), value(text));
    }
}

#[test]
fn cbor_bytes_read_as_standard_base64() {
    assert_eq!(to_value(&json_value(&Cbor::Bytes(vec![0xfb, 0xff])).unwrap()), value(r#""+/8=""#));
    assert_eq!(to_value(&json_value(&Cbor::Bytes(b"Man".to_vec())).unwrap()), value(r#""TWFu""#));
    assert_eq!(to_value(&json_value(&Cbor::Bytes(b"Ma".to_vec())).unwrap()), value(r#""TWE=""#));
}

#[test]
fn publish_reaches_the_topic_publisher() {
    let (mut b, rx) = setup();
    b.command(1, j(r#"{"op":"publish","topic":"/chatter","type":"std_msgs/String","msg":{"data":"hi"}}"#), 0);
    let entity = entity_named(&b, "/chatter");
    assert!(b.backend.writes.contains(&(entity, value(r#"{"data":"hi"}"#))));
    b.command(1, j(r#"{"op":"publish","topic":"/chatter","msg":5}"#), 0);
    let refusal = receive(&rx);
    assert_eq!(refusal["op"], "status");
    assert_eq!(refusal["msg"], "msg must be an object");
}

#[test]
fn result_requests_wait_for_the_goal_and_unknown_goals_get_status_zero() {
    let (mut b, rx) = setup();
    b.command(1, j(r#"{"op":"advertise_action","action":"/a","type":"example_interfaces/Fibonacci"}"#), 0);
    let send = entity_named(&b, "/send_goal");
    let result = entity_named(&b, "/get_result");
    let goal = r#"{"goal_id":{"uuid":[1,1,1,1,1,1,1,1,1,1,1,1,1,1,1,1]},"goal":{"order":3}}"#;
    b.backend.events.push(Event::Request { entity: send, request: 1, args: j(goal) });
    b.tick(0).unwrap();
    assert_eq!(receive(&rx)["id"], "rosbridge:1");
    let asked = r#"{"goal_id":{"uuid":[1,1,1,1,1,1,1,1,1,1,1,1,1,1,1,1]}}"#;
    b.backend.events.push(Event::Request { entity: result, request: 5, args: j(asked) });
    b.tick(0).unwrap();
    assert!(!b.backend.writes.iter().any(|(e, _)| *e == result));
    b.command(
        1,
        j(r#"{"op":"action_result","action":"/a","id":"rosbridge:1","values":{"sequence":[0,1,1]},"status":4,"result":true}"#),
        0,
    );
    let done = value(r#"{"status":4,"result":{"sequence":[0,1,1]}}"#);
    assert_eq!(b.backend.writes.iter().filter(|w| **w == (result, done.clone())).count(), 1);
    b.backend.events.push(Event::Request { entity: result, request: 6, args: j(asked) });
    b.tick(0).unwrap();
    assert_eq!(b.backend.writes.iter().filter(|w| **w == (result, done.clone())).count(), 2);
    let unknown = r#"{"goal_id":{"uuid":[3,3,3,3,3,3,3,3,3,3,3,3,3,3,3,3]}}"#;
    b.backend.events.push(Event::Request { entity: result, request: 7, args: j(unknown) });
    b.tick(0).unwrap();
    assert!(b.backend.writes.contains(&(result, value(r#"{"status":0,"result":{}}"#))));
}

#[test]
fn accepted_goal_publishes_its_status_and_a_duplicate_publishes_nothing() {
    let (mut b, rx) = setup();
    b.command(1, j(r#"{"op":"advertise_action","action":"/a","type":"example_interfaces/Fibonacci"}"#), 0);
    let send = entity_named(&b, "/send_goal");
    let status = entity_named(&b, "/_action/status");
    let goal = r#"{"goal_id":{"uuid":[1,1,1,1,1,1,1,1,1,1,1,1,1,1,1,1]},"goal":{}}"#;
    b.backend.events.push(Event::Request { entity: send, request: 1, args: j(goal) });
    b.tick(0).unwrap();
    let published: Vec<Value> = b.backend.writes.iter().filter(|(e, _)| *e == status).map(|(_, v)| v.clone()).collect();
    assert_eq!(published.len(), 1);
    assert_eq!(published[0]["status_list"][0]["status"], 2);
    assert_eq!(published[0]["status_list"][0]["goal_info"]["stamp"], value(r#"{"sec":10,"nanosec":20}"#));
    assert_eq!(b.server_goals[0].id, "rosbridge:1");
    receive(&rx);
    b.backend.events.push(Event::Request { entity: send, request: 2, args: j(goal) });
    b.tick(0).unwrap();
    assert_eq!(b.backend.writes.iter().filter(|(e, _)| *e == status).count(), 1);
    assert!(rx.borrow().is_empty());
}

#[test]
fn send_goal_asks_for_the_action_entities_and_hands_over_the_goal() {
    let (mut b, _rx) = setup();
    b.command(
        1,
        j(r#"{"op":"send_action_goal","id":"g","action":"/fib","action_type":"example_interfaces/Fibonacci","args":{"order":3},"feedback":true}"#),
        0,
    );
    let mut made: Vec<(String, String, &'static str)> = b.backend.entities.values().cloned().collect();
    made.sort();
    let expected = vec![
        ("/fib/_action/cancel_goal".to_string(), "action_msgs/srv/CancelGoal".to_string(), "client"),
        ("/fib/_action/feedback".to_string(), "example_interfaces/action/Fibonacci_FeedbackMessage".to_string(), "subscription"),
        ("/fib/_action/get_result".to_string(), "example_interfaces/action/Fibonacci_GetResult".to_string(), "client"),
        ("/fib/_action/send_goal".to_string(), "example_interfaces/action/Fibonacci_SendGoal".to_string(), "client"),
        ("/fib/_action/status".to_string(), "action_msgs/msg/GoalStatusArray".to_string(), "subscription"),
    ];
    assert_eq!(made, expected);
    let send = entity_named(&b, "/send_goal");
    let handed: Vec<&Value> = b.backend.writes.iter().filter(|(e, _)| *e == send).map(|(_, v)| v).collect();
    assert_eq!(handed.len(), 1);
    assert_eq!(handed[0]["goal"], value(r#"{"order":3}"#));
    assert_eq!(handed[0]["goal_id"]["uuid"].as_array().unwrap().len(), 16);
    assert!(b.goals[0].feedback);
}

#[test]
fn publish_by_the_advertiser_reaches_its_publisher() {
    let (mut b, rx) = setup();
    b.command(1, j(r#"{"op":"advertise","topic":"/out","type":"std_msgs/String"}"#), 0);
    let entity = entity_named(&b, "/out");
    b.command(1, j(r#"{"op":"publish","topic":"/out","msg":{"data":"x"}}"#), 0);
    assert_eq!(b.backend.writes, vec![(entity, value(r#"{"data":"x"}"#))]);
    assert!(rx.borrow().is_empty());
}
