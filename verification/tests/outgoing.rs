use rosbridge_server_rs::outgoing::{Empty, Outgoing, SendError, CONTROL_CAPACITY, DEFAULT_BYTE_LIMIT};

type Queue = Outgoing<Vec<String>>;

fn frames(s: &str) -> Vec<String> {
    vec![s.to_string()]
}

fn send(q: &mut Queue, topic: Option<&str>, topic_limit: usize, payload: Vec<String>) -> Result<(), SendError> {
    let bytes = payload.iter().map(|f| f.len()).sum();
    q.enqueue(1, topic, topic_limit, payload, bytes)
}

fn recv(q: &mut Queue) -> Result<Vec<String>, Empty> {
    q.take().map(|b| b.payload)
}

#[test]
fn topic_overflow_preserves_connection_and_control_reserve() {
    let mut q: Queue = Outgoing::new(1, DEFAULT_BYTE_LIMIT);
    send(&mut q, Some("/x"), 0, frames("old")).unwrap();
    send(&mut q, Some("/x"), 0, frames("new")).unwrap();
    send(&mut q, None, 0, frames("result")).unwrap();
    assert_eq!(recv(&mut q).unwrap(), frames("result"));
    assert_eq!(recv(&mut q).unwrap(), frames("old"));
    assert!(!q.is_closed());
    send(&mut q, Some("/x"), 0, frames("recovered")).unwrap();
    assert_eq!(recv(&mut q).unwrap(), frames("recovered"));
}

#[test]
fn latest_topic_policy_evicts_whole_batches_without_touching_other_topics() {
    let mut q: Queue = Outgoing::new(2, DEFAULT_BYTE_LIMIT);
    send(&mut q, Some("/y"), 1, frames("y")).unwrap();
    send(&mut q, Some("/x"), 1, vec!["part1".to_string(), "part2".to_string()]).unwrap();
    send(&mut q, Some("/x"), 1, frames("latest")).unwrap();
    assert_eq!(recv(&mut q).unwrap(), frames("y"));
    assert_eq!(recv(&mut q).unwrap(), frames("latest"));
    assert!(recv(&mut q).is_err());
}

#[test]
fn byte_limits_and_closed_receiver() {
    let mut q: Queue = Outgoing::new(10, 4);
    send(&mut q, Some("/x"), 0, frames("1234")).unwrap();
    send(&mut q, Some("/x"), 1, frames("12345")).unwrap();
    assert_eq!(recv(&mut q).unwrap(), frames("1234"));
    send(&mut q, Some("/x"), 0, frames("1234")).unwrap();
    send(&mut q, Some("/x"), 1, frames("new")).unwrap();
    assert_eq!(recv(&mut q).unwrap(), frames("new"));
    q.close_receiver();
    assert_eq!(send(&mut q, Some("/x"), 0, frames("x")), Err(SendError::Closed));
}

#[test]
fn control_overflow_closes_immediately_with_reason() {
    let mut q: Queue = Outgoing::new(1, DEFAULT_BYTE_LIMIT);
    for _ in 0..CONTROL_CAPACITY {
        send(&mut q, None, 0, frames("result")).unwrap();
    }
    assert_eq!(send(&mut q, None, 0, frames("result")), Err(SendError::ControlFull));
    assert_eq!(recv(&mut q).err(), Some(Empty::Disconnected));
    assert_eq!(q.close_reason(), Some("control send queue full"));
}

#[test]
fn sender_close_releases_queued_data_and_ends_the_stream() {
    let mut q: Queue = Outgoing::new(4, DEFAULT_BYTE_LIMIT);
    assert_eq!(recv(&mut q).err(), Some(Empty::Waiting));
    send(&mut q, Some("/x"), 0, frames("dropped")).unwrap();
    q.close_sender();
    assert_eq!(recv(&mut q).err(), Some(Empty::Disconnected));
    assert_eq!(send(&mut q, None, 0, frames("late")), Err(SendError::Closed));
}

#[test]
fn encoding_results_are_judged() {
    let mut q: Queue = Outgoing::new(4, 10);
    assert!(q.finish(true, Some(10)));
    assert!(!q.finish(true, Some(11)));
    assert!(!q.is_closed());
    assert!(!q.finish(true, None));
    assert!(!q.is_closed());
    assert!(!q.finish(false, Some(11)));
    assert_eq!(q.close_reason(), Some("encoded batch exceeds byte limit"));
    let mut r: Queue = Outgoing::new(4, 10);
    assert!(!r.finish(false, None));
    assert_eq!(r.close_reason(), Some("outbound encoding failed"));
}
