use rosbridge_server_rs::incoming::{QueueFull, Refused};
use rosbridge_server_rs::session::{decode_status_value, CloseCode, Ending, Heartbeat, Timing};

#[test]
fn timing_defaults() {
    let t = Timing::default();
    assert_eq!(t.write_timeout_ms, 10_000);
    assert_eq!(t.ping_interval_ms, 30_000);
    assert_eq!(t.ping_timeout_ms, 30_000);
    assert!(t.probes());
    assert!(!Timing { ping_interval_ms: 0, ..t }.probes());
}

#[test]
fn pings_carry_their_sequence_number_big_endian() {
    let mut h = Heartbeat::new();
    assert!(h.acknowledged());
    assert_eq!(h.ping(), 1u64.to_be_bytes().to_vec());
    assert!(!h.acknowledged());
    assert_eq!(h.ping(), 2u64.to_be_bytes().to_vec());
}

#[test]
fn only_the_matching_pong_acknowledges() {
    let mut h = Heartbeat::new();
    let first = h.ping();
    let second = h.ping();
    assert!(!h.pong(&first));
    assert!(!h.pong(b"99"));
    assert!(!h.acknowledged());
    assert!(h.pong(&second));
    assert!(h.acknowledged());
    assert!(!h.pong(&second));
}

#[test]
fn close_frames_for_each_ending() {
    assert_eq!(Ending::PeerClose.close(None), (None, "peer close".to_string()));
    assert_eq!(Ending::Eof.close(None), (None, "peer stream ended".to_string()));
    assert_eq!(
        Ending::HeartbeatTimeout.close(None),
        (Some(CloseCode::Away), "WebSocket pong timed out".to_string())
    );
    assert_eq!(
        Ending::OutputClosed.close(Some("outbound encoding failed")),
        (Some(CloseCode::Error), "outbound encoding failed".to_string())
    );
    assert_eq!(
        Ending::OutputClosed.close(Some("control send queue full")),
        (Some(CloseCode::Again), "control send queue full".to_string())
    );
    assert_eq!(Ending::OutputClosed.close(None), (Some(CloseCode::Away), "bridge disconnected".to_string()));
    assert_eq!(
        Ending::QueueFull.close(None),
        (Some(CloseCode::Again), "client incoming queue full".to_string())
    );
    assert_eq!(
        Ending::WriteTimedOut.close(None),
        (Some(CloseCode::Error), "WebSocket write timed out".to_string())
    );
    assert_eq!(Ending::Failed.close(None), (Some(CloseCode::Error), "WebSocket session failed".to_string()));
    assert!(!Ending::Eof.handshake());
    assert!(Ending::PeerClose.handshake());
}

#[test]
fn undecodable_frames_get_an_error_status() {
    let v = decode_status_value("message too large");
    assert_eq!(v.str_at("op"), Some("status"));
    assert_eq!(v.str_at("level"), Some("error"));
    assert_eq!(v.str_at("msg"), Some("message too large"));
}

#[test]
fn refused_messages_end_the_session_by_cause() {
    assert_eq!(Ending::refusal(&Refused::Full(QueueFull)), Ending::QueueFull);
    assert_eq!(Ending::refusal(&Refused::Closed), Ending::Failed);
    assert_eq!(Ending::refusal(&Refused::Closing), Ending::Failed);
}
