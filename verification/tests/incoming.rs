use rosbridge_server_rs::incoming::{Command, Incoming, QueueFull, Refused, COMMAND_BATCH};
use std::rc::Rc;

type Queues = Incoming<String, Rc<()>>;

fn connect(q: &mut Queues, id: u64) {
    q.connect(id, Rc::new(())).unwrap();
    assert!(matches!(q.try_recv(), Some(Command::Connect(found, _)) if found == id));
}

#[test]
fn noisy_client_cannot_starve_other_clients_and_fifo_is_preserved() {
    let mut q: Queues = Incoming::new(128);
    connect(&mut q, 1);
    connect(&mut q, 2);
    for n in 0..128 {
        q.message(1, n.to_string()).unwrap();
    }
    q.message(2, "urgent".to_string()).unwrap();
    assert!(matches!(q.try_recv(), Some(Command::Message(1, v)) if v == "0"));
    assert!(matches!(q.try_recv(), Some(Command::Message(2, v)) if v == "urgent"));
    for n in 1..128 {
        assert!(matches!(q.try_recv(), Some(Command::Message(1, v)) if v == n.to_string()));
    }
    assert!(!q.has_pending());
    q.message(2, "again".to_string()).unwrap();
    assert!(matches!(q.try_recv(), Some(Command::Message(2, _))));
}

#[test]
fn capacity_is_per_client_and_disconnect_cannot_be_blocked() {
    let mut q: Queues = Incoming::new(1);
    connect(&mut q, 1);
    connect(&mut q, 2);
    q.message(1, "1".to_string()).unwrap();
    assert!(q.message(1, "2".to_string()).is_err());
    q.message(2, "3".to_string()).unwrap();
    q.disconnect(1);
    assert!(matches!(q.try_recv(), Some(Command::Disconnect(1))));
    assert!(matches!(q.try_recv(), Some(Command::Message(2, v)) if v == "3"));
    assert!(q.message(1, "4".to_string()).is_err());
}

#[test]
fn connect_precedes_messages_and_shutdown_discards_backlog() {
    let mut q: Queues = Incoming::new(1);
    q.connect(1, Rc::new(())).unwrap();
    q.message(1, "1".to_string()).unwrap();
    assert!(matches!(q.try_recv(), Some(Command::Connect(1, _))));
    q.shutdown();
    assert!(matches!(q.try_recv(), Some(Command::Shutdown)));
    assert!(q.message(1, "2".to_string()).is_err());
}

#[test]
fn early_disconnect_and_worker_exit_release_pending_outputs() {
    let mut q: Queues = Incoming::new(1);
    let out = Rc::new(());
    q.connect(1, out.clone()).unwrap();
    q.disconnect(1);
    assert!(matches!(q.try_recv(), Some(Command::Disconnect(1))));
    assert_eq!(Rc::strong_count(&out), 1);
    q.shutdown();
    assert!(q.connect(2, Rc::new(())).is_err());
}

#[test]
fn refusals_name_their_reason() {
    let mut q: Queues = Incoming::new(1);
    assert_eq!(q.message(7, "x".to_string()), Err(Refused::Unregistered));
    q.connect(7, Rc::new(())).unwrap();
    assert_eq!(q.connect(7, Rc::new(())), Err(Refused::Duplicate));
    q.message(7, "x".to_string()).unwrap();
    assert_eq!(q.message(7, "y".to_string()), Err(Refused::Full(QueueFull)));
    q.disconnect(7);
    assert_eq!(q.message(7, "z".to_string()), Err(Refused::Closing));
    q.shutdown();
    assert_eq!(q.message(7, "z".to_string()), Err(Refused::Closed));
    assert_eq!(Refused::Full(QueueFull).text(), "client incoming queue full");
    assert_eq!(Refused::Closed.text(), "ROS command receiver closed");
    assert_eq!(QueueFull.text(), "client incoming queue full");
}

#[test]
fn served_connection_goes_to_the_back_of_the_line() {
    let mut q: Queues = Incoming::new(4);
    connect(&mut q, 1);
    connect(&mut q, 2);
    connect(&mut q, 3);
    for id in [1, 2, 3] {
        q.message(id, format!("{id}a")).unwrap();
        q.message(id, format!("{id}b")).unwrap();
    }
    let mut order = Vec::new();
    while let Some(Command::Message(id, v)) = q.try_recv() {
        order.push((id, v));
    }
    let expected: Vec<(u64, String)> = [(1, "1a"), (2, "2a"), (3, "3a"), (1, "1b"), (2, "2b"), (3, "3b")]
        .iter()
        .map(|(i, v)| (*i, v.to_string()))
        .collect();
    assert_eq!(order, expected);
}

#[test]
fn drain_takes_at_most_a_batch_in_order() {
    let mut q: Queues = Incoming::new(256);
    connect(&mut q, 1);
    for n in 0..100 {
        q.message(1, n.to_string()).unwrap();
    }
    let batch = q.drain(COMMAND_BATCH);
    assert_eq!(batch.len(), 64);
    for (n, command) in batch.iter().enumerate() {
        assert!(matches!(command, Command::Message(1, v) if *v == n.to_string()));
    }
    let rest = q.drain(COMMAND_BATCH);
    assert_eq!(rest.len(), 36);
    assert!(q.drain(COMMAND_BATCH).is_empty());
}
