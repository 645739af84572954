use rendezvous::broker::{BrokerAction, BrokerEvent};
use rendezvous::connection::{
    extract_connect_client, follow_up_command, open_connection, ConnectionError, LineRead,
    LineReader, LineStep, ERROR_THRESHOLD,
};
use rendezvous::messages::{ClientCommand, ClientEvent, ConnectedPeer};
use rendezvous::registry::PeerRegistry;

fn s(text: &str) -> String {
    text.to_string()
}

fn new_client(id: &str, client_id: &str, address: &str, port: i32) -> BrokerEvent {
    BrokerEvent::NewClient { id: s(id), client_id: s(client_id), address: s(address), port }
}

fn connect(id: &str, client_id: &str, port: i32) -> ClientCommand {
    ClientCommand::ConnectClient { id: s(id), client_id: s(client_id), port }
}

#[test]
fn connection_loop() {
    // A connection opens with a ConnectClient command, then may only leave.
    let first = LineRead::Line(Ok(connect("req-1", "alice", 7890)));
    let opened = open_connection(first, Some(s("10.0.0.1")));
    match opened {
        Ok(BrokerEvent::NewClient { id, client_id, address, port }) => {
            assert_eq!(id, "req-1");
            assert_eq!(client_id, "alice");
            assert_eq!(address, "10.0.0.1");
            assert_eq!(port, 7890);
        }
        other => panic!("unexpected {:?}", other),
    }
    let leave = ClientCommand::LeaveClient { id: s("req-2"), client_id: s("alice") };
    match follow_up_command(Ok(leave)) {
        Ok(BrokerEvent::ClientLeft { id, client_id }) => {
            assert_eq!(id, "req-2");
            assert_eq!(client_id, "alice");
        }
        other => panic!("unexpected {:?}", other),
    }
}

#[test]
fn server_stop() {
    // Once every client is taken out, the registry holds no client.
    let mut registry = PeerRegistry::new();
    registry.handle(new_client("a", "a", "1.1.1.1", 1));
    registry.handle(new_client("b", "b", "2.2.2.2", 2));
    assert_eq!(registry.len(), 2);
    registry.handle(BrokerEvent::Disconnected { client_id: s("a") });
    registry.handle(BrokerEvent::ClientLeft { id: s("x"), client_id: s("b") });
    assert_eq!(registry.len(), 0);
}

#[test]
fn welcome_lists_the_other_clients_in_order() {
    let mut registry = PeerRegistry::new();
    let first = registry.handle(new_client("req-a", "alice", "10.0.0.1", 7001));
    match first {
        BrokerAction::Welcome { key, client_id, event } => {
            assert_eq!(key, "req-a");
            assert_eq!(client_id, "alice");
            assert_eq!(
                event,
                ClientEvent::ClientConnected { id: s("req-a"), client_id: s("alice"), peers: vec![] }
            );
        }
        other => panic!("unexpected {:?}", other),
    }
    registry.handle(new_client("req-b", "bob", "10.0.0.2", 7002));
    let third = registry.handle(new_client("req-c", "carol", "10.0.0.3", 7003));
    match third {
        BrokerAction::Welcome { event, .. } => assert_eq!(
            event,
            ClientEvent::ClientConnected {
                id: s("req-c"),
                client_id: s("carol"),
                peers: vec![
                    ConnectedPeer::new(s("alice"), s("10.0.0.1"), 7001),
                    ConnectedPeer::new(s("bob"), s("10.0.0.2"), 7002),
                ],
            }
        ),
        other => panic!("unexpected {:?}", other),
    }
    assert_eq!(registry.len(), 3);
}

#[test]
fn welcome_leaves_out_earlier_registrations_of_the_same_client() {
    let mut registry = PeerRegistry::new();
    registry.handle(new_client("req-a", "alice", "10.0.0.1", 7001));
    let again = registry.handle(new_client("req-a2", "alice", "10.0.0.9", 7009));
    match again {
        BrokerAction::Welcome { event: ClientEvent::ClientConnected { peers, .. }, .. } => {
            assert!(peers.is_empty())
        }
        other => panic!("unexpected {:?}", other),
    }
    assert_eq!(registry.len(), 2);
}

#[test]
fn repeated_command_id_changes_nothing() {
    let mut registry = PeerRegistry::new();
    registry.handle(new_client("req-a", "alice", "10.0.0.1", 7001));
    match registry.handle(new_client("req-a", "mallory", "10.6.6.6", 6666)) {
        BrokerAction::AlreadyRegistered { key } => assert_eq!(key, "req-a"),
        other => panic!("unexpected {:?}", other),
    }
    assert_eq!(registry.len(), 1);
    assert_eq!(registry.get(&s("req-a")), Some(ConnectedPeer::new(s("alice"), s("10.0.0.1"), 7001)));
}

#[test]
fn leaving_takes_out_by_client_id() {
    let mut registry = PeerRegistry::new();
    registry.handle(new_client("req-a", "alice", "10.0.0.1", 7001));
    // The client is filed under its command id, so leaving by client id finds nothing.
    match registry.handle(BrokerEvent::ClientLeft { id: s("req-z"), client_id: s("alice") }) {
        BrokerAction::NotRegistered { key } => assert_eq!(key, "alice"),
        other => panic!("unexpected {:?}", other),
    }
    assert_eq!(registry.len(), 1);
    match registry.handle(BrokerEvent::Disconnected { client_id: s("req-a") }) {
        BrokerAction::Removed { peer } => {
            assert_eq!(peer.key, "req-a");
            assert_eq!(peer.peer, ConnectedPeer::new(s("alice"), s("10.0.0.1"), 7001));
        }
        other => panic!("unexpected {:?}", other),
    }
    assert_eq!(registry.len(), 0);
    assert!(!registry.contains_key(&s("req-a")));
}

#[test]
fn register_then_remove_restores_registry() {
    let mut registry = PeerRegistry::new();
    assert!(registry.register(s("k1"), ConnectedPeer::new(s("p1"), s("h1"), 1)));
    assert!(registry.register(s("k2"), ConnectedPeer::new(s("p2"), s("h2"), 2)));
    assert!(!registry.register(s("k1"), ConnectedPeer::new(s("p9"), s("h9"), 9)));
    assert_eq!(registry.find(&s("k2")), Some(1));
    let removed = registry.remove(&s("k2")).unwrap();
    assert_eq!(removed.key, "k2");
    assert_eq!(registry.len(), 1);
    assert_eq!(registry.find(&s("k1")), Some(0));
    assert!(registry.remove(&s("k2")).is_none());
    assert_eq!(registry.others_than(&s("nobody")), vec![ConnectedPeer::new(s("p1"), s("h1"), 1)]);
    assert_eq!(registry.others_than(&s("p1")), vec![]);
}

#[test]
fn reader_gives_up_at_the_tenth_failure_in_a_row() {
    let mut reader = LineReader::new();
    for n in 1..ERROR_THRESHOLD {
        match reader.next::<u8>(LineRead::Failed(s("boom"))) {
            Ok((r, LineStep::Skip)) => reader = r,
            Ok(_) => panic!("expected a skip"),
            Err(e) => panic!("gave up early at {}: {:?}", n, e),
        }
        assert_eq!(reader.consecutive_errors(), n);
    }
    match reader.next::<u8>(LineRead::Failed(s("boom"))) {
        Err(e) => assert_eq!(e, ConnectionError::TooManyReadErrors),
        Ok(_) => panic!("expected to give up"),
    }
}

#[test]
fn reader_count_restarts_after_a_line() {
    let mut reader = LineReader::new();
    for _ in 0..9 {
        reader = reader.next::<u8>(LineRead::Failed(s("boom"))).unwrap().0;
    }
    let (r, step) = reader.next(LineRead::Line(5u8)).unwrap();
    assert!(matches!(step, LineStep::Deliver(5)));
    assert_eq!(r.consecutive_errors(), 0);
    let (r, step) = r.next::<u8>(LineRead::Failed(s("boom"))).unwrap();
    assert!(matches!(step, LineStep::Skip));
    assert_eq!(r.consecutive_errors(), 1);
    let (r, step) = r.next::<u8>(LineRead::Ended).unwrap();
    assert!(matches!(step, LineStep::Finished));
    assert_eq!(r.consecutive_errors(), 1);
}

#[test]
fn opening_errors() {
    assert_eq!(
        open_connection(LineRead::Ended, Some(s("a"))).unwrap_err(),
        ConnectionError::DisconnectedImmediately
    );
    assert_eq!(
        open_connection(LineRead::Failed(s("reset")), Some(s("a"))).unwrap_err(),
        ConnectionError::Io(s("reset"))
    );
    assert_eq!(
        open_connection(LineRead::Line(Ok(connect("i", "c", 1))), None).unwrap_err(),
        ConnectionError::NoPeerAddress
    );
    assert_eq!(
        open_connection(LineRead::Line(Err(s("expected value"))), Some(s("a"))).unwrap_err(),
        ConnectionError::Malformed(s("expected value"))
    );
    let leave = ClientCommand::LeaveClient { id: s("i"), client_id: s("c") };
    assert_eq!(
        open_connection(LineRead::Line(Ok(leave)), Some(s("a"))).unwrap_err(),
        ConnectionError::NotAConnectCommand
    );
    assert_eq!(
        follow_up_command(Ok(connect("i", "c", 1))).unwrap_err(),
        ConnectionError::NotAConnectCommand
    );
    assert_eq!(
        follow_up_command(Err(s("bad"))).unwrap_err(),
        ConnectionError::Malformed(s("bad"))
    );
    assert_eq!(
        extract_connect_client(Ok(connect("i", "c", 42))).unwrap(),
        (s("i"), s("c"), 42)
    );
}

#[test]
fn error_messages() {
    assert_eq!(ConnectionError::DisconnectedImmediately.message(), "peer disconnected immediately");
    assert_eq!(ConnectionError::NoPeerAddress.message(), "Cannot get peer address");
    assert_eq!(ConnectionError::NotAConnectCommand.message(), "First event wasn't a ClientCommand ");
    assert_eq!(
        ConnectionError::TooManyReadErrors.message(),
        "Client error count reached the threshold"
    );
    assert_eq!(ConnectionError::Io(s("broken pipe")).message(), "broken pipe");
    assert_eq!(ConnectionError::Malformed(s("eof")).message(), "eof");
}

#[test]
fn leave_undoes_join_when_keys_agree() {
    let mut registry = PeerRegistry::new();
    registry.handle(new_client("a", "a", "1.1.1.1", 1));
    registry.handle(new_client("b", "b", "2.2.2.2", 2));
    registry.handle(BrokerEvent::ClientLeft { id: s("x"), client_id: s("b") });
    assert_eq!(registry.len(), 1);
    assert_eq!(registry.get(&s("a")), Some(ConnectedPeer::new(s("a"), s("1.1.1.1"), 1)));
    assert_eq!(registry.get(&s("b")), None);
}
