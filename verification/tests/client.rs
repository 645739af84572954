use rendezvous::connection::LineRead;
use rendezvous::directory::PeerDirectory;
use rendezvous::messages::{client_connected_event, client_left_event, ClientCommand, ClientEvent, ConnectedPeer};
use rendezvous::peers::{peers_to_contact, PeerBroker, PeerBrokerAction};
use rendezvous::messages::PeerMessage;
use rendezvous::session::{
    is_exit_command, join_command, leave_command, session_step, SessionAction, SessionInput,
    PEER_PORT,
};

fn s(text: &str) -> String {
    text.to_string()
}

fn is_v4_uuid_text(t: &str) -> bool {
    let cs: Vec<char> = t.chars().collect();
    cs.len() == 36
        && cs.iter().enumerate().all(|(i, c)| {
            if [8, 13, 18, 23].contains(&i) {
                *c == '-'
            } else {
                c.is_ascii_digit() || ('a'..='f').contains(c)
            }
        })
        && cs[14] == '4'
        && "89ab".contains(cs[19])
}

fn peer(id: &str, address: &str, port: i32) -> ConnectedPeer {
    ConnectedPeer::new(s(id), s(address), port)
}

#[test]
fn join_command_has_fresh_v4_id() {
    let a = join_command(&s("client_123_7"));
    let b = join_command(&s("client_123_7"));
    match (a, b) {
        (
            ClientCommand::ConnectClient { id: ida, client_id, port },
            ClientCommand::ConnectClient { id: idb, .. },
        ) => {
            assert!(is_v4_uuid_text(&ida), "{}", ida);
            assert!(is_v4_uuid_text(&idb), "{}", idb);
            assert_ne!(ida, idb);
            assert_eq!(client_id, "client_123_7");
            assert_eq!(port, 7890);
            assert_eq!(PEER_PORT, 7890);
        }
        other => panic!("unexpected {:?}", other),
    }
}

#[test]
fn leave_command_names_the_client() {
    match leave_command(&s("me")) {
        ClientCommand::LeaveClient { id, client_id } => {
            assert!(is_v4_uuid_text(&id));
            assert_eq!(client_id, "me");
        }
        other => panic!("unexpected {:?}", other),
    }
}

#[test]
fn exit_is_the_only_leave_word() {
    assert!(is_exit_command(&s("EXIT")));
    assert!(!is_exit_command(&s("exit")));
    assert!(!is_exit_command(&s("EXIT ")));
    assert!(!is_exit_command(&s("")));
}

#[test]
fn session_steps() {
    let me = s("me");
    let ev = client_left_event(s("1"), "other");
    assert_eq!(
        session_step(&me, SessionInput::FromServer(LineRead::Line(Ok(client_left_event(s("1"), "other"))))),
        SessionAction::Forward(ev)
    );
    assert_eq!(
        session_step(&me, SessionInput::FromServer(LineRead::Line(Err(s("bad json"))))),
        SessionAction::ReportUndecodable
    );
    assert_eq!(
        session_step(&me, SessionInput::FromServer(LineRead::Failed(s("reset")))),
        SessionAction::Fail(s("reset"))
    );
    assert_eq!(session_step(&me, SessionInput::FromServer(LineRead::Ended)), SessionAction::Stop);
    assert_eq!(session_step(&me, SessionInput::FromConsole(LineRead::Ended)), SessionAction::Stop);
    assert_eq!(
        session_step(&me, SessionInput::FromConsole(LineRead::Line(s("hello")))),
        SessionAction::Ignore
    );
    match session_step(&me, SessionInput::FromConsole(LineRead::Line(s("EXIT")))) {
        SessionAction::LeaveAndStop(ClientCommand::LeaveClient { id, client_id }) => {
            assert!(is_v4_uuid_text(&id));
            assert_eq!(client_id, "me");
        }
        other => panic!("unexpected {:?}", other),
    }
}

#[test]
fn directory_follows_server_events() {
    let mut dir = PeerDirectory::new();
    dir.apply(client_connected_event(
        s("1"),
        "me",
        vec![peer("a", "h1", 1), peer("b", "h2", 2), peer("a", "h3", 3)],
    ));
    assert_eq!(dir.len(), 2);
    assert_eq!(dir.get(&s("a")), Some(peer("a", "h3", 3)));
    assert_eq!(dir.get(&s("b")), Some(peer("b", "h2", 2)));
    dir.apply(client_left_event(s("2"), "a"));
    assert_eq!(dir.len(), 1);
    assert_eq!(dir.get(&s("a")), None);
    dir.apply(client_left_event(s("3"), "zzz"));
    assert_eq!(dir.len(), 1);
    dir.insert(peer("b", "h9", 9));
    assert_eq!(dir.get(&s("b")), Some(peer("b", "h9", 9)));
    assert_eq!(dir.remove(&s("b")), Some(peer("b", "h9", 9)));
    assert_eq!(dir.len(), 0);
}

#[test]
fn contacts_exclude_self() {
    let ev = client_connected_event(s("1"), "x", vec![peer("me", "h0", 0), peer("a", "h1", 1), peer("b", "h2", 2)]);
    assert_eq!(peers_to_contact(&ev, &s("me")), vec![peer("a", "h1", 1), peer("b", "h2", 2)]);
    assert_eq!(peers_to_contact(&client_left_event(s("1"), "a"), &s("me")), vec![]);
}

#[test]
fn peer_broker_notifies_remaining_members() {
    let mut broker = PeerBroker::new();
    let join = |id: &str, p: &str| PeerMessage::JoinPeerCommand { id: s(id), peer_id: s(p) };
    assert_eq!(broker.handle_message(join("1", "a")), PeerBrokerAction::Joined { peer_id: s("a") });
    assert_eq!(broker.handle_message(join("2", "b")), PeerBrokerAction::Joined { peer_id: s("b") });
    assert_eq!(broker.handle_message(join("3", "c")), PeerBrokerAction::Joined { peer_id: s("c") });
    assert_eq!(
        broker.handle_message(join("4", "b")),
        PeerBrokerAction::AlreadyJoined { id: s("4"), peer_id: s("b") }
    );
    assert_eq!(broker.len(), 3);
    let notices = broker.disconnect(&s("b")).unwrap();
    assert_eq!(notices.len(), 2);
    assert_eq!(notices[0].recipient, "a");
    assert_eq!(notices[0].event, ClientEvent::ClientLeft { id: s("b"), client_id: s("a") });
    assert_eq!(notices[1].recipient, "c");
    assert_eq!(notices[1].event, ClientEvent::ClientLeft { id: s("b"), client_id: s("c") });
    assert!(!broker.contains(&s("b")));
    assert!(broker.disconnect(&s("b")).is_none());
    assert_eq!(broker.len(), 2);
}
