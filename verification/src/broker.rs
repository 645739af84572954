//! The rendezvous server's broker: one decision per event that a connection
//! reports, from the registry before it to the registry after it and the
//! action that the caller carries out (welcome a client, drop a writer).
use vstd::prelude::*;
use crate::messages::{ClientEvent, ConnectedPeer, PeerInfo, peer_infos, client_connected_event};
use crate::registry::{
    PeerRegistry, RegisteredPeer, Registration, has_key, position, others, after_register,
    after_remove, keys_distinct, lemma_remove_forgets_only_key, lemma_register_then_remove,
};

verus! {

/// What a connection reports to the broker.
#[derive(Debug)]
pub enum BrokerEvent {
    /// A connection opened with a `ConnectClient` command.
    NewClient { id: String, client_id: String, address: String, port: i32 },
    /// A connected client sent a `LeaveClient` command.
    ClientLeft { id: String, client_id: String },
    /// The writer of a client's connection finished.
    Disconnected { client_id: String },
}

/// What the broker asks its caller to do.
#[derive(Debug)]
pub enum BrokerAction {
    /// `client_id` was filed under `key`: send `event` on its connection and
    /// start the writer that serves it.
    Welcome { key: String, client_id: String, event: ClientEvent },
    /// A client is already filed under `key`: nothing changes.
    AlreadyRegistered { key: String },
    /// The registration `peer` was taken out: drop what serves it.
    Removed { peer: RegisteredPeer },
    /// Nothing was filed under `key`.
    NotRegistered { key: String },
}

/// The registrations after the broker handles `event`.
pub open spec fn next_registrations(s: Seq<Registration>, event: BrokerEvent) -> Seq<
    Registration,
> {
    match event {
        BrokerEvent::NewClient { id, client_id, address, port } => after_register(
            s,
            id@,
            PeerInfo { peer_id: client_id@, address: address@, port },
        ),
        BrokerEvent::ClientLeft { id, client_id } => after_remove(s, client_id@),
        BrokerEvent::Disconnected { client_id } => after_remove(s, client_id@),
    }
}

/// The action that the broker asks for on `event`, given the registrations `s`
/// before it.
pub open spec fn expected_action(s: Seq<Registration>, event: BrokerEvent, action: BrokerAction) -> bool {
    match event {
        BrokerEvent::NewClient { id, client_id, address, port } => if has_key(s, id@) {
            action matches BrokerAction::AlreadyRegistered { key } && key@ == id@
        } else {
            action matches BrokerAction::Welcome { key, client_id: c, event: e } && key@ == id@ && c@
                == client_id@ && welcomes(e, id@, client_id@, others(s, client_id@))
        },
        BrokerEvent::ClientLeft { id, client_id } => removal_action(s, client_id@, action),
        BrokerEvent::Disconnected { client_id } => removal_action(s, client_id@, action),
    }
}

/// `e` admits `client_id` under the command id `id` and lists `peers`.
pub open spec fn welcomes(e: ClientEvent, id: Seq<char>, client_id: Seq<char>, peers: Seq<PeerInfo>) -> bool {
    e matches ClientEvent::ClientConnected { id: eid, client_id: ecid, peers: epeers } && eid@ == id
        && ecid@ == client_id && peer_infos(epeers@) == peers
}

/// The action on taking out the registration filed under `key`.
pub open spec fn removal_action(s: Seq<Registration>, key: Seq<char>, action: BrokerAction) -> bool {
    if has_key(s, key) {
        action matches BrokerAction::Removed { peer } && peer@ == s[position(s, key)]
    } else {
        action matches BrokerAction::NotRegistered { key: k } && k@ == key
    }
}

impl PeerRegistry {
    /// Handles one event: a new client is filed under its command id and
    /// welcomed with the list of the other admitted clients; a leaving or
    /// disconnected client's registration is taken out by its client id.
    pub fn handle(&mut self, event: BrokerEvent) -> (action: BrokerAction)
        ensures
            final(self)@ == next_registrations(old(self)@, event),
            expected_action(old(self)@, event, action),
    {
        match event {
            BrokerEvent::NewClient { id, client_id, address, port } => {
                if self.contains_key(&id) {
                    return BrokerAction::AlreadyRegistered { key: id };
                }
                let ghost before = self@;
                let key = id.clone();
                let peer = ConnectedPeer { peer_id: client_id.clone(), address, port };
                self.register(key, peer);
                let listed = self.others_than(&client_id);
                proof {
                    let r = Registration { key: id@, peer: PeerInfo { peer_id: client_id@, address: address@, port } };
                    assert(before.push(r).drop_last() =~= before);
                }
                let welcome_id = id.clone();
                let event = client_connected_event(welcome_id, client_id.as_str(), listed);
                BrokerAction::Welcome { key: id, client_id, event }
            },
            BrokerEvent::ClientLeft { id, client_id } => self.take_out(client_id),
            BrokerEvent::Disconnected { client_id } => self.take_out(client_id),
        }
    }

    fn take_out(&mut self, key: String) -> (action: BrokerAction)
        ensures
            final(self)@ == after_remove(old(self)@, key@),
            removal_action(old(self)@, key@, action),
    {
        match self.remove(&key) {
            Some(peer) => BrokerAction::Removed { peer },
            None => BrokerAction::NotRegistered { key },
        }
    }
}

/// Whatever event the broker handles, no key ends up filed twice.
pub proof fn lemma_handle_keeps_keys_distinct(s: Seq<Registration>, event: BrokerEvent)
    requires
        keys_distinct(s),
    ensures
        keys_distinct(next_registrations(s, event)),
{
    match event {
        BrokerEvent::NewClient { id, client_id, address, port } => {
            if !has_key(s, id@) {
                let t = s.push(Registration { key: id@, peer: PeerInfo { peer_id: client_id@, address: address@, port } });
                assert forall|a: int, b: int| 0 <= a < b < t.len() implies t[a].key != t[b].key by {
                    if b == s.len() {
                        assert(t[a] == s[a]);
                    }
                }
            }
        },
        BrokerEvent::ClientLeft { id, client_id } => {
            lemma_remove_forgets_only_key(s, client_id@, client_id@);
        },
        BrokerEvent::Disconnected { client_id } => {
            lemma_remove_forgets_only_key(s, client_id@, client_id@);
        },
    }
}

/// A client admitted by the broker is welcomed with exactly the other
/// admitted clients: a peer is listed where, and only where, some
/// registration before the event holds it and its id is not the newcomer's.
pub proof fn lemma_welcome_lists_other_clients(
    s: Seq<Registration>,
    event: BrokerEvent,
    action: BrokerAction,
    p: PeerInfo,
)
    requires
        expected_action(s, event, action),
        action is Welcome,
    ensures
        event matches BrokerEvent::NewClient { client_id, .. } && action matches BrokerAction::Welcome {
            event: ClientEvent::ClientConnected { peers, .. },
            ..
        } && (peer_infos(peers@).contains(p) <==> (p.peer_id != client_id@ && exists|i: int|
            0 <= i < s.len() && #[trigger] s[i].peer == p)),
{
    match event {
        BrokerEvent::NewClient { client_id, .. } => {
            crate::registry::lemma_others_are_the_other_clients(s, client_id@, p);
        },
        _ => {},
    }
}

/// The key that a leave or disconnect event takes out.
pub open spec fn removed_key(event: BrokerEvent) -> Seq<char> {
    match event {
        BrokerEvent::NewClient { id, .. } => id@,
        BrokerEvent::ClientLeft { client_id, .. } => client_id@,
        BrokerEvent::Disconnected { client_id } => client_id@,
    }
}

/// A client that joins under a new command id and then leaves, or is
/// disconnected, under that same key leaves the registrations as they were.
/// (Departures are taken out by client id while admissions are filed by
/// command id, so this holds where the two agree.)
pub proof fn lemma_leave_undoes_join(s: Seq<Registration>, join: BrokerEvent, leave: BrokerEvent)
    requires
        keys_distinct(s),
        join matches BrokerEvent::NewClient { id, .. } && !has_key(s, id@),
        !(leave is NewClient),
        removed_key(leave) == removed_key(join),
    ensures
        next_registrations(next_registrations(s, join), leave) == s,
{
    match join {
        BrokerEvent::NewClient { id, client_id, address, port } => {
            lemma_register_then_remove(s, id@, PeerInfo { peer_id: client_id@, address: address@, port });
        },
        _ => {},
    }
}

} // verus!
