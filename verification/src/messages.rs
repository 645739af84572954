//! The messages exchanged between clients, the rendezvous server and peers.
use vstd::prelude::*;

verus! {

/// What a contract sees of a connected peer.
pub struct PeerInfo {
    pub peer_id: Seq<char>,
    pub address: Seq<char>,
    pub port: i32,
}

/// A client that the rendezvous server knows, as it is announced to others.
#[derive(Debug, PartialEq, Eq)]
pub struct ConnectedPeer {
    pub peer_id: String,
    pub address: String,
    pub port: i32,
}

impl View for ConnectedPeer {
    type V = PeerInfo;

    open spec fn view(&self) -> PeerInfo {
        PeerInfo { peer_id: self.peer_id@, address: self.address@, port: self.port }
    }
}

/// The views of a sequence of peers, one for one.
pub open spec fn peer_infos(peers: Seq<ConnectedPeer>) -> Seq<PeerInfo> {
    peers.map_values(|p: ConnectedPeer| p@)
}

impl ConnectedPeer {
    pub fn new(peer_id: String, address: String, port: i32) -> (p: ConnectedPeer)
        ensures
            p.peer_id@ == peer_id@,
            p.address@ == address@,
            p.port == port,
    {
        ConnectedPeer { peer_id, address, port }
    }

    /// A copy of this peer with the same contents.
    pub fn duplicate(&self) -> (p: ConnectedPeer)
        ensures
            p@ == self@,
    {
        ConnectedPeer {
            peer_id: self.peer_id.clone(),
            address: self.address.clone(),
            port: self.port,
        }
    }
}


/// What the rendezvous server tells clients.
#[derive(Debug, PartialEq, Eq)]
pub enum ClientEvent {
    /// A client was admitted; `peers` are the other clients known at that moment.
    ClientConnected { id: String, client_id: String, peers: Vec<ConnectedPeer> },
    /// A client left.
    ClientLeft { id: String, client_id: String },
}

/// What a client asks of the rendezvous server.
#[derive(Debug, PartialEq, Eq)]
pub enum ClientCommand {
    /// Join, announcing the port on which this client accepts peers.
    ConnectClient { id: String, client_id: String, port: i32 },
    /// Leave.
    LeaveClient { id: String, client_id: String },
}

/// What peers tell each other.
#[derive(Debug, PartialEq, Eq)]
pub enum PeerMessage {
    JoinPeerCommand { id: String, peer_id: String },
    LeavePeerCommand { id: String, peer_id: String },
    ReadyToUploadFileCommand { id: String, peer_id: String, file: String },
    PeerJoinedEvent { id: String, peer_id: String },
    FileModifiedEvent { id: String, peer_id: String, file: String },
}

/// The event that admits `client_id` and lists `peers` to it.
pub fn client_connected_event(id: String, client_id: &str, peers: Vec<ConnectedPeer>) -> (e:
    ClientEvent)
    ensures
        e matches ClientEvent::ClientConnected { id: eid, client_id: ecid, peers: epeers } && eid@
            == id@ && ecid@ == client_id@ && epeers@ == peers@,
{
    ClientEvent::ClientConnected { id, client_id: client_id.to_owned(), peers }
}

/// The event that announces that `client_id` left.
pub fn client_left_event(id: String, client_id: &str) -> (e: ClientEvent)
    ensures
        e matches ClientEvent::ClientLeft { id: eid, client_id: ecid } && eid@ == id@ && ecid@
            == client_id@,
{
    ClientEvent::ClientLeft { id, client_id: client_id.to_owned() }
}

} // verus!
