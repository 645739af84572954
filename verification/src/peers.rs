//! The peer side of a client: which announced peers it contacts, and the
//! broker of the peers that joined it directly.
use vstd::prelude::*;
use crate::messages::{ClientEvent, ConnectedPeer, PeerInfo, PeerMessage, peer_infos};

verus! {

/// The peers of `peers`, in order, other than the one with id `own_id`.
pub open spec fn other_peers(peers: Seq<PeerInfo>, own_id: Seq<char>) -> Seq<PeerInfo>
    decreases peers.len(),
{
    if peers.len() == 0 {
        Seq::empty()
    } else {
        let rest = other_peers(peers.drop_last(), own_id);
        if peers.last().peer_id == own_id {
            rest
        } else {
            rest.push(peers.last())
        }
    }
}

/// A client contacts a peer exactly when the peer is one of those listed and
/// its id is not the client's own; the order of the listing is kept.
pub proof fn lemma_contacts_are_the_listed_others(peers: Seq<PeerInfo>, own_id: Seq<char>, p: PeerInfo)
    ensures
        other_peers(peers, own_id).contains(p) <==> (peers.contains(p) && p.peer_id != own_id),
        other_peers(peers, own_id).len() <= peers.len(),
        (forall|j: int| 0 <= j < peers.len() ==> #[trigger] peers[j].peer_id != own_id) ==> other_peers(
            peers,
            own_id,
        ) == peers,
    decreases peers.len(),
{
    if peers.len() > 0 {
        let r = peers.drop_last();
        let l = peers.last();
        let o = other_peers(peers, own_id);
        let orr = other_peers(r, own_id);
        lemma_contacts_are_the_listed_others(r, own_id, p);
        assert forall|k: int| 0 <= k < r.len() implies #[trigger] r[k] == peers[k] by {}
        if l.peer_id != own_id {
            assert(o == orr.push(l));
            assert forall|k: int| 0 <= k < orr.len() implies #[trigger] o[k] == orr[k] by {}
        }
        if o.contains(p) {
            let k = choose|k: int| 0 <= k < o.len() && o[k] == p;
            if l.peer_id != own_id && k == orr.len() {
                assert(peers[peers.len() - 1] == p);
            } else {
                assert(orr[k] == p);
                assert(orr.contains(p));
                let j = choose|j: int| 0 <= j < r.len() && r[j] == p;
                assert(peers[j] == p);
            }
        }
        if peers.contains(p) && p.peer_id != own_id {
            let j = choose|j: int| 0 <= j < peers.len() && peers[j] == p;
            if j < r.len() {
                assert(r[j] == p);
                assert(r.contains(p));
                let k = choose|k: int| 0 <= k < orr.len() && orr[k] == p;
                assert(o[k] == p);
            } else {
                assert(o[orr.len() as int] == p);
            }
        }
        if forall|j: int| 0 <= j < peers.len() ==> #[trigger] peers[j].peer_id != own_id {
            assert forall|j: int| 0 <= j < r.len() implies #[trigger] r[j].peer_id != own_id by {
                assert(r[j] == peers[j]);
            }
            assert(peers[peers.len() - 1].peer_id != own_id);
            assert(o =~= peers);
        }
    }
}

/// The peers that the client `own_id` contacts on an event from the server:
/// those that an admission lists, other than itself; none on a departure.
pub fn peers_to_contact(event: &ClientEvent, own_id: &String) -> (v: Vec<ConnectedPeer>)
    ensures
        match event {
            ClientEvent::ClientConnected { peers, .. } => peer_infos(v@) == other_peers(
                peer_infos(peers@),
                own_id@,
            ),
            ClientEvent::ClientLeft { .. } => v@.len() == 0,
        },
{
    let mut out: Vec<ConnectedPeer> = Vec::new();
    match event {
        ClientEvent::ClientConnected { peers, .. } => {
            let n = peers.len();
            let ghost infos = peer_infos(peers@);
            let mut i: usize = 0;
            assert(infos.take(0) =~= Seq::<PeerInfo>::empty());
            assert(peer_infos(out@) =~= Seq::<PeerInfo>::empty());
            while i < n
                invariant
                    n == peers@.len(),
                    infos == peer_infos(peers@),
                    i <= n,
                    peer_infos(out@) == other_peers(infos.take(i as int), own_id@),
                decreases n - i,
            {
                assert(infos.take(i + 1).drop_last() =~= infos.take(i as int));
                assert(infos.take(i + 1).last() == peers@[i as int]@);
                if !(peers[i].peer_id == *own_id) {
                    let ghost before = out@;
                    out.push(peers[i].duplicate());
                    assert(peer_infos(out@) =~= peer_infos(before).push(peers@[i as int]@));
                }
                i += 1;
            }
            assert(infos.take(n as int) =~= infos);
        },
        ClientEvent::ClientLeft { .. } => {},
    }
    out
}

/// No peer id occurs twice.
pub open spec fn distinct_ids(s: Seq<Seq<char>>) -> bool {
    forall|i: int, j: int| 0 <= i < j < s.len() ==> s[i] != s[j]
}

/// A notice for one peer.
#[derive(Debug)]
pub struct Notice {
    pub recipient: String,
    pub event: ClientEvent,
}

/// `e` says that `id` left, naming `client` as the client.
pub open spec fn left_notice(e: ClientEvent, id: Seq<char>, client: Seq<char>) -> bool {
    e matches ClientEvent::ClientLeft { id: eid, client_id: cid } && eid@ == id && cid@ == client
}

/// `notices` tell each of `members`, in order, that `id` left, naming the
/// recipient as the client.
pub open spec fn notices_for(notices: Seq<Notice>, members: Seq<Seq<char>>, id: Seq<char>) -> bool {
    &&& notices.len() == members.len()
    &&& forall|i: int|
        0 <= i < notices.len() ==> (#[trigger] notices[i]).recipient@ == members[i] && left_notice(
            notices[i].event,
            id,
            members[i],
        )
}

/// What the broker of peers does on a message.
#[derive(Debug, PartialEq, Eq)]
pub enum PeerBrokerAction {
    /// `peer_id` joined.
    Joined { peer_id: String },
    /// `peer_id` had joined already; `id` is the id of the refused command.
    AlreadyJoined { id: String, peer_id: String },
}

/// The peers that joined a client directly, in the order they joined.
pub struct PeerBroker {
    members: Vec<String>,
}

impl View for PeerBroker {
    type V = Seq<Seq<char>>;

    closed spec fn view(&self) -> Seq<Seq<char>> {
        self.members@.map_values(|m: String| m@)
    }
}

impl PeerBroker {
    #[verifier::type_invariant]
    closed spec fn inv(self) -> bool {
        distinct_ids(self@)
    }

    /// A broker with no member.
    pub fn new() -> (b: PeerBroker)
        ensures
            b@ == Seq::<Seq<char>>::empty(),
    {
        let b = PeerBroker { members: Vec::new() };
        assert(b@ =~= Seq::<Seq<char>>::empty());
        b
    }

    /// The number of members.
    pub fn len(&self) -> (n: usize)
        ensures
            n == self@.len(),
    {
        self.members.len()
    }

    /// Whether `peer_id` is a member.
    pub fn contains(&self, peer_id: &String) -> (b: bool)
        ensures
            b == self@.contains(peer_id@),
    {
        self.find(peer_id).is_some()
    }

    fn find(&self, peer_id: &String) -> (r: Option<usize>)
        ensures
            r is None <==> !self@.contains(peer_id@),
            r matches Some(i) ==> i < self@.len() && self@[i as int] == peer_id@,
    {
        let n = self.members.len();
        let mut i: usize = 0;
        while i < n
            invariant
                n == self.members@.len(),
                n == self@.len(),
                i <= n,
                forall|j: int| 0 <= j < i ==> #[trigger] self@[j] != peer_id@,
            decreases n - i,
        {
            assert(self@[i as int] == self.members@[i as int]@);
            if self.members[i] == *peer_id {
                return Some(i);
            }
            i += 1;
        }
        None
    }

    /// Handles a message from a peer connection; only joining is handled.
    pub fn handle_message(&mut self, message: PeerMessage) -> (a: PeerBrokerAction)
        requires
            message is JoinPeerCommand,
        ensures
            message matches PeerMessage::JoinPeerCommand { id, peer_id } && if old(self)@.contains(
                peer_id@,
            ) {
                &&& final(self)@ == old(self)@
                &&& a matches PeerBrokerAction::AlreadyJoined { id: aid, peer_id: apid }
                &&& aid@ == id@
                &&& apid@ == peer_id@
            } else {
                &&& final(self)@ == old(self)@.push(peer_id@)
                &&& a matches PeerBrokerAction::Joined { peer_id: apid }
                &&& apid@ == peer_id@
            },
    {
        proof {
            use_type_invariant(&*self);
        }
        match message {
            PeerMessage::JoinPeerCommand { id, peer_id } => {
                if self.find(&peer_id).is_some() {
                    return PeerBrokerAction::AlreadyJoined { id, peer_id };
                }
                let ghost before = self@;
                let mut members: Vec<String> = Vec::new();
                std::mem::swap(&mut members, &mut self.members);
                assert(members@.map_values(|m: String| m@) == before);
                members.push(peer_id.clone());
                assert(members@.map_values(|m: String| m@) =~= before.push(peer_id@));
                assert(distinct_ids(before.push(peer_id@))) by {
                    assert forall|a: int, b: int| 0 <= a < b < before.push(peer_id@).len() implies before.push(
                        peer_id@,
                    )[a] != before.push(peer_id@)[b] by {
                        if b == before.len() {
                            assert(before.push(peer_id@)[a] == before[a]);
                        }
                    }
                }
                self.members = members;
                PeerBrokerAction::Joined { peer_id }
            },
            _ => {
                assert(false);
                PeerBrokerAction::Joined { peer_id: String::new() }
            },
        }
    }

    /// The connection of peer `id` went away: it leaves, and each remaining
    /// member, in order, gets a notice; nothing happens where `id` is no member.
    pub fn disconnect(&mut self, id: &String) -> (r: Option<Vec<Notice>>)
        ensures
            r is None <==> !old(self)@.contains(id@),
            r is None ==> final(self)@ == old(self)@,
            r matches Some(notices) ==> final(self)@ == old(self)@.remove(
                old(self)@.index_of(id@),
            ) && notices_for(notices@, final(self)@, id@),
    {
        proof {
            use_type_invariant(&*self);
        }
        match self.find(id) {
            None => None,
            Some(i) => {
                let ghost before = self@;
                proof {
                    let k = before.index_of(id@);
                    assert(before.contains(id@));
                    before.index_of_first_ensures(id@);
                    assert(before[i as int] == id@);
                }
                let mut members: Vec<String> = Vec::new();
                std::mem::swap(&mut members, &mut self.members);
                assert(members@.map_values(|m: String| m@) == before);
                members.remove(i);
                let ghost after = before.remove(i as int);
                assert(members@.map_values(|m: String| m@) =~= after);
                assert(distinct_ids(after)) by {
                    assert forall|a: int, b: int| 0 <= a < b < after.len() implies after[a]
                        != after[b] by {
                        let a2 = if a < i { a } else { a + 1 };
                        let b2 = if b < i { b } else { b + 1 };
                        assert(after[a] == before[a2]);
                        assert(after[b] == before[b2]);
                    }
                }
                self.members = members;
                let n = self.members.len();
                let mut notices: Vec<Notice> = Vec::new();
                let mut j: usize = 0;
                while j < n
                    invariant
                        n == self.members@.len(),
                        self@ == after,
                        j <= n,
                        notices@.len() == j,
                        forall|k: int|
                            0 <= k < j ==> (#[trigger] notices@[k]).recipient@ == after[k]
                                && left_notice(notices@[k].event, id@, after[k]),
                    decreases n - j,
                {
                    assert(after[j as int] == self.members@[j as int]@);
                    let event = ClientEvent::ClientLeft {
                        id: id.clone(),
                        client_id: self.members[j].clone(),
                    };
                    notices.push(Notice { recipient: self.members[j].clone(), event });
                    j += 1;
                }
                Some(notices)
            },
        }
    }
}

/// When a member disconnects, every remaining member gets exactly one
/// notice, and nobody else gets one.
pub proof fn lemma_one_notice_per_member(notices: Seq<Notice>, members: Seq<Seq<char>>, id: Seq<char>, m: Seq<char>)
    requires
        notices_for(notices, members, id),
        distinct_ids(members),
    ensures
        members.contains(m) ==> exists|i: int| 0 <= i < notices.len() && (#[trigger] notices[i]).recipient@ == m,
        forall|i: int, j: int|
            0 <= i < notices.len() && 0 <= j < notices.len() && (#[trigger] notices[i]).recipient@
                == (#[trigger] notices[j]).recipient@ ==> i == j,
        forall|i: int| 0 <= i < notices.len() ==> members.contains((#[trigger] notices[i]).recipient@),
{
    if members.contains(m) {
        let k = choose|k: int| 0 <= k < members.len() && members[k] == m;
        assert(notices[k].recipient@ == m);
    }
    assert forall|i: int| 0 <= i < notices.len() implies members.contains((#[trigger] notices[i]).recipient@) by {
        assert(members[i] == notices[i].recipient@);
    }
}

} // verus!
