//! A client's directory of the peers that the rendezvous server announced,
//! kept up to date from the server's events.
use vstd::prelude::*;
use crate::messages::{ClientEvent, ConnectedPeer, PeerInfo, peer_infos};

verus! {

/// No peer id occurs twice.
pub open spec fn ids_distinct(s: Seq<PeerInfo>) -> bool {
    forall|i: int, j: int| 0 <= i < j < s.len() ==> s[i].peer_id != s[j].peer_id
}

/// Some peer of `s` has the id `id`.
pub open spec fn lists_id(s: Seq<PeerInfo>, id: Seq<char>) -> bool {
    exists|i: int| 0 <= i < s.len() && #[trigger] s[i].peer_id == id
}

/// The place of the peer with id `id` (meaningful where `lists_id`).
pub open spec fn id_position(s: Seq<PeerInfo>, id: Seq<char>) -> int {
    choose|i: int| 0 <= i < s.len() && #[trigger] s[i].peer_id == id
}

/// The peers of `s` by their ids.
pub open spec fn by_id(s: Seq<PeerInfo>) -> Map<Seq<char>, PeerInfo> {
    Map::new(|id: Seq<char>| lists_id(s, id), |id: Seq<char>| s[id_position(s, id)])
}

/// `m` after each peer of `peers` is filed under its id, in order, a later
/// one replacing an earlier one with the same id.
pub open spec fn file_all(m: Map<Seq<char>, PeerInfo>, peers: Seq<PeerInfo>) -> Map<
    Seq<char>,
    PeerInfo,
>
    decreases peers.len(),
{
    if peers.len() == 0 {
        m
    } else {
        file_all(m, peers.drop_last()).insert(peers.last().peer_id, peers.last())
    }
}

/// The directory after `event`: an admission files every listed peer under
/// its id; a departure takes out the departed client's id.
pub open spec fn after_event(m: Map<Seq<char>, PeerInfo>, event: ClientEvent) -> Map<
    Seq<char>,
    PeerInfo,
> {
    match event {
        ClientEvent::ClientConnected { peers, .. } => file_all(m, peer_infos(peers@)),
        ClientEvent::ClientLeft { client_id, .. } => m.remove(client_id@),
    }
}

/// The peers known to a client, by peer id.
pub struct PeerDirectory {
    entries: Vec<ConnectedPeer>,
}

impl View for PeerDirectory {
    type V = Map<Seq<char>, PeerInfo>;

    /// The known peers by id.
    closed spec fn view(&self) -> Map<Seq<char>, PeerInfo> {
        by_id(peer_infos(self.entries@))
    }
}

impl PeerDirectory {
    /// The entries as their views, in the order kept.
    closed spec fn listed(self) -> Seq<PeerInfo> {
        peer_infos(self.entries@)
    }

    #[verifier::type_invariant]
    closed spec fn inv(self) -> bool {
        ids_distinct(self.listed())
    }


    /// An empty directory.
    pub fn new() -> (d: PeerDirectory)
        ensures
            d@ == Map::<Seq<char>, PeerInfo>::empty(),
    {
        let d = PeerDirectory { entries: Vec::new() };
        assert(d@ =~= Map::<Seq<char>, PeerInfo>::empty());
        d
    }

    /// The number of known peers.
    pub fn len(&self) -> (n: usize)
        ensures
            n == self@.dom().len(),
    {
        proof {
            use_type_invariant(self);
            lemma_by_id_len(self.listed());
        }
        self.entries.len()
    }

    fn find(&self, id: &String) -> (r: Option<usize>)
        ensures
            r is None <==> !lists_id(self.listed(), id@),
            r matches Some(i) ==> i < self.entries@.len() && i == id_position(self.listed(), id@),
    {
        proof {
            use_type_invariant(self);
        }
        let n = self.entries.len();
        let mut i: usize = 0;
        while i < n
            invariant
                n == self.entries@.len(),
                n == self.listed().len(),
                i <= n,
                ids_distinct(self.listed()),
                forall|j: int| 0 <= j < i ==> #[trigger] self.listed()[j].peer_id != id@,
            decreases n - i,
        {
            assert(self.listed()[i as int] == self.entries@[i as int]@);
            if self.entries[i].peer_id == *id {
                proof {
                    let j = id_position(self.listed(), id@);
                    assert(self.listed()[i as int].peer_id == id@);
                    assert(self.listed()[j].peer_id == id@);
                }
                return Some(i);
            }
            i += 1;
        }
        None
    }

    /// The peer known under `id`, if any.
    pub fn get(&self, id: &String) -> (r: Option<ConnectedPeer>)
        ensures
            r is None <==> !self@.contains_key(id@),
            r matches Some(p) ==> p@ == self@[id@],
    {
        match self.find(id) {
            None => None,
            Some(i) => {
                assert(self.listed()[i as int] == self.entries@[i as int]@);
                Some(self.entries[i].duplicate())
            },
        }
    }

    /// Files `peer` under its id, replacing what was filed there.
    pub fn insert(&mut self, peer: ConnectedPeer)
        ensures
            final(self)@ == old(self)@.insert(peer.peer_id@, peer@),
    {
        proof {
            use_type_invariant(&*self);
        }
        let ghost before = self.listed();
        let ghost info = peer@;
        let found = self.find(&peer.peer_id);
        let mut entries: Vec<ConnectedPeer> = Vec::new();
        std::mem::swap(&mut entries, &mut self.entries);
        assert(peer_infos(entries@) == before);
        match found {
            Some(i) => {
                entries.set(i, peer);
                let ghost after = before.update(i as int, info);
                assert(peer_infos(entries@) =~= after);
                assert(ids_distinct(after)) by {
                    assert forall|a: int, b: int| 0 <= a < b < after.len() implies after[a].peer_id
                        != after[b].peer_id by {
                        assert(before[a].peer_id == after[a].peer_id);
                        assert(before[b].peer_id == after[b].peer_id);
                    }
                }
                proof {
                    lemma_by_id_update(before, i as int, info);
                }
            },
            None => {
                entries.push(peer);
                let ghost after = before.push(info);
                assert(peer_infos(entries@) =~= after);
                assert(ids_distinct(after)) by {
                    assert forall|a: int, b: int| 0 <= a < b < after.len() implies after[a].peer_id
                        != after[b].peer_id by {
                        if b == before.len() {
                            assert(after[a] == before[a]);
                        }
                    }
                }
                proof {
                    lemma_by_id_push(before, info);
                }
            },
        }
        self.entries = entries;
    }

    /// Takes out the peer known under `id`, if any.
    pub fn remove(&mut self, id: &String) -> (r: Option<ConnectedPeer>)
        ensures
            r is None <==> !old(self)@.contains_key(id@),
            r matches Some(p) ==> p@ == old(self)@[id@],
            final(self)@ == old(self)@.remove(id@),
    {
        proof {
            use_type_invariant(&*self);
        }
        let ghost before = self.listed();
        match self.find(id) {
            None => {
                assert(self@ =~= self@.remove(id@));
                None
            },
            Some(i) => {
                let mut entries: Vec<ConnectedPeer> = Vec::new();
                std::mem::swap(&mut entries, &mut self.entries);
                assert(peer_infos(entries@) == before);
                let taken = entries.remove(i);
                let ghost after = before.remove(i as int);
                assert(peer_infos(entries@) =~= after);
                assert(ids_distinct(after)) by {
                    assert forall|a: int, b: int| 0 <= a < b < after.len() implies after[a].peer_id
                        != after[b].peer_id by {
                        let a2 = if a < i { a } else { a + 1 };
                        let b2 = if b < i { b } else { b + 1 };
                        assert(after[a] == before[a2]);
                        assert(after[b] == before[b2]);
                    }
                }
                proof {
                    lemma_by_id_remove(before, i as int);
                }
                self.entries = entries;
                Some(taken)
            },
        }
    }

    /// Takes in one event from the rendezvous server: an admission files every
    /// listed peer under its id, a departure takes out the departed client.
    pub fn apply(&mut self, event: ClientEvent)
        ensures
            final(self)@ == after_event(old(self)@, event),
    {
        match event {
            ClientEvent::ClientConnected { id, client_id, peers } => {
                let n = peers.len();
                let mut i: usize = 0;
                let ghost start = self@;
                let ghost infos = peer_infos(peers@);
                assert(infos.take(0) =~= Seq::<PeerInfo>::empty());
                while i < n
                    invariant
                        n == peers@.len(),
                        infos == peer_infos(peers@),
                        i <= n,
                        self@ == file_all(start, infos.take(i as int)),
                    decreases n - i,
                {
                    assert(infos.take(i + 1).drop_last() =~= infos.take(i as int));
                    assert(infos.take(i + 1).last() == peers@[i as int]@);
                    self.insert(peers[i].duplicate());
                    i += 1;
                }
                assert(infos.take(n as int) =~= infos);
            },
            ClientEvent::ClientLeft { id, client_id } => {
                self.remove(&client_id);
            },
        }
    }
}

proof fn lemma_by_id_push(s: Seq<PeerInfo>, p: PeerInfo)
    requires
        ids_distinct(s.push(p)),
    ensures
        by_id(s.push(p)) == by_id(s).insert(p.peer_id, p),
{
    let t = s.push(p);
    assert forall|k: Seq<char>| #[trigger] lists_id(t, k) == (lists_id(s, k) || k == p.peer_id) by {
        if lists_id(s, k) {
            let i = id_position(s, k);
            assert(t[i].peer_id == k);
        }
        if k == p.peer_id {
            assert(t[s.len() as int].peer_id == k);
        }
        if lists_id(t, k) && k != p.peer_id {
            let i = id_position(t, k);
            assert(s[i].peer_id == k);
        }
    }
    assert forall|k: Seq<char>| lists_id(t, k) implies #[trigger] t[id_position(t, k)] == (if k
        == p.peer_id {
        p
    } else {
        s[id_position(s, k)]
    }) by {
        let i = id_position(t, k);
        if k == p.peer_id {
            assert(t[s.len() as int].peer_id == k);
        } else {
            let j = id_position(s, k);
            assert(t[j].peer_id == k);
        }
    }
    assert(by_id(t) =~= by_id(s).insert(p.peer_id, p));
}

proof fn lemma_by_id_update(s: Seq<PeerInfo>, i: int, p: PeerInfo)
    requires
        0 <= i < s.len(),
        s[i].peer_id == p.peer_id,
        ids_distinct(s),
    ensures
        by_id(s.update(i, p)) == by_id(s).insert(p.peer_id, p),
{
    let t = s.update(i, p);
    assert forall|k: Seq<char>| #[trigger] lists_id(t, k) == lists_id(s, k) by {
        if lists_id(s, k) {
            let j = id_position(s, k);
            assert(t[j].peer_id == k);
        }
        if lists_id(t, k) {
            let j = id_position(t, k);
            assert(s[j].peer_id == k);
        }
    }
    assert forall|k: Seq<char>| lists_id(t, k) implies #[trigger] t[id_position(t, k)] == (if k
        == p.peer_id {
        p
    } else {
        s[id_position(s, k)]
    }) by {
        let j = id_position(t, k);
        let j2 = id_position(s, k);
        assert(s[j].peer_id == k);
        assert(s[j2].peer_id == k);
    }
    assert(lists_id(s, p.peer_id)) by {
        assert(s[i].peer_id == p.peer_id);
    }
    assert(by_id(t) =~= by_id(s).insert(p.peer_id, p));
}

proof fn lemma_by_id_remove(s: Seq<PeerInfo>, i: int)
    requires
        0 <= i < s.len(),
        ids_distinct(s),
    ensures
        by_id(s.remove(i)) == by_id(s).remove(s[i].peer_id),
{
    let t = s.remove(i);
    let id = s[i].peer_id;
    assert forall|k: Seq<char>| #[trigger] lists_id(t, k) == (lists_id(s, k) && k != id) by {
        if lists_id(s, k) && k != id {
            let j = id_position(s, k);
            assert(j != i);
            if j < i {
                assert(t[j].peer_id == k);
            } else {
                assert(t[j - 1].peer_id == k);
            }
        }
        if lists_id(t, k) {
            let j = id_position(t, k);
            let j2 = if j < i { j } else { j + 1 };
            assert(s[j2].peer_id == k);
            assert(j2 != i);
        }
    }
    assert forall|k: Seq<char>| lists_id(t, k) implies #[trigger] t[id_position(t, k)] == s[id_position(
        s,
        k,
    )] by {
        let j = id_position(t, k);
        let j2 = if j < i { j } else { j + 1 };
        assert(t[j] == s[j2]);
        let j3 = id_position(s, k);
        assert(s[j3].peer_id == k);
    }
    assert(by_id(t) =~= by_id(s).remove(id));
}

proof fn lemma_by_id_len(s: Seq<PeerInfo>)
    requires
        ids_distinct(s),
    ensures
        by_id(s).dom().finite(),
        by_id(s).dom().len() == s.len(),
    decreases s.len(),
{
    if s.len() == 0 {
        assert(by_id(s).dom() =~= Set::<Seq<char>>::empty());
    } else {
        let r = s.drop_last();
        assert(s =~= r.push(s.last()));
        lemma_by_id_len(r);
        lemma_by_id_push(r, s.last());
        assert(!by_id(r).contains_key(s.last().peer_id)) by {
            if lists_id(r, s.last().peer_id) {
                let j = id_position(r, s.last().peer_id);
                assert(s[j].peer_id == s[s.len() - 1].peer_id);
            }
        }
    }
}

/// After an admission, each listed peer is known under its id with the value
/// listed last for that id.
pub proof fn lemma_admission_files_listed(m: Map<Seq<char>, PeerInfo>, peers: Seq<PeerInfo>, i: int)
    requires
        0 <= i < peers.len(),
        forall|j: int| i < j < peers.len() ==> #[trigger] peers[j].peer_id != peers[i].peer_id,
    ensures
        file_all(m, peers).contains_key(peers[i].peer_id),
        file_all(m, peers)[peers[i].peer_id] == peers[i],
    decreases peers.len(),
{
    if i < peers.len() - 1 {
        let r = peers.drop_last();
        assert forall|j: int| i < j < r.len() implies #[trigger] r[j].peer_id != r[i].peer_id by {
            assert(r[j] == peers[j]);
        }
        lemma_admission_files_listed(m, r, i);
        assert(peers.last().peer_id != peers[i].peer_id);
        assert(r[i] == peers[i]);
    }
}

/// After an admission, an id that no listed peer has is known exactly where it
/// was known before, with the same peer.
pub proof fn lemma_admission_keeps_unlisted(m: Map<Seq<char>, PeerInfo>, peers: Seq<PeerInfo>, id: Seq<char>)
    requires
        forall|j: int| 0 <= j < peers.len() ==> #[trigger] peers[j].peer_id != id,
    ensures
        file_all(m, peers).contains_key(id) == m.contains_key(id),
        m.contains_key(id) ==> file_all(m, peers)[id] == m[id],
    decreases peers.len(),
{
    if peers.len() > 0 {
        let r = peers.drop_last();
        assert forall|j: int| 0 <= j < r.len() implies #[trigger] r[j].peer_id != id by {
            assert(r[j] == peers[j]);
        }
        lemma_admission_keeps_unlisted(m, r, id);
        assert(peers[peers.len() - 1].peer_id != id);
    }
}

/// After a departure the departed client is no longer known, and every other
/// known peer stays as it was.
pub proof fn lemma_departure_forgets_client(m: Map<Seq<char>, PeerInfo>, event: ClientEvent, id: Seq<char>)
    requires
        event is ClientLeft,
    ensures
        event matches ClientEvent::ClientLeft { client_id, .. } && !after_event(m, event).contains_key(
            client_id@,
        ) && (id != client_id@ ==> after_event(m, event).contains_key(id) == m.contains_key(id)
            && (m.contains_key(id) ==> after_event(m, event)[id] == m[id])),
{
}

proof fn lemma_file_all_domain(m: Map<Seq<char>, PeerInfo>, peers: Seq<PeerInfo>, id: Seq<char>)
    ensures
        file_all(m, peers).contains_key(id) <==> (m.contains_key(id) || exists|j: int|
            0 <= j < peers.len() && #[trigger] peers[j].peer_id == id),
    decreases peers.len(),
{
    if peers.len() > 0 {
        let r = peers.drop_last();
        lemma_file_all_domain(m, r, id);
        if exists|j: int| 0 <= j < r.len() && #[trigger] r[j].peer_id == id {
            let j = choose|j: int| 0 <= j < r.len() && #[trigger] r[j].peer_id == id;
            assert(peers[j].peer_id == id);
        }
        if exists|j: int| 0 <= j < peers.len() && #[trigger] peers[j].peer_id == id {
            let j = choose|j: int| 0 <= j < peers.len() && #[trigger] peers[j].peer_id == id;
            if j < r.len() {
                assert(r[j].peer_id == id);
            }
        }
    }
}

/// After a client applies an admission event, the peers it knows are those it
/// knew before together with every peer the event lists: each listed peer is
/// known under its id, with the value listed last for that id; an id that the
/// event does not list keeps the peer it had, and no other id becomes known.
pub proof fn lemma_admission_knows_every_listed_peer(
    m: Map<Seq<char>, PeerInfo>,
    event: ClientEvent,
    id: Seq<char>,
)
    requires
        event is ClientConnected,
    ensures
        event matches ClientEvent::ClientConnected { peers, .. } && {
            &&& forall|i: int|
                0 <= i < peers@.len() ==> after_event(m, event).contains_key(
                    #[trigger] peers@[i].peer_id@,
                )
            &&& forall|i: int|
                0 <= i < peers@.len() && (forall|j: int|
                    i < j < peers@.len() ==> peers@[j].peer_id@ != peers@[i].peer_id@)
                    ==> after_event(m, event)[#[trigger] peers@[i].peer_id@] == peers@[i]@
            &&& after_event(m, event).contains_key(id) <==> (m.contains_key(id) || exists|j: int|
                0 <= j < peers@.len() && #[trigger] peers@[j].peer_id@ == id)
            &&& (forall|j: int| 0 <= j < peers@.len() ==> #[trigger] peers@[j].peer_id@ != id)
                && m.contains_key(id) ==> after_event(m, event)[id] == m[id]
        },
{
    match event {
        ClientEvent::ClientConnected { peers, .. } => {
            let infos = peer_infos(peers@);
            assert forall|i: int| 0 <= i < peers@.len() implies #[trigger] infos[i] == peers@[i]@ by {}
            assert forall|i: int| 0 <= i < peers@.len() implies after_event(m, event).contains_key(
                #[trigger] peers@[i].peer_id@,
            ) by {
                lemma_file_all_domain(m, infos, peers@[i].peer_id@);
                assert(infos[i].peer_id == peers@[i].peer_id@);
            }
            assert forall|i: int|
                0 <= i < peers@.len() && (forall|j: int|
                    i < j < peers@.len() ==> peers@[j].peer_id@ != peers@[i].peer_id@) implies after_event(
                m,
                event,
            )[#[trigger] peers@[i].peer_id@] == peers@[i]@ by {
                assert forall|j: int| i < j < infos.len() implies #[trigger] infos[j].peer_id
                    != infos[i].peer_id by {
                    assert(infos[j] == peers@[j]@);
                }
                lemma_admission_files_listed(m, infos, i);
            }
            lemma_file_all_domain(m, infos, id);
            if exists|j: int| 0 <= j < infos.len() && #[trigger] infos[j].peer_id == id {
                let j = choose|j: int| 0 <= j < infos.len() && #[trigger] infos[j].peer_id == id;
                assert(peers@[j].peer_id@ == id);
            }
            if exists|j: int| 0 <= j < peers@.len() && #[trigger] peers@[j].peer_id@ == id {
                let j = choose|j: int| 0 <= j < peers@.len() && #[trigger] peers@[j].peer_id@ == id;
                assert(infos[j].peer_id == id);
            }
            if forall|j: int| 0 <= j < peers@.len() ==> #[trigger] peers@[j].peer_id@ != id {
                assert forall|j: int| 0 <= j < infos.len() implies #[trigger] infos[j].peer_id != id by {
                    assert(infos[j] == peers@[j]@);
                }
                lemma_admission_keeps_unlisted(m, infos, id);
            }
        },
        _ => {},
    }
}

} // verus!
