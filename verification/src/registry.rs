//! The rendezvous server's registry of admitted clients and the broker's
//! decisions on the events that connections report.
use vstd::prelude::*;
use crate::messages::{ConnectedPeer, PeerInfo, peer_infos};

verus! {

/// What a contract sees of one registration: the key it is filed under and the peer.
pub struct Registration {
    pub key: Seq<char>,
    pub peer: PeerInfo,
}

/// One admitted client, filed under `key`.
#[derive(Debug)]
pub struct RegisteredPeer {
    pub key: String,
    pub peer: ConnectedPeer,
}

impl View for RegisteredPeer {
    type V = Registration;

    open spec fn view(&self) -> Registration {
        Registration { key: self.key@, peer: self.peer@ }
    }
}

/// No key is filed twice.
pub open spec fn keys_distinct(s: Seq<Registration>) -> bool {
    forall|i: int, j: int| 0 <= i < j < s.len() ==> s[i].key != s[j].key
}

/// Some registration is filed under `key`.
pub open spec fn has_key(s: Seq<Registration>, key: Seq<char>) -> bool {
    exists|i: int| 0 <= i < s.len() && #[trigger] s[i].key == key
}

/// The place of the registration filed under `key` (meaningful where `has_key`).
pub open spec fn position(s: Seq<Registration>, key: Seq<char>) -> int {
    choose|i: int| 0 <= i < s.len() && #[trigger] s[i].key == key
}

/// The peers of `s`, in order, whose peer id is not `client`.
pub open spec fn others(s: Seq<Registration>, client: Seq<char>) -> Seq<PeerInfo>
    decreases s.len(),
{
    if s.len() == 0 {
        Seq::empty()
    } else {
        let rest = others(s.drop_last(), client);
        if s.last().peer.peer_id == client {
            rest
        } else {
            rest.push(s.last().peer)
        }
    }
}

/// The registrations of `s` after `key` is filed for `peer`, where it is new.
pub open spec fn after_register(s: Seq<Registration>, key: Seq<char>, peer: PeerInfo) -> Seq<
    Registration,
> {
    if has_key(s, key) {
        s
    } else {
        s.push(Registration { key, peer })
    }
}

/// The registrations of `s` after the one filed under `key`, if any, is taken out.
pub open spec fn after_remove(s: Seq<Registration>, key: Seq<char>) -> Seq<Registration> {
    if has_key(s, key) {
        s.remove(position(s, key))
    } else {
        s
    }
}

/// The clients that the rendezvous server has admitted, in the order of admission.
pub struct PeerRegistry {
    entries: Vec<RegisteredPeer>,
}

impl View for PeerRegistry {
    type V = Seq<Registration>;

    closed spec fn view(&self) -> Seq<Registration> {
        self.entries@.map_values(|r: RegisteredPeer| r@)
    }
}

impl PeerRegistry {
    #[verifier::type_invariant]
    closed spec fn inv(self) -> bool {
        keys_distinct(self@)
    }

    /// An empty registry.
    pub fn new() -> (r: PeerRegistry)
        ensures
            r@ == Seq::<Registration>::empty(),
    {
        let r = PeerRegistry { entries: Vec::new() };
        assert(r@ =~= Seq::<Registration>::empty());
        r
    }

    /// The number of admitted clients.
    pub fn len(&self) -> (n: usize)
        ensures
            n == self@.len(),
    {
        self.entries.len()
    }

    /// The place of the registration filed under `key`, if there is one.
    pub fn find(&self, key: &String) -> (r: Option<usize>)
        ensures
            r is None <==> !has_key(self@, key@),
            r matches Some(i) ==> i < self@.len() && self@[i as int].key == key@ && i
                == position(self@, key@),
    {
        proof {
            use_type_invariant(self);
        }
        let n = self.entries.len();
        let mut i: usize = 0;
        while i < n
            invariant
                n == self.entries@.len(),
                i <= n,
                keys_distinct(self@),
                forall|j: int| 0 <= j < i ==> #[trigger] self@[j].key != key@,
            decreases n - i,
        {
            if self.entries[i].key == *key {
                proof {
                    assert(self@[i as int].key == key@);
                    let j = position(self@, key@);
                    assert(self@[j].key == key@);
                }
                return Some(i);
            }
            i += 1;
        }
        None
    }

    /// The peer filed under `key`, if any.
    pub fn get(&self, key: &String) -> (r: Option<ConnectedPeer>)
        ensures
            r is None <==> !has_key(self@, key@),
            r matches Some(p) ==> p@ == self@[position(self@, key@)].peer,
    {
        match self.find(key) {
            None => None,
            Some(i) => {
                assert(self@[i as int] == self.entries@[i as int]@);
                Some(self.entries[i].peer.duplicate())
            },
        }
    }

    /// Whether a registration is filed under `key`.
    pub fn contains_key(&self, key: &String) -> (b: bool)
        ensures
            b == has_key(self@, key@),
    {
        self.find(key).is_some()
    }

    /// Files `peer` under `key`, unless a registration is already filed there.
    pub fn register(&mut self, key: String, peer: ConnectedPeer) -> (added: bool)
        ensures
            added == !has_key(old(self)@, key@),
            final(self)@ == after_register(old(self)@, key@, peer@),
    {
        proof {
            use_type_invariant(&*self);
        }
        if self.contains_key(&key) {
            return false;
        }
        let ghost before = self@;
        let ghost added = Registration { key: key@, peer: peer@ };
        let mut entries: Vec<RegisteredPeer> = Vec::new();
        std::mem::swap(&mut entries, &mut self.entries);
        assert(entries@.map_values(|r: RegisteredPeer| r@) == before);
        entries.push(RegisteredPeer { key, peer });
        assert(entries@.map_values(|r: RegisteredPeer| r@) =~= before.push(added));
        assert(keys_distinct(before.push(added))) by {
            assert forall|i: int, j: int| 0 <= i < j < before.push(added).len() implies before.push(
                added,
            )[i].key != before.push(added)[j].key by {
                if j == before.len() {
                    assert(before[i].key == before.push(added)[i].key);
                }
            }
        }
        self.entries = entries;
        true
    }

    /// Takes out the registration filed under `key`, if there is one, keeping
    /// the others in their order.
    pub fn remove(&mut self, key: &String) -> (r: Option<RegisteredPeer>)
        ensures
            r is Some <==> has_key(old(self)@, key@),
            r matches Some(p) ==> p@ == old(self)@[position(old(self)@, key@)],
            final(self)@ == after_remove(old(self)@, key@),
    {
        proof {
            use_type_invariant(&*self);
        }
        match self.find(key) {
            None => None,
            Some(i) => {
                let ghost before = self@;
                let mut entries: Vec<RegisteredPeer> = Vec::new();
                std::mem::swap(&mut entries, &mut self.entries);
                assert(entries@.map_values(|r: RegisteredPeer| r@) == before);
                let taken = entries.remove(i);
                assert(entries@.map_values(|r: RegisteredPeer| r@) =~= before.remove(i as int));
                assert(keys_distinct(before.remove(i as int))) by {
                    assert forall|a: int, b: int|
                        0 <= a < b < before.remove(i as int).len() implies before.remove(
                        i as int,
                    )[a].key != before.remove(i as int)[b].key by {
                        let a2 = if a < i { a } else { a + 1 };
                        let b2 = if b < i { b } else { b + 1 };
                        assert(before.remove(i as int)[a] == before[a2]);
                        assert(before.remove(i as int)[b] == before[b2]);
                    }
                }
                self.entries = entries;
                Some(taken)
            },
        }
    }

    /// The admitted peers, in order, whose peer id is not `client_id`.
    pub fn others_than(&self, client_id: &String) -> (v: Vec<ConnectedPeer>)
        ensures
            peer_infos(v@) == others(self@, client_id@),
    {
        let n = self.entries.len();
        let mut out: Vec<ConnectedPeer> = Vec::new();
        let mut i: usize = 0;
        assert(self@.take(0) =~= Seq::<Registration>::empty());
        assert(peer_infos(out@) =~= Seq::<PeerInfo>::empty());
        while i < n
            invariant
                n == self.entries@.len(),
                n == self@.len(),
                i <= n,
                peer_infos(out@) == others(self@.take(i as int), client_id@),
            decreases n - i,
        {
            assert(self@.take(i + 1).drop_last() =~= self@.take(i as int));
            assert(self@.take(i + 1).last() == self@[i as int]);
            assert(self@[i as int] == self.entries@[i as int]@);
            let entry = &self.entries[i];
            if !(entry.peer.peer_id == *client_id) {
                let ghost before = out@;
                out.push(entry.peer.duplicate());
                assert(peer_infos(out@) =~= peer_infos(before).push(entry.peer@));
            }
            i += 1;
        }
        assert(self@.take(n as int) =~= self@);
        out
    }
}

/// The welcome list of `client` holds a peer exactly where some registration
/// holds it and its peer id is not `client`: every other admitted client is
/// listed, and the client itself never is.
pub proof fn lemma_others_are_the_other_clients(s: Seq<Registration>, client: Seq<char>, p: PeerInfo)
    ensures
        others(s, client).contains(p) <==> (p.peer_id != client && exists|i: int|
            0 <= i < s.len() && #[trigger] s[i].peer == p),
    decreases s.len(),
{
    if s.len() > 0 {
        let r = s.drop_last();
        let l = s.last();
        let o = others(s, client);
        let orr = others(r, client);
        lemma_others_are_the_other_clients(r, client, p);
        assert forall|i: int| 0 <= i < r.len() implies #[trigger] r[i] == s[i] by {}
        if l.peer.peer_id == client {
            assert(o == orr);
        } else {
            assert(o == orr.push(l.peer));
            assert(o[orr.len() as int] == l.peer);
            assert forall|k: int| 0 <= k < orr.len() implies #[trigger] o[k] == orr[k] by {}
        }
        if o.contains(p) {
            let k = choose|k: int| 0 <= k < o.len() && o[k] == p;
            if k < orr.len() {
                assert(orr[k] == p);
                assert(orr.contains(p));
                let i = choose|i: int| 0 <= i < r.len() && #[trigger] r[i].peer == p;
                assert(s[i].peer == p);
            } else {
                assert(s[s.len() - 1].peer == p);
            }
        }
        if p.peer_id != client && (exists|i: int| 0 <= i < s.len() && #[trigger] s[i].peer == p) {
            let i = choose|i: int| 0 <= i < s.len() && #[trigger] s[i].peer == p;
            if i < s.len() - 1 {
                assert(r[i].peer == p);
                assert(orr.contains(p));
                let k = choose|k: int| 0 <= k < orr.len() && orr[k] == p;
                assert(o[k] == p);
            } else {
                assert(o[orr.len() as int] == p);
            }
        }
    }
}

/// Filing a new key and then taking out that key gives back the
/// registrations as they were.
pub proof fn lemma_register_then_remove(s: Seq<Registration>, key: Seq<char>, peer: PeerInfo)
    requires
        keys_distinct(s),
        !has_key(s, key),
    ensures
        after_remove(after_register(s, key, peer), key) == s,
{
    let t = s.push(Registration { key, peer });
    assert(t[s.len() as int].key == key);
    let p = position(t, key);
    assert(p == s.len()) by {
        if p < s.len() {
            assert(s[p].key == key);
        }
    }
    assert(t.remove(p) =~= s);
}

/// Taking out `key` leaves no registration under it and keeps every other
/// key with its peer.
pub proof fn lemma_remove_forgets_only_key(s: Seq<Registration>, key: Seq<char>, other: Seq<char>)
    requires
        keys_distinct(s),
    ensures
        !has_key(after_remove(s, key), key),
        keys_distinct(after_remove(s, key)),
        other != key ==> has_key(after_remove(s, key), other) == has_key(s, other),
        other != key && has_key(s, other) ==> after_remove(s, key)[position(
            after_remove(s, key),
            other,
        )] == s[position(s, other)],
{
    if has_key(s, key) {
        let p = position(s, key);
        let t = s.remove(p);
        assert forall|i: int| 0 <= i < t.len() implies #[trigger] t[i] == s[if i < p {
            i
        } else {
            i + 1
        }] by {}
        if has_key(t, key) {
            let i = position(t, key);
            let i2 = if i < p { i } else { i + 1 };
            assert(s[i2].key == key);
        }
        assert(keys_distinct(t)) by {
            assert forall|a: int, b: int| 0 <= a < b < t.len() implies t[a].key != t[b].key by {
                let a2 = if a < p { a } else { a + 1 };
                let b2 = if b < p { b } else { b + 1 };
                assert(t[a] == s[a2]);
                assert(t[b] == s[b2]);
            }
        }
        if other != key {
            if has_key(s, other) {
                let j = position(s, other);
                assert(j != p);
                let j2 = if j < p { j } else { j - 1 };
                assert(t[j2] == s[j]);
                assert(t[j2].key == other);
                let k = position(t, other);
                let k2 = if k < p { k } else { k + 1 };
                assert(t[k] == s[k2]);
                assert(s[k2].key == other);
            }
            if has_key(t, other) {
                let k = position(t, other);
                let k2 = if k < p { k } else { k + 1 };
                assert(s[k2].key == other);
            }
        }
    } else {
        if other != key && has_key(s, other) {
        }
    }
}

} // verus!
