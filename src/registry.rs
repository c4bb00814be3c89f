//! The registry of pairs and the reactor's decisions.
//!
//! A pair is stored as one entry, so both legs enter and leave together.
//! The reactor hands each read and write outcome to the leg it belongs to,
//! then calls `settle`, which forwards one inbound message to the peer, or
//! tears the whole pair down when either leg is closed, and says which
//! endpoints to re-arm or to drop.
use std::collections::HashMap;

use vstd::prelude::*;

use crate::connection::{Connection, Interest, Leg, ReadEvent, Side, Step, WriteEvent};

verus! {

broadcast use vstd::std_specs::hash::group_hash_axioms;

/// The two legs of a pair.
pub struct Pair {
    pub client: Connection,
    pub upstream: Connection,
}

/// The model of a pair.
pub struct Link {
    pub client: Leg,
    pub upstream: Leg,
}

impl View for Pair {
    type V = Link;

    open spec fn view(&self) -> Link {
        Link { client: self.client@, upstream: self.upstream@ }
    }
}

impl Link {
    pub open spec fn wf(self) -> bool {
        &&& self.client.wf()
        &&& self.upstream.wf()
        &&& self.client.side == Side::Client
        &&& self.upstream.side == Side::Upstream
        &&& self.client.peer_id == self.upstream.id
        &&& self.upstream.peer_id == self.client.id
        &&& self.upstream.id == self.client.id + 1
    }

    pub open spec fn holds(self, id: u64) -> bool {
        self.client.id == id || self.upstream.id == id
    }

    /// The leg with this id.
    pub open spec fn leg(self, id: u64) -> Leg {
        if self.client.id == id {
            self.client
        } else {
            self.upstream
        }
    }

    /// The other leg.
    pub open spec fn peer(self, id: u64) -> Leg {
        if self.client.id == id {
            self.upstream
        } else {
            self.client
        }
    }

    /// The pair with the leg `id` replaced by `l` and its peer by `q`.
    pub open spec fn with_legs(self, id: u64, l: Leg, q: Leg) -> Link {
        if self.client.id == id {
            Link { client: l, upstream: q }
        } else {
            Link { client: q, upstream: l }
        }
    }

    pub open spec fn closing(self) -> bool {
        self.client.closed || self.upstream.closed
    }

    /// The pair after the oldest inbound message of leg `id` went to its peer.
    pub open spec fn forward_from(self, id: u64) -> Link {
        let l = self.leg(id);
        let q = self.peer(id);
        if l.read_buffer.len() > 0 {
            self.with_legs(id, l.after_take(), q.after_enqueue(l.read_buffer[0]))
        } else {
            self
        }
    }
}

/// What the reactor does with an endpoint after a pass.
#[derive(Clone, Copy, Debug, PartialEq, Eq, Structural)]
pub enum Action {
    /// Wait for this readiness on the endpoint.
    Arm(u64, Interest),
    /// Deregister the endpoint and close it.
    Drop(u64),
}

/// The model of a registry: its pairs, each under the id of its client
/// leg, and the next id to hand out.
pub struct Table {
    pub pairs: Map<u64, Link>,
    pub next_id: nat,
}

impl Table {
    /// Each pair sits under its client's id, its upstream leg takes the
    /// next id, no id is held twice, and every id is below `next_id`.
    pub open spec fn wf(self) -> bool {
        &&& self.next_id >= 1
        &&& forall|k: u64| #[trigger] self.pairs.contains_key(k) ==> {
            &&& self.pairs[k].wf()
            &&& self.pairs[k].client.id == k
            &&& self.pairs[k].upstream.id < self.next_id
            &&& !self.pairs.contains_key((k + 1) as u64)
        }
    }

    pub open spec fn has(self, id: u64) -> bool {
        exists|k: u64| #[trigger] self.pairs.contains_key(k) && self.pairs[k].holds(id)
    }

    /// The key of the pair that holds `id`.
    pub open spec fn key_of(self, id: u64) -> u64 {
        choose|k: u64| #[trigger] self.pairs.contains_key(k) && self.pairs[k].holds(id)
    }

    /// The pair that holds `id`.
    pub open spec fn link(self, id: u64) -> Link {
        self.pairs[self.key_of(id)]
    }

    /// The leg with this id.
    pub open spec fn leg(self, id: u64) -> Leg {
        self.link(id).leg(id)
    }

    /// The table with the pair holding `id` replaced.
    pub open spec fn with_link(self, id: u64, p: Link) -> Table {
        Table { pairs: self.pairs.insert(self.key_of(id), p), ..self }
    }

    pub open spec fn after_read(self, id: u64, ev: ReadEvent) -> Table {
        if self.has(id) {
            let p = self.link(id);
            self.with_link(id, p.with_legs(id, p.leg(id).after_read(ev), p.peer(id)))
        } else {
            self
        }
    }

    pub open spec fn after_write(self, id: u64, ev: WriteEvent) -> Table {
        if self.has(id) {
            let p = self.link(id);
            self.with_link(id, p.with_legs(id, p.leg(id).after_write(ev), p.peer(id)))
        } else {
            self
        }
    }

    /// The end of a reactor pass for `id`: a pair with a closed leg is
    /// removed whole; otherwise one inbound message of `id` goes to its peer.
    pub open spec fn after_settle(self, id: u64) -> Table {
        if !self.has(id) {
            self
        } else if self.link(id).closing() {
            Table { pairs: self.pairs.remove(self.key_of(id)), ..self }
        } else {
            self.with_link(id, self.link(id).forward_from(id))
        }
    }

    /// What the reactor does with the endpoints after settling `id`.
    pub open spec fn settle_actions(self, id: u64) -> Seq<Action> {
        if !self.has(id) {
            Seq::empty()
        } else if self.link(id).closing() {
            seq![Action::Drop(self.link(id).client.id), Action::Drop(self.link(id).upstream.id)]
        } else {
            let p = self.link(id).forward_from(id);
            seq![Action::Arm(id, p.leg(id).interest()), Action::Arm(p.peer(id).id, p.peer(id).interest())]
        }
    }
}

/// A pair whose legs are fresh, open and empty.
pub open spec fn fresh_link(client_id: u64) -> Link {
    Link {
        client: Leg {
            id: client_id,
            peer_id: (client_id + 1) as u64,
            side: Side::Client,
            read_buffer: Seq::empty(),
            write_queue: Seq::empty(),
            written: 0,
            gathered: Seq::empty(),
            closed: false,
        },
        upstream: Leg {
            id: (client_id + 1) as u64,
            peer_id: client_id,
            side: Side::Upstream,
            read_buffer: Seq::empty(),
            write_queue: Seq::empty(),
            written: 0,
            gathered: Seq::empty(),
            closed: false,
        },
    }
}

/// In a well-formed table one pair at most holds a given id.
pub proof fn lemma_key_unique(t: Table, id: u64, k: u64)
    requires
        t.wf(),
        t.pairs.contains_key(k),
        t.pairs[k].holds(id),
    ensures
        t.has(id),
        t.key_of(id) == k,
{
    assert(t.has(id));
    let j = t.key_of(id);
    assert(t.pairs.contains_key(j));
    if j != k {
        assert(t.pairs[j].wf());
        assert(t.pairs[k].wf());
        if j < k {
            assert(!t.pairs.contains_key((j + 1) as u64));
        } else {
            assert(!t.pairs.contains_key((k + 1) as u64));
        }
    }
}

/// Removing one pair keeps the table well formed, and takes out exactly
/// the ids that pair held.
pub proof fn lemma_remove_pair(t: Table, k: u64)
    requires
        t.wf(),
        t.pairs.contains_key(k),
    ensures
        (Table { pairs: t.pairs.remove(k), ..t }).wf(),
        forall|id: u64|
            (Table { pairs: t.pairs.remove(k), ..t }).has(id) <==> (t.has(id) && !t.pairs[k].holds(id)),
{
    let n = Table { pairs: t.pairs.remove(k), ..t };
    assert forall|id: u64| n.has(id) <==> (t.has(id) && !t.pairs[k].holds(id)) by {
        if n.has(id) {
            let j = n.key_of(id);
            assert(t.pairs.contains_key(j) && t.pairs[j].holds(id));
            lemma_key_unique(t, id, j);
        }
        if t.has(id) && !t.pairs[k].holds(id) {
            let j = t.key_of(id);
            assert(j != k);
            assert(n.pairs.contains_key(j) && n.pairs[j].holds(id));
        }
    }
}

/// Replacing one pair by a well-formed pair with the same ids keeps the
/// table well formed, with the same ids present.
pub proof fn lemma_replace_pair(t: Table, k: u64, p: Link)
    requires
        t.wf(),
        t.pairs.contains_key(k),
        p.wf(),
        p.client.id == t.pairs[k].client.id,
        p.upstream.id == t.pairs[k].upstream.id,
    ensures
        (Table { pairs: t.pairs.insert(k, p), ..t }).wf(),
        forall|id: u64| (Table { pairs: t.pairs.insert(k, p), ..t }).has(id) <==> t.has(id),
{
    let n = Table { pairs: t.pairs.insert(k, p), ..t };
    assert(t.pairs.insert(k, p).dom() =~= t.pairs.dom());
    assert forall|id: u64| n.has(id) <==> t.has(id) by {
        if n.has(id) {
            let j = n.key_of(id);
            assert(t.pairs.contains_key(j) && t.pairs[j].holds(id));
        }
        if t.has(id) {
            let j = t.key_of(id);
            assert(n.pairs.contains_key(j) && n.pairs[j].holds(id));
        }
    }
}

/// The pair registry: every live pair of the bridge, each stored whole
/// under the id of its client leg, with the next id to hand out.
pub struct Cluster {
    pub pairs: HashMap<u64, Pair>,
    pub next_id: u64,
}

impl View for Cluster {
    type V = Table;

    open spec fn view(&self) -> Table {
        Table { pairs: self.pairs@.map_values(|p: Pair| p@), next_id: self.next_id as nat }
    }
}

impl Pair {
    /// Hands a read outcome to the leg `id`.
    pub fn try_read(&mut self, id: u64, ev: ReadEvent) -> (r: Step)
        requires
            old(self)@.wf(),
            old(self)@.holds(id),
        ensures
            final(self)@ == old(self)@.with_legs(id, old(self)@.leg(id).after_read(ev), old(self)@.peer(id)),
            final(self)@.wf(),
            (r == Step::Again) == old(self)@.leg(id).read_again(ev),
    {
        if self.client.id == id {
            self.client.try_read(ev)
        } else {
            self.upstream.try_read(ev)
        }
    }

    /// Hands a write outcome to the leg `id`.
    pub fn try_write(&mut self, id: u64, ev: WriteEvent) -> (r: Step)
        requires
            old(self)@.wf(),
            old(self)@.holds(id),
        ensures
            final(self)@ == old(self)@.with_legs(id, old(self)@.leg(id).after_write(ev), old(self)@.peer(id)),
            final(self)@.wf(),
            (r == Step::Again) == old(self)@.leg(id).write_again(ev),
    {
        if self.client.id == id {
            self.client.try_write(ev)
        } else {
            self.upstream.try_write(ev)
        }
    }

    /// Moves the oldest inbound message of leg `id` to its peer's queue.
    pub fn forward_from(&mut self, id: u64)
        requires
            old(self)@.wf(),
            old(self)@.holds(id),
        ensures
            final(self)@ == old(self)@.forward_from(id),
            final(self)@.wf(),
    {
        if self.client.id == id {
            if let Some(message) = self.client.take_received() {
                self.upstream.enqueue(message);
            }
        } else {
            if let Some(message) = self.upstream.take_received() {
                self.client.enqueue(message);
            }
        }
    }
}

impl Cluster {
    /// An empty registry; ids are handed out from 1 on.
    pub fn new() -> (r: Cluster)
        ensures
            r@.pairs == Map::<u64, Link>::empty(),
            r@.next_id == 1,
            r@.wf(),
    {
        let r = Cluster { pairs: HashMap::new(), next_id: 1 };
        assert(r@.pairs =~= Map::<u64, Link>::empty());
        r
    }

    /// The key of the pair that holds `id`: its own id for a client leg,
    /// the id before it for an upstream leg.
    fn find(&self, id: u64) -> (r: Option<u64>)
        requires
            self@.wf(),
        ensures
            r is None <==> !self@.has(id),
            r is Some ==> r->Some_0 == self@.key_of(id) && self@.pairs.contains_key(r->Some_0),
    {
        if self.pairs.contains_key(&id) {
            proof {
                assert(self@.pairs.contains_key(id));
                lemma_key_unique(self@, id, id);
            }
            Some(id)
        } else if id > 0 && self.pairs.contains_key(&(id - 1)) {
            proof {
                let k = (id - 1) as u64;
                assert(self@.pairs.contains_key(k));
                assert(self@.pairs[k].wf());
                lemma_key_unique(self@, id, k);
            }
            Some(id - 1)
        } else {
            proof {
                if self@.has(id) {
                    let k = self@.key_of(id);
                    assert(self@.pairs.contains_key(k));
                    assert(self@.pairs[k].wf());
                    assert(self.pairs@.contains_key(k));
                }
            }
            None
        }
    }

    /// Whether a leg with this id is registered.
    pub fn contains(&self, id: u64) -> (r: bool)
        requires
            self@.wf(),
        ensures
            r == self@.has(id),
    {
        self.find(id).is_some()
    }

    /// The number of pairs.
    pub fn len(&self) -> (r: usize)
        ensures
            r == self@.pairs.len(),
    {
        assert(self@.pairs.dom() =~= self.pairs@.dom());
        self.pairs.len()
    }

    /// Registers a new pair once its upstream was dialled, and returns the
    /// ids of its client and upstream legs; `None` when the ids ran out.
    pub fn insert_pair(&mut self) -> (r: Option<(u64, u64)>)
        requires
            old(self)@.wf(),
        ensures
            final(self)@.wf(),
            r is Some <==> old(self)@.next_id + 2 <= u64::MAX,
            r is Some ==> {
                let (c, u) = r->Some_0;
                &&& c == old(self)@.next_id
                &&& u == c + 1
                &&& final(self)@.pairs == old(self)@.pairs.insert(c, fresh_link(c))
                &&& final(self)@.next_id == old(self)@.next_id + 2
                &&& !old(self)@.has(c) && !old(self)@.has(u)
            },
            r is None ==> final(self)@ == old(self)@,
    {
        if self.next_id > u64::MAX - 2 {
            return None;
        }
        let c = self.next_id;
        let u = c + 1;
        let client = Connection::new(c, u, Side::Client);
        let upstream = Connection::new(u, c, Side::Upstream);
        let ghost before = self@;
        self.pairs.insert(c, Pair { client, upstream });
        self.next_id = c + 2;
        assert(self@.pairs =~= before.pairs.insert(c, fresh_link(c)));
        proof {
            assert forall|k: u64| #[trigger] before.pairs.contains_key(k) implies !before.pairs[k].holds(c)
                && !before.pairs[k].holds(u) && k + 1 < c by {
                assert(before.pairs[k].wf());
            }
            assert(!before.has(c));
            assert(!before.has(u));
            assert forall|k: u64| #[trigger] self@.pairs.contains_key(k) implies {
                &&& self@.pairs[k].wf()
                &&& self@.pairs[k].client.id == k
                &&& self@.pairs[k].upstream.id < self@.next_id
                &&& !self@.pairs.contains_key((k + 1) as u64)
            } by {
                if k != c {
                    assert(before.pairs.contains_key(k));
                    assert(k + 1 < c);
                    assert(!before.pairs.contains_key((k + 1) as u64));
                } else {
                    if before.pairs.contains_key((c + 1) as u64) {
                        assert(((c + 1) as u64) + 1 < c);
                    }
                }
            }
        }
        Some((c, u))
    }

    /// Removes the pair that holds `id`, both legs at once, and returns the
    /// ids of its client and upstream legs.
    pub fn remove_pair(&mut self, id: u64) -> (r: Option<(u64, u64)>)
        requires
            old(self)@.wf(),
        ensures
            final(self)@.wf(),
            r is Some <==> old(self)@.has(id),
            r is Some ==> r->Some_0 == (old(self)@.link(id).client.id, old(self)@.link(id).upstream.id)
                && final(self)@ == (Table {
                pairs: old(self)@.pairs.remove(old(self)@.key_of(id)),
                ..old(self)@
            }),
            r is None ==> final(self)@ == old(self)@,
            forall|x: u64|
                final(self)@.has(x) <==> old(self)@.has(x) && !(old(self)@.has(id)
                    && old(self)@.link(id).holds(x)),
    {
        match self.find(id) {
            None => None,
            Some(k) => {
                let ghost before = self@;
                let removed = self.pairs.remove(&k);
                assert(self@.pairs =~= before.pairs.remove(k));
                proof {
                    lemma_remove_pair(before, k);
                }
                match removed {
                    Some(p) => Some((p.client.id, p.upstream.id)),
                    None => None,
                }
            },
        }
    }

    /// Hands the outcome of a read call on endpoint `id` to its leg. An
    /// unknown id is ignored.
    pub fn try_read(&mut self, id: u64, ev: ReadEvent) -> (r: Step)
        requires
            old(self)@.wf(),
        ensures
            final(self)@ == old(self)@.after_read(id, ev),
            final(self)@.wf(),
            (r == Step::Again) == (old(self)@.has(id) && old(self)@.leg(id).read_again(ev)),
    {
        match self.find(id) {
            None => Step::Stop,
            Some(k) => {
                let ghost before = self@;
                match self.pairs.remove(&k) {
                    None => Step::Stop,
                    Some(mut p) => {
                        assert(p@ == before.pairs[k]);
                        let r = p.try_read(id, ev);
                        self.pairs.insert(k, p);
                        assert(self@.pairs =~= before.pairs.insert(k, p@));
                        proof {
                            lemma_replace_pair(before, k, p@);
                        }
                        r
                    },
                }
            },
        }
    }

    /// Hands the outcome of a write call on endpoint `id` to its leg. An
    /// unknown id is ignored.
    pub fn try_write(&mut self, id: u64, ev: WriteEvent) -> (r: Step)
        requires
            old(self)@.wf(),
        ensures
            final(self)@ == old(self)@.after_write(id, ev),
            final(self)@.wf(),
            (r == Step::Again) == (old(self)@.has(id) && old(self)@.leg(id).write_again(ev)),
    {
        match self.find(id) {
            None => Step::Stop,
            Some(k) => {
                let ghost before = self@;
                match self.pairs.remove(&k) {
                    None => Step::Stop,
                    Some(mut p) => {
                        assert(p@ == before.pairs[k]);
                        let r = p.try_write(id, ev);
                        self.pairs.insert(k, p);
                        assert(self@.pairs =~= before.pairs.insert(k, p@));
                        proof {
                            lemma_replace_pair(before, k, p@);
                        }
                        r
                    },
                }
            },
        }
    }

    /// What the next write call on endpoint `id` is to be given: the
    /// unwritten part of its first queued payload (empty for an unknown id
    /// or a closed leg).
    pub fn pending(&self, id: u64) -> (r: &[u8])
        requires
            self@.wf(),
        ensures
            self@.has(id) ==> r@ == self@.leg(id).pending(),
            self@.has(id) && self@.leg(id).closed ==> r@.len() == 0,
            !self@.has(id) ==> r@.len() == 0,
    {
        let empty: &[u8] = &[];
        assert(empty@ =~= Seq::<u8>::empty());
        match self.find(id) {
            None => empty,
            Some(k) => match self.pairs.get(&k) {
                None => empty,
                Some(p) => {
                    assert(self@.pairs[k] == p@);
                    if p.client.id == id {
                        p.client.pending()
                    } else {
                        p.upstream.pending()
                    }
                },
            },
        }
    }

    /// Ends the reactor's pass over endpoint `id`. A pair with a closed leg
    /// is removed whole and both its endpoints are to be dropped; otherwise
    /// the oldest inbound message of `id` goes to its peer, and both
    /// endpoints are re-armed: writable while something is queued, readable
    /// otherwise.
    pub fn settle(&mut self, id: u64) -> (r: Vec<Action>)
        requires
            old(self)@.wf(),
        ensures
            final(self)@ == old(self)@.after_settle(id),
            final(self)@.wf(),
            r@ == old(self)@.settle_actions(id),
            old(self)@.has(id) && old(self)@.link(id).closing() ==> !final(self)@.has(id)
                && !final(self)@.has(old(self)@.leg(id).peer_id),
    {
        match self.find(id) {
            None => Vec::new(),
            Some(k) => {
                let ghost before = self@;
                match self.pairs.remove(&k) {
                    None => Vec::new(),
                    Some(mut p) => {
                        assert(p@ == before.pairs[k]);
                        assert(self@.pairs =~= before.pairs.remove(k));
                        if p.client.closed || p.upstream.closed {
                            proof {
                                lemma_remove_pair(before, k);
                                assert(p@.holds(p@.leg(id).peer_id));
                            }
                            vec![Action::Drop(p.client.id), Action::Drop(p.upstream.id)]
                        } else {
                            p.forward_from(id);
                            let (own, peer) = if p.client.id == id {
                                (p.client.interest(), p.upstream.interest())
                            } else {
                                (p.upstream.interest(), p.client.interest())
                            };
                            let peer_id = if p.client.id == id {
                                p.upstream.id
                            } else {
                                p.client.id
                            };
                            self.pairs.insert(k, p);
                            assert(self@.pairs =~= before.pairs.insert(k, p@));
                            proof {
                                lemma_replace_pair(before, k, p@);
                            }
                            let r = vec![Action::Arm(id, own), Action::Arm(peer_id, peer)];
                            assert(r@ =~= before.settle_actions(id));
                            r
                        }
                    },
                }
            },
        }
    }
}

} // verus!
