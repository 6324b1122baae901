//! The set of connections a server knows, and who a broadcast goes to.
//!
//! The registry names each connection by a number of its own making, never
//! used twice, and remembers for each whether it is still live.  It holds no
//! sockets and no receive buffers: those stay with the tasks that serve the
//! connections, so that a broadcast is planned here in one step and carried
//! out elsewhere, one independent write per target.
use crate::codec::{encodable, encode, frame_of};
use crate::models::Event;
use vstd::prelude::*;

verus! {

/// One registered connection: its identity, and whether it is still live.
#[derive(Debug, Clone, Copy, PartialEq, Eq)]
pub struct Peer {
    pub id: u64,
    pub connected: bool,
}

/// The identity of `peer` if it is live.
pub open spec fn live_id(peer: Peer) -> Option<u64> {
    if peer.connected {
        Some(peer.id)
    } else {
        None
    }
}

/// `peer`, marked as no longer live if it is the one called `id`.
pub open spec fn shut(peer: Peer, id: u64) -> Peer {
    if peer.id == id {
        Peer { connected: false, ..peer }
    } else {
        peer
    }
}

/// The identities of the live connections among `peers`, in order.
pub open spec fn live_ids_of(peers: Seq<Peer>) -> Seq<u64> {
    peers.filter_map(|peer: Peer| live_id(peer))
}

/// The live connections among `peers`, in order.
pub open spec fn live_of(peers: Seq<Peer>) -> Seq<Peer> {
    peers.filter(|peer: Peer| peer.connected)
}

/// `peers` with the one called `id`, if there is one, marked as dead.
pub open spec fn shut_all(peers: Seq<Peer>, id: u64) -> Seq<Peer> {
    peers.map_values(|peer: Peer| shut(peer, id))
}

/// `ids` without `id`, in order.
pub open spec fn without(ids: Seq<u64>, id: u64) -> Seq<u64> {
    ids.filter(|other: u64| other != id)
}

/// What a [`Registry`] is, mathematically: its entries in the order they
/// were registered, and the identity the next one will get.
pub struct RegistryView {
    pub peers: Seq<Peer>,
    pub next_id: u64,
}

impl RegistryView {
    /// Identities grow along the entries and stay below the next one to be
    /// handed out, so none occurs twice and none is ever used again.
    pub open spec fn wf(self) -> bool {
        &&& forall|i: int, j: int|
            0 <= i < j < self.peers.len() ==> (#[trigger] self.peers[i]).id < (
            #[trigger] self.peers[j]).id
        &&& forall|i: int| 0 <= i < self.peers.len() ==> (#[trigger] self.peers[i]).id < self.next_id
    }

    /// The registry with nothing in it.
    pub open spec fn empty() -> RegistryView {
        RegistryView { peers: Seq::empty(), next_id: 0 }
    }

    /// The identities a broadcast goes to: those of the live entries, each
    /// once, in the order of registration.
    pub open spec fn live_ids(self) -> Seq<u64> {
        live_ids_of(self.peers)
    }

    /// The registry after one more connection has been registered.
    pub open spec fn register(self) -> RegistryView {
        RegistryView {
            peers: self.peers.push(Peer { id: self.next_id, connected: true }),
            next_id: (self.next_id + 1) as u64,
        }
    }

    /// The registry after `count` more connections have been registered.
    pub open spec fn register_many(self, count: nat) -> RegistryView
        decreases count,
    {
        if count == 0 {
            self
        } else {
            self.register_many((count - 1) as nat).register()
        }
    }

    /// The registry after the connection called `id` was found dead.
    pub open spec fn close(self, id: u64) -> RegistryView {
        RegistryView { peers: shut_all(self.peers, id), ..self }
    }

    /// The registry after the dead entries have been removed.
    pub open spec fn prune(self) -> RegistryView {
        RegistryView { peers: live_of(self.peers), ..self }
    }
}

/// A broadcast, planned: the frame to write, and the connections to write it
/// to.  Each write is an attempt of its own; none waits for another.
#[derive(Debug, PartialEq, Eq)]
pub struct Broadcast {
    pub frame: Vec<u8>,
    pub targets: Vec<u64>,
}

/// The connections a server knows.
pub struct Registry {
    peers: Vec<Peer>,
    next_id: u64,
}

impl View for Registry {
    type V = RegistryView;

    closed spec fn view(&self) -> RegistryView {
        RegistryView { peers: self.peers@, next_id: self.next_id }
    }
}

/// Adding an entry at the end adds its identity to the live ones if it is
/// live, and changes nothing otherwise.
pub proof fn lemma_live_ids_push(peers: Seq<Peer>, peer: Peer)
    ensures
        live_ids_of(peers.push(peer)) == if peer.connected {
            live_ids_of(peers).push(peer.id)
        } else {
            live_ids_of(peers)
        },
        live_of(peers.push(peer)) == if peer.connected {
            live_of(peers).push(peer)
        } else {
            live_of(peers)
        },
{
    reveal(Seq::filter);
    assert(peers.push(peer).drop_last() == peers);
    assert(live_ids_of(peers) + seq![peer.id] == live_ids_of(peers).push(peer.id));
}

/// A live identity belongs to a live entry, and the other way round.
pub proof fn lemma_live_ids_contains(peers: Seq<Peer>, id: u64)
    ensures
        live_ids_of(peers).contains(id) <==> exists|i: int|
            0 <= i < peers.len() && (#[trigger] peers[i]).id == id && peers[i].connected,
    decreases peers.len(),
{
    if peers.len() > 0 {
        let front = peers.drop_last();
        let last = peers.last();
        lemma_live_ids_contains(front, id);
        assert(peers == front.push(last));
        lemma_live_ids_push(front, last);
        if live_ids_of(peers).contains(id) {
            if last.connected && last.id == id {
                assert(peers[peers.len() - 1].id == id);
            } else {
                let k = choose|k: int| 0 <= k < live_ids_of(peers).len() && live_ids_of(peers)[k] == id;
                assert(live_ids_of(front)[k] == id);
                let i = choose|i: int|
                    0 <= i < front.len() && (#[trigger] front[i]).id == id && front[i].connected;
                assert(peers[i] == front[i]);
            }
        }
        if exists|i: int|
            0 <= i < peers.len() && (#[trigger] peers[i]).id == id && peers[i].connected {
            let i = choose|i: int|
                0 <= i < peers.len() && (#[trigger] peers[i]).id == id && peers[i].connected;
            if i < front.len() {
                assert(front[i] == peers[i]);
                let k = choose|k: int| 0 <= k < live_ids_of(front).len() && live_ids_of(front)[k] == id;
                assert(live_ids_of(peers)[k] == id);
            } else {
                assert(live_ids_of(peers).last() == id);
            }
        }
    }
}

impl Registry {
    /// Every registry is well formed, at all times.
    #[verifier::type_invariant]
    pub open spec fn ordered(&self) -> bool {
        self@.wf()
    }

    /// An empty registry.
    pub fn new() -> (registry: Registry)
        ensures
            registry@ == RegistryView::empty(),
            registry@.wf(),
    {
        Registry { peers: Vec::new(), next_id: 0 }
    }

    /// How many entries the registry holds, dead ones not yet pruned
    /// included.
    pub fn len(&self) -> (count: usize)
        ensures
            count == self@.peers.len(),
            self@.wf(),
    {
        proof {
            use_type_invariant(self);
        }
        self.peers.len()
    }

    /// Registers one more connection as live and returns the identity it
    /// goes by from now on.  The identity is new: no entry has it, and none
    /// ever had.  `None`, with nothing changed, only when all identities
    /// have been handed out.
    pub fn register(&mut self) -> (id: Option<u64>)
        ensures
            final(self)@.wf(),
            match id {
                Some(id) => {
                    &&& old(self)@.next_id < u64::MAX
                    &&& id == old(self)@.next_id
                    &&& final(self)@ == old(self)@.register()
                },
                None => old(self)@.next_id == u64::MAX && final(self)@ == old(self)@,
            },
    {
        proof {
            use_type_invariant(&*self);
        }
        if self.next_id == u64::MAX {
            return None;
        }
        let id: u64 = self.next_id;
        let ghost before = self@;
        let mut peers: Vec<Peer> = Vec::new();
        core::mem::swap(&mut self.peers, &mut peers);
        peers.push(Peer { id, connected: true });
        self.next_id = id + 1;
        assert(peers@ == before.peers.push(Peer { id, connected: true }));
        assert forall|i: int, j: int| 0 <= i < j < peers@.len() implies (#[trigger] peers@[i]).id
            < (#[trigger] peers@[j]).id by {
            assert(peers@[i] == before.peers[i]);
            if j < before.peers.len() {
                assert(peers@[j] == before.peers[j]);
            }
        }
        self.peers = peers;
        Some(id)
    }

    /// The identities of the live connections, each once, in the order of
    /// registration.
    pub fn targets(&self) -> (ids: Vec<u64>)
        ensures
            ids@ == self@.live_ids(),
    {
        let mut ids: Vec<u64> = Vec::new();
        let mut i: usize = 0;
        assert(self.peers@.take(0) == Seq::<Peer>::empty());
        while i < self.peers.len()
            invariant
                i <= self.peers@.len(),
                ids@ == live_ids_of(self.peers@.take(i as int)),
            decreases self.peers@.len() - i,
        {
            let peer: Peer = self.peers[i];
            proof {
                lemma_live_ids_push(self.peers@.take(i as int), peer);
                assert(self.peers@.take(i as int).push(peer) == self.peers@.take(i + 1));
            }
            if peer.connected {
                ids.push(peer.id);
            }
            i += 1;
        }
        assert(self.peers@.take(i as int) == self.peers@);
        ids
    }

    /// Plans the broadcast of `event`: one frame, and one delivery attempt
    /// for every live connection.  `None`, with nobody to write to, when the
    /// payload is too long for a frame.
    pub fn broadcast(&self, event: &Event) -> (plan: Option<Broadcast>)
        ensures
            match plan {
                Some(plan) => {
                    &&& encodable(event@)
                    &&& plan.frame@ == frame_of(event@)
                    &&& plan.targets@ == self@.live_ids()
                },
                None => !encodable(event@),
            },
    {
        match encode(event) {
            Some(frame) => Some(Broadcast { frame, targets: self.targets() }),
            None => None,
        }
    }

    /// Marks the connection called `id` as dead, so that no later broadcast
    /// goes to it.  Every other entry is left as it is.
    pub fn close(&mut self, id: u64)
        ensures
            final(self)@ == old(self)@.close(id),
            final(self)@.wf(),
    {
        proof {
            use_type_invariant(&*self);
        }
        let ghost before = self.peers@;
        let mut peers: Vec<Peer> = Vec::new();
        core::mem::swap(&mut self.peers, &mut peers);
        let mut i: usize = 0;
        while i < peers.len()
            invariant
                i <= peers@.len() == before.len(),
                forall|k: int| 0 <= k < i ==> peers@[k] == shut(#[trigger] before[k], id),
                forall|k: int| i <= k < before.len() ==> peers@[k] == #[trigger] before[k],
            decreases peers@.len() - i,
        {
            if peers[i].id == id {
                peers.set(i, Peer { id, connected: false });
            }
            i += 1;
        }
        assert(peers@ == old(self)@.close(id).peers);
        self.peers = peers;
    }

    /// Removes the entries marked dead and says how many there were.  The
    /// live entries keep their identities and their order.
    pub fn prune(&mut self) -> (removed: usize)
        ensures
            final(self)@ == old(self)@.prune(),
            final(self)@.wf(),
            removed == old(self)@.peers.len() - final(self)@.peers.len(),
    {
        proof {
            use_type_invariant(&*self);
        }
        let ghost before = self.peers@;
        let mut all: Vec<Peer> = Vec::new();
        core::mem::swap(&mut self.peers, &mut all);
        let mut kept: Vec<Peer> = Vec::new();
        let mut i: usize = 0;
        assert(all@.take(0) == Seq::<Peer>::empty());
        proof {
            reveal(Seq::filter);
        }
        while i < all.len()
            invariant
                all@ == before,
                i <= all@.len(),
                kept@ == live_of(all@.take(i as int)),
                kept@.len() <= i,
            decreases all@.len() - i,
        {
            let peer: Peer = all[i];
            proof {
                lemma_live_ids_push(all@.take(i as int), peer);
                assert(all@.take(i as int).push(peer) == all@.take(i + 1));
            }
            if peer.connected {
                kept.push(peer);
            }
            i += 1;
        }
        assert(all@.take(i as int) == all@);
        proof {
            lemma_prune_keeps_order(old(self)@);
        }
        let removed: usize = all.len() - kept.len();
        self.peers = kept;
        removed
    }
}

/// Every entry that survives pruning is live and was an entry before.
pub proof fn lemma_live_members(peers: Seq<Peer>, k: int)
    requires
        0 <= k < live_of(peers).len(),
    ensures
        live_of(peers)[k].connected,
        exists|a: int| 0 <= a < peers.len() && #[trigger] peers[a] == live_of(peers)[k],
    decreases peers.len(),
{
    reveal(Seq::filter);
    if peers.len() > 0 {
        let front = peers.drop_last();
        if peers.last().connected && k == live_of(peers).len() - 1 {
            assert(peers[peers.len() - 1] == live_of(peers)[k]);
        } else {
            lemma_live_members(front, k);
            let a = choose|a: int| 0 <= a < front.len() && #[trigger] front[a] == live_of(front)[k];
            assert(peers[a] == live_of(peers)[k]);
        }
    }
}

/// Pruning keeps a registry well formed.
pub proof fn lemma_prune_keeps_order(registry: RegistryView)
    requires
        registry.wf(),
    ensures
        registry.prune().wf(),
    decreases registry.peers.len(),
{
    reveal(Seq::filter);
    let peers = registry.peers;
    let kept = live_of(peers);
    assert forall|i: int| 0 <= i < kept.len() implies (#[trigger] kept[i]).id
        < registry.next_id by {
        lemma_live_members(peers, i);
    }
    if peers.len() > 0 {
        let front = peers.drop_last();
        let last = peers.last();
        let shorter = RegistryView { peers: front, ..registry };
        assert forall|i: int, j: int| 0 <= i < j < front.len() implies (#[trigger] front[i]).id < (
        #[trigger] front[j]).id by {
            assert(front[i] == peers[i] && front[j] == peers[j]);
        }
        assert forall|i: int| 0 <= i < front.len() implies (#[trigger] front[i]).id
            < registry.next_id by {
            assert(front[i] == peers[i]);
        }
        lemma_prune_keeps_order(shorter);
        assert forall|i: int, j: int| 0 <= i < j < kept.len() implies (#[trigger] kept[i]).id < (
        #[trigger] kept[j]).id by {
            if last.connected && j == kept.len() - 1 {
                lemma_live_members(front, i);
                let a = choose|a: int|
                    0 <= a < front.len() && #[trigger] front[a] == live_of(front)[i];
                assert(peers[a].id < peers[peers.len() - 1].id);
            } else {
                assert(shorter.prune().peers[i].id < shorter.prune().peers[j].id);
            }
        }
    }
}

/// The identities that stay live after pruning are in growing order, so
/// none occurs twice among them.
pub proof fn lemma_targets_distinct(registry: RegistryView)
    requires
        registry.wf(),
    ensures
        forall|i: int, j: int|
            0 <= i < j < registry.live_ids().len() ==> registry.live_ids()[i]
                < registry.live_ids()[j],
        registry.live_ids().no_duplicates(),
{
    lemma_prune_keeps_order(registry);
    lemma_live_ids_of_live(registry.peers);
    assert forall|i: int, j: int| 0 <= i < j < registry.live_ids().len() implies registry.live_ids()[i]
        < registry.live_ids()[j] by {
        assert(registry.prune().peers[i].id < registry.prune().peers[j].id);
    }
}

/// The live identities are the identities of the live entries, one for one.
pub proof fn lemma_live_ids_of_live(peers: Seq<Peer>)
    ensures
        live_ids_of(peers).len() == live_of(peers).len(),
        forall|k: int| 0 <= k < live_of(peers).len() ==> live_ids_of(peers)[k] == (
        #[trigger] live_of(peers)[k]).id,
        live_ids_of(live_of(peers)) == live_ids_of(peers),
    decreases peers.len(),
{
    reveal(Seq::filter);
    if peers.len() > 0 {
        let front = peers.drop_last();
        let last = peers.last();
        assert(peers == front.push(last));
        lemma_live_ids_of_live(front);
        lemma_live_ids_push(front, last);
        if last.connected {
            lemma_live_ids_push(live_of(front), last);
        }
    }
}

/// After `count` connections have been registered with a new registry, a
/// broadcast goes to exactly `count` targets, the identities `0` to
/// `count - 1`, each once.
pub proof fn lemma_fan_out(count: nat)
    requires
        count <= u64::MAX,
    ensures
        RegistryView::empty().register_many(count).wf(),
        RegistryView::empty().register_many(count).next_id == count,
        RegistryView::empty().register_many(count).live_ids() == Seq::new(
            count,
            |i: int| i as u64,
        ),
    decreases count,
{
    let registry = RegistryView::empty().register_many(count);
    if count == 0 {
        assert(registry.live_ids() == Seq::<u64>::empty());
    } else {
        let before = RegistryView::empty().register_many((count - 1) as nat);
        lemma_fan_out((count - 1) as nat);
        lemma_register_adds_target(before);
    }
}

/// Registering a connection adds one target, the new identity, behind those
/// that were there, and keeps the registry well formed.
pub proof fn lemma_register_adds_target(registry: RegistryView)
    requires
        registry.wf(),
        registry.next_id < u64::MAX,
    ensures
        registry.register().wf(),
        registry.register().live_ids() == registry.live_ids().push(registry.next_id),
        !registry.live_ids().contains(registry.next_id),
{
    let peer = Peer { id: registry.next_id, connected: true };
    lemma_live_ids_push(registry.peers, peer);
    lemma_live_ids_contains(registry.peers, registry.next_id);
    let after = registry.register().peers;
    assert forall|i: int, j: int| 0 <= i < j < after.len() implies (#[trigger] after[i]).id < (
    #[trigger] after[j]).id by {
        assert(after[i] == registry.peers[i]);
        if j < registry.peers.len() {
            assert(after[j] == registry.peers[j]);
        }
    }
}

/// A failure stays with the connection it happened on: once the connection
/// called `id` is marked dead, a broadcast goes to every other target it
/// went to before, in the same order, and not to `id`.
pub proof fn lemma_close_is_local(registry: RegistryView, id: u64)
    requires
        registry.wf(),
    ensures
        registry.close(id).wf(),
        registry.close(id).live_ids() == without(registry.live_ids(), id),
        !registry.close(id).live_ids().contains(id),
        forall|other: u64|
            other != id ==> (registry.close(id).live_ids().contains(other)
                <==> registry.live_ids().contains(other)),
{
    lemma_shut_all(registry.peers, id);
    let closed = registry.close(id);
    assert forall|other: u64| other != id implies (closed.live_ids().contains(other)
        <==> registry.live_ids().contains(other)) by {
        lemma_live_ids_contains(registry.peers, other);
        lemma_live_ids_contains(closed.peers, other);
        if registry.live_ids().contains(other) {
            let i = choose|i: int|
                0 <= i < registry.peers.len() && (#[trigger] registry.peers[i]).id == other
                    && registry.peers[i].connected;
            assert(closed.peers[i] == registry.peers[i]);
        }
        if closed.live_ids().contains(other) {
            let i = choose|i: int|
                0 <= i < closed.peers.len() && (#[trigger] closed.peers[i]).id == other
                    && closed.peers[i].connected;
            assert(closed.peers[i] == registry.peers[i]);
        }
    }
    lemma_live_ids_contains(closed.peers, id);
    assert forall|i: int, j: int| 0 <= i < j < closed.peers.len() implies (
    #[trigger] closed.peers[i]).id < (#[trigger] closed.peers[j]).id by {
        assert(registry.peers[i].id < registry.peers[j].id);
    }
    assert forall|i: int| 0 <= i < closed.peers.len() implies (#[trigger] closed.peers[i]).id
        < closed.next_id by {
        assert(registry.peers[i].id < registry.next_id);
    }
}

/// Marking one identity dead among `peers` takes it, and nothing else, out
/// of the live identities.
proof fn lemma_shut_all(peers: Seq<Peer>, id: u64)
    ensures
        live_ids_of(shut_all(peers, id)) == without(live_ids_of(peers), id),
    decreases peers.len(),
{
    reveal(Seq::filter);
    if peers.len() == 0 {
        assert(shut_all(peers, id) == Seq::<Peer>::empty());
    } else {
        let front = peers.drop_last();
        let last = peers.last();
        assert(peers == front.push(last));
        lemma_shut_all(front, id);
        assert(shut_all(peers, id) == shut_all(front, id).push(shut(last, id)));
        lemma_live_ids_push(front, last);
        lemma_live_ids_push(shut_all(front, id), shut(last, id));
        if last.connected {
            assert(live_ids_of(front).push(last.id).drop_last() == live_ids_of(front));
        }
    }
}

/// Pruning changes no broadcast: the targets are the same before and after,
/// and every entry left is one of them.
pub proof fn lemma_prune_keeps_targets(registry: RegistryView)
    requires
        registry.wf(),
    ensures
        registry.prune().wf(),
        registry.prune().live_ids() == registry.live_ids(),
        registry.prune().peers.len() == registry.live_ids().len(),
        forall|k: int|
            0 <= k < registry.prune().peers.len() ==> (#[trigger] registry.prune().peers[k])
                == (Peer { id: registry.live_ids()[k], connected: true }),
{
    lemma_prune_keeps_order(registry);
    lemma_live_ids_of_live(registry.peers);
    assert forall|k: int| 0 <= k < registry.prune().peers.len() implies (
    #[trigger] registry.prune().peers[k]) == (Peer {
        id: registry.live_ids()[k],
        connected: true,
    }) by {
        lemma_live_members(registry.peers, k);
    }
}

/// A connection that was found dead is absent from every later broadcast:
/// whatever is registered, marked or pruned afterwards, its identity does
/// not come back among the targets.
pub proof fn lemma_closed_stays_out(registry: RegistryView, id: u64, other: u64)
    requires
        registry.wf(),
        id < registry.next_id,
        !registry.live_ids().contains(id),
    ensures
        !registry.register().live_ids().contains(id),
        !registry.close(other).live_ids().contains(id),
        !registry.prune().live_ids().contains(id),
        id < registry.register().next_id || registry.next_id == u64::MAX,
{
    lemma_live_ids_push(registry.peers, Peer { id: registry.next_id, connected: true });
    lemma_close_is_local(registry, other);
    lemma_prune_keeps_targets(registry);
    let grown = registry.live_ids().push(registry.next_id);
    if grown.contains(id) {
        let k = choose|k: int| 0 <= k < grown.len() && grown[k] == id;
        assert(registry.live_ids()[k] == id);
    }
}

} // verus!
