//! The server's bookkeeping: which connections it serves, what they have
//! sent that nobody has looked at yet, and whether it still accepts.
//!
//! A [`TcpServer`] owns one [`Registry`] and one [`EventBus`].  The accept
//! loop tells it what the listener produced and is told what to do next; the
//! task serving a connection hands over what the connection heard; the
//! dispatcher empties the bus; and a broadcast is planned against the
//! registry as it stands at that moment.
use crate::bus::{EventBus, EventBusView};
use crate::client::{Client, ClientView, ListenState};
use crate::codec::{encodable, frame_of};
use crate::models::{classify, Event, EventType, EventTypeView, EventView};
use crate::registry::{lemma_close_is_local, lemma_fan_out, lemma_prune_keeps_targets};
use crate::registry::{Broadcast, Registry, RegistryView};
use vstd::prelude::*;

verus! {

/// What the listener produced when asked for the next connection.
#[derive(Debug, Clone, Copy, PartialEq, Eq)]
pub enum Accepted {
    /// A peer has connected.
    Connection,
    /// This one attempt failed; the listener itself is sound.
    Failed,
    /// The listener is gone and will accept nothing more.
    ListenerLost,
}

/// What the accept loop does next.
pub enum AcceptStep {
    /// Serve the new connection under this identity, starting from this
    /// state, in a task of its own; then accept again.
    Serve(u64, Client),
    /// Nothing to serve; accept again.
    Continue,
    /// Stop accepting.  Connections already served run on until they end.
    Stop,
}

/// The mathematical counterpart of [`AcceptStep`].
pub enum AcceptStepView {
    Serve(u64, ClientView),
    Continue,
    Stop,
}

impl View for AcceptStep {
    type V = AcceptStepView;

    open spec fn view(&self) -> AcceptStepView {
        match self {
            AcceptStep::Serve(id, client) => AcceptStepView::Serve(*id, client@),
            AcceptStep::Continue => AcceptStepView::Continue,
            AcceptStep::Stop => AcceptStepView::Stop,
        }
    }
}

/// The kinds of event a consumer can ask for by name.
#[derive(Debug, Clone, Copy, PartialEq, Eq)]
pub enum EventKind {
    Hello,
    Heartbeat,
}

/// `event` is of the kind `kind`.
pub open spec fn is_kind(kind: EventKind, event: EventTypeView) -> bool {
    match kind {
        EventKind::Hello => event is Hello,
        EventKind::Heartbeat => event is Heartbeat,
    }
}

/// The tagged forms of `events`, one for one.
pub open spec fn classified(events: Seq<EventView>) -> Seq<EventTypeView> {
    events.map_values(|event: EventView| classify(event))
}

/// Those of `events` that are of the kind `kind`, in order.
pub open spec fn of_kind(events: Seq<EventTypeView>, kind: EventKind) -> Seq<EventTypeView> {
    events.filter(|event: EventTypeView| is_kind(kind, event))
}

/// Those of `events` that are of no known kind, in order.
pub open spec fn unknown_among(events: Seq<EventTypeView>) -> Seq<EventTypeView> {
    events.filter(|event: EventTypeView| event is Unknown)
}

/// What the dispatcher found when it looked for events of one kind: those
/// of that kind, and those of no known kind, each in the order they were
/// published.  Events of another known kind are taken off the bus and left
/// out.
#[derive(Debug, PartialEq, Eq)]
pub struct Selected {
    pub matching: Vec<EventType>,
    pub unknown: Vec<EventType>,
}

/// What a [`TcpServer`] is, mathematically.
pub struct ServerView {
    pub registry: RegistryView,
    pub bus: EventBusView,
    pub accepting: bool,
}

impl ServerView {
    /// A server that has just been made, with room for `capacity` events on
    /// its bus.
    pub open spec fn fresh(capacity: nat) -> ServerView {
        ServerView {
            registry: RegistryView::empty(),
            bus: EventBusView { queue: Seq::empty(), capacity },
            accepting: true,
        }
    }

    /// What the accept loop does on `accepted`.
    ///
    /// A new connection is registered and served, unless the server has
    /// stopped accepting or has no identity left to give, in which case the
    /// connection is not served.  A failed attempt changes nothing.  The
    /// loss of the listener stops the loop for good.
    pub open spec fn start(self, accepted: Accepted) -> (ServerView, AcceptStepView) {
        if !self.accepting {
            (self, AcceptStepView::Stop)
        } else {
            match accepted {
                Accepted::Connection => if self.registry.next_id < u64::MAX {
                    (
                        ServerView { registry: self.registry.register(), ..self },
                        AcceptStepView::Serve(
                            self.registry.next_id,
                            ClientView { buffer: Seq::empty(), reading: true, write_failed: false },
                        ),
                    )
                } else {
                    (self, AcceptStepView::Continue)
                },
                Accepted::Failed => (self, AcceptStepView::Continue),
                Accepted::ListenerLost => (
                    ServerView { accepting: false, ..self },
                    AcceptStepView::Stop,
                ),
            }
        }
    }

    /// The server after the listener produced `count` connections in a row.
    pub open spec fn accept_many(self, count: nat) -> ServerView
        decreases count,
    {
        if count == 0 {
            self
        } else {
            self.accept_many((count - 1) as nat).start(Accepted::Connection).0
        }
    }

    /// How many of `count` events offered in turn the bus takes: all of
    /// them, or as many as there is room for.
    pub open spec fn room_for(self, count: nat) -> nat {
        if self.bus.queue.len() + count <= self.bus.capacity {
            count
        } else if self.bus.queue.len() <= self.bus.capacity {
            (self.bus.capacity - self.bus.queue.len()) as nat
        } else {
            0
        }
    }

    /// The server after the task serving the connection `id` handed over
    /// `events` and the state of its stream.
    ///
    /// The events are queued in order as far as the bus has room.  A stream
    /// that is no longer open takes its connection out of the registry.
    pub open spec fn handle_client(
        self,
        id: u64,
        events: Seq<EventView>,
        state: ListenState,
    ) -> ServerView {
        ServerView {
            registry: if state == ListenState::Open {
                self.registry
            } else {
                self.registry.close(id).prune()
            },
            bus: EventBusView {
                queue: self.bus.queue + events.take(self.room_for(events.len()) as int),
                ..self.bus
            },
            ..self
        }
    }
}

/// The server's state.
pub struct TcpServer {
    registry: Registry,
    bus: EventBus,
    accepting: bool,
}

impl View for TcpServer {
    type V = ServerView;

    closed spec fn view(&self) -> ServerView {
        ServerView { registry: self.registry@, bus: self.bus@, accepting: self.accepting }
    }
}

impl TcpServer {
    /// A server with no connections, an empty bus for up to `capacity`
    /// events, and a mind to accept.
    pub fn new(capacity: usize) -> (server: TcpServer)
        ensures
            server@ == ServerView::fresh(capacity as nat),
            server@.registry.wf(),
    {
        TcpServer { registry: Registry::new(), bus: EventBus::new(capacity), accepting: true }
    }

    /// One turn of the accept loop: takes what the listener produced and
    /// says what to do about it.
    pub fn start(&mut self, accepted: Accepted) -> (step: AcceptStep)
        ensures
            (final(self)@, step@) == old(self)@.start(accepted),
            final(self)@.registry.wf(),
    {
        proof {
            use_type_invariant(&self.registry);
        }
        if !self.accepting {
            return AcceptStep::Stop;
        }
        match accepted {
            Accepted::Connection => match self.register_client() {
                Some(id) => AcceptStep::Serve(id, Client::new()),
                None => AcceptStep::Continue,
            },
            Accepted::Failed => AcceptStep::Continue,
            Accepted::ListenerLost => {
                self.accepting = false;
                AcceptStep::Stop
            },
        }
    }

    /// Enters a new connection in the registry and returns its identity, or
    /// `None`, with nothing changed, when no identity is left to give.
    pub fn register_client(&mut self) -> (id: Option<u64>)
        ensures
            final(self)@.registry.wf(),
            match id {
                Some(id) => {
                    &&& old(self)@.registry.next_id < u64::MAX
                    &&& id == old(self)@.registry.next_id
                    &&& final(self)@ == (ServerView {
                        registry: old(self)@.registry.register(),
                        ..old(self)@
                    })
                },
                None => old(self)@.registry.next_id == u64::MAX && final(self)@ == old(self)@,
            },
    {
        self.registry.register()
    }

    /// Takes what the connection `id` heard on one read: queues the events
    /// on the bus, in order, as far as there is room, and takes the
    /// connection out of the registry if its stream is no longer open.
    ///
    /// Returns how many events were queued.  The caller keeps the others
    /// and hands them in again, before anything newer, once the dispatcher
    /// has made room.
    pub fn handle_client(&mut self, id: u64, events: &[Event], state: ListenState) -> (queued:
        usize)
        ensures
            queued == old(self)@.room_for(events@.len()),
            final(self)@ == old(self)@.handle_client(id, events.deep_view(), state),
            final(self)@.registry.wf(),
    {
        let ghost before = self@;
        let ghost offered = events.deep_view();
        let waiting: usize = self.bus.len();
        let mut queued: usize = 0;
        let mut room: bool = true;
        assert(before.bus.queue + offered.take(0) == before.bus.queue);
        while room && queued < events.len()
            invariant
                queued <= events@.len(),
                offered == events.deep_view(),
                waiting == before.bus.queue.len(),
                self.registry@ == before.registry,
                self.accepting == before.accepting,
                self.bus@ == (EventBusView {
                    queue: before.bus.queue + offered.take(queued as int),
                    ..before.bus
                }),
                waiting + queued <= before.bus.capacity,
                !room ==> waiting + queued == before.bus.capacity,
            decreases events@.len() - queued, if room { 1int } else { 0int },
        {
            let ghost so_far = self.bus@.queue;
            match self.bus.publish(events[queued].clone()) {
                Ok(_) => {
                    assert(so_far.push(offered[queued as int]) == before.bus.queue + offered.take(
                        queued + 1,
                    ));
                    queued += 1;
                },
                Err(_) => {
                    room = false;
                },
            }
        }
        match state {
            ListenState::Open => {
                proof {
                    use_type_invariant(&self.registry);
                }
            },
            _ => {
                self.registry.close(id);
                let _ = self.registry.prune();
            },
        }
        queued
    }

    /// Plans the broadcast of `event` to every live connection: the frame,
    /// and one delivery attempt per connection.  The attempts are made by
    /// the caller, independently of one another; one that fails is reported
    /// with [`TcpServer::drop_client`] and holds up nothing else.  `None`
    /// when the payload is too long for a frame.
    pub fn broadcast_event(&self, event: &Event) -> (plan: Option<Broadcast>)
        ensures
            match plan {
                Some(plan) => {
                    &&& encodable(event@)
                    &&& plan.frame@ == frame_of(event@)
                    &&& plan.targets@ == self@.registry.live_ids()
                },
                None => !encodable(event@),
            },
    {
        self.registry.broadcast(event)
    }

    /// Takes the connection `id` out of the registry, after a write to it
    /// failed or its stream ended.  No later broadcast goes to it.
    pub fn drop_client(&mut self, id: u64)
        ensures
            final(self)@ == (ServerView {
                registry: old(self)@.registry.close(id).prune(),
                ..old(self)@
            }),
            final(self)@.registry.wf(),
    {
        self.registry.close(id);
        let _ = self.registry.prune();
    }

    /// Empties the bus for the dispatcher: every event that was waiting,
    /// in the order of publication.
    pub fn listen_events(&mut self) -> (events: Vec<Event>)
        ensures
            events.deep_view() == old(self)@.bus.queue,
            final(self)@ == (ServerView { bus: old(self)@.bus.drained(), ..old(self)@ }),
    {
        self.bus.drain()
    }

    /// Empties the bus for a dispatcher that cares for one kind of event:
    /// every waiting event is told apart by its opcode, those of the kind
    /// asked for are returned, and so are those of no known kind, for the
    /// caller to report.
    pub fn listen_event(&mut self, kind: EventKind) -> (selected: Selected)
        ensures
            selected.matching.deep_view() == of_kind(classified(old(self)@.bus.queue), kind),
            selected.unknown.deep_view() == unknown_among(classified(old(self)@.bus.queue)),
            final(self)@ == (ServerView { bus: old(self)@.bus.drained(), ..old(self)@ }),
    {
        let events = self.bus.drain();
        let ghost kinds = classified(events.deep_view());
        let mut matching: Vec<EventType> = Vec::new();
        let mut unknown: Vec<EventType> = Vec::new();
        let mut i: usize = 0;
        proof {
            reveal(Seq::filter);
            assert(kinds.take(0) == Seq::<EventTypeView>::empty());
            assert(matching.deep_view() == Seq::<EventTypeView>::empty());
            assert(unknown.deep_view() == Seq::<EventTypeView>::empty());
        }
        while i < events.len()
            invariant
                i <= events@.len(),
                kinds == classified(events.deep_view()),
                matching.deep_view() == of_kind(kinds.take(i as int), kind),
                unknown.deep_view() == unknown_among(kinds.take(i as int)),
            decreases events@.len() - i,
        {
            let ghost matched = matching.deep_view();
            let ghost unmatched = unknown.deep_view();
            let tagged = EventType::from_event(&events[i]);
            proof {
                reveal(Seq::filter);
                assert(tagged@ == kinds[i as int]);
                assert(kinds.take(i + 1).drop_last() == kinds.take(i as int));
            }
            match tagged {
                EventType::Hello(_) => {
                    if let EventKind::Hello = kind {
                        matching.push(tagged);
                        assert(matching.deep_view() == matched.push(kinds[i as int]));
                    }
                },
                EventType::Heartbeat(_) => {
                    if let EventKind::Heartbeat = kind {
                        matching.push(tagged);
                        assert(matching.deep_view() == matched.push(kinds[i as int]));
                    }
                },
                EventType::Unknown(_, _) => {
                    unknown.push(tagged);
                    assert(unknown.deep_view() == unmatched.push(kinds[i as int]));
                },
            }
            i += 1;
        }
        assert(kinds.take(i as int) == kinds);
        Selected { matching, unknown }
    }
}

/// A new server that has accepted `count` connections plans a broadcast to
/// exactly `count` targets, one per connection.
pub proof fn lemma_accepted_are_targets(capacity: nat, count: nat)
    requires
        count <= u64::MAX,
    ensures
        ServerView::fresh(capacity).accept_many(count).registry
            == RegistryView::empty().register_many(count),
        ServerView::fresh(capacity).accept_many(count).accepting,
        ServerView::fresh(capacity).accept_many(count).registry.live_ids().len() == count,
        ServerView::fresh(capacity).accept_many(count).registry.live_ids().no_duplicates(),
    decreases count,
{
    lemma_fan_out(count);
    if count > 0 {
        lemma_accepted_are_targets(capacity, (count - 1) as nat);
        lemma_fan_out((count - 1) as nat);
    }
    let ids = Seq::new(count, |i: int| i as u64);
    assert forall|i: int, j: int| 0 <= i < ids.len() && 0 <= j < ids.len() && i != j implies ids[i]
        != ids[j] by {}
}

/// Once the task serving a connection has handed in a stream that is no
/// longer open, no broadcast goes to that connection, while every other
/// connection is a target exactly as before.
pub proof fn lemma_ended_is_not_target(
    server: ServerView,
    id: u64,
    events: Seq<EventView>,
    state: ListenState,
)
    requires
        server.registry.wf(),
        state != ListenState::Open,
    ensures
        server.handle_client(id, events, state).registry.wf(),
        !server.handle_client(id, events, state).registry.live_ids().contains(id),
        forall|other: u64|
            other != id ==> (server.handle_client(id, events, state).registry.live_ids().contains(
                other,
            ) <==> server.registry.live_ids().contains(other)),
{
    lemma_close_is_local(server.registry, id);
    lemma_prune_keeps_targets(server.registry.close(id));
}

} // verus!
