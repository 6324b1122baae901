//! The bounded queue that merges the events of all connections.
//!
//! Every receive loop publishes into the one bus; one dispatcher takes events
//! off it, oldest first.  The bus holds at most `capacity` events.  When it
//! is full it neither drops nor overwrites: `publish` hands the event back,
//! and the producer keeps it and tries again once the dispatcher has made
//! room.  A slow dispatcher therefore slows every producer down, and no
//! event is lost or overtaken on the way.
use crate::models::{Event, EventView};
use std::collections::VecDeque;
use vstd::prelude::*;

verus! {

/// The capacity a server gives its bus unless told otherwise.
pub const DEFAULT_CAPACITY: usize = 100;

/// What an [`EventBus`] is, mathematically: the queued events, oldest
/// first, and how many it may hold.
pub struct EventBusView {
    pub queue: Seq<EventView>,
    pub capacity: nat,
}

impl EventBusView {
    /// No more events fit.
    pub open spec fn full(self) -> bool {
        self.queue.len() >= self.capacity
    }

    /// The bus after `event` was offered: behind all that is queued if there
    /// is room, unchanged if there is none.
    pub open spec fn publish(self, event: EventView) -> EventBusView {
        if self.full() {
            self
        } else {
            EventBusView { queue: self.queue.push(event), ..self }
        }
    }

    /// The bus after each of `events` was offered in turn.
    pub open spec fn publish_all(self, events: Seq<EventView>) -> EventBusView
        decreases events.len(),
    {
        if events.len() == 0 {
            self
        } else {
            self.publish_all(events.drop_last()).publish(events.last())
        }
    }

    /// The bus after the dispatcher took one event, if there was one.
    pub open spec fn dispatch(self) -> EventBusView {
        if self.queue.len() == 0 {
            self
        } else {
            EventBusView { queue: self.queue.skip(1), ..self }
        }
    }

    /// The bus after the dispatcher took all there was.
    pub open spec fn drained(self) -> EventBusView {
        EventBusView { queue: Seq::empty(), ..self }
    }
}

/// A bounded first-in, first-out queue of events.
pub struct EventBus {
    queue: VecDeque<Event>,
    capacity: usize,
}

impl View for EventBus {
    type V = EventBusView;

    closed spec fn view(&self) -> EventBusView {
        EventBusView { queue: self.queue.deep_view(), capacity: self.capacity as nat }
    }
}

impl EventBus {
    #[verifier::type_invariant]
    spec fn bounded(&self) -> bool {
        self.queue@.len() <= self.capacity
    }

    /// An empty bus that holds up to `capacity` events.
    pub fn new(capacity: usize) -> (bus: EventBus)
        ensures
            bus@ == (EventBusView { queue: Seq::empty(), capacity: capacity as nat }),
    {
        let bus = EventBus { queue: VecDeque::new(), capacity };
        assert(bus.queue.deep_view() == Seq::<EventView>::empty());
        bus
    }

    /// How many events are waiting.  Never more than the capacity.
    pub fn len(&self) -> (count: usize)
        ensures
            count == self@.queue.len(),
            count <= self@.capacity,
    {
        proof {
            use_type_invariant(self);
        }
        self.queue.len()
    }

    /// Offers `event` to the bus.  With room left it is queued behind all
    /// that is waiting.  On a full bus nothing changes and the event comes
    /// back as `Err`, for the producer to offer again later.
    pub fn publish(&mut self, event: Event) -> (outcome: Result<(), Event>)
        ensures
            final(self)@ == old(self)@.publish(event@),
            match outcome {
                Ok(_) => !old(self)@.full(),
                Err(back) => old(self)@.full() && back == event,
            },
    {
        proof {
            use_type_invariant(&*self);
        }
        if self.queue.len() >= self.capacity {
            return Err(event);
        }
        let ghost before = self.queue.deep_view();
        let mut queue: VecDeque<Event> = VecDeque::new();
        core::mem::swap(&mut self.queue, &mut queue);
        queue.push_back(event);
        assert(queue.deep_view() == before.push(event@));
        self.queue = queue;
        Ok(())
    }

    /// Takes the oldest event off the bus, or returns `None` when nothing
    /// is waiting.
    pub fn dispatch(&mut self) -> (next: Option<Event>)
        ensures
            final(self)@ == old(self)@.dispatch(),
            match next {
                Some(event) => old(self)@.queue.len() > 0 && event@ == old(self)@.queue[0],
                None => old(self)@.queue.len() == 0,
            },
    {
        proof {
            use_type_invariant(&*self);
        }
        let ghost before = self.queue.deep_view();
        let mut queue: VecDeque<Event> = VecDeque::new();
        core::mem::swap(&mut self.queue, &mut queue);
        let next = queue.pop_front();
        assert(queue.deep_view() == if before.len() == 0 {
            before
        } else {
            before.skip(1)
        });
        self.queue = queue;
        next
    }

    /// Takes everything that is waiting off the bus, oldest first.
    pub fn drain(&mut self) -> (events: Vec<Event>)
        ensures
            events.deep_view() == old(self)@.queue,
            final(self)@ == old(self)@.drained(),
    {
        proof {
            use_type_invariant(&*self);
        }
        let ghost before = self@.queue;
        let mut queue: VecDeque<Event> = VecDeque::new();
        core::mem::swap(&mut self.queue, &mut queue);
        assert(self.queue.deep_view() == Seq::<EventView>::empty());
        let mut events: Vec<Event> = Vec::new();
        assert(events.deep_view() + queue.deep_view() == queue.deep_view());
        let mut more: bool = true;
        while more
            invariant
                before == events.deep_view() + queue.deep_view(),
                !more ==> queue@.len() == 0,
            decreases queue@.len(), if more { 1int } else { 0int },
        {
            let ghost taken = events.deep_view();
            let ghost waiting = queue.deep_view();
            match queue.pop_front() {
                Some(event) => {
                    events.push(event);
                    assert(events.deep_view() == taken.push(waiting[0]));
                    assert(queue.deep_view() == waiting.skip(1));
                    assert(taken.push(waiting[0]) + waiting.skip(1) == taken + waiting);
                },
                None => {
                    more = false;
                },
            }
        }
        assert(events.deep_view() + queue.deep_view() == events.deep_view());
        events
    }
}

/// Offering a run of events to a bus with room for all of them queues them
/// all, in the order offered, behind what was waiting.
pub proof fn lemma_publish_all(bus: EventBusView, events: Seq<EventView>)
    requires
        bus.queue.len() + events.len() <= bus.capacity,
    ensures
        bus.publish_all(events) == (EventBusView { queue: bus.queue + events, ..bus }),
    decreases events.len(),
{
    if events.len() == 0 {
        assert(bus.queue + events == bus.queue);
    } else {
        lemma_publish_all(bus, events.drop_last());
        assert((bus.queue + events.drop_last()).push(events.last()) == bus.queue + events);
    }
}

/// Of two events published one after the other, whatever other producers
/// publish in between, the dispatcher is handed the first one before the
/// second.  The queue leaves in the order it was filled.
pub proof fn lemma_bus_order(
    bus: EventBusView,
    first: EventView,
    between: Seq<EventView>,
    second: EventView,
)
    requires
        bus.queue.len() + between.len() + 2 <= bus.capacity,
    ensures
        ({
            let after = bus.publish(first).publish_all(between).publish(second);
            let at = bus.queue.len() as int;
            &&& after.queue == bus.queue + seq![first] + between + seq![second]
            &&& after.queue[at] == first
            &&& after.queue[at + 1 + between.len()] == second
        }),
{
    lemma_publish_all(bus.publish(first), between);
    let after = bus.publish(first).publish_all(between).publish(second);
    assert(after.queue == bus.queue + seq![first] + between + seq![second]);
}

/// On an empty bus, two events published in turn are dispatched in turn.
pub proof fn lemma_dispatch_in_turn(bus: EventBusView, first: EventView, second: EventView)
    requires
        bus.queue.len() == 0,
        bus.capacity >= 2,
    ensures
        ({
            let filled = bus.publish(first).publish(second);
            &&& filled.queue[0] == first
            &&& filled.dispatch().queue[0] == second
            &&& filled.dispatch().dispatch() == bus
        }),
{
    let filled = bus.publish(first).publish(second);
    assert(filled.dispatch().dispatch().queue == bus.queue);
}

} // verus!
