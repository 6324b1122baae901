//! One peer's connection, seen from the side that holds no socket.
//!
//! A [`Client`] is the state that turns a byte stream into events and back:
//! the bytes received but not yet made into a frame, and whether either
//! direction has failed.  The task that reads the socket owns the `Client`
//! and feeds it every read; whoever writes asks it for the frame to put on
//! the wire and tells it when the write went wrong.
use crate::codec::{decode, decode_spec, drained_events, drained_rest, encode, encodable, frame_of};
use crate::codec::{Decoded, DecodedView};
use crate::codec::{lemma_corrupt_header, lemma_decode_frame, lemma_drain_in_pieces};
use crate::codec::{lemma_prefix_needs_more, lemma_rest_is_drained};
use crate::models::{Event, EventView};
use vstd::prelude::*;

verus! {

/// How the receiving side stands after a read was handed in.
#[derive(Debug, Clone, Copy, PartialEq, Eq)]
pub enum ListenState {
    /// The stream is in step; read again.
    Open,
    /// The stream has ended, or had ended before.
    Closed,
    /// A header that cannot be right was met.  The connection is given up:
    /// a length-prefixed stream cannot be brought back into step.
    Corrupt,
}

/// What one read brought: the events completed by it, in the order their
/// frames arrived, and how the receiving side stands now.
#[derive(Debug, PartialEq, Eq)]
pub struct Listened {
    pub events: Vec<Event>,
    pub state: ListenState,
}

/// The state of one framed connection.
pub struct Client {
    buffer: Vec<u8>,
    reading: bool,
    write_failed: bool,
}

/// What a [`Client`] is, mathematically.
pub struct ClientView {
    /// Bytes received that do not yet make a whole frame.
    pub buffer: Seq<u8>,
    /// The receiving side has neither ended nor failed.
    pub reading: bool,
    /// Some write on this connection has failed.
    pub write_failed: bool,
}

impl ClientView {
    /// A connection counts as live until a read or a write has failed or the
    /// stream has ended.
    pub open spec fn connected(self) -> bool {
        self.reading && !self.write_failed
    }

    /// While the receiving side is open, the buffer holds neither a whole
    /// frame nor a corrupt header: whatever could be decided about its
    /// bytes has been decided.
    pub open spec fn in_step(self) -> bool {
        self.reading ==> decode_spec(self.buffer) == DecodedView::NeedMoreData
    }

    /// The state after each of `chunks` was handed in as a read of its own,
    /// together with all the events those reads delivered, in order.
    pub open spec fn listen_each(self, chunks: Seq<Seq<u8>>) -> (ClientView, Seq<EventView>)
        decreases chunks.len(),
    {
        if chunks.len() == 0 {
            (self, Seq::empty())
        } else {
            let (mid, early) = self.listen_each(chunks.drop_last());
            let (end, late, state) = mid.listen(chunks.last());
            (end, early + late)
        }
    }

    /// The state after the reading task hands in `chunk`, together with the
    /// events to deliver and the verdict on the stream.
    ///
    /// Once the receiving side is closed nothing changes any more.  An empty
    /// read is the end of the stream.  Any other read is appended to what
    /// was buffered; every whole frame is taken off the front in order; and
    /// what is left is kept for the next read, unless it starts with a
    /// corrupt header, which closes the receiving side.
    pub open spec fn listen(self, chunk: Seq<u8>) -> (ClientView, Seq<EventView>, ListenState) {
        if !self.reading {
            (self, Seq::empty(), ListenState::Closed)
        } else if chunk.len() == 0 {
            (ClientView { reading: false, ..self }, Seq::empty(), ListenState::Closed)
        } else {
            let all = self.buffer + chunk;
            let rest = drained_rest(all);
            let corrupt = decode_spec(rest) == DecodedView::Corrupt;
            (
                ClientView { buffer: rest, reading: !corrupt, ..self },
                drained_events(all),
                if corrupt {
                    ListenState::Corrupt
                } else {
                    ListenState::Open
                },
            )
        }
    }
}

impl View for Client {
    type V = ClientView;

    closed spec fn view(&self) -> ClientView {
        ClientView { buffer: self.buffer@, reading: self.reading, write_failed: self.write_failed }
    }
}

impl Client {
    /// Every connection is in step, at all times.
    #[verifier::type_invariant]
    pub open spec fn in_step(&self) -> bool {
        self@.in_step()
    }

    /// The state of a connection that has just been made: nothing buffered,
    /// both directions sound.
    pub fn new() -> (client: Client)
        ensures
            client@ == (ClientView { buffer: Seq::empty(), reading: true, write_failed: false }),
            client@.in_step(),
    {
        Client { buffer: Vec::new(), reading: true, write_failed: false }
    }

    /// Takes what one read of the stream returned, an empty `chunk` standing
    /// for the end of the stream, and gives back the events that are now
    /// complete.
    pub fn listen(&mut self, chunk: &[u8]) -> (heard: Listened)
        ensures
            (final(self)@, heard.events.deep_view(), heard.state) == old(self)@.listen(chunk@),
            final(self)@.in_step(),
    {
        let mut events: Vec<Event> = Vec::new();
        assert(events.deep_view() == Seq::<EventView>::empty());
        if !self.reading {
            return Listened { events, state: ListenState::Closed };
        }
        if chunk.len() == 0 {
            self.reading = false;
            return Listened { events, state: ListenState::Closed };
        }
        let mut all: Vec<u8> = Vec::new();
        core::mem::swap(&mut self.buffer, &mut all);
        all.extend_from_slice(chunk);
        assert(all@ == old(self)@.buffer + chunk@);
        let total: usize = all.len();
        let mut pos: usize = 0;
        let mut corrupt: bool = false;
        let mut more: bool = true;
        proof {
            assert(all@.skip(0) == all@);
            assert(events.deep_view() + drained_events(all@) == drained_events(all@));
        }
        while more
            invariant
                pos <= total == all@.len(),
                more ==> !corrupt,
                drained_events(all@) == events.deep_view() + drained_events(all@.skip(pos as int)),
                drained_rest(all@) == drained_rest(all@.skip(pos as int)),
                !more ==> drained_rest(all@) == all@.skip(pos as int),
                !more ==> corrupt == (decode_spec(all@.skip(pos as int)) == DecodedView::Corrupt),
            decreases total - pos, if more { 1int } else { 0int },
        {
            let ghost before = events.deep_view();
            let ghost tail = all@.skip(pos as int);
            let found = decode(&all.as_slice()[pos..total]);
            assert(all@.subrange(pos as int, total as int) == tail);
            match found {
                Decoded::Frame(event, consumed) => {
                    events.push(event);
                    pos += consumed;
                    proof {
                        assert(events.deep_view() == before.push(event@));
                        assert(tail.skip(consumed as int) == all@.skip(pos as int));
                        assert(before + (seq![event@] + drained_events(all@.skip(pos as int)))
                            == events.deep_view() + drained_events(all@.skip(pos as int)));
                    }
                },
                Decoded::NeedMoreData => {
                    more = false;
                },
                Decoded::Corrupt => {
                    corrupt = true;
                    more = false;
                },
            }
        }
        let ghost whole = all@;
        let rest = all.split_off(pos);
        assert(rest@ == whole.skip(pos as int));
        assert(events.deep_view() + Seq::<EventView>::empty() == events.deep_view());
        proof {
            lemma_rest_is_drained(old(self)@.buffer + chunk@);
        }
        if corrupt {
            self.reading = false;
            self.buffer = rest;
            Listened { events, state: ListenState::Corrupt }
        } else {
            self.buffer = rest;
            Listened { events, state: ListenState::Open }
        }
    }

    /// Whether the connection still counts as live: no read and no write has
    /// failed on it, and the stream has not ended.
    pub fn is_connected(&self) -> (live: bool)
        ensures
            live == self@.connected(),
    {
        self.reading && !self.write_failed
    }

    /// The frame to put on the wire for `event`, to be written whole and
    /// without any other write to the same stream in between.  `None` when
    /// the payload is too long for a frame; nothing is to be written then.
    pub fn send_event(&self, event: &Event) -> (frame: Option<Vec<u8>>)
        ensures
            match frame {
                Some(bytes) => encodable(event@) && bytes@ == frame_of(event@),
                None => !encodable(event@),
            },
    {
        encode(event)
    }

    /// Records that a write on this connection failed.  The connection
    /// reports disconnected from now on; the receiving side is left as it
    /// is and keeps delivering what still arrives.
    pub fn send_failed(&mut self)
        ensures
            final(self)@ == (ClientView { write_failed: true, ..old(self)@ }),
    {
        proof {
            use_type_invariant(&*self);
        }
        self.write_failed = true;
    }

    /// Records that a read on this connection failed.  The receiving side
    /// is closed and the connection reports disconnected.
    pub fn read_failed(&mut self)
        ensures
            final(self)@ == (ClientView { reading: false, ..old(self)@ }),
    {
        self.reading = false;
    }
}

/// `chunks`, one after another, as one run of bytes.
pub open spec fn joined(chunks: Seq<Seq<u8>>) -> Seq<u8>
    decreases chunks.len(),
{
    if chunks.len() == 0 {
        Seq::empty()
    } else {
        joined(chunks.drop_last()) + chunks.last()
    }
}

/// However a stream of bytes is cut into reads, the same events come out in
/// the same order: the reads `chunks`, handed in one by one to a connection
/// that is in step, deliver together exactly the events of the whole frames
/// in all the bytes, and leave the connection holding what is behind the
/// last whole frame, or closed if that is a corrupt header.
pub proof fn lemma_listen_each(client: ClientView, chunks: Seq<Seq<u8>>)
    requires
        client.reading,
        client.in_step(),
        forall|i: int| 0 <= i < chunks.len() ==> (#[trigger] chunks[i]).len() > 0,
    ensures
        ({
            let (end, events) = client.listen_each(chunks);
            let stream = client.buffer + joined(chunks);
            &&& events == drained_events(stream)
            &&& end.write_failed == client.write_failed
            &&& end.reading == (decode_spec(drained_rest(stream)) != DecodedView::Corrupt)
            &&& end.reading ==> end.buffer == drained_rest(stream)
        }),
    decreases chunks.len(),
{
    if chunks.len() == 0 {
        assert(client.buffer + joined(chunks) == client.buffer);
    } else {
        let front = chunks.drop_last();
        let last = chunks.last();
        let (mid, early) = client.listen_each(front);
        let stream = client.buffer + joined(front);
        assert forall|i: int| 0 <= i < front.len() implies (#[trigger] front[i]).len() > 0 by {
            assert(front[i] == chunks[i]);
        }
        lemma_listen_each(client, front);
        lemma_drain_in_pieces(stream, last);
        assert(client.buffer + joined(chunks) == stream + last);
        if !mid.reading {
            lemma_corrupt_header(drained_rest(stream), last);
        }
    }
}

/// A frame that arrives in two reads, cut at any byte boundary inside it,
/// yields nothing on the first read and exactly its event on the second,
/// with nothing left in the buffer.
pub proof fn lemma_listen_split_frame(event: EventView, cut: int)
    requires
        encodable(event),
        0 < cut < frame_of(event).len(),
    ensures
        ({
            let fresh = ClientView { buffer: Seq::empty(), reading: true, write_failed: false };
            let (mid, early, state) = fresh.listen(frame_of(event).take(cut));
            let (end, late, verdict) = mid.listen(frame_of(event).skip(cut));
            &&& early == Seq::<EventView>::empty()
            &&& state == ListenState::Open
            &&& late == seq![event]
            &&& verdict == ListenState::Open
            &&& end == fresh
        }),
{
    let fresh = ClientView { buffer: Seq::empty(), reading: true, write_failed: false };
    let frame = frame_of(event);
    let head = frame.take(cut);
    let tail = frame.skip(cut);
    let nothing = Seq::<u8>::empty();
    lemma_prefix_needs_more(event, cut);
    assert(fresh.buffer + head == head);
    assert(drained_rest(head) == head);
    assert(drained_events(head) == Seq::<EventView>::empty());
    let (mid, early, state) = fresh.listen(head);
    assert(mid == ClientView { buffer: head, ..fresh });
    assert(head + tail == frame);
    lemma_decode_frame(event, nothing);
    assert(frame + nothing == frame);
    assert(frame.skip(frame.len() as int) == nothing);
    assert(decode_spec(nothing) == DecodedView::NeedMoreData);
    assert(drained_events(nothing) == Seq::<EventView>::empty());
    assert(drained_rest(nothing) == nothing);
    assert(drained_events(frame) == seq![event] + drained_events(nothing));
    assert(drained_rest(frame) == drained_rest(nothing));
    assert(seq![event] + Seq::<EventView>::empty() == seq![event]);
}

} // verus!
