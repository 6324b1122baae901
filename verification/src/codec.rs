//! The wire format: one event per frame, each frame a four-byte big-endian
//! length followed by that many bytes, the opcode first and the payload
//! after it.
//!
//! Because the header says exactly how long the frame is, a receiver can
//! always tell an incomplete frame from a complete one followed by the start
//! of the next, and a header that cannot be right is reported at once instead
//! of being waited on.
use crate::models::{Event, EventView};
use vstd::prelude::*;

verus! {

/// Bytes in the length header of a frame.
pub const HEADER_LEN: usize = 4;

/// The largest length a header may declare: opcode plus payload, one MiB.
pub const MAX_BODY_LEN: usize = 1_048_576;

/// The four bytes that spell `n` in big-endian order.
pub open spec fn be32(n: nat) -> Seq<u8> {
    seq![
        (n / 0x100_0000 % 0x100) as u8,
        (n / 0x1_0000 % 0x100) as u8,
        (n / 0x100 % 0x100) as u8,
        (n % 0x100) as u8,
    ]
}

/// The number that the first four bytes of `buf` spell in big-endian order.
pub open spec fn declared_len(buf: Seq<u8>) -> nat
    recommends
        buf.len() >= HEADER_LEN,
{
    (buf[0] * 0x100_0000 + buf[1] * 0x1_0000 + buf[2] * 0x100 + buf[3]) as nat
}

/// An event fits a frame when opcode and payload together stay within
/// [`MAX_BODY_LEN`].
pub open spec fn encodable(event: EventView) -> bool {
    event.payload.len() + 1 <= MAX_BODY_LEN
}

/// The frame that carries `event`.
pub open spec fn frame_of(event: EventView) -> Seq<u8> {
    be32(event.payload.len() + 1) + seq![event.opcode] + event.payload
}

/// The frames of `events`, one after another.
pub open spec fn frames_of(events: Seq<EventView>) -> Seq<u8>
    decreases events.len(),
{
    if events.len() == 0 {
        Seq::empty()
    } else {
        frame_of(events[0]) + frames_of(events.skip(1))
    }
}

/// What one look at the front of a receive buffer finds.
#[derive(Debug, PartialEq, Eq)]
pub enum Decoded {
    /// A whole frame: its event, and how many bytes of the buffer it took.
    Frame(Event, usize),
    /// The bytes so far are the beginning of a frame that is not all there.
    NeedMoreData,
    /// The header declares a length of zero or beyond [`MAX_BODY_LEN`].
    Corrupt,
}

/// The mathematical counterpart of [`Decoded`].
pub enum DecodedView {
    Frame(EventView, nat),
    NeedMoreData,
    Corrupt,
}

impl View for Decoded {
    type V = DecodedView;

    open spec fn view(&self) -> DecodedView {
        match self {
            Decoded::Frame(event, consumed) => DecodedView::Frame(event@, *consumed as nat),
            Decoded::NeedMoreData => DecodedView::NeedMoreData,
            Decoded::Corrupt => DecodedView::Corrupt,
        }
    }
}

/// What the front of `buf` holds.
///
/// Fewer than four bytes are not yet a header.  A header that declares zero
/// or more than [`MAX_BODY_LEN`] is corrupt however many bytes follow.
/// Otherwise the frame is present once header and declared length are all
/// buffered, and bytes beyond it are left alone.
pub open spec fn decode_spec(buf: Seq<u8>) -> DecodedView {
    if buf.len() < HEADER_LEN {
        DecodedView::NeedMoreData
    } else if declared_len(buf) == 0 || declared_len(buf) > MAX_BODY_LEN {
        DecodedView::Corrupt
    } else if buf.len() < HEADER_LEN + declared_len(buf) {
        DecodedView::NeedMoreData
    } else {
        DecodedView::Frame(
            EventView {
                opcode: buf[HEADER_LEN as int],
                payload: buf.subrange(HEADER_LEN + 1, HEADER_LEN + declared_len(buf)),
            },
            (HEADER_LEN + declared_len(buf)) as nat,
        )
    }
}

/// Writes `event` as one frame, or returns `None` when the payload is too
/// long for a frame to carry.
pub fn encode(event: &Event) -> (frame: Option<Vec<u8>>)
    ensures
        match frame {
            Some(bytes) => encodable(event@) && bytes@ == frame_of(event@),
            None => !encodable(event@),
        },
{
    let payload_len: usize = event.payload.len();
    if payload_len >= MAX_BODY_LEN {
        return None;
    }
    let body_len: usize = payload_len + 1;
    let mut bytes: Vec<u8> = Vec::with_capacity(HEADER_LEN + body_len);
    bytes.push((body_len / 0x100_0000 % 0x100) as u8);
    bytes.push((body_len / 0x1_0000 % 0x100) as u8);
    bytes.push((body_len / 0x100 % 0x100) as u8);
    bytes.push((body_len % 0x100) as u8);
    bytes.push(event.opcode);
    let mut i: usize = 0;
    while i < payload_len
        invariant
            i <= payload_len,
            payload_len == event.payload@.len(),
            bytes@ == be32(body_len as nat) + seq![event.opcode] + event.payload@.take(i as int),
        decreases payload_len - i,
    {
        bytes.push(event.payload[i]);
        i += 1;
    }
    assert(event.payload@.take(payload_len as int) == event.payload@);
    Some(bytes)
}

/// Looks for one frame at the front of `buffer`.
///
/// Never fails outright and never asks for bytes that cannot help: the three
/// outcomes are exactly those of [`decode_spec`].
pub fn decode(buffer: &[u8]) -> (found: Decoded)
    ensures
        found@ == decode_spec(buffer@),
{
    if buffer.len() < HEADER_LEN {
        return Decoded::NeedMoreData;
    }
    let declared: usize = buffer[0] as usize * 0x100_0000 + buffer[1] as usize * 0x1_0000
        + buffer[2] as usize * 0x100 + buffer[3] as usize;
    if declared == 0 || declared > MAX_BODY_LEN {
        return Decoded::Corrupt;
    }
    let end: usize = HEADER_LEN + declared;
    if buffer.len() < end {
        return Decoded::NeedMoreData;
    }
    let opcode: u8 = buffer[HEADER_LEN];
    let mut payload: Vec<u8> = Vec::with_capacity(declared - 1);
    let mut i: usize = HEADER_LEN + 1;
    while i < end
        invariant
            HEADER_LEN + 1 <= i <= end <= buffer@.len(),
            payload@ == buffer@.subrange(HEADER_LEN + 1, i as int),
        decreases end - i,
    {
        payload.push(buffer[i]);
        i += 1;
    }
    Decoded::Frame(Event { opcode, payload }, end)
}

/// The events of all the whole frames at the front of `buf`, in order, up to
/// the first place where no whole frame is found.
pub open spec fn drained_events(buf: Seq<u8>) -> Seq<EventView>
    decreases buf.len(),
{
    match decode_spec(buf) {
        DecodedView::Frame(event, consumed) => seq![event] + drained_events(
            buf.skip(consumed as int),
        ),
        _ => Seq::empty(),
    }
}

/// What is left of `buf` once the whole frames at its front are taken away:
/// the beginning of an unfinished frame, or the place where the stream went
/// wrong.
pub open spec fn drained_rest(buf: Seq<u8>) -> Seq<u8>
    decreases buf.len(),
{
    match decode_spec(buf) {
        DecodedView::Frame(event, consumed) => drained_rest(buf.skip(consumed as int)),
        _ => buf,
    }
}

/// A header written by [`be32`] reads back as the number it was written from.
pub proof fn lemma_header_reads_back(n: nat, rest: Seq<u8>)
    requires
        n < 0x1_0000_0000,
    ensures
        be32(n).len() == HEADER_LEN,
        declared_len(be32(n) + rest) == n,
{
}

/// Decoding finds a frame at the front of a buffer whatever follows it, and
/// takes exactly the frame's bytes.
pub proof fn lemma_decode_frame(event: EventView, rest: Seq<u8>)
    requires
        encodable(event),
    ensures
        frame_of(event).len() == HEADER_LEN + 1 + event.payload.len(),
        decode_spec(frame_of(event) + rest) == DecodedView::Frame(event, frame_of(event).len()),
        (frame_of(event) + rest).skip(frame_of(event).len() as int) == rest,
{
    let n = event.payload.len() + 1;
    let buf = frame_of(event) + rest;
    lemma_header_reads_back(n, seq![event.opcode] + event.payload + rest);
    assert(buf == be32(n) + (seq![event.opcode] + event.payload + rest));
    assert(buf.subrange(HEADER_LEN + 1, HEADER_LEN + n) == event.payload);
}

/// Decoding the frame of an event gives back that event and the frame's
/// whole length.
pub proof fn lemma_round_trip(event: EventView)
    requires
        encodable(event),
    ensures
        decode_spec(frame_of(event)) == DecodedView::Frame(event, frame_of(event).len()),
{
    lemma_decode_frame(event, Seq::empty());
    assert(frame_of(event) + Seq::<u8>::empty() == frame_of(event));
}

/// Every proper prefix of a frame, the empty one included, asks for more
/// data.
pub proof fn lemma_prefix_needs_more(event: EventView, k: int)
    requires
        encodable(event),
        0 <= k < frame_of(event).len(),
    ensures
        decode_spec(frame_of(event).take(k)) == DecodedView::NeedMoreData,
{
    let n = event.payload.len() + 1;
    lemma_decode_frame(event, Seq::empty());
    lemma_header_reads_back(n, seq![event.opcode] + event.payload);
    if k >= HEADER_LEN {
        let prefix = frame_of(event).take(k);
        assert(declared_len(prefix) == declared_len(frame_of(event)));
    }
}

/// A header that declares zero or more than [`MAX_BODY_LEN`] is corrupt as
/// soon as its four bytes are there, and stays corrupt whatever arrives
/// after it.  Nothing else is corrupt.
pub proof fn lemma_corrupt_header(buf: Seq<u8>, more: Seq<u8>)
    ensures
        decode_spec(buf) == DecodedView::Corrupt <==> buf.len() >= HEADER_LEN && (declared_len(buf)
            == 0 || declared_len(buf) > MAX_BODY_LEN),
        decode_spec(buf) == DecodedView::Corrupt ==> decode_spec(buf + more)
            == DecodedView::Corrupt,
{
    if buf.len() >= HEADER_LEN {
        assert(declared_len(buf + more) == declared_len(buf));
    }
}

/// A buffer that asks for more data is shorter than the longest frame, and
/// once its header is in, it holds a frame as soon as the bytes the header
/// declares have arrived.
pub proof fn lemma_wait_is_bounded(buf: Seq<u8>, more: Seq<u8>)
    requires
        decode_spec(buf) == DecodedView::NeedMoreData,
    ensures
        buf.len() < HEADER_LEN + MAX_BODY_LEN,
        buf.len() >= HEADER_LEN && buf.len() + more.len() >= HEADER_LEN + declared_len(buf)
            ==> decode_spec(buf + more) is Frame,
{
    if buf.len() >= HEADER_LEN {
        assert(declared_len(buf + more) == declared_len(buf));
    }
}

/// A frame found at the front of a buffer is found again, unchanged, when
/// more bytes have arrived behind it.
pub proof fn lemma_frame_stays(buf: Seq<u8>, more: Seq<u8>)
    requires
        decode_spec(buf) is Frame,
    ensures
        decode_spec(buf + more) == decode_spec(buf),
        (buf + more).skip(decode_spec(buf)->Frame_1 as int) == buf.skip(
            decode_spec(buf)->Frame_1 as int,
        ) + more,
{
    let end = HEADER_LEN + declared_len(buf);
    assert(declared_len(buf + more) == declared_len(buf));
    assert((buf + more).subrange(HEADER_LEN + 1, end) == buf.subrange(HEADER_LEN + 1, end));
}

/// Reassembly does not depend on how the bytes were cut into reads: draining
/// `buf`, keeping what is left, and draining again once `more` has arrived
/// yields the same events, and leaves the same bytes, as draining all of it
/// at once.
pub proof fn lemma_drain_in_pieces(buf: Seq<u8>, more: Seq<u8>)
    ensures
        drained_events(buf + more) == drained_events(buf) + drained_events(
            drained_rest(buf) + more,
        ),
        drained_rest(buf + more) == drained_rest(drained_rest(buf) + more),
    decreases buf.len(),
{
    match decode_spec(buf) {
        DecodedView::Frame(event, consumed) => {
            lemma_frame_stays(buf, more);
            lemma_drain_in_pieces(buf.skip(consumed as int), more);
            assert(seq![event] + (drained_events(buf.skip(consumed as int)) + drained_events(
                drained_rest(buf) + more,
            )) == drained_events(buf) + drained_events(drained_rest(buf) + more));
        },
        _ => {
            assert(drained_events(buf) + drained_events(buf + more) == drained_events(
                buf + more,
            ));
        },
    }
}

/// What draining leaves behind never starts with a whole frame.
pub proof fn lemma_rest_is_drained(buf: Seq<u8>)
    ensures
        !(decode_spec(drained_rest(buf)) is Frame),
        drained_events(drained_rest(buf)) == Seq::<EventView>::empty(),
        drained_rest(drained_rest(buf)) == drained_rest(buf),
    decreases buf.len(),
{
    match decode_spec(buf) {
        DecodedView::Frame(event, consumed) => {
            lemma_rest_is_drained(buf.skip(consumed as int));
        },
        _ => {},
    }
}

/// Draining the frames of `events` followed by `tail` yields `events` in
/// order and then whatever `tail` holds.  With an empty tail nothing is left
/// over.
pub proof fn lemma_drain_frames(events: Seq<EventView>, tail: Seq<u8>)
    requires
        forall|i: int| 0 <= i < events.len() ==> encodable(#[trigger] events[i]),
    ensures
        drained_events(frames_of(events) + tail) == events + drained_events(tail),
        drained_rest(frames_of(events) + tail) == drained_rest(tail),
    decreases events.len(),
{
    if events.len() == 0 {
        assert(frames_of(events) + tail == tail);
        assert(events + drained_events(tail) == drained_events(tail));
    } else {
        let first = events[0];
        let others = events.skip(1);
        let behind = frames_of(others) + tail;
        assert(frames_of(events) + tail == frame_of(first) + behind);
        lemma_decode_frame(first, behind);
        assert forall|i: int| 0 <= i < others.len() implies encodable(#[trigger] others[i]) by {
            assert(others[i] == events[i + 1]);
        }
        lemma_drain_frames(others, tail);
        assert(seq![first] + (others + drained_events(tail)) == events + drained_events(tail));
    }
}

/// Two frames in one buffer decode as the first event and then the second,
/// each taking exactly its own frame, with no byte left over.
pub proof fn lemma_two_frames(first: EventView, second: EventView)
    requires
        encodable(first),
        encodable(second),
    ensures
        ({
            let buf = frame_of(first) + frame_of(second);
            let behind = buf.skip(frame_of(first).len() as int);
            &&& decode_spec(buf) == DecodedView::Frame(first, frame_of(first).len())
            &&& decode_spec(behind) == DecodedView::Frame(second, frame_of(second).len())
            &&& behind.skip(frame_of(second).len() as int) == Seq::<u8>::empty()
            &&& drained_events(buf) == seq![first, second]
            &&& drained_rest(buf) == Seq::<u8>::empty()
        }),
{
    let nothing = Seq::<u8>::empty();
    let buf = frame_of(first) + frame_of(second);
    let behind = buf.skip(frame_of(first).len() as int);
    lemma_decode_frame(first, frame_of(second));
    lemma_decode_frame(second, nothing);
    assert(frame_of(second) + nothing == frame_of(second));
    assert(behind == frame_of(second));
    assert(behind.skip(frame_of(second).len() as int) == nothing);
    assert(decode_spec(nothing) == DecodedView::NeedMoreData);
    assert(drained_events(behind) == seq![second] + drained_events(nothing));
    assert(drained_events(buf) == seq![first] + drained_events(behind));
    assert(seq![first] + (seq![second] + Seq::<EventView>::empty()) == seq![first, second]);
    assert(drained_rest(behind) == drained_rest(nothing));
}

} // verus!
