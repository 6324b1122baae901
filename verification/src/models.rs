//! The event as it travels, and the tagged form a consumer switches on.
use vstd::prelude::*;

verus! {

/// The application message unit: an opcode that selects the payload's
/// schema, and the payload bytes themselves, which this crate never
/// interprets beyond [`EventType::from_event`].
#[derive(Debug, PartialEq, Eq)]
pub struct Event {
    pub opcode: u8,
    pub payload: Vec<u8>,
}

/// What an [`Event`] is, mathematically: its opcode and its payload bytes.
pub struct EventView {
    pub opcode: u8,
    pub payload: Seq<u8>,
}

impl View for Event {
    type V = EventView;

    open spec fn view(&self) -> EventView {
        EventView { opcode: self.opcode, payload: self.payload@ }
    }
}

impl DeepView for Event {
    type V = EventView;

    open spec fn deep_view(&self) -> EventView {
        self@
    }
}

impl Clone for Event {
    /// A copy with the same opcode and the same payload bytes.
    fn clone(&self) -> (copy: Event)
        ensures
            copy@ == self@,
    {
        Event { opcode: self.opcode, payload: self.payload.clone() }
    }
}

/// Opcode of the greeting a peer sends when it joins.
pub const OPCODE_HELLO: u8 = 0;

/// Opcode of the periodic sign of life.
pub const OPCODE_HEARTBEAT: u8 = 1;

/// The greeting.  It carries no fields; on the wire its payload is the JSON
/// text of a unit value.
#[derive(Debug, Clone, Copy, PartialEq, Eq)]
pub struct HelloEvent;

/// The sign of life.  It carries no fields; on the wire its payload is the
/// JSON text of a unit value.
#[derive(Debug, Clone, Copy, PartialEq, Eq)]
pub struct HeartbeatEvent;

/// An event told apart by its opcode.  Whatever is not recognised, or does
/// not decode as what its opcode promises, is kept whole as `Unknown`.
#[derive(Debug, PartialEq, Eq)]
pub enum EventType {
    Hello(HelloEvent),
    Heartbeat(HeartbeatEvent),
    Unknown(u8, Vec<u8>),
}

/// The mathematical counterpart of [`EventType`].
pub enum EventTypeView {
    Hello,
    Heartbeat,
    Unknown(u8, Seq<u8>),
}

impl View for EventType {
    type V = EventTypeView;

    open spec fn view(&self) -> EventTypeView {
        match self {
            EventType::Hello(_) => EventTypeView::Hello,
            EventType::Heartbeat(_) => EventTypeView::Heartbeat,
            EventType::Unknown(opcode, payload) => EventTypeView::Unknown(*opcode, payload@),
        }
    }
}

impl DeepView for EventType {
    type V = EventTypeView;

    open spec fn deep_view(&self) -> EventTypeView {
        self@
    }
}

/// The four bytes JSON allows between tokens: space, line feed, tab and
/// carriage return.
pub open spec fn is_json_space(byte: u8) -> bool {
    byte == 0x20 || byte == 0x0a || byte == 0x09 || byte == 0x0d
}

/// The bytes of the JSON literal `null`.
pub open spec fn json_null() -> Seq<u8> {
    seq![0x6eu8, 0x75u8, 0x6cu8, 0x6cu8]
}

/// `text` is the literal `null` at `start`, with nothing but JSON white
/// space before and behind it.
pub open spec fn unit_json_at(text: Seq<u8>, start: int) -> bool {
    &&& 0 <= start
    &&& start + 4 <= text.len()
    &&& text.subrange(start, start + 4) == json_null()
    &&& forall|i: int| 0 <= i < start ==> is_json_space(#[trigger] text[i])
    &&& forall|i: int| start + 4 <= i < text.len() ==> is_json_space(#[trigger] text[i])
}

/// `text` is the JSON text of a unit value: the literal `null`, optionally
/// surrounded by white space.
pub open spec fn is_unit_json(text: Seq<u8>) -> bool {
    exists|start: int| unit_json_at(text, start)
}

/// The tagged form of an event.  Opcodes 0 and 1 name the two known kinds,
/// each of which must carry the JSON text of a unit value; everything else is
/// `Unknown` and keeps its opcode and payload.
pub open spec fn classify(event: EventView) -> EventTypeView {
    if event.opcode == OPCODE_HELLO && is_unit_json(event.payload) {
        EventTypeView::Hello
    } else if event.opcode == OPCODE_HEARTBEAT && is_unit_json(event.payload) {
        EventTypeView::Heartbeat
    } else {
        EventTypeView::Unknown(event.opcode, event.payload)
    }
}

/// A known opcode with the payload it calls for gives the known kind; a
/// known opcode with any other payload, and any other opcode with any
/// payload at all, gives `Unknown` with opcode and payload as they came.
/// The literal `null` alone is a payload that the known kinds call for.
pub proof fn lemma_classification(event: EventView)
    ensures
        event.opcode == OPCODE_HELLO && is_unit_json(event.payload) ==> classify(event)
            == EventTypeView::Hello,
        event.opcode == OPCODE_HEARTBEAT && is_unit_json(event.payload) ==> classify(event)
            == EventTypeView::Heartbeat,
        event.opcode > OPCODE_HEARTBEAT || !is_unit_json(event.payload) ==> classify(event)
            == EventTypeView::Unknown(event.opcode, event.payload),
        is_unit_json(json_null()),
{
    assert(json_null().subrange(0, 4) == json_null());
    assert(unit_json_at(json_null(), 0));
}

/// Asks `serde_json::from_slice` to read `payload` as a unit value and
/// reports whether it succeeded.
///
/// Not proved: that `serde_json` accepts exactly the literal `null` with
/// optional JSON white space (space, line feed, tab, carriage return) on
/// either side, which is how its deserializer reads a unit and then checks
/// that only white space is left.
#[verifier::external_body]
fn parses_as_unit(payload: &[u8]) -> (ok: bool)
    ensures
        ok == is_unit_json(payload@),
{
    serde_json::from_slice::<()>(payload).is_ok()
}

impl EventType {
    /// Tells what kind of event `event` is.  This never fails: an event
    /// whose opcode is not known, or whose payload is not what its opcode
    /// calls for, comes back as `Unknown` with opcode and payload untouched.
    pub fn from_event(event: &Event) -> (kind: EventType)
        ensures
            kind@ == classify(event@),
    {
        if event.opcode == OPCODE_HELLO {
            if parses_as_unit(event.payload.as_slice()) {
                return EventType::Hello(HelloEvent);
            }
        } else if event.opcode == OPCODE_HEARTBEAT {
            if parses_as_unit(event.payload.as_slice()) {
                return EventType::Heartbeat(HeartbeatEvent);
            }
        }
        EventType::Unknown(event.opcode, event.payload.clone())
    }
}

} // verus!
