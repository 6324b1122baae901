use event_relay::models::{Event, EventType, HeartbeatEvent, HelloEvent};
use event_relay::models::{OPCODE_HEARTBEAT, OPCODE_HELLO};

fn event(opcode: u8, payload: &[u8]) -> Event {
    Event { opcode, payload: payload.to_vec() }
}

fn is_space(byte: u8) -> bool {
    byte == b' ' || byte == b'\n' || byte == b'\t' || byte == b'\r'
}

fn reads_as_unit(text: &[u8]) -> bool {
    let mut start = 0;
    while start < text.len() && is_space(text[start]) {
        start += 1;
    }
    text.len() >= start + 4
        && &text[start..start + 4] == b"null"
        && text[start + 4..].iter().all(|b| is_space(*b))
}

#[test]
fn opcodes_are_zero_and_one() {
    assert_eq!(OPCODE_HELLO, 0);
    assert_eq!(OPCODE_HEARTBEAT, 1);
}

#[test]
fn hello_with_valid_payload() {
    assert_eq!(EventType::from_event(&event(0, b"null")), EventType::Hello(HelloEvent));
}

#[test]
fn heartbeat_with_valid_payload() {
    assert_eq!(EventType::from_event(&event(1, b"null")), EventType::Heartbeat(HeartbeatEvent));
}

#[test]
fn white_space_around_payload_is_allowed() {
    assert_eq!(EventType::from_event(&event(0, b" \t\r\nnull")), EventType::Hello(HelloEvent));
    assert_eq!(EventType::from_event(&event(0, b"null \n")), EventType::Hello(HelloEvent));
    assert_eq!(
        EventType::from_event(&event(1, b"\n null\t")),
        EventType::Heartbeat(HeartbeatEvent)
    );
}

#[test]
fn hello_with_invalid_payload_is_unknown() {
    for raw in [
        &b""[..],
        b"nul",
        b"nulll",
        b"null null",
        b"null,",
        b"NULL",
        b"{}",
        b"[]",
        b"0",
        b"\"null\"",
        b"Hello from server",
        b"\x0bnull",
        b"n ull",
        &[0xff, 0xfe],
    ] {
        assert_eq!(
            EventType::from_event(&event(0, raw)),
            EventType::Unknown(0, raw.to_vec()),
            "payload {:?}",
            raw
        );
    }
}

#[test]
fn heartbeat_with_invalid_payload_is_unknown() {
    assert_eq!(EventType::from_event(&event(1, b"ping")), EventType::Unknown(1, b"ping".to_vec()));
    assert_eq!(EventType::from_event(&event(1, b"")), EventType::Unknown(1, Vec::new()));
}

#[test]
fn unrecognized_opcode_is_always_unknown() {
    for opcode in 2..=255u8 {
        assert_eq!(
            EventType::from_event(&event(opcode, b"null")),
            EventType::Unknown(opcode, b"null".to_vec())
        );
        assert_eq!(
            EventType::from_event(&event(opcode, b"x")),
            EventType::Unknown(opcode, b"x".to_vec())
        );
    }
}

#[test]
fn classification_agrees_with_the_grammar_on_short_texts() {
    let alphabet = [b' ', b'\n', b'\t', b'\r', b'n', b'u', b'l', b'x', 0x0c];
    let mut texts: Vec<Vec<u8>> = vec![Vec::new()];
    let mut layer: Vec<Vec<u8>> = vec![Vec::new()];
    for _ in 0..5 {
        let mut next = Vec::new();
        for text in &layer {
            for byte in alphabet {
                let mut longer = text.clone();
                longer.push(byte);
                next.push(longer);
            }
        }
        texts.extend(next.iter().cloned());
        layer = next;
    }
    for pad in [&b" "[..], b"\n\n", b"\t \r"] {
        for tail in [&b""[..], b" ", b"\r\n", b"l", b" n"] {
            let mut text = pad.to_vec();
            text.extend_from_slice(b"null");
            text.extend_from_slice(tail);
            texts.push(text);
        }
    }
    let mut accepted = 0;
    for text in texts {
        let expected = if reads_as_unit(&text) {
            accepted += 1;
            EventType::Hello(HelloEvent)
        } else {
            EventType::Unknown(0, text.clone())
        };
        assert_eq!(EventType::from_event(&event(0, &text)), expected, "payload {:?}", text);
    }
    assert!(accepted > 10);
}

#[test]
fn clone_keeps_opcode_and_payload() {
    let e = event(42, b"fan-out");
    let copy = e.clone();
    assert_eq!(copy, e);
    assert_eq!(copy.opcode, 42);
    assert_eq!(copy.payload, b"fan-out".to_vec());
}
