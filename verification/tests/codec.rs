use event_relay::codec::{decode, encode, Decoded, HEADER_LEN, MAX_BODY_LEN};
use event_relay::models::Event;

fn event(opcode: u8, payload: &[u8]) -> Event {
    Event { opcode, payload: payload.to_vec() }
}

fn frame(e: &Event) -> Vec<u8> {
    match encode(e) {
        Some(bytes) => bytes,
        None => panic!("event should fit a frame"),
    }
}

#[test]
fn encode_writes_length_opcode_payload() {
    let bytes = frame(&event(1, b"ping"));
    assert_eq!(bytes, vec![0, 0, 0, 5, 1, b'p', b'i', b'n', b'g']);
}

#[test]
fn encode_empty_payload_is_five_bytes() {
    assert_eq!(frame(&event(9, b"")), vec![0, 0, 0, 1, 9]);
}

#[test]
fn encode_length_is_big_endian() {
    let payload = vec![7u8; 299];
    let bytes = frame(&event(2, &payload));
    assert_eq!(&bytes[..5], &[0, 0, 1, 44, 2]);
    assert_eq!(bytes.len(), HEADER_LEN + 300);
    let payload = vec![3u8; 70_000];
    let bytes = frame(&event(2, &payload));
    assert_eq!(&bytes[..4], &[0, 1, 0x11, 0x71]);
}

#[test]
fn encode_is_deterministic() {
    let e = event(4, b"same");
    assert_eq!(encode(&e), encode(&e));
}

#[test]
fn encode_accepts_largest_payload() {
    let e = event(0, &vec![0xabu8; MAX_BODY_LEN - 1]);
    let bytes = frame(&e);
    assert_eq!(bytes.len(), HEADER_LEN + MAX_BODY_LEN);
    assert_eq!(&bytes[..4], &[0, 0x10, 0, 0]);
    assert_eq!(decode(&bytes), Decoded::Frame(e, HEADER_LEN + MAX_BODY_LEN));
}

#[test]
fn encode_refuses_payload_beyond_limit() {
    assert_eq!(encode(&event(0, &vec![0u8; MAX_BODY_LEN])), None);
    assert_eq!(encode(&event(0, &vec![0u8; MAX_BODY_LEN + 17])), None);
}

#[test]
fn decode_round_trips() {
    let samples = vec![
        event(0, b""),
        event(0, b"null"),
        event(1, b"ping"),
        event(255, &[0, 0, 0, 0]),
        event(17, &[255u8; 1000]),
    ];
    for e in samples {
        let bytes = frame(&e);
        let len = bytes.len();
        assert_eq!(decode(&bytes), Decoded::Frame(e, len));
    }
}

#[test]
fn decode_needs_more_on_every_proper_prefix() {
    let e = event(1, b"partial read");
    let bytes = frame(&e);
    for cut in 0..bytes.len() {
        assert_eq!(decode(&bytes[..cut]), Decoded::NeedMoreData, "cut at {}", cut);
    }
    assert_eq!(decode(&bytes), Decoded::Frame(e, bytes.len()));
}

#[test]
fn decode_two_frames_leaves_nothing() {
    let first = event(1, b"one");
    let second = event(2, b"second");
    let mut buffer = frame(&first);
    buffer.extend_from_slice(&frame(&second));
    let taken = match decode(&buffer) {
        Decoded::Frame(e, taken) => {
            assert_eq!(e, first);
            taken
        }
        other => panic!("expected a frame, found {:?}", other),
    };
    assert_eq!(taken, 8);
    let rest = &buffer[taken..];
    assert_eq!(decode(rest), Decoded::Frame(second, 11));
    assert_eq!(decode(&rest[11..]), Decoded::NeedMoreData);
    assert_eq!(rest.len(), 11);
}

#[test]
fn decode_leaves_trailing_bytes_alone() {
    let e = event(3, b"abc");
    let mut buffer = frame(&e);
    buffer.extend_from_slice(&[0, 0]);
    assert_eq!(decode(&buffer), Decoded::Frame(e, 8));
}

#[test]
fn decode_zero_length_is_corrupt() {
    assert_eq!(decode(&[0, 0, 0, 0]), Decoded::Corrupt);
    assert_eq!(decode(&[0, 0, 0, 0, 1, 2, 3]), Decoded::Corrupt);
}

#[test]
fn decode_oversized_length_is_corrupt() {
    assert_eq!(decode(&[0, 0x10, 0, 1]), Decoded::Corrupt);
    assert_eq!(decode(&[0xff, 0xff, 0xff, 0xff]), Decoded::Corrupt);
    assert_eq!(decode(&[1, 0, 0, 0, 9, 9, 9]), Decoded::Corrupt);
}

#[test]
fn decode_largest_length_waits_for_data() {
    assert_eq!(decode(&[0, 0x10, 0, 0]), Decoded::NeedMoreData);
    assert_eq!(decode(&[0, 0x10, 0, 0, 5]), Decoded::NeedMoreData);
}

#[test]
fn decode_short_header_needs_more() {
    assert_eq!(decode(&[]), Decoded::NeedMoreData);
    assert_eq!(decode(&[0xff]), Decoded::NeedMoreData);
    assert_eq!(decode(&[0xff, 0xff, 0xff]), Decoded::NeedMoreData);
}

#[test]
fn decode_reads_opcode_and_payload_exactly() {
    assert_eq!(decode(&[0, 0, 0, 3, 200, 1, 2]), Decoded::Frame(event(200, &[1, 2]), 7));
    assert_eq!(decode(&[0, 0, 0, 1, 0]), Decoded::Frame(event(0, &[]), 5));
}
