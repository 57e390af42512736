use ws_server::{handle_session, ClientMessage, Frame, OpcodeNotRecognizedError, ServerMessage};

fn frame(fin: bool, opcode: u8, payload: &[u8]) -> Frame {
    Frame { fin, opcode, masked: true, masking_key: [1, 2, 3, 4], payload: payload.to_vec() }
}

#[test]
fn client_message_joins_payloads() {
    let m = ClientMessage::from(vec![frame(false, 1, b"Hel"), frame(true, 0, b"lo")]);
    assert_eq!(m.opcode, 1);
    assert_eq!(m.message, "Hello");
    assert_eq!(m.frames.len(), 2);
    assert_eq!(m.to_string(), "Hello");
}

#[test]
fn client_message_replaces_invalid_utf8() {
    let m = ClientMessage::from(vec![frame(true, 2, &[0x61, 0xFF, 0x62])]);
    assert_eq!(m.message, "a\u{FFFD}b");
}

#[test]
fn text_is_echoed_unmasked() {
    let m = ClientMessage::from(vec![frame(false, 1, b"Hel"), frame(true, 0, b"lo")]);
    let s = ServerMessage::from(&m).unwrap();
    assert_eq!(s.opcode, 1);
    assert_eq!(s.message, "Hello");
    assert_eq!(s.to_string(), "Hello");
    assert_eq!(s.frames.len(), 2);
    assert!(!s.frames[0].masked && !s.frames[1].masked);
    assert!(!s.frames[0].fin && s.frames[1].fin);
    assert_eq!(s.frames[0].opcode, 1);
    assert_eq!(s.frames[1].opcode, 0);
    assert_eq!(s.frames[0].payload, b"Hel".to_vec());
    assert_eq!(s.frames[0].masking_key, [1, 2, 3, 4]);
}

#[test]
fn binary_is_echoed() {
    let m = ClientMessage::from(vec![frame(true, 2, &[1, 2, 3])]);
    let s = ServerMessage::from(&m).unwrap();
    assert_eq!(s.opcode, 2);
    assert_eq!(s.frames[0].payload, vec![1, 2, 3]);
}

#[test]
fn close_is_answered_by_close_frame() {
    let m = ClientMessage::from(vec![frame(true, 8, b"\x03\xe8")]);
    let s = ServerMessage::from(&m).unwrap();
    assert_eq!(s.opcode, 8);
    assert_eq!(s.frames.len(), 1);
    assert_eq!(s.frames[0].opcode, 8);
    assert!(s.frames[0].fin && !s.frames[0].masked);
    assert_eq!(s.frames[0].payload, b"\x03\xe8".to_vec());
}

#[test]
fn ping_is_answered_by_pong() {
    let m = ClientMessage::from(vec![frame(true, 9, b"Hello")]);
    let s = ServerMessage::from(&m).unwrap();
    assert_eq!(s.opcode, 0x0A);
    assert_eq!(s.frames.len(), 1);
    assert_eq!(s.frames[0].opcode, 0x0A);
    assert_eq!(s.frames[0].payload, b"Hello".to_vec());
    assert_eq!(s.message, "Hello");
}

#[test]
fn other_opcodes_are_not_recognized() {
    for op in [0u8, 3, 7, 10, 15] {
        let m = ClientMessage::from(vec![frame(true, op, b"x")]);
        assert!(ServerMessage::from(&m).is_err());
        assert!(handle_session(&m).is_err());
    }
    assert_eq!(
        OpcodeNotRecognizedError.to_string(),
        "Invalid opcode specified, not recognized"
    );
}

#[test]
fn session_echoes_text() {
    let m = ClientMessage::from(vec![frame(true, 1, b"Hello")]);
    let step = handle_session(&m).unwrap();
    assert!(!step.close);
    assert_eq!(step.outgoing, vec![vec![0x81, 0x05, b'H', b'e', b'l', b'l', b'o']]);
}

#[test]
fn session_echoes_each_fragment() {
    let m = ClientMessage::from(vec![frame(false, 1, b"Hel"), frame(true, 0, b"lo")]);
    let step = handle_session(&m).unwrap();
    assert!(!step.close);
    assert_eq!(
        step.outgoing,
        vec![vec![0x01, 0x03, b'H', b'e', b'l'], vec![0x80, 0x02, b'l', b'o']]
    );
}

#[test]
fn session_answers_ping_with_pong() {
    let m = ClientMessage::from(vec![frame(true, 9, b"Hello")]);
    let step = handle_session(&m).unwrap();
    assert!(!step.close);
    assert_eq!(step.outgoing, vec![vec![0x8A, 0x05, b'H', b'e', b'l', b'l', b'o']]);
}

#[test]
fn session_closes_on_close_request() {
    let m = ClientMessage::from(vec![frame(true, 8, b"\x03\xe8")]);
    let step = handle_session(&m).unwrap();
    assert!(step.close);
    assert_eq!(step.outgoing, vec![vec![0x88, 0x02, 0x03, 0xe8]]);
}
