use ws_server::{ClientMessage, Frame};

fn frame(fin: bool, opcode: u8, masked: bool, payload: &[u8]) -> Frame {
    Frame { fin, opcode, masked, masking_key: [0u8; 4], payload: payload.to_vec() }
}

#[test]
fn decodes_masked_hello() {
    let bytes = [0x81u8, 0x85, 0x37, 0xfa, 0x21, 0x3d, 0x7f, 0x9f, 0x4d, 0x51, 0x58];
    let f = Frame::try_from(&bytes[..]).unwrap();
    assert!(f.fin);
    assert_eq!(f.opcode, 1);
    assert!(f.masked);
    assert_eq!(f.masking_key, [0x37, 0xfa, 0x21, 0x3d]);
    assert_eq!(f.payload, b"Hello".to_vec());
}

#[test]
fn decodes_unmasked_final_frame() {
    let bytes = [0x81u8, 0x05, b'H', b'e', b'l', b'l', b'o'];
    assert_eq!(Frame::bytes_to_read(&bytes), 0);
    let f = Frame::try_from(&bytes[..]).unwrap();
    assert!(f.fin);
    assert!(!f.masked);
    assert_eq!(f.opcode, 1);
    assert_eq!(f.masking_key, [0, 0, 0, 0]);
    assert_eq!(f.payload, b"Hello".to_vec());
}

#[test]
fn decodes_masked_fragment() {
    let bytes = [0x01u8, 0x83, 0x37, 0xfa, 0x21, 0x3d, 0x7f, 0x9f, 0x4d];
    assert_eq!(Frame::bytes_to_read(&bytes[..2]), 4);
    assert_eq!(Frame::bytes_to_read(&bytes[..6]), 3);
    assert_eq!(Frame::bytes_to_read(&bytes), 0);
    let f = Frame::try_from(&bytes[..]).unwrap();
    assert!(!f.fin);
    assert!(f.masked);
    assert_eq!(f.opcode, 1);
    assert_eq!(f.masking_key, [0x37, 0xfa, 0x21, 0x3d]);
    assert_eq!(f.payload, b"Hel".to_vec());
}

/// Reads one frame from the front of `stream` the way the server reads a
/// socket, and returns it with the number of bytes taken.
fn read_one(stream: &[u8]) -> (Frame, usize) {
    let mut taken: Vec<u8> = Vec::new();
    loop {
        let n = Frame::bytes_to_read(&taken) as usize;
        if n == 0 {
            break;
        }
        let at = taken.len();
        taken.extend_from_slice(&stream[at..at + n]);
    }
    (Frame::try_from(&taken[..]).unwrap(), taken.len())
}

#[test]
fn reads_masked_two_fragment_message() {
    let stream = [
        0x01u8, 0x83, 0x37, 0xfa, 0x21, 0x3d, 0x7f, 0x9f, 0x4d, 0x80, 0x82, 0x3d, 0x37, 0xfa,
        0x21, 0x51, 0x58,
    ];
    let (first, n1) = read_one(&stream);
    assert_eq!(n1, 9);
    assert!(!first.ends_message());
    let (second, n2) = read_one(&stream[n1..]);
    assert_eq!(n2, 8);
    assert!(second.ends_message());
    let m = ClientMessage::from(vec![first, second]);
    assert_eq!(m.frames.len(), 2);
    assert_eq!(m.frames[0].opcode, 1);
    assert!(!m.frames[0].fin);
    assert_eq!(m.frames[1].opcode, 0);
    assert!(m.frames[1].fin);
    assert_eq!(m.opcode, 1);
    assert_eq!(m.message, "Hello");
}

#[test]
fn decodes_unmasked_fragment() {
    let bytes = [0x01u8, 0x03, b'H', b'e', b'l'];
    let f = Frame::try_from(&bytes[..]).unwrap();
    assert!(!f.fin);
    assert!(!f.masked);
    assert_eq!(f.opcode, 1);
    assert_eq!(f.masking_key, [0, 0, 0, 0]);
    assert_eq!(f.payload, b"Hel".to_vec());
}

#[test]
fn decodes_extended_length() {
    let mut bytes = vec![0x02u8, 0x7E, 0x01, 0x00];
    bytes.extend(std::iter::repeat(7u8).take(256));
    let f = Frame::try_from(&bytes[..]).unwrap();
    assert_eq!(f.opcode, 2);
    assert_eq!(f.payload.len(), 256);
    assert!(f.payload.iter().all(|b| *b == 7));
}

#[test]
fn decodes_eight_byte_length() {
    let mut bytes = vec![0x02u8, 0x7F, 0, 0, 0, 0, 0, 0, 0x01, 0x02];
    bytes.extend(std::iter::repeat(1u8).take(258));
    let f = Frame::try_from(&bytes[..]).unwrap();
    assert_eq!(f.payload.len(), 258);
}

#[test]
fn refuses_short_input() {
    assert!(Frame::try_from(&[][..]).is_err());
    assert!(Frame::try_from(&[0x01u8][..]).is_err());
    assert!(Frame::try_from(&[0x01u8, 0x7E, 0x00][..]).is_err());
    assert!(Frame::try_from(&[0x01u8, 0x03, 1, 2][..]).is_err());
}

#[test]
fn reads_in_phases() {
    assert_eq!(Frame::bytes_to_read(&[]), 2);
    assert_eq!(Frame::bytes_to_read(&[0x81]), 1);
    assert_eq!(Frame::bytes_to_read(&[0x81, 0x85]), 4);
    assert_eq!(Frame::bytes_to_read(&[0x81, 0x85, 1, 2, 3, 4]), 5);
    assert_eq!(Frame::bytes_to_read(&[0x81, 0x85, 1, 2, 3, 4, 5, 6, 7, 8, 9]), 0);
    assert_eq!(Frame::bytes_to_read(&[0x02, 0x7E]), 2);
    assert_eq!(Frame::bytes_to_read(&[0x02, 0x7E, 0x01, 0x00]), 256);
    assert_eq!(Frame::bytes_to_read(&[0x02, 0x7F]), 8);
    assert_eq!(Frame::bytes_to_read(&[0x82, 0x7E, 0x00, 0x10]), 16);
    assert_eq!(Frame::bytes_to_read(&[0x82, 0xFE, 0x00, 0x10]), 4);
}

#[test]
fn encodes_short_frame() {
    let bytes = Frame::as_bytes(frame(true, 1, false, b"Hello"));
    assert_eq!(bytes, vec![0x81, 0x05, b'H', b'e', b'l', b'l', b'o']);
}

#[test]
fn encoding_never_sets_the_mask_bit() {
    let bytes = Frame::as_bytes(frame(false, 2, true, b"ab"));
    assert_eq!(bytes, vec![0x02, 0x02, b'a', b'b']);
}

#[test]
fn encodes_sixteen_bit_length() {
    let payload = vec![9u8; 200];
    let bytes = Frame::as_bytes(frame(true, 2, false, &payload));
    assert_eq!(&bytes[..4], &[0x82, 126, 0x00, 0xC8]);
    assert_eq!(bytes.len(), 204);
}

#[test]
fn encodes_sixty_four_bit_length() {
    let payload = vec![0u8; 65535];
    let bytes = Frame::as_bytes(frame(true, 2, false, &payload));
    assert_eq!(&bytes[..10], &[0x82, 127, 0, 0, 0, 0, 0, 0, 0xFF, 0xFF]);
    assert_eq!(bytes.len(), 65545);
}

#[test]
fn encoding_keeps_the_length_modulo_65536() {
    let payload = vec![0u8; 70000];
    let bytes = Frame::as_bytes(frame(true, 2, false, &payload));
    assert_eq!(&bytes[..4], &[0x82, 126, 0x11, 0x70]);
    assert_eq!(bytes.len(), 70004);
}

#[test]
fn final_frame_round_trips() {
    let f = frame(true, 2, false, &[1, 2, 3]);
    let bytes = Frame::as_bytes(f.clone());
    assert_eq!(Frame::bytes_to_read(&bytes), 0);
    let g = Frame::try_from(&bytes[..]).unwrap();
    assert!(g.fin);
    assert!(!g.masked);
    assert_eq!(g.opcode, 2);
    assert_eq!(g.payload, vec![1, 2, 3]);
}

#[test]
fn fragment_round_trips() {
    let f = frame(false, 1, false, b"round trip");
    let bytes = Frame::as_bytes(f.clone());
    assert_eq!(Frame::bytes_to_read(&bytes), 0);
    let g = Frame::try_from(&bytes[..]).unwrap();
    assert_eq!(g.fin, f.fin);
    assert_eq!(g.opcode, f.opcode);
    assert_eq!(g.masked, f.masked);
    assert_eq!(g.masking_key, f.masking_key);
    assert_eq!(g.payload, f.payload);
}

#[test]
fn masking_twice_restores_payload() {
    let key = [0x37u8, 0xfa, 0x21, 0x3d];
    let once = ws_server::message::unmask_payload(b"Hello", &key);
    assert_eq!(once, vec![0x7f, 0x9f, 0x4d, 0x51, 0x58]);
    let twice = ws_server::message::unmask_payload(&once, &key);
    assert_eq!(twice, b"Hello".to_vec());
}

#[test]
fn unmask_changes_only_the_flag() {
    let mut f = frame(true, 1, true, b"x");
    f.masking_key = [1, 2, 3, 4];
    let g = Frame::unmask(f);
    assert!(!g.masked);
    assert!(g.fin);
    assert_eq!(g.opcode, 1);
    assert_eq!(g.masking_key, [1, 2, 3, 4]);
    assert_eq!(g.payload, b"x".to_vec());
}

#[test]
fn message_ends_with_final_or_close_frame() {
    assert!(frame(true, 1, false, b"").ends_message());
    assert!(frame(false, 8, false, b"").ends_message());
    assert!(!frame(false, 1, false, b"").ends_message());
}

#[test]
fn close_and_pong_frames_carry_first_payload() {
    let mut k = frame(true, 8, true, b"\x03\xe8bye");
    k.masking_key = [5, 6, 7, 8];
    let close = ClientMessage::from(vec![k, frame(true, 0, false, b"rest")]);
    let c = Frame::get_close_frame(&close);
    assert!(c.fin);
    assert_eq!(c.opcode, 8);
    assert!(!c.masked);
    assert_eq!(c.masking_key, [0, 0, 0, 0]);
    assert_eq!(c.payload, b"\x03\xe8bye".to_vec());

    let ping = ClientMessage::from(vec![frame(true, 9, true, b"ping")]);
    let p = Frame::get_pong_frame(&ping);
    assert!(p.fin);
    assert_eq!(p.opcode, 0x0A);
    assert!(!p.masked);
    assert_eq!(p.payload, b"ping".to_vec());
}
