use vstd::arithmetic::div_mod::lemma_breakdown;
use vstd::prelude::*;

use crate::text::{text_from_bytes_lossy, utf8_lossy};

verus! {

/// Big-endian value of a byte sequence.
pub open spec fn be_value(bytes: Seq<u8>) -> nat
    decreases bytes.len(),
{
    if bytes.len() == 0 {
        0
    } else {
        be_value(bytes.drop_last()) * 256 + bytes.last() as nat
    }
}

/// `256` raised to `n`.
pub open spec fn pow256(n: nat) -> nat
    decreases n,
{
    if n == 0 {
        1
    } else {
        256 * pow256((n - 1) as nat)
    }
}

/// The `width` low-order bytes of `v`, most significant first.
pub open spec fn be_bytes(v: nat, width: nat) -> Seq<u8>
    decreases width,
{
    if width == 0 {
        Seq::empty()
    } else {
        be_bytes(v / 256, (width - 1) as nat).push((v % 256) as u8)
    }
}

proof fn lemma_be_value_bound(bytes: Seq<u8>)
    ensures
        be_value(bytes) < pow256(bytes.len()),
    decreases bytes.len(),
{
    if bytes.len() > 0 {
        lemma_be_value_bound(bytes.drop_last());
    }
}

/// Reads the big-endian number held in `bytes[from..to]`.
fn read_be(bytes: &[u8], from: usize, to: usize) -> (v: u64)
    requires
        from <= to <= bytes@.len(),
        to - from <= 8,
    ensures
        v == be_value(bytes@.subrange(from as int, to as int)),
{
    let mut acc: u64 = 0;
    let mut i: usize = from;
    while i < to
        invariant
            from <= i <= to <= bytes@.len(),
            to - from <= 8,
            acc == be_value(bytes@.subrange(from as int, i as int)),
        decreases to - i,
    {
        proof {
            lemma_be_value_bound(bytes@.subrange(from as int, i as int));
            lemma_pow256_eight();
            lemma_pow256_mono((i - from) as nat, 7);
            assert(bytes@.subrange(from as int, i + 1).drop_last() =~= bytes@.subrange(
                from as int,
                i as int,
            ));
        }
        acc = acc * 256 + bytes[i] as u64;
        i = i + 1;
    }
    acc
}

proof fn lemma_pow256_eight()
    ensures
        pow256(8) == 0x1_0000_0000_0000_0000,
{
    reveal_with_fuel(pow256, 9);
}

proof fn lemma_pow256_mono(a: nat, b: nat)
    requires
        a <= b,
    ensures
        pow256(a) <= pow256(b),
    decreases b,
{
    if a < b {
        lemma_pow256_mono(a, (b - 1) as nat);
    }
}


/// One WebSocket frame.
#[derive(Debug)]
pub struct Frame {
    pub fin: bool,
    pub opcode: u8,
    pub masked: bool,
    pub masking_key: [u8; 4],
    pub payload: Vec<u8>,
}

/// A frame's fields as mathematical values.
pub struct FrameView {
    pub fin: bool,
    pub opcode: u8,
    pub masked: bool,
    pub masking_key: Seq<u8>,
    pub payload: Seq<u8>,
}

impl View for Frame {
    type V = FrameView;

    open spec fn view(&self) -> FrameView {
        FrameView {
            fin: self.fin,
            opcode: self.opcode,
            masked: self.masked,
            masking_key: self.masking_key@,
            payload: self.payload@,
        }
    }
}

/// The frame could not be decoded: the bytes end before the frame does.
#[derive(Debug)]
pub struct FrameError {}

/// The FIN flag: the top bit of the first byte.
pub open spec fn fin_flag(b0: u8) -> bool {
    b0 & 0x80u8 != 0
}

/// The opcode: the low four bits of the first byte.
pub open spec fn opcode_bits(b0: u8) -> u8 {
    b0 & 0x0Fu8
}

/// The mask flag: the top bit of the second byte.
pub open spec fn mask_flag(b1: u8) -> bool {
    b1 & 0x80u8 != 0
}

/// The 7-bit length code: the low seven bits of the second byte.
pub open spec fn length_code(b1: u8) -> u8 {
    b1 & 0x7Fu8
}

/// How many extended-length bytes follow the first two bytes.
pub open spec fn extended_size(b1: u8) -> nat {
    if length_code(b1) == 126 {
        2
    } else if length_code(b1) == 127 {
        8
    } else {
        0
    }
}

/// How many masking-key bytes follow the extended length.
pub open spec fn key_size(b1: u8) -> nat {
    if mask_flag(b1) {
        4
    } else {
        0
    }
}

/// Length of the frame header that starts `p` (at least two bytes long).
pub open spec fn header_size(p: Seq<u8>) -> nat {
    2 + extended_size(p[1]) + key_size(p[1])
}

/// Payload length announced by the header that starts `p`.
pub open spec fn payload_size(p: Seq<u8>) -> nat {
    let e = extended_size(p[1]);
    if e == 0 {
        length_code(p[1]) as nat
    } else {
        be_value(p.subrange(2, 2 + e as int))
    }
}

/// How many more bytes the next read of a frame asks for, given the bytes
/// `p` read so far: the rest of the first two bytes, then of the extended
/// length, then of the masking key, then of the payload; 0 once the frame is
/// complete.
pub open spec fn bytes_to_read(p: Seq<u8>) -> nat {
    if p.len() < 2 {
        (2 - p.len()) as nat
    } else if p.len() < 2 + extended_size(p[1]) {
        (2 + extended_size(p[1]) - p.len()) as nat
    } else if p.len() < header_size(p) {
        (header_size(p) - p.len()) as nat
    } else if p.len() < header_size(p) + payload_size(p) {
        (header_size(p) + payload_size(p) - p.len()) as nat
    } else {
        0
    }
}

/// `p` starts with a whole frame.
pub open spec fn is_complete_frame(p: Seq<u8>) -> bool {
    p.len() >= 2 && p.len() >= header_size(p) + payload_size(p)
}

/// The masking key carried by the header that starts `p`, or four zeros.
pub open spec fn masking_key_of(p: Seq<u8>) -> Seq<u8> {
    let e = extended_size(p[1]);
    if mask_flag(p[1]) {
        p.subrange(2 + e as int, 2 + e + 4 as int)
    } else {
        seq![0u8, 0u8, 0u8, 0u8]
    }
}

/// XOR of each byte with the key byte at its position modulo four.
pub open spec fn apply_mask(data: Seq<u8>, key: Seq<u8>) -> Seq<u8> {
    Seq::new(data.len(), |i: int| data[i] ^ key[i % 4])
}

/// The frame at the start of `p`, which `is_complete_frame` holds of.
pub open spec fn decode_frame(p: Seq<u8>) -> FrameView {
    let h = header_size(p);
    let raw = p.subrange(h as int, (h + payload_size(p)) as int);
    let key = masking_key_of(p);
    FrameView {
        fin: fin_flag(p[0]),
        opcode: opcode_bits(p[0]),
        masked: mask_flag(p[1]),
        masking_key: key,
        payload: if mask_flag(p[1]) {
            apply_mask(raw, key)
        } else {
            raw
        },
    }
}

/// XORs `data` with `key` as the mask of a frame payload does.
pub fn unmask_payload(data: &[u8], key: &[u8; 4]) -> (out: Vec<u8>)
    ensures
        out@ == apply_mask(data@, key@),
{
    let mut out: Vec<u8> = Vec::new();
    let mut i: usize = 0;
    while i < data.len()
        invariant
            i <= data@.len(),
            out@ =~= apply_mask(data@.subrange(0, i as int), key@),
        decreases data@.len() - i,
    {
        out.push(data[i] ^ key[i % 4]);
        i = i + 1;
    }
    proof {
        assert(data@.subrange(0, data@.len() as int) =~= data@);
    }
    out
}

fn copy_bytes(data: &[u8], from: usize, to: usize) -> (out: Vec<u8>)
    requires
        from <= to <= data@.len(),
    ensures
        out@ == data@.subrange(from as int, to as int),
{
    let mut out: Vec<u8> = Vec::new();
    let mut i: usize = from;
    while i < to
        invariant
            from <= i <= to <= data@.len(),
            out@ =~= data@.subrange(from as int, i as int),
        decreases to - i,
    {
        out.push(data[i]);
        i = i + 1;
    }
    out
}

/// First byte of an encoded frame: FIN in the top bit, OR-ed with the opcode.
pub open spec fn first_byte(fin: bool, opcode: u8) -> u8 {
    if fin {
        0x80u8 | opcode
    } else {
        opcode
    }
}

/// The bytes that encode `f`: never masked; a payload of at most 125 bytes
/// has its length in the second byte; otherwise, when the length taken
/// modulo 65536 is below 65535, code 126 and that 16-bit value follow;
/// otherwise code 127 and the 64-bit length follow.
pub open spec fn encode_frame(f: FrameView) -> Seq<u8> {
    let n = f.payload.len();
    let b0 = first_byte(f.fin, f.opcode);
    if n <= 125 {
        seq![b0, n as u8] + f.payload
    } else if n % 65536 < 65535 {
        seq![b0, 126u8] + be_bytes(n % 65536, 2) + f.payload
    } else {
        seq![b0, 127u8] + be_bytes(n, 8) + f.payload
    }
}

fn push_be(out: &mut Vec<u8>, v: u64, width: usize)
    requires
        width <= 8,
    ensures
        final(out)@ == old(out)@ + be_bytes(v as nat, width as nat),
    decreases width,
{
    if width > 0 {
        push_be(out, v / 256, width - 1);
        out.push((v % 256) as u8);
    }
    proof {
        if width > 0 {
            assert(final(out)@ =~= old(out)@ + be_bytes(v as nat, width as nat));
        } else {
            assert(old(out)@ + be_bytes(v as nat, 0) =~= old(out)@);
        }
    }
}

impl Frame {
    /// Number of bytes that the next read of a frame asks for, given the bytes
    /// read so far; 0 when they hold a whole frame.
    pub fn bytes_to_read(prefix: &[u8]) -> (n: u64)
        ensures
            n == bytes_to_read(prefix@),
            n == 0 <==> is_complete_frame(prefix@),
    {
        let len = prefix.len();
        if len < 2 {
            return (2 - len) as u64;
        }
        let code = prefix[1] & 0x7F;
        let ext: usize = if code == 126 {
            2
        } else if code == 127 {
            8
        } else {
            0
        };
        if len < 2 + ext {
            return (2 + ext - len) as u64;
        }
        let key: usize = if (prefix[1] & 0x80) != 0 {
            4
        } else {
            0
        };
        let header = 2 + ext + key;
        if len < header {
            return (header - len) as u64;
        }
        let size: u64 = if ext == 0 {
            code as u64
        } else {
            read_be(prefix, 2, 2 + ext)
        };
        let have = (len - header) as u64;
        if have < size {
            size - have
        } else {
            0
        }
    }

    /// Encodes `f` for sending.
    pub fn as_bytes(f: Frame) -> (bytes: Vec<u8>)
        ensures
            bytes@ == encode_frame(f@),
    {
        let mut bytes: Vec<u8> = Vec::new();
        let b0: u8 = if f.fin {
            0x80u8 | f.opcode
        } else {
            f.opcode
        };
        bytes.push(b0);
        let n = f.payload.len();
        if n <= 125 {
            bytes.push(n as u8);
        } else if n % 65536 < 65535 {
            bytes.push(126u8);
            push_be(&mut bytes, (n % 65536) as u64, 2);
        } else {
            bytes.push(127u8);
            push_be(&mut bytes, n as u64, 8);
        }
        let ghost head = bytes@;
        let mut i: usize = 0;
        while i < n
            invariant
                n == f.payload@.len(),
                i <= n,
                bytes@ =~= head + f.payload@.subrange(0, i as int),
            decreases n - i,
        {
            bytes.push(f.payload[i]);
            i = i + 1;
        }
        proof {
            assert(f.payload@.subrange(0, n as int) =~= f.payload@);
            assert(bytes@ =~= encode_frame(f@));
        }
        bytes
    }

    /// Decodes the frame at the start of `bytes`; fails when the bytes end
    /// before the frame does. A masked payload comes out unmasked.
    pub fn try_from(bytes: &[u8]) -> (r: Result<Frame, FrameError>)
        ensures
            r is Ok <==> is_complete_frame(bytes@),
            r matches Ok(f) ==> f@ == decode_frame(bytes@),
    {
        let len = bytes.len();
        if len < 2 {
            return Err(FrameError {  });
        }
        let b0 = bytes[0];
        let b1 = bytes[1];
        let fin = (b0 & 0x80) != 0;
        let opcode = b0 & 0x0F;
        let masked = (b1 & 0x80) != 0;
        let code = b1 & 0x7F;
        let ext: usize = if code == 126 {
            2
        } else if code == 127 {
            8
        } else {
            0
        };
        let key_len: usize = if masked {
            4
        } else {
            0
        };
        let header = 2 + ext + key_len;
        if len < header {
            return Err(FrameError {  });
        }
        let size: u64 = if ext == 0 {
            code as u64
        } else {
            read_be(bytes, 2, 2 + ext)
        };
        let have = (len - header) as u64;
        if have < size {
            return Err(FrameError {  });
        }
        let end = header + size as usize;
        let mut masking_key = [0u8; 4];
        if masked {
            masking_key = [bytes[2 + ext], bytes[3 + ext], bytes[4 + ext], bytes[5 + ext]];
        }
        proof {
            assert(masking_key@ =~= masking_key_of(bytes@));
        }
        let raw = copy_bytes(bytes, header, end);
        let payload = if masked {
            unmask_payload(raw.as_slice(), &masking_key)
        } else {
            raw
        };
        let frame = Frame { fin, opcode, masked, masking_key, payload };
        proof {
            assert(frame@.payload =~= decode_frame(bytes@).payload);
        }
        Ok(frame)
    }
}


impl Clone for Frame {
    fn clone(&self) -> (r: Self)
        ensures
            r@ == self@,
    {
        let payload = copy_bytes(self.payload.as_slice(), 0, self.payload.len());
        proof {
            assert(payload@ =~= self.payload@);
        }
        Frame {
            fin: self.fin,
            opcode: self.opcode,
            masked: self.masked,
            masking_key: self.masking_key,
            payload,
        }
    }
}

impl Frame {
    /// The reply to a close request: a final, unmasked frame with opcode 8
    /// carrying the payload of the request's first frame.
    pub fn get_close_frame(close: &ClientMessage) -> (frame: Frame)
        requires
            close.frames@.len() > 0,
        ensures
            frame@ == control_reply(8, close.frames@[0]@),
    {
        let first = close.frames[0].clone();
        let frame = Frame {
            fin: true,
            opcode: 8,
            masked: false,
            masking_key: [0u8; 4],
            payload: first.payload,
        };
        proof {
            assert(frame@.masking_key =~= seq![0u8, 0u8, 0u8, 0u8]);
        }
        frame
    }

    /// The reply to a ping: a final, unmasked pong frame (opcode 10)
    /// carrying the payload of the ping's first frame.
    pub fn get_pong_frame(ping: &ClientMessage) -> (frame: Frame)
        requires
            ping.frames@.len() > 0,
        ensures
            frame@ == control_reply(0x0A, ping.frames@[0]@),
    {
        let first = ping.frames[0].clone();
        let frame = Frame {
            fin: true,
            opcode: 0x0A,
            masked: false,
            masking_key: [0u8; 4],
            payload: first.payload,
        };
        proof {
            assert(frame@.masking_key =~= seq![0u8, 0u8, 0u8, 0u8]);
        }
        frame
    }

    /// The same frame, marked as not masked; nothing else changes.
    pub fn unmask(f: Frame) -> (r: Frame)
        ensures
            r@ == (FrameView { masked: false, ..f@ }),
    {
        Frame { masked: false, ..f }
    }

    /// Whether a message ends with this frame: it is final, or it is a
    /// close frame.
    pub fn ends_message(&self) -> (b: bool)
        ensures
            b == ends_message(self@),
    {
        self.fin || self.opcode == 8
    }
}

/// A final, unmasked frame with the given opcode and the payload of `f`.
pub open spec fn control_reply(opcode: u8, f: FrameView) -> FrameView {
    FrameView {
        fin: true,
        opcode,
        masked: false,
        masking_key: seq![0u8, 0u8, 0u8, 0u8],
        payload: f.payload,
    }
}

/// A message ends with `f`: it is final, or it is a close frame.
pub open spec fn ends_message(f: FrameView) -> bool {
    f.fin || f.opcode == 8
}

/// The frames of a message, taken by their views.
pub open spec fn frame_views(frames: Seq<Frame>) -> Seq<FrameView> {
    frames.map_values(|f: Frame| f@)
}

/// The text of a message: the payloads, each decoded leniently as UTF-8,
/// one after the other.
pub open spec fn message_text(frames: Seq<FrameView>) -> Seq<char>
    decreases frames.len(),
{
    if frames.len() == 0 {
        Seq::empty()
    } else {
        message_text(frames.drop_last()) + utf8_lossy(frames.last().payload)
    }
}

/// A message from the client: its frames, the opcode of the first frame,
/// and its text.
#[derive(Debug)]
pub struct ClientMessage {
    pub frames: Vec<Frame>,
    pub opcode: u8,
    pub message: String,
}

impl Clone for ClientMessage {
    fn clone(&self) -> (r: Self)
        ensures
            frame_views(r.frames@) == frame_views(self.frames@),
            r.opcode == self.opcode,
            r.message@ == self.message@,
    {
        ClientMessage {
            frames: clone_frames(&self.frames),
            opcode: self.opcode,
            message: self.message.clone(),
        }
    }
}

fn clone_frames(frames: &Vec<Frame>) -> (out: Vec<Frame>)
    ensures
        frame_views(out@) == frame_views(frames@),
{
    let mut out: Vec<Frame> = Vec::new();
    let mut i: usize = 0;
    while i < frames.len()
        invariant
            i <= frames@.len(),
            frame_views(out@) =~= frame_views(frames@.subrange(0, i as int)),
        decreases frames@.len() - i,
    {
        let c = frames[i].clone();
        proof {
            assert(frame_views(out@.push(c)) =~= frame_views(out@).push(c@));
            assert(frame_views(frames@.subrange(0, i + 1)) =~= frame_views(
                frames@.subrange(0, i as int),
            ).push(frames@[i as int]@));
        }
        out.push(c);
        i = i + 1;
    }
    proof {
        assert(frames@.subrange(0, frames@.len() as int) =~= frames@);
    }
    out
}

impl ClientMessage {
    /// Gathers the frames of one message: the opcode is that of the first
    /// frame, the text that of all payloads in order.
    pub fn from(frames: Vec<Frame>) -> (m: ClientMessage)
        requires
            frames@.len() > 0,
        ensures
            m.frames@ == frames@,
            m.opcode == frames@[0].opcode,
            m.message@ == message_text(frame_views(frames@)),
    {
        let mut message = String::new();
        let mut i: usize = 0;
        while i < frames.len()
            invariant
                i <= frames@.len(),
                message@ == message_text(frame_views(frames@.subrange(0, i as int))),
            decreases frames@.len() - i,
        {
            let part = text_from_bytes_lossy(frames[i].payload.as_slice());
            message.append(part.as_str());
            proof {
                assert(frame_views(frames@.subrange(0, i + 1)).drop_last() =~= frame_views(
                    frames@.subrange(0, i as int),
                ));
            }
            i = i + 1;
        }
        proof {
            assert(frames@.subrange(0, frames@.len() as int) =~= frames@);
        }
        let opcode = frames[0].opcode;
        ClientMessage { frames, opcode, message }
    }

    /// The message's text.
    pub fn to_string(&self) -> (s: String)
        ensures
            s@ == self.message@,
    {
        self.message.clone()
    }
}

/// The client's message has an opcode that the server does not answer.
#[derive(Debug)]
pub struct OpcodeNotRecognizedError;

impl OpcodeNotRecognizedError {
    /// The error's text.
    pub fn to_string(&self) -> (s: String)
        ensures
            s@ == "Invalid opcode specified, not recognized"@,
    {
        String::from_str("Invalid opcode specified, not recognized")
    }
}

/// The server's answer to a message.
#[derive(Debug)]
pub struct ServerMessage {
    pub frames: Vec<Frame>,
    pub opcode: u8,
    pub message: String,
}

/// What the server answers, by the client message's opcode: text (1) and
/// binary (2) are echoed, frame by frame, unmasked; close (8) is answered by
/// a close frame; ping (9) by a pong (10); any other opcode by nothing.
pub open spec fn reply_frames(opcode: u8, frames: Seq<FrameView>) -> Option<
    (Seq<FrameView>, u8),
> {
    if opcode == 1 || opcode == 2 {
        Some((frames.map_values(|f: FrameView| FrameView { masked: false, ..f }), opcode))
    } else if opcode == 8 {
        Some((seq![control_reply(8, frames[0])], 8u8))
    } else if opcode == 9 {
        Some((seq![control_reply(0x0A, frames[0])], 0x0Au8))
    } else {
        None
    }
}

impl ServerMessage {
    /// The server's answer to `cmsg` (see `reply_frames`); the text is kept.
    pub fn from(cmsg: &ClientMessage) -> (r: Result<ServerMessage, OpcodeNotRecognizedError>)
        requires
            cmsg.opcode == 8 || cmsg.opcode == 9 ==> cmsg.frames@.len() > 0,
        ensures
            r is Err <==> reply_frames(cmsg.opcode, frame_views(cmsg.frames@)) is None,
            r matches Ok(s) ==> {
                &&& reply_frames(cmsg.opcode, frame_views(cmsg.frames@)) == Some(
                    (frame_views(s.frames@), s.opcode),
                )
                &&& s.message@ == cmsg.message@
            },
    {
        if cmsg.opcode == 1 || cmsg.opcode == 2 {
            let mut frames: Vec<Frame> = Vec::new();
            let mut i: usize = 0;
            while i < cmsg.frames.len()
                invariant
                    i <= cmsg.frames@.len(),
                    frame_views(frames@) =~= frame_views(cmsg.frames@.subrange(0, i as int)).map_values(
                        |f: FrameView| FrameView { masked: false, ..f },
                    ),
                decreases cmsg.frames@.len() - i,
            {
                let c = Frame::unmask(cmsg.frames[i].clone());
                proof {
                    assert(frame_views(frames@.push(c)) =~= frame_views(frames@).push(c@));
                    assert(frame_views(cmsg.frames@.subrange(0, i + 1)) =~= frame_views(
                        cmsg.frames@.subrange(0, i as int),
                    ).push(cmsg.frames@[i as int]@));
                }
                frames.push(c);
                i = i + 1;
            }
            proof {
                assert(cmsg.frames@.subrange(0, cmsg.frames@.len() as int) =~= cmsg.frames@);
            }
            Ok(ServerMessage { frames, opcode: cmsg.opcode, message: cmsg.message.clone() })
        } else if cmsg.opcode == 8 {
            let frames = vec![Frame::get_close_frame(cmsg)];
            proof {
                assert(frame_views(frames@) =~= seq![control_reply(8, cmsg.frames@[0]@)]);
            }
            Ok(ServerMessage { frames, opcode: cmsg.opcode, message: cmsg.message.clone() })
        } else if cmsg.opcode == 9 {
            let frames = vec![Frame::get_pong_frame(cmsg)];
            proof {
                assert(frame_views(frames@) =~= seq![control_reply(0x0A, cmsg.frames@[0]@)]);
            }
            Ok(ServerMessage { frames, opcode: 0x0A, message: cmsg.message.clone() })
        } else {
            Err(OpcodeNotRecognizedError)
        }
    }

    /// The message's text.
    pub fn to_string(&self) -> (s: String)
        ensures
            s@ == self.message@,
    {
        self.message.clone()
    }
}


proof fn lemma_pow256_pos(n: nat)
    ensures
        pow256(n) > 0,
    decreases n,
{
    if n > 0 {
        lemma_pow256_pos((n - 1) as nat);
    }
}

proof fn lemma_be_roundtrip(v: nat, w: nat)
    ensures
        be_bytes(v, w).len() == w,
        be_value(be_bytes(v, w)) == v % pow256(w),
    decreases w,
{
    if w > 0 {
        lemma_be_roundtrip(v / 256, (w - 1) as nat);
        let b = be_bytes(v, w);
        assert(b.drop_last() =~= be_bytes(v / 256, (w - 1) as nat));
        lemma_pow256_pos((w - 1) as nat);
        lemma_breakdown(v as int, 256, pow256((w - 1) as nat) as int);
    }
}

/// Masking is its own inverse: XOR-ing a payload twice with the same
/// four-byte key gives the payload back.
pub proof fn lemma_mask_involution(data: Seq<u8>, key: Seq<u8>)
    requires
        key.len() == 4,
    ensures
        apply_mask(apply_mask(data, key), key) == data,
{
    assert forall|i: int| 0 <= i < data.len() implies apply_mask(apply_mask(data, key), key)[i]
        == data[i] by {
        let a = data[i];
        let k = key[i % 4];
        assert((a ^ k) ^ k == a) by (bit_vector);
    }
    assert(apply_mask(apply_mask(data, key), key) =~= data);
}

/// What `as_bytes` encodes, `try_from` decodes back to the same frame, and
/// `bytes_to_read` asks for nothing more: for a frame that is not masked,
/// with a zero key, an opcode that fits in four bits and a payload length
/// that the encoder's 16-bit length field does not cut short.
pub proof fn lemma_decode_encode(f: FrameView)
    requires
        !f.masked,
        f.masking_key == seq![0u8, 0u8, 0u8, 0u8],
        f.opcode < 16,
        f.payload.len() < 65536 || f.payload.len() % 65536 == 65535,
        f.payload.len() <= u64::MAX,
    ensures
        is_complete_frame(encode_frame(f)),
        bytes_to_read(encode_frame(f)) == 0,
        decode_frame(encode_frame(f)) == f,
{
    let p = encode_frame(f);
    let n = f.payload.len();
    let op = f.opcode;
    assert(op & 0x0Fu8 == op && op & 0x80u8 == 0) by (bit_vector)
        requires
            op < 16,
    ;
    assert((0x80u8 | op) & 0x0Fu8 == op && (0x80u8 | op) & 0x80u8 != 0) by (bit_vector)
        requires
            op < 16,
    ;
    assert(p[0] == first_byte(f.fin, op));
    assert(126u8 & 0x7Fu8 == 126u8 && 126u8 & 0x80u8 == 0) by (bit_vector);
    assert(127u8 & 0x7Fu8 == 127u8 && 127u8 & 0x80u8 == 0) by (bit_vector);
    if n <= 125 {
        let b = n as u8;
        assert(b & 0x7Fu8 == b && b & 0x80u8 == 0) by (bit_vector)
            requires
                b <= 125,
        ;
        assert(p[1] == b);
        assert(p.subrange(2, 2 + n as int) =~= f.payload);
    } else if n % 65536 < 65535 {
        lemma_be_roundtrip(n % 65536, 2);
        reveal_with_fuel(pow256, 3);
        assert(p[1] == 126u8);
        assert(p.subrange(2, 4) =~= be_bytes(n % 65536, 2));
        assert(p.subrange(4, 4 + n as int) =~= f.payload);
    } else {
        lemma_be_roundtrip(n, 8);
        lemma_pow256_eight();
        assert(p[1] == 127u8);
        assert(p.subrange(2, 10) =~= be_bytes(n, 8));
        assert(p.subrange(10, 10 + n as int) =~= f.payload);
    }
    assert(decode_frame(p) =~= f);
}


/// The bytes of a frame laid out as RFC 6455 lays them out: FIN and the
/// opcode; the mask flag and the shortest length form (7 bits; 126 and 16
/// bits; 127 and 64 bits, most significant byte first); the key when masked;
/// then the payload, XOR-ed with the key when masked.
pub open spec fn wire_frame(fin: bool, opcode: u8, masked: bool, key: Seq<u8>, data: Seq<u8>) -> Seq<
    u8,
> {
    let n = data.len();
    let b0: u8 = if fin {
        0x80u8 | opcode
    } else {
        opcode
    };
    let code: u8 = if n <= 125 {
        n as u8
    } else if n < 65536 {
        126u8
    } else {
        127u8
    };
    let b1: u8 = if masked {
        0x80u8 | code
    } else {
        code
    };
    let ext: Seq<u8> = if n <= 125 {
        Seq::empty()
    } else if n < 65536 {
        be_bytes(n, 2)
    } else {
        be_bytes(n, 8)
    };
    let k: Seq<u8> = if masked {
        key
    } else {
        Seq::empty()
    };
    let body: Seq<u8> = if masked {
        Seq::new(n, |i: int| data[i] ^ key[i % 4])
    } else {
        data
    };
    seq![b0, b1] + ext + k + body
}

/// Length of the extended-length field that `wire_frame` writes for `n`
/// payload bytes.
spec fn wire_ext_len(n: nat) -> nat {
    if n <= 125 {
        0
    } else if n < 65536 {
        2
    } else {
        8
    }
}

proof fn lemma_wire_header(fin: bool, opcode: u8, masked: bool, key: Seq<u8>, data: Seq<u8>)
    requires
        opcode < 16,
        key.len() == 4,
        data.len() <= u64::MAX,
    ensures
        ({
            let q = wire_frame(fin, opcode, masked, key, data);
            let e = wire_ext_len(data.len());
            let ks: nat = if masked {
                4
            } else {
                0
            };
            &&& q.len() == 2 + e + ks + data.len()
            &&& fin_flag(q[0]) == fin
            &&& opcode_bits(q[0]) == opcode
            &&& mask_flag(q[1]) == masked
            &&& extended_size(q[1]) == e
            &&& key_size(q[1]) == ks
            &&& (e > 0 ==> be_value(q.subrange(2, 2 + e as int)) == data.len())
            &&& (e == 0 ==> length_code(q[1]) as nat == data.len())
            &&& (masked ==> q.subrange(2 + e as int, 6 + e as int) == key)
            &&& q.subrange((2 + e + ks) as int, q.len() as int) == (if masked {
                Seq::new(data.len(), |i: int| data[i] ^ key[i % 4])
            } else {
                data
            })
        }),
{
    let q = wire_frame(fin, opcode, masked, key, data);
    let n = data.len();
    let e = wire_ext_len(n);
    assert((0x80u8 | opcode) & 0x0Fu8 == opcode && (0x80u8 | opcode) & 0x80u8 != 0 && opcode
        & 0x0Fu8 == opcode && opcode & 0x80u8 == 0) by (bit_vector)
        requires
            opcode < 16,
    ;
    let code: u8 = if n <= 125 {
        n as u8
    } else if n < 65536 {
        126u8
    } else {
        127u8
    };
    assert(code <= 127);
    assert((0x80u8 | code) & 0x7Fu8 == code && (0x80u8 | code) & 0x80u8 != 0 && code & 0x7Fu8
        == code && code & 0x80u8 == 0) by (bit_vector)
        requires
            code <= 127,
    ;
    let b0: u8 = if fin {
        0x80u8 | opcode
    } else {
        opcode
    };
    let b1: u8 = if masked {
        0x80u8 | code
    } else {
        code
    };
    assert(q[0] == b0);
    assert(q[1] == b1);
    assert(length_code(q[1]) == code);
    assert(fin_flag(q[0]) == fin);
    assert(opcode_bits(q[0]) == opcode);
    assert(mask_flag(q[1]) == masked);
    assert(extended_size(q[1]) == e);
    if n > 125 && n < 65536 {
        lemma_be_roundtrip(n, 2);
        reveal_with_fuel(pow256, 3);
        assert(pow256(2) == 65536);
        assert(q.subrange(2, 4) =~= be_bytes(n, 2));
        assert(n % 65536 == n);
        assert(be_value(q.subrange(2, 2 + e as int)) == n);
    } else if n >= 65536 {
        lemma_be_roundtrip(n, 8);
        lemma_pow256_eight();
        assert(q.subrange(2, 10) =~= be_bytes(n, 8));
        assert(n % 0x1_0000_0000_0000_0000 == n);
        assert(be_value(q.subrange(2, 2 + e as int)) == n);
    }
    let ks: nat = if masked {
        4
    } else {
        0
    };
    if masked {
        assert(q.subrange(2 + e as int, 6 + e as int) =~= key);
    }
    assert(q.subrange((2 + e + ks) as int, q.len() as int) =~= (if masked {
        Seq::new(n, |i: int| data[i] ^ key[i % 4])
    } else {
        data
    }));
    assert(q.len() == 2 + e + ks + data.len());
    assert(key_size(q[1]) == ks);
    assert(e > 0 ==> be_value(q.subrange(2, 2 + e as int)) == data.len());
    assert(e == 0 ==> length_code(q[1]) as nat == data.len());
}

/// Decoding a frame laid out as RFC 6455 lays it out gives back its FIN
/// flag, opcode, mask flag, key and payload (unmasked), whatever the payload
/// length and whether masked or not; the bytes are a whole frame, and the
/// reader asks for nothing more.
pub proof fn lemma_decode_wire(fin: bool, opcode: u8, masked: bool, key: Seq<u8>, data: Seq<u8>)
    requires
        opcode < 16,
        key.len() == 4,
        data.len() <= u64::MAX,
    ensures
        is_complete_frame(wire_frame(fin, opcode, masked, key, data)),
        bytes_to_read(wire_frame(fin, opcode, masked, key, data)) == 0,
        decode_frame(wire_frame(fin, opcode, masked, key, data)) == (FrameView {
            fin,
            opcode,
            masked,
            masking_key: if masked {
                key
            } else {
                seq![0u8, 0u8, 0u8, 0u8]
            },
            payload: data,
        }),
{
    lemma_wire_header(fin, opcode, masked, key, data);
    let q = wire_frame(fin, opcode, masked, key, data);
    let n = data.len();
    if masked {
        let body = Seq::new(n, |i: int| data[i] ^ key[i % 4]);
        assert forall|i: int| 0 <= i < n implies #[trigger] apply_mask(body, key)[i] == data[i] by {
            let a = data[i];
            let k = key[i % 4];
            assert((a ^ k) ^ k == a) by (bit_vector);
        }
        assert(apply_mask(body, key) =~= data);
    }
    assert(decode_frame(q).payload =~= data);
    assert(decode_frame(q) =~= (FrameView {
        fin,
        opcode,
        masked,
        masking_key: if masked {
            key
        } else {
            seq![0u8, 0u8, 0u8, 0u8]
        },
        payload: data,
    }));
}

/// Reading a frame laid out as RFC 6455 lays it out, the reader never asks
/// past its end: before the last byte it always asks for more, and what it
/// asks for ends exactly where the part being read ends (the first two
/// bytes, the extended length, the key, the payload).
pub proof fn lemma_read_stops_at_frame_end(
    fin: bool,
    opcode: u8,
    masked: bool,
    key: Seq<u8>,
    data: Seq<u8>,
    j: int,
)
    requires
        opcode < 16,
        key.len() == 4,
        data.len() <= u64::MAX,
        0 <= j < wire_frame(fin, opcode, masked, key, data).len(),
    ensures
        bytes_to_read(wire_frame(fin, opcode, masked, key, data).take(j)) > 0,
        j + bytes_to_read(wire_frame(fin, opcode, masked, key, data).take(j)) <= wire_frame(
            fin,
            opcode,
            masked,
            key,
            data,
        ).len(),
        ({
            let n = data.len();
            let e: int = if n <= 125 {
                0
            } else if n < 65536 {
                2
            } else {
                8
            };
            let ks: int = if masked {
                4
            } else {
                0
            };
            j + bytes_to_read(wire_frame(fin, opcode, masked, key, data).take(j)) == if j < 2 {
                2
            } else if j < 2 + e {
                2 + e
            } else if j < 2 + e + ks {
                2 + e + ks
            } else {
                2 + e + ks + n
            }
        }),
{
    lemma_wire_header(fin, opcode, masked, key, data);
    let q = wire_frame(fin, opcode, masked, key, data);
    let p = q.take(j);
    let e = wire_ext_len(data.len());
    if j >= 2 {
        assert(p[0] == q[0] && p[1] == q[1]);
        if j >= 2 + e {
            assert(p.subrange(2, 2 + e as int) =~= q.subrange(2, 2 + e as int));
        }
    }
}


/// What `as_bytes` writes for a frame of up to 65534 payload bytes is the
/// frame laid out as RFC 6455 lays it out, unmasked, with the shortest
/// length form: two header bytes up to 125 payload bytes, four from 126 on.
pub proof fn lemma_encode_layout(f: FrameView)
    requires
        f.opcode < 16,
        f.payload.len() <= 65534,
    ensures
        encode_frame(f) == wire_frame(f.fin, f.opcode, false, seq![0u8, 0u8, 0u8, 0u8], f.payload),
        f.payload.len() <= 125 ==> encode_frame(f).len() == f.payload.len() + 2
            && encode_frame(f)[1] == f.payload.len(),
        126 <= f.payload.len() ==> encode_frame(f).len() == f.payload.len() + 4
            && encode_frame(f)[1] == 126 && encode_frame(f)[2] == f.payload.len() / 256
            && encode_frame(f)[3] == f.payload.len() % 256,
{
    let n = f.payload.len();
    if n > 125 {
        assert(n % 65536 == n);
        reveal_with_fuel(be_bytes, 3);
    }
    assert(encode_frame(f) =~= wire_frame(
        f.fin,
        f.opcode,
        false,
        seq![0u8, 0u8, 0u8, 0u8],
        f.payload,
    ));
}

/// The text of a message made of two runs of frames is the text of the first
/// run followed by that of the second: no payload is dropped, repeated or
/// moved.
pub proof fn lemma_message_text_concat(s: Seq<FrameView>, t: Seq<FrameView>)
    ensures
        message_text(s + t) == message_text(s) + message_text(t),
    decreases t.len(),
{
    if t.len() == 0 {
        assert(s + t =~= s);
        assert(message_text(s) + message_text(t) =~= message_text(s));
    } else {
        lemma_message_text_concat(s, t.drop_last());
        assert((s + t).drop_last() =~= s + t.drop_last());
        assert(message_text(s + t) =~= message_text(s) + message_text(t));
    }
}

/// The text of a one-frame message is its payload, decoded leniently.
pub proof fn lemma_message_text_single(f: FrameView)
    ensures
        message_text(seq![f]) == utf8_lossy(f.payload),
{
    assert(seq![f].drop_last() =~= Seq::<FrameView>::empty());
    assert(message_text(Seq::<FrameView>::empty()) == Seq::<char>::empty());
    assert(message_text(seq![f]) =~= utf8_lossy(f.payload));
}

} // verus!
