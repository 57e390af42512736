pub mod message;
pub mod request;
pub mod response;
pub mod text;

pub use crate::message::{ClientMessage, Frame, FrameError, OpcodeNotRecognizedError, ServerMessage};
pub use crate::request::{
    BadRequestError, MethodNotAllowedError, Request, RequestError, RequestHeader,
};
pub use crate::response::{Header, InternalServerError, NotFoundError, Response, ResponseError};

use vstd::prelude::*;

use crate::message::{control_reply, encode_frame, frame_views, reply_frames, FrameView};
use crate::request::parse_request;
use crate::response::{respond, response_text};
use crate::text::{text_from_bytes_lossy, utf8_lossy};

verus! {

/// The session with a client failed.
#[derive(Debug)]
pub struct SessionError;

/// What the server does with an opening handshake: the text to send back,
/// if any, and whether the handshake succeeded.
#[derive(Debug)]
pub struct HandshakeOutcome {
    pub reply: Option<String>,
    pub result: Result<(), SessionError>,
}

/// The text sent back for a handshake request, if any, and whether the
/// handshake succeeded: a refused request gets no reply; a request for
/// another route than `/` gets the 404 text; an accepted one gets the
/// handshake response. `None`: the request text has no answer.
pub open spec fn handshake(text: Seq<char>) -> Option<(Option<Seq<char>>, bool)> {
    match parse_request(text) {
        None => None,
        Some(Err(_)) => Some((None, false)),
        Some(Ok(req)) => match respond(req) {
            Ok(resp) => Some((Some(response_text(resp)), true)),
            Err(ResponseError::NotFoundError) => Some(
                (Some("HTTP/1.1 404 Not Found\r\nContent-Type: text/plain\r\nConnection: close"@), false),
            ),
            Err(ResponseError::InternalServerError) => Some(
                (
                    Some(
                        "HTTP/1.1 500 Internal Server Error\r\nContent-Type: text/plain\r\nAllow: GET\r\nConnection: close"@,
                    ),
                    false,
                ),
            ),
        },
    }
}

/// A refused request gets no reply and fails the handshake; a request for
/// another route than `/` gets the 404 text and fails it; an accepted request
/// for `/` gets the 101 response and succeeds.
pub proof fn lemma_handshake_answers(text: Seq<char>)
    ensures
        parse_request(text) matches Some(Err(_)) ==> handshake(text) == Some(
            (None::<Seq<char>>, false),
        ),
        parse_request(text) matches Some(Ok(req)) ==> req.route != "/"@ ==> handshake(text)
            == Some(
            (
                Some(
                    "HTTP/1.1 404 Not Found\r\nContent-Type: text/plain\r\nConnection: close"@,
                ),
                false,
            ),
        ),
        parse_request(text) matches Some(Ok(req)) ==> req.route == "/"@ ==> handshake(text)
            == Some((Some(response_text(respond(req)->Ok_0)), true)),
{
}

/// An outcome taken as mathematical values.
pub open spec fn outcome_view(o: HandshakeOutcome) -> (Option<Seq<char>>, bool) {
    (
        match o.reply {
            Some(s) => Some(s@),
            None => None,
        },
        o.result is Ok,
    )
}

/// Answers the opening handshake read from a client (`request`, decoded
/// leniently as UTF-8). `None` when the request text has no answer.
pub fn handle_handshake(request: &[u8]) -> (r: Option<HandshakeOutcome>)
    ensures
        r is None <==> handshake(utf8_lossy(request@)) is None,
        r matches Some(o) ==> handshake(utf8_lossy(request@)) == Some(outcome_view(o)),
{
    let text = text_from_bytes_lossy(request);
    answer_handshake(text.as_str())
}

/// Answers an opening handshake request text (see `handshake`). `None` when
/// the text has no answer.
pub fn answer_handshake(text: &str) -> (r: Option<HandshakeOutcome>)
    ensures
        r is None <==> handshake(text@) is None,
        r matches Some(o) ==> handshake(text@) == Some(outcome_view(o)),
{
    if !Request::can_parse(text) {
        return None;
    }
    match Request::try_from(text) {
        Err(_) => Some(HandshakeOutcome { reply: None, result: Err(SessionError) }),
        Ok(req) => {
            match Response::try_from(&req) {
                Ok(resp) => Some(HandshakeOutcome { reply: Some(resp.to_string()), result: Ok(()) }),
                Err(ResponseError::NotFoundError) => Some(
                    HandshakeOutcome {
                        reply: Some(NotFoundError.to_string()),
                        result: Err(SessionError),
                    },
                ),
                Err(ResponseError::InternalServerError) => Some(
                    HandshakeOutcome {
                        reply: Some(InternalServerError.to_string()),
                        result: Err(SessionError),
                    },
                ),
            }
        },
    }
}

/// What the server does with one client message: the encoded frames to send,
/// and whether to close the connection and end the session.
#[derive(Debug)]
pub struct SessionStep {
    pub outgoing: Vec<Vec<u8>>,
    pub close: bool,
}

/// The views of byte buffers.
pub open spec fn buffer_views(v: Seq<Vec<u8>>) -> Seq<Seq<u8>> {
    v.map_values(|b: Vec<u8>| b@)
}

/// The server's step for a client message with opcode `opcode` and frames
/// `frames`: send the encoded reply frames; after a close request, close the
/// connection. `None` when the opcode gets no answer.
pub open spec fn session_step(opcode: u8, frames: Seq<FrameView>) -> Option<(Seq<Seq<u8>>, bool)> {
    match reply_frames(opcode, frames) {
        None => None,
        Some((fs, op)) => Some((fs.map_values(|f: FrameView| encode_frame(f)), op == 8)),
    }
}

/// The server's step for one message of an open session (see
/// `session_step`); fails for an opcode that gets no answer.
pub fn handle_session(client: &ClientMessage) -> (r: Result<SessionStep, OpcodeNotRecognizedError>)
    requires
        client.opcode == 8 || client.opcode == 9 ==> client.frames@.len() > 0,
    ensures
        r is Err <==> session_step(client.opcode, frame_views(client.frames@)) is None,
        r matches Ok(step) ==> session_step(client.opcode, frame_views(client.frames@)) == Some(
            (buffer_views(step.outgoing@), step.close),
        ),
{
    let reply = ServerMessage::from(client)?;
    let close = reply.opcode == 8;
    let ghost fv = frame_views(reply.frames@);
    let mut outgoing: Vec<Vec<u8>> = Vec::new();
    let frames = reply.frames;
    let mut i: usize = 0;
    let n = frames.len();
    while i < n
        invariant
            n == frames@.len(),
            i <= n,
            frame_views(frames@) == fv,
            buffer_views(outgoing@) =~= fv.subrange(0, i as int).map_values(
                |f: FrameView| encode_frame(f),
            ),
        decreases n - i,
    {
        let bytes = Frame::as_bytes(frames[i].clone());
        proof {
            assert(buffer_views(outgoing@.push(bytes)) =~= buffer_views(outgoing@).push(bytes@));
            assert(fv[i as int] == frames@[i as int]@);
            assert(fv.subrange(0, i + 1).map_values(|f: FrameView| encode_frame(f))
                =~= fv.subrange(0, i as int).map_values(|f: FrameView| encode_frame(f)).push(
                encode_frame(fv[i as int]),
            ));
        }
        outgoing.push(bytes);
        i = i + 1;
    }
    proof {
        assert(fv.subrange(0, n as int) =~= fv);
    }
    Ok(SessionStep { outgoing, close })
}


/// Every ping is answered by one encoded pong frame carrying the ping's
/// first payload, and the session goes on.
pub proof fn lemma_ping_gets_pong(frames: Seq<FrameView>)
    requires
        frames.len() > 0,
    ensures
        session_step(9, frames) == Some(
            (seq![encode_frame(control_reply(0x0A, frames[0]))], false),
        ),
{
    assert(seq![control_reply(0x0Au8, frames[0])].map_values(|f: FrameView| encode_frame(f))
        =~= seq![encode_frame(control_reply(0x0A, frames[0]))]);
}

/// Every close request is answered by one encoded close frame carrying the
/// request's first payload, and the connection is then closed.
pub proof fn lemma_close_gets_close_frame(frames: Seq<FrameView>)
    requires
        frames.len() > 0,
    ensures
        session_step(8, frames) == Some(
            (seq![encode_frame(control_reply(8, frames[0]))], true),
        ),
{
    assert(seq![control_reply(8u8, frames[0])].map_values(|f: FrameView| encode_frame(f))
        =~= seq![encode_frame(control_reply(8, frames[0]))]);
}

/// Text and binary messages are echoed: each frame goes back encoded, the
/// same FIN flag, opcode, key and payload, not masked; the session goes on.
pub proof fn lemma_data_is_echoed(opcode: u8, frames: Seq<FrameView>)
    requires
        opcode == 1 || opcode == 2,
    ensures
        session_step(opcode, frames) matches Some((out, close)) && !close && out.len()
            == frames.len() && forall|i: int|
            0 <= i < frames.len() ==> #[trigger] out[i] == encode_frame(
                FrameView { masked: false, ..frames[i] },
            ),
{
}

/// A client message with any other opcode than text, binary, close or ping
/// gets no answer.
pub proof fn lemma_other_opcodes_refused(opcode: u8, frames: Seq<FrameView>)
    requires
        opcode != 1 && opcode != 2 && opcode != 8 && opcode != 9,
    ensures
        session_step(opcode, frames) is None,
{
}

} // verus!
