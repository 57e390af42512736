use ws_server::{
    handle_handshake, BadRequestError, Header, InternalServerError, MethodNotAllowedError,
    NotFoundError, Request, RequestError, RequestHeader, Response, ResponseError,
};

const UPGRADE: &str = "GET / HTTP/1.1\r\nHost: localhost:3000\r\nUpgrade: websocket\r\nConnection: Upgrade\r\nSec-WebSocket-Key: dGhlIHNhbXBsZSBub25jZQ==\r\nSec-WebSocket-Version: 13\r\n\r\n";

const ACCEPTED: &str = "HTTP/1.1 101 Switching Protocols\r\nUpgrade: websocket\r\nConnection: Upgrade\r\nSec-WebSocket-Accept: s3pPLMBiTxaQ9kYGzzhZRbK+xOo=\r\n\r\n";

#[test]
fn parses_upgrade_request() {
    assert!(Request::can_parse(UPGRADE));
    let r = Request::try_from(UPGRADE).ok().unwrap();
    assert_eq!(r.method, "GET");
    assert_eq!(r.route, "/");
    assert_eq!(r.version, "HTTP/1.1");
    assert_eq!(r.headers.len(), 5);
    assert_eq!(r.headers[0].key, "Host");
    assert_eq!(r.headers[0].value, "localhost:3000");
    assert!(r.headers[3].is_key("Sec-WebSocket-Key"));
    assert!(!r.headers[3].is_key("Sec-WebSocket-Version"));
    assert_eq!(r.headers[3].value, "dGhlIHNhbXBsZSBub25jZQ==");
}

#[test]
fn header_equality_compares_key_and_value() {
    let a = RequestHeader { key: "Upgrade", value: "websocket" };
    let b = RequestHeader { key: "Upgrade", value: "websocket" };
    let c = RequestHeader { key: "Upgrade", value: "h2c" };
    assert!(a == b);
    assert!(a != c);
}

fn error_of(s: &str) -> RequestError {
    assert!(Request::can_parse(s));
    match Request::try_from(s) {
        Err(e) => e,
        Ok(_) => panic!("accepted"),
    }
}

#[test]
fn refuses_other_methods() {
    let s = UPGRADE.replacen("GET", "POST", 1);
    assert_eq!(error_of(&s), RequestError::MethodNotAllowedError);
}

#[test]
fn refuses_short_start_line() {
    assert_eq!(error_of("GET\r\n\r\n"), RequestError::BadRequestError);
    assert_eq!(error_of(""), RequestError::BadRequestError);
}

#[test]
fn refuses_other_versions() {
    let s = UPGRADE.replacen("HTTP/1.1", "HTTP/1.0", 1);
    assert_eq!(error_of(&s), RequestError::BadRequestError);
}

#[test]
fn refuses_missing_upgrade_headers() {
    let s = UPGRADE.replacen("Upgrade: websocket\r\n", "", 1);
    assert_eq!(error_of(&s), RequestError::BadRequestError);
    let s = UPGRADE.replacen("Sec-WebSocket-Version: 13", "Sec-WebSocket-Version: 8", 1);
    assert_eq!(error_of(&s), RequestError::BadRequestError);
    let s = UPGRADE.replacen("Sec-WebSocket-Key", "Sec-WebSocket-Nonce", 1);
    assert_eq!(error_of(&s), RequestError::BadRequestError);
}

#[test]
fn without_empty_line_no_header_is_read() {
    let s = UPGRADE.strip_suffix("\r\n\r\n").unwrap();
    assert_eq!(error_of(s), RequestError::BadRequestError);
}

#[test]
fn lines_after_the_empty_line_are_ignored() {
    let s = format!("{}Upgrade websocket\r\n", UPGRADE);
    assert!(Request::can_parse(&s));
    assert!(Request::try_from(s.as_str()).is_ok());
}

#[test]
fn some_texts_cannot_be_read() {
    assert!(!Request::can_parse("GET /\r\n\r\n"));
    assert!(!Request::can_parse("GET / HTTP/1.1\r\nUpgrade websocket\r\n\r\n"));
    assert!(handle_handshake(b"GET /\r\n\r\n").is_none());
}

#[test]
fn answers_with_accept_key() {
    let r = Request::try_from(UPGRADE).ok().unwrap();
    let resp = match Response::try_from(&r) {
        Ok(resp) => resp,
        Err(_) => panic!("refused"),
    };
    assert_eq!(resp.version, "HTTP/1.1");
    assert_eq!(*resp.status, 101);
    assert_eq!(resp.headers[2].key, "Sec-WebSocket-Accept");
    assert_eq!(resp.headers[2].value, "s3pPLMBiTxaQ9kYGzzhZRbK+xOo=");
    assert_eq!(resp.to_string(), ACCEPTED);
}

#[test]
fn other_routes_are_not_found() {
    let s = UPGRADE.replacen("GET / ", "GET /chat ", 1);
    let r = Request::try_from(s.as_str()).ok().unwrap();
    assert!(matches!(Response::try_from(&r), Err(ResponseError::NotFoundError)));
}

#[test]
fn response_text_writes_status_in_decimal() {
    let status = 7u8;
    let r = Response {
        version: "HTTP/1.0",
        status: &status,
        headers: vec![Header { key: "A".to_string(), value: "b".to_string() }],
    };
    assert_eq!(r.to_string(), "HTTP/1.0 7 Switching Protocols\r\nA: b\r\n\r\n");
    let status = 255u8;
    let r = Response { version: "V", status: &status, headers: vec![] };
    assert_eq!(r.to_string(), "V 255 Switching Protocols\r\n\r\n");
}

#[test]
fn error_texts() {
    assert_eq!(
        BadRequestError.to_string(),
        "HTTP/1.1 400 Bad Request\r\nContent-Type: text/plain\r\nConnection: close"
    );
    assert_eq!(
        MethodNotAllowedError.to_string(),
        "HTTP/1.1 405 Method Not Allowed\r\nContent-Type: text/plain\r\nAllow: GET"
    );
    assert_eq!(RequestError::BadRequestError.to_string(), BadRequestError.to_string());
    assert_eq!(
        RequestError::MethodNotAllowedError.to_string(),
        MethodNotAllowedError.to_string()
    );
    assert_eq!(
        NotFoundError.to_string(),
        "HTTP/1.1 404 Not Found\r\nContent-Type: text/plain\r\nConnection: close"
    );
    assert_eq!(
        InternalServerError.to_string(),
        "HTTP/1.1 500 Internal Server Error\r\nContent-Type: text/plain\r\nAllow: GET\r\nConnection: close"
    );
}

#[test]
fn handshake_accepts_upgrade() {
    let o = handle_handshake(UPGRADE.as_bytes()).unwrap();
    assert!(o.result.is_ok());
    assert_eq!(o.reply.as_deref(), Some(ACCEPTED));
}

#[test]
fn handshake_reports_missing_route() {
    let s = UPGRADE.replacen("GET / ", "GET /chat ", 1);
    let o = handle_handshake(s.as_bytes()).unwrap();
    assert!(o.result.is_err());
    assert_eq!(o.reply.as_deref(), Some(NotFoundError.to_string().as_str()));
}

#[test]
fn handshake_refuses_bad_request_silently() {
    let s = UPGRADE.replacen("GET", "POST", 1);
    let o = handle_handshake(s.as_bytes()).unwrap();
    assert!(o.result.is_err());
    assert!(o.reply.is_none());
}

#[test]
fn handshake_reads_invalid_utf8_leniently() {
    let s = UPGRADE.replacen("localhost", "local?host", 1);
    let mut bytes = s.as_bytes().to_vec();
    let at = bytes.iter().position(|b| *b == b'?').unwrap();
    bytes[at] = 0xFF;
    let o = handle_handshake(&bytes).unwrap();
    assert!(o.result.is_ok());
    assert_eq!(o.reply.as_deref(), Some(ACCEPTED));
    let text = String::from_utf8_lossy(&bytes).into_owned();
    let r = Request::try_from(text.as_str()).ok().unwrap();
    assert_eq!(r.headers[0].value, "local\u{FFFD}host:3000");
}

#[test]
fn invalid_utf8_on_its_own_line_cannot_be_read() {
    let mut bytes = UPGRADE.as_bytes().to_vec();
    let at = bytes.len() - 2;
    bytes.insert(at, 0xFF);
    assert!(handle_handshake(&bytes).is_none());
}

#[test]
fn answers_handshake_text() {
    let o = ws_server::answer_handshake(UPGRADE).unwrap();
    assert!(o.result.is_ok());
    assert_eq!(o.reply.as_deref(), Some(ACCEPTED));
    assert!(ws_server::answer_handshake("GET / HTTP/1.1\r\nbroken\r\n\r\n").is_none());
}

#[test]
fn switching_protocols_encodes_digest() {
    let digest = [
        0xb3u8, 0x7a, 0x4f, 0x2c, 0xc0, 0x62, 0x4f, 0x16, 0x90, 0xf6, 0x46, 0x06, 0xcf, 0x38,
        0x59, 0x45, 0xb2, 0xbe, 0xc4, 0xea,
    ];
    let r = Response::switching_protocols("HTTP/1.1", &digest);
    assert_eq!(r.to_string(), ACCEPTED);
}
