use vstd::prelude::*;
use vstd::utf8::encode_utf8;

use base64::engine::general_purpose::STANDARD;
use base64::Engine;
use sha1::{Digest, Sha1};

use crate::request::{header_views, Request, RequestView};

verus! {

/// Name for the SHA-1 digest of `data`.
pub uninterp spec fn sha1_digest(data: Seq<u8>) -> Seq<u8>;

/// Calls `Sha1::digest` of the sha1 crate. Trusted: the digest is
/// `sha1_digest` of the input and is 20 bytes long (`OutputSize` is `U20`).
#[verifier::external_body]
fn sha1(data: &[u8]) -> (d: Vec<u8>)
    ensures
        d@ == sha1_digest(data@),
        d@.len() == 20,
{
    Sha1::digest(data).to_vec()
}

/// The character of the standard base64 alphabet for the 6-bit value `v`.
pub open spec fn base64_char(v: int) -> char {
    if v < 26 {
        (65 + v) as char
    } else if v < 52 {
        (97 + v - 26) as char
    } else if v < 62 {
        (48 + v - 52) as char
    } else if v == 62 {
        '+'
    } else {
        '/'
    }
}

/// Standard base64 with `=` padding: each group of three bytes becomes four
/// characters; a last group of one or two bytes is padded.
pub open spec fn base64_standard(d: Seq<u8>) -> Seq<char>
    decreases d.len(),
{
    if d.len() == 0 {
        Seq::empty()
    } else if d.len() == 1 {
        seq![base64_char(d[0] as int / 4), base64_char((d[0] as int % 4) * 16), '=', '=']
    } else if d.len() == 2 {
        seq![
            base64_char(d[0] as int / 4),
            base64_char((d[0] as int % 4) * 16 + d[1] as int / 16),
            base64_char((d[1] as int % 16) * 4),
            '=',
        ]
    } else {
        seq![
            base64_char(d[0] as int / 4),
            base64_char((d[0] as int % 4) * 16 + d[1] as int / 16),
            base64_char((d[1] as int % 16) * 4 + d[2] as int / 64),
            base64_char(d[2] as int % 64),
        ] + base64_standard(d.subrange(3, d.len() as int))
    }
}

/// Calls `Engine::encode` of the base64 crate on the `STANDARD` engine
/// (standard alphabet, with padding). Trusted: the text is
/// `base64_standard` of the input. The input is bounded so that the
/// crate's computation of the encoded length cannot overflow.
#[verifier::external_body]
fn base64_encode(data: &[u8]) -> (s: String)
    requires
        data@.len() <= usize::MAX / 2,
    ensures
        s@ == base64_standard(data@),
{
    STANDARD.encode(data)
}

/// One header line of a response.
#[derive(Debug)]
pub struct Header {
    pub key: String,
    pub value: String,
}

/// The handshake response.
#[derive(Debug)]
pub struct Response<'a> {
    pub version: &'a str,
    pub status: &'a u8,
    pub headers: Vec<Header>,
}

/// A response's fields as mathematical values.
pub struct ResponseView {
    pub version: Seq<char>,
    pub status: u8,
    pub headers: Seq<(Seq<char>, Seq<char>)>,
}

/// The views of response headers.
pub open spec fn response_header_views(hs: Seq<Header>) -> Seq<(Seq<char>, Seq<char>)> {
    hs.map_values(|h: Header| (h.key@, h.value@))
}

impl<'a> View for Response<'a> {
    type V = ResponseView;

    open spec fn view(&self) -> ResponseView {
        ResponseView {
            version: self.version@,
            status: *self.status,
            headers: response_header_views(self.headers@),
        }
    }
}

/// The requested route does not exist.
#[derive(Debug)]
pub struct NotFoundError;

impl NotFoundError {
    /// The response sent for this error.
    pub fn to_string(&self) -> (s: String)
        ensures
            s@ == "HTTP/1.1 404 Not Found\r\nContent-Type: text/plain\r\nConnection: close"@,
    {
        String::from_str("HTTP/1.1 404 Not Found\r\nContent-Type: text/plain\r\nConnection: close")
    }
}

/// The server failed to answer.
#[derive(Debug)]
pub struct InternalServerError;

impl InternalServerError {
    /// The response sent for this error.
    pub fn to_string(&self) -> (s: String)
        ensures
            s@
                == "HTTP/1.1 500 Internal Server Error\r\nContent-Type: text/plain\r\nAllow: GET\r\nConnection: close"@,
    {
        String::from_str(
            "HTTP/1.1 500 Internal Server Error\r\nContent-Type: text/plain\r\nAllow: GET\r\nConnection: close",
        )
    }
}

/// Why no handshake response was made.
#[derive(Debug, PartialEq, Eq, Structural)]
pub enum ResponseError {
    NotFoundError,
    InternalServerError,
}

/// The GUID that RFC 6455 appends to the client's key.
pub open spec fn websocket_guid() -> Seq<char> {
    "258EAFA5-E914-47DA-95CA-C5AB0DC85B11"@
}

/// The `Sec-WebSocket-Accept` value for a client key: the base64 of the
/// SHA-1 of the key followed by the GUID, in UTF-8.
pub open spec fn accept_value(client_key: Seq<char>) -> Seq<char> {
    base64_standard(sha1_digest(encode_utf8(client_key + websocket_guid())))
}

/// Position of the first header with key `key`, at or after `from`.
pub open spec fn first_with_key(hs: Seq<(Seq<char>, Seq<char>)>, key: Seq<char>, from: int) -> Option<
    int,
>
    decreases hs.len() - from,
{
    if from < 0 || from >= hs.len() {
        None
    } else if hs[from].0 == key {
        Some(from)
    } else {
        first_with_key(hs, key, from + 1)
    }
}

/// The value of the first `Sec-WebSocket-Key` header.
pub open spec fn client_key(hs: Seq<(Seq<char>, Seq<char>)>) -> Seq<char> {
    hs[first_with_key(hs, "Sec-WebSocket-Key"@, 0).unwrap()].1
}

/// The answer to a request: none for a route other than `/`; otherwise
/// status 101 in the request's version, with `Upgrade: websocket`,
/// `Connection: Upgrade` and the accept value of the client's key.
pub open spec fn respond(req: RequestView) -> Result<ResponseView, ResponseError> {
    if req.route != "/"@ {
        Err(ResponseError::NotFoundError)
    } else {
        Ok(
            ResponseView {
                version: req.version,
                status: 101,
                headers: seq![
                    ("Upgrade"@, "websocket"@),
                    ("Connection"@, "Upgrade"@),
                    ("Sec-WebSocket-Accept"@, accept_value(client_key(req.headers))),
                ],
            },
        )
    }
}

proof fn lemma_first_with_key(hs: Seq<(Seq<char>, Seq<char>)>, key: Seq<char>, from: int)
    ensures
        first_with_key(hs, key, from) matches Some(i) ==> from <= i < hs.len() && hs[i].0 == key,
        (exists|k: int| from <= k < hs.len() && (#[trigger] hs[k]).0 == key) && 0 <= from
            ==> first_with_key(hs, key, from) is Some,
    decreases hs.len() - from,
{
    if !(from < 0 || from >= hs.len()) && hs[from].0 != key {
        lemma_first_with_key(hs, key, from + 1);
        if exists|k: int| from <= k < hs.len() && (#[trigger] hs[k]).0 == key {
            let k = choose|k: int| from <= k < hs.len() && (#[trigger] hs[k]).0 == key;
            assert(from + 1 <= k);
        }
    }
}

impl<'a> Response<'a> {
    /// The handshake response to `s` (see `respond`).
    pub fn try_from(s: &Request<'a>) -> (r: Result<Response<'a>, ResponseError>)
        requires
            s.route@ == "/"@ ==> exists|k: int|
                0 <= k < s.headers@.len() && (#[trigger] header_views(s.headers@)[k]).0
                    == "Sec-WebSocket-Key"@,
        ensures
            r matches Ok(resp) ==> respond(s@) == Ok::<ResponseView, ResponseError>(resp@),
            r matches Err(e) ==> respond(s@) == Err::<ResponseView, ResponseError>(e),
    {
        if !crate::text::str_eq(s.route, "/") {
            return Err(ResponseError::NotFoundError);
        }
        let ghost hv = header_views(s.headers@);
        proof {
            lemma_first_with_key(hv, "Sec-WebSocket-Key"@, 0);
        }
        let n = s.headers.len();
        let mut i: usize = 0;
        while !s.headers[i].is_key("Sec-WebSocket-Key")
            invariant
                hv == header_views(s.headers@),
                first_with_key(hv, "Sec-WebSocket-Key"@, 0) == first_with_key(
                    hv,
                    "Sec-WebSocket-Key"@,
                    i as int,
                ),
                first_with_key(hv, "Sec-WebSocket-Key"@, 0) is Some,
                i < s.headers@.len(),
                n == s.headers@.len(),
            decreases s.headers@.len() - i,
        {
            proof {
                lemma_first_with_key(hv, "Sec-WebSocket-Key"@, i as int);
                lemma_first_with_key(hv, "Sec-WebSocket-Key"@, i + 1);
            }
            i = i + 1;
        }
        let mut key = String::from_str(s.headers[i].value);
        key.append("258EAFA5-E914-47DA-95CA-C5AB0DC85B11");
        let digest = sha1(key.as_str().as_bytes());
        Ok(Response::switching_protocols(s.version, digest.as_slice()))
    }

    /// The 101 response in `version` whose accept value is the base64 of
    /// `digest`, the SHA-1 of the client's key and the GUID.
    pub fn switching_protocols(version: &'a str, digest: &[u8]) -> (r: Response<'a>)
        requires
            digest@.len() == 20,
        ensures
            r@ == (ResponseView {
                version: version@,
                status: 101,
                headers: seq![
                    ("Upgrade"@, "websocket"@),
                    ("Connection"@, "Upgrade"@),
                    ("Sec-WebSocket-Accept"@, base64_standard(digest@)),
                ],
            }),
    {
        let accept = base64_encode(digest);
        let headers = vec![
            Header { key: String::from_str("Upgrade"), value: String::from_str("websocket") },
            Header { key: String::from_str("Connection"), value: String::from_str("Upgrade") },
            Header { key: String::from_str("Sec-WebSocket-Accept"), value: accept },
        ];
        let resp = Response { version, status: &101, headers };
        proof {
            assert(response_header_views(resp.headers@) =~= seq![
                ("Upgrade"@, "websocket"@),
                ("Connection"@, "Upgrade"@),
                ("Sec-WebSocket-Accept"@, base64_standard(digest@)),
            ]);
        }
        resp
    }
}


/// The decimal digit for `d` (below ten).
pub open spec fn digit(d: nat) -> char {
    "0123456789"@[d as int]
}

/// `n` written in decimal.
pub open spec fn decimal(n: nat) -> Seq<char>
    decreases n,
{
    if n < 10 {
        seq![digit(n)]
    } else {
        decimal(n / 10).push(digit(n % 10))
    }
}

/// The number that a string of decimal digits stands for.
pub open spec fn digits_value(d: Seq<char>) -> int
    decreases d.len(),
{
    if d.len() == 0 {
        0
    } else {
        digits_value(d.drop_last()) * 10 + (d.last() as int - '0' as int)
    }
}

proof fn lemma_digit(d: nat)
    requires
        d < 10,
    ensures
        digit(d) as int == '0' as int + d,
{
    reveal_strlit("0123456789");
    assert("0123456789"@ =~= seq!['0', '1', '2', '3', '4', '5', '6', '7', '8', '9']);
}

/// `decimal(n)` is `n` written in decimal: only digits, no leading zero
/// unless `n` is 0, standing for `n`.
pub proof fn lemma_decimal(n: nat)
    ensures
        decimal(n).len() >= 1,
        n >= 10 ==> decimal(n).len() >= 2,
        forall|i: int| 0 <= i < decimal(n).len() ==> '0' <= #[trigger] decimal(n)[i] <= '9',
        decimal(n).len() > 1 ==> decimal(n)[0] != '0',
        digits_value(decimal(n)) == n,
    decreases n,
{
    lemma_digit(n % 10);
    if n < 10 {
        lemma_digit(n);
        assert(decimal(n).drop_last() =~= Seq::<char>::empty());
        assert(digits_value(Seq::<char>::empty()) == 0);
    } else {
        lemma_decimal(n / 10);
        assert(decimal(n).drop_last() =~= decimal(n / 10));
        assert(digits_value(decimal(n)) == digits_value(decimal(n / 10)) * 10 + (n % 10) as int);
        assert forall|i: int| 0 <= i < decimal(n).len() implies '0' <= #[trigger] decimal(n)[i]
            <= '9' by {
            if i < decimal(n).len() - 1 {
                assert(decimal(n)[i] == decimal(n / 10)[i]);
            }
        }
        if decimal(n / 10).len() == 1 {
            assert(decimal(n / 10)[0] != '0') by {
                lemma_digit(n / 10);
            }
        }
        assert(decimal(n)[0] == decimal(n / 10)[0]);
    }
}

/// The header lines of a response, each `key: value` ended by CRLF.
pub open spec fn header_block(hs: Seq<(Seq<char>, Seq<char>)>) -> Seq<char>
    decreases hs.len(),
{
    if hs.len() == 0 {
        Seq::empty()
    } else {
        header_block(hs.drop_last()) + hs.last().0 + ": "@ + hs.last().1 + "\r\n"@
    }
}

/// The text of a response: the status line, the header lines, an empty line.
pub open spec fn response_text(r: ResponseView) -> Seq<char> {
    r.version + " "@ + decimal(r.status as nat) + " Switching Protocols\r\n"@ + header_block(
        r.headers,
    ) + "\r\n"@
}

fn push_digit(s: &mut String, d: u8)
    requires
        d < 10,
    ensures
        final(s)@ == old(s)@.push(digit(d as nat)),
{
    let digits = "0123456789";
    proof {
        reveal_strlit("0123456789");
    }
    let one = digits.substring_char(d as usize, d as usize + 1);
    proof {
        assert(one@ =~= seq![digit(d as nat)]);
    }
    s.append(one);
}

fn decimal_text(n: u8) -> (s: String)
    ensures
        s@ == decimal(n as nat),
{
    let mut s = String::new();
    if n >= 100 {
        push_digit(&mut s, n / 100);
    }
    if n >= 10 {
        push_digit(&mut s, (n / 10) % 10);
    }
    push_digit(&mut s, n % 10);
    proof {
        if n >= 100 {
            assert(decimal((n / 100) as nat) == seq![digit((n / 100) as nat)]);
            assert(decimal((n / 10) as nat) == decimal((n / 100) as nat).push(
                digit(((n / 10) % 10) as nat),
            ));
        } else if n >= 10 {
            assert(decimal((n / 10) as nat) == seq![digit((n / 10) as nat)]);
        }
        assert(s@ =~= decimal(n as nat));
    }
    s
}

impl<'a> Response<'a> {
    /// The response's text, as sent to the client.
    pub fn to_string(&self) -> (s: String)
        ensures
            s@ == response_text(self@),
    {
        let mut s = String::from_str(self.version);
        s.append(" ");
        let status = decimal_text(*self.status);
        s.append(status.as_str());
        s.append(" Switching Protocols\r\n");
        let ghost head = s@;
        let mut i: usize = 0;
        while i < self.headers.len()
            invariant
                i <= self.headers@.len(),
                s@ == head + header_block(response_header_views(self.headers@).subrange(0, i as int)),
            decreases self.headers@.len() - i,
        {
            let ghost before = s@;
            s.append(self.headers[i].key.as_str());
            s.append(": ");
            s.append(self.headers[i].value.as_str());
            s.append("\r\n");
            proof {
                let hv = response_header_views(self.headers@);
                assert(hv.subrange(0, i + 1).drop_last() =~= hv.subrange(0, i as int));
                assert(s@ =~= head + header_block(hv.subrange(0, i + 1)));
            }
            i = i + 1;
        }
        proof {
            let hv = response_header_views(self.headers@);
            assert(hv.subrange(0, hv.len() as int) =~= hv);
        }
        s.append("\r\n");
        proof {
            assert(s@ =~= response_text(self@));
        }
        s
    }
}

} // verus!
