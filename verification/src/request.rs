use vstd::prelude::*;
use vstd::std_specs::cmp::PartialEqSpecImpl;

use crate::text::{
    find_from, find_str, lemma_find_from, lemma_find_from_first, lemma_split_first,
    lemma_split_nonempty, lemma_split_pieces_in, occurs_at, split, split_str, str_eq, str_views,
};

verus! {

/// One `key: value` line of a request's header.
#[derive(Debug)]
pub struct RequestHeader<'a> {
    pub key: &'a str,
    pub value: &'a str,
}

impl<'a> View for RequestHeader<'a> {
    type V = (Seq<char>, Seq<char>);

    open spec fn view(&self) -> (Seq<char>, Seq<char>) {
        (self.key@, self.value@)
    }
}

impl<'a> PartialEq for RequestHeader<'a> {
    fn eq(&self, other: &Self) -> (r: bool) {
        str_eq(self.key, other.key) && str_eq(self.value, other.value)
    }
}

impl<'a> PartialEqSpecImpl for RequestHeader<'a> {
    open spec fn obeys_eq_spec() -> bool {
        true
    }

    open spec fn eq_spec(&self, other: &Self) -> bool {
        self.key@ == other.key@ && self.value@ == other.value@
    }
}

impl<'a> RequestHeader<'a> {
    /// Whether this header's key is `key`.
    pub fn is_key(&self, key: &str) -> (r: bool)
        ensures
            r == (self.key@ == key@),
    {
        str_eq(self.key, key)
    }
}

/// The views of a sequence of headers.
pub open spec fn header_views<'a>(hs: Seq<RequestHeader<'a>>) -> Seq<(Seq<char>, Seq<char>)> {
    hs.map_values(|h: RequestHeader<'a>| h@)
}

/// An opening handshake request: the three words of its start line and its
/// header lines, each cut at the first `": "`.
#[derive(Debug)]
pub struct Request<'a> {
    pub method: &'a str,
    pub route: &'a str,
    pub version: &'a str,
    pub headers: Vec<RequestHeader<'a>>,
}

/// A request's fields as mathematical values.
pub struct RequestView {
    pub method: Seq<char>,
    pub route: Seq<char>,
    pub version: Seq<char>,
    pub headers: Seq<(Seq<char>, Seq<char>)>,
}

impl<'a> View for Request<'a> {
    type V = RequestView;

    open spec fn view(&self) -> RequestView {
        RequestView {
            method: self.method@,
            route: self.route@,
            version: self.version@,
            headers: header_views(self.headers@),
        }
    }
}

/// The request is malformed.
#[derive(Debug)]
pub struct BadRequestError;

impl BadRequestError {
    /// The response sent for this error.
    pub fn to_string(&self) -> (s: String)
        ensures
            s@ == "HTTP/1.1 400 Bad Request\r\nContent-Type: text/plain\r\nConnection: close"@,
    {
        String::from_str("HTTP/1.1 400 Bad Request\r\nContent-Type: text/plain\r\nConnection: close")
    }
}

/// The request uses a method other than GET.
#[derive(Debug)]
pub struct MethodNotAllowedError;

impl MethodNotAllowedError {
    /// The response sent for this error.
    pub fn to_string(&self) -> (s: String)
        ensures
            s@ == "HTTP/1.1 405 Method Not Allowed\r\nContent-Type: text/plain\r\nAllow: GET"@,
    {
        String::from_str(
            "HTTP/1.1 405 Method Not Allowed\r\nContent-Type: text/plain\r\nAllow: GET",
        )
    }
}

/// Why a request was refused.
#[derive(Debug, PartialEq, Eq, Structural)]
pub enum RequestError {
    BadRequestError,
    MethodNotAllowedError,
}

impl RequestError {
    /// The response sent for this error.
    pub fn to_string(&self) -> (s: String)
        ensures
            *self == RequestError::BadRequestError ==> s@
                == "HTTP/1.1 400 Bad Request\r\nContent-Type: text/plain\r\nConnection: close"@,
            *self == RequestError::MethodNotAllowedError ==> s@
                == "HTTP/1.1 405 Method Not Allowed\r\nContent-Type: text/plain\r\nAllow: GET"@,
    {
        match self {
            RequestError::BadRequestError => BadRequestError.to_string(),
            RequestError::MethodNotAllowedError => MethodNotAllowedError.to_string(),
        }
    }
}

/// The lines of a request.
pub open spec fn request_lines(s: Seq<char>) -> Seq<Seq<char>> {
    split(s, "\r\n"@)
}

/// The first empty line at or after `from`.
pub open spec fn first_empty_line(lines: Seq<Seq<char>>, from: int) -> Option<int>
    decreases lines.len() - from,
{
    if from < 0 || from >= lines.len() {
        None
    } else if lines[from].len() == 0 {
        Some(from)
    } else {
        first_empty_line(lines, from + 1)
    }
}

/// The header lines: those after the start line and before the first empty
/// line; none when no line is empty.
pub open spec fn header_lines(lines: Seq<Seq<char>>) -> Seq<Seq<char>> {
    match first_empty_line(lines, 0) {
        Some(i) => if 1 <= i {
            lines.subrange(1, i)
        } else {
            Seq::empty()
        },
        None => Seq::empty(),
    }
}

/// The line holds `": "`.
pub open spec fn has_separator(line: Seq<char>) -> bool {
    find_from(line, ": "@, 0) is Some
}

/// A header line cut at its first `": "`.
pub open spec fn header_of(line: Seq<char>) -> (Seq<char>, Seq<char>) {
    match find_from(line, ": "@, 0) {
        Some(j) => (line.subrange(0, j), line.subrange(j + ": "@.len(), line.len() as int)),
        None => (line, Seq::empty()),
    }
}

/// One of `hs` is `key: value`.
pub open spec fn has_header(hs: Seq<(Seq<char>, Seq<char>)>, key: Seq<char>, value: Seq<char>) -> bool {
    exists|i: int| 0 <= i < hs.len() && #[trigger] hs[i] == (key, value)
}

/// One of `hs` has the key `key`.
pub open spec fn has_key(hs: Seq<(Seq<char>, Seq<char>)>, key: Seq<char>) -> bool {
    exists|i: int| 0 <= i < hs.len() && (#[trigger] hs[i]).0 == key
}

/// The headers ask for a WebSocket upgrade: `Upgrade: websocket`,
/// `Connection: Upgrade` and `Sec-WebSocket-Version: 13` are among them, and
/// so is a `Sec-WebSocket-Key`.
pub open spec fn is_upgrade_request(hs: Seq<(Seq<char>, Seq<char>)>) -> bool {
    &&& has_header(hs, "Upgrade"@, "websocket"@)
    &&& has_header(hs, "Connection"@, "Upgrade"@)
    &&& has_header(hs, "Sec-WebSocket-Version"@, "13"@)
    &&& has_key(hs, "Sec-WebSocket-Key"@)
}

/// How a request text is read. The first line, cut at spaces, must have at
/// least two words (else a bad request), the first being `GET` (else the
/// method is not allowed) and, with a third word, the third `HTTP/1.1` (else a
/// bad request). The header lines must ask for an upgrade (else a bad
/// request). `None`: the text has no answer, for a start line of exactly two
/// words beginning with `GET`, or a header line without `": "`.
pub open spec fn parse_request(s: Seq<char>) -> Option<Result<RequestView, RequestError>> {
    let lines = request_lines(s);
    let start = split(lines[0], " "@);
    if start.len() < 2 {
        Some(Err(RequestError::BadRequestError))
    } else if start[0] != "GET"@ {
        Some(Err(RequestError::MethodNotAllowedError))
    } else if start.len() < 3 {
        None
    } else if start[2] != "HTTP/1.1"@ {
        Some(Err(RequestError::BadRequestError))
    } else {
        let hl = header_lines(lines);
        if exists|k: int| 0 <= k < hl.len() && !has_separator(#[trigger] hl[k]) {
            None
        } else {
            let hs = hl.map_values(|l: Seq<char>| header_of(l));
            if !is_upgrade_request(hs) {
                Some(Err(RequestError::BadRequestError))
            } else {
                Some(
                    Ok(
                        RequestView {
                            method: start[0],
                            route: start[1],
                            version: start[2],
                            headers: hs,
                        },
                    ),
                )
            }
        }
    }
}


/// Every request that is accepted uses the GET method and HTTP/1.1, and
/// among its headers are `Upgrade: websocket`, `Connection: Upgrade`,
/// `Sec-WebSocket-Version: 13` and a `Sec-WebSocket-Key`. Its text starts
/// with the method, the route and the version, each followed by one space
/// but the last, and the route holds no space.
pub proof fn lemma_accepted_request(s: Seq<char>)
    requires
        parse_request(s) matches Some(Ok(_)),
    ensures
        parse_request(s) matches Some(Ok(r)) && {
            &&& r.method == "GET"@
            &&& r.version == "HTTP/1.1"@
            &&& exists|i: int|
                0 <= i < r.headers.len() && r.headers[i].0 == "Upgrade"@ && r.headers[i].1
                    == "websocket"@
            &&& exists|i: int|
                0 <= i < r.headers.len() && r.headers[i].0 == "Connection"@ && r.headers[i].1
                    == "Upgrade"@
            &&& exists|i: int|
                0 <= i < r.headers.len() && r.headers[i].0 == "Sec-WebSocket-Version"@
                    && r.headers[i].1 == "13"@
            &&& exists|i: int| 0 <= i < r.headers.len() && r.headers[i].0 == "Sec-WebSocket-Key"@
            &&& ({
                let head = r.method + " "@ + r.route + " "@ + r.version;
                head.len() <= s.len() && s.subrange(0, head.len() as int) == head
            })
            &&& forall|k: int| 0 <= k < r.route.len() ==> r.route[k] != ' '
        },
{
    reveal_strlit("\r\n");
    reveal_strlit(" ");
    let crlf = "\r\n"@;
    let sp = " "@;
    lemma_split_first(s, crlf, 0);
    let line = request_lines(s)[0];
    let st = split(line, sp);
    lemma_split_first(line, sp, 0);
    let a = st[0].len() as int;
    lemma_split_first(line, sp, a + 1);
    let b = a + 1 + st[1].len();
    assert(split_from_at(line, sp, a + 1)[0] == st[1]);
    lemma_split_first(line, sp, b + 1);
    assert(split_from_at(line, sp, b + 1)[0] == st[2]);
    let c = b + 1 + st[2].len();
    let head = st[0] + sp + st[1] + sp + st[2];
    assert(line.subrange(0, c) =~= head);
    assert(s.subrange(0, c) =~= line.subrange(0, c));
    assert forall|k: int| 0 <= k < st[1].len() implies st[1][k] != ' ' by {
        assert(sp =~= seq![' ']);
        assert(line.subrange(a + 1, b)[k] == st[1][k]);
        assert(!occurs_at(line, sp, a + 1 + k));
        assert(line.subrange(a + 1 + k, a + 2 + k) =~= seq![st[1][k]]);
    }
    let r = parse_request(s)->Some_0->Ok_0;
    let hs = r.headers;
    let i1 = choose|i: int| 0 <= i < hs.len() && #[trigger] hs[i] == ("Upgrade"@, "websocket"@);
    assert(hs[i1].0 == "Upgrade"@ && hs[i1].1 == "websocket"@);
    let i2 = choose|i: int| 0 <= i < hs.len() && #[trigger] hs[i] == ("Connection"@, "Upgrade"@);
    assert(hs[i2].0 == "Connection"@ && hs[i2].1 == "Upgrade"@);
    let i3 = choose|i: int|
        0 <= i < hs.len() && #[trigger] hs[i] == ("Sec-WebSocket-Version"@, "13"@);
    assert(hs[i3].0 == "Sec-WebSocket-Version"@ && hs[i3].1 == "13"@);
}

/// Every header of an accepted request is a stretch `key: value` of the
/// request text, and its key holds no `": "`: the line is cut at its first
/// separator.
pub proof fn lemma_accepted_headers(s: Seq<char>, i: int)
    requires
        parse_request(s) matches Some(Ok(r)) && 0 <= i < r.headers.len(),
    ensures
        parse_request(s) matches Some(Ok(r)) && {
            let h = r.headers[i];
            let line = h.0 + ": "@ + h.1;
            &&& exists|p: int|
                0 <= p && p + line.len() <= s.len() && #[trigger] s.subrange(p, p + line.len())
                    == line
            &&& forall|k: int| !occurs_at(h.0, ": "@, k)
        },
{
    reveal_strlit("\r\n");
    reveal_strlit(": ");
    let sep = ": "@;
    let r = parse_request(s)->Some_0->Ok_0;
    let lv = request_lines(s);
    lemma_split_nonempty(s, "\r\n"@, 0);
    let hl = header_lines(lv);
    lemma_first_empty_line(lv, 0);
    assert(hl.len() == r.headers.len());
    let e = first_empty_line(lv, 0)->Some_0;
    assert(hl[i] == lv[i + 1]);
    let line = hl[i];
    assert(has_separator(line));
    let j = find_from(line, sep, 0)->Some_0;
    lemma_find_from(line, sep, 0);
    lemma_find_from_first(line, sep, 0);
    let h = r.headers[i];
    assert(h == header_of(line));
    assert(h.0 + sep + h.1 =~= line);
    lemma_split_pieces_in(s, "\r\n"@, 0, i + 1);
    assert forall|k: int| !occurs_at(h.0, sep, k) by {
        if occurs_at(h.0, sep, k) {
            assert(line.subrange(k, k + 2) =~= h.0.subrange(k, k + 2));
            assert(occurs_at(line, sep, k));
        }
    }
}

/// The pieces of `s` from `from` on, cut at `sep`.
spec fn split_from_at(s: Seq<char>, sep: Seq<char>, from: int) -> Seq<Seq<char>> {
    crate::text::split_from(s, sep, from)
}

fn contains_header<'a>(headers: &Vec<RequestHeader<'a>>, key: &str, value: &str) -> (r: bool)
    ensures
        r == has_header(header_views(headers@), key@, value@),
{
    let wanted = RequestHeader { key, value };
    let mut i: usize = 0;
    while i < headers.len()
        invariant
            i <= headers@.len(),
            wanted@ == (key@, value@),
            forall|m: int| 0 <= m < i ==> header_views(headers@)[m] != (key@, value@),
        decreases headers@.len() - i,
    {
        if headers[i] == wanted {
            proof {
                assert(header_views(headers@)[i as int] == (key@, value@));
            }
            return true;
        }
        i = i + 1;
    }
    false
}

fn contains_key<'a>(headers: &Vec<RequestHeader<'a>>, key: &str) -> (r: bool)
    ensures
        r == has_key(header_views(headers@), key@),
{
    let mut i: usize = 0;
    while i < headers.len()
        invariant
            i <= headers@.len(),
            forall|m: int| 0 <= m < i ==> header_views(headers@)[m].0 != key@,
        decreases headers@.len() - i,
    {
        if headers[i].is_key(key) {
            proof {
                assert(header_views(headers@)[i as int].0 == key@);
            }
            return true;
        }
        i = i + 1;
    }
    false
}

proof fn lemma_first_empty_line(lines: Seq<Seq<char>>, from: int)
    ensures
        first_empty_line(lines, from) matches Some(i) ==> from <= i < lines.len(),
    decreases lines.len() - from,
{
    if !(from < 0 || from >= lines.len()) && lines[from].len() != 0 {
        lemma_first_empty_line(lines, from + 1);
    }
}

fn find_empty_line(lines: &Vec<&str>) -> (r: Option<usize>)
    ensures
        r matches Some(i) ==> first_empty_line(str_views(lines@), 0) == Some(i as int),
        r is None ==> first_empty_line(str_views(lines@), 0) is None,
{
    let mut i: usize = 0;
    while i < lines.len()
        invariant
            i <= lines@.len(),
            first_empty_line(str_views(lines@), 0) == first_empty_line(str_views(lines@), i as int),
        decreases lines@.len() - i,
    {
        if lines[i].is_empty() {
            return Some(i);
        }
        i = i + 1;
    }
    None
}

/// Reads a request text as `parse_request` says.
#[verifier::loop_isolation(false)]
fn parse_request_text<'a>(s: &'a str) -> (r: Option<Result<Request<'a>, RequestError>>)
    ensures
        r is None <==> parse_request(s@) is None,
        r matches Some(Err(e)) ==> parse_request(s@) == Some(Err::<RequestView, RequestError>(e)),
        r matches Some(Ok(req)) ==> parse_request(s@) == Some(Ok::<RequestView, RequestError>(req@)),
{
    proof {
        reveal_strlit("\r\n");
        reveal_strlit(" ");
        reveal_strlit(": ");
    }
    let lines = split_str(s, "\r\n");
    proof {
        lemma_split_nonempty(s@, "\r\n"@, 0);
        assert(str_views(lines@)[0] == lines@[0]@);
    }
    let start = split_str(lines[0], " ");
    let ghost sv = str_views(start@);
    if start.len() < 2 {
        return Some(Err(RequestError::BadRequestError));
    }
    proof {
        assert(sv[0] == start@[0]@);
        assert(sv[1] == start@[1]@);
    }
    if !str_eq(start[0], "GET") {
        return Some(Err(RequestError::MethodNotAllowedError));
    }
    if start.len() < 3 {
        return None;
    }
    proof {
        assert(sv[2] == start@[2]@);
    }
    if !str_eq(start[2], "HTTP/1.1") {
        return Some(Err(RequestError::BadRequestError));
    }
    let ghost lv = str_views(lines@);
    let ghost hl = header_lines(lv);
    let mut headers: Vec<RequestHeader<'a>> = Vec::new();
    let end: usize = match find_empty_line(&lines) {
        Some(e) => if e >= 1 {
            e
        } else {
            1
        },
        None => 1,
    };
    proof {
        lemma_first_empty_line(lv, 0);
        if end > 1 {
            assert(hl =~= lv.subrange(1, end as int));
        } else {
            assert(hl.len() == 0);
        }
    }
    let mut i: usize = 1;
    while i < end
        invariant
            1 <= i <= end <= lines@.len() || (i == 1 && end == 1),
            lv == str_views(lines@),
            hl.len() == end - 1,
            forall|m: int| 0 <= m < hl.len() ==> #[trigger] hl[m] == lv[m + 1],
            ": "@.len() == 2,
            forall|m: int| 0 <= m < i - 1 ==> has_separator(#[trigger] hl[m]),
            header_views(headers@) =~= hl.subrange(0, i - 1).map_values(
                |l: Seq<char>| header_of(l),
            ),
        decreases end - i,
    {
        let line = lines[i];
        proof {
            assert(hl[i - 1] == line@);
        }
        match find_str(line, ": ") {
            None => {
                proof {
                    assert(!has_separator(hl[i - 1]));
                }
                return None;
            },
            Some(j) => {
                proof {
                    lemma_find_from(line@, ": "@, 0);
                }
                let n = line.unicode_len();
                let key = line.substring_char(0, j);
                let value = line.substring_char(j + 2, n);
                let h = RequestHeader { key, value };
                proof {
                    assert(h@ == header_of(hl[i - 1]));
                    assert(header_views(headers@.push(h)) =~= header_views(headers@).push(h@));
                    assert(hl.subrange(0, i as int).map_values(|l: Seq<char>| header_of(l))
                        =~= hl.subrange(0, i - 1).map_values(|l: Seq<char>| header_of(l)).push(
                        header_of(hl[i - 1]),
                    ));
                }
                headers.push(h);
            },
        }
        i = i + 1;
    }
    proof {
        assert(hl.subrange(0, hl.len() as int) =~= hl);
    }
    let upgrade = contains_header(&headers, "Upgrade", "websocket") && contains_header(
        &headers,
        "Connection",
        "Upgrade",
    ) && contains_header(&headers, "Sec-WebSocket-Version", "13") && contains_key(
        &headers,
        "Sec-WebSocket-Key",
    );
    if !upgrade {
        return Some(Err(RequestError::BadRequestError));
    }
    Some(Ok(Request { method: start[0], route: start[1], version: start[2], headers }))
}

impl<'a> Request<'a> {
    /// Whether `s` can be read as a request at all: `parse_request` gives
    /// an answer for it, a request or a refusal.
    pub fn can_parse(s: &'a str) -> (b: bool)
        ensures
            b == (parse_request(s@) is Some),
    {
        parse_request_text(s).is_some()
    }

    /// Reads an opening handshake request (see `parse_request`).
    pub fn try_from(s: &'a str) -> (r: Result<Request<'a>, RequestError>)
        requires
            parse_request(s@) is Some,
        ensures
            r matches Err(e) ==> parse_request(s@) == Some(Err::<RequestView, RequestError>(e)),
            r matches Ok(req) ==> parse_request(s@) == Some(Ok::<RequestView, RequestError>(req@)),
    {
        match parse_request_text(s) {
            Some(r) => r,
            None => Err(RequestError::BadRequestError),
        }
    }
}

} // verus!
