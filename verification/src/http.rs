//! HTTP on the server's side: requests, responses, what is answered to what, and
//! the streams that a connection may turn into.

use crate::feed::{FeedHealth, HealthView};
use crate::hub::FrameOut;
use crate::json::{put, text, Json, JsonView};
use crate::stream::{Input, ReadError};
use crate::text;
use crate::text::{chars_of, push_decimal, same};
use crate::words;
use crate::words::{contains, find_from, next_word, parse_count, slice, trim};
use crate::ws;
use crate::ws::{accept_key, write_frame, ClientFrame, DIGEST_LIMIT, WS_GUID};
use vstd::prelude::*;
use vstd::string::*;
use vstd::utf8::*;

verus! {

pub const ENGINE_VERSION: &'static str = "rust-2.0.0";

/// The longest line of a request, in bytes.
pub const MAX_LINE: usize = 16_384;

/// The largest body of a request that is passed over.
pub const MAX_BODY: u64 = 1_048_576;

/// Connections that are served at a time.
pub const MAX_CONNECTIONS: usize = 200;

// ---------------------------------------------------------------------------
// Lines
// ---------------------------------------------------------------------------

/// `std::str::from_utf8`: gives the text that valid UTF-8 encodes, and nothing
/// for other bytes.
#[verifier::external_body]
fn utf8_text(bytes: &[u8]) -> (r: Option<String>)
    ensures
        r is Some == valid_utf8(bytes@),
        r matches Some(s) ==> s@ == decode_utf8(bytes@),
{
    std::str::from_utf8(bytes).ok().map(|s| s.to_owned())
}

/// Where the first line break from the position `i` on stands; the length where
/// there is none.
pub open spec fn break_at(b: Seq<u8>, i: int) -> int
    decreases b.len() - i,
{
    if i >= b.len() {
        b.len() as int
    } else if b[i] == 10 {
        i
    } else {
        break_at(b, i + 1)
    }
}

/// Whether there is no line break, so that more bytes could go on the line.
pub open spec fn unbroken(b: Seq<u8>) -> bool {
    break_at(b, 0) == b.len()
}

/// How many bytes the first line has, its break included.
pub open spec fn line_size(b: Seq<u8>) -> int {
    if unbroken(b) {
        b.len() as int
    } else {
        break_at(b, 0) + 1
    }
}

/// Where a text without the line breaks behind ends.
pub open spec fn end_of_line(s: Seq<char>, i: int) -> int
    decreases i,
{
    if 0 < i <= s.len() && (s[i - 1] == '\n' || s[i - 1] == '\r') {
        end_of_line(s, i - 1)
    } else {
        i
    }
}

/// A text without the line breaks behind.
pub open spec fn without_breaks(s: Seq<char>) -> Seq<char> {
    s.take(end_of_line(s, s.len() as int))
}

/// The line that `b` starts with, where `b` is all that the connection gives:
/// none where it has ended.
pub open spec fn line_at(b: Seq<u8>) -> Result<Option<Seq<char>>, ReadError> {
    let raw = b.take(line_size(b));
    if b.len() == 0 {
        Ok(None)
    } else if !valid_utf8(raw) {
        Err(ReadError::NotText)
    } else if raw.len() > MAX_LINE {
        Err(ReadError::TooLarge)
    } else {
        Ok(Some(without_breaks(decode_utf8(raw))))
    }
}

proof fn lemma_break(b: Seq<u8>, i: int)
    requires
        0 <= i <= b.len(),
    ensures
        i <= break_at(b, i) <= b.len(),
        break_at(b, i) < b.len() ==> b[break_at(b, i)] == 10,
    decreases b.len() - i,
{
    if i < b.len() && b[i] != 10 {
        lemma_break(b, i + 1);
    }
}

/// Reads a line from what the connection gave; `None` where it ended.
pub fn read_line(r: &mut Input) -> (line: Result<Option<String>, ReadError>)
    ensures
        match line_at(old(r).rest()) {
            Ok(Some(s)) => line matches Ok(Some(x)) && x@ == s,
            Ok(None) => line matches Ok(None),
            Err(e) => line == Err::<Option<String>, ReadError>(e),
        },
        final(r).rest() == old(r).rest().skip(line_size(old(r).rest())),
{
    let ghost b = r.rest();
    let n: usize = r.left();
    if n == 0 {
        assert(b.skip(0) =~= b);
        return Ok(None);
    }
    let mut i: usize = 0;
    while i < n && r.peek(i) != 10
        invariant
            i <= n,
            b == r.rest(),
            n == b.len(),
            *r == *old(r),
            break_at(b, 0) == break_at(b, i as int),
        decreases n - i,
    {
        i = i + 1;
    }
    let size: usize = if i < n {
        i + 1
    } else {
        n
    };
    let raw: Vec<u8> = r.take(size);
    match utf8_text(raw.as_slice()) {
        None => Err(ReadError::NotText),
        Some(s) => {
            if size > MAX_LINE {
                return Err(ReadError::TooLarge);
            }
            let cs: Vec<char> = chars_of(s.as_str());
            let mut k: usize = cs.len();
            while k > 0 && (cs[k - 1] == '\n' || cs[k - 1] == '\r')
                invariant
                    k <= cs@.len(),
                    end_of_line(cs@, cs@.len() as int) == end_of_line(cs@, k as int),
                decreases k,
            {
                k = k - 1;
            }
            let out: String = slice(&cs, 0, k);
            assert(out@ =~= without_breaks(s@));
            Ok(Some(out))
        },
    }
}

// ---------------------------------------------------------------------------
// Requests
// ---------------------------------------------------------------------------

/// A request. The names of the headers are in small letters.
#[derive(Debug)]
pub struct Request {
    pub method: String,
    pub path: String,
    pub headers: Vec<(String, String)>,
    pub keep_alive: bool,
}

/// What a request says.
pub struct RequestView {
    pub method: Seq<char>,
    pub path: Seq<char>,
    pub headers: Seq<(Seq<char>, Seq<char>)>,
    pub keep_alive: bool,
}

/// What headers say.
pub open spec fn headers_view(h: Seq<(String, String)>) -> Seq<(Seq<char>, Seq<char>)> {
    h.map_values(|p: (String, String)| (p.0@, p.1@))
}

impl View for Request {
    type V = RequestView;

    open spec fn view(&self) -> RequestView {
        RequestView {
            method: self.method@,
            path: self.path@,
            headers: headers_view(self.headers@),
            keep_alive: self.keep_alive,
        }
    }
}

/// The value of a header: the last one where it comes more than once.
pub open spec fn header_value(
    headers: Seq<(Seq<char>, Seq<char>)>,
    name: Seq<char>,
) -> Option<Seq<char>>
    decreases headers.len(),
{
    if headers.len() == 0 {
        None
    } else if headers.last().0 == name {
        Some(headers.last().1)
    } else {
        header_value(headers.drop_last(), name)
    }
}

/// The header that a line writes: a name and a value, with a colon between.
pub open spec fn header_of(line: Seq<char>) -> Option<(Seq<char>, Seq<char>)> {
    let i = words::place(line, ':', 0);
    if i < line.len() {
        Some((words::lowercase(words::trimmed(line.take(i))), words::trimmed(line.skip(i + 1))))
    } else {
        None
    }
}

/// The headers with those of one more line.
pub open spec fn with_header(
    headers: Seq<(Seq<char>, Seq<char>)>,
    line: Seq<char>,
) -> Seq<(Seq<char>, Seq<char>)> {
    match header_of(line) {
        Some(h) => headers.push(h),
        None => headers,
    }
}

/// What reading came to: whether more bytes could change it, what it is if the
/// connection gives no more, and the bytes that are unread then.
pub struct Scan<T> {
    pub open: bool,
    pub outcome: Result<Option<T>, ReadError>,
    pub rest: Seq<u8>,
}

/// The headers up to an empty line, behind those of `seen`. A line that cannot
/// be read is the last one that is.
pub open spec fn scan_headers(b: Seq<u8>, seen: Seq<(Seq<char>, Seq<char>)>) -> Scan<
    Seq<(Seq<char>, Seq<char>)>,
>
    decreases b.len(),
{
    let rest = b.skip(line_size(b));
    match line_at(b) {
        Err(e) => Scan { open: unbroken(b), outcome: Err(e), rest },
        Ok(None) => Scan { open: true, outcome: Ok(None), rest },
        Ok(Some(line)) => if line.len() == 0 {
            Scan { open: unbroken(b), outcome: Ok(Some(seen)), rest }
        } else if line_size(b) <= 0 || line_size(b) > b.len() {
            Scan { open: true, outcome: Ok(None), rest }
        } else {
            scan_headers(rest, with_header(seen, line))
        },
    }
}

/// How many bytes of a body follow the headers.
pub open spec fn body_size(headers: Seq<(Seq<char>, Seq<char>)>) -> int {
    match header_value(headers, "content-length"@) {
        Some(v) => match words::count_within(v, usize::MAX as int) {
            Some(n) => n,
            None => 0,
        },
        None => 0,
    }
}

/// The path of a target: what stands before its question mark.
pub open spec fn path_of(target: Seq<char>) -> Seq<char> {
    target.take(words::place(target, '?', 0))
}

/// Whether the connection stays open after the answer.
pub open spec fn stays_open(version: Seq<char>, headers: Seq<(Seq<char>, Seq<char>)>) -> bool {
    let c = match header_value(headers, "connection"@) {
        Some(v) => words::lowercase(v),
        None => seq![],
    };
    if version == "HTTP/1.0"@ {
        words::holds(c, "keep-alive"@)
    } else {
        !words::holds(c, "close"@)
    }
}

/// The words of the first line: method, target and version.
pub open spec fn first_words(line: Seq<char>) -> Option<(Seq<char>, Seq<char>, Seq<char>)> {
    match words::word_from(line, 0) {
        None => None,
        Some((m, i)) => Some(
            match words::word_from(line, i) {
                None => (m, "/"@, "HTTP/1.1"@),
                Some((t, j)) => match words::word_from(line, j) {
                    None => (m, t, "HTTP/1.1"@),
                    Some((v, _)) => (m, t, v),
                },
            },
        ),
    }
}

/// The request that `b` starts with: none where the connection ends before it,
/// where its first line is blank, or where its body is too large. Of a body that
/// is too large nothing is read; where the connection ends in a body there is
/// nothing left.
pub open spec fn scan_request(b: Seq<u8>) -> Scan<RequestView> {
    let tail = b.skip(line_size(b));
    match line_at(b) {
        Err(e) => Scan { open: unbroken(b), outcome: Err(e), rest: tail },
        Ok(None) => Scan { open: true, outcome: Ok(None), rest: tail },
        Ok(Some(line)) => match first_words(line) {
            None => Scan { open: unbroken(b), outcome: Ok(None), rest: tail },
            Some((m, target, version)) => if words::uppercase(m).len() == 0 {
                Scan { open: unbroken(b), outcome: Ok(None), rest: tail }
            } else {
                let s = scan_headers(tail, seq![]);
                match s.outcome {
                    Err(e) => Scan { open: s.open, outcome: Err(e), rest: s.rest },
                    Ok(None) => Scan { open: s.open, outcome: Ok(None), rest: s.rest },
                    Ok(Some(headers)) => {
                        let size = body_size(headers);
                        if size > MAX_BODY {
                            Scan { open: s.open, outcome: Ok(None), rest: s.rest }
                        } else if s.rest.len() < size {
                            Scan { open: true, outcome: Err(ReadError::Ended), rest: seq![] }
                        } else {
                            Scan {
                                open: s.open,
                                outcome: Ok(
                                    Some(
                                        RequestView {
                                            method: words::uppercase(m),
                                            path: path_of(target),
                                            headers,
                                            keep_alive: stays_open(version, headers),
                                        },
                                    ),
                                ),
                                rest: s.rest.skip(size),
                            }
                        }
                    },
                }
            },
        },
    }
}

/// Whether there is no line break in what is still to be read.
fn no_break(r: &Input) -> (open: bool)
    ensures
        open == unbroken(r.rest()),
{
    let n: usize = r.left();
    let ghost b = r.rest();
    let mut i: usize = 0;
    while i < n
        invariant
            i <= n,
            b == r.rest(),
            n == b.len(),
            break_at(b, 0) == break_at(b, i as int),
        decreases n - i,
    {
        if r.peek(i) == 10 {
            return false;
        }
        i = i + 1;
    }
    true
}

fn push_header(headers: &mut Vec<(String, String)>, line: &str)
    ensures
        headers_view(final(headers)@) == with_header(headers_view(old(headers)@), line@),
{
    let cs: Vec<char> = chars_of(line);
    let n: usize = cs.len();
    let i: usize = find_from(&cs, ':', 0);
    if i < n {
        let name: String = slice(&cs, 0, i);
        let value: String = slice(&cs, i + 1, n);
        assert(name@ =~= line@.take(i as int));
        assert(value@ =~= line@.skip(i + 1));
        headers.push((trim(name.as_str()).as_str().to_lowercase(), trim(value.as_str())));
    }
    assert(headers_view(headers@) =~= with_header(headers_view(old(headers)@), line@));
}

/// The value of a header.
pub fn header(headers: &Vec<(String, String)>, name: &str) -> (r: Option<String>)
    ensures
        match header_value(headers_view(headers@), name@) {
            Some(v) => r matches Some(x) && x@ == v,
            None => r is None,
        },
{
    let mut i: usize = headers.len();
    let ghost all = headers_view(headers@);
    assert(all.take(all.len() as int) =~= all);
    while i > 0
        invariant
            i <= headers@.len(),
            all == headers_view(headers@),
            header_value(all, name@) == header_value(all.take(i as int), name@),
        decreases i,
    {
        i = i - 1;
        assert(all.take(i + 1).drop_last() =~= all.take(i as int));
        assert(all.take(i + 1).last() == all[i as int]);
        if same(headers[i].0.as_str(), name) {
            return Some(headers[i].1.clone());
        }
    }
    assert(all.take(0) =~= seq![]);
    None
}

/// Headers read from a connection, and whether more bytes could change them.
struct HeaderScan {
    open: bool,
    outcome: Result<Option<Vec<(String, String)>>, ReadError>,
}

fn read_headers(r: &mut Input) -> (h: HeaderScan)
    ensures
        ({
            let s = scan_headers(old(r).rest(), seq![]);
            &&& h.open == s.open
            &&& match s.outcome {
                Ok(Some(headers)) => h.outcome matches Ok(Some(x)) && headers_view(x@) == headers,
                Ok(None) => h.outcome matches Ok(None),
                Err(e) => h.outcome == Err::<Option<Vec<(String, String)>>, ReadError>(e),
            }
            &&& final(r).rest() == s.rest
        }),
{
    let ghost start = r.rest();
    let mut headers: Vec<(String, String)> = Vec::new();
    assert(headers_view(headers@) =~= seq![]);
    loop
        invariant
            start == old(r).rest(),
            scan_headers(start, seq![]) == scan_headers(r.rest(), headers_view(headers@)),
        decreases r.rest().len(),
    {
        let ghost b = r.rest();
        let open: bool = no_break(r);
        proof {
            lemma_break(b, 0);
        }
        match read_line(r) {
            Err(e) => {
                return HeaderScan { open, outcome: Err(e) };
            },
            Ok(None) => {
                return HeaderScan { open: true, outcome: Ok(None) };
            },
            Ok(Some(line)) => {
                if line.as_str().is_empty() {
                    return HeaderScan { open, outcome: Ok(Some(headers)) };
                }
                push_header(&mut headers, line.as_str());
            },
        }
    }
}

/// A request read from a connection, and whether more bytes could change it.
struct RequestScan {
    open: bool,
    outcome: Result<Option<Request>, ReadError>,
}

/// The words of a line: method, target and version.
fn split_first(line: &str) -> (r: Option<(String, String, String)>)
    ensures
        match first_words(line@) {
            Some((m, t, v)) => r matches Some((a, b, c)) && a@ == m && b@ == t && c@ == v,
            None => r is None,
        },
{
    let cs: Vec<char> = chars_of(line);
    match next_word(&cs, 0) {
        None => None,
        Some((m, i)) => match next_word(&cs, i) {
            None => Some((m, "/".to_owned(), "HTTP/1.1".to_owned())),
            Some((t, j)) => match next_word(&cs, j) {
                None => Some((m, t, "HTTP/1.1".to_owned())),
                Some((v, _)) => Some((m, t, v)),
            },
        },
    }
}

/// How many bytes of a body follow the headers.
fn body_length(headers: &Vec<(String, String)>) -> (r: u64)
    ensures
        r == body_size(headers_view(headers@)),
{
    match header(headers, "content-length") {
        Some(v) => match parse_count(v.as_str(), usize::MAX as u64) {
            Some(n) => n,
            None => 0,
        },
        None => 0,
    }
}

fn keeps_alive(version: &str, headers: &Vec<(String, String)>) -> (r: bool)
    ensures
        r == stays_open(version@, headers_view(headers@)),
{
    let c: String = match header(headers, "connection") {
        Some(v) => v.as_str().to_lowercase(),
        None => String::new(),
    };
    let ghost cv = match header_value(headers_view(headers@), "connection"@) {
        Some(v) => words::lowercase(v),
        None => seq![],
    };
    assert(c@ =~= cv);
    if same(version, "HTTP/1.0") {
        contains(c.as_str(), "keep-alive")
    } else {
        !contains(c.as_str(), "close")
    }
}

fn cut_path(target: &str) -> (r: String)
    ensures
        r@ == path_of(target@),
{
    let cs: Vec<char> = chars_of(target);
    let i: usize = find_from(&cs, '?', 0);
    let r: String = slice(&cs, 0, i);
    assert(r@ =~= path_of(target@));
    r
}

fn read_request(r: &mut Input) -> (q: RequestScan)
    ensures
        ({
            let s = scan_request(old(r).rest());
            &&& q.open == s.open
            &&& match s.outcome {
                Ok(Some(v)) => q.outcome matches Ok(Some(x)) && x@ == v,
                Ok(None) => q.outcome matches Ok(None),
                Err(e) => q.outcome == Err::<Option<Request>, ReadError>(e),
            }
            &&& final(r).rest() == s.rest
        }),
{
    let open: bool = no_break(r);
    let line: String = match read_line(r) {
        Err(e) => {
            return RequestScan { open, outcome: Err(e) };
        },
        Ok(None) => {
            return RequestScan { open: true, outcome: Ok(None) };
        },
        Ok(Some(l)) => l,
    };
    let (m, target, version): (String, String, String) = match split_first(line.as_str()) {
        None => {
            return RequestScan { open, outcome: Ok(None) };
        },
        Some(w) => w,
    };
    let method: String = m.as_str().to_uppercase();
    if method.as_str().is_empty() {
        return RequestScan { open, outcome: Ok(None) };
    }
    let h: HeaderScan = read_headers(r);
    let headers: Vec<(String, String)> = match h.outcome {
        Err(e) => {
            return RequestScan { open: h.open, outcome: Err(e) };
        },
        Ok(None) => {
            return RequestScan { open: h.open, outcome: Ok(None) };
        },
        Ok(Some(x)) => x,
    };
    let size: u64 = body_length(&headers);
    if size > MAX_BODY {
        return RequestScan { open: h.open, outcome: Ok(None) };
    }
    if (r.left() as u64) < size {
        r.skip(r.left());
        assert(r.rest() =~= seq![]);
        return RequestScan { open: true, outcome: Err(ReadError::Ended) };
    }
    r.skip(size as usize);
    let path: String = cut_path(target.as_str());
    let keep_alive: bool = keeps_alive(version.as_str(), &headers);
    RequestScan {
        open: h.open,
        outcome: Ok(Some(Request { method, path, headers, keep_alive })),
    }
}

/// Reads a request from what the connection gave: `None` where it is over.
pub fn parse_request(r: &mut Input) -> (q: Result<Option<Request>, ReadError>)
    ensures
        match scan_request(old(r).rest()).outcome {
            Ok(Some(v)) => q matches Ok(Some(x)) && x@ == v,
            Ok(None) => q matches Ok(None),
            Err(e) => q == Err::<Option<Request>, ReadError>(e),
        },
        final(r).rest() == scan_request(old(r).rest()).rest,
{
    read_request(r).outcome
}

/// Whether the bytes at hand settle what the next request is.
pub fn request_ready(r: &Input) -> (ready: bool)
    ensures
        ready == !scan_request(r.rest()).open,
{
    let mut probe: Input = r.ahead();
    !read_request(&mut probe).open
}

// ---------------------------------------------------------------------------
// Responses
// ---------------------------------------------------------------------------

/// The head of a response.
pub open spec fn response_head(
    status: u16,
    reason: Seq<char>,
    ctype: Seq<char>,
    size: nat,
) -> Seq<char> {
    "HTTP/1.1 "@ + text::decimal(status as nat) + " "@ + reason + "\r\nContent-Type: "@ + ctype
        + "\r\nContent-Length: "@ + text::decimal(size) + "\r\nCache-Control: no-store\r\n\r\n"@
}

/// A response. It says the size of its body also where the body is left out.
pub open spec fn response(
    status: u16,
    reason: Seq<char>,
    ctype: Seq<char>,
    body: Seq<u8>,
    head_only: bool,
) -> Seq<u8> {
    encode_utf8(response_head(status, reason, ctype, body.len())) + if head_only {
        seq![]
    } else {
        body
    }
}

/// Puts bytes behind others.
fn push_bytes(w: &mut Vec<u8>, bytes: &[u8])
    ensures
        final(w)@ == old(w)@ + bytes@,
{
    let ghost head = w@;
    let mut i: usize = 0;
    assert(head + bytes@.take(0) =~= head);
    while i < bytes.len()
        invariant
            i <= bytes@.len(),
            w@ == head + bytes@.take(i as int),
        decreases bytes@.len() - i,
    {
        w.push(bytes[i]);
        assert(w@ =~= head + bytes@.take(i + 1));
        i = i + 1;
    }
    assert(bytes@.take(i as int) =~= bytes@);
}

/// Puts a response behind `w`.
pub fn respond(w: &mut Vec<u8>, status: u16, reason: &str, ctype: &str, body: &[u8], head_only: bool)
    ensures
        final(w)@ == old(w)@ + response(status, reason@, ctype@, body@, head_only),
{
    let mut head: String = "HTTP/1.1 ".to_owned();
    push_decimal(&mut head, status as u64);
    head.append(" ");
    head.append(reason);
    head.append("\r\nContent-Type: ");
    head.append(ctype);
    head.append("\r\nContent-Length: ");
    push_decimal(&mut head, body.len() as u64);
    head.append("\r\nCache-Control: no-store\r\n\r\n");
    push_bytes(w, head.as_str().as_bytes());
    if !head_only {
        push_bytes(w, body);
    }
    assert(w@ =~= old(w)@ + response(status, reason@, ctype@, body@, head_only));
}

/// What a client is told where too many connections are open.
pub open spec fn busy_text() -> Seq<char> {
    "HTTP/1.1 503 Service Unavailable\r\nContent-Length: 0\r\nConnection: close\r\n\r\n"@
}

/// What a client is told while so many connections are served: nothing where it
/// is served too.
pub open spec fn turned_away(active: usize) -> Option<Seq<char>> {
    if active > MAX_CONNECTIONS {
        Some(busy_text())
    } else {
        None
    }
}

/// Whether a new connection is served while so many are; if not, what its
/// client is told.
pub fn turn_away(active: usize) -> (r: Option<String>)
    ensures
        match turned_away(active) {
            Some(t) => r matches Some(s) && s@ == t,
            None => r is None,
        },
        active > MAX_CONNECTIONS ==> (r matches Some(s) && s@ == busy_text()),
        active <= MAX_CONNECTIONS ==> r is None,
{
    if active > MAX_CONNECTIONS {
        Some(
            "HTTP/1.1 503 Service Unavailable\r\nContent-Length: 0\r\nConnection: close\r\n\r\n".to_owned(),
        )
    } else {
        None
    }
}

// ---------------------------------------------------------------------------
// Answers
// ---------------------------------------------------------------------------

/// What a connection does after an answer.
#[derive(Debug)]
pub enum Next {
    /// The next request is read.
    Keep,
    /// The connection is closed.
    Close,
    /// The connection turns into an event stream.
    Events,
    /// The connection turns into a WebSocket; the key is the client's.
    Upgrade(String),
}

/// What a connection does after an answer.
pub enum NextView {
    Keep,
    Close,
    Events,
    Upgrade(Seq<char>),
}

impl View for Next {
    type V = NextView;

    open spec fn view(&self) -> NextView {
        match self {
            Next::Keep => NextView::Keep,
            Next::Close => NextView::Close,
            Next::Events => NextView::Events,
            Next::Upgrade(k) => NextView::Upgrade(k@),
        }
    }
}

/// What there is to be served.
pub struct Content {
    pub page: String,
    /// The newest state, if there is one.
    pub state: Option<String>,
    pub snapshot: String,
    pub health: String,
}

/// What there is to be served, as bytes.
pub struct ContentView {
    pub page: Seq<u8>,
    pub state: Seq<u8>,
    pub snapshot: Seq<u8>,
    pub health: Seq<u8>,
}

impl View for Content {
    type V = ContentView;

    open spec fn view(&self) -> ContentView {
        ContentView {
            page: encode_utf8(self.page@),
            state: match self.state {
                Some(s) => encode_utf8(s@),
                None => encode_utf8("{}"@),
            },
            snapshot: encode_utf8(self.snapshot@),
            health: encode_utf8(self.health@),
        }
    }
}

/// Whether a path is that of the dashboard.
pub open spec fn page_path(path: Seq<char>) -> bool {
    path == "/"@ || path == "/index.html"@ || path == "/dashboard"@
}

impl RequestView {
    /// Whether the answer goes without its body.
    pub open spec fn head_only(self) -> bool {
        self.method == "HEAD"@
    }

    /// Whether the method is one that is served.
    pub open spec fn gets(self) -> bool {
        self.method == "GET"@ || self.method == "HEAD"@
    }

    /// Whether the request asks for an upgrade to a WebSocket.
    pub open spec fn upgrades(self) -> bool {
        header_value(self.headers, "sec-websocket-key"@) is Some && match header_value(
            self.headers,
            "upgrade"@,
        ) {
            Some(v) => words::holds(words::lowercase(v), "websocket"@),
            None => false,
        }
    }

    /// What the connection does after an answer that does not end it.
    pub open spec fn after(self) -> NextView {
        if self.keep_alive {
            NextView::Keep
        } else {
            NextView::Close
        }
    }

    /// The bytes of a good answer.
    pub open spec fn ok(self, ctype: Seq<char>, body: Seq<u8>) -> Seq<u8> {
        response(200, "OK"@, ctype, body, self.head_only())
    }

    /// What is answered to the request, and what the connection does then.
    pub open spec fn answer(self, c: ContentView) -> (Seq<u8>, NextView) {
        if self.path == "/api/ws"@ && self.gets() {
            if self.upgrades() {
                (
                    seq![],
                    NextView::Upgrade(header_value(self.headers, "sec-websocket-key"@)->0),
                )
            } else {
                (
                    response(
                        400,
                        "Bad Request"@,
                        "text/plain"@,
                        encode_utf8("expected websocket upgrade"@),
                        false,
                    ),
                    NextView::Close,
                )
            }
        } else if !self.gets() {
            (
                response(
                    405,
                    "Method Not Allowed"@,
                    "text/plain"@,
                    encode_utf8("method not allowed"@),
                    false,
                ),
                self.after(),
            )
        } else if page_path(self.path) {
            (self.ok("text/html; charset=utf-8"@, c.page), self.after())
        } else if self.path == "/api/state"@ {
            (self.ok("application/json"@, c.state), self.after())
        } else if self.path == "/api/snapshot"@ {
            (self.ok("application/json"@, c.snapshot), self.after())
        } else if self.path == "/api/health"@ {
            (self.ok("application/json"@, c.health), self.after())
        } else if self.path == "/api/ping"@ {
            (self.ok("text/plain"@, encode_utf8("pong"@)), self.after())
        } else if self.path == "/api/events"@ {
            (seq![], NextView::Events)
        } else if self.path == "/favicon.ico"@ {
            (response(204, "No Content"@, "image/x-icon"@, seq![], true), self.after())
        } else {
            (
                response(
                    404,
                    "Not Found"@,
                    "text/plain"@,
                    encode_utf8("not found"@),
                    false,
                ),
                self.after(),
            )
        }
    }
}

fn answer_with(
    status: u16,
    reason: &str,
    ctype: &str,
    body: &str,
    head_only: bool,
) -> (r: Vec<u8>)
    ensures
        r@ == response(status, reason@, ctype@, encode_utf8(body@), head_only),
{
    let mut out: Vec<u8> = Vec::new();
    respond(&mut out, status, reason, ctype, body.as_bytes(), head_only);
    assert(out@ =~= response(status, reason@, ctype@, encode_utf8(body@), head_only));
    out
}

impl Request {
    fn after_answer(&self) -> (r: Next)
        ensures
            r@ == self@.after(),
    {
        if self.keep_alive {
            Next::Keep
        } else {
            Next::Close
        }
    }

    /// What is answered to a request for an upgrade, and what the connection
    /// does then.
    fn answer_upgrade(&self) -> (r: (Vec<u8>, Next))
        ensures
            self@.upgrades() ==> r.0@.len() == 0 && r.1@ == NextView::Upgrade(
                header_value(self@.headers, "sec-websocket-key"@)->0,
            ),
            !self@.upgrades() ==> r.1@ == NextView::Close && r.0@ == response(
                400,
                "Bad Request"@,
                "text/plain"@,
                encode_utf8("expected websocket upgrade"@),
                false,
            ),
    {
        let upgrade: bool = match header(&self.headers, "upgrade") {
            Some(v) => contains(v.as_str().to_lowercase().as_str(), "websocket"),
            None => false,
        };
        match header(&self.headers, "sec-websocket-key") {
            Some(key) => {
                if upgrade {
                    return (Vec::new(), Next::Upgrade(key));
                }
            },
            None => {},
        }
        (
            answer_with(400, "Bad Request", "text/plain", "expected websocket upgrade", false),
            Next::Close,
        )
    }

    /// What is answered to the request, and what the connection does then.
    pub fn answer(&self, c: &Content) -> (r: (Vec<u8>, Next))
        ensures
            (r.0@, r.1@) == self@.answer(c@),
    {
        let head_only: bool = same(self.method.as_str(), "HEAD");
        let get: bool = head_only || same(self.method.as_str(), "GET");
        let path: &str = self.path.as_str();
        if same(path, "/api/ws") && get {
            let r: (Vec<u8>, Next) = self.answer_upgrade();
            assert(r.0@ =~= self@.answer(c@).0);
            return r;
        }
        if !get {
            return (
                answer_with(
                    405,
                    "Method Not Allowed",
                    "text/plain",
                    "method not allowed",
                    false,
                ),
                self.after_answer(),
            );
        }
        if same(path, "/") || same(path, "/index.html") || same(path, "/dashboard") {
            return (
                answer_with(200, "OK", "text/html; charset=utf-8", c.page.as_str(), head_only),
                self.after_answer(),
            );
        }
        if same(path, "/api/state") {
            let body: &str = match &c.state {
                Some(s) => s.as_str(),
                None => "{}",
            };
            return (
                answer_with(200, "OK", "application/json", body, head_only),
                self.after_answer(),
            );
        }
        if same(path, "/api/snapshot") {
            return (
                answer_with(200, "OK", "application/json", c.snapshot.as_str(), head_only),
                self.after_answer(),
            );
        }
        if same(path, "/api/health") {
            return (
                answer_with(200, "OK", "application/json", c.health.as_str(), head_only),
                self.after_answer(),
            );
        }
        if same(path, "/api/ping") {
            return (
                answer_with(200, "OK", "text/plain", "pong", head_only),
                self.after_answer(),
            );
        }
        if same(path, "/api/events") {
            let none: Vec<u8> = Vec::new();
            assert(none@ =~= seq![]);
            return (none, Next::Events);
        }
        if same(path, "/favicon.ico") {
            let mut out: Vec<u8> = Vec::new();
            let none: Vec<u8> = Vec::new();
            respond(&mut out, 204, "No Content", "image/x-icon", none.as_slice(), true);
            assert(none@ =~= seq![]);
            assert(out@ =~= response(204, "No Content"@, "image/x-icon"@, seq![], true));
            return (out, self.after_answer());
        }
        (
            answer_with(404, "Not Found", "text/plain", "not found", false),
            self.after_answer(),
        )
    }
}

/// The health as a client reads it: the service's, and that of its feed.
pub open spec fn health_fields(uptime_s: u64, feed: HealthView) -> Seq<(Seq<char>, JsonView)> {
    seq![
        ("status"@, JsonView::Text("ok"@)),
        ("engine"@, JsonView::Text(ENGINE_VERSION@)),
        ("uptime_s"@, JsonView::Whole(uptime_s as int)),
        ("feed"@, JsonView::Object(feed.fields())),
    ]
}

/// The health as a client reads it: the service's, and that of its feed.
pub fn health_json(uptime_s: u64, feed: &FeedHealth) -> (r: Json)
    ensures
        r@ == JsonView::Object(health_fields(uptime_s, feed@)),
{
    let mut f: Vec<(String, Json)> = Vec::new();
    put(&mut f, "status", text("ok"));
    put(&mut f, "engine", text(ENGINE_VERSION));
    put(&mut f, "uptime_s", Json::Uint(uptime_s));
    put(&mut f, "feed", feed.to_json());
    assert(crate::json::fields_view(f@) =~= health_fields(uptime_s, feed@));
    Json::Object(f)
}

// ---------------------------------------------------------------------------
// Streams
// ---------------------------------------------------------------------------

/// The head of an event stream.
pub open spec fn stream_head() -> Seq<char> {
    "HTTP/1.1 200 OK\r\nContent-Type: text/event-stream\r\nCache-Control: no-store\r\nConnection: keep-alive\r\n\r\n"@
}

/// A message as an event stream carries it.
pub open spec fn stream_message(msg: Seq<char>) -> Seq<char> {
    "data: "@ + msg + "\n\n"@
}

/// The head of an event stream.
pub fn sse_head() -> (r: String)
    ensures
        r@ == stream_head(),
        r@
            == "HTTP/1.1 200 OK\r\nContent-Type: text/event-stream\r\nCache-Control: no-store\r\nConnection: keep-alive\r\n\r\n"@,
{
    "HTTP/1.1 200 OK\r\nContent-Type: text/event-stream\r\nCache-Control: no-store\r\nConnection: keep-alive\r\n\r\n".to_owned()
}

/// A message as an event stream carries it.
pub fn sse_message(msg: &str) -> (r: String)
    ensures
        r@ == stream_message(msg@),
        r@ == "data: "@ + msg@ + "\n\n"@,
{
    let mut out: String = "data: ".to_owned();
    out.append(msg);
    out.append("\n\n");
    out
}

/// What came of waiting for a message.
#[derive(Debug)]
pub enum Waited<T> {
    Message(T),
    /// Nothing came in time.
    Timeout,
    /// Nothing will come any more.
    Over,
}

/// What an event stream sends next; none where it is over.
pub open spec fn stream_step(waited: Waited<String>) -> Option<Seq<char>> {
    match waited {
        Waited::Message(m) => Some(m@),
        Waited::Timeout => Some(": keepalive\n\n"@),
        Waited::Over => None,
    }
}

/// What an event stream sends next; `None` where it is over.
pub fn sse_step(waited: Waited<String>) -> (r: Option<String>)
    ensures
        match stream_step(waited) {
            Some(t) => r matches Some(x) && x@ == t,
            None => r is None,
        },
        match waited {
            Waited::Message(m) => r matches Some(x) && x@ == m@,
            Waited::Timeout => r matches Some(x) && x@ == ": keepalive\n\n"@,
            Waited::Over => r is None,
        },
{
    match waited {
        Waited::Message(m) => Some(m),
        Waited::Timeout => Some(": keepalive\n\n".to_owned()),
        Waited::Over => None,
    }
}

/// What the server answers to the request for a WebSocket.
pub open spec fn switching_text(accept: Seq<char>) -> Seq<char> {
    "HTTP/1.1 101 Switching Protocols\r\nUpgrade: websocket\r\nConnection: Upgrade\r\nSec-WebSocket-Accept: "@
        + accept + "\r\n\r\n"@
}

/// What the server answers to the request for a WebSocket, with the proof that
/// it read the client's key.
pub fn switching(accept: &str) -> (r: String)
    ensures
        r@ == switching_text(accept@),
{
    let mut out: String =
        "HTTP/1.1 101 Switching Protocols\r\nUpgrade: websocket\r\nConnection: Upgrade\r\nSec-WebSocket-Accept: ".to_owned();
    out.append(accept);
    out.append("\r\n\r\n");
    out
}

/// What the server answers to the request for a WebSocket with the client's
/// key.
pub fn handshake(key: &str) -> (r: String)
    requires
        encode_utf8(key@ + WS_GUID@).len() < DIGEST_LIMIT,
    ensures
        r@ == switching_text(ws::accept_text(key@)),
{
    switching(accept_key(key).as_str())
}

/// What is sent to a WebSocket client, and whether more follows.
pub struct Send {
    pub bytes: Vec<u8>,
    pub go_on: bool,
}

fn send_frame(opcode: u8, payload: &[u8], go_on: bool) -> (r: Send)
    ensures
        r.bytes@ == ws::frame_bytes(opcode, payload@),
        r.go_on == go_on,
{
    let mut bytes: Vec<u8> = Vec::new();
    write_frame(&mut bytes, opcode, payload);
    assert(bytes@ =~= ws::frame_bytes(opcode, payload@));
    Send { bytes, go_on }
}

/// What the writer of a WebSocket sends next, and whether it goes on.
pub open spec fn socket_writes(waited: Waited<FrameOut>) -> (Seq<u8>, bool) {
    match waited {
        Waited::Message(FrameOut::Text(s)) => (ws::frame_bytes(1, encode_utf8(s@)), true),
        Waited::Message(FrameOut::Ping) => (ws::frame_bytes(9, seq![]), true),
        Waited::Message(FrameOut::Pong(p)) => (ws::frame_bytes(10, p@), true),
        Waited::Message(FrameOut::Close(p)) => (ws::frame_bytes(8, p@), false),
        Waited::Timeout => (ws::frame_bytes(9, encode_utf8("keepalive"@)), true),
        Waited::Over => (seq![], false),
    }
}

/// What the reader of a WebSocket sends back, and whether it goes on.
pub open spec fn socket_replies(frame: Result<Option<ClientFrame>, ReadError>) -> (Seq<u8>, bool) {
    match frame {
        Ok(Some(ClientFrame::Ping(p))) => (ws::frame_bytes(10, p@), true),
        Ok(Some(ClientFrame::Close(p))) => (ws::frame_bytes(8, p@), false),
        Ok(Some(_)) => (seq![], true),
        _ => (seq![], false),
    }
}

/// What the writer of a WebSocket sends next: the message that came, or a ping
/// where none came in time. After a close it stops.
pub fn ws_write(waited: Waited<FrameOut>) -> (r: Send)
    ensures
        (r.bytes@, r.go_on) == socket_writes(waited),
        match waited {
            Waited::Message(FrameOut::Text(s)) => r.go_on && r.bytes@ == ws::frame_bytes(
                1,
                encode_utf8(s@),
            ),
            Waited::Message(FrameOut::Ping) => r.go_on && r.bytes@ == ws::frame_bytes(9, seq![]),
            Waited::Message(FrameOut::Pong(p)) => r.go_on && r.bytes@ == ws::frame_bytes(10, p@),
            Waited::Message(FrameOut::Close(p)) => !r.go_on && r.bytes@ == ws::frame_bytes(8, p@),
            Waited::Timeout => r.go_on && r.bytes@ == ws::frame_bytes(
                9,
                encode_utf8("keepalive"@),
            ),
            Waited::Over => !r.go_on && r.bytes@.len() == 0,
        },
{
    match waited {
        Waited::Message(m) => match m {
            FrameOut::Text(s) => send_frame(1, s.as_str().as_bytes(), true),
            FrameOut::Ping => {
                let none: Vec<u8> = Vec::new();
                assert(none@ =~= seq![]);
                send_frame(9, none.as_slice(), true)
            },
            FrameOut::Pong(p) => send_frame(10, p.as_slice(), true),
            FrameOut::Close(p) => send_frame(8, p.as_slice(), false),
        },
        Waited::Timeout => send_frame(9, "keepalive".as_bytes(), true),
        Waited::Over => Send { bytes: Vec::new(), go_on: false },
    }
}

/// What the reader of a WebSocket does with a frame: a ping is answered, a close
/// is echoed and ends it, anything else is passed over. It ends with the
/// connection too.
pub fn ws_read(frame: Result<Option<ClientFrame>, ReadError>) -> (r: Send)
    ensures
        (r.bytes@, r.go_on) == socket_replies(frame),
        match frame {
            Ok(Some(ClientFrame::Ping(p))) => r.go_on && r.bytes@ == ws::frame_bytes(10, p@),
            Ok(Some(ClientFrame::Close(p))) => !r.go_on && r.bytes@ == ws::frame_bytes(8, p@),
            Ok(Some(_)) => r.go_on && r.bytes@.len() == 0,
            _ => !r.go_on && r.bytes@.len() == 0,
        },
{
    match frame {
        Ok(Some(f)) => match f {
            ClientFrame::Ping(p) => send_frame(10, p.as_slice(), true),
            ClientFrame::Close(p) => send_frame(8, p.as_slice(), false),
            _ => Send { bytes: Vec::new(), go_on: true },
        },
        _ => Send { bytes: Vec::new(), go_on: false },
    }
}

// ---------------------------------------------------------------------------
// Laws
// ---------------------------------------------------------------------------

proof fn lemma_break_stays(b: Seq<u8>, more: Seq<u8>, i: int)
    requires
        0 <= i <= b.len(),
        break_at(b, i) < b.len(),
    ensures
        break_at(b + more, i) == break_at(b, i),
    decreases b.len() - i,
{
    if i < b.len() {
        assert((b + more)[i] == b[i]);
        if b[i] != 10 {
            lemma_break_stays(b, more, i + 1);
        }
    }
}

/// A line that has its break stays as it is.
proof fn lemma_line_stays(b: Seq<u8>, more: Seq<u8>)
    requires
        !unbroken(b),
    ensures
        !unbroken(b + more),
        line_size(b + more) == line_size(b),
        0 < line_size(b) <= b.len(),
        line_at(b + more) == line_at(b),
        (b + more).skip(line_size(b)) == b.skip(line_size(b)) + more,
{
    lemma_break(b, 0);
    lemma_break_stays(b, more, 0);
    let n = line_size(b);
    assert((b + more).take(n) =~= b.take(n));
    assert((b + more).skip(n) =~= b.skip(n) + more);
}

proof fn lemma_headers_stay(b: Seq<u8>, more: Seq<u8>, seen: Seq<(Seq<char>, Seq<char>)>)
    requires
        !scan_headers(b, seen).open,
    ensures
        !scan_headers(b + more, seen).open,
        scan_headers(b + more, seen).outcome == scan_headers(b, seen).outcome,
        scan_headers(b + more, seen).rest == scan_headers(b, seen).rest + more,
    decreases b.len(),
{
    lemma_break(b, 0);
    if unbroken(b) {
        // the line would go on with more bytes
        if let Ok(Some(line)) = line_at(b) {
            if line.len() > 0 {
                assert(b.skip(line_size(b)) =~= seq![]);
                assert(scan_headers(b.skip(line_size(b)), with_header(seen, line)).open);
            }
        }
        assert(false);
    } else {
        lemma_line_stays(b, more);
        if let Ok(Some(line)) = line_at(b) {
            if line.len() > 0 {
                lemma_headers_stay(b.skip(line_size(b)), more, with_header(seen, line));
            }
        }
    }
}

/// Once the bytes at hand settle a request, more bytes do not change it: they
/// only follow it.
pub proof fn law_settled_request_stays(b: Seq<u8>, more: Seq<u8>)
    requires
        !scan_request(b).open,
    ensures
        !scan_request(b + more).open,
        scan_request(b + more).outcome == scan_request(b).outcome,
        scan_request(b + more).rest == scan_request(b).rest + more,
{
    lemma_break(b, 0);
    if unbroken(b) {
        if let Ok(Some(line)) = line_at(b) {
            assert(b.skip(line_size(b)) =~= seq![]);
            assert(scan_headers(seq![], seq![]).open);
        }
        assert(false);
    } else {
        lemma_line_stays(b, more);
        let tail = b.skip(line_size(b));
        if let Ok(Some(line)) = line_at(b) {
            if let Some((m, target, version)) = first_words(line) {
                if words::uppercase(m).len() > 0 {
                    lemma_headers_stay(tail, more, seq![]);
                    if let Ok(Some(h)) = scan_headers(tail, seq![]).outcome {
                        let rest = scan_headers(tail, seq![]).rest;
                        let size = body_size(h);
                        if size <= MAX_BODY && size <= rest.len() && size >= 0 {
                            assert((rest + more).skip(size) =~= rest.skip(size) + more);
                        }
                    }
                }
            }
        }
    }
}

/// A request whose body is too large is refused once its headers are read, and
/// nothing of the body is: all that follows the empty line is unread.
pub proof fn law_large_body_not_read(b: Seq<u8>, headers: Seq<(Seq<char>, Seq<char>)>)
    requires
        line_at(b) matches Ok(Some(line)) && first_words(line) matches Some((m, _, _))
            && words::uppercase(m).len() > 0,
        scan_headers(b.skip(line_size(b)), seq![]).outcome == Ok::<
            Option<Seq<(Seq<char>, Seq<char>)>>,
            ReadError,
        >(Some(headers)),
        body_size(headers) > MAX_BODY,
    ensures
        scan_request(b).outcome == Ok::<Option<RequestView>, ReadError>(None),
        scan_request(b).rest == scan_headers(b.skip(line_size(b)), seq![]).rest,
{
}

/// The answer to a request for the head alone is the start of the full answer.
pub proof fn law_head_alone(status: u16, reason: Seq<char>, ctype: Seq<char>, body: Seq<u8>)
    ensures
        response(status, reason, ctype, body, false) == response(status, reason, ctype, body, true)
            + body,
{
    assert(response(status, reason, ctype, body, false) =~= response(
        status,
        reason,
        ctype,
        body,
        true,
    ) + body);
}

/// Methods other than GET and HEAD are refused on every path, and what there is
/// to be served plays no part in the answer.
pub proof fn law_other_methods_refused(q: RequestView, c: ContentView)
    requires
        q.method != "GET"@,
        q.method != "HEAD"@,
    ensures
        q.answer(c) == (
            response(
                405,
                "Method Not Allowed"@,
                "text/plain"@,
                encode_utf8("method not allowed"@),
                false,
            ),
            q.after(),
        ),
{
}

/// A connection turns into a WebSocket only where the client sent a key and
/// asked for the upgrade.
pub proof fn law_upgrade_needs_key(q: RequestView, c: ContentView)
    ensures
        q.answer(c).1 is Upgrade ==> {
            &&& q.upgrades()
            &&& q.path == "/api/ws"@
            &&& q.answer(c).1 == NextView::Upgrade(
                header_value(q.headers, "sec-websocket-key"@)->0,
            )
        },
{
}

} // verus!
