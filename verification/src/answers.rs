//! What clients get: which answer a request has, and what goes over the wire.

use crate::http;
use crate::http::{ContentView, NextView, RequestView};
use crate::hub::FrameOut;
use crate::text;
use crate::words;
use crate::ws;
use crate::ws::FrameView;
use vstd::prelude::*;
use vstd::utf8::*;

verus! {

/// A response says its status, its kind and its size, and is not to be stored;
/// the body follows, unless only the head is asked for.
pub proof fn law_response(
    status: u16,
    reason: Seq<char>,
    ctype: Seq<char>,
    body: Seq<u8>,
    head_only: bool,
)
    ensures
        http::response(status, reason, ctype, body, head_only) == encode_utf8(
            "HTTP/1.1 "@ + text::decimal(status as nat) + " "@ + reason + "\r\nContent-Type: "@
                + ctype + "\r\nContent-Length: "@ + text::decimal(body.len())
                + "\r\nCache-Control: no-store\r\n\r\n"@,
        ) + if head_only {
            Seq::<u8>::empty()
        } else {
            body
        },
        http::busy_text()
            == "HTTP/1.1 503 Service Unavailable\r\nContent-Length: 0\r\nConnection: close\r\n\r\n"@,
{
}

/// Distinct paths are distinct.
proof fn lemma_paths()
    ensures
        "/api/ws"@ != "/"@ && "/api/ws"@ != "/index.html"@ && "/api/ws"@ != "/dashboard"@,
        "/api/ws"@ != "/api/state"@ && "/api/ws"@ != "/api/snapshot"@ && "/api/ws"@
            != "/api/health"@,
        "/api/ws"@ != "/api/ping"@ && "/api/ws"@ != "/api/events"@,
        "/api/state"@ != "/"@ && "/api/state"@ != "/index.html"@ && "/api/state"@
            != "/dashboard"@,
        "/api/snapshot"@ != "/"@ && "/api/snapshot"@ != "/index.html"@ && "/api/snapshot"@
            != "/dashboard"@ && "/api/snapshot"@ != "/api/state"@,
        "/api/health"@ != "/"@ && "/api/health"@ != "/index.html"@ && "/api/health"@
            != "/dashboard"@ && "/api/health"@ != "/api/state"@ && "/api/health"@
            != "/api/snapshot"@,
        "/api/ping"@ != "/"@ && "/api/ping"@ != "/index.html"@ && "/api/ping"@ != "/dashboard"@
            && "/api/ping"@ != "/api/state"@ && "/api/ping"@ != "/api/snapshot"@ && "/api/ping"@
            != "/api/health"@,
        "/api/events"@ != "/"@ && "/api/events"@ != "/index.html"@ && "/api/events"@
            != "/dashboard"@ && "/api/events"@ != "/api/state"@ && "/api/events"@
            != "/api/snapshot"@ && "/api/events"@ != "/api/health"@ && "/api/events"@
            != "/api/ping"@,
        "GET"@ != "HEAD"@,
{
    reveal_strlit("/");
    reveal_strlit("/index.html");
    reveal_strlit("/dashboard");
    reveal_strlit("/api/ws");
    reveal_strlit("/api/state");
    reveal_strlit("/api/snapshot");
    reveal_strlit("/api/health");
    reveal_strlit("/api/ping");
    reveal_strlit("/api/events");
    reveal_strlit("GET");
    reveal_strlit("HEAD");
    assert("/"@.len() == 1 && "/index.html"@.len() == 11 && "/dashboard"@.len() == 10);
    assert("/api/ws"@.len() == 7 && "/api/state"@.len() == 10 && "/api/snapshot"@.len() == 13);
    assert("/api/health"@.len() == 11 && "/api/ping"@.len() == 9 && "/api/events"@.len() == 11);
    assert("/dashboard"@[1] == 'd' && "/api/state"@[1] == 'a');
    assert("/index.html"@[1] == 'i' && "/api/health"@[1] == 'a' && "/api/events"@[1] == 'a');
    assert("/api/health"@[5] == 'h' && "/api/events"@[5] == 'e');
    assert("GET"@.len() == 3 && "HEAD"@.len() == 4);
}

/// What is served under each path: the page, the newest state, the newest of
/// everything, the health, and a word to tell that someone is there. A request
/// for the head gets no body.
pub proof fn law_what_is_served(q: RequestView, c: ContentView)
    requires
        q.method == "GET"@ || q.method == "HEAD"@,
    ensures
        ({
            let bare = q.method == "HEAD"@;
            let next = if q.keep_alive {
                NextView::Keep
            } else {
                NextView::Close
            };
            let json = "application/json"@;
            &&& q.path == "/"@ || q.path == "/index.html"@ || q.path == "/dashboard"@ ==> q.answer(c)
                == (http::response(200, "OK"@, "text/html; charset=utf-8"@, c.page, bare), next)
            &&& q.path == "/api/state"@ ==> q.answer(c) == (
                http::response(200, "OK"@, json, c.state, bare),
                next,
            )
            &&& q.path == "/api/snapshot"@ ==> q.answer(c) == (
                http::response(200, "OK"@, json, c.snapshot, bare),
                next,
            )
            &&& q.path == "/api/health"@ ==> q.answer(c) == (
                http::response(200, "OK"@, json, c.health, bare),
                next,
            )
            &&& q.path == "/api/ping"@ ==> q.answer(c) == (
                http::response(200, "OK"@, "text/plain"@, encode_utf8("pong"@), bare),
                next,
            )
            &&& q.path == "/api/events"@ ==> q.answer(c) == (
                Seq::<u8>::empty(),
                NextView::Events,
            )
        }),
{
    lemma_paths();
}

/// A WebSocket is opened for a request that asks for it with a key, whatever else
/// it says; one that does not is told so, and the connection ends.
pub proof fn law_upgrade(q: RequestView, c: ContentView)
    requires
        q.method == "GET"@,
        q.path == "/api/ws"@,
    ensures
        ({
            let key = http::header_value(q.headers, "sec-websocket-key"@);
            let up = http::header_value(q.headers, "upgrade"@);
            let asks = key is Some && (up matches Some(v) && words::holds(
                words::lowercase(v),
                "websocket"@,
            ));
            &&& asks ==> q.answer(c) == (Seq::<u8>::empty(), NextView::Upgrade(key->0))
            &&& !asks ==> q.answer(c) == (
                http::response(
                    400,
                    "Bad Request"@,
                    "text/plain"@,
                    encode_utf8("expected websocket upgrade"@),
                    false,
                ),
                NextView::Close,
            )
        }),
{
}

/// The key of a WebSocket is answered with the base64 form of the SHA-1 digest of
/// the key and the constant of the protocol.
pub proof fn law_accept(key: Seq<char>)
    ensures
        ws::accept_text(key) == ws::base64(
            ws::sha1(encode_utf8(key + "258EAFA5-E914-47DA-95CA-C5AB0DC85B11"@)),
        ),
        http::switching_text(key)
            == "HTTP/1.1 101 Switching Protocols\r\nUpgrade: websocket\r\nConnection: Upgrade\r\nSec-WebSocket-Accept: "@
            + key + "\r\n\r\n"@,
{
}

/// A frame to the client: its last and only part, with the length in one byte, or
/// behind a mark in two or eight bytes, the high ones first.
pub proof fn law_frame_bytes(opcode: u8, p: Seq<u8>)
    requires
        opcode < 16,
    ensures
        ({
            let f = ws::frame_bytes(opcode, p);
            let n = p.len() as int;
            &&& f.len() > 1
            &&& f[0] == 128 + opcode
            &&& n < 126 ==> f.len() == 2 + n && f[1] == n && f.skip(2) == p
            &&& 126 <= n < 65_536 ==> {
                &&& f.len() == 4 + n
                &&& f[1] == 126
                &&& f[2] as int * 256 + f[3] as int == n
                &&& f.skip(4) == p
            }
            &&& 65_536 <= n < 0x1_0000_0000 ==> {
                &&& f.len() == 10 + n
                &&& f[1] == 127
                &&& f[2] == 0 && f[3] == 0 && f[4] == 0 && f[5] == 0
                &&& f[6] as int * 0x100_0000 + f[7] as int * 0x1_0000 + f[8] as int * 256
                    + f[9] as int == n
                &&& f.skip(10) == p
            }
        }),
{
    assert(0x80u8 | opcode == 128 + opcode) by (bit_vector)
        requires
            opcode < 16,
    ;
    let f = ws::frame_bytes(opcode, p);
    let n = p.len();
    if n < 126 {
        assert(f.skip(2) =~= p);
    } else if n < 65_536 {
        assert(f.skip(4) =~= p);
    } else if n < 0x1_0000_0000 {
        assert(f.skip(10) =~= p);
        assert(n / 0x100_0000_0000_0000 == 0);
    }
}

/// The kinds of frames: 8 closes, 9 asks whether someone is there, 10 tells that
/// someone is, and anything else is text.
pub proof fn law_frame_kinds(opcode: int, p: Seq<u8>)
    ensures
        ws::frame_of_kind(8, p) == FrameView::Close(p),
        ws::frame_of_kind(9, p) == FrameView::Ping(p),
        ws::frame_of_kind(10, p) == FrameView::Pong,
        ws::frame_of_kind(1, p) == FrameView::Text(ws::lossy_text(p)),
{
}

/// The path of a target ends before its question mark.
pub proof fn law_path_of_a_target(path: Seq<char>, query: Seq<char>)
    requires
        !path.contains('?'),
    ensures
        http::path_of(path + seq!['?'] + query) == path,
        http::path_of(path) == path,
{
    crate::rows::lemma_place_first(path, '?', query, 0);
    let t = path + seq!['?'] + query;
    assert(t.take(path.len() as int) =~= path);
    crate::rows::lemma_place_none(path, '?', 0);
    lemma_place_bound(path, '?', 0);
    assert(path.take(path.len() as int) =~= path);
}

proof fn lemma_place_bound(s: Seq<char>, c: char, i: int)
    requires
        0 <= i <= s.len(),
    ensures
        words::place(s, c, i) <= s.len(),
    decreases s.len() - i,
{
    if i < s.len() && s[i] != c {
        lemma_place_bound(s, c, i + 1);
    }
}

/// A connection stays open unless it is to be closed; an old client has to ask
/// for it.
pub proof fn law_when_a_connection_stays(version: Seq<char>, headers: Seq<(Seq<char>, Seq<char>)>)
    ensures
        ({
            let said = match http::header_value(headers, "connection"@) {
                Some(v) => words::lowercase(v),
                None => seq![],
            };
            &&& version == "HTTP/1.0"@ ==> http::stays_open(version, headers) == words::holds(
                said,
                "keep-alive"@,
            )
            &&& version != "HTTP/1.0"@ ==> http::stays_open(version, headers) == !words::holds(
                said,
                "close"@,
            )
        }),
{
}

/// An event stream passes messages on, and sends a comment where none came; a
/// WebSocket sends a ping then, and says goodbye with the frame that it was given.
pub proof fn law_what_streams_send(s: String, p: Vec<u8>)
    ensures
        http::stream_step(http::Waited::Message(s)) == Some(s@),
        http::stream_step(http::Waited::Timeout) == Some(": keepalive\n\n"@),
        http::stream_step(http::Waited::Over) is None,
        http::socket_writes(http::Waited::Message(FrameOut::Text(s))) == (
            ws::frame_bytes(0x1, encode_utf8(s@)),
            true,
        ),
        http::socket_writes(http::Waited::Message(FrameOut::Ping)) == (
            ws::frame_bytes(0x9, seq![]),
            true,
        ),
        http::socket_writes(http::Waited::Message(FrameOut::Pong(p))) == (
            ws::frame_bytes(0xA, p@),
            true,
        ),
        http::socket_writes(http::Waited::Message(FrameOut::Close(p))) == (
            ws::frame_bytes(0x8, p@),
            false,
        ),
        http::socket_writes(http::Waited::Timeout) == (
            ws::frame_bytes(0x9, encode_utf8("keepalive"@)),
            true,
        ),
        http::socket_writes(http::Waited::Over) == (Seq::<u8>::empty(), false),
{
}

/// A ping is answered with what it carried and a close is echoed and ends the
/// connection; nothing else is answered.
pub proof fn law_what_frames_are_answered(frame: ws::ClientFrame, e: crate::stream::ReadError)
    ensures
        ({
            let (bytes, go_on) = http::socket_replies(Ok(Some(frame)));
            match frame {
                ws::ClientFrame::Ping(p) => go_on && bytes == ws::frame_bytes(0xA, p@),
                ws::ClientFrame::Close(p) => !go_on && bytes == ws::frame_bytes(0x8, p@),
                ws::ClientFrame::Text(_) => go_on && bytes.len() == 0,
                ws::ClientFrame::Pong => go_on && bytes.len() == 0,
            }
        }),
        http::socket_replies(Ok(None)) == (Seq::<u8>::empty(), false),
        http::socket_replies(Err(e)) == (Seq::<u8>::empty(), false),
{
}

/// Up to two hundred connections are served besides a new one; with more it is
/// told to come again.
pub proof fn law_when_clients_are_turned_away(active: usize)
    ensures
        active <= 200 ==> http::turned_away(active) is None,
        active > 200 ==> http::turned_away(active)
            == Some("HTTP/1.1 503 Service Unavailable\r\nContent-Length: 0\r\nConnection: close\r\n\r\n"@),
{
}

} // verus!
