use live_trader::double::Double;
use live_trader::feed::FeedHealth;
use live_trader::http::{
    handshake, health_json, parse_request, read_line, request_ready, respond, sse_message,
    sse_step, switching, turn_away, ws_read, ws_write, Content, Next, Waited, ENGINE_VERSION,
};
use live_trader::hub::{FrameOut, Hub};
use live_trader::json::Json;
use live_trader::stream::{Input, ReadError};
use live_trader::ws::{
    accept_key, b64_encode, encode_frame, frame_ready, read_frame, write_frame, ClientFrame,
};

fn input(bytes: &[u8]) -> Input {
    let mut i = Input::new();
    i.feed(bytes);
    i
}

fn masked(opcode: u8, payload: &[u8], mask: [u8; 4]) -> Vec<u8> {
    let mut out = vec![0x80 | opcode];
    let n = payload.len();
    if n < 126 {
        out.push(128 + n as u8);
    } else if n < 65536 {
        out.push(254);
        out.extend_from_slice(&(n as u16).to_be_bytes());
    } else {
        out.push(255);
        out.extend_from_slice(&(n as u64).to_be_bytes());
    }
    out.extend_from_slice(&mask);
    for (i, b) in payload.iter().enumerate() {
        out.push(b ^ mask[i % 4]);
    }
    out
}

#[test]
fn the_handshake_key_is_answered() {
    assert!(switching("abc=").ends_with("Sec-WebSocket-Accept: abc=\r\n\r\n"));
    assert_eq!(accept_key("dGhlIHNhbXBsZSBub25jZQ=="), "s3pPLMBiTxaQ9kYGzzhZRbK+xOo=");
    let h = handshake("dGhlIHNhbXBsZSBub25jZQ==");
    assert_eq!(
        h,
        "HTTP/1.1 101 Switching Protocols\r\nUpgrade: websocket\r\nConnection: Upgrade\r\nSec-WebSocket-Accept: s3pPLMBiTxaQ9kYGzzhZRbK+xOo=\r\n\r\n"
    );
}

#[test]
fn base64_groups() {
    for (raw, text) in [
        ("", ""),
        ("f", "Zg=="),
        ("fo", "Zm8="),
        ("foo", "Zm9v"),
        ("foob", "Zm9vYg=="),
        ("fooba", "Zm9vYmE="),
        ("foobar", "Zm9vYmFy"),
    ] {
        assert_eq!(b64_encode(raw.as_bytes()), text);
    }
    assert_eq!(b64_encode(&[0xfb, 0xff, 0xfe]), "+//+");
}

#[test]
fn frames_have_three_lengths() {
    assert_eq!(encode_frame(1, b"hi"), vec![0x81, 2, b'h', b'i']);
    let f = encode_frame(2, &[7u8; 126]);
    assert_eq!(&f[..4], &[0x82, 126, 0, 126]);
    assert_eq!(f.len(), 130);
    let f = encode_frame(2, &vec![7u8; 65536]);
    assert_eq!(&f[..10], &[0x82, 127, 0, 0, 0, 0, 0, 1, 0, 0]);
    assert_eq!(f.len(), 65546);
    let mut w = vec![9u8];
    write_frame(&mut w, 9, b"");
    assert_eq!(w, vec![9, 0x89, 0]);
}

#[test]
fn frames_are_read_back() {
    for n in [0usize, 1, 125, 126, 65535, 65536, 1_048_576] {
        let payload: Vec<u8> = (0..n).map(|i| (i * 7) as u8).collect();
        let mut r = input(&encode_frame(8, &payload));
        r.feed(b"rest");
        match read_frame(&mut r) {
            Ok(Some(ClientFrame::Close(p))) => assert_eq!(p, payload),
            other => panic!("{n}: {other:?}"),
        }
        assert_eq!(r.left(), 4);
        let bytes = masked(9, &payload, [1, 2, 3, 200]);
        let mut r = input(&bytes);
        match read_frame(&mut r) {
            Ok(Some(ClientFrame::Ping(p))) => assert_eq!(p, payload),
            other => panic!("{n}: {other:?}"),
        }
        assert_eq!(r.left(), 0);
    }
    let mut r = input(&masked(1, "grün".as_bytes(), [9, 9, 9, 9]));
    assert!(matches!(read_frame(&mut r), Ok(Some(ClientFrame::Text(s))) if s == "grün"));
    let mut r = input(&masked(1, &[0x61, 0xff, 0x62], [0, 0, 0, 0]));
    assert!(matches!(read_frame(&mut r), Ok(Some(ClientFrame::Text(s))) if s == "a\u{fffd}b"));
    let mut r = input(&encode_frame(10, b"x"));
    assert!(matches!(read_frame(&mut r), Ok(Some(ClientFrame::Pong))));
}

#[test]
fn frames_that_cannot_be_read() {
    assert!(matches!(read_frame(&mut input(b"")), Ok(None)));
    assert!(matches!(read_frame(&mut input(&[0x81])), Ok(None)));
    for cut in [&[0x81u8, 2, 1][..], &[0x81, 126, 0], &[0x81, 127, 0, 0], &[0x81, 0x82, 1, 2, 3]] {
        assert!(matches!(read_frame(&mut input(cut)), Err(ReadError::Ended)), "{cut:?}");
        assert!(!frame_ready(&input(cut)));
    }
    let large = [0x82u8, 127, 0, 0, 0, 0, 0, 0x10, 0, 1];
    assert!(matches!(read_frame(&mut input(&large)), Err(ReadError::TooLarge)));
    assert!(frame_ready(&input(&large)));
    // behind the head of a frame that is too large nothing is read
    let mut r = input(&[&large[..], &[1, 2, 3, 4, 5]].concat());
    assert!(read_frame(&mut r).is_err());
    assert_eq!(r.left(), 5);
    let huge = [0x82u8, 255, 255, 255, 255, 255, 255, 255, 255, 255];
    assert!(matches!(read_frame(&mut input(&huge)), Err(ReadError::TooLarge)));
    assert!(frame_ready(&input(&[0x81, 1, 65])));
}

#[test]
fn lines_are_read() {
    let mut r = input(b"one\r\ntwo\n\nlast");
    assert_eq!(read_line(&mut r), Ok(Some("one".to_string())));
    assert_eq!(read_line(&mut r), Ok(Some("two".to_string())));
    assert_eq!(read_line(&mut r), Ok(Some("".to_string())));
    assert_eq!(read_line(&mut r), Ok(Some("last".to_string())));
    assert_eq!(read_line(&mut r), Ok(None));
    assert_eq!(read_line(&mut input(&[b'a', 0xff, b'\n'])), Err(ReadError::NotText));
    let mut long = vec![b'a'; 16_384];
    assert!(read_line(&mut input(&long)).is_ok());
    long.push(b'\n');
    assert_eq!(read_line(&mut input(&long)), Err(ReadError::TooLarge));
}

#[test]
fn requests_are_read() {
    let raw = b"get /api/state?x=1 HTTP/1.1\r\nHost: a:b\r\nContent-Length: 3\r\nX: 1\r\nx: 2\r\n\r\nabcNEXT";
    let mut r = input(raw);
    assert!(request_ready(&r));
    let q = parse_request(&mut r).unwrap().unwrap();
    assert_eq!(q.method, "GET");
    assert_eq!(q.path, "/api/state");
    assert!(q.keep_alive);
    assert_eq!(live_trader::http::header(&q.headers, "host"), Some("a:b".to_string()));
    assert_eq!(live_trader::http::header(&q.headers, "x"), Some("2".to_string()));
    assert_eq!(live_trader::http::header(&q.headers, "y"), None);
    assert_eq!(r.left(), 4);
    // one that is not all there is not settled
    for n in 0..raw.len() - 4 {
        assert!(!request_ready(&input(&raw[..n])), "{n}");
    }
    let mut r = input(b"GET / HTTP/1.1\r\nContent-Length: 5\r\n\r\nabc");
    assert!(matches!(parse_request(&mut r), Err(ReadError::Ended)));
    assert_eq!(r.left(), 0);
    // nothing of a body that is too large is read
    let mut r = input(b"GET / HTTP/1.1\r\nContent-Length: 1048577\r\n\r\nbody");
    assert!(matches!(parse_request(&mut r), Ok(None)));
    assert_eq!(r.left(), 4);
    // a blank first line is all that is read
    let mut r = input(b"\r\nGET / HTTP/1.1\r\n\r\n");
    assert!(matches!(parse_request(&mut r), Ok(None)));
    assert_eq!(r.left(), 18);
    let mut r = input(b"GET / HTTP/1.1\r\n\xff\r\nrest");
    assert!(matches!(parse_request(&mut r), Err(ReadError::NotText)));
    assert_eq!(r.left(), 4);
    for none in [&b""[..], b"\r\n", b"   \r\n\r\n", b"GET / HTTP/1.1\r\nA: b\r\n"] {
        assert!(matches!(parse_request(&mut input(none)), Ok(None)));
    }
}

#[test]
fn connections_stay_open_or_not() {
    for (head, open) in [
        ("GET / HTTP/1.1\r\n\r\n", true),
        ("GET / HTTP/1.1\r\nConnection: Close\r\n\r\n", false),
        ("GET / HTTP/1.0\r\n\r\n", false),
        ("GET / HTTP/1.0\r\nconnection: Keep-Alive\r\n\r\n", true),
        ("GET /\r\n\r\n", true),
    ] {
        let q = parse_request(&mut input(head.as_bytes())).unwrap().unwrap();
        assert_eq!(q.keep_alive, open, "{head}");
    }
}

fn content() -> Content {
    Content {
        page: "<html>".to_string(),
        state: None,
        snapshot: "{\"a\":1}".to_string(),
        health: "{\"status\":\"ok\"}".to_string(),
    }
}

fn answer(raw: &str) -> (String, Next) {
    let q = parse_request(&mut input(raw.as_bytes())).unwrap().unwrap();
    let (bytes, next) = q.answer(&content());
    (String::from_utf8(bytes).unwrap(), next)
}

#[test]
fn requests_are_answered() {
    let (a, n) = answer("GET /api/state HTTP/1.1\r\n\r\n");
    assert_eq!(
        a,
        "HTTP/1.1 200 OK\r\nContent-Type: application/json\r\nContent-Length: 2\r\nCache-Control: no-store\r\n\r\n{}"
    );
    assert!(matches!(n, Next::Keep));
    let (a, n) = answer("HEAD /dashboard HTTP/1.0\r\n\r\n");
    assert!(a.contains("Content-Length: 6") && a.ends_with("\r\n\r\n"));
    assert!(matches!(n, Next::Close));
    assert!(answer("GET / HTTP/1.1\r\n\r\n").0.ends_with("<html>"));
    assert!(answer("GET /api/ping HTTP/1.1\r\n\r\n").0.ends_with("pong"));
    assert!(answer("GET /api/snapshot HTTP/1.1\r\n\r\n").0.ends_with("{\"a\":1}"));
    assert!(answer("GET /api/health HTTP/1.1\r\n\r\n").0.ends_with("\"ok\"}"));
    assert!(answer("GET /nowhere HTTP/1.1\r\n\r\n").0.starts_with("HTTP/1.1 404 Not Found"));
    assert!(answer("GET /favicon.ico HTTP/1.1\r\n\r\n").0.starts_with("HTTP/1.1 204 No Content"));
    let (a, n) = answer("POST /api/ws HTTP/1.1\r\n\r\n");
    assert!(a.starts_with("HTTP/1.1 405 Method Not Allowed") && a.ends_with("method not allowed"));
    assert!(matches!(n, Next::Keep));
    let (a, n) = answer("GET /api/events HTTP/1.1\r\n\r\n");
    assert!(a.is_empty() && matches!(n, Next::Events));
}

#[test]
fn upgrades_need_a_key() {
    let (a, n) = answer("GET /api/ws HTTP/1.1\r\nUpgrade: WebSocket\r\nSec-WebSocket-Key: k\r\n\r\n");
    assert!(a.is_empty());
    assert!(matches!(n, Next::Upgrade(k) if k == "k"));
    for raw in [
        "GET /api/ws HTTP/1.1\r\nUpgrade: websocket\r\n\r\n",
        "GET /api/ws HTTP/1.1\r\nSec-WebSocket-Key: k\r\n\r\n",
    ] {
        let (a, n) = answer(raw);
        assert!(a.starts_with("HTTP/1.1 400 Bad Request"));
        assert!(a.ends_with("expected websocket upgrade"));
        assert!(matches!(n, Next::Close));
    }
}

#[test]
fn responses_and_limits() {
    let mut w = Vec::new();
    respond(&mut w, 204, "No Content", "image/x-icon", b"", true);
    assert_eq!(
        String::from_utf8(w).unwrap(),
        "HTTP/1.1 204 No Content\r\nContent-Type: image/x-icon\r\nContent-Length: 0\r\nCache-Control: no-store\r\n\r\n"
    );
    assert!(turn_away(200).is_none());
    assert!(turn_away(201).unwrap().starts_with("HTTP/1.1 503 "));
    let mut feed = FeedHealth::default();
    feed.note_failure("down".to_string());
    let h = health_json(12, &feed);
    assert_eq!(h.get("uptime_s").unwrap().as_u64(), Some(12));
    assert_eq!(h.get("engine").unwrap().as_str(), Some(ENGINE_VERSION));
    let told = h.get("feed").unwrap();
    assert_eq!(told.get("last_error").unwrap().as_str(), Some("down"));
    assert!(matches!(told.get("healthy"), Some(Json::Bool(true))));
}

#[test]
fn streams_go_on_until_they_are_over() {
    assert_eq!(sse_message("{}"), "data: {}\n\n");
    assert_eq!(sse_step(Waited::Message("x".to_string())), Some("x".to_string()));
    assert_eq!(sse_step(Waited::Timeout), Some(": keepalive\n\n".to_string()));
    assert_eq!(sse_step(Waited::Over), None);
    let s = ws_write(Waited::Message(FrameOut::Text("a".to_string())));
    assert!(s.go_on && s.bytes == vec![0x81, 1, b'a']);
    let s = ws_write(Waited::Message(FrameOut::Ping));
    assert!(s.go_on && s.bytes == vec![0x89, 0]);
    let s = ws_write(Waited::Message(FrameOut::Pong(vec![5])));
    assert!(s.go_on && s.bytes == vec![0x8a, 1, 5]);
    let s = ws_write(Waited::Message(FrameOut::Close(vec![])));
    assert!(!s.go_on && s.bytes == vec![0x88, 0]);
    let s = ws_write(Waited::Timeout);
    assert!(s.go_on && s.bytes == encode_frame(9, b"keepalive"));
    let s = ws_write(Waited::Over);
    assert!(!s.go_on && s.bytes.is_empty());
    let s = ws_read(Ok(Some(ClientFrame::Ping(vec![1]))));
    assert!(s.go_on && s.bytes == vec![0x8a, 1, 1]);
    let s = ws_read(Ok(Some(ClientFrame::Close(vec![3, 232]))));
    assert!(!s.go_on && s.bytes == vec![0x88, 2, 3, 232]);
    let s = ws_read(Ok(Some(ClientFrame::Pong)));
    assert!(s.go_on && s.bytes.is_empty());
    assert!(!ws_read(Ok(None)).go_on);
    assert!(!ws_read(Err(ReadError::Ended)).go_on);
}

#[test]
fn the_hub_keeps_its_books() {
    let mut h = Hub::new();
    let a = h.subscribe_sse();
    let b = h.subscribe_ws();
    let c = h.subscribe_sse();
    assert_eq!((a, b, c), (1, 2, 3));
    h.unsubscribe(a);
    assert_eq!(h.sse, vec![3]);
    h.prune(&vec![b, 77]);
    assert!(h.ws.is_empty());
    assert_eq!(h.sse, vec![3]);
    let m = h.publish_at("tick", Json::Int(1), Double::from_u64(5));
    assert_eq!(m.get("type").unwrap().as_str(), Some("tick"));
    assert_eq!(m.get("data").unwrap().as_i64(), Some(1));
    h.publish("state", Json::Int(2));
    h.publish("tick", Json::Int(3));
    assert_eq!(h.newest("tick").unwrap().as_i64(), Some(3));
    assert_eq!(h.newest("state").unwrap().as_i64(), Some(2));
    assert!(h.newest("health").is_none());
    assert!(h.state_str().is_none());
    h.keep_text("state", "{}".to_string());
    h.keep_text("tick", "7".to_string());
    assert_eq!(h.state_str().as_deref(), Some("{}"));
    let all = h.snapshot_json();
    assert_eq!(all.get("tick").unwrap().as_i64(), Some(3));
    assert_eq!(h.subscribe_ws(), 4);
}
