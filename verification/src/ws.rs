//! WebSocket framing on the server's side: the handshake key, frames to the
//! client (never masked), and frames from it (masked).

use crate::stream::{Input, ReadError};
use vstd::arithmetic::div_mod::*;
use vstd::prelude::*;
use vstd::string::*;
use vstd::utf8::*;

verus! {

/// What the protocol puts behind the client's key.
pub const WS_GUID: &'static str = "258EAFA5-E914-47DA-95CA-C5AB0DC85B11";

/// The largest payload that is accepted from a client.
pub const MAX_PAYLOAD: u64 = 1_048_576;

// ---------------------------------------------------------------------------
// Handshake
// ---------------------------------------------------------------------------

/// The SHA-1 digest of some bytes.
pub uninterp spec fn sha1(data: Seq<u8>) -> Seq<u8>;

/// The digest takes fewer bytes than this.
pub const DIGEST_LIMIT: u64 = 0x2000_0000_0000_0000;

/// `ring::digest::digest` with `SHA1_FOR_LEGACY_USE_ONLY`: the digest is a
/// function of the bytes alone, and 20 bytes long. It panics where the count of
/// bits does not fit into 64 bits.
#[verifier::external_body]
fn sha1_digest(data: &[u8]) -> (r: Vec<u8>)
    requires
        data@.len() < DIGEST_LIMIT,
    ensures
        r@ == sha1(data@),
        r@.len() == 20,
{
    ring::digest::digest(&ring::digest::SHA1_FOR_LEGACY_USE_ONLY, data).as_ref().to_vec()
}

/// The character of a group of six bits.
pub open spec fn letter(n: int) -> char {
    if n < 26 {
        (65 + n) as char
    } else if n < 52 {
        (97 + n - 26) as char
    } else if n < 62 {
        (48 + n - 52) as char
    } else if n == 62 {
        '+'
    } else {
        '/'
    }
}

/// Three bytes as one number.
pub open spec fn triple(a: u8, b: u8, c: u8) -> int {
    a * 65536 + b * 256 + c
}

/// Four characters for the `size` bytes `a`, `b` and `c`, of which those that
/// are not there are 0.
pub open spec fn group(a: u8, b: u8, c: u8, size: int) -> Seq<char> {
    let n = triple(a, b, c);
    seq![
        letter(n / 262144),
        letter(n / 4096 % 64),
        if size > 1 {
            letter(n / 64 % 64)
        } else {
            '='
        },
        if size > 2 {
            letter(n % 64)
        } else {
            '='
        },
    ]
}

/// The byte at a position, or 0 where there is none.
pub open spec fn byte_or_zero(data: Seq<u8>, i: int) -> u8 {
    if i < data.len() {
        data[i]
    } else {
        0
    }
}

/// The base64 form of some bytes: four characters for every three of them, the
/// last group filled with `=`.
pub open spec fn base64(data: Seq<u8>) -> Seq<char>
    decreases data.len(),
{
    if data.len() == 0 {
        seq![]
    } else {
        let size = if data.len() > 3 {
            3
        } else {
            data.len() as int
        };
        group(data[0], byte_or_zero(data, 1), byte_or_zero(data, 2), size) + base64(
            data.skip(size),
        )
    }
}

fn letter_of(n: u32) -> (r: char)
    requires
        n < 64,
    ensures
        r == letter(n as int),
{
    if n < 26 {
        (65 + n as u8) as char
    } else if n < 52 {
        (97 + (n as u8 - 26)) as char
    } else if n < 62 {
        (48 + (n as u8 - 52)) as char
    } else if n == 62 {
        '+'
    } else {
        '/'
    }
}

/// The base64 form of some bytes.
pub fn b64_encode(data: &[u8]) -> (r: String)
    ensures
        r@ == base64(data@),
{
    let mut out: String = String::new();
    let n: usize = data.len();
    let mut i: usize = 0;
    assert(data@.skip(0) =~= data@);
    assert(out@ + base64(data@) =~= base64(data@));
    while i < n
        invariant
            i <= n,
            n == data@.len(),
            out@ + base64(data@.skip(i as int)) == base64(data@),
        decreases n - i,
    {
        let ghost head = out@;
        let ghost rest = data@.skip(i as int);
        let left: usize = n - i;
        let a: u32 = data[i] as u32;
        let b: u32 = if left > 1 {
            data[i + 1] as u32
        } else {
            0
        };
        let c: u32 = if left > 2 {
            data[i + 2] as u32
        } else {
            0
        };
        let t: u32 = a * 65536 + b * 256 + c;
        out.push(letter_of(t / 262144));
        out.push(letter_of(t / 4096 % 64));
        out.push(
            if left > 1 {
                letter_of(t / 64 % 64)
            } else {
                '='
            },
        );
        out.push(
            if left > 2 {
                letter_of(t % 64)
            } else {
                '='
            },
        );
        let step: usize = if left > 3 {
            3
        } else {
            left
        };
        proof {
            assert(rest[0] == data@[i as int]);
            if left > 1 {
                assert(rest[1] == data@[i + 1]);
            }
            if left > 2 {
                assert(rest[2] == data@[i + 2]);
            }
            assert(rest.skip(step as int) =~= data@.skip(i + step));
            assert(out@ + base64(data@.skip(i + step)) =~= head + base64(rest));
        }
        i = i + step;
    }
    assert(data@.skip(n as int) =~= seq![]);
    assert(out@ + seq![] =~= out@);
    out
}

/// What the server answers to a client's key: the base64 form of the SHA-1
/// digest of the key and the protocol's constant.
pub open spec fn accept_text(key: Seq<char>) -> Seq<char> {
    base64(sha1(encode_utf8(key + WS_GUID@)))
}

/// What the server answers to a client's key.
pub fn accept_key(key: &str) -> (r: String)
    requires
        encode_utf8(key@ + WS_GUID@).len() < DIGEST_LIMIT,
    ensures
        r@ == accept_text(key@),
{
    let mut combined: String = key.to_owned();
    combined.append(WS_GUID);
    let d: Vec<u8> = sha1_digest(combined.as_str().as_bytes());
    b64_encode(d.as_slice())
}

// ---------------------------------------------------------------------------
// Frames to the client
// ---------------------------------------------------------------------------

/// A number as two bytes, the high one first.
pub open spec fn two_bytes(n: nat) -> Seq<u8> {
    seq![(n / 256) as u8, (n % 256) as u8]
}

/// A number as eight bytes, the highest first.
pub open spec fn eight_bytes(n: nat) -> Seq<u8> {
    seq![
        (n / 0x100_0000_0000_0000) as u8,
        (n / 0x1_0000_0000_0000 % 256) as u8,
        (n / 0x100_0000_0000 % 256) as u8,
        (n / 0x1_0000_0000 % 256) as u8,
        (n / 0x100_0000 % 256) as u8,
        (n / 0x1_0000 % 256) as u8,
        (n / 256 % 256) as u8,
        (n % 256) as u8,
    ]
}

/// The length of a payload as a frame says it: seven bits, or a mark and two or
/// eight bytes.
pub open spec fn length_bytes(n: nat) -> Seq<u8> {
    if n < 126 {
        seq![n as u8]
    } else if n < 65536 {
        seq![126u8] + two_bytes(n)
    } else {
        seq![127u8] + eight_bytes(n)
    }
}

/// A frame to the client: final, and not masked.
pub open spec fn frame_bytes(opcode: u8, payload: Seq<u8>) -> Seq<u8> {
    seq![0x80u8 | opcode] + length_bytes(payload.len()) + payload
}

/// A frame to the client: final, and not masked.
pub fn encode_frame(opcode: u8, payload: &[u8]) -> (r: Vec<u8>)
    ensures
        r@ == frame_bytes(opcode, payload@),
{
    let mut out: Vec<u8> = Vec::new();
    write_frame(&mut out, opcode, payload);
    assert(out@ =~= frame_bytes(opcode, payload@));
    out
}

/// Puts a frame to the client behind `w`.
pub fn write_frame(w: &mut Vec<u8>, opcode: u8, payload: &[u8])
    ensures
        final(w)@ == old(w)@ + frame_bytes(opcode, payload@),
{
    let n: u64 = payload.len() as u64;
    w.push(0x80 | opcode);
    if n < 126 {
        w.push(n as u8);
    } else if n < 65536 {
        w.push(126);
        w.push((n / 256) as u8);
        w.push((n % 256) as u8);
    } else {
        w.push(127);
        w.push((n / 0x100_0000_0000_0000) as u8);
        w.push((n / 0x1_0000_0000_0000 % 256) as u8);
        w.push((n / 0x100_0000_0000 % 256) as u8);
        w.push((n / 0x1_0000_0000 % 256) as u8);
        w.push((n / 0x100_0000 % 256) as u8);
        w.push((n / 0x1_0000 % 256) as u8);
        w.push((n / 256 % 256) as u8);
        w.push((n % 256) as u8);
    }
    let ghost head = w@;
    assert(head =~= old(w)@ + (seq![0x80u8 | opcode] + length_bytes(payload@.len())));
    let mut i: usize = 0;
    assert(head + payload@.take(0) =~= head);
    while i < payload.len()
        invariant
            i <= payload@.len(),
            w@ == head + payload@.take(i as int),
        decreases payload@.len() - i,
    {
        w.push(payload[i]);
        assert(w@ =~= head + payload@.take(i + 1));
        i = i + 1;
    }
    assert(payload@.take(i as int) =~= payload@);
    assert(w@ =~= old(w)@ + frame_bytes(opcode, payload@));
}

// ---------------------------------------------------------------------------
// Frames from the client
// ---------------------------------------------------------------------------

/// A frame from the client.
#[derive(Debug)]
pub enum ClientFrame {
    Text(String),
    Ping(Vec<u8>),
    Pong,
    Close(Vec<u8>),
}

/// What a frame says.
pub enum FrameView {
    Text(Seq<char>),
    Ping(Seq<u8>),
    Pong,
    Close(Seq<u8>),
}

impl View for ClientFrame {
    type V = FrameView;

    open spec fn view(&self) -> FrameView {
        match self {
            ClientFrame::Text(s) => FrameView::Text(s@),
            ClientFrame::Ping(p) => FrameView::Ping(p@),
            ClientFrame::Pong => FrameView::Pong,
            ClientFrame::Close(p) => FrameView::Close(p@),
        }
    }
}

/// Bytes as text, each sequence that is no UTF-8 replaced.
pub uninterp spec fn lossy_text(bytes: Seq<u8>) -> Seq<char>;

/// `String::from_utf8_lossy`: a function of the bytes alone, which gives valid
/// UTF-8 back as the text that it encodes.
#[verifier::external_body]
pub(crate) fn to_lossy_text(bytes: &[u8]) -> (r: String)
    ensures
        r@ == lossy_text(bytes@),
        valid_utf8(bytes@) ==> r@ == decode_utf8(bytes@),
{
    String::from_utf8_lossy(bytes).into_owned()
}

/// The number that some bytes make, the highest first.
pub open spec fn big_endian(b: Seq<u8>) -> nat
    decreases b.len(),
{
    if b.len() == 0 {
        0
    } else {
        big_endian(b.drop_last()) * 256 + b.last() as nat
    }
}

/// What the head of a frame says.
pub struct Head {
    pub opcode: int,
    pub masked: bool,
    /// Where the mask or the payload starts.
    pub size: int,
    /// The length of the payload.
    pub len: nat,
}

/// How many bytes the head of a frame has, up to the end of its length.
pub open spec fn head_size(b: Seq<u8>) -> int {
    let short = b[1] as int % 128;
    if short == 126 {
        4
    } else if short == 127 {
        10
    } else {
        2
    }
}

/// The length of the payload that the head of a frame tells.
pub open spec fn told_length(b: Seq<u8>) -> nat {
    let short = b[1] as int % 128;
    if short >= 126 {
        big_endian(b.subrange(2, head_size(b)))
    } else {
        short as nat
    }
}

/// The head of the frame that `b` starts with, its bytes being at hand.
pub open spec fn head_of(b: Seq<u8>) -> Result<Head, ReadError> {
    let size = head_size(b);
    if b.len() < size {
        Err(ReadError::Ended)
    } else {
        let len = told_length(b);
        if len > MAX_PAYLOAD {
            Err(ReadError::TooLarge)
        } else {
            Ok(Head { opcode: b[0] as int % 16, masked: b[1] >= 128, size, len })
        }
    }
}

/// The payload under the mask.
pub open spec fn unmasked(payload: Seq<u8>, mask: Seq<u8>) -> Seq<u8> {
    Seq::new(payload.len(), |i: int| payload[i] ^ mask[i % 4])
}

/// The frame of a kind.
pub open spec fn frame_of_kind(opcode: int, payload: Seq<u8>) -> FrameView {
    if opcode == 8 {
        FrameView::Close(payload)
    } else if opcode == 9 {
        FrameView::Ping(payload)
    } else if opcode == 10 {
        FrameView::Pong
    } else {
        FrameView::Text(lossy_text(payload))
    }
}

/// The frame that `b` starts with and how many bytes it takes, where `b` is all
/// that the connection gives: none where it ends before a frame starts.
pub open spec fn frame_at(b: Seq<u8>) -> Result<Option<(FrameView, int)>, ReadError> {
    if b.len() < 2 {
        Ok(None)
    } else {
        match head_of(b) {
            Err(e) => Err(e),
            Ok(h) => {
                let start = if h.masked {
                    h.size + 4
                } else {
                    h.size
                };
                let end = start + h.len;
                if b.len() < end {
                    Err(ReadError::Ended)
                } else {
                    let raw = b.subrange(start, end);
                    let payload = if h.masked {
                        unmasked(raw, b.subrange(h.size, start))
                    } else {
                        raw
                    };
                    Ok(Some((frame_of_kind(h.opcode, payload), end)))
                }
            },
        }
    }
}

/// How many bytes reading a frame takes, where `b` is all that the connection
/// gives: of a frame that is too large only the head is read, neither its mask
/// nor its payload, and where the connection ends in the middle there is nothing
/// left.
pub open spec fn bytes_read(b: Seq<u8>) -> int {
    match frame_at(b) {
        Ok(Some((_, n))) => n,
        Err(ReadError::TooLarge) => head_size(b),
        _ => b.len() as int,
    }
}

/// Whether the bytes at hand settle what the next frame is, whatever follows.
pub open spec fn settled(b: Seq<u8>) -> bool {
    b.len() >= 2 && frame_at(b) != Err::<Option<(FrameView, int)>, ReadError>(ReadError::Ended)
}

/// The head of the next frame.
struct RawHead {
    opcode: u8,
    masked: bool,
    size: usize,
    len: usize,
}

/// How many bytes the head of the next frame has.
fn size_of_head(r: &Input) -> (size: usize)
    requires
        r.rest().len() >= 2,
    ensures
        size == head_size(r.rest()),
{
    let short: u8 = r.peek(1) % 128;
    if short == 126 {
        4
    } else if short == 127 {
        10
    } else {
        2
    }
}

fn read_head(r: &Input) -> (h: Result<RawHead, ReadError>)
    requires
        r.rest().len() >= 2,
    ensures
        match head_of(r.rest()) {
            Ok(v) => h matches Ok(x) && x.opcode == v.opcode && x.masked == v.masked && x.size
                == v.size && x.len == v.len && x.len <= MAX_PAYLOAD && x.size <= r.rest().len(),
            Err(e) => h == Err::<RawHead, ReadError>(e),
        },
        h matches Err(e) ==> e is Ended || e is TooLarge,
        h matches Err(ReadError::TooLarge) ==> head_size(r.rest()) <= r.rest().len(),
{
    let ghost b = r.rest();
    let first: u8 = r.peek(0);
    let second: u8 = r.peek(1);
    let short: u8 = second % 128;
    let size: usize = size_of_head(r);
    if r.left() < size {
        return Err(ReadError::Ended);
    }
    let mut len: u64 = 0;
    if short >= 126 {
        let mut i: usize = 2;
        assert(b.subrange(2, 2) =~= seq![]);
        while i < size
            invariant
                2 <= i <= size,
                size <= 10,
                b == r.rest(),
                size <= b.len(),
                len == big_endian(b.subrange(2, i as int)),
                i == 2 ==> len == 0,
                i == 3 ==> len < 0x100,
                i == 4 ==> len < 0x1_0000,
                i == 5 ==> len < 0x100_0000,
                i == 6 ==> len < 0x1_0000_0000,
                i == 7 ==> len < 0x100_0000_0000,
                i == 8 ==> len < 0x1_0000_0000_0000,
                i == 9 ==> len < 0x100_0000_0000_0000,
            decreases size - i,
        {
            let x: u8 = r.peek(i);
            assert(b.subrange(2, i + 1).drop_last() =~= b.subrange(2, i as int));
            len = len * 256 + x as u64;
            i = i + 1;
        }
    } else {
        len = short as u64;
    }
    if len > MAX_PAYLOAD {
        return Err(ReadError::TooLarge);
    }
    Ok(RawHead { opcode: first % 16, masked: second >= 128, size, len: len as usize })
}

/// Takes the mask off a payload.
fn unmask(payload: &mut Vec<u8>, mask: &Vec<u8>)
    requires
        mask@.len() == 4,
    ensures
        final(payload)@ == unmasked(old(payload)@, mask@),
{
    let ghost raw = payload@;
    let mut i: usize = 0;
    while i < payload.len()
        invariant
            i <= payload@.len(),
            payload@.len() == raw.len(),
            mask@.len() == 4,
            forall|j: int| 0 <= j < i ==> payload@[j] == raw[j] ^ mask@[j % 4],
            forall|j: int| i <= j < raw.len() ==> payload@[j] == raw[j],
        decreases payload@.len() - i,
    {
        let x: u8 = payload[i] ^ mask[i % 4];
        payload.set(i, x);
        i = i + 1;
    }
    assert(payload@ =~= unmasked(raw, mask@));
}

/// Whether the bytes at hand settle what the next frame is.
pub fn frame_ready(r: &Input) -> (ready: bool)
    ensures
        ready == settled(r.rest()),
{
    if r.left() < 2 {
        return false;
    }
    match read_head(r) {
        Err(e) => match e {
            ReadError::Ended => false,
            _ => true,
        },
        Ok(h) => {
            let start: usize = if h.masked {
                h.size + 4
            } else {
                h.size
            };
            r.left() - h.size >= start - h.size + h.len
        },
    }
}

/// Reads the next frame from what the connection gave: `None` where it ended
/// before a frame started.
pub fn read_frame(r: &mut Input) -> (f: Result<Option<ClientFrame>, ReadError>)
    ensures
        match frame_at(old(r).rest()) {
            Ok(Some((v, _))) => f matches Ok(Some(x)) && x@ == v,
            Ok(None) => f matches Ok(None),
            Err(e) => f == Err::<Option<ClientFrame>, ReadError>(e),
        },
        0 <= bytes_read(old(r).rest()) <= old(r).rest().len(),
        final(r).rest() == old(r).rest().skip(bytes_read(old(r).rest())),
{
    let ghost b = r.rest();
    if r.left() < 2 {
        r.skip(r.left());
        return Ok(None);
    }
    let h: RawHead = match read_head(r) {
        Err(e) => {
            match e {
                ReadError::TooLarge => r.skip(size_of_head(r)),
                _ => r.skip(r.left()),
            }
            return Err(e);
        },
        Ok(h) => h,
    };
    r.skip(h.size);
    if h.masked && r.left() < 4 {
        r.skip(r.left());
        assert(r.rest() =~= b.skip(b.len() as int));
        return Err(ReadError::Ended);
    }
    let mask: Vec<u8> = if h.masked {
        r.take(4)
    } else {
        Vec::new()
    };
    let ghost start: int = if h.masked {
        h.size + 4
    } else {
        h.size as int
    };
    assert(r.rest() =~= b.skip(start));
    if r.left() < h.len {
        r.skip(r.left());
        assert(r.rest() =~= b.skip(b.len() as int));
        return Err(ReadError::Ended);
    }
    let mut payload: Vec<u8> = r.take(h.len);
    proof {
        assert(payload@ =~= b.subrange(start, start + h.len));
        assert(r.rest() =~= b.skip(start + h.len));
        if h.masked {
            assert(mask@ =~= b.subrange(h.size as int, start));
        }
    }
    if h.masked {
        unmask(&mut payload, &mask);
    }
    let f: ClientFrame = if h.opcode == 8 {
        ClientFrame::Close(payload)
    } else if h.opcode == 9 {
        ClientFrame::Ping(payload)
    } else if h.opcode == 10 {
        ClientFrame::Pong
    } else {
        ClientFrame::Text(to_lossy_text(payload.as_slice()))
    };
    Ok(Some(f))
}

// ---------------------------------------------------------------------------
// Laws
// ---------------------------------------------------------------------------

proof fn lemma_short_bytes(n: nat)
    requires
        126 <= n < 65536,
    ensures
        big_endian(two_bytes(n)) == n,
{
    reveal_with_fuel(big_endian, 3);
    let b = two_bytes(n);
    assert(b.drop_last().drop_last() =~= seq![]);
}

proof fn lemma_one_more(b: Seq<u8>, high: nat, n: nat)
    requires
        b.len() > 0,
        big_endian(b.drop_last()) == high,
        high == n / 256,
        b.last() == (n % 256) as u8,
    ensures
        big_endian(b) == n,
{
}

proof fn lemma_long_bytes(n: nat)
    requires
        n <= u64::MAX,
    ensures
        big_endian(eight_bytes(n)) == n,
{
    let b = eight_bytes(n);
    let n6 = n / 256;
    let n5 = n6 / 256;
    let n4 = n5 / 256;
    let n3 = n4 / 256;
    let n2 = n3 / 256;
    let n1 = n2 / 256;
    let n0 = n1 / 256;
    assert(n5 == n / 0x1_0000 && n4 == n / 0x100_0000 && n3 == n / 0x1_0000_0000);
    assert(n2 == n / 0x100_0000_0000 && n1 == n / 0x1_0000_0000_0000);
    assert(n0 == n / 0x100_0000_0000_0000);
    assert(b.take(0) =~= seq![]);
    assert(b.take(1).drop_last() =~= b.take(0));
    lemma_one_more(b.take(1), 0, n0);
    assert(b.take(2).drop_last() =~= b.take(1));
    lemma_one_more(b.take(2), n0, n1);
    assert(b.take(3).drop_last() =~= b.take(2));
    lemma_one_more(b.take(3), n1, n2);
    assert(b.take(4).drop_last() =~= b.take(3));
    lemma_one_more(b.take(4), n2, n3);
    assert(b.take(5).drop_last() =~= b.take(4));
    lemma_one_more(b.take(5), n3, n4);
    assert(b.take(6).drop_last() =~= b.take(5));
    lemma_one_more(b.take(6), n4, n5);
    assert(b.take(7).drop_last() =~= b.take(6));
    lemma_one_more(b.take(7), n5, n6);
    assert(b.drop_last() =~= b.take(7));
    lemma_one_more(b, n6, n);
}

/// A frame that was written is read back with its kind and payload, whatever
/// follows it.
pub proof fn law_frame_round_trip(opcode: u8, payload: Seq<u8>, rest: Seq<u8>)
    requires
        opcode < 16,
        payload.len() <= MAX_PAYLOAD,
    ensures
        frame_at(frame_bytes(opcode, payload) + rest) == Ok::<
            Option<(FrameView, int)>,
            ReadError,
        >(
            Some(
                (frame_of_kind(opcode as int, payload), frame_bytes(opcode, payload).len() as int),
            ),
        ),
{
    let n = payload.len();
    let b = frame_bytes(opcode, payload) + rest;
    assert((0x80u8 | opcode) % 16 == opcode) by (bit_vector)
        requires
            opcode < 16,
    ;
    assert(b[0] == 0x80u8 | opcode);
    let size: int = 1 + length_bytes(n).len() as int;
    if n < 126 {
        assert(b[1] == n as u8);
    } else if n < 65536 {
        assert(b[1] == 126u8);
        assert(b.subrange(2, 4) =~= two_bytes(n));
        lemma_short_bytes(n);
    } else {
        assert(b[1] == 127u8);
        assert(b.subrange(2, 10) =~= eight_bytes(n));
        lemma_long_bytes(n);
    }
    assert(b.subrange(size, size + n) =~= payload);
}

/// Masking a payload twice with one mask gives it back, so a client's payload
/// is read as it was before it was masked.
pub proof fn law_mask_undoes_itself(payload: Seq<u8>, mask: Seq<u8>)
    requires
        mask.len() == 4,
    ensures
        unmasked(unmasked(payload, mask), mask) == payload,
{
    assert forall|i: int| 0 <= i < payload.len() implies #[trigger] unmasked(
        unmasked(payload, mask),
        mask,
    )[i] == payload[i] by {
        let x = payload[i];
        let m = mask[i % 4];
        assert((x ^ m) ^ m == x) by (bit_vector);
    }
    assert(unmasked(unmasked(payload, mask), mask) =~= payload);
}

/// A frame from a client: masked.
pub open spec fn masked_bytes(opcode: u8, payload: Seq<u8>, mask: Seq<u8>) -> Seq<u8> {
    let head = length_bytes(payload.len());
    seq![0x80u8 | opcode] + head.update(0, (head[0] + 128) as u8) + mask + unmasked(payload, mask)
}

/// A masked frame of a client is read with its kind and its payload as it was
/// before it was masked, whatever follows it.
pub proof fn law_masked_frame_read(opcode: u8, payload: Seq<u8>, mask: Seq<u8>, rest: Seq<u8>)
    requires
        opcode < 16,
        mask.len() == 4,
        payload.len() <= MAX_PAYLOAD,
    ensures
        frame_at(masked_bytes(opcode, payload, mask) + rest) == Ok::<
            Option<(FrameView, int)>,
            ReadError,
        >(
            Some(
                (
                    frame_of_kind(opcode as int, payload),
                    masked_bytes(opcode, payload, mask).len() as int,
                ),
            ),
        ),
{
    let n = payload.len();
    let b = masked_bytes(opcode, payload, mask) + rest;
    assert((0x80u8 | opcode) % 16 == opcode) by (bit_vector)
        requires
            opcode < 16,
    ;
    assert(b[0] == 0x80u8 | opcode);
    let size: int = 1 + length_bytes(n).len() as int;
    assert(b[1] == (length_bytes(n)[0] + 128) as u8);
    if n < 126 {
    } else if n < 65536 {
        assert(b.subrange(2, 4) =~= two_bytes(n));
        lemma_short_bytes(n);
    } else {
        assert(b.subrange(2, 10) =~= eight_bytes(n));
        lemma_long_bytes(n);
    }
    assert(b.subrange(size, size + 4) =~= mask);
    assert(b.subrange(size + 4, size + 4 + n) =~= unmasked(payload, mask));
    law_mask_undoes_itself(payload, mask);
}

/// A frame is refused as too large exactly where its head tells of a larger
/// payload than is accepted, whatever follows the head. Then nothing behind the
/// head is read.
pub proof fn law_large_frame_refused(b: Seq<u8>)
    requires
        b.len() >= 2,
        b.len() >= head_size(b),
    ensures
        frame_at(b) == Err::<Option<(FrameView, int)>, ReadError>(ReadError::TooLarge)
            <==> told_length(b) > 1_048_576,
        told_length(b) > 1_048_576 ==> bytes_read(b) == head_size(b),
{
}

/// Once the bytes at hand settle a frame, more bytes do not change it, nor how
/// many bytes reading it takes.
pub proof fn law_settled_stays(b: Seq<u8>, more: Seq<u8>)
    requires
        settled(b),
    ensures
        settled(b + more),
        frame_at(b + more) == frame_at(b),
        bytes_read(b + more) == bytes_read(b),
{
    let c = b + more;
    assert(c[0] == b[0] && c[1] == b[1]);
    let short = b[1] as int % 128;
    if short == 126 && b.len() >= 4 {
        assert(c.subrange(2, 4) =~= b.subrange(2, 4));
    }
    if short == 127 && b.len() >= 10 {
        assert(c.subrange(2, 10) =~= b.subrange(2, 10));
    }
    if let Ok(h) = head_of(b) {
        let start = if h.masked {
            h.size + 4
        } else {
            h.size
        };
        assert(c.subrange(start, start + h.len) =~= b.subrange(start, start + h.len));
        assert(c.subrange(h.size, start) =~= b.subrange(h.size, start));
    }
}

/// The answer to a key has 28 characters for every digest of 20 bytes.
pub proof fn law_base64_length(data: Seq<u8>)
    ensures
        base64(data).len() == 4 * ((data.len() + 2) / 3),
    decreases data.len(),
{
    if data.len() > 3 {
        law_base64_length(data.skip(3));
    } else if data.len() > 0 {
        assert(data.skip(data.len() as int) =~= seq![]);
        assert(base64(data.skip(data.len() as int)) =~= seq![]);
    }
}

/// The group of six bits of a character.
pub open spec fn sextet(c: char) -> int {
    if 'A' <= c <= 'Z' {
        c as int - 65
    } else if 'a' <= c <= 'z' {
        c as int - 97 + 26
    } else if '0' <= c <= '9' {
        c as int - 48 + 52
    } else if c == '+' {
        62
    } else if c == '/' {
        63
    } else {
        0
    }
}

/// The bytes of four characters.
pub open spec fn ungroup(s: Seq<char>) -> Seq<u8> {
    let n = sextet(s[0]) * 262144 + sextet(s[1]) * 4096 + sextet(s[2]) * 64 + sextet(s[3]);
    if s[2] == '=' {
        seq![(n / 65536) as u8]
    } else if s[3] == '=' {
        seq![(n / 65536) as u8, (n / 256 % 256) as u8]
    } else {
        seq![(n / 65536) as u8, (n / 256 % 256) as u8, (n % 256) as u8]
    }
}

/// The bytes of a text in base64.
pub open spec fn from_base64(s: Seq<char>) -> Seq<u8>
    decreases s.len(),
{
    if s.len() < 4 {
        seq![]
    } else {
        ungroup(s.take(4)) + from_base64(s.skip(4))
    }
}

proof fn lemma_sextet(n: int)
    requires
        0 <= n < 64,
    ensures
        sextet(letter(n)) == n,
        letter(n) != '=',
{
}

proof fn lemma_triple(a: u8, b: u8, c: u8)
    ensures
        ({
            let n = triple(a, b, c);
            &&& 0 <= n < 16_777_216
            &&& n / 65536 == a
            &&& n / 256 % 256 == b
            &&& n % 256 == c
            &&& n / 262144 * 262144 + n / 4096 % 64 * 4096 + n / 64 % 64 * 64 + n % 64 == n
            &&& c == 0 ==> n % 64 == 0
            &&& b == 0 && c == 0 ==> n / 64 % 64 == 0
        }),
{
    let n = triple(a, b, c);
    lemma_fundamental_div_mod_converse(n, 65536, a as int, b * 256 + c);
    lemma_fundamental_div_mod_converse(n, 256, a * 256 + b, c as int);
    lemma_fundamental_div_mod_converse(a * 256 + b, 256, a as int, b as int);
    let n1 = n / 64;
    let n2 = n1 / 64;
    lemma_div_denominator(n, 64, 64);
    lemma_div_denominator(n1, 64, 64);
    lemma_div_denominator(n, 64, 4096);
    lemma_fundamental_div_mod(n, 64);
    lemma_fundamental_div_mod(n1, 64);
    lemma_fundamental_div_mod(n2, 64);
    if c == 0 {
        lemma_fundamental_div_mod_converse(n, 64, 4 * (a * 256 + b), 0);
    }
    if b == 0 && c == 0 {
        lemma_fundamental_div_mod_converse(n1, 64, 16 * a, 0);
    }
}

proof fn lemma_group(a: u8, b: u8, c: u8, size: int)
    requires
        1 <= size <= 3,
        size < 2 ==> b == 0,
        size < 3 ==> c == 0,
    ensures
        ungroup(group(a, b, c, size)) == seq![a, b, c].take(size),
{
    let n = triple(a, b, c);
    let s = group(a, b, c, size);
    lemma_triple(a, b, c);
    let (p, q, r, t) = (n / 262144, n / 4096 % 64, n / 64 % 64, n % 64);
    lemma_sextet(p);
    lemma_sextet(q);
    lemma_sextet(r);
    lemma_sextet(t);
    lemma_ungroup(s, p, q, if size > 1 { r } else { 0 }, if size > 2 { t } else { 0 });
    assert(ungroup(s) =~= seq![a, b, c].take(size));
}

proof fn lemma_ungroup(s: Seq<char>, p: int, q: int, r: int, t: int)
    requires
        sextet(s[0]) == p,
        sextet(s[1]) == q,
        sextet(s[2]) == r,
        sextet(s[3]) == t,
    ensures
        ({
            let n = p * 262144 + q * 4096 + r * 64 + t;
            ungroup(s) == seq![(n / 65536) as u8, (n / 256 % 256) as u8, (n % 256) as u8].take(
                if s[2] == '=' {
                    1
                } else if s[3] == '=' {
                    2
                } else {
                    3
                },
            )
        }),
{
    let n = p * 262144 + q * 4096 + r * 64 + t;
    assert(ungroup(s) =~= seq![(n / 65536) as u8, (n / 256 % 256) as u8, (n % 256) as u8].take(
        if s[2] == '=' {
            1
        } else if s[3] == '=' {
            2
        } else {
            3
        },
    ));
}

/// Bytes are read back from their base64 form.
pub proof fn law_base64_round_trip(data: Seq<u8>)
    ensures
        from_base64(base64(data)) == data,
    decreases data.len(),
{
    if data.len() == 0 {
        assert(from_base64(base64(data)) =~= data);
    } else {
        let b = byte_or_zero(data, 1);
        let c = byte_or_zero(data, 2);
        let size = if data.len() > 3 {
            3
        } else {
            data.len() as int
        };
        let s = base64(data);
        lemma_group(data[0], b, c, size);
        law_base64_round_trip(data.skip(size));
        assert(s.take(4) =~= group(data[0], b, c, size));
        assert(s.skip(4) =~= base64(data.skip(size)));
        assert(seq![data[0], b, c].take(size) + data.skip(size) =~= data);
    }
}

} // verus!
