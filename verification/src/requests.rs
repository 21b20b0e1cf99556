//! What is read out of text: words, numbers, lines, headers, requests and values,
//! and what the clock shows.

use crate::clock;
use crate::clock::Reading;
use crate::double::Double;
use crate::http;
use crate::http::RequestView;
use crate::json::JsonView;
use crate::stream::ReadError;
use crate::text;
use crate::words;
use vstd::prelude::*;
use vstd::utf8::*;

verus! {

/// Among the characters of ASCII, the blank and those from tabulator to carriage
/// return are white space.
pub proof fn law_white_space(c: char)
    requires
        (c as int) < 128,
    ensures
        words::is_space(c) <==> c == ' ' || '\t' <= c <= '\r',
{
}

/// A capital letter of ASCII becomes the small one, and back; nothing else
/// changes.
pub proof fn law_case_of_a_letter(c: char)
    ensures
        'A' <= c <= 'Z' ==> words::small(c) as int - 'a' as int == c as int - 'A' as int
            && words::capital(words::small(c)) == c,
        'a' <= c <= 'z' ==> words::capital(c) as int - 'A' as int == c as int - 'a' as int
            && words::small(words::capital(c)) == c,
        !('A' <= c <= 'Z') ==> words::small(c) == c,
        !('a' <= c <= 'z') ==> words::capital(c) == c,
{
}

proof fn lemma_first_dark(s: Seq<char>, i: int, a: int)
    requires
        0 <= i <= a <= s.len(),
        forall|k: int| i <= k < a ==> words::is_space(#[trigger] s[k]),
        a == s.len() || !words::is_space(s[a]),
    ensures
        words::first_dark(s, i) == a,
    decreases a - i,
{
    if i < a {
        assert(words::is_space(s[i]));
        lemma_first_dark(s, i + 1, a);
    }
}

proof fn lemma_last_dark(s: Seq<char>, from: int, i: int, e: int)
    requires
        0 <= from <= e <= i <= s.len(),
        forall|k: int| e <= k < i ==> words::is_space(#[trigger] s[k]),
        e == from || !words::is_space(s[e - 1]),
    ensures
        words::last_dark(s, from, i) == e,
    decreases i,
{
    if e < i {
        assert(words::is_space(s[i - 1]));
        lemma_last_dark(s, from, i - 1, e);
    }
}

/// Trimming takes the white space off at both ends, and nothing else: a text that
/// neither starts nor ends with white space stays, whatever white space is put
/// around it.
pub proof fn law_trimmed(before: Seq<char>, t: Seq<char>, after: Seq<char>)
    requires
        forall|k: int| 0 <= k < before.len() ==> words::is_space(#[trigger] before[k]),
        forall|k: int| 0 <= k < after.len() ==> words::is_space(#[trigger] after[k]),
        t.len() > 0 ==> !words::is_space(t[0]) && !words::is_space(t.last()),
    ensures
        words::trimmed(before + t + after) == t,
{
    let s = before + t + after;
    let a = if t.len() > 0 {
        before.len() as int
    } else {
        s.len() as int
    };
    let e = a + t.len();
    if t.len() > 0 {
        assert(s[a] == t[0]);
        assert(s[e - 1] == t.last());
    }
    assert forall|k: int| 0 <= k < a implies words::is_space(#[trigger] s[k]) by {
        if k < before.len() {
            assert(s[k] == before[k]);
        } else {
            assert(s[k] == after[k - before.len()]);
        }
    }
    assert forall|k: int| e <= k < s.len() implies words::is_space(#[trigger] s[k]) by {
        assert(s[k] == after[k - before.len() - t.len()]);
    }
    lemma_first_dark(s, 0, a);
    lemma_last_dark(s, a, s.len() as int, e);
    assert(s.subrange(a, e) =~= t);
}

proof fn lemma_end_without(s: Seq<char>, c: char, i: int, e: int)
    requires
        0 <= e <= i <= s.len(),
        forall|k: int| e <= k < i ==> #[trigger] s[k] == c,
        e == 0 || s[e - 1] != c,
    ensures
        words::end_without(s, c, i) == e,
    decreases i,
{
    if e < i {
        assert(s[i - 1] == c);
        lemma_end_without(s, c, i - 1, e);
    }
}

/// A character is taken off the end of a text as often as it stands there.
pub proof fn law_without_trailing(t: Seq<char>, c: char, more: Seq<char>)
    requires
        t.len() > 0 ==> t.last() != c,
        forall|k: int| 0 <= k < more.len() ==> #[trigger] more[k] == c,
    ensures
        words::without_trailing(t + more, c) == t,
{
    let s = t + more;
    let e = t.len() as int;
    assert forall|k: int| e <= k < s.len() implies #[trigger] s[k] == c by {
        assert(s[k] == more[k - e]);
    }
    if e > 0 {
        assert(s[e - 1] == t.last());
    }
    lemma_end_without(s, c, s.len() as int, e);
    assert(s.take(e) =~= t);
}

/// A text without the character has one part. One with it has as its first part
/// what stands before it, and behind that the parts of what follows.
pub proof fn law_parts(a: Seq<char>, c: char, rest: Seq<char>)
    requires
        !a.contains(c),
    ensures
        words::parts(a, c) == seq![a],
        words::parts(a + seq![c] + rest, c) == seq![a] + words::parts(rest, c),
{
    crate::rows::lemma_only_part(a, c);
    crate::rows::lemma_first_part(a, c, rest);
}

/// What decimal digits write is read: with no sign, with a plus and with a minus,
/// where it is not larger than the bound.
pub proof fn law_whole_numbers(n: nat, hi: int)
    requires
        hi >= 0,
    ensures
        ({
            let d = text::decimal(n);
            &&& words::number_within(d, -hi, hi) == if n <= hi {
                Some(n as int)
            } else {
                None
            }
            &&& words::number_within(seq!['+'] + d, -hi, hi) == words::number_within(d, -hi, hi)
            &&& words::number_within(seq!['-'] + d, -hi, hi) == if n <= hi {
                Some(-n)
            } else {
                None
            }
            &&& words::count_within(d, hi) == words::number_within(d, -hi, hi)
            &&& words::count_within(seq!['-'] + d, hi) is None
        }),
{
    let d = text::decimal(n);
    text::lemma_decimal(n);
    assert('0' <= d[0] <= '9');
    assert((seq!['+'] + d).skip(1) =~= d);
    assert((seq!['-'] + d).skip(1) =~= d);
}

proof fn lemma_word_end(s: Seq<char>, i: int, e: int)
    requires
        0 <= i <= e <= s.len(),
        forall|k: int| i <= k < e ==> !words::is_space(#[trigger] s[k]),
        e == s.len() || words::is_space(s[e]),
    ensures
        words::word_end(s, i) == e,
    decreases e - i,
{
    if i < e {
        assert(!words::is_space(s[i]));
        lemma_word_end(s, i + 1, e);
    }
}

proof fn lemma_word(s: Seq<char>, i: int, a: int, e: int)
    requires
        0 <= i <= a < e <= s.len(),
        forall|k: int| i <= k < a ==> words::is_space(#[trigger] s[k]),
        forall|k: int| a <= k < e ==> !words::is_space(#[trigger] s[k]),
        e == s.len() || words::is_space(s[e]),
    ensures
        words::word_from(s, i) == Some((s.subrange(a, e), e)),
{
    assert(!words::is_space(s[a]));
    lemma_first_dark(s, i, a);
    lemma_word_end(s, a, e);
}

/// Whether a text is a word: not empty, and without white space.
pub open spec fn word(w: Seq<char>) -> bool {
    &&& w.len() > 0
    &&& forall|k: int| 0 <= k < w.len() ==> !words::is_space(#[trigger] w[k])
}

/// The first line of a request is read word by word: method, target, version.
pub proof fn law_first_line(m: Seq<char>, t: Seq<char>, v: Seq<char>)
    requires
        word(m),
        word(t),
        word(v),
    ensures
        http::first_words(m + seq![' '] + t + seq![' '] + v) == Some((m, t, v)),
{
    let s = m + seq![' '] + t + seq![' '] + v;
    let a = m.len() as int;
    let b = a + 1 + t.len();
    let e = s.len() as int;
    assert forall|k: int| 0 <= k < a implies !words::is_space(#[trigger] s[k]) by {
        assert(s[k] == m[k]);
    }
    assert forall|k: int| a + 1 <= k < b implies !words::is_space(#[trigger] s[k]) by {
        assert(s[k] == t[k - a - 1]);
    }
    assert forall|k: int| b + 1 <= k < e implies !words::is_space(#[trigger] s[k]) by {
        assert(s[k] == v[k - b - 1]);
    }
    assert(s[a] == ' ' && s[b] == ' ');
    lemma_word(s, 0, 0, a);
    lemma_word(s, a, a + 1, b);
    lemma_word(s, b, b + 1, e);
    assert(s.subrange(0, a) =~= m);
    assert(s.subrange(a + 1, b) =~= t);
    assert(s.subrange(b + 1, e) =~= v);
}

/// A first line with no more than a method asks for the root, and one without a
/// version is of the newer one.
pub proof fn law_short_first_line(m: Seq<char>, t: Seq<char>)
    requires
        word(m),
        word(t),
    ensures
        http::first_words(m) == Some((m, "/"@, "HTTP/1.1"@)),
        http::first_words(m + seq![' '] + t) == Some((m, t, "HTTP/1.1"@)),
{
    let a = m.len() as int;
    lemma_word(m, 0, 0, a);
    assert(m.subrange(0, a) =~= m);
    lemma_first_dark(m, a, a);
    let s = m + seq![' '] + t;
    let e = s.len() as int;
    assert forall|k: int| 0 <= k < a implies !words::is_space(#[trigger] s[k]) by {
        assert(s[k] == m[k]);
    }
    assert forall|k: int| a + 1 <= k < e implies !words::is_space(#[trigger] s[k]) by {
        assert(s[k] == t[k - a - 1]);
    }
    assert(s[a] == ' ');
    lemma_word(s, 0, 0, a);
    lemma_word(s, a, a + 1, e);
    lemma_first_dark(s, e, e);
    assert(s.subrange(0, a) =~= m);
    assert(s.subrange(a + 1, e) =~= t);
}

/// A header is what stands before the first colon, in small letters, and what
/// stands behind it, both without the white space around them. A line without a
/// colon has none.
pub proof fn law_header_of_a_line(name: Seq<char>, value: Seq<char>)
    requires
        !name.contains(':'),
    ensures
        http::header_of(name + seq![':'] + value) == Some(
            (words::lowercase(words::trimmed(name)), words::trimmed(value)),
        ),
        http::header_of(name) is None,
{
    let s = name + seq![':'] + value;
    let i = name.len() as int;
    crate::rows::lemma_place_first(name, ':', value, 0);
    assert(s.take(i) =~= name);
    assert(s.skip(i + 1) =~= value);
    crate::rows::lemma_place_none(name, ':', 0);
}

/// Of headers with one name the last one counts.
pub proof fn law_last_header_counts(
    headers: Seq<(Seq<char>, Seq<char>)>,
    header: (Seq<char>, Seq<char>),
    name: Seq<char>,
)
    ensures
        http::header_value(seq![], name) is None,
        http::header_value(headers.push(header), name) == if header.0 == name {
            Some(header.1)
        } else {
            http::header_value(headers, name)
        },
{
    assert(headers.push(header).drop_last() =~= headers);
}

/// The body is as long as the headers say, and empty where they do not say it.
pub proof fn law_body_of_a_request(headers: Seq<(Seq<char>, Seq<char>)>, n: nat)
    requires
        n <= usize::MAX,
    ensures
        http::header_value(headers, "content-length"@) == Some(text::decimal(n))
            ==> http::body_size(headers) == n,
        http::header_value(headers, "content-length"@) is None ==> http::body_size(headers) == 0,
{
    law_whole_numbers(n, usize::MAX as int);
}

proof fn lemma_break_at(b: Seq<u8>, i: int, e: int)
    requires
        0 <= i <= e < b.len(),
        forall|k: int| i <= k < e ==> #[trigger] b[k] != 10,
        b[e] == 10,
    ensures
        http::break_at(b, i) == e,
    decreases e - i,
{
    if i < e {
        assert(b[i] != 10);
        lemma_break_at(b, i + 1, e);
    }
}

/// A line goes up to its break, and what follows is read next. One of more than
/// sixteen kibibytes is refused, and so is one that is no text.
pub proof fn law_line(line: Seq<u8>, rest: Seq<u8>)
    requires
        !line.contains(10),
    ensures
        ({
            let b = line.push(10) + rest;
            &&& http::line_size(b) == line.len() + 1
            &&& http::line_at(b) == if !valid_utf8(line.push(10)) {
                Err(ReadError::NotText)
            } else if line.len() >= 16_384 {
                Err(ReadError::TooLarge)
            } else {
                Ok(Some(http::without_breaks(decode_utf8(line.push(10)))))
            }
        }),
        http::line_at(seq![]) == Ok::<Option<Seq<char>>, ReadError>(None),
{
    let b = line.push(10) + rest;
    assert forall|k: int| 0 <= k < line.len() implies #[trigger] b[k] != 10 by {
        assert(b[k] == line[k]);
        assert(line.contains(line[k]));
    }
    assert(b[line.len() as int] == 10);
    lemma_break_at(b, 0, line.len() as int);
    assert(b.take(line.len() as int + 1) =~= line.push(10));
}

proof fn lemma_end_of_line(s: Seq<char>, i: int, e: int)
    requires
        0 <= e <= i <= s.len(),
        forall|k: int| e <= k < i ==> #[trigger] s[k] == '\n' || s[k] == '\r',
        e == 0 || (s[e - 1] != '\n' && s[e - 1] != '\r'),
    ensures
        http::end_of_line(s, i) == e,
    decreases i,
{
    if e < i {
        assert(s[i - 1] == '\n' || s[i - 1] == '\r');
        lemma_end_of_line(s, i - 1, e);
    }
}

/// The breaks behind a line are no part of it.
pub proof fn law_breaks_are_taken_off(t: Seq<char>, breaks: Seq<char>)
    requires
        t.len() > 0 ==> t.last() != '\n' && t.last() != '\r',
        forall|k: int| 0 <= k < breaks.len() ==> #[trigger] breaks[k] == '\n' || breaks[k] == '\r',
    ensures
        http::without_breaks(t + breaks) == t,
{
    let s = t + breaks;
    let e = t.len() as int;
    assert forall|k: int| e <= k < s.len() implies #[trigger] s[k] == '\n' || s[k] == '\r' by {
        assert(s[k] == breaks[k - e]);
    }
    if e > 0 {
        assert(s[e - 1] == t.last());
    }
    lemma_end_of_line(s, s.len() as int, e);
    assert(s.take(e) =~= t);
}

/// Headers are read line by line up to an empty line, and what follows it is not
/// touched.
pub proof fn law_headers(b: Seq<u8>, seen: Seq<(Seq<char>, Seq<char>)>, line: Seq<char>)
    requires
        http::line_at(b) == Ok::<Option<Seq<char>>, ReadError>(Some(line)),
        0 < http::line_size(b) <= b.len(),
    ensures
        ({
            let rest = b.skip(http::line_size(b));
            let s = http::scan_headers(b, seen);
            &&& line.len() == 0 ==> s.rest == rest && s.outcome == Ok::<
                Option<Seq<(Seq<char>, Seq<char>)>>,
                ReadError,
            >(Some(seen))
            &&& line.len() > 0 && http::header_of(line) is Some ==> s == http::scan_headers(
                rest,
                seen.push(http::header_of(line)->0),
            )
            &&& line.len() > 0 && http::header_of(line) is None ==> s == http::scan_headers(
                rest,
                seen,
            )
        }),
{
}

/// A request is its first line, its headers and its body. It has the method in
/// capitals and the path; its body is passed over, and what follows is left. A
/// body of more than one mebibyte is not read.
pub proof fn law_request(
    b: Seq<u8>,
    line: Seq<char>,
    m: Seq<char>,
    t: Seq<char>,
    v: Seq<char>,
    headers: Seq<(Seq<char>, Seq<char>)>,
)
    requires
        http::line_at(b) == Ok::<Option<Seq<char>>, ReadError>(Some(line)),
        http::first_words(line) == Some((m, t, v)),
        words::uppercase(m).len() > 0,
        http::scan_headers(b.skip(http::line_size(b)), seq![]).outcome == Ok::<
            Option<Seq<(Seq<char>, Seq<char>)>>,
            ReadError,
        >(Some(headers)),
    ensures
        ({
            let s = http::scan_headers(b.skip(http::line_size(b)), seq![]);
            let q = http::scan_request(b);
            let size = http::body_size(headers);
            &&& size > 1_048_576 ==> q.outcome == Ok::<Option<RequestView>, ReadError>(None)
                && q.rest == s.rest
            &&& size <= 1_048_576 && s.rest.len() < size ==> q.outcome == Err::<
                Option<RequestView>,
                ReadError,
            >(ReadError::Ended)
            &&& size <= 1_048_576 && s.rest.len() >= size ==> q.rest == s.rest.skip(size)
                && q.outcome == Ok::<Option<RequestView>, ReadError>(
                Some(
                    RequestView {
                        method: words::uppercase(m),
                        path: http::path_of(t),
                        headers,
                        keep_alive: http::stays_open(v, headers),
                    },
                ),
            )
        }),
{
}

/// A client reads of the health that the service runs, what it is, how long it
/// runs and how its feed is.
pub proof fn law_health(uptime_s: u64, feed: crate::feed::HealthView)
    ensures
        http::health_fields(uptime_s, feed) == seq![
            ("status"@, JsonView::Text("ok"@)),
            ("engine"@, JsonView::Text("rust-2.0.0"@)),
            ("uptime_s"@, JsonView::Whole(uptime_s as int)),
            ("feed"@, JsonView::Object(feed.fields())),
        ],
{
}

/// Of fields with one name the last one counts; only an object has fields, and
/// only a list has items.
pub proof fn law_fields_and_items(
    fields: Seq<(Seq<char>, JsonView)>,
    last: (Seq<char>, JsonView),
    name: Seq<char>,
    items: Seq<JsonView>,
    i: int,
)
    ensures
        JsonView::Object(seq![]).field(name) is None,
        JsonView::Object(fields.push(last)).field(name) == if last.0 == name {
            Some(last.1)
        } else {
            JsonView::Object(fields).field(name)
        },
        JsonView::List(items).item(i) == if 0 <= i < items.len() {
            Some(items[i])
        } else {
            None
        },
        JsonView::List(items).field(name) is None,
        JsonView::Object(fields).item(i) is None,
{
    assert(fields.push(last).drop_last() =~= fields);
}

/// A whole number is also read as a double, a text only as a text, and what is
/// missing is null.
pub proof fn law_values(n: int, x: Double, s: Seq<char>)
    ensures
        JsonView::Whole(n).whole() == Some(n),
        JsonView::Whole(n).number() == Some(Double::whole(n)),
        JsonView::Whole(n).text() is None,
        JsonView::Number(x).whole() is None,
        JsonView::Number(x).number() == Some(x),
        JsonView::Number(x).text() is None,
        JsonView::Text(s).whole() is None,
        JsonView::Text(s).number() is None,
        JsonView::Text(s).text() == Some(s),
        JsonView::Null.number() is None && JsonView::Null.text() is None,
        JsonView::of_number(Some(x)) == JsonView::Number(x),
        JsonView::of_number(None) == JsonView::Null,
        JsonView::of_text(Some(s)) == JsonView::Text(s),
        JsonView::of_text(None) == JsonView::Null,
{
}

/// The clock is read in seconds and in milliseconds, cut off, and in seconds with
/// their fraction; before the epoch the seconds are 0 and there are no
/// milliseconds.
pub proof fn law_readings(n: u128)
    requires
        n / 1_000_000_000 <= i64::MAX,
    ensures
        ({
            let r = clock::reading_after(Some(n));
            &&& r is Some
            &&& clock::stamp(r) == n / 1_000_000_000
            &&& clock::whole_millis(r) == Some((n / 1_000_000) as nat)
            &&& clock::fine_stamp(r) == Double::whole((n / 1_000_000_000) as int).sum(
                Double::whole((n % 1_000_000_000) as int).quotient(Double::whole(1_000_000_000)),
            )
        }),
        clock::reading_after(None) is None,
        clock::stamp(None) == 0,
        clock::whole_millis(None) is None,
        clock::fine_stamp(None) == (Double { bits: 0 }),
{
    let r: Reading = clock::reading_after(Some(n))->0;
    assert(r.secs == n / 1_000_000_000);
    assert(r.nanos == n % 1_000_000_000);
    assert(r.as_millis() == n / 1_000_000) by {
        assert(n == r.secs * 1_000_000_000 + r.nanos);
    }
}

} // verus!
