//! Taking text apart: trimming, splitting, searching, whole numbers, and the
//! case of letters.

use crate::text;
use crate::text::chars_of;
use vstd::prelude::*;
use vstd::string::*;

verus! {

// ---------------------------------------------------------------------------
// Case
// ---------------------------------------------------------------------------

/// A text in the small letters of Unicode.
pub uninterp spec fn unicode_lowercase(s: Seq<char>) -> Seq<char>;

/// A text in the capital letters of Unicode.
pub uninterp spec fn unicode_uppercase(s: Seq<char>) -> Seq<char>;

/// The small form of an ASCII letter; any other character as it is.
pub open spec fn small(c: char) -> char {
    if 'A' <= c <= 'Z' {
        (c as int + 32) as char
    } else {
        c
    }
}

/// The capital form of an ASCII letter; any other character as it is.
pub open spec fn capital(c: char) -> char {
    if 'a' <= c <= 'z' {
        (c as int - 32) as char
    } else {
        c
    }
}

/// The text with its ASCII letters made small.
pub open spec fn ascii_small(s: Seq<char>) -> Seq<char> {
    s.map_values(|c: char| small(c))
}

/// The text with its ASCII letters made capital.
pub open spec fn ascii_capital(s: Seq<char>) -> Seq<char> {
    s.map_values(|c: char| capital(c))
}

/// Whether all characters are ASCII.
pub open spec fn plain(s: Seq<char>) -> bool {
    forall|i: int| 0 <= i < s.len() ==> (#[trigger] s[i] as int) < 128
}

/// A text in small letters.
pub open spec fn lowercase(s: Seq<char>) -> Seq<char> {
    if plain(s) {
        ascii_small(s)
    } else {
        unicode_lowercase(s)
    }
}

/// A text in capital letters.
pub open spec fn uppercase(s: Seq<char>) -> Seq<char> {
    if plain(s) {
        ascii_capital(s)
    } else {
        unicode_uppercase(s)
    }
}

/// `str::to_lowercase`: a function of the text alone, which makes the letters of
/// an ASCII text small.
pub assume_specification[ str::to_lowercase ](s: &str) -> (r: String)
    ensures
        r@ == if plain(s@) {
            ascii_small(s@)
        } else {
            unicode_lowercase(s@)
        },
;

/// `str::to_uppercase`: a function of the text alone, which makes the letters of
/// an ASCII text capital.
pub assume_specification[ str::to_uppercase ](s: &str) -> (r: String)
    ensures
        r@ == if plain(s@) {
            ascii_capital(s@)
        } else {
            unicode_uppercase(s@)
        },
;

/// The small form of an ASCII letter; any other character as it is.
pub fn to_small(c: char) -> (r: char)
    ensures
        r == small(c),
{
    if 'A' <= c && c <= 'Z' {
        (c as u8 + 32) as char
    } else {
        c
    }
}

/// The text with its ASCII letters made small.
pub fn to_ascii_small(s: &str) -> (r: String)
    ensures
        r@ == ascii_small(s@),
{
    let cs: Vec<char> = chars_of(s);
    let mut out: String = String::new();
    let mut i: usize = 0;
    let ghost all = ascii_small(s@);
    assert(all.take(0) =~= seq![]);
    while i < cs.len()
        invariant
            i <= cs@.len(),
            cs@ == s@,
            all == ascii_small(s@),
            out@ == all.take(i as int),
        decreases cs@.len() - i,
    {
        out.push(to_small(cs[i]));
        assert(all.take(i + 1) =~= all.take(i as int).push(all[i as int]));
        i = i + 1;
    }
    assert(all.take(i as int) =~= all);
    out
}

// ---------------------------------------------------------------------------
// Trimming
// ---------------------------------------------------------------------------

/// Whether a character is white space.
pub open spec fn is_space(c: char) -> bool {
    let n = c as int;
    ||| 9 <= n <= 13
    ||| n == 32 || n == 133 || n == 160 || n == 5760
    ||| 8192 <= n <= 8202
    ||| n == 8232 || n == 8233 || n == 8239 || n == 8287 || n == 12288
}

/// Whether a character is white space.
pub fn space(c: char) -> (r: bool)
    ensures
        r == is_space(c),
{
    let n: u32 = c as u32;
    (9 <= n && n <= 13) || n == 32 || n == 133 || n == 160 || n == 5760 || (8192 <= n && n <= 8202)
        || n == 8232 || n == 8233 || n == 8239 || n == 8287 || n == 12288
}

/// Where the text without the white space in front starts.
pub open spec fn first_dark(s: Seq<char>, i: int) -> int
    decreases s.len() - i,
{
    if 0 <= i < s.len() && is_space(s[i]) {
        first_dark(s, i + 1)
    } else {
        i
    }
}

/// Where the text without the white space behind ends, if that is not before
/// `from`.
pub open spec fn last_dark(s: Seq<char>, from: int, i: int) -> int
    decreases i,
{
    if from < i <= s.len() && 0 < i && is_space(s[i - 1]) {
        last_dark(s, from, i - 1)
    } else {
        i
    }
}

/// The text without the white space around it.
pub open spec fn trimmed(s: Seq<char>) -> Seq<char> {
    let a = first_dark(s, 0);
    s.subrange(a, last_dark(s, a, s.len() as int))
}

/// The characters between two positions, as text.
pub fn slice(cs: &Vec<char>, from: usize, to: usize) -> (r: String)
    requires
        from <= to <= cs@.len(),
    ensures
        r@ == cs@.subrange(from as int, to as int),
{
    let mut out: String = String::new();
    let mut i: usize = from;
    while i < to
        invariant
            from <= i <= to <= cs@.len(),
            out@ == cs@.subrange(from as int, i as int),
        decreases to - i,
    {
        out.push(cs[i]);
        i = i + 1;
        assert(out@ =~= cs@.subrange(from as int, i as int));
    }
    out
}

/// The text without the white space around it.
pub fn trim(s: &str) -> (r: String)
    ensures
        r@ == trimmed(s@),
{
    let cs: Vec<char> = chars_of(s);
    let n: usize = cs.len();
    let mut a: usize = 0;
    while a < n && space(cs[a])
        invariant
            a <= n,
            n == cs@.len(),
            first_dark(cs@, 0) == first_dark(cs@, a as int),
        decreases n - a,
    {
        a = a + 1;
    }
    let mut b: usize = n;
    while b > a && space(cs[b - 1])
        invariant
            a <= b <= n,
            n == cs@.len(),
            last_dark(cs@, a as int, n as int) == last_dark(cs@, a as int, b as int),
        decreases b,
    {
        b = b - 1;
    }
    slice(&cs, a, b)
}

/// Where the text without the characters `c` behind ends.
pub open spec fn end_without(s: Seq<char>, c: char, i: int) -> int
    decreases i,
{
    if 0 < i <= s.len() && s[i - 1] == c {
        end_without(s, c, i - 1)
    } else {
        i
    }
}

/// The text without the characters `c` behind.
pub open spec fn without_trailing(s: Seq<char>, c: char) -> Seq<char> {
    s.take(end_without(s, c, s.len() as int))
}

/// The text without the characters `c` behind.
pub fn trim_end(s: &str, c: char) -> (r: String)
    ensures
        r@ == without_trailing(s@, c),
{
    let cs: Vec<char> = chars_of(s);
    let n: usize = cs.len();
    let mut b: usize = n;
    while b > 0 && cs[b - 1] == c
        invariant
            b <= n,
            n == cs@.len(),
            end_without(cs@, c, n as int) == end_without(cs@, c, b as int),
        decreases b,
    {
        b = b - 1;
    }
    let r: String = slice(&cs, 0, b);
    assert(r@ =~= without_trailing(s@, c));
    r
}

// ---------------------------------------------------------------------------
// Splitting
// ---------------------------------------------------------------------------

/// Where `c` first stands from the position `i` on; the length where it does not.
pub open spec fn place(s: Seq<char>, c: char, i: int) -> int
    decreases s.len() - i,
{
    if i >= s.len() {
        s.len() as int
    } else if s[i] == c {
        i
    } else {
        place(s, c, i + 1)
    }
}

/// The parts of a text between the characters `c`, from the position `i` on.
pub open spec fn parts_from(s: Seq<char>, c: char, i: int) -> Seq<Seq<char>>
    decreases s.len() - i,
{
    let j = place(s, c, i);
    if i < 0 || j >= s.len() || j < i {
        seq![s.skip(i)]
    } else {
        seq![s.subrange(i, j)] + parts_from(s, c, j + 1)
    }
}

/// The parts of a text between the characters `c`.
pub open spec fn parts(s: Seq<char>, c: char) -> Seq<Seq<char>> {
    parts_from(s, c, 0)
}

/// What the texts of a list say.
pub open spec fn texts(v: Seq<String>) -> Seq<Seq<char>> {
    v.map_values(|s: String| s@)
}

/// Where `c` first stands from the position `i` on.
pub fn find_from(cs: &Vec<char>, c: char, i: usize) -> (r: usize)
    requires
        i <= cs@.len(),
    ensures
        r == place(cs@, c, i as int),
        i <= r <= cs@.len(),
{
    let mut k: usize = i;
    while k < cs.len() && cs[k] != c
        invariant
            i <= k <= cs@.len(),
            place(cs@, c, i as int) == place(cs@, c, k as int),
        decreases cs@.len() - k,
    {
        k = k + 1;
    }
    k
}

/// The parts of a text between the characters `c`.
pub fn split(s: &str, c: char) -> (r: Vec<String>)
    ensures
        texts(r@) == parts(s@, c),
        r@.len() > 0,
{
    let cs: Vec<char> = chars_of(s);
    let n: usize = cs.len();
    let mut out: Vec<String> = Vec::new();
    let mut i: usize = 0;
    let mut j: usize = find_from(&cs, c, 0);
    assert(texts(out@) + parts_from(s@, c, 0) =~= parts(s@, c));
    while j < n
        invariant
            i <= j <= n,
            n == cs@.len(),
            cs@ == s@,
            j == place(s@, c, i as int),
            texts(out@) + parts_from(s@, c, i as int) == parts(s@, c),
        decreases n - i,
    {
        let ghost before = texts(out@);
        let part: String = slice(&cs, i, j);
        out.push(part);
        proof {
            assert(texts(out@) =~= before.push(s@.subrange(i as int, j as int)));
            assert(parts_from(s@, c, i as int) == seq![s@.subrange(i as int, j as int)]
                + parts_from(s@, c, j + 1));
            assert(texts(out@) + parts_from(s@, c, j + 1) =~= before + parts_from(
                s@,
                c,
                i as int,
            ));
        }
        i = j + 1;
        j = find_from(&cs, c, i);
    }
    let ghost before = texts(out@);
    let part: String = slice(&cs, i, n);
    out.push(part);
    proof {
        assert(s@.subrange(i as int, n as int) =~= s@.skip(i as int));
        assert(texts(out@) =~= before.push(s@.skip(i as int)));
        assert(texts(out@) =~= before + parts_from(s@, c, i as int));
    }
    out
}

/// Where the next word ends: at white space or at the end.
pub open spec fn word_end(s: Seq<char>, i: int) -> int
    decreases s.len() - i,
{
    if 0 <= i < s.len() && !is_space(s[i]) {
        word_end(s, i + 1)
    } else {
        i
    }
}

/// The word that starts at or behind the position `i`, if there is one, and
/// where it ends.
pub open spec fn word_from(s: Seq<char>, i: int) -> Option<(Seq<char>, int)> {
    let a = first_dark(s, i);
    if a < s.len() {
        Some((s.subrange(a, word_end(s, a)), word_end(s, a)))
    } else {
        None
    }
}

/// The word that starts at or behind the position `i`, if there is one, and
/// where it ends.
pub fn next_word(cs: &Vec<char>, i: usize) -> (r: Option<(String, usize)>)
    requires
        i <= cs@.len(),
    ensures
        match word_from(cs@, i as int) {
            Some((w, e)) => r matches Some((x, k)) && x@ == w && k == e && k <= cs@.len() && w.len()
                > 0,
            None => r is None,
        },
{
    let n: usize = cs.len();
    let mut a: usize = i;
    while a < n && space(cs[a])
        invariant
            i <= a <= n,
            n == cs@.len(),
            first_dark(cs@, i as int) == first_dark(cs@, a as int),
        decreases n - a,
    {
        a = a + 1;
    }
    if a == n {
        return None;
    }
    let mut e: usize = a + 1;
    while e < n && !space(cs[e])
        invariant
            a < e <= n,
            n == cs@.len(),
            word_end(cs@, a as int) == word_end(cs@, e as int),
        decreases n - e,
    {
        e = e + 1;
    }
    Some((slice(cs, a, e), e))
}

/// Whether a text holds another one.
pub open spec fn holds(s: Seq<char>, w: Seq<char>) -> bool {
    exists|i: int| 0 <= i <= s.len() - w.len() && #[trigger] s.subrange(i, i + w.len()) == w
}

/// Whether a text holds another one.
pub fn contains(s: &str, w: &str) -> (r: bool)
    ensures
        r == holds(s@, w@),
{
    let cs: Vec<char> = chars_of(s);
    let ws: Vec<char> = chars_of(w);
    let n: usize = cs.len();
    let m: usize = ws.len();
    if m > n {
        return false;
    }
    let mut i: usize = 0;
    while i <= n - m
        invariant
            m <= n,
            n == cs@.len(),
            m == ws@.len(),
            cs@ == s@,
            ws@ == w@,
            i <= n - m + 1,
            forall|k: int| 0 <= k < i ==> #[trigger] s@.subrange(k, k + m) != w@,
        decreases n - m + 1 - i,
    {
        let mut j: usize = 0;
        while j < m && cs[i + j] == ws[j]
            invariant
                j <= m,
                i + m <= n,
                n == cs@.len(),
                m == ws@.len(),
                forall|k: int| 0 <= k < j ==> cs@[i + k] == ws@[k],
            decreases m - j,
        {
            j = j + 1;
        }
        if j == m {
            assert(s@.subrange(i as int, i + m) =~= w@);
            return true;
        }
        proof {
            assert(s@.subrange(i as int, i + m)[j as int] != w@[j as int]);
        }
        i = i + 1;
    }
    false
}

// ---------------------------------------------------------------------------
// Whole numbers
// ---------------------------------------------------------------------------

/// The number that a text writes: a sign or none, and digits.
pub open spec fn whole_number(s: Seq<char>) -> Option<int> {
    let signed = s.len() > 0 && (s[0] == '-' || s[0] == '+');
    let t = if signed {
        s.skip(1)
    } else {
        s
    };
    if t.len() > 0 && text::all_digits(t) {
        Some(
            if s[0] == '-' {
                -(text::number_of(t) as int)
            } else {
                text::number_of(t) as int
            },
        )
    } else {
        None
    }
}

/// The number that a text writes, where it lies between two bounds.
pub open spec fn number_within(s: Seq<char>, lo: int, hi: int) -> Option<int> {
    match whole_number(s) {
        Some(n) => if lo <= n <= hi {
            Some(n)
        } else {
            None
        },
        None => None,
    }
}

/// The number that a text without a minus sign writes, up to a bound.
pub open spec fn count_within(s: Seq<char>, hi: int) -> Option<int> {
    if s.len() > 0 && s[0] == '-' {
        None
    } else {
        number_within(s, 0, hi)
    }
}

/// The number of a row of digits from a position on, up to a bound; `None`
/// where another character comes, or where the number is larger.
fn digits_from(cs: &Vec<char>, from: usize, hi: u128) -> (r: Option<u128>)
    requires
        from <= cs@.len(),
        hi <= u64::MAX,
    ensures
        match r {
            Some(v) => text::all_digits(cs@.skip(from as int)) && v == text::number_of(
                cs@.skip(from as int),
            ) && v <= hi,
            None => !text::all_digits(cs@.skip(from as int)) || text::number_of(
                cs@.skip(from as int),
            ) > hi,
        },
{
    let ghost s = cs@.skip(from as int);
    let mut v: u128 = 0;
    let mut i: usize = from;
    assert(s.take(0) =~= seq![]);
    while i < cs.len()
        invariant
            from <= i <= cs@.len(),
            s == cs@.skip(from as int),
            hi <= u64::MAX,
            v <= hi,
            v == text::number_of(s.take(i - from)),
            forall|k: int| 0 <= k < i - from ==> '0' <= #[trigger] s[k] <= '9',
        decreases cs@.len() - i,
    {
        let c: char = cs[i];
        assert(c == s[i - from]);
        if c < '0' || c > '9' {
            return None;
        }
        assert(s.take(i - from + 1).drop_last() =~= s.take(i - from));
        let next: u128 = v * 10 + (c as u8 - 48) as u128;
        if next > hi {
            proof {
                if text::all_digits(s) {
                    lemma_number_grows(s, i - from + 1);
                }
            }
            return None;
        }
        v = next;
        i = i + 1;
    }
    assert(s.take(i - from) =~= s);
    Some(v)
}

/// More digits never make a number smaller.
proof fn lemma_number_grows(s: Seq<char>, k: int)
    requires
        text::all_digits(s),
        0 <= k <= s.len(),
    ensures
        text::number_of(s.take(k)) <= text::number_of(s),
    decreases s.len() - k,
{
    if k == s.len() {
        assert(s.take(k) =~= s);
    } else {
        lemma_number_grows(s, k + 1);
        assert(s.take(k + 1).drop_last() =~= s.take(k));
        assert(s.take(k + 1).last() == s[k]);
    }
}

/// The number that a text writes, where it fits.
pub fn parse_i64(s: &str) -> (r: Option<i64>)
    ensures
        match number_within(s@, i64::MIN as int, i64::MAX as int) {
            Some(n) => r == Some(n as i64),
            None => r is None,
        },
{
    let cs: Vec<char> = chars_of(s);
    if cs.len() == 0 {
        return None;
    }
    let negative: bool = cs[0] == '-';
    let start: usize = if cs[0] == '-' || cs[0] == '+' {
        1
    } else {
        0
    };
    assert(cs@.skip(0) =~= cs@);
    if start == cs.len() {
        return None;
    }
    let limit: u128 = if negative {
        0x8000_0000_0000_0000
    } else {
        0x7FFF_FFFF_FFFF_FFFF
    };
    match digits_from(&cs, start, limit) {
        Some(v) => if negative {
            Some((-(v as i128)) as i64)
        } else {
            Some(v as i64)
        },
        None => None,
    }
}

/// The number that a text without a minus sign writes, up to a bound.
pub fn parse_count(s: &str, hi: u64) -> (r: Option<u64>)
    ensures
        match count_within(s@, hi as int) {
            Some(n) => r == Some(n as u64),
            None => r is None,
        },
{
    let cs: Vec<char> = chars_of(s);
    if cs.len() == 0 || cs[0] == '-' {
        return None;
    }
    let start: usize = if cs[0] == '+' {
        1
    } else {
        0
    };
    assert(cs@.skip(0) =~= cs@);
    if start == cs.len() {
        return None;
    }
    match digits_from(&cs, start, hi as u128) {
        Some(v) => Some(v as u64),
        None => None,
    }
}

} // verus!
