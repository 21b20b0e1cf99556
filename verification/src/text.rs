//! Building text character by character.

use vstd::prelude::*;
use vstd::string::*;

verus! {

/// `String::push` puts one character behind the others.
pub assume_specification[ String::push ](s: &mut String, c: char)
    ensures
        final(s)@ == old(s)@.push(c),
;

/// The comparison of two string slices is that of their characters.
pub assume_specification[ <str as PartialEq>::eq ](a: &str, b: &str) -> (r: bool)
    ensures
        r == (a@ == b@),
;

/// Whether two texts are the same.
pub fn same(a: &str, b: &str) -> (r: bool)
    ensures
        r == (a@ == b@),
{
    a.eq(b)
}

/// The character of a decimal digit.
pub open spec fn digit(d: nat) -> char {
    (48 + d) as char
}

/// `n` in decimal.
pub open spec fn decimal(n: nat) -> Seq<char>
    decreases n,
{
    if n < 10 {
        seq![digit(n)]
    } else {
        decimal(n / 10).push(digit(n % 10))
    }
}

/// `n` in decimal, with a minus sign where it is negative.
pub open spec fn signed_decimal(n: int) -> Seq<char> {
    if n < 0 {
        seq!['-'] + decimal((-n) as nat)
    } else {
        decimal(n as nat)
    }
}

/// `count` times the character `c`.
pub open spec fn repeated(c: char, count: nat) -> Seq<char> {
    Seq::new(count, |i: int| c)
}

/// `n` in decimal, filled with zeros behind the sign up to `size` characters.
pub open spec fn zero_padded(n: int, size: nat) -> Seq<char> {
    let sign = if n < 0 {
        seq!['-']
    } else {
        seq![]
    };
    let body = decimal(if n < 0 {
        (-n) as nat
    } else {
        n as nat
    });
    let fill = if sign.len() + body.len() < size {
        (size - sign.len() - body.len()) as nat
    } else {
        0
    };
    sign + repeated('0', fill) + body
}

/// The number that the decimal digits `s` write.
pub open spec fn number_of(s: Seq<char>) -> nat
    decreases s.len(),
{
    if s.len() == 0 {
        0
    } else {
        (number_of(s.drop_last()) * 10 + (s.last() as int - 48)) as nat
    }
}

/// Whether all of `s` are decimal digits.
pub open spec fn all_digits(s: Seq<char>) -> bool {
    forall|i: int| 0 <= i < s.len() ==> '0' <= #[trigger] s[i] <= '9'
}

/// A number is read back from its decimal digits.
pub proof fn lemma_decimal(n: nat)
    ensures
        number_of(decimal(n)) == n,
        all_digits(decimal(n)),
        decimal(n).len() > 0,
    decreases n,
{
    if n < 10 {
        assert(decimal(n).drop_last() =~= seq![]);
        assert(number_of(decimal(n).drop_last()) == 0);
    } else {
        lemma_decimal(n / 10);
        assert(decimal(n).drop_last() =~= decimal(n / 10));
    }
}

/// Zeros in front do not change a number.
proof fn lemma_leading_zeros(count: nat, s: Seq<char>)
    ensures
        number_of(repeated('0', count) + s) == number_of(s),
    decreases count + s.len(),
{
    let all = repeated('0', count) + s;
    if s.len() > 0 {
        assert(all.drop_last() =~= repeated('0', count) + s.drop_last());
        lemma_leading_zeros(count, s.drop_last());
    } else if count > 0 {
        assert(all.drop_last() =~= repeated('0', (count - 1) as nat) + s);
        lemma_leading_zeros((count - 1) as nat, s);
    } else {
        assert(all =~= s);
    }
}

/// A number that is not negative is read back from its padded digits.
pub proof fn lemma_zero_padded(n: int, size: nat)
    requires
        n >= 0,
    ensures
        number_of(zero_padded(n, size)) == n,
        all_digits(zero_padded(n, size)),
        zero_padded(n, size).len() >= size,
        zero_padded(n, size).len() == if decimal(n as nat).len() < size {
            size
        } else {
            decimal(n as nat).len()
        },
{
    let body = decimal(n as nat);
    let fill = if body.len() < size {
        (size - body.len()) as nat
    } else {
        0
    };
    lemma_decimal(n as nat);
    lemma_leading_zeros(fill, body);
    assert(zero_padded(n, size) =~= repeated('0', fill) + body);
}

/// Numbers are told apart by their padded digits.
pub proof fn lemma_padded_once(a: int, b: int, size: nat)
    requires
        zero_padded(a, size) == zero_padded(b, size),
    ensures
        a == b,
{
    lemma_padded_parts(a, size);
    lemma_padded_parts(b, size);
}

proof fn lemma_padded_parts(n: int, size: nat)
    ensures
        zero_padded(n, size).len() > 0,
        n < 0 <==> zero_padded(n, size)[0] == '-',
        n < 0 ==> number_of(zero_padded(n, size).skip(1)) == -n,
        n >= 0 ==> number_of(zero_padded(n, size)) == n,
{
    if n >= 0 {
        lemma_zero_padded(n, size);
        lemma_decimal(n as nat);
        assert('0' <= zero_padded(n, size)[0] <= '9');
    } else {
        let body = decimal((-n) as nat);
        let fill = if 1 + body.len() < size {
            (size - 1 - body.len()) as nat
        } else {
            0
        };
        lemma_decimal((-n) as nat);
        lemma_leading_zeros(fill, body);
        assert(zero_padded(n, size).skip(1) =~= repeated('0', fill) + body);
    }
}

/// Whether `a` comes before `b` in the order of their characters: a shorter text
/// comes before those that go on from it, and else the first difference decides.
pub open spec fn comes_before(a: Seq<char>, b: Seq<char>) -> bool {
    exists|i: int| differs_at(a, b, i)
}

/// Whether the first difference is at `i`, and `a` is the smaller there.
pub open spec fn differs_at(a: Seq<char>, b: Seq<char>, i: int) -> bool {
    &&& 0 <= i <= a.len()
    &&& i < b.len()
    &&& a.take(i) == b.take(i)
    &&& i == a.len() || (a[i] as int) < (b[i] as int)
}

/// Digits of one length are ordered as the numbers that they write.
pub proof fn lemma_digits_in_order(a: Seq<char>, b: Seq<char>)
    requires
        a.len() == b.len(),
        all_digits(a),
        all_digits(b),
        number_of(a) <= number_of(b),
    ensures
        number_of(a) == number_of(b) ==> a == b,
        number_of(a) < number_of(b) ==> exists|i: int| i < a.len() && differs_at(a, b, i),
    decreases a.len(),
{
    if a.len() == 0 {
        assert(a =~= b);
    } else {
        let n = a.len() - 1;
        let x = a.drop_last();
        let y = b.drop_last();
        assert('0' <= a[n] <= '9' && '0' <= b[n] <= '9');
        assert(all_digits(x)) by {
            assert forall|i: int| 0 <= i < x.len() implies '0' <= #[trigger] x[i] <= '9' by {
                assert(x[i] == a[i]);
            }
        }
        assert(all_digits(y)) by {
            assert forall|i: int| 0 <= i < y.len() implies '0' <= #[trigger] y[i] <= '9' by {
                assert(y[i] == b[i]);
            }
        }
        lemma_digits_in_order(x, y);
        assert(x.push(a[n]) =~= a && y.push(b[n]) =~= b);
        if number_of(x) < number_of(y) {
            let i = choose|i: int| i < x.len() && differs_at(x, y, i);
            assert(a.take(i) =~= x.take(i) && b.take(i) =~= y.take(i));
            assert(a[i] == x[i] && b[i] == y[i]);
            assert(differs_at(a, b, i));
        } else if number_of(a) < number_of(b) {
            assert(a.take(n) =~= x && b.take(n) =~= y);
            assert(differs_at(a, b, n));
        }
    }
}

/// Texts that agree up to `k` are ordered as what they hold from there to `j`.
pub proof fn lemma_part_decides(a: Seq<char>, b: Seq<char>, k: int, j: int, i: int)
    requires
        0 <= k <= j <= a.len(),
        j <= b.len(),
        a.take(k) == b.take(k),
        i < j - k,
        differs_at(a.subrange(k, j), b.subrange(k, j), i),
    ensures
        comes_before(a, b),
{
    let x = a.subrange(k, j);
    let y = b.subrange(k, j);
    assert(a.take(k + i) =~= a.take(k) + x.take(i));
    assert(b.take(k + i) =~= b.take(k) + y.take(i));
    assert(x[i] == a[k + i] && y[i] == b[k + i]);
    assert(differs_at(a, b, k + i));
}

/// `n` in decimal, as characters.
pub fn decimal_chars(n: u64) -> (r: Vec<char>)
    ensures
        r@ == decimal(n as nat),
    decreases n,
{
    let mut out: Vec<char> = if n >= 10 {
        decimal_chars(n / 10)
    } else {
        Vec::new()
    };
    out.push((48 + (n % 10) as u8) as char);
    assert(out@ =~= decimal(n as nat));
    out
}

/// Puts the characters `cs` behind `out`.
pub fn push_chars(out: &mut String, cs: &Vec<char>)
    ensures
        final(out)@ == old(out)@ + cs@,
{
    let mut i: usize = 0;
    while i < cs.len()
        invariant
            i <= cs@.len(),
            out@ == old(out)@ + cs@.take(i as int),
        decreases cs@.len() - i,
    {
        out.push(cs[i]);
        assert(cs@.take(i + 1) =~= cs@.take(i as int).push(cs@[i as int]));
        i = i + 1;
    }
    assert(cs@.take(i as int) =~= cs@);
}

/// The characters of a text.
pub fn chars_of(s: &str) -> (r: Vec<char>)
    ensures
        r@ == s@,
{
    let mut out: Vec<char> = Vec::new();
    for c in it: s.chars()
        invariant
            out@ == s@.take(it.index()),
            it.seq() == s@,
    {
        out.push(c);
        assert(s@.take(it.index() + 1) =~= s@.take(it.index()).push(c));
    }
    assert(s@.take(s@.len() as int) =~= s@);
    out
}

/// The text made of the characters `cs`.
pub fn text_of(cs: &Vec<char>) -> (r: String)
    ensures
        r@ == cs@,
{
    let mut out: String = String::new();
    push_chars(&mut out, cs);
    assert(out@ =~= cs@);
    out
}

/// The size of a signed number without its sign.
fn size_of_number(n: i64) -> (r: u64)
    ensures
        r == if n < 0 {
            -n
        } else {
            n as int
        },
{
    if n < 0 {
        (-(n + 1)) as u64 + 1
    } else {
        n as u64
    }
}

/// Puts `n` in decimal behind `out`.
pub fn push_decimal(out: &mut String, n: u64)
    ensures
        final(out)@ == old(out)@ + decimal(n as nat),
{
    push_chars(out, &decimal_chars(n));
}

/// Puts `n` in decimal behind `out`, with a minus sign where it is negative.
pub fn push_signed(out: &mut String, n: i64)
    ensures
        final(out)@ == old(out)@ + signed_decimal(n as int),
{
    if n < 0 {
        out.push('-');
    }
    push_decimal(out, size_of_number(n));
    assert(out@ =~= old(out)@ + signed_decimal(n as int));
}

/// Puts `n` behind `out`, filled with zeros up to `size` characters.
pub fn push_zero_padded(out: &mut String, n: i64, size: usize)
    ensures
        final(out)@ == old(out)@ + zero_padded(n as int, size as nat),
{
    let body: Vec<char> = decimal_chars(size_of_number(n));
    let mark: usize = if n < 0 {
        1
    } else {
        0
    };
    if n < 0 {
        out.push('-');
    }
    let ghost head = out@;
    let room: usize = if size > body.len() {
        size - body.len()
    } else {
        0
    };
    let fill: usize = if room > mark {
        room - mark
    } else {
        0
    };
    let mut i: usize = 0;
    while i < fill
        invariant
            i <= fill,
            out@ == head + repeated('0', i as nat),
        decreases fill - i,
    {
        out.push('0');
        i = i + 1;
        assert(head + repeated('0', i as nat) =~= (head + repeated('0', (i - 1) as nat)).push('0'));
    }
    push_chars(out, &body);
    assert(out@ =~= old(out)@ + zero_padded(n as int, size as nat));
}

/// `n` in decimal, as characters.
pub fn wide_decimal_chars(n: u128) -> (r: Vec<char>)
    ensures
        r@ == decimal(n as nat),
    decreases n,
{
    let mut out: Vec<char> = if n >= 10 {
        wide_decimal_chars(n / 10)
    } else {
        Vec::new()
    };
    out.push((48 + (n % 10) as u8) as char);
    assert(out@ =~= decimal(n as nat));
    out
}

} // verus!
