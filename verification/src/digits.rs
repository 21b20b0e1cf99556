//! Whole numbers of any size, held as decimal digits, the lowest first.

use vstd::arithmetic::div_mod::*;
use vstd::arithmetic::mul::*;
use vstd::arithmetic::power::*;
use vstd::arithmetic::power2::*;
use vstd::prelude::*;

verus! {

/// The number that the digits make.
pub open spec fn val(d: Seq<u8>) -> nat
    decreases d.len(),
{
    if d.len() == 0 {
        0
    } else {
        d[0] as nat + 10 * val(d.drop_first())
    }
}

/// Whether all of `d` are decimal digits.
pub open spec fn digits(d: Seq<u8>) -> bool {
    forall|i: int| 0 <= i < d.len() ==> #[trigger] d[i] <= 9
}

/// `10^n`.
pub open spec fn ten(n: nat) -> nat {
    pow(10, n) as nat
}

pub proof fn lemma_ten(n: nat)
    ensures
        ten(0) == 1,
        ten(n) > 0,
        ten(n + 1) == 10 * ten(n),
        pow(10, n) == ten(n),
{
    lemma_pow0(10);
    lemma_pow_positive(10, n);
    lemma_pow_positive(10, n + 1);
    lemma_pow_adds(10, 1, n);
    lemma_pow1(10);
}

/// The digits from the position `i` on count `10^i` times.
pub proof fn lemma_val_split(d: Seq<u8>, i: int)
    requires
        0 <= i <= d.len(),
    ensures
        val(d) == val(d.take(i)) + ten(i as nat) * val(d.skip(i)),
    decreases i,
{
    lemma_ten(0);
    if i == 0 {
        assert(d.skip(0) =~= d);
        assert(d.take(0) =~= seq![]);
        assert(ten(0) * val(d) == val(d));
    } else {
        let rest = d.drop_first();
        lemma_val_split(rest, i - 1);
        lemma_ten((i - 1) as nat);
        assert(rest.take(i - 1) =~= d.take(i).drop_first());
        assert(rest.skip(i - 1) =~= d.skip(i));
        assert(val(d.take(i)) == d[0] + 10 * val(d.take(i).drop_first()));
        assert(10 * (ten((i - 1) as nat) * val(d.skip(i))) == ten(i as nat) * val(d.skip(i)))
            by (nonlinear_arith)
            requires
                ten(i as nat) == 10 * ten((i - 1) as nat),
        ;
    }
}

/// A number is less than one with one digit more.
pub proof fn lemma_val_bound(d: Seq<u8>)
    requires
        digits(d),
    ensures
        val(d) < ten(d.len()),
    decreases d.len(),
{
    lemma_ten(0);
    if d.len() > 0 {
        let rest = d.drop_first();
        assert forall|i: int| 0 <= i < rest.len() implies #[trigger] rest[i] <= 9 by {
            assert(rest[i] == d[i + 1]);
        }
        lemma_val_bound(rest);
        lemma_ten(rest.len());
    }
}

proof fn lemma_val_push(d: Seq<u8>, x: u8)
    ensures
        val(d.push(x)) == val(d) + ten(d.len()) * x,
{
    let e = d.push(x);
    lemma_val_split(e, d.len() as int);
    assert(e.take(d.len() as int) =~= d);
    assert(e.skip(d.len() as int) =~= seq![x]);
    assert(seq![x].drop_first() =~= seq![]);
    assert(val(seq![x]) == x) by {
        assert(val(seq![x].drop_first()) == 0);
    }
}

/// Multiplies the number by `m` and adds `a`.
pub fn scale_up(d: &mut Vec<u8>, m: u64, a: u64)
    requires
        digits(old(d)@),
        m <= 1_000_000_000_000_000,
        a <= 1_000_000_000_000_000,
    ensures
        digits(final(d)@),
        val(final(d)@) == val(old(d)@) * m + a,
        final(d)@.len() >= old(d)@.len(),
{
    let ghost start = d@;
    let n: usize = d.len();
    let mut carry: u64 = a;
    let mut i: usize = 0;
    proof {
        lemma_ten(0);
        assert(start.skip(0) =~= start);
        assert(d@.take(0) =~= seq![]);
    }
    while i < n
        invariant
            i <= n,
            n == start.len(),
            d@.len() == n,
            digits(d@),
            m <= 1_000_000_000_000_000,
            carry <= 2_000_000_000_000_000,
            d@.skip(i as int) == start.skip(i as int),
            val(start) * m + a == val(d@.take(i as int)) + ten(i as nat) * (val(
                start.skip(i as int),
            ) * m + carry),
        decreases n - i,
    {
        let ghost before = d@;
        let ghost tail = val(start.skip(i + 1));
        let x: u8 = d[i];
        assert(x == start[i as int]) by {
            assert(d@.skip(i as int)[0] == start.skip(i as int)[0]);
        }
        assert(x <= 9);
        assert(x as u64 * m <= 9 * m) by (nonlinear_arith)
            requires
                x <= 9,
        ;
        let t: u64 = x as u64 * m + carry;
        let lo: u8 = (t % 10) as u8;
        d.set(i, lo);
        proof {
            let p = ten(i as nat);
            lemma_ten(i as nat);
            assert(start.skip(i as int).drop_first() =~= start.skip(i + 1));
            assert(val(start.skip(i as int)) == x + 10 * tail);
            assert(d@.take(i as int) =~= before.take(i as int));
            assert(d@.take(i + 1) =~= before.take(i as int).push(lo));
            lemma_val_push(before.take(i as int), lo);
            assert(d@.skip(i + 1) =~= start.skip(i + 1)) by {
                assert forall|j: int| 0 <= j < n - i - 1 implies #[trigger] d@.skip(i + 1)[j]
                    == start.skip(i + 1)[j] by {
                    assert(before.skip(i as int)[j + 1] == start.skip(i as int)[j + 1]);
                }
            }
            let hi = t / 10;
            assert(p * ((x + 10 * tail) * m + carry) == p * lo + (10 * p) * (tail * m + hi))
                by (nonlinear_arith)
                requires
                    x * m + carry == 10 * hi + lo,
            ;
        }
        carry = t / 10;
        i = i + 1;
    }
    proof {
        assert(start.skip(n as int) =~= seq![]);
        assert(d@.take(n as int) =~= d@);
        assert(ten(n as nat) * (0 * m + carry) == ten(n as nat) * carry);
    }
    while carry > 0
        invariant
            digits(d@),
            d@.len() >= n,
            val(start) * m + a == val(d@) + ten(d@.len()) * carry,
        decreases carry,
    {
        let ghost before = d@;
        let lo: u8 = (carry % 10) as u8;
        d.push(lo);
        proof {
            lemma_val_push(before, lo);
            lemma_ten(before.len());
            let p = ten(before.len());
            let hi = carry / 10;
            assert(p * carry == p * lo + (10 * p) * hi) by (nonlinear_arith)
                requires
                    carry == 10 * hi + lo,
            ;
        }
        carry = carry / 10;
    }
    assert(ten(d@.len()) * 0 == 0);
}

/// Halves the number and gives the rest.
pub fn halve(d: &mut Vec<u8>) -> (r: u8)
    requires
        digits(old(d)@),
    ensures
        digits(final(d)@),
        val(final(d)@) == val(old(d)@) / 2,
        r == val(old(d)@) % 2,
        final(d)@.len() == old(d)@.len(),
{
    let ghost start = d@;
    let n: usize = d.len();
    let mut i: usize = n;
    let mut r: u8 = 0;
    assert(start.skip(n as int) =~= seq![]);
    assert(d@.skip(n as int) =~= seq![]);
    while i > 0
        invariant
            i <= n,
            n == start.len(),
            d@.len() == n,
            digits(d@),
            r <= 1,
            d@.take(i as int) == start.take(i as int),
            val(start.skip(i as int)) == 2 * val(d@.skip(i as int)) + r,
        decreases i,
    {
        let ghost before = d@;
        i = i - 1;
        let x: u8 = d[i];
        assert(x == start[i as int]) by {
            assert(d@.take(i + 1)[i as int] == start.take(i + 1)[i as int]);
        }
        let t: u8 = r * 10 + x;
        d.set(i, t / 2);
        proof {
            assert(start.skip(i as int).drop_first() =~= start.skip(i + 1));
            assert(d@.skip(i as int).drop_first() =~= before.skip(i + 1));
            assert(d@.take(i as int) =~= start.take(i as int)) by {
                assert forall|j: int| 0 <= j < i implies #[trigger] d@.take(i as int)[j]
                    == start.take(i as int)[j] by {
                    assert(before.take(i + 1)[j] == start.take(i + 1)[j]);
                }
            }
        }
        r = t % 2;
    }
    proof {
        assert(start.skip(0) =~= start);
        assert(d@.skip(0) =~= d@);
    }
    r
}

/// Whether one number is less than another.
pub fn less(a: &Vec<u8>, b: &Vec<u8>) -> (r: bool)
    requires
        digits(a@),
        digits(b@),
    ensures
        r == (val(a@) < val(b@)),
{
    let n: usize = if a.len() > b.len() {
        a.len()
    } else {
        b.len()
    };
    let mut i: usize = 0;
    // the order of the digits seen so far
    let mut below: bool = false;
    let mut same: bool = true;
    assert(a@.take(0) =~= seq![]);
    assert(b@.take(0) =~= seq![]);
    while i < n
        invariant
            i <= n,
            n == if a@.len() > b@.len() {
                a@.len()
            } else {
                b@.len()
            },
            digits(a@),
            digits(b@),
            below == (val(upto(a@, i as int)) < val(upto(b@, i as int))),
            same == (val(upto(a@, i as int)) == val(upto(b@, i as int))),
        decreases n - i,
    {
        let x: u8 = if i < a.len() {
            a[i]
        } else {
            0
        };
        let y: u8 = if i < b.len() {
            b[i]
        } else {
            0
        };
        proof {
            lemma_upto(a@, i as int, x);
            lemma_upto(b@, i as int, y);
            let p = ten(i as nat);
            let u = val(upto(a@, i as int));
            let v = val(upto(b@, i as int));
            if x < y {
                assert(u + p * x < v + p * y) by (nonlinear_arith)
                    requires
                        u < p,
                        x + 1 <= y,
                        v >= 0,
                ;
            } else if x > y {
                assert(u + p * x > v + p * y) by (nonlinear_arith)
                    requires
                        v < p,
                        y + 1 <= x,
                        u >= 0,
                ;
            }
        }
        if x != y {
            below = x < y;
            same = false;
        }
        i = i + 1;
    }
    proof {
        assert(upto(a@, n as int) =~= a@);
        assert(upto(b@, n as int) =~= b@);
    }
    below
}

/// The first `i` digits, or all where there are fewer.
spec fn upto(d: Seq<u8>, i: int) -> Seq<u8> {
    if i < d.len() {
        d.take(i)
    } else {
        d
    }
}

proof fn lemma_upto(d: Seq<u8>, i: int, x: u8)
    requires
        digits(d),
        0 <= i,
        x == if i < d.len() {
            d[i]
        } else {
            0
        },
    ensures
        val(upto(d, i + 1)) == val(upto(d, i)) + ten(i as nat) * x,
        val(upto(d, i)) < ten(i as nat),
        val(upto(d, i + 1)) < ten((i + 1) as nat),
{
    lemma_ten(i as nat);
    lemma_val_bound(upto(d, i));
    lemma_val_bound(upto(d, i + 1));
    if i < d.len() {
        assert(upto(d, i + 1) =~= d.take(i).push(x));
        lemma_val_push(d.take(i), x);
    } else {
        assert(ten(i as nat) * 0 == 0);
        lemma_ten_order(d.len(), i as nat);
        lemma_ten_order(d.len(), (i + 1) as nat);
    }
}

/// Powers of ten grow.
pub proof fn lemma_ten_order(a: nat, b: nat)
    requires
        a <= b,
    ensures
        ten(a) <= ten(b),
{
    lemma_pow_increases(10, a, b);
    lemma_ten(a);
    lemma_ten(b);
}

/// Takes `b` away from `a`.
pub fn take_away(a: &mut Vec<u8>, b: &Vec<u8>)
    requires
        digits(old(a)@),
        digits(b@),
        val(b@) <= val(old(a)@),
    ensures
        digits(final(a)@),
        val(final(a)@) == val(old(a)@) - val(b@),
{
    let ghost start = a@;
    // as many digits as b has
    while a.len() < b.len()
        invariant
            digits(a@),
            val(a@) == val(start),
        decreases b@.len() - a@.len(),
    {
        proof {
            lemma_val_push(a@, 0);
            assert(ten(a@.len()) * 0 == 0);
        }
        a.push(0);
    }
    let ghost wide = a@;
    let n: usize = a.len();
    let mut i: usize = 0;
    let mut borrow: u8 = 0;
    proof {
        lemma_ten(0);
        assert(wide.take(0) =~= seq![]);
    }
    while i < n
        invariant
            i <= n,
            n == wide.len(),
            n >= b@.len(),
            a@.len() == n,
            digits(a@),
            digits(wide),
            digits(b@),
            borrow <= 1,
            forall|j: int| i <= j < n ==> a@[j] == wide[j],
            val(a@.take(i as int)) as int == val(wide.take(i as int)) - val(upto(b@, i as int))
                + borrow * ten(i as nat),
        decreases n - i,
    {
        let ghost before = a@;
        let x: u8 = a[i];
        let y: u8 = if i < b.len() {
            b[i]
        } else {
            0
        };
        let (z, next): (u8, u8) = if x >= y + borrow {
            (x - y - borrow, 0)
        } else {
            (x + 10 - y - borrow, 1)
        };
        a.set(i, z);
        proof {
            let p = ten(i as nat);
            lemma_ten(i as nat);
            assert(a@.take(i + 1) =~= before.take(i as int).push(z));
            lemma_val_push(before.take(i as int), z);
            assert(wide.take(i + 1) =~= wide.take(i as int).push(x));
            lemma_val_push(wide.take(i as int), x);
            lemma_upto(b@, i as int, y);
            assert(p * z == p * x - p * y - p * borrow + next * (10 * p)) by (nonlinear_arith)
                requires
                    z == x - y - borrow + 10 * next,
            ;
            lemma_mul_is_commutative(p as int, borrow as int);
        }
        borrow = next;
        i = i + 1;
    }
    proof {
        assert(a@.take(n as int) =~= a@);
        assert(wide.take(n as int) =~= wide);
        assert(upto(b@, n as int) =~= b@);
        lemma_val_bound(a@);
        assert(borrow == 0) by (nonlinear_arith)
            requires
                val(a@) as int == val(wide) - val(b@) + borrow * ten(n as nat),
                val(a@) < ten(n as nat),
                val(b@) <= val(wide),
                borrow <= 1,
        ;
        assert(0 * ten(n as nat) == 0);
    }
}

} // verus!
