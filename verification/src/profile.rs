//! The volume profile of a session.
//!
//! The 15-minute bars of a session are gathered into buckets of four hours. The
//! volume of a bucket is spread evenly over the price bins that its range
//! covers, and the point of control is the centre of the first bin that no
//! other bin exceeds.

use crate::double::Double;
use crate::json::{put, put_item, Json, JsonView};
use vstd::prelude::*;

verus! {

/// Number of price bins of a profile.
pub const BINS: usize = 48;

/// Length of a bucket in seconds.
pub const BUCKET_SECONDS: i64 = 14_400;

/// The fewest bars that make a profile.
pub const MIN_BARS: usize = 8;

/// The greatest finite number.
pub const GREATEST: u64 = 0x7FEF_FFFF_FFFF_FFFF;

/// The least finite number.
pub const LEAST: u64 = 0xFFEF_FFFF_FFFF_FFFF;

/// A closed 15-minute bar: the second at which it opened, its prices and its volume.
#[derive(Clone, Copy, Debug)]
pub struct Bar {
    pub ts: i64,
    pub o: Double,
    pub h: Double,
    pub l: Double,
    pub c: Double,
    pub v: Double,
}

/// The highest price of some bars.
pub open spec fn highest(bars: Seq<Bar>) -> Double
    decreases bars.len(),
{
    if bars.len() == 0 {
        Double { bits: LEAST }
    } else {
        highest(bars.drop_last()).larger(bars.last().h)
    }
}

/// The lowest price of some bars.
pub open spec fn lowest(bars: Seq<Bar>) -> Double
    decreases bars.len(),
{
    if bars.len() == 0 {
        Double { bits: GREATEST }
    } else {
        lowest(bars.drop_last()).smaller(bars.last().l)
    }
}

/// The volume of some bars, added up in their order.
pub open spec fn volume(bars: Seq<Bar>) -> Double
    decreases bars.len(),
{
    if bars.len() == 0 {
        Double { bits: 0 }
    } else {
        volume(bars.drop_last()).sum(bars.last().v)
    }
}

/// The bucket of a bar in a session that opened at `start`.
pub open spec fn bucket_of(b: Bar, start: i64) -> int {
    if b.ts < start {
        0
    } else {
        (b.ts - start) / 14_400
    }
}

/// The bars of one bucket.
pub open spec fn in_bucket(bars: Seq<Bar>, start: i64, bucket: int) -> Seq<Bar> {
    bars.filter(|b: Bar| bucket_of(b, start) == bucket)
}

/// How many buckets there are up to the last one that holds a bar.
pub open spec fn buckets_used(bars: Seq<Bar>, start: i64) -> nat
    decreases bars.len(),
{
    if bars.len() == 0 {
        0
    } else {
        let rest = buckets_used(bars.drop_last(), start);
        let own = bucket_of(bars.last(), start) + 1;
        if own > rest {
            own as nat
        } else {
            rest
        }
    }
}

/// The bin of the price `x`, held between `least` and the last bin.
pub open spec fn bin_of(x: Double, lo: Double, w: Double, least: int) -> int {
    let raw = x.difference(lo).quotient(w).truncated();
    if raw < least {
        least
    } else if raw > BINS - 1 {
        BINS - 1
    } else {
        raw
    }
}

/// A profile with the volume of one bucket spread over the bins it covers.
pub open spec fn spread(
    prof: Seq<Double>,
    bucket: Seq<Bar>,
    hi: Double,
    lo: Double,
    w: Double,
) -> Seq<Double> {
    if bucket.len() == 0 {
        prof
    } else {
        let a = bin_of(lowest(bucket), lo, w, 0);
        let z = bin_of(highest(bucket).smaller(hi), lo, w, a);
        let share = volume(bucket).quotient(Double::whole(z - a + 1));
        Seq::new(
            prof.len(),
            |k: int|
                if a <= k <= z {
                    prof[k].sum(share)
                } else {
                    prof[k]
                },
        )
    }
}

/// The profile of the first `n` buckets.
pub open spec fn filled(
    bars: Seq<Bar>,
    start: i64,
    hi: Double,
    lo: Double,
    w: Double,
    n: nat,
) -> Seq<Double>
    decreases n,
{
    if n == 0 {
        Seq::new(BINS as nat, |k: int| Double { bits: 0 })
    } else {
        spread(
            filled(bars, start, hi, lo, w, (n - 1) as nat),
            in_bucket(bars, start, n - 1),
            hi,
            lo,
            w,
        )
    }
}

/// The first of the first `n` bins that none of them exceeds.
pub open spec fn peak(prof: Seq<Double>, n: nat) -> nat
    decreases n,
{
    if n <= 1 {
        0
    } else {
        let p = peak(prof, (n - 1) as nat);
        if prof[p as int].below(prof[n - 1]) {
            (n - 1) as nat
        } else {
            p
        }
    }
}

/// What a profile says.
pub struct ProfileView {
    pub hi: Double,
    pub lo: Double,
    pub w: Double,
    pub prof: Seq<Double>,
    pub poc: Double,
    pub start: i64,
}

/// The volume profile of the bars of a session that opened at `start`: none
/// where there are too few of them, or where they have no price range.
pub open spec fn profile_of(bars: Seq<Bar>, start: i64) -> Option<ProfileView> {
    let hi = highest(bars);
    let lo = lowest(bars);
    if bars.len() < MIN_BARS || hi.at_most(lo) {
        None
    } else {
        let w = hi.difference(lo).quotient(Double::whole(BINS as int));
        let prof = filled(bars, start, hi, lo, w, buckets_used(bars, start));
        let centre = Double::whole(peak(prof, BINS as nat) as int).sum(Double::ratio(1, 2));
        Some(ProfileView { hi, lo, w, prof, poc: lo.sum(centre.product(w)), start })
    }
}

/// The volume profile of a session.
#[derive(Debug)]
pub struct Profile {
    pub hi: Double,
    pub lo: Double,
    pub w: Double,
    pub prof: Vec<Double>,
    pub poc: Double,
    pub start: i64,
}

impl View for Profile {
    type V = ProfileView;

    open spec fn view(&self) -> ProfileView {
        ProfileView {
            hi: self.hi,
            lo: self.lo,
            w: self.w,
            prof: self.prof@,
            poc: self.poc,
            start: self.start,
        }
    }
}

/// The peak bin of a profile without NaN: no bin holds more, and those before
/// it hold less.
pub proof fn law_first_peak(prof: Seq<Double>, n: nat)
    requires
        0 < n <= prof.len(),
        forall|k: int| 0 <= k < n ==> !(#[trigger] prof[k]).nan(),
    ensures
        peak(prof, n) < n,
        forall|k: int|
            0 <= k < n ==> (#[trigger] prof[k]).at_most(prof[peak(prof, n) as int]),
        forall|k: int|
            0 <= k < peak(prof, n) ==> (#[trigger] prof[k]).below(prof[peak(prof, n) as int]),
    decreases n,
{
    if n > 1 {
        law_first_peak(prof, (n - 1) as nat);
    }
}

proof fn lemma_filter_step(bars: Seq<Bar>, start: i64, bucket: int, i: int)
    requires
        0 <= i < bars.len(),
    ensures
        in_bucket(bars.take(i + 1), start, bucket) == if bucket_of(bars[i], start) == bucket {
            in_bucket(bars.take(i), start, bucket).push(bars[i])
        } else {
            in_bucket(bars.take(i), start, bucket)
        },
{
    reveal(Seq::filter);
    assert(bars.take(i + 1).drop_last() =~= bars.take(i));
}

proof fn lemma_empty_bucket(bars: Seq<Bar>, start: i64, bucket: int)
    requires
        forall|i: int| 0 <= i < bars.len() ==> bucket_of(#[trigger] bars[i], start) != bucket,
    ensures
        in_bucket(bars, start, bucket).len() == 0,
    decreases bars.len(),
{
    reveal(Seq::filter);
    if bars.len() > 0 {
        lemma_empty_bucket(bars.drop_last(), start, bucket);
        assert(bucket_of(bars[bars.len() - 1], start) != bucket);
    }
}

/// Buckets without bars leave the profile as it is.
proof fn lemma_skip(
    bars: Seq<Bar>,
    start: i64,
    hi: Double,
    lo: Double,
    w: Double,
    from: nat,
    to: nat,
)
    requires
        from <= to,
        forall|i: int|
            0 <= i < bars.len() ==> !(from <= bucket_of(#[trigger] bars[i], start) < to),
    ensures
        filled(bars, start, hi, lo, w, to) == filled(bars, start, hi, lo, w, from),
    decreases to - from,
{
    if from < to {
        lemma_skip(bars, start, hi, lo, w, from, (to - 1) as nat);
        lemma_empty_bucket(bars, start, to - 1);
    }
}

pub proof fn lemma_buckets_used(bars: Seq<Bar>, start: i64)
    ensures
        forall|i: int|
            0 <= i < bars.len() ==> 0 <= bucket_of(#[trigger] bars[i], start) < buckets_used(
                bars,
                start,
            ),
        bars.len() > 0 ==> exists|i: int|
            0 <= i < bars.len() && bucket_of(#[trigger] bars[i], start) + 1 == buckets_used(
                bars,
                start,
            ),
    decreases bars.len(),
{
    if bars.len() > 0 {
        let rest = bars.drop_last();
        lemma_buckets_used(rest, start);
        assert forall|i: int| 0 <= i < bars.len() implies 0 <= bucket_of(#[trigger] bars[i], start)
            < buckets_used(bars, start) by {
            if i < bars.len() - 1 {
                assert(bars[i] == rest[i]);
            }
        }
        if bucket_of(bars.last(), start) + 1 > buckets_used(rest, start) {
            assert(bucket_of(bars[bars.len() - 1], start) + 1 == buckets_used(bars, start));
        } else {
            let j = choose|j: int|
                0 <= j < rest.len() && bucket_of(#[trigger] rest[j], start) + 1 == buckets_used(
                    rest,
                    start,
                );
            assert(bars[j] == rest[j]);
        }
    }
}

fn bucket(b: &Bar, start: i64) -> (r: i128)
    ensures
        r == bucket_of(*b, start),
        0 <= r <= 0xFFFF_FFFF_FFFF_FFFF,
{
    if b.ts < start {
        0
    } else {
        (b.ts as i128 - start as i128) / 14_400
    }
}

/// The first bucket from `from` on that holds a bar.
fn next_bucket(session: &[Bar], start: i64, from: i128) -> (r: Option<i128>)
    ensures
        match r {
            Some(n) => {
                &&& from <= n <= 0xFFFF_FFFF_FFFF_FFFF
                &&& exists|i: int|
                    0 <= i < session@.len() && bucket_of(#[trigger] session@[i], start) == n
                &&& forall|i: int|
                    0 <= i < session@.len() ==> !(from <= bucket_of(#[trigger] session@[i], start)
                        < n)
            },
            None => forall|i: int|
                0 <= i < session@.len() ==> bucket_of(#[trigger] session@[i], start) < from,
        },
{
    let mut best: Option<i128> = None;
    let mut i: usize = 0;
    while i < session.len()
        invariant
            i <= session@.len(),
            match best {
                Some(n) => {
                    &&& from <= n <= 0xFFFF_FFFF_FFFF_FFFF
                    &&& exists|j: int|
                        0 <= j < session@.len() && bucket_of(#[trigger] session@[j], start) == n
                    &&& forall|j: int|
                        0 <= j < i ==> !(from <= bucket_of(#[trigger] session@[j], start) < n)
                },
                None => forall|j: int|
                    0 <= j < i ==> bucket_of(#[trigger] session@[j], start) < from,
            },
        decreases session@.len() - i,
    {
        let n: i128 = bucket(&session[i], start);
        assert(bucket_of(session@[i as int], start) == n);
        if n >= from {
            match best {
                Some(m) => {
                    if n < m {
                        best = Some(n);
                    }
                },
                None => {
                    best = Some(n);
                },
            }
        }
        i = i + 1;
    }
    best
}

fn bin(x: Double, lo: Double, w: Double, least: usize) -> (r: usize)
    requires
        least < BINS,
    ensures
        r == bin_of(x, lo, w, least as int),
        least <= r < BINS,
{
    let raw: i64 = x.minus(lo).over(w).to_i64();
    if raw < least as i64 {
        least
    } else if raw > BINS as i64 - 1 {
        BINS - 1
    } else {
        raw as usize
    }
}

/// Spreads the volume of one bucket over the bins it covers.
fn spread_bucket(
    prof: &mut Vec<Double>,
    session: &[Bar],
    start: i64,
    which: i128,
    hi: Double,
    lo: Double,
    w: Double,
)
    requires
        old(prof)@.len() == BINS,
        in_bucket(session@, start, which as int).len() > 0,
    ensures
        final(prof)@ == spread(old(prof)@, in_bucket(session@, start, which as int), hi, lo, w),
        final(prof)@.len() == BINS,
{
    let mut vh: Double = Double { bits: LEAST };
    let mut vl: Double = Double { bits: GREATEST };
    let mut vv: Double = Double { bits: 0 };
    let mut i: usize = 0;
    proof {
        reveal(Seq::filter);
        assert(session@.take(0) =~= seq![]);
    }
    while i < session.len()
        invariant
            i <= session@.len(),
            vh == highest(in_bucket(session@.take(i as int), start, which as int)),
            vl == lowest(in_bucket(session@.take(i as int), start, which as int)),
            vv == volume(in_bucket(session@.take(i as int), start, which as int)),
        decreases session@.len() - i,
    {
        proof {
            lemma_filter_step(session@, start, which as int, i as int);
            let part = in_bucket(session@.take(i as int), start, which as int);
            assert(part.push(session@[i as int]).drop_last() =~= part);
        }
        let b: Bar = session[i];
        if bucket(&b, start) == which {
            vh = vh.max(b.h);
            vl = vl.min(b.l);
            vv = vv.plus(b.v);
        }
        i = i + 1;
    }
    assert(session@.take(i as int) =~= session@);
    let a: usize = bin(vl, lo, w, 0);
    let z: usize = bin(vh.min(hi), lo, w, a);
    let share: Double = vv.over(Double::from_u64((z - a + 1) as u64));
    let mut k: usize = a;
    while k <= z
        invariant
            a <= k <= z + 1,
            z < BINS,
            prof@.len() == BINS,
            forall|j: int|
                0 <= j < BINS ==> #[trigger] prof@[j] == if a <= j < k {
                    old(prof)@[j].sum(share)
                } else {
                    old(prof)@[j]
                },
        decreases z + 1 - k,
    {
        let x: Double = prof[k].plus(share);
        prof[k] = x;
        k = k + 1;
    }
    assert(prof@ =~= spread(old(prof)@, in_bucket(session@, start, which as int), hi, lo, w));
}

proof fn lemma_bucket_member(bars: Seq<Bar>, start: i64, bucket: int, i: int)
    requires
        0 <= i < bars.len(),
        bucket_of(bars[i], start) == bucket,
    ensures
        in_bucket(bars, start, bucket).len() > 0,
    decreases bars.len(),
{
    reveal(Seq::filter);
    if i < bars.len() - 1 {
        lemma_bucket_member(bars.drop_last(), start, bucket, i);
    }
}

/// The volume profile of the bars of a session that opened at `start_ts`.
pub fn compute_poc(session: &[Bar], start_ts: i64) -> (r: Option<Profile>)
    ensures
        match r {
            Some(p) => profile_of(session@, start_ts) == Some(p@),
            None => profile_of(session@, start_ts) is None,
        },
{
    if session.len() < MIN_BARS {
        return None;
    }
    let mut hi: Double = Double { bits: LEAST };
    let mut lo: Double = Double { bits: GREATEST };
    let mut i: usize = 0;
    while i < session.len()
        invariant
            i <= session@.len(),
            hi == highest(session@.take(i as int)),
            lo == lowest(session@.take(i as int)),
        decreases session@.len() - i,
    {
        assert(session@.take(i + 1).drop_last() =~= session@.take(i as int));
        hi = hi.max(session[i].h);
        lo = lo.min(session[i].l);
        i = i + 1;
    }
    assert(session@.take(i as int) =~= session@);
    if hi.le(lo) {
        return None;
    }
    let w: Double = hi.minus(lo).over(Double::from_u64(BINS as u64));
    let mut prof: Vec<Double> = Vec::new();
    let mut k: usize = 0;
    while k < BINS
        invariant
            k <= BINS,
            prof@ == Seq::new(k as nat, |k: int| Double { bits: 0 }),
        decreases BINS - k,
    {
        prof.push(Double { bits: 0 });
        k = k + 1;
        assert(prof@ =~= Seq::new(k as nat, |k: int| Double { bits: 0 }));
    }
    let mut done: i128 = 0;
    let mut more: bool = true;
    while more
        invariant
            0 <= done <= 0x1_0000_0000_0000_0000,
            prof@ == filled(session@, start_ts, hi, lo, w, done as nat),
            prof@.len() == BINS,
            !more ==> forall|j: int|
                0 <= j < session@.len() ==> bucket_of(#[trigger] session@[j], start_ts) < done,
        decreases 0x1_0000_0000_0000_0000 - done, more as int,
    {
        match next_bucket(session, start_ts, done) {
            Some(n) => {
                proof {
                    lemma_skip(session@, start_ts, hi, lo, w, done as nat, n as nat);
                    let j = choose|j: int|
                        0 <= j < session@.len() && bucket_of(#[trigger] session@[j], start_ts) == n;
                    lemma_bucket_member(session@, start_ts, n as int, j);
                }
                spread_bucket(&mut prof, session, start_ts, n, hi, lo, w);
                done = n + 1;
            },
            None => {
                more = false;
            },
        }
    }
    proof {
        lemma_buckets_used(session@, start_ts);
        let used = buckets_used(session@, start_ts);
        let j = choose|j: int|
            0 <= j < session@.len() && bucket_of(#[trigger] session@[j], start_ts) + 1 == used;
        assert(used <= done);
        lemma_skip(session@, start_ts, hi, lo, w, used, done as nat);
    }
    let mut top: usize = 0;
    let mut n: usize = 1;
    while n < BINS
        invariant
            1 <= n <= BINS,
            prof@.len() == BINS,
            top < n,
            top == peak(prof@, n as nat),
        decreases BINS - n,
    {
        if prof[top].lt(prof[n]) {
            top = n;
        }
        n = n + 1;
    }
    let centre: Double = Double::from_u64(top as u64).plus(Double::from_ratio(1, 2));
    let poc: Double = lo.plus(centre.times(w));
    Some(Profile { hi, lo, w, prof, poc, start: start_ts })
}

/// Numbers as JSON items.
pub open spec fn number_items(xs: Seq<Double>) -> Seq<JsonView> {
    xs.map_values(|x: Double| JsonView::Number(x))
}

impl ProfileView {
    /// The profile as the dashboard reads it.
    pub open spec fn json(self) -> JsonView {
        JsonView::Object(self.fields())
    }

    /// The members of the profile's object.
    pub open spec fn fields(self) -> Seq<(Seq<char>, JsonView)> {
        seq![
            ("hi"@, JsonView::Number(self.hi)),
            ("lo"@, JsonView::Number(self.lo)),
            ("w"@, JsonView::Number(self.w)),
            ("prof"@, JsonView::List(number_items(self.prof))),
            ("poc"@, JsonView::Number(self.poc)),
            ("start"@, JsonView::Whole(self.start as int)),
        ]
    }
}

impl Profile {
    /// The profile as the dashboard reads it.
    pub fn to_json(&self) -> (r: Json)
        ensures
            r@ == self@.json(),
    {
        let mut bins: Vec<Json> = Vec::new();
        let mut i: usize = 0;
        while i < self.prof.len()
            invariant
                i <= self.prof@.len(),
                crate::json::items_view(bins@) == number_items(self.prof@.take(i as int)),
            decreases self.prof@.len() - i,
        {
            put_item(&mut bins, Json::Number(self.prof[i]));
            i = i + 1;
            assert(number_items(self.prof@.take(i as int)) =~= number_items(
                self.prof@.take(i - 1),
            ).push(JsonView::Number(self.prof@[i - 1])));
        }
        assert(self.prof@.take(i as int) =~= self.prof@);
        let mut f: Vec<(String, Json)> = Vec::new();
        put(&mut f, "hi", Json::Number(self.hi));
        put(&mut f, "lo", Json::Number(self.lo));
        put(&mut f, "w", Json::Number(self.w));
        put(&mut f, "prof", Json::List(bins));
        put(&mut f, "poc", Json::Number(self.poc));
        put(&mut f, "start", Json::Int(self.start));
        assert(crate::json::fields_view(f@) =~= self@.fields());
        Json::Object(f)
    }
}

impl Bar {
    /// The bar as JSON says it.
    pub open spec fn json(self) -> JsonView {
        JsonView::Object(self.fields())
    }

    /// The members of the bar's object.
    pub open spec fn fields(self) -> Seq<(Seq<char>, JsonView)> {
        seq![
            ("ts"@, JsonView::Whole(self.ts as int)),
            ("o"@, JsonView::Number(self.o)),
            ("h"@, JsonView::Number(self.h)),
            ("l"@, JsonView::Number(self.l)),
            ("c"@, JsonView::Number(self.c)),
            ("v"@, JsonView::Number(self.v)),
        ]
    }

    /// The bar as the dashboard reads it.
    pub fn to_json(&self) -> (r: Json)
        ensures
            r@ == self.json(),
    {
        let mut f: Vec<(String, Json)> = Vec::new();
        put(&mut f, "ts", Json::Int(self.ts));
        put(&mut f, "o", Json::Number(self.o));
        put(&mut f, "h", Json::Number(self.h));
        put(&mut f, "l", Json::Number(self.l));
        put(&mut f, "c", Json::Number(self.c));
        put(&mut f, "v", Json::Number(self.v));
        assert(crate::json::fields_view(f@) =~= self.fields());
        Json::Object(f)
    }
}

/// Bars as JSON items.
pub open spec fn bar_items(bars: Seq<Bar>) -> Seq<JsonView> {
    bars.map_values(|b: Bar| b.json())
}

/// Some bars as the dashboard reads them.
pub fn bars_json(bars: &[Bar]) -> (r: Json)
    ensures
        r@ == JsonView::List(bar_items(bars@)),
{
    let mut items: Vec<Json> = Vec::new();
    let mut i: usize = 0;
    while i < bars.len()
        invariant
            i <= bars@.len(),
            crate::json::items_view(items@) == bar_items(bars@.take(i as int)),
        decreases bars@.len() - i,
    {
        put_item(&mut items, bars[i].to_json());
        i = i + 1;
        assert(bar_items(bars@.take(i as int)) =~= bar_items(bars@.take(i - 1)).push(
            bars@[i - 1].json(),
        ));
    }
    assert(bars@.take(i as int) =~= bars@);
    Json::List(items)
}

/// Where a bar belongs among ordered ones: behind all that are not later.
pub open spec fn bar_place(s: Seq<Bar>, b: Bar, i: nat) -> nat
    decreases i,
{
    if i > 0 && b.ts < s[i - 1].ts {
        bar_place(s, b, (i - 1) as nat)
    } else {
        i
    }
}

/// The bars in the order of their times; those of one time stay in place.
pub open spec fn in_time_order(s: Seq<Bar>) -> Seq<Bar>
    decreases s.len(),
{
    if s.len() == 0 {
        seq![]
    } else {
        let before = in_time_order(s.drop_last());
        before.insert(bar_place(before, s.last(), before.len()) as int, s.last())
    }
}

/// Puts a bar among ordered ones.
pub fn insert_bar(s: &mut Vec<Bar>, b: Bar)
    ensures
        final(s)@ == old(s)@.insert(bar_place(old(s)@, b, old(s)@.len()) as int, b),
{
    let mut i: usize = s.len();
    while i > 0 && b.ts < s[i - 1].ts
        invariant
            i <= s@.len(),
            s@ == old(s)@,
            bar_place(s@, b, s@.len()) == bar_place(s@, b, i as nat),
        decreases i,
    {
        i = i - 1;
    }
    s.insert(i, b);
}

proof fn lemma_bar_place(s: Seq<Bar>, b: Bar, n: nat)
    requires
        n <= s.len(),
        forall|i: int, j: int|
            0 <= i <= j < s.len() ==> (#[trigger] s[i]).ts <= (#[trigger] s[j]).ts,
        forall|i: int| n <= i < s.len() ==> b.ts < (#[trigger] s[i]).ts,
    ensures
        bar_place(s, b, n) <= n,
        forall|i: int| 0 <= i < bar_place(s, b, n) ==> (#[trigger] s[i]).ts <= b.ts,
        forall|i: int| bar_place(s, b, n) <= i < s.len() ==> b.ts < (#[trigger] s[i]).ts,
    decreases n,
{
    if n > 0 && b.ts < s[n - 1].ts {
        lemma_bar_place(s, b, (n - 1) as nat);
    }
}

/// Ordered bars are the same bars in the order of their times.
pub proof fn law_time_order(s: Seq<Bar>)
    ensures
        in_time_order(s).len() == s.len(),
        in_time_order(s).to_multiset() == s.to_multiset(),
        forall|i: int, j: int|
            0 <= i <= j < s.len() ==> (#[trigger] in_time_order(s)[i]).ts <= (
            #[trigger] in_time_order(s)[j]).ts,
    decreases s.len(),
{
    broadcast use vstd::seq_lib::group_to_multiset_ensures;

    let o = in_time_order(s);
    if s.len() > 0 {
        let t = s.drop_last();
        let b = s.last();
        law_time_order(t);
        let before = in_time_order(t);
        let k = bar_place(before, b, before.len());
        lemma_bar_place(before, b, before.len());
        assert(s =~= t.push(b));
        vstd::seq_lib::to_multiset_insert(before, k as int, b);
        assert forall|i: int, j: int| 0 <= i <= j < o.len() implies (#[trigger] o[i]).ts <= (
        #[trigger] o[j]).ts by {
            let x = if i < k {
                before[i]
            } else if i == k {
                b
            } else {
                before[i - 1]
            };
            let y = if j < k {
                before[j]
            } else if j == k {
                b
            } else {
                before[j - 1]
            };
            assert(o[i] == x && o[j] == y);
            if i < k && j > k {
                assert(before[i].ts <= before[j - 1].ts);
            }
        }
    } else {
        assert(o =~= s);
    }
}

} // verus!
