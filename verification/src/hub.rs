//! The hub: who listens, and the newest of everything that was published.

use crate::clock::now_ts_f64;
use crate::double::Double;
use crate::json::{put, text, Json, JsonView};
use crate::text::same;
use vstd::prelude::*;
use vstd::string::*;

verus! {

/// Messages that may wait for a listener to the event stream.
pub const SSE_QUEUE: usize = 200;

/// Messages that may wait for a WebSocket client.
pub const WS_QUEUE: usize = 400;

/// What a WebSocket client is sent.
#[derive(Debug)]
pub enum FrameOut {
    Text(String),
    Ping,
    Pong(Vec<u8>),
    Close(Vec<u8>),
}

/// The hub's books.
pub struct Hub {
    pub next_id: u64,
    /// Listeners to the event stream.
    pub sse: Vec<u64>,
    /// WebSocket clients.
    pub ws: Vec<u64>,
    /// The newest data of each kind.
    pub snapshot: Vec<(String, Json)>,
    /// The newest state as it was written, so that it is not written anew for
    /// every request.
    pub state: Option<String>,
}

/// What the hub's books say.
pub struct HubView {
    pub next_id: int,
    pub sse: Seq<u64>,
    pub ws: Seq<u64>,
    pub snapshot: Seq<(Seq<char>, JsonView)>,
    pub state: Option<Seq<char>>,
}

impl View for Hub {
    type V = HubView;

    open spec fn view(&self) -> HubView {
        HubView {
            next_id: self.next_id as int,
            sse: self.sse@,
            ws: self.ws@,
            snapshot: crate::json::fields_view(self.snapshot@),
            state: match self.state {
                Some(s) => Some(s@),
                None => None,
            },
        }
    }
}

/// The list without an entry.
pub open spec fn without(s: Seq<u64>, id: u64) -> Seq<u64>
    decreases s.len(),
{
    if s.len() == 0 {
        seq![]
    } else if s.last() == id {
        without(s.drop_last(), id)
    } else {
        without(s.drop_last(), id).push(s.last())
    }
}

/// The list without some entries.
pub open spec fn without_all(s: Seq<u64>, dead: Seq<u64>) -> Seq<u64>
    decreases s.len(),
{
    if s.len() == 0 {
        seq![]
    } else if dead.contains(s.last()) {
        without_all(s.drop_last(), dead)
    } else {
        without_all(s.drop_last(), dead).push(s.last())
    }
}

/// The fields with the value of one set: in its place where it is there, or else
/// behind the others.
pub open spec fn with_field(
    fields: Seq<(Seq<char>, JsonView)>,
    name: Seq<char>,
    value: JsonView,
) -> Seq<(Seq<char>, JsonView)>
    decreases fields.len(),
{
    if fields.len() == 0 {
        seq![(name, value)]
    } else if fields.last().0 == name {
        fields.drop_last().push((name, value))
    } else {
        with_field(fields.drop_last(), name, value).push(fields.last())
    }
}

/// A message: its kind, its time and its data.
pub open spec fn envelope(kind: Seq<char>, ts: Double, data: JsonView) -> Seq<
    (Seq<char>, JsonView),
> {
    seq![
        ("type"@, JsonView::Text(kind)),
        ("ts"@, JsonView::Number(ts)),
        ("data"@, data),
    ]
}

impl HubView {
    /// The books before anyone listens.
    pub open spec fn fresh() -> HubView {
        HubView { next_id: 0, sse: seq![], ws: seq![], snapshot: seq![], state: None }
    }

    /// Numbers are handed out one after the other, and no two listeners have
    /// the same one.
    pub open spec fn wf(self) -> bool {
        &&& 0 <= self.next_id
        &&& (self.sse + self.ws).no_duplicates()
        &&& forall|i: int| 0 <= i < self.sse.len() ==> 0 < #[trigger] self.sse[i] <= self.next_id
        &&& forall|i: int| 0 <= i < self.ws.len() ==> 0 < #[trigger] self.ws[i] <= self.next_id
    }

    /// The books with one more listener to the event stream.
    pub open spec fn with_sse(self) -> HubView {
        HubView {
            next_id: self.next_id + 1,
            sse: self.sse.push((self.next_id + 1) as u64),
            ..self
        }
    }

    /// The books with one more WebSocket client.
    pub open spec fn with_ws(self) -> HubView {
        HubView { next_id: self.next_id + 1, ws: self.ws.push((self.next_id + 1) as u64), ..self }
    }

    /// The books without a listener.
    pub open spec fn left_by(self, id: u64) -> HubView {
        HubView { sse: without(self.sse, id), ws: without(self.ws, id), ..self }
    }

    /// The books without some listeners.
    pub open spec fn pruned(self, dead: Seq<u64>) -> HubView {
        HubView { sse: without_all(self.sse, dead), ws: without_all(self.ws, dead), ..self }
    }

    /// The books with data of a kind published.
    pub open spec fn published(self, kind: Seq<char>, data: JsonView) -> HubView {
        HubView { snapshot: with_field(self.snapshot, kind, data), ..self }
    }

    /// The books with data of a kind written down: only the state is kept so.
    pub open spec fn written(self, kind: Seq<char>, text: Seq<char>) -> HubView {
        if kind == "state"@ {
            HubView { state: Some(text), ..self }
        } else {
            self
        }
    }

    /// The newest data of a kind.
    pub open spec fn newest(self, kind: Seq<char>) -> Option<JsonView> {
        crate::json::find_field(self.snapshot, kind)
    }
}

/// Takes an entry off a list.
fn drop_id(s: &Vec<u64>, id: u64) -> (r: Vec<u64>)
    ensures
        r@ == without(s@, id),
{
    let mut out: Vec<u64> = Vec::new();
    let mut i: usize = 0;
    assert(s@.take(0) =~= seq![]);
    while i < s.len()
        invariant
            i <= s@.len(),
            out@ == without(s@.take(i as int), id),
        decreases s@.len() - i,
    {
        proof {
            assert(s@.take(i + 1).drop_last() =~= s@.take(i as int));
        }
        if s[i] != id {
            out.push(s[i]);
        }
        i = i + 1;
    }
    assert(s@.take(i as int) =~= s@);
    out
}

fn is_among(s: &Vec<u64>, id: u64) -> (r: bool)
    ensures
        r == s@.contains(id),
{
    let mut i: usize = 0;
    while i < s.len()
        invariant
            i <= s@.len(),
            forall|k: int| 0 <= k < i ==> s@[k] != id,
        decreases s@.len() - i,
    {
        if s[i] == id {
            assert(s@[i as int] == id);
            return true;
        }
        i = i + 1;
    }
    false
}

/// Takes some entries off a list.
fn drop_ids(s: &Vec<u64>, dead: &Vec<u64>) -> (r: Vec<u64>)
    ensures
        r@ == without_all(s@, dead@),
{
    let mut out: Vec<u64> = Vec::new();
    let mut i: usize = 0;
    assert(s@.take(0) =~= seq![]);
    while i < s.len()
        invariant
            i <= s@.len(),
            out@ == without_all(s@.take(i as int), dead@),
        decreases s@.len() - i,
    {
        proof {
            assert(s@.take(i + 1).drop_last() =~= s@.take(i as int));
        }
        if !is_among(dead, s[i]) {
            out.push(s[i]);
        }
        i = i + 1;
    }
    assert(s@.take(i as int) =~= s@);
    out
}

/// Sets the value of a field.
fn set_field(fields: &mut Vec<(String, Json)>, name: &str, value: Json)
    ensures
        crate::json::fields_view(final(fields)@) == with_field(
            crate::json::fields_view(old(fields)@),
            name@,
            value@,
        ),
    decreases old(fields)@.len(),
{
    match fields.pop() {
        None => {
            put(fields, name, value);
            assert(crate::json::fields_view(fields@) =~= seq![(name@, value@)]);
        },
        Some(last) => {
            let ghost before = crate::json::fields_view(old(fields)@);
            assert(before.drop_last() =~= crate::json::fields_view(fields@));
            if same(last.0.as_str(), name) {
                put(fields, name, value);
            } else {
                set_field(fields, name, value);
                let ghost rest = fields@;
                fields.push(last);
                assert(fields@.drop_last() =~= rest);
            }
        },
    }
}

/// A message: its kind, its time and its data.
fn envelope_of(kind: &str, ts: Double, data: Json) -> (r: Json)
    ensures
        r@ == JsonView::Object(envelope(kind@, ts, data@)),
{
    let mut f: Vec<(String, Json)> = Vec::new();
    put(&mut f, "type", text(kind));
    put(&mut f, "ts", Json::Number(ts));
    put(&mut f, "data", data);
    assert(crate::json::fields_view(f@) =~= envelope(kind@, ts, data@));
    Json::Object(f)
}

impl Hub {
    /// A hub that nobody listens to yet.
    pub fn new() -> (r: Hub)
        ensures
            r@ == HubView::fresh(),
            r@.wf(),
    {
        let r = Hub {
            next_id: 0,
            sse: Vec::new(),
            ws: Vec::new(),
            snapshot: Vec::new(),
            state: None,
        };
        assert(r@.sse =~= seq![]);
        assert(r@.ws =~= seq![]);
        r
    }

    /// Publishes data of a kind now: keeps it as the newest of its kind and
    /// gives the message for the listeners.
    pub fn publish(&mut self, kind: &str, data: Json) -> (r: Json)
        ensures
            exists|ts: Double| r@ == JsonView::Object(envelope(kind@, ts, data@)),
            final(self)@ == old(self)@.published(kind@, data@),
    {
        let ts: Double = now_ts_f64();
        let r: Json = self.publish_at(kind, data, ts);
        assert(r@ == JsonView::Object(envelope(kind@, ts, data@)));
        r
    }

    /// Publishes data of a kind at the time `ts`.
    pub fn publish_at(&mut self, kind: &str, data: Json, ts: Double) -> (r: Json)
        ensures
            r@ == JsonView::Object(envelope(kind@, ts, data@)),
            final(self)@ == old(self)@.published(kind@, data@),
    {
        let kept: Json = data.copy();
        set_field(&mut self.snapshot, kind, kept);
        envelope_of(kind, ts, data)
    }

    /// Keeps how data of a kind was written, where it is the state.
    pub fn keep_text(&mut self, kind: &str, written: String)
        ensures
            final(self)@ == old(self)@.written(kind@, written@),
    {
        if same(kind, "state") {
            self.state = Some(written);
        }
    }

    /// The newest state as it was written.
    pub fn state_str(&self) -> (r: Option<String>)
        ensures
            match self@.state {
                Some(s) => r matches Some(x) && x@ == s,
                None => r is None,
            },
    {
        match &self.state {
            Some(s) => Some(s.as_str().to_owned()),
            None => None,
        }
    }

    /// Takes the listeners off the books that could not be reached.
    pub fn prune(&mut self, dead: &Vec<u64>)
        ensures
            final(self)@ == old(self)@.pruned(dead@),
    {
        let sse: Vec<u64> = drop_ids(&self.sse, dead);
        let ws: Vec<u64> = drop_ids(&self.ws, dead);
        self.sse = sse;
        self.ws = ws;
    }

    /// A new listener to the event stream, by its number.
    pub fn subscribe_sse(&mut self) -> (r: u64)
        requires
            old(self).next_id < u64::MAX,
        ensures
            final(self)@ == old(self)@.with_sse(),
            r == old(self)@.next_id + 1,
    {
        self.next_id = self.next_id + 1;
        self.sse.push(self.next_id);
        self.next_id
    }

    /// A new WebSocket client, by its number.
    pub fn subscribe_ws(&mut self) -> (r: u64)
        requires
            old(self).next_id < u64::MAX,
        ensures
            final(self)@ == old(self)@.with_ws(),
            r == old(self)@.next_id + 1,
    {
        self.next_id = self.next_id + 1;
        self.ws.push(self.next_id);
        self.next_id
    }

    /// Takes a listener off the books.
    pub fn unsubscribe(&mut self, id: u64)
        ensures
            final(self)@ == old(self)@.left_by(id),
    {
        let sse: Vec<u64> = drop_id(&self.sse, id);
        let ws: Vec<u64> = drop_id(&self.ws, id);
        self.sse = sse;
        self.ws = ws;
    }

    /// The newest data of a kind.
    pub fn newest(&self, kind: &str) -> (r: Option<Json>)
        ensures
            match self@.newest(kind@) {
                Some(v) => r matches Some(x) && x@ == v,
                None => r is None,
            },
    {
        let mut i: usize = self.snapshot.len();
        let ghost all = self@.snapshot;
        proof {
            crate::json::lemma_fields_view(self.snapshot@);
            assert(all.take(all.len() as int) =~= all);
        }
        while i > 0
            invariant
                i <= self.snapshot@.len(),
                all == self@.snapshot,
                all.len() == self.snapshot@.len(),
                forall|k: int|
                    0 <= k < all.len() ==> #[trigger] all[k] == (
                        self.snapshot@[k].0@,
                        self.snapshot@[k].1@,
                    ),
                self@.newest(kind@) == crate::json::find_field(all.take(i as int), kind@),
            decreases i,
        {
            i = i - 1;
            proof {
                assert(all.take(i + 1).last() == all[i as int]);
                assert(all.take(i + 1).drop_last() =~= all.take(i as int));
            }
            if same(self.snapshot[i].0.as_str(), kind) {
                return Some(self.snapshot[i].1.copy());
            }
        }
        None
    }

    /// The newest data of every kind.
    pub fn snapshot_json(&self) -> (r: Json)
        ensures
            r@ == JsonView::Object(self@.snapshot),
    {
        let mut f: Vec<(String, Json)> = Vec::new();
        let mut i: usize = 0;
        let ghost all = self@.snapshot;
        proof {
            crate::json::lemma_fields_view(self.snapshot@);
            assert(all.take(0) =~= seq![]);
        }
        while i < self.snapshot.len()
            invariant
                i <= self.snapshot@.len(),
                all == self@.snapshot,
                all.len() == self.snapshot@.len(),
                forall|k: int|
                    0 <= k < all.len() ==> #[trigger] all[k] == (
                        self.snapshot@[k].0@,
                        self.snapshot@[k].1@,
                    ),
                crate::json::fields_view(f@) == all.take(i as int),
            decreases self.snapshot@.len() - i,
        {
            put(&mut f, self.snapshot[i].0.as_str(), self.snapshot[i].1.copy());
            assert(all.take(i + 1) =~= all.take(i as int).push(all[i as int]));
            i = i + 1;
        }
        assert(all.take(i as int) =~= all);
        Json::Object(f)
    }
}

// ---------------------------------------------------------------------------
// Laws
// ---------------------------------------------------------------------------

proof fn lemma_without_all(s: Seq<u64>, dead: Seq<u64>)
    ensures
        forall|x: u64|
            #[trigger] without_all(s, dead).contains(x) <==> s.contains(x) && !dead.contains(x),
        s.no_duplicates() ==> without_all(s, dead).no_duplicates(),
    decreases s.len(),
{
    if s.len() > 0 {
        let t = s.drop_last();
        lemma_without_all(t, dead);
        let w = without_all(t, dead);
        let all = without_all(s, dead);
        assert(s =~= t.push(s.last()));
        if s.no_duplicates() {
            assert(t.no_duplicates());
        }
        assert forall|x: u64| #[trigger] all.contains(x) <==> s.contains(x) && !dead.contains(x) by {
            if s.contains(x) {
                let k = choose|k: int| 0 <= k < s.len() && s[k] == x;
                if k < t.len() {
                    assert(t[k] == x);
                    assert(t.contains(x));
                }
            }
            if t.contains(x) {
                let k = choose|k: int| 0 <= k < t.len() && t[k] == x;
                assert(s[k] == x);
            }
            if !dead.contains(s.last()) {
                assert(all =~= w.push(s.last()));
                if w.contains(x) {
                    let k = choose|k: int| 0 <= k < w.len() && w[k] == x;
                    assert(all[k] == x);
                }
                if all.contains(x) {
                    let k = choose|k: int| 0 <= k < all.len() && all[k] == x;
                    if k < w.len() {
                        assert(w[k] == x);
                    }
                }
                assert(all[w.len() as int] == s.last());
                assert(s[t.len() as int] == s.last());
            }
        }
        if s.no_duplicates() && !dead.contains(s.last()) {
            assert(!w.contains(s.last())) by {
                if w.contains(s.last()) {
                    assert(t.contains(s.last()));
                    let k = choose|k: int| 0 <= k < t.len() && t[k] == s.last();
                    assert(s[k] == s[t.len() as int]);
                }
            }
            assert forall|i: int, j: int| 0 <= i < all.len() && 0 <= j < all.len() && i != j implies
                all[i] != all[j] by {
                if i == w.len() {
                    assert(w[j] == all[j]);
                    assert(w.contains(w[j]));
                } else if j == w.len() {
                    assert(w[i] == all[i]);
                    assert(w.contains(w[i]));
                } else {
                    assert(w[i] == all[i] && w[j] == all[j]);
                }
            }
        }
    } else {
        assert(without_all(s, dead) =~= seq![]);
    }
}

/// Listeners that could not be reached are off the books after that, and the
/// others stay on them.
pub proof fn law_dead_listeners_leave(h: HubView, dead: Seq<u64>)
    ensures
        forall|x: u64|
            #[trigger] h.pruned(dead).sse.contains(x) <==> h.sse.contains(x) && !dead.contains(x),
        forall|x: u64|
            #[trigger] h.pruned(dead).ws.contains(x) <==> h.ws.contains(x) && !dead.contains(x),
        h.pruned(dead).snapshot == h.snapshot,
{
    lemma_without_all(h.sse, dead);
    lemma_without_all(h.ws, dead);
}

proof fn lemma_without(s: Seq<u64>, id: u64)
    ensures
        without(s, id) == without_all(s, seq![id]),
    decreases s.len(),
{
    assert(seq![id].contains(id)) by {
        assert(seq![id][0] == id);
    }
    if s.len() > 0 {
        lemma_without(s.drop_last(), id);
        assert(seq![id].contains(s.last()) == (s.last() == id));
    }
}

/// The books stay in order when listeners leave, whether they say so or could
/// not be reached.
pub proof fn law_books_stay_in_order(h: HubView, dead: Seq<u64>, id: u64)
    requires
        h.wf(),
    ensures
        h.pruned(dead).wf(),
        h.left_by(id).wf(),
{
    lemma_pruned_wf(h, dead);
    lemma_pruned_wf(h, seq![id]);
    lemma_without(h.sse, id);
    lemma_without(h.ws, id);
}

proof fn lemma_pruned_wf(h: HubView, dead: Seq<u64>)
    requires
        h.wf(),
    ensures
        h.pruned(dead).wf(),
{
    let p = h.pruned(dead);
    let all = h.sse + h.ws;
    lemma_without_all(h.sse, dead);
    lemma_without_all(h.ws, dead);
    assert(h.sse.no_duplicates()) by {
        assert forall|i: int, j: int|
            0 <= i < h.sse.len() && 0 <= j < h.sse.len() && i != j implies h.sse[i] != h.sse[j] by {
            assert(all[i] == h.sse[i] && all[j] == h.sse[j]);
        }
    }
    assert(h.ws.no_duplicates()) by {
        let n = h.sse.len() as int;
        assert forall|i: int, j: int|
            0 <= i < h.ws.len() && 0 <= j < h.ws.len() && i != j implies h.ws[i] != h.ws[j] by {
            assert(all[n + i] == h.ws[i] && all[n + j] == h.ws[j]);
        }
    }
    assert forall|i: int| 0 <= i < p.sse.len() implies 0 < #[trigger] p.sse[i] <= p.next_id by {
        assert(p.sse.contains(p.sse[i]));
        let k = choose|k: int| 0 <= k < h.sse.len() && h.sse[k] == p.sse[i];
        assert(h.sse[k] == p.sse[i]);
    }
    assert forall|i: int| 0 <= i < p.ws.len() implies 0 < #[trigger] p.ws[i] <= p.next_id by {
        assert(p.ws.contains(p.ws[i]));
        let k = choose|k: int| 0 <= k < h.ws.len() && h.ws[k] == p.ws[i];
        assert(h.ws[k] == p.ws[i]);
    }
    let both = p.sse + p.ws;
    let n = p.sse.len() as int;
    assert forall|i: int, j: int| 0 <= i < both.len() && 0 <= j < both.len() && i != j implies both[i]
        != both[j] by {
        if i < n && j >= n {
            lemma_apart(h, p, i, j - n);
        } else if j < n && i >= n {
            lemma_apart(h, p, j, i - n);
        }
    }
}

proof fn lemma_apart(h: HubView, p: HubView, i: int, j: int)
    requires
        h.wf(),
        0 <= i < p.sse.len(),
        0 <= j < p.ws.len(),
        forall|x: u64| #[trigger] p.sse.contains(x) ==> h.sse.contains(x),
        forall|x: u64| #[trigger] p.ws.contains(x) ==> h.ws.contains(x),
    ensures
        p.sse[i] != p.ws[j],
{
    let all = h.sse + h.ws;
    assert(p.sse.contains(p.sse[i]));
    assert(p.ws.contains(p.ws[j]));
    let k = choose|k: int| 0 <= k < h.sse.len() && h.sse[k] == p.sse[i];
    let l = choose|l: int| 0 <= l < h.ws.len() && h.ws[l] == p.ws[j];
    assert(all[k] == p.sse[i]);
    assert(all[h.sse.len() + l] == p.ws[j]);
}

/// A new listener gets a number that no other listener has, and the books stay
/// in order.
pub proof fn law_numbers_are_new(h: HubView)
    requires
        h.wf(),
        h.next_id < u64::MAX,
    ensures
        !h.sse.contains((h.next_id + 1) as u64),
        !h.ws.contains((h.next_id + 1) as u64),
        h.with_sse().wf(),
        h.with_ws().wf(),
{
    let id = (h.next_id + 1) as u64;
    let all = h.sse + h.ws;
    assert forall|i: int| 0 <= i < all.len() implies #[trigger] all[i] != id by {
        if i < h.sse.len() {
            assert(all[i] == h.sse[i]);
        } else {
            assert(all[i] == h.ws[i - h.sse.len()]);
        }
    }
    let a = h.with_sse();
    let both = a.sse + a.ws;
    assert forall|i: int, j: int| 0 <= i < both.len() && 0 <= j < both.len() && i != j implies both[i]
        != both[j] by {
        let n = h.sse.len() as int;
        let x = if i < n {
            i
        } else {
            i - 1
        };
        let y = if j < n {
            j
        } else {
            j - 1
        };
        if i != n {
            assert(both[i] == all[x]);
        }
        if j != n {
            assert(both[j] == all[y]);
        }
    }
    let b = h.with_ws();
    assert(b.sse + b.ws =~= all.push(id));
}

/// What was published is the newest of its kind, and the newest of every other
/// kind stays.
pub proof fn law_newest_is_kept(
    h: HubView,
    kind: Seq<char>,
    data: JsonView,
    other: Seq<char>,
)
    ensures
        h.published(kind, data).newest(kind) == Some(data),
        other != kind ==> h.published(kind, data).newest(other) == h.newest(other),
{
    lemma_with_field(h.snapshot, kind, data, other);
}

proof fn lemma_with_field(
    fields: Seq<(Seq<char>, JsonView)>,
    name: Seq<char>,
    value: JsonView,
    other: Seq<char>,
)
    ensures
        crate::json::find_field(with_field(fields, name, value), name) == Some(value),
        other != name ==> crate::json::find_field(with_field(fields, name, value), other)
            == crate::json::find_field(fields, other),
    decreases fields.len(),
{
    let w = with_field(fields, name, value);
    if fields.len() == 0 {
        assert(w.drop_last() =~= fields);
    } else if fields.last().0 == name {
        assert(w.drop_last() =~= fields.drop_last());
    } else {
        lemma_with_field(fields.drop_last(), name, value, other);
        assert(w.drop_last() =~= with_field(fields.drop_last(), name, value));
    }
}

/// A listener to the event stream comes behind those that are there, and so does a
/// WebSocket client; neither changes the other list. Who leaves is on no list, and
/// everyone else stays.
pub proof fn law_listeners_come_and_go(h: HubView, id: u64)
    ensures
        h.with_sse().sse == h.sse.push((h.next_id + 1) as u64),
        h.with_sse().ws == h.ws,
        h.with_ws().ws == h.ws.push((h.next_id + 1) as u64),
        h.with_ws().sse == h.sse,
        forall|x: u64| #[trigger] h.left_by(id).sse.contains(x) <==> h.sse.contains(x) && x != id,
        forall|x: u64| #[trigger] h.left_by(id).ws.contains(x) <==> h.ws.contains(x) && x != id,
        HubView::fresh().sse.len() == 0,
        HubView::fresh().ws.len() == 0,
{
    lemma_without(h.sse, id);
    lemma_without(h.ws, id);
    lemma_without_all(h.sse, seq![id]);
    lemma_without_all(h.ws, seq![id]);
    assert forall|x: u64| #[trigger] seq![id].contains(x) <==> x == id by {
        assert(seq![id][0] == id);
    }
}

/// Of what is written down the state alone is kept, and nothing else changes.
pub proof fn law_state_is_kept_as_text(h: HubView, kind: Seq<char>, text: Seq<char>)
    ensures
        kind == "state"@ ==> h.written(kind, text).state == Some(text),
        kind != "state"@ ==> h.written(kind, text) == h,
        h.written(kind, text).snapshot == h.snapshot,
        h.written(kind, text).sse == h.sse,
        h.written(kind, text).ws == h.ws,
        HubView::fresh().state is None,
{
}

} // verus!
