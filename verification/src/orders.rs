//! Requests to the exchange: their parameters, how they are written and signed.

use crate::decimal;
use crate::double::Double;
use crate::json::{Json, JsonView};
use crate::text;
use crate::text::{push_decimal, same, wide_decimal_chars};
use crate::ws::DIGEST_LIMIT;
use vstd::prelude::*;
use vstd::string::*;
use vstd::utf8::*;

verus! {

// ---------------------------------------------------------------------------
// Writing and signing
// ---------------------------------------------------------------------------

/// The HMAC-SHA256 tag of a message under a key.
pub uninterp spec fn hmac_sha256(key: Seq<u8>, msg: Seq<u8>) -> Seq<u8>;

/// `ring::hmac::sign` with a key made by `ring::hmac::Key::new` for
/// `HMAC_SHA256`: the tag is a function of the key and the message alone, and 32
/// bytes long. Both panic where the count of bits does not fit into 64 bits;
/// the key takes up one block of 64 bytes in front of the message.
#[verifier::external_body]
fn hmac_tag(key: &[u8], msg: &[u8]) -> (r: Vec<u8>)
    requires
        key@.len() < DIGEST_LIMIT,
        msg@.len() + 64 < DIGEST_LIMIT,
    ensures
        r@ == hmac_sha256(key@, msg@),
        r@.len() == 32,
{
    let key = ring::hmac::Key::new(ring::hmac::HMAC_SHA256, key);
    ring::hmac::sign(&key, msg).as_ref().to_vec()
}

/// The character of a hexadecimal digit, in small letters or in capitals.
pub open spec fn hex_digit(n: int, capital: bool) -> char {
    if n < 10 {
        (48 + n) as char
    } else if capital {
        (65 + n - 10) as char
    } else {
        (97 + n - 10) as char
    }
}

/// Bytes as hexadecimal digits in small letters, two for each.
pub open spec fn hex(b: Seq<u8>) -> Seq<char>
    decreases b.len(),
{
    if b.len() == 0 {
        seq![]
    } else {
        hex(b.drop_last()).push(hex_digit(b.last() as int / 16, false)).push(
            hex_digit(b.last() as int % 16, false),
        )
    }
}

/// Whether a byte stands for itself in a query.
pub open spec fn unreserved(c: u8) -> bool {
    ||| 65 <= c <= 90
    ||| 97 <= c <= 122
    ||| 48 <= c <= 57
    ||| c == 45 || c == 95 || c == 46 || c == 126
}

/// A byte as a query writes it.
pub open spec fn escaped_byte(c: u8) -> Seq<char> {
    if unreserved(c) {
        seq![c as char]
    } else {
        seq!['%', hex_digit(c as int / 16, true), hex_digit(c as int % 16, true)]
    }
}

/// Bytes as a query writes them.
pub open spec fn escaped(b: Seq<u8>) -> Seq<char>
    decreases b.len(),
{
    if b.len() == 0 {
        seq![]
    } else {
        escaped(b.drop_last()) + escaped_byte(b.last())
    }
}

/// A parameter as a query writes it.
pub open spec fn pair_text(p: (Seq<char>, Seq<char>)) -> Seq<char> {
    escaped(encode_utf8(p.0)) + "="@ + escaped(encode_utf8(p.1))
}

/// Parameters as a query.
pub open spec fn query(params: Seq<(Seq<char>, Seq<char>)>) -> Seq<char>
    decreases params.len(),
{
    if params.len() == 0 {
        seq![]
    } else if params.len() == 1 {
        pair_text(params[0])
    } else {
        query(params.drop_last()) + "&"@ + pair_text(params.last())
    }
}

fn hex_char(n: u8, capital: bool) -> (r: char)
    requires
        n < 16,
    ensures
        r == hex_digit(n as int, capital),
{
    if n < 10 {
        (48 + n) as char
    } else if capital {
        (65 + (n - 10)) as char
    } else {
        (97 + (n - 10)) as char
    }
}

/// Bytes as hexadecimal digits.
pub fn to_hex(b: &[u8]) -> (r: String)
    ensures
        r@ == hex(b@),
{
    let mut out: String = String::new();
    let mut i: usize = 0;
    assert(b@.take(0) =~= seq![]);
    while i < b.len()
        invariant
            i <= b@.len(),
            out@ == hex(b@.take(i as int)),
        decreases b@.len() - i,
    {
        assert(b@.take(i + 1).drop_last() =~= b@.take(i as int));
        out.push(hex_char(b[i] / 16, false));
        out.push(hex_char(b[i] % 16, false));
        i = i + 1;
    }
    assert(b@.take(i as int) =~= b@);
    out
}

/// The tag of a message under a key, as hexadecimal digits.
pub fn hmac_sha256_hex(key: &[u8], msg: &[u8]) -> (r: String)
    requires
        key@.len() < DIGEST_LIMIT,
        msg@.len() + 64 < DIGEST_LIMIT,
    ensures
        r@ == hex(hmac_sha256(key@, msg@)),
{
    to_hex(hmac_tag(key, msg).as_slice())
}

/// The body of a signed request: the query and its signature.
pub fn signed_body(qs: &str, sig: &str) -> (r: String)
    ensures
        r@ == qs@ + "&signature="@ + sig@,
{
    let mut body: String = qs.to_owned();
    body.append("&signature=");
    body.append(sig);
    body
}

/// A text as a query writes it.
pub fn escape(s: &str) -> (r: String)
    ensures
        r@ == escaped(encode_utf8(s@)),
{
    let b: &[u8] = s.as_bytes();
    let mut out: String = String::new();
    let mut i: usize = 0;
    assert(b@.take(0) =~= seq![]);
    while i < b.len()
        invariant
            i <= b@.len(),
            out@ == escaped(b@.take(i as int)),
        decreases b@.len() - i,
    {
        let ghost head = out@;
        let c: u8 = b[i];
        assert(b@.take(i + 1).drop_last() =~= b@.take(i as int));
        if (65 <= c && c <= 90) || (97 <= c && c <= 122) || (48 <= c && c <= 57) || c == 45 || c
            == 95 || c == 46 || c == 126 {
            out.push(c as char);
        } else {
            out.push('%');
            out.push(hex_char(c / 16, true));
            out.push(hex_char(c % 16, true));
        }
        assert(out@ =~= head + escaped_byte(c));
        i = i + 1;
    }
    assert(b@.take(i as int) =~= b@);
    out
}

/// Parameters: names and values.
pub type Params = Vec<(String, String)>;

/// What parameters say.
pub open spec fn params_view(p: Seq<(String, String)>) -> Seq<(Seq<char>, Seq<char>)> {
    p.map_values(|x: (String, String)| (x.0@, x.1@))
}

/// Parameters as a query.
pub fn urlencode(params: &Params) -> (r: String)
    ensures
        r@ == query(params_view(params@)),
{
    let mut out: String = String::new();
    let mut i: usize = 0;
    let ghost all = params_view(params@);
    assert(all.take(0) =~= seq![]);
    while i < params.len()
        invariant
            i <= params@.len(),
            all == params_view(params@),
            out@ == query(all.take(i as int)),
        decreases params@.len() - i,
    {
        let ghost head = out@;
        if i > 0 {
            out.append("&");
        }
        out.append(escape(params[i].0.as_str()).as_str());
        out.append("=");
        out.append(escape(params[i].1.as_str()).as_str());
        proof {
            assert(all.take(i + 1).drop_last() =~= all.take(i as int));
            assert(all.take(i + 1).last() == all[i as int]);
            if i > 0 {
                assert(out@ =~= head + "&"@ + pair_text(all[i as int]));
            } else {
                assert(out@ =~= pair_text(all[0]));
            }
        }
        i = i + 1;
    }
    assert(all.take(i as int) =~= all);
    out
}

// ---------------------------------------------------------------------------
// Requests
// ---------------------------------------------------------------------------

/// A request to the exchange.
#[derive(Debug)]
pub struct Call {
    pub method: String,
    pub url: String,
    /// A form, where the request carries one.
    pub body: Option<String>,
}

/// What a request says.
pub struct CallView {
    pub method: Seq<char>,
    pub url: Seq<char>,
    pub body: Option<Seq<char>>,
}

impl View for Call {
    type V = CallView;

    open spec fn view(&self) -> CallView {
        CallView {
            method: self.method@,
            url: self.url@,
            body: match self.body {
                Some(b) => Some(b@),
                None => None,
            },
        }
    }
}

/// The client's account and what it knows of the market.
pub struct RestCli {
    pub key: String,
    pub secret: String,
    pub base: String,
    /// Digits behind the point of a quantity.
    pub qty_prec: u32,
    pub min_notional: Double,
}

/// What the client says.
pub struct CliView {
    pub key: Seq<char>,
    pub secret: Seq<char>,
    pub base: Seq<char>,
    pub qty_prec: u32,
    pub min_notional: Double,
}

impl View for RestCli {
    type V = CliView;

    open spec fn view(&self) -> CliView {
        CliView {
            key: self.key@,
            secret: self.secret@,
            base: self.base@,
            qty_prec: self.qty_prec,
            min_notional: self.min_notional,
        }
    }
}

/// Where a market is found among others, from the position `i` on.
pub open spec fn market_from(list: Seq<JsonView>, symbol: Seq<char>, i: int) -> Option<JsonView>
    decreases list.len() - i,
{
    if i < 0 || i >= list.len() {
        None
    } else {
        match list[i].field("symbol"@) {
            Some(v) => if v.text() == Some(symbol) {
                Some(list[i])
            } else {
                market_from(list, symbol, i + 1)
            },
            None => market_from(list, symbol, i + 1),
        }
    }
}

/// The first market of a name that the exchange tells of.
pub open spec fn market_of(info: JsonView, symbol: Seq<char>) -> Option<JsonView> {
    match info.field("symbols"@) {
        Some(JsonView::List(list)) => market_from(list, symbol, 0),
        _ => None,
    }
}

/// The digits behind the point that a market asks for; 3 where it does not say.
pub open spec fn precision_of(market: JsonView) -> u32 {
    match market.field("quantityPrecision"@) {
        Some(v) => match v.whole() {
            Some(n) => if 0 <= n <= u64::MAX {
                (n as u64) as u32
            } else {
                3
            },
            None => 3,
        },
        None => 3,
    }
}

/// The least notional that the first `n` filters ask for, or `other` where none
/// does; 5 where the filter does not say it as a number.
pub open spec fn least_notional(filters: Seq<JsonView>, n: nat, other: Double) -> Double
    decreases n,
{
    if n == 0 {
        other
    } else {
        let f = filters[n - 1];
        match f.field("filterType"@) {
            Some(t) => if t.text() == Some("MIN_NOTIONAL"@) {
                match f.field("notional"@) {
                    Some(v) => match v.number() {
                        Some(x) => x,
                        None => Double::whole(5),
                    },
                    None => Double::whole(5),
                }
            } else {
                least_notional(filters, (n - 1) as nat, other)
            },
            None => least_notional(filters, (n - 1) as nat, other),
        }
    }
}

impl CliView {
    /// The client before it knows anything of the market.
    pub open spec fn fresh(
        key: Seq<char>,
        secret: Seq<char>,
        base: Seq<char>,
        futures: bool,
    ) -> CliView {
        CliView {
            key,
            secret,
            base,
            qty_prec: if futures {
                3
            } else {
                6
            },
            min_notional: Double::whole(5),
        }
    }

    /// The client with what the exchange tells of a market.
    pub open spec fn informed(self, info: JsonView, symbol: Seq<char>) -> CliView {
        match market_of(info, symbol) {
            Some(market) => CliView {
                qty_prec: precision_of(market),
                min_notional: match market.field("filters"@) {
                    Some(JsonView::List(filters)) => least_notional(
                        filters,
                        filters.len(),
                        self.min_notional,
                    ),
                    _ => self.min_notional,
                },
                ..self
            },
            None => self,
        }
    }

    /// A request without a signature.
    pub open spec fn plain_call(
        self,
        method: Seq<char>,
        path: Seq<char>,
        params: Seq<(Seq<char>, Seq<char>)>,
    ) -> CallView {
        CallView {
            method,
            url: if params.len() > 0 {
                self.base + path + "?"@ + query(params)
            } else {
                self.base + path
            },
            body: None,
        }
    }

    /// What is signed: the parameters, the time in milliseconds, and how long
    /// the request may take to arrive.
    pub open spec fn signed_query(
        self,
        params: Seq<(Seq<char>, Seq<char>)>,
        stamp: nat,
    ) -> Seq<char> {
        query(params.push(("timestamp"@, text::decimal(stamp))).push(("recvWindow"@, "5000"@)))
    }

    /// Whether so much can be signed.
    pub open spec fn can_sign(self, params: Seq<(Seq<char>, Seq<char>)>, stamp: nat) -> bool {
        &&& encode_utf8(self.secret).len() < DIGEST_LIMIT
        &&& encode_utf8(self.signed_query(params, stamp)).len() + 64 < DIGEST_LIMIT
    }

    /// A request with a signature at the time `stamp`; none where it is too long
    /// to be signed.
    pub open spec fn signed_call(
        self,
        method: Seq<char>,
        path: Seq<char>,
        params: Seq<(Seq<char>, Seq<char>)>,
        stamp: nat,
    ) -> Option<CallView> {
        let qs = self.signed_query(params, stamp);
        if self.can_sign(params, stamp) {
            Some(
                CallView {
                    method,
                    url: self.base + path,
                    body: Some(
                        qs + "&signature="@ + hex(
                            hmac_sha256(encode_utf8(self.secret), encode_utf8(qs)),
                        ),
                    ),
                },
            )
        } else {
            None
        }
    }

    /// A quantity as the market writes it.
    pub open spec fn qty_text(self, q: Double) -> Seq<char> {
        decimal::fixed_text(q, self.qty_prec as nat)
    }
}

/// A price as the exchange reads it.
pub open spec fn price_text(p: Double) -> Seq<char> {
    decimal::fixed_text(p, 2)
}

fn put_param(p: &mut Params, name: &str, value: String)
    ensures
        params_view(final(p)@) == params_view(old(p)@).push((name@, value@)),
{
    p.push((name.to_owned(), value));
    assert(params_view(p@) =~= params_view(old(p)@).push((name@, value@)));
}

/// Reads the digits behind the point that a market asks for.
fn read_precision(market: &Json) -> (r: u32)
    ensures
        r == precision_of(market@),
{
    match market.get("quantityPrecision") {
        Some(v) => match v.as_u64() {
            Some(n) => n as u32,
            None => 3,
        },
        None => 3,
    }
}

/// Reads the least notional that some filters ask for.
fn read_notional(filters: &Vec<Json>, other: Double) -> (r: Double)
    ensures
        r == least_notional(crate::json::items_view(filters@), filters@.len(), other),
{
    let ghost v = crate::json::items_view(filters@);
    let mut least: Double = other;
    let mut i: usize = 0;
    proof {
        crate::json::lemma_items_view(filters@);
    }
    while i < filters.len()
        invariant
            i <= filters@.len(),
            v == crate::json::items_view(filters@),
            forall|k: int| 0 <= k < filters@.len() ==> #[trigger] v[k] == filters@[k]@,
            least == least_notional(v, i as nat, other),
        decreases filters@.len() - i,
    {
        assert(v[i as int] == filters@[i as int]@);
        if let Some(t) = filters[i].get("filterType") {
            if let Some(s) = t.as_str() {
                if same(s, "MIN_NOTIONAL") {
                    least = match filters[i].get("notional") {
                        Some(x) => match x.as_double() {
                            Some(d) => d,
                            None => Double::from_u64(5),
                        },
                        None => Double::from_u64(5),
                    };
                }
            }
        }
        i = i + 1;
    }
    least
}

impl RestCli {
    /// Whether the exchange is asked what it knows of the market.
    pub fn asks_for_info(symbol: &str, futures: bool) -> (r: bool)
        ensures
            r == (futures && symbol@.len() > 0),
    {
        futures && !symbol.is_empty()
    }

    /// The client of an account, with what the exchange told of the market
    /// where it was asked and did.
    pub fn new(
        key: &str,
        secret: &str,
        base: &str,
        symbol: &str,
        futures: bool,
        info: &Option<Json>,
    ) -> (r: RestCli)
        ensures
            r@ == match info {
                Some(j) => if futures && symbol@.len() > 0 {
                    CliView::fresh(key@, secret@, base@, futures).informed(j@, symbol@)
                } else {
                    CliView::fresh(key@, secret@, base@, futures)
                },
                None => CliView::fresh(key@, secret@, base@, futures),
            },
    {
        let mut cli = RestCli {
            key: key.to_owned(),
            secret: secret.to_owned(),
            base: base.to_owned(),
            qty_prec: if futures {
                3
            } else {
                6
            },
            min_notional: Double::from_u64(5),
        };
        if let Some(j) = info {
            if RestCli::asks_for_info(symbol, futures) {
                cli.learn(j, symbol);
            }
        }
        cli
    }

    /// Takes what the exchange tells of a market.
    fn learn(&mut self, info: &Json, symbol: &str)
        ensures
            final(self)@ == old(self)@.informed(info@, symbol@),
    {
        let list: &Vec<Json> = match info.get("symbols") {
            Some(v) => match v.as_array() {
                Some(l) => l,
                None => {
                    return ;
                },
            },
            None => {
                return ;
            },
        };
        let ghost v = crate::json::items_view(list@);
        let mut i: usize = 0;
        proof {
            crate::json::lemma_items_view(list@);
        }
        while i < list.len()
            invariant
                i <= list@.len(),
                *self == *old(self),
                v == crate::json::items_view(list@),
                v.len() == list@.len(),
                info@.field("symbols"@) == Some(JsonView::List(v)),
                forall|k: int| 0 <= k < list@.len() ==> #[trigger] v[k] == list@[k]@,
                market_from(v, symbol@, 0) == market_from(v, symbol@, i as int),
            decreases list@.len() - i,
        {
            assert(v[i as int] == list@[i as int]@);
            let named: bool = match list[i].get("symbol") {
                Some(x) => match x.as_str() {
                    Some(s) => same(s, symbol),
                    None => false,
                },
                None => false,
            };
            if named {
                self.qty_prec = read_precision(&list[i]);
                if let Some(x) = list[i].get("filters") {
                    if let Some(filters) = x.as_array() {
                        self.min_notional = read_notional(filters, self.min_notional);
                        proof {
                            crate::json::lemma_items_view(filters@);
                        }
                    }
                }
                return ;
            }
            i = i + 1;
        }
    }

    /// A request: signed at the time `stamp`, in milliseconds, where there is
    /// one. `None` where it is too long to be signed.
    pub fn call(&self, method: &str, path: &str, params: Params, stamp: Option<u128>) -> (r: Option<
        Call,
    >)
        ensures
            match stamp {
                Some(t) => match self@.signed_call(
                    method@,
                    path@,
                    params_view(params@),
                    t as nat,
                ) {
                    Some(c) => r matches Some(x) && x@ == c,
                    None => r is None,
                },
                None => r matches Some(x) && x@ == self@.plain_call(
                    method@,
                    path@,
                    params_view(params@),
                ),
            },
    {
        let ghost given = params_view(params@);
        let mut p: Params = params;
        let mut url: String = self.base.clone();
        url.append(path);
        match stamp {
            Some(t) => {
                put_param(&mut p, "timestamp", text::text_of(&wide_decimal_chars(t)));
                put_param(&mut p, "recvWindow", "5000".to_owned());
                let qs: String = urlencode(&p);
                let key: &[u8] = self.secret.as_str().as_bytes();
                let msg: &[u8] = qs.as_str().as_bytes();
                if key.len() as u64 >= DIGEST_LIMIT || msg.len() as u64 >= DIGEST_LIMIT - 64 {
                    return None;
                }
                let sig: String = hmac_sha256_hex(key, msg);
                let body: String = signed_body(qs.as_str(), sig.as_str());
                Some(Call { method: method.to_owned(), url, body: Some(body) })
            },
            None => {
                if p.len() > 0 {
                    url.append("?");
                    url.append(urlencode(&p).as_str());
                }
                Some(Call { method: method.to_owned(), url, body: None })
            },
        }
    }

    /// A quantity as the market writes it.
    pub fn fmt_qty(&self, q: Double) -> (r: String)
        ensures
            r@ == self@.qty_text(q),
    {
        q.fixed(self.qty_prec as usize)
    }
}

// ---------------------------------------------------------------------------
// Orders
// ---------------------------------------------------------------------------

/// The side of an order.
#[derive(Clone, Copy, Debug, PartialEq, Eq, Structural)]
pub enum Side {
    Buy,
    Sell,
}

impl Side {
    /// The side as the exchange writes it.
    pub open spec fn name(self) -> Seq<char> {
        match self {
            Side::Buy => "BUY"@,
            Side::Sell => "SELL"@,
        }
    }

    /// The side as the exchange reads it.
    pub fn text(self) -> (r: &'static str)
        ensures
            r@ == self.name(),
    {
        match self {
            Side::Buy => "BUY",
            Side::Sell => "SELL",
        }
    }
}

/// An order, whatever the venue.
#[derive(Clone, Copy, Debug)]
pub enum Order {
    /// Sets the leverage of the market.
    Leverage(u32),
    /// Buys or sells at a price.
    Limit { side: Side, qty: Double, price: Double },
    /// Leaves the position at a loss.
    Stop { side: Side, qty: Double, stop: Double },
    /// Leaves the position at a gain.
    Target { side: Side, qty: Double, price: Double },
    /// Takes back all orders of the market.
    CancelAll,
}

/// The parameters of an order at a price.
pub open spec fn limit_params(
    symbol: Seq<char>,
    side: Side,
    qty: Seq<char>,
    price: Double,
) -> Seq<(Seq<char>, Seq<char>)> {
    seq![
        ("symbol"@, symbol),
        ("side"@, side.name()),
        ("type"@, "LIMIT"@),
        ("timeInForce"@, "GTC"@),
        ("quantity"@, qty),
        ("price"@, price_text(price)),
    ]
}

/// The parameters of an order that only reduces a futures position once a price
/// is reached.
pub open spec fn trigger_params(
    symbol: Seq<char>,
    side: Side,
    kind: Seq<char>,
    qty: Seq<char>,
    stop: Double,
) -> Seq<(Seq<char>, Seq<char>)> {
    seq![
        ("symbol"@, symbol),
        ("side"@, side.name()),
        ("type"@, kind),
        ("reduceOnly"@, "true"@),
        ("quantity"@, qty),
        ("stopPrice"@, price_text(stop)),
    ]
}

/// The parameters of a spot order at a price once another price is reached.
pub open spec fn stop_limit_params(
    symbol: Seq<char>,
    side: Side,
    qty: Seq<char>,
    stop: Double,
    limit: Double,
) -> Seq<(Seq<char>, Seq<char>)> {
    seq![
        ("symbol"@, symbol),
        ("side"@, side.name()),
        ("type"@, "STOP_LOSS_LIMIT"@),
        ("timeInForce"@, "GTC"@),
        ("quantity"@, qty),
        ("stopPrice"@, price_text(stop)),
        ("price"@, price_text(limit)),
    ]
}

/// The parameter that names the market.
pub open spec fn symbol_params(symbol: Seq<char>) -> Seq<(Seq<char>, Seq<char>)> {
    seq![("symbol"@, symbol)]
}

/// The parameters that set the leverage.
pub open spec fn leverage_params(symbol: Seq<char>, leverage: u32) -> Seq<(Seq<char>, Seq<char>)> {
    seq![("symbol"@, symbol), ("leverage"@, text::decimal(leverage as nat))]
}

impl CliView {
    /// The request that an order makes on a venue at the time `stamp`. Leverage
    /// is set on futures only, and a spot stop sells or buys at its own price.
    pub open spec fn order_call(
        self,
        futures: bool,
        symbol: Seq<char>,
        o: Order,
        stamp: nat,
    ) -> Option<CallView> {
        let path = if futures {
            "/fapi/v1/order"@
        } else {
            "/api/v3/order"@
        };
        match o {
            Order::Leverage(n) => self.signed_call(
                "POST"@,
                "/fapi/v1/leverage"@,
                leverage_params(symbol, n),
                stamp,
            ),
            Order::Limit { side, qty, price } => self.signed_call(
                "POST"@,
                path,
                limit_params(symbol, side, self.qty_text(qty), price),
                stamp,
            ),
            Order::Stop { side, qty, stop } => self.signed_call(
                "POST"@,
                path,
                if futures {
                    trigger_params(symbol, side, "STOP_MARKET"@, self.qty_text(qty), stop)
                } else {
                    stop_limit_params(symbol, side, self.qty_text(qty), stop, stop)
                },
                stamp,
            ),
            Order::Target { side, qty, price } => self.signed_call(
                "POST"@,
                path,
                if futures {
                    trigger_params(symbol, side, "TAKE_PROFIT_MARKET"@, self.qty_text(qty), price)
                } else {
                    limit_params(symbol, side, self.qty_text(qty), price)
                },
                stamp,
            ),
            Order::CancelAll => self.signed_call(
                "DELETE"@,
                if futures {
                    "/fapi/v1/allOpenOrders"@
                } else {
                    "/api/v3/openOrders"@
                },
                symbol_params(symbol),
                stamp,
            ),
        }
    }
}

/// Whether a request is the one that is meant.
pub open spec fn is_call(r: Option<Call>, c: Option<CallView>) -> bool {
    match c {
        Some(v) => r matches Some(x) && x@ == v,
        None => r is None,
    }
}

fn build_limit(symbol: &str, side: Side, qty: String, price: Double) -> (p: Params)
    ensures
        params_view(p@) == limit_params(symbol@, side, qty@, price),
{
    let mut p: Params = Vec::new();
    put_param(&mut p, "symbol", symbol.to_owned());
    put_param(&mut p, "side", side.text().to_owned());
    put_param(&mut p, "type", "LIMIT".to_owned());
    put_param(&mut p, "timeInForce", "GTC".to_owned());
    put_param(&mut p, "quantity", qty);
    put_param(&mut p, "price", price.fixed(2));
    assert(params_view(p@) =~= limit_params(symbol@, side, qty@, price));
    p
}

fn build_trigger(symbol: &str, side: Side, kind: &str, qty: String, stop: Double) -> (p: Params)
    ensures
        params_view(p@) == trigger_params(symbol@, side, kind@, qty@, stop),
{
    let mut p: Params = Vec::new();
    put_param(&mut p, "symbol", symbol.to_owned());
    put_param(&mut p, "side", side.text().to_owned());
    put_param(&mut p, "type", kind.to_owned());
    put_param(&mut p, "reduceOnly", "true".to_owned());
    put_param(&mut p, "quantity", qty);
    put_param(&mut p, "stopPrice", stop.fixed(2));
    assert(params_view(p@) =~= trigger_params(symbol@, side, kind@, qty@, stop));
    p
}

fn build_stop_limit(symbol: &str, side: Side, qty: String, stop: Double, limit: Double) -> (p:
    Params)
    ensures
        params_view(p@) == stop_limit_params(symbol@, side, qty@, stop, limit),
{
    let mut p: Params = Vec::new();
    put_param(&mut p, "symbol", symbol.to_owned());
    put_param(&mut p, "side", side.text().to_owned());
    put_param(&mut p, "type", "STOP_LOSS_LIMIT".to_owned());
    put_param(&mut p, "timeInForce", "GTC".to_owned());
    put_param(&mut p, "quantity", qty);
    put_param(&mut p, "stopPrice", stop.fixed(2));
    put_param(&mut p, "price", limit.fixed(2));
    assert(params_view(p@) =~= stop_limit_params(symbol@, side, qty@, stop, limit));
    p
}

fn build_symbol(symbol: &str) -> (p: Params)
    ensures
        params_view(p@) == symbol_params(symbol@),
{
    let mut p: Params = Vec::new();
    put_param(&mut p, "symbol", symbol.to_owned());
    assert(params_view(p@) =~= symbol_params(symbol@));
    p
}

impl RestCli {
    /// Buys or sells futures at a price.
    pub fn fut_limit(
        &self,
        symbol: &str,
        side: Side,
        qty: Double,
        price: Double,
        stamp: u128,
    ) -> (r: Option<Call>)
        ensures
            is_call(
                r,
                self@.order_call(true, symbol@, Order::Limit { side, qty, price }, stamp as nat),
            ),
    {
        let p: Params = build_limit(symbol, side, self.fmt_qty(qty), price);
        self.call("POST", "/fapi/v1/order", p, Some(stamp))
    }

    /// Leaves a futures position once the price reaches the stop.
    pub fn fut_stop(
        &self,
        symbol: &str,
        side: Side,
        qty: Double,
        stop: Double,
        stamp: u128,
    ) -> (r: Option<Call>)
        ensures
            is_call(
                r,
                self@.order_call(true, symbol@, Order::Stop { side, qty, stop }, stamp as nat),
            ),
    {
        let p: Params = build_trigger(symbol, side, "STOP_MARKET", self.fmt_qty(qty), stop);
        self.call("POST", "/fapi/v1/order", p, Some(stamp))
    }

    /// Leaves a futures position once the price reaches the target.
    pub fn fut_tp(&self, symbol: &str, side: Side, qty: Double, price: Double, stamp: u128) -> (r:
        Option<Call>)
        ensures
            is_call(
                r,
                self@.order_call(true, symbol@, Order::Target { side, qty, price }, stamp as nat),
            ),
    {
        let p: Params = build_trigger(symbol, side, "TAKE_PROFIT_MARKET", self.fmt_qty(qty), price);
        self.call("POST", "/fapi/v1/order", p, Some(stamp))
    }

    /// Takes back all futures orders of the market.
    pub fn fut_cancel_all(&self, symbol: &str, stamp: u128) -> (r: Option<Call>)
        ensures
            is_call(r, self@.order_call(true, symbol@, Order::CancelAll, stamp as nat)),
    {
        self.call("DELETE", "/fapi/v1/allOpenOrders", build_symbol(symbol), Some(stamp))
    }

    /// Sets the leverage of the market.
    pub fn fut_set_leverage(&self, symbol: &str, leverage: u32, stamp: u128) -> (r: Option<Call>)
        ensures
            is_call(r, self@.order_call(true, symbol@, Order::Leverage(leverage), stamp as nat)),
    {
        let mut p: Params = build_symbol(symbol);
        let mut shown: String = String::new();
        push_decimal(&mut shown, leverage as u64);
        assert(shown@ =~= text::decimal(leverage as nat));
        put_param(&mut p, "leverage", shown);
        assert(params_view(p@) =~= leverage_params(symbol@, leverage));
        self.call("POST", "/fapi/v1/leverage", p, Some(stamp))
    }

    /// Buys or sells spot at a price.
    pub fn spot_limit(
        &self,
        symbol: &str,
        side: Side,
        qty: Double,
        price: Double,
        stamp: u128,
    ) -> (r: Option<Call>)
        ensures
            is_call(
                r,
                self@.order_call(false, symbol@, Order::Limit { side, qty, price }, stamp as nat),
            ),
            is_call(
                r,
                self@.order_call(false, symbol@, Order::Target { side, qty, price }, stamp as nat),
            ),
    {
        let p: Params = build_limit(symbol, side, self.fmt_qty(qty), price);
        self.call("POST", "/api/v3/order", p, Some(stamp))
    }

    /// Buys or sells spot at a price once another price is reached.
    pub fn spot_stop_limit(
        &self,
        symbol: &str,
        side: Side,
        qty: Double,
        stop: Double,
        limit: Double,
        stamp: u128,
    ) -> (r: Option<Call>)
        ensures
            is_call(
                r,
                self@.signed_call(
                    "POST"@,
                    "/api/v3/order"@,
                    stop_limit_params(symbol@, side, self@.qty_text(qty), stop, limit),
                    stamp as nat,
                ),
            ),
    {
        let p: Params = build_stop_limit(symbol, side, self.fmt_qty(qty), stop, limit);
        self.call("POST", "/api/v3/order", p, Some(stamp))
    }

    /// Takes back all spot orders of the market.
    pub fn spot_cancel_all(&self, symbol: &str, stamp: u128) -> (r: Option<Call>)
        ensures
            is_call(r, self@.order_call(false, symbol@, Order::CancelAll, stamp as nat)),
    {
        self.call("DELETE", "/api/v3/openOrders", build_symbol(symbol), Some(stamp))
    }

    /// The request that an order makes on a venue.
    pub fn order(&self, futures: bool, symbol: &str, o: Order, stamp: u128) -> (r: Option<Call>)
        ensures
            is_call(r, self@.order_call(futures, symbol@, o, stamp as nat)),
    {
        match o {
            Order::Leverage(n) => self.fut_set_leverage(symbol, n, stamp),
            Order::Limit { side, qty, price } => if futures {
                self.fut_limit(symbol, side, qty, price, stamp)
            } else {
                self.spot_limit(symbol, side, qty, price, stamp)
            },
            Order::Stop { side, qty, stop } => if futures {
                self.fut_stop(symbol, side, qty, stop, stamp)
            } else {
                self.spot_stop_limit(symbol, side, qty, stop, stop, stamp)
            },
            Order::Target { side, qty, price } => if futures {
                self.fut_tp(symbol, side, qty, price, stamp)
            } else {
                self.spot_limit(symbol, side, qty, price, stamp)
            },
            Order::CancelAll => if futures {
                self.fut_cancel_all(symbol, stamp)
            } else {
                self.spot_cancel_all(symbol, stamp)
            },
        }
    }
}

/// The characters of the body that an error shows.
pub const ERROR_SHOWN: usize = 200;

/// What is said of an answer that is no success.
pub open spec fn refusal_text(code: u16, body: Seq<char>) -> Seq<char> {
    "HTTP "@ + text::decimal(code as nat) + ": "@ + if body.len() > ERROR_SHOWN {
        body.take(ERROR_SHOWN as int)
    } else {
        body
    }
}

/// What is said of an answer that is no success: its status and the start of its
/// body.
pub fn status_error(code: u16, body: &str) -> (r: String)
    ensures
        r@ == refusal_text(code, body@),
        r@ == "HTTP "@ + text::decimal(code as nat) + ": "@ + if body@.len() > ERROR_SHOWN {
            body@.take(ERROR_SHOWN as int)
        } else {
            body@
        },
{
    let mut out: String = "HTTP ".to_owned();
    push_decimal(&mut out, code as u64);
    out.append(": ");
    let cs: Vec<char> = text::chars_of(body);
    let n: usize = if cs.len() > ERROR_SHOWN {
        ERROR_SHOWN
    } else {
        cs.len()
    };
    let shown: String = crate::words::slice(&cs, 0, n);
    assert(shown@ =~= if body@.len() > ERROR_SHOWN {
        body@.take(ERROR_SHOWN as int)
    } else {
        body@
    });
    out.append(shown.as_str());
    out
}

// ---------------------------------------------------------------------------
// Laws
// ---------------------------------------------------------------------------

/// What a query holds of a text is plain: letters, digits, `-`, `_`, `.`, `~`
/// and `%`. So the marks between parameters never come from their values.
pub proof fn law_escaped_is_plain(b: Seq<u8>)
    ensures
        forall|i: int|
            0 <= i < escaped(b).len() ==> {
                let c = #[trigger] escaped(b)[i];
                c == '%' || (c as int <= 255 && unreserved(c as u8))
            },
    decreases b.len(),
{
    if b.len() > 0 {
        law_escaped_is_plain(b.drop_last());
        let head = escaped(b.drop_last());
        let tail = escaped_byte(b.last());
        let all = escaped(b);
        let c = b.last();
        assert(0 <= c as int / 16 < 16 && 0 <= c as int % 16 < 16);
        assert forall|i: int| 0 <= i < all.len() implies ({
            let c = #[trigger] all[i];
            c == '%' || (c as int <= 255 && unreserved(c as u8))
        }) by {
            if i < head.len() {
                assert(all[i] == head[i]);
            } else {
                assert(all[i] == tail[i - head.len()]);
            }
        }
    }
}

/// The number that a capital hexadecimal digit writes.
pub open spec fn digit_value(c: char) -> int {
    if c as int >= 65 {
        c as int - 55
    } else {
        c as int - 48
    }
}

/// The bytes that a query writes.
pub open spec fn unescaped(s: Seq<char>) -> Seq<u8>
    decreases s.len(),
{
    let n = s.len() as int;
    if n == 0 {
        seq![]
    } else if n >= 3 && s[n - 3] == '%' {
        unescaped(s.take(n - 3)).push(
            (digit_value(s[n - 2]) * 16 + digit_value(s[n - 1])) as u8,
        )
    } else {
        unescaped(s.drop_last()).push(s.last() as u8)
    }
}

/// A percent sign stands at the start of an escape only.
proof fn lemma_escape_ends(b: Seq<u8>)
    ensures
        ({
            let s = escaped(b);
            &&& s.len() >= 1 ==> s[s.len() - 1] != '%'
            &&& s.len() >= 2 ==> s[s.len() - 2] != '%'
        }),
    decreases b.len(),
{
    if b.len() > 0 {
        lemma_escape_ends(b.drop_last());
        let head = escaped(b.drop_last());
        let tail = escaped_byte(b.last());
        let s = escaped(b);
        let c = b.last() as int;
        assert(0 <= c / 16 < 16 && 0 <= c % 16 < 16);
        assert(s[s.len() - 1] == tail[tail.len() - 1]);
        if unreserved(b.last()) && s.len() >= 2 {
            assert(s[s.len() - 2] == head[head.len() - 1]);
        } else if s.len() >= 2 {
            assert(s[s.len() - 2] == tail[tail.len() - 2]);
        }
    }
}

/// What a query writes can be read back: no two texts are written alike.
pub proof fn law_escape_round_trip(b: Seq<u8>)
    ensures
        unescaped(escaped(b)) == b,
    decreases b.len(),
{
    if b.len() > 0 {
        law_escape_round_trip(b.drop_last());
        lemma_escape_ends(b.drop_last());
        let head = escaped(b.drop_last());
        let tail = escaped_byte(b.last());
        let s = escaped(b);
        let n = s.len() as int;
        let c = b.last() as int;
        assert(0 <= c / 16 < 16 && 0 <= c % 16 < 16);
        if unreserved(b.last()) {
            assert(s.drop_last() =~= head);
            if n >= 3 {
                assert(s[n - 3] == head[head.len() - 2]);
            }
        } else {
            assert(s.take(n - 3) =~= head);
            assert(s[n - 3] == tail[0] && s[n - 2] == tail[1] && s[n - 1] == tail[2]);
        }
        assert(b.drop_last().push(b.last()) =~= b);
    }
}

/// The signature is over all parameters of the request: those that were given,
/// the time and how long it may take to arrive, as the request itself writes
/// them.
pub proof fn law_signature_covers_the_query(
    c: CliView,
    method: Seq<char>,
    path: Seq<char>,
    params: Seq<(Seq<char>, Seq<char>)>,
    stamp: nat,
)
    requires
        c.can_sign(params, stamp),
    ensures
        ({
            let qs = c.signed_query(params, stamp);
            c.signed_call(method, path, params, stamp)->0.body == Some(
                qs + "&signature="@ + hex(hmac_sha256(encode_utf8(c.secret), encode_utf8(qs))),
            )
        }),
{
}

} // verus!
