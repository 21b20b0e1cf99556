# live_trader

A live trader for one market, verified with Verus. It takes closed bars of
fifteen minutes, waits for the price to come back to the point of control of the
session before, trades that return once per session with a stop scaled by the
average true range, draws the stop along at milestones, and is flat by the end of
the session. A ledger books every trade with fees; orders can be mirrored to an
exchange; state and events are pushed over HTTP, server-sent events and
WebSocket.

## Layout

- `src/` is the library. Every function states what it returns or changes, and
  Verus proves it.
- `app/` is the program around it: arguments, sockets, requests to the exchanges,
  threads, and the conversion to and from `f64` and `serde_json::Value`.
- `tests/` runs the library from outside. `tests/model.rs` holds the engine
  beside a plain rendering of its rules in machine numbers.

## Numbers

Prices and sizes are IEEE 754 doubles. The library computes them in integers
(`double.rs`): a `Double` is its 64 bits, each operation is the exact result
rounded to nearest, ties to even, and the order of numbers is proved to survive
the rounding. Decimal text is read and written exactly (`decimal.rs`).

## What is proved of the whole

Laws are public proof functions whose names begin with `law_`. Among them:

- no session holds two trades, and no position outlives its session (`laws.rs`);
- over a whole history positions are opened and closed in turn, each session at
  most once, and the trades are those that were told (`turns.rs`);
- a profile keeps the volume of its bars, up to a bound on the roundings
  (`volume.rs`);
- bars fed in parts and bars fed at once lead to the same state (`laws.rs`);
- a restart that replays the bars comes to the same ledger (`service.rs`);
- a stop is never loosened, and it goes before the target (`laws.rs`); over all
  bars it is the first one or that of the best rung reached (`ratchet.rs`);
- nothing is ordered unless the settings allow it: live trading takes consent, and
  only a `0` ends the dry run (`config.rs`, `broker.rs`, `service.rs`);
- the mirrored order has the ledger's size (`broker.rs`);
- an entry is protected whatever came of it, the orders for that are sent until
  one fails, and a close is published last (`errand.rs`);
- a frame is read back as it was written, and base64 can be undone (`ws.rs`);
- a request is understood the same however its bytes arrive (`http.rs`).

## What is not proved

Calls into `ring` (SHA-1 and HMAC-SHA256) and a few functions of the standard
library (the clock, letter case, UTF-8) are described where they are made, and
believed. The shortest decimal form of a double and the text of JSON are left to
the program around the library.

## Use

    live-trader                                    serve, set by the environment
    live-trader replay <csv> [--touch] [--json]    replay rows of ts_ms,o,h,l,c,v
    live-trader bench <csv>                        time a replay
