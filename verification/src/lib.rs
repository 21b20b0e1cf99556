//! A live trader of one market: it takes closed bars of fifteen minutes, trades
//! the return to the point of control of the session before, keeps a ledger with
//! fees, and publishes what it does. What touches the world (sockets, files,
//! clocks that tick) stands around this library; what is decided and computed
//! stands here, with what it promises.
//!
//! - `engine`, `profile`, `calendar`: sessions, profiles and trades
//! - `laws`, `turns`, `ratchet`, `volume`, `control`, `entries`: what holds of the engine
//! - `ledger`, `broker`, `orders`, `errand`: sizes, fees, and orders to an exchange
//! - `sizes`, `mirror`: what holds of the ledger and of the orders
//! - `feed`, `config`, `replay`: bars and settings from outside
//! - `rows`, `settings`, `reports`: what holds of these
//! - `service`, `hub`, `http`, `ws`, `stream`: what is published, and how
//! - `shown`, `answers`, `requests`: what holds of what is published
//! - `double`, `rounding`, `decimal`, `digits`: IEEE 754 double precision in integers
//! - `json`, `text`, `words`, `clock`: values and text

pub mod answers;
pub mod broker;
pub mod calendar;
pub mod clock;
pub mod config;
pub mod control;
pub mod decimal;
pub mod digits;
pub mod double;
pub mod engine;
pub mod entries;
pub mod errand;
pub mod feed;
pub mod http;
pub mod hub;
pub mod json;
pub mod laws;
pub mod ledger;
pub mod mirror;
pub mod orders;
pub mod profile;
pub mod ratchet;
pub mod replay;
pub mod reports;
pub mod requests;
pub mod rounding;
pub mod rows;
pub mod service;
pub mod settings;
pub mod shown;
pub mod sizes;
pub mod stream;
pub mod text;
pub mod turns;
pub mod volume;
pub mod words;
pub mod ws;
