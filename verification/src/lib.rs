//! A single-instrument exchange engine: a limit order book with price-time
//! priority, the four order handlers, the periodic crossing sweep, account
//! bookkeeping and the fixed-layout wire frames.
//!
//! The engine works in whole numbers. A price is held as a price key, in
//! thousandths of a unit, and cash in the same unit, so that every fill moves
//! exactly quantity times price key. On the wire prices and cash are doubles;
//! `double` turns their bits into price keys and back.
//!
//! The handlers change the book and the accounts they are handed and list
//! what is to be told to whom; sending it is the caller's part.
pub mod account;
pub mod book;
pub mod bytes;
pub mod cancel;
pub mod compact;
pub mod double;
pub mod engine;
pub mod evict;
pub mod hidden;
pub mod ident;
pub mod laws;
pub mod limit;
pub mod market;
pub mod matching;
pub mod money;
pub mod notice;
pub mod order;
pub mod origin;
pub mod priority;
pub mod response;
pub mod snapshot;
pub mod stamps;
pub mod sweep;
pub mod uncrossed;
