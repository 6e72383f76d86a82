//! A matching engine that consumes the order feed.
//!
//! The feed publishes limit orders and cancels but never matches them. This
//! module is the missing half: it folds the message stream into per-symbol
//! order books and infers the trades the exchange would have printed.
//!
//! The fold is pure: no network, no clock. So the whole engine is driven from a
//! canned sequence of events with no server running.

pub mod book;
pub mod cursor;
pub mod laws;
pub mod market;
pub mod matcher;
pub mod sums;
pub mod symbol_map;
pub mod text;
pub mod types;

pub use book::OrderBook;
pub use cursor::Cursor;
pub use market::{MarketState, SymbolState};
pub use matcher::{Engine, Stats};
pub use types::{resolve_symbol, ConvertError, Event, Order, Price, Qty, Symbol, Trade};
