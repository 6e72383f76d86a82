//! Normalized domain types for the matching engine.
//!
//! The feed publishes prices and quantities as floating-point numbers.
//! Everything inside the engine works in integer ticks instead: partial fills
//! are then exact, and a fully filled order compares equal to zero instead of
//! leaving float dust behind that would keep it wedged in the book forever.

use crate::double::Double;
use crate::engine::text;
use crate::engine::text::fixed;
use crate::feed::{listed, AccountId, OrderId, OrderMessage, Side};
use vstd::prelude::*;

verus! {

/// Symbols are interned against the feed's own table, so a `Symbol` is both a
/// validated trading pair and a cheap `Copy` key. Resolution doubles as
/// validation and costs no allocation per message.
pub type Symbol = &'static str;

/// Prices in cents. The feed rounds to 2 decimals at the source, so this
/// conversion is lossless.
pub const PRICE_SCALE: u64 = 100;

/// Quantities in tenths. The feed rounds to 1 decimal at the source, so this
/// conversion is lossless.
pub const QTY_SCALE: u64 = 10;

/// A price in whole cents: `100.25` is `Price(10025)`.
#[derive(Debug, Clone, Copy, PartialEq, Eq, PartialOrd, Ord, Hash, Structural)]
pub struct Price(pub i64);

/// A quantity in tenths of a unit: `5.0` is `Qty(50)`.
#[derive(Debug, Clone, Copy, PartialEq, Eq, PartialOrd, Ord, Hash, Structural)]
pub struct Qty(pub i64);

/// A price as it is printed: two decimals, with its sign.
pub open spec fn price_text(p: Price) -> Seq<char> {
    fixed(p.0 as int, 100, 2)
}

/// A quantity as it is printed: one decimal, with its sign.
pub open spec fn qty_text(q: int) -> Seq<char> {
    fixed(q, 10, 1)
}

impl Price {
    pub fn from_f64(x: Double) -> (r: Result<Self, ConvertError>)
        ensures
            match r {
                Ok(p) => x.positive() && p.0 == x.ticks(100),
                Err(e) => !x.positive() && e == ConvertError::BadPrice(x),
            },
    {
        match x.to_ticks(PRICE_SCALE) {
            Some(t) => Ok(Price(t)),
            None => Err(ConvertError::BadPrice(x)),
        }
    }

    pub fn to_f64(self) -> (r: Double)
        ensures
            r.is_ratio(self.0 as int, 100),
    {
        Double::ratio(self.0, PRICE_SCALE)
    }

    /// The price as decimal text.
    pub fn to_string(self) -> (r: String)
        ensures
            r@ == price_text(self),
    {
        text::fixed_point(self.0 as i128, 100, 2)
    }
}

impl Qty {
    pub fn from_f64(x: Double) -> (r: Result<Self, ConvertError>)
        ensures
            match r {
                Ok(q) => x.positive() && q.0 == x.ticks(10),
                Err(e) => !x.positive() && e == ConvertError::BadQuantity(x),
            },
    {
        match x.to_ticks(QTY_SCALE) {
            Some(t) => Ok(Qty(t)),
            None => Err(ConvertError::BadQuantity(x)),
        }
    }

    pub fn to_f64(self) -> (r: Double)
        ensures
            r.is_ratio(self.0 as int, 10),
    {
        Double::ratio(self.0, QTY_SCALE)
    }

    pub fn is_zero(self) -> (r: bool)
        ensures
            r == (self.0 == 0),
    {
        self.0 == 0
    }

    /// The quantity as decimal text.
    pub fn to_string(self) -> (r: String)
        ensures
            r@ == qty_text(self.0 as int),
    {
        text::fixed_point(self.0 as i128, 10, 1)
    }
}

/// A limit order as the engine tracks it.
///
/// `id` is the feed message id that introduced the order. Because feed ids are
/// strictly increasing, `id` is also the arrival timestamp for time priority:
/// there is no separate sequence field, and the wire `timestamp` is never used
/// for ordering (it is wall-clock and non-monotonic).
#[derive(Debug, Clone, Copy, PartialEq, Eq, Structural)]
pub struct Order {
    pub id: OrderId,
    pub account: AccountId,
    pub side: Side,
    pub price: Price,
    /// Remaining quantity. Decremented on each fill; the order leaves the book
    /// when this reaches exactly zero.
    pub qty: Qty,
}

/// A trade the engine inferred. The feed never publishes these: two orders
/// crossing is our conclusion, not the exchange's.
#[derive(Debug, Clone, Copy, PartialEq, Eq)]
pub struct Trade {
    /// The feed message id that caused this trade.
    pub seq: OrderId,
    pub symbol: Symbol,
    /// The resting (maker) order's price. The aggressor never sets the price.
    pub price: Price,
    pub qty: Qty,
    pub maker_order: OrderId,
    pub maker_account: AccountId,
    pub taker_order: OrderId,
    pub taker_account: AccountId,
    pub taker_side: Side,
}

/// A feed message normalized into engine terms.
#[derive(Debug, Clone, PartialEq, Eq)]
pub enum Event {
    New { symbol: Symbol, order: Order },
    /// Only `target_id` and `account` are consumed from the wire message.
    /// `seq` is the cancel's own feed id, kept purely as the cursor / ordering
    /// key. The wire `timestamp` is dropped.
    ///
    /// There is deliberately no `symbol` here: a cancel does not carry one, and
    /// which book holds `target_id` depends on accumulated engine state that
    /// this stateless conversion cannot see. The symbol is resolved in the
    /// matcher instead.
    Cancel { seq: OrderId, account: AccountId, target_id: OrderId },
}

impl Event {
    /// The feed sequence id of the message this event came from.
    pub fn seq(&self) -> (r: OrderId)
        ensures
            r == (match *self {
                Event::New { order, .. } => order.id,
                Event::Cancel { seq, .. } => seq,
            }),
    {
        match self {
            Event::New { order, .. } => order.id,
            Event::Cancel { seq, .. } => *seq,
        }
    }
}

/// Why a feed message could not be normalized. The runner logs and skips these
/// rather than aborting the poll loop.
#[derive(Debug, Clone, PartialEq)]
pub enum ConvertError {
    UnknownSymbol(String),
    BadPrice(Double),
    BadQuantity(Double),
}

impl ConvertError {
    /// What is printed of the error, given how the number it holds is printed.
    pub open spec fn reason(self, shown: Seq<char>) -> Seq<char> {
        match self {
            ConvertError::UnknownSymbol(s) => "unknown symbol '"@ + s@ + "'"@,
            ConvertError::BadPrice(_) => "invalid price "@ + shown,
            ConvertError::BadQuantity(_) => "invalid quantity "@ + shown,
        }
    }

    /// The number that the error holds, if it holds one.
    pub fn number(&self) -> (r: Option<Double>)
        ensures
            r == (match *self {
                ConvertError::UnknownSymbol(_) => None,
                ConvertError::BadPrice(x) => Some(x),
                ConvertError::BadQuantity(x) => Some(x),
            }),
    {
        match self {
            ConvertError::UnknownSymbol(_) => None,
            ConvertError::BadPrice(x) => Some(*x),
            ConvertError::BadQuantity(x) => Some(*x),
        }
    }

    /// The error as text. `shown` is the offending number as text; an unknown
    /// symbol has none.
    pub fn to_text(&self, shown: &str) -> (r: String)
        ensures
            r@ == self.reason(shown@),
    {
        match self {
            ConvertError::UnknownSymbol(s) => {
                let mut r = "unknown symbol '".to_owned();
                r.append(s.as_str());
                r.append("'");
                r
            },
            ConvertError::BadPrice(_) => {
                let mut r = "invalid price ".to_owned();
                r.append(shown);
                r
            },
            ConvertError::BadQuantity(_) => {
                let mut r = "invalid quantity ".to_owned();
                r.append(shown);
                r
            },
        }
    }
}

/// Interns a symbol against the feed's own table.
pub fn resolve_symbol(s: &str) -> (r: Option<Symbol>)
    ensures
        match r {
            Some(symbol) => listed(s@) && symbol@ == s@,
            None => !listed(s@),
        },
{
    if text::same(s, "NEX-USDC") {
        Some("NEX-USDC")
    } else if text::same(s, "ETH-USDC") {
        Some("ETH-USDC")
    } else if text::same(s, "BTC-USDC") {
        Some("BTC-USDC")
    } else {
        None
    }
}

/// Whether `r` is what normalizing a message gives. A new order's symbol is
/// looked at first, its price next and its quantity last; the first that does
/// not do is the error. A cancel always converts.
pub open spec fn converts(msg: OrderMessage, r: Result<Event, ConvertError>) -> bool {
    match msg {
        OrderMessage::New { id, account, symbol, side, price, quantity, .. } => {
            if !listed(symbol@) {
                r matches Err(ConvertError::UnknownSymbol(s)) && s@ == symbol@
            } else if !price.positive() {
                r == Err::<Event, ConvertError>(ConvertError::BadPrice(price))
            } else if !quantity.positive() {
                r == Err::<Event, ConvertError>(ConvertError::BadQuantity(quantity))
            } else {
                r matches Ok(Event::New { symbol: interned, order }) && interned@ == symbol@
                    && order.id == id && order.account == account && order.side == side
                    && order.price.0 == price.ticks(100) && order.qty.0 == quantity.ticks(10)
            }
        },
        OrderMessage::Cancel { id, account, target_id, .. } => r == Ok::<Event, ConvertError>(
            Event::Cancel { seq: id, account, target_id },
        ),
    }
}

impl TryFrom<OrderMessage> for Event {
    type Error = ConvertError;

    fn try_from(msg: OrderMessage) -> (r: Result<Self, ConvertError>)
        ensures
            converts(msg, r),
    {
        match msg {
            // `timestamp` is intentionally discarded: it is wall-clock, it
            // repeats across messages, and `id` is the only ordering key.
            OrderMessage::New { id, account, symbol, side, price, quantity, .. } => {
                let interned = match resolve_symbol(symbol.as_str()) {
                    Some(interned) => interned,
                    None => {
                        return Err(ConvertError::UnknownSymbol(symbol));
                    },
                };
                let price = match Price::from_f64(price) {
                    Ok(price) => price,
                    Err(e) => {
                        return Err(e);
                    },
                };
                let qty = match Qty::from_f64(quantity) {
                    Ok(qty) => qty,
                    Err(e) => {
                        return Err(e);
                    },
                };
                Ok(
                    Event::New {
                        symbol: interned,
                        order: Order { id, account, side, price, qty },
                    },
                )
            },
            OrderMessage::Cancel { id, account, target_id, .. } => Ok(
                Event::Cancel { seq: id, account, target_id },
            ),
        }
    }
}

/// The conversion is described by `converts`, not by a function: which copy of
/// the symbol's text an event holds is left open.
impl vstd::std_specs::convert::TryFromSpecImpl<OrderMessage> for Event {
    open spec fn obeys_try_from_spec() -> bool {
        false
    }

    open spec fn try_from_spec(msg: OrderMessage) -> Result<Self, ConvertError> {
        arbitrary()
    }
}

/// Normalizing keeps a message's place in the stream, so the cursor and the
/// events count alike.
pub proof fn law_an_event_keeps_its_place(msg: OrderMessage, event: Event)
    requires
        converts(msg, Ok(event)),
    ensures
        msg.place() == (match event {
            Event::New { order, .. } => order.id,
            Event::Cancel { seq, .. } => seq,
        }),
{
}

} // verus!
