//! What the order feed publishes.

use crate::double::Double;
use vstd::prelude::*;

verus! {

pub type OrderId = u64;

pub type AccountId = u32;

/// Which side of the book an order stands on.
#[derive(Debug, Clone, Copy, PartialEq, Eq, Structural)]
pub enum Side {
    Buy,
    Sell,
}

/// A feed message as it stands on the wire. The feed numbers its messages from
/// 1 without gaps, whatever their kind.
#[derive(Debug, Clone, PartialEq)]
pub enum OrderMessage {
    New {
        id: OrderId,
        /// Milliseconds of wall-clock time.
        timestamp: u64,
        account: AccountId,
        symbol: String,
        side: Side,
        price: Double,
        quantity: Double,
    },
    Cancel {
        id: OrderId,
        timestamp: u64,
        account: AccountId,
        /// The message that introduced the order to cancel.
        target_id: OrderId,
    },
}

impl OrderMessage {
    /// The message's place in the stream.
    pub open spec fn place(self) -> OrderId {
        match self {
            OrderMessage::New { id, .. } => id,
            OrderMessage::Cancel { id, .. } => id,
        }
    }

    pub fn id(&self) -> (r: OrderId)
        ensures
            r == self.place(),
    {
        match self {
            OrderMessage::New { id, .. } => *id,
            OrderMessage::Cancel { id, .. } => *id,
        }
    }
}

/// Whether a trading pair is one of those that the feed publishes.
pub open spec fn listed(symbol: Seq<char>) -> bool {
    symbol == "NEX-USDC"@ || symbol == "ETH-USDC"@ || symbol == "BTC-USDC"@
}

} // verus!
