//! The data model: identifiers, orders, trades, events and transactions.
//!
//! A price is an amount of quote currency per unit of base currency; a quantity
//! is an amount of base currency.
use crate::decimal::Decimal;
use std::collections::VecDeque;
use vstd::prelude::*;

verus! {

/// Price in quote currency per one unit of base currency.
pub type Price = Decimal;

/// Quantity in base-asset units.
pub type Quantity = Decimal;

/// A SHA-256 digest.
pub type Hash = [u8; 32];

/// Unique identifier for an order.
#[derive(Debug, Clone, Copy, PartialEq, Eq, Hash, PartialOrd, Ord, Structural)]
pub struct OrderID(pub u64);

/// Unique identifier for a user.
#[derive(Debug, Clone, Copy, PartialEq, Eq, Hash, PartialOrd, Ord, Structural)]
pub struct UserID(pub u64);

/// Unique identifier for a trade within a market.
#[derive(Debug, Clone, Copy, PartialEq, Eq, Hash, PartialOrd, Ord, Structural)]
pub struct TradeID(pub u64);

/// Opaque identifier for an asset.
#[derive(Debug, Clone, Copy, PartialEq, Eq, Hash, PartialOrd, Ord, Structural)]
pub struct AssetID(pub u32);

/// Identifier for a market: a base/quote pair.
#[derive(Debug, Clone, Copy, PartialEq, Eq, Hash, PartialOrd, Ord, Structural)]
pub struct MarketID(pub u32);

/// The bytes of an ED25519 verifying key.
#[derive(Debug, Clone, Copy, PartialEq, Eq)]
pub struct PublicKey(pub [u8; 32]);

/// The bytes of an ED25519 signature: the two halves, one after the other.
#[derive(Debug, Clone, Copy, PartialEq, Eq)]
pub struct Signature(pub [u8; 64]);

#[derive(Debug, Clone, Copy, PartialEq, Eq, Hash, Structural)]
pub enum Side {
    Buy,
    Sell,
}

#[derive(Debug, Clone, Copy, PartialEq, Eq, Hash, Structural)]
pub enum OrderType {
    Limit,
}

/// Client order describing intent to buy or sell a quantity at a price.
#[derive(Debug, Clone, Copy, PartialEq, Eq)]
pub struct Order {
    pub order_id: OrderID,
    pub user_id: UserID,
    pub market_id: MarketID,
    pub side: Side,
    pub price: Price,
    pub quantity: Quantity,
    pub order_type: OrderType,
    pub timestamp: u64,
}

/// An [`Order`] bundled with an ED25519 [`Signature`] over its encoding.
#[derive(Debug, Clone, Copy, PartialEq, Eq)]
pub struct SignedOrder {
    pub order: Order,
    pub signature: Signature,
}

/// Deposit of an amount of an asset into a user's account.
#[derive(Debug, Clone, Copy, PartialEq, Eq)]
pub struct Deposit {
    pub user_id: UserID,
    pub asset_id: AssetID,
    pub amount: Quantity,
}

/// All transactions recorded in the execution log.
#[derive(Debug, Clone, Copy, PartialEq, Eq)]
pub enum Transaction {
    SignedOrder(SignedOrder),
    Deposit(Deposit),
}

/// Executed trade resulting from matching maker and taker orders.
#[derive(Debug, Clone, Copy, PartialEq, Eq)]
pub struct Trade {
    pub trade_id: TradeID,
    pub market_id: MarketID,
    pub maker_order_id: OrderID,
    pub taker_order_id: OrderID,
    pub maker_user_id: UserID,
    pub taker_user_id: UserID,
    pub quantity: Quantity,
    pub price: Price,
    pub timestamp: u64,
    pub taker_side: Side,
}

/// Events emitted by the matching engine.
///
/// - `OrderPlaced` is emitted when a residual order is added to the book.
/// - `OrderTraded` is emitted for each trade execution.
/// - `OrderCancelled` is reserved for future use and not currently emitted.
#[derive(Debug, Clone, Copy, PartialEq, Eq)]
pub enum MarketEvent {
    OrderPlaced {
        order_id: OrderID,
        user_id: UserID,
        market_id: MarketID,
        side: Side,
        price: Price,
        quantity: Quantity,
        timestamp: u64,
    },
    OrderTraded(Trade),
    OrderCancelled { order_id: OrderID, timestamp: u64 },
}

/// The resting orders at one price, oldest first.
pub type PriceLevel = VecDeque<Order>;

} // verus!
