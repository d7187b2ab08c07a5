//! The orders of the load generator.
//!
//! Buyers bid from one below to a fifth above a price of a hundred, sellers ask from
//! a fifth below to one above it, in steps of a hundredth.
use crate::channels::{channel_market, market_of_channel};
use crate::decimal::Decimal;
use crate::types::{MarketID, Order, OrderID, OrderType, Price, Side, UserID};
use vstd::prelude::*;

verus! {

/// The lowest and the highest distance from the mid price, in hundredths.
pub open spec fn spread_of(side: Side) -> (int, int) {
    match side {
        Side::Buy => (-100, 20),
        Side::Sell => (-20, 100),
    }
}

/// The lowest and the highest distance from the mid price, in hundredths.
pub fn spread(side: Side) -> (r: (i64, i64))
    ensures
        (r.0 as int, r.1 as int) == spread_of(side),
{
    match side {
        Side::Buy => (-100, 20),
        Side::Sell => (-20, 100),
    }
}

/// The price at a distance from the mid price; `None` where it overflows.
pub open spec fn price_at(offset: int) -> Option<Decimal> {
    match Decimal::of((offset, 0)).over(Decimal::of((100, 0))) {
        Some(distance) => Decimal::of((1000, 1)).plus(distance),
        None => None,
    }
}

/// The price at a distance from the mid price, in hundredths.
pub fn price_for(offset: i64) -> (r: Option<Price>)
    ensures
        r == price_at(offset as int),
{
    let distance = match Decimal::new(offset, 0).checked_div(Decimal::new(100, 0)) {
        Some(distance) => distance,
        None => return None,
    };
    Decimal::new(1000, 1).checked_add(distance)
}

/// An order for one unit.
pub fn unit_order(
    order_id: OrderID,
    user_id: UserID,
    market_id: MarketID,
    side: Side,
    price: Price,
) -> (r: Order)
    ensures
        r == (Order {
            order_id,
            user_id,
            market_id,
            side,
            price,
            quantity: Decimal::of((10, 1)),
            order_type: OrderType::Limit,
            timestamp: 0,
        }),
{
    Order {
        order_id,
        user_id,
        market_id,
        side,
        price,
        quantity: Decimal::new(10, 1),
        order_type: OrderType::Limit,
        timestamp: 0,
    }
}

/// Whether a channel is one of the given market.
pub fn is_channel_of(name: &str, market: u32) -> (r: bool)
    ensures
        r == (channel_market(name@) == Some(market)),
{
    match market_of_channel(name) {
        Some(id) => id.0 == market,
        None => false,
    }
}

/// Sellers stand as far on one side of the mid price as buyers do on the other, and the
/// two ranges overlap.
pub proof fn law_spreads_mirror()
    ensures
        spread_of(Side::Sell).0 == -spread_of(Side::Buy).1,
        spread_of(Side::Sell).1 == -spread_of(Side::Buy).0,
        spread_of(Side::Buy).0 <= spread_of(Side::Sell).0 < spread_of(Side::Buy).1
            <= spread_of(Side::Sell).1,
        spread_of(Side::Buy).0 == -100 && spread_of(Side::Buy).1 == 20,
{
}

/// A price is the mid price of a hundred and the distance in hundredths together.
pub proof fn law_price(offset: int)
    ensures
        price_at(offset) matches Some(price) ==> exists|distance: Decimal|
            #![trigger Decimal::of((1000, 1)).plus(distance)]
            {
                &&& Decimal::of((offset, 0)).over(Decimal::of((100, 0))) == Some(distance)
                &&& Decimal::of((1000, 1)).plus(distance) == Some(price)
            },
        price_at(offset) is None ==> match Decimal::of((offset, 0)).over(Decimal::of((100, 0))) {
            Some(distance) => Decimal::of((1000, 1)).plus(distance) is None,
            None => true,
        },
{
}

} // verus!
