//! Market events in binary form.
use crate::bytes::lemma_regroup;
use crate::codec::{
    decimal_read, decimal_wire, lemma_decimal_back, lemma_u32_back, lemma_u64_back, read_decimal,
    read_u32, read_u64, seen, u32_read, u32_wire, u64_read, u64_wire, write_decimal, write_u32,
    write_u64,
};
use crate::decimal::Decimal;
use crate::messages::{front, read_side, side_read, side_wire};
use crate::types::{MarketEvent, MarketID, OrderID, Side, Trade, TradeID, UserID};
use vstd::prelude::*;

verus! {

pub open spec fn trade_wire(t: Trade) -> Seq<u8> {
    u64_wire(t.trade_id.0) + (u32_wire(t.market_id.0) + (u64_wire(t.maker_order_id.0) + (u64_wire(
        t.taker_order_id.0,
    ) + (u64_wire(t.maker_user_id.0) + (u64_wire(t.taker_user_id.0) + (decimal_wire(t.quantity) + (
    decimal_wire(t.price) + (u64_wire(t.timestamp) + side_wire(t.taker_side)))))))))
}

pub open spec fn trade_read(s: Seq<u8>) -> Option<(Trade, Seq<u8>)> {
    match u64_read(s) {
        Some((trade_id, s)) => match u32_read(s) {
            Some((market_id, s)) => match u64_read(s) {
                Some((maker_order_id, s)) => match u64_read(s) {
                    Some((taker_order_id, s)) => match u64_read(s) {
                        Some((maker_user_id, s)) => match u64_read(s) {
                            Some((taker_user_id, s)) => match decimal_read(s) {
                                Some((quantity, s)) => match decimal_read(s) {
                                    Some((price, s)) => match u64_read(s) {
                                        Some((timestamp, s)) => match side_read(s) {
                                            Some((taker_side, s)) => Some(
                                                (
                                                    Trade {
                                                        trade_id: TradeID(trade_id),
                                                        market_id: MarketID(market_id),
                                                        maker_order_id: OrderID(maker_order_id),
                                                        taker_order_id: OrderID(taker_order_id),
                                                        maker_user_id: UserID(maker_user_id),
                                                        taker_user_id: UserID(taker_user_id),
                                                        quantity,
                                                        price,
                                                        timestamp,
                                                        taker_side,
                                                    },
                                                    s,
                                                ),
                                            ),
                                            None => None,
                                        },
                                        None => None,
                                    },
                                    None => None,
                                },
                                None => None,
                            },
                            None => None,
                        },
                        None => None,
                    },
                    None => None,
                },
                None => None,
            },
            None => None,
        },
        None => None,
    }
}

pub open spec fn event_wire(e: MarketEvent) -> Seq<u8> {
    match e {
        MarketEvent::OrderPlaced {
            order_id,
            user_id,
            market_id,
            side,
            price,
            quantity,
            timestamp,
        } => u32_wire(0) + (u64_wire(order_id.0) + (u64_wire(user_id.0) + (u32_wire(market_id.0) + (
        side_wire(side) + (decimal_wire(price) + (decimal_wire(quantity) + u64_wire(timestamp))))))),
        MarketEvent::OrderTraded(trade) => u32_wire(1) + trade_wire(trade),
        MarketEvent::OrderCancelled { order_id, timestamp } => u32_wire(2) + (u64_wire(order_id.0)
            + u64_wire(timestamp)),
    }
}

pub open spec fn placed_read(s: Seq<u8>) -> Option<(MarketEvent, Seq<u8>)> {
    match u64_read(s) {
        Some((order_id, s)) => match u64_read(s) {
            Some((user_id, s)) => match u32_read(s) {
                Some((market_id, s)) => match side_read(s) {
                    Some((side, s)) => match decimal_read(s) {
                        Some((price, s)) => match decimal_read(s) {
                            Some((quantity, s)) => match u64_read(s) {
                                Some((timestamp, s)) => Some(
                                    (
                                        MarketEvent::OrderPlaced {
                                            order_id: OrderID(order_id),
                                            user_id: UserID(user_id),
                                            market_id: MarketID(market_id),
                                            side,
                                            price,
                                            quantity,
                                            timestamp,
                                        },
                                        s,
                                    ),
                                ),
                                None => None,
                            },
                            None => None,
                        },
                        None => None,
                    },
                    None => None,
                },
                None => None,
            },
            None => None,
        },
        None => None,
    }
}

pub open spec fn cancelled_read(s: Seq<u8>) -> Option<(MarketEvent, Seq<u8>)> {
    match u64_read(s) {
        Some((order_id, s)) => match u64_read(s) {
            Some((timestamp, s)) => Some(
                (MarketEvent::OrderCancelled { order_id: OrderID(order_id), timestamp }, s),
            ),
            None => None,
        },
        None => None,
    }
}

pub open spec fn event_read(s: Seq<u8>) -> Option<(MarketEvent, Seq<u8>)> {
    match u32_read(s) {
        Some((tag, s)) => if tag == 0 {
            placed_read(s)
        } else if tag == 1 {
            match trade_read(s) {
                Some((trade, s)) => Some((MarketEvent::OrderTraded(trade), s)),
                None => None,
            }
        } else if tag == 2 {
            cancelled_read(s)
        } else {
            None
        },
        None => None,
    }
}

/// An event whose amounts are made of valid parts, as those of every event at run
/// time are.
pub open spec fn valid_event(e: MarketEvent) -> bool {
    match e {
        MarketEvent::OrderPlaced { price, quantity, .. } => price.valid() && quantity.valid(),
        MarketEvent::OrderTraded(trade) => trade.price.valid() && trade.quantity.valid(),
        MarketEvent::OrderCancelled { .. } => true,
    }
}

/// A trade as it is read once it was written.
pub open spec fn trade_as_read(t: Trade) -> Trade {
    Trade { price: t.price.as_read(), quantity: t.quantity.as_read(), ..t }
}

/// An event as it is read once it was written.
pub open spec fn event_as_read(e: MarketEvent) -> MarketEvent {
    match e {
        MarketEvent::OrderPlaced {
            order_id,
            user_id,
            market_id,
            side,
            price,
            quantity,
            timestamp,
        } => MarketEvent::OrderPlaced {
            order_id,
            user_id,
            market_id,
            side,
            price: price.as_read(),
            quantity: quantity.as_read(),
            timestamp,
        },
        MarketEvent::OrderTraded(trade) => MarketEvent::OrderTraded(trade_as_read(trade)),
        MarketEvent::OrderCancelled { .. } => e,
    }
}

/// An event whose amounts are read back as they were written.
pub open spec fn event_reads_back(e: MarketEvent) -> bool {
    match e {
        MarketEvent::OrderPlaced { price, quantity, .. } => price.reads_back()
            && quantity.reads_back(),
        MarketEvent::OrderTraded(trade) => trade.price.reads_back() && trade.quantity.reads_back(),
        MarketEvent::OrderCancelled { .. } => true,
    }
}

fn write_side(out: &mut Vec<u8>, side: Side)
    ensures
        final(out)@ == old(out)@ + side_wire(side),
{
    match side {
        Side::Buy => write_u32(out, 0),
        Side::Sell => write_u32(out, 1),
    }
}

fn write_trade(out: &mut Vec<u8>, t: &Trade)
    ensures
        final(out)@ == old(out)@ + trade_wire(*t),
{
    write_u64(out, t.trade_id.0);
    write_u32(out, t.market_id.0);
    write_u64(out, t.maker_order_id.0);
    write_u64(out, t.taker_order_id.0);
    write_u64(out, t.maker_user_id.0);
    write_u64(out, t.taker_user_id.0);
    write_decimal(out, &t.quantity);
    write_decimal(out, &t.price);
    write_u64(out, t.timestamp);
    write_side(out, t.taker_side);
    assert(out@ =~= old(out)@ + trade_wire(*t));
}

/// The bytes of an event, as it is published.
pub fn encode_event(e: &MarketEvent) -> (r: Vec<u8>)
    ensures
        r@ == event_wire(*e),
{
    let mut out: Vec<u8> = Vec::new();
    match e {
        MarketEvent::OrderPlaced {
            order_id,
            user_id,
            market_id,
            side,
            price,
            quantity,
            timestamp,
        } => {
            write_u32(&mut out, 0);
            write_u64(&mut out, order_id.0);
            write_u64(&mut out, user_id.0);
            write_u32(&mut out, market_id.0);
            write_side(&mut out, *side);
            write_decimal(&mut out, price);
            write_decimal(&mut out, quantity);
            write_u64(&mut out, *timestamp);
        },
        MarketEvent::OrderTraded(trade) => {
            write_u32(&mut out, 1);
            write_trade(&mut out, trade);
        },
        MarketEvent::OrderCancelled { order_id, timestamp } => {
            write_u32(&mut out, 2);
            write_u64(&mut out, order_id.0);
            write_u64(&mut out, *timestamp);
        },
    }
    assert(out@ =~= event_wire(*e));
    out
}

fn read_trade(s: &[u8]) -> (r: Option<(Trade, &[u8])>)
    ensures
        seen(r) == trade_read(s@),
{
    let (trade_id, s) = read_u64(s)?;
    let (market_id, s) = read_u32(s)?;
    let (maker_order_id, s) = read_u64(s)?;
    let (taker_order_id, s) = read_u64(s)?;
    let (maker_user_id, s) = read_u64(s)?;
    let (taker_user_id, s) = read_u64(s)?;
    let (quantity, s) = read_decimal(s)?;
    let (price, s) = read_decimal(s)?;
    let (timestamp, s) = read_u64(s)?;
    let (taker_side, s) = read_side(s)?;
    Some(
        (
            Trade {
                trade_id: TradeID(trade_id),
                market_id: MarketID(market_id),
                maker_order_id: OrderID(maker_order_id),
                taker_order_id: OrderID(taker_order_id),
                maker_user_id: UserID(maker_user_id),
                taker_user_id: UserID(taker_user_id),
                quantity,
                price,
                timestamp,
                taker_side,
            },
            s,
        ),
    )
}

fn read_placed(s: &[u8]) -> (r: Option<(MarketEvent, &[u8])>)
    ensures
        seen(r) == placed_read(s@),
{
    let (order_id, s) = read_u64(s)?;
    let (user_id, s) = read_u64(s)?;
    let (market_id, s) = read_u32(s)?;
    let (side, s) = read_side(s)?;
    let (price, s) = read_decimal(s)?;
    let (quantity, s) = read_decimal(s)?;
    let (timestamp, s) = read_u64(s)?;
    Some(
        (
            MarketEvent::OrderPlaced {
                order_id: OrderID(order_id),
                user_id: UserID(user_id),
                market_id: MarketID(market_id),
                side,
                price,
                quantity,
                timestamp,
            },
            s,
        ),
    )
}

/// The event that some bytes begin with, if they do.
pub fn decode_event(bytes: &[u8]) -> (r: Option<MarketEvent>)
    ensures
        r == front(event_read(bytes@)),
{
    let (tag, s) = read_u32(bytes)?;
    if tag == 0 {
        let (placed, _rest) = read_placed(s)?;
        Some(placed)
    } else if tag == 1 {
        let (trade, _rest) = read_trade(s)?;
        Some(MarketEvent::OrderTraded(trade))
    } else if tag == 2 {
        let (order_id, s) = read_u64(s)?;
        let (timestamp, _rest) = read_u64(s)?;
        Some(MarketEvent::OrderCancelled { order_id: OrderID(order_id), timestamp })
    } else {
        None
    }
}

proof fn lemma_side_back(side: Side, rest: Seq<u8>)
    ensures
        side_read(side_wire(side) + rest) == Some((side, rest)),
{
    lemma_u32_back(0, rest);
    lemma_u32_back(1, rest);
}

proof fn lemma_trade_back(t: Trade, rest: Seq<u8>)
    requires
        t.price.valid(),
        t.quantity.valid(),
    ensures
        trade_read(trade_wire(t) + rest) == Some((trade_as_read(t), rest)),
{
    let w9 = side_wire(t.taker_side);
    let w8 = u64_wire(t.timestamp) + w9;
    let w7 = decimal_wire(t.price) + w8;
    let w6 = decimal_wire(t.quantity) + w7;
    let w5 = u64_wire(t.taker_user_id.0) + w6;
    let w4 = u64_wire(t.maker_user_id.0) + w5;
    let w3 = u64_wire(t.taker_order_id.0) + w4;
    let w2 = u64_wire(t.maker_order_id.0) + w3;
    let w1 = u32_wire(t.market_id.0) + w2;
    lemma_regroup(u64_wire(t.trade_id.0), w1, rest);
    lemma_regroup(u32_wire(t.market_id.0), w2, rest);
    lemma_regroup(u64_wire(t.maker_order_id.0), w3, rest);
    lemma_regroup(u64_wire(t.taker_order_id.0), w4, rest);
    lemma_regroup(u64_wire(t.maker_user_id.0), w5, rest);
    lemma_regroup(u64_wire(t.taker_user_id.0), w6, rest);
    lemma_regroup(decimal_wire(t.quantity), w7, rest);
    lemma_regroup(decimal_wire(t.price), w8, rest);
    lemma_regroup(u64_wire(t.timestamp), w9, rest);
    let (s1, s2, s3) = (w1 + rest, w2 + rest, w3 + rest);
    let (s4, s5, s6) = (w4 + rest, w5 + rest, w6 + rest);
    let (s7, s8, s9) = (w7 + rest, w8 + rest, w9 + rest);
    lemma_u64_back(t.trade_id.0, s1);
    lemma_u32_back(t.market_id.0, s2);
    lemma_u64_back(t.maker_order_id.0, s3);
    lemma_u64_back(t.taker_order_id.0, s4);
    lemma_u64_back(t.maker_user_id.0, s5);
    lemma_u64_back(t.taker_user_id.0, s6);
    lemma_decimal_back(t.quantity, s7);
    lemma_decimal_back(t.price, s8);
    lemma_u64_back(t.timestamp, s9);
    lemma_side_back(t.taker_side, rest);
}

/// An event as it is read is the one that was written, unless that has a zero with a
/// minus sign; it is read back as it is from then on.
proof fn lemma_event_as_read(e: MarketEvent)
    requires
        valid_event(e),
    ensures
        event_reads_back(event_as_read(e)),
        event_reads_back(e) ==> event_as_read(e) == e,
{
    match e {
        MarketEvent::OrderPlaced { price, quantity, .. } => {
            Decimal::lemma_as_read(price);
            Decimal::lemma_as_read(quantity);
        },
        MarketEvent::OrderTraded(trade) => {
            Decimal::lemma_as_read(trade.price);
            Decimal::lemma_as_read(trade.quantity);
        },
        MarketEvent::OrderCancelled { .. } => {},
    }
}

/// An event comes back out of its bytes, whatever follows them; of a zero the sign is
/// lost.
pub proof fn law_event_back(e: MarketEvent, rest: Seq<u8>)
    requires
        valid_event(e),
    ensures
        event_read(event_wire(e) + rest) == Some((event_as_read(e), rest)),
        event_reads_back(e) ==> event_read(event_wire(e) + rest) == Some((e, rest)),
{
    lemma_event_as_read(e);
    match e {
        MarketEvent::OrderPlaced {
            order_id,
            user_id,
            market_id,
            side,
            price,
            quantity,
            timestamp,
        } => {
            let w6 = u64_wire(timestamp);
            let w5 = decimal_wire(quantity) + w6;
            let w4 = decimal_wire(price) + w5;
            let w3 = side_wire(side) + w4;
            let w2 = u32_wire(market_id.0) + w3;
            let w1 = u64_wire(user_id.0) + w2;
            let w0 = u64_wire(order_id.0) + w1;
            lemma_regroup(u32_wire(0), w0, rest);
            lemma_regroup(u64_wire(order_id.0), w1, rest);
            lemma_regroup(u64_wire(user_id.0), w2, rest);
            lemma_regroup(u32_wire(market_id.0), w3, rest);
            lemma_regroup(side_wire(side), w4, rest);
            lemma_regroup(decimal_wire(price), w5, rest);
            lemma_regroup(decimal_wire(quantity), w6, rest);
            let (s0, s1, s2, s3) = (w0 + rest, w1 + rest, w2 + rest, w3 + rest);
            let (s4, s5, s6) = (w4 + rest, w5 + rest, w6 + rest);
            lemma_u32_back(0, s0);
            lemma_u64_back(order_id.0, s1);
            lemma_u64_back(user_id.0, s2);
            lemma_u32_back(market_id.0, s3);
            lemma_side_back(side, s4);
            lemma_decimal_back(price, s5);
            lemma_decimal_back(quantity, s6);
            lemma_u64_back(timestamp, rest);
        },
        MarketEvent::OrderTraded(trade) => {
            let tail = trade_wire(trade) + rest;
            assert(event_wire(e) + rest =~= u32_wire(1) + tail);
            lemma_u32_back(1, tail);
            lemma_trade_back(trade, rest);
        },
        MarketEvent::OrderCancelled { order_id, timestamp } => {
            let s1 = u64_wire(timestamp) + rest;
            let s0 = u64_wire(order_id.0) + s1;
            assert(event_wire(e) + rest =~= u32_wire(2) + s0);
            lemma_u32_back(2, s0);
            lemma_u64_back(order_id.0, s1);
            lemma_u64_back(timestamp, rest);
        },
    }
}

} // verus!
