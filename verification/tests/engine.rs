use clob::book::OrderBook;
use clob::decimal::Decimal;
use clob::engine::MatchingEngine;
use clob::types::{MarketEvent, MarketID, Order, OrderID, OrderType, Side, Trade, UserID};

fn create_order(id: u64, user_id: u64, side: Side, price: Decimal, qty: Decimal) -> Order {
    Order {
        order_id: OrderID(id),
        user_id: UserID(user_id),
        market_id: MarketID(1),
        side,
        price,
        quantity: qty,
        order_type: OrderType::Limit,
        timestamp: 0,
    }
}

fn trade_in(event: &MarketEvent) -> Trade {
    match event {
        MarketEvent::OrderTraded(trade) => *trade,
        _ => panic!("expected a trade"),
    }
}

#[test]
fn test_place_order_no_match() {
    let mut book = OrderBook::new();
    let order = create_order(1, 1, Side::Buy, Decimal::new(1000, 1), Decimal::new(100, 1));
    let events = book.process_order(order);

    assert_eq!(book.bids.len(), 1);
    assert_eq!(book.asks.len(), 0);
    assert_eq!(book.bids.get(&Decimal::new(1000, 1)).unwrap().len(), 1);
    assert_eq!(events.len(), 1);
    assert!(matches!(events[0], MarketEvent::OrderPlaced { .. }));
}

#[test]
fn test_simple_full_match() {
    let mut book = OrderBook::new();
    let maker_order = create_order(1, 1, Side::Sell, Decimal::new(1000, 1), Decimal::new(100, 1));
    book.process_order(maker_order);
    let taker_order = create_order(2, 2, Side::Buy, Decimal::new(1000, 1), Decimal::new(100, 1));
    let events = book.process_order(taker_order);

    assert!(book.bids.is_empty());
    assert!(book.asks.is_empty());
    assert_eq!(events.len(), 1);
    match &events[0] {
        MarketEvent::OrderTraded(trade) => {
            assert_eq!(trade.maker_user_id, maker_order.user_id);
            assert_eq!(trade.taker_user_id, taker_order.user_id);
        }
        _ => panic!("Expected OrderTraded event"),
    }
}

#[test]
fn partial_fill_leaves_the_maker_in_front() {
    let mut book = OrderBook::new();
    book.process_order(create_order(1, 1, Side::Sell, Decimal::new(100, 0), Decimal::new(5, 0)));
    book.process_order(create_order(2, 2, Side::Sell, Decimal::new(100, 0), Decimal::new(5, 0)));
    let events =
        book.process_order(create_order(3, 3, Side::Buy, Decimal::new(100, 0), Decimal::new(75, 1)));
    assert_eq!(events.len(), 2);
    let (a, b) = (trade_in(&events[0]), trade_in(&events[1]));
    assert_eq!((a.trade_id.0, a.maker_order_id.0), (0, 1));
    assert_eq!(a.quantity, Decimal::new(5, 0));
    assert_eq!((b.trade_id.0, b.maker_order_id.0), (1, 2));
    assert_eq!(b.quantity, Decimal::new(25, 1));
    let level = book.asks.get(&Decimal::new(100, 0)).unwrap();
    assert_eq!(level.len(), 1);
    assert_eq!(level[0].order_id, OrderID(2));
    assert_eq!(level[0].quantity, Decimal::new(25, 1));
    assert_eq!(book.next_trade_id, 2);
}

#[test]
fn best_price_is_served_first_at_the_makers_price() {
    let mut book = OrderBook::new();
    book.process_order(create_order(1, 1, Side::Buy, Decimal::new(99, 0), Decimal::new(1, 0)));
    book.process_order(create_order(2, 1, Side::Buy, Decimal::new(101, 0), Decimal::new(1, 0)));
    book.process_order(create_order(3, 1, Side::Buy, Decimal::new(100, 0), Decimal::new(1, 0)));
    let events =
        book.process_order(create_order(4, 2, Side::Sell, Decimal::new(100, 0), Decimal::new(3, 0)));
    assert_eq!(events.len(), 3);
    assert_eq!(trade_in(&events[0]).maker_order_id, OrderID(2));
    assert_eq!(trade_in(&events[0]).price, Decimal::new(101, 0));
    assert_eq!(trade_in(&events[1]).maker_order_id, OrderID(3));
    match events[2] {
        MarketEvent::OrderPlaced { order_id, side, quantity, .. } => {
            assert_eq!(order_id, OrderID(4));
            assert_eq!(side, Side::Sell);
            assert_eq!(quantity, Decimal::new(1, 0));
        }
        _ => panic!("expected a placement"),
    }
    assert!(book.bids.best_price().unwrap().less_than(&book.asks.best_price().unwrap()));
}

#[test]
fn an_order_without_quantity_does_nothing() {
    let mut book = OrderBook::new();
    book.process_order(create_order(1, 1, Side::Sell, Decimal::new(1, 0), Decimal::new(1, 0)));
    assert!(book
        .process_order(create_order(2, 2, Side::Buy, Decimal::new(2, 0), Decimal::new(0, 0)))
        .is_empty());
    assert!(book
        .process_order(create_order(3, 2, Side::Buy, Decimal::new(2, 0), Decimal::new(-1, 0)))
        .is_empty());
    assert_eq!(book.asks.len(), 1);
    assert!(book.bids.is_empty());
}

#[test]
fn equal_prices_of_different_scale_share_a_level() {
    let mut book = OrderBook::new();
    book.process_order(create_order(1, 1, Side::Buy, Decimal::new(10, 1), Decimal::new(1, 0)));
    book.process_order(create_order(2, 2, Side::Buy, Decimal::new(100, 2), Decimal::new(1, 0)));
    assert_eq!(book.bids.len(), 1);
    let level = book.bids.get(&Decimal::new(1, 0)).unwrap();
    assert_eq!((level[0].order_id.0, level[1].order_id.0), (1, 2));
}
