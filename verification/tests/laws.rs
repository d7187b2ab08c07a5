use clob::accounts::AccountCache;
use clob::book::OrderBook;
use clob::crypto::sign_order;
use clob::decimal::{Decimal, MAX_MANTISSA};
use clob::engine::MatchingEngine;
use clob::execution::{apply_event, sequence};
use clob::keys::PublicKeyCache;
use clob::messages::encode_transaction;
use clob::replay::reconstruct_state_from_log;
use clob::types::{
    AssetID, Deposit, MarketEvent, MarketID, Order, OrderID, OrderType, Side, Trade, TradeID,
    Transaction, UserID,
};
use clob::users::{ExecutionPlaneError, UserManager};

struct Dice(u64);

impl Dice {
    fn roll(&mut self, n: u64) -> u64 {
        self.0 = self.0.wrapping_mul(6364136223846793005).wrapping_add(1442695040888963407);
        (self.0 >> 33) % n
    }
}

fn random_order(dice: &mut Dice, id: u64) -> Order {
    Order {
        order_id: OrderID(id),
        user_id: UserID(dice.roll(4)),
        market_id: MarketID(1),
        side: if dice.roll(2) == 0 { Side::Buy } else { Side::Sell },
        price: Decimal::new(95 + dice.roll(10) as i64, 0),
        quantity: Decimal::new(1 + dice.roll(50) as i64, 1),
        order_type: OrderType::Limit,
        timestamp: id,
    }
}

fn resting(book: &OrderBook) -> Vec<Order> {
    let mut all = Vec::new();
    for i in 0..book.bids.len() {
        all.extend(book.bids.level_at(i).orders.iter().copied());
    }
    for i in 0..book.asks.len() {
        all.extend(book.asks.level_at(i).orders.iter().copied());
    }
    all
}

fn sum(amounts: Vec<Decimal>) -> Decimal {
    amounts.into_iter().fold(Decimal::zero(), |a, b| a.checked_add(b).unwrap())
}

#[test]
fn a_book_stays_in_order_and_uncrossed() {
    let mut dice = Dice(7);
    let mut book = OrderBook::new();
    for id in 0..500 {
        let order = random_order(&mut dice, id);
        let before = resting(&book).len() as u64 + book.next_trade_id;
        let makers = resting(&book);
        let events = book.process_order(order);
        let kept: Vec<OrderID> = resting(&book).iter().map(|o| o.order_id).collect();
        for maker in &makers {
            if !kept.contains(&maker.order_id) {
                assert!(events.iter().any(|e| match e {
                    MarketEvent::OrderTraded(t) => {
                        t.maker_order_id == maker.order_id && t.quantity == maker.quantity
                    }
                    _ => false,
                }));
            }
        }
        assert!(resting(&book).len() as u64 + book.next_trade_id <= before + 1);
        for i in 1..book.bids.len() {
            assert!(book.bids.level_at(i).price.less_than(&book.bids.level_at(i - 1).price));
        }
        for i in 1..book.asks.len() {
            assert!(book.asks.level_at(i - 1).price.less_than(&book.asks.level_at(i).price));
        }
        if let (Some(bid), Some(ask)) = (book.bids.best_price(), book.asks.best_price()) {
            assert!(bid.less_than(&ask));
        }
        for o in resting(&book) {
            assert!(o.quantity.is_positive());
        }
        let mut traded = Vec::new();
        let mut rested = Decimal::zero();
        for event in &events {
            match event {
                MarketEvent::OrderTraded(t) => {
                    assert_eq!(t.taker_order_id, order.order_id);
                    match order.side {
                        Side::Buy => assert!(!order.price.less_than(&t.price)),
                        Side::Sell => assert!(!t.price.less_than(&order.price)),
                    }
                    traded.push(t.quantity);
                }
                MarketEvent::OrderPlaced { quantity, .. } => rested = *quantity,
                MarketEvent::OrderCancelled { .. } => panic!("nothing is cancelled"),
            }
        }
        traded.push(rested);
        assert_eq!(sum(traded), order.quantity);
    }
    assert!(book.next_trade_id > 0);
}

#[test]
fn equal_books_report_equal_events() {
    let (mut one, mut other) = (OrderBook::new(), OrderBook::new());
    let mut dice = Dice(5);
    for id in 0..300 {
        let order = random_order(&mut dice, id);
        assert_eq!(one.process_order(order), other.process_order(order));
        assert_eq!(resting(&one), resting(&other));
        assert_eq!(one.next_trade_id, other.next_trade_id);
    }
    assert!(one.next_trade_id > 0);
}

#[test]
fn a_replay_processes_the_orders_of_the_log() {
    let secret = [3u8; 32];
    let mut dice = Dice(13);
    let mut log: Vec<Vec<u8>> = Vec::new();
    let mut book = OrderBook::new();
    for user in [0u64, 1, 2, 3, 9] {
        log.push(encode_transaction(&Transaction::Deposit(Deposit {
            user_id: UserID(user),
            asset_id: AssetID(1),
            amount: Decimal::new(5, 0),
        })));
    }
    for id in 0..150 {
        let order = random_order(&mut dice, id);
        book.process_order(order);
        log.push(encode_transaction(&Transaction::SignedOrder(sign_order(&secret, order))));
    }
    let (accounts, replayed) = reconstruct_state_from_log(&log).unwrap();
    assert_eq!(resting(&replayed), resting(&book));
    assert_eq!(replayed.next_trade_id, book.next_trade_id);
    let users: Vec<u64> = accounts.accounts().iter().map(|a| a.user_id.0).collect();
    assert_eq!(users, vec![0, 1, 2, 3, 9]);
}

#[test]
fn an_order_joins_the_back_of_its_level() {
    let mut book = OrderBook::new();
    for id in 0..3 {
        let mut order = random_order(&mut Dice(1), id);
        order.side = Side::Sell;
        order.price = Decimal::new(100 - (id as i64 % 2), 0);
        book.process_order(order);
    }
    let ids: Vec<u64> = resting(&book).iter().map(|o| o.order_id.0).collect();
    assert_eq!(ids, vec![1, 0, 2]);
}

#[test]
fn users_together_hold_what_was_deposited() {
    let secret = [3u8; 32];
    let mut dice = Dice(11);
    let mut log: Vec<Vec<u8>> = Vec::new();
    for user in 0..4u64 {
        for asset in [1u32, 2] {
            log.push(encode_transaction(&Transaction::Deposit(Deposit {
                user_id: UserID(user),
                asset_id: AssetID(asset),
                amount: Decimal::new(1000 + user as i64, 2),
            })));
        }
    }
    for id in 0..200 {
        let signed = sign_order(&secret, random_order(&mut dice, id));
        log.push(encode_transaction(&Transaction::SignedOrder(signed)));
    }
    let (accounts, book) = reconstruct_state_from_log(&log).unwrap();
    assert!(book.next_trade_id > 0);
    for asset in [1u32, 2] {
        let held =
            sum(accounts.accounts().iter().map(|a| a.balance(AssetID(asset))).collect());
        assert_eq!(held, Decimal::new(4006, 2));
    }
    for o in resting(&book) {
        assert!(accounts.contains(o.user_id));
    }
}

#[test]
fn overflows_are_reported_by_the_execution_plane() {
    let most = Decimal::from_parts(MAX_MANTISSA, 0).unwrap();
    let mut users = UserManager::new(AccountCache::new(), PublicKeyCache::new());
    let secret = users.enroll(UserID(1));
    assert_eq!(users.try_deposit(UserID(1), AssetID(1), most), Ok(()));
    let deposit =
        Deposit { user_id: UserID(1), asset_id: AssetID(1), amount: Decimal::new(1, 0) };
    assert_eq!(
        sequence(&mut users, &Transaction::Deposit(deposit)),
        Err(ExecutionPlaneError::Overflow)
    );
    let mut order = random_order(&mut Dice(1), 1);
    order.user_id = UserID(1);
    order.side = Side::Buy;
    order.quantity = most;
    let tx = Transaction::SignedOrder(sign_order(&secret, order));
    assert_eq!(sequence(&mut users, &tx), Err(ExecutionPlaneError::Overflow));
    let mut accounts = AccountCache::new();
    for user in [1u64, 2] {
        for asset in [1u32, 2] {
            let amount = if user == 1 { most } else { Decimal::zero() };
            accounts.deposit(&Deposit { user_id: UserID(user), asset_id: AssetID(asset), amount });
        }
    }
    let trade = Trade {
        trade_id: TradeID(1),
        market_id: MarketID(1),
        maker_order_id: OrderID(1),
        taker_order_id: OrderID(2),
        maker_user_id: UserID(1),
        taker_user_id: UserID(2),
        quantity: Decimal::new(1, 0),
        price: Decimal::new(1, 0),
        timestamp: 0,
        taker_side: Side::Buy,
    };
    assert_eq!(
        apply_event(&mut accounts, &MarketEvent::OrderTraded(trade)),
        Err(ExecutionPlaneError::Overflow)
    );
    assert_eq!(accounts.get(UserID(2)).unwrap().balance(AssetID(1)), Decimal::zero());
}
