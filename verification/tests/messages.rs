use clob::decimal::Decimal;
use clob::events::{decode_event, encode_event};
use clob::messages::{
    decode_signed_order, decode_transaction, encode_order, encode_signed_order, encode_transaction,
};
use clob::types::{
    AssetID, Deposit, MarketEvent, MarketID, Order, OrderID, OrderType, Side, Signature,
    SignedOrder, Trade, TradeID, Transaction, UserID,
};

fn order(side: Side) -> Order {
    Order {
        order_id: OrderID(7),
        user_id: UserID(u64::MAX),
        market_id: MarketID(3),
        side,
        price: Decimal::new(-1005, 1),
        quantity: Decimal::new(5, 3),
        order_type: OrderType::Limit,
        timestamp: 258,
    }
}

fn signed(side: Side) -> SignedOrder {
    let mut bytes = [0u8; 64];
    for (i, b) in bytes.iter_mut().enumerate() {
        *b = i as u8;
    }
    SignedOrder { order: order(side), signature: Signature(bytes) }
}

fn outside(mantissa: i64, scale: u32) -> rust_decimal::Decimal {
    rust_decimal::Decimal::new(mantissa, scale)
}

#[test]
fn an_order_is_written_field_by_field() {
    let fields = (7u64, u64::MAX, 3u32, 1u32, outside(-1005, 1), outside(5, 3), 0u32, 258u64);
    assert_eq!(encode_order(&order(Side::Sell)), bincode::serialize(&fields).unwrap());
}

#[test]
fn a_decimal_is_written_as_its_text() {
    let tx = Transaction::Deposit(Deposit {
        user_id: UserID(1),
        asset_id: AssetID(2),
        amount: Decimal::new(-50, 3),
    });
    let mut expected: Vec<u8> = vec![1, 0, 0, 0, 1, 0, 0, 0, 0, 0, 0, 0, 2, 0, 0, 0];
    expected.extend_from_slice(&[6, 0, 0, 0, 0, 0, 0, 0]);
    expected.extend_from_slice(b"-0.050");
    assert_eq!(encode_transaction(&tx), expected);
}

#[test]
fn transactions_come_back() {
    let all = vec![
        Transaction::SignedOrder(signed(Side::Buy)),
        Transaction::SignedOrder(signed(Side::Sell)),
        Transaction::Deposit(Deposit {
            user_id: UserID(9),
            asset_id: AssetID(1),
            amount: Decimal::from_parts(79228162514264337593543950335, 28).unwrap(),
        }),
        Transaction::Deposit(Deposit {
            user_id: UserID(9),
            asset_id: AssetID(1),
            amount: Decimal::new(0, 2),
        }),
    ];
    for tx in all {
        let mut bytes = encode_transaction(&tx);
        let back = decode_transaction(&bytes).unwrap();
        assert_eq!(back, tx);
        if let (Transaction::Deposit(a), Transaction::Deposit(b)) = (tx, back) {
            assert_eq!(a.amount.scale(), b.amount.scale());
        }
        bytes.push(77);
        assert_eq!(decode_transaction(&bytes), Some(tx));
        bytes.truncate(bytes.len() - 2);
        assert_eq!(decode_transaction(&bytes), None);
    }
}

#[test]
fn unknown_variants_are_no_transactions() {
    assert_eq!(decode_transaction(&[2, 0, 0, 0, 0, 0, 0, 0, 0, 0, 0, 0]), None);
    assert_eq!(decode_transaction(&[]), None);
    let mut bytes = encode_transaction(&Transaction::SignedOrder(signed(Side::Sell)));
    // the side of the order
    bytes[24] = 2;
    assert_eq!(decode_transaction(&bytes), None);
}

#[test]
fn a_decimal_in_other_notation_is_understood() {
    let mut bytes: Vec<u8> = vec![1, 0, 0, 0, 1, 0, 0, 0, 0, 0, 0, 0, 2, 0, 0, 0];
    bytes.extend_from_slice(&[3, 0, 0, 0, 0, 0, 0, 0]);
    bytes.extend_from_slice(b"1e2");
    match decode_transaction(&bytes) {
        Some(Transaction::Deposit(deposit)) => assert_eq!(deposit.amount, Decimal::new(100, 0)),
        _ => panic!("expected a deposit"),
    }
    let n = bytes.len();
    bytes[n - 1] = b'x';
    assert_eq!(decode_transaction(&bytes), None);
}

#[test]
fn signed_orders_come_back() {
    let x = signed(Side::Buy);
    let bytes = encode_signed_order(&x);
    assert_eq!(&bytes[bytes.len() - 64..], &x.signature.0[..]);
    assert_eq!(decode_signed_order(&bytes), Some(x));
    assert_eq!(decode_signed_order(&bytes[..bytes.len() - 1]), None);
}

#[test]
fn events_come_back() {
    let trade = Trade {
        trade_id: TradeID(1),
        market_id: MarketID(2),
        maker_order_id: OrderID(3),
        taker_order_id: OrderID(4),
        maker_user_id: UserID(5),
        taker_user_id: UserID(6),
        quantity: Decimal::new(15, 1),
        price: Decimal::new(100, 0),
        timestamp: 9,
        taker_side: Side::Sell,
    };
    let fields = (
        (1u32, 1u64, 2u32, 3u64, 4u64),
        (5u64, 6u64, outside(15, 1), outside(100, 0), 9u64, 1u32),
    );
    let traded = MarketEvent::OrderTraded(trade);
    assert_eq!(encode_event(&traded), bincode::serialize(&fields).unwrap());
    let placed = MarketEvent::OrderPlaced {
        order_id: OrderID(1),
        user_id: UserID(2),
        market_id: MarketID(3),
        side: Side::Sell,
        price: Decimal::new(5, 1),
        quantity: Decimal::new(6, 0),
        timestamp: 7,
    };
    let fields = (0u32, 1u64, 2u64, 3u32, 1u32, outside(5, 1), outside(6, 0), 7u64);
    assert_eq!(encode_event(&placed), bincode::serialize(&fields).unwrap());
    let cancelled = MarketEvent::OrderCancelled { order_id: OrderID(1), timestamp: 2 };
    assert_eq!(encode_event(&cancelled), bincode::serialize(&(2u32, 1u64, 2u64)).unwrap());
    for event in vec![traded, placed, cancelled] {
        let bytes = encode_event(&event);
        assert_eq!(decode_event(&bytes), Some(event));
        assert_eq!(decode_event(&bytes[..bytes.len() - 1]), None);
    }
    assert_eq!(decode_event(&[3, 0, 0, 0]), None);
}
