use clob::channels::{events_channel, market_channel, market_of_channel};
use clob::client::{is_channel_of, price_for, spread, unit_order};
use clob::config::Settings;
use clob::decimal::Decimal;
use clob::events::encode_event;
use clob::framing::{frame, frame_length};
use clob::gateway::{client_filter, is_wanted, parse_markets, relay, wants_json};
use clob::types::{MarketEvent, MarketID, OrderID, OrderType, Side, UserID};

#[test]
fn channels_are_named_after_their_market() {
    assert_eq!(market_channel(MarketID(0)), "market:0");
    assert_eq!(market_channel(MarketID(4294967295)), "market:4294967295");
    assert_eq!(events_channel(MarketID(120)), "market-events:120");
    assert_eq!(market_of_channel(&events_channel(MarketID(120))), Some(MarketID(120)));
    assert_eq!(market_of_channel(&market_channel(MarketID(7))), Some(MarketID(7)));
}

#[test]
fn only_the_second_piece_of_a_name_counts() {
    assert_eq!(market_of_channel("a:5:6"), Some(MarketID(5)));
    assert_eq!(market_of_channel("a:+5"), Some(MarketID(5)));
    assert_eq!(market_of_channel("a:007"), Some(MarketID(7)));
    assert_eq!(market_of_channel("a:"), None);
    assert_eq!(market_of_channel("a:+"), None);
    assert_eq!(market_of_channel("a:-1"), None);
    assert_eq!(market_of_channel("a: 1"), None);
    assert_eq!(market_of_channel("a:1x"), None);
    assert_eq!(market_of_channel("a:4294967296"), None);
    assert_eq!(market_of_channel("5"), None);
    assert_eq!(market_of_channel(""), None);
}

#[test]
fn users_are_written_as_their_number() {
    assert_eq!(UserID(0).to_string(), "0");
    assert_eq!(UserID(10).to_string(), "10");
    assert_eq!(UserID(u64::MAX).to_string(), "18446744073709551615");
}

fn sorted(list: &str) -> Vec<u32> {
    let mut ids: Vec<u32> = parse_markets(list).into_iter().collect();
    ids.sort();
    ids
}

#[test]
fn lists_of_markets_are_read_leniently() {
    assert_eq!(sorted("1"), vec![1]);
    assert_eq!(sorted(" 3,1 ,\t2\u{3000},1"), vec![1, 2, 3]);
    assert_eq!(sorted("1,x,,2 3,-4,+5"), vec![1, 5]);
    assert_eq!(sorted(""), Vec::<u32>::new());
    assert_eq!(sorted(",,"), Vec::<u32>::new());
}

#[test]
fn clients_hear_of_the_markets_they_asked_for() {
    let all = client_filter(None);
    assert!(is_wanted(&all, 9));
    let some = client_filter(Some("1, 2"));
    assert!(is_wanted(&some, 2));
    assert!(!is_wanted(&some, 3));
    let none = client_filter(Some("x"));
    assert!(!is_wanted(&none, 3));
}

#[test]
fn text_frames_are_sent_on_request_only() {
    assert!(wants_json(Some("json")));
    assert!(!wants_json(Some("JSON")));
    assert!(!wants_json(Some("binary")));
    assert!(!wants_json(Some("json ")));
    assert!(!wants_json(None));
}

#[test]
fn published_events_are_relayed_under_their_market() {
    let event = MarketEvent::OrderCancelled { order_id: OrderID(4), timestamp: 5 };
    let bytes = encode_event(&event);
    assert_eq!(relay("market-events:12", &bytes), Some((12, event)));
    assert_eq!(relay("market-events:x", &bytes), None);
    assert_eq!(relay("market-events:12", &bytes[..5]), None);
}

#[test]
fn frames_carry_their_length() {
    let payload: Vec<u8> = (0..600u32).map(|i| i as u8).collect();
    let bytes = frame(&payload);
    assert_eq!(&bytes[..4], &[0, 0, 2, 88]);
    assert_eq!(&bytes[4..], &payload[..]);
    assert_eq!(frame_length(&[bytes[0], bytes[1], bytes[2], bytes[3]]), 600);
    assert_eq!(frame_length(&[1, 2, 3, 4]), 16909060);
    assert_eq!(frame_length(&[255, 255, 255, 255]), u32::MAX);
    assert_eq!(frame(&[]), vec![0, 0, 0, 0]);
}

#[test]
fn quotes_lie_around_a_hundred() {
    assert_eq!(spread(Side::Buy), (-100, 20));
    assert_eq!(spread(Side::Sell), (-20, 100));
    assert_eq!(price_for(-100), Some(Decimal::new(9900, 2)));
    assert_eq!(price_for(20), Some(Decimal::new(10020, 2)));
    assert_eq!(price_for(7).unwrap().mantissa(), 10007);
    assert_eq!(price_for(0), Some(Decimal::new(100, 0)));
    let order =
        unit_order(OrderID(1), UserID(2), MarketID(3), Side::Buy, Decimal::new(9900, 2));
    assert_eq!(order.quantity, Decimal::new(10, 1));
    assert_eq!(order.order_type, OrderType::Limit);
    assert_eq!(order.timestamp, 0);
    assert!(is_channel_of("market-events:3", 3));
    assert!(!is_channel_of("market-events:30", 3));
    assert!(!is_channel_of("market-events", 3));
}

#[test]
fn defaults_are_complete() {
    let settings = Settings::defaults();
    assert_eq!(settings.redis_addr, "redis://10.10.0.2:6379/");
    assert_eq!(settings.execution_plane.tcp_listen_addr, "0.0.0.0:8080");
    assert_eq!(settings.settlement_plane.checkpoint_interval_seconds, 5);
    assert_eq!(settings.gateway.http_listen_addr, "127.0.0.1:9100");
}
