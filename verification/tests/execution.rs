use clob::accounts::AccountCache;
use clob::crypto::{
    is_signed_under, public_key, secret_from_hex, secret_to_hex, sign_order, SecretTextError,
};
use clob::decimal::{Decimal, MAX_MANTISSA};
use clob::events::encode_event;
use clob::execution::{apply_event, sequence, take_snapshot};
use clob::framing::{frame, order_frame, order_record, records_in, transaction_record};
use clob::ingress::{create_user, deposit_payload, register_key, screen, IngressError};
use clob::keys::PublicKeyCache;
use clob::market::Market;
use clob::matcher::{
    next_action, on_deposit, on_message, Outcome, PublishAction, PublishStep, Verdict,
};
use clob::messages::{encode_order, encode_signed_order, encode_transaction};
use clob::risk::{check_order, OrderCheck};
use clob::types::{
    AssetID, Deposit, MarketEvent, MarketID, Order, OrderID, OrderType, Side, Signature,
    SignedOrder, Transaction, UserID,
};
use clob::users::{ExecutionPlaneError, UserManager};

const SECRET: [u8; 32] = [7u8; 32];

fn order(id: u64, user: u64, side: Side, price: i64, quantity: i64) -> Order {
    Order {
        order_id: OrderID(id),
        user_id: UserID(user),
        market_id: MarketID(1),
        side,
        price: Decimal::new(price, 0),
        quantity: Decimal::new(quantity, 0),
        order_type: OrderType::Limit,
        timestamp: 0,
    }
}

fn deposit(user: u64, asset: u32, amount: i64) -> Deposit {
    Deposit { user_id: UserID(user), asset_id: AssetID(asset), amount: Decimal::new(amount, 0) }
}

fn manager() -> UserManager {
    UserManager::new(AccountCache::new(), PublicKeyCache::new())
}

fn balance(cache: &AccountCache, user: u64, asset: u32) -> Decimal {
    cache.get(UserID(user)).unwrap().balance(AssetID(asset))
}

#[test]
fn signatures_hold_under_the_matching_key_only() {
    let key = public_key(&SECRET);
    assert_ne!(key.0, SECRET);
    let signed = sign_order(&SECRET, order(1, 1, Side::Buy, 100, 1));
    assert!(is_signed_under(&signed, &key));
    assert!(!is_signed_under(&signed, &public_key(&[8u8; 32])));
    let mut forged = signed;
    forged.order.quantity = Decimal::new(2, 0);
    assert!(!is_signed_under(&forged, &key));
    let reference = ed25519_dalek::SigningKey::from_bytes(&SECRET);
    assert_eq!(reference.verifying_key().to_bytes(), key.0);
    assert!(reference
        .verify(&encode_order(&signed.order), &ed25519_dalek::Signature::from_bytes(&signed.signature.0))
        .is_ok());
}

#[test]
fn secrets_come_back_out_of_their_text() {
    let mut secret = SECRET;
    secret[0] = 0xAB;
    secret[31] = 0x0F;
    let text = secret_to_hex(&secret);
    assert_eq!(text.len(), 64);
    assert!(text.starts_with("ab07"));
    assert!(text.ends_with("070f"));
    assert_eq!(secret_from_hex(&text), Ok(secret));
    assert_eq!(secret_from_hex(&text.to_uppercase()), Ok(secret));
    assert_eq!(secret_from_hex("abc"), Err(SecretTextError::NotHex));
    assert_eq!(secret_from_hex("zz"), Err(SecretTextError::NotHex));
    assert_eq!(secret_from_hex("abcd"), Err(SecretTextError::WrongLength));
}

#[test]
fn new_users_have_an_empty_account_and_a_key() {
    let mut users = manager();
    let (id, secret) = users.create_user();
    let (other, other_secret) = users.create_user();
    assert_ne!(secret, other_secret);
    assert_ne!(id, other);
    assert_eq!(users.public_key_cache.get(id), Some(public_key(&secret)));
    assert!(users.account_cache.get(id).unwrap().balances.is_empty());
    assert_eq!(users.account_cache.get(id).unwrap().user_id, id);
}

#[test]
fn deposits_need_a_known_user() {
    let mut users = manager();
    users.register(UserID(1), &SECRET);
    assert_eq!(users.deposit(UserID(1), AssetID(1), Decimal::new(5, 0)), Ok(()));
    assert_eq!(
        users.deposit(UserID(2), AssetID(1), Decimal::new(5, 0)),
        Err(ExecutionPlaneError::UserNotFound(UserID(2)))
    );
    let most = Decimal::from_parts(MAX_MANTISSA, 0).unwrap();
    assert_eq!(
        users.try_deposit(UserID(1), AssetID(1), most),
        Err(ExecutionPlaneError::Overflow)
    );
    assert_eq!(
        users.try_deposit(UserID(3), AssetID(1), most),
        Err(ExecutionPlaneError::UserNotFound(UserID(3)))
    );
    assert_eq!(users.try_deposit(UserID(1), AssetID(1), Decimal::new(1, 0)), Ok(()));
    assert_eq!(balance(&users.account_cache, 1, 1), Decimal::new(6, 0));
}

#[test]
fn the_check_of_an_order_finds_the_first_fault() {
    let mut users = manager();
    let buy = sign_order(&SECRET, order(1, 1, Side::Buy, 100, 3));
    let check = |users: &UserManager, signed: &SignedOrder| {
        check_order(&users.account_cache, &users.public_key_cache, signed)
    };
    assert!(matches!(check(&users, &buy), OrderCheck::UserNotFound));
    users.account_cache.deposit(&deposit(1, 7, 1));
    assert!(matches!(check(&users, &buy), OrderCheck::NoBalance));
    users.account_cache.deposit(&deposit(1, 1, 299));
    match check(&users, &buy) {
        OrderCheck::TooLittle { balance, required } => {
            assert_eq!(balance, Decimal::new(299, 0));
            assert_eq!(required, Decimal::new(300, 0));
        }
        _ => panic!("expected too little"),
    }
    users.account_cache.deposit(&deposit(1, 1, 1));
    assert!(matches!(check(&users, &buy), OrderCheck::PublicKeyNotFound));
    register_key(&mut users.public_key_cache, UserID(1), &[9u8; 32]);
    assert!(matches!(check(&users, &buy), OrderCheck::BadSignature));
    register_key(&mut users.public_key_cache, UserID(1), &SECRET);
    assert!(matches!(check(&users, &buy), OrderCheck::Accepted));
    let sell = sign_order(&SECRET, order(2, 1, Side::Sell, 100, 3));
    assert!(matches!(check(&users, &sell), OrderCheck::NoBalance));
    let mut huge = order(3, 1, Side::Buy, 2, 1);
    huge.quantity = Decimal::from_parts(MAX_MANTISSA, 0).unwrap();
    assert!(matches!(check(&users, &sign_order(&SECRET, huge)), OrderCheck::Overflow));
}

#[test]
fn the_sequencer_forwards_good_orders() {
    let mut users = manager();
    users.register(UserID(1), &SECRET);
    let buy = sign_order(&SECRET, order(1, 1, Side::Buy, 100, 3));
    let tx = Transaction::SignedOrder(buy);
    assert_eq!(sequence(&mut users, &tx), Err(ExecutionPlaneError::InsufficientFunds(UserID(1))));
    assert_eq!(sequence(&mut users, &Transaction::Deposit(deposit(1, 1, 100))), Ok(None));
    assert_eq!(sequence(&mut users, &tx), Ok(None));
    assert_eq!(sequence(&mut users, &Transaction::Deposit(deposit(1, 1, 200))), Ok(None));
    assert_eq!(sequence(&mut users, &tx), Ok(Some(buy.order)));
    let mut forged = buy;
    forged.signature = Signature([0u8; 64]);
    assert_eq!(sequence(&mut users, &Transaction::SignedOrder(forged)), Ok(None));
    assert_eq!(
        sequence(&mut users, &Transaction::Deposit(deposit(2, 1, 200))),
        Err(ExecutionPlaneError::UserNotFound(UserID(2)))
    );
    let stranger = sign_order(&SECRET, order(1, 2, Side::Buy, 100, 3));
    assert_eq!(
        sequence(&mut users, &Transaction::SignedOrder(stranger)),
        Err(ExecutionPlaneError::UserNotFound(UserID(2)))
    );
    users.account_cache.deposit(&deposit(3, 1, 1000));
    let keyless = sign_order(&SECRET, order(1, 3, Side::Buy, 100, 3));
    assert_eq!(
        sequence(&mut users, &Transaction::SignedOrder(keyless)),
        Err(ExecutionPlaneError::PublicKeyNotFound(UserID(3)))
    );
}

#[test]
fn trades_are_settled_strictly_in_the_execution_plane() {
    let mut accounts = AccountCache::new();
    let mut market = Market::new();
    market.submit(order(1, 1, Side::Sell, 100, 2)).unwrap();
    let events = market.submit(order(2, 2, Side::Buy, 100, 2)).unwrap();
    assert_eq!(events.len(), 1);
    let event = events[0];
    assert_eq!(
        apply_event(&mut accounts, &event),
        Err(ExecutionPlaneError::UserNotFound(UserID(1)))
    );
    accounts.deposit(&deposit(1, 2, 2));
    assert_eq!(
        apply_event(&mut accounts, &event),
        Err(ExecutionPlaneError::UserNotFound(UserID(2)))
    );
    accounts.deposit(&deposit(2, 1, 500));
    assert_eq!(
        apply_event(&mut accounts, &event),
        Err(ExecutionPlaneError::MissingBalance(UserID(2), AssetID(2)))
    );
    accounts.deposit(&deposit(2, 2, 0));
    assert_eq!(
        apply_event(&mut accounts, &event),
        Err(ExecutionPlaneError::MissingBalance(UserID(1), AssetID(1)))
    );
    accounts.deposit(&deposit(1, 1, 0));
    assert_eq!(apply_event(&mut accounts, &event), Ok(encode_event(&event)));
    assert_eq!(balance(&accounts, 2, 1), Decimal::new(300, 0));
    assert_eq!(balance(&accounts, 2, 2), Decimal::new(2, 0));
    let placed = market.submit(order(3, 2, Side::Buy, 90, 1)).unwrap();
    assert_eq!(apply_event(&mut accounts, &placed[0]), Ok(encode_event(&placed[0])));
    let snapshot = take_snapshot(&accounts, market.book());
    assert_eq!(snapshot.accounts.len(), 2);
    assert_eq!(snapshot.accounts[0].0, UserID(1));
    for (id, account) in &snapshot.accounts {
        assert_eq!(account.user_id, *id);
    }
    assert_eq!(snapshot.accounts[1].1.balance(AssetID(1)), Decimal::new(300, 0));
    assert_eq!(snapshot.order_book.bids.len(), 1);
    assert_eq!(snapshot.order_book.next_trade_id, 1);
}

#[test]
fn records_are_framed() {
    let signed = sign_order(&SECRET, order(1, 1, Side::Buy, 100, 1));
    let tx = Transaction::SignedOrder(signed);
    let bytes = encode_transaction(&tx);
    let record = transaction_record(&tx);
    assert_eq!(&record[..4], &(bytes.len() as u32).to_be_bytes()[..]);
    assert_eq!(&record[4..], &bytes[..]);
    assert_eq!(&order_record(&signed.order)[4..], &encode_order(&signed.order)[..]);
    assert_eq!(&order_frame(&signed)[4..], &encode_signed_order(&signed)[..]);
}

#[test]
fn a_log_file_splits_into_its_records() {
    let payloads: Vec<Vec<u8>> = vec![vec![1, 2, 3], vec![], vec![0; 300]];
    let mut bytes: Vec<u8> = Vec::new();
    assert_eq!(records_in(&bytes), Some(vec![]));
    for payload in &payloads {
        bytes.extend(frame(payload));
    }
    assert_eq!(&bytes[..11], &[0, 0, 0, 3, 1, 2, 3, 0, 0, 0, 0]);
    assert_eq!(records_in(&bytes), Some(payloads));
    assert_eq!(records_in(&bytes[..bytes.len() - 1]), None);
    assert_eq!(records_in(&bytes[..5]), None);
    assert_eq!(records_in(&bytes[..3]), None);
    assert_eq!(records_in(&bytes[..7]), Some(vec![vec![1, 2, 3]]));
}

#[test]
fn an_event_is_published_again_once() {
    assert!(matches!(next_action(1, PublishStep::Published), PublishAction::Finish));
    assert!(matches!(next_action(2, PublishStep::Published), PublishAction::Finish));
    assert!(matches!(next_action(1, PublishStep::PublishFailed), PublishAction::Reconnect));
    assert!(matches!(next_action(1, PublishStep::Connected), PublishAction::Publish));
    assert!(matches!(next_action(1, PublishStep::ConnectFailed), PublishAction::Drop));
    assert!(matches!(next_action(2, PublishStep::PublishFailed), PublishAction::Drop));
    let (mut attempts, mut action) = (0u32, PublishAction::Publish);
    loop {
        let step = match action {
            PublishAction::Publish => {
                attempts += 1;
                PublishStep::PublishFailed
            }
            PublishAction::Reconnect => PublishStep::Connected,
            _ => break,
        };
        action = next_action(attempts, step);
    }
    assert_eq!(attempts, 2);
    assert!(matches!(action, PublishAction::Drop));
}

#[test]
fn the_ingress_publishes_what_its_users_signed() {
    let mut keys = PublicKeyCache::new();
    let signed = sign_order(&SECRET, order(1, 1, Side::Buy, 100, 1));
    let message = encode_signed_order(&signed);
    assert!(matches!(screen(&keys, &message[1..]), Err(IngressError::Bincode)));
    assert!(matches!(screen(&keys, &message), Err(IngressError::PublicKeyNotFound(UserID(1)))));
    register_key(&mut keys, UserID(1), &[1u8; 32]);
    assert!(matches!(screen(&keys, &message), Err(IngressError::Signature)));
    register_key(&mut keys, UserID(1), &SECRET);
    let publication = screen(&keys, &message).unwrap();
    assert_eq!(publication.channel, "market:1");
    assert_eq!(publication.payload, encode_transaction(&Transaction::SignedOrder(signed)));
    let (id, secret) = create_user(&mut keys);
    assert_eq!(keys.get(id), Some(public_key(&secret)));
    assert_eq!(
        deposit_payload(deposit(1, 1, 5)),
        encode_transaction(&Transaction::Deposit(deposit(1, 1, 5)))
    );
}

fn message_of(order: Order) -> Vec<u8> {
    encode_transaction(&Transaction::SignedOrder(sign_order(&SECRET, order)))
}

#[test]
fn the_matcher_passes_over_what_is_not_covered() {
    let mut market = Market::new();
    let mut accounts = AccountCache::new();
    let sell = message_of(order(1, 1, Side::Sell, 100, 2));
    assert!(matches!(on_message(&mut market, &mut accounts, &[1, 2]), Outcome::NoOrder));
    let dep = deposit_payload(deposit(1, 2, 1));
    assert!(matches!(on_message(&mut market, &mut accounts, &dep), Outcome::NoOrder));
    assert!(matches!(
        on_message(&mut market, &mut accounts, &sell),
        Outcome::Rejected(Verdict::UserNotFound)
    ));
    assert!(on_deposit(&mut accounts, &dep));
    assert!(on_deposit(&mut accounts, &sell));
    assert!(matches!(
        on_message(&mut market, &mut accounts, &sell),
        Outcome::Rejected(Verdict::InsufficientFunds)
    ));
    assert!(matches!(
        on_message(&mut market, &mut accounts, &message_of(order(1, 1, Side::Buy, 100, 2))),
        Outcome::Rejected(Verdict::InsufficientFunds)
    ));
    let mut huge = order(3, 1, Side::Buy, 2, 1);
    huge.quantity = Decimal::from_parts(MAX_MANTISSA, 0).unwrap();
    assert!(matches!(
        on_message(&mut market, &mut accounts, &message_of(huge)),
        Outcome::Rejected(Verdict::Overflow)
    ));
    assert!(market.book().asks.is_empty());
    assert!(market.book().bids.is_empty());
}

#[test]
fn the_matcher_settles_and_reports() {
    let mut market = Market::new();
    let mut accounts = AccountCache::new();
    on_deposit(&mut accounts, &deposit_payload(deposit(1, 2, 2)));
    on_deposit(&mut accounts, &deposit_payload(deposit(2, 1, 200)));
    match on_message(&mut market, &mut accounts, &message_of(order(1, 1, Side::Sell, 100, 2))) {
        Outcome::Matched(events) => assert_eq!(events.len(), 1),
        _ => panic!("expected a match"),
    }
    match on_message(&mut market, &mut accounts, &message_of(order(2, 2, Side::Buy, 100, 2))) {
        Outcome::Matched(events) => {
            assert_eq!(events.len(), 1);
            assert!(matches!(events[0], MarketEvent::OrderTraded(_)));
        }
        _ => panic!("expected a match"),
    }
    assert_eq!(balance(&accounts, 2, 1), Decimal::new(0, 0));
    assert_eq!(balance(&accounts, 2, 2), Decimal::new(2, 0));
    assert_eq!(balance(&accounts, 1, 1), Decimal::new(200, 0));
    assert_eq!(balance(&accounts, 1, 2), Decimal::new(0, 0));
}

#[test]
fn messages_that_are_passed_over_leave_no_trace() {
    let orders = vec![
        order(1, 1, Side::Sell, 100, 2),
        order(2, 2, Side::Buy, 101, 1),
        order(3, 2, Side::Buy, 100, 1),
    ];
    let skipped = vec![
        vec![7u8],
        deposit_payload(deposit(1, 1, 5)),
        message_of(order(9, 8, Side::Buy, 1, 1)),
        message_of(order(10, 1, Side::Buy, 1000, 1000)),
    ];
    let mut seen = Vec::new();
    for with_skipped in [false, true] {
        let mut market = Market::new();
        let mut accounts = AccountCache::new();
        on_deposit(&mut accounts, &deposit_payload(deposit(1, 2, 2)));
        on_deposit(&mut accounts, &deposit_payload(deposit(2, 1, 200)));
        let mut published = Vec::new();
        for o in &orders {
            if with_skipped {
                for message in &skipped {
                    assert!(matches!(
                        on_message(&mut market, &mut accounts, message),
                        Outcome::NoOrder | Outcome::Rejected(_)
                    ));
                }
            }
            match on_message(&mut market, &mut accounts, &message_of(*o)) {
                Outcome::Matched(events) => published.extend(events.iter().map(encode_event)),
                _ => panic!("expected a match"),
            }
        }
        seen.push((published, clob::state::state_root(&accounts, market.book())));
    }
    assert_eq!(seen[0].0.len(), 3);
    assert_eq!(seen[0], seen[1]);
}

#[test]
fn the_matcher_leaves_accounts_alone_where_a_party_is_unknown() {
    let mut market = Market::new();
    market.submit(order(1, 9, Side::Sell, 100, 2)).unwrap();
    let mut accounts = AccountCache::new();
    on_deposit(&mut accounts, &deposit_payload(deposit(2, 1, 200)));
    match on_message(&mut market, &mut accounts, &message_of(order(2, 2, Side::Buy, 100, 2))) {
        Outcome::Matched(events) => assert_eq!(events.len(), 1),
        _ => panic!("expected a match"),
    }
    assert_eq!(balance(&accounts, 2, 1), Decimal::new(200, 0));
    assert!(!accounts.contains(UserID(9)));
}

#[test]
fn the_matcher_stops_where_a_balance_overflows() {
    let mut market = Market::new();
    let mut accounts = AccountCache::new();
    let most = Decimal::from_parts(MAX_MANTISSA, 0).unwrap();
    on_deposit(&mut accounts, &deposit_payload(deposit(1, 2, 2)));
    accounts.deposit(&Deposit { user_id: UserID(1), asset_id: AssetID(1), amount: most });
    on_deposit(&mut accounts, &deposit_payload(deposit(2, 1, 200)));
    assert!(!on_deposit(&mut accounts, &deposit_payload(deposit(1, 1, 1))));
    on_message(&mut market, &mut accounts, &message_of(order(1, 1, Side::Sell, 100, 2)));
    match on_message(&mut market, &mut accounts, &message_of(order(2, 2, Side::Buy, 100, 2))) {
        Outcome::Overflowed(events) => assert!(events.is_empty()),
        _ => panic!("expected an overflow"),
    }
    assert_eq!(balance(&accounts, 2, 1), Decimal::new(200, 0));
}
