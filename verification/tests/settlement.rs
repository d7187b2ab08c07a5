use clob::accounts::AccountCache;
use clob::audit::{
    da_get_url, verify_checkpoint, verify_log_file, L1Checkpoint, VerifierError,
};
use clob::crypto::sign_order;
use clob::decimal::{Decimal, MAX_MANTISSA};
use clob::execution::sequence;
use clob::ingress::screen;
use clob::keys::PublicKeyCache;
use clob::market::Market;
use clob::matcher::{on_deposit, on_message};
use clob::messages::{encode_signed_order, encode_transaction};
use clob::replay::{reconstruct_state_from_log, ReplayError};
use clob::settlement::{
    certificate_without_submission, make_checkpoint, Settlement, SettlementPlaneError,
};
use clob::state::{encode_account, state_leaves, state_root};
use clob::types::{
    AssetID, Deposit, MarketID, Order, OrderID, OrderType, Side, Transaction, UserID,
};
use clob::users::UserManager;
use sha2::{Digest, Sha256};

const SECRET: [u8; 32] = [7u8; 32];

fn order(id: u64, user: u64, side: Side, price: i64, quantity: i64) -> Order {
    Order {
        order_id: OrderID(id),
        user_id: UserID(user),
        market_id: MarketID(1),
        side,
        price: Decimal::new(price, 0),
        quantity: Decimal::new(quantity, 0),
        order_type: OrderType::Limit,
        timestamp: 0,
    }
}

fn ordered(id: u64, user: u64, side: Side, price: i64, quantity: i64) -> Vec<u8> {
    let signed = sign_order(&SECRET, order(id, user, side, price, quantity));
    encode_transaction(&Transaction::SignedOrder(signed))
}

fn deposited(user: u64, asset: u32, amount: Decimal) -> Vec<u8> {
    encode_transaction(&Transaction::Deposit(Deposit {
        user_id: UserID(user),
        asset_id: AssetID(asset),
        amount,
    }))
}

fn sample_log() -> Vec<Vec<u8>> {
    vec![
        deposited(1, 1, Decimal::new(1000, 0)),
        deposited(2, 2, Decimal::new(10, 0)),
        ordered(1, 2, Side::Sell, 101, 4),
        ordered(2, 2, Side::Sell, 100, 4),
        ordered(3, 1, Side::Buy, 100, 6),
    ]
}

fn official(state_root: String) -> L1Checkpoint {
    L1Checkpoint { state_root, da_certificate: None }
}

#[test]
fn a_log_is_replayed_to_accounts_and_book() {
    let (accounts, book) = reconstruct_state_from_log(&sample_log()).unwrap();
    let one = accounts.get(UserID(1)).unwrap();
    assert_eq!(one.balance(AssetID(1)), Decimal::new(600, 0));
    assert_eq!(one.balance(AssetID(2)), Decimal::new(4, 0));
    let two = accounts.get(UserID(2)).unwrap();
    assert_eq!(two.balance(AssetID(1)), Decimal::new(400, 0));
    assert_eq!(two.balance(AssetID(2)), Decimal::new(6, 0));
    assert_eq!(book.next_trade_id, 1);
    assert_eq!(book.bids.best_price(), Some(Decimal::new(100, 0)));
    assert_eq!(book.asks.best_price(), Some(Decimal::new(101, 0)));
}

#[test]
fn leaves_are_accounts_then_bids_then_asks() {
    let (accounts, book) = reconstruct_state_from_log(&sample_log()).unwrap();
    let mut bid = order(3, 1, Side::Buy, 100, 2);
    bid.quantity = book.bids.get(&Decimal::new(100, 0)).unwrap()[0].quantity;
    let expected: Vec<[u8; 32]> = vec![
        Sha256::digest(encode_account(&accounts.get(UserID(1)).unwrap())).into(),
        Sha256::digest(encode_account(&accounts.get(UserID(2)).unwrap())).into(),
        Sha256::digest(clob::messages::encode_order(&bid)).into(),
        Sha256::digest(clob::messages::encode_order(&order(1, 2, Side::Sell, 101, 4))).into(),
    ];
    assert_eq!(state_leaves(&accounts, &book), expected);
}

#[test]
fn a_zero_with_a_sign_shows_in_the_leaves() {
    let price = Decimal::from_parts(-5_000_000_000, 28).unwrap();
    let quantity = Decimal::new(1, 28);
    let at = |id: u64, user: u64, side: Side| {
        let mut o = order(id, user, side, 1, 1);
        o.price = price;
        o.quantity = quantity;
        encode_transaction(&Transaction::SignedOrder(sign_order(&SECRET, o)))
    };
    let log = vec![
        deposited(1, 1, Decimal::new(0, 0)),
        deposited(2, 2, quantity),
        at(1, 2, Side::Sell),
        at(2, 1, Side::Buy),
    ];
    let (accounts, book) = reconstruct_state_from_log(&log).unwrap();
    let mut none = rust_decimal::Decimal::new(0, 28);
    none.set_sign_negative(true);
    let mut expected: Vec<u8> = Vec::new();
    expected.extend(bincode::serialize(&1u64).unwrap());
    expected.extend(bincode::serialize(&2u64).unwrap());
    expected.extend(bincode::serialize(&1u32).unwrap());
    expected.extend(bincode::serialize(&none).unwrap());
    expected.extend(bincode::serialize(&2u32).unwrap());
    expected.extend(bincode::serialize(&rust_decimal::Decimal::new(1, 28)).unwrap());
    let taker = accounts.get(UserID(1)).unwrap();
    assert_eq!(encode_account(&taker), expected);
    assert!(expected.windows(4).any(|w| w == b"-0.0"));
    assert!(taker.balance(AssetID(1)).is_sign_negative());
    assert_eq!(taker.balance(AssetID(1)), Decimal::zero());
    let maker = accounts.get(UserID(2)).unwrap();
    assert!(maker.balance(AssetID(1)).is_sign_negative());
    assert_eq!(
        state_leaves(&accounts, &book)[0],
        <[u8; 32]>::from(Sha256::digest(&expected))
    );

    // What is written with the sign is read without it.
    let written = encode_transaction(&Transaction::Deposit(Deposit {
        user_id: UserID(1),
        asset_id: AssetID(1),
        amount: taker.balance(AssetID(1)),
    }));
    match clob::messages::decode_transaction(&written) {
        Some(Transaction::Deposit(d)) => {
            assert!(!d.amount.is_sign_negative());
            assert_eq!((d.amount.mantissa(), d.amount.scale()), (0, 28));
        }
        _ => panic!("expected a deposit"),
    }
}

#[test]
fn a_zero_may_be_read_with_a_sign() {
    let mut entry: Vec<u8> = Vec::new();
    entry.extend(bincode::serialize(&1u32).unwrap());
    entry.extend(bincode::serialize(&1u64).unwrap());
    entry.extend(bincode::serialize(&1u32).unwrap());
    entry.extend(bincode::serialize("-0.4e-28").unwrap());
    let outside: rust_decimal::Decimal =
        bincode::deserialize(&bincode::serialize("-0.4e-28").unwrap()).unwrap();
    assert!(outside.is_sign_negative());
    match clob::messages::decode_transaction(&entry) {
        Some(Transaction::Deposit(d)) => {
            assert!(d.amount.is_sign_negative());
            assert_eq!((d.amount.mantissa(), d.amount.scale()), (0, 28));
            assert_eq!((outside.mantissa(), outside.scale()), (0, 28));
        }
        _ => panic!("expected a deposit"),
    }
    let (accounts, book) = reconstruct_state_from_log(&vec![entry]).unwrap();
    let mut expected: Vec<u8> = Vec::new();
    expected.extend(bincode::serialize(&1u64).unwrap());
    expected.extend(bincode::serialize(&1u64).unwrap());
    expected.extend(bincode::serialize(&1u32).unwrap());
    expected.extend(bincode::serialize(&outside).unwrap());
    assert!(expected.windows(4).any(|w| w == b"-0.0"));
    assert_eq!(encode_account(&accounts.get(UserID(1)).unwrap()), expected);
    assert_eq!(
        state_leaves(&accounts, &book),
        vec![<[u8; 32]>::from(Sha256::digest(&expected))]
    );
}

#[test]
fn payloads_are_submitted_once_and_in_order() {
    let mut settlement = Settlement::new();
    let mut arrived: Vec<u8> = Vec::new();
    let mut accepted: Vec<u8> = Vec::new();
    let log: Vec<Vec<u8>> = Vec::new();
    for round in 0..40u8 {
        for k in 0..(round % 4) {
            let payload = vec![round, k, 0xFF];
            settlement.on_message(&payload);
            arrived.extend(&payload);
        }
        if let Some(batch) = settlement.on_tick() {
            let late = vec![round, 0xEE];
            settlement.on_message(&late);
            arrived.extend(&late);
            assert_eq!(settlement.on_tick(), None);
            if round % 3 == 0 {
                settlement.on_refused();
                let next = vec![round, 0xDD];
                settlement.on_message(&next);
                arrived.extend(&next);
                let mut expected = batch.clone();
                expected.extend(&late);
                expected.extend(&next);
                assert_eq!(settlement.on_tick(), Some(expected));
                settlement.on_refused();
            } else {
                settlement.on_accepted(&[1], &log).unwrap();
                accepted.extend(&batch);
            }
        }
        let mut all = accepted.clone();
        all.extend(&settlement.gathered.bytes);
        assert!(settlement.submitted.is_none());
        assert_eq!(all, arrived);
    }
    assert!(accepted.len() > 0);
}

#[test]
fn a_log_file_is_verified() {
    let log = sample_log();
    let checkpoint = make_checkpoint(&log, &[]).unwrap();
    let mut bytes: Vec<u8> = Vec::new();
    for entry in &log {
        bytes.extend(clob::framing::frame(entry));
    }
    let claimed = official(checkpoint.state_root);
    assert_eq!(verify_log_file(&bytes, &claimed), Ok(true));
    assert_eq!(verify_log_file(&bytes, &official(String::new())), Ok(false));
    assert_eq!(verify_log_file(&bytes[1..], &claimed), Err(VerifierError::Bincode));
    bytes.pop();
    assert_eq!(verify_log_file(&bytes, &claimed), Err(VerifierError::Bincode));
}

#[test]
fn a_log_with_a_fault_is_not_replayed() {
    let most = Decimal::from_parts(MAX_MANTISSA, 0).unwrap();
    let faults = vec![
        (vec![1u8, 2, 3], ReplayError::Malformed),
        (ordered(9, 5, Side::Buy, 1, 1), ReplayError::UnknownUser(UserID(5))),
        (deposited(1, 1, most), ReplayError::Overflow),
    ];
    for (entry, error) in faults {
        let mut log = sample_log();
        log.push(entry);
        match reconstruct_state_from_log(&log) {
            Err(e) => assert_eq!(e, error),
            Ok(_) => panic!("expected a fault"),
        }
        let (mine, theirs) = match error {
            ReplayError::Malformed => (SettlementPlaneError::Bincode, VerifierError::Bincode),
            ReplayError::UnknownUser(u) => {
                (SettlementPlaneError::UnknownUser(u), VerifierError::UnknownUser(u))
            }
            ReplayError::Overflow => (SettlementPlaneError::Overflow, VerifierError::Overflow),
        };
        assert_eq!(make_checkpoint(&log, &[]), Err(mine));
        assert_eq!(verify_checkpoint(&log, &official(String::new())), Err(theirs));
    }
}

#[test]
fn a_self_trade_is_replayed_without_effect_on_balances() {
    let log = vec![
        deposited(1, 1, Decimal::new(1000, 0)),
        deposited(1, 2, Decimal::new(10, 0)),
        ordered(1, 1, Side::Sell, 100, 4),
        ordered(2, 1, Side::Buy, 100, 4),
    ];
    let (accounts, book) = reconstruct_state_from_log(&log).unwrap();
    assert_eq!(accounts.get(UserID(1)).unwrap().balance(AssetID(1)), Decimal::new(1000, 0));
    assert_eq!(accounts.get(UserID(1)).unwrap().balance(AssetID(2)), Decimal::new(10, 0));
    assert_eq!(book.next_trade_id, 1);
}

#[test]
fn checkpoints_hold_the_root_in_hexadecimal() {
    let checkpoint = make_checkpoint(&sample_log(), &[0xDE, 0xAD, 0x01]).unwrap();
    let (accounts, book) = reconstruct_state_from_log(&sample_log()).unwrap();
    let expected: String =
        state_root(&accounts, &book).iter().map(|b| format!("{:02x}", b)).collect();
    assert_eq!(checkpoint.state_root, expected);
    assert_eq!(checkpoint.da_certificate, "dead01");
}

#[test]
fn an_honest_checkpoint_passes_and_another_does_not() {
    let log = sample_log();
    let checkpoint = make_checkpoint(&log, &[1]).unwrap();
    let root = checkpoint.state_root;
    assert_eq!(verify_checkpoint(&log, &official(root.clone())), Ok(true));
    assert_eq!(verify_checkpoint(&log[..4].to_vec(), &official(root.clone())), Ok(false));
    assert_eq!(verify_checkpoint(&log, &official(root.to_uppercase())), Ok(false));
    assert_eq!(verify_checkpoint(&log, &official(String::new())), Ok(false));
    let empty = make_checkpoint(&Vec::new(), &[]).unwrap();
    assert_eq!(empty.state_root, "0".repeat(64));
    assert_eq!(empty.da_certificate, "");
}

#[test]
fn batches_are_gathered_submitted_and_queued_again() {
    let mut settlement = Settlement::new();
    assert_eq!(settlement.on_tick(), None);
    settlement.on_message(&[1, 2]);
    settlement.on_message(&[]);
    settlement.on_message(&[3]);
    assert_eq!(settlement.gathered.count, 3);
    assert_eq!(settlement.on_tick(), Some(vec![1, 2, 3]));
    assert_eq!(settlement.gathered.count, 0);
    assert_eq!(settlement.on_tick(), None);
    settlement.on_refused();
    assert_eq!(settlement.gathered.count, 3);
    assert_eq!(settlement.gathered.bytes, vec![1, 2, 3]);
    assert_eq!(settlement.on_tick(), Some(vec![1, 2, 3]));
    settlement.on_message(&[4]);
    settlement.on_refused();
    assert_eq!(settlement.gathered.bytes, vec![1, 2, 3, 4]);
    assert_eq!(settlement.gathered.count, 4);
    assert_eq!(settlement.on_tick(), Some(vec![1, 2, 3, 4]));
    let checkpoint = settlement.on_accepted(&[5], &sample_log()).unwrap();
    assert_eq!(checkpoint, make_checkpoint(&sample_log(), &[5]).unwrap());
    assert!(settlement.submitted.is_none());
    assert_eq!(settlement.on_tick(), None);
}

#[test]
fn an_empty_batch_needs_no_submission() {
    assert_eq!(certificate_without_submission(&[]), Some(vec![]));
    assert_eq!(certificate_without_submission(&[0]), None);
}

#[test]
fn blobs_are_fetched_beside_where_they_were_put() {
    assert_eq!(
        da_get_url("http://10.10.0.3:3100/put?commitment_mode=standard", "ab12"),
        "http://10.10.0.3:3100/get/ab12?commitment_mode=standard"
    );
    assert_eq!(da_get_url("/put/put", "x"), "/get/x/put");
    assert_eq!(da_get_url("/pu/puput", "x"), "/pu/puput");
    assert_eq!(da_get_url("", "x"), "");
    assert_eq!(da_get_url("ü//put", "é"), "ü//get/é");
}

#[test]
fn the_matcher_and_the_replay_arrive_at_one_state() {
    let log = sample_log();
    let mut market = Market::new();
    let mut accounts = AccountCache::new();
    for entry in &log {
        assert!(on_deposit(&mut accounts, entry));
        on_message(&mut market, &mut accounts, entry);
    }
    let (replayed, book) = reconstruct_state_from_log(&log).unwrap();
    assert_eq!(state_root(&accounts, market.book()), state_root(&replayed, &book));
}

#[test]
fn replaying_in_parts_changes_nothing() {
    let log = sample_log();
    let whole = make_checkpoint(&log, &[]).unwrap();
    let mut again = log[..2].to_vec();
    again.extend_from_slice(&log[2..]);
    assert_eq!(make_checkpoint(&again, &[]).unwrap(), whole);
}

#[test]
fn test_full_system_integration() {
    // A new user is created and funded.
    let mut users = UserManager::new(AccountCache::new(), PublicKeyCache::new());
    let (user_id, private_key) = users.create_user();
    let mut log: Vec<Vec<u8>> = Vec::new();
    for (asset, amount) in vec![(1, Decimal::new(10000, 0)), (2, Decimal::new(100, 0))] {
        let tx =
            Transaction::Deposit(Deposit { user_id, asset_id: AssetID(asset), amount });
        assert_eq!(sequence(&mut users, &tx), Ok(None));
        log.push(encode_transaction(&tx));
    }

    // The user sends an order.
    let order = Order {
        order_id: OrderID(1),
        user_id,
        market_id: MarketID(1),
        side: Side::Buy,
        price: Decimal::new(1000, 1),
        quantity: Decimal::new(10, 1),
        order_type: OrderType::Limit,
        timestamp: 0,
    };
    let signed_order = sign_order(&private_key, order);
    let payload = encode_signed_order(&signed_order);
    let publication = screen(&users.public_key_cache, &payload).unwrap();
    assert_eq!(publication.channel, "market:1");
    assert_eq!(
        sequence(&mut users, &Transaction::SignedOrder(signed_order)),
        Ok(Some(order))
    );
    log.push(publication.payload.clone());

    // The settlement plane makes a checkpoint.
    let mut settlement = Settlement::new();
    for entry in &log {
        settlement.on_message(entry);
    }
    assert!(settlement.on_tick().is_some());
    let checkpoint = settlement.on_accepted(&[0xAB], &log).unwrap();

    // The verifier agrees.
    let verification_result =
        verify_checkpoint(&log, &official(checkpoint.state_root)).unwrap();
    assert!(verification_result, "Verification failed!");
}
