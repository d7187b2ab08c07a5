use clob::accounts::{Account, AccountCache};
use clob::decimal::{Decimal, MAX_MANTISSA};
use clob::state::{encode_account, state_leaves, state_root};
use clob::book::OrderBook;
use clob::types::{AssetID, Deposit, MarketID, OrderID, Side, Trade, TradeID, UserID};
use sha2::{Digest, Sha256};

fn deposit(user: u64, asset: u32, amount: Decimal) -> Deposit {
    Deposit { user_id: UserID(user), asset_id: AssetID(asset), amount }
}

fn trade(maker: u64, taker: u64, price: i64, quantity: i64) -> Trade {
    Trade {
        trade_id: TradeID(0),
        market_id: MarketID(1),
        maker_order_id: OrderID(1),
        taker_order_id: OrderID(2),
        maker_user_id: UserID(maker),
        taker_user_id: UserID(taker),
        quantity: Decimal::new(quantity, 0),
        price: Decimal::new(price, 0),
        timestamp: 0,
        taker_side: Side::Buy,
    }
}

fn balance(cache: &AccountCache, user: u64, asset: u32) -> Decimal {
    cache.get(UserID(user)).unwrap().balance(AssetID(asset))
}

#[test]
fn deposits_open_accounts_and_add_up() {
    let mut cache = AccountCache::new();
    assert!(!cache.contains(UserID(1)));
    assert!(cache.deposit(&deposit(1, 1, Decimal::new(105, 1))));
    assert!(cache.deposit(&deposit(1, 1, Decimal::new(25, 2))));
    assert!(cache.deposit(&deposit(1, 7, Decimal::new(1, 0))));
    assert_eq!(balance(&cache, 1, 1), Decimal::new(1075, 2));
    assert_eq!(balance(&cache, 1, 7), Decimal::new(1, 0));
    assert_eq!(balance(&cache, 1, 2), Decimal::zero());
    assert!(cache.get(UserID(1)).unwrap().entry(AssetID(2)).is_none());
    assert!(cache.get(UserID(2)).is_none());
}

#[test]
fn an_overflowing_deposit_changes_nothing() {
    let mut cache = AccountCache::new();
    let most = Decimal::from_parts(MAX_MANTISSA, 0).unwrap();
    assert!(cache.deposit(&deposit(1, 1, most)));
    assert!(!cache.deposit(&deposit(1, 1, Decimal::new(1, 0))));
    assert_eq!(balance(&cache, 1, 1), most);
}

#[test]
fn a_trade_moves_both_assets_and_keeps_the_sums() {
    let mut cache = AccountCache::new();
    cache.deposit(&deposit(1, 1, Decimal::new(1000, 0)));
    cache.deposit(&deposit(2, 2, Decimal::new(10, 0)));
    assert!(cache.settle(&trade(2, 1, 100, 3)));
    assert_eq!(balance(&cache, 1, 1), Decimal::new(700, 0));
    assert_eq!(balance(&cache, 1, 2), Decimal::new(3, 0));
    assert_eq!(balance(&cache, 2, 1), Decimal::new(300, 0));
    assert_eq!(balance(&cache, 2, 2), Decimal::new(7, 0));
}

#[test]
fn a_trade_with_oneself_cancels_out() {
    let mut cache = AccountCache::new();
    cache.deposit(&deposit(1, 1, Decimal::new(1000, 0)));
    cache.deposit(&deposit(1, 2, Decimal::new(10, 0)));
    assert!(cache.settle(&trade(1, 1, 100, 3)));
    assert_eq!(balance(&cache, 1, 1), Decimal::new(1000, 0));
    assert_eq!(balance(&cache, 1, 2), Decimal::new(10, 0));
}

#[test]
fn a_balance_may_become_negative() {
    let mut cache = AccountCache::new();
    cache.put(Account::new(UserID(1)));
    cache.put(Account::new(UserID(2)));
    assert!(cache.settle(&trade(2, 1, 100, 3)));
    assert_eq!(balance(&cache, 1, 1), Decimal::new(-300, 0));
    assert_eq!(balance(&cache, 2, 2), Decimal::new(-3, 0));
}

#[test]
fn an_overflowing_trade_changes_nothing() {
    let mut cache = AccountCache::new();
    let most = Decimal::from_parts(MAX_MANTISSA, 0).unwrap();
    cache.deposit(&deposit(1, 1, Decimal::new(1000, 0)));
    cache.deposit(&deposit(2, 1, most));
    assert!(!cache.settle(&trade(2, 1, 100, 3)));
    assert_eq!(balance(&cache, 1, 1), Decimal::new(1000, 0));
    assert_eq!(balance(&cache, 2, 1), most);
}

#[test]
fn accounts_are_listed_by_user() {
    let mut cache = AccountCache::new();
    for user in vec![50u64, 3, u64::MAX, 17, 0, 4] {
        cache.deposit(&deposit(user, 1, Decimal::new(1, 0)));
    }
    let users: Vec<u64> = cache.accounts().iter().map(|a| a.user_id.0).collect();
    assert_eq!(users, vec![0, 3, 4, 17, 50, u64::MAX]);
}

#[test]
fn an_account_is_written_by_ascending_asset() {
    let mut account = Account::new(UserID(5));
    assert!(account.credit(AssetID(2), Decimal::new(75, 1)));
    assert!(account.credit(AssetID(1), Decimal::new(10, 0)));
    assert!(account.debit(AssetID(1), Decimal::new(11, 0)));
    let entries: Vec<(u32, rust_decimal::Decimal)> =
        vec![(1, rust_decimal::Decimal::new(-1, 0)), (2, rust_decimal::Decimal::new(75, 1))];
    assert_eq!(encode_account(&account), bincode::serialize(&(5u64, entries)).unwrap());
}

#[test]
fn the_root_of_one_account_is_its_digest() {
    let mut cache = AccountCache::new();
    let book = OrderBook::new();
    assert_eq!(state_root(&cache, &book), [0u8; 32]);
    cache.deposit(&deposit(1, 1, Decimal::new(1, 0)));
    let bytes = encode_account(&cache.get(UserID(1)).unwrap());
    let digest: [u8; 32] = Sha256::digest(&bytes).into();
    assert_eq!(state_leaves(&cache, &book), vec![digest]);
    assert_eq!(state_root(&cache, &book), digest);
}
