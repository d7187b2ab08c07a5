//! The execution plane: sequencing of transactions and settlement of trades.
use crate::accounts::{
    account_pairs, credited, parties_known, settled, Account, AccountCache, Ledger, BASE_ASSET,
    QUOTE_ASSET,
};
use crate::book::OrderBook;
use crate::decimal::Decimal;
use crate::events::{encode_event, event_wire};
use crate::listing::{listing, lists};
use crate::risk::{check_of, check_order, OrderCheck};
use crate::types::{AssetID, MarketEvent, Order, PublicKey, Trade, Transaction, UserID};
use crate::users::{ExecutionPlaneError, UserManager};
use vstd::prelude::*;

verus! {

/// What the sequencer does with a transaction: the new accounts, and the order that
/// goes on to the matching engine if there is one. Deposits are added to existing
/// accounts; orders are checked, and those that are not covered or not properly
/// signed are dropped.
pub open spec fn sequenced(
    ledger: Ledger,
    keys: Map<u64, PublicKey>,
    tx: Transaction,
) -> Result<(Ledger, Option<Order>), ExecutionPlaneError> {
    match tx {
        Transaction::Deposit(deposit) => {
            let user = deposit.user_id.0;
            if !ledger.contains_key(user) {
                Err(ExecutionPlaneError::UserNotFound(deposit.user_id))
            } else {
                match credited(ledger[user], deposit.asset_id.0, deposit.amount) {
                    Some(balances) => Ok((ledger.insert(user, balances), None)),
                    None => Err(ExecutionPlaneError::Overflow),
                }
            }
        },
        Transaction::SignedOrder(signed) => {
            let user_id = signed.order.user_id;
            match check_of(ledger, keys, signed) {
                OrderCheck::UserNotFound => Err(ExecutionPlaneError::UserNotFound(user_id)),
                OrderCheck::Overflow => Err(ExecutionPlaneError::Overflow),
                OrderCheck::NoBalance => Err(ExecutionPlaneError::InsufficientFunds(user_id)),
                OrderCheck::TooLittle { .. } => Ok((ledger, None)),
                OrderCheck::PublicKeyNotFound => Err(
                    ExecutionPlaneError::PublicKeyNotFound(user_id),
                ),
                OrderCheck::BadSignature => Ok((ledger, None)),
                OrderCheck::Accepted => Ok((ledger, Some(signed.order))),
            }
        },
    }
}

/// Takes a transaction in: adds a deposit, or checks an order and hands it on. On
/// an error nothing changes.
pub fn sequence(users: &mut UserManager, tx: &Transaction) -> (r: Result<
    Option<Order>,
    ExecutionPlaneError,
>)
    ensures
        final(users).public_key_cache@ == old(users).public_key_cache@,
        match sequenced(old(users).account_cache@, old(users).public_key_cache@, *tx) {
            Ok((ledger, order)) => {
                &&& r == Ok::<Option<Order>, ExecutionPlaneError>(order)
                &&& final(users).account_cache@ == ledger
            },
            Err(e) => {
                &&& r == Err::<Option<Order>, ExecutionPlaneError>(e)
                &&& final(users).account_cache@ == old(users).account_cache@
            },
        },
{
    match tx {
        Transaction::Deposit(deposit) => {
            match users.try_deposit(deposit.user_id, deposit.asset_id, deposit.amount) {
                Ok(_) => Ok(None),
                Err(e) => Err(e),
            }
        },
        Transaction::SignedOrder(signed) => {
            let user_id = signed.order.user_id;
            match check_order(&users.account_cache, &users.public_key_cache, signed) {
                OrderCheck::UserNotFound => Err(ExecutionPlaneError::UserNotFound(user_id)),
                OrderCheck::Overflow => Err(ExecutionPlaneError::Overflow),
                OrderCheck::NoBalance => Err(ExecutionPlaneError::InsufficientFunds(user_id)),
                OrderCheck::TooLittle { .. } => Ok(None),
                OrderCheck::PublicKeyNotFound => Err(
                    ExecutionPlaneError::PublicKeyNotFound(user_id),
                ),
                OrderCheck::BadSignature => Ok(None),
                OrderCheck::Accepted => Ok(Some(signed.order)),
            }
        },
    }
}

/// The first asset that a trade moves and an account has no entry for.
pub open spec fn missing_entry(balances: Map<u32, Decimal>) -> Option<u32> {
    if !balances.contains_key(QUOTE_ASSET) {
        Some(QUOTE_ASSET)
    } else if !balances.contains_key(BASE_ASSET) {
        Some(BASE_ASSET)
    } else {
        None
    }
}

/// The accounts after a trade in the execution plane, where both parties must have
/// an account with an entry for each of the two assets.
pub open spec fn strictly_settled(ledger: Ledger, trade: Trade) -> Result<
    Ledger,
    ExecutionPlaneError,
> {
    let (maker, taker) = (trade.maker_user_id, trade.taker_user_id);
    if !ledger.contains_key(maker.0) {
        Err(ExecutionPlaneError::UserNotFound(maker))
    } else if !ledger.contains_key(taker.0) {
        Err(ExecutionPlaneError::UserNotFound(taker))
    } else {
        match (missing_entry(ledger[taker.0]), missing_entry(ledger[maker.0])) {
            (Some(asset), _) => Err(ExecutionPlaneError::MissingBalance(taker, AssetID(asset))),
            (None, Some(asset)) => Err(ExecutionPlaneError::MissingBalance(maker, AssetID(asset))),
            (None, None) => match settled(ledger, trade) {
                Some(after) => Ok(after),
                None => Err(ExecutionPlaneError::Overflow),
            },
        }
    }
}

/// The accounts after an event of the matching engine.
pub open spec fn after_event(ledger: Ledger, event: MarketEvent) -> Result<
    Ledger,
    ExecutionPlaneError,
> {
    match event {
        MarketEvent::OrderTraded(trade) => strictly_settled(ledger, trade),
        _ => Ok(ledger),
    }
}

fn find_missing_entry(account: &Account) -> (r: Option<AssetID>)
    ensures
        match r {
            Some(asset) => missing_entry(account@.balances) == Some(asset.0),
            None => missing_entry(account@.balances) is None,
        },
{
    if account.entry(AssetID(QUOTE_ASSET)).is_none() {
        Some(AssetID(QUOTE_ASSET))
    } else if account.entry(AssetID(BASE_ASSET)).is_none() {
        Some(AssetID(BASE_ASSET))
    } else {
        None
    }
}

fn settle_strictly(accounts: &mut AccountCache, trade: &Trade) -> (r: Result<
    (),
    ExecutionPlaneError,
>)
    ensures
        match strictly_settled(old(accounts)@, *trade) {
            Ok(ledger) => r is Ok && final(accounts)@ == ledger,
            Err(e) => r == Err::<(), ExecutionPlaneError>(e) && final(accounts)@ == old(accounts)@,
        },
{
    let (maker_id, taker_id) = (trade.maker_user_id, trade.taker_user_id);
    let maker = match accounts.get(maker_id) {
        Some(account) => account,
        None => return Err(ExecutionPlaneError::UserNotFound(maker_id)),
    };
    let taker = match accounts.get(taker_id) {
        Some(account) => account,
        None => return Err(ExecutionPlaneError::UserNotFound(taker_id)),
    };
    if let Some(asset) = find_missing_entry(&taker) {
        return Err(ExecutionPlaneError::MissingBalance(taker_id, asset));
    }
    if let Some(asset) = find_missing_entry(&maker) {
        return Err(ExecutionPlaneError::MissingBalance(maker_id, asset));
    }
    if accounts.settle(trade) {
        Ok(())
    } else {
        Err(ExecutionPlaneError::Overflow)
    }
}

/// Applies an event of the matching engine to the accounts and returns the bytes
/// to send out. On an error nothing changes and nothing is sent.
pub fn apply_event(accounts: &mut AccountCache, event: &MarketEvent) -> (r: Result<
    Vec<u8>,
    ExecutionPlaneError,
>)
    ensures
        match after_event(old(accounts)@, *event) {
            Ok(ledger) => {
                &&& r matches Ok(bytes)
                &&& bytes@ == event_wire(*event)
                &&& final(accounts)@ == ledger
            },
            Err(e) => {
                &&& r == Err::<Vec<u8>, ExecutionPlaneError>(e)
                &&& final(accounts)@ == old(accounts)@
            },
        },
{
    if let MarketEvent::OrderTraded(trade) = event {
        match settle_strictly(accounts, trade) {
            Ok(_) => {},
            Err(e) => return Err(e),
        }
    }
    Ok(encode_event(event))
}

/// Canonical snapshot of system state.
#[derive(Debug)]
pub struct StateSnapshot {
    pub accounts: Vec<(UserID, Account)>,
    pub order_book: OrderBook,
}

/// Users and balances in a snapshot.
pub open spec fn snapshot_pairs(accounts: Seq<(UserID, Account)>) -> Seq<
    (u64, Map<u32, Decimal>),
> {
    accounts.map_values(|a: (UserID, Account)| (a.0.0, a.1@.balances))
}

/// Takes a snapshot: all accounts, by ascending user number, and the book.
pub fn take_snapshot(accounts: &AccountCache, book: &OrderBook) -> (r: StateSnapshot)
    ensures
        snapshot_pairs(r.accounts@) == listing(accounts@),
        lists(snapshot_pairs(r.accounts@), accounts@),
        forall|i: int|
            0 <= i < r.accounts@.len() ==> (#[trigger] r.accounts@[i]).1.user_id
                == r.accounts@[i].0,
        r.order_book@ == book@,
{
    let all = accounts.accounts();
    let ghost pairs = account_pairs(all@);
    let mut list: Vec<(UserID, Account)> = Vec::new();
    let mut i: usize = 0;
    while i < all.len()
        invariant
            i <= all@.len(),
            pairs == account_pairs(all@),
            snapshot_pairs(list@) == pairs.take(i as int),
            forall|k: int|
                0 <= k < list@.len() ==> (#[trigger] list@[k]).1.user_id == list@[k].0,
        decreases all@.len() - i,
    {
        let account = all[i].clone();
        let ghost so_far = snapshot_pairs(list@);
        list.push((account.user_id, account));
        assert(snapshot_pairs(list@) =~= so_far.push((account.user_id.0, account@.balances)));
        assert(pairs.take(i + 1) =~= pairs.take(i as int).push(pairs[i as int]));
        i += 1;
    }
    assert(pairs.take(i as int) =~= pairs);
    StateSnapshot { accounts: list, order_book: book.clone() }
}

/// With the same accounts a trade that the execution plane settles is settled alike
/// when the log is replayed.
pub proof fn law_settles_as_replayed(ledger: Ledger, trade: Trade)
    ensures
        strictly_settled(ledger, trade) matches Ok(after) ==> parties_known(ledger, trade)
            && settled(ledger, trade) == Some(after),
{
}

} // verus!
