//! The check of an order before it is traded.
use crate::accounts::{AccountCache, Ledger, BASE_ASSET, QUOTE_ASSET};
use crate::crypto::{is_signed_under, signed_under};
use crate::decimal::Decimal;
use crate::keys::PublicKeyCache;
use crate::types::{AssetID, Order, PublicKey, Quantity, Side, SignedOrder};
use vstd::prelude::*;

verus! {

/// The asset that an order is paid with: quote currency to buy, base currency to
/// sell.
pub open spec fn required_asset_of(side: Side) -> u32 {
    match side {
        Side::Buy => QUOTE_ASSET,
        Side::Sell => BASE_ASSET,
    }
}

/// How much of it is needed: the price of the whole quantity to buy, the quantity
/// to sell. `None` where it overflows.
pub open spec fn required_amount_of(order: Order) -> Option<Decimal> {
    match order.side {
        Side::Buy => order.price.times(order.quantity),
        Side::Sell => Some(order.quantity),
    }
}

/// The asset that an order is paid with.
pub fn required_asset(order: &Order) -> (r: AssetID)
    ensures
        r.0 == required_asset_of(order.side),
{
    match order.side {
        Side::Buy => AssetID(QUOTE_ASSET),
        Side::Sell => AssetID(BASE_ASSET),
    }
}

/// How much of it is needed, or `None` where that overflows.
pub fn required_amount(order: &Order) -> (r: Option<Quantity>)
    ensures
        r == required_amount_of(*order),
{
    match order.side {
        Side::Buy => order.price.checked_mul(order.quantity),
        Side::Sell => Some(order.quantity),
    }
}

/// What the check of an order finds.
#[derive(Debug, Clone, Copy)]
pub enum OrderCheck {
    /// The user has no account.
    UserNotFound,
    /// The amount that is needed is beyond what a decimal can hold.
    Overflow,
    /// The account has no entry for the asset that is needed.
    NoBalance,
    /// The balance is below the amount that is needed.
    TooLittle { balance: Quantity, required: Quantity },
    /// The user has no verifying key.
    PublicKeyNotFound,
    /// The signature does not hold.
    BadSignature,
    /// Nothing stands in the way of the order.
    Accepted,
}

/// The finding for a signed order: the first of the reasons against it that applies.
pub open spec fn check_of(
    ledger: Ledger,
    keys: Map<u64, PublicKey>,
    signed: SignedOrder,
) -> OrderCheck {
    let order = signed.order;
    let user = order.user_id.0;
    let asset = required_asset_of(order.side);
    if !ledger.contains_key(user) {
        OrderCheck::UserNotFound
    } else {
        match required_amount_of(order) {
            None => OrderCheck::Overflow,
            Some(required) => if !ledger[user].contains_key(asset) {
                OrderCheck::NoBalance
            } else if ledger[user][asset].value() < required.value() {
                OrderCheck::TooLittle { balance: ledger[user][asset], required }
            } else if !keys.contains_key(user) {
                OrderCheck::PublicKeyNotFound
            } else if !signed_under(signed, keys[user]) {
                OrderCheck::BadSignature
            } else {
                OrderCheck::Accepted
            },
        }
    }
}

/// Checks a signed order: account, funds, key and signature, in this order.
pub fn check_order(
    accounts: &AccountCache,
    keys: &PublicKeyCache,
    signed: &SignedOrder,
) -> (r: OrderCheck)
    ensures
        r == check_of(accounts@, keys@, *signed),
{
    let order = &signed.order;
    let account = match accounts.get(order.user_id) {
        Some(account) => account,
        None => return OrderCheck::UserNotFound,
    };
    let required = match required_amount(order) {
        Some(required) => required,
        None => return OrderCheck::Overflow,
    };
    let balance = match account.entry(required_asset(order)) {
        Some(balance) => balance,
        None => return OrderCheck::NoBalance,
    };
    if balance.less_than(&required) {
        return OrderCheck::TooLittle { balance, required };
    }
    let key = match keys.get(order.user_id) {
        Some(key) => key,
        None => return OrderCheck::PublicKeyNotFound,
    };
    if is_signed_under(signed, &key) {
        OrderCheck::Accepted
    } else {
        OrderCheck::BadSignature
    }
}

/// Only orders that their users signed and can pay for are accepted.
pub proof fn law_accepted_orders_are_covered(
    ledger: Ledger,
    keys: Map<u64, PublicKey>,
    signed: SignedOrder,
)
    ensures
        check_of(ledger, keys, signed) is Accepted <==> {
            let user = signed.order.user_id.0;
            let asset = required_asset_of(signed.order.side);
            &&& ledger.contains_key(user) && ledger[user].contains_key(asset)
            &&& required_amount_of(signed.order) matches Some(required)
            &&& ledger[user][asset].value() >= required.value()
            &&& keys.contains_key(user) && signed_under(signed, keys[user])
        },
{
}

/// To buy takes quote currency, asset 1, for the whole quantity at the order's price; to
/// sell takes the quantity of base currency, asset 2.
pub proof fn law_required(order: Order)
    ensures
        order.side == Side::Buy ==> required_asset_of(order.side) == 1 && required_amount_of(order)
            == order.price.times(order.quantity),
        order.side == Side::Sell ==> required_asset_of(order.side) == 2 && required_amount_of(
            order,
        ) == Some(order.quantity),
{
}

} // verus!
