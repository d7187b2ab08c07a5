//! What deposits and settlement keep to.
use crate::accounts::{
    balance_of, credited, debited, deposited, maker_settled, parties_known, settled,
    taker_settled, Ledger, BASE_ASSET, QUOTE_ASSET,
};
use crate::decimal::Decimal;
use crate::types::{Deposit, Trade};
use vstd::prelude::*;

verus! {

/// The balance of a user's asset, in units of `10^-28`; zero where there is none.
pub open spec fn holding(ledger: Ledger, user: u64, asset: u32) -> int {
    if ledger.contains_key(user) {
        balance_of(ledger[user], asset).value()
    } else {
        0
    }
}

/// All balances are made of valid parts, as those of every account at run time are.
pub open spec fn valid_ledger(ledger: Ledger) -> bool {
    forall|user: u64, asset: u32|
        #![trigger ledger[user][asset]]
        ledger.contains_key(user) && ledger[user].contains_key(asset)
            ==> ledger[user][asset].valid()
}

/// Whether a deposit can be added without rounding.
pub open spec fn deposits_exactly(ledger: Ledger, deposit: Deposit) -> bool {
    let (user, asset) = (deposit.user_id.0, deposit.asset_id.0);
    ledger.contains_key(user) ==> balance_of(ledger[user], asset).exact_plus(deposit.amount)
}

proof fn lemma_balance_valid(ledger: Ledger, user: u64, asset: u32)
    requires
        valid_ledger(ledger),
        ledger.contains_key(user),
    ensures
        balance_of(ledger[user], asset).valid(),
        Decimal::nil().valid(),
        Decimal::nil().value() == 0,
{
    Decimal::lemma_of((0, 0));
    assert(Decimal::nil().valid());
    Decimal::lemma_results_valid(Decimal::nil(), Decimal::nil());
    if ledger[user].contains_key(asset) {
        assert(ledger[user][asset].valid());
    }
}

/// A deposit adds its amount to its user's balance of its asset, and touches
/// nothing else.
pub proof fn law_deposit_adds(ledger: Ledger, deposit: Deposit, user: u64, asset: u32)
    requires
        valid_ledger(ledger),
        deposit.amount.valid(),
        deposits_exactly(ledger, deposit),
    ensures
        deposited(ledger, deposit) matches Some(after) && holding(after, user, asset) == holding(
            ledger,
            user,
            asset,
        ) + (if user == deposit.user_id.0 && asset == deposit.asset_id.0 {
            deposit.amount.value()
        } else {
            0
        }),
{
    let (u, a) = (deposit.user_id.0, deposit.asset_id.0);
    Decimal::lemma_of((0, 0));
    Decimal::lemma_results_valid(deposit.amount, deposit.amount);
    if ledger.contains_key(u) {
        lemma_balance_valid(ledger, u, a);
        Decimal::law_exact_sum(balance_of(ledger[u], a), deposit.amount);
    } else {
        Decimal::law_exact_sum(Decimal::nil(), deposit.amount);
    }
}

/// Whether a trade between two users can be settled without rounding.
pub open spec fn settles_exactly(ledger: Ledger, trade: Trade) -> bool {
    let (taker, maker) = (ledger[trade.taker_user_id.0], ledger[trade.maker_user_id.0]);
    &&& trade.price.times(trade.quantity) matches Some(total)
    &&& balance_of(taker, QUOTE_ASSET).exact_minus(total)
    &&& balance_of(taker, BASE_ASSET).exact_plus(trade.quantity)
    &&& balance_of(maker, QUOTE_ASSET).exact_plus(total)
    &&& balance_of(maker, BASE_ASSET).exact_minus(trade.quantity)
}

/// A trade between two users moves money and goods from one to the other and
/// neither makes nor loses any: the taker pays the total and gets the quantity,
/// the maker gets the total and gives the quantity, and nobody else is touched.
pub proof fn law_settlement_conserves(ledger: Ledger, trade: Trade, user: u64, asset: u32)
    requires
        valid_ledger(ledger),
        trade.price.valid(),
        trade.quantity.valid(),
        parties_known(ledger, trade),
        trade.taker_user_id != trade.maker_user_id,
        settles_exactly(ledger, trade),
    ensures
        ({
            let (taker, maker) = (trade.taker_user_id.0, trade.maker_user_id.0);
            let total = trade.price.times(trade.quantity)->0.value();
            let quantity = trade.quantity.value();
            &&& settled(ledger, trade) matches Some(after)
            &&& holding(after, taker, asset) + holding(after, maker, asset) == holding(
                ledger,
                taker,
                asset,
            ) + holding(ledger, maker, asset)
            &&& holding(after, taker, asset) - holding(ledger, taker, asset) == if asset
                == QUOTE_ASSET {
                -total
            } else if asset == BASE_ASSET {
                quantity
            } else {
                0
            }
            &&& user != taker && user != maker ==> holding(after, user, asset) == holding(
                ledger,
                user,
                asset,
            )
        }),
{
    let (taker, maker) = (trade.taker_user_id.0, trade.maker_user_id.0);
    let (t, m) = (ledger[taker], ledger[maker]);
    let total = trade.price.times(trade.quantity)->0;
    let quantity = trade.quantity;
    Decimal::lemma_results_valid(trade.price, trade.quantity);
    lemma_balance_valid(ledger, taker, QUOTE_ASSET);
    lemma_balance_valid(ledger, taker, BASE_ASSET);
    lemma_balance_valid(ledger, maker, QUOTE_ASSET);
    lemma_balance_valid(ledger, maker, BASE_ASSET);
    Decimal::law_exact_difference(balance_of(t, QUOTE_ASSET), total);
    Decimal::law_exact_sum(balance_of(t, BASE_ASSET), quantity);
    Decimal::law_exact_sum(balance_of(m, QUOTE_ASSET), total);
    Decimal::law_exact_difference(balance_of(m, BASE_ASSET), quantity);
    let paid = debited(t, QUOTE_ASSET, total)->0;
    assert(balance_of(paid, BASE_ASSET) == balance_of(t, BASE_ASSET));
    let got = credited(m, QUOTE_ASSET, total)->0;
    assert(balance_of(got, BASE_ASSET) == balance_of(m, BASE_ASSET));
    assert(ledger.insert(taker, taker_settled(t, total, quantity)->0)[maker] == m);
}

/// Whether a trade of a user with themself can be settled without rounding.
pub open spec fn self_settles_exactly(ledger: Ledger, trade: Trade) -> bool {
    let own = ledger[trade.taker_user_id.0];
    &&& trade.price.times(trade.quantity) matches Some(total)
    &&& balance_of(own, QUOTE_ASSET).exact_minus(total)
    &&& balance_of(own, BASE_ASSET).exact_plus(trade.quantity)
    &&& balance_of(own, QUOTE_ASSET).minus(total) matches Some(low) && low.exact_plus(total)
    &&& balance_of(own, BASE_ASSET).plus(trade.quantity) matches Some(high) && high.exact_minus(
        trade.quantity,
    )
}

/// A trade of a user with themself changes no balance.
pub proof fn law_self_trade_cancels_out(ledger: Ledger, trade: Trade, user: u64, asset: u32)
    requires
        valid_ledger(ledger),
        trade.price.valid(),
        trade.quantity.valid(),
        parties_known(ledger, trade),
        trade.taker_user_id == trade.maker_user_id,
        self_settles_exactly(ledger, trade),
    ensures
        settled(ledger, trade) matches Some(after) && holding(after, user, asset) == holding(
            ledger,
            user,
            asset,
        ),
{
    let id = trade.taker_user_id.0;
    let own = ledger[id];
    let total = trade.price.times(trade.quantity)->0;
    let quantity = trade.quantity;
    Decimal::lemma_results_valid(trade.price, trade.quantity);
    lemma_balance_valid(ledger, id, QUOTE_ASSET);
    lemma_balance_valid(ledger, id, BASE_ASSET);
    Decimal::law_exact_difference(balance_of(own, QUOTE_ASSET), total);
    Decimal::law_exact_sum(balance_of(own, BASE_ASSET), quantity);
    let low = balance_of(own, QUOTE_ASSET).minus(total)->0;
    let high = balance_of(own, BASE_ASSET).plus(quantity)->0;
    Decimal::law_exact_sum(low, total);
    Decimal::law_exact_difference(high, quantity);
    let halfway = taker_settled(own, total, quantity)->0;
    assert(balance_of(halfway, QUOTE_ASSET) == low);
    assert(balance_of(halfway, BASE_ASSET) == high);
    let got = credited(halfway, QUOTE_ASSET, total)->0;
    assert(balance_of(got, BASE_ASSET) == high);
    assert(ledger.insert(id, halfway)[id] == halfway);
    assert(maker_settled(halfway, total, quantity) is Some);
}

/// How much of an asset all users together hold, in units of `10^-28`.
pub open spec fn total_held(ledger: Ledger, asset: u32) -> int
    decreases ledger.dom().len(),
    when ledger.dom().finite()
{
    if ledger.dom().len() == 0 {
        0
    } else {
        let user = ledger.dom().choose();
        holding(ledger, user, asset) + total_held(ledger.remove(user), asset)
    }
}

/// Each user's part of the total can be told apart from the rest.
proof fn lemma_total_splits(ledger: Ledger, user: u64, asset: u32)
    requires
        ledger.dom().finite(),
        ledger.contains_key(user),
    ensures
        total_held(ledger, asset) == holding(ledger, user, asset) + total_held(
            ledger.remove(user),
            asset,
        ),
    decreases ledger.dom().len(),
{
    assert(ledger.dom().len() > 0) by {
        if ledger.dom().len() == 0 {
            assert(ledger.dom() =~= Set::empty());
        }
    }
    let first = ledger.dom().choose();
    assert(ledger.dom().contains(first));
    if first != user {
        let rest = ledger.remove(first);
        lemma_total_splits(rest, user, asset);
        lemma_total_splits(ledger.remove(user), first, asset);
        assert(rest.remove(user) =~= ledger.remove(user).remove(first));
    }
}

/// An account put in place of another changes the total by the difference.
proof fn lemma_total_updates(ledger: Ledger, user: u64, balances: Map<u32, Decimal>, asset: u32)
    requires
        ledger.dom().finite(),
        ledger.contains_key(user),
    ensures
        total_held(ledger.insert(user, balances), asset) == total_held(ledger, asset) - holding(
            ledger,
            user,
            asset,
        ) + balance_of(balances, asset).value(),
{
    let after = ledger.insert(user, balances);
    lemma_total_splits(ledger, user, asset);
    lemma_total_splits(after, user, asset);
    assert(after.remove(user) =~= ledger.remove(user));
}

/// Settling a trade leaves the total of every asset as it is.
pub proof fn law_settlement_keeps_the_total(ledger: Ledger, trade: Trade, asset: u32)
    requires
        ledger.dom().finite(),
        valid_ledger(ledger),
        trade.price.valid(),
        trade.quantity.valid(),
        parties_known(ledger, trade),
        if trade.taker_user_id == trade.maker_user_id {
            self_settles_exactly(ledger, trade)
        } else {
            settles_exactly(ledger, trade)
        },
    ensures
        settled(ledger, trade) matches Some(after) && total_held(after, asset) == total_held(
            ledger,
            asset,
        ),
{
    let (taker, maker) = (trade.taker_user_id.0, trade.maker_user_id.0);
    if trade.taker_user_id == trade.maker_user_id {
        law_self_trade_cancels_out(ledger, trade, taker, asset);
    } else {
        law_settlement_conserves(ledger, trade, taker, asset);
    }
    let after = settled(ledger, trade)->0;
    let total = trade.price.times(trade.quantity)->0;
    let t = taker_settled(ledger[taker], total, trade.quantity)->0;
    let halfway = ledger.insert(taker, t);
    lemma_total_updates(ledger, taker, t, asset);
    lemma_total_updates(halfway, maker, after[maker], asset);
    assert(after =~= halfway.insert(maker, after[maker]));
}

/// A deposit adds its amount to the total of its asset and leaves the others.
pub proof fn law_deposit_adds_to_the_total(ledger: Ledger, deposit: Deposit, asset: u32)
    requires
        ledger.dom().finite(),
        valid_ledger(ledger),
        deposit.amount.valid(),
        deposits_exactly(ledger, deposit),
    ensures
        deposited(ledger, deposit) matches Some(after) && total_held(after, asset) == total_held(
            ledger,
            asset,
        ) + (if asset == deposit.asset_id.0 {
            deposit.amount.value()
        } else {
            0
        }),
{
    let user = deposit.user_id.0;
    law_deposit_adds(ledger, deposit, user, asset);
    let after = deposited(ledger, deposit)->0;
    if ledger.contains_key(user) {
        lemma_total_updates(ledger, user, after[user], asset);
        assert(after =~= ledger.insert(user, after[user]));
    } else {
        lemma_total_splits(after, user, asset);
        assert(after.remove(user) =~= ledger);
    }
}

} // verus!
