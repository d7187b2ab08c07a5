//! Where the assets of all users come from: from deposits, and from nowhere else.
use crate::account_laws::{
    deposits_exactly, law_deposit_adds_to_the_total, law_settlement_keeps_the_total,
    self_settles_exactly, settles_exactly, total_held, valid_ledger,
};
use crate::accounts::{
    balance_of, credited, debited, deposited, maker_settled, parties_known, settled,
    taker_settled, Ledger, BASE_ASSET, QUOTE_ASSET,
};
use crate::book::good_book;
use crate::book_laws::{law_book_stays_in_order, law_empty_book_in_order};
use crate::decimal::Decimal;
use crate::engine::{events_of, opposite};
use crate::engine_laws::{law_parties, lemma_good_book_valid, sweeps_exactly, users_in};
use crate::messages::valid_transaction;
use crate::replay::{
    after_transaction, after_transactions, all_parties_known, initial_state,
    lemma_events_parties, lemma_parties_stay_known, settled_events, State,
};
use crate::types::{Deposit, MarketEvent, Side, Trade, Transaction};
use vstd::prelude::*;

verus! {

/// Whether a trade is settled without rounding, for amounts made of valid parts.
pub open spec fn trade_settles_exactly(ledger: Ledger, trade: Trade) -> bool {
    &&& trade.price.valid() && trade.quantity.valid()
    &&& if trade.taker_user_id == trade.maker_user_id {
        self_settles_exactly(ledger, trade)
    } else {
        settles_exactly(ledger, trade)
    }
}

/// Whether all trades among some events are settled without rounding.
pub open spec fn events_settle_exactly(ledger: Ledger, events: Seq<MarketEvent>) -> bool
    decreases events.len(),
{
    events.len() > 0 ==> match events[0] {
        MarketEvent::OrderTraded(trade) => {
            &&& trade_settles_exactly(ledger, trade)
            &&& settled(ledger, trade) matches Some(after) ==> events_settle_exactly(
                after,
                events.drop_first(),
            )
        },
        _ => events_settle_exactly(ledger, events.drop_first()),
    }
}

/// Whether some transactions are carried out without rounding.
pub open spec fn runs_exactly(state: State, txs: Seq<Transaction>) -> bool
    decreases txs.len(),
{
    txs.len() > 0 ==> {
        &&& match txs[0] {
            Transaction::Deposit(deposit) => deposits_exactly(state.ledger, deposit),
            Transaction::SignedOrder(signed) => {
                let order = signed.order;
                &&& sweeps_exactly(
                    order,
                    opposite(state.book, order.side),
                    order.side == Side::Sell,
                )
                &&& events_settle_exactly(state.ledger, events_of(state.book, order))
            },
        }
        &&& after_transaction(state, txs[0]) matches Ok(next) ==> runs_exactly(
            next,
            txs.drop_first(),
        )
    }
}

/// How much of an asset some transactions deposit, in units of `10^-28`.
pub open spec fn deposited_by(txs: Seq<Transaction>, asset: u32) -> int
    decreases txs.len(),
{
    if txs.len() == 0 {
        0
    } else {
        (match txs[0] {
            Transaction::Deposit(deposit) => if deposit.asset_id.0 == asset {
                deposit.amount.value()
            } else {
                0
            },
            Transaction::SignedOrder(_) => 0,
        }) + deposited_by(txs.drop_first(), asset)
    }
}

/// Balances made of valid parts.
spec fn valid_balances(balances: Map<u32, Decimal>) -> bool {
    forall|asset: u32| #[trigger] balances.contains_key(asset) ==> balances[asset].valid()
}

proof fn lemma_changed_balances_valid(balances: Map<u32, Decimal>, asset: u32, amount: Decimal)
    requires
        valid_balances(balances),
        amount.valid(),
    ensures
        credited(balances, asset, amount) matches Some(after) ==> valid_balances(after),
        debited(balances, asset, amount) matches Some(after) ==> valid_balances(after),
{
    Decimal::lemma_results_valid(amount, amount);
    Decimal::lemma_results_valid(balance_of(balances, asset), amount);
}

proof fn lemma_balances_valid(ledger: Ledger, user: u64)
    requires
        valid_ledger(ledger),
        ledger.contains_key(user),
    ensures
        valid_balances(ledger[user]),
{
    assert forall|asset: u32| #[trigger] ledger[user].contains_key(asset) implies ledger[user][
        asset
    ].valid() by {}
}

proof fn lemma_inserted_valid(ledger: Ledger, user: u64, balances: Map<u32, Decimal>)
    requires
        valid_ledger(ledger),
        valid_balances(balances),
    ensures
        valid_ledger(ledger.insert(user, balances)),
{
    let after = ledger.insert(user, balances);
    assert forall|u: u64, a: u32|
        #![trigger after[u][a]]
        after.contains_key(u) && after[u].contains_key(a) implies after[u][a].valid() by {
        if u == user {
            assert(balances.contains_key(a));
        } else {
            assert(ledger[u][a].valid());
        }
    }
}

pub proof fn lemma_settled_valid(ledger: Ledger, trade: Trade)
    requires
        valid_ledger(ledger),
        parties_known(ledger, trade),
        trade.price.valid(),
        trade.quantity.valid(),
    ensures
        settled(ledger, trade) matches Some(after) ==> valid_ledger(after),
{
    let (taker, maker) = (trade.taker_user_id.0, trade.maker_user_id.0);
    Decimal::lemma_results_valid(trade.price, trade.quantity);
    if let Some(after) = settled(ledger, trade) {
        let total = trade.price.times(trade.quantity)->0;
        let quantity = trade.quantity;
        lemma_balances_valid(ledger, taker);
        lemma_changed_balances_valid(ledger[taker], QUOTE_ASSET, total);
        let paid = debited(ledger[taker], QUOTE_ASSET, total)->0;
        lemma_changed_balances_valid(paid, BASE_ASSET, quantity);
        let t = taker_settled(ledger[taker], total, quantity)->0;
        lemma_inserted_valid(ledger, taker, t);
        let halfway = ledger.insert(taker, t);
        lemma_balances_valid(halfway, maker);
        lemma_changed_balances_valid(halfway[maker], QUOTE_ASSET, total);
        let got = credited(halfway[maker], QUOTE_ASSET, total)->0;
        lemma_changed_balances_valid(got, BASE_ASSET, quantity);
        let m = maker_settled(halfway[maker], total, quantity)->0;
        lemma_inserted_valid(halfway, maker, m);
    }
}

proof fn lemma_deposited_valid(ledger: Ledger, deposit: Deposit)
    requires
        valid_ledger(ledger),
        deposit.amount.valid(),
    ensures
        deposited(ledger, deposit) matches Some(after) ==> valid_ledger(after),
{
    let user = deposit.user_id.0;
    let before: Map<u32, Decimal> = if ledger.contains_key(user) {
        ledger[user]
    } else {
        Map::empty()
    };
    if ledger.contains_key(user) {
        lemma_balances_valid(ledger, user);
    }
    lemma_changed_balances_valid(before, deposit.asset_id.0, deposit.amount);
    if let Some(balances) = credited(before, deposit.asset_id.0, deposit.amount) {
        lemma_inserted_valid(ledger, user, balances);
    }
}

/// Settling events keeps the accounts, their validity and the totals.
proof fn lemma_events_keep_the_total(ledger: Ledger, events: Seq<MarketEvent>, asset: u32)
    requires
        ledger.dom().finite(),
        valid_ledger(ledger),
        all_parties_known(ledger, events),
        events_settle_exactly(ledger, events),
    ensures
        settled_events(ledger, events) matches Some(after) ==> {
            &&& after.dom() == ledger.dom()
            &&& valid_ledger(after)
            &&& total_held(after, asset) == total_held(ledger, asset)
        },
    decreases events.len(),
{
    if events.len() > 0 {
        let rest = events.drop_first();
        lemma_parties_stay_known(ledger, events);
        match events[0] {
            MarketEvent::OrderTraded(trade) => {
                if let Some(next) = settled(ledger, trade) {
                    lemma_settled_valid(ledger, trade);
                    law_settlement_keeps_the_total(ledger, trade, asset);
                    lemma_events_keep_the_total(next, rest, asset);
                }
            },
            _ => {
                lemma_events_keep_the_total(ledger, rest, asset);
            },
        }
    }
}

/// Whatever is traded, all users together hold what was deposited: transactions add
/// to the total of an asset what they deposit of it, and nothing else.
pub proof fn law_supply_comes_from_deposits(state: State, txs: Seq<Transaction>, asset: u32)
    requires
        state.ledger.dom().finite(),
        valid_ledger(state.ledger),
        good_book(state.book),
        users_in(state.book, state.ledger.dom()),
        forall|i: int| 0 <= i < txs.len() ==> valid_transaction(#[trigger] txs[i]),
        runs_exactly(state, txs),
    ensures
        after_transactions(state, txs) matches Ok(end) ==> total_held(end.ledger, asset)
            == total_held(state.ledger, asset) + deposited_by(txs, asset),
    decreases txs.len(),
{
    if txs.len() > 0 {
        let rest = txs.drop_first();
        let tx = txs[0];
        assert(valid_transaction(tx));
        if let Ok(next) = after_transaction(state, tx) {
            match tx {
                Transaction::Deposit(deposit) => {
                    law_deposit_adds_to_the_total(state.ledger, deposit, asset);
                    lemma_deposited_valid(state.ledger, deposit);
                    assert forall|u: u64| state.ledger.dom().contains(
                        u,
                    ) implies next.ledger.dom().contains(u) by {}
                },
                Transaction::SignedOrder(signed) => {
                    let order = signed.order;
                    law_book_stays_in_order(state.book, order);
                    lemma_good_book_valid(state.book);
                    law_parties(state.book, order, state.ledger.dom());
                    lemma_events_parties(state.book, order, state.ledger);
                    lemma_events_keep_the_total(
                        state.ledger,
                        events_of(state.book, order),
                        asset,
                    );
                },
            }
            assert forall|i: int| 0 <= i < rest.len() implies valid_transaction(
                #[trigger] rest[i],
            ) by {
                assert(rest[i] == txs[i + 1]);
            }
            law_supply_comes_from_deposits(next, rest, asset);
        }
    }
}

/// From nothing on, all users together hold exactly what was deposited.
pub proof fn law_total_is_what_was_deposited(txs: Seq<Transaction>, asset: u32)
    requires
        forall|i: int| 0 <= i < txs.len() ==> valid_transaction(#[trigger] txs[i]),
        runs_exactly(initial_state(), txs),
    ensures
        after_transactions(initial_state(), txs) matches Ok(end) ==> total_held(end.ledger, asset)
            == deposited_by(txs, asset),
{
    assert(initial_state().ledger.dom() =~= Set::<u64>::empty());
    law_empty_book_in_order();
    law_supply_comes_from_deposits(initial_state(), txs, asset);
}

} // verus!
