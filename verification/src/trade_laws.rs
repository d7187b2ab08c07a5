//! What deposits, trades and checks come to, entry by entry: which amounts change,
//! by how much, and what stays.
//!
//! Quote currency is asset 1, base currency is asset 2.
use crate::account_laws::{holding, valid_ledger};
use crate::accounts::{balance_of, credited, debited, deposited, parties_known, settled, Ledger};
use crate::crypto::{signature_holds, signed_under};
use crate::decimal::Decimal;
use crate::execution::{after_event, sequenced};
use crate::messages::order_wire;
use crate::risk::{check_of, OrderCheck};
use crate::supply_laws::trade_settles_exactly;
use crate::types::{
    Deposit, MarketEvent, Order, PublicKey, Side, SignedOrder, Trade, Transaction,
};
use crate::users::ExecutionPlaneError;
use vstd::prelude::*;

verus! {

/// What a user has of an asset: the zero without digits where there is no entry.
pub open spec fn amount_held(ledger: Ledger, user: u64, asset: u32) -> Decimal {
    if ledger.contains_key(user) && ledger[user].contains_key(asset) {
        ledger[user][asset]
    } else {
        Decimal::of((0, 0))
    }
}

/// Whether two accounts have the same entry, or both none, for an asset.
pub open spec fn same_entry(
    before: Map<u32, Decimal>,
    after: Map<u32, Decimal>,
    asset: u32,
) -> bool {
    &&& after.contains_key(asset) == before.contains_key(asset)
    &&& before.contains_key(asset) ==> after[asset] == before[asset]
}

/// Whether the difference between two ledgers is an amount that came in: one user has
/// more of one asset, in an account that may be new, and all else is as it was.
pub open spec fn adds(
    before: Ledger,
    after: Ledger,
    user: u64,
    asset: u32,
    amount: Decimal,
) -> bool {
    &&& after.dom() == before.dom().insert(user)
    &&& forall|u: u64| u != user && before.contains_key(u) ==> #[trigger] after[u] == before[u]
    &&& forall|a: u32|
        #![trigger after[user].contains_key(a)]
        a != asset ==> if before.contains_key(user) {
            same_entry(before[user], after[user], a)
        } else {
            !after[user].contains_key(a)
        }
    &&& after[user].contains_key(asset)
    &&& amount_held(before, user, asset).plus(amount) == Some(after[user][asset])
}

/// Whether the difference between two ledgers is a trade: quote currency for the whole
/// quantity goes from the taker to the maker, the quantity of base currency from the
/// maker to the taker, and all else is as it was. Whoever trades with themself pays
/// and is paid.
pub open spec fn moves(before: Ledger, after: Ledger, t: Trade) -> bool {
    let (taker, maker) = (t.taker_user_id.0, t.maker_user_id.0);
    &&& before.contains_key(taker) && before.contains_key(maker)
    &&& after.dom() == before.dom()
    &&& forall|u: u64|
        u != taker && u != maker && before.contains_key(u) ==> #[trigger] after[u] == before[u]
    &&& forall|u: u64, a: u32|
        #![trigger after[u].contains_key(a)]
        before.contains_key(u) && a != 1 && a != 2 ==> same_entry(before[u], after[u], a)
    &&& after[taker].contains_key(1) && after[taker].contains_key(2)
    &&& after[maker].contains_key(1) && after[maker].contains_key(2)
    &&& t.price.times(t.quantity) matches Some(total)
    &&& if taker != maker {
        &&& amount_held(before, taker, 1).minus(total) == Some(after[taker][1])
        &&& amount_held(before, taker, 2).plus(t.quantity) == Some(after[taker][2])
        &&& amount_held(before, maker, 1).plus(total) == Some(after[maker][1])
        &&& amount_held(before, maker, 2).minus(t.quantity) == Some(after[maker][2])
    } else {
        &&& amount_held(before, taker, 1).minus(total) matches Some(low)
        &&& low.plus(total) == Some(after[taker][1])
        &&& amount_held(before, taker, 2).plus(t.quantity) matches Some(high)
        &&& high.minus(t.quantity) == Some(after[taker][2])
    }
}

/// An amount that comes in is added to the balance of its asset, and no other balance
/// changes; there is no answer only where the sum overflows.
pub proof fn law_credit(before: Map<u32, Decimal>, asset: u32, amount: Decimal)
    ensures
        match credited(before, asset, amount) {
            Some(after) => {
                &&& after.dom() == before.dom().insert(asset)
                &&& forall|a: u32|
                    a != asset && before.contains_key(a) ==> #[trigger] after[a] == before[a]
                &&& before.contains_key(asset) ==> before[asset].plus(amount) == Some(after[asset])
                &&& !before.contains_key(asset) ==> Decimal::of((0, 0)).plus(amount) == Some(
                    after[asset],
                )
            },
            None => {
                &&& before.contains_key(asset) ==> before[asset].plus(amount) is None
                &&& !before.contains_key(asset) ==> Decimal::of((0, 0)).plus(amount) is None
            },
        },
{
    if let Some(after) = credited(before, asset, amount) {
        assert(after.dom() =~= before.dom().insert(asset));
    }
}

/// An amount that goes out is taken from the balance of its asset, and no other balance
/// changes; there is no answer only where the difference overflows.
pub proof fn law_debit(before: Map<u32, Decimal>, asset: u32, amount: Decimal)
    ensures
        match debited(before, asset, amount) {
            Some(after) => {
                &&& after.dom() == before.dom().insert(asset)
                &&& forall|a: u32|
                    a != asset && before.contains_key(a) ==> #[trigger] after[a] == before[a]
                &&& before.contains_key(asset) ==> before[asset].minus(amount) == Some(after[asset])
                &&& !before.contains_key(asset) ==> Decimal::of((0, 0)).minus(amount) == Some(
                    after[asset],
                )
            },
            None => {
                &&& before.contains_key(asset) ==> before[asset].minus(amount) is None
                &&& !before.contains_key(asset) ==> Decimal::of((0, 0)).minus(amount) is None
            },
        },
{
    if let Some(after) = debited(before, asset, amount) {
        assert(after.dom() =~= before.dom().insert(asset));
    }
}

/// Two ledgers that both come of adding an amount to one are the same.
proof fn lemma_adds_once(before: Ledger, a: Ledger, b: Ledger, user: u64, asset: u32, amount: Decimal)
    requires
        adds(before, a, user, asset, amount),
        adds(before, b, user, asset, amount),
    ensures
        a == b,
{
    assert(a[user] =~= b[user]) by {
        assert forall|x: u32| a[user].contains_key(x) == b[user].contains_key(x) by {
            assert(a[user].contains_key(x) || !a[user].contains_key(x));
            assert(b[user].contains_key(x) || !b[user].contains_key(x));
        }
    }
    assert forall|u: u64| #[trigger] a.contains_key(u) implies a[u] == b[u] by {
        assert(a.dom().contains(u));
        if u != user {
            assert(before.dom().contains(u));
            assert(a[u] == before[u] && b[u] == before[u]);
        }
    }
    assert(a =~= b);
}

/// A deposit adds its amount to what its user has of its asset, in an account that is
/// opened where there is none, and leaves all else as it was; there is no answer only
/// where the sum overflows.
pub proof fn law_deposited(before: Ledger, deposit: Deposit, after: Ledger)
    ensures
        deposited(before, deposit) == Some(after) <==> adds(
            before,
            after,
            deposit.user_id.0,
            deposit.asset_id.0,
            deposit.amount,
        ),
        deposited(before, deposit) is None <==> amount_held(
            before,
            deposit.user_id.0,
            deposit.asset_id.0,
        ).plus(deposit.amount) is None,
{
    let (user, asset, amount) = (deposit.user_id.0, deposit.asset_id.0, deposit.amount);
    if let Some(x) = deposited(before, deposit) {
        assert(x.dom() =~= before.dom().insert(user));
        assert(adds(before, x, user, asset, amount));
        if adds(before, after, user, asset, amount) {
            lemma_adds_once(before, x, after, user, asset, amount);
        }
    }
}

/// Two ledgers that both come of settling a trade are the same.
proof fn lemma_moves_once(before: Ledger, a: Ledger, b: Ledger, t: Trade)
    requires
        moves(before, a, t),
        moves(before, b, t),
    ensures
        a == b,
{
    assert forall|u: u64| #[trigger] a.contains_key(u) implies a[u] == b[u] by {
        assert(before.dom().contains(u));
        if u != t.taker_user_id.0 && u != t.maker_user_id.0 {
            assert(a[u] == before[u] && b[u] == before[u]);
        } else {
            assert forall|x: u32| a[u].contains_key(x) == b[u].contains_key(x) by {
                assert(a[u].contains_key(x) || !a[u].contains_key(x));
                assert(b[u].contains_key(x) || !b[u].contains_key(x));
            }
            assert(a[u] =~= b[u]);
        }
    }
    assert(a =~= b);
}

/// Settling a trade between known parties moves what it trades from one to the other
/// and leaves all else as it was; there is no answer only where that overflows.
pub proof fn law_settled(before: Ledger, t: Trade, after: Ledger)
    requires
        before.contains_key(t.taker_user_id.0),
        before.contains_key(t.maker_user_id.0),
    ensures
        settled(before, t) == Some(after) <==> moves(before, after, t),
        settled(before, t) is None ==> forall|x: Ledger| !#[trigger] moves(before, x, t),
{
    if let Some(x) = settled(before, t) {
        assert(x.dom() =~= before.dom());
        assert(moves(before, x, t));
        if moves(before, after, t) {
            lemma_moves_once(before, x, after, t);
        }
    }
}

/// Applying an event of the matching engine to the accounts: a trade between users with
/// entries for both assets moves what it trades, whichever side the taker is on, and
/// any other event changes nothing. It fails only where an account or an entry is
/// missing or an amount overflows.
pub proof fn law_event_applied(before: Ledger, event: MarketEvent, after: Ledger)
    ensures
        after_event(before, event) == Ok::<Ledger, ExecutionPlaneError>(after) <==> match event {
            MarketEvent::OrderTraded(t) => {
                &&& moves(before, after, t)
                &&& before[t.taker_user_id.0].contains_key(1)
                &&& before[t.taker_user_id.0].contains_key(2)
                &&& before[t.maker_user_id.0].contains_key(1)
                &&& before[t.maker_user_id.0].contains_key(2)
            },
            _ => after == before,
        },
{
    if let MarketEvent::OrderTraded(t) = event {
        if before.contains_key(t.taker_user_id.0) && before.contains_key(t.maker_user_id.0) {
            law_settled(before, t, after);
        }
    }
}

/// Which error comes where an event cannot be applied.
pub proof fn law_event_refused(before: Ledger, event: MarketEvent)
    ensures
        match after_event(before, event) {
            Err(e) => event matches MarketEvent::OrderTraded(t) && {
                let (taker, maker) = (t.taker_user_id, t.maker_user_id);
                match e {
                    ExecutionPlaneError::UserNotFound(u) => {
                        ||| u == maker && !before.contains_key(maker.0)
                        ||| u == taker && !before.contains_key(taker.0) && before.contains_key(
                            maker.0,
                        )
                    },
                    ExecutionPlaneError::MissingBalance(u, a) => {
                        &&& before.contains_key(taker.0) && before.contains_key(maker.0)
                        &&& u == taker || u == maker
                        &&& a.0 == 1 || a.0 == 2
                        &&& !before[u.0].contains_key(a.0)
                        &&& a.0 == 2 ==> before[u.0].contains_key(1)
                        &&& u != taker ==> before[taker.0].contains_key(1)
                            && before[taker.0].contains_key(2)
                    },
                    ExecutionPlaneError::Overflow => {
                        &&& before.contains_key(taker.0) && before.contains_key(maker.0)
                        &&& before[taker.0].contains_key(1) && before[taker.0].contains_key(2)
                        &&& before[maker.0].contains_key(1) && before[maker.0].contains_key(2)
                        &&& forall|x: Ledger| !#[trigger] moves(before, x, t)
                    },
                    _ => false,
                }
            },
            Ok(_) => true,
        },
{
    if let MarketEvent::OrderTraded(t) = event {
        if before.contains_key(t.taker_user_id.0) && before.contains_key(t.maker_user_id.0) {
            law_settled(before, t, before);
        }
    }
}

/// A deposit that is sequenced adds its amount to what its user has of its own asset
/// and leaves every other amount of every user as it was. It takes a user with an
/// account, and fails besides only where the sum overflows.
pub proof fn law_deposit_sequenced(
    before: Ledger,
    keys: Map<u64, PublicKey>,
    deposit: Deposit,
    after: Ledger,
)
    ensures
        ({
            let (user, asset) = (deposit.user_id.0, deposit.asset_id.0);
            let r = sequenced(before, keys, Transaction::Deposit(deposit));
            &&& r == Ok::<(Ledger, Option<Order>), ExecutionPlaneError>((after, None)) <==> {
                &&& before.contains_key(user)
                &&& adds(before, after, user, asset, deposit.amount)
            }
            &&& r matches Ok((_, order)) ==> order is None
            &&& r matches Err(e) ==> if before.contains_key(user) {
                &&& e is Overflow
                &&& amount_held(before, user, asset).plus(deposit.amount) is None
            } else {
                e == ExecutionPlaneError::UserNotFound(deposit.user_id)
            }
        }),
{
    let user = deposit.user_id.0;
    if before.contains_key(user) {
        law_deposited(before, deposit, after);
        if let Ok((x, _)) = sequenced(before, keys, Transaction::Deposit(deposit)) {
            law_deposited(before, deposit, x);
            assert(x.dom() =~= before.dom().insert(user));
            assert(adds(before, x, user, deposit.asset_id.0, deposit.amount));
        }
    }
}

/// Whether a user's account has an entry that covers an order: quote currency for the
/// whole quantity to buy, the quantity of base currency to sell.
pub open spec fn can_pay(ledger: Ledger, order: Order) -> bool {
    let user = order.user_id.0;
    &&& ledger.contains_key(user)
    &&& match order.side {
        Side::Buy => {
            &&& ledger[user].contains_key(1)
            &&& order.price.times(order.quantity) matches Some(cost)
            &&& cost.value() <= ledger[user][1].value()
        },
        Side::Sell => {
            &&& ledger[user].contains_key(2)
            &&& order.quantity.value() <= ledger[user][2].value()
        },
    }
}

/// Whether the cost of an order is more than a decimal can hold.
pub open spec fn costs_too_much(order: Order) -> bool {
    order.side == Side::Buy && order.price.times(order.quantity) is None
}

/// Whether an order bears a signature over its own bytes that its user's key accepts.
pub open spec fn signed_by_user(keys: Map<u64, PublicKey>, signed: SignedOrder) -> bool {
    let user = signed.order.user_id.0;
    keys.contains_key(user) && signature_holds(
        keys[user].0@,
        order_wire(signed.order),
        signed.signature.0@,
    )
}

/// The check of an order: it is accepted if and only if its user can pay for it and
/// signed it, and is turned down for the first thing that is missing.
pub proof fn law_check(ledger: Ledger, keys: Map<u64, PublicKey>, signed: SignedOrder)
    ensures
        ({
            let order = signed.order;
            let user = order.user_id.0;
            let asset: u32 = if order.side == Side::Buy {
                1
            } else {
                2
            };
            let c = check_of(ledger, keys, signed);
            &&& c is Accepted <==> can_pay(ledger, order) && signed_by_user(keys, signed)
            &&& c is BadSignature <==> can_pay(ledger, order) && keys.contains_key(user)
                && !signed_by_user(keys, signed)
            &&& c is PublicKeyNotFound <==> can_pay(ledger, order) && !keys.contains_key(user)
            &&& c is UserNotFound <==> !ledger.contains_key(user)
            &&& c is Overflow <==> ledger.contains_key(user) && costs_too_much(order)
            &&& c is NoBalance <==> ledger.contains_key(user) && !costs_too_much(order)
                && !ledger[user].contains_key(asset)
            &&& c is TooLittle <==> ledger.contains_key(user) && !costs_too_much(order)
                && ledger[user].contains_key(asset) && !can_pay(ledger, order)
            &&& c matches OrderCheck::TooLittle { balance, required } ==> {
                &&& balance == ledger[user][asset]
                &&& order.side == Side::Buy ==> order.price.times(order.quantity) == Some(required)
                &&& order.side == Side::Sell ==> required == order.quantity
            }
        }),
{
}

/// A signature counts for an order only if it is one over the order's own bytes.
pub proof fn law_signed_under(signed: SignedOrder, key: PublicKey)
    ensures
        signed_under(signed, key) <==> signature_holds(
            key.0@,
            order_wire(signed.order),
            signed.signature.0@,
        ),
{
}

/// An order goes on from the sequencer, as it is, if and only if its user can pay for it
/// and signed it. Orders change no balance. One that is not covered, or whose signature
/// does not hold, is dropped; one whose account, entry or key is missing is an error.
pub proof fn law_order_sequenced(ledger: Ledger, keys: Map<u64, PublicKey>, signed: SignedOrder)
    ensures
        ({
            let order = signed.order;
            let user = order.user_id;
            let asset: u32 = if order.side == Side::Buy {
                1
            } else {
                2
            };
            match sequenced(ledger, keys, Transaction::SignedOrder(signed)) {
                Ok((after, Some(forwarded))) => {
                    &&& after == ledger
                    &&& forwarded == order
                    &&& can_pay(ledger, order) && signed_by_user(keys, signed)
                },
                Ok((after, None)) => {
                    &&& after == ledger
                    &&& ledger.contains_key(user.0) && ledger[user.0].contains_key(asset)
                    &&& !costs_too_much(order)
                    &&& !can_pay(ledger, order) || (keys.contains_key(user.0) && !signed_by_user(
                        keys,
                        signed,
                    ))
                },
                Err(ExecutionPlaneError::UserNotFound(u)) => u == user && !ledger.contains_key(
                    user.0,
                ),
                Err(ExecutionPlaneError::Overflow) => ledger.contains_key(user.0)
                    && costs_too_much(order),
                Err(ExecutionPlaneError::InsufficientFunds(u)) => u == user && ledger.contains_key(
                    user.0,
                ) && !costs_too_much(order) && !ledger[user.0].contains_key(asset),
                Err(ExecutionPlaneError::PublicKeyNotFound(u)) => u == user && can_pay(
                    ledger,
                    order,
                ) && !keys.contains_key(user.0),
                Err(ExecutionPlaneError::MissingBalance(_, _)) => false,
            }
        }),
{
    law_check(ledger, keys, signed);
}

/// What a trade changes for a user, in units of `10^-28`: as the taker the user pays
/// quote currency and gets base currency, as the maker it is the other way round.
pub open spec fn change_by(t: Trade, user: u64, asset: u32) -> int {
    let total = t.price.times(t.quantity)->0.value();
    let quantity = t.quantity.value();
    let as_taker = if user != t.taker_user_id.0 {
        0
    } else if asset == 1 {
        -total
    } else if asset == 2 {
        quantity
    } else {
        0
    };
    let as_maker = if user != t.maker_user_id.0 {
        0
    } else if asset == 1 {
        total
    } else if asset == 2 {
        -quantity
    } else {
        0
    };
    as_taker + as_maker
}

/// Where nothing is rounded, a settled trade changes what every user holds of every
/// asset by exactly what it moves for them.
pub proof fn law_trade_changes_holdings(ledger: Ledger, t: Trade, user: u64, asset: u32)
    requires
        valid_ledger(ledger),
        parties_known(ledger, t),
        trade_settles_exactly(ledger, t),
    ensures
        settled(ledger, t) matches Some(after) && holding(after, user, asset) == holding(
            ledger,
            user,
            asset,
        ) + change_by(t, user, asset),
{
    let (taker, maker) = (t.taker_user_id.0, t.maker_user_id.0);
    if taker == maker {
        crate::account_laws::law_self_trade_cancels_out(ledger, t, user, asset);
    } else {
        crate::account_laws::law_settlement_conserves(ledger, t, user, asset);
    }
}

/// Where nothing is rounded, applying a trade changes what every user holds of every
/// asset by exactly what it moves for them, for either side of the taker.
pub proof fn law_event_changes_holdings(ledger: Ledger, t: Trade, user: u64, asset: u32)
    requires
        valid_ledger(ledger),
        parties_known(ledger, t),
        trade_settles_exactly(ledger, t),
    ensures
        after_event(ledger, MarketEvent::OrderTraded(t)) matches Ok(after) ==> holding(
            after,
            user,
            asset,
        ) == holding(ledger, user, asset) + change_by(t, user, asset),
{
    law_trade_changes_holdings(ledger, t, user, asset);
}

/// Where nothing is rounded, a deposit that is sequenced changes what its user holds of
/// its asset by its amount, and no other holding.
pub proof fn law_sequenced_deposit_changes_holdings(
    ledger: Ledger,
    keys: Map<u64, PublicKey>,
    deposit: Deposit,
    user: u64,
    asset: u32,
)
    requires
        valid_ledger(ledger),
        deposit.amount.valid(),
        ledger.contains_key(deposit.user_id.0),
        amount_held(ledger, deposit.user_id.0, deposit.asset_id.0).exact_plus(deposit.amount),
    ensures
        sequenced(ledger, keys, Transaction::Deposit(deposit)) matches Ok((after, None)) && holding(
            after,
            user,
            asset,
        ) == holding(ledger, user, asset) + (if user == deposit.user_id.0 && asset
            == deposit.asset_id.0 {
            deposit.amount.value()
        } else {
            0
        }),
{
    let (u, a) = (deposit.user_id.0, deposit.asset_id.0);
    assert(balance_of(ledger[u], a) == amount_held(ledger, u, a));
    crate::account_laws::law_deposit_adds(ledger, deposit, user, asset);
}

/// A balance is what the account's entry says, and zero where there is none.
pub proof fn law_balance(balances: Map<u32, Decimal>, asset: u32)
    ensures
        balances.contains_key(asset) ==> balance_of(balances, asset) == balances[asset],
        !balances.contains_key(asset) ==> balance_of(balances, asset).value() == 0 && balance_of(
            balances,
            asset,
        ) == Decimal::of((0, 0)),
{
    Decimal::lemma_of((0, 0));
}

/// The users and balances of accounts are those of all of them, in order.
pub proof fn law_account_pairs(
    accounts: Seq<crate::accounts::Account>,
    snapshot: Seq<(crate::types::UserID, crate::accounts::Account)>,
)
    ensures
        crate::accounts::account_pairs(accounts).len() == accounts.len(),
        forall|i: int|
            0 <= i < accounts.len() ==> crate::accounts::account_pairs(accounts)[i] == (
                (#[trigger] accounts[i]).user_id.0,
                accounts[i].balances@,
            ),
        crate::execution::snapshot_pairs(snapshot).len() == snapshot.len(),
        forall|i: int|
            0 <= i < snapshot.len() ==> crate::execution::snapshot_pairs(snapshot)[i] == (
                (#[trigger] snapshot[i]).0.0,
                snapshot[i].1.balances@,
            ),
{
}

} // verus!
