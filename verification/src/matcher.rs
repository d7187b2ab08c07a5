//! The market matcher: published orders are matched, deposits are added up.
//!
//! Orders from users without an account or without sufficient funds are passed
//! over. Trades are applied to the accounts of their parties; where a party has no
//! account the accounts are left alone, and the trade is reported all the same.
use crate::accounts::{balance_of, deposited, parties_known, settled, AccountCache, Ledger};
use crate::book::{good_book, BookView};
use crate::engine::{book_after, events_of};
use crate::engine_laws::{law_parties, lemma_good_book_valid, users_in};
use crate::market::Market;
use crate::messages::{
    decode_transaction, front, law_transaction_back, transaction_as_read, transaction_read,
    transaction_wire, valid_transaction,
};
use crate::replay::{
    after_order, all_parties_known, lemma_events_parties, lemma_parties_stay_known,
    settled_events, State,
};
use crate::risk::{required_amount, required_amount_of, required_asset, required_asset_of};
use crate::types::{Deposit, MarketEvent, Order, Trade, Transaction};
use vstd::prelude::*;

verus! {

/// The signed order's order in a published message, if it holds one.
pub open spec fn order_in(message: Seq<u8>) -> Option<Order> {
    match front(transaction_read(message)) {
        Some(Transaction::SignedOrder(signed)) => Some(signed.order),
        _ => None,
    }
}

/// The deposit in a published message, if it holds one.
pub open spec fn deposit_in(message: Seq<u8>) -> Option<Deposit> {
    match front(transaction_read(message)) {
        Some(Transaction::Deposit(deposit)) => Some(deposit),
        _ => None,
    }
}

/// What a matcher thinks of an order.
#[derive(Debug, Clone, Copy)]
pub enum Verdict {
    /// The user has no account.
    UserNotFound,
    /// The amount that is needed is beyond what a decimal can hold.
    Overflow,
    /// The balance is below the amount that is needed.
    InsufficientFunds,
    /// The order is matched.
    Sufficient,
}

/// The verdict on an order. A missing balance counts as zero.
pub open spec fn verdict_on(ledger: Ledger, order: Order) -> Verdict {
    if !ledger.contains_key(order.user_id.0) {
        Verdict::UserNotFound
    } else {
        match required_amount_of(order) {
            None => Verdict::Overflow,
            Some(required) => if balance_of(
                ledger[order.user_id.0],
                required_asset_of(order.side),
            ).value() < required.value() {
                Verdict::InsufficientFunds
            } else {
                Verdict::Sufficient
            },
        }
    }
}

/// The accounts after a trade; as they were where a party has no account. `None`
/// where a balance overflows.
pub open spec fn settled_if_known(ledger: Ledger, trade: Trade) -> Option<Ledger> {
    if parties_known(ledger, trade) {
        settled(ledger, trade)
    } else {
        Some(ledger)
    }
}

/// What some events come to: the accounts, and the number of events up to the first
/// one whose trade overflows a balance.
pub open spec fn carried_out(ledger: Ledger, events: Seq<MarketEvent>) -> (Ledger, nat)
    decreases events.len(),
{
    if events.len() == 0 {
        (ledger, 0)
    } else {
        let after = match events[0] {
            MarketEvent::OrderTraded(trade) => settled_if_known(ledger, trade),
            _ => Some(ledger),
        };
        match after {
            Some(next) => {
                let (end, n) = carried_out(next, events.drop_first());
                (end, n + 1)
            },
            None => (ledger, 0),
        }
    }
}

/// What came of a published message.
#[derive(Debug)]
pub enum Outcome {
    /// The message holds no order.
    NoOrder,
    /// The order was passed over.
    Rejected(Verdict),
    /// The market has taken as many orders as it can.
    Full,
    /// The order was matched; these events are to be published, in order.
    Matched(Vec<MarketEvent>),
    /// The order was matched, but a balance overflowed when the event behind these
    /// was settled. These are to be published.
    Overflowed(Vec<MarketEvent>),
}

/// What a matcher keeps: the book, the accounts and the number of orders taken.
pub struct MatcherView {
    pub book: BookView,
    pub ledger: Ledger,
    pub taken: nat,
}

pub open spec fn matcher_view(market: Market, accounts: AccountCache) -> MatcherView {
    MatcherView { book: market@, ledger: accounts@, taken: market.orders_taken() }
}

/// Whether a message from the channel of a market is passed over.
pub open spec fn passed_over(ledger: Ledger, message: Seq<u8>) -> bool {
    match order_in(message) {
        None => true,
        Some(order) => {
            ||| verdict_on(ledger, order) is UserNotFound
            ||| verdict_on(ledger, order) is InsufficientFunds
        },
    }
}

/// A matcher after a message from the channel of its market, and the events that it
/// publishes for it; `None` where it cannot go on.
pub open spec fn after_message(m: MatcherView, message: Seq<u8>) -> Option<
    (MatcherView, Seq<MarketEvent>),
> {
    if passed_over(m.ledger, message) {
        Some((m, Seq::empty()))
    } else {
        let order = order_in(message)->0;
        let events = events_of(m.book, order);
        let (ledger, n) = carried_out(m.ledger, events);
        if verdict_on(m.ledger, order) is Sufficient && m.taken < u64::MAX && n == events.len() {
            let next = MatcherView {
                book: book_after(m.book, order),
                ledger,
                taken: m.taken + 1,
            };
            Some((next, events))
        } else {
            None
        }
    }
}

/// A matcher after some messages, and all the events that it publishes for them.
pub open spec fn after_messages(m: MatcherView, messages: Seq<Seq<u8>>) -> Option<
    (MatcherView, Seq<MarketEvent>),
>
    decreases messages.len(),
{
    if messages.len() == 0 {
        Some((m, Seq::empty()))
    } else {
        match after_message(m, messages[0]) {
            Some((next, events)) => match after_messages(next, messages.drop_first()) {
                Some((end, more)) => Some((end, events + more)),
                None => None,
            },
            None => None,
        }
    }
}

fn verdict(accounts: &AccountCache, order: &Order) -> (r: Verdict)
    ensures
        r == verdict_on(accounts@, *order),
{
    let account = match accounts.get(order.user_id) {
        Some(account) => account,
        None => return Verdict::UserNotFound,
    };
    let required = match required_amount(order) {
        Some(required) => required,
        None => return Verdict::Overflow,
    };
    if account.balance(required_asset(order)).less_than(&required) {
        Verdict::InsufficientFunds
    } else {
        Verdict::Sufficient
    }
}

/// Settles the trades among some events. Returns how many events were carried out.
fn carry_out(accounts: &mut AccountCache, events: &Vec<MarketEvent>) -> (n: usize)
    ensures
        n <= events@.len(),
        carried_out(old(accounts)@, events@) == (final(accounts)@, n as nat),
{
    let mut i: usize = 0;
    assert(events@.skip(0) =~= events@);
    while i < events.len()
        invariant
            i <= events@.len(),
            carried_out(old(accounts)@, events@) == ({
                let (end, n) = carried_out(accounts@, events@.skip(i as int));
                (end, n + i as nat)
            }),
        decreases events@.len() - i,
    {
        let ghost rest = events@.skip(i as int);
        assert(rest.drop_first() =~= events@.skip(i + 1));
        assert(rest[0] == events@[i as int]);
        if let MarketEvent::OrderTraded(trade) = &events[i] {
            if accounts.contains(trade.taker_user_id) && accounts.contains(trade.maker_user_id) {
                if !accounts.settle(trade) {
                    return i;
                }
            }
        }
        i += 1;
    }
    i
}

/// Handles a message from the channel of a market.
pub fn on_message(market: &mut Market, accounts: &mut AccountCache, message: &[u8]) -> (r: Outcome)
    ensures
        match order_in(message@) {
            None => {
                &&& r is NoOrder
                &&& final(market)@ == old(market)@
                &&& final(market).orders_taken() == old(market).orders_taken()
                &&& final(accounts)@ == old(accounts)@
            },
            Some(order) => if !(verdict_on(old(accounts)@, order) is Sufficient) {
                &&& r == Outcome::Rejected(verdict_on(old(accounts)@, order))
                &&& final(market)@ == old(market)@
                &&& final(market).orders_taken() == old(market).orders_taken()
                &&& final(accounts)@ == old(accounts)@
            } else if old(market).orders_taken() == u64::MAX {
                &&& r is Full
                &&& final(market)@ == old(market)@
                &&& final(market).orders_taken() == old(market).orders_taken()
                &&& final(accounts)@ == old(accounts)@
            } else {
                let events = events_of(old(market)@, order);
                let (ledger, n) = carried_out(old(accounts)@, events);
                &&& final(market)@ == book_after(old(market)@, order)
                &&& final(market).orders_taken() == old(market).orders_taken() + 1
                &&& final(accounts)@ == ledger
                &&& n == events.len() ==> (r matches Outcome::Matched(all) && all@ == events)
                &&& n != events.len() ==> (r matches Outcome::Overflowed(some) && some@
                    == events.take(n as int))
            },
        },
        after_message(matcher_view(*old(market), *old(accounts)), message@) matches Some(
            (next, events),
        ) ==> {
            &&& matcher_view(*final(market), *final(accounts)) == next
            &&& r matches Outcome::Matched(all) ==> all@ == events
            &&& !(r is Matched) ==> !(r is Overflowed) && events.len() == 0
        },
{
    let order = match decode_transaction(message) {
        Some(Transaction::SignedOrder(signed)) => signed.order,
        _ => return Outcome::NoOrder,
    };
    match verdict(accounts, &order) {
        Verdict::Sufficient => {},
        other => return Outcome::Rejected(other),
    }
    let mut events = match market.submit(order) {
        Some(events) => events,
        None => return Outcome::Full,
    };
    let n = carry_out(accounts, &events);
    if n == events.len() {
        Outcome::Matched(events)
    } else {
        events.truncate(n);
        Outcome::Overflowed(events)
    }
}

/// Handles a message from the channel of deposits: `true` unless the balance
/// overflows. A message that holds no deposit is passed over.
pub fn on_deposit(accounts: &mut AccountCache, message: &[u8]) -> (done: bool)
    ensures
        match deposit_in(message@) {
            Some(deposit) => match deposited(old(accounts)@, deposit) {
                Some(ledger) => done && final(accounts)@ == ledger,
                None => !done && final(accounts)@ == old(accounts)@,
            },
            None => done && final(accounts)@ == old(accounts)@,
        },
{
    match decode_transaction(message) {
        Some(Transaction::Deposit(deposit)) => accounts.deposit(&deposit),
        _ => true,
    }
}

/// Where all parties are known, events are carried out as a replay settles them.
proof fn lemma_carried_out_as_settled(ledger: Ledger, events: Seq<MarketEvent>)
    requires
        all_parties_known(ledger, events),
    ensures
        match settled_events(ledger, events) {
            Some(after) => carried_out(ledger, events) == (after, events.len()),
            None => carried_out(ledger, events).1 < events.len(),
        },
    decreases events.len(),
{
    if events.len() > 0 {
        let rest = events.drop_first();
        lemma_parties_stay_known(ledger, events);
        match events[0] {
            MarketEvent::OrderTraded(trade) => {
                if let Some(next) = settled(ledger, trade) {
                    lemma_carried_out_as_settled(next, rest);
                }
            },
            _ => {
                lemma_carried_out_as_settled(ledger, rest);
            },
        }
    }
}

/// An order that a matcher takes leaves it with the accounts and the book at which
/// a replay of the order from the same state arrives.
pub proof fn law_matched_as_replayed(state: State, order: Order)
    requires
        good_book(state.book),
        order.quantity.valid(),
        users_in(state.book, state.ledger.dom()),
        verdict_on(state.ledger, order) is Sufficient,
    ensures
        match after_order(state, order) {
            Ok(after) => {
                &&& after.book == book_after(state.book, order)
                &&& carried_out(state.ledger, events_of(state.book, order)) == (
                    after.ledger,
                    events_of(state.book, order).len(),
                )
            },
            Err(e) => {
                &&& e is Overflow
                &&& carried_out(state.ledger, events_of(state.book, order)).1 < events_of(
                    state.book,
                    order,
                ).len()
            },
        },
{
    lemma_good_book_valid(state.book);
    law_parties(state.book, order, state.ledger.dom());
    lemma_events_parties(state.book, order, state.ledger);
    lemma_carried_out_as_settled(state.ledger, events_of(state.book, order));
}

/// A matcher goes on from where it was: the events of earlier messages come first,
/// then those of the later ones, matched from the state that the earlier ones left.
pub proof fn law_messages_in_turn(m: MatcherView, earlier: Seq<Seq<u8>>, later: Seq<Seq<u8>>)
    ensures
        after_messages(m, earlier + later) == match after_messages(m, earlier) {
            Some((halfway, events)) => match after_messages(halfway, later) {
                Some((end, more)) => Some((end, events + more)),
                None => None,
            },
            None => None,
        },
    decreases earlier.len(),
{
    let all = earlier + later;
    if earlier.len() == 0 {
        assert(all =~= later);
        if let Some((end, more)) = after_messages(m, later) {
            assert(Seq::<MarketEvent>::empty() + more =~= more);
        }
    } else {
        assert(all.drop_first() =~= earlier.drop_first() + later);
        if let Some((next, first)) = after_message(m, earlier[0]) {
            law_messages_in_turn(next, earlier.drop_first(), later);
            if let Some((halfway, events)) = after_messages(next, earlier.drop_first()) {
                if let Some((end, more)) = after_messages(halfway, later) {
                    assert(first + (events + more) =~= (first + events) + more);
                }
            }
        }
    }
}

/// A message that is passed over leaves no trace: all that comes after it is as if it
/// had not been there.
pub proof fn law_passed_over_leaves_no_trace(
    m: MatcherView,
    earlier: Seq<Seq<u8>>,
    message: Seq<u8>,
    later: Seq<Seq<u8>>,
)
    requires
        after_messages(m, earlier) matches Some((halfway, _)) ==> passed_over(
            halfway.ledger,
            message,
        ),
    ensures
        after_messages(m, earlier + seq![message] + later) == after_messages(m, earlier + later),
{
    let with_it = seq![message] + later;
    assert(earlier + seq![message] + later =~= earlier + with_it);
    law_messages_in_turn(m, earlier, with_it);
    law_messages_in_turn(m, earlier, later);
    if let Some((halfway, _)) = after_messages(m, earlier) {
        assert(with_it.drop_first() =~= later);
        if let Some((end, more)) = after_messages(halfway, later) {
            assert(Seq::<MarketEvent>::empty() + more =~= more);
        }
    }
}

/// How often an event is tried to be published.
pub const PUBLISH_ATTEMPTS: u32 = 2;

/// What came of a step towards publishing an event.
#[derive(Debug, Clone, Copy)]
pub enum PublishStep {
    Published,
    PublishFailed,
    Connected,
    ConnectFailed,
}

/// What is done next about an event.
#[derive(Debug, Clone, Copy)]
pub enum PublishAction {
    /// Publish it on the connection at hand.
    Publish,
    /// Make a new connection.
    Reconnect,
    /// It is published.
    Finish,
    /// Go on without publishing it.
    Drop,
}

/// What follows a step, given how often the event was tried to be published: after a
/// failure it is tried again, once, on a new connection.
pub open spec fn action_after(attempts: nat, step: PublishStep) -> PublishAction {
    match step {
        PublishStep::Published => PublishAction::Finish,
        PublishStep::PublishFailed => if attempts < PUBLISH_ATTEMPTS {
            PublishAction::Reconnect
        } else {
            PublishAction::Drop
        },
        PublishStep::Connected => PublishAction::Publish,
        PublishStep::ConnectFailed => PublishAction::Drop,
    }
}

/// Decides what follows a step towards publishing an event.
pub fn next_action(attempts: u32, step: PublishStep) -> (r: PublishAction)
    ensures
        r == action_after(attempts as nat, step),
{
    match step {
        PublishStep::Published => PublishAction::Finish,
        PublishStep::PublishFailed => if attempts < PUBLISH_ATTEMPTS {
            PublishAction::Reconnect
        } else {
            PublishAction::Drop
        },
        PublishStep::Connected => PublishAction::Publish,
        PublishStep::ConnectFailed => PublishAction::Drop,
    }
}

/// How often an event has been tried to be published in the end, from an action and a
/// number of attempts on, given which steps succeed.
pub open spec fn attempts_made(action: PublishAction, attempts: nat, succeeds: Seq<bool>) -> nat
    decreases succeeds.len(),
{
    if succeeds.len() == 0 {
        attempts
    } else {
        match action {
            PublishAction::Publish => {
                let step = if succeeds[0] {
                    PublishStep::Published
                } else {
                    PublishStep::PublishFailed
                };
                attempts_made(
                    action_after(attempts + 1, step),
                    attempts + 1,
                    succeeds.drop_first(),
                )
            },
            PublishAction::Reconnect => {
                let step = if succeeds[0] {
                    PublishStep::Connected
                } else {
                    PublishStep::ConnectFailed
                };
                attempts_made(action_after(attempts, step), attempts, succeeds.drop_first())
            },
            _ => attempts,
        }
    }
}

/// Whatever fails, an event is tried to be published at most twice.
pub proof fn law_retried_once(succeeds: Seq<bool>)
    ensures
        attempts_made(PublishAction::Publish, 0, succeeds) <= PUBLISH_ATTEMPTS,
{
    lemma_attempts_bounded(PublishAction::Publish, 0, succeeds);
}

/// A first failure is not the last word: an event is tried again as soon as there is a
/// new connection. It is tried no more once it was published, nor where no connection
/// can be had.
pub proof fn law_failure_is_retried(succeeds: Seq<bool>)
    requires
        succeeds.len() >= 3,
    ensures
        succeeds[0] ==> attempts_made(PublishAction::Publish, 0, succeeds) == 1,
        !succeeds[0] && succeeds[1] ==> attempts_made(PublishAction::Publish, 0, succeeds) == 2,
        !succeeds[0] && !succeeds[1] ==> attempts_made(PublishAction::Publish, 0, succeeds) == 1,
        forall|n: nat| #[trigger] action_after(n, PublishStep::Published) is Finish,
        forall|n: nat| #[trigger] action_after(n, PublishStep::ConnectFailed) is Drop,
        forall|n: nat| n >= 2 ==> #[trigger] action_after(n, PublishStep::PublishFailed) is Drop,
{
    reveal_with_fuel(attempts_made, 5);
    let rest = succeeds.drop_first();
    assert(rest[0] == succeeds[1]);
    assert(rest.drop_first()[0] == succeeds[2]);
}

proof fn lemma_attempts_bounded(action: PublishAction, attempts: nat, succeeds: Seq<bool>)
    requires
        attempts <= PUBLISH_ATTEMPTS,
        action is Publish || action is Reconnect ==> attempts < PUBLISH_ATTEMPTS,
    ensures
        attempts_made(action, attempts, succeeds) <= PUBLISH_ATTEMPTS,
    decreases succeeds.len(),
{
    if succeeds.len() > 0 {
        let rest = succeeds.drop_first();
        match action {
            PublishAction::Publish => {
                let step = if succeeds[0] {
                    PublishStep::Published
                } else {
                    PublishStep::PublishFailed
                };
                lemma_attempts_bounded(action_after(attempts + 1, step), attempts + 1, rest);
            },
            PublishAction::Reconnect => {
                let step = if succeeds[0] {
                    PublishStep::Connected
                } else {
                    PublishStep::ConnectFailed
                };
                lemma_attempts_bounded(action_after(attempts, step), attempts, rest);
            },
            _ => {},
        }
    }
}

/// A matcher reads in a message what was published; of a zero the sign is lost.
pub proof fn law_published_is_read(tx: Transaction)
    requires
        valid_transaction(tx),
    ensures
        order_in(transaction_wire(tx)) == match transaction_as_read(tx) {
            Transaction::SignedOrder(signed) => Some(signed.order),
            Transaction::Deposit(_) => None,
        },
        deposit_in(transaction_wire(tx)) == match transaction_as_read(tx) {
            Transaction::SignedOrder(_) => None,
            Transaction::Deposit(deposit) => Some(deposit),
        },
{
    assert(transaction_wire(tx) + Seq::<u8>::empty() =~= transaction_wire(tx));
    law_transaction_back(tx, Seq::empty());
}

} // verus!
