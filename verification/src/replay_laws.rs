//! What becomes of every trade: in a replay, and in a matcher.
use crate::account_laws::{holding, valid_ledger};
use crate::accounts::Ledger;
use crate::engine::{book_after, events_of};
use crate::engine_laws::{law_parties, users_in, valid_book};
use crate::matcher::{
    after_message, carried_out, deposit_in, order_in, verdict_on, MatcherView,
};
use crate::messages::{front, lemma_transaction_read_valid, transaction_read};
use crate::replay::{
    after_entry, after_order, all_parties_known, entry_views, initial_state, law_replay_from,
    law_replay_in_parts, lemma_events_parties, lemma_parties_stay_known, replay_from, replayed,
    settled_events, ReplayError, State,
};
use crate::supply_laws::{
    events_settle_exactly, lemma_settled_valid, trade_settles_exactly,
};
use crate::trade_laws::{
    adds, amount_held, change_by, costs_too_much, law_deposited, law_settled,
    law_trade_changes_holdings, moves,
};
use crate::types::{MarketEvent, Order, Side, Transaction};
use vstd::prelude::*;

verus! {

/// Whether the difference between two ledgers is that of an event: what it trades is
/// moved, and an event that is no trade changes nothing.
pub open spec fn event_moves(before: Ledger, after: Ledger, event: MarketEvent) -> bool {
    match event {
        MarketEvent::OrderTraded(t) => moves(before, after, t),
        _ => after == before,
    }
}

/// Whether some ledgers lead from one to another, event by event, with no event left
/// out.
pub open spec fn leads(
    ledgers: Seq<Ledger>,
    before: Ledger,
    events: Seq<MarketEvent>,
    after: Ledger,
) -> bool {
    &&& ledgers.len() == events.len() + 1
    &&& ledgers[0] == before
    &&& ledgers[events.len() as int] == after
    &&& forall|i: int|
        #![trigger events[i]]
        0 <= i < events.len() ==> event_moves(ledgers[i], ledgers[i + 1], events[i])
}

/// The ledgers on the way through some events.
proof fn lemma_way_through(before: Ledger, events: Seq<MarketEvent>) -> (ledgers: Seq<Ledger>)
    requires
        all_parties_known(before, events),
    ensures
        settled_events(before, events) matches Some(after) ==> leads(
            ledgers,
            before,
            events,
            after,
        ),
    decreases events.len(),
{
    if events.len() == 0 {
        seq![before]
    } else {
        lemma_parties_stay_known(before, events);
        let rest = events.drop_first();
        let next = match events[0] {
            MarketEvent::OrderTraded(t) => crate::accounts::settled(before, t),
            _ => Some(before),
        };
        match next {
            Some(next) => {
                if let MarketEvent::OrderTraded(t) = events[0] {
                    law_settled(before, t, next);
                }
                let more = lemma_way_through(next, rest);
                let ledgers = seq![before] + more;
                if let Some(after) = settled_events(before, events) {
                    assert(leads(more, next, rest, after));
                    assert forall|i: int|
                        #![trigger events[i]]
                        0 <= i < events.len() implies event_moves(
                        ledgers[i],
                        ledgers[i + 1],
                        events[i],
                    ) by {
                        if i > 0 {
                            assert(rest[i - 1] == events[i]);
                            assert(ledgers[i] == more[i - 1]);
                            assert(ledgers[i + 1] == more[i]);
                        } else {
                            assert(ledgers[1] == more[0]);
                        }
                    }
                    assert(ledgers[events.len() as int] == more[rest.len() as int]);
                }
                ledgers
            },
            None => seq![before],
        }
    }
}

proof fn lemma_way_is_settled(
    ledgers: Seq<Ledger>,
    before: Ledger,
    events: Seq<MarketEvent>,
    after: Ledger,
)
    requires
        leads(ledgers, before, events, after),
    ensures
        settled_events(before, events) == Some(after),
    decreases events.len(),
{
    if events.len() > 0 {
        let rest = events.drop_first();
        let next = ledgers[1];
        let more = ledgers.drop_first();
        assert(event_moves(ledgers[0], ledgers[0int + 1], events[0]));
        if let MarketEvent::OrderTraded(t) = events[0] {
            law_settled(before, t, next);
        }
        assert forall|i: int| #![trigger rest[i]] 0 <= i < rest.len() implies event_moves(
            more[i],
            more[i + 1],
            rest[i],
        ) by {
            assert(rest[i] == events[i + 1]);
            assert(more[i] == ledgers[i + 1] && more[i + 1] == ledgers[i + 1 + 1]);
        }
        lemma_way_is_settled(more, next, rest, after);
    }
}

/// Settling events moves what every one of their trades moves, one after the other.
pub proof fn law_every_trade_is_settled(before: Ledger, events: Seq<MarketEvent>, after: Ledger)
    requires
        all_parties_known(before, events),
    ensures
        settled_events(before, events) == Some(after) <==> exists|ledgers: Seq<Ledger>|
            leads(ledgers, before, events, after),
{
    let way = lemma_way_through(before, events);
    if settled_events(before, events) == Some(after) {
        assert(leads(way, before, events, after));
    }
    if exists|ledgers: Seq<Ledger>| leads(ledgers, before, events, after) {
        let ledgers = choose|ledgers: Seq<Ledger>| leads(ledgers, before, events, after);
        lemma_way_is_settled(ledgers, before, events, after);
    }
}

/// Replaying an order: the book takes it in, and every trade that comes of it is
/// settled. It fails only where the user has no account or a trade overflows.
pub proof fn law_order_replayed(state: State, order: Order, after: State)
    requires
        valid_book(state.book),
        users_in(state.book, state.ledger.dom()),
        order.quantity.valid(),
    ensures
        after_order(state, order) == Ok::<State, ReplayError>(after) <==> {
            &&& state.ledger.contains_key(order.user_id.0)
            &&& after.book == book_after(state.book, order)
            &&& exists|ledgers: Seq<Ledger>|
                leads(ledgers, state.ledger, events_of(state.book, order), after.ledger)
        },
        after_order(state, order) matches Err(e) ==> if state.ledger.contains_key(
            order.user_id.0,
        ) {
            e is Overflow
        } else {
            e == ReplayError::UnknownUser(order.user_id)
        },
{
    if state.ledger.contains_key(order.user_id.0) {
        assert(state.ledger.dom().contains(order.user_id.0));
        law_parties(state.book, order, state.ledger.dom());
        lemma_events_parties(state.book, order, state.ledger);
        law_every_trade_is_settled(state.ledger, events_of(state.book, order), after.ledger);
    }
}

/// Whether a state is carried on by a log entry as it has to be. A deposit adds its
/// amount and leaves the book; an order goes into the book, and every trade that comes of
/// it is settled. It fails at an entry that is no transaction, at an order from a user
/// without an account, and where an amount overflows.
pub open spec fn carried_on(
    before: State,
    entry: Seq<u8>,
    r: Result<State, ReplayError>,
) -> bool {
    match front(transaction_read(entry)) {
        None => r == Err::<State, ReplayError>(ReplayError::Malformed),
        Some(Transaction::Deposit(d)) => match r {
            Ok(after) => {
                &&& after.book == before.book
                &&& adds(before.ledger, after.ledger, d.user_id.0, d.asset_id.0, d.amount)
            },
            Err(e) => {
                &&& e is Overflow
                &&& amount_held(before.ledger, d.user_id.0, d.asset_id.0).plus(d.amount) is None
            },
        },
        Some(Transaction::SignedOrder(signed)) => {
            let order = signed.order;
            let events = events_of(before.book, order);
            match r {
                Ok(after) => {
                    &&& before.ledger.contains_key(order.user_id.0)
                    &&& after.book == book_after(before.book, order)
                    &&& exists|ledgers: Seq<Ledger>|
                        leads(ledgers, before.ledger, events, after.ledger)
                },
                Err(e) => if before.ledger.contains_key(order.user_id.0) {
                    &&& e is Overflow
                    &&& forall|ledgers: Seq<Ledger>, end: Ledger|
                        !#[trigger] leads(ledgers, before.ledger, events, end)
                } else {
                    e == ReplayError::UnknownUser(order.user_id)
                },
            }
        },
    }
}

/// A log without entries changes nothing. With one more entry, what was replayed up to it
/// is carried on by exactly what the entry says; what failed before it stays failed.
pub proof fn law_last_entry_replayed(state: State, entries: Seq<Seq<u8>>, entry: Seq<u8>)
    requires
        valid_book(state.book),
        users_in(state.book, state.ledger.dom()),
    ensures
        replay_from(state, Seq::empty()) == Ok::<State, ReplayError>(state),
        match replay_from(state, entries) {
            Ok(before) => carried_on(before, entry, replay_from(state, entries.push(entry))),
            Err(e) => replay_from(state, entries.push(entry)) == Err::<State, ReplayError>(e),
        },
{
    let last = seq![entry];
    assert(entries.push(entry) =~= entries + last);
    law_replay_in_parts(state, entries, last);
    if let Ok(before) = replay_from(state, entries) {
        assert(last.drop_first() =~= Seq::<Seq<u8>>::empty());
        assert(last[0] == entry);
        let r = after_entry(before, entry);
        match r {
            Ok(next) => {
                assert(replay_from(next, last.drop_first()) == Ok::<State, ReplayError>(next));
            },
            Err(e) => {},
        }
        assert(replay_from(before, last) == r);
        lemma_transaction_read_valid(entry);
        law_replay_from(state, entries);
        match front(transaction_read(entry)) {
            Some(Transaction::Deposit(d)) => {
                let end = match r {
                    Ok(next) => next.ledger,
                    Err(_) => before.ledger,
                };
                law_deposited(before.ledger, d, end);
            },
            Some(Transaction::SignedOrder(signed)) => {
                let order = signed.order;
                match r {
                    Ok(next) => law_order_replayed(before, order, next),
                    Err(e) => {
                        law_order_replayed(before, order, before);
                        let events = events_of(before.book, order);
                        assert forall|ledgers: Seq<Ledger>, end: Ledger|
                            before.ledger.contains_key(
                                order.user_id.0,
                            ) implies !#[trigger] leads(ledgers, before.ledger, events, end) by {
                            let after = State { ledger: end, book: book_after(before.book, order) };
                            law_order_replayed(before, order, after);
                            if leads(ledgers, before.ledger, events, end) {
                                assert(leads(
                                    ledgers,
                                    before.ledger,
                                    events_of(before.book, order),
                                    after.ledger,
                                ));
                                assert(after_order(before, order) == Ok::<State, ReplayError>(
                                    after,
                                ));
                            }
                        }
                    },
                }
            },
            None => {},
        }
    }
}

/// The state that a log stands for: from no accounts and an empty book on, it is carried
/// on entry by entry by exactly what each entry says, up to the first that fails.
pub proof fn law_log_replayed(entries: Seq<Seq<u8>>, entry: Seq<u8>)
    ensures
        match replayed(Seq::empty()) {
            Ok(state) => {
                &&& state.ledger.dom() == Set::<u64>::empty()
                &&& state.book.bids.len() == 0 && state.book.asks.len() == 0
                &&& state.book.next_trade_id == 0
            },
            Err(_) => false,
        },
        match replayed(entries) {
            Ok(before) => carried_on(before, entry, replayed(entries.push(entry))),
            Err(e) => replayed(entries.push(entry)) == Err::<State, ReplayError>(e),
        },
{
    let state = initial_state();
    assert(state.ledger.dom() =~= Set::<u64>::empty());
    law_last_entry_replayed(state, entries, entry);
}

/// The bytes of log entries are those of all of them, in order.
pub proof fn law_entry_views(entries: Seq<Vec<u8>>)
    ensures
        entry_views(entries).len() == entries.len(),
        forall|i: int|
            0 <= i < entries.len() ==> entry_views(entries)[i] == (#[trigger] entries[i])@,
{
}

/// What some events change for a user, in units of `10^-28`: what all their trades
/// change, added up.
pub open spec fn change_by_all(events: Seq<MarketEvent>, user: u64, asset: u32) -> int
    decreases events.len(),
{
    if events.len() == 0 {
        0
    } else {
        change_by_all(events.drop_last(), user, asset) + match events.last() {
            MarketEvent::OrderTraded(t) => change_by(t, user, asset),
            _ => 0,
        }
    }
}

proof fn lemma_change_splits(events: Seq<MarketEvent>, user: u64, asset: u32)
    requires
        events.len() > 0,
    ensures
        change_by_all(events, user, asset) == change_by_all(events.drop_first(), user, asset)
            + match events[0] {
            MarketEvent::OrderTraded(t) => change_by(t, user, asset),
            _ => 0,
        },
    decreases events.len(),
{
    let rest = events.drop_first();
    if events.len() > 1 {
        lemma_change_splits(events.drop_last(), user, asset);
        assert(events.drop_last().drop_first() =~= rest.drop_last());
        assert(rest.last() == events.last());
    } else {
        assert(events.drop_last() =~= Seq::empty());
        assert(rest =~= Seq::empty());
    }
}

/// Where nothing is rounded, settling events changes what every user holds of every
/// asset by exactly what all the trades move for them, added up.
pub proof fn law_events_change_holdings(
    ledger: Ledger,
    events: Seq<MarketEvent>,
    user: u64,
    asset: u32,
)
    requires
        valid_ledger(ledger),
        all_parties_known(ledger, events),
        events_settle_exactly(ledger, events),
    ensures
        settled_events(ledger, events) matches Some(after) && holding(after, user, asset)
            == holding(ledger, user, asset) + change_by_all(events, user, asset),
    decreases events.len(),
{
    if events.len() > 0 {
        lemma_parties_stay_known(ledger, events);
        lemma_change_splits(events, user, asset);
        match events[0] {
            MarketEvent::OrderTraded(t) => {
                assert(trade_settles_exactly(ledger, t));
                law_trade_changes_holdings(ledger, t, user, asset);
                lemma_settled_valid(ledger, t);
                let next = crate::accounts::settled(ledger, t)->0;
                law_events_change_holdings(next, events.drop_first(), user, asset);
            },
            _ => {
                law_events_change_holdings(ledger, events.drop_first(), user, asset);
            },
        }
    }
}

/// Where nothing is rounded, replaying an order changes what every user holds of every
/// asset by exactly what all the trades that come of it move for them, added up.
pub proof fn law_replayed_order_changes_holdings(
    state: State,
    order: Order,
    user: u64,
    asset: u32,
)
    requires
        valid_ledger(state.ledger),
        valid_book(state.book),
        users_in(state.book, state.ledger.dom()),
        order.quantity.valid(),
        state.ledger.contains_key(order.user_id.0),
        events_settle_exactly(state.ledger, events_of(state.book, order)),
    ensures
        after_order(state, order) matches Ok(after) && holding(after.ledger, user, asset)
            == holding(state.ledger, user, asset) + change_by_all(
            events_of(state.book, order),
            user,
            asset,
        ),
{
    assert(state.ledger.dom().contains(order.user_id.0));
    law_parties(state.book, order, state.ledger.dom());
    lemma_events_parties(state.book, order, state.ledger);
    law_events_change_holdings(state.ledger, events_of(state.book, order), user, asset);
}

/// Whether the difference between two ledgers is what a matcher makes of an event: a
/// trade between users with accounts is moved, and nothing else changes anything.
pub open spec fn event_carried(before: Ledger, after: Ledger, event: MarketEvent) -> bool {
    match event {
        MarketEvent::OrderTraded(t) => if before.contains_key(t.taker_user_id.0)
            && before.contains_key(t.maker_user_id.0) {
            moves(before, after, t)
        } else {
            after == before
        },
        _ => after == before,
    }
}

/// Whether some ledgers lead a matcher from one to another, event by event.
pub open spec fn carries(
    ledgers: Seq<Ledger>,
    before: Ledger,
    events: Seq<MarketEvent>,
    after: Ledger,
) -> bool {
    &&& ledgers.len() == events.len() + 1
    &&& ledgers[0] == before
    &&& ledgers[events.len() as int] == after
    &&& forall|i: int|
        #![trigger events[i]]
        0 <= i < events.len() ==> event_carried(ledgers[i], ledgers[i + 1], events[i])
}

proof fn lemma_carried_way(before: Ledger, events: Seq<MarketEvent>) -> (ledgers: Seq<Ledger>)
    ensures
        ({
            let (end, n) = carried_out(before, events);
            &&& n <= events.len()
            &&& carries(ledgers, before, events.take(n as int), end)
            &&& n < events.len() ==> events[n as int] is OrderTraded && forall|x: Ledger|
                !#[trigger] event_carried(end, x, events[n as int])
        }),
    decreases events.len(),
{
    if events.len() == 0 {
        assert(events.take(0) =~= events);
        seq![before]
    } else {
        let rest = events.drop_first();
        let next = match events[0] {
            MarketEvent::OrderTraded(t) => crate::matcher::settled_if_known(before, t),
            _ => Some(before),
        };
        if let MarketEvent::OrderTraded(t) = events[0] {
            if before.contains_key(t.taker_user_id.0) && before.contains_key(t.maker_user_id.0) {
                let candidate = match next {
                    Some(x) => x,
                    None => before,
                };
                law_settled(before, t, candidate);
            }
        }
        match next {
            Some(next) => {
                let more = lemma_carried_way(next, rest);
                let ledgers = seq![before] + more;
                let (end, n) = carried_out(before, events);
                let done = events.take(n as int);
                let behind = rest.take(n - 1);
                assert forall|i: int|
                    #![trigger done[i]]
                    0 <= i < done.len() implies event_carried(ledgers[i], ledgers[i + 1], done[i]) by {
                    if i > 0 {
                        assert(behind[i - 1] == done[i]);
                        assert(ledgers[i] == more[i - 1]);
                        assert(ledgers[i + 1] == more[i]);
                    } else {
                        assert(ledgers[1] == more[0]);
                    }
                }
                assert(ledgers[n as int] == more[n - 1]);
                if n < events.len() {
                    assert(events[n as int] == rest[n - 1]);
                }
                ledgers
            },
            None => {
                assert(events.take(0) =~= Seq::<MarketEvent>::empty());
                seq![before]
            },
        }
    }
}

/// A matcher carries out one event after the other and leaves none out: it stops only at
/// a trade between users with accounts that overflows.
pub proof fn law_carried_out(before: Ledger, events: Seq<MarketEvent>)
    ensures
        ({
            let (end, n) = carried_out(before, events);
            &&& n <= events.len()
            &&& exists|ledgers: Seq<Ledger>|
                carries(ledgers, before, events.take(n as int), end)
            &&& n < events.len() ==> events[n as int] is OrderTraded && forall|x: Ledger|
                !#[trigger] event_carried(end, x, events[n as int])
        }),
{
    let ledgers = lemma_carried_way(before, events);
    let (end, n) = carried_out(before, events);
    assert(carries(ledgers, before, events.take(n as int), end));
}

/// Whether some ledgers lead a matcher up to an event that it cannot carry out.
pub open spec fn gets_stuck(
    ledgers: Seq<Ledger>,
    before: Ledger,
    events: Seq<MarketEvent>,
) -> bool {
    let n = ledgers.len() - 1;
    &&& 0 <= n < events.len()
    &&& carries(ledgers, before, events.take(n), ledgers[n])
    &&& forall|x: Ledger| !#[trigger] event_carried(ledgers[n], x, events[n])
}

/// Whether a user has enough for an order, where a missing balance counts as zero: quote
/// currency for the whole quantity to buy, the quantity of base currency to sell.
pub open spec fn covers(ledger: Ledger, order: Order) -> bool {
    let user = order.user_id.0;
    match order.side {
        Side::Buy => order.price.times(order.quantity) matches Some(cost) && cost.value()
            <= amount_held(ledger, user, 1).value(),
        Side::Sell => order.quantity.value() <= amount_held(ledger, user, 2).value(),
    }
}

/// What a matcher thinks of an order.
pub proof fn law_verdict(ledger: Ledger, order: Order)
    ensures
        ({
            let known = ledger.contains_key(order.user_id.0);
            let v = verdict_on(ledger, order);
            &&& v is UserNotFound <==> !known
            &&& v is Overflow <==> known && costs_too_much(order)
            &&& v is InsufficientFunds <==> known && !costs_too_much(order) && !covers(
                ledger,
                order,
            )
            &&& v is Sufficient <==> known && covers(ledger, order)
        }),
{
}

/// What a matcher makes of a message on the channel of its market: a message without an
/// order, and an order from a user without an account or without enough, change nothing
/// and cause no event. Any other order goes into the book, all its events are published,
/// and every trade between users with accounts is settled.
pub proof fn law_message_matched(m: MatcherView, message: Seq<u8>)
    ensures
        match front(transaction_read(message)) {
            Some(Transaction::SignedOrder(signed)) => {
                let order = signed.order;
                let known = m.ledger.contains_key(order.user_id.0);
                if !known || (!costs_too_much(order) && !covers(m.ledger, order)) {
                    after_message(m, message) == Some((m, Seq::<MarketEvent>::empty()))
                } else {
                    match after_message(m, message) {
                        Some((next, events)) => {
                            &&& covers(m.ledger, order)
                            &&& events == events_of(m.book, order)
                            &&& next.book == book_after(m.book, order)
                            &&& next.taken == m.taken + 1
                            &&& exists|ledgers: Seq<Ledger>|
                                carries(ledgers, m.ledger, events, next.ledger)
                        },
                        None => {
                            ||| costs_too_much(order)
                            ||| m.taken >= u64::MAX
                            ||| exists|ledgers: Seq<Ledger>|
                                gets_stuck(ledgers, m.ledger, events_of(m.book, order))
                        },
                    }
                }
            },
            _ => after_message(m, message) == Some((m, Seq::<MarketEvent>::empty())),
        },
{
    if let Some(Transaction::SignedOrder(signed)) = front(transaction_read(message)) {
        let order = signed.order;
        law_verdict(m.ledger, order);
        let events = events_of(m.book, order);
        let (end, n) = carried_out(m.ledger, events);
        let ledgers = lemma_carried_way(m.ledger, events);
        assert(order_in(message) == Some(order));
        if n == events.len() {
            assert(events.take(n as int) =~= events);
            assert(carries(ledgers, m.ledger, events, end));
        } else {
            assert(ledgers.len() - 1 == n);
            assert(ledgers[n as int] == end);
            assert(gets_stuck(ledgers, m.ledger, events));
        }
        match after_message(m, message) {
            Some((next, published)) => {
                assert(m.ledger.contains_key(order.user_id.0) && covers(m.ledger, order)
                    ==> carries(ledgers, m.ledger, published, next.ledger));
            },
            None => {},
        }
    }
}

/// A matcher takes an order from a message that holds a signed order, and a deposit from
/// one that holds a deposit.
pub proof fn law_message_contents(message: Seq<u8>)
    ensures
        match front(transaction_read(message)) {
            Some(Transaction::SignedOrder(signed)) => order_in(message) == Some(signed.order)
                && deposit_in(message) is None,
            Some(Transaction::Deposit(deposit)) => deposit_in(message) == Some(deposit)
                && order_in(message) is None,
            None => order_in(message) is None && deposit_in(message) is None,
        },
{
}

} // verus!
