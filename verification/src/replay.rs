//! Rebuilding the state of the exchange from the execution log.
//!
//! The log is the record of all transactions in order. Replaying it is
//! deterministic: two parties who replay one log arrive at one state.
use crate::accounts::{deposited, parties_known, settled, AccountCache, Ledger};
use crate::book::{empty_book, BookView, OrderBook};
use crate::engine::{book_after, events_of, matched, traded, MatchingEngine};
use crate::engine_laws::{
    law_parties, law_trade_numbers_paced, lemma_good_book_valid, resting, users_in, valid_book,
};
use crate::messages::{
    decode_transaction, front, law_transaction_back, lemma_transaction_as_read,
    lemma_transaction_read_valid, transaction_as_read, transaction_read, transaction_reads_back,
    transaction_wire, valid_transaction,
};
use crate::types::{MarketEvent, Order, Transaction, UserID};
use vstd::prelude::*;

verus! {

/// The accounts and the order book.
pub struct State {
    pub ledger: Ledger,
    pub book: BookView,
}

/// Why a log cannot be replayed.
#[derive(Debug, Clone, Copy, PartialEq, Eq)]
pub enum ReplayError {
    /// An entry is no transaction.
    Malformed,
    /// An order is from a user who never made a deposit.
    UnknownUser(UserID),
    /// A balance grew beyond what a decimal can hold.
    Overflow,
}

/// No accounts, no orders.
pub open spec fn initial_state() -> State {
    State { ledger: Map::empty(), book: empty_book() }
}

/// The ledger after all trades among some events; `None` where it overflows.
pub open spec fn settled_events(ledger: Ledger, events: Seq<MarketEvent>) -> Option<Ledger>
    decreases events.len(),
{
    if events.len() == 0 {
        Some(ledger)
    } else {
        match events[0] {
            MarketEvent::OrderTraded(trade) => match settled(ledger, trade) {
                Some(after) => settled_events(after, events.drop_first()),
                None => None,
            },
            _ => settled_events(ledger, events.drop_first()),
        }
    }
}

/// The state after an order: it is matched, and the trades are settled.
pub open spec fn after_order(state: State, order: Order) -> Result<State, ReplayError> {
    if !state.ledger.contains_key(order.user_id.0) {
        Err(ReplayError::UnknownUser(order.user_id))
    } else {
        match settled_events(state.ledger, events_of(state.book, order)) {
            Some(ledger) => Ok(State { ledger, book: book_after(state.book, order) }),
            None => Err(ReplayError::Overflow),
        }
    }
}

/// The state after a transaction.
pub open spec fn after_transaction(state: State, tx: Transaction) -> Result<State, ReplayError> {
    match tx {
        Transaction::Deposit(deposit) => match deposited(state.ledger, deposit) {
            Some(ledger) => Ok(State { ledger, book: state.book }),
            None => Err(ReplayError::Overflow),
        },
        Transaction::SignedOrder(signed) => after_order(state, signed.order),
    }
}

/// The state after one log entry.
pub open spec fn after_entry(state: State, entry: Seq<u8>) -> Result<State, ReplayError> {
    match front(transaction_read(entry)) {
        Some(tx) => after_transaction(state, tx),
        None => Err(ReplayError::Malformed),
    }
}

/// The state after some log entries, one after the other; the first entry that
/// fails ends the replay.
pub open spec fn replay_from(state: State, entries: Seq<Seq<u8>>) -> Result<State, ReplayError>
    decreases entries.len(),
{
    if entries.len() == 0 {
        Ok(state)
    } else {
        match after_entry(state, entries[0]) {
            Ok(next) => replay_from(next, entries.drop_first()),
            Err(e) => Err(e),
        }
    }
}

/// The state that a whole log stands for.
pub open spec fn replayed(entries: Seq<Seq<u8>>) -> Result<State, ReplayError> {
    replay_from(initial_state(), entries)
}

/// The bytes of some log entries.
pub open spec fn entry_views(entries: Seq<Vec<u8>>) -> Seq<Seq<u8>> {
    entries.map_values(|e: Vec<u8>| e@)
}

/// Whether the parties of all trades among some events have accounts.
pub open spec fn all_parties_known(ledger: Ledger, events: Seq<MarketEvent>) -> bool {
    forall|i: int|
        0 <= i < events.len() ==> (#[trigger] events[i] matches MarketEvent::OrderTraded(trade)
            ==> parties_known(ledger, trade))
}

/// Settling trades opens and closes no account.
proof fn lemma_settled_keeps_accounts(ledger: Ledger, trade: crate::types::Trade)
    requires
        parties_known(ledger, trade),
    ensures
        settled(ledger, trade) matches Some(after) ==> after.dom() == ledger.dom(),
{
    if let Some(after) = settled(ledger, trade) {
        assert(after.dom() =~= ledger.dom());
    }
}

/// Parties stay known: past the first event, and once its trade is settled.
pub proof fn lemma_parties_stay_known(ledger: Ledger, events: Seq<MarketEvent>)
    requires
        events.len() > 0,
        all_parties_known(ledger, events),
    ensures
        all_parties_known(ledger, events.drop_first()),
        events[0] matches MarketEvent::OrderTraded(trade) ==> {
            &&& parties_known(ledger, trade)
            &&& settled(ledger, trade) matches Some(next) ==> {
                &&& next.dom() == ledger.dom()
                &&& all_parties_known(next, events.drop_first())
            }
        },
{
    let rest = events.drop_first();
    assert forall|i: int| 0 <= i < rest.len() implies (
    #[trigger] rest[i] matches MarketEvent::OrderTraded(t) ==> parties_known(ledger, t)) by {
        assert(rest[i] == events[i + 1]);
    }
    if let MarketEvent::OrderTraded(trade) = events[0] {
        assert(parties_known(ledger, trade));
        lemma_settled_keeps_accounts(ledger, trade);
        if let Some(next) = settled(ledger, trade) {
            assert forall|i: int| 0 <= i < rest.len() implies (
            #[trigger] rest[i] matches MarketEvent::OrderTraded(t) ==> parties_known(next, t)) by {
                if let MarketEvent::OrderTraded(t) = rest[i] {
                    assert(parties_known(ledger, t));
                    assert(ledger.dom().contains(t.taker_user_id.0));
                    assert(ledger.dom().contains(t.maker_user_id.0));
                }
            }
        }
    }
}

/// Applies the trades among some events to the accounts. Where one overflows,
/// `false` is returned and the accounts hold what was settled before it.
fn settle_events(accounts: &mut AccountCache, events: &Vec<MarketEvent>) -> (done: bool)
    requires
        all_parties_known(old(accounts)@, events@),
    ensures
        match settled_events(old(accounts)@, events@) {
            Some(ledger) => done && final(accounts)@ == ledger,
            None => !done,
        },
        done ==> final(accounts)@.dom() == old(accounts)@.dom(),
{
    let mut i: usize = 0;
    assert(events@.skip(0) =~= events@);
    while i < events.len()
        invariant
            i <= events@.len(),
            settled_events(old(accounts)@, events@) == settled_events(
                accounts@,
                events@.skip(i as int),
            ),
            all_parties_known(old(accounts)@, events@),
            accounts@.dom() == old(accounts)@.dom(),
        decreases events@.len() - i,
    {
        let ghost rest = events@.skip(i as int);
        assert(rest.drop_first() =~= events@.skip(i + 1));
        assert(rest[0] == events@[i as int]);
        if let MarketEvent::OrderTraded(trade) = &events[i] {
            proof {
                assert(events@[i as int] == MarketEvent::OrderTraded(*trade));
                assert(parties_known(old(accounts)@, *trade));
                assert(accounts@.contains_key(trade.taker_user_id.0) && accounts@.contains_key(
                    trade.maker_user_id.0,
                )) by {
                    assert(old(accounts)@.dom().contains(trade.taker_user_id.0));
                    assert(old(accounts)@.dom().contains(trade.maker_user_id.0));
                }
                lemma_settled_keeps_accounts(accounts@, *trade);
            }
            if !accounts.settle(trade) {
                return false;
            }
        }
        i += 1;
    }
    true
}

/// The orders in some log entries, in order.
pub open spec fn orders_in(entries: Seq<Seq<u8>>) -> Seq<Order>
    decreases entries.len(),
{
    if entries.len() == 0 {
        Seq::empty()
    } else {
        match front(transaction_read(entries[0])) {
            Some(Transaction::SignedOrder(signed)) => seq![signed.order] + orders_in(
                entries.drop_first(),
            ),
            _ => orders_in(entries.drop_first()),
        }
    }
}

/// The users of the deposits in some log entries.
pub open spec fn depositors(entries: Seq<Seq<u8>>) -> Set<u64>
    decreases entries.len(),
{
    if entries.len() == 0 {
        Set::empty()
    } else {
        match front(transaction_read(entries[0])) {
            Some(Transaction::Deposit(deposit)) => depositors(entries.drop_first()).insert(
                deposit.user_id.0,
            ),
            _ => depositors(entries.drop_first()),
        }
    }
}

/// A book once some orders have been processed, one after the other.
pub open spec fn book_of(book: BookView, orders: Seq<Order>) -> BookView
    decreases orders.len(),
{
    if orders.len() == 0 {
        book
    } else {
        book_of(book_after(book, orders[0]), orders.drop_first())
    }
}

/// Whether all entries are transactions and every order is from one of some users or
/// from one who made a deposit before.
pub open spec fn accounted_for(users: Set<u64>, entries: Seq<Seq<u8>>) -> bool
    decreases entries.len(),
{
    entries.len() == 0 || match front(transaction_read(entries[0])) {
        Some(Transaction::Deposit(deposit)) => accounted_for(
            users.insert(deposit.user_id.0),
            entries.drop_first(),
        ),
        Some(Transaction::SignedOrder(signed)) => users.contains(signed.order.user_id.0)
            && accounted_for(users, entries.drop_first()),
        None => false,
    }
}

/// Settling events opens and closes no account.
proof fn lemma_events_keep_accounts(ledger: Ledger, events: Seq<MarketEvent>)
    requires
        all_parties_known(ledger, events),
    ensures
        settled_events(ledger, events) matches Some(after) ==> after.dom() == ledger.dom(),
    decreases events.len(),
{
    if events.len() > 0 {
        lemma_parties_stay_known(ledger, events);
        match events[0] {
            MarketEvent::OrderTraded(trade) => {
                if let Some(next) = settled(ledger, trade) {
                    lemma_events_keep_accounts(next, events.drop_first());
                }
            },
            _ => lemma_events_keep_accounts(ledger, events.drop_first()),
        }
    }
}

/// A replay arrives at the book that comes of processing the orders of the log in
/// their order, and at the accounts that there were and those of the users who made
/// deposits. It fails only where an entry is no transaction, an order is from a user
/// without an account, or a balance overflows.
pub proof fn law_replay_from(state: State, entries: Seq<Seq<u8>>)
    requires
        valid_book(state.book),
        users_in(state.book, state.ledger.dom()),
    ensures
        match replay_from(state, entries) {
            Ok(end) => {
                &&& end.book == book_of(state.book, orders_in(entries))
                &&& end.ledger.dom() == state.ledger.dom().union(depositors(entries))
                &&& accounted_for(state.ledger.dom(), entries)
                &&& valid_book(end.book)
                &&& users_in(end.book, end.ledger.dom())
            },
            Err(e) => e is Overflow || !accounted_for(state.ledger.dom(), entries),
        },
    decreases entries.len(),
{
    let users = state.ledger.dom();
    if entries.len() == 0 {
        assert(users.union(Set::empty()) =~= users);
    } else {
        let rest = entries.drop_first();
        lemma_transaction_read_valid(entries[0]);
        if let Some(tx) = front(transaction_read(entries[0])) {
            if let Transaction::SignedOrder(signed) = tx {
                let order = signed.order;
                if users.contains(order.user_id.0) {
                    law_parties(state.book, order, users);
                    lemma_events_parties(state.book, order, state.ledger);
                    lemma_events_keep_accounts(state.ledger, events_of(state.book, order));
                }
                let orders = seq![order] + orders_in(rest);
                assert(orders.drop_first() =~= orders_in(rest));
            }
            if let Ok(next) = after_transaction(state, tx) {
                if let Transaction::Deposit(deposit) = tx {
                    let user = deposit.user_id.0;
                    assert(next.ledger.dom() =~= users.insert(user));
                    assert(users.insert(user).union(depositors(rest)) =~= users.union(
                        depositors(rest).insert(user),
                    ));
                }
                law_replay_from(next, rest);
            }
        }
    }
}

/// The state that a log stands for: its book is that of the log's orders, processed in
/// their order from an empty book on, and its accounts are those of the users of its
/// deposits.
pub proof fn law_replayed_state(entries: Seq<Seq<u8>>)
    ensures
        match replayed(entries) {
            Ok(end) => {
                &&& end.book == book_of(empty_book(), orders_in(entries))
                &&& end.ledger.dom() == depositors(entries)
                &&& accounted_for(Set::empty(), entries)
            },
            Err(e) => e is Overflow || !accounted_for(Set::empty(), entries),
        },
{
    let state = initial_state();
    assert(state.ledger.dom() =~= Set::<u64>::empty());
    assert(Set::<u64>::empty().union(depositors(entries)) =~= depositors(entries));
    law_replay_from(state, entries);
}

/// Rebuilds accounts and order book from the entries of the execution log. All
/// orders in the book are then from users with an account, and there are no more
/// trades and resting orders together than entries.
pub fn reconstruct_state_from_log(entries: &Vec<Vec<u8>>) -> (r: Result<
    (AccountCache, OrderBook),
    ReplayError,
>)
    ensures
        match r {
            Ok((accounts, book)) => {
                &&& replayed(entry_views(entries@)) == Ok::<State, ReplayError>(
                    State { ledger: accounts@, book: book@ },
                )
                &&& book@ == book_of(empty_book(), orders_in(entry_views(entries@)))
                &&& accounts@.dom() == depositors(entry_views(entries@))
                &&& users_in(book@, accounts@.dom())
                &&& book@.next_trade_id + resting(book@) <= entries@.len()
            },
            Err(e) => replayed(entry_views(entries@)) == Err::<State, ReplayError>(e),
        },
{
    let ghost all = entry_views(entries@);
    let mut accounts = AccountCache::new();
    let mut book = OrderBook::new();
    let mut n: usize = 0;
    assert(all.skip(0) =~= all);
    while n < entries.len()
        invariant
            n <= entries@.len(),
            all == entry_views(entries@),
            replayed(all) == replay_from(
                State { ledger: accounts@, book: book@ },
                all.skip(n as int),
            ),
            users_in(book@, accounts@.dom()),
            book@.next_trade_id + resting(book@) <= n,
        decreases entries@.len() - n,
    {
        let ghost rest = all.skip(n as int);
        assert(rest.drop_first() =~= all.skip(n + 1));
        assert(rest[0] == entries@[n as int]@);
        match decode_transaction(entries[n].as_slice()) {
            None => {
                return Err(ReplayError::Malformed);
            },
            Some(Transaction::Deposit(deposit)) => {
                let ghost before = accounts@;
                if !accounts.deposit(&deposit) {
                    return Err(ReplayError::Overflow);
                }
                assert forall|u: u64| before.dom().contains(u) implies accounts@.dom().contains(u) by {
                }
            },
            Some(Transaction::SignedOrder(signed)) => {
                let order = signed.order;
                if !accounts.contains(order.user_id) {
                    return Err(ReplayError::UnknownUser(order.user_id));
                }
                book.known_good();
                order.quantity.known_valid();
                let ghost users = accounts@.dom();
                let ghost before = book@;
                proof {
                    lemma_good_book_valid(before);
                    law_parties(before, order, users);
                    law_trade_numbers_paced(before, order);
                    lemma_events_parties(before, order, accounts@);
                }
                let events = book.process_order(order);
                if !settle_events(&mut accounts, &events) {
                    return Err(ReplayError::Overflow);
                }
            },
        }
        n += 1;
    }
    assert(all.skip(n as int) =~= Seq::<Seq<u8>>::empty());
    proof {
        law_replayed_state(all);
    }
    Ok((accounts, book))
}

/// The trades among the events of an order are those of its matching.
pub proof fn lemma_events_parties(book: BookView, order: Order, ledger: Ledger)
    requires
        forall|i: int|
            0 <= i < matched(book, order).trades.len() ==> {
                let t = #[trigger] matched(book, order).trades[i];
                ledger.dom().contains(t.maker_user_id.0) && ledger.dom().contains(
                    t.taker_user_id.0,
                )
            },
    ensures
        all_parties_known(ledger, events_of(book, order)),
{
    let m = matched(book, order);
    let events = events_of(book, order);
    assert forall|i: int| 0 <= i < events.len() implies (
    #[trigger] events[i] matches MarketEvent::OrderTraded(trade) ==> parties_known(ledger, trade)) by {
        if i < m.trades.len() {
            assert(traded(m.trades)[i] == MarketEvent::OrderTraded(m.trades[i]));
        }
    }
}

/// A log can be replayed in parts: what comes later is replayed from where the
/// earlier part ended.
pub proof fn law_replay_in_parts(state: State, earlier: Seq<Seq<u8>>, later: Seq<Seq<u8>>)
    ensures
        replay_from(state, earlier + later) == match replay_from(state, earlier) {
            Ok(halfway) => replay_from(halfway, later),
            Err(e) => Err(e),
        },
    decreases earlier.len(),
{
    let all = earlier + later;
    if earlier.len() == 0 {
        assert(all =~= later);
    } else {
        assert(all.drop_first() =~= earlier.drop_first() + later);
        if let Ok(next) = after_entry(state, earlier[0]) {
            law_replay_in_parts(next, earlier.drop_first(), later);
        }
    }
}

/// The log entries of some transactions.
pub open spec fn logged(txs: Seq<Transaction>) -> Seq<Seq<u8>> {
    txs.map_values(|tx: Transaction| transaction_wire(tx))
}

/// The state after some transactions, one after the other.
pub open spec fn after_transactions(state: State, txs: Seq<Transaction>) -> Result<
    State,
    ReplayError,
>
    decreases txs.len(),
{
    if txs.len() == 0 {
        Ok(state)
    } else {
        match after_transaction(state, txs[0]) {
            Ok(next) => after_transactions(next, txs.drop_first()),
            Err(e) => Err(e),
        }
    }
}

/// Transactions as they are read once they were written.
pub open spec fn all_as_read(txs: Seq<Transaction>) -> Seq<Transaction> {
    txs.map_values(|tx: Transaction| transaction_as_read(tx))
}

/// Replaying the log of some transactions is carrying them out; of a zero the sign is
/// lost on the way.
pub proof fn law_replay_carries_out(state: State, txs: Seq<Transaction>)
    requires
        forall|i: int| 0 <= i < txs.len() ==> valid_transaction(#[trigger] txs[i]),
    ensures
        replay_from(state, logged(txs)) == after_transactions(state, all_as_read(txs)),
        (forall|i: int| 0 <= i < txs.len() ==> transaction_reads_back(#[trigger] txs[i]))
            ==> replay_from(state, logged(txs)) == after_transactions(state, txs),
    decreases txs.len(),
{
    let read = all_as_read(txs);
    assert forall|i: int| 0 <= i < txs.len() && transaction_reads_back(
        #[trigger] txs[i],
    ) implies read[i] == txs[i] by {
        lemma_transaction_as_read(txs[i]);
    }
    if forall|i: int| 0 <= i < txs.len() ==> transaction_reads_back(#[trigger] txs[i]) {
        assert(read =~= txs);
    }
    if txs.len() > 0 {
        assert(read.drop_first() =~= all_as_read(txs.drop_first()));
        assert(valid_transaction(txs[0]));
        assert(read[0] == transaction_as_read(txs[0]));
        let entry = transaction_wire(txs[0]);
        assert(entry + Seq::<u8>::empty() =~= entry);
        law_transaction_back(txs[0], Seq::empty());
        assert(logged(txs).drop_first() =~= logged(txs.drop_first()));
        if let Ok(next) = after_transaction(state, read[0]) {
            law_replay_carries_out(next, txs.drop_first());
        }
    }
}

} // verus!
