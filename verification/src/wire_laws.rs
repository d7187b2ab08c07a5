//! What is on the wire: amounts that are read back as they were written stay so while
//! orders are matched, and fields stand where they are looked for.
use crate::book::{ahead, empty_book, placed, BookView, LevelView};
use crate::bytes::{le_value, lemma_le_bytes_back, lemma_pow256_sizes};
use crate::decimal::Decimal;
use crate::engine::{
    book_after, events_of, fill, left_of, matched, placement, smaller, sweep, swept_book, traded,
    with_quantity,
};
use crate::events::{event_read, event_reads_back};
use crate::messages::{order_reads_back, transaction_read};
use crate::types::{MarketEvent, Order, Side, Trade, Transaction};
use vstd::prelude::*;

verus! {

pub open spec fn orders_read_back(orders: Seq<Order>) -> bool {
    forall|i: int| 0 <= i < orders.len() ==> order_reads_back(#[trigger] orders[i])
}

pub open spec fn levels_read_back(levels: Seq<LevelView>) -> bool {
    forall|i: int| 0 <= i < levels.len() ==> orders_read_back((#[trigger] levels[i]).orders)
}

/// The amounts of all resting orders are read back as they were written.
pub open spec fn book_reads_back(book: BookView) -> bool {
    levels_read_back(book.bids) && levels_read_back(book.asks)
}

pub open spec fn trades_read_back(trades: Seq<Trade>) -> bool {
    forall|i: int|
        0 <= i < trades.len() ==> (#[trigger] trades[i]).price.reads_back()
            && trades[i].quantity.reads_back()
}

proof fn lemma_left_reads_back(a: Decimal, b: Decimal)
    requires
        a.reads_back(),
        b.reads_back(),
    ensures
        left_of(a, b).reads_back(),
{
    broadcast use Decimal::lemma_of_signed;

    Decimal::lemma_results_valid(a, b);
}

proof fn lemma_fill_reads_back(taker: Order, makers: Seq<Order>, id: nat)
    requires
        order_reads_back(taker),
        orders_read_back(makers),
    ensures
        order_reads_back(fill(taker, makers, id).taker),
        orders_read_back(fill(taker, makers, id).makers),
        trades_read_back(fill(taker, makers, id).trades),
    decreases makers.len(),
{
    if makers.len() > 0 && taker.quantity.value() != 0 {
        let maker = makers[0];
        assert(order_reads_back(maker));
        let q = smaller(taker.quantity, maker.quantity);
        lemma_left_reads_back(taker.quantity, q);
        lemma_left_reads_back(maker.quantity, q);
        let tail = makers.drop_first();
        assert forall|i: int| 0 <= i < tail.len() implies order_reads_back(#[trigger] tail[i]) by {
            assert(tail[i] == makers[i + 1]);
        }
        lemma_fill_reads_back(
            with_quantity(taker, left_of(taker.quantity, q)),
            tail,
            id + 1,
        );
    }
}

proof fn lemma_tail_reads_back(levels: Seq<LevelView>)
    requires
        levels.len() > 0,
        levels_read_back(levels),
    ensures
        orders_read_back(levels[0].orders),
        levels_read_back(levels.drop_first()),
{
    let tail = levels.drop_first();
    assert forall|i: int| 0 <= i < tail.len() implies orders_read_back(
        (#[trigger] tail[i]).orders,
    ) by {
        assert(tail[i] == levels[i + 1]);
    }
}

proof fn lemma_sweep_reads_back(taker: Order, levels: Seq<LevelView>, desc: bool, id: nat)
    requires
        order_reads_back(taker),
        levels_read_back(levels),
    ensures
        order_reads_back(sweep(taker, levels, desc, id).taker),
        levels_read_back(sweep(taker, levels, desc, id).levels),
        trades_read_back(sweep(taker, levels, desc, id).trades),
    decreases levels.len(),
{
    if !(taker.quantity.value() <= 0 || levels.len() == 0 || ahead(
        taker.price,
        levels[0].price,
        desc,
    )) {
        lemma_tail_reads_back(levels);
        lemma_fill_reads_back(taker, levels[0].orders, id);
        let f = fill(taker, levels[0].orders, id);
        lemma_sweep_reads_back(f.taker, levels.drop_first(), desc, id + f.trades.len());
    }
}

proof fn lemma_placed_reads_back(levels: Seq<LevelView>, order: Order, desc: bool)
    requires
        levels_read_back(levels),
        order_reads_back(order),
    ensures
        levels_read_back(placed(levels, order, desc)),
    decreases levels.len(),
{
    if levels.len() > 0 {
        lemma_tail_reads_back(levels);
        lemma_placed_reads_back(levels.drop_first(), order, desc);
    }
}

/// Where the amounts of an order and of the orders in the book are read back as they
/// were written, so are those of the events and of the book that come of it.
pub proof fn law_events_read_back(book: BookView, order: Order)
    requires
        book_reads_back(book),
        order_reads_back(order),
    ensures
        forall|i: int|
            0 <= i < events_of(book, order).len() ==> event_reads_back(
                #[trigger] events_of(book, order)[i],
            ),
        book_reads_back(book_after(book, order)),
{
    let m = matched(book, order);
    match order.side {
        Side::Buy => lemma_sweep_reads_back(order, book.asks, false, book.next_trade_id),
        Side::Sell => lemma_sweep_reads_back(order, book.bids, true, book.next_trade_id),
    }
    let swept = swept_book(book, order);
    lemma_placed_reads_back(swept.bids, m.taker, true);
    lemma_placed_reads_back(swept.asks, m.taker, false);
    let events = events_of(book, order);
    assert forall|i: int| 0 <= i < events.len() implies event_reads_back(#[trigger] events[i]) by {
        if i < m.trades.len() {
            assert(events[i] == traded(m.trades)[i]);
            assert(m.trades[i].price.reads_back());
        } else {
            assert(events[i] == placement(m.taker));
        }
    }
}

/// An empty book holds no amounts.
pub proof fn law_empty_book_reads_back()
    ensures
        book_reads_back(empty_book()),
{
}

/// Where the fields of a transaction stand in its bytes, numbers lowest byte first.
pub proof fn law_transaction_fields(s: Seq<u8>)
    ensures
        transaction_read(s) matches Some((tx, _)) ==> match tx {
            Transaction::SignedOrder(signed) => {
                let o = signed.order;
                &&& s.len() >= 28
                &&& le_value(s.take(4)) == 0
                &&& le_value(s.subrange(4, 12)) == o.order_id.0
                &&& le_value(s.subrange(12, 20)) == o.user_id.0
                &&& le_value(s.subrange(20, 24)) == o.market_id.0
                &&& le_value(s.subrange(24, 28)) == (if o.side == Side::Buy {
                    0nat
                } else {
                    1
                })
            },
            Transaction::Deposit(d) => {
                &&& s.len() >= 16
                &&& le_value(s.take(4)) == 1
                &&& le_value(s.subrange(4, 12)) == d.user_id.0
                &&& le_value(s.subrange(12, 16)) == d.asset_id.0
            },
        },
{
    if let Some((tx, _)) = transaction_read(s) {
        lemma_pow256_sizes();
        lemma_le_bytes_back(s.take(4));
        let a = s.skip(4);
        let b = a.skip(8);
        match tx {
            Transaction::SignedOrder(_) => {
                let c = b.skip(8);
                let d = c.skip(4);
                assert(a.take(8) =~= s.subrange(4, 12));
                assert(b.take(8) =~= s.subrange(12, 20));
                assert(c.take(4) =~= s.subrange(20, 24));
                assert(d.take(4) =~= s.subrange(24, 28));
                lemma_le_bytes_back(a.take(8));
                lemma_le_bytes_back(b.take(8));
                lemma_le_bytes_back(c.take(4));
                lemma_le_bytes_back(d.take(4));
            },
            Transaction::Deposit(_) => {
                assert(a.take(8) =~= s.subrange(4, 12));
                assert(b.take(4) =~= s.subrange(12, 16));
                lemma_le_bytes_back(a.take(8));
                lemma_le_bytes_back(b.take(4));
            },
        }
    }
}

/// Where the first fields of an event stand in its bytes, numbers lowest byte first.
pub proof fn law_event_fields(s: Seq<u8>)
    ensures
        event_read(s) matches Some((e, _)) ==> match e {
            MarketEvent::OrderPlaced { order_id, user_id, market_id, side, .. } => {
                &&& s.len() >= 28
                &&& le_value(s.take(4)) == 0
                &&& le_value(s.subrange(4, 12)) == order_id.0
                &&& le_value(s.subrange(12, 20)) == user_id.0
                &&& le_value(s.subrange(20, 24)) == market_id.0
                &&& le_value(s.subrange(24, 28)) == (if side == Side::Buy {
                    0nat
                } else {
                    1
                })
            },
            MarketEvent::OrderTraded(t) => {
                &&& s.len() >= 48
                &&& le_value(s.take(4)) == 1
                &&& le_value(s.subrange(4, 12)) == t.trade_id.0
                &&& le_value(s.subrange(12, 16)) == t.market_id.0
                &&& le_value(s.subrange(16, 24)) == t.maker_order_id.0
                &&& le_value(s.subrange(24, 32)) == t.taker_order_id.0
                &&& le_value(s.subrange(32, 40)) == t.maker_user_id.0
                &&& le_value(s.subrange(40, 48)) == t.taker_user_id.0
            },
            MarketEvent::OrderCancelled { order_id, timestamp } => {
                &&& s.len() >= 20
                &&& le_value(s.take(4)) == 2
                &&& le_value(s.subrange(4, 12)) == order_id.0
                &&& le_value(s.subrange(12, 20)) == timestamp
            },
        },
{
    if let Some((e, _)) = event_read(s) {
        lemma_pow256_sizes();
        lemma_le_bytes_back(s.take(4));
        let a = s.skip(4);
        let b = a.skip(8);
        assert(s.len() >= 12);
        assert(a.take(8) =~= s.subrange(4, 12));
        lemma_le_bytes_back(a.take(8));
        match e {
            MarketEvent::OrderPlaced { .. } => {
                let c = b.skip(8);
                let d = c.skip(4);
                assert(b.take(8) =~= s.subrange(12, 20));
                assert(c.take(4) =~= s.subrange(20, 24));
                assert(d.take(4) =~= s.subrange(24, 28));
                lemma_le_bytes_back(b.take(8));
                lemma_le_bytes_back(c.take(4));
                lemma_le_bytes_back(d.take(4));
            },
            MarketEvent::OrderTraded(_) => {
                let c = b.skip(4);
                let d = c.skip(8);
                let f = d.skip(8);
                let g = f.skip(8);
                assert(b.take(4) =~= s.subrange(12, 16));
                assert(c.take(8) =~= s.subrange(16, 24));
                assert(d.take(8) =~= s.subrange(24, 32));
                assert(f.take(8) =~= s.subrange(32, 40));
                assert(g.take(8) =~= s.subrange(40, 48));
                lemma_le_bytes_back(b.take(4));
                lemma_le_bytes_back(c.take(8));
                lemma_le_bytes_back(d.take(8));
                lemma_le_bytes_back(f.take(8));
                lemma_le_bytes_back(g.take(8));
            },
            MarketEvent::OrderCancelled { .. } => {
                assert(b.take(8) =~= s.subrange(12, 20));
                lemma_le_bytes_back(b.take(8));
            },
        }
    }
}

} // verus!
