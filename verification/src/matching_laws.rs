//! What becomes of an order and of the whole book that it meets.
use crate::book::{ahead, good_book, good_level, good_side, may_rest, queue, BookView, LevelView};
use crate::decimal::Decimal;
use crate::engine::{
    book_after, events_of, fill, left_of, matched, opposite, smaller, sweep, swept_book, traded,
    with_quantity,
};
use crate::engine_laws::{
    fills_exactly, law_joins_the_back, law_quantity_conserved, lemma_fill_any_number,
    lemma_fill_in_turn, lemma_good_book_valid, lemma_left_valid, lemma_queue_split,
    lemma_sweep_taker, lemma_tail_good, lemma_total_adds, lemma_volume_adds, sweeps_exactly, total,
    valid_quantities, volume,
};
use crate::types::{MarketEvent, Order, Side, Trade, TradeID};
use vstd::prelude::*;

verus! {

/// How many orders rest at the first levels.
pub open spec fn count_at(levels: Seq<LevelView>, k: int) -> int
    decreases k,
{
    if k <= 0 {
        0
    } else {
        count_at(levels, k - 1) + levels[k - 1].orders.len()
    }
}

/// Every resting order has its place in the queue, behind all orders of better levels and
/// all older orders of its own, and there is nothing else in the queue.
pub proof fn law_queue(levels: Seq<LevelView>, k: int, i: int)
    requires
        0 <= k < levels.len(),
        0 <= i < levels[k].orders.len(),
    ensures
        queue(levels).len() == count_at(levels, levels.len() as int),
        0 <= count_at(levels, k) + i < queue(levels).len(),
        queue(levels)[count_at(levels, k) + i] == levels[k].orders[i],
    decreases levels.len(),
{
    lemma_queue_length(levels);
    let tail = levels.drop_first();
    let here = levels[0].orders;
    if k > 0 {
        assert(tail[k - 1] == levels[k]);
        law_queue(tail, k - 1, i);
        lemma_count_splits(levels, k);
        lemma_count_splits(levels, levels.len() as int);
    }
}

proof fn lemma_count_splits(levels: Seq<LevelView>, k: int)
    requires
        0 < k <= levels.len(),
    ensures
        count_at(levels, k) == levels[0].orders.len() + count_at(levels.drop_first(), k - 1),
    decreases k,
{
    if k > 1 {
        lemma_count_splits(levels, k - 1);
        assert(levels.drop_first()[k - 2] == levels[k - 1]);
    } else {
        assert(count_at(levels, 0) == 0);
    }
}

proof fn lemma_queue_length(levels: Seq<LevelView>)
    ensures
        queue(levels).len() == count_at(levels, levels.len() as int),
    decreases levels.len(),
{
    if levels.len() > 0 {
        lemma_queue_length(levels.drop_first());
        lemma_count_splits(levels, levels.len() as int);
    }
}

/// The resting orders that an order can trade with, in the order in which they are
/// served.
pub open spec fn others(book: BookView, side: Side) -> Seq<Order> {
    match side {
        Side::Buy => queue(book.asks),
        Side::Sell => queue(book.bids),
    }
}

/// The resting orders of an order's own side, in the order in which they are served.
pub open spec fn peers(book: BookView, side: Side) -> Seq<Order> {
    match side {
        Side::Buy => queue(book.bids),
        Side::Sell => queue(book.asks),
    }
}

/// Whether the price of a resting order is as good as an incoming order asks for.
pub open spec fn meets(order: Order, resting: Order) -> bool {
    match order.side {
        Side::Buy => resting.price.value() <= order.price.value(),
        Side::Sell => resting.price.value() >= order.price.value(),
    }
}

/// Whether an order traded with one resting order as it has to: the price met its own,
/// the trade was of the smaller of what both had left and at the resting order's price,
/// and it left the order with that much less.
pub open spec fn traded_with(
    order: Order,
    number: int,
    resting: Order,
    trade: Trade,
    had: Decimal,
    has: Decimal,
) -> bool {
    &&& had.value() != 0
    &&& meets(order, resting)
    &&& trade == Trade {
        trade_id: TradeID(number as u64),
        market_id: order.market_id,
        maker_order_id: resting.order_id,
        taker_order_id: order.order_id,
        maker_user_id: resting.user_id,
        taker_user_id: order.user_id,
        quantity: if resting.quantity.value() < had.value() {
            resting.quantity
        } else {
            had
        },
        price: resting.price,
        timestamp: order.timestamp,
        taker_side: order.side,
    }
    &&& had.minus(trade.quantity) matches Some(d) ==> has == d
}

/// Whether an order met a queue as it has to. It traded with the first orders, one
/// trade each, numbered one by one. Every resting order before the last was filled, and
/// the last one keeps what is over. The order went on for as long as it had quantity
/// left and the next price met its own.
pub open spec fn met(
    order: Order,
    number: nat,
    before: Seq<Order>,
    trades: Seq<Trade>,
    left: Seq<Decimal>,
    after: Seq<Order>,
) -> bool {
    let n = trades.len() as int;
    &&& n <= before.len()
    &&& left.len() == n + 1
    &&& left[0] == order.quantity
    &&& n > 0 ==> order.quantity.value() > 0
    &&& forall|i: int|
        #![trigger trades[i]]
        0 <= i < n ==> traded_with(
            order,
            number + i,
            before[i],
            trades[i],
            left[i],
            left[i + 1],
        )
    &&& forall|i: int|
        #![trigger trades[i]]
        0 <= i < n - 1 ==> trades[i].quantity.value() == before[i].quantity.value()
    &&& n < before.len() ==> left[n].value() <= 0 || !meets(order, before[n])
    &&& n == 0 ==> after == before
    &&& n > 0 ==> kept(before, trades[n - 1], left[n], after, n)
}

/// Whether a queue keeps what it has to once its first `n` orders have traded, the last
/// of them in the given trade.
pub open spec fn kept(
    before: Seq<Order>,
    last: Trade,
    left: Decimal,
    after: Seq<Order>,
    n: int,
) -> bool {
    match before[n - 1].quantity.minus(last.quantity) {
        Some(over) => if over.value() == 0 {
            after == before.skip(n)
        } else {
            &&& left.value() == 0
            &&& after == seq![Order { quantity: over, ..before[n - 1] }] + before.skip(n)
        },
        None => true,
    }
}

/// Whether an order joined a queue at a place: behind every order whose price is as good
/// as its own and ahead of every order whose price is worse.
pub open spec fn joined_at(before: Seq<Order>, order: Order, after: Seq<Order>, k: int) -> bool {
    &&& 0 <= k <= before.len()
    &&& after == before.insert(k, order)
    &&& forall|i: int|
        0 <= i < k ==> match order.side {
            Side::Buy => (#[trigger] before[i]).price.value() >= order.price.value(),
            Side::Sell => before[i].price.value() <= order.price.value(),
        }
    &&& forall|i: int|
        k <= i < before.len() ==> match order.side {
            Side::Buy => (#[trigger] before[i]).price.value() < order.price.value(),
            Side::Sell => before[i].price.value() > order.price.value(),
        }
}

/// Whether a book took an order in as it has to: the order met the other side, what it
/// had left in the end joined its own side and was reported, and every trade was
/// reported before that.
pub open spec fn taken_in(
    book: BookView,
    order: Order,
    trades: Seq<Trade>,
    left: Seq<Decimal>,
    events: Seq<MarketEvent>,
    after: BookView,
) -> bool {
    let n = trades.len() as int;
    &&& met(
        order,
        book.next_trade_id,
        others(book, order.side),
        trades,
        left,
        others(after, order.side),
    )
    &&& after.next_trade_id == book.next_trade_id + n
    &&& forall|i: int|
        0 <= i < n ==> #[trigger] events[i] == MarketEvent::OrderTraded(trades[i])
    &&& if left[n].value() > 0 {
        &&& events.len() == n + 1
        &&& events[n] == MarketEvent::OrderPlaced {
            order_id: order.order_id,
            user_id: order.user_id,
            market_id: order.market_id,
            side: order.side,
            price: order.price,
            quantity: left[n],
            timestamp: order.timestamp,
        }
        &&& exists|k: int|
            joined_at(
                peers(book, order.side),
                Order { quantity: left[n], ..order },
                peers(after, order.side),
                k,
            )
    } else {
        &&& events.len() == n
        &&& peers(after, order.side) == peers(book, order.side)
    }
}

/// A fill leaves a chain of what the taker has left.
proof fn lemma_fill_chain(taker: Order, makers: Seq<Order>, id: nat) -> (left: Seq<Decimal>)
    requires
        taker.quantity.valid(),
        valid_quantities(makers),
    ensures
        ({
            let f = fill(taker, makers, id);
            let n = f.trades.len() as int;
            &&& n <= makers.len()
            &&& left.len() == n + 1
            &&& left[0] == taker.quantity
            &&& left[n] == f.taker.quantity
            &&& forall|i: int|
                #![trigger f.trades[i]]
                0 <= i < n ==> {
                    &&& left[i].value() != 0
                    &&& f.trades[i] == crate::engine::trade_between(
                        taker,
                        makers[i],
                        smaller(left[i], makers[i].quantity),
                        id + i as nat,
                    )
                    &&& left[i].minus(f.trades[i].quantity) matches Some(d) ==> left[i + 1] == d
                    &&& i < n - 1 ==> f.trades[i].quantity.value() == makers[i].quantity.value()
                }
            &&& n < makers.len() ==> left[n].value() == 0
            &&& n == 0 ==> f.makers == makers
            &&& n > 0 ==> match makers[n - 1].quantity.minus(f.trades[n - 1].quantity) {
                Some(over) => if over.value() == 0 {
                    f.makers == makers.skip(n)
                } else {
                    &&& left[n].value() == 0
                    &&& f.makers == seq![with_quantity(makers[n - 1], over)] + makers.skip(n)
                },
                None => true,
            }
        }),
    decreases makers.len(),
{
    let f = fill(taker, makers, id);
    if makers.len() == 0 || taker.quantity.value() == 0 {
        seq![taker.quantity]
    } else {
        let maker = makers[0];
        let q = smaller(taker.quantity, maker.quantity);
        let next = with_quantity(taker, left_of(taker.quantity, q));
        let kept = with_quantity(maker, left_of(maker.quantity, q));
        let tail = makers.drop_first();
        assert forall|i: int| 0 <= i < tail.len() implies (#[trigger] tail[i]).quantity.valid() by {
            assert(tail[i] == makers[i + 1]);
        }
        lemma_left_valid(taker.quantity, q);
        if maker.quantity.value() <= taker.quantity.value() {
            Decimal::lemma_minus_equal(maker.quantity, q);
        }
        if taker.quantity.value() <= maker.quantity.value() {
            Decimal::lemma_minus_equal(taker.quantity, q);
        }
        let more = lemma_fill_chain(next, tail, id + 1);
        let rest = fill(next, tail, id + 1);
        let left = seq![taker.quantity] + more;
        let n = f.trades.len() as int;
        assert(n == rest.trades.len() + 1);
        assert(left[n] == more[n - 1]);
        assert(left[1] == more[0]);
        assert(makers.skip(n) =~= tail.skip(n - 1));
        assert forall|i: int| #![trigger f.trades[i]] 0 <= i < n implies {
            &&& left[i].value() != 0
            &&& f.trades[i] == crate::engine::trade_between(
                taker,
                makers[i],
                smaller(left[i], makers[i].quantity),
                id + i as nat,
            )
            &&& left[i].minus(f.trades[i].quantity) matches Some(d) ==> left[i + 1] == d
            &&& i < n - 1 ==> f.trades[i].quantity.value() == makers[i].quantity.value()
        } by {
            if i > 0 {
                assert(f.trades[i] == rest.trades[i - 1]);
                assert(makers[i] == tail[i - 1]);
                assert(left[i] == more[i - 1] && left[i + 1] == more[i]);
                assert(id + 1 + (i - 1) as nat == id + i as nat);
            }
        }
        if n == 1 {
            assert(tail.skip(0) =~= tail);
            assert(f.trades[0].quantity == q);
        } else {
            assert(f.trades[n - 1] == rest.trades[n - 2]);
            assert(makers[n - 1] == tail[n - 2]);
            assert(kept.quantity.value() == 0);
        }
        left
    }
}

/// Each resting order of a good level stands at the level's price.
proof fn lemma_level_met(taker: Order, level: LevelView, desc: bool)
    requires
        good_level(level, desc),
        desc == (taker.side == Side::Sell),
    ensures
        forall|i: int|
            0 <= i < level.orders.len() ==> meets(taker, #[trigger] level.orders[i]) == !ahead(
                taker.price,
                level.price,
                desc,
            ),
{
    assert forall|i: int| 0 <= i < level.orders.len() implies meets(
        taker,
        #[trigger] level.orders[i],
    ) == !ahead(taker.price, level.price, desc) by {
        assert(may_rest(level.orders[i], level.price, desc));
    }
}

/// A level that is filled up is met as it has to be, and then what is behind it.
proof fn lemma_met_on(
    taker: Order,
    id: nat,
    orders: Seq<Order>,
    trades: Seq<Trade>,
    first: Seq<Decimal>,
    next: Order,
    more: Seq<Order>,
    later: Seq<Trade>,
    second: Seq<Decimal>,
    after: Seq<Order>,
)
    requires
        met(taker, id, orders, trades, first, Seq::empty()),
        trades.len() == orders.len(),
        next == with_quantity(taker, first[trades.len() as int]),
        met(next, id + trades.len(), more, later, second, after),
        orders.len() > 0,
        later.len() > 0 ==> forall|i: int|
            0 <= i < trades.len() ==> (#[trigger] trades[i]).quantity.value()
                == orders[i].quantity.value(),
    ensures
        met(taker, id, orders + more, trades + later, first.drop_last() + second, after),
{
    let k = trades.len() as int;
    let m = later.len() as int;
    let n = k + m;
    let q = orders + more;
    let all = trades + later;
    let left = first.drop_last() + second;
    assert(first[k] == second[0]);
    assert forall|i: int| 0 <= i <= k implies left[i] == #[trigger] first[i] by {}
    assert forall|i: int| 0 <= i <= m implies left[k + i] == #[trigger] second[i] by {}
    assert(left[0] == first[0]);
    assert forall|i: int| #![trigger all[i]] 0 <= i < n implies traded_with(
        taker,
        id + i,
        q[i],
        all[i],
        left[i],
        left[i + 1],
    ) by {
        if i < k {
            assert(all[i] == trades[i]);
            assert(left[i] == first[i] && left[i + 1] == first[i + 1]);
        } else {
            assert(all[i] == later[i - k]);
            assert(q[i] == more[i - k]);
            assert(left[i] == second[i - k] && left[i + 1] == second[i - k + 1]);
            assert(traded_with(
                next,
                id + trades.len() + (i - k),
                more[i - k],
                later[i - k],
                second[i - k],
                second[i - k + 1],
            ));
        }
    }
    assert forall|i: int| #![trigger all[i]] 0 <= i < n - 1 implies all[i].quantity.value()
        == q[i].quantity.value() by {
        if i < k {
            assert(all[i] == trades[i]);
        } else {
            assert(all[i] == later[i - k]);
            assert(q[i] == more[i - k]);
        }
    }
    assert(left[n] == second[m]);
    if n < q.len() {
        assert(q[n] == more[m]);
    }
    assert(q.skip(n) =~= more.skip(m));
    if m > 0 {
        assert(all[n - 1] == later[m - 1]);
        assert(q[n - 1] == more[m - 1]);
    } else {
        assert(more.skip(0) =~= more);
        assert(all[n - 1] == trades[k - 1]);
        assert(q[n - 1] == orders[k - 1]);
        if let Some(over) = orders[k - 1].quantity.minus(trades[k - 1].quantity) {
            if over.value() != 0 {
                let part = seq![Order { quantity: over, ..orders[k - 1] }];
                assert((part + orders.skip(k)).len() > 0);
            }
        }
    }
}

/// A fill of a level that meets the taker's price is met as it has to be.
proof fn lemma_fill_met(taker: Order, level: LevelView, desc: bool, id: nat) -> (left: Seq<Decimal>)
    requires
        good_level(level, desc),
        valid_quantities(level.orders),
        taker.quantity.valid(),
        taker.quantity.value() > 0,
        desc == (taker.side == Side::Sell),
        !ahead(taker.price, level.price, desc),
    ensures
        ({
            let f = fill(taker, level.orders, id);
            let n = f.trades.len() as int;
            &&& met(taker, id, level.orders, f.trades, left, f.makers)
            &&& left[n] == f.taker.quantity
            &&& n > 0
            &&& n < level.orders.len() ==> left[n].value() == 0
        }),
{
    let orders = level.orders;
    let f = fill(taker, orders, id);
    let n = f.trades.len() as int;
    lemma_level_met(taker, level, desc);
    let left = lemma_fill_chain(taker, orders, id);
    assert forall|i: int| #![trigger f.trades[i]] 0 <= i < n implies traded_with(
        taker,
        id + i,
        orders[i],
        f.trades[i],
        left[i],
        left[i + 1],
    ) by {
        assert(meets(taker, orders[i]));
    }
    left
}

/// A sweep meets the queue of the other side as it has to.
proof fn lemma_sweep_met(taker: Order, levels: Seq<LevelView>, desc: bool, id: nat) -> (left: Seq<
    Decimal,
>)
    requires
        good_side(levels, desc),
        valid_quantities(queue(levels)),
        taker.quantity.valid(),
        desc == (taker.side == Side::Sell),
    ensures
        ({
            let s = sweep(taker, levels, desc, id);
            &&& met(taker, id, queue(levels), s.trades, left, queue(s.levels))
            &&& left[s.trades.len() as int] == s.taker.quantity
        }),
    decreases levels.len(),
{
    let s = sweep(taker, levels, desc, id);
    let q = queue(levels);
    if taker.quantity.value() <= 0 || levels.len() == 0 || ahead(
        taker.price,
        levels[0].price,
        desc,
    ) {
        if levels.len() > 0 {
            assert(good_level(levels[0], desc));
            lemma_level_met(taker, levels[0], desc);
            assert(q[0] == levels[0].orders[0]);
        }
        seq![taker.quantity]
    } else {
        let orders = levels[0].orders;
        let tail = levels.drop_first();
        let more = queue(tail);
        assert(good_level(levels[0], desc));
        lemma_queue_split(levels);
        lemma_tail_good(levels, desc);
        lemma_fill_in_turn(taker, orders, id);
        let f = fill(taker, orders, id);
        let k = f.trades.len() as int;
        let first = lemma_fill_met(taker, levels[0], desc, id);
        if f.makers.len() > 0 {
            let head = seq![LevelView { price: levels[0].price, orders: f.makers }];
            assert((head + tail).drop_first() =~= tail);
            lemma_met_before(taker, id, orders, f.trades, first, f.makers, more);
            first
        } else {
            let rest = sweep(f.taker, tail, desc, id + f.trades.len());
            let second = lemma_sweep_met(f.taker, tail, desc, id + f.trades.len());
            assert(f.makers =~= Seq::<Order>::empty());
            lemma_met_on(
                taker,
                id,
                orders,
                f.trades,
                first,
                f.taker,
                more,
                rest.trades,
                second,
                queue(s.levels),
            );
            let left = first.drop_last() + second;
            assert(left[s.trades.len() as int] == second[rest.trades.len() as int]);
            left
        }
    }
}

/// What stands behind a queue that was not used up stays.
proof fn lemma_met_before(
    taker: Order,
    id: nat,
    orders: Seq<Order>,
    trades: Seq<Trade>,
    left: Seq<Decimal>,
    after: Seq<Order>,
    more: Seq<Order>,
)
    requires
        met(taker, id, orders, trades, left, after),
        trades.len() > 0,
        left[trades.len() as int].value() == 0,
    ensures
        met(taker, id, orders + more, trades, left, after + more),
{
    let n = trades.len() as int;
    let q = orders + more;
    assert forall|i: int| 0 <= i < n implies q[i] == #[trigger] orders[i] by {}
    assert(q.skip(n) =~= orders.skip(n) + more);
    assert forall|i: int| #![trigger trades[i]] 0 <= i < n implies traded_with(
        taker,
        id + i,
        q[i],
        trades[i],
        left[i],
        left[i + 1],
    ) by {
        assert(q[i] == orders[i]);
    }
    assert forall|i: int| #![trigger trades[i]] 0 <= i < n - 1 implies trades[i].quantity.value()
        == q[i].quantity.value() by {
        assert(q[i] == orders[i]);
    }
    assert(q[n - 1] == orders[n - 1]);
    if let Some(over) = orders[n - 1].quantity.minus(trades[n - 1].quantity) {
        if over.value() != 0 {
            let part = seq![Order { quantity: over, ..orders[n - 1] }];
            assert((part + orders.skip(n)) + more =~= part + q.skip(n));
        }
    }
}

/// Processing an order: it trades with the other side of the book in turn, for as long
/// as it has quantity left and prices meet; what is left in the end, and no more, rests
/// on its own side in its turn; every other resting order stays; and the events say just
/// that.
pub proof fn law_order_taken_in(book: BookView, order: Order)
    requires
        good_book(book),
        order.quantity.valid(),
    ensures
        exists|trades: Seq<Trade>, left: Seq<Decimal>|
            taken_in(book, order, trades, left, events_of(book, order), book_after(book, order)),
{
    lemma_good_book_valid(book);
    let desc = order.side == Side::Sell;
    let levels = opposite(book, order.side);
    let left = lemma_sweep_met(order, levels, desc, book.next_trade_id);
    let m = matched(book, order);
    let n = m.trades.len() as int;
    lemma_sweep_taker(order, levels, desc, book.next_trade_id);
    let events = events_of(book, order);
    let after = book_after(book, order);
    assert forall|i: int| 0 <= i < n implies #[trigger] events[i] == MarketEvent::OrderTraded(
        m.trades[i],
    ) by {
        assert(traded(m.trades)[i] == MarketEvent::OrderTraded(m.trades[i]));
    }
    if left[n].value() > 0 {
        let rested = Order { quantity: left[n], ..order };
        assert(m.taker == rested);
        let own = match order.side {
            Side::Buy => book.bids,
            Side::Sell => book.asks,
        };
        let k = law_joins_the_back(own, rested, !desc);
        assert(joined_at(peers(book, order.side), rested, peers(after, order.side), k));
    }
    assert(taken_in(book, order, m.trades, left, events, after));
}

/// The quantity that some events report as traded, in units of `10^-28`.
pub open spec fn volume_in(events: Seq<MarketEvent>) -> int
    decreases events.len(),
{
    if events.len() == 0 {
        0
    } else {
        volume_in(events.drop_last()) + match events.last() {
            MarketEvent::OrderTraded(t) => t.quantity.value(),
            _ => 0,
        }
    }
}

proof fn lemma_volume_in_traded(trades: Seq<Trade>)
    ensures
        volume_in(traded(trades)) == volume(trades),
    decreases trades.len(),
{
    let events = traded(trades);
    if trades.len() > 0 {
        lemma_volume_in_traded(trades.drop_last());
        assert(events.drop_last() =~= traded(trades.drop_last()));
        assert(events.last() == MarketEvent::OrderTraded(trades.last()));
        assert(trades =~= trades.drop_last() + seq![trades.last()]);
        lemma_volume_adds(trades.drop_last(), seq![trades.last()]);
        assert(seq![trades.last()].drop_first() =~= Seq::<Trade>::empty());
        assert(volume(seq![trades.last()]) == trades.last().quantity.value() + volume(
            seq![trades.last()].drop_first(),
        ));
    } else {
        assert(events =~= Seq::empty());
    }
}

proof fn lemma_total_inserts(orders: Seq<Order>, k: int, order: Order)
    requires
        0 <= k <= orders.len(),
    ensures
        total(orders.insert(k, order)) == total(orders) + order.quantity.value(),
{
    let (a, b) = (orders.take(k), orders.skip(k));
    assert(orders =~= a + b);
    assert(orders.insert(k, order) =~= a + (seq![order] + b));
    lemma_total_adds(a, b);
    lemma_total_adds(a, seq![order] + b);
    assert((seq![order] + b).drop_first() =~= b);
}

proof fn lemma_fill_leaves_some(taker: Order, makers: Seq<Order>, id: nat)
    requires
        taker.quantity.valid(),
        valid_quantities(makers),
        fills_exactly(taker, makers),
        taker.quantity.value() >= 0,
    ensures
        fill(taker, makers, id).taker.quantity.value() >= 0,
    decreases makers.len(),
{
    if makers.len() > 0 && taker.quantity.value() != 0 {
        let q = smaller(taker.quantity, makers[0].quantity);
        let next = with_quantity(taker, left_of(taker.quantity, q));
        let tail = makers.drop_first();
        assert forall|i: int| 0 <= i < tail.len() implies (#[trigger] tail[i]).quantity.valid() by {
            assert(tail[i] == makers[i + 1]);
        }
        Decimal::law_exact_difference(taker.quantity, q);
        lemma_fill_leaves_some(next, tail, id + 1);
    }
}

proof fn lemma_sweep_leaves_some(taker: Order, levels: Seq<LevelView>, desc: bool, id: nat)
    requires
        taker.quantity.valid(),
        valid_quantities(queue(levels)),
        sweeps_exactly(taker, levels, desc),
        taker.quantity.value() >= 0,
    ensures
        sweep(taker, levels, desc, id).taker.quantity.value() >= 0,
    decreases levels.len(),
{
    if taker.quantity.value() > 0 && levels.len() > 0 && !ahead(
        taker.price,
        levels[0].price,
        desc,
    ) {
        let orders = levels[0].orders;
        lemma_queue_split(levels);
        lemma_fill_in_turn(taker, orders, id);
        lemma_fill_any_number(taker, orders, 0, id);
        lemma_fill_leaves_some(taker, orders, id);
        let f = fill(taker, orders, id);
        if f.makers.len() == 0 {
            lemma_sweep_leaves_some(f.taker, levels.drop_first(), desc, id + f.trades.len());
        }
    }
}

/// Quantity is conserved over the whole book: the order's own side grows by what the
/// order brings and does not trade, and the other side shrinks by what is traded. Only a
/// quantity with more digits than a decimal can hold, which is rounded, falls outside.
pub proof fn law_whole_book_conserved(book: BookView, order: Order)
    requires
        good_book(book),
        order.quantity.valid(),
        order.quantity.value() >= 0,
        sweeps_exactly(order, opposite(book, order.side), order.side == Side::Sell),
    ensures
        ({
            let after = book_after(book, order);
            let volume = volume_in(events_of(book, order));
            &&& total(peers(after, order.side)) == total(peers(book, order.side))
                + order.quantity.value() - volume
            &&& total(others(after, order.side)) == total(others(book, order.side)) - volume
        }),
{
    law_quantity_conserved(book, order);
    lemma_good_book_valid(book);
    let desc = order.side == Side::Sell;
    lemma_sweep_leaves_some(order, opposite(book, order.side), desc, book.next_trade_id);
    let m = matched(book, order);
    lemma_volume_in_traded(m.trades);
    let events = events_of(book, order);
    if m.taker.quantity.value() > 0 {
        assert(events.drop_last() =~= traded(m.trades));
        let own = match order.side {
            Side::Buy => book.bids,
            Side::Sell => book.asks,
        };
        lemma_sweep_taker(order, opposite(book, order.side), desc, book.next_trade_id);
        let k = law_joins_the_back(own, m.taker, !desc);
        lemma_total_inserts(queue(own), k, m.taker);
    }
    assert(opposite(swept_book(book, order), order.side) == opposite(
        book_after(book, order),
        order.side,
    ));
}

} // verus!
