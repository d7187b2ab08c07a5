//! Price-time priority matching of limit orders.
//!
//! An incoming order trades against the other side of the book, best price
//! first and oldest order first within a price, for as long as the prices cross
//! and quantity is left. What is left then rests on its own side.
use crate::book::{
    ahead, good_book, good_level, may_rest, placed, queue, BookSide, BookView, LevelView,
    OrderBook,
};
use crate::decimal::Decimal;
use crate::engine_laws::{law_stays_uncrossed, uncrossed};
use crate::types::{MarketEvent, Order, PriceLevel, Side, Trade, TradeID};
use vstd::prelude::*;

verus! {

/// The smaller of two amounts; the first where they are equal.
pub open spec fn smaller(a: Decimal, b: Decimal) -> Decimal {
    if b.value() < a.value() {
        b
    } else {
        a
    }
}

/// What is left of `a` once `b`, which is no larger, is taken from it.
pub open spec fn left_of(a: Decimal, b: Decimal) -> Decimal {
    match a.minus(b) {
        Some(d) => d,
        None => Decimal::nil(),
    }
}

/// The order with another quantity.
pub open spec fn with_quantity(o: Order, quantity: Decimal) -> Order {
    Order { quantity, ..o }
}

/// The trade of a quantity between a taker and a maker, at the maker's price.
pub open spec fn trade_between(taker: Order, maker: Order, quantity: Decimal, id: nat) -> Trade {
    Trade {
        trade_id: TradeID(id as u64),
        market_id: taker.market_id,
        maker_order_id: maker.order_id,
        taker_order_id: taker.order_id,
        maker_user_id: maker.user_id,
        taker_user_id: taker.user_id,
        quantity,
        price: maker.price,
        timestamp: taker.timestamp,
        taker_side: taker.side,
    }
}

/// What became of a taker and of the queue of makers that it met.
pub struct Fill {
    pub taker: Order,
    pub makers: Seq<Order>,
    pub trades: Seq<Trade>,
}

/// A taker meets a queue of makers: it trades with one after the other, each time
/// the smaller of the two quantities, until it has none left. Makers that have
/// none left leave the queue; trades are numbered from `id`.
pub open spec fn fill(taker: Order, makers: Seq<Order>, id: nat) -> Fill
    decreases makers.len(),
{
    if makers.len() == 0 || taker.quantity.value() == 0 {
        Fill { taker, makers, trades: Seq::empty() }
    } else {
        let maker = makers[0];
        let quantity = smaller(taker.quantity, maker.quantity);
        let left = with_quantity(maker, left_of(maker.quantity, quantity));
        let rest = fill(
            with_quantity(taker, left_of(taker.quantity, quantity)),
            makers.drop_first(),
            id + 1,
        );
        Fill {
            taker: rest.taker,
            makers: if left.quantity.value() == 0 {
                rest.makers
            } else {
                seq![left] + rest.makers
            },
            trades: seq![trade_between(taker, maker, quantity, id)] + rest.trades,
        }
    }
}

/// What became of a taker and of the levels that it met.
pub struct Sweep {
    pub taker: Order,
    pub levels: Seq<LevelView>,
    pub trades: Seq<Trade>,
}

/// A taker meets the levels of the other side: it fills against the best one for
/// as long as it has quantity left and its price crosses. Emptied levels go.
pub open spec fn sweep(taker: Order, levels: Seq<LevelView>, desc: bool, id: nat) -> Sweep
    decreases levels.len(),
{
    if taker.quantity.value() <= 0 || levels.len() == 0 || ahead(
        taker.price,
        levels[0].price,
        desc,
    ) {
        Sweep { taker, levels, trades: Seq::empty() }
    } else {
        let f = fill(taker, levels[0].orders, id);
        if f.makers.len() > 0 {
            Sweep {
                taker: f.taker,
                levels: seq![LevelView { price: levels[0].price, orders: f.makers }]
                    + levels.drop_first(),
                trades: f.trades,
            }
        } else {
            let rest = sweep(f.taker, levels.drop_first(), desc, id + f.trades.len());
            Sweep {
                taker: rest.taker,
                levels: rest.levels,
                trades: f.trades + rest.trades,
            }
        }
    }
}

/// An incoming order meets the other side of the book.
pub open spec fn matched(book: BookView, order: Order) -> Sweep {
    match order.side {
        Side::Buy => sweep(order, book.asks, false, book.next_trade_id),
        Side::Sell => sweep(order, book.bids, true, book.next_trade_id),
    }
}

/// The event that reports a trade.
pub open spec fn traded(trades: Seq<Trade>) -> Seq<MarketEvent> {
    trades.map_values(|t: Trade| MarketEvent::OrderTraded(t))
}

/// The event that reports a resting order.
pub open spec fn placement(o: Order) -> MarketEvent {
    MarketEvent::OrderPlaced {
        order_id: o.order_id,
        user_id: o.user_id,
        market_id: o.market_id,
        side: o.side,
        price: o.price,
        quantity: o.quantity,
        timestamp: o.timestamp,
    }
}

/// The book once an incoming order has been matched, before what is left rests.
pub open spec fn swept_book(book: BookView, order: Order) -> BookView {
    let m = matched(book, order);
    match order.side {
        Side::Buy => BookView {
            asks: m.levels,
            next_trade_id: book.next_trade_id + m.trades.len(),
            ..book
        },
        Side::Sell => BookView {
            bids: m.levels,
            next_trade_id: book.next_trade_id + m.trades.len(),
            ..book
        },
    }
}

/// The book once an order rests on its own side.
pub open spec fn rested_book(book: BookView, order: Order) -> BookView {
    match order.side {
        Side::Buy => BookView { bids: placed(book.bids, order, true), ..book },
        Side::Sell => BookView { asks: placed(book.asks, order, false), ..book },
    }
}

/// The book once an incoming order has been processed.
pub open spec fn book_after(book: BookView, order: Order) -> BookView {
    let m = matched(book, order);
    if m.taker.quantity.value() > 0 {
        rested_book(swept_book(book, order), m.taker)
    } else {
        swept_book(book, order)
    }
}

/// The events of processing an incoming order.
pub open spec fn events_of(book: BookView, order: Order) -> Seq<MarketEvent> {
    let m = matched(book, order);
    if m.taker.quantity.value() > 0 {
        traded(m.trades).push(placement(m.taker))
    } else {
        traded(m.trades)
    }
}

/// The side of the book that an order trades against.
pub open spec fn opposite(book: BookView, side: Side) -> Seq<LevelView> {
    match side {
        Side::Buy => book.asks,
        Side::Sell => book.bids,
    }
}

/// Makers leave a queue from its front, and each one that left traded its whole
/// quantity.
pub open spec fn leavers_filled(before: Seq<Order>, trades: Seq<Trade>, after: Seq<Order>) -> bool {
    &&& before.len() - after.len() <= trades.len()
    &&& forall|i: int|
        0 <= i < before.len() - after.len() ==> (#[trigger] trades[i]).quantity.value()
            == before[i].quantity.value()
}

/// Core trait for processing orders against an order book.
pub trait MatchingEngine {
    /// Whether the engine can take the order.
    spec fn accepts(&self, order: Order) -> bool;

    /// Consumes an order and returns the events it caused: zero or more trades,
    /// and a placement if quantity is left.
    fn process_order(&mut self, order: Order) -> (events: Vec<MarketEvent>)
        requires
            old(self).accepts(order),
    ;
}

/// The part of a maker's queue that a fill leaves is good to rest.
proof fn lemma_fill_goes_on(taker: Order, makers: Seq<Order>, id: nat, maker_left: Order, taker_left: Order)
    requires
        makers.len() > 0,
        taker.quantity.value() != 0,
        ({
            let q = smaller(taker.quantity, makers[0].quantity);
            &&& maker_left == with_quantity(makers[0], left_of(makers[0].quantity, q))
            &&& taker_left == with_quantity(taker, left_of(taker.quantity, q))
        }),
        maker_left.quantity.value() != 0 ==> taker_left.quantity.value() == 0,
    ensures
        ({
            let rest = if maker_left.quantity.value() == 0 {
                makers.drop_first()
            } else {
                seq![maker_left] + makers.drop_first()
            };
            let q = smaller(taker.quantity, makers[0].quantity);
            let all = fill(taker, makers, id);
            let onward = fill(taker_left, rest, id + 1);
            &&& all.taker == onward.taker
            &&& all.makers == onward.makers
            &&& all.trades == seq![trade_between(taker, makers[0], q, id)] + onward.trades
        }),
{
    if maker_left.quantity.value() != 0 {
        let rest = fill(taker_left, makers.drop_first(), id + 1);
        assert(rest.makers == makers.drop_first());
    }
}

/// An order with quantity left, made of valid parts.
pub open spec fn has_quantity(o: Order) -> bool {
    o.quantity.valid() && o.quantity.value() > 0
}

/// Lets a taker trade against the queue of one price level.
fn execute_trades(
    taker_order: &mut Order,
    maker_price_level: &mut PriceLevel,
    events: &mut Vec<MarketEvent>,
    next_trade_id: &mut u64,
)
    requires
        old(taker_order).quantity.value() >= 0,
        forall|i: int|
            0 <= i < old(maker_price_level)@.len() ==> has_quantity(
                #[trigger] old(maker_price_level)@[i],
            ),
        *old(next_trade_id) + fill(
            *old(taker_order),
            old(maker_price_level)@,
            *old(next_trade_id) as nat,
        ).trades.len() <= u64::MAX,
    ensures
        ({
            let f = fill(
                *old(taker_order),
                old(maker_price_level)@,
                *old(next_trade_id) as nat,
            );
            &&& *final(taker_order) == f.taker
            &&& final(maker_price_level)@ == f.makers
            &&& final(events)@ == old(events)@ + traded(f.trades)
            &&& *final(next_trade_id) == *old(next_trade_id) + f.trades.len()
            &&& f.taker.quantity.value() >= 0
            &&& f.makers.len() > 0 ==> f.taker.quantity.value() == 0
            &&& forall|i: int| 0 <= i < f.makers.len() ==> has_quantity(#[trigger] f.makers[i])
            &&& f.makers.len() <= old(maker_price_level)@.len()
            &&& leavers_filled(old(maker_price_level)@, f.trades, f.makers)
            &&& f.taker.quantity.value() != 0 ==> f.trades.len() == old(maker_price_level)@.len()
        }),
{
    let ghost all = fill(*taker_order, maker_price_level@, *next_trade_id as nat);
    let ghost at_first = maker_price_level@;
    assert(at_first.skip(0) =~= at_first);
    let ghost mut done: Seq<Trade> = Seq::empty();
    assert(traded(done) =~= Seq::empty());
    while maker_price_level.len() > 0 && !taker_order.quantity.is_zero()
        invariant
            taker_order.quantity.value() >= 0,
            forall|i: int|
                0 <= i < maker_price_level@.len() ==> has_quantity(
                    #[trigger] maker_price_level@[i],
                ),
            ({
                let rest = fill(*taker_order, maker_price_level@, *next_trade_id as nat);
                &&& all.taker == rest.taker
                &&& all.makers == rest.makers
                &&& all.trades == done + rest.trades
            }),
            *next_trade_id == *old(next_trade_id) + done.len(),
            *old(next_trade_id) + all.trades.len() <= u64::MAX,
            events@ == old(events)@ + traded(done),
            at_first == old(maker_price_level)@,
            maker_price_level@.len() <= at_first.len(),
            leavers_filled(at_first, done, maker_price_level@),
            taker_order.quantity.value() != 0 ==> {
                &&& done.len() == at_first.len() - maker_price_level@.len()
                &&& maker_price_level@ == at_first.skip(done.len() as int)
            },
        decreases maker_price_level@.len() + (if taker_order.quantity.value() == 0 { 0int } else { 1 }),
    {
        let ghost before = *taker_order;
        let ghost queue = maker_price_level@;
        let ghost id = *next_trade_id as nat;
        let mut maker_order = match maker_price_level.pop_front() {
            Some(maker) => maker,
            None => { return; },
        };
        assert(maker_order == queue[0]);
        let trade_qty = if maker_order.quantity.less_than(&taker_order.quantity) {
            maker_order.quantity
        } else {
            taker_order.quantity
        };
        taker_order.quantity.known_valid();
        maker_order.quantity.known_valid();
        proof {
            if maker_order.quantity.value() <= taker_order.quantity.value() {
                Decimal::lemma_minus_equal(maker_order.quantity, trade_qty);
            }
            if taker_order.quantity.value() <= maker_order.quantity.value() {
                Decimal::lemma_minus_equal(taker_order.quantity, trade_qty);
            }
        }
        let taker_left = taker_order.quantity.checked_sub(trade_qty);
        let maker_left = maker_order.quantity.checked_sub(trade_qty);
        let trade = Trade {
            trade_id: TradeID(*next_trade_id),
            market_id: taker_order.market_id,
            maker_order_id: maker_order.order_id,
            taker_order_id: taker_order.order_id,
            maker_user_id: maker_order.user_id,
            taker_user_id: taker_order.user_id,
            quantity: trade_qty,
            price: maker_order.price,
            timestamp: taker_order.timestamp,
            taker_side: taker_order.side,
        };
        if let Some(q) = taker_left {
            taker_order.quantity = q;
        }
        if let Some(q) = maker_left {
            q.known_valid();
            maker_order.quantity = q;
        }
        proof {
            assert(*taker_order == with_quantity(before, left_of(before.quantity, trade_qty)));
            assert(maker_order == with_quantity(queue[0], left_of(queue[0].quantity, trade_qty)));
            lemma_fill_goes_on(before, queue, id, maker_order, *taker_order);
        }
        *next_trade_id = *next_trade_id + 1;
        events.push(MarketEvent::OrderTraded(trade));
        proof {
            assert(traded(done.push(trade)) =~= traded(done).push(MarketEvent::OrderTraded(trade)));
            assert(queue[0] == at_first[done.len() as int]);
            assert(queue.drop_first() =~= at_first.skip(done.len() as int + 1));
            done = done.push(trade);
        }
        if !maker_order.quantity.is_zero() {
            maker_price_level.push_front(maker_order);
            assert(maker_price_level@ =~= seq![maker_order] + queue.drop_first());
        } else {
            assert(maker_price_level@ =~= queue.drop_first());
        }
        assert(all.trades =~= done + fill(*taker_order, maker_price_level@, *next_trade_id as nat).trades);
    }
    assert(all.trades =~= done);
}

/// What a fill leaves in the queue was there before, but for the quantity.
proof fn lemma_fill_keeps(taker: Order, makers: Seq<Order>, id: nat)
    ensures
        ({
            let f = fill(taker, makers, id);
            &&& f.taker == with_quantity(taker, f.taker.quantity)
            &&& forall|i: int|
                0 <= i < f.makers.len() ==> exists|j: int|
                    0 <= j < makers.len() && #[trigger] f.makers[i] == with_quantity(
                        #[trigger] makers[j],
                        f.makers[i].quantity,
                    )
        }),
    decreases makers.len(),
{
    let f = fill(taker, makers, id);
    if makers.len() == 0 || taker.quantity.value() == 0 {
        assert forall|i: int| 0 <= i < f.makers.len() implies exists|j: int|
            0 <= j < makers.len() && #[trigger] f.makers[i] == with_quantity(
                #[trigger] makers[j],
                f.makers[i].quantity,
            ) by {
            assert(f.makers[i] == with_quantity(makers[i], f.makers[i].quantity));
        }
    } else {
        let q = smaller(taker.quantity, makers[0].quantity);
        let next = with_quantity(taker, left_of(taker.quantity, q));
        let tail = makers.drop_first();
        let rest = fill(next, tail, id + 1);
        lemma_fill_keeps(next, tail, id + 1);
        assert forall|i: int| 0 <= i < f.makers.len() implies exists|j: int|
            0 <= j < makers.len() && #[trigger] f.makers[i] == with_quantity(
                #[trigger] makers[j],
                f.makers[i].quantity,
            ) by {
            let shift = f.makers.len() - rest.makers.len();
            if i < shift {
                assert(f.makers[i] == with_quantity(makers[0], f.makers[i].quantity));
            } else {
                assert(f.makers[i] == rest.makers[i - shift]);
                let j = choose|j: int|
                    0 <= j < tail.len() && rest.makers[i - shift] == with_quantity(
                        #[trigger] tail[j],
                        rest.makers[i - shift].quantity,
                    );
                assert(tail[j] == makers[j + 1]);
            }
        }
    }
}

/// A queue is filled level by level.
proof fn lemma_leavers_go_on(
    at_first: Seq<Order>,
    done: Seq<Trade>,
    orders: Seq<Order>,
    trades: Seq<Trade>,
    makers: Seq<Order>,
    more: Seq<Order>,
)
    requires
        done.len() <= at_first.len(),
        orders + more == at_first.skip(done.len() as int),
        leavers_filled(at_first, done, orders + more),
        leavers_filled(orders, trades, makers),
        makers.len() <= orders.len(),
    ensures
        leavers_filled(at_first, done + trades, makers + more),
        trades.len() == orders.len() && makers.len() == 0 ==> makers + more == at_first.skip(
            (done + trades).len() as int,
        ),
{
    let all = done + trades;
    let n = done.len() as int;
    assert forall|i: int| 0 <= i < at_first.len() - (makers + more).len() implies (
    #[trigger] all[i]).quantity.value() == at_first[i].quantity.value() by {
        if i >= n {
            assert(all[i] == trades[i - n]);
            assert((orders + more)[i - n] == at_first[i]);
        }
    }
    if trades.len() == orders.len() && makers.len() == 0 {
        assert(makers + more =~= (orders + more).skip(orders.len() as int));
    }
}

/// Lets a taker trade against the levels of one side, best price first.
fn match_levels<const DESC: bool>(
    side: &mut BookSide<DESC>,
    order: &mut Order,
    events: &mut Vec<MarketEvent>,
    next_trade_id: &mut u64,
)
    requires
        *old(next_trade_id) + sweep(
            *old(order),
            old(side)@,
            DESC,
            *old(next_trade_id) as nat,
        ).trades.len() <= u64::MAX,
    ensures
        ({
            let s = sweep(*old(order), old(side)@, DESC, *old(next_trade_id) as nat);
            &&& *final(order) == s.taker
            &&& final(side)@ == s.levels
            &&& final(events)@ == old(events)@ + traded(s.trades)
            &&& *final(next_trade_id) == *old(next_trade_id) + s.trades.len()
            &&& leavers_filled(queue(old(side)@), s.trades, queue(s.levels))
        }),
{
    let ghost at_first = queue(side@);
    assert(at_first.skip(0) =~= at_first);
    let ghost all = sweep(*order, side@, DESC, *next_trade_id as nat);
    let ghost mut done: Seq<Trade> = Seq::empty();
    assert(traded(done) =~= Seq::empty());
    while order.quantity.is_positive()
        invariant
            ({
                let rest = sweep(*order, side@, DESC, *next_trade_id as nat);
                &&& all.taker == rest.taker
                &&& all.levels == rest.levels
                &&& all.trades == done + rest.trades
            }),
            *next_trade_id == *old(next_trade_id) + done.len(),
            *old(next_trade_id) + all.trades.len() <= u64::MAX,
            events@ == old(events)@ + traded(done),
            at_first == queue(old(side)@),
            queue(side@).len() <= at_first.len(),
            leavers_filled(at_first, done, queue(side@)),
            order.quantity.value() > 0 ==> {
                &&& done.len() == at_first.len() - queue(side@).len()
                &&& queue(side@) == at_first.skip(done.len() as int)
            },
        ensures
            ({
                let rest = sweep(*order, side@, DESC, *next_trade_id as nat);
                &&& all.taker == rest.taker
                &&& all.levels == rest.levels
                &&& all.trades == done + rest.trades
                &&& rest.taker == *order
                &&& rest.levels == side@
                &&& rest.trades == Seq::<Trade>::empty()
            }),
            *next_trade_id == *old(next_trade_id) + done.len(),
            events@ == old(events)@ + traded(done),
            leavers_filled(at_first, done, queue(side@)),
        decreases side@.len() + (if order.quantity.value() > 0 { 1int } else { 0 }),
    {
        side.known_good();
        let best = match side.best_price() {
            Some(price) => price,
            None => break,
        };
        let crosses = if DESC { !best.less_than(&order.price) } else { !order.price.less_than(&best) };
        if !crosses {
            break;
        }
        let ghost levels = side@;
        let ghost tail = levels.drop_first();
        let ghost before = *order;
        let ghost id = *next_trade_id as nat;
        let mut level = side.take_best();
        proof {
            assert(good_level(levels[0], DESC));
            assert forall|i: int| 0 <= i < levels[0].orders.len() implies has_quantity(
                #[trigger] levels[0].orders[i],
            ) by {
                assert(may_rest(levels[0].orders[i], levels[0].price, DESC));
            }
            lemma_fill_keeps(before, levels[0].orders, id);
        }
        let ghost f = fill(before, levels[0].orders, id);
        execute_trades(order, &mut level.orders, events, next_trade_id);
        proof {
            assert(traded(done + f.trades) =~= traded(done) + traded(f.trades));
            lemma_leavers_go_on(at_first, done, levels[0].orders, f.trades, f.makers, queue(tail));
            done = done + f.trades;
        }
        if level.orders.len() > 0 {
            proof {
                let left = seq![level@] + levels.drop_first();
                assert forall|i: int| 0 <= i < left.len() implies good_level(#[trigger] left[i], DESC) by {
                    if i > 0 {
                        assert(left[i] == levels[i]);
                    } else {
                        assert forall|k: int| 0 <= k < f.makers.len() implies may_rest(
                            #[trigger] f.makers[k], levels[0].price, DESC) by {
                            let j = choose|j: int|
                                0 <= j < levels[0].orders.len() && f.makers[k] == with_quantity(
                                    #[trigger] levels[0].orders[j],
                                    f.makers[k].quantity,
                                );
                            assert(may_rest(levels[0].orders[j], levels[0].price, DESC));
                            assert(has_quantity(f.makers[k]));
                        }
                    }
                }
                assert forall|i: int, j: int| #![trigger left[i], left[j]] 0 <= i < j < left.len()
                    implies ahead(left[i].price, left[j].price, DESC) by {
                    assert(left[j] == levels[j]);
                    assert(left[i].price == levels[i].price);
                    assert(ahead(levels[i].price, levels[j].price, DESC));
                }
            }
            side.restore_best(level);
            assert(side@ =~= seq![LevelView { price: levels[0].price, orders: f.makers }] + tail);
            assert(side@.drop_first() =~= tail);
        } else {
            assert(f.makers + queue(tail) =~= queue(tail));
        }
        assert(queue(side@) == f.makers + queue(tail));
        assert(all.trades =~= done + sweep(*order, side@, DESC, *next_trade_id as nat).trades);
    }
    assert(all.trades =~= done);
}

/// Matches an order to buy against the asks.
fn match_buy_order(book: &mut OrderBook, order: &mut Order, events: &mut Vec<MarketEvent>)
    requires
        old(order).side == Side::Buy,
        old(book)@.next_trade_id + matched(old(book)@, *old(order)).trades.len() <= u64::MAX,
    ensures
        final(book)@ == swept_book(old(book)@, *old(order)),
        *final(order) == matched(old(book)@, *old(order)).taker,
        final(events)@ == old(events)@ + traded(matched(old(book)@, *old(order)).trades),
        leavers_filled(
            queue(opposite(old(book)@, old(order).side)),
            matched(old(book)@, *old(order)).trades,
            queue(opposite(final(book)@, old(order).side)),
        ),
{
    match_levels(&mut book.asks, order, events, &mut book.next_trade_id);
}

/// Matches an order to sell against the bids.
fn match_sell_order(book: &mut OrderBook, order: &mut Order, events: &mut Vec<MarketEvent>)
    requires
        old(order).side == Side::Sell,
        old(book)@.next_trade_id + matched(old(book)@, *old(order)).trades.len() <= u64::MAX,
    ensures
        final(book)@ == swept_book(old(book)@, *old(order)),
        *final(order) == matched(old(book)@, *old(order)).taker,
        final(events)@ == old(events)@ + traded(matched(old(book)@, *old(order)).trades),
        leavers_filled(
            queue(opposite(old(book)@, old(order).side)),
            matched(old(book)@, *old(order)).trades,
            queue(opposite(final(book)@, old(order).side)),
        ),
{
    match_levels(&mut book.bids, order, events, &mut book.next_trade_id);
}

/// Lets an order rest in the book.
fn place_order(book: &mut OrderBook, order: Order, events: &mut Vec<MarketEvent>)
    requires
        order.quantity.value() > 0,
    ensures
        final(book)@ == rested_book(old(book)@, order),
        final(events)@ == old(events)@.push(placement(order)),
{
    match order.side {
        Side::Buy => book.bids.place(order),
        Side::Sell => book.asks.place(order),
    }
    events.push(
        MarketEvent::OrderPlaced {
            order_id: order.order_id,
            user_id: order.user_id,
            market_id: order.market_id,
            side: order.side,
            price: order.price,
            quantity: order.quantity,
            timestamp: order.timestamp,
        },
    );
}

impl MatchingEngine for OrderBook {
    /// A book takes every order for whose trades it still has numbers.
    open spec fn accepts(&self, order: Order) -> bool {
        self@.next_trade_id + matched(self@, order).trades.len() <= u64::MAX
    }

    /// Match and place a single order against the order book.
    /// Prices stay sorted, no level is empty, every order rests on its side, at its
    /// price and with quantity left, and a book that is not crossed stays so.
    fn process_order(&mut self, order: Order) -> (events: Vec<MarketEvent>)
        ensures
            good_book(final(self)@),
            uncrossed(old(self)@) ==> uncrossed(final(self)@),
            final(self)@ == book_after(old(self)@, order),
            events@ == events_of(old(self)@, order),
            leavers_filled(
                queue(opposite(old(self)@, order.side)),
                matched(old(self)@, order).trades,
                queue(opposite(swept_book(old(self)@, order), order.side)),
            ),
    {
        let mut order = order;
        let mut events: Vec<MarketEvent> = Vec::new();
        let ghost trades = matched(self@, order).trades;
        self.known_good();
        order.quantity.known_valid();
        proof {
            if uncrossed(self@) {
                law_stays_uncrossed(self@, order);
            }
        }
        if order.side == Side::Buy {
            match_buy_order(self, &mut order, &mut events);
        } else {
            match_sell_order(self, &mut order, &mut events);
        }
        assert(events@ =~= traded(trades));
        if order.quantity.is_positive() {
            place_order(self, order, &mut events);
        }
        self.known_good();
        events
    }
}

} // verus!
