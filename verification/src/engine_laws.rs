//! What matching keeps to, whatever the book and the order.
use crate::book::{
    ahead, empty_book, good_book, good_level, good_side, may_rest, placed, queue, BookView,
    LevelView,
};
use crate::decimal::Decimal;
use crate::engine::{
    book_after, events_of, fill, left_of, matched, opposite, smaller, sweep, swept_book,
    with_quantity,
};
use crate::types::{MarketEvent, Order, Side, Trade};
use vstd::prelude::*;

verus! {

pub open spec fn valid_quantities(orders: Seq<Order>) -> bool {
    forall|i: int| 0 <= i < orders.len() ==> (#[trigger] orders[i]).quantity.valid()
}

/// The quantities of all resting orders are made of valid parts.
pub open spec fn valid_book(book: BookView) -> bool {
    valid_quantities(queue(book.bids)) && valid_quantities(queue(book.asks))
}

/// Orders are served strictly in turn: the trades are with the first orders of
/// the queue, one each; every order that traded before the last one was filled
/// completely; what is left is the rest of the queue, headed by the order that
/// traded last if that one still has quantity.
pub open spec fn served_in_turn(before: Seq<Order>, trades: Seq<Trade>, after: Seq<Order>) -> bool {
    let n = trades.len() as int;
    &&& n <= before.len()
    &&& forall|i: int|
        0 <= i < n ==> {
            &&& (#[trigger] trades[i]).maker_order_id == before[i].order_id
            &&& trades[i].maker_user_id == before[i].user_id
            &&& trades[i].price == before[i].price
        }
    &&& forall|i: int|
        0 <= i < n - 1 ==> (#[trigger] trades[i]).quantity.value() == before[i].quantity.value()
    &&& {
        ||| after == before.skip(n)
        ||| n > 0 && after.len() > 0 && after == seq![
            with_quantity(before[n - 1], after[0].quantity),
        ] + before.skip(n) && trades[n - 1].quantity.value() < before[n - 1].quantity.value()
    }
}

pub proof fn lemma_left_valid(a: Decimal, b: Decimal)
    requires
        a.valid(),
        b.valid(),
    ensures
        left_of(a, b).valid(),
{
    Decimal::lemma_results_valid(a, b);
}

/// A fill serves the queue in turn; it leaves orders in the queue only where the
/// taker has nothing left.
pub proof fn lemma_fill_in_turn(taker: Order, makers: Seq<Order>, id: nat)
    requires
        taker.quantity.valid(),
        valid_quantities(makers),
    ensures
        ({
            let f = fill(taker, makers, id);
            &&& served_in_turn(makers, f.trades, f.makers)
            &&& f.makers.len() > 0 ==> f.taker.quantity.value() == 0
            &&& f.taker.quantity.value() != 0 ==> forall|i: int|
                0 <= i < f.trades.len() ==> (#[trigger] f.trades[i]).quantity.value()
                    == makers[i].quantity.value()
            &&& f.taker.quantity.valid()
            &&& valid_quantities(f.makers)
            &&& f.taker == with_quantity(taker, f.taker.quantity)
        }),
    decreases makers.len(),
{
    let f = fill(taker, makers, id);
    if makers.len() == 0 || taker.quantity.value() == 0 {
        assert(makers.skip(0) =~= makers);
    } else {
        let maker = makers[0];
        let q = smaller(taker.quantity, maker.quantity);
        let next = with_quantity(taker, left_of(taker.quantity, q));
        let left = with_quantity(maker, left_of(maker.quantity, q));
        let tail = makers.drop_first();
        assert forall|i: int| 0 <= i < tail.len() implies (#[trigger] tail[i]).quantity.valid() by {
            assert(tail[i] == makers[i + 1]);
        }
        lemma_left_valid(taker.quantity, q);
        lemma_left_valid(maker.quantity, q);
        if maker.quantity.value() <= taker.quantity.value() {
            Decimal::lemma_minus_equal(maker.quantity, q);
        }
        if taker.quantity.value() <= maker.quantity.value() {
            Decimal::lemma_minus_equal(taker.quantity, q);
        }
        lemma_fill_in_turn(next, tail, id + 1);
        let rest = fill(next, tail, id + 1);
        let n = f.trades.len() as int;
        let m = rest.trades.len() as int;
        assert(n == m + 1);
        assert(makers.skip(n) =~= tail.skip(m));
        assert forall|i: int| 0 <= i < n implies {
            &&& (#[trigger] f.trades[i]).maker_order_id == makers[i].order_id
            &&& f.trades[i].maker_user_id == makers[i].user_id
            &&& f.trades[i].price == makers[i].price
        } by {
            if i > 0 {
                assert(f.trades[i] == rest.trades[i - 1]);
                assert(makers[i] == tail[i - 1]);
            }
        }
        if left.quantity.value() != 0 {
            assert(rest.makers == tail);
            assert(m == 0);
            assert(f.makers =~= seq![with_quantity(makers[0], f.makers[0].quantity)]
                + makers.skip(1));
            assert(valid_quantities(f.makers));
        } else {
            assert forall|i: int| 0 <= i < n - 1 implies (#[trigger] f.trades[i]).quantity.value()
                == makers[i].quantity.value() by {
                if i > 0 {
                    assert(f.trades[i] == rest.trades[i - 1]);
                    assert(makers[i] == tail[i - 1]);
                }
            }
            if m > 0 {
                assert(f.trades[n - 1] == rest.trades[m - 1]);
                assert(makers[n - 1] == tail[m - 1]);
            }
            if f.taker.quantity.value() != 0 {
                assert forall|i: int| 0 <= i < n implies (
                #[trigger] f.trades[i]).quantity.value() == makers[i].quantity.value() by {
                    if i > 0 {
                        assert(f.trades[i] == rest.trades[i - 1]);
                        assert(makers[i] == tail[i - 1]);
                    } else if next.quantity.value() == 0 {
                        assert(rest.taker == next);
                    }
                }
            }
        }
    }
}

pub proof fn lemma_queue_split(levels: Seq<LevelView>)
    requires
        levels.len() > 0,
        valid_quantities(queue(levels)),
    ensures
        valid_quantities(levels[0].orders),
        valid_quantities(queue(levels.drop_first())),
{
    let q = queue(levels);
    let a = levels[0].orders;
    let b = queue(levels.drop_first());
    assert forall|i: int| 0 <= i < a.len() implies (#[trigger] a[i]).quantity.valid() by {
        assert(a[i] == q[i]);
    }
    assert forall|i: int| 0 <= i < b.len() implies (#[trigger] b[i]).quantity.valid() by {
        assert(b[i] == q[a.len() + i]);
    }
}

/// A sweep serves the queue of the other side in turn, and stops with quantity
/// left only where no price is left that crosses.
pub proof fn lemma_sweep_in_turn(taker: Order, levels: Seq<LevelView>, desc: bool, id: nat)
    requires
        taker.quantity.valid(),
        valid_quantities(queue(levels)),
    ensures
        ({
            let s = sweep(taker, levels, desc, id);
            &&& served_in_turn(queue(levels), s.trades, queue(s.levels))
            &&& s.taker.quantity.value() > 0 ==> s.levels.len() == 0 || ahead(
                taker.price,
                s.levels[0].price,
                desc,
            )
            &&& s.taker.quantity.value() != 0 ==> queue(s.levels) == queue(levels).skip(
                s.trades.len() as int,
            )
            &&& s.taker.quantity.valid()
            &&& s.taker == with_quantity(taker, s.taker.quantity)
            &&& valid_quantities(queue(s.levels))
        }),
    decreases levels.len(),
{
    let s = sweep(taker, levels, desc, id);
    let q = queue(levels);
    if taker.quantity.value() <= 0 || levels.len() == 0 || ahead(
        taker.price,
        levels[0].price,
        desc,
    ) {
        assert(q.skip(0) =~= q);
    } else {
        let orders = levels[0].orders;
        let tail = levels.drop_first();
        let more = queue(tail);
        lemma_queue_split(levels);
        lemma_fill_in_turn(taker, orders, id);
        let f = fill(taker, orders, id);
        let k = f.trades.len() as int;
        if f.makers.len() > 0 {
            let head = seq![LevelView { price: levels[0].price, orders: f.makers }];
            assert((head + tail).drop_first() =~= tail);
            assert(queue(s.levels) == f.makers + more);
            assert((orders + more).skip(k) =~= orders.skip(k) + more);
            if f.makers == orders.skip(k) {
                assert(queue(s.levels) == q.skip(k));
            } else {
                assert(queue(s.levels) =~= seq![
                    with_quantity(q[k - 1], queue(s.levels)[0].quantity),
                ] + q.skip(k));
            }
            assert(valid_quantities(queue(s.levels)));
        } else {
            lemma_sweep_in_turn(f.taker, tail, desc, id + f.trades.len());
            let rest = sweep(f.taker, tail, desc, id + f.trades.len());
            assert(k == orders.len());
            let n = s.trades.len() as int;
            assert(q.skip(n) =~= more.skip(n - k));
            assert forall|i: int| 0 <= i < n implies {
                &&& (#[trigger] s.trades[i]).maker_order_id == q[i].order_id
                &&& s.trades[i].maker_user_id == q[i].user_id
                &&& s.trades[i].price == q[i].price
            } by {
                if i < k {
                    assert(s.trades[i] == f.trades[i]);
                } else {
                    assert(s.trades[i] == rest.trades[i - k]);
                    assert(q[i] == more[i - k]);
                }
            }
            assert forall|i: int| 0 <= i < n - 1 implies (#[trigger] s.trades[i]).quantity.value()
                == q[i].quantity.value() by {
                if i < k {
                    assert(s.trades[i] == f.trades[i]);
                } else {
                    assert(s.trades[i] == rest.trades[i - k]);
                    assert(q[i] == more[i - k]);
                }
            }
            if n > k {
                assert(s.trades[n - 1] == rest.trades[n - k - 1]);
                assert(q[n - 1] == more[n - k - 1]);
            }
        }
    }
}

/// The orders of a side in order are made of valid parts.
proof fn lemma_good_side_valid(levels: Seq<LevelView>, desc: bool)
    requires
        good_side(levels, desc),
    ensures
        valid_quantities(queue(levels)),
    decreases levels.len(),
{
    if levels.len() > 0 {
        lemma_tail_good(levels, desc);
        lemma_good_side_valid(levels.drop_first(), desc);
        let here = levels[0].orders;
        let rest = queue(levels.drop_first());
        assert(good_level(levels[0], desc));
        assert forall|i: int| 0 <= i < queue(levels).len() implies (#[trigger] queue(
            levels,
        )[i]).quantity.valid() by {
            if i < here.len() {
                assert(may_rest(here[i], levels[0].price, desc));
            } else {
                assert(queue(levels)[i] == rest[i - here.len()]);
            }
        }
    }
}

pub proof fn lemma_good_book_valid(book: BookView)
    requires
        good_book(book),
    ensures
        valid_book(book),
{
    lemma_good_side_valid(book.bids, true);
    lemma_good_side_valid(book.asks, false);
}

pub proof fn lemma_tail_good(levels: Seq<LevelView>, desc: bool)
    requires
        levels.len() > 0,
        good_side(levels, desc),
    ensures
        good_side(levels.drop_first(), desc),
{
    let tail = levels.drop_first();
    assert forall|i: int| 0 <= i < tail.len() implies good_level(#[trigger] tail[i], desc) by {
        assert(tail[i] == levels[i + 1]);
    }
    assert forall|i: int, j: int|
        #![trigger tail[i], tail[j]]
        0 <= i < j < tail.len() implies ahead(tail[i].price, tail[j].price, desc) by {
        assert(tail[i] == levels[i + 1] && tail[j] == levels[j + 1]);
    }
}

/// Every order of a queue stands at the price of one of the levels.
proof fn lemma_queue_prices(levels: Seq<LevelView>, desc: bool, i: int) -> (k: int)
    requires
        good_side(levels, desc),
        0 <= i < queue(levels).len(),
    ensures
        0 <= k < levels.len(),
        queue(levels)[i].price.value() == levels[k].price.value(),
    decreases levels.len(),
{
    let here = levels[0].orders;
    assert(good_level(levels[0], desc));
    if i < here.len() {
        assert(queue(levels)[i] == here[i]);
        0
    } else {
        let tail = levels.drop_first();
        lemma_tail_good(levels, desc);
        let k = lemma_queue_prices(tail, desc, i - here.len());
        assert(queue(levels)[i] == queue(tail)[i - here.len()]);
        assert(tail[k] == levels[k + 1]);
        k + 1
    }
}

/// A queue runs from the best price to the worst.
proof fn lemma_queue_sorted(levels: Seq<LevelView>, desc: bool, i: int, j: int)
    requires
        good_side(levels, desc),
        0 <= i < j < queue(levels).len(),
    ensures
        !ahead(queue(levels)[j].price, queue(levels)[i].price, desc),
    decreases levels.len(),
{
    let here = levels[0].orders;
    let tail = levels.drop_first();
    let q = queue(levels);
    assert(good_level(levels[0], desc));
    lemma_tail_good(levels, desc);
    if i >= here.len() {
        lemma_queue_sorted(tail, desc, i - here.len(), j - here.len());
        assert(q[i] == queue(tail)[i - here.len()] && q[j] == queue(tail)[j - here.len()]);
    } else {
        assert(q[i] == here[i]);
        if j < here.len() {
            assert(q[j] == here[j]);
        } else {
            let k = lemma_queue_prices(tail, desc, j - here.len());
            assert(q[j] == queue(tail)[j - here.len()]);
            assert(tail[k] == levels[k + 1]);
            assert(ahead(levels[0].price, levels[k + 1].price, desc));
        }
    }
}

proof fn lemma_sweep_limit(taker: Order, levels: Seq<LevelView>, desc: bool, id: nat)
    requires
        good_side(levels, desc),
        taker.quantity.valid(),
        valid_quantities(queue(levels)),
    ensures
        ({
            let s = sweep(taker, levels, desc, id);
            &&& forall|i: int|
                0 <= i < s.trades.len() ==> !ahead(
                    taker.price,
                    (#[trigger] s.trades[i]).price,
                    desc,
                )
            &&& s.levels.len() > 0 ==> levels.len() > 0 && !ahead(
                s.levels[0].price,
                levels[0].price,
                desc,
            )
        }),
    decreases levels.len(),
{
    let s = sweep(taker, levels, desc, id);
    if taker.quantity.value() > 0 && levels.len() > 0 && !ahead(
        taker.price,
        levels[0].price,
        desc,
    ) {
        let orders = levels[0].orders;
        let tail = levels.drop_first();
        assert(good_level(levels[0], desc));
        lemma_queue_split(levels);
        lemma_tail_good(levels, desc);
        lemma_fill_in_turn(taker, orders, id);
        let f = fill(taker, orders, id);
        if f.makers.len() == 0 {
            lemma_sweep_limit(f.taker, tail, desc, id + f.trades.len());
            let rest = sweep(f.taker, tail, desc, id + f.trades.len());
            assert forall|i: int| 0 <= i < s.trades.len() implies !ahead(
                taker.price,
                (#[trigger] s.trades[i]).price,
                desc,
            ) by {
                if i < f.trades.len() {
                    assert(s.trades[i] == f.trades[i]);
                    assert(s.trades[i].price.value() == orders[i].price.value());
                } else {
                    assert(s.trades[i] == rest.trades[i - f.trades.len()]);
                }
            }
            if s.levels.len() > 0 {
                assert(tail[0] == levels[1]);
                assert(ahead(levels[0].price, levels[1].price, desc));
            }
        } else {
            assert forall|i: int| 0 <= i < s.trades.len() implies !ahead(
                taker.price,
                (#[trigger] s.trades[i]).price,
                desc,
            ) by {
                assert(s.trades[i].price.value() == orders[i].price.value());
            }
        }
    }
}

proof fn lemma_fill_numbers(taker: Order, makers: Seq<Order>, id: nat)
    ensures
        forall|i: int|
            0 <= i < fill(taker, makers, id).trades.len() ==> {
                &&& (#[trigger] fill(taker, makers, id).trades[i]).trade_id.0 == (id + i) as u64
                &&& fill(taker, makers, id).trades[i].taker_order_id == taker.order_id
                &&& fill(taker, makers, id).trades[i].taker_user_id == taker.user_id
                &&& fill(taker, makers, id).trades[i].taker_side == taker.side
                &&& fill(taker, makers, id).trades[i].market_id == taker.market_id
            },
        fill(taker, makers, id).taker == with_quantity(
            taker,
            fill(taker, makers, id).taker.quantity,
        ),
    decreases makers.len(),
{
    if makers.len() > 0 && taker.quantity.value() != 0 {
        let q = smaller(taker.quantity, makers[0].quantity);
        let next = with_quantity(taker, left_of(taker.quantity, q));
        let tail = makers.drop_first();
        lemma_fill_numbers(next, tail, id + 1);
        let f = fill(taker, makers, id);
        let rest = fill(next, tail, id + 1);
        assert forall|i: int| 0 <= i < f.trades.len() implies {
            &&& (#[trigger] f.trades[i]).trade_id.0 == (id + i) as u64
            &&& f.trades[i].taker_order_id == taker.order_id
            &&& f.trades[i].taker_user_id == taker.user_id
            &&& f.trades[i].taker_side == taker.side
            &&& f.trades[i].market_id == taker.market_id
        } by {
            if i > 0 {
                assert(f.trades[i] == rest.trades[i - 1]);
                assert(id + 1 + (i - 1) == id + i);
            }
        }
    }
}

/// Trades of a sweep are numbered one by one, and are all the taker's.
pub proof fn lemma_sweep_numbers(taker: Order, levels: Seq<LevelView>, desc: bool, id: nat)
    ensures
        forall|i: int|
            0 <= i < sweep(taker, levels, desc, id).trades.len() ==> {
                &&& (#[trigger] sweep(taker, levels, desc, id).trades[i]).trade_id.0 == (id
                    + i) as u64
                &&& sweep(taker, levels, desc, id).trades[i].taker_order_id == taker.order_id
                &&& sweep(taker, levels, desc, id).trades[i].taker_user_id == taker.user_id
                &&& sweep(taker, levels, desc, id).trades[i].taker_side == taker.side
                &&& sweep(taker, levels, desc, id).trades[i].market_id == taker.market_id
            },
    decreases levels.len(),
{
    if taker.quantity.value() > 0 && levels.len() > 0 && !ahead(
        taker.price,
        levels[0].price,
        desc,
    ) {
        let s = sweep(taker, levels, desc, id);
        let f = fill(taker, levels[0].orders, id);
        lemma_fill_numbers(taker, levels[0].orders, id);
        if f.makers.len() == 0 {
            let tail = levels.drop_first();
            let k = f.trades.len();
            lemma_sweep_numbers(f.taker, tail, desc, id + k);
            let rest = sweep(f.taker, tail, desc, id + k);
            assert forall|i: int| 0 <= i < s.trades.len() implies {
                &&& (#[trigger] s.trades[i]).trade_id.0 == (id + i) as u64
                &&& s.trades[i].taker_order_id == taker.order_id
                &&& s.trades[i].taker_user_id == taker.user_id
                &&& s.trades[i].taker_side == taker.side
                &&& s.trades[i].market_id == taker.market_id
            } by {
                if i < k {
                    assert(s.trades[i] == f.trades[i]);
                } else {
                    assert(s.trades[i] == rest.trades[i - k]);
                    assert(id + k + (i - k) == id + i);
                }
            }
        }
    }
}

/// Best price first, first come first served within a price: an order trades with
/// the resting orders of the other side strictly in turn, and their queue runs
/// from the best price to the worst.
pub proof fn law_price_time_priority(book: BookView, order: Order)
    requires
        good_book(book),
        order.quantity.valid(),
    ensures
        served_in_turn(
            queue(opposite(book, order.side)),
            matched(book, order).trades,
            queue(opposite(swept_book(book, order), order.side)),
        ),
        forall|i: int, j: int|
            0 <= i < j < queue(opposite(book, order.side)).len() ==> {
                let p = (#[trigger] queue(opposite(book, order.side))[i]).price.value();
                let q = (#[trigger] queue(opposite(book, order.side))[j]).price.value();
                match order.side {
                    Side::Buy => p <= q,
                    Side::Sell => p >= q,
                }
            },
{
    lemma_good_book_valid(book);
    let desc = order.side == Side::Sell;
    let levels = opposite(book, order.side);
    lemma_sweep_in_turn(order, levels, desc, book.next_trade_id);
    assert forall|i: int, j: int| 0 <= i < j < queue(levels).len() implies !ahead(
        (#[trigger] queue(levels)[j]).price,
        (#[trigger] queue(levels)[i]).price,
        desc,
    ) by {
        lemma_queue_sorted(levels, desc, i, j);
    }
}

/// Nobody trades at a price worse than the limit: a buyer never pays more than
/// their order's price, a seller never gets less.
pub proof fn law_limit_respected(book: BookView, order: Order)
    requires
        good_book(book),
        order.quantity.valid(),
    ensures
        forall|i: int|
            0 <= i < matched(book, order).trades.len() ==> {
                let paid = (#[trigger] matched(book, order).trades[i]).price.value();
                match order.side {
                    Side::Buy => paid <= order.price.value(),
                    Side::Sell => paid >= order.price.value(),
                }
            },
{
    lemma_good_book_valid(book);
    let desc = order.side == Side::Sell;
    lemma_sweep_limit(order, opposite(book, order.side), desc, book.next_trade_id);
}

/// Trades are numbered one by one from the book's next number, which moves past
/// them, and each names the incoming order as its taker.
pub proof fn law_trade_numbers(book: BookView, order: Order)
    requires
        book.next_trade_id + matched(book, order).trades.len() <= u64::MAX,
    ensures
        forall|i: int|
            0 <= i < matched(book, order).trades.len() ==> {
                let t = #[trigger] matched(book, order).trades[i];
                &&& t.trade_id.0 == book.next_trade_id + i
                &&& t.taker_order_id == order.order_id
                &&& t.taker_user_id == order.user_id
                &&& t.taker_side == order.side
                &&& t.market_id == order.market_id
            },
        book_after(book, order).next_trade_id == book.next_trade_id + matched(
            book,
            order,
        ).trades.len(),
{
    let desc = order.side == Side::Sell;
    lemma_sweep_numbers(order, opposite(book, order.side), desc, book.next_trade_id);
}

/// Whether some books are those that a book goes through as orders are processed, one
/// after the other, and some events are those of each order.
pub open spec fn is_run(
    books: Seq<BookView>,
    orders: Seq<Order>,
    events: Seq<Seq<MarketEvent>>,
) -> bool {
    &&& books.len() == orders.len() + 1
    &&& events.len() == orders.len()
    &&& forall|i: int|
        #![trigger books[i + 1]]
        #![trigger events[i]]
        0 <= i < orders.len() ==> books[i + 1] == book_after(books[i], orders[i]) && events[i]
            == events_of(books[i], orders[i])
}

/// Matching is deterministic: two books that are equal and are given the same orders
/// report the same events, order by order, and are equal all the way.
pub proof fn law_runs_agree(
    books: Seq<BookView>,
    others: Seq<BookView>,
    orders: Seq<Order>,
    events: Seq<Seq<MarketEvent>>,
    reports: Seq<Seq<MarketEvent>>,
)
    requires
        is_run(books, orders, events),
        is_run(others, orders, reports),
        books[0] == others[0],
    ensures
        books == others,
        events == reports,
{
    assert forall|i: int| 0 <= i < books.len() implies books[i] == others[i] by {
        lemma_runs_agree_at(books, others, orders, events, reports, i);
    }
    assert(books =~= others);
    assert forall|i: int| 0 <= i < events.len() implies events[i] == reports[i] by {
        assert(books[i] == others[i]);
    }
    assert(events =~= reports);
}

proof fn lemma_runs_agree_at(
    books: Seq<BookView>,
    others: Seq<BookView>,
    orders: Seq<Order>,
    events: Seq<Seq<MarketEvent>>,
    reports: Seq<Seq<MarketEvent>>,
    i: int,
)
    requires
        is_run(books, orders, events),
        is_run(others, orders, reports),
        books[0] == others[0],
        0 <= i < books.len(),
    ensures
        books[i] == others[i],
    decreases i,
{
    if i > 0 {
        lemma_runs_agree_at(books, others, orders, events, reports, i - 1);
        assert(books[(i - 1) + 1] == book_after(books[i - 1], orders[i - 1]));
        assert(others[(i - 1) + 1] == book_after(others[i - 1], orders[i - 1]));
    }
}

/// The best bid is below the best ask.
pub open spec fn uncrossed(book: BookView) -> bool {
    book.bids.len() > 0 && book.asks.len() > 0 ==> book.bids[0].price.value()
        < book.asks[0].price.value()
}

/// A book that is not crossed stays so.
pub proof fn law_stays_uncrossed(book: BookView, order: Order)
    requires
        good_book(book),
        order.quantity.valid(),
        uncrossed(book),
    ensures
        uncrossed(book_after(book, order)),
{
    lemma_good_book_valid(book);
    let desc = order.side == Side::Sell;
    let levels = opposite(book, order.side);
    lemma_sweep_in_turn(order, levels, desc, book.next_trade_id);
    lemma_sweep_limit(order, levels, desc, book.next_trade_id);
}

/// An order without quantity changes nothing and causes no event.
pub proof fn law_no_quantity_no_effect(book: BookView, order: Order)
    requires
        order.quantity.value() <= 0,
    ensures
        book_after(book, order) == book,
        events_of(book, order) == Seq::<MarketEvent>::empty(),
{
}

/// The trades come first, in order; a placement comes last, if and only if
/// quantity is left, and is of that quantity.
pub proof fn law_events(book: BookView, order: Order)
    ensures
        ({
            let m = matched(book, order);
            let e = events_of(book, order);
            &&& e.len() == m.trades.len() + (if m.taker.quantity.value() > 0 { 1int } else { 0 })
            &&& forall|i: int|
                0 <= i < m.trades.len() ==> #[trigger] e[i] == MarketEvent::OrderTraded(
                    m.trades[i],
                )
            &&& m.taker.quantity.value() > 0 ==> e.last() == (MarketEvent::OrderPlaced {
                order_id: order.order_id,
                user_id: order.user_id,
                market_id: order.market_id,
                side: order.side,
                price: order.price,
                quantity: m.taker.quantity,
                timestamp: order.timestamp,
            })
        }),
{
    let desc = order.side == Side::Sell;
    lemma_sweep_taker(order, opposite(book, order.side), desc, book.next_trade_id);
}

/// A sweep changes nothing of the taker but its quantity.
pub proof fn lemma_sweep_taker(taker: Order, levels: Seq<LevelView>, desc: bool, id: nat)
    ensures
        sweep(taker, levels, desc, id).taker == with_quantity(
            taker,
            sweep(taker, levels, desc, id).taker.quantity,
        ),
    decreases levels.len(),
{
    if taker.quantity.value() > 0 && levels.len() > 0 && !ahead(
        taker.price,
        levels[0].price,
        desc,
    ) {
        let f = fill(taker, levels[0].orders, id);
        lemma_fill_numbers(taker, levels[0].orders, id);
        if f.makers.len() == 0 {
            lemma_sweep_taker(f.taker, levels.drop_first(), desc, id + f.trades.len());
        }
    }
}

/// The number of resting orders.
pub open spec fn resting(book: BookView) -> nat {
    queue(book.bids).len() + queue(book.asks).len()
}

/// No order rests in the empty book.
pub proof fn lemma_nothing_rests()
    ensures
        resting(empty_book()) == 0,
{
}

proof fn lemma_placed_count(levels: Seq<LevelView>, order: Order, desc: bool)
    ensures
        queue(placed(levels, order, desc)).len() == queue(levels).len() + 1,
    decreases levels.len(),
{
    let p = placed(levels, order, desc);
    if levels.len() == 0 || ahead(order.price, levels[0].price, desc) {
        assert(p.drop_first() =~= levels);
    } else if levels[0].price.value() == order.price.value() {
        assert(p.drop_first() =~= levels.drop_first());
    } else {
        lemma_placed_count(levels.drop_first(), order, desc);
        assert(p.drop_first() =~= placed(levels.drop_first(), order, desc));
    }
}

/// Each order uses up trade numbers and queue places only as fast as orders come
/// in: the next trade number and the number of resting orders together grow by at
/// most one.
pub proof fn law_trade_numbers_paced(book: BookView, order: Order)
    requires
        good_book(book),
        order.quantity.valid(),
    ensures
        book_after(book, order).next_trade_id + resting(book_after(book, order))
            <= book.next_trade_id + resting(book) + 1,
        matched(book, order).trades.len() <= resting(book),
{
    lemma_good_book_valid(book);
    let desc = order.side == Side::Sell;
    let levels = opposite(book, order.side);
    lemma_sweep_in_turn(order, levels, desc, book.next_trade_id);
    let m = matched(book, order);
    let swept = swept_book(book, order);
    if m.taker.quantity.value() > 0 {
        match m.taker.side {
            Side::Buy => lemma_placed_count(swept.bids, m.taker, true),
            Side::Sell => lemma_placed_count(swept.asks, m.taker, false),
        }
    }
}

/// The quantity of all trades together, in units of `10^-28`.
pub open spec fn volume(trades: Seq<Trade>) -> int
    decreases trades.len(),
{
    if trades.len() == 0 {
        0
    } else {
        trades[0].quantity.value() + volume(trades.drop_first())
    }
}

/// The quantity of all orders together, in units of `10^-28`.
pub open spec fn total(orders: Seq<Order>) -> int
    decreases orders.len(),
{
    if orders.len() == 0 {
        0
    } else {
        orders[0].quantity.value() + total(orders.drop_first())
    }
}

pub proof fn lemma_volume_adds(a: Seq<Trade>, b: Seq<Trade>)
    ensures
        volume(a + b) == volume(a) + volume(b),
    decreases a.len(),
{
    if a.len() == 0 {
        assert(a + b =~= b);
    } else {
        assert((a + b).drop_first() =~= a.drop_first() + b);
        lemma_volume_adds(a.drop_first(), b);
    }
}

pub proof fn lemma_total_adds(a: Seq<Order>, b: Seq<Order>)
    ensures
        total(a + b) == total(a) + total(b),
    decreases a.len(),
{
    if a.len() == 0 {
        assert(a + b =~= b);
    } else {
        assert((a + b).drop_first() =~= a.drop_first() + b);
        lemma_total_adds(a.drop_first(), b);
    }
}

/// Every quantity that a fill leaves fits without rounding.
pub open spec fn fills_exactly(taker: Order, makers: Seq<Order>) -> bool
    decreases makers.len(),
{
    makers.len() == 0 || taker.quantity.value() == 0 || {
        let q = smaller(taker.quantity, makers[0].quantity);
        &&& taker.quantity.exact_minus(q)
        &&& makers[0].quantity.exact_minus(q)
        &&& fills_exactly(
            with_quantity(taker, left_of(taker.quantity, q)),
            makers.drop_first(),
        )
    }
}

/// Every quantity that a sweep leaves fits without rounding.
pub open spec fn sweeps_exactly(taker: Order, levels: Seq<LevelView>, desc: bool) -> bool
    decreases levels.len(),
{
    taker.quantity.value() <= 0 || levels.len() == 0 || ahead(taker.price, levels[0].price, desc)
        || {
        let f = fill(taker, levels[0].orders, 0);
        &&& fills_exactly(taker, levels[0].orders)
        &&& f.makers.len() == 0 ==> sweeps_exactly(f.taker, levels.drop_first(), desc)
    }
}

/// Trade numbers do not bear on what a fill leaves.
pub proof fn lemma_fill_any_number(taker: Order, makers: Seq<Order>, a: nat, b: nat)
    ensures
        fill(taker, makers, a).taker == fill(taker, makers, b).taker,
        fill(taker, makers, a).makers == fill(taker, makers, b).makers,
    decreases makers.len(),
{
    if makers.len() > 0 && taker.quantity.value() != 0 {
        let q = smaller(taker.quantity, makers[0].quantity);
        lemma_fill_any_number(
            with_quantity(taker, left_of(taker.quantity, q)),
            makers.drop_first(),
            a + 1,
            b + 1,
        );
    }
}

proof fn lemma_fill_conserves(taker: Order, makers: Seq<Order>, id: nat)
    requires
        taker.quantity.valid(),
        valid_quantities(makers),
        fills_exactly(taker, makers),
    ensures
        ({
            let f = fill(taker, makers, id);
            &&& taker.quantity.value() == volume(f.trades) + f.taker.quantity.value()
            &&& total(makers) == volume(f.trades) + total(f.makers)
        }),
    decreases makers.len(),
{
    let f = fill(taker, makers, id);
    if makers.len() > 0 && taker.quantity.value() != 0 {
        let q = smaller(taker.quantity, makers[0].quantity);
        let next = with_quantity(taker, left_of(taker.quantity, q));
        let left = with_quantity(makers[0], left_of(makers[0].quantity, q));
        let tail = makers.drop_first();
        assert forall|i: int| 0 <= i < tail.len() implies (#[trigger] tail[i]).quantity.valid() by {
            assert(tail[i] == makers[i + 1]);
        }
        Decimal::law_exact_difference(taker.quantity, q);
        Decimal::law_exact_difference(makers[0].quantity, q);
        lemma_fill_conserves(next, tail, id + 1);
        let rest = fill(next, tail, id + 1);
        assert(f.trades.drop_first() =~= rest.trades);
        if left.quantity.value() != 0 {
            assert(f.makers.drop_first() =~= rest.makers);
        }
    }
}

proof fn lemma_sweep_conserves(taker: Order, levels: Seq<LevelView>, desc: bool, id: nat)
    requires
        taker.quantity.valid(),
        valid_quantities(queue(levels)),
        sweeps_exactly(taker, levels, desc),
    ensures
        ({
            let s = sweep(taker, levels, desc, id);
            &&& taker.quantity.value() == volume(s.trades) + s.taker.quantity.value()
            &&& total(queue(levels)) == volume(s.trades) + total(queue(s.levels))
        }),
    decreases levels.len(),
{
    let s = sweep(taker, levels, desc, id);
    if taker.quantity.value() > 0 && levels.len() > 0 && !ahead(
        taker.price,
        levels[0].price,
        desc,
    ) {
        let orders = levels[0].orders;
        let tail = levels.drop_first();
        lemma_queue_split(levels);
        lemma_fill_in_turn(taker, orders, id);
        lemma_fill_conserves(taker, orders, id);
        lemma_fill_any_number(taker, orders, 0, id);
        lemma_total_adds(orders, queue(tail));
        let f = fill(taker, orders, id);
        if f.makers.len() > 0 {
            assert(s.levels.drop_first() =~= tail);
            lemma_total_adds(f.makers, queue(tail));
        } else {
            let rest = sweep(f.taker, tail, desc, id + f.trades.len());
            lemma_sweep_conserves(f.taker, tail, desc, id + f.trades.len());
            lemma_volume_adds(f.trades, rest.trades);
        }
    }
}

/// Nothing is made or lost in matching: what an order and the other side of the
/// book lose is what was traded. Only a quantity with more digits than a decimal
/// can hold, which is rounded, falls outside.
pub proof fn law_quantity_conserved(book: BookView, order: Order)
    requires
        good_book(book),
        order.quantity.valid(),
        sweeps_exactly(order, opposite(book, order.side), order.side == Side::Sell),
    ensures
        order.quantity.value() == volume(matched(book, order).trades) + matched(
            book,
            order,
        ).taker.quantity.value(),
        total(queue(opposite(book, order.side))) == volume(matched(book, order).trades) + total(
            queue(opposite(swept_book(book, order), order.side)),
        ),
{
    lemma_good_book_valid(book);
    let desc = order.side == Side::Sell;
    lemma_sweep_conserves(order, opposite(book, order.side), desc, book.next_trade_id);
}

/// An order that comes to rest joins the queue behind every order whose price is
/// as good as its own and ahead of every order whose price is worse; the others
/// keep their places.
pub proof fn law_joins_the_back(levels: Seq<LevelView>, order: Order, desc: bool) -> (k: int)
    requires
        good_side(levels, desc),
    ensures
        0 <= k <= queue(levels).len(),
        queue(placed(levels, order, desc)) == queue(levels).insert(k, order),
        forall|i: int|
            0 <= i < k ==> !ahead(order.price, (#[trigger] queue(levels)[i]).price, desc),
        forall|i: int|
            k <= i < queue(levels).len() ==> ahead(
                order.price,
                (#[trigger] queue(levels)[i]).price,
                desc,
            ),
    decreases levels.len(),
{
    let q = queue(levels);
    let p = placed(levels, order, desc);
    if levels.len() == 0 || ahead(order.price, levels[0].price, desc) {
        assert(p.drop_first() =~= levels);
        assert(queue(p) =~= q.insert(0, order));
        assert forall|i: int| 0 <= i < q.len() implies ahead(
            order.price,
            (#[trigger] q[i]).price,
            desc,
        ) by {
            let l = lemma_queue_prices(levels, desc, i);
            if l > 0 {
                assert(ahead(levels[0].price, levels[l].price, desc));
            }
        }
        0
    } else {
        let here = levels[0].orders;
        let tail = levels.drop_first();
        let n = here.len() as int;
        assert(good_level(levels[0], desc));
        lemma_tail_good(levels, desc);
        assert forall|i: int| 0 <= i < n implies !ahead(
            order.price,
            (#[trigger] q[i]).price,
            desc,
        ) by {
            assert(q[i] == here[i]);
        }
        if levels[0].price.value() == order.price.value() {
            assert(p.drop_first() =~= tail);
            assert(queue(p) =~= q.insert(n, order));
            assert forall|i: int| n <= i < q.len() implies ahead(
                order.price,
                (#[trigger] q[i]).price,
                desc,
            ) by {
                let l = lemma_queue_prices(tail, desc, i - n);
                assert(q[i] == queue(tail)[i - n]);
                assert(tail[l] == levels[l + 1]);
                assert(ahead(levels[0].price, levels[l + 1].price, desc));
            }
            n
        } else {
            let k = law_joins_the_back(tail, order, desc);
            assert(p.drop_first() =~= placed(tail, order, desc));
            assert(queue(p) =~= q.insert(n + k, order));
            assert forall|i: int| n <= i < q.len() implies q[i] == #[trigger] queue(tail)[i
                - n] by {}
            assert forall|i: int| 0 <= i < n + k implies !ahead(
                order.price,
                (#[trigger] q[i]).price,
                desc,
            ) by {
                if i >= n {
                    assert(q[i] == queue(tail)[i - n]);
                }
            }
            assert forall|i: int| n + k <= i < q.len() implies ahead(
                order.price,
                (#[trigger] q[i]).price,
                desc,
            ) by {
                assert(q[i] == queue(tail)[i - n]);
            }
            n + k
        }
    }
}

/// Whether all resting orders belong to some users.
pub open spec fn users_in(book: BookView, users: Set<u64>) -> bool {
    &&& forall|i: int|
        0 <= i < queue(book.bids).len() ==> users.contains(
            (#[trigger] queue(book.bids)[i]).user_id.0,
        )
    &&& forall|i: int|
        0 <= i < queue(book.asks).len() ==> users.contains(
            (#[trigger] queue(book.asks)[i]).user_id.0,
        )
}

/// An order that comes to rest is put into the queue; the others stay.
proof fn lemma_placed_inserts(levels: Seq<LevelView>, order: Order, desc: bool) -> (k: int)
    ensures
        0 <= k <= queue(levels).len(),
        queue(placed(levels, order, desc)) == queue(levels).insert(k, order),
    decreases levels.len(),
{
    let q = queue(levels);
    let p = placed(levels, order, desc);
    if levels.len() == 0 || ahead(order.price, levels[0].price, desc) {
        assert(p.drop_first() =~= levels);
        assert(queue(p) =~= q.insert(0, order));
        0
    } else {
        let here = levels[0].orders;
        let rest = levels.drop_first();
        if levels[0].price.value() == order.price.value() {
            assert(p.drop_first() =~= rest);
            assert(queue(p) =~= q.insert(here.len() as int, order));
            here.len() as int
        } else {
            let k = lemma_placed_inserts(rest, order, desc);
            assert(p.drop_first() =~= placed(rest, order, desc));
            assert(queue(p) =~= q.insert(here.len() + k, order));
            here.len() + k
        }
    }
}

/// Nobody turns up from nowhere: the parties of a trade, and the owners of the
/// orders that rest afterwards, are the owner of the incoming order and owners of
/// orders that rested before.
pub proof fn law_parties(book: BookView, order: Order, users: Set<u64>)
    requires
        valid_book(book),
        order.quantity.valid(),
        users_in(book, users),
        users.contains(order.user_id.0),
    ensures
        forall|i: int|
            0 <= i < matched(book, order).trades.len() ==> {
                let t = #[trigger] matched(book, order).trades[i];
                users.contains(t.maker_user_id.0) && users.contains(t.taker_user_id.0)
            },
        users_in(book_after(book, order), users),
        valid_book(book_after(book, order)),
{
    let desc = order.side == Side::Sell;
    let levels = opposite(book, order.side);
    lemma_sweep_in_turn(order, levels, desc, book.next_trade_id);
    lemma_sweep_numbers(order, levels, desc, book.next_trade_id);
    let m = matched(book, order);
    let before = queue(levels);
    let after = queue(m.levels);
    let n = m.trades.len() as int;
    assert forall|i: int| 0 <= i < after.len() implies users.contains(
        (#[trigger] after[i]).user_id.0,
    ) by {
        if after == before.skip(n) {
            assert(after[i] == before[n + i]);
        } else if i > 0 {
            assert(after[i] == before[n + i - 1]);
        } else {
            assert(after[i] == with_quantity(before[n - 1], after[0].quantity));
        }
    }
    if m.taker.quantity.value() > 0 {
        let own = opposite(book, if desc { Side::Buy } else { Side::Sell });
        let q = queue(own);
        let k = lemma_placed_inserts(own, m.taker, !desc);
        let rested = queue(placed(own, m.taker, !desc));
        assert forall|i: int| 0 <= i < rested.len() implies users.contains(
            (#[trigger] rested[i]).user_id.0,
        ) by {
            if i < k {
                assert(rested[i] == q[i]);
            } else if i > k {
                assert(rested[i] == q[i - 1]);
            }
        }
        assert forall|i: int| 0 <= i < rested.len() implies (
        #[trigger] rested[i]).quantity.valid() by {
            if i < k {
                assert(rested[i] == q[i]);
            } else if i > k {
                assert(rested[i] == q[i - 1]);
            }
        }
    }
}

} // verus!
