//! The book stays in order from one order to the next.
use crate::book::{
    ahead, empty_book, good_book, good_level, good_side, lemma_placed_at, may_rest, placed,
    BookView, LevelView,
};
use crate::decimal::Decimal;
use crate::engine::{
    book_after, fill, left_of, matched, opposite, smaller, sweep, with_quantity,
};
use crate::engine_laws::{
    fills_exactly, lemma_fill_any_number, lemma_sweep_taker, lemma_tail_good, sweeps_exactly,
    uncrossed,
};
use crate::types::{Order, Side};
use vstd::prelude::*;

verus! {

/// What an exact fill leaves of a queue is good to rest, and it leaves nothing of
/// the taker where it leaves anything of the queue.
proof fn lemma_fill_leaves_good(taker: Order, makers: Seq<Order>, price: Decimal, desc: bool, id: nat)
    requires
        taker.quantity.valid(),
        taker.quantity.value() >= 0,
        forall|i: int| 0 <= i < makers.len() ==> may_rest(#[trigger] makers[i], price, desc),
        fills_exactly(taker, makers),
    ensures
        ({
            let f = fill(taker, makers, id);
            &&& f.taker.quantity.valid()
            &&& f.taker.quantity.value() >= 0
            &&& f.makers.len() > 0 ==> f.taker.quantity.value() == 0
            &&& forall|i: int|
                0 <= i < f.makers.len() ==> may_rest(#[trigger] f.makers[i], price, desc)
        }),
    decreases makers.len(),
{
    if makers.len() > 0 && taker.quantity.value() != 0 {
        let maker = makers[0];
        assert(may_rest(maker, price, desc));
        let q = smaller(taker.quantity, maker.quantity);
        Decimal::law_exact_difference(taker.quantity, q);
        Decimal::law_exact_difference(maker.quantity, q);
        let next = with_quantity(taker, left_of(taker.quantity, q));
        let left = with_quantity(maker, left_of(maker.quantity, q));
        let tail = makers.drop_first();
        assert forall|i: int| 0 <= i < tail.len() implies may_rest(
            #[trigger] tail[i],
            price,
            desc,
        ) by {
            assert(tail[i] == makers[i + 1]);
        }
        lemma_fill_leaves_good(next, tail, price, desc, id + 1);
        let f = fill(taker, makers, id);
        let rest = fill(next, tail, id + 1);
        if left.quantity.value() != 0 {
            assert forall|i: int| 0 <= i < f.makers.len() implies may_rest(
                #[trigger] f.makers[i],
                price,
                desc,
            ) by {
                if i > 0 {
                    assert(f.makers[i] == rest.makers[i - 1]);
                }
            }
        }
    }
}

/// What an exact sweep leaves of a side is in order.
proof fn lemma_sweep_leaves_good(taker: Order, levels: Seq<LevelView>, desc: bool, id: nat)
    requires
        taker.quantity.valid(),
        good_side(levels, desc),
        sweeps_exactly(taker, levels, desc),
    ensures
        good_side(sweep(taker, levels, desc, id).levels, desc),
        sweep(taker, levels, desc, id).taker.quantity.valid(),
    decreases levels.len(),
{
    if taker.quantity.value() > 0 && levels.len() > 0 && !ahead(
        taker.price,
        levels[0].price,
        desc,
    ) {
        let orders = levels[0].orders;
        let tail = levels.drop_first();
        assert(good_level(levels[0], desc));
        lemma_tail_good(levels, desc);
        lemma_fill_leaves_good(taker, orders, levels[0].price, desc, id);
        lemma_fill_any_number(taker, orders, 0, id);
        let f = fill(taker, orders, id);
        if f.makers.len() > 0 {
            let left = sweep(taker, levels, desc, id).levels;
            assert forall|i: int| 0 <= i < left.len() implies good_level(
                #[trigger] left[i],
                desc,
            ) by {
                if i > 0 {
                    assert(left[i] == levels[i]);
                }
            }
            assert forall|i: int, j: int|
                #![trigger left[i], left[j]]
                0 <= i < j < left.len() implies ahead(left[i].price, left[j].price, desc) by {
                assert(left[j] == levels[j]);
                assert(left[i].price == levels[i].price);
                assert(ahead(levels[i].price, levels[j].price, desc));
            }
        } else {
            lemma_sweep_leaves_good(f.taker, tail, desc, id + f.trades.len());
        }
    }
}

/// The place of a price among the levels: behind those that are ahead of it.
proof fn lemma_find_place(levels: Seq<LevelView>, price: Decimal, desc: bool) -> (k: int)
    ensures
        0 <= k <= levels.len(),
        forall|i: int| 0 <= i < k ==> ahead((#[trigger] levels[i]).price, price, desc),
        k < levels.len() ==> !ahead(levels[k].price, price, desc),
    decreases levels.len(),
{
    if levels.len() == 0 || !ahead(levels[0].price, price, desc) {
        0
    } else {
        let tail = levels.drop_first();
        let k = lemma_find_place(tail, price, desc);
        assert forall|i: int| 0 <= i < k + 1 implies ahead(
            (#[trigger] levels[i]).price,
            price,
            desc,
        ) by {
            if i > 0 {
                assert(tail[i - 1] == levels[i]);
            }
        }
        k + 1
    }
}

/// A side stays in order when an order comes to rest.
proof fn lemma_placed_good(levels: Seq<LevelView>, order: Order, desc: bool)
    requires
        good_side(levels, desc),
        may_rest(order, order.price, desc),
    ensures
        good_side(placed(levels, order, desc), desc),
{
    let k = lemma_find_place(levels, order.price, desc);
    lemma_placed_at(levels, order, desc, k);
    let after = placed(levels, order, desc);
    if k < levels.len() && levels[k].price.value() == order.price.value() {
        assert(good_level(levels[k], desc));
        assert forall|i: int| 0 <= i < after.len() implies good_level(
            #[trigger] after[i],
            desc,
        ) by {
            if i == k {
                let old_orders = levels[k].orders;
                assert forall|j: int| 0 <= j < after[k].orders.len() implies may_rest(
                    #[trigger] after[k].orders[j],
                    after[k].price,
                    desc,
                ) by {
                    if j < old_orders.len() {
                        assert(may_rest(old_orders[j], levels[k].price, desc));
                    }
                }
            } else {
                assert(after[i] == levels[i]);
            }
        }
        assert forall|i: int, j: int|
            #![trigger after[i], after[j]]
            0 <= i < j < after.len() implies ahead(after[i].price, after[j].price, desc) by {
            assert(after[i].price == levels[i].price && after[j].price == levels[j].price);
            assert(ahead(levels[i].price, levels[j].price, desc));
        }
    } else {
        assert forall|i: int| 0 <= i < after.len() && i != k implies #[trigger] after[i]
            == levels[if i < k {
            i
        } else {
            i - 1
        }] by {}
        assert forall|i: int| 0 <= i < after.len() implies good_level(
            #[trigger] after[i],
            desc,
        ) by {
            if i != k {
                let old_level = levels[if i < k { i } else { i - 1 }];
                assert(good_level(old_level, desc));
            }
        }
        assert forall|i: int, j: int|
            #![trigger after[i], after[j]]
            0 <= i < j < after.len() implies ahead(after[i].price, after[j].price, desc) by {
            if i == k {
                assert(after[j] == levels[j - 1]);
                if j - 1 > k {
                    assert(ahead(levels[k].price, levels[j - 1].price, desc));
                }
            } else if j == k {
                assert(after[i] == levels[i]);
            } else {
                let (a, b) = (if i < k { i } else { i - 1 }, if j < k { j } else { j - 1 });
                assert(after[i] == levels[a] && after[j] == levels[b]);
                assert(ahead(levels[a].price, levels[b].price, desc));
            }
        }
    }
}

/// A book in order is in order again once an order has been processed: prices are
/// sorted, no level is empty, and every order rests on its side, at its price, with
/// quantity left.
pub proof fn law_book_stays_in_order(book: BookView, order: Order)
    requires
        good_book(book),
        order.price.valid(),
        order.quantity.valid(),
        sweeps_exactly(order, opposite(book, order.side), order.side == Side::Sell),
    ensures
        good_book(book_after(book, order)),
{
    let desc = order.side == Side::Sell;
    let levels = opposite(book, order.side);
    lemma_sweep_leaves_good(order, levels, desc, book.next_trade_id);
    lemma_sweep_taker(order, levels, desc, book.next_trade_id);
    let m = matched(book, order);
    if m.taker.quantity.value() > 0 {
        match order.side {
            Side::Buy => lemma_placed_good(book.bids, m.taker, true),
            Side::Sell => lemma_placed_good(book.asks, m.taker, false),
        }
    }
}

/// The empty book is in order and not crossed.
pub proof fn law_empty_book_in_order()
    ensures
        good_book(empty_book()),
        uncrossed(empty_book()),
{
}

} // verus!
