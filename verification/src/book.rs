//! The order book: resting orders by price, and by arrival within a price.
use crate::decimal::Decimal;
use crate::types::{Order, Price, PriceLevel, Side};
use std::collections::VecDeque;
use vstd::prelude::*;

verus! {

/// One price and the orders that rest at it, oldest first.
#[derive(Debug)]
pub struct Level {
    pub price: Price,
    pub orders: PriceLevel,
}

/// The model of a [`Level`].
pub struct LevelView {
    pub price: Decimal,
    pub orders: Seq<Order>,
}

impl View for Level {
    type V = LevelView;

    open spec fn view(&self) -> LevelView {
        LevelView { price: self.price, orders: self.orders@ }
    }
}

impl Clone for Level {
    fn clone(&self) -> (r: Level)
        ensures
            r@ == self@,
    {
        let mut orders: PriceLevel = VecDeque::new();
        let mut i: usize = 0;
        while i < self.orders.len()
            invariant
                i <= self.orders@.len(),
                orders@ == self.orders@.take(i as int),
            decreases self.orders@.len() - i,
        {
            orders.push_back(self.orders[i]);
            assert(orders@ =~= self.orders@.take(i + 1));
            i += 1;
        }
        assert(self.orders@.take(i as int) =~= self.orders@);
        Level { price: self.price, orders }
    }
}

/// Whether price `a` has priority over price `b`: the higher one among bids
/// (`desc`), the lower one among asks.
pub open spec fn ahead(a: Decimal, b: Decimal, desc: bool) -> bool {
    if desc {
        a.value() > b.value()
    } else {
        a.value() < b.value()
    }
}

/// The side of the orders that rest among bids (`desc`) or among asks.
pub open spec fn resting_side(desc: bool) -> Side {
    if desc {
        Side::Buy
    } else {
        Side::Sell
    }
}

/// An order that may rest at a level of the given price.
pub open spec fn may_rest(o: Order, price: Decimal, desc: bool) -> bool {
    &&& o.quantity.valid() && o.price.valid()
    &&& o.quantity.value() > 0
    &&& o.price.value() == price.value()
    &&& o.side == resting_side(desc)
}

/// A level that may be part of a side: never empty, and of its own price.
pub open spec fn good_level(l: LevelView, desc: bool) -> bool {
    &&& l.orders.len() > 0
    &&& forall|i: int| 0 <= i < l.orders.len() ==> may_rest(#[trigger] l.orders[i], l.price, desc)
}

/// The levels of a side: all good, in strict order of price priority.
pub open spec fn good_side(levels: Seq<LevelView>, desc: bool) -> bool {
    &&& forall|i: int| 0 <= i < levels.len() ==> good_level(#[trigger] levels[i], desc)
    &&& forall|i: int, j: int|
        #![trigger levels[i], levels[j]]
        0 <= i < j < levels.len() ==> ahead(levels[i].price, levels[j].price, desc)
}

/// The orders of some levels in the order in which they are served: by price
/// priority, and by arrival within a price.
pub open spec fn queue(levels: Seq<LevelView>) -> Seq<Order>
    decreases levels.len(),
{
    if levels.len() == 0 {
        Seq::empty()
    } else {
        levels[0].orders + queue(levels.drop_first())
    }
}

/// A level behind all others is served last.
pub proof fn lemma_queue_push(levels: Seq<LevelView>, level: LevelView)
    ensures
        queue(levels.push(level)) == queue(levels) + level.orders,
    decreases levels.len(),
{
    let more = levels.push(level);
    if levels.len() > 0 {
        assert(more.drop_first() =~= levels.drop_first().push(level));
        lemma_queue_push(levels.drop_first(), level);
        assert(queue(more) =~= queue(levels) + level.orders);
    } else {
        assert(more.drop_first() =~= levels);
        assert(queue(levels) =~= Seq::<Order>::empty());
        assert(queue(more) =~= queue(levels) + level.orders);
    }
}

/// The levels after an order has joined the back of the queue at its price.
pub open spec fn placed(levels: Seq<LevelView>, order: Order, desc: bool) -> Seq<LevelView>
    decreases levels.len(),
{
    if levels.len() == 0 || ahead(order.price, levels[0].price, desc) {
        seq![LevelView { price: order.price, orders: seq![order] }] + levels
    } else if levels[0].price.value() == order.price.value() {
        seq![LevelView { price: levels[0].price, orders: levels[0].orders.push(order) }]
            + levels.drop_first()
    } else {
        seq![levels[0]] + placed(levels.drop_first(), order, desc)
    }
}

/// Where the levels before `k` are ahead of the order's price and the one at `k`
/// is not, that is where the order goes.
pub proof fn lemma_placed_at(levels: Seq<LevelView>, order: Order, desc: bool, k: int)
    requires
        0 <= k <= levels.len(),
        forall|i: int|
            0 <= i < k ==> ahead((#[trigger] levels[i]).price, order.price, desc),
        k < levels.len() ==> !ahead(levels[k].price, order.price, desc),
    ensures
        placed(levels, order, desc) == if k < levels.len() && levels[k].price.value()
            == order.price.value() {
            levels.update(
                k,
                LevelView { price: levels[k].price, orders: levels[k].orders.push(order) },
            )
        } else {
            levels.insert(k, LevelView { price: order.price, orders: seq![order] })
        },
    decreases k,
{
    let rest = levels.drop_first();
    if k > 0 {
        assert(ahead(levels[0].price, order.price, desc));
        assert forall|i: int| 0 <= i < k - 1 implies ahead(
            (#[trigger] rest[i]).price,
            order.price,
            desc,
        ) by {
            assert(rest[i] == levels[i + 1]);
        }
        lemma_placed_at(rest, order, desc, k - 1);
    }
    let new = LevelView { price: order.price, orders: seq![order] };
    if k < levels.len() && levels[k].price.value() == order.price.value() {
        let joined = LevelView { price: levels[k].price, orders: levels[k].orders.push(order) };
        if k > 0 {
            assert(seq![levels[0]] + rest.update(k - 1, joined) =~= levels.update(k, joined));
        } else {
            assert(seq![joined] + rest =~= levels.update(k, joined));
        }
    } else {
        if k > 0 {
            assert(seq![levels[0]] + rest.insert(k - 1, new) =~= levels.insert(k, new));
        } else {
            assert(seq![new] + levels =~= levels.insert(0, new));
        }
    }
}

/// One side of a book: bids where `DESC` holds, asks otherwise. The level with
/// the best price comes first, and no level is empty.
#[derive(Debug)]
pub struct BookSide<const DESC: bool> {
    levels: Vec<Level>,
}

/// Resting orders to buy, highest price first.
pub type Bids = BookSide<true>;

/// Resting orders to sell, lowest price first.
pub type Asks = BookSide<false>;

pub open spec fn level_views(levels: Seq<Level>) -> Seq<LevelView> {
    levels.map_values(|l: Level| l@)
}

impl<const DESC: bool> View for BookSide<DESC> {
    type V = Seq<LevelView>;

    closed spec fn view(&self) -> Seq<LevelView> {
        level_views(self.levels@)
    }
}

impl<const DESC: bool> Clone for BookSide<DESC> {
    fn clone(&self) -> (r: Self)
        ensures
            r@ == self@,
    {
        proof {
            use_type_invariant(self);
        }
        let mut levels: Vec<Level> = Vec::new();
        let mut i: usize = 0;
        while i < self.levels.len()
            invariant
                i <= self.levels@.len(),
                level_views(levels@) == self@.take(i as int),
            decreases self.levels@.len() - i,
        {
            let ghost copied = level_views(levels@);
            let level = self.levels[i].clone();
            levels.push(level);
            assert(level_views(levels@) =~= copied.push(level@));
            assert(self@.take(i + 1) =~= self@.take(i as int).push(self@[i as int]));
            i += 1;
        }
        assert(self@.take(i as int) =~= self@);
        BookSide { levels }
    }
}

/// Whether price `a` has priority over price `b`.
fn has_priority(a: &Price, b: &Price, desc: bool) -> (r: bool)
    ensures
        r == ahead(*a, *b, desc),
{
    if desc {
        b.less_than(a)
    } else {
        a.less_than(b)
    }
}

impl<const DESC: bool> BookSide<DESC> {
    #[verifier::type_invariant]
    spec fn in_order(self) -> bool {
        good_side(level_views(self.levels@), DESC)
    }

    /// A side with no orders.
    pub fn new() -> (r: Self)
        ensures
            r@ == Seq::<LevelView>::empty(),
    {
        let r = BookSide { levels: Vec::new() };
        assert(r@ =~= Seq::<LevelView>::empty());
        r
    }

    /// Every side at run time is in order.
    pub fn known_good(&self)
        ensures
            good_side(self@, DESC),
    {
        proof {
            use_type_invariant(self);
        }
    }

    /// The number of price levels.
    pub fn len(&self) -> (r: usize)
        ensures
            r == self@.len(),
    {
        self.levels.len()
    }

    /// Whether no order rests on this side.
    pub fn is_empty(&self) -> (r: bool)
        ensures
            r == (self@.len() == 0),
    {
        self.levels.len() == 0
    }

    /// The level at the given rank, best price first.
    pub fn level_at(&self, i: usize) -> (r: &Level)
        requires
            i < self@.len(),
        ensures
            r@ == self@[i as int],
    {
        &self.levels[i]
    }

    /// The orders that rest at a price, if there are any.
    pub fn get(&self, price: &Price) -> (r: Option<&PriceLevel>)
        ensures
            match r {
                Some(orders) => exists|i: int|
                    0 <= i < self@.len() && (#[trigger] self@[i]).price.value() == price.value()
                        && self@[i].orders == orders@,
                None => forall|i: int|
                    0 <= i < self@.len() ==> (#[trigger] self@[i]).price.value()
                        != price.value(),
            },
    {
        let mut i: usize = 0;
        while i < self.levels.len()
            invariant
                i <= self.levels@.len(),
                forall|j: int|
                    0 <= j < i ==> (#[trigger] self@[j]).price.value() != price.value(),
            decreases self.levels@.len() - i,
        {
            if self.levels[i].price == *price {
                assert(self@[i as int].orders == self.levels@[i as int].orders@);
                return Some(&self.levels[i].orders);
            }
            i += 1;
        }
        None
    }

    /// The best price, if any order rests here.
    pub fn best_price(&self) -> (r: Option<Price>)
        ensures
            match r {
                Some(p) => self@.len() > 0 && p == self@[0].price,
                None => self@.len() == 0,
            },
    {
        if self.levels.len() == 0 {
            None
        } else {
            Some(self.levels[0].price)
        }
    }

    /// Takes the best level off the side.
    pub fn take_best(&mut self) -> (r: Level)
        requires
            old(self)@.len() > 0,
        ensures
            r@ == old(self)@[0],
            final(self)@ == old(self)@.drop_first(),
    {
        proof {
            use_type_invariant(&*self);
        }
        let mut levels: Vec<Level> = Vec::new();
        std::mem::swap(&mut levels, &mut self.levels);
        let best = levels.remove(0);
        assert(level_views(levels@) =~= old(self)@.drop_first());
        self.levels = levels;
        best
    }

    /// Puts a level back in front of the side.
    pub fn restore_best(&mut self, level: Level)
        requires
            good_side(seq![level@] + old(self)@, DESC),
        ensures
            final(self)@ == seq![level@] + old(self)@,
    {
        let mut levels: Vec<Level> = Vec::new();
        std::mem::swap(&mut levels, &mut self.levels);
        levels.insert(0, level);
        assert(level_views(levels@) =~= seq![level@] + old(self)@);
        self.levels = levels;
    }

    /// Lets an order join the back of the queue at its price.
    pub fn place(&mut self, order: Order)
        requires
            order.quantity.value() > 0,
            order.side == resting_side(DESC),
        ensures
            final(self)@ == placed(old(self)@, order, DESC),
    {
        proof {
            use_type_invariant(&*self);
        }
        order.price.known_valid();
        order.quantity.known_valid();
        let mut levels: Vec<Level> = Vec::new();
        std::mem::swap(&mut levels, &mut self.levels);
        let ghost before = level_views(levels@);
        let mut i: usize = 0;
        while i < levels.len() && has_priority(&levels[i].price, &order.price, DESC)
            invariant
                i <= levels@.len(),
                before == level_views(levels@),
                forall|j: int|
                    0 <= j < i ==> ahead((#[trigger] before[j]).price, order.price, DESC),
            decreases levels@.len() - i,
        {
            assert(before[i as int] == levels@[i as int]@);
            i += 1;
        }
        proof {
            lemma_placed_at(before, order, DESC, i as int);
        }
        if i < levels.len() && levels[i].price == order.price {
            assert(before[i as int] == levels@[i as int]@);
            let mut level = levels.remove(i);
            level.orders.push_back(order);
            levels.insert(i, level);
            assert(level_views(levels@) =~= before.update(
                i as int,
                LevelView {
                    price: before[i as int].price,
                    orders: before[i as int].orders.push(order),
                },
            ));
            assert(good_side(level_views(levels@), DESC));
        } else {
            let mut orders: PriceLevel = VecDeque::new();
            orders.push_back(order);
            levels.insert(i, Level { price: order.price, orders });
            assert(orders@ =~= seq![order]);
            assert(level_views(levels@) =~= before.insert(
                i as int,
                LevelView { price: order.price, orders: seq![order] },
            ));
            assert(good_side(level_views(levels@), DESC));
        }
        self.levels = levels;
    }
}

/// The model of an [`OrderBook`].
pub struct BookView {
    pub bids: Seq<LevelView>,
    pub asks: Seq<LevelView>,
    pub next_trade_id: nat,
}

/// In-memory order book used by the matching engine.
#[derive(Debug)]
pub struct OrderBook {
    pub bids: Bids,
    pub asks: Asks,
    pub next_trade_id: u64,
}

impl View for OrderBook {
    type V = BookView;

    open spec fn view(&self) -> BookView {
        BookView {
            bids: self.bids@,
            asks: self.asks@,
            next_trade_id: self.next_trade_id as nat,
        }
    }
}

impl Clone for OrderBook {
    fn clone(&self) -> (r: OrderBook)
        ensures
            r@ == self@,
    {
        OrderBook {
            bids: self.bids.clone(),
            asks: self.asks.clone(),
            next_trade_id: self.next_trade_id,
        }
    }
}

/// The book with no orders, before the first trade.
pub open spec fn empty_book() -> BookView {
    BookView { bids: Seq::empty(), asks: Seq::empty(), next_trade_id: 0 }
}

/// A book whose sides are in order, as those of every book at run time are.
pub open spec fn good_book(book: BookView) -> bool {
    good_side(book.bids, true) && good_side(book.asks, false)
}

impl OrderBook {
    /// Create an empty order book.
    pub fn new() -> (r: Self)
        ensures
            r@ == empty_book(),
    {
        OrderBook { bids: BookSide::new(), asks: BookSide::new(), next_trade_id: 0 }
    }

    /// Every book at run time is in order.
    pub fn known_good(&self)
        ensures
            good_book(self@),
    {
        self.bids.known_good();
        self.asks.known_good();
    }
}

} // verus!
