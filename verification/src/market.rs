//! A market: an order book that takes orders for as long as trades can be numbered.
use crate::book::{empty_book, good_book, queue, BookView, OrderBook};
use crate::engine::{
    book_after, events_of, leavers_filled, matched, opposite, swept_book, MatchingEngine,
};
use crate::engine_laws::{law_trade_numbers_paced, lemma_nothing_rests, resting, uncrossed};
use crate::types::{MarketEvent, Order};
use vstd::prelude::*;

verus! {

/// An order book together with the number of orders that it was given. As trade
/// numbers are used up no faster than orders come in, it can take `2^64 - 1` of them.
#[derive(Debug)]
pub struct Market {
    book: OrderBook,
    taken: u64,
}

impl View for Market {
    type V = BookView;

    closed spec fn view(&self) -> BookView {
        self.book@
    }
}

impl Market {
    #[verifier::type_invariant]
    spec fn paced(self) -> bool {
        self.book@.next_trade_id + resting(self.book@) <= self.taken && uncrossed(self.book@)
    }

    /// The number of orders that the market was given.
    pub closed spec fn orders_taken(&self) -> nat {
        self.taken as nat
    }

    /// A market without orders.
    pub fn new() -> (r: Market)
        ensures
            r@ == empty_book(),
            r.orders_taken() == 0,
    {
        let book = OrderBook::new();
        proof {
            lemma_nothing_rests();
        }
        Market { book, taken: 0 }
    }

    /// The order book: it is in order and not crossed.
    pub fn book(&self) -> (r: &OrderBook)
        ensures
            r@ == self@,
            good_book(r@),
            uncrossed(r@),
    {
        self.book.known_good();
        proof {
            use_type_invariant(self);
        }
        &self.book
    }

    /// Matches an order and returns the events. Where the market has taken as many
    /// orders as it can, nothing changes and there is no answer.
    pub fn submit(&mut self, order: Order) -> (r: Option<Vec<MarketEvent>>)
        ensures
            match r {
                Some(events) => {
                    &&& old(self).orders_taken() < u64::MAX
                    &&& final(self)@ == book_after(old(self)@, order)
                    &&& final(self).orders_taken() == old(self).orders_taken() + 1
                    &&& events@ == events_of(old(self)@, order)
                    &&& leavers_filled(
                        queue(opposite(old(self)@, order.side)),
                        matched(old(self)@, order).trades,
                        queue(opposite(swept_book(old(self)@, order), order.side)),
                    )
                },
                None => {
                    &&& old(self).orders_taken() == u64::MAX
                    &&& final(self)@ == old(self)@
                    &&& final(self).orders_taken() == old(self).orders_taken()
                },
            },
    {
        if self.taken == u64::MAX {
            return None;
        }
        proof {
            use_type_invariant(&*self);
        }
        let mut book = OrderBook::new();
        proof {
            lemma_nothing_rests();
        }
        std::mem::swap(&mut book, &mut self.book);
        book.known_good();
        order.quantity.known_valid();
        proof {
            law_trade_numbers_paced(book@, order);
        }
        let events = book.process_order(order);
        self.taken = self.taken + 1;
        self.book = book;
        Some(events)
    }
}

} // verus!
