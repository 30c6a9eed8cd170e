//! The order book of one instrument.

use vstd::prelude::*;
use crate::clock::current_timestamp;
use crate::ledger::{
    depth_from_high, depth_from_low, depth_view, lemma_locate, lemma_queue_find,
    lemma_without_order_wf, locate, with_order, without_order, Ledger,
};
use crate::matching::{lemma_fill_shrinks, BookView, Fill};
use crate::order::{Order, OrderView, Price, Side, Trade};

verus! {

impl BookView {
    /// A book of the given name and tag in which nothing rests.
    pub open spec fn empty(market_id: Seq<char>, yes: bool) -> BookView {
        BookView { market_id, yes, bids: Seq::empty(), asks: Seq::empty() }
    }

    /// The book after `order` has joined the side that it names.
    pub open spec fn with_order(self, order: OrderView) -> BookView {
        match order.side {
            Side::Buy => BookView { bids: with_order(self.bids, order), ..self },
            Side::Sell => BookView { asks: with_order(self.asks, order), ..self },
        }
    }

    /// Whether an order with this id rests on either side.
    pub open spec fn holds(self, id: u64) -> bool {
        locate(self.bids, id) is Some || locate(self.asks, id) is Some
    }

    /// The book after the first order with this id has left it. The bid side
    /// is searched before the ask side; a book that holds no such order
    /// stays as it is.
    pub open spec fn without(self, id: u64) -> BookView {
        match locate(self.bids, id) {
            Some((i, j)) => BookView { bids: without_order(self.bids, i, j), ..self },
            None => match locate(self.asks, id) {
                Some((i, j)) => BookView { asks: without_order(self.asks, i, j), ..self },
                None => self,
            },
        }
    }
}

/// Taking an order out of a book that is not crossed leaves it not crossed:
/// the best bid can only fall and the best ask can only rise.
pub proof fn lemma_without_stays_uncrossed(book: BookView, id: u64)
    requires
        book.wf(),
        !book.crossed(),
    ensures
        book.without(id).wf(),
        !book.without(id).crossed(),
{
    lemma_locate(book.bids, id);
    lemma_locate(book.asks, id);
    match locate(book.bids, id) {
        Some((i, j)) => {
            lemma_queue_find(book.bids[i].orders, id);
            lemma_without_order_wf(book.bids, i, j);
            let after = without_order(book.bids, i, j);
            if after.len() > 0 && book.asks.len() > 0 {
                let last = book.bids.len() - 1;
                if book.bids[i].orders.len() == 1 && i == last {
                    assert(after.last() == book.bids[last - 1]);
                    assert(book.bids[last - 1].price < book.bids[last].price);
                } else {
                    assert(after.last().price == book.bids[last].price);
                }
            }
        },
        None => match locate(book.asks, id) {
            Some((i, j)) => {
                lemma_queue_find(book.asks[i].orders, id);
                lemma_without_order_wf(book.asks, i, j);
                let after = without_order(book.asks, i, j);
                if after.len() > 0 && book.bids.len() > 0 {
                    if book.asks[i].orders.len() == 1 && i == 0 {
                        assert(after.first() == book.asks[1]);
                        assert(book.asks[0].price < book.asks[1].price);
                    } else {
                        assert(after.first().price == book.asks[0].price);
                    }
                }
            },
            None => {},
        },
    }
}

/// Whether `trades` report `fills`, one for one and in order, as trades of
/// market `market_id`. The time each trade carries is left open.
pub open spec fn reports(trades: Seq<Trade>, fills: Seq<Fill>, market_id: Seq<char>) -> bool {
    &&& trades.len() == fills.len()
    &&& forall|k: int|
        0 <= k < trades.len() ==> (#[trigger] trades[k])@ == fills[k].as_trade(
            market_id,
            trades[k].timestamp,
        )
}

/// The resting orders of one instrument: bids and asks, each grouped by
/// price and queued by arrival.
pub struct OrderBook {
    pub yes: bool,
    pub bids: Ledger,
    pub asks: Ledger,
    pub market_id: String,
}

impl View for OrderBook {
    type V = BookView;

    open spec fn view(&self) -> BookView {
        BookView { market_id: self.market_id@, yes: self.yes, bids: self.bids@, asks: self.asks@ }
    }
}

impl OrderBook {
    /// An empty book for the instrument `market_id`.
    pub fn new(market_id: &str, yes: bool) -> (book: OrderBook)
        ensures
            book@ == BookView::empty(market_id@, yes),
            book@.wf(),
    {
        OrderBook { yes, bids: Ledger::new(), asks: Ledger::new(), market_id: market_id.to_string() }
    }

    /// Rests `order` at the back of the queue at its price, on the side it
    /// names. Nothing is matched.
    pub fn add_order(&mut self, order: Order)
        ensures
            final(self)@ == old(self)@.with_order(order@),
            final(self)@.wf(),
    {
        match order.side {
            Side::Buy => self.bids.insert(order),
            Side::Sell => self.asks.insert(order),
        }
        proof {
            use_type_invariant(&self.bids);
            use_type_invariant(&self.asks);
        }
    }

    /// Takes the first order with this id out of the book and says whether
    /// there was one.
    pub fn cancel_order(&mut self, order_id: u64) -> (cancelled: bool)
        ensures
            cancelled == old(self)@.holds(order_id),
            final(self)@ == old(self)@.without(order_id),
            final(self)@.wf(),
    {
        let cancelled = if self.bids.remove(order_id) {
            true
        } else {
            self.asks.remove(order_id)
        };
        proof {
            use_type_invariant(&self.bids);
            use_type_invariant(&self.asks);
        }
        cancelled
    }

    /// The best ask price, where the best bid reaches it.
    fn crossing_price(&self) -> (price: Option<Price>)
        ensures
            match price {
                Some(p) => self@.crossed() && p@ == self@.asks.first().price,
                None => !self@.crossed(),
            },
    {
        match (self.bids.highest_price(), self.asks.lowest_price()) {
            (Some(bid), Some(ask)) => if bid.0 >= ask.0 {
                Some(ask)
            } else {
                None
            },
            _ => None,
        }
    }

    /// Whether the best bid reaches the best ask.
    pub fn is_crossed(&self) -> (crossed: bool)
        ensures
            crossed == self@.crossed(),
    {
        self.crossing_price().is_some()
    }

    /// Makes the next execution that the book owes, if it is crossed, and
    /// reports it as a trade stamped `timestamp`.
    pub fn match_once(&mut self, timestamp: u64) -> (trade: Option<Trade>)
        ensures
            match trade {
                Some(t) => old(self)@.crossed() && t@ == old(self)@.next_fill().as_trade(
                    old(self)@.market_id,
                    timestamp,
                ) && final(self)@ == old(self)@.after_fill(),
                None => !old(self)@.crossed() && final(self)@ == old(self)@,
            },
            final(self)@.wf(),
    {
        proof {
            use_type_invariant(&self.bids);
            use_type_invariant(&self.asks);
        }
        let price = match self.crossing_price() {
            Some(price) => price,
            None => {
                return None;
            },
        };
        let top = self.bids.len() - 1;
        let bid = self.bids.head(top);
        let ask = self.asks.head(0);
        let qty = if bid.qty <= ask.qty {
            bid.qty
        } else {
            ask.qty
        };
        let trade = Trade {
            buyer: bid.user.clone(),
            seller: ask.user.clone(),
            qty,
            price,
            market_id: self.market_id.clone(),
            timestamp,
        };
        self.bids.fill(top, qty);
        self.asks.fill(0, qty);
        proof {
            use_type_invariant(&self.bids);
            use_type_invariant(&self.asks);
        }
        Some(trade)
    }

    /// Matches until the book is crossed no more and returns the trades in
    /// the order they were made, each stamped with the time of its making.
    pub fn match_orders(&mut self) -> (trades: Vec<Trade>)
        ensures
            final(self)@ == old(self)@.settled(),
            reports(trades@, old(self)@.fills(), old(self)@.market_id),
            final(self)@.wf(),
            !final(self)@.crossed(),
    {
        let mut trades: Vec<Trade> = Vec::new();
        let ghost start = self@;
        loop
            invariant
                self@.settled() == start.settled(),
                self@.market_id == start.market_id,
                trades@.len() + self@.fills().len() == start.fills().len(),
                forall|k: int|
                    0 <= k < trades@.len() ==> (#[trigger] trades@[k])@ == start.fills()[k].as_trade(
                        start.market_id,
                        trades@[k].timestamp,
                    ),
                forall|k: int|
                    0 <= k < self@.fills().len() ==> self@.fills()[k] == start.fills()[trades@.len()
                        + k],
            ensures
                self@ == start.settled(),
                reports(trades@, start.fills(), start.market_id),
                self@.wf(),
                !self@.crossed(),
            decreases self@.bids.len() + self@.asks.len(), self@.at_best(),
        {
            proof {
                use_type_invariant(&self.bids);
                use_type_invariant(&self.asks);
            }
            let ghost before = self@;
            let now = current_timestamp();
            match self.match_once(now) {
                Some(trade) => {
                    proof {
                        lemma_fill_shrinks(before);
                        assert(before.fills() == seq![before.next_fill()]
                            + before.after_fill().fills());
                        assert(before.fills()[0] == before.next_fill());
                        assert forall|k: int| 0 <= k < self@.fills().len() implies self@.fills()[k]
                            == start.fills()[trades@.len() + 1 + k] by {
                            assert(self@.fills()[k] == before.fills()[k + 1]);
                        }
                    }
                    trades.push(trade);
                },
                None => {
                    break ;
                },
            }
        }
        trades
    }

    /// The best bid and the best ask. An empty bid side reads as price zero,
    /// an empty ask side as the price of certainty.
    pub fn get_top_of_book(&self) -> (top: (Price, Price))
        ensures
            top.0@ == self@.best_bid(),
            top.1@ == self@.best_ask(),
    {
        let best_bid = match self.bids.highest_price() {
            Some(price) => price,
            None => Price::zero(),
        };
        let best_ask = match self.asks.lowest_price() {
            Some(price) => price,
            None => Price::one(),
        };
        (best_bid, best_ask)
    }

    /// Up to `levels` price levels of each side, best first, each with the
    /// quantity open at it: bids from the highest price down, asks from the
    /// lowest price up.
    pub fn get_order_book_depth(&self, levels: usize) -> (depth: (
        Vec<(Price, u128)>,
        Vec<(Price, u128)>,
    ))
        ensures
            depth_view(depth.0@) == depth_from_high(self@.bids, levels as nat),
            depth_view(depth.1@) == depth_from_low(self@.asks, levels as nat),
    {
        (self.bids.depth_high(levels), self.asks.depth_low(levels))
    }
}

} // verus!
