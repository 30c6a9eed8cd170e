//! What matching does to a book, as mathematics.
//!
//! A book is crossed while its best bid is priced at or above its best ask.
//! Matching executes the oldest order of the best bid level against the
//! oldest order of the best ask level, at the ask's price, until the book is
//! crossed no more.

use vstd::prelude::*;
use crate::ledger::{fill_head, lemma_fill_head_wf, levels_wf, LevelView};
use crate::order::{OrderView, TradeView, PRICE_ONE};

verus! {

/// The mathematical value of an order book: both sides in ascending price.
pub struct BookView {
    pub market_id: Seq<char>,
    pub yes: bool,
    pub bids: Seq<LevelView>,
    pub asks: Seq<LevelView>,
}

/// One execution: the two orders as they stood just before it, the
/// quantity that changed hands and the price it changed hands at.
pub struct Fill {
    pub bid: OrderView,
    pub ask: OrderView,
    pub qty: nat,
    pub price: nat,
}

impl Fill {
    /// The trade that reports this execution in market `market_id` at time
    /// `timestamp`.
    pub open spec fn as_trade(self, market_id: Seq<char>, timestamp: u64) -> TradeView {
        TradeView {
            buyer: self.bid.user,
            seller: self.ask.user,
            qty: self.qty,
            price: self.price,
            market_id,
            timestamp,
        }
    }
}

impl BookView {
    /// Both sides are well-formed ledgers.
    pub open spec fn wf(self) -> bool {
        levels_wf(self.bids) && levels_wf(self.asks)
    }

    /// Both sides hold orders and the best bid reaches the best ask.
    pub open spec fn crossed(self) -> bool {
        &&& self.bids.len() > 0
        &&& self.asks.len() > 0
        &&& self.bids.last().price >= self.asks.first().price
    }

    /// The highest bid price, or zero where nobody bids.
    pub open spec fn best_bid(self) -> nat {
        if self.bids.len() == 0 {
            0
        } else {
            self.bids.last().price
        }
    }

    /// The lowest ask price, or the price of certainty where nobody offers.
    pub open spec fn best_ask(self) -> nat {
        if self.asks.len() == 0 {
            PRICE_ONE as nat
        } else {
            self.asks.first().price
        }
    }

    /// The oldest order of the best bid level.
    pub open spec fn top_bid(self) -> OrderView
        recommends
            self.bids.len() > 0,
    {
        self.bids.last().orders.first()
    }

    /// The oldest order of the best ask level.
    pub open spec fn top_ask(self) -> OrderView
        recommends
            self.asks.len() > 0,
    {
        self.asks.first().orders.first()
    }

    /// The execution that a crossed book owes next: the two top orders
    /// trade the smaller of their open quantities at the best ask price.
    pub open spec fn next_fill(self) -> Fill
        recommends
            self.crossed(),
    {
        let bid = self.top_bid();
        let ask = self.top_ask();
        Fill {
            bid,
            ask,
            qty: if bid.qty <= ask.qty {
                bid.qty
            } else {
                ask.qty
            },
            price: self.asks.first().price,
        }
    }

    /// The book after its next execution.
    pub open spec fn after_fill(self) -> BookView
        recommends
            self.crossed(),
    {
        let qty = self.next_fill().qty;
        BookView {
            bids: fill_head(self.bids, self.bids.len() - 1, qty),
            asks: fill_head(self.asks, 0, qty),
            ..self
        }
    }

    /// How many orders wait in the two best levels together.
    pub open spec fn at_best(self) -> nat {
        let bids = if self.bids.len() > 0 {
            self.bids.last().orders.len()
        } else {
            0
        };
        let asks = if self.asks.len() > 0 {
            self.asks.first().orders.len()
        } else {
            0
        };
        bids + asks
    }

    /// The book once matching has run to its end.
    pub open spec fn settled(self) -> BookView
        decreases self.bids.len() + self.asks.len(), self.at_best(),
        via Self::settled_decreases
    {
        if self.wf() && self.crossed() {
            self.after_fill().settled()
        } else {
            self
        }
    }

    /// The executions that matching makes, in the order it makes them.
    pub open spec fn fills(self) -> Seq<Fill>
        decreases self.bids.len() + self.asks.len(), self.at_best(),
        via Self::fills_decreases
    {
        if self.wf() && self.crossed() {
            seq![self.next_fill()] + self.after_fill().fills()
        } else {
            Seq::empty()
        }
    }

    #[via_fn]
    proof fn settled_decreases(self) {
        if self.wf() && self.crossed() {
            lemma_fill_shrinks(self);
        }
    }

    #[via_fn]
    proof fn fills_decreases(self) {
        if self.wf() && self.crossed() {
            lemma_fill_shrinks(self);
        }
    }
}

/// An execution takes at least one order off the book: either a level
/// leaves, or one of the two best queues gets shorter and none longer.
pub proof fn lemma_fill_shrinks(book: BookView)
    requires
        book.wf(),
        book.crossed(),
    ensures
        book.after_fill().wf(),
        book.after_fill().bids.len() + book.after_fill().asks.len() < book.bids.len()
            + book.asks.len() || (book.after_fill().bids.len() + book.after_fill().asks.len()
            == book.bids.len() + book.asks.len() && book.after_fill().at_best() < book.at_best()),
{
    let qty = book.next_fill().qty;
    lemma_fill_head_wf(book.bids, book.bids.len() - 1, qty);
    lemma_fill_head_wf(book.asks, 0, qty);
    assert(book.bids.last().orders.len() > 0);
    assert(book.asks.first().orders.len() > 0);
}

/// Matching changes neither the name nor the tag of a book.
pub proof fn lemma_settled_same_market(book: BookView)
    ensures
        book.settled().market_id == book.market_id,
        book.settled().yes == book.yes,
    decreases book.bids.len() + book.asks.len(), book.at_best(),
{
    if book.wf() && book.crossed() {
        lemma_fill_shrinks(book);
        lemma_settled_same_market(book.after_fill());
    }
}

/// Matching leaves a well-formed book that is crossed no more.
pub proof fn lemma_settled_uncrossed(book: BookView)
    requires
        book.wf(),
    ensures
        book.settled().wf(),
        !book.settled().crossed(),
    decreases book.bids.len() + book.asks.len(), book.at_best(),
{
    if book.crossed() {
        lemma_fill_shrinks(book);
        lemma_settled_uncrossed(book.after_fill());
    }
}

} // verus!
