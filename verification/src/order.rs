//! Orders, trades and the prices they carry.

use vstd::prelude::*;

verus! {

/// The price that stands for certainty: one whole unit of probability.
pub const PRICE_ONE: u64 = 1_000_000;

/// Which side of the book an order rests on.
#[derive(Clone, Copy, Debug, PartialEq, Eq, PartialOrd, Ord, Hash, Structural)]
pub enum Side {
    Buy,
    Sell,
}

/// A limit price, in millionths of one unit of probability.
///
/// Prices are ordered by the integer they hold.
#[derive(Clone, Copy, Debug, PartialEq, Eq, PartialOrd, Ord, Hash, Structural)]
pub struct Price(pub u64);

impl View for Price {
    type V = nat;

    open spec fn view(&self) -> nat {
        self.0 as nat
    }
}

impl Price {
    /// The lowest price, reported as best bid when nobody bids.
    pub fn zero() -> (p: Price)
        ensures
            p@ == 0,
    {
        Price(0)
    }

    /// The highest price of the probability range, reported as best ask when
    /// nobody offers.
    pub fn one() -> (p: Price)
        ensures
            p@ == PRICE_ONE,
    {
        Price(PRICE_ONE)
    }
}

/// A limit order. Only `qty`, the quantity still open, changes while the
/// order rests in a book.
#[derive(Clone, Debug)]
pub struct Order {
    pub id: u64,
    pub user: String,
    pub side: Side,
    pub price: Price,
    pub qty: u64,
    pub timestamp: u64,
}

/// What an order is, as a mathematical value.
pub struct OrderView {
    pub id: u64,
    pub user: Seq<char>,
    pub side: Side,
    pub price: nat,
    pub qty: nat,
    pub timestamp: u64,
}

impl View for Order {
    type V = OrderView;

    open spec fn view(&self) -> OrderView {
        OrderView {
            id: self.id,
            user: self.user@,
            side: self.side,
            price: self.price@,
            qty: self.qty as nat,
            timestamp: self.timestamp,
        }
    }
}

impl OrderView {
    /// The same order with `q` of its open quantity filled.
    pub open spec fn filled(self, q: nat) -> OrderView
        recommends
            q <= self.qty,
    {
        OrderView { qty: (self.qty - q) as nat, ..self }
    }
}

/// The record of one execution between a bid and an ask.
#[derive(Clone, Debug)]
pub struct Trade {
    pub buyer: String,
    pub seller: String,
    pub qty: u64,
    pub price: Price,
    pub market_id: String,
    pub timestamp: u64,
}

/// What a trade is, as a mathematical value.
pub struct TradeView {
    pub buyer: Seq<char>,
    pub seller: Seq<char>,
    pub qty: nat,
    pub price: nat,
    pub market_id: Seq<char>,
    pub timestamp: u64,
}

impl View for Trade {
    type V = TradeView;

    open spec fn view(&self) -> TradeView {
        TradeView {
            buyer: self.buyer@,
            seller: self.seller@,
            qty: self.qty as nat,
            price: self.price@,
            market_id: self.market_id@,
            timestamp: self.timestamp,
        }
    }
}

} // verus!
