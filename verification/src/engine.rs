//! The matching engine: a registry of binary markets, each with a YES book
//! and a NO book.

use vstd::prelude::*;
use vstd::string::StringExecFns;
use crate::book::reports;
use crate::ledger::{depth_from_high, depth_from_low, depth_view};
use crate::matching::{BookView, Fill};
use crate::order::{Order, OrderView, Price, Trade};
use crate::registry::{books_sound, with_book, MarketRegistry};

verus! {

/// Why the engine turned a call down.
#[derive(Clone, Copy, Debug, PartialEq, Eq, Structural)]
pub enum EngineError {
    /// No book is filed under the instrument name that was given.
    MarketNotFound,
}

/// The name of the YES book of a market.
pub open spec fn yes_key(market_id: Seq<char>) -> Seq<char> {
    market_id + "_YES"@
}

/// The name of the NO book of a market.
pub open spec fn no_key(market_id: Seq<char>) -> Seq<char> {
    market_id + "_NO"@
}

/// The books once the market has both of its books: each is opened empty
/// unless it is there already.
pub open spec fn with_market(books: Map<Seq<char>, BookView>, market_id: Seq<char>) -> Map<
    Seq<char>,
    BookView,
> {
    with_book(with_book(books, yes_key(market_id), true), no_key(market_id), false)
}

/// The book filed under `key`, or the empty book that would be opened there.
pub open spec fn opened(books: Map<Seq<char>, BookView>, key: Seq<char>, yes: bool) -> BookView {
    with_book(books, key, yes)[key]
}

/// The books after `order` has been rested in the book under `key` and that
/// book has been matched.
pub open spec fn placed(books: Map<Seq<char>, BookView>, key: Seq<char>, order: OrderView) -> Map<
    Seq<char>,
    BookView,
>
    recommends
        books.contains_key(key),
{
    books.insert(key, books[key].with_order(order).settled())
}

/// The executions that resting `order` in the book under `key` sets off.
pub open spec fn executions(
    books: Map<Seq<char>, BookView>,
    key: Seq<char>,
    order: OrderView,
) -> Seq<Fill>
    recommends
        books.contains_key(key),
{
    books[key].with_order(order).fills()
}

/// The books after the first order with this id has left the book under
/// `key`; unchanged where no book is filed there.
pub open spec fn cancelled(books: Map<Seq<char>, BookView>, key: Seq<char>, order_id: u64) -> Map<
    Seq<char>,
    BookView,
> {
    if books.contains_key(key) {
        books.insert(key, books[key].without(order_id))
    } else {
        books
    }
}

/// The two books of a market never share a name, no YES book shares its
/// name with the NO book of another market, and markets with different
/// names have different books.
pub proof fn lemma_book_names(a: Seq<char>, b: Seq<char>)
    ensures
        yes_key(a) != no_key(b),
        yes_key(a) == yes_key(b) ==> a == b,
        no_key(a) == no_key(b) ==> a == b,
{
    reveal_strlit("_YES");
    reveal_strlit("_NO");
    assert(yes_key(a).last() == 'S');
    assert(no_key(b).last() == 'O');
    if yes_key(a) == yes_key(b) {
        assert(a.len() == b.len());
        assert forall|i: int| 0 <= i < a.len() implies a[i] == b[i] by {
            assert(yes_key(a)[i] == a[i]);
            assert(yes_key(b)[i] == b[i]);
        }
        assert(a =~= b);
    }
    if no_key(a) == no_key(b) {
        assert(a.len() == b.len());
        assert forall|i: int| 0 <= i < a.len() implies a[i] == b[i] by {
            assert(no_key(a)[i] == a[i]);
            assert(no_key(b)[i] == b[i]);
        }
        assert(a =~= b);
    }
}

/// Once created, a market has a YES book and a NO book, and creating it
/// opened each of them empty unless it was there already.
pub proof fn lemma_created_market_has_both(books: Map<Seq<char>, BookView>, market_id: Seq<char>)
    ensures
        with_market(books, market_id).contains_key(yes_key(market_id)),
        with_market(books, market_id).contains_key(no_key(market_id)),
        with_market(books, market_id)[yes_key(market_id)] == opened(
            books,
            yes_key(market_id),
            true,
        ),
        with_market(books, market_id)[no_key(market_id)] == opened(
            books,
            no_key(market_id),
            false,
        ),
{
    lemma_book_names(market_id, market_id);
}

/// Creating a market a second time changes nothing.
pub proof fn lemma_create_market_idempotent(books: Map<Seq<char>, BookView>, market_id: Seq<char>)
    ensures
        with_market(with_market(books, market_id), market_id) == with_market(books, market_id),
        books.contains_key(yes_key(market_id)) && books.contains_key(no_key(market_id))
            ==> with_market(books, market_id) == books,
        forall|key: Seq<char>| #[trigger]
            books.contains_key(key) ==> with_market(books, market_id).contains_key(key)
                && with_market(books, market_id)[key] == books[key],
{
}

/// The name of the YES book of a market.
fn yes_name(market_id: &str) -> (key: String)
    ensures
        key@ == yes_key(market_id@),
{
    let mut key = market_id.to_string();
    key.append("_YES");
    key
}

/// The name of the NO book of a market.
fn no_name(market_id: &str) -> (key: String)
    ensures
        key@ == no_key(market_id@),
{
    let mut key = market_id.to_string();
    key.append("_NO");
    key
}

/// A registry of binary markets. Each market has two books, filed under the
/// market's name followed by `_YES` and by `_NO`.
pub struct MatchingEngine {
    pub order_books: MarketRegistry,
}

impl View for MatchingEngine {
    type V = Map<Seq<char>, BookView>;

    open spec fn view(&self) -> Map<Seq<char>, BookView> {
        self.order_books@
    }
}

impl MatchingEngine {
    /// An engine without markets.
    pub fn new() -> (engine: MatchingEngine)
        ensures
            engine@ == Map::<Seq<char>, BookView>::empty(),
            books_sound(engine@),
    {
        MatchingEngine { order_books: MarketRegistry::new() }
    }

    /// Makes sure that the market has its YES book and its NO book. Books
    /// that exist are left as they are.
    pub fn create_market(&mut self, market_id: &str)
        ensures
            final(self)@ == with_market(old(self)@, market_id@),
            books_sound(final(self)@),
    {
        let yes = yes_name(market_id);
        let no = no_name(market_id);
        self.order_books.open(yes.as_str(), true);
        self.order_books.open(no.as_str(), false);
        proof {
            use_type_invariant(&self.order_books);
        }
    }

    /// Rests `order` in the book filed under the instrument name
    /// `market_id`, matches that book and returns the trades. Fails where no
    /// book is filed under that name.
    pub fn place_order(&mut self, market_id: &str, order: Order) -> (result: Result<
        Vec<Trade>,
        EngineError,
    >)
        ensures
            match result {
                Ok(trades) => old(self)@.contains_key(market_id@) && final(self)@ == placed(
                    old(self)@,
                    market_id@,
                    order@,
                ) && reports(trades@, executions(old(self)@, market_id@, order@), market_id@),
                Err(e) => e == EngineError::MarketNotFound && !old(self)@.contains_key(market_id@)
                    && final(self)@ == old(self)@,
            },
            books_sound(final(self)@),
    {
        let placed = self.order_books.place(market_id, order);
        proof {
            use_type_invariant(&self.order_books);
        }
        match placed {
            Some(trades) => Ok(trades),
            None => Err(EngineError::MarketNotFound),
        }
    }

    /// Takes the first order with this id out of the book filed under the
    /// instrument name `market_id`. Says whether there was such a book and
    /// such an order.
    pub fn cancel_order(&mut self, market_id: &str, order_id: u64) -> (done: bool)
        ensures
            done == (old(self)@.contains_key(market_id@) && old(self)@[market_id@].holds(order_id)),
            final(self)@ == cancelled(old(self)@, market_id@, order_id),
            books_sound(final(self)@),
    {
        let done = self.order_books.cancel(market_id, order_id);
        proof {
            use_type_invariant(&self.order_books);
        }
        done
    }

    /// The best bid and best ask of the book filed under the instrument name
    /// `market_id`. Fails where no book is filed under that name.
    pub fn get_top_of_book(&self, market_id: &str) -> (result: Result<(Price, Price), EngineError>)
        ensures
            match result {
                Ok(top) => self@.contains_key(market_id@) && top.0@ == self@[market_id@].best_bid()
                    && top.1@ == self@[market_id@].best_ask(),
                Err(e) => e == EngineError::MarketNotFound && !self@.contains_key(market_id@),
            },
    {
        match self.order_books.get(market_id) {
            Some(book) => Ok(book.get_top_of_book()),
            None => Err(EngineError::MarketNotFound),
        }
    }

    /// Up to `levels` price levels of each side of the book filed under the
    /// instrument name `market_id`, best first. Fails where no book is filed
    /// under that name.
    pub fn get_order_book_depth(&self, market_id: &str, levels: usize) -> (result: Result<
        (Vec<(Price, u128)>, Vec<(Price, u128)>),
        EngineError,
    >)
        ensures
            match result {
                Ok(depth) => self@.contains_key(market_id@) && depth_view(depth.0@)
                    == depth_from_high(self@[market_id@].bids, levels as nat) && depth_view(
                    depth.1@,
                ) == depth_from_low(self@[market_id@].asks, levels as nat),
                Err(e) => e == EngineError::MarketNotFound && !self@.contains_key(market_id@),
            },
    {
        match self.order_books.get(market_id) {
            Some(book) => Ok(book.get_order_book_depth(levels)),
            None => Err(EngineError::MarketNotFound),
        }
    }

    /// Rests `order` in the YES book of the market, creating the market
    /// first if need be, matches that book and returns the trades.
    pub fn place_yes_order(&mut self, market_id: &str, order: Order) -> (trades: Vec<Trade>)
        ensures
            final(self)@ == placed(
                with_market(old(self)@, market_id@),
                yes_key(market_id@),
                order@,
            ),
            reports(
                trades@,
                executions(with_market(old(self)@, market_id@), yes_key(market_id@), order@),
                yes_key(market_id@),
            ),
            books_sound(final(self)@),
    {
        self.create_market(market_id);
        let key = yes_name(market_id);
        match self.place_order(key.as_str(), order) {
            Ok(trades) => trades,
            Err(_) => Vec::new(),
        }
    }

    /// Rests `order` in the NO book of the market, creating the market first
    /// if need be, matches that book and returns the trades.
    pub fn place_no_order(&mut self, market_id: &str, order: Order) -> (trades: Vec<Trade>)
        ensures
            final(self)@ == placed(with_market(old(self)@, market_id@), no_key(market_id@), order@),
            reports(
                trades@,
                executions(with_market(old(self)@, market_id@), no_key(market_id@), order@),
                no_key(market_id@),
            ),
            books_sound(final(self)@),
    {
        self.create_market(market_id);
        let key = no_name(market_id);
        match self.place_order(key.as_str(), order) {
            Ok(trades) => trades,
            Err(_) => Vec::new(),
        }
    }

    /// The best bid and best ask of the market's YES book. A market that has
    /// not been created reads as an empty book.
    pub fn get_yes_top_of_book(&self, market_id: &str) -> (top: (Price, Price))
        ensures
            top.0@ == opened(self@, yes_key(market_id@), true).best_bid(),
            top.1@ == opened(self@, yes_key(market_id@), true).best_ask(),
    {
        let key = yes_name(market_id);
        match self.get_top_of_book(key.as_str()) {
            Ok(top) => top,
            Err(_) => (Price::zero(), Price::one()),
        }
    }

    /// The best bid and best ask of the market's NO book. A market that has
    /// not been created reads as an empty book.
    pub fn get_no_top_of_book(&self, market_id: &str) -> (top: (Price, Price))
        ensures
            top.0@ == opened(self@, no_key(market_id@), false).best_bid(),
            top.1@ == opened(self@, no_key(market_id@), false).best_ask(),
    {
        let key = no_name(market_id);
        match self.get_top_of_book(key.as_str()) {
            Ok(top) => top,
            Err(_) => (Price::zero(), Price::one()),
        }
    }

    /// Up to `levels` price levels of each side of the market's YES book,
    /// best first. A market that has not been created reads as an empty book.
    pub fn get_yes_order_book_depth(&self, market_id: &str, levels: usize) -> (depth: (
        Vec<(Price, u128)>,
        Vec<(Price, u128)>,
    ))
        ensures
            depth_view(depth.0@) == depth_from_high(
                opened(self@, yes_key(market_id@), true).bids,
                levels as nat,
            ),
            depth_view(depth.1@) == depth_from_low(
                opened(self@, yes_key(market_id@), true).asks,
                levels as nat,
            ),
    {
        let key = yes_name(market_id);
        match self.get_order_book_depth(key.as_str(), levels) {
            Ok(depth) => depth,
            Err(_) => {
                let depth = (Vec::new(), Vec::new());
                proof {
                    let nothing = Seq::<(nat, nat)>::empty();
                    assert(depth_view(depth.0@) =~= nothing);
                    assert(depth_view(depth.1@) =~= nothing);
                    assert(depth_from_high(Seq::empty(), levels as nat) =~= nothing);
                    assert(depth_from_low(Seq::empty(), levels as nat) =~= nothing);
                }
                depth
            },
        }
    }

    /// Up to `levels` price levels of each side of the market's NO book, best
    /// first. A market that has not been created reads as an empty book.
    pub fn get_no_order_book_depth(&self, market_id: &str, levels: usize) -> (depth: (
        Vec<(Price, u128)>,
        Vec<(Price, u128)>,
    ))
        ensures
            depth_view(depth.0@) == depth_from_high(
                opened(self@, no_key(market_id@), false).bids,
                levels as nat,
            ),
            depth_view(depth.1@) == depth_from_low(
                opened(self@, no_key(market_id@), false).asks,
                levels as nat,
            ),
    {
        let key = no_name(market_id);
        match self.get_order_book_depth(key.as_str(), levels) {
            Ok(depth) => depth,
            Err(_) => {
                let depth = (Vec::new(), Vec::new());
                proof {
                    let nothing = Seq::<(nat, nat)>::empty();
                    assert(depth_view(depth.0@) =~= nothing);
                    assert(depth_view(depth.1@) =~= nothing);
                    assert(depth_from_high(Seq::empty(), levels as nat) =~= nothing);
                    assert(depth_from_low(Seq::empty(), levels as nat) =~= nothing);
                }
                depth
            },
        }
    }

    /// Takes the first order with this id out of the market's YES book. Says
    /// whether there was such a book and such an order.
    pub fn cancel_yes_order(&mut self, market_id: &str, order_id: u64) -> (done: bool)
        ensures
            done == (old(self)@.contains_key(yes_key(market_id@)) && old(self)@[yes_key(
                market_id@,
            )].holds(order_id)),
            final(self)@ == cancelled(old(self)@, yes_key(market_id@), order_id),
            books_sound(final(self)@),
    {
        let key = yes_name(market_id);
        self.cancel_order(key.as_str(), order_id)
    }

    /// Takes the first order with this id out of the market's NO book. Says
    /// whether there was such a book and such an order.
    pub fn cancel_no_order(&mut self, market_id: &str, order_id: u64) -> (done: bool)
        ensures
            done == (old(self)@.contains_key(no_key(market_id@)) && old(self)@[no_key(
                market_id@,
            )].holds(order_id)),
            final(self)@ == cancelled(old(self)@, no_key(market_id@), order_id),
            books_sound(final(self)@),
    {
        let key = no_name(market_id);
        self.cancel_order(key.as_str(), order_id)
    }
}

} // verus!
