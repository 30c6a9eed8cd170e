//! The books of all instruments, found by name.

use vstd::prelude::*;
use crate::book::{lemma_without_stays_uncrossed, reports, OrderBook};
use crate::matching::{lemma_settled_same_market, BookView};
use crate::order::{Order, Trade};

verus! {

/// Every book is filed under its own name, is well formed and is not
/// crossed.
pub open spec fn books_sound(books: Map<Seq<char>, BookView>) -> bool {
    forall|key: Seq<char>| #[trigger]
        books.contains_key(key) ==> books[key].market_id == key && books[key].wf()
            && !books[key].crossed()
}

/// The books after an empty book has been opened under `key`, unless one is
/// filed there already.
pub open spec fn with_book(books: Map<Seq<char>, BookView>, key: Seq<char>, yes: bool) -> Map<
    Seq<char>,
    BookView,
> {
    if books.contains_key(key) {
        books
    } else {
        books.insert(key, BookView::empty(key, yes))
    }
}

/// No two books carry the same name.
spec fn names_distinct(books: Seq<OrderBook>) -> bool {
    forall|i: int, j: int|
        0 <= i < j < books.len() ==> (#[trigger] books[i]).market_id@ != (
        #[trigger] books[j]).market_id@
}

/// Whether some book carries the name `key`.
spec fn has_name(books: Seq<OrderBook>, key: Seq<char>) -> bool {
    exists|i: int| 0 <= i < books.len() && (#[trigger] books[i]).market_id@ == key
}

/// The place of a book that carries the name `key`.
spec fn slot_of(books: Seq<OrderBook>, key: Seq<char>) -> int {
    choose|i: int| 0 <= i < books.len() && (#[trigger] books[i]).market_id@ == key
}

/// The books as a map from name to book.
spec fn books_map(books: Seq<OrderBook>) -> Map<Seq<char>, BookView> {
    Map::new(|key: Seq<char>| has_name(books, key), |key: Seq<char>| books[slot_of(books, key)]@)
}

/// Under distinct names, the map files each book under its own name.
proof fn lemma_filed(books: Seq<OrderBook>, i: int)
    requires
        names_distinct(books),
        0 <= i < books.len(),
    ensures
        books_map(books).contains_key(books[i].market_id@),
        books_map(books)[books[i].market_id@] == books[i]@,
{
    let key = books[i].market_id@;
    assert(has_name(books, key));
    let j = slot_of(books, key);
    if j < i {
        assert(books[j].market_id@ != books[i].market_id@);
    } else if i < j {
        assert(books[i].market_id@ != books[j].market_id@);
    }
}

/// A book that keeps its name can change in place: the map changes at that
/// name alone.
proof fn lemma_changed_in_place(before: Seq<OrderBook>, after: Seq<OrderBook>, i: int)
    requires
        names_distinct(before),
        0 <= i < before.len(),
        after.len() == before.len(),
        after[i].market_id@ == before[i].market_id@,
        forall|k: int| 0 <= k < before.len() && k != i ==> after[k] == before[k],
    ensures
        names_distinct(after),
        books_map(after) == books_map(before).insert(before[i].market_id@, after[i]@),
{
    assert forall|a: int, b: int| 0 <= a < b < after.len() implies (#[trigger] after[a]).market_id@
        != (#[trigger] after[b]).market_id@ by {
        assert(before[a].market_id@ != before[b].market_id@);
    }
    let expected = books_map(before).insert(before[i].market_id@, after[i]@);
    assert forall|key: Seq<char>| books_map(after).contains_key(key) == expected.contains_key(
        key,
    ) by {
        if has_name(after, key) {
            let k = slot_of(after, key);
            assert(before[k].market_id@ == key);
        }
        if has_name(before, key) {
            let k = slot_of(before, key);
            assert(after[k].market_id@ == key);
        }
    }
    assert forall|key: Seq<char>| #[trigger]
        books_map(after).contains_key(key) implies books_map(after)[key] == expected[key] by {
        let k = slot_of(after, key);
        lemma_filed(after, k);
        if k != i {
            lemma_filed(before, k);
        }
    }
    assert(books_map(after) =~= expected);
}

/// A book under a new name joins the map under that name.
proof fn lemma_opened(before: Seq<OrderBook>, book: OrderBook)
    requires
        names_distinct(before),
        !has_name(before, book.market_id@),
    ensures
        names_distinct(before.push(book)),
        books_map(before.push(book)) == books_map(before).insert(book.market_id@, book@),
{
    let after = before.push(book);
    assert forall|a: int, b: int| 0 <= a < b < after.len() implies (#[trigger] after[a]).market_id@
        != (#[trigger] after[b]).market_id@ by {
        if b < before.len() {
            assert(before[a].market_id@ != before[b].market_id@);
        } else {
            assert(before[a].market_id@ != book.market_id@);
        }
    }
    let expected = books_map(before).insert(book.market_id@, book@);
    assert forall|key: Seq<char>| books_map(after).contains_key(key) == expected.contains_key(
        key,
    ) by {
        if has_name(after, key) {
            let k = slot_of(after, key);
            if k < before.len() {
                assert(before[k].market_id@ == key);
            }
        }
        if has_name(before, key) {
            let k = slot_of(before, key);
            assert(after[k].market_id@ == key);
        }
        if key == book.market_id@ {
            assert(after[before.len() as int].market_id@ == key);
        }
    }
    assert forall|key: Seq<char>| #[trigger]
        books_map(after).contains_key(key) implies books_map(after)[key] == expected[key] by {
        let k = slot_of(after, key);
        lemma_filed(after, k);
        if k < before.len() {
            lemma_filed(before, k);
        }
    }
    assert(books_map(after) =~= expected);
}

/// The books of all instruments, each filed under its name.
pub struct MarketRegistry {
    books: Vec<OrderBook>,
}

impl View for MarketRegistry {
    type V = Map<Seq<char>, BookView>;

    closed spec fn view(&self) -> Map<Seq<char>, BookView> {
        books_map(self.books@)
    }
}

impl MarketRegistry {
    /// No name is used twice.
    pub closed spec fn distinct(&self) -> bool {
        names_distinct(self.books@)
    }

    /// At all times no name is used twice, and every book is filed under its
    /// own name, is well formed and is not crossed.
    #[verifier::type_invariant]
    pub open spec fn inv(&self) -> bool {
        self.distinct() && books_sound(self@)
    }

    /// A registry without books.
    pub fn new() -> (registry: MarketRegistry)
        ensures
            registry@ == Map::<Seq<char>, BookView>::empty(),
    {
        let registry = MarketRegistry { books: Vec::new() };
        assert(registry@ =~= Map::<Seq<char>, BookView>::empty());
        registry
    }

    /// Whether the registry holds no book.
    pub fn is_empty(&self) -> (empty: bool)
        ensures
            empty == (self@ == Map::<Seq<char>, BookView>::empty()),
    {
        let empty = self.books.len() == 0;
        proof {
            if empty {
                assert(self@ =~= Map::<Seq<char>, BookView>::empty());
            } else {
                assert(has_name(self.books@, self.books@[0].market_id@));
                assert(self@.contains_key(self.books@[0].market_id@));
            }
        }
        empty
    }

    /// The place of the book filed under `key`.
    fn find(&self, key: &String) -> (slot: Option<usize>)
        ensures
            match slot {
                Some(i) => i < self.books.len() && self.books[i as int].market_id@ == key@
                    && self@.contains_key(key@) && self@[key@] == self.books[i as int]@,
                None => !self@.contains_key(key@),
            },
    {
        proof {
            use_type_invariant(self);
        }
        let mut i: usize = 0;
        while i < self.books.len()
            invariant
                i <= self.books.len(),
                names_distinct(self.books@),
                forall|k: int| 0 <= k < i ==> (#[trigger] self.books[k]).market_id@ != key@,
            decreases self.books.len() - i,
        {
            if self.books[i].market_id == *key {
                proof {
                    lemma_filed(self.books@, i as int);
                }
                return Some(i);
            }
            i += 1;
        }
        None
    }

    /// Whether a book is filed under `key`.
    pub fn contains_key(&self, key: &str) -> (found: bool)
        ensures
            found == self@.contains_key(key@),
    {
        let name = key.to_string();
        self.find(&name).is_some()
    }

    /// The book filed under `key`.
    pub fn get(&self, key: &str) -> (book: Option<&OrderBook>)
        ensures
            match book {
                Some(b) => self@.contains_key(key@) && b@ == self@[key@],
                None => !self@.contains_key(key@),
            },
    {
        let name = key.to_string();
        match self.find(&name) {
            Some(i) => Some(&self.books[i]),
            None => None,
        }
    }

    /// Hands out the books and leaves the registry empty.
    fn take(&mut self) -> (books: Vec<OrderBook>)
        ensures
            books@ == old(self).books@,
            names_distinct(books@),
            books_sound(books_map(books@)),
            final(self).books@.len() == 0,
    {
        proof {
            use_type_invariant(&*self);
        }
        let mut books: Vec<OrderBook> = Vec::new();
        std::mem::swap(&mut books, &mut self.books);
        assert(books_map(self.books@) =~= Map::<Seq<char>, BookView>::empty());
        books
    }

    /// Opens an empty book under `key`, unless one is filed there already.
    pub(crate) fn open(&mut self, key: &str, yes: bool)
        ensures
            final(self)@ == with_book(old(self)@, key@, yes),
    {
        let name = key.to_string();
        if self.find(&name).is_none() {
            let book = OrderBook::new(key, yes);
            let mut books = self.take();
            proof {
                lemma_opened(books@, book);
            }
            books.push(book);
            self.books = books;
        }
    }

    /// Rests `order` in the book filed under `key` and matches that book.
    /// Returns the trades, or nothing where no book is filed under `key`.
    pub(crate) fn place(&mut self, key: &str, order: Order) -> (trades: Option<Vec<Trade>>)
        ensures
            match trades {
                Some(made) => old(self)@.contains_key(key@) && final(self)@ == old(self)@.insert(
                    key@,
                    old(self)@[key@].with_order(order@).settled(),
                ) && reports(made@, old(self)@[key@].with_order(order@).fills(), key@),
                None => !old(self)@.contains_key(key@) && final(self)@ == old(self)@,
            },
    {
        let name = key.to_string();
        match self.find(&name) {
            Some(i) => {
                let mut books = self.take();
                let ghost before = books@;
                proof {
                    lemma_filed(before, i as int);
                }
                books[i].add_order(order);
                let made = books[i].match_orders();
                proof {
                    lemma_settled_same_market(before[i as int]@.with_order(order@));
                    lemma_changed_in_place(before, books@, i as int);
                }
                self.books = books;
                Some(made)
            },
            None => None,
        }
    }

    /// Takes the first order with this id out of the book filed under `key`
    /// and says whether there was such a book and such an order.
    pub(crate) fn cancel(&mut self, key: &str, order_id: u64) -> (cancelled: bool)
        ensures
            cancelled == (old(self)@.contains_key(key@) && old(self)@[key@].holds(order_id)),
            old(self)@.contains_key(key@) ==> final(self)@ == old(self)@.insert(
                key@,
                old(self)@[key@].without(order_id),
            ),
            !old(self)@.contains_key(key@) ==> final(self)@ == old(self)@,
    {
        let name = key.to_string();
        match self.find(&name) {
            Some(i) => {
                let mut books = self.take();
                let ghost before = books@;
                proof {
                    lemma_filed(before, i as int);
                    lemma_without_stays_uncrossed(before[i as int]@, order_id);
                }
                let cancelled = books[i].cancel_order(order_id);
                proof {
                    lemma_changed_in_place(before, books@, i as int);
                }
                self.books = books;
                cancelled
            },
            None => false,
        }
    }
}

} // verus!
