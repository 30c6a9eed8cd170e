//! Time priority: inside a price level, orders are served in the order in
//! which they arrived.

use vstd::prelude::*;
use crate::ledger::{fill_head, has_level, lemma_fill_head_wf, levels_wf, queue_at, rank, LevelView};
use crate::matching::{lemma_fill_shrinks, BookView};
use crate::order::OrderView;
use crate::queues::lemma_queue_at_level;

verus! {

/// Whether `after` is what is left of the queue `before` once orders have
/// been served from its front: some number of the oldest orders are gone,
/// the order now in front may have less open than it had, and every order
/// behind it is untouched.
pub open spec fn is_remainder(after: Seq<OrderView>, before: Seq<OrderView>) -> bool {
    let gone = before.len() - after.len();
    &&& after.len() <= before.len()
    &&& after.len() > 0 ==> after[0] == (OrderView { qty: after[0].qty, ..before[gone] })
        && after[0].qty <= before[gone].qty
    &&& forall|j: int| 1 <= j < after.len() ==> #[trigger] after[j] == before[gone + j]
}

/// An execution against the head of level `i` serves the queue at that
/// level's price from its front and leaves the queue at every other price
/// as it was.
pub proof fn lemma_fill_head_queue_at(levels: Seq<LevelView>, i: int, qty: nat, price: nat)
    requires
        levels_wf(levels),
        0 <= i < levels.len(),
    ensures
        is_remainder(queue_at(fill_head(levels, i, qty), price), queue_at(levels, price)),
        price != levels[i].price ==> queue_at(fill_head(levels, i, qty), price) == queue_at(
            levels,
            price,
        ),
{
    let after = fill_head(levels, i, qty);
    let level = levels[i];
    let dropped = level.orders[0].qty <= qty && level.orders.len() == 1;
    lemma_fill_head_wf(levels, i, qty);
    lemma_queue_at_level(levels, i);
    assert(level.orders.len() > 0);
    if price == level.price {
        if dropped {
            if has_level(after, price) {
                let a = rank(after, price) as int;
                let b = if a < i {
                    a
                } else {
                    a + 1
                };
                assert(levels[b] == after[a]);
                if b < i {
                    assert(levels[b].price < levels[i].price);
                } else {
                    assert(levels[i].price < levels[b].price);
                }
            }
        } else {
            lemma_queue_at_level(after, i);
        }
    } else {
        if has_level(after, price) {
            let a = rank(after, price) as int;
            let b = if dropped && a >= i {
                a + 1
            } else {
                a
            };
            assert(levels[b].price == after[a].price);
            assert(levels[b] == after[a]);
            lemma_queue_at_level(levels, b);
        } else if has_level(levels, price) {
            let b = rank(levels, price) as int;
            let a = if dropped && b > i {
                b - 1
            } else {
                b
            };
            assert(after[a] == levels[b]);
            lemma_queue_at_level(after, a);
        }
    }
}

/// What is left of what is left of a queue is left of that queue.
pub proof fn lemma_remainder_transitive(
    last: Seq<OrderView>,
    middle: Seq<OrderView>,
    first: Seq<OrderView>,
)
    requires
        is_remainder(last, middle),
        is_remainder(middle, first),
    ensures
        is_remainder(last, first),
{
    let late = middle.len() - last.len();
    let early = first.len() - middle.len();
    if last.len() > 0 {
        if late > 0 {
            assert(middle[late] == first[early + late]);
        }
    }
    assert forall|j: int| 1 <= j < last.len() implies #[trigger] last[j] == first[early + late
        + j] by {
        assert(last[j] == middle[late + j]);
        assert(middle[late + j] == first[early + late + j]);
    }
}

/// At every price and on either side, matching serves the queue from its
/// front: what rests there afterwards is what is left of what rested there
/// before.
pub proof fn lemma_time_priority(book: BookView, price: nat)
    requires
        book.wf(),
    ensures
        is_remainder(queue_at(book.settled().bids, price), queue_at(book.bids, price)),
        is_remainder(queue_at(book.settled().asks, price), queue_at(book.asks, price)),
    decreases book.bids.len() + book.asks.len(), book.at_best(),
{
    if book.crossed() {
        let next = book.after_fill();
        let qty = book.next_fill().qty;
        lemma_fill_shrinks(book);
        lemma_time_priority(next, price);
        lemma_fill_head_queue_at(book.bids, book.bids.len() - 1, qty, price);
        lemma_fill_head_queue_at(book.asks, 0, qty, price);
        lemma_remainder_transitive(
            queue_at(book.settled().bids, price),
            queue_at(next.bids, price),
            queue_at(book.bids, price),
        );
        lemma_remainder_transitive(
            queue_at(book.settled().asks, price),
            queue_at(next.asks, price),
            queue_at(book.asks, price),
        );
    }
}

/// Of two bids at one price, the earlier is filled first: while anything of
/// the earlier one is left after matching, the later one has not traded at
/// all. `earlier` and `later` are places in the queue at `price` before
/// matching.
pub proof fn lemma_earlier_bid_fills_first(book: BookView, price: nat, earlier: int, later: int)
    requires
        book.wf(),
        0 <= earlier < later < queue_at(book.bids, price).len(),
    ensures
        ({
            let before = queue_at(book.bids, price);
            let after = queue_at(book.settled().bids, price);
            let gone = before.len() - after.len();
            0 <= gone && (gone <= earlier ==> after[later - gone] == before[later])
        }),
{
    lemma_time_priority(book, price);
}

/// Of two asks at one price, the earlier is filled first: while anything of
/// the earlier one is left after matching, the later one has not traded at
/// all. `earlier` and `later` are places in the queue at `price` before
/// matching.
pub proof fn lemma_earlier_ask_fills_first(book: BookView, price: nat, earlier: int, later: int)
    requires
        book.wf(),
        0 <= earlier < later < queue_at(book.asks, price).len(),
    ensures
        ({
            let before = queue_at(book.asks, price);
            let after = queue_at(book.settled().asks, price);
            let gone = before.len() - after.len();
            0 <= gone && (gone <= earlier ==> after[later - gone] == before[later])
        }),
{
    lemma_time_priority(book, price);
}

} // verus!
