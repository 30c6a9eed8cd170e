//! Quantity is conserved by matching: what an order loses is what was traded
//! against it, no more and no less.

use vstd::prelude::*;
use crate::ledger::{fill_head, levels_wf, LevelView};
use crate::matching::{lemma_fill_shrinks, BookView, Fill};
use crate::order::OrderView;

verus! {

/// The sum of a sequence of quantities.
pub open spec fn sum(amounts: Seq<nat>) -> nat
    decreases amounts.len(),
{
    if amounts.len() == 0 {
        0
    } else {
        sum(amounts.drop_last()) + amounts.last()
    }
}

/// The quantity that the orders of a queue carrying `id` have open.
pub open spec fn open_in_queue(orders: Seq<OrderView>, id: u64) -> nat {
    sum(
        orders.map_values(
            |o: OrderView|
                if o.id == id {
                    o.qty
                } else {
                    0nat
                },
        ),
    )
}

/// The quantity that the orders of a ledger carrying `id` have open.
pub open spec fn open_qty(levels: Seq<LevelView>, id: u64) -> nat {
    sum(levels.map_values(|l: LevelView| open_in_queue(l.orders, id)))
}

/// The quantity that `fills` executed against bids carrying `id`.
pub open spec fn bought(fills: Seq<Fill>, id: u64) -> nat {
    sum(
        fills.map_values(
            |f: Fill|
                if f.bid.id == id {
                    f.qty
                } else {
                    0nat
                },
        ),
    )
}

/// The quantity that `fills` executed against asks carrying `id`.
pub open spec fn sold(fills: Seq<Fill>, id: u64) -> nat {
    sum(
        fills.map_values(
            |f: Fill|
                if f.ask.id == id {
                    f.qty
                } else {
                    0nat
                },
        ),
    )
}

/// Changing one amount changes the sum by the difference.
proof fn lemma_sum_update(amounts: Seq<nat>, i: int, amount: nat)
    requires
        0 <= i < amounts.len(),
    ensures
        sum(amounts.update(i, amount)) + amounts[i] == sum(amounts) + amount,
    decreases amounts.len(),
{
    let changed = amounts.update(i, amount);
    if i == amounts.len() - 1 {
        assert(changed.drop_last() =~= amounts.drop_last());
    } else {
        assert(changed.drop_last() =~= amounts.drop_last().update(i, amount));
        lemma_sum_update(amounts.drop_last(), i, amount);
    }
}

/// Taking one amount out takes it from the sum.
proof fn lemma_sum_remove(amounts: Seq<nat>, i: int)
    requires
        0 <= i < amounts.len(),
    ensures
        sum(amounts.remove(i)) + amounts[i] == sum(amounts),
    decreases amounts.len(),
{
    let rest = amounts.remove(i);
    if i == amounts.len() - 1 {
        assert(rest =~= amounts.drop_last());
    } else {
        assert(rest.drop_last() =~= amounts.drop_last().remove(i));
        lemma_sum_remove(amounts.drop_last(), i);
    }
}

/// Putting one amount in front adds it to the sum.
proof fn lemma_sum_prepend(amount: nat, amounts: Seq<nat>)
    ensures
        sum(seq![amount] + amounts) == amount + sum(amounts),
    decreases amounts.len(),
{
    let all = seq![amount] + amounts;
    assert(all.len() == amounts.len() + 1);
    if amounts.len() == 0 {
        assert(all.drop_last() =~= Seq::<nat>::empty());
        assert(all.last() == amount);
        assert(sum(all.drop_last()) == 0);
    } else {
        assert(all.drop_last() =~= seq![amount] + amounts.drop_last());
        assert(all.last() == amounts.last());
        lemma_sum_prepend(amount, amounts.drop_last());
    }
}

/// An execution against the head of a level takes exactly its quantity
/// from what the head's id has open on that side, and nothing from any
/// other id.
proof fn lemma_fill_head_open(levels: Seq<LevelView>, i: int, qty: nat, id: u64)
    requires
        levels_wf(levels),
        0 <= i < levels.len(),
        qty <= levels[i].orders[0].qty,
    ensures
        open_qty(fill_head(levels, i, qty), id) + (if levels[i].orders[0].id == id {
            qty
        } else {
            0nat
        }) == open_qty(levels, id),
{
    let weigh = |o: OrderView|
        if o.id == id {
            o.qty
        } else {
            0nat
        };
    let per_level = |l: LevelView| open_in_queue(l.orders, id);
    let level = levels[i];
    let head = level.orders[0];
    let after = fill_head(levels, i, qty);
    let amounts = levels.map_values(per_level);
    assert(level.orders.len() > 0);
    if head.qty <= qty {
        let queue = level.orders.map_values(weigh);
        lemma_sum_remove(queue, 0);
        assert(level.orders.remove(0).map_values(weigh) =~= queue.remove(0));
        if level.orders.len() == 1 {
            assert(queue.remove(0) =~= Seq::<nat>::empty());
            assert(after.map_values(per_level) =~= amounts.remove(i));
            lemma_sum_remove(amounts, i);
        } else {
            assert(after.map_values(per_level) =~= amounts.update(
                i,
                open_in_queue(level.orders.remove(0), id),
            ));
            lemma_sum_update(amounts, i, open_in_queue(level.orders.remove(0), id));
        }
    } else {
        let queue = level.orders.map_values(weigh);
        let left = level.orders.update(0, head.filled(qty));
        assert(left.map_values(weigh) =~= queue.update(0, weigh(head.filled(qty))));
        lemma_sum_update(queue, 0, weigh(head.filled(qty)));
        assert(after.map_values(per_level) =~= amounts.update(i, open_in_queue(left, id)));
        lemma_sum_update(amounts, i, open_in_queue(left, id));
    }
}

/// No execution is larger than what either of its two orders had open just
/// before it.
pub proof fn lemma_fills_within_orders(book: BookView)
    requires
        book.wf(),
    ensures
        forall|k: int|
            0 <= k < book.fills().len() ==> (#[trigger] book.fills()[k]).qty
                <= book.fills()[k].bid.qty && book.fills()[k].qty <= book.fills()[k].ask.qty,
    decreases book.bids.len() + book.asks.len(), book.at_best(),
{
    if book.crossed() {
        lemma_fill_shrinks(book);
        lemma_fills_within_orders(book.after_fill());
        let rest = book.after_fill().fills();
        assert forall|k: int| 0 <= k < book.fills().len() implies (#[trigger] book.fills()[k]).qty
            <= book.fills()[k].bid.qty && book.fills()[k].qty <= book.fills()[k].ask.qty by {
            if k > 0 {
                assert(book.fills()[k] == rest[k - 1]);
            }
        }
    }
}

/// For every order id and on either side: what the id had open before
/// matching is what it has open afterwards plus what was executed against
/// it. So the executions against an id never add up to more than it had
/// open.
pub proof fn lemma_quantity_conserved(book: BookView, id: u64)
    requires
        book.wf(),
    ensures
        open_qty(book.bids, id) == open_qty(book.settled().bids, id) + bought(book.fills(), id),
        open_qty(book.asks, id) == open_qty(book.settled().asks, id) + sold(book.fills(), id),
        bought(book.fills(), id) <= open_qty(book.bids, id),
        sold(book.fills(), id) <= open_qty(book.asks, id),
    decreases book.bids.len() + book.asks.len(), book.at_best(),
{
    let by_bid = |f: Fill|
        if f.bid.id == id {
            f.qty
        } else {
            0nat
        };
    let by_ask = |f: Fill|
        if f.ask.id == id {
            f.qty
        } else {
            0nat
        };
    if book.crossed() {
        let fill = book.next_fill();
        let next = book.after_fill();
        lemma_fill_shrinks(book);
        lemma_quantity_conserved(next, id);
        assert(book.bids.last().orders.len() > 0);
        assert(book.asks.first().orders.len() > 0);
        lemma_fill_head_open(book.bids, book.bids.len() - 1, fill.qty, id);
        lemma_fill_head_open(book.asks, 0, fill.qty, id);
        assert(book.fills().map_values(by_bid) =~= seq![by_bid(fill)] + next.fills().map_values(
            by_bid,
        ));
        assert(book.fills().map_values(by_ask) =~= seq![by_ask(fill)] + next.fills().map_values(
            by_ask,
        ));
        lemma_sum_prepend(by_bid(fill), next.fills().map_values(by_bid));
        lemma_sum_prepend(by_ask(fill), next.fills().map_values(by_ask));
    } else {
        assert(book.fills().map_values(by_bid) =~= Seq::<nat>::empty());
        assert(book.fills().map_values(by_ask) =~= Seq::<nat>::empty());
    }
}

} // verus!
