//! What the operations of a ledger do to the queue at each price.

use vstd::prelude::*;
use crate::ledger::{
    has_level, lemma_rank_is_split, lemma_rank_splits, lemma_with_order_wf,
    lemma_without_order_wf, levels_wf, queue_at, rank, with_order, without_order, LevelView,
};
use crate::order::OrderView;

verus! {

/// In well-formed levels, the queue at the price of level `i` is the queue
/// of level `i`.
pub proof fn lemma_queue_at_level(levels: Seq<LevelView>, i: int)
    requires
        levels_wf(levels),
        0 <= i < levels.len(),
    ensures
        rank(levels, levels[i].price) == i,
        has_level(levels, levels[i].price),
        queue_at(levels, levels[i].price) == levels[i].orders,
{
    assert forall|k: int| 0 <= k < i implies (#[trigger] levels[k]).price < levels[i].price by {}
    assert forall|k: int| i <= k < levels.len() implies (#[trigger] levels[k]).price
        >= levels[i].price by {
        if i < k {
            assert(levels[i].price < levels[k].price);
        }
    }
    lemma_rank_is_split(levels, levels[i].price, i);
}

/// An order joins the back of the queue at its own price; the queue at
/// every other price stays as it was.
pub proof fn lemma_with_order_queue_at(levels: Seq<LevelView>, order: OrderView, price: nat)
    requires
        levels_wf(levels),
    ensures
        queue_at(with_order(levels, order), price) == if price == order.price {
            queue_at(levels, price).push(order)
        } else {
            queue_at(levels, price)
        },
{
    let after = with_order(levels, order);
    let k = rank(levels, order.price) as int;
    lemma_rank_splits(levels, order.price);
    lemma_with_order_wf(levels, order);
    lemma_queue_at_level(after, k);
    if price != order.price {
        if has_level(after, price) {
            let a = rank(after, price) as int;
            let b = if has_level(levels, order.price) || a < k {
                a
            } else {
                a - 1
            };
            assert(levels[b] == after[a]);
            lemma_queue_at_level(levels, b);
        } else if has_level(levels, price) {
            let b = rank(levels, price) as int;
            let a = if has_level(levels, order.price) || b < k {
                b
            } else {
                b + 1
            };
            assert(after[a] == levels[b]);
            lemma_queue_at_level(after, a);
        }
    }
}

/// Taking out the order at place `j` of level `i` takes exactly that order
/// out of the queue at that level's price; every other order of that queue
/// keeps its turn, and the queue at every other price stays as it was.
pub proof fn lemma_without_order_queue_at(levels: Seq<LevelView>, i: int, j: int, price: nat)
    requires
        levels_wf(levels),
        0 <= i < levels.len(),
        0 <= j < levels[i].orders.len(),
    ensures
        queue_at(without_order(levels, i, j), price) == if price == levels[i].price {
            levels[i].orders.remove(j)
        } else {
            queue_at(levels, price)
        },
{
    let after = without_order(levels, i, j);
    let dropped = levels[i].orders.len() == 1;
    lemma_without_order_wf(levels, i, j);
    lemma_queue_at_level(levels, i);
    if price == levels[i].price {
        if dropped {
            assert(levels[i].orders.remove(j) =~= Seq::<OrderView>::empty());
            if has_level(after, price) {
                let a = rank(after, price) as int;
                let b = if a < i {
                    a
                } else {
                    a + 1
                };
                assert(levels[b] == after[a]);
                if b < i {
                    assert(levels[b].price < levels[i].price);
                } else {
                    assert(levels[i].price < levels[b].price);
                }
            }
        } else {
            lemma_queue_at_level(after, i);
        }
    } else {
        if has_level(after, price) {
            let a = rank(after, price) as int;
            let b = if dropped && a >= i {
                a + 1
            } else {
                a
            };
            assert(levels[b].price == after[a].price);
            assert(levels[b] == after[a]);
            lemma_queue_at_level(levels, b);
        } else if has_level(levels, price) {
            let b = rank(levels, price) as int;
            let a = if dropped && b > i {
                b - 1
            } else {
                b
            };
            assert(after[a] == levels[b]);
            lemma_queue_at_level(after, a);
        }
    }
}

} // verus!
