//! One side of a book: resting orders grouped into price levels.
//!
//! A ledger keeps its levels in strictly ascending price. Inside a level the
//! orders stand in arrival order, oldest first. A level never stays empty.

use vstd::prelude::*;
use crate::order::{Order, OrderView, Price};

verus! {

/// All orders resting at one price, oldest first.
pub struct LevelView {
    pub price: nat,
    pub orders: Seq<OrderView>,
}

/// The mathematical value of a queue of orders.
pub open spec fn queue_view(orders: Seq<Order>) -> Seq<OrderView> {
    orders.map_values(|o: Order| o@)
}

/// Levels stand in strictly ascending price, none is empty, and every order
/// rests at the price of its level.
pub open spec fn levels_wf(levels: Seq<LevelView>) -> bool {
    &&& forall|i: int, j: int|
        #![trigger levels[i], levels[j]]
        0 <= i < j < levels.len() ==> levels[i].price < levels[j].price
    &&& forall|i: int| 0 <= i < levels.len() ==> (#[trigger] levels[i]).orders.len() > 0
    &&& forall|i: int, j: int|
        0 <= i < levels.len() && 0 <= j < levels[i].orders.len() ==> (
        #[trigger] levels[i].orders[j]).price == levels[i].price
}

/// How many levels are priced strictly below `price`.
pub open spec fn rank(levels: Seq<LevelView>, price: nat) -> nat
    decreases levels.len(),
{
    if levels.len() == 0 {
        0
    } else {
        rank(levels.drop_last(), price) + if levels.last().price < price {
            1nat
        } else {
            0nat
        }
    }
}

/// Whether some level is priced exactly at `price`.
pub open spec fn has_level(levels: Seq<LevelView>, price: nat) -> bool {
    let k = rank(levels, price) as int;
    k < levels.len() && levels[k].price == price
}

/// The queue resting at `price`, empty where there is no such level.
pub open spec fn queue_at(levels: Seq<LevelView>, price: nat) -> Seq<OrderView> {
    if has_level(levels, price) {
        levels[rank(levels, price) as int].orders
    } else {
        Seq::empty()
    }
}

/// The levels after `order` has joined the back of the queue at its price.
pub open spec fn with_order(levels: Seq<LevelView>, order: OrderView) -> Seq<LevelView> {
    let k = rank(levels, order.price) as int;
    if has_level(levels, order.price) {
        levels.update(k, LevelView { price: order.price, orders: levels[k].orders.push(order) })
    } else {
        levels.insert(k, LevelView { price: order.price, orders: seq![order] })
    }
}

/// The levels after `qty` has been executed against the oldest order of
/// level `i`: the order leaves once nothing of it stays open, and the level
/// leaves with its last order.
pub open spec fn fill_head(levels: Seq<LevelView>, i: int, qty: nat) -> Seq<LevelView>
    recommends
        0 <= i < levels.len(),
        levels[i].orders.len() > 0,
{
    let level = levels[i];
    let head = level.orders[0];
    if head.qty <= qty {
        if level.orders.len() == 1 {
            levels.remove(i)
        } else {
            levels.update(i, LevelView { price: level.price, orders: level.orders.remove(0) })
        }
    } else {
        levels.update(
            i,
            LevelView { price: level.price, orders: level.orders.update(0, head.filled(qty)) },
        )
    }
}

/// The index of the oldest order in the queue that carries `id`.
pub open spec fn queue_find(orders: Seq<OrderView>, id: u64) -> Option<int>
    decreases orders.len(),
{
    if orders.len() == 0 {
        None
    } else {
        match queue_find(orders.drop_last(), id) {
            Some(j) => Some(j),
            None => if orders.last().id == id {
                Some(orders.len() - 1)
            } else {
                None
            },
        }
    }
}

/// Where the first order that carries `id` rests, as level and place in the
/// queue. Levels are searched from the lowest price up, each queue from its
/// oldest order on.
pub open spec fn locate(levels: Seq<LevelView>, id: u64) -> Option<(int, int)>
    decreases levels.len(),
{
    if levels.len() == 0 {
        None
    } else {
        match locate(levels.drop_last(), id) {
            Some(place) => Some(place),
            None => match queue_find(levels.last().orders, id) {
                Some(j) => Some((levels.len() - 1, j)),
                None => None,
            },
        }
    }
}

/// The levels after the order at place `j` of level `i` has left; the level
/// leaves with its last order.
pub open spec fn without_order(levels: Seq<LevelView>, i: int, j: int) -> Seq<LevelView>
    recommends
        0 <= i < levels.len(),
        0 <= j < levels[i].orders.len(),
{
    if levels[i].orders.len() == 1 {
        levels.remove(i)
    } else {
        levels.update(i, LevelView { price: levels[i].price, orders: levels[i].orders.remove(j) })
    }
}

/// The open quantity of a queue, summed over its orders.
pub open spec fn total_qty(orders: Seq<OrderView>) -> nat
    decreases orders.len(),
{
    if orders.len() == 0 {
        0
    } else {
        total_qty(orders.drop_last()) + orders.last().qty
    }
}

/// The first `n` levels from the lowest price up, each as its price and the
/// quantity open at it.
pub open spec fn depth_from_low(levels: Seq<LevelView>, n: nat) -> Seq<(nat, nat)> {
    Seq::new(
        if n <= levels.len() {
            n
        } else {
            levels.len()
        },
        |i: int| (levels[i].price, total_qty(levels[i].orders)),
    )
}

/// The first `n` levels from the highest price down, each as its price and
/// the quantity open at it.
pub open spec fn depth_from_high(levels: Seq<LevelView>, n: nat) -> Seq<(nat, nat)> {
    Seq::new(
        if n <= levels.len() {
            n
        } else {
            levels.len()
        },
        |i: int|
            (levels[levels.len() - 1 - i].price, total_qty(levels[levels.len() - 1 - i].orders)),
    )
}

/// The mathematical value of a depth listing.
pub open spec fn depth_view(rows: Seq<(Price, u128)>) -> Seq<(nat, nat)> {
    rows.map_values(|row: (Price, u128)| (row.0@, row.1 as nat))
}

/// In ascending levels, the rank of a price is the one index that parts the
/// cheaper levels from the rest.
pub proof fn lemma_rank_is_split(levels: Seq<LevelView>, price: nat, k: int)
    requires
        0 <= k <= levels.len(),
        forall|i: int| 0 <= i < k ==> (#[trigger] levels[i]).price < price,
        forall|i: int| k <= i < levels.len() ==> (#[trigger] levels[i]).price >= price,
    ensures
        rank(levels, price) == k,
    decreases levels.len(),
{
    if levels.len() > 0 {
        let rest = levels.drop_last();
        if k == levels.len() {
            lemma_rank_is_split(rest, price, k - 1);
        } else {
            lemma_rank_is_split(rest, price, k);
        }
    }
}

/// In ascending levels, every level before the rank of a price is cheaper
/// than that price and every level from the rank on is not.
pub proof fn lemma_rank_splits(levels: Seq<LevelView>, price: nat)
    requires
        levels_wf(levels),
    ensures
        rank(levels, price) <= levels.len(),
        forall|i: int| 0 <= i < rank(levels, price) ==> (#[trigger] levels[i]).price < price,
        forall|i: int|
            rank(levels, price) <= i < levels.len() ==> (#[trigger] levels[i]).price >= price,
    decreases levels.len(),
{
    if levels.len() > 0 {
        let rest = levels.drop_last();
        assert forall|i: int| 0 <= i < rest.len() implies rest[i] == levels[i] by {}
        lemma_rank_splits(rest, price);
        let last = levels.len() - 1;
        if levels.last().price < price {
            assert forall|i: int| 0 <= i < rest.len() implies (#[trigger] levels[i]).price
                < price by {
                assert(levels[i].price < levels[last].price);
            }
            if rank(rest, price) < rest.len() {
                assert(rest[rank(rest, price) as int].price >= price);
            }
        }
    }
}

/// Adding an order keeps the levels ascending, non-empty and at their price.
pub proof fn lemma_with_order_wf(levels: Seq<LevelView>, order: OrderView)
    requires
        levels_wf(levels),
    ensures
        levels_wf(with_order(levels, order)),
{
    lemma_rank_splits(levels, order.price);
    let k = rank(levels, order.price) as int;
    let after = with_order(levels, order);
    if has_level(levels, order.price) {
        assert forall|i: int, j: int| 0 <= i < j < after.len() implies after[i].price
            < after[j].price by {
            assert(levels[i].price < levels[j].price);
        }
    } else {
        assert forall|i: int, j: int| 0 <= i < j < after.len() implies after[i].price
            < after[j].price by {
            let a = if i < k { i } else { i - 1 };
            let b = if j < k { j } else { j - 1 };
            if i != k && j != k {
                assert(levels[a].price < levels[b].price);
            } else if i == k {
                assert(levels[b].price >= order.price);
            } else {
                assert(levels[a].price < order.price);
            }
        }
        assert forall|i: int| 0 <= i < after.len() implies (#[trigger] after[i]).orders.len()
            > 0 by {
            let a = if i < k { i } else { i - 1 };
            if i != k {
                assert(levels[a].orders.len() > 0);
            }
        }
        assert forall|i: int, j: int|
            0 <= i < after.len() && 0 <= j < after[i].orders.len() implies (
        #[trigger] after[i].orders[j]).price == after[i].price by {
            let a = if i < k { i } else { i - 1 };
            if i != k {
                assert(levels[a].orders[j].price == levels[a].price);
            }
        }
    }
}

/// Executing against the head of a level keeps the levels well formed.
pub proof fn lemma_fill_head_wf(levels: Seq<LevelView>, i: int, qty: nat)
    requires
        levels_wf(levels),
        0 <= i < levels.len(),
    ensures
        levels_wf(fill_head(levels, i, qty)),
{
    let after = fill_head(levels, i, qty);
    let level = levels[i];
    assert(level.orders.len() > 0);
    if level.orders[0].qty <= qty && level.orders.len() == 1 {
        lemma_remove_level_wf(levels, i);
    } else {
        assert forall|a: int, b: int| 0 <= a < b < after.len() implies after[a].price
            < after[b].price by {
            assert(levels[a].price < levels[b].price);
        }
        assert forall|a: int| 0 <= a < after.len() implies (#[trigger] after[a]).orders.len()
            > 0 by {
            assert(levels[a].orders.len() > 0);
        }
        assert forall|a: int, b: int|
            0 <= a < after.len() && 0 <= b < after[a].orders.len() implies (
        #[trigger] after[a].orders[b]).price == after[a].price by {
            if a == i {
                if level.orders[0].qty <= qty {
                    assert(level.orders[b + 1].price == level.price);
                } else {
                    assert(level.orders[b].price == level.price);
                }
            } else {
                assert(levels[a].orders[b].price == levels[a].price);
            }
        }
    }
}

/// Dropping a whole level keeps the levels well formed.
pub proof fn lemma_remove_level_wf(levels: Seq<LevelView>, i: int)
    requires
        levels_wf(levels),
        0 <= i < levels.len(),
    ensures
        levels_wf(levels.remove(i)),
{
    let after = levels.remove(i);
    assert forall|a: int, b: int| 0 <= a < b < after.len() implies after[a].price
        < after[b].price by {
        let x = if a < i { a } else { a + 1 };
        let y = if b < i { b } else { b + 1 };
        assert(levels[x].price < levels[y].price);
    }
    assert forall|a: int| 0 <= a < after.len() implies (#[trigger] after[a]).orders.len() > 0 by {
        let x = if a < i { a } else { a + 1 };
        assert(levels[x].orders.len() > 0);
    }
    assert forall|a: int, b: int|
        0 <= a < after.len() && 0 <= b < after[a].orders.len() implies (
    #[trigger] after[a].orders[b]).price == after[a].price by {
        let x = if a < i { a } else { a + 1 };
        assert(levels[x].orders[b].price == levels[x].price);
    }
}

/// Taking one order out keeps the levels well formed.
pub proof fn lemma_without_order_wf(levels: Seq<LevelView>, i: int, j: int)
    requires
        levels_wf(levels),
        0 <= i < levels.len(),
        0 <= j < levels[i].orders.len(),
    ensures
        levels_wf(without_order(levels, i, j)),
{
    let after = without_order(levels, i, j);
    if levels[i].orders.len() == 1 {
        lemma_remove_level_wf(levels, i);
    } else {
        assert forall|a: int, b: int| 0 <= a < b < after.len() implies after[a].price
            < after[b].price by {
            assert(levels[a].price < levels[b].price);
        }
        assert forall|a: int| 0 <= a < after.len() implies (#[trigger] after[a]).orders.len()
            > 0 by {
            assert(levels[a].orders.len() > 0);
        }
        assert forall|a: int, b: int|
            0 <= a < after.len() && 0 <= b < after[a].orders.len() implies (
        #[trigger] after[a].orders[b]).price == after[a].price by {
            if a == i {
                let y = if b < j { b } else { b + 1 };
                assert(levels[i].orders[y].price == levels[i].price);
            } else {
                assert(levels[a].orders[b].price == levels[a].price);
            }
        }
    }
}

/// `queue_find` gives the first place whose order carries the id, and
/// nothing exactly when no order of the queue does.
pub proof fn lemma_queue_find(orders: Seq<OrderView>, id: u64)
    ensures
        match queue_find(orders, id) {
            Some(j) => 0 <= j < orders.len() && orders[j].id == id && forall|m: int|
                0 <= m < j ==> (#[trigger] orders[m]).id != id,
            None => forall|m: int| 0 <= m < orders.len() ==> (#[trigger] orders[m]).id != id,
        },
    decreases orders.len(),
{
    if orders.len() > 0 {
        let rest = orders.drop_last();
        lemma_queue_find(rest, id);
        assert forall|m: int| 0 <= m < rest.len() implies rest[m] == orders[m] by {}
        match queue_find(rest, id) {
            Some(j) => {
                assert(rest[j].id == id);
                assert forall|m: int| 0 <= m < j implies (#[trigger] orders[m]).id != id by {
                    assert(rest[m].id != id);
                }
            },
            None => {
                assert forall|m: int| 0 <= m < rest.len() implies (#[trigger] orders[m]).id
                    != id by {
                    assert(rest[m].id != id);
                }
            },
        }
    }
}

/// `locate` gives the first level, from the lowest price up, whose queue
/// holds the id, with the first such place in that queue, and nothing
/// exactly when no queue holds it.
pub proof fn lemma_locate(levels: Seq<LevelView>, id: u64)
    ensures
        match locate(levels, id) {
            Some((i, j)) => 0 <= i < levels.len() && queue_find(levels[i].orders, id) == Some(j)
                && forall|k: int|
                0 <= k < i ==> queue_find((#[trigger] levels[k]).orders, id) is None,
            None => forall|k: int|
                0 <= k < levels.len() ==> queue_find((#[trigger] levels[k]).orders, id) is None,
        },
    decreases levels.len(),
{
    if levels.len() > 0 {
        let rest = levels.drop_last();
        lemma_locate(rest, id);
        assert forall|k: int| 0 <= k < rest.len() implies rest[k] == levels[k] by {}
        match locate(rest, id) {
            Some((i, j)) => {
                assert(rest[i] == levels[i]);
                assert forall|k: int| 0 <= k < i implies queue_find(
                    (#[trigger] levels[k]).orders,
                    id,
                ) is None by {
                    assert(queue_find(rest[k].orders, id) is None);
                }
            },
            None => {
                assert forall|k: int| 0 <= k < rest.len() implies queue_find(
                    (#[trigger] levels[k]).orders,
                    id,
                ) is None by {
                    assert(queue_find(rest[k].orders, id) is None);
                }
            },
        }
    }
}

/// The first place found by a scan is the place that `queue_find` names.
proof fn lemma_queue_find_is(orders: Seq<OrderView>, id: u64, j: int)
    requires
        0 <= j < orders.len(),
        orders[j].id == id,
        forall|m: int| 0 <= m < j ==> (#[trigger] orders[m]).id != id,
    ensures
        queue_find(orders, id) == Some(j),
{
    lemma_queue_find(orders, id);
    match queue_find(orders, id) {
        Some(found) => {
            if found < j {
                assert(orders[found].id != id);
            } else if j < found {
                assert(orders[j].id != id);
            }
        },
        None => {
            assert(orders[j].id != id);
        },
    }
}

/// A scan that met no order with the id agrees with `queue_find`.
proof fn lemma_queue_find_none(orders: Seq<OrderView>, id: u64)
    requires
        forall|m: int| 0 <= m < orders.len() ==> (#[trigger] orders[m]).id != id,
    ensures
        queue_find(orders, id) is None,
{
    lemma_queue_find(orders, id);
    if let Some(found) = queue_find(orders, id) {
        assert(orders[found].id != id);
    }
}

/// The first place found by a scan of the levels is the place that `locate`
/// names.
proof fn lemma_locate_is(levels: Seq<LevelView>, id: u64, i: int, j: int)
    requires
        0 <= i < levels.len(),
        queue_find(levels[i].orders, id) == Some(j),
        forall|k: int| 0 <= k < i ==> queue_find((#[trigger] levels[k]).orders, id) is None,
    ensures
        locate(levels, id) == Some((i, j)),
{
    lemma_locate(levels, id);
    match locate(levels, id) {
        Some((a, b)) => {
            if a < i {
                assert(queue_find(levels[a].orders, id) is None);
            } else if i < a {
                assert(queue_find(levels[i].orders, id) is None);
            }
        },
        None => {
            assert(queue_find(levels[i].orders, id) is None);
        },
    }
}

/// A scan of the levels that met no order with the id agrees with `locate`.
proof fn lemma_locate_none(levels: Seq<LevelView>, id: u64)
    requires
        forall|k: int|
            0 <= k < levels.len() ==> queue_find((#[trigger] levels[k]).orders, id) is None,
    ensures
        locate(levels, id) is None,
{
    lemma_locate(levels, id);
    if let Some((a, b)) = locate(levels, id) {
        assert(queue_find(levels[a].orders, id) is None);
    }
}

/// One price level of a ledger.
struct PriceLevel {
    price: Price,
    orders: Vec<Order>,
}

impl View for PriceLevel {
    type V = LevelView;

    closed spec fn view(&self) -> LevelView {
        LevelView { price: self.price@, orders: queue_view(self.orders@) }
    }
}

/// The mathematical value of a run of levels.
spec fn levels_view(levels: Seq<PriceLevel>) -> Seq<LevelView> {
    levels.map_values(|l: PriceLevel| l@)
}

/// The index of the first level priced at or above `price`.
fn lower_bound(levels: &Vec<PriceLevel>, price: Price) -> (k: usize)
    requires
        levels_wf(levels_view(levels@)),
    ensures
        k == rank(levels_view(levels@), price@),
        k <= levels.len(),
{
    let ghost view = levels_view(levels@);
    let mut lo: usize = 0;
    let mut hi: usize = levels.len();
    while lo < hi
        invariant
            view == levels_view(levels@),
            levels_wf(view),
            0 <= lo <= hi <= levels.len(),
            forall|i: int| 0 <= i < lo ==> (#[trigger] view[i]).price < price@,
            forall|i: int| hi <= i < view.len() ==> (#[trigger] view[i]).price >= price@,
        decreases hi - lo,
    {
        let mid: usize = lo + (hi - lo) / 2;
        assert(view[mid as int].price == levels[mid as int].price@);
        if levels[mid].price.0 < price.0 {
            lo = mid + 1;
        } else {
            hi = mid;
        }
    }
    proof {
        lemma_rank_is_split(view, price@, lo as int);
    }
    lo
}

/// Appends `order` to the queue at its price, opening the level if there is
/// none yet.
fn insert_order(levels: &mut Vec<PriceLevel>, order: Order)
    requires
        levels_wf(levels_view(old(levels)@)),
    ensures
        levels_view(final(levels)@) == with_order(levels_view(old(levels)@), order@),
        levels_wf(levels_view(final(levels)@)),
{
    let ghost before = levels_view(levels@);
    let ghost joined = order@;
    let k = lower_bound(levels, order.price);
    if k < levels.len() && levels[k].price.0 == order.price.0 {
        levels[k].orders.push(order);
        proof {
            assert(levels@[k as int]@.orders =~= before[k as int].orders.push(joined));
        }
    } else {
        let price = order.price;
        let mut orders: Vec<Order> = Vec::new();
        orders.push(order);
        let level = PriceLevel { price, orders };
        proof {
            assert(level@.orders =~= seq![joined]);
        }
        levels.insert(k, level);
    }
    proof {
        assert(levels_view(levels@) =~= with_order(before, joined));
        lemma_with_order_wf(before, joined);
    }
}

/// Executes `qty` against the oldest order of level `i`.
fn fill_front(levels: &mut Vec<PriceLevel>, i: usize, qty: u64)
    requires
        levels_wf(levels_view(old(levels)@)),
        i < old(levels).len(),
    ensures
        levels_view(final(levels)@) == fill_head(levels_view(old(levels)@), i as int, qty as nat),
        levels_wf(levels_view(final(levels)@)),
{
    let ghost before = levels_view(levels@);
    assert(before[i as int].orders.len() > 0);
    assert(before[i as int].orders[0] == levels@[i as int].orders@[0]@);
    let open = levels[i].orders[0].qty;
    if open <= qty {
        if levels[i].orders.len() == 1 {
            levels.remove(i);
        } else {
            levels[i].orders.remove(0);
            proof {
                assert(levels@[i as int]@.orders =~= before[i as int].orders.remove(0));
            }
        }
    } else {
        levels[i].orders[0].qty = open - qty;
        proof {
            assert(levels@[i as int]@.orders =~= before[i as int].orders.update(
                0,
                before[i as int].orders[0].filled(qty as nat),
            ));
        }
    }
    proof {
        assert(levels_view(levels@) =~= fill_head(before, i as int, qty as nat));
        lemma_fill_head_wf(before, i as int, qty as nat);
    }
}

/// Takes out the first order that carries `id`, if any order does.
fn remove_by_id(levels: &mut Vec<PriceLevel>, id: u64) -> (found: bool)
    requires
        levels_wf(levels_view(old(levels)@)),
    ensures
        match locate(levels_view(old(levels)@), id) {
            Some((i, j)) => found && levels_view(final(levels)@) == without_order(
                levels_view(old(levels)@),
                i,
                j,
            ),
            None => !found && levels_view(final(levels)@) == levels_view(old(levels)@),
        },
        levels_wf(levels_view(final(levels)@)),
{
    let ghost before = levels_view(levels@);
    let mut i: usize = 0;
    while i < levels.len()
        invariant
            i <= levels.len(),
            before == levels_view(levels@),
            *levels == *old(levels),
            levels_wf(before),
            forall|k: int| 0 <= k < i ==> queue_find((#[trigger] before[k]).orders, id) is None,
        decreases levels.len() - i,
    {
        let queue_len = levels[i].orders.len();
        let mut j: usize = 0;
        while j < queue_len
            invariant
                i < levels.len(),
                queue_len == levels[i as int].orders.len(),
                j <= queue_len,
                before == levels_view(levels@),
                *levels == *old(levels),
                levels_wf(before),
                forall|k: int|
                    0 <= k < i ==> queue_find((#[trigger] before[k]).orders, id) is None,
                forall|m: int| 0 <= m < j ==> (#[trigger] before[i as int].orders[m]).id != id,
            decreases queue_len - j,
        {
            assert(before[i as int].orders[j as int] == levels@[i as int].orders@[j as int]@);
            if levels[i].orders[j].id == id {
                proof {
                    lemma_queue_find_is(before[i as int].orders, id, j as int);
                    lemma_locate_is(before, id, i as int, j as int);
                    lemma_without_order_wf(before, i as int, j as int);
                }
                if levels[i].orders.len() == 1 {
                    levels.remove(i);
                } else {
                    levels[i].orders.remove(j);
                    proof {
                        assert(levels@[i as int]@.orders =~= before[i as int].orders.remove(
                            j as int,
                        ));
                    }
                }
                proof {
                    assert(levels_view(levels@) =~= without_order(before, i as int, j as int));
                }
                return true;
            }
            j += 1;
        }
        proof {
            lemma_queue_find_none(before[i as int].orders, id);
        }
        i += 1;
    }
    proof {
        lemma_locate_none(before, id);
    }
    false
}

/// The quantity open in a queue.
fn queue_total(orders: &Vec<Order>) -> (sum: u128)
    ensures
        sum == total_qty(queue_view(orders@)),
{
    let mut sum: u128 = 0;
    let mut j: usize = 0;
    while j < orders.len()
        invariant
            j <= orders.len(),
            sum == total_qty(queue_view(orders@).take(j as int)),
            sum <= j * u64::MAX,
        decreases orders.len() - j,
    {
        proof {
            let next = queue_view(orders@).take(j + 1);
            assert(next.drop_last() =~= queue_view(orders@).take(j as int));
            assert(next.last() == orders@[j as int]@);
            assert((j + 1) * u64::MAX <= usize::MAX * u64::MAX) by (nonlinear_arith)
                requires
                    j + 1 <= usize::MAX,
            ;
            assert(usize::MAX * u64::MAX <= u128::MAX) by (nonlinear_arith)
                requires
                    usize::MAX <= 0xffff_ffff_ffff_ffff,
                    u64::MAX == 0xffff_ffff_ffff_ffff,
                    u128::MAX == 0xffff_ffff_ffff_ffff_ffff_ffff_ffff_ffff,
            ;
            assert(j * u64::MAX + u64::MAX == (j + 1) * u64::MAX) by (nonlinear_arith);
        }
        sum = sum + orders[j].qty as u128;
        j += 1;
    }
    proof {
        assert(queue_view(orders@).take(j as int) =~= queue_view(orders@));
    }
    sum
}

/// One side of a book, as an ordered map from price to queue.
pub struct Ledger {
    levels: Vec<PriceLevel>,
}

impl View for Ledger {
    type V = Seq<LevelView>;

    closed spec fn view(&self) -> Seq<LevelView> {
        levels_view(self.levels@)
    }
}

impl Ledger {
    /// Every ledger is well formed, at all times.
    #[verifier::type_invariant]
    pub open spec fn inv(&self) -> bool {
        levels_wf(self@)
    }

    /// A ledger with no level.
    pub fn new() -> (ledger: Ledger)
        ensures
            ledger@ == Seq::<LevelView>::empty(),
    {
        let ledger = Ledger { levels: Vec::new() };
        assert(ledger@ =~= Seq::<LevelView>::empty());
        ledger
    }

    /// The number of price levels.
    pub fn len(&self) -> (n: usize)
        ensures
            n == self@.len(),
    {
        self.levels.len()
    }

    /// Whether no order rests on this side.
    pub fn is_empty(&self) -> (b: bool)
        ensures
            b == (self@.len() == 0),
    {
        self.levels.len() == 0
    }

    /// Hands out the levels and leaves the ledger empty.
    fn take(&mut self) -> (levels: Vec<PriceLevel>)
        ensures
            levels_view(levels@) == old(self)@,
            levels_wf(old(self)@),
            final(self)@.len() == 0,
    {
        proof {
            use_type_invariant(&*self);
        }
        let mut levels: Vec<PriceLevel> = Vec::new();
        std::mem::swap(&mut levels, &mut self.levels);
        levels
    }

    /// Appends `order` to the queue at its price, opening the level if there
    /// is none yet.
    pub(crate) fn insert(&mut self, order: Order)
        ensures
            final(self)@ == with_order(old(self)@, order@),
    {
        let mut levels = self.take();
        insert_order(&mut levels, order);
        self.levels = levels;
    }

    /// The queue resting at `price`, if that price has a level.
    pub fn get(&self, price: &Price) -> (queue: Option<&Vec<Order>>)
        ensures
            match queue {
                Some(orders) => has_level(self@, price@) && queue_view(orders@) == queue_at(
                    self@,
                    price@,
                ),
                None => !has_level(self@, price@),
            },
    {
        proof {
            use_type_invariant(self);
        }
        let k = lower_bound(&self.levels, *price);
        if k < self.levels.len() && self.levels[k].price.0 == price.0 {
            Some(&self.levels[k].orders)
        } else {
            None
        }
    }

    /// The lowest price at which an order rests.
    pub fn lowest_price(&self) -> (price: Option<Price>)
        ensures
            match price {
                Some(p) => self@.len() > 0 && p@ == self@.first().price,
                None => self@.len() == 0,
            },
    {
        if self.levels.len() == 0 {
            None
        } else {
            Some(self.levels[0].price)
        }
    }

    /// The highest price at which an order rests.
    pub fn highest_price(&self) -> (price: Option<Price>)
        ensures
            match price {
                Some(p) => self@.len() > 0 && p@ == self@.last().price,
                None => self@.len() == 0,
            },
    {
        let n = self.levels.len();
        if n == 0 {
            None
        } else {
            Some(self.levels[n - 1].price)
        }
    }

    /// The oldest order of level `i`, counted from the lowest price.
    pub(crate) fn head(&self, i: usize) -> (order: &Order)
        requires
            i < self@.len(),
        ensures
            self@[i as int].orders.len() > 0,
            order@ == self@[i as int].orders[0],
    {
        proof {
            use_type_invariant(self);
        }
        assert(self@[i as int].orders.len() > 0);
        &self.levels[i].orders[0]
    }

    /// Executes `qty` against the oldest order of level `i`, counted from
    /// the lowest price.
    pub(crate) fn fill(&mut self, i: usize, qty: u64)
        requires
            i < old(self)@.len(),
        ensures
            final(self)@ == fill_head(old(self)@, i as int, qty as nat),
    {
        let mut levels = self.take();
        fill_front(&mut levels, i, qty);
        self.levels = levels;
    }

    /// Takes out the first order that carries `id`, searching the levels from
    /// the lowest price up and each queue from its oldest order on. Says
    /// whether there was one.
    pub(crate) fn remove(&mut self, id: u64) -> (found: bool)
        ensures
            match locate(old(self)@, id) {
                Some((i, j)) => found && final(self)@ == without_order(old(self)@, i, j),
                None => !found && final(self)@ == old(self)@,
            },
    {
        let mut levels = self.take();
        let found = remove_by_id(&mut levels, id);
        self.levels = levels;
        found
    }

    /// Up to `n` levels from the lowest price up, each with the quantity
    /// open at it.
    pub fn depth_low(&self, n: usize) -> (rows: Vec<(Price, u128)>)
        ensures
            depth_view(rows@) == depth_from_low(self@, n as nat),
    {
        let count = if n <= self.levels.len() {
            n
        } else {
            self.levels.len()
        };
        let mut rows: Vec<(Price, u128)> = Vec::new();
        let mut i: usize = 0;
        while i < count
            invariant
                i <= count <= self.levels.len(),
                rows.len() == i,
                forall|k: int|
                    0 <= k < i ==> (#[trigger] rows[k]).0@ == self@[k].price && rows[k].1
                        == total_qty(self@[k].orders),
            decreases count - i,
        {
            let total = queue_total(&self.levels[i].orders);
            rows.push((self.levels[i].price, total));
            i += 1;
        }
        proof {
            assert(depth_view(rows@) =~= depth_from_low(self@, n as nat));
        }
        rows
    }

    /// Up to `n` levels from the highest price down, each with the quantity
    /// open at it.
    pub fn depth_high(&self, n: usize) -> (rows: Vec<(Price, u128)>)
        ensures
            depth_view(rows@) == depth_from_high(self@, n as nat),
    {
        let len = self.levels.len();
        let count = if n <= len {
            n
        } else {
            len
        };
        let mut rows: Vec<(Price, u128)> = Vec::new();
        let mut i: usize = 0;
        while i < count
            invariant
                i <= count <= len,
                len == self.levels.len(),
                rows.len() == i,
                forall|k: int|
                    0 <= k < i ==> (#[trigger] rows[k]).0@ == self@[len - 1 - k].price
                        && rows[k].1 == total_qty(self@[len - 1 - k].orders),
            decreases count - i,
        {
            let total = queue_total(&self.levels[len - 1 - i].orders);
            rows.push((self.levels[len - 1 - i].price, total));
            i += 1;
        }
        proof {
            assert(depth_view(rows@) =~= depth_from_high(self@, n as nat));
        }
        rows
    }
}

} // verus!
