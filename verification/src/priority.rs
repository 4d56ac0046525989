//! Price priority: the order in which the matching pass visits one side of
//! the book.
//!
//! Buy orders are visited from the highest price down, sell orders from the
//! lowest price up. Orders at the same price are visited oldest first, that
//! is in the order in which the book holds them.

use vstd::prelude::*;
use crate::order::{Order, OrderSide};

verus! {

/// `a` offers a strictly better price than `b` to the other side of the
/// market: a higher bid, or a lower ask.
pub open spec fn outbids(a: Order, b: Order, side: OrderSide) -> bool {
    match side {
        OrderSide::Buy => a.price > b.price,
        OrderSide::Sell => a.price < b.price,
    }
}

/// Where the order at position `k` of the book enters `rank`, a priority
/// order of older orders: behind every order that it does not outbid.
pub open spec fn slot(orders: Seq<Order>, side: OrderSide, rank: Seq<usize>, k: usize) -> int
    decreases rank.len(),
{
    if rank.len() > 0 && outbids(orders[k as int], orders[rank.last() as int], side) {
        slot(orders, side, rank.drop_last(), k)
    } else {
        rank.len() as int
    }
}

/// The positions of the orders of `side` among the first `n` orders of the
/// book, in priority order.
pub open spec fn ranking(orders: Seq<Order>, side: OrderSide, n: nat) -> Seq<usize>
    decreases n,
{
    if n == 0 {
        Seq::empty()
    } else {
        let earlier = ranking(orders, side, (n - 1) as nat);
        let k = (n - 1) as usize;
        if orders[k as int].side == side {
            earlier.insert(slot(orders, side, earlier, k), k)
        } else {
            earlier
        }
    }
}

/// The positions of all orders of `side`, in priority order.
pub open spec fn priority(orders: Seq<Order>, side: OrderSide) -> Seq<usize> {
    ranking(orders, side, orders.len())
}

/// The slot lies behind everything the newcomer does not outbid and before
/// everything it outbids.
pub proof fn lemma_slot(orders: Seq<Order>, side: OrderSide, rank: Seq<usize>, k: usize)
    ensures
        0 <= slot(orders, side, rank, k) <= rank.len(),
        forall|i: int|
            slot(orders, side, rank, k) <= i < rank.len() ==> outbids(
                orders[k as int],
                orders[#[trigger] rank[i] as int],
                side,
            ),
        slot(orders, side, rank, k) > 0 ==> !outbids(
            orders[k as int],
            orders[rank[slot(orders, side, rank, k) - 1] as int],
            side,
        ),
    decreases rank.len(),
{
    if rank.len() > 0 && outbids(orders[k as int], orders[rank.last() as int], side) {
        lemma_slot(orders, side, rank.drop_last(), k);
        let p = slot(orders, side, rank.drop_last(), k);
        assert forall|i: int| p <= i < rank.len() implies outbids(
            orders[k as int],
            orders[#[trigger] rank[i] as int],
            side,
        ) by {
            if i < rank.len() - 1 {
                assert(rank.drop_last()[i] == rank[i]);
            }
        }
        if p > 0 {
            assert(rank.drop_last()[p - 1] == rank[p - 1]);
        }
    }
}

/// What makes `rank` the priority order of the orders of `side` among the
/// first `n`: it lists exactly their positions, never a worse price before a
/// better one, and at equal prices the older order first.
pub open spec fn is_priority_order(
    orders: Seq<Order>,
    side: OrderSide,
    n: nat,
    rank: Seq<usize>,
) -> bool {
    &&& forall|i: int|
        0 <= i < rank.len() ==> (#[trigger] rank[i]) < n && orders[rank[i] as int].side == side
    &&& forall|k: int|
        0 <= k < n && (#[trigger] orders[k]).side == side ==> exists|i: int|
            0 <= i < rank.len() && #[trigger] rank[i] == k
    &&& forall|i: int, j: int|
        0 <= i < j < rank.len() ==> !outbids(
            orders[#[trigger] rank[j] as int],
            orders[#[trigger] rank[i] as int],
            side,
        )
    &&& forall|i: int, j: int|
        0 <= i < j < rank.len() && orders[#[trigger] rank[i] as int].price == orders[
            #[trigger] rank[j] as int].price ==> rank[i] < rank[j]
}

/// `ranking` is the priority order.
pub proof fn lemma_ranking(orders: Seq<Order>, side: OrderSide, n: nat)
    requires
        n <= orders.len() <= usize::MAX,
    ensures
        is_priority_order(orders, side, n, ranking(orders, side, n)),
    decreases n,
{
    if n > 0 {
        let earlier = ranking(orders, side, (n - 1) as nat);
        let k = (n - 1) as usize;
        lemma_ranking(orders, side, (n - 1) as nat);
        if orders[k as int].side == side {
            let p = slot(orders, side, earlier, k);
            lemma_slot(orders, side, earlier, k);
            let rank = earlier.insert(p, k);
            earlier.insert_ensures(p, k);
            assert forall|i: int| 0 <= i < rank.len() implies (#[trigger] rank[i]) < n
                && orders[rank[i] as int].side == side by {
                if i < p {
                    assert(rank[i] == earlier[i]);
                } else if i > p {
                    assert(rank[i] == earlier[i - 1]);
                }
            }
            assert forall|j: int| 0 <= j < n && (#[trigger] orders[j]).side == side implies exists|
                i: int,
            |
                0 <= i < rank.len() && #[trigger] rank[i] == j by {
                if j == k {
                    assert(rank[p] == k);
                } else {
                    let i0 = choose|i: int| 0 <= i < earlier.len() && #[trigger] earlier[i] == j;
                    if i0 < p {
                        assert(rank[i0] == j);
                    } else {
                        assert(rank[i0 + 1] == j);
                    }
                }
            }
            assert forall|i: int, j: int| 0 <= i < j < rank.len() implies !outbids(
                orders[#[trigger] rank[j] as int],
                orders[#[trigger] rank[i] as int],
                side,
            ) by {
                lemma_inserted_pair(orders, side, n, earlier, p, i, j);
            }
            assert forall|i: int, j: int|
                0 <= i < j < rank.len() && orders[#[trigger] rank[i] as int].price == orders[
                    #[trigger] rank[j] as int].price implies rank[i] < rank[j] by {
                lemma_inserted_pair(orders, side, n, earlier, p, i, j);
            }
        }
    }
}

/// Two entries of a priority order stay in order when the newest order is
/// put into its slot.
proof fn lemma_inserted_pair(
    orders: Seq<Order>,
    side: OrderSide,
    n: nat,
    earlier: Seq<usize>,
    p: int,
    i: int,
    j: int,
)
    requires
        0 < n <= orders.len() <= usize::MAX,
        is_priority_order(orders, side, (n - 1) as nat, earlier),
        0 <= p <= earlier.len(),
        forall|t: int|
            p <= t < earlier.len() ==> outbids(
                orders[n - 1],
                orders[#[trigger] earlier[t] as int],
                side,
            ),
        p > 0 ==> !outbids(orders[n - 1], orders[earlier[p - 1] as int], side),
        0 <= i < j <= earlier.len(),
    ensures
        ({
            let rank = earlier.insert(p, (n - 1) as usize);
            &&& !outbids(orders[rank[j] as int], orders[rank[i] as int], side)
            &&& orders[rank[i] as int].price == orders[rank[j] as int].price ==> rank[i] < rank[j]
        }),
{
    let k = (n - 1) as usize;
    let rank = earlier.insert(p, k);
    earlier.insert_ensures(p, k);
    if j < p {
        assert(rank[i] == earlier[i] && rank[j] == earlier[j]);
    } else if j == p {
        assert(rank[i] == earlier[i] && rank[j] == k);
        assert(earlier[i] < n - 1);
        if i < p - 1 {
            assert(!outbids(orders[earlier[p - 1] as int], orders[earlier[i] as int], side));
        }
    } else if i == p {
        assert(rank[j] == earlier[j - 1] && rank[i] == k);
        assert(outbids(orders[k as int], orders[earlier[j - 1] as int], side));
    } else if i < p {
        assert(rank[i] == earlier[i] && rank[j] == earlier[j - 1]);
        if i < j - 1 {
            assert(!outbids(orders[earlier[j - 1] as int], orders[earlier[i] as int], side));
        } else {
            // i == j - 1 < p < j is impossible
        }
    } else {
        assert(rank[i] == earlier[i - 1] && rank[j] == earlier[j - 1]);
    }
}

/// Whether `a` offers a strictly better price than `b` on `side`.
pub fn has_better_price(a: &Order, b: &Order, side: OrderSide) -> (better: bool)
    ensures
        better == outbids(*a, *b, side),
{
    match side {
        OrderSide::Buy => a.price > b.price,
        OrderSide::Sell => a.price < b.price,
    }
}

/// Lists the positions of the orders of `side` in priority order: best price
/// first, and at equal prices the older order first.
pub fn priority_order(orders: &Vec<Order>, side: OrderSide) -> (rank: Vec<usize>)
    ensures
        rank@ == priority(orders@, side),
        is_priority_order(orders@, side, orders@.len(), rank@),
{
    let mut rank: Vec<usize> = Vec::new();
    let mut k: usize = 0;
    while k < orders.len()
        invariant
            k <= orders.len(),
            rank@ == ranking(orders@, side, k as nat),
            forall|i: int| 0 <= i < rank.len() ==> (#[trigger] rank[i]) < k,
        decreases orders.len() - k,
    {
        if orders[k].side == side {
            let mut p: usize = rank.len();
            assert(rank@.take(p as int) =~= rank@);
            while p > 0 && has_better_price(&orders[k], &orders[rank[p - 1]], side)
                invariant
                    k < orders.len(),
                    p <= rank.len(),
                    forall|i: int| 0 <= i < rank.len() ==> (#[trigger] rank[i]) < k,
                    slot(orders@, side, rank@, k) == slot(orders@, side, rank@.take(p as int), k),
                decreases p,
            {
                assert(rank@.take(p as int).drop_last() =~= rank@.take(p - 1));
                p -= 1;
            }
            assert(slot(orders@, side, rank@.take(p as int), k) == p);
            let ghost before = rank@;
            rank.insert(p, k);
            proof {
                before.insert_ensures(p as int, k);
                assert forall|i: int| 0 <= i < rank.len() implies (#[trigger] rank[i]) < k + 1 by {
                    if i < p {
                        assert(rank[i] == before[i]);
                    } else if i > p {
                        assert(rank[i] == before[i - 1]);
                    }
                }
            }
        }
        k += 1;
    }
    proof {
        lemma_ranking(orders@, side, orders@.len());
    }
    rank
}

} // verus!
