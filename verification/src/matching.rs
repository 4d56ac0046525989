//! The matching pass: crossing compatible orders and pruning filled ones.
//!
//! A pass visits every buy order in priority order and, for each, every sell
//! order in priority order. Wherever the bid is at least the ask, the pair
//! trades as much as both still have unfilled. Each trade pays the matched
//! quantity of the quote asset to the seller and of the base asset to the
//! buyer, both out of custody. Orders with nothing left are then dropped.
//!
//! An exhausted order trades nothing more, so visiting every pair yields the
//! trades of the usual walk with one cursor per side; it only takes longer.
//! The book's capacity bounds the cost of a pass.

use vstd::prelude::*;
use crate::book::{
    ascending, inherits, lemma_live_remaining_update, live_remaining, Book, DexState, Step,
};
use crate::error::ErrorCode;
use crate::escrow::{
    collateral, custody_flow, lemma_custody_flow_push, payout, Asset, Party, Transfer,
};
use crate::order::{Order, OrderSide};
use crate::priority::{is_priority_order, lemma_ranking, priority, priority_order};

verus! {

/// The bid meets the ask.
pub open spec fn crosses(buy: Order, sell: Order) -> bool {
    buy.price >= sell.price
}

/// What a crossing pair trades: the smaller of the two unfilled quantities.
pub open spec fn match_quantity(buy: Order, sell: Order) -> int {
    if buy.unfilled() <= sell.unfilled() {
        buy.unfilled()
    } else {
        sell.unfilled()
    }
}

/// A matching pass under way: the orders with the fills made so far, and the
/// settlement transfers those fills call for.
pub struct Crossing {
    pub orders: Seq<Order>,
    pub legs: Seq<Transfer>,
}

/// Lets the buy order at position `b` trade with the sell order at `s`.
pub open spec fn settle_pair(c: Crossing, b: int, s: int) -> Crossing {
    let buy = c.orders[b];
    let sell = c.orders[s];
    let quantity = match_quantity(buy, sell);
    if crosses(buy, sell) && quantity > 0 {
        Crossing {
            orders: c.orders.update(b, buy.with_fill(quantity)).update(
                s,
                sell.with_fill(quantity),
            ),
            legs: c.legs.push(payout(Asset::Quote, sell.owner, quantity as u64)).push(
                payout(Asset::Base, buy.owner, quantity as u64),
            ),
        }
    } else {
        c
    }
}

/// Lets the buy order at `b` trade with the first `n` of `sells`, in turn.
pub open spec fn cross_row(c: Crossing, b: int, sells: Seq<usize>, n: nat) -> Crossing
    decreases n,
{
    if n == 0 {
        c
    } else {
        settle_pair(cross_row(c, b, sells, (n - 1) as nat), b, sells[n - 1] as int)
    }
}

/// Lets the first `m` of `buys`, in turn, trade with all of `sells`.
pub open spec fn cross_book(c: Crossing, buys: Seq<usize>, sells: Seq<usize>, m: nat) -> Crossing
    decreases m,
{
    if m == 0 {
        c
    } else {
        cross_row(cross_book(c, buys, sells, (m - 1) as nat), buys[m - 1] as int, sells, sells.len())
    }
}

/// A whole pass over `orders`, both sides in priority order.
pub open spec fn crossed(orders: Seq<Order>) -> Crossing {
    let buys = priority(orders, OrderSide::Buy);
    let sells = priority(orders, OrderSide::Sell);
    cross_book(Crossing { orders, legs: Seq::empty() }, buys, sells, buys.len())
}

/// The orders at `b` and `s` are a bid and an ask that cross, and one of them
/// is overdrawn, so that its unfilled quantity cannot be computed.
pub open spec fn corrupt_pair(orders: Seq<Order>, b: int, s: int) -> bool {
    &&& orders[b].side == OrderSide::Buy
    &&& orders[s].side == OrderSide::Sell
    &&& crosses(orders[b], orders[s])
    &&& (orders[b].overdrawn() || orders[s].overdrawn())
}

/// Some crossing pair of the book has an overdrawn order.
pub open spec fn blocked(orders: Seq<Order>) -> bool {
    exists|b: int, s: int|
        0 <= b < orders.len() && 0 <= s < orders.len() && #[trigger] corrupt_pair(orders, b, s)
}

/// The orders a pass keeps: those with something left to match.
pub open spec fn is_live() -> spec_fn(Order) -> bool {
    |o: Order| !o.filled()
}

/// `orders` without the filled ones.
pub open spec fn prune(orders: Seq<Order>) -> Seq<Order> {
    orders.filter(is_live())
}

/// What a matching pass does to a book. A pass that meets an overdrawn order
/// in a crossing pair fails as a whole; otherwise it returns the settlement
/// transfers, two per trade.
pub open spec fn match_step(book: Book) -> Step {
    if blocked(book.orders) {
        Step { book, result: Err(ErrorCode::ArithmeticOverflow) }
    } else {
        let c = crossed(book.orders);
        Step { book: Book { orders: prune(c.orders), ..book }, result: Ok(c.legs) }
    }
}

/// `work` is `orders` part-way through a pass: order by order the same terms,
/// at least as much filled, and overdrawn only where it was before.
pub open spec fn tracks(orders: Seq<Order>, work: Seq<Order>) -> bool {
    &&& work.len() == orders.len()
    &&& forall|k: int|
        0 <= k < orders.len() ==> orders[k].advanced_to(#[trigger] work[k]) && work[k].overdrawn()
            == orders[k].overdrawn()
}

/// The part of the unfilled total of `side` that the settlement transfers
/// have not yet paid out of custody. A pass never changes it.
pub open spec fn backing(c: Crossing, side: OrderSide) -> int {
    live_remaining(c.orders, side) - custody_flow(c.legs, collateral(side))
}

/// Tracking composes.
pub proof fn lemma_tracks_chain(first: Seq<Order>, second: Seq<Order>, third: Seq<Order>)
    requires
        tracks(first, second),
        tracks(second, third),
    ensures
        tracks(first, third),
{
    assert forall|k: int| 0 <= k < first.len() implies first[k].advanced_to(#[trigger] third[k])
        && third[k].overdrawn() == first[k].overdrawn() by {
        assert(first[k].advanced_to(second[k]));
        assert(second[k].advanced_to(third[k]));
    }
}

/// One trade only ever fills, never past the amount; it exhausts one of the
/// two orders if they cross and neither is overdrawn; and it pays out of
/// custody exactly what it takes off the unfilled totals.
pub proof fn lemma_settle_pair(c: Crossing, b: int, s: int)
    requires
        0 <= b < c.orders.len(),
        0 <= s < c.orders.len(),
        c.orders[b].side == OrderSide::Buy,
        c.orders[s].side == OrderSide::Sell,
    ensures
        tracks(c.orders, settle_pair(c, b, s).orders),
        crosses(c.orders[b], c.orders[s]) && !c.orders[b].overdrawn() && !c.orders[s].overdrawn()
            ==> settle_pair(c, b, s).orders[b].filled() || settle_pair(c, b, s).orders[s].filled(),
        backing(settle_pair(c, b, s), OrderSide::Buy) == backing(c, OrderSide::Buy),
        backing(settle_pair(c, b, s), OrderSide::Sell) == backing(c, OrderSide::Sell),
{
    let buy = c.orders[b];
    let sell = c.orders[s];
    let quantity = match_quantity(buy, sell);
    let d = settle_pair(c, b, s);
    if crosses(buy, sell) && quantity > 0 {
        let half = c.orders.update(b, buy.with_fill(quantity));
        assert(half[s] == sell);
        lemma_live_remaining_update(c.orders, b, buy.with_fill(quantity), OrderSide::Buy);
        lemma_live_remaining_update(c.orders, b, buy.with_fill(quantity), OrderSide::Sell);
        lemma_live_remaining_update(half, s, sell.with_fill(quantity), OrderSide::Buy);
        lemma_live_remaining_update(half, s, sell.with_fill(quantity), OrderSide::Sell);
        let quote_leg = payout(Asset::Quote, sell.owner, quantity as u64);
        let base_leg = payout(Asset::Base, buy.owner, quantity as u64);
        lemma_custody_flow_push(c.legs, quote_leg, Asset::Quote);
        lemma_custody_flow_push(c.legs, quote_leg, Asset::Base);
        lemma_custody_flow_push(c.legs.push(quote_leg), base_leg, Asset::Quote);
        lemma_custody_flow_push(c.legs.push(quote_leg), base_leg, Asset::Base);
        assert forall|k: int| 0 <= k < c.orders.len() implies c.orders[k].advanced_to(
            #[trigger] d.orders[k],
        ) && d.orders[k].overdrawn() == c.orders[k].overdrawn() by {}
    } else {
        assert forall|k: int| 0 <= k < c.orders.len() implies c.orders[k].advanced_to(
            #[trigger] d.orders[k],
        ) && d.orders[k].overdrawn() == c.orders[k].overdrawn() by {}
    }
}

/// An order that has been exhausted stays exhausted.
pub proof fn lemma_filled_for_good(before: Seq<Order>, after: Seq<Order>, k: int)
    requires
        tracks(before, after),
        0 <= k < before.len(),
        before[k].filled(),
    ensures
        after[k].filled(),
{
    assert(before[k].advanced_to(after[k]));
}

/// What `lemma_settle_pair` says of one trade holds of a buy order's whole
/// round through the first `n` sell orders.
pub proof fn lemma_cross_row(c: Crossing, b: int, sells: Seq<usize>, n: nat)
    requires
        0 <= b < c.orders.len(),
        c.orders[b].side == OrderSide::Buy,
        n <= sells.len(),
        forall|j: int|
            0 <= j < n ==> (#[trigger] sells[j]) < c.orders.len() && c.orders[sells[j] as int].side
                == OrderSide::Sell,
    ensures
        tracks(c.orders, cross_row(c, b, sells, n).orders),
        backing(cross_row(c, b, sells, n), OrderSide::Buy) == backing(c, OrderSide::Buy),
        backing(cross_row(c, b, sells, n), OrderSide::Sell) == backing(c, OrderSide::Sell),
        forall|j: int|
            0 <= j < n && crosses(c.orders[b], c.orders[#[trigger] sells[j] as int])
                && !c.orders[b].overdrawn() && !c.orders[sells[j] as int].overdrawn() ==> cross_row(
                c,
                b,
                sells,
                n,
            ).orders[b].filled() || cross_row(c, b, sells, n).orders[sells[j] as int].filled(),
    decreases n,
{
    if n == 0 {
        assert forall|k: int| 0 <= k < c.orders.len() implies c.orders[k].advanced_to(
            #[trigger] c.orders[k],
        ) by {}
    } else {
        let before = cross_row(c, b, sells, (n - 1) as nat);
        let s = sells[n - 1] as int;
        let after = settle_pair(before, b, s);
        lemma_cross_row(c, b, sells, (n - 1) as nat);
        assert(c.orders[b].advanced_to(before.orders[b]));
        assert(c.orders[s].advanced_to(before.orders[s]));
        lemma_settle_pair(before, b, s);
        lemma_tracks_chain(c.orders, before.orders, after.orders);
        assert forall|j: int|
            0 <= j < n && crosses(c.orders[b], c.orders[#[trigger] sells[j] as int])
                && !c.orders[b].overdrawn() && !c.orders[sells[j] as int].overdrawn() implies after.orders[b].filled()
            || after.orders[sells[j] as int].filled() by {
            if j < n - 1 {
                if before.orders[b].filled() {
                    lemma_filled_for_good(before.orders, after.orders, b);
                } else {
                    lemma_filled_for_good(before.orders, after.orders, sells[j] as int);
                }
            }
        }
    }
}

/// What `lemma_settle_pair` says of one trade holds of the rounds of the
/// first `m` buy orders.
pub proof fn lemma_cross_book(c: Crossing, buys: Seq<usize>, sells: Seq<usize>, m: nat)
    requires
        m <= buys.len(),
        forall|i: int|
            0 <= i < m ==> (#[trigger] buys[i]) < c.orders.len() && c.orders[buys[i] as int].side
                == OrderSide::Buy,
        forall|j: int|
            0 <= j < sells.len() ==> (#[trigger] sells[j]) < c.orders.len()
                && c.orders[sells[j] as int].side == OrderSide::Sell,
    ensures
        tracks(c.orders, cross_book(c, buys, sells, m).orders),
        backing(cross_book(c, buys, sells, m), OrderSide::Buy) == backing(c, OrderSide::Buy),
        backing(cross_book(c, buys, sells, m), OrderSide::Sell) == backing(c, OrderSide::Sell),
        forall|i: int, j: int|
            0 <= i < m && 0 <= j < sells.len() && crosses(
                c.orders[#[trigger] buys[i] as int],
                c.orders[#[trigger] sells[j] as int],
            ) && !c.orders[buys[i] as int].overdrawn() && !c.orders[sells[j] as int].overdrawn()
                ==> cross_book(c, buys, sells, m).orders[buys[i] as int].filled() || cross_book(
                c,
                buys,
                sells,
                m,
            ).orders[sells[j] as int].filled(),
    decreases m,
{
    if m == 0 {
        assert forall|k: int| 0 <= k < c.orders.len() implies c.orders[k].advanced_to(
            #[trigger] c.orders[k],
        ) by {}
    } else {
        let before = cross_book(c, buys, sells, (m - 1) as nat);
        let b = buys[m - 1] as int;
        let after = cross_row(before, b, sells, sells.len());
        lemma_cross_book(c, buys, sells, (m - 1) as nat);
        assert(c.orders[b].advanced_to(before.orders[b]));
        assert forall|j: int| 0 <= j < sells.len() implies (#[trigger] sells[j])
            < before.orders.len() && before.orders[sells[j] as int].side == OrderSide::Sell by {
            assert(c.orders[sells[j] as int].advanced_to(before.orders[sells[j] as int]));
        }
        lemma_cross_row(before, b, sells, sells.len());
        lemma_tracks_chain(c.orders, before.orders, after.orders);
        assert forall|i: int, j: int|
            0 <= i < m && 0 <= j < sells.len() && crosses(
                c.orders[#[trigger] buys[i] as int],
                c.orders[#[trigger] sells[j] as int],
            ) && !c.orders[buys[i] as int].overdrawn()
                && !c.orders[sells[j] as int].overdrawn() implies after.orders[buys[i] as int].filled()
            || after.orders[sells[j] as int].filled() by {
            let bi = buys[i] as int;
            let sj = sells[j] as int;
            if i < m - 1 {
                if before.orders[bi].filled() {
                    lemma_filled_for_good(before.orders, after.orders, bi);
                } else {
                    lemma_filled_for_good(before.orders, after.orders, sj);
                }
            } else {
                assert(c.orders[bi].advanced_to(before.orders[bi]));
                assert(c.orders[sj].advanced_to(before.orders[sj]));
            }
        }
    }
}

/// A whole pass only ever fills, never past the amount; it pays out of
/// custody exactly what it takes off the unfilled totals; and of every bid
/// and ask that cross, neither overdrawn, it exhausts one.
pub proof fn lemma_crossed(orders: Seq<Order>)
    requires
        orders.len() <= usize::MAX,
    ensures
        tracks(orders, crossed(orders).orders),
        live_remaining(crossed(orders).orders, OrderSide::Buy) == live_remaining(
            orders,
            OrderSide::Buy,
        ) + custody_flow(crossed(orders).legs, Asset::Quote),
        live_remaining(crossed(orders).orders, OrderSide::Sell) == live_remaining(
            orders,
            OrderSide::Sell,
        ) + custody_flow(crossed(orders).legs, Asset::Base),
        forall|b: int, s: int|
            0 <= b < orders.len() && 0 <= s < orders.len() && orders[b].side == OrderSide::Buy
                && orders[s].side == OrderSide::Sell && crosses(orders[b], orders[s])
                && !orders[b].overdrawn() && !orders[s].overdrawn() ==> (#[trigger] crossed(
                orders,
            ).orders[b]).filled() || (#[trigger] crossed(orders).orders[s]).filled(),
{
    let buys = priority(orders, OrderSide::Buy);
    let sells = priority(orders, OrderSide::Sell);
    let start = Crossing { orders, legs: Seq::empty() };
    lemma_ranking(orders, OrderSide::Buy, orders.len());
    lemma_ranking(orders, OrderSide::Sell, orders.len());
    lemma_cross_book(start, buys, sells, buys.len());
    let done = crossed(orders);
    assert forall|b: int, s: int|
        0 <= b < orders.len() && 0 <= s < orders.len() && orders[b].side == OrderSide::Buy
            && orders[s].side == OrderSide::Sell && crosses(orders[b], orders[s])
            && !orders[b].overdrawn() && !orders[s].overdrawn() implies (
    #[trigger] done.orders[b]).filled() || (#[trigger] done.orders[s]).filled() by {
        let i = choose|i: int| 0 <= i < buys.len() && #[trigger] buys[i] == b;
        let j = choose|j: int| 0 <= j < sells.len() && #[trigger] sells[j] == s;
        assert(buys[i] as int == b && sells[j] as int == s);
    }
}

/// Pruning keeps live orders only, each of them an order of the input.
pub proof fn lemma_prune_members(orders: Seq<Order>)
    ensures
        prune(orders).len() <= orders.len(),
        forall|j: int|
            0 <= j < prune(orders).len() ==> !(#[trigger] prune(orders)[j]).filled() && exists|
                i: int,
            |
                0 <= i < orders.len() && #[trigger] orders[i] == prune(orders)[j],
    decreases orders.len(),
{
    reveal(Seq::filter);
    if orders.len() > 0 {
        let rest = orders.drop_last();
        let kept = prune(rest);
        let all = prune(orders);
        lemma_prune_members(rest);
        assert forall|j: int| 0 <= j < all.len() implies !(#[trigger] all[j]).filled() && exists|
            i: int,
        |
            0 <= i < orders.len() && #[trigger] orders[i] == all[j] by {
            if j < kept.len() {
                assert(all[j] == kept[j]);
                let i = choose|i: int| 0 <= i < rest.len() && #[trigger] rest[i] == kept[j];
                assert(orders[i] == all[j]);
            } else {
                assert(orders[orders.len() - 1] == all[j]);
            }
        }
    }
}

/// Pruning leaves the unfilled totals as they are: a filled order has no
/// stake.
pub proof fn lemma_prune_total(orders: Seq<Order>, side: OrderSide)
    ensures
        live_remaining(prune(orders), side) == live_remaining(orders, side),
    decreases orders.len(),
{
    reveal(Seq::filter);
    if orders.len() > 0 {
        lemma_prune_total(orders.drop_last(), side);
        if !orders.last().filled() {
            assert(prune(orders).drop_last() =~= prune(orders.drop_last()));
        }
    }
}

/// Pruning keeps the orders in their order.
pub proof fn lemma_prune_ascending(orders: Seq<Order>)
    requires
        ascending(orders),
    ensures
        ascending(prune(orders)),
    decreases orders.len(),
{
    reveal(Seq::filter);
    if orders.len() > 0 {
        let rest = orders.drop_last();
        let kept = prune(rest);
        let all = prune(orders);
        assert forall|i: int, j: int| 0 <= i < j < rest.len() implies (#[trigger] rest[i]).id < (
        #[trigger] rest[j]).id by {
            assert(rest[i] == orders[i] && rest[j] == orders[j]);
        }
        lemma_prune_ascending(rest);
        lemma_prune_members(rest);
        assert forall|i: int, j: int| 0 <= i < j < all.len() implies (#[trigger] all[i]).id < (
        #[trigger] all[j]).id by {
            assert(all[i] == kept[i]);
            if j < kept.len() {
                assert(all[j] == kept[j]);
            } else {
                let t = choose|t: int| 0 <= t < rest.len() && #[trigger] rest[t] == kept[i];
                assert(orders[t] == rest[t]);
                assert(orders[t].id < orders[orders.len() - 1].id);
            }
        }
    }
}

/// Pruning a book in which every order is live changes nothing.
pub proof fn lemma_prune_all_live(orders: Seq<Order>)
    requires
        forall|i: int| 0 <= i < orders.len() ==> !(#[trigger] orders[i]).filled(),
    ensures
        prune(orders) == orders,
    decreases orders.len(),
{
    reveal(Seq::filter);
    if orders.len() > 0 {
        let rest = orders.drop_last();
        assert forall|i: int| 0 <= i < rest.len() implies !(#[trigger] rest[i]).filled() by {
            assert(rest[i] == orders[i]);
        }
        lemma_prune_all_live(rest);
        assert(!orders[orders.len() - 1].filled());
        assert(prune(orders) =~= orders);
    }
}

/// A matching pass keeps a well-formed book well-formed, and every order it
/// leaves in the book has its old terms and at least as much filled.
pub proof fn lemma_match_keeps_wf(book: Book)
    requires
        book.wf(),
    ensures
        match_step(book).book.wf(),
        inherits(book, match_step(book).book),
        match_step(book).book.next_id == book.next_id,
{
    let post = match_step(book).book;
    if blocked(book.orders) {
        assert forall|j: int| 0 <= j < post.orders.len() implies exists|i: int|
            0 <= i < book.orders.len() && (#[trigger] book.orders[i]).advanced_to(
                #[trigger] post.orders[j],
            ) by {
            assert(book.orders[j].advanced_to(post.orders[j]));
        }
    } else {
        let done = crossed(book.orders).orders;
        lemma_crossed(book.orders);
        lemma_prune_members(done);
        assert forall|i: int, j: int| 0 <= i < j < done.len() implies (#[trigger] done[i]).id < (
        #[trigger] done[j]).id by {
            assert(book.orders[i].advanced_to(done[i]));
            assert(book.orders[j].advanced_to(done[j]));
        }
        lemma_prune_ascending(done);
        assert forall|j: int| 0 <= j < post.orders.len() implies (#[trigger] post.orders[j]).id
            < post.next_id && !post.orders[j].overdrawn() && exists|i: int|
            0 <= i < book.orders.len() && (#[trigger] book.orders[i]).advanced_to(
                post.orders[j],
            ) by {
            let i = choose|i: int| 0 <= i < done.len() && #[trigger] done[i] == post.orders[j];
            assert(book.orders[i].advanced_to(done[i]));
        }
    }
}

/// A matching pass lowers the unfilled total of each side by exactly what
/// its settlement transfers pay out of custody in that side's collateral.
pub proof fn lemma_match_conserves(book: Book, of: OrderSide)
    requires
        book.orders.len() <= usize::MAX,
    ensures
        ({
            let step = match_step(book);
            match step.result {
                Ok(transfers) => live_remaining(step.book.orders, of) == live_remaining(
                    book.orders,
                    of,
                ) + custody_flow(transfers, collateral(of)),
                Err(_) => step.book == book,
            }
        }),
{
    if !blocked(book.orders) {
        lemma_crossed(book.orders);
        lemma_prune_total(crossed(book.orders).orders, of);
    }
}

/// No bid of `orders` meets an ask.
pub open spec fn uncrossed(orders: Seq<Order>) -> bool {
    forall|b: int, s: int|
        0 <= b < orders.len() && 0 <= s < orders.len() && (#[trigger] orders[b]).side
            == OrderSide::Buy && (#[trigger] orders[s]).side == OrderSide::Sell ==> !crosses(
            orders[b],
            orders[s],
        )
}

/// A successful matching pass leaves a book in which no bid meets an ask and
/// every order has something left to match.
pub proof fn lemma_match_uncrosses(book: Book)
    requires
        book.orders.len() <= usize::MAX,
        match_step(book).result is Ok,
    ensures
        uncrossed(match_step(book).book.orders),
        forall|i: int|
            0 <= i < match_step(book).book.orders.len() ==> !(
            #[trigger] match_step(book).book.orders[i]).filled(),
{
    let done = crossed(book.orders).orders;
    let post = match_step(book).book.orders;
    lemma_crossed(book.orders);
    lemma_prune_members(done);
    assert forall|b: int, s: int|
        0 <= b < post.len() && 0 <= s < post.len() && (#[trigger] post[b]).side == OrderSide::Buy
            && (#[trigger] post[s]).side == OrderSide::Sell implies !crosses(post[b], post[s]) by {
        let b0 = choose|i: int| 0 <= i < done.len() && #[trigger] done[i] == post[b];
        let s0 = choose|i: int| 0 <= i < done.len() && #[trigger] done[i] == post[s];
        assert(book.orders[b0].advanced_to(done[b0]));
        assert(book.orders[s0].advanced_to(done[s0]));
        if crosses(post[b], post[s]) {
            assert(!corrupt_pair(book.orders, b0, s0));
            assert(done[b0].filled() || done[s0].filled());
        }
    }
}

/// A buy order's round through an uncrossed book trades nothing.
proof fn lemma_idle_row(c: Crossing, b: int, sells: Seq<usize>, n: nat)
    requires
        uncrossed(c.orders),
        0 <= b < c.orders.len(),
        c.orders[b].side == OrderSide::Buy,
        n <= sells.len(),
        forall|j: int|
            0 <= j < n ==> (#[trigger] sells[j]) < c.orders.len() && c.orders[sells[j] as int].side
                == OrderSide::Sell,
    ensures
        cross_row(c, b, sells, n) == c,
    decreases n,
{
    if n > 0 {
        lemma_idle_row(c, b, sells, (n - 1) as nat);
        assert(sells[n - 1] < c.orders.len());
    }
}

/// A pass over an uncrossed book trades nothing.
proof fn lemma_idle_book(c: Crossing, buys: Seq<usize>, sells: Seq<usize>, m: nat)
    requires
        uncrossed(c.orders),
        m <= buys.len(),
        forall|i: int|
            0 <= i < m ==> (#[trigger] buys[i]) < c.orders.len() && c.orders[buys[i] as int].side
                == OrderSide::Buy,
        forall|j: int|
            0 <= j < sells.len() ==> (#[trigger] sells[j]) < c.orders.len()
                && c.orders[sells[j] as int].side == OrderSide::Sell,
    ensures
        cross_book(c, buys, sells, m) == c,
    decreases m,
{
    if m > 0 {
        lemma_idle_book(c, buys, sells, (m - 1) as nat);
        assert(buys[m - 1] < c.orders.len());
        lemma_idle_row(c, buys[m - 1] as int, sells, sells.len());
    }
}

/// A second matching pass right after a first changes nothing: the book
/// stays as the first pass left it, and no further transfer is called for.
pub proof fn lemma_match_is_idempotent(book: Book)
    requires
        book.orders.len() <= usize::MAX,
    ensures
        match_step(match_step(book).book).book == match_step(book).book,
        match_step(book).result is Ok ==> match_step(match_step(book).book).result == Ok::<
            Seq<Transfer>,
            ErrorCode,
        >(Seq::empty()),
{
    if match_step(book).result is Ok {
        let post = match_step(book).book;
        lemma_match_uncrosses(book);
        lemma_crossed(book.orders);
        lemma_prune_members(crossed(book.orders).orders);
        lemma_ranking(post.orders, OrderSide::Buy, post.orders.len());
        lemma_ranking(post.orders, OrderSide::Sell, post.orders.len());
        let buys = priority(post.orders, OrderSide::Buy);
        let sells = priority(post.orders, OrderSide::Sell);
        let start = Crossing { orders: post.orders, legs: Seq::empty() };
        lemma_idle_book(start, buys, sells, buys.len());
        lemma_prune_all_live(post.orders);
        assert(!blocked(post.orders));
    }
}

/// Copies the live orders of `orders`, in order.
pub fn live_orders(orders: &Vec<Order>) -> (kept: Vec<Order>)
    ensures
        kept@ == prune(orders@),
{
    let mut kept: Vec<Order> = Vec::new();
    let mut k: usize = 0;
    proof {
        reveal(Seq::filter);
        assert(orders@.take(0) =~= Seq::<Order>::empty());
    }
    while k < orders.len()
        invariant
            k <= orders.len(),
            kept@ == prune(orders@.take(k as int)),
        decreases orders.len() - k,
    {
        proof {
            assert(orders@.take(k + 1) =~= orders@.take(k as int).push(orders@[k as int]));
            orders@.take(k as int).lemma_filter_push(orders@[k as int], is_live());
        }
        if !orders[k].is_filled() {
            kept.push(orders[k]);
        }
        k += 1;
    }
    assert(orders@.take(k as int) =~= orders@);
    kept
}

/// Runs one matching pass over the book.
///
/// On success the book holds the fills of the pass and no filled order, and
/// the settlement transfers are returned in the order of the trades: for each
/// trade the quote leg to the seller, then the base leg to the buyer. The
/// pass fails with `ArithmeticOverflow`, leaving the book untouched, exactly
/// if an overdrawn order is part of a crossing pair.
///
/// The book does not ask who triggers a pass. That the caller is the book's
/// `authority` is for the host to establish.
pub fn match_orders(state: &mut DexState) -> (r: Result<Vec<Transfer>, ErrorCode>)
    ensures
        final(state)@ == match_step(old(state)@).book,
        match r {
            Ok(legs) => match_step(old(state)@).result == Ok::<Seq<Transfer>, ErrorCode>(legs@),
            Err(e) => match_step(old(state)@).result == Err::<Seq<Transfer>, ErrorCode>(e),
        },
        r is Err <==> blocked(old(state).orders@),
        r is Ok ==> uncrossed(final(state).orders@),
        r is Ok ==> forall|i: int|
            0 <= i < final(state).orders@.len() ==> !(#[trigger] final(state).orders@[i]).filled(),
        old(state)@.wf() ==> final(state)@.wf(),
{
    let count = state.orders.len();
    proof {
        if state@.wf() {
            lemma_match_keeps_wf(state@);
        }
        if !blocked(state.orders@) {
            lemma_match_uncrosses(state@);
        }
    }
    let buys = priority_order(&state.orders, OrderSide::Buy);
    let sells = priority_order(&state.orders, OrderSide::Sell);
    let ghost orders = state.orders@;
    let ghost start = Crossing { orders, legs: Seq::empty() };
    let mut work: Vec<Order> = Vec::new();
    let mut k: usize = 0;
    while k < count
        invariant
            k <= count == orders.len(),
            state.orders@ == orders,
            work@ == orders.take(k as int),
        decreases count - k,
    {
        work.push(state.orders[k]);
        assert(orders.take(k + 1) =~= orders.take(k as int).push(orders[k as int]));
        k += 1;
    }
    assert(work@ =~= orders);
    let mut legs: Vec<Transfer> = Vec::new();
    let mut i: usize = 0;
    while i < buys.len()
        invariant
            i <= buys.len(),
            buys@ == priority(orders, OrderSide::Buy),
            sells@ == priority(orders, OrderSide::Sell),
            is_priority_order(orders, OrderSide::Buy, orders.len(), buys@),
            is_priority_order(orders, OrderSide::Sell, orders.len(), sells@),
            start == (Crossing { orders, legs: Seq::empty() }),
            *state == *old(state),
            state.orders@ == orders,
            tracks(orders, work@),
            work@ == cross_book(start, buys@, sells@, i as nat).orders,
            legs@ == cross_book(start, buys@, sells@, i as nat).legs,
            forall|bi: int, sj: int|
                0 <= bi < i && 0 <= sj < sells.len() ==> !corrupt_pair(
                    orders,
                    #[trigger] buys[bi] as int,
                    #[trigger] sells[sj] as int,
                ),
        decreases buys.len() - i,
    {
        let b = buys[i];
        let ghost row = cross_book(start, buys@, sells@, i as nat);
        let mut j: usize = 0;
        while j < sells.len()
            invariant
                i < buys.len(),
                j <= sells.len(),
                b == buys[i as int],
                is_priority_order(orders, OrderSide::Buy, orders.len(), buys@),
                is_priority_order(orders, OrderSide::Sell, orders.len(), sells@),
                *state == *old(state),
                state.orders@ == orders,
                tracks(orders, work@),
                work@ == cross_row(row, b as int, sells@, j as nat).orders,
                legs@ == cross_row(row, b as int, sells@, j as nat).legs,
                forall|sj: int|
                    0 <= sj < j ==> !corrupt_pair(orders, b as int, #[trigger] sells[sj] as int),
            decreases sells.len() - j,
        {
            let s = sells[j];
            assert(orders[b as int].advanced_to(work@[b as int]));
            assert(orders[s as int].advanced_to(work@[s as int]));
            let buy: Order = work[b];
            let sell: Order = work[s];
            if buy.price >= sell.price {
                let buy_left = match buy.remaining() {
                    Ok(left) => left,
                    Err(e) => {
                        assert(corrupt_pair(orders, b as int, s as int));
                        return Err(e);
                    },
                };
                let sell_left = match sell.remaining() {
                    Ok(left) => left,
                    Err(e) => {
                        assert(corrupt_pair(orders, b as int, s as int));
                        return Err(e);
                    },
                };
                let quantity = if buy_left <= sell_left {
                    buy_left
                } else {
                    sell_left
                };
                if quantity > 0 {
                    let mut bought = buy;
                    match bought.fill(quantity) {
                        Ok(()) => {},
                        Err(e) => {
                            return Err(e);
                        },
                    }
                    let mut sold = sell;
                    match sold.fill(quantity) {
                        Ok(()) => {},
                        Err(e) => {
                            return Err(e);
                        },
                    }
                    work.set(b, bought);
                    work.set(s, sold);
                    legs.push(
                        Transfer {
                            asset: Asset::Quote,
                            from: Party::Custody,
                            to: Party::User(sell.owner),
                            amount: quantity,
                        },
                    );
                    legs.push(
                        Transfer {
                            asset: Asset::Base,
                            from: Party::Custody,
                            to: Party::User(buy.owner),
                            amount: quantity,
                        },
                    );
                }
            }
            j += 1;
        }
        i += 1;
    }
    proof {
        if blocked(orders) {
            let (b, s) = choose|b: int, s: int|
                0 <= b < orders.len() && 0 <= s < orders.len() && #[trigger] corrupt_pair(
                    orders,
                    b,
                    s,
                );
            let bi = choose|bi: int| 0 <= bi < buys@.len() && #[trigger] buys@[bi] == b;
            let sj = choose|sj: int| 0 <= sj < sells@.len() && #[trigger] sells@[sj] == s;
            assert(!corrupt_pair(orders, buys[bi] as int, sells[sj] as int));
        }
    }
    state.orders = live_orders(&work);
    Ok(legs)
}

} // verus!
