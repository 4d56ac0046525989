//! Histories: what holds of a book after any sequence of operations.

use vstd::prelude::*;
use crate::admission::{lemma_place_conserves, lemma_place_keeps_wf, place_step};
use crate::book::{inherits, live_remaining, Book, Step};
use crate::cancellation::{
    cancel_step, claimed, lemma_cancel_conserves, lemma_cancel_keeps_wf, lemma_claimed,
};
use crate::error::ErrorCode;
use crate::escrow::{collateral, custody_flow, lemma_custody_flow_concat, refund, Transfer};
use crate::identity::Pubkey;
use crate::matching::{
    blocked, crossed, is_live, lemma_crossed, lemma_match_conserves, lemma_match_keeps_wf,
    match_step,
};
use crate::order::OrderSide;

verus! {

/// One call on the book.
pub enum Request {
    Place { owner: Pubkey, side: OrderSide, amount: u64, price: u64 },
    Cancel { caller: Pubkey, order_id: u64 },
    Match,
}

/// What `request` does to `book`.
pub open spec fn step(book: Book, request: Request) -> Step {
    match request {
        Request::Place { owner, side, amount, price } => place_step(
            book,
            owner,
            side,
            amount,
            price,
        ),
        Request::Cancel { caller, order_id } => cancel_step(book, caller, order_id),
        Request::Match => match_step(book),
    }
}

/// The transfers that a step calls for: none if it was refused.
pub open spec fn called_for(step: Step) -> Seq<Transfer> {
    match step.result {
        Ok(transfers) => transfers,
        Err(_) => Seq::empty(),
    }
}

/// The book after `requests` have been served in turn, starting from `book`.
pub open spec fn replay(book: Book, requests: Seq<Request>) -> Book
    decreases requests.len(),
{
    if requests.len() == 0 {
        book
    } else {
        step(replay(book, requests.drop_last()), requests.last()).book
    }
}

/// All transfers called for while `requests` were served, in order.
pub open spec fn journal(book: Book, requests: Seq<Request>) -> Seq<Transfer>
    decreases requests.len(),
{
    if requests.len() == 0 {
        Seq::empty()
    } else {
        journal(book, requests.drop_last()) + called_for(
            step(replay(book, requests.drop_last()), requests.last()),
        )
    }
}

/// A refused operation leaves the book exactly as it was.
pub proof fn lemma_refusal_is_void(book: Book, request: Request)
    requires
        step(book, request).result is Err,
    ensures
        step(book, request).book == book,
{
}

/// Every operation keeps a well-formed book well-formed. It never lowers the
/// id counter, and every order it leaves in the book is either an order the
/// book held before, with the same terms and at least as much filled, or
/// newly admitted.
pub proof fn lemma_step_keeps_wf(book: Book, request: Request)
    requires
        book.wf(),
    ensures
        step(book, request).book.wf(),
        inherits(book, step(book, request).book),
        step(book, request).book.next_id >= book.next_id,
{
    match request {
        Request::Place { owner, side, amount, price } => {
            lemma_place_keeps_wf(book, owner, side, amount, price);
        },
        Request::Cancel { caller, order_id } => {
            lemma_cancel_keeps_wf(book, caller, order_id);
        },
        Request::Match => {
            lemma_match_keeps_wf(book);
        },
    }
}

/// Every operation changes the unfilled total of each side by exactly what
/// its transfers bring into custody, less what they pay out of it, in that
/// side's collateral.
pub proof fn lemma_step_conserves(book: Book, request: Request, of: OrderSide)
    requires
        book.orders.len() <= usize::MAX,
    ensures
        live_remaining(step(book, request).book.orders, of) == live_remaining(book.orders, of)
            + custody_flow(called_for(step(book, request)), collateral(of)),
{
    match request {
        Request::Place { owner, side, amount, price } => {
            lemma_place_conserves(book, owner, side, amount, price, of);
        },
        Request::Cancel { caller, order_id } => {
            lemma_cancel_conserves(book, caller, order_id, of);
        },
        Request::Match => {
            lemma_match_conserves(book, of);
        },
    }
}

/// The book holds no order with the id `id`.
pub open spec fn absent(book: Book, id: u64) -> bool {
    forall|j: int| 0 <= j < book.orders.len() ==> (#[trigger] book.orders[j]).id != id
}

/// An order leaves the book in two ways only: its owner cancels it and is
/// refunded all that is unfilled, or a matching pass has filled it entirely.
pub proof fn lemma_orders_leave_cancelled_or_filled(book: Book, request: Request, i: int)
    requires
        book.wf(),
        0 <= i < book.orders.len(),
        absent(step(book, request).book, book.orders[i].id),
    ensures
        match request {
            Request::Place { .. } => false,
            Request::Cancel { caller, order_id } => {
                &&& caller == book.orders[i].owner
                &&& order_id == book.orders[i].id
                &&& step(book, request).result == Ok::<Seq<Transfer>, ErrorCode>(
                    seq![
                        refund(
                            book.orders[i].owner,
                            book.orders[i].side,
                            book.orders[i].unfilled() as u64,
                        ),
                    ],
                )
            },
            Request::Match => !blocked(book.orders) && crossed(book.orders).orders[i].filled(),
        },
{
    let post = step(book, request).book;
    match request {
        Request::Place { owner, side, amount, price } => {
            assert(post.orders[i] == book.orders[i]);
        },
        Request::Cancel { caller, order_id } => {
            lemma_claimed(book.orders, caller, order_id);
            if step(book, request).result is Ok {
                let j = claimed(book.orders, caller, order_id)->Some_0;
                if i < j {
                    assert(post.orders[i] == book.orders[i]);
                } else if j < i {
                    assert(post.orders[i - 1] == book.orders[i]);
                }
            } else {
                assert(post.orders[i] == book.orders[i]);
            }
        },
        Request::Match => {
            if blocked(book.orders) {
                assert(post.orders[i] == book.orders[i]);
            } else {
                let done = crossed(book.orders).orders;
                lemma_crossed(book.orders);
                assert(book.orders[i].advanced_to(done[i]));
                if !done[i].filled() {
                    done.lemma_filter_contains(is_live(), i);
                    let j = choose|j: int| 0 <= j < post.orders.len() && post.orders[j] == done[i];
                    assert(post.orders[j].id == book.orders[i].id);
                }
            }
        },
    }
}

/// Inheritance composes along a history.
proof fn lemma_inherits_chain(first: Book, second: Book, third: Book)
    requires
        inherits(first, second),
        inherits(second, third),
        first.next_id <= second.next_id,
    ensures
        inherits(first, third),
{
    assert forall|j: int| 0 <= j < third.orders.len() implies {
        ||| (#[trigger] third.orders[j]).id >= first.next_id
        ||| exists|i: int|
            0 <= i < first.orders.len() && (#[trigger] first.orders[i]).advanced_to(
                third.orders[j],
            )
    } by {
        if third.orders[j].id < second.next_id {
            let m = choose|m: int|
                0 <= m < second.orders.len() && (#[trigger] second.orders[m]).advanced_to(
                    third.orders[j],
                );
            if second.orders[m].id < first.next_id {
                let i = choose|i: int|
                    0 <= i < first.orders.len() && (#[trigger] first.orders[i]).advanced_to(
                        second.orders[m],
                    );
                assert(first.orders[i].advanced_to(third.orders[j]));
            }
        }
    }
}

/// What `lemma_step_keeps_wf` says of one operation holds of any history.
pub proof fn lemma_replay_keeps_wf(book: Book, requests: Seq<Request>)
    requires
        book.wf(),
    ensures
        replay(book, requests).wf(),
        inherits(book, replay(book, requests)),
        replay(book, requests).next_id >= book.next_id,
    decreases requests.len(),
{
    if requests.len() == 0 {
        assert forall|j: int| 0 <= j < book.orders.len() implies exists|i: int|
            0 <= i < book.orders.len() && (#[trigger] book.orders[i]).advanced_to(
                #[trigger] book.orders[j],
            ) by {
            assert(book.orders[j].advanced_to(book.orders[j]));
        }
    } else {
        let before = replay(book, requests.drop_last());
        lemma_replay_keeps_wf(book, requests.drop_last());
        lemma_step_keeps_wf(before, requests.last());
        lemma_inherits_chain(book, before, replay(book, requests));
    }
}

/// Conservation of collateral: over any history of a well-formed book, the
/// unfilled total of each side changes by exactly the net flow of that side's
/// collateral into custody.
pub proof fn lemma_replay_conserves(book: Book, requests: Seq<Request>, of: OrderSide)
    requires
        book.wf(),
    ensures
        live_remaining(replay(book, requests).orders, of) == live_remaining(book.orders, of)
            + custody_flow(journal(book, requests), collateral(of)),
    decreases requests.len(),
{
    if requests.len() > 0 {
        let before = replay(book, requests.drop_last());
        lemma_replay_conserves(book, requests.drop_last(), of);
        lemma_replay_keeps_wf(book, requests.drop_last());
        lemma_step_conserves(before, requests.last(), of);
        lemma_custody_flow_concat(
            journal(book, requests.drop_last()),
            called_for(step(before, requests.last())),
            collateral(of),
        );
    }
}

/// Custody backs the book: whatever has been done to a book since it was
/// opened, custody holds of each side's collateral exactly the unfilled total
/// of that side's live orders. Put differently, what was deposited and not
/// refunded is what is still unfilled plus what was settled to
/// counterparties.
pub proof fn lemma_custody_backs_book(authority: Pubkey, requests: Seq<Request>, of: OrderSide)
    ensures
        custody_flow(journal(Book::opened(authority), requests), collateral(of)) == live_remaining(
            replay(Book::opened(authority), requests).orders,
            of,
        ),
{
    lemma_replay_conserves(Book::opened(authority), requests, of);
}

/// Fills never recede: an order that is still in the book after any history
/// has its old terms, at least as much filled as before, and no more filled
/// than its amount.
pub proof fn lemma_fills_never_recede(book: Book, requests: Seq<Request>, i: int, j: int)
    requires
        book.wf(),
        0 <= i < book.orders.len(),
        0 <= j < replay(book, requests).orders.len(),
        replay(book, requests).orders[j].id == book.orders[i].id,
    ensures
        book.orders[i].advanced_to(replay(book, requests).orders[j]),
        replay(book, requests).orders[j].fulfilled <= replay(book, requests).orders[j].amount,
{
    let now = replay(book, requests);
    lemma_replay_keeps_wf(book, requests);
    let t = choose|t: int|
        0 <= t < book.orders.len() && (#[trigger] book.orders[t]).advanced_to(now.orders[j]);
    if t < i {
        assert(book.orders[t].id < book.orders[i].id);
    } else if i < t {
        assert(book.orders[i].id < book.orders[t].id);
    }
}

/// The id counter never goes down, and each admission raises it.
proof fn lemma_counter_climbs(book: Book, requests: Seq<Request>, a: int, b: int)
    requires
        0 <= a <= b <= requests.len(),
    ensures
        replay(book, requests.take(a)).next_id <= replay(book, requests.take(b)).next_id,
    decreases b - a,
{
    if a < b {
        lemma_counter_climbs(book, requests, a, b - 1);
        assert(requests.take(b).drop_last() =~= requests.take(b - 1));
    } else {
        assert(requests.take(a) =~= requests.take(b));
    }
}

/// Ids are unique and increase in admission order: of two admitted orders,
/// the later one has the greater id. (An admitted order takes the id that
/// the counter shows when its request is served.)
pub proof fn lemma_ids_increase(book: Book, requests: Seq<Request>, a: int, b: int)
    requires
        0 <= a < b < requests.len(),
        requests[a] is Place,
        requests[b] is Place,
        step(replay(book, requests.take(a)), requests[a]).result is Ok,
        step(replay(book, requests.take(b)), requests[b]).result is Ok,
    ensures
        replay(book, requests.take(a)).next_id < replay(book, requests.take(b)).next_id,
{
    assert(requests.take(a + 1).drop_last() =~= requests.take(a));
    assert(requests.take(a + 1).last() == requests[a]);
    lemma_counter_climbs(book, requests, a + 1, b);
}

} // verus!
