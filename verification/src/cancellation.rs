//! Cancelling an order and refunding what is left of its collateral.

use vstd::prelude::*;
use crate::book::{
    inherits, lemma_live_remaining_remove, live_remaining, Book, DexState, Step,
};
use crate::error::ErrorCode;
use crate::escrow::{collateral, collateral_of, custody_flow, refund, Party, Transfer};
use crate::identity::Pubkey;
use crate::order::{Order, OrderSide};

verus! {

/// `order` has the id `order_id` and belongs to `caller`.
pub open spec fn claims(order: Order, caller: Pubkey, order_id: u64) -> bool {
    order.id == order_id && order.owner == caller
}

/// The position of the oldest order with id `order_id` that belongs to
/// `caller`, if there is one.
pub open spec fn claimed(orders: Seq<Order>, caller: Pubkey, order_id: u64) -> Option<int>
    decreases orders.len(),
{
    if orders.len() == 0 {
        None
    } else {
        match claimed(orders.drop_last(), caller, order_id) {
            Some(i) => Some(i),
            None => if claims(orders.last(), caller, order_id) {
                Some(orders.len() - 1)
            } else {
                None
            },
        }
    }
}

/// `claimed` finds the first position whose order the caller may cancel, and
/// finds none only if there is none.
pub proof fn lemma_claimed(orders: Seq<Order>, caller: Pubkey, order_id: u64)
    ensures
        match claimed(orders, caller, order_id) {
            Some(i) => 0 <= i < orders.len() && claims(orders[i], caller, order_id) && forall|
                j: int,
            |
                0 <= j < i ==> !claims(#[trigger] orders[j], caller, order_id),
            None => forall|j: int|
                0 <= j < orders.len() ==> !claims(#[trigger] orders[j], caller, order_id),
        },
    decreases orders.len(),
{
    if orders.len() > 0 {
        lemma_claimed(orders.drop_last(), caller, order_id);
        match claimed(orders.drop_last(), caller, order_id) {
            Some(i) => {
                assert(orders.drop_last()[i] == orders[i]);
                assert forall|j: int| 0 <= j < i implies !claims(
                    #[trigger] orders[j],
                    caller,
                    order_id,
                ) by {
                    assert(orders.drop_last()[j] == orders[j]);
                }
            },
            None => {
                assert forall|j: int| 0 <= j < orders.len() - 1 implies !claims(
                    #[trigger] orders[j],
                    caller,
                    order_id,
                ) by {
                    assert(orders.drop_last()[j] == orders[j]);
                }
            },
        }
    }
}

/// What cancelling does to a book. The claimed order leaves the book, and
/// its unfilled quantity is refunded to its owner out of custody.
pub open spec fn cancel_step(book: Book, caller: Pubkey, order_id: u64) -> Step {
    match claimed(book.orders, caller, order_id) {
        None => Step { book, result: Err(ErrorCode::OrderNotFound) },
        Some(i) => {
            let order = book.orders[i];
            if order.overdrawn() {
                Step { book, result: Err(ErrorCode::ArithmeticOverflow) }
            } else {
                Step {
                    book: Book { orders: book.orders.remove(i), ..book },
                    result: Ok(seq![refund(order.owner, order.side, order.unfilled() as u64)]),
                }
            }
        },
    }
}

/// Cancelling keeps a well-formed book well-formed, and changes no order
/// that stays in the book.
pub proof fn lemma_cancel_keeps_wf(book: Book, caller: Pubkey, order_id: u64)
    requires
        book.wf(),
    ensures
        cancel_step(book, caller, order_id).book.wf(),
        inherits(book, cancel_step(book, caller, order_id).book),
        cancel_step(book, caller, order_id).book.next_id == book.next_id,
{
    let post = cancel_step(book, caller, order_id).book;
    lemma_claimed(book.orders, caller, order_id);
    if cancel_step(book, caller, order_id).result is Ok {
        let i = claimed(book.orders, caller, order_id)->Some_0;
        assert forall|j: int| 0 <= j < post.orders.len() implies exists|t: int|
            0 <= t < book.orders.len() && (#[trigger] book.orders[t]).advanced_to(
                #[trigger] post.orders[j],
            ) by {
            if j < i {
                assert(book.orders[j].advanced_to(post.orders[j]));
            } else {
                assert(book.orders[j + 1].advanced_to(post.orders[j]));
            }
        }
        assert forall|a: int, b: int| 0 <= a < b < post.orders.len() implies (
        #[trigger] post.orders[a]).id < (#[trigger] post.orders[b]).id by {
            let a0 = if a < i { a } else { a + 1 };
            let b0 = if b < i { b } else { b + 1 };
            assert(post.orders[a] == book.orders[a0]);
            assert(post.orders[b] == book.orders[b0]);
        }
        assert forall|a: int| 0 <= a < post.orders.len() implies (#[trigger] post.orders[a]).id
            < post.next_id && !post.orders[a].overdrawn() by {
            let a0 = if a < i { a } else { a + 1 };
            assert(post.orders[a] == book.orders[a0]);
        }
    } else {
        assert forall|j: int| 0 <= j < post.orders.len() implies exists|t: int|
            0 <= t < book.orders.len() && (#[trigger] book.orders[t]).advanced_to(
                #[trigger] post.orders[j],
            ) by {
            assert(book.orders[j].advanced_to(post.orders[j]));
        }
    }
}

/// Cancelling lowers the unfilled total of each side by exactly what the
/// refund pays out of custody in that side's collateral.
pub proof fn lemma_cancel_conserves(book: Book, caller: Pubkey, order_id: u64, of: OrderSide)
    ensures
        ({
            let step = cancel_step(book, caller, order_id);
            match step.result {
                Ok(transfers) => live_remaining(step.book.orders, of) == live_remaining(
                    book.orders,
                    of,
                ) + custody_flow(transfers, collateral(of)),
                Err(_) => step.book == book,
            }
        }),
{
    let step = cancel_step(book, caller, order_id);
    lemma_claimed(book.orders, caller, order_id);
    if let Ok(transfers) = step.result {
        let i = claimed(book.orders, caller, order_id)->Some_0;
        lemma_live_remaining_remove(book.orders, i, of);
        assert(transfers.drop_last() =~= Seq::<Transfer>::empty());
        assert(custody_flow(transfers.drop_last(), collateral(of)) == 0);
    }
}

/// No one but its owner can cancel an order: in a well-formed book the
/// attempt fails with `OrderNotFound` and leaves the book as it is.
pub proof fn lemma_cancel_is_owners_alone(book: Book, caller: Pubkey, i: int)
    requires
        book.wf(),
        0 <= i < book.orders.len(),
        book.orders[i].owner != caller,
    ensures
        cancel_step(book, caller, book.orders[i].id) == (Step {
            book,
            result: Err(ErrorCode::OrderNotFound),
        }),
{
    lemma_claimed(book.orders, caller, book.orders[i].id);
    if let Some(j) = claimed(book.orders, caller, book.orders[i].id) {
        if j < i {
            assert(book.orders[j].id < book.orders[i].id);
        } else if i < j {
            assert(book.orders[i].id < book.orders[j].id);
        }
    }
}

/// Cancels the order with id `order_id` on behalf of `caller` and returns the
/// refund of its unfilled quantity.
///
/// Refused, without effect on the book, with `OrderNotFound` unless the book
/// holds an order with that id that belongs to `caller`, and with
/// `ArithmeticOverflow` if that order is overdrawn.
pub fn cancel_order(state: &mut DexState, caller: Pubkey, order_id: u64) -> (r: Result<
    Transfer,
    ErrorCode,
>)
    ensures
        final(state)@ == cancel_step(old(state)@, caller, order_id).book,
        match r {
            Ok(transfer) => {
                &&& claimed(old(state).orders@, caller, order_id) matches Some(i)
                &&& !old(state).orders@[i].overdrawn()
                &&& transfer == refund(
                    caller,
                    old(state).orders@[i].side,
                    old(state).orders@[i].unfilled() as u64,
                )
                &&& final(state).orders@ == old(state).orders@.remove(i)
                &&& cancel_step(old(state)@, caller, order_id).result == Ok::<
                    Seq<Transfer>,
                    ErrorCode,
                >(seq![transfer])
            },
            Err(e) => {
                &&& e == ErrorCode::OrderNotFound <==> claimed(
                    old(state).orders@,
                    caller,
                    order_id,
                ) is None
                &&& cancel_step(old(state)@, caller, order_id).result == Err::<
                    Seq<Transfer>,
                    ErrorCode,
                >(e)
                &&& final(state)@ == old(state)@
            },
        },
        old(state)@.wf() ==> final(state)@.wf(),
{
    proof {
        lemma_claimed(state.orders@, caller, order_id);
        if state@.wf() {
            lemma_cancel_keeps_wf(state@, caller, order_id);
        }
    }
    let mut k: usize = 0;
    while k < state.orders.len()
        invariant
            k <= state.orders.len(),
            *state == *old(state),
            forall|j: int| 0 <= j < k ==> !claims(#[trigger] state.orders@[j], caller, order_id),
        decreases state.orders.len() - k,
    {
        let order: Order = state.orders[k];
        if order.id == order_id && order.owner == caller {
            proof {
                lemma_claimed(state.orders@, caller, order_id);
                if state@.wf() {
                    lemma_cancel_keeps_wf(state@, caller, order_id);
                }
                assert(claims(state.orders@[k as int], caller, order_id));
            }
            let left = match order.remaining() {
                Ok(left) => left,
                Err(e) => {
                    return Err(e);
                },
            };
            state.orders.remove(k);
            return Ok(
                Transfer {
                    asset: collateral_of(order.side),
                    from: Party::Custody,
                    to: Party::User(order.owner),
                    amount: left,
                },
            );
        }
        k += 1;
    }
    Err(ErrorCode::OrderNotFound)
}

} // verus!
