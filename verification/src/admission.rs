//! Opening a book and admitting orders to it.

use vstd::prelude::*;
use crate::book::{inherits, live_remaining, Book, DexState, Step, MAX_ORDERS};
use crate::error::ErrorCode;
use crate::escrow::{collateral, collateral_of, custody_flow, deposit, Party, Transfer};
use crate::identity::Pubkey;
use crate::order::{Order, OrderSide};

verus! {

/// Why the book refuses an order of the given amount and price, if it does.
/// Degenerate terms are reported first, then a full book, then an exhausted
/// id counter.
pub open spec fn admission_error(book: Book, amount: u64, price: u64) -> Option<ErrorCode> {
    if amount == 0 || price == 0 {
        Some(ErrorCode::InvalidOrderParameters)
    } else if book.orders.len() >= MAX_ORDERS {
        Some(ErrorCode::CapacityExceeded)
    } else if book.next_id == u64::MAX {
        Some(ErrorCode::ArithmeticOverflow)
    } else {
        None
    }
}

/// What placing an order does to a book. An admitted order takes the id
/// `book.next_id`, joins the book as its newest order with nothing filled,
/// and calls for one deposit of its whole amount.
pub open spec fn place_step(
    book: Book,
    owner: Pubkey,
    side: OrderSide,
    amount: u64,
    price: u64,
) -> Step {
    match admission_error(book, amount, price) {
        Some(e) => Step { book, result: Err(e) },
        None => Step {
            book: Book {
                next_id: (book.next_id + 1) as u64,
                orders: book.orders.push(
                    Order { id: book.next_id, owner, side, amount, price, fulfilled: 0 },
                ),
                ..book
            },
            result: Ok(seq![deposit(owner, side, amount)]),
        },
    }
}

/// Placing an order keeps a well-formed book well-formed, and changes no
/// order that the book already held.
pub proof fn lemma_place_keeps_wf(
    book: Book,
    owner: Pubkey,
    side: OrderSide,
    amount: u64,
    price: u64,
)
    requires
        book.wf(),
    ensures
        place_step(book, owner, side, amount, price).book.wf(),
        inherits(book, place_step(book, owner, side, amount, price).book),
        place_step(book, owner, side, amount, price).book.next_id >= book.next_id,
{
    let post = place_step(book, owner, side, amount, price).book;
    assert forall|j: int| 0 <= j < post.orders.len() implies {
        ||| (#[trigger] post.orders[j]).id >= book.next_id
        ||| exists|i: int|
            0 <= i < book.orders.len() && (#[trigger] book.orders[i]).advanced_to(post.orders[j])
    } by {
        if j < book.orders.len() {
            assert(book.orders[j].advanced_to(post.orders[j]));
        }
    }
}

/// Placing an order raises the unfilled total of each side by exactly what
/// the deposit brings into custody in that side's collateral.
pub proof fn lemma_place_conserves(
    book: Book,
    owner: Pubkey,
    side: OrderSide,
    amount: u64,
    price: u64,
    of: OrderSide,
)
    ensures
        ({
            let step = place_step(book, owner, side, amount, price);
            match step.result {
                Ok(transfers) => live_remaining(step.book.orders, of) == live_remaining(
                    book.orders,
                    of,
                ) + custody_flow(transfers, collateral(of)),
                Err(_) => step.book == book,
            }
        }),
{
    let step = place_step(book, owner, side, amount, price);
    if let Ok(transfers) = step.result {
        assert(step.book.orders.drop_last() =~= book.orders);
        assert(transfers.drop_last() =~= Seq::<Transfer>::empty());
        assert(custody_flow(transfers.drop_last(), collateral(of)) == 0);
    }
}

/// Opens an empty book administered by `authority`.
pub fn initialize(authority: Pubkey) -> (state: DexState)
    ensures
        state@ == Book::opened(authority),
        state@.wf(),
{
    DexState { authority, order_count: 0, orders: Vec::new() }
}

/// Admits an order of `owner` and returns its id together with the deposit
/// that collateralizes it: `amount` units of the side's collateral asset,
/// from the owner into custody.
///
/// Refused, without effect on the book, with `InvalidOrderParameters` if
/// `amount` or `price` is zero, else with `CapacityExceeded` if the book
/// already holds `MAX_ORDERS` orders, else with `ArithmeticOverflow` if no id
/// is left to mint.
pub fn place_order(
    state: &mut DexState,
    owner: Pubkey,
    side: OrderSide,
    amount: u64,
    price: u64,
) -> (r: Result<(u64, Transfer), ErrorCode>)
    ensures
        final(state)@ == place_step(old(state)@, owner, side, amount, price).book,
        match r {
            Ok((id, transfer)) => {
                &&& admission_error(old(state)@, amount, price) is None
                &&& id == old(state).order_count
                &&& transfer == deposit(owner, side, amount)
                &&& place_step(old(state)@, owner, side, amount, price).result == Ok::<
                    Seq<Transfer>,
                    ErrorCode,
                >(seq![transfer])
            },
            Err(e) => {
                &&& admission_error(old(state)@, amount, price) == Some(e)
                &&& place_step(old(state)@, owner, side, amount, price).result == Err::<
                    Seq<Transfer>,
                    ErrorCode,
                >(e)
                &&& final(state)@ == old(state)@
            },
        },
        old(state)@.wf() ==> final(state)@.wf(),
{
    proof {
        if state@.wf() {
            lemma_place_keeps_wf(state@, owner, side, amount, price);
        }
    }
    if amount == 0 || price == 0 {
        return Err(ErrorCode::InvalidOrderParameters);
    }
    if state.orders.len() >= MAX_ORDERS {
        return Err(ErrorCode::CapacityExceeded);
    }
    let id = state.order_count;
    let next_id = match id.checked_add(1) {
        Some(next_id) => next_id,
        None => {
            return Err(ErrorCode::ArithmeticOverflow);
        },
    };
    state.orders.push(Order::new(id, owner, side, amount, price));
    state.order_count = next_id;
    let transfer = Transfer {
        asset: collateral_of(side),
        from: Party::User(owner),
        to: Party::Custody,
        amount,
    };
    Ok((id, transfer))
}

} // verus!
