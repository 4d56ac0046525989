//! The order book: live orders and the id counter.

use vstd::prelude::*;
use crate::error::ErrorCode;
use crate::escrow::Transfer;
use crate::identity::Pubkey;
use crate::order::{Order, OrderSide};

verus! {

/// The most orders a book tracks at once. The book is stored in a fixed
/// budget of 1000 bytes for its order list: a 4-byte length followed by 65
/// bytes per order.
pub const MAX_ORDERS: usize = 15;

/// The exchange's whole state.
#[derive(Clone, Debug, PartialEq, Eq)]
pub struct DexState {
    /// The identity that administers the book.
    pub authority: Pubkey,
    /// The id that the next admitted order receives.
    pub order_count: u64,
    /// The live orders, oldest first.
    pub orders: Vec<Order>,
}

/// A book as a mathematical value.
pub struct Book {
    pub authority: Pubkey,
    pub next_id: u64,
    pub orders: Seq<Order>,
}

impl View for DexState {
    type V = Book;

    open spec fn view(&self) -> Book {
        Book { authority: self.authority, next_id: self.order_count, orders: self.orders@ }
    }
}

/// What one operation does to a book: the book it leaves, and either the
/// transfers it calls for or the reason it was refused.
pub struct Step {
    pub book: Book,
    pub result: Result<Seq<Transfer>, ErrorCode>,
}

/// What `order` adds to the unfilled quantity of `side`.
pub open spec fn stake(order: Order, side: OrderSide) -> int {
    if order.side == side {
        order.unfilled()
    } else {
        0
    }
}

/// The total unfilled quantity of the orders of `side`.
pub open spec fn live_remaining(orders: Seq<Order>, side: OrderSide) -> int
    decreases orders.len(),
{
    if orders.len() == 0 {
        0
    } else {
        live_remaining(orders.drop_last(), side) + stake(orders.last(), side)
    }
}

/// Replacing one order changes the total by the difference of the stakes.
pub proof fn lemma_live_remaining_update(
    orders: Seq<Order>,
    k: int,
    order: Order,
    side: OrderSide,
)
    requires
        0 <= k < orders.len(),
    ensures
        live_remaining(orders.update(k, order), side) == live_remaining(orders, side) - stake(
            orders[k],
            side,
        ) + stake(order, side),
    decreases orders.len(),
{
    let updated = orders.update(k, order);
    if k == orders.len() - 1 {
        assert(updated.drop_last() =~= orders.drop_last());
    } else {
        assert(updated.drop_last() =~= orders.drop_last().update(k, order));
        lemma_live_remaining_update(orders.drop_last(), k, order, side);
    }
}

/// Removing one order lowers the total by its stake.
pub proof fn lemma_live_remaining_remove(orders: Seq<Order>, k: int, side: OrderSide)
    requires
        0 <= k < orders.len(),
    ensures
        live_remaining(orders.remove(k), side) == live_remaining(orders, side) - stake(
            orders[k],
            side,
        ),
    decreases orders.len(),
{
    let removed = orders.remove(k);
    if k == orders.len() - 1 {
        assert(removed =~= orders.drop_last());
    } else {
        assert(removed.drop_last() =~= orders.drop_last().remove(k));
        assert(removed.last() == orders.last());
        lemma_live_remaining_remove(orders.drop_last(), k, side);
    }
}

/// The ids of `orders` strictly increase from the oldest to the newest.
pub open spec fn ascending(orders: Seq<Order>) -> bool {
    forall|i: int, j: int|
        0 <= i < j < orders.len() ==> (#[trigger] orders[i]).id < (#[trigger] orders[j]).id
}

impl Book {
    /// The book right after initialization: no orders, and ids start at 0.
    pub open spec fn opened(authority: Pubkey) -> Book {
        Book { authority, next_id: 0, orders: Seq::empty() }
    }

    /// The invariants of a book: ids are below the counter and strictly
    /// increase from the oldest order to the newest (so no two are equal), no
    /// order is filled beyond its amount, and the book is within capacity.
    pub open spec fn wf(self) -> bool {
        &&& self.orders.len() <= MAX_ORDERS
        &&& forall|i: int| 0 <= i < self.orders.len() ==> (#[trigger] self.orders[i]).id < self.next_id
        &&& ascending(self.orders)
        &&& forall|i: int| 0 <= i < self.orders.len() ==> !(#[trigger] self.orders[i]).overdrawn()
    }
}

impl DexState {
    /// Whether the book meets its invariants, as a book read back from
    /// storage must.
    pub fn is_well_formed(&self) -> (ok: bool)
        ensures
            ok == self@.wf(),
    {
        if self.orders.len() > MAX_ORDERS {
            return false;
        }
        let mut k: usize = 0;
        while k < self.orders.len()
            invariant
                k <= self.orders.len(),
                forall|i: int| 0 <= i < k ==> (#[trigger] self.orders@[i]).id < self.order_count,
                forall|i: int| 0 <= i < k ==> !(#[trigger] self.orders@[i]).overdrawn(),
                forall|i: int, j: int|
                    0 <= i < j < k ==> (#[trigger] self.orders@[i]).id < (
                    #[trigger] self.orders@[j]).id,
            decreases self.orders.len() - k,
        {
            let order = self.orders[k];
            if order.id >= self.order_count || order.fulfilled > order.amount {
                return false;
            }
            if k > 0 && self.orders[k - 1].id >= order.id {
                return false;
            }
            assert forall|i: int| 0 <= i < k implies (#[trigger] self.orders@[i]).id
                < order.id by {
                if i < k - 1 {
                    assert(self.orders@[i].id < self.orders@[k - 1].id);
                }
            }
            k += 1;
        }
        true
    }

    /// Concludes an operation that was tried out on a copy of the book.
    ///
    /// `proposed` is the copy after the operation, and `settled` tells whether
    /// the escrow carried out every transfer that the operation called for.
    /// If it did, the book becomes `proposed`. If it did not, the operation
    /// fails with `TransferFailed` and the book stays as it is, so that no
    /// part of the operation can be observed.
    pub fn commit(&mut self, proposed: DexState, settled: bool) -> (r: Result<(), ErrorCode>)
        ensures
            settled ==> r is Ok && *final(self) == proposed,
            !settled ==> r == Err::<(), ErrorCode>(ErrorCode::TransferFailed) && *final(self)
                == *old(self),
    {
        if settled {
            *self = proposed;
            Ok(())
        } else {
            Err(ErrorCode::TransferFailed)
        }
    }
}

/// Every order of `post` is either an order of `pre` with the same terms and
/// at least as much filled, or was admitted after `pre`.
pub open spec fn inherits(pre: Book, post: Book) -> bool {
    forall|j: int|
        0 <= j < post.orders.len() ==> {
            ||| (#[trigger] post.orders[j]).id >= pre.next_id
            ||| exists|i: int|
                0 <= i < pre.orders.len() && (#[trigger] pre.orders[i]).advanced_to(post.orders[j])
        }
}

} // verus!
