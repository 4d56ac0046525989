//! Orders: fixed terms plus fill progress.

use vstd::prelude::*;
use crate::error::ErrorCode;
use crate::identity::Pubkey;

verus! {

/// The side of the market an order rests on.
#[derive(Clone, Copy, Debug, PartialEq, Eq, Structural)]
pub enum OrderSide {
    Buy,
    Sell,
}

/// A standing limit order. Everything but `fulfilled` is fixed when the order
/// is admitted.
#[derive(Clone, Copy, Debug, PartialEq, Eq)]
pub struct Order {
    /// Minted by the book on admission; never reused.
    pub id: u64,
    /// The only identity that may cancel the order.
    pub owner: Pubkey,
    pub side: OrderSide,
    /// Total quantity asked for.
    pub amount: u64,
    /// Limit price.
    pub price: u64,
    /// Quantity matched so far.
    pub fulfilled: u64,
}

impl Order {
    /// The quantity still to be matched, `amount - fulfilled`.
    pub open spec fn unfilled(self) -> int {
        self.amount - self.fulfilled
    }

    /// The fill counter has run past the amount: the order is corrupt.
    pub open spec fn overdrawn(self) -> bool {
        self.fulfilled > self.amount
    }

    /// Nothing is left to match.
    pub open spec fn filled(self) -> bool {
        self.fulfilled == self.amount
    }

    /// `other` is this order at some later time: same terms, and at least as
    /// much matched.
    pub open spec fn advanced_to(self, other: Order) -> bool {
        &&& other.id == self.id
        &&& other.owner == self.owner
        &&& other.side == self.side
        &&& other.amount == self.amount
        &&& other.price == self.price
        &&& self.fulfilled <= other.fulfilled
    }

    /// This order with `quantity` more units matched.
    pub open spec fn with_fill(self, quantity: int) -> Order {
        Order { fulfilled: (self.fulfilled + quantity) as u64, ..self }
    }

    /// A fresh order with nothing matched yet.
    pub fn new(id: u64, owner: Pubkey, side: OrderSide, amount: u64, price: u64) -> (order: Order)
        ensures
            order == (Order { id, owner, side, amount, price, fulfilled: 0 }),
    {
        Order { id, owner, side, amount, price, fulfilled: 0 }
    }

    /// The unfilled quantity, or `ArithmeticOverflow` if the order is
    /// overdrawn.
    pub fn remaining(&self) -> (left: Result<u64, ErrorCode>)
        ensures
            self.overdrawn() ==> left == Err::<u64, ErrorCode>(ErrorCode::ArithmeticOverflow),
            !self.overdrawn() ==> left == Ok::<u64, ErrorCode>(self.unfilled() as u64),
    {
        match self.amount.checked_sub(self.fulfilled) {
            Some(left) => Ok(left),
            None => Err(ErrorCode::ArithmeticOverflow),
        }
    }

    /// Whether nothing is left to match.
    pub fn is_filled(&self) -> (done: bool)
        ensures
            done == self.filled(),
    {
        self.amount == self.fulfilled
    }

    /// Records `quantity` more matched units. Refused with
    /// `ArithmeticOverflow`, and without effect, if that would carry
    /// `fulfilled` past `amount`.
    pub fn fill(&mut self, quantity: u64) -> (done: Result<(), ErrorCode>)
        ensures
            old(self).fulfilled + quantity <= old(self).amount ==> done is Ok && *final(self)
                == old(self).with_fill(quantity as int),
            old(self).fulfilled + quantity > old(self).amount ==> done == Err::<(), ErrorCode>(
                ErrorCode::ArithmeticOverflow,
            ) && *final(self) == *old(self),
    {
        match self.fulfilled.checked_add(quantity) {
            Some(total) => {
                if total <= self.amount {
                    self.fulfilled = total;
                    Ok(())
                } else {
                    Err(ErrorCode::ArithmeticOverflow)
                }
            },
            None => Err(ErrorCode::ArithmeticOverflow),
        }
    }
}

} // verus!
