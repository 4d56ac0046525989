//! Failure kinds of the exchange.

use vstd::prelude::*;

verus! {

/// Why an operation on the order book was refused. A refused operation leaves
/// the book exactly as it was.
#[derive(Clone, Copy, Debug, PartialEq, Eq, Structural)]
pub enum ErrorCode {
    /// The order's amount or its price is zero.
    InvalidOrderParameters,
    /// No live order has the given id and belongs to the caller.
    OrderNotFound,
    /// A counter would leave the range of `u64`, or an order would be filled
    /// beyond its amount.
    ArithmeticOverflow,
    /// The escrow refused one of the transfers that the operation calls for.
    TransferFailed,
    /// The book already tracks as many orders as it can hold.
    CapacityExceeded,
}

} // verus!
