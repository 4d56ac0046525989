//! Transfers that the book asks the escrow to carry out.
//!
//! The book never moves tokens itself. Each operation hands back the
//! transfers it calls for, and whoever drives the book performs them.

use vstd::prelude::*;
use crate::identity::Pubkey;
use crate::order::OrderSide;

verus! {

/// The two assets of the market.
#[derive(Clone, Copy, Debug, PartialEq, Eq, Structural)]
pub enum Asset {
    /// What sellers offer and buyers receive.
    Base,
    /// What buyers offer and sellers receive.
    Quote,
}

/// One end of a transfer.
#[derive(Clone, Copy, Debug, PartialEq, Eq)]
pub enum Party {
    /// The pooled account that holds the collateral of live orders.
    Custody,
    /// A user's own account.
    User(Pubkey),
}

/// An instruction to move `amount` units of `asset` from one party to another.
#[derive(Clone, Copy, Debug, PartialEq, Eq)]
pub struct Transfer {
    pub asset: Asset,
    pub from: Party,
    pub to: Party,
    pub amount: u64,
}

/// The asset in which orders of `side` are collateralized.
pub open spec fn collateral(side: OrderSide) -> Asset {
    match side {
        OrderSide::Buy => Asset::Quote,
        OrderSide::Sell => Asset::Base,
    }
}

/// The collateral asset of `side`.
pub fn collateral_of(side: OrderSide) -> (asset: Asset)
    ensures
        asset == collateral(side),
{
    match side {
        OrderSide::Buy => Asset::Quote,
        OrderSide::Sell => Asset::Base,
    }
}

/// By how much `transfer` raises the custody account's holding of `asset`
/// (negative when it pays out).
pub open spec fn custody_change(transfer: Transfer, asset: Asset) -> int {
    if transfer.asset != asset {
        0
    } else {
        (if transfer.to == Party::Custody {
            transfer.amount as int
        } else {
            0
        }) - (if transfer.from == Party::Custody {
            transfer.amount as int
        } else {
            0
        })
    }
}

/// The net change of the custody account's holding of `asset` once all of
/// `transfers` have been carried out.
pub open spec fn custody_flow(transfers: Seq<Transfer>, asset: Asset) -> int
    decreases transfers.len(),
{
    if transfers.len() == 0 {
        0
    } else {
        custody_flow(transfers.drop_last(), asset) + custody_change(transfers.last(), asset)
    }
}

/// One more transfer adds its own change to the flow.
pub proof fn lemma_custody_flow_push(transfers: Seq<Transfer>, transfer: Transfer, asset: Asset)
    ensures
        custody_flow(transfers.push(transfer), asset) == custody_flow(transfers, asset)
            + custody_change(transfer, asset),
{
    assert(transfers.push(transfer).drop_last() =~= transfers);
}

/// The flow of a concatenation is the sum of the flows.
pub proof fn lemma_custody_flow_concat(first: Seq<Transfer>, second: Seq<Transfer>, asset: Asset)
    ensures
        custody_flow(first + second, asset) == custody_flow(first, asset) + custody_flow(
            second,
            asset,
        ),
    decreases second.len(),
{
    if second.len() == 0 {
        assert(first + second =~= first);
    } else {
        assert((first + second).drop_last() =~= first + second.drop_last());
        assert((first + second).last() == second.last());
        lemma_custody_flow_concat(first, second.drop_last(), asset);
    }
}

/// The collateral deposit that admits an order.
pub open spec fn deposit(owner: Pubkey, side: OrderSide, amount: u64) -> Transfer {
    Transfer { asset: collateral(side), from: Party::User(owner), to: Party::Custody, amount }
}

/// The return of unmatched collateral to the owner of a cancelled order.
pub open spec fn refund(owner: Pubkey, side: OrderSide, amount: u64) -> Transfer {
    Transfer { asset: collateral(side), from: Party::Custody, to: Party::User(owner), amount }
}

/// The payment of `amount` units of `asset` out of custody to `receiver`
/// that settles one leg of a match.
pub open spec fn payout(asset: Asset, receiver: Pubkey, amount: u64) -> Transfer {
    Transfer { asset, from: Party::Custody, to: Party::User(receiver), amount }
}

} // verus!
