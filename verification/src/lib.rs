//! Order book core of a minimal limit-order exchange.
//!
//! Users place standing buy and sell orders, each collateralized by a deposit
//! into a custody account. A matching pass crosses compatible orders, and an
//! owner may cancel an order for a refund of what is left unfilled. The book
//! never moves tokens itself: every operation returns the transfers that it
//! calls for.

pub mod admission;
pub mod book;
pub mod cancellation;
pub mod error;
pub mod escrow;
pub mod history;
pub mod identity;
pub mod matching;
pub mod order;
pub mod priority;

pub use admission::{initialize, place_order};
pub use book::{DexState, MAX_ORDERS};
pub use cancellation::cancel_order;
pub use error::ErrorCode;
pub use escrow::{Asset, Party, Transfer};
pub use identity::Pubkey;
pub use matching::match_orders;
pub use order::{Order, OrderSide};
