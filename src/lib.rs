//! An auction ledger: single-item, ascending-price auctions with escrowed
//! bids, owner and schedule driven status transitions, and exactly-once
//! settlement.
pub mod auction;
pub mod env;
pub mod module;
pub mod types;

pub use auction::{Auction, Participant};
pub use env::{Call, Trait};
pub use module::Module;
pub use types::{AuctionError, AuctionStatus, Authority, Event, Outcome, SettlementFailure};
