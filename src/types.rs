use vstd::prelude::*;

verus! {

/// Lifecycle of an auction.
#[derive(Clone, Copy, Debug, PartialEq, Eq, Structural)]
pub enum AuctionStatus {
    PendingStart,
    Paused,
    Active,
    Stopped,
}

/// The edges of the auction state machine: `PendingStart -> Active`,
/// `Active <-> Paused`, and any not yet stopped state `-> Stopped`.
pub open spec fn is_edge(from: AuctionStatus, to: AuctionStatus) -> bool {
    match (from, to) {
        (AuctionStatus::PendingStart, AuctionStatus::Active) => true,
        (AuctionStatus::Active, AuctionStatus::Paused) => true,
        (AuctionStatus::Paused, AuctionStatus::Active) => true,
        (AuctionStatus::PendingStart, AuctionStatus::Stopped) => true,
        (AuctionStatus::Active, AuctionStatus::Stopped) => true,
        (AuctionStatus::Paused, AuctionStatus::Stopped) => true,
        _ => false,
    }
}

/// Who asks for a transition: a signed principal, or the scheduler.
#[derive(Clone, Copy, Debug, PartialEq, Eq, Structural)]
pub enum Authority {
    Caller(u64),
    System,
}

/// What a settled auction resolved into.
#[derive(Clone, Copy, Debug, PartialEq, Eq, Structural)]
pub enum Outcome {
    NoWinner,
    Winner { bidder: u64, price: u64 },
}

/// The settlement step that a collaborator refused.
#[derive(Clone, Copy, Debug, PartialEq, Eq, Structural)]
pub enum SettlementFailure {
    /// The winner's escrow could not be paid out to the owner.
    Payment,
    /// The item could not be handed to the winner.
    ItemTransfer,
    /// This many escrow releases of losing bidders failed.
    Release { failed: u64 },
}

/// Errors of the auction operations.
#[derive(Clone, Copy, Debug, PartialEq, Eq, Structural)]
pub enum AuctionError {
    NotFound,
    Unauthorized,
    InvalidState,
    InvalidParameters,
    ItemAlreadyAuctioned,
    IdSpaceExhausted,
    PriceTooLow,
    PriceAboveCeiling,
    /// The currency refused to escrow a bid.
    EscrowFailed,
    SettlementFailed { reason: SettlementFailure },
}

/// Notifications emitted by the operations, in the order they were applied.
#[derive(Clone, Copy, Debug, PartialEq, Eq, Structural)]
pub enum Event {
    /// `(auction, bidder, price, slots_remaining)`
    BidderUpdated { auction: u64, bidder: u64, price: u64, slots_remaining: u32 },
    /// `(auction, from, to)`
    AuctionStatusChanged { auction: u64, from: AuctionStatus, to: AuctionStatus },
}

} // verus!
