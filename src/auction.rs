use vstd::prelude::*;

use crate::types::{AuctionStatus, Outcome};

verus! {

/// A principal who has bid on an auction, with the amount escrowed for them.
#[derive(Clone, Copy, Debug, PartialEq, Eq, Structural)]
pub struct Participant {
    pub bidder: u64,
    /// The principal's latest accepted bid on this auction.
    pub escrow: u64,
    /// Whether `escrow` is still locked (not yet released or paid out).
    pub held: bool,
}

/// One auction record.
pub struct Auction {
    pub id: u64,
    /// The item on sale, once the owner has bound one.
    pub item: Option<u64>,
    /// The principal allowed to administer the auction.
    pub owner: u64,
    pub start_at: Option<u64>,
    pub stop_at: Option<u64>,
    pub wait_period: Option<u64>,
    pub begin_price: u64,
    pub upper_bound_price: Option<u64>,
    pub minimum_step: u64,
    /// The current highest bidder and the moment of their bid.
    pub latest_participant: Option<(u64, u64)>,
    /// The current highest bid.
    pub highest_bid: Option<u64>,
    pub status: AuctionStatus,
    /// Set by a bid equal to the ceiling: the auction may close at once.
    pub ceiling_reached: bool,
    /// Every principal who has bid, in the order of their first bid.
    pub participants: Vec<Participant>,
    /// Settlement has begun: no further bid is taken.
    pub settling: bool,
    /// The winner's escrow has been paid out to the owner.
    pub winner_paid: bool,
    /// The item has been handed to the winner.
    pub item_delivered: bool,
    /// The recorded result of a completed settlement.
    pub outcome: Option<Outcome>,
    /// Every accepted bid price, in the order accepted.
    pub prices: Ghost<Seq<u64>>,
}

impl Auction {
    /// The price a new bid must reach.
    pub open spec fn required_price(&self) -> int {
        match self.highest_bid {
            None => self.begin_price as int,
            Some(h) => {
                let next = h + self.minimum_step;
                if next > self.begin_price { next } else { self.begin_price as int }
            },
        }
    }

    /// What settling this auction resolves into: the highest bidder wins at
    /// the highest bid, which is what is escrowed for them; with no bid there
    /// is no winner.
    pub open spec fn settled_outcome(&self) -> Outcome {
        match self.latest_participant {
            None => Outcome::NoWinner,
            Some((w, _)) => Outcome::Winner { bidder: w, price: self.highest_bid.unwrap_or(0) },
        }
    }

    /// Accepted prices rise by at least the minimum step from one to the next.
    pub open spec fn prices_rise(&self) -> bool {
        forall|i: int|
            0 <= i < self.prices@.len() - 1 ==> #[trigger] self.prices@[i + 1] >= self.prices@[i]
                + self.minimum_step
    }

    pub open spec fn wf(&self) -> bool {
        &&& self.minimum_step > 0
        &&& (self.upper_bound_price matches Some(u) ==> u >= self.begin_price)
        &&& self.prices_rise()
        &&& (self.prices@.len() > 0 ==> self.prices@[0] >= self.begin_price)
        &&& (self.prices@.len() == 0 <==> self.highest_bid is None)
        &&& (self.prices@.len() > 0 ==> self.highest_bid == Some(self.prices@.last()))
        &&& (self.highest_bid is None <==> self.latest_participant is None)
        &&& forall|i: int|
            0 <= i < self.participants@.len() ==> (#[trigger] self.participants@[i]).escrow
                <= self.highest_bid.unwrap_or(0)
        &&& forall|i: int, j: int|
            0 <= i < j < self.participants@.len() ==> (#[trigger] self.participants@[i]).bidder
                != (#[trigger] self.participants@[j]).bidder
        &&& (self.status == AuctionStatus::Stopped <==> self.outcome is Some)
        &&& (self.outcome matches Some(o) ==> o == self.settled_outcome())
        &&& (self.status == AuctionStatus::PendingStart ==> self.prices@.len() == 0)
        &&& (self.prices@.len() == 0 ==> self.participants@.len() == 0)
        &&& (self.latest_participant matches Some((w, _)) ==> forall|k: int|
            0 <= k < self.participants@.len() && (#[trigger] self.participants@[k]).bidder != w
                ==> self.participants@[k].escrow + self.minimum_step <= self.highest_bid.unwrap_or(0))
        &&& (self.highest_bid matches Some(h) ==> h >= self.begin_price)
        &&& (self.latest_participant matches Some((w, _)) ==> exists|k: int|
            0 <= k < self.participants@.len() && (#[trigger] self.participants@[k]).bidder == w
                && self.participants@[k].escrow == self.highest_bid.unwrap_or(0))
    }
}

} // verus!
