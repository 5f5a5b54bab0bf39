use auction_ledger::{
    AuctionError, Call, AuctionStatus, Authority, Event, Module, Outcome, SettlementFailure, Trait,
};

/// A currency ledger and item registry that records every call and can be
/// told to refuse some of them.
#[derive(Default)]
struct Ledger {
    calls: Vec<Call>,
    refuse_lock: bool,
    refuse_unlock_of: Option<u64>,
    refuse_transfer_locked: bool,
    refuse_ownership: bool,
}

impl Trait for Ledger {
    // the record of answered calls exists only in proofs; tests read the `calls` field
    fn calls(&self) -> vstd::seq::Seq<(Call, bool)> {
        unreachable!("the call record exists only in proofs")
    }

    fn lock(&mut self, who: u64, amount: u64) -> Result<(), ()> {
        self.calls.push(Call::Lock { who, amount });
        if self.refuse_lock { Err(()) } else { Ok(()) }
    }

    fn unlock(&mut self, who: u64, amount: u64) -> Result<(), ()> {
        self.calls.push(Call::Unlock { who, amount });
        if self.refuse_unlock_of == Some(who) { Err(()) } else { Ok(()) }
    }

    fn transfer_locked(&mut self, from: u64, to: u64, amount: u64) -> Result<(), ()> {
        self.calls.push(Call::TransferLocked { from, to, amount });
        if self.refuse_transfer_locked { Err(()) } else { Ok(()) }
    }

    fn transfer_ownership(&mut self, item: u64, from: u64, to: u64) -> Result<(), ()> {
        self.calls.push(Call::TransferOwnership { item, from, to });
        if self.refuse_ownership { Err(()) } else { Ok(()) }
    }
}

const OWNER: u64 = 1;
const ALICE: u64 = 2;
const BOB: u64 = 3;

fn started(m: &mut Module, begin: u64, step: u64, ceiling: Option<u64>) -> u64 {
    let id = m.create_auction(OWNER, begin, step, ceiling).unwrap();
    m.start_auction(Authority::Caller(OWNER), id).unwrap();
    id
}

fn status(m: &Module, id: u64) -> AuctionStatus {
    m.get_auction(id).unwrap().status
}

#[test]
fn scenario_a_price_steps() {
    let mut m = Module::new();
    let mut env = Ledger::default();
    let id = started(&mut m, 100, 10, None);
    assert_eq!(m.participate_auction(ALICE, id, 50, 0, &mut env), Err(AuctionError::PriceTooLow));
    assert_eq!(m.participate_auction(ALICE, id, 100, 0, &mut env), Ok(()));
    assert_eq!(m.participate_auction(BOB, id, 105, 1, &mut env), Err(AuctionError::PriceTooLow));
    assert_eq!(m.participate_auction(BOB, id, 110, 1, &mut env), Ok(()));
    assert_eq!(m.get_auction(id).unwrap().highest_bid, Some(110));
    assert_eq!(m.get_auction(id).unwrap().latest_participant, Some((BOB, 1)));
}

#[test]
fn scenario_b_ceiling() {
    let mut m = Module::new();
    let mut env = Ledger::default();
    let id = started(&mut m, 100, 10, Some(200));
    assert_eq!(m.participate_auction(ALICE, id, 200, 0, &mut env), Ok(()));
    assert!(m.get_auction(id).unwrap().ceiling_reached);
    assert_eq!(
        m.participate_auction(BOB, id, 210, 1, &mut env),
        Err(AuctionError::PriceAboveCeiling)
    );
    // the ceiling makes the auction due at the next tick
    assert_eq!(m.offchain(2, &mut env), vec![]);
    assert_eq!(status(&m, id), AuctionStatus::Stopped);
}

#[test]
fn scenario_c_quiet_period() {
    let mut m = Module::new();
    let mut env = Ledger::default();
    let id = m.create_auction(OWNER, 100, 10, None).unwrap();
    m.bind_item(OWNER, id, 7).unwrap();
    m.setup_moments(OWNER, id, None, None, Some(60)).unwrap();
    m.start_auction(Authority::Caller(OWNER), id).unwrap();
    m.participate_auction(ALICE, id, 100, 0, &mut env).unwrap();
    let calls_before = env.calls.len();
    assert_eq!(m.offchain(59, &mut env), vec![]);
    assert_eq!(status(&m, id), AuctionStatus::Active);
    assert_eq!(env.calls.len(), calls_before);
    assert_eq!(m.offchain(61, &mut env), vec![]);
    assert_eq!(status(&m, id), AuctionStatus::Stopped);
    assert_eq!(
        m.get_auction(id).unwrap().outcome,
        Some(Outcome::Winner { bidder: ALICE, price: 100 })
    );
    assert!(env.calls.contains(&Call::TransferLocked { from: ALICE, to: OWNER, amount: 100 }));
    assert!(env.calls.contains(&Call::TransferOwnership { item: 7, from: OWNER, to: ALICE }));
    assert_eq!(m.auction_items(7), None);
    assert_eq!(m.get_bid(id, ALICE), None);
}

#[test]
fn scenario_d_pause_guards() {
    let mut m = Module::new();
    let id = m.create_auction(OWNER, 100, 10, None).unwrap();
    assert_eq!(m.pause_auction(OWNER, id), Err(AuctionError::InvalidState));
    m.start_auction(Authority::Caller(OWNER), id).unwrap();
    assert_eq!(m.pause_auction(ALICE, id), Err(AuctionError::Unauthorized));
    assert_eq!(m.pause_auction(OWNER, id), Ok(()));
    assert_eq!(status(&m, id), AuctionStatus::Paused);
}

#[test]
fn scenario_e_no_bids_closed_by_schedule() {
    let mut m = Module::new();
    let mut env = Ledger::default();
    let id = m.create_auction(OWNER, 100, 10, None).unwrap();
    m.bind_item(OWNER, id, 9).unwrap();
    m.setup_moments(OWNER, id, Some(10), Some(50), None).unwrap();
    assert_eq!(m.offchain(9, &mut env), vec![]);
    assert_eq!(status(&m, id), AuctionStatus::PendingStart);
    assert_eq!(m.offchain(10, &mut env), vec![]);
    assert_eq!(status(&m, id), AuctionStatus::Active);
    assert_eq!(m.offchain(50, &mut env), vec![]);
    assert_eq!(status(&m, id), AuctionStatus::Stopped);
    assert_eq!(m.get_auction(id).unwrap().outcome, Some(Outcome::NoWinner));
    assert_eq!(m.auction_items(9), None);
    assert!(env.calls.is_empty());
}

#[test]
fn status_moves_only_along_edges() {
    let mut m = Module::new();
    let mut env = Ledger::default();
    let id = m.create_auction(OWNER, 1, 1, None).unwrap();
    assert_eq!(m.resume_auction(OWNER, id), Err(AuctionError::InvalidState));
    m.start_auction(Authority::Caller(OWNER), id).unwrap();
    assert_eq!(m.start_auction(Authority::System, id), Err(AuctionError::InvalidState));
    m.pause_auction(OWNER, id).unwrap();
    m.resume_auction(OWNER, id).unwrap();
    m.pause_auction(OWNER, id).unwrap();
    m.stop_auction(Authority::Caller(OWNER), id, &mut env).unwrap();
    assert_eq!(m.resume_auction(OWNER, id), Err(AuctionError::InvalidState));
    assert_eq!(
        m.stop_auction(Authority::Caller(OWNER), id, &mut env),
        Err(AuctionError::InvalidState)
    );
    let changes: Vec<(AuctionStatus, AuctionStatus)> = m
        .events_emitted()
        .iter()
        .map(|e| match e {
            Event::AuctionStatusChanged { from, to, .. } => (*from, *to),
            other => panic!("unexpected event {:?}", other),
        })
        .collect();
    assert_eq!(
        changes,
        vec![
            (AuctionStatus::PendingStart, AuctionStatus::Active),
            (AuctionStatus::Active, AuctionStatus::Paused),
            (AuctionStatus::Paused, AuctionStatus::Active),
            (AuctionStatus::Active, AuctionStatus::Paused),
            (AuctionStatus::Paused, AuctionStatus::Stopped),
        ]
    );
}

#[test]
fn pending_auction_can_be_cancelled() {
    let mut m = Module::new();
    let mut env = Ledger::default();
    let id = m.create_auction(OWNER, 1, 1, None).unwrap();
    m.bind_item(OWNER, id, 4).unwrap();
    assert_eq!(m.stop_auction(Authority::Caller(OWNER), id, &mut env), Ok(Outcome::NoWinner));
    assert_eq!(status(&m, id), AuctionStatus::Stopped);
    assert_eq!(m.auction_items(4), None);
    assert!(env.calls.is_empty());
}

#[test]
fn accepted_prices_rise_by_the_step() {
    let mut m = Module::new();
    let mut env = Ledger::default();
    let id = started(&mut m, 0, 5, None);
    let mut accepted = Vec::new();
    for (who, price) in [(ALICE, 0), (BOB, 4), (BOB, 5), (ALICE, 9), (ALICE, 10), (BOB, 30)] {
        if m.participate_auction(who, id, price, 0, &mut env).is_ok() {
            accepted.push(price);
        }
    }
    assert_eq!(accepted, vec![0, 5, 10, 30]);
    for w in accepted.windows(2) {
        assert!(w[1] >= w[0] + 5);
    }
}

#[test]
fn raising_own_bid_locks_the_difference() {
    let mut m = Module::new();
    let mut env = Ledger::default();
    let id = started(&mut m, 100, 10, None);
    m.participate_auction(ALICE, id, 100, 0, &mut env).unwrap();
    m.participate_auction(BOB, id, 120, 1, &mut env).unwrap();
    m.participate_auction(ALICE, id, 150, 2, &mut env).unwrap();
    assert_eq!(
        env.calls,
        vec![Call::Lock { who: ALICE, amount: 100 }, Call::Lock { who: BOB, amount: 120 }, Call::Lock { who: ALICE, amount: 50 }]
    );
    assert_eq!(m.get_bid(id, ALICE), Some(150));
    assert_eq!(m.get_bid(id, BOB), Some(120));
    assert_eq!(m.get_bid(id, OWNER), None);
    let parts = &m.get_auction(id).unwrap().participants;
    assert_eq!(parts.iter().map(|p| p.bidder).collect::<Vec<_>>(), vec![ALICE, BOB]);
    assert_eq!(
        m.events_emitted().last(),
        Some(&Event::BidderUpdated { auction: id, bidder: ALICE, price: 150, slots_remaining: 0 })
    );
}

#[test]
fn refused_escrow_leaves_auction_unchanged() {
    let mut m = Module::new();
    let mut env = Ledger { refuse_lock: true, ..Ledger::default() };
    let id = started(&mut m, 100, 10, None);
    assert_eq!(m.participate_auction(ALICE, id, 100, 0, &mut env), Err(AuctionError::EscrowFailed));
    assert_eq!(m.get_auction(id).unwrap().highest_bid, None);
    assert_eq!(m.get_bid(id, ALICE), None);
}

#[test]
fn item_bound_to_one_running_auction() {
    let mut m = Module::new();
    let mut env = Ledger::default();
    let a = m.create_auction(OWNER, 1, 1, None).unwrap();
    let b = m.create_auction(ALICE, 1, 1, None).unwrap();
    assert_eq!(m.bind_item(OWNER, a, 5), Ok(()));
    assert_eq!(m.bind_item(ALICE, b, 5), Err(AuctionError::ItemAlreadyAuctioned));
    assert_eq!(m.bind_item(OWNER, a, 6), Err(AuctionError::InvalidState));
    assert_eq!(m.bind_item(OWNER, b, 6), Err(AuctionError::Unauthorized));
    assert_eq!(m.auction_items(5), Some(a));
    m.stop_auction(Authority::Caller(OWNER), a, &mut env).unwrap();
    assert_eq!(m.bind_item(ALICE, b, 5), Ok(()));
    assert_eq!(m.auction_items(5), Some(b));
}

#[test]
fn settle_twice_gives_one_settlement() {
    let mut m = Module::new();
    let mut env = Ledger::default();
    let id = m.create_auction(OWNER, 10, 1, None).unwrap();
    m.bind_item(OWNER, id, 3).unwrap();
    m.start_auction(Authority::Caller(OWNER), id).unwrap();
    m.participate_auction(ALICE, id, 10, 0, &mut env).unwrap();
    m.participate_auction(BOB, id, 12, 1, &mut env).unwrap();
    let first = m.do_settle_auction(Authority::System, id, &mut env).unwrap();
    assert_eq!(first, Outcome::Winner { bidder: BOB, price: 12 });
    let calls = env.calls.clone();
    assert_eq!(
        calls[2..].to_vec(),
        vec![
            Call::TransferLocked { from: BOB, to: OWNER, amount: 12 },
            Call::TransferOwnership { item: 3, from: OWNER, to: BOB },
            Call::Unlock { who: ALICE, amount: 10 },
        ]
    );
    let second = m.do_settle_auction(Authority::System, id, &mut env).unwrap();
    assert_eq!(second, first);
    assert_eq!(env.calls, calls);
}

#[test]
fn failed_payment_keeps_auction_running_for_retry() {
    let mut m = Module::new();
    let mut env = Ledger { refuse_transfer_locked: true, ..Ledger::default() };
    let id = started(&mut m, 10, 1, None);
    m.participate_auction(ALICE, id, 10, 0, &mut env).unwrap();
    assert_eq!(
        m.stop_auction(Authority::Caller(OWNER), id, &mut env),
        Err(AuctionError::SettlementFailed { reason: SettlementFailure::Payment })
    );
    assert_eq!(status(&m, id), AuctionStatus::Active);
    assert_eq!(m.participate_auction(BOB, id, 20, 1, &mut env), Err(AuctionError::InvalidState));
    env.refuse_transfer_locked = false;
    assert_eq!(
        m.stop_auction(Authority::Caller(OWNER), id, &mut env),
        Ok(Outcome::Winner { bidder: ALICE, price: 10 })
    );
    assert_eq!(status(&m, id), AuctionStatus::Stopped);
}

#[test]
fn failed_item_transfer_does_not_pay_twice() {
    let mut m = Module::new();
    let mut env = Ledger { refuse_ownership: true, ..Ledger::default() };
    let id = m.create_auction(OWNER, 10, 1, None).unwrap();
    m.bind_item(OWNER, id, 8).unwrap();
    m.start_auction(Authority::Caller(OWNER), id).unwrap();
    m.participate_auction(ALICE, id, 10, 0, &mut env).unwrap();
    assert_eq!(
        m.stop_auction(Authority::System, id, &mut env),
        Err(AuctionError::SettlementFailed { reason: SettlementFailure::ItemTransfer })
    );
    assert_eq!(m.auction_items(8), Some(id));
    env.refuse_ownership = false;
    m.stop_auction(Authority::System, id, &mut env).unwrap();
    let payments = env.calls.iter().filter(|c| matches!(c, Call::TransferLocked { .. })).count();
    assert_eq!(payments, 1);
    assert_eq!(m.auction_items(8), None);
}

#[test]
fn failed_release_is_counted_and_retried_alone() {
    let mut m = Module::new();
    let mut env = Ledger { refuse_unlock_of: Some(ALICE), ..Ledger::default() };
    let id = started(&mut m, 10, 1, None);
    m.participate_auction(ALICE, id, 10, 0, &mut env).unwrap();
    m.participate_auction(OWNER, id, 11, 0, &mut env).unwrap();
    m.participate_auction(BOB, id, 12, 1, &mut env).unwrap();
    assert_eq!(
        m.stop_auction(Authority::Caller(OWNER), id, &mut env),
        Err(AuctionError::SettlementFailed { reason: SettlementFailure::Release { failed: 1 } })
    );
    assert_eq!(m.get_bid(id, OWNER), None);
    assert_eq!(m.get_bid(id, ALICE), Some(10));
    env.refuse_unlock_of = None;
    env.calls.clear();
    m.stop_auction(Authority::Caller(OWNER), id, &mut env).unwrap();
    assert_eq!(env.calls, vec![Call::Unlock { who: ALICE, amount: 10 }]);
}

#[test]
fn create_rejects_bad_parameters() {
    let mut m = Module::new();
    assert_eq!(m.create_auction(OWNER, 10, 0, None), Err(AuctionError::InvalidParameters));
    assert_eq!(m.create_auction(OWNER, 10, 1, Some(9)), Err(AuctionError::InvalidParameters));
    assert_eq!(m.next_auction_id(), 0);
    assert_eq!(m.create_auction(OWNER, 10, 1, Some(10)), Ok(0));
    assert_eq!(m.create_auction(OWNER, 10, 1, None), Ok(1));
    assert_eq!(m.next_auction_id(), 2);
}

#[test]
fn unknown_auction_is_not_found() {
    let mut m = Module::new();
    let mut env = Ledger::default();
    assert_eq!(m.pause_auction(OWNER, 0), Err(AuctionError::NotFound));
    assert_eq!(m.setup_moments(OWNER, 0, None, None, None), Err(AuctionError::NotFound));
    assert_eq!(m.participate_auction(OWNER, 0, 1, 0, &mut env), Err(AuctionError::NotFound));
    assert_eq!(m.stop_auction(Authority::System, 0, &mut env), Err(AuctionError::NotFound));
    assert_eq!(m.do_settle_auction(Authority::System, 0, &mut env), Err(AuctionError::NotFound));
    assert!(m.get_auction(0).is_none());
}

#[test]
fn setup_moments_keeps_omitted_fields() {
    let mut m = Module::new();
    let id = m.create_auction(OWNER, 1, 1, None).unwrap();
    assert_eq!(m.setup_moments(ALICE, id, Some(5), None, None), Err(AuctionError::Unauthorized));
    m.setup_moments(OWNER, id, Some(5), Some(9), None).unwrap();
    m.setup_moments(OWNER, id, None, None, Some(3)).unwrap();
    let a = m.get_auction(id).unwrap();
    assert_eq!((a.start_at, a.stop_at, a.wait_period), (Some(5), Some(9), Some(3)));
    m.start_auction(Authority::System, id).unwrap();
    assert_eq!(m.setup_moments(OWNER, id, Some(1), None, None), Err(AuctionError::InvalidState));
}

#[test]
fn bids_need_an_active_auction() {
    let mut m = Module::new();
    let mut env = Ledger::default();
    let id = m.create_auction(OWNER, 1, 1, None).unwrap();
    assert_eq!(m.participate_auction(ALICE, id, 5, 0, &mut env), Err(AuctionError::InvalidState));
    m.start_auction(Authority::Caller(OWNER), id).unwrap();
    m.pause_auction(OWNER, id).unwrap();
    assert_eq!(m.participate_auction(ALICE, id, 5, 0, &mut env), Err(AuctionError::InvalidState));
    assert_eq!(m.start_auction(Authority::Caller(ALICE), 0), Err(AuctionError::InvalidState));
}

#[test]
fn start_needs_the_owner() {
    let mut m = Module::new();
    let mut env = Ledger::default();
    let id = m.create_auction(OWNER, 1, 1, None).unwrap();
    assert_eq!(m.start_auction(Authority::Caller(ALICE), id), Err(AuctionError::Unauthorized));
    assert_eq!(
        m.stop_auction(Authority::Caller(ALICE), id, &mut env),
        Err(AuctionError::Unauthorized)
    );
}

#[test]
fn listings_follow_status() {
    let mut m = Module::new();
    let a = m.create_auction(OWNER, 1, 1, None).unwrap();
    let b = m.create_auction(OWNER, 1, 1, None).unwrap();
    let c = m.create_auction(OWNER, 1, 1, None).unwrap();
    m.start_auction(Authority::System, b).unwrap();
    m.start_auction(Authority::System, c).unwrap();
    m.pause_auction(OWNER, c).unwrap();
    assert_eq!(m.list_pending(), vec![a]);
    assert_eq!(m.list_active(), vec![b, c]);
}

#[test]
fn tick_reports_failures_and_goes_on() {
    let mut m = Module::new();
    let mut env = Ledger { refuse_transfer_locked: true, ..Ledger::default() };
    let a = started(&mut m, 1, 1, None);
    let b = m.create_auction(OWNER, 1, 1, None).unwrap();
    m.setup_moments(OWNER, b, None, Some(5), None).unwrap();
    m.start_auction(Authority::System, b).unwrap();
    m.participate_auction(ALICE, a, 1, 0, &mut env).unwrap();
    let failures = m.offchain(5, &mut env);
    assert_eq!(failures, vec![]);
    assert_eq!(status(&m, a), AuctionStatus::Active);
    assert_eq!(status(&m, b), AuctionStatus::Stopped);
    let c = m.create_auction(OWNER, 1, 1, Some(1)).unwrap();
    m.start_auction(Authority::System, c).unwrap();
    m.participate_auction(BOB, c, 1, 6, &mut env).unwrap();
    let failures = m.offchain(7, &mut env);
    assert_eq!(
        failures,
        vec![(c, AuctionError::SettlementFailed { reason: SettlementFailure::Payment })]
    );
    assert_eq!(status(&m, c), AuctionStatus::Active);
}

#[test]
fn refused_bids_make_no_call() {
    let mut m = Module::new();
    let mut env = Ledger::default();
    let id = started(&mut m, 100, 10, Some(200));
    assert_eq!(m.participate_auction(ALICE, id, 50, 0, &mut env), Err(AuctionError::PriceTooLow));
    assert!(env.calls.is_empty());
    m.participate_auction(ALICE, id, 200, 0, &mut env).unwrap();
    assert_eq!(
        m.participate_auction(BOB, id, 210, 1, &mut env),
        Err(AuctionError::PriceAboveCeiling)
    );
    assert_eq!(env.calls, vec![Call::Lock { who: ALICE, amount: 200 }]);
    assert_eq!(
        m.stop_auction(Authority::System, id, &mut env),
        Ok(Outcome::Winner { bidder: ALICE, price: 200 })
    );
    assert_eq!(
        env.calls[1..].to_vec(),
        vec![Call::TransferLocked { from: ALICE, to: OWNER, amount: 200 }]
    );
}
