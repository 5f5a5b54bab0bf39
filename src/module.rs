use vstd::prelude::*;

use std::collections::HashMap;

use crate::auction::{Auction, Participant};
use crate::env::{Call, Trait};
use crate::types::{is_edge, AuctionError, SettlementFailure, AuctionStatus, Authority, Event, Outcome};

verus! {

broadcast use vstd::std_specs::hash::group_hash_axioms;

/// Every auction keeps its status or moves along one edge of the state
/// machine; new auctions may appear at the end.
pub open spec fn statuses_follow(pre: Seq<Auction>, post: Seq<Auction>) -> bool {
    &&& pre.len() <= post.len()
    &&& forall|i: int|
        0 <= i < pre.len() ==> (#[trigger] post[i]).status == pre[i].status || is_edge(
            pre[i].status,
            post[i].status,
        )
}

/// All auctions but `id` are untouched.
pub open spec fn others_unchanged(pre: Seq<Auction>, post: Seq<Auction>, id: int) -> bool {
    &&& pre.len() == post.len()
    &&& forall|i: int| 0 <= i < pre.len() && i != id ==> #[trigger] post[i] == pre[i]
}

/// Whether `who` may administer `a` under authority `auth`.
pub open spec fn may_administer(a: Auction, auth: Authority) -> bool {
    match auth {
        Authority::Caller(who) => who == a.owner,
        Authority::System => true,
    }
}

/// The participants after `who` bids `price`: their entry, if any, now
/// escrows `price`; a new bidder joins at the end.
pub open spec fn bid_entries(ps: Seq<Participant>, who: u64, price: u64) -> Seq<Participant> {
    let p = Participant { bidder: who, escrow: price, held: true };
    if exists|k: int| 0 <= k < ps.len() && ps[k].bidder == who {
        ps.update(choose|k: int| 0 <= k < ps.len() && ps[k].bidder == who, p)
    } else {
        ps.push(p)
    }
}

/// `b` is auction `a` after taking a bid of `price` from `who` at moment
/// `now`.
pub open spec fn bid_applied(a: Auction, b: Auction, who: u64, price: u64, now: u64) -> bool {
    &&& b == (Auction {
        latest_participant: Some((who, now)),
        highest_bid: Some(price),
        ceiling_reached: a.ceiling_reached || a.upper_bound_price == Some(price),
        participants: b.participants,
        prices: Ghost(a.prices@.push(price)),
        ..a
    })
    &&& b.participants@ == bid_entries(a.participants@, who, price)
}

/// `price` passes the ceiling of `a`, if it has one.
pub open spec fn above_ceiling(a: Auction, price: u64) -> bool {
    match a.upper_bound_price {
        Some(u) => price > u,
        None => false,
    }
}

/// The winner of `a`, if anyone has bid.
pub open spec fn winner_of(a: Auction) -> Option<u64> {
    match a.latest_participant {
        Some((w, _)) => Some(w),
        None => None,
    }
}

/// The result a release pass reports: the number of refused releases.
pub open spec fn release_result(refused: nat) -> Result<(), SettlementFailure> {
    if refused == 0 {
        Ok(())
    } else {
        Err(SettlementFailure::Release { failed: refused as u64 })
    }
}

/// One attempt at settling auction `a`, leaving it as `b`, while the
/// collaborators' record of calls goes from `calls_pre` to `calls_post`.
/// With a winner, the winner's escrow is paid to the owner unless that was
/// done before; then the item, if one is bound and not handed over before,
/// goes to the winner; a refused step ends the attempt with its reason.
/// Then every other held escrow is released in participant order, and the
/// refused releases are counted. Each step done is recorded in `b` by the
/// answer the call gave, so that it is not done again.
pub open spec fn settle_step(
    a: Auction,
    b: Auction,
    calls_pre: Seq<(Call, bool)>,
    calls_post: Seq<(Call, bool)>,
    r: Result<(), SettlementFailure>,
) -> bool {
    let n = a.participants@.len() as int;
    let release = release_calls(a.participants@, b.participants@, winner_of(a), n);
    let refused = refused_releases(a.participants@, b.participants@, winner_of(a), n);
    &&& b == (Auction {
        settling: true,
        winner_paid: b.winner_paid,
        item_delivered: b.item_delivered,
        participants: b.participants,
        ..a
    })
    &&& match winner_of(a) {
        None => {
            &&& b.winner_paid == a.winner_paid
            &&& b.item_delivered == a.item_delivered
            &&& released(a.participants@, b.participants@, None)
            &&& calls_post == calls_pre + release
            &&& r == release_result(refused)
        },
        Some(w) => {
            let pay: Seq<(Call, bool)> = if a.winner_paid {
                Seq::empty()
            } else {
                seq![
                    (
                        Call::TransferLocked {
                            from: w,
                            to: a.owner,
                            amount: a.highest_bid.unwrap_or(0),
                        },
                        b.winner_paid,
                    ),
                ]
            };
            let give: Seq<(Call, bool)> = match a.item {
                Some(x) => if a.item_delivered {
                    Seq::empty()
                } else {
                    seq![
                        (Call::TransferOwnership { item: x, from: a.owner, to: w }, b.item_delivered),
                    ]
                },
                None => Seq::empty(),
            };
            &&& a.winner_paid ==> b.winner_paid
            &&& a.item_delivered ==> b.item_delivered
            &&& if !b.winner_paid {
                &&& r == Err::<(), SettlementFailure>(SettlementFailure::Payment)
                &&& calls_post == calls_pre + pay
                &&& b.item_delivered == a.item_delivered
                &&& b.participants@ == a.participants@
            } else if !b.item_delivered {
                &&& a.item is Some
                &&& r == Err::<(), SettlementFailure>(SettlementFailure::ItemTransfer)
                &&& calls_post == calls_pre + pay + give
                &&& b.participants@ == a.participants@
            } else {
                &&& released(a.participants@, b.participants@, Some(w))
                &&& calls_post == calls_pre + pay + give + release
                &&& r == release_result(refused)
            }
        },
    }
}

/// What an attempt to stop auction `a`, which was not stopped, does to its
/// record, left as `b`, and to the collaborators' record of calls. Before
/// the auction started there is nothing to settle and no call is made.
/// After, the attempt settles it as `settle_step` says. On success it is
/// stopped with the outcome that `settled_outcome` gives and no escrow is
/// held; on a refused step its status stays, so that the stop can be tried
/// again, and the error names that step.
pub open spec fn stop_record(
    a: Auction,
    b: Auction,
    calls_pre: Seq<(Call, bool)>,
    calls_post: Seq<(Call, bool)>,
    r: Result<Outcome, AuctionError>,
) -> bool {
    match r {
        Ok(o) => {
            &&& o == a.settled_outcome()
            &&& b.status == AuctionStatus::Stopped
            &&& b.outcome == Some(o)
            &&& forall|k: int|
                0 <= k < b.participants@.len() ==> !(#[trigger] b.participants@[k]).held
            &&& if a.status == AuctionStatus::PendingStart {
                &&& calls_post == calls_pre
                &&& b == (Auction { status: AuctionStatus::Stopped, outcome: Some(o), ..a })
            } else {
                settle_step(
                    a,
                    (Auction { status: a.status, outcome: a.outcome, ..b }),
                    calls_pre,
                    calls_post,
                    Ok(()),
                )
            }
        },
        Err(e) => {
            &&& a.status != AuctionStatus::PendingStart
            &&& e matches AuctionError::SettlementFailed { reason } && settle_step(
                a,
                b,
                calls_pre,
                calls_post,
                Err(reason),
            )
        },
    }
}

/// An attempt to stop auction `a` as `stop_record` says, which on success
/// also unbinds its item and notifies the change, and on failure changes
/// neither.
pub open spec fn stop_attempted(
    a: Auction,
    b: Auction,
    items_pre: Map<u64, u64>,
    items_post: Map<u64, u64>,
    events_pre: Seq<Event>,
    events_post: Seq<Event>,
    calls_pre: Seq<(Call, bool)>,
    calls_post: Seq<(Call, bool)>,
    r: Result<Outcome, AuctionError>,
) -> bool {
    &&& stop_record(a, b, calls_pre, calls_post, r)
    &&& r is Ok ==> {
        &&& items_post == (match a.item {
            Some(x) => items_pre.remove(x),
            None => items_pre,
        })
        &&& events_post == events_pre.push(
            Event::AuctionStatusChanged {
                auction: a.id,
                from: a.status,
                to: AuctionStatus::Stopped,
            },
        )
    }
    &&& r is Err ==> items_post == items_pre && events_post == events_pre
}

/// A pending auction whose start time has come.
pub open spec fn start_due(a: Auction, now: u64) -> bool {
    &&& a.status == AuctionStatus::PendingStart
    &&& a.start_at matches Some(s) && now >= s
}

/// The quiet period has passed since the last bid.
pub open spec fn quiet_elapsed(a: Auction, now: u64) -> bool {
    match (a.wait_period, a.latest_participant) {
        (Some(w), Some((_, t))) => now >= t + w,
        _ => false,
    }
}

/// A running auction due to close: its stop time has come, its quiet
/// period has passed, or its ceiling was bid.
pub open spec fn stop_due(a: Auction, now: u64) -> bool {
    &&& (a.status == AuctionStatus::Active || a.status == AuctionStatus::Paused)
    &&& ((a.stop_at matches Some(s) && now >= s) || quiet_elapsed(a, now) || a.ceiling_reached)
}

proof fn lemma_add_cancel(p: Seq<(Call, bool)>, d: Seq<(Call, bool)>, x: Seq<(Call, bool)>)
    requires
        p + d == p + x,
    ensures
        d == x,
        Seq::<(Call, bool)>::empty() + x == x,
{
    assert(d =~= (p + d).subrange(p.len() as int, (p + d).len() as int));
    assert(x =~= (p + x).subrange(p.len() as int, (p + x).len() as int));
    assert(Seq::<(Call, bool)>::empty() + x =~= x);
}

/// A step of settlement read against the calls made before it, or against
/// none, says the same of the calls it made.
proof fn lemma_settle_step_shift(
    a: Auction,
    b: Auction,
    pre: Seq<(Call, bool)>,
    post: Seq<(Call, bool)>,
    r: Result<(), SettlementFailure>,
)
    requires
        settle_step(a, b, pre, post, r),
        post.len() >= pre.len(),
    ensures
        settle_step(a, b, Seq::empty(), post.subrange(pre.len() as int, post.len() as int), r),
{
    let d = post.subrange(pre.len() as int, post.len() as int);
    assert(post =~= pre + d);
    let n = a.participants@.len() as int;
    let release = release_calls(a.participants@, b.participants@, winner_of(a), n);
    match winner_of(a) {
        None => {
            lemma_add_cancel(pre, d, release);
        },
        Some(w) => {
            let pay: Seq<(Call, bool)> = if a.winner_paid {
                Seq::empty()
            } else {
                seq![
                    (
                        Call::TransferLocked {
                            from: w,
                            to: a.owner,
                            amount: a.highest_bid.unwrap_or(0),
                        },
                        b.winner_paid,
                    ),
                ]
            };
            let give: Seq<(Call, bool)> = match a.item {
                Some(x) => if a.item_delivered {
                    Seq::empty()
                } else {
                    seq![
                        (Call::TransferOwnership { item: x, from: a.owner, to: w }, b.item_delivered),
                    ]
                },
                None => Seq::empty(),
            };
            if !b.winner_paid {
                lemma_add_cancel(pre, d, pay);
            } else if !b.item_delivered {
                assert(pre + pay + give =~= pre + (pay + give));
                lemma_add_cancel(pre, d, pay + give);
                assert(Seq::<(Call, bool)>::empty() + pay + give =~= pay + give);
            } else {
                assert(pre + pay + give + release =~= pre + (pay + give + release));
                lemma_add_cancel(pre, d, pay + give + release);
                assert(Seq::<(Call, bool)>::empty() + pay + give + release =~= pay + give + release);
            }
        },
    }
}

/// An attempt to stop an auction read against the calls made before it,
/// or against none, says the same of the calls it made.
proof fn lemma_stop_record_shift(
    a: Auction,
    b: Auction,
    pre: Seq<(Call, bool)>,
    post: Seq<(Call, bool)>,
    r: Result<Outcome, AuctionError>,
)
    requires
        stop_record(a, b, pre, post, r),
        post.len() >= pre.len(),
    ensures
        stop_record(a, b, Seq::empty(), post.subrange(pre.len() as int, post.len() as int), r),
{
    let d = post.subrange(pre.len() as int, post.len() as int);
    match r {
        Ok(o) => {
            if a.status == AuctionStatus::PendingStart {
                assert(d =~= Seq::<(Call, bool)>::empty());
            } else {
                lemma_settle_step_shift(
                    a,
                    (Auction { status: a.status, outcome: a.outcome, ..b }),
                    pre,
                    post,
                    Ok(()),
                );
            }
        },
        Err(e) => {
            if let AuctionError::SettlementFailed { reason } = e {
                lemma_settle_step_shift(a, b, pre, post, Err(reason));
            }
        },
    }
}

proof fn lemma_flatten_empty(s: Seq<Seq<(Call, bool)>>)
    requires
        forall|j: int| 0 <= j < s.len() ==> (#[trigger] s[j]).len() == 0,
    ensures
        s.flatten() == Seq::<(Call, bool)>::empty(),
    decreases s.len(),
{
    if s.len() > 0 {
        assert forall|j: int| 0 <= j < s.drop_first().len() implies (
        #[trigger] s.drop_first()[j]).len() == 0 by {
            assert(s.drop_first()[j] == s[j + 1]);
        }
        lemma_flatten_empty(s.drop_first());
        assert(s.first().len() == 0);
        assert(s.flatten() =~= s.first() + s.drop_first().flatten());
        assert(s.first() + Seq::<(Call, bool)>::empty() =~= Seq::<(Call, bool)>::empty());
    }
}

/// Whether `failures` lists auction `id`.
pub open spec fn listed_failure(failures: Seq<(u64, AuctionError)>, id: u64) -> bool {
    exists|m: int| 0 <= m < failures.len() && (#[trigger] failures[m]).0 == id
}

/// What one scheduler tick at `now` did to auction `a`, leaving `b`, with
/// the calls `calls` it made to the collaborators and the notifications
/// `events` it emitted for it: started it if due to start; tried to stop it
/// if due to stop, as `stop_record` says, reporting it as failed (`failed`)
/// exactly when that was refused; otherwise left it alone.
pub open spec fn tick_applied(
    a: Auction,
    b: Auction,
    now: u64,
    calls: Seq<(Call, bool)>,
    events: Seq<Event>,
    failed: bool,
) -> bool {
    if start_due(a, now) {
        &&& b == (Auction { status: AuctionStatus::Active, ..a })
        &&& calls.len() == 0
        &&& events == seq![
            Event::AuctionStatusChanged {
                auction: a.id,
                from: AuctionStatus::PendingStart,
                to: AuctionStatus::Active,
            },
        ]
        &&& !failed
    } else if stop_due(a, now) {
        exists|r: Result<Outcome, AuctionError>|
            {
                &&& #[trigger] stop_record(a, b, Seq::empty(), calls, r)
                &&& failed == r is Err
                &&& events == if r is Ok {
                    seq![
                        Event::AuctionStatusChanged {
                            auction: a.id,
                            from: a.status,
                            to: AuctionStatus::Stopped,
                        },
                    ]
                } else {
                    Seq::empty()
                }
            }
    } else {
        &&& b == a
        &&& calls.len() == 0
        &&& events.len() == 0
        &&& !failed
    }
}

/// What is escrowed for `who` among participants `ps`, if anything is held.
pub open spec fn escrow_of(ps: Seq<Participant>, who: u64) -> Option<u64> {
    if exists|k: int| 0 <= k < ps.len() && ps[k].bidder == who {
        let p = ps[choose|k: int| 0 <= k < ps.len() && ps[k].bidder == who];
        if p.held {
            Some(p.escrow)
        } else {
            None
        }
    } else {
        None
    }
}

/// Whether `a` is listed among the pending auctions (`pending`) or among
/// the running and paused ones.
pub open spec fn listed(a: Auction, pending: bool) -> bool {
    if pending {
        a.status == AuctionStatus::PendingStart
    } else {
        a.status == AuctionStatus::Active || a.status == AuctionStatus::Paused
    }
}

/// In a well-formed auction each accepted price is at least the minimum
/// step above every earlier one.
proof fn lemma_rise_from(a: Auction, i: int, j: int)
    requires
        a.wf(),
        0 <= i < j < a.prices@.len(),
    ensures
        a.prices@[j] >= a.prices@[i] + a.minimum_step,
    decreases j - i,
{
    let k = j - 1;
    assert(a.prices@[k + 1] >= a.prices@[k] + a.minimum_step);
    if i < j - 1 {
        lemma_rise_from(a, i, j - 1);
    }
}

/// The calls a release pass makes over the first `n` participants `pre`,
/// which it leaves as `post`: one unlock of the escrow of each held
/// participant but `winner`, in order, whose answer shows in whether
/// `post` still holds that escrow.
pub open spec fn release_calls(
    pre: Seq<Participant>,
    post: Seq<Participant>,
    winner: Option<u64>,
    n: int,
) -> Seq<(Call, bool)>
    decreases n,
{
    if n <= 0 {
        Seq::empty()
    } else {
        let p = pre[n - 1];
        let rest = release_calls(pre, post, winner, n - 1);
        if p.held && winner != Some(p.bidder) {
            rest.push((Call::Unlock { who: p.bidder, amount: p.escrow }, !post[n - 1].held))
        } else {
            rest
        }
    }
}

/// How many of the releases among the first `n` participants were refused.
pub open spec fn refused_releases(
    pre: Seq<Participant>,
    post: Seq<Participant>,
    winner: Option<u64>,
    n: int,
) -> nat
    decreases n,
{
    if n <= 0 {
        0
    } else {
        let p = pre[n - 1];
        refused_releases(pre, post, winner, n - 1) + if p.held && winner != Some(p.bidder)
            && post[n - 1].held {
            1nat
        } else {
            0nat
        }
    }
}

/// `post` is `pre` after a release pass: the same bidders and amounts, the
/// winner's escrow (paid out) no longer held, and nothing held anew.
pub open spec fn released(pre: Seq<Participant>, post: Seq<Participant>, winner: Option<u64>) -> bool {
    &&& post.len() == pre.len()
    &&& forall|k: int|
        0 <= k < pre.len() ==> {
            &&& (#[trigger] post[k]).bidder == pre[k].bidder
            &&& post[k].escrow == pre[k].escrow
            &&& post[k].held ==> pre[k].held
            &&& winner == Some(pre[k].bidder) ==> !post[k].held
        }
}

proof fn lemma_release_prefix(
    pre: Seq<Participant>,
    p1: Seq<Participant>,
    p2: Seq<Participant>,
    winner: Option<u64>,
    n: int,
)
    requires
        forall|j: int| 0 <= j < n ==> #[trigger] p1[j] == p2[j],
    ensures
        release_calls(pre, p1, winner, n) == release_calls(pre, p2, winner, n),
        refused_releases(pre, p1, winner, n) == refused_releases(pre, p2, winner, n),
    decreases n,
{
    if n > 0 {
        lemma_release_prefix(pre, p1, p2, winner, n - 1);
        assert(p1[n - 1] == p2[n - 1]);
    }
}

/// Releases the escrow of every participant but `winner`, whose escrow has
/// been paid out and is only marked as no longer held. A refused release
/// leaves that escrow held and is counted; the pass goes on.
fn release_escrows<E: Trait>(ps: &mut Vec<Participant>, winner: Option<u64>, env: &mut E) -> (failed: u64)
    ensures
        released(old(ps)@, final(ps)@, winner),
        final(env).calls() == old(env).calls() + release_calls(
            old(ps)@,
            final(ps)@,
            winner,
            old(ps)@.len() as int,
        ),
        failed == refused_releases(old(ps)@, final(ps)@, winner, old(ps)@.len() as int),
        failed == 0 ==> forall|k: int| 0 <= k < final(ps)@.len() ==> !(#[trigger] final(ps)@[k]).held,
{
    let mut failed: u64 = 0;
    let mut k: usize = 0;
    let n = ps.len();
    while k < n
        invariant
            n == old(ps)@.len(),
            ps@.len() == n,
            k <= n,
            failed <= k,
            forall|m: int|
                0 <= m < k ==> {
                    &&& (#[trigger] ps@[m]).bidder == old(ps)@[m].bidder
                    &&& ps@[m].escrow == old(ps)@[m].escrow
                    &&& ps@[m].held ==> old(ps)@[m].held
                    &&& winner == Some(old(ps)@[m].bidder) ==> !ps@[m].held
                },
            forall|m: int| k <= m < n ==> #[trigger] ps@[m] == old(ps)@[m],
            env.calls() == old(env).calls() + release_calls(old(ps)@, ps@, winner, k as int),
            failed == refused_releases(old(ps)@, ps@, winner, k as int),
            failed == 0 ==> forall|m: int| 0 <= m < k ==> !(#[trigger] ps@[m]).held,
        decreases n - k,
    {
        let ghost before = ps@;
        let ghost calls_before = env.calls();
        let p = ps[k];
        if p.held {
            let released = Participant { held: false, ..p };
            if winner == Some(p.bidder) {
                ps.set(k, released);
            } else if env.unlock(p.bidder, p.escrow).is_ok() {
                ps.set(k, released);
            } else {
                failed = failed + 1;
            }
        }
        proof {
            lemma_release_prefix(old(ps)@, before, ps@, winner, k as int);
            assert(release_calls(old(ps)@, ps@, winner, k + 1) =~= if p.held && winner != Some(
                p.bidder,
            ) {
                release_calls(old(ps)@, ps@, winner, k as int).push(
                    (Call::Unlock { who: p.bidder, amount: p.escrow }, !ps@[k as int].held),
                )
            } else {
                release_calls(old(ps)@, ps@, winner, k as int)
            });
            assert(env.calls() =~= old(env).calls() + release_calls(
                old(ps)@,
                ps@,
                winner,
                k + 1,
            ));
        }
        k = k + 1;
    }
    failed
}

/// The auction registry and state machine: auction records, the index from
/// items to the auction selling them, and the notifications emitted so far.
pub struct Module {
    next_auction_id: u64,
    auctions: Vec<Auction>,
    auction_items: HashMap<u64, u64>,
    events: Vec<Event>,
}

impl Module {
    /// The auction records, auction `i` at position `i`.
    pub closed spec fn auctions(&self) -> Seq<Auction> {
        self.auctions@
    }

    /// The index from each item to the not yet stopped auction it is bound to.
    pub closed spec fn items(&self) -> Map<u64, u64> {
        self.auction_items@
    }

    /// The notifications emitted so far, oldest first.
    pub closed spec fn events(&self) -> Seq<Event> {
        self.events@
    }

    pub closed spec fn wf(&self) -> bool {
        &&& self.auctions@.len() == self.next_auction_id
        &&& forall|i: int|
            0 <= i < self.auctions@.len() ==> (#[trigger] self.auctions@[i]).wf()
                && self.auctions@[i].id == i
        &&& forall|x: u64|
            #[trigger] self.auction_items@.contains_key(x) ==> {
                let i = self.auction_items@[x] as int;
                &&& 0 <= i < self.auctions@.len()
                &&& self.auctions@[i].item == Some(x)
                &&& self.auctions@[i].status != AuctionStatus::Stopped
            }
        &&& forall|i: int|
            0 <= i < self.auctions@.len() && (#[trigger] self.auctions@[i]).item is Some
                && self.auctions@[i].status != AuctionStatus::Stopped ==> {
                let x = self.auctions@[i].item.unwrap();
                self.auction_items@.contains_key(x) && self.auction_items@[x] == i
            }
    }

    pub fn new() -> (m: Module)
        ensures
            m.wf(),
            m.auctions().len() == 0,
            m.items().is_empty(),
            m.events().len() == 0,
    {
        Module {
            next_auction_id: 0,
            auctions: Vec::new(),
            auction_items: HashMap::new(),
            events: Vec::new(),
        }
    }

    /// The identifier the next auction will get; fails when none is left.
    fn get_next_auction_id(&self) -> (r: Result<u64, AuctionError>)
        requires
            self.wf(),
        ensures
            self.auctions().len() < u64::MAX ==> r == Ok::<u64, AuctionError>(
                self.auctions().len() as u64,
            ),
            self.auctions().len() >= u64::MAX ==> r == Err::<u64, AuctionError>(
                AuctionError::IdSpaceExhausted,
            ),
    {
        let auction_id = self.next_auction_id;
        if auction_id == u64::MAX {
            return Err(AuctionError::IdSpaceExhausted);
        }
        Ok(auction_id)
    }

    fn insert_auction(&mut self, auction_id: u64, auction: Auction)
        requires
            old(self).wf(),
            auction.wf(),
            auction.id == auction_id,
            auction.item is None,
            auction_id == old(self).auctions().len(),
            auction_id < u64::MAX,
        ensures
            final(self).wf(),
            final(self).auctions() == old(self).auctions().push(auction),
            final(self).items() == old(self).items(),
            final(self).events() == old(self).events(),
    {
        self.auctions.push(auction);
        self.next_auction_id = auction_id + 1;
        assert(self.auctions@[auction_id as int] == auction);
    }

    /// A new auction's record, still to be bound to an item and started.
    pub open spec fn fresh(
        a: Auction,
        id: u64,
        owner: u64,
        begin_price: u64,
        minimum_step: u64,
        upper_bound_price: Option<u64>,
    ) -> bool {
        &&& a.id == id
        &&& a.item is None
        &&& a.owner == owner
        &&& a.start_at is None
        &&& a.stop_at is None
        &&& a.wait_period is None
        &&& a.begin_price == begin_price
        &&& a.upper_bound_price == upper_bound_price
        &&& a.minimum_step == minimum_step
        &&& a.latest_participant is None
        &&& a.highest_bid is None
        &&& a.status == AuctionStatus::PendingStart
        &&& !a.ceiling_reached
        &&& a.participants@.len() == 0
        &&& !a.settling
        &&& !a.winner_paid
        &&& !a.item_delivered
        &&& a.outcome is None
        &&& a.prices@.len() == 0
    }

    fn do_create_auction(
        &mut self,
        owner: u64,
        begin_price: u64,
        minimum_step: u64,
        upper_bound_price: Option<u64>,
    ) -> (r: Result<u64, AuctionError>)
        requires
            old(self).wf(),
            minimum_step > 0,
            upper_bound_price matches Some(u) ==> u >= begin_price,
        ensures
            final(self).wf(),
            final(self).items() == old(self).items(),
            final(self).events() == old(self).events(),
            old(self).auctions().len() >= u64::MAX ==> r == Err::<u64, AuctionError>(
                AuctionError::IdSpaceExhausted,
            ) && final(self).auctions() == old(self).auctions(),
            old(self).auctions().len() < u64::MAX ==> {
                &&& r == Ok::<u64, AuctionError>(old(self).auctions().len() as u64)
                &&& final(self).auctions().len() == old(self).auctions().len() + 1
                &&& final(self).auctions().drop_last() == old(self).auctions()
                &&& Self::fresh(
                    final(self).auctions().last(),
                    r->Ok_0,
                    owner,
                    begin_price,
                    minimum_step,
                    upper_bound_price,
                )
            },
    {
        let auction_id = self.get_next_auction_id()?;
        let new_auction = Auction {
            id: auction_id,
            item: None,
            owner,
            start_at: None,
            stop_at: None,
            wait_period: None,
            begin_price,
            upper_bound_price,
            minimum_step,
            latest_participant: None,
            highest_bid: None,
            status: AuctionStatus::PendingStart,
            ceiling_reached: false,
            participants: Vec::new(),
            settling: false,
            winner_paid: false,
            item_delivered: false,
            outcome: None,
            prices: Ghost(Seq::empty()),
        };
        self.insert_auction(auction_id, new_auction);
        assert(self.auctions().drop_last() =~= old(self).auctions());
        Ok(auction_id)
    }

    /// Opens a new auction administered by `caller`, in `PendingStart`.
    /// A zero minimum step, or a ceiling below the opening price, is refused.
    pub fn create_auction(
        &mut self,
        caller: u64,
        begin_price: u64,
        minimum_step: u64,
        upper_bound_price: Option<u64>,
    ) -> (r: Result<u64, AuctionError>)
        requires
            old(self).wf(),
        ensures
            final(self).wf(),
            final(self).items() == old(self).items(),
            final(self).events() == old(self).events(),
            statuses_follow(old(self).auctions(), final(self).auctions()),
            r is Err ==> final(self).auctions() == old(self).auctions(),
            (minimum_step == 0 || (upper_bound_price matches Some(u) && u < begin_price)) ==> r
                == Err::<u64, AuctionError>(AuctionError::InvalidParameters),
            minimum_step > 0 && (upper_bound_price matches Some(u) ==> u >= begin_price) ==> {
                &&& old(self).auctions().len() >= u64::MAX ==> r == Err::<u64, AuctionError>(
                    AuctionError::IdSpaceExhausted,
                )
                &&& old(self).auctions().len() < u64::MAX ==> {
                    &&& r == Ok::<u64, AuctionError>(old(self).auctions().len() as u64)
                    &&& final(self).auctions().len() == old(self).auctions().len() + 1
                    &&& final(self).auctions().drop_last() == old(self).auctions()
                    &&& Self::fresh(
                        final(self).auctions().last(),
                        r->Ok_0,
                        caller,
                        begin_price,
                        minimum_step,
                        upper_bound_price,
                    )
                }
            },
    {
        if minimum_step == 0 {
            return Err(AuctionError::InvalidParameters);
        }
        if let Some(u) = upper_bound_price {
            if u < begin_price {
                return Err(AuctionError::InvalidParameters);
            }
        }
        self.do_create_auction(caller, begin_price, minimum_step, upper_bound_price)
    }

    /// The record of auction `id`, if there is one.
    pub open spec fn lookup(&self, id: u64) -> Option<Auction> {
        if id < self.auctions().len() {
            Some(self.auctions()[id as int])
        } else {
            None
        }
    }

    pub fn get_auction(&self, id: u64) -> (r: Option<&Auction>)
        requires
            self.wf(),
        ensures
            r matches Some(a) ==> self.lookup(id) == Some(*a),
            r is None ==> self.lookup(id) is None,
    {
        let n = self.auctions.len();
        if (id as u128) < (n as u128) {
            Some(&self.auctions[id as usize])
        } else {
            None
        }
    }

    /// The identifier the next created auction will get.
    pub fn next_auction_id(&self) -> (r: u64)
        requires
            self.wf(),
        ensures
            r == self.auctions().len(),
    {
        self.next_auction_id
    }

    /// The not yet stopped auction that `item` is bound to.
    pub fn auction_items(&self, item: u64) -> (r: Option<u64>)
        requires
            self.wf(),
        ensures
            r == (if self.items().contains_key(item) {
                Some(self.items()[item])
            } else {
                None::<u64>
            }),
    {
        match self.auction_items.get(&item) {
            Some(id) => Some(*id),
            None => None,
        }
    }

    /// The notifications emitted so far, oldest first.
    pub fn events_emitted(&self) -> (r: &Vec<Event>)
        ensures
            r@ == self.events(),
    {
        &self.events
    }

    /// Where auction `id` stands in the table, if it exists.
    fn position(&self, id: u64) -> (r: Option<usize>)
        requires
            self.wf(),
        ensures
            r matches Some(i) ==> i == id && id < self.auctions().len(),
            r is None ==> id >= self.auctions().len(),
    {
        let n = self.auctions.len();
        if (id as u128) < (n as u128) {
            Some(id as usize)
        } else {
            None
        }
    }

    /// Moves auction `i` between the states of a running auction and records
    /// the change.
    fn set_running_status(&mut self, i: usize, to: AuctionStatus)
        requires
            old(self).wf(),
            i < old(self).auctions().len(),
            old(self).auctions()[i as int].status != AuctionStatus::Stopped,
            to != AuctionStatus::Stopped,
            to != AuctionStatus::PendingStart,
        ensures
            final(self).wf(),
            final(self).auctions() == old(self).auctions().update(
                i as int,
                (Auction { status: to, ..old(self).auctions()[i as int] }),
            ),
            final(self).items() == old(self).items(),
            final(self).events() == old(self).events().push(
                Event::AuctionStatusChanged {
                    auction: i as u64,
                    from: old(self).auctions()[i as int].status,
                    to,
                },
            ),
    {
        let from = self.auctions[i].status;
        let id = self.auctions[i].id;
        self.auctions[i].status = to;
        self.events.push(Event::AuctionStatusChanged { auction: id, from, to });
        proof {
            assert(self.auctions@ =~= old(self).auctions@.update(
                i as int,
                (Auction { status: to, ..old(self).auctions@[i as int] }),
            ));
            let a = old(self).auctions@[i as int];
            if let Some((w, _)) = a.latest_participant {
                let k = choose|k: int|
                    0 <= k < a.participants@.len() && (#[trigger] a.participants@[k]).bidder == w
                        && a.participants@[k].escrow == a.highest_bid.unwrap_or(0);
                assert(self.auctions@[i as int].participants@[k].bidder == w);
            }
            Self::lemma_wf_one_changed(old(self), self, i as int);
        }
    }

    /// Binds auction `id` to `item`. Only the owner may, only before the
    /// auction starts and once; an item is sold by one running auction at a
    /// time.
    pub fn bind_item(&mut self, caller: u64, id: u64, item: u64) -> (r: Result<(), AuctionError>)
        requires
            old(self).wf(),
        ensures
            final(self).wf(),
            final(self).events() == old(self).events(),
            statuses_follow(old(self).auctions(), final(self).auctions()),
            r is Err ==> final(self).auctions() == old(self).auctions() && final(self).items()
                == old(self).items(),
            old(self).lookup(id) is None ==> r == Err::<(), AuctionError>(AuctionError::NotFound),
            old(self).lookup(id) matches Some(a) ==> {
                &&& (a.status != AuctionStatus::PendingStart || a.item is Some) ==> r == Err::<
                    (),
                    AuctionError,
                >(AuctionError::InvalidState)
                &&& (a.status == AuctionStatus::PendingStart && a.item is None && caller
                    != a.owner) ==> r == Err::<(), AuctionError>(AuctionError::Unauthorized)
                &&& (a.status == AuctionStatus::PendingStart && a.item is None && caller == a.owner
                    && old(self).items().contains_key(item)) ==> r == Err::<(), AuctionError>(
                    AuctionError::ItemAlreadyAuctioned,
                )
                &&& (a.status == AuctionStatus::PendingStart && a.item is None && caller == a.owner
                    && !old(self).items().contains_key(item)) ==> {
                    &&& r is Ok
                    &&& final(self).auctions() == old(self).auctions().update(
                        id as int,
                        (Auction { item: Some(item), ..a }),
                    )
                    &&& final(self).items() == old(self).items().insert(item, id)
                }
            },
    {
        let i = match self.position(id) {
            Some(i) => i,
            None => return Err(AuctionError::NotFound),
        };
        if self.auctions[i].status != AuctionStatus::PendingStart || self.auctions[i].item.is_some() {
            return Err(AuctionError::InvalidState);
        }
        if self.auctions[i].owner != caller {
            return Err(AuctionError::Unauthorized);
        }
        if self.auction_items.contains_key(&item) {
            return Err(AuctionError::ItemAlreadyAuctioned);
        }
        self.auctions[i].item = Some(item);
        self.auction_items.insert(item, id);
        proof {
            let pre = old(self).auctions@;
            let post = self.auctions@;
            assert(post =~= pre.update(i as int, (Auction { item: Some(item), ..pre[i as int] })));
            assert forall|x: u64| #[trigger] self.auction_items@.contains_key(x) implies {
                let j = self.auction_items@[x] as int;
                &&& 0 <= j < post.len()
                &&& post[j].item == Some(x)
                &&& post[j].status != AuctionStatus::Stopped
            } by {
                if x != item {
                    assert(old(self).auction_items@.contains_key(x));
                    let j = old(self).auction_items@[x] as int;
                    assert(pre[j].item == Some(x));
                }
            }
            assert forall|j: int|
                0 <= j < post.len() && (#[trigger] post[j]).item is Some && post[j].status
                    != AuctionStatus::Stopped implies {
                let x = post[j].item.unwrap();
                self.auction_items@.contains_key(x) && self.auction_items@[x] == j
            } by {
                if j != i {
                    assert(pre[j].item == post[j].item);
                    let x = post[j].item.unwrap();
                    assert(old(self).auction_items@.contains_key(x));
                    assert(x != item);
                }
            }
        }
        Ok(())
    }

    /// Sets the schedule of a `PendingStart` auction; only the owner may.
    /// A field given as `None` keeps its value.
    pub fn setup_moments(
        &mut self,
        caller: u64,
        id: u64,
        start_at: Option<u64>,
        stop_at: Option<u64>,
        wait_period: Option<u64>,
    ) -> (r: Result<(), AuctionError>)
        requires
            old(self).wf(),
        ensures
            final(self).wf(),
            final(self).items() == old(self).items(),
            final(self).events() == old(self).events(),
            statuses_follow(old(self).auctions(), final(self).auctions()),
            r is Err ==> final(self).auctions() == old(self).auctions(),
            old(self).lookup(id) is None ==> r == Err::<(), AuctionError>(AuctionError::NotFound),
            old(self).lookup(id) matches Some(a) ==> {
                &&& a.status != AuctionStatus::PendingStart ==> r == Err::<(), AuctionError>(
                    AuctionError::InvalidState,
                )
                &&& (a.status == AuctionStatus::PendingStart && caller != a.owner) ==> r == Err::<
                    (),
                    AuctionError,
                >(AuctionError::Unauthorized)
                &&& (a.status == AuctionStatus::PendingStart && caller == a.owner) ==> {
                    &&& r is Ok
                    &&& final(self).auctions() == old(self).auctions().update(
                        id as int,
                        (Auction {
                            start_at: if start_at is Some { start_at } else { a.start_at },
                            stop_at: if stop_at is Some { stop_at } else { a.stop_at },
                            wait_period: if wait_period is Some { wait_period } else { a.wait_period },
                            ..a
                        }),
                    )
                }
            },
    {
        let i = match self.position(id) {
            Some(i) => i,
            None => return Err(AuctionError::NotFound),
        };
        if self.auctions[i].status != AuctionStatus::PendingStart {
            return Err(AuctionError::InvalidState);
        }
        if self.auctions[i].owner != caller {
            return Err(AuctionError::Unauthorized);
        }
        if start_at.is_some() {
            self.auctions[i].start_at = start_at;
        }
        if stop_at.is_some() {
            self.auctions[i].stop_at = stop_at;
        }
        if wait_period.is_some() {
            self.auctions[i].wait_period = wait_period;
        }
        proof {
            let pre = old(self).auctions@;
            let post = self.auctions@;
            let a = pre[i as int];
            assert(post =~= pre.update(
                i as int,
                (Auction {
                    start_at: if start_at is Some { start_at } else { a.start_at },
                    stop_at: if stop_at is Some { stop_at } else { a.stop_at },
                    wait_period: if wait_period is Some { wait_period } else { a.wait_period },
                    ..a
                }),
            ));
            Self::lemma_wf_one_changed(old(self), self, i as int);
        }
        Ok(())
    }

    /// Pauses an `Active` auction; only the owner may.
    pub fn pause_auction(&mut self, caller: u64, id: u64) -> (r: Result<(), AuctionError>)
        requires
            old(self).wf(),
        ensures
            final(self).wf(),
            final(self).items() == old(self).items(),
            statuses_follow(old(self).auctions(), final(self).auctions()),
            r is Err ==> final(self).auctions() == old(self).auctions() && final(self).events()
                == old(self).events(),
            old(self).lookup(id) is None ==> r == Err::<(), AuctionError>(AuctionError::NotFound),
            old(self).lookup(id) matches Some(a) ==> {
                &&& a.status != AuctionStatus::Active ==> r == Err::<(), AuctionError>(
                    AuctionError::InvalidState,
                )
                &&& (a.status == AuctionStatus::Active && caller != a.owner) ==> r == Err::<
                    (),
                    AuctionError,
                >(AuctionError::Unauthorized)
                &&& (a.status == AuctionStatus::Active && caller == a.owner) ==> {
                    &&& r is Ok
                    &&& final(self).auctions() == old(self).auctions().update(
                        id as int,
                        (Auction { status: AuctionStatus::Paused, ..a }),
                    )
                    &&& final(self).events() == old(self).events().push(
                        Event::AuctionStatusChanged {
                            auction: id,
                            from: AuctionStatus::Active,
                            to: AuctionStatus::Paused,
                        },
                    )
                }
            },
    {
        let i = match self.position(id) {
            Some(i) => i,
            None => return Err(AuctionError::NotFound),
        };
        if self.auctions[i].status != AuctionStatus::Active {
            return Err(AuctionError::InvalidState);
        }
        if self.auctions[i].owner != caller {
            return Err(AuctionError::Unauthorized);
        }
        self.set_running_status(i, AuctionStatus::Paused);
        Ok(())
    }

    /// Resumes a `Paused` auction; only the owner may.
    pub fn resume_auction(&mut self, caller: u64, id: u64) -> (r: Result<(), AuctionError>)
        requires
            old(self).wf(),
        ensures
            final(self).wf(),
            final(self).items() == old(self).items(),
            statuses_follow(old(self).auctions(), final(self).auctions()),
            r is Err ==> final(self).auctions() == old(self).auctions() && final(self).events()
                == old(self).events(),
            old(self).lookup(id) is None ==> r == Err::<(), AuctionError>(AuctionError::NotFound),
            old(self).lookup(id) matches Some(a) ==> {
                &&& a.status != AuctionStatus::Paused ==> r == Err::<(), AuctionError>(
                    AuctionError::InvalidState,
                )
                &&& (a.status == AuctionStatus::Paused && caller != a.owner) ==> r == Err::<
                    (),
                    AuctionError,
                >(AuctionError::Unauthorized)
                &&& (a.status == AuctionStatus::Paused && caller == a.owner) ==> {
                    &&& r is Ok
                    &&& final(self).auctions() == old(self).auctions().update(
                        id as int,
                        (Auction { status: AuctionStatus::Active, ..a }),
                    )
                    &&& final(self).events() == old(self).events().push(
                        Event::AuctionStatusChanged {
                            auction: id,
                            from: AuctionStatus::Paused,
                            to: AuctionStatus::Active,
                        },
                    )
                }
            },
    {
        let i = match self.position(id) {
            Some(i) => i,
            None => return Err(AuctionError::NotFound),
        };
        if self.auctions[i].status != AuctionStatus::Paused {
            return Err(AuctionError::InvalidState);
        }
        if self.auctions[i].owner != caller {
            return Err(AuctionError::Unauthorized);
        }
        self.set_running_status(i, AuctionStatus::Active);
        Ok(())
    }

    /// Starts a `PendingStart` auction, at its owner's request or the
    /// scheduler's.
    pub fn start_auction(&mut self, auth: Authority, id: u64) -> (r: Result<(), AuctionError>)
        requires
            old(self).wf(),
        ensures
            final(self).wf(),
            final(self).items() == old(self).items(),
            statuses_follow(old(self).auctions(), final(self).auctions()),
            r is Err ==> final(self).auctions() == old(self).auctions() && final(self).events()
                == old(self).events(),
            old(self).lookup(id) is None ==> r == Err::<(), AuctionError>(AuctionError::NotFound),
            old(self).lookup(id) matches Some(a) ==> {
                &&& a.status != AuctionStatus::PendingStart ==> r == Err::<(), AuctionError>(
                    AuctionError::InvalidState,
                )
                &&& (a.status == AuctionStatus::PendingStart && !may_administer(a, auth)) ==> r
                    == Err::<(), AuctionError>(AuctionError::Unauthorized)
                &&& (a.status == AuctionStatus::PendingStart && may_administer(a, auth)) ==> {
                    &&& r is Ok
                    &&& final(self).auctions() == old(self).auctions().update(
                        id as int,
                        (Auction { status: AuctionStatus::Active, ..a }),
                    )
                    &&& final(self).events() == old(self).events().push(
                        Event::AuctionStatusChanged {
                            auction: id,
                            from: AuctionStatus::PendingStart,
                            to: AuctionStatus::Active,
                        },
                    )
                }
            },
    {
        let i = match self.position(id) {
            Some(i) => i,
            None => return Err(AuctionError::NotFound),
        };
        if self.auctions[i].status != AuctionStatus::PendingStart {
            return Err(AuctionError::InvalidState);
        }
        if let Authority::Caller(who) = auth {
            if self.auctions[i].owner != who {
                return Err(AuctionError::Unauthorized);
            }
        }
        self.set_running_status(i, AuctionStatus::Active);
        Ok(())
    }

    /// A change to auction `i` alone that keeps its well-formedness, its
    /// identifier, its item and whether it is stopped keeps the table
    /// well-formed.
    proof fn lemma_wf_one_changed(pre: &Module, post: &Module, i: int)
        requires
            pre.wf(),
            0 <= i < pre.auctions@.len(),
            others_unchanged(pre.auctions@, post.auctions@, i),
            post.next_auction_id == pre.next_auction_id,
            post.auction_items@ == pre.auction_items@,
            post.auctions@[i].wf(),
            post.auctions@[i].id == pre.auctions@[i].id,
            post.auctions@[i].item == pre.auctions@[i].item,
            (post.auctions@[i].status == AuctionStatus::Stopped) == (pre.auctions@[i].status
                == AuctionStatus::Stopped),
        ensures
            post.wf(),
    {
        assert forall|x: u64| #[trigger] post.auction_items@.contains_key(x) implies {
            let j = post.auction_items@[x] as int;
            &&& 0 <= j < post.auctions@.len()
            &&& post.auctions@[j].item == Some(x)
            &&& post.auctions@[j].status != AuctionStatus::Stopped
        } by {
            let j = pre.auction_items@[x] as int;
            assert(pre.auctions@[j].item == Some(x));
        }
        assert forall|j: int|
            0 <= j < post.auctions@.len() && (#[trigger] post.auctions@[j]).item is Some
                && post.auctions@[j].status != AuctionStatus::Stopped implies {
            let x = post.auctions@[j].item.unwrap();
            post.auction_items@.contains_key(x) && post.auction_items@[x] == j
        } by {
            assert(pre.auctions@[j].item == post.auctions@[j].item);
        }
        assert forall|j: int| 0 <= j < post.auctions@.len() implies (
        #[trigger] post.auctions@[j]).wf() && post.auctions@[j].id == j by {
            if j != i {
                assert(post.auctions@[j] == pre.auctions@[j]);
            }
        }
    }

    /// Where `who` stands among the participants of auction `i`.
    fn find_participant(&self, i: usize, who: u64) -> (r: Option<usize>)
        requires
            self.wf(),
            i < self.auctions().len(),
        ensures
            r matches Some(k) ==> k < self.auctions()[i as int].participants@.len()
                && self.auctions()[i as int].participants@[k as int].bidder == who,
            r is None ==> forall|k: int|
                0 <= k < self.auctions()[i as int].participants@.len()
                    ==> #[trigger] self.auctions()[i as int].participants@[k].bidder != who,
    {
        let ps = &self.auctions[i].participants;
        let mut k: usize = 0;
        while k < ps.len()
            invariant
                i < self.auctions@.len(),
                ps@ == self.auctions@[i as int].participants@,
                k <= ps@.len(),
                forall|m: int| 0 <= m < k ==> #[trigger] ps@[m].bidder != who,
            decreases ps@.len() - k,
        {
            if ps[k].bidder == who {
                return Some(k);
            }
            k = k + 1;
        }
        None
    }

    /// Takes a bid of `price` from `caller` at moment `now` on an `Active`
    /// auction. Once an attempt at settling it has begun (a stop whose
    /// settlement was refused part way), the auction takes no further bid,
    /// though it stays `Active` until the stop is retried. The bid must reach the
    /// opening price and beat the highest bid by the minimum step, and may
    /// not pass the ceiling. The currency escrows it; a bidder who raises
    /// their own bid has only the difference locked, so that what is
    /// escrowed for them is always their latest bid.
    pub fn participate_auction<E: Trait>(
        &mut self,
        caller: u64,
        id: u64,
        price: u64,
        now: u64,
        env: &mut E,
    ) -> (r: Result<(), AuctionError>)
        requires
            old(self).wf(),
        ensures
            final(self).wf(),
            final(self).items() == old(self).items(),
            statuses_follow(old(self).auctions(), final(self).auctions()),
            r is Err ==> final(self).auctions() == old(self).auctions() && final(self).events()
                == old(self).events(),
            r is Err && r != Err::<(), AuctionError>(AuctionError::EscrowFailed) ==> final(env).calls()
                == old(env).calls(),
            old(self).lookup(id) is None ==> r == Err::<(), AuctionError>(AuctionError::NotFound),
            old(self).lookup(id) matches Some(a) ==> {
                &&& (a.status != AuctionStatus::Active || a.settling) ==> r == Err::<
                    (),
                    AuctionError,
                >(AuctionError::InvalidState)
                &&& (a.status == AuctionStatus::Active && !a.settling && price
                    < a.required_price()) ==> r == Err::<(), AuctionError>(
                    AuctionError::PriceTooLow,
                )
                &&& (a.status == AuctionStatus::Active && !a.settling && price
                    >= a.required_price() && above_ceiling(a, price)) ==> r == Err::<(), AuctionError>(AuctionError::PriceAboveCeiling)
                &&& (a.status == AuctionStatus::Active && !a.settling && price
                    >= a.required_price() && !above_ceiling(a, price)) ==> {
                    &&& r is Ok || r == Err::<(), AuctionError>(AuctionError::EscrowFailed)
                    &&& final(env).calls() == old(env).calls().push(
                        (
                            Call::Lock {
                                who: caller,
                                amount: (price - escrow_of(a.participants@, caller).unwrap_or(0)) as u64,
                            },
                            r is Ok,
                        ),
                    )
                }
                &&& r is Ok ==> {
                    &&& final(self).auctions().len() == old(self).auctions().len()
                    &&& others_unchanged(old(self).auctions(), final(self).auctions(), id as int)
                    &&& bid_applied(a, final(self).auctions()[id as int], caller, price, now)
                    &&& final(self).events() == old(self).events().push(
                        Event::BidderUpdated {
                            auction: id,
                            bidder: caller,
                            price,
                            slots_remaining: 0,
                        },
                    )
                }
            },
    {
        let i = match self.position(id) {
            Some(i) => i,
            None => return Err(AuctionError::NotFound),
        };
        if self.auctions[i].status != AuctionStatus::Active || self.auctions[i].settling {
            return Err(AuctionError::InvalidState);
        }
        let begin = self.auctions[i].begin_price;
        let step = self.auctions[i].minimum_step;
        let too_low = match self.auctions[i].highest_bid {
            None => price < begin,
            Some(h) => price < begin || (price as u128) < (h as u128) + (step as u128),
        };
        if too_low {
            return Err(AuctionError::PriceTooLow);
        }
        if let Some(u) = self.auctions[i].upper_bound_price {
            if price > u {
                return Err(AuctionError::PriceAboveCeiling);
            }
        }
        let found = self.find_participant(i, caller);
        let ghost a = self.auctions@[i as int];
        proof {
            if let Some(k) = found {
                assert(a.participants@[k as int].escrow <= a.highest_bid.unwrap_or(0));
            }
        }
        let to_lock: u64 = match found {
            Some(k) => {
                let p = self.auctions[i].participants[k];
                if p.held {
                    price - p.escrow
                } else {
                    price
                }
            },
            None => price,
        };
        proof {
            let ps = a.participants@;
            if let Some(k) = found {
                let c = choose|m: int| 0 <= m < ps.len() && ps[m].bidder == caller;
                if c != k as int {
                    if c < k {
                        assert(ps[c].bidder != ps[k as int].bidder);
                    } else {
                        assert(ps[k as int].bidder != ps[c].bidder);
                    }
                }
            }
            assert(to_lock == (price - escrow_of(ps, caller).unwrap_or(0)) as u64);
        }
        if env.lock(caller, to_lock).is_err() {
            return Err(AuctionError::EscrowFailed);
        }
        let entry = Participant { bidder: caller, escrow: price, held: true };
        match found {
            Some(k) => {
                self.auctions[i].participants.set(k, entry);
            },
            None => {
                self.auctions[i].participants.push(entry);
            },
        }
        let ceiling = match self.auctions[i].upper_bound_price {
            Some(u) => u == price,
            None => false,
        };
        self.auctions[i].highest_bid = Some(price);
        self.auctions[i].latest_participant = Some((caller, now));
        self.auctions[i].ceiling_reached = self.auctions[i].ceiling_reached || ceiling;
        let ghost prices = self.auctions@[i as int].prices@.push(price);
        self.auctions[i].prices = Ghost(prices);
        self.events.push(
            Event::BidderUpdated { auction: id, bidder: caller, price, slots_remaining: 0 },
        );
        proof {
            let b = self.auctions@[i as int];
            let ps = a.participants@;
            if let Some(k) = found {
                let c = choose|m: int| 0 <= m < ps.len() && ps[m].bidder == caller;
                assert(ps[c].bidder == caller);
                if c != k as int {
                    if c < k {
                        assert(ps[c].bidder != ps[k as int].bidder);
                    } else {
                        assert(ps[k as int].bidder != ps[c].bidder);
                    }
                }
                assert(b.participants@ =~= ps.update(k as int, entry));
            } else {
                assert(!exists|m: int| 0 <= m < ps.len() && ps[m].bidder == caller);
                assert(b.participants@ =~= ps.push(entry));
            }
            assert(bid_applied(a, b, caller, price, now));
            let at: int = match found {
                Some(k) => k as int,
                None => ps.len() as int,
            };
            assert(b.participants@[at].bidder == caller && b.participants@[at].escrow == price);
            assert(b.prices_rise()) by {
                assert forall|m: int| 0 <= m < b.prices@.len() - 1 implies #[trigger] b.prices@[m
                    + 1] >= b.prices@[m] + b.minimum_step by {
                    if m < a.prices@.len() - 1 {
                        assert(a.prices@[m + 1] >= a.prices@[m] + a.minimum_step);
                    }
                }
            }
            assert forall|m: int| 0 <= m < b.participants@.len() implies (
            #[trigger] b.participants@[m]).escrow <= b.highest_bid.unwrap_or(0) by {
                if m < ps.len() && !(found matches Some(f) && f as int == m) {
                    assert(ps[m].escrow <= a.highest_bid.unwrap_or(0));
                }
            }
            assert forall|m: int, n: int| 0 <= m < n < b.participants@.len() implies (
            #[trigger] b.participants@[m]).bidder != (#[trigger] b.participants@[n]).bidder by {
                if n < ps.len() {
                    if found matches Some(f) && f as int == m {
                        assert(ps[n].bidder != caller);
                    } else if found matches Some(f) && f as int == n {
                        assert(ps[m].bidder != caller);
                    } else {
                        assert(ps[m].bidder != ps[n].bidder);
                    }
                } else {
                    assert(ps[m].bidder != caller);
                }
            }
            assert(self.auctions@ =~= old(self).auctions@.update(i as int, b));
            Self::lemma_wf_one_changed(old(self), self, i as int);
        }
        Ok(())
    }

    /// Pays the winner's escrow to the owner and hands them the item, each
    /// step once: a step that succeeded is recorded and not repeated on a
    /// later attempt. Then releases the escrow of every other participant,
    /// going on past a refused release. Marks the settlement as begun.
    fn run_settlement<E: Trait>(&mut self, i: usize, env: &mut E) -> (r: Result<
        (),
        SettlementFailure,
    >)
        requires
            old(self).wf(),
            i < old(self).auctions().len(),
            old(self).auctions()[i as int].status != AuctionStatus::Stopped,
        ensures
            final(self).wf(),
            final(self).items() == old(self).items(),
            final(self).events() == old(self).events(),
            others_unchanged(old(self).auctions(), final(self).auctions(), i as int),
            settle_step(
                old(self).auctions()[i as int],
                final(self).auctions()[i as int],
                old(env).calls(),
                final(env).calls(),
                r,
            ),
            r is Ok ==> forall|k: int|
                0 <= k < final(self).auctions()[i as int].participants@.len()
                    ==> !(#[trigger] final(self).auctions()[i as int].participants@[k]).held,
    {
        let ghost a = self.auctions@[i as int];
        let ghost c0 = env.calls();
        self.auctions[i].settling = true;
        let owner = self.auctions[i].owner;
        let winner = match self.auctions[i].latest_participant {
            Some((w, _)) => Some(w),
            None => None,
        };
        let ghost mut c1 = c0;
        let ghost mut c2 = c0;
        if let Some(w) = winner {
            let price = match self.auctions[i].highest_bid {
                Some(h) => h,
                None => 0,
            };
            if !self.auctions[i].winner_paid {
                if env.transfer_locked(w, owner, price).is_err() {
                    proof {
                        let e = (Call::TransferLocked { from: w, to: owner, amount: price }, false);
                        assert(c0 + seq![e] =~= c0.push(e));
                        assert(self.auctions@ =~= old(self).auctions@.update(
                            i as int,
                            self.auctions@[i as int],
                        ));
                        Self::lemma_wf_one_changed(old(self), self, i as int);
                    }
                    return Err(SettlementFailure::Payment);
                }
                self.auctions[i].winner_paid = true;
            }
            proof {
                c1 = env.calls();
            }
            if !self.auctions[i].item_delivered {
                if let Some(item) = self.auctions[i].item {
                    if env.transfer_ownership(item, owner, w).is_err() {
                        proof {
                            let e = (Call::TransferOwnership { item, from: owner, to: w }, false);
                            let pay: Seq<(Call, bool)> = if a.winner_paid {
                                Seq::empty()
                            } else {
                                seq![(Call::TransferLocked { from: w, to: owner, amount: price }, true)]
                            };
                            assert(c1 =~= c0 + pay);
                            assert(c0 + pay + seq![e] =~= c1.push(e));
                            assert(self.auctions@ =~= old(self).auctions@.update(
                                i as int,
                                self.auctions@[i as int],
                            ));
                            Self::lemma_wf_one_changed(old(self), self, i as int);
                        }
                        return Err(SettlementFailure::ItemTransfer);
                    }
                }
                self.auctions[i].item_delivered = true;
            }
            proof {
                c2 = env.calls();
                let pay: Seq<(Call, bool)> = if a.winner_paid {
                    Seq::empty()
                } else {
                    seq![(Call::TransferLocked { from: w, to: owner, amount: price }, true)]
                };
                let give: Seq<(Call, bool)> = match a.item {
                    Some(x) => if a.item_delivered {
                        Seq::empty()
                    } else {
                        seq![(Call::TransferOwnership { item: x, from: owner, to: w }, true)]
                    },
                    None => Seq::empty(),
                };
                assert(c1 =~= c0 + pay);
                assert(c2 =~= c0 + pay + give);
            }
        }
        let ghost mid = self.auctions@[i as int];
        let ghost c3 = env.calls();
        let failed = release_escrows(&mut self.auctions[i].participants, winner, env);
        proof {
            let b = self.auctions@[i as int];
            assert(mid.participants@ == a.participants@);
            if let Some((w, _)) = a.latest_participant {
                let k = choose|k: int|
                    0 <= k < a.participants@.len() && (#[trigger] a.participants@[k]).bidder == w
                        && a.participants@[k].escrow == a.highest_bid.unwrap_or(0);
                assert(b.participants@[k].bidder == w);
            }
            assert(self.auctions@ =~= old(self).auctions@.update(i as int, self.auctions@[i as int]));
            Self::lemma_wf_one_changed(old(self), self, i as int);
        }
        if failed > 0 {
            return Err(SettlementFailure::Release { failed });
        }
        Ok(())
    }

    /// Settles auction `i` (nothing to settle before it started), then
    /// unbinds its item and stops it. On a refused settlement step the
    /// status stays as it was, so that stopping can be tried again.
    fn do_stop_auction<E: Trait>(&mut self, i: usize, env: &mut E) -> (r: Result<
        Outcome,
        AuctionError,
    >)
        requires
            old(self).wf(),
            i < old(self).auctions().len(),
            old(self).auctions()[i as int].status != AuctionStatus::Stopped,
        ensures
            final(self).wf(),
            others_unchanged(old(self).auctions(), final(self).auctions(), i as int),
            stop_attempted(
                old(self).auctions()[i as int],
                final(self).auctions()[i as int],
                old(self).items(),
                final(self).items(),
                old(self).events(),
                final(self).events(),
                old(env).calls(),
                final(env).calls(),
                r,
            ),
            old(self).auctions()[i as int].latest_participant is None ==> r is Ok && final(env).calls()
                == old(env).calls(),
    {
        let ghost a = self.auctions@[i as int];
        let from = self.auctions[i].status;
        if from != AuctionStatus::PendingStart {
            if let Err(reason) = self.run_settlement(i, env) {
                return Err(AuctionError::SettlementFailed { reason });
            }
        }
        let ghost mid = *self;
        let ghost mid_calls = env.calls();
        let outcome = match self.auctions[i].latest_participant {
            Some((w, _)) => Outcome::Winner {
                bidder: w,
                price: match self.auctions[i].highest_bid {
                    Some(h) => h,
                    None => 0,
                },
            },
            None => Outcome::NoWinner,
        };
        if let Some(x) = self.auctions[i].item {
            self.auction_items.remove(&x);
        }
        self.auctions[i].status = AuctionStatus::Stopped;
        self.auctions[i].outcome = Some(outcome);
        let id = self.auctions[i].id;
        self.events.push(
            Event::AuctionStatusChanged { auction: id, from, to: AuctionStatus::Stopped },
        );
        proof {
            let pre = mid.auctions@;
            let post = self.auctions@;
            let ii = i as int;
            assert(post =~= pre.update(ii, post[ii]));
            let item = pre[ii].item;
            assert forall|x: u64| #[trigger] self.auction_items@.contains_key(x) implies {
                let j = self.auction_items@[x] as int;
                &&& 0 <= j < post.len()
                &&& post[j].item == Some(x)
                &&& post[j].status != AuctionStatus::Stopped
            } by {
                assert(mid.auction_items@.contains_key(x));
                let j = mid.auction_items@[x] as int;
                assert(pre[j].item == Some(x));
                if j == ii {
                    assert(item == Some(x));
                }
            }
            assert forall|j: int|
                0 <= j < post.len() && (#[trigger] post[j]).item is Some && post[j].status
                    != AuctionStatus::Stopped implies {
                let x = post[j].item.unwrap();
                self.auction_items@.contains_key(x) && self.auction_items@[x] == j
            } by {
                assert(pre[j] == post[j]);
                let x = post[j].item.unwrap();
                assert(mid.auction_items@.contains_key(x));
                if item == Some(x) {
                    assert(mid.auction_items@[x] == ii);
                }
            }
            assert forall|j: int| 0 <= j < post.len() implies (#[trigger] post[j]).wf()
                && post[j].id == j by {
                if j != ii {
                    assert(post[j] == pre[j]);
                }
            }
        }
        Ok(outcome)
    }

    /// Settles auction `id` and stops it, at its owner's request or the
    /// scheduler's. Settling a stopped auction again changes nothing, makes
    /// no call to the collaborators, and returns the outcome recorded the
    /// first time.
    pub fn do_settle_auction<E: Trait>(&mut self, auth: Authority, id: u64, env: &mut E) -> (r: Result<
        Outcome,
        AuctionError,
    >)
        requires
            old(self).wf(),
        ensures
            final(self).wf(),
            statuses_follow(old(self).auctions(), final(self).auctions()),
            old(self).lookup(id) is None ==> r == Err::<Outcome, AuctionError>(
                AuctionError::NotFound,
            ) && *final(self) == *old(self) && *final(env) == *old(env),
            old(self).lookup(id) matches Some(a) ==> {
                &&& a.status == AuctionStatus::Stopped ==> {
                    &&& a.outcome is Some
                    &&& r == Ok::<Outcome, AuctionError>(a.outcome.unwrap())
                    &&& *final(self) == *old(self)
                    &&& *final(env) == *old(env)
                }
                &&& (a.status != AuctionStatus::Stopped && !may_administer(a, auth)) ==> r
                    == Err::<Outcome, AuctionError>(AuctionError::Unauthorized) && *final(self)
                    == *old(self) && *final(env) == *old(env)
                &&& (a.status != AuctionStatus::Stopped && may_administer(a, auth)) ==> {
                    &&& others_unchanged(old(self).auctions(), final(self).auctions(), id as int)
                    &&& stop_attempted(
                        a,
                        final(self).auctions()[id as int],
                        old(self).items(),
                        final(self).items(),
                        old(self).events(),
                        final(self).events(),
                        old(env).calls(),
                        final(env).calls(),
                        r,
                    )
                    &&& a.latest_participant is None ==> r is Ok && final(env).calls() == old(env).calls()
                }
            },
    {
        let i = match self.position(id) {
            Some(i) => i,
            None => return Err(AuctionError::NotFound),
        };
        if self.auctions[i].status == AuctionStatus::Stopped {
            return match self.auctions[i].outcome {
                Some(o) => Ok(o),
                None => Err(AuctionError::InvalidState),
            };
        }
        if let Authority::Caller(who) = auth {
            if self.auctions[i].owner != who {
                return Err(AuctionError::Unauthorized);
            }
        }
        self.do_stop_auction(i, env)
    }

    /// Stops auction `id` at its owner's request or the scheduler's,
    /// settling it first if it had started.
    pub fn stop_auction<E: Trait>(&mut self, auth: Authority, id: u64, env: &mut E) -> (r: Result<
        Outcome,
        AuctionError,
    >)
        requires
            old(self).wf(),
        ensures
            final(self).wf(),
            statuses_follow(old(self).auctions(), final(self).auctions()),
            old(self).lookup(id) is None ==> r == Err::<Outcome, AuctionError>(
                AuctionError::NotFound,
            ) && *final(self) == *old(self) && *final(env) == *old(env),
            old(self).lookup(id) matches Some(a) ==> {
                &&& a.status == AuctionStatus::Stopped ==> r == Err::<Outcome, AuctionError>(
                    AuctionError::InvalidState,
                ) && *final(self) == *old(self) && *final(env) == *old(env)
                &&& (a.status != AuctionStatus::Stopped && !may_administer(a, auth)) ==> r
                    == Err::<Outcome, AuctionError>(AuctionError::Unauthorized) && *final(self)
                    == *old(self) && *final(env) == *old(env)
                &&& (a.status != AuctionStatus::Stopped && may_administer(a, auth)) ==> {
                    &&& others_unchanged(old(self).auctions(), final(self).auctions(), id as int)
                    &&& stop_attempted(
                        a,
                        final(self).auctions()[id as int],
                        old(self).items(),
                        final(self).items(),
                        old(self).events(),
                        final(self).events(),
                        old(env).calls(),
                        final(env).calls(),
                        r,
                    )
                    &&& a.latest_participant is None ==> r is Ok && final(env).calls() == old(env).calls()
                }
            },
    {
        let i = match self.position(id) {
            Some(i) => i,
            None => return Err(AuctionError::NotFound),
        };
        if self.auctions[i].status == AuctionStatus::Stopped {
            return Err(AuctionError::InvalidState);
        }
        if let Authority::Caller(who) = auth {
            if self.auctions[i].owner != who {
                return Err(AuctionError::Unauthorized);
            }
        }
        self.do_stop_auction(i, env)
    }

    /// One scheduler tick at moment `now`, over the auctions in ascending
    /// identifier order: a pending auction whose start time has come is
    /// started; a running one whose stop time has come, whose quiet period
    /// has passed since its last bid, or whose ceiling was bid is stopped.
    /// A stop that fails does not hold up the others; each failure is
    /// returned with its auction's identifier, and that auction keeps its
    /// status. The calls made and notifications emitted are those for each
    /// auction in turn.
    pub fn offchain<E: Trait>(&mut self, now: u64, env: &mut E) -> (failures: Vec<(u64, AuctionError)>)
        requires
            old(self).wf(),
        ensures
            final(self).wf(),
            statuses_follow(old(self).auctions(), final(self).auctions()),
            final(self).auctions().len() == old(self).auctions().len(),
            exists|calls: Seq<Seq<(Call, bool)>>, events: Seq<Seq<Event>>|
                {
                    &&& calls.len() == old(self).auctions().len()
                    &&& events.len() == old(self).auctions().len()
                    &&& final(env).calls() == old(env).calls() + #[trigger] calls.flatten()
                    &&& final(self).events() == old(self).events() + #[trigger] events.flatten()
                    &&& forall|j: int|
                        0 <= j < old(self).auctions().len() ==> tick_applied(
                            #[trigger] old(self).auctions()[j],
                            final(self).auctions()[j],
                            now,
                            calls[j],
                            events[j],
                            listed_failure(failures@, j as u64),
                        )
                },
            forall|x: u64|
                #[trigger] final(self).items().contains_key(x) ==> old(self).items().contains_key(x)
                    && final(self).items()[x] == old(self).items()[x],
            (forall|j: int|
                0 <= j < old(self).auctions().len() ==> !start_due(
                    #[trigger] old(self).auctions()[j],
                    now,
                ) && !stop_due(old(self).auctions()[j], now)) ==> {
                &&& final(env).calls() == old(env).calls()
                &&& final(self).auctions() == old(self).auctions()
                &&& failures@.len() == 0
            },
            forall|m: int|
                0 <= m < failures@.len() ==> {
                    let (id, e) = #[trigger] failures@[m];
                    &&& id < old(self).auctions().len()
                    &&& stop_due(old(self).auctions()[id as int], now)
                    &&& e is SettlementFailed
                    &&& final(self).auctions()[id as int].status == old(self).auctions()[id as int].status
                },
    {
        let mut failures: Vec<(u64, AuctionError)> = Vec::new();
        let n = self.auctions.len();
        let mut k: usize = 0;
        let ghost mut cds: Seq<Seq<(Call, bool)>> = Seq::empty();
        let ghost mut eds: Seq<Seq<Event>> = Seq::empty();
        while k < n
            invariant
                self.wf(),
                n == old(self).auctions().len(),
                self.auctions().len() == n,
                k <= n,
                cds.len() == k,
                eds.len() == k,
                env.calls() == old(env).calls() + cds.flatten(),
                self.events() == old(self).events() + eds.flatten(),
                forall|j: int| k <= j < n ==> #[trigger] self.auctions()[j] == old(self).auctions()[j],
                forall|j: int|
                    0 <= j < k ==> tick_applied(
                        #[trigger] old(self).auctions()[j],
                        self.auctions()[j],
                        now,
                        cds[j],
                        eds[j],
                        listed_failure(failures@, j as u64),
                    ),
                forall|x: u64|
                    #[trigger] self.items().contains_key(x) ==> old(self).items().contains_key(x)
                        && self.items()[x] == old(self).items()[x],
                forall|m: int|
                    0 <= m < failures@.len() ==> {
                        let (id, e) = #[trigger] failures@[m];
                        &&& id < k
                        &&& stop_due(old(self).auctions()[id as int], now)
                        &&& e is SettlementFailed
                        &&& self.auctions()[id as int].status == old(self).auctions()[id as int].status
                    },
            decreases n - k,
        {
            let ghost before = self.auctions();
            let ghost fails_before = failures@;
            let ghost calls_before = env.calls();
            let ghost events_before = self.events();
            let ghost items_before = self.items();
            let id = k as u64;
            let a = &self.auctions[k];
            let to_start = a.status == AuctionStatus::PendingStart && match a.start_at {
                Some(s) => now >= s,
                None => false,
            };
            let running = a.status == AuctionStatus::Active || a.status == AuctionStatus::Paused;
            let stop_time = match a.stop_at {
                Some(s) => now >= s,
                None => false,
            };
            let quiet = match (a.wait_period, a.latest_participant) {
                (Some(w), Some((_, t))) => now >= t && now - t >= w,
                _ => false,
            };
            let to_stop = running && (stop_time || quiet || a.ceiling_reached);
            assert(to_start == start_due(before[k as int], now));
            assert(to_stop == stop_due(before[k as int], now));
            let ghost mut rr: Result<Outcome, AuctionError> = Ok(Outcome::NoWinner);
            if to_start {
                let _ = self.start_auction(Authority::System, id);
            } else if to_stop {
                let r = self.stop_auction(Authority::System, id, env);
                if let Err(e) = r {
                    failures.push((id, e));
                    assert(failures@[failures@.len() - 1].0 == id);
                }
                proof {
                    rr = r;
                    lemma_stop_record_shift(
                        before[k as int],
                        self.auctions()[k as int],
                        calls_before,
                        env.calls(),
                        r,
                    );
                }
            }
            proof {
                let cd = env.calls().subrange(calls_before.len() as int, env.calls().len() as int);
                let ed = self.events().subrange(events_before.len() as int, self.events().len() as int);
                assert(env.calls().len() >= calls_before.len());
                assert(self.events().len() >= events_before.len());
                assert(env.calls() =~= calls_before + cd);
                assert(self.events() =~= events_before + ed);
                assert(listed_failure(failures@, id) == (failures@.len() > fails_before.len())) by {
                    if listed_failure(failures@, id) {
                        let m = choose|m: int|
                            0 <= m < failures@.len() && (#[trigger] failures@[m]).0 == id;
                        if m < fails_before.len() {
                            assert(fails_before[m].0 == id);
                        }
                    }
                    if failures@.len() > fails_before.len() {
                        assert(failures@[failures@.len() - 1].0 == id);
                    }
                }
                if to_start {
                    assert(cd =~= Seq::<(Call, bool)>::empty());
                    assert(ed =~= seq![
                        Event::AuctionStatusChanged {
                            auction: id,
                            from: AuctionStatus::PendingStart,
                            to: AuctionStatus::Active,
                        },
                    ]);
                } else if to_stop {
                    assert(stop_record(before[k as int], self.auctions()[k as int], Seq::empty(), cd, rr));
                    assert(ed =~= if rr is Ok {
                        seq![
                            Event::AuctionStatusChanged {
                                auction: id,
                                from: before[k as int].status,
                                to: AuctionStatus::Stopped,
                            },
                        ]
                    } else {
                        Seq::<Event>::empty()
                    });
                } else {
                    assert(cd =~= Seq::<(Call, bool)>::empty());
                    assert(ed =~= Seq::<Event>::empty());
                }
                assert(tick_applied(
                    old(self).auctions()[k as int],
                    self.auctions()[k as int],
                    now,
                    cd,
                    ed,
                    listed_failure(failures@, id),
                ));
                cds.lemma_flatten_push(cd);
                eds.lemma_flatten_push(ed);
                cds = cds.push(cd);
                eds = eds.push(ed);
                assert(env.calls() =~= old(env).calls() + cds.flatten());
                assert(self.events() =~= old(self).events() + eds.flatten());
                assert forall|m: int| 0 <= m < fails_before.len() implies failures@[m]
                    == fails_before[m] by {}
                assert(!listed_failure(fails_before, id));
                assert forall|j: int| 0 <= j < k + 1 implies tick_applied(
                    #[trigger] old(self).auctions()[j],
                    self.auctions()[j],
                    now,
                    cds[j],
                    eds[j],
                    listed_failure(failures@, j as u64),
                ) by {
                    if j < k {
                        assert(self.auctions()[j] == before[j]);
                        assert(listed_failure(failures@, j as u64) == listed_failure(
                            fails_before,
                            j as u64,
                        )) by {
                            if listed_failure(failures@, j as u64) {
                                let m = choose|m: int|
                                    0 <= m < failures@.len() && (#[trigger] failures@[m]).0
                                        == j as u64;
                                if m < fails_before.len() {
                                    assert(fails_before[m].0 == j as u64);
                                }
                            }
                            if listed_failure(fails_before, j as u64) {
                                let m = choose|m: int|
                                    0 <= m < fails_before.len() && (#[trigger] fails_before[m]).0
                                        == j as u64;
                                assert(failures@[m].0 == j as u64);
                            }
                        }
                    } else {
                        assert(listed_failure(failures@, id) == (failures@.len()
                            > fails_before.len())) by {
                            if listed_failure(failures@, id) {
                                let m = choose|m: int|
                                    0 <= m < failures@.len() && (#[trigger] failures@[m]).0 == id;
                                if m < fails_before.len() {
                                    assert(fails_before[m].0 == id);
                                }
                            }
                            if failures@.len() > fails_before.len() {
                                assert(failures@[failures@.len() - 1].0 == id);
                            }
                        }
                    }
                }
                assert forall|m: int| 0 <= m < failures@.len() implies {
                    let (fid, e) = #[trigger] failures@[m];
                    &&& fid < k + 1
                    &&& stop_due(old(self).auctions()[fid as int], now)
                    &&& e is SettlementFailed
                    &&& self.auctions()[fid as int].status == old(self).auctions()[fid as int].status
                } by {
                    if m < fails_before.len() {
                        assert(failures@[m] == fails_before[m]);
                    }
                }
                assert forall|x: u64| #[trigger] self.items().contains_key(x) implies old(
                    self,
                ).items().contains_key(x) && self.items()[x] == old(self).items()[x] by {
                    assert(items_before.contains_key(x));
                }
            }
            k = k + 1;
        }
        proof {
            assert forall|j: int| 0 <= j < n implies (#[trigger] self.auctions()[j]).status
                == old(self).auctions()[j].status || is_edge(
                old(self).auctions()[j].status,
                self.auctions()[j].status,
            ) by {
                assert(tick_applied(old(self).auctions()[j], self.auctions()[j], now, cds[j], eds[j], listed_failure(failures@, j as u64)));
            }
            if forall|j: int|
                0 <= j < n ==> !start_due(#[trigger] old(self).auctions()[j], now) && !stop_due(
                    old(self).auctions()[j],
                    now,
                ) {
                assert forall|j: int| 0 <= j < cds.len() implies (#[trigger] cds[j]).len() == 0 by {
                    assert(tick_applied(old(self).auctions()[j], self.auctions()[j], now, cds[j], eds[j], listed_failure(failures@, j as u64)));
                }
                lemma_flatten_empty(cds);
                assert(env.calls() =~= old(env).calls());
                assert(self.auctions() =~= old(self).auctions());
                if failures@.len() > 0 {
                    let (fid, e) = failures@[0];
                    assert(stop_due(old(self).auctions()[fid as int], now));
                }
            }
        }
        failures
    }

    /// The amount escrowed for `who` on auction `id`, while it is held.
    pub fn get_bid(&self, id: u64, who: u64) -> (r: Option<u64>)
        requires
            self.wf(),
        ensures
            r == (match self.lookup(id) {
                Some(a) => escrow_of(a.participants@, who),
                None => None,
            }),
    {
        let i = match self.position(id) {
            Some(i) => i,
            None => return None,
        };
        match self.find_participant(i, who) {
            Some(k) => {
                let p = self.auctions[i].participants[k];
                proof {
                    let ps = self.auctions@[i as int].participants@;
                    let c = choose|m: int| 0 <= m < ps.len() && ps[m].bidder == who;
                    if c != k as int {
                        if c < k {
                            assert(ps[c].bidder != ps[k as int].bidder);
                        } else {
                            assert(ps[k as int].bidder != ps[c].bidder);
                        }
                    }
                }
                if p.held {
                    Some(p.escrow)
                } else {
                    None
                }
            },
            None => None,
        }
    }

    /// The identifiers of the pending auctions (`pending`) or of the running
    /// and paused ones, in ascending order.
    fn list_with(&self, pending: bool) -> (r: Vec<u64>)
        requires
            self.wf(),
        ensures
            forall|m: int| 0 <= m < r@.len() ==> #[trigger] r@[m] < self.auctions().len(),
            forall|m: int, q: int| 0 <= m < q < r@.len() ==> #[trigger] r@[m] < #[trigger] r@[q],
            forall|j: int|
                0 <= j < self.auctions().len() ==> (r@.contains(j as u64) <==> listed(
                    #[trigger] self.auctions()[j],
                    pending,
                )),
    {
        let mut r: Vec<u64> = Vec::new();
        let n = self.auctions.len();
        let mut k: usize = 0;
        while k < n
            invariant
                n == self.auctions().len(),
                k <= n,
                forall|m: int| 0 <= m < r@.len() ==> #[trigger] r@[m] < k,
                forall|m: int, q: int| 0 <= m < q < r@.len() ==> #[trigger] r@[m] < #[trigger] r@[q],
                forall|j: int|
                    0 <= j < k ==> (r@.contains(j as u64) <==> listed(
                        #[trigger] self.auctions()[j],
                        pending,
                    )),
            decreases n - k,
        {
            let st = self.auctions[k].status;
            let take = if pending {
                st == AuctionStatus::PendingStart
            } else {
                st == AuctionStatus::Active || st == AuctionStatus::Paused
            };
            let ghost before = r@;
            if take {
                r.push(k as u64);
            }
            proof {
                assert forall|j: int| 0 <= j < k + 1 implies (r@.contains(j as u64) <==> listed(
                    #[trigger] self.auctions()[j],
                    pending,
                )) by {
                    if r@.contains(j as u64) {
                        let m = choose|m: int| 0 <= m < r@.len() && r@[m] == j as u64;
                        if m < before.len() {
                            assert(before.contains(j as u64));
                        }
                    }
                    if j < k && before.contains(j as u64) {
                        let m = choose|m: int| 0 <= m < before.len() && before[m] == j as u64;
                        assert(r@[m] == j as u64);
                    }
                    if j == k && take {
                        assert(r@[r@.len() - 1] == j as u64);
                    }
                }
            }
            k = k + 1;
        }
        r
    }

    /// The auctions waiting to start, in ascending order.
    pub fn list_pending(&self) -> (r: Vec<u64>)
        requires
            self.wf(),
        ensures
            forall|m: int| 0 <= m < r@.len() ==> #[trigger] r@[m] < self.auctions().len(),
            forall|m: int, q: int| 0 <= m < q < r@.len() ==> #[trigger] r@[m] < #[trigger] r@[q],
            forall|j: int|
                0 <= j < self.auctions().len() ==> (r@.contains(j as u64) <==> (
                #[trigger] self.auctions()[j]).status == AuctionStatus::PendingStart),
    {
        self.list_with(true)
    }

    /// The auctions running or paused, in ascending order.
    pub fn list_active(&self) -> (r: Vec<u64>)
        requires
            self.wf(),
        ensures
            forall|m: int| 0 <= m < r@.len() ==> #[trigger] r@[m] < self.auctions().len(),
            forall|m: int, q: int| 0 <= m < q < r@.len() ==> #[trigger] r@[m] < #[trigger] r@[q],
            forall|j: int|
                0 <= j < self.auctions().len() ==> (r@.contains(j as u64) <==> ((
                #[trigger] self.auctions()[j]).status == AuctionStatus::Active
                    || self.auctions()[j].status == AuctionStatus::Paused)),
    {
        self.list_with(false)
    }

    /// The prices accepted on an auction rise: each is at least the minimum
    /// step above every earlier one.
    pub proof fn lemma_prices_rise(&self, id: u64)
        requires
            self.wf(),
            id < self.auctions().len(),
        ensures
            ({
                let a = self.auctions()[id as int];
                &&& a.minimum_step > 0
                &&& forall|i: int, j: int|
                    0 <= i < j < a.prices@.len() ==> #[trigger] a.prices@[j] >= #[trigger] a.prices@[i]
                        + a.minimum_step
            }),
    {
        let a = self.auctions()[id as int];
        assert(a.wf());
        assert forall|i: int, j: int| 0 <= i < j < a.prices@.len() implies #[trigger] a.prices@[j]
            >= #[trigger] a.prices@[i] + a.minimum_step by {
            lemma_rise_from(a, i, j);
        }
    }

    /// No item is bound to two distinct auctions that are not stopped.
    pub proof fn lemma_item_bound_once(&self, i: u64, j: u64)
        requires
            self.wf(),
            i < self.auctions().len(),
            j < self.auctions().len(),
            i != j,
            self.auctions()[i as int].status != AuctionStatus::Stopped,
            self.auctions()[j as int].status != AuctionStatus::Stopped,
            self.auctions()[i as int].item is Some,
        ensures
            self.auctions()[j as int].item != self.auctions()[i as int].item,
    {
        let x = self.auctions()[i as int].item.unwrap();
        assert(self.auction_items@[x] == i);
        if self.auctions()[j as int].item == Some(x) {
            assert(self.auction_items@[x] == j);
        }
    }

    /// A stopped auction keeps the outcome its settlement resolved into, and
    /// the index no longer binds its item to it.
    pub proof fn lemma_stopped(&self, id: u64)
        requires
            self.wf(),
            id < self.auctions().len(),
            self.auctions()[id as int].status == AuctionStatus::Stopped,
        ensures
            self.auctions()[id as int].outcome == Some(self.auctions()[id as int].settled_outcome()),
            self.auctions()[id as int].item matches Some(x) ==> !(self.items().contains_key(x)
                && self.items()[x] == id),
    {
        assert(self.auctions@[id as int].wf());
        if let Some(x) = self.auctions()[id as int].item {
            if self.auction_items@.contains_key(x) {
                let j = self.auction_items@[x] as int;
                assert(self.auctions@[j].status != AuctionStatus::Stopped);
            }
        }
    }

    /// The winning bid of an auction reaches the opening price, and beats
    /// the escrow of every other participant by at least the minimum step.
    pub proof fn lemma_winning_bid(&self, id: u64)
        requires
            self.wf(),
            id < self.auctions().len(),
            self.auctions()[id as int].latest_participant is Some,
        ensures
            ({
                let a = self.auctions()[id as int];
                let w = a.latest_participant.unwrap().0;
                let h = a.highest_bid.unwrap_or(0);
                &&& a.highest_bid is Some
                &&& h >= a.begin_price
                &&& forall|k: int|
                    0 <= k < a.participants@.len() && (#[trigger] a.participants@[k]).bidder != w
                        ==> a.participants@[k].escrow + a.minimum_step <= h
            }),
    {
        assert(self.auctions@[id as int].wf());
    }
}

} // verus!
