use vstd::prelude::*;

verus! {

/// One call made to the collaborators.
#[derive(Clone, Copy, Debug, PartialEq, Eq, Structural)]
pub enum Call {
    Lock { who: u64, amount: u64 },
    Unlock { who: u64, amount: u64 },
    TransferLocked { from: u64, to: u64, amount: u64 },
    TransferOwnership { item: u64, from: u64, to: u64 },
}

/// The collaborators an auction module works with: a currency ledger that
/// can escrow funds, and a registry of item ownership. Each call is
/// synchronous and reports success or failure; nothing is assumed about
/// which it reports. `calls` is the record of every call made, each with
/// whether it succeeded, which lets the module's contracts say what it asked
/// for and what it did with each answer.
pub trait Trait {
    /// Every call made so far, oldest first, each with whether it succeeded.
    spec fn calls(&self) -> Seq<(Call, bool)>;

    /// Locks `amount` more of `who`'s funds.
    fn lock(&mut self, who: u64, amount: u64) -> (r: Result<(), ()>)
        ensures
            final(self).calls() == old(self).calls().push((Call::Lock { who, amount }, r is Ok)),
    ;

    /// Releases `amount` of `who`'s locked funds.
    fn unlock(&mut self, who: u64, amount: u64) -> (r: Result<(), ()>)
        ensures
            final(self).calls() == old(self).calls().push((Call::Unlock { who, amount }, r is Ok)),
    ;

    /// Moves `amount` of `from`'s locked funds to `to`; the ledger may skim
    /// its fee on the way.
    fn transfer_locked(&mut self, from: u64, to: u64, amount: u64) -> (r: Result<(), ()>)
        ensures
            final(self).calls() == old(self).calls().push(
                (Call::TransferLocked { from, to, amount }, r is Ok),
            ),
    ;

    /// Hands `item` from `from` to `to`.
    fn transfer_ownership(&mut self, item: u64, from: u64, to: u64) -> (r: Result<(), ()>)
        ensures
            final(self).calls() == old(self).calls().push(
                (Call::TransferOwnership { item, from, to }, r is Ok),
            ),
    ;
}

} // verus!
