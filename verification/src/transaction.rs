//! The ambient transaction slot, as a verified state machine.
//!
//! One logical execution context owns at most one live store transaction.
//! It is created lazily on first use with an explicit timeout, reused by
//! every later operation in the scope, and committed or cancelled exactly
//! once when the logical transaction ends; either ending empties the slot,
//! so the next operation opens a fresh transaction. The host adapter holds
//! the actual transaction handle and performs the action this state machine
//! decides.

use vstd::prelude::*;

verus! {

/// The timeout, in milliseconds, set on every newly created transaction.
pub const TXN_TIMEOUT_MS: u64 = 5000;

/// The transaction-ending events the host reports.
#[derive(Debug, Clone, Copy, PartialEq, Eq, Structural)]
pub enum XactEvent {
    /// The logical transaction commits.
    Commit,
    /// The logical transaction aborts.
    Abort,
    /// Any other transaction event; the slot is left alone.
    Other,
}

/// What the adapter must do to the store transaction it holds.
#[derive(Debug, Clone, Copy, PartialEq, Eq, Structural)]
pub enum TxnFinish {
    /// Commit the held transaction, exactly once.
    Commit,
    /// Cancel and discard the held transaction.
    Cancel,
}

/// The slot that tracks whether a store transaction is live in this
/// logical context.
pub struct TransactionBridge {
    live: bool,
}

impl TransactionBridge {
    /// Whether a store transaction is currently live.
    pub closed spec fn is_live(&self) -> bool {
        self.live
    }

    /// A fresh context with no live transaction.
    pub fn new() -> (r: TransactionBridge)
        ensures
            !r.is_live(),
    {
        TransactionBridge { live: false }
    }

    /// Called before any store operation. When it returns true the adapter
    /// must create one transaction with [`TXN_TIMEOUT_MS`] and keep it;
    /// otherwise the one already held is reused. Afterwards exactly one
    /// transaction is live either way.
    pub fn acquire(&mut self) -> (create: bool)
        ensures
            final(self).is_live(),
            create == !old(self).is_live(),
    {
        let create = !self.live;
        self.live = true;
        create
    }

    /// Reports a transaction event. On commit or abort the slot is emptied
    /// and, when a transaction was live, the adapter is told to commit or
    /// cancel it — each at most once, since the slot is empty afterwards.
    /// A failed or aborted transaction is discarded, never retried here.
    pub fn transaction_callback(&mut self, event: XactEvent) -> (a: Option<TxnFinish>)
        ensures
            event == XactEvent::Commit ==> !final(self).is_live() && a == (if old(
                self,
            ).is_live() {
                Option::Some(TxnFinish::Commit)
            } else {
                Option::<TxnFinish>::None
            }),
            event == XactEvent::Abort ==> !final(self).is_live() && a == (if old(self).is_live() {
                Option::Some(TxnFinish::Cancel)
            } else {
                Option::<TxnFinish>::None
            }),
            event == XactEvent::Other ==> final(self).is_live() == old(self).is_live() && a
                is None,
    {
        match event {
            XactEvent::Commit => {
                let was = self.live;
                self.live = false;
                if was {
                    Option::Some(TxnFinish::Commit)
                } else {
                    Option::None
                }
            },
            XactEvent::Abort => {
                let was = self.live;
                self.live = false;
                if was {
                    Option::Some(TxnFinish::Cancel)
                } else {
                    Option::None
                }
            },
            XactEvent::Other => Option::None,
        }
    }
}

} // verus!
