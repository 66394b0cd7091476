//! A ledger shared by unbounded concurrent callers.
//!
//! One [`SharedLedger`] is created at process start and handed to every
//! request handler by reference.  A verified reader-writer lock guards the
//! ledger: checks and audits share the lock, minting and consuming take it
//! exclusively.  Each operation therefore acts on one consistent ledger
//! state, so the per-state contracts of [`crate::ledger::InvitesRepo`] apply
//! to the state each call observes: of concurrent consumers of one unused
//! code, the one scheduled first finds it unused and answers `Consumed`, and
//! every later one finds it used and answers `AlreadyUsed`.  The lock's
//! invariant keeps the guarded ledger well-formed whatever the callers do.

use vstd::prelude::*;
use vstd::rwlock::{RwLock, RwLockPredicate};
use crate::codes::is_code;
use crate::ledger::{InvitesRepo, CheckResult, ConsumeResult, LedgerError};

verus! {

/// The lock invariant: only well-formed ledgers go in.
pub struct WellFormed {}

impl RwLockPredicate<InvitesRepo> for WellFormed {
    open spec fn inv(self, v: InvitesRepo) -> bool {
        v.wf()
    }
}

/// An invite ledger safe for unbounded concurrent callers.
pub struct SharedLedger {
    lock: RwLock<InvitesRepo, WellFormed>,
}

impl SharedLedger {
    /// Creates a shared ledger with no records.
    pub fn new() -> (s: Self) {
        let repo = InvitesRepo::new();
        SharedLedger { lock: RwLock::new(repo, Ghost(WellFormed {})) }
    }

    /// Mints one fresh code on the current ledger state, holding the ledger
    /// exclusively for the whole mint.
    pub fn generate(&self) -> (r: Option<Vec<u8>>)
        ensures
            r matches Some(code) ==> is_code(code@),
    {
        let (mut repo, handle) = self.lock.acquire_write();
        let r = repo.new_invite();
        handle.release_write(repo);
        r
    }

    /// Answers what state a code is in, on one consistent snapshot; shares
    /// the ledger with other readers and never mutates it.
    pub fn check(&self, code: &[u8]) -> (r: Result<CheckResult, LedgerError>) {
        let read = self.lock.acquire_read();
        let r = read.borrow().check_invite(code);
        read.release_read();
        r
    }

    /// Consumes a code, holding the ledger exclusively across the whole
    /// read-decide-write: the transition is atomic, so one consumer of an
    /// unused code answers `Consumed` and all others `AlreadyUsed`.
    pub fn consume(&self, code: &[u8]) -> (r: Result<ConsumeResult, LedgerError>) {
        let (mut repo, handle) = self.lock.acquire_write();
        let r = repo.use_invite(code);
        handle.release_write(repo);
        r
    }

    /// Lists the unused codes of one consistent snapshot, in ascending
    /// order; shares the ledger with other readers.
    pub fn list_unused(&self) -> (r: Result<Vec<Vec<u8>>, LedgerError>) {
        let read = self.lock.acquire_read();
        let r = read.borrow().active_invites();
        read.release_read();
        r
    }
}

} // verus!
