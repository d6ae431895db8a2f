//! The data model: account records, pending actions, and the error and
//! outcome values that the registry operations report.

use vstd::prelude::*;
use crate::canonical::strictly_sorted;

verus! {

/// Why a registry operation was refused.  Every refusal leaves the registry
/// exactly as it was.
#[derive(Clone, Copy, Debug, PartialEq, Eq, Structural)]
pub enum MultiSigError {
    /// Fewer than two distinct signatories were proposed.
    SignatoriesTooShort,
    /// More distinct signatories than the configured maximum.
    SignatoriesCardinalityExceeded,
    /// The approval threshold lies outside `[2, |signatories|]`.
    MinApprovalOutOfRange,
    /// An explicitly given author is not a signatory.
    InvalidAuthorSet,
    /// A proposed signatory already takes part in the maximum number of
    /// multi-signatory accounts.
    PerAccountMsaLimitExceeded,
    /// The derived address is already taken by an existing account.
    AddressCollision,
    /// The address has no account record.
    AccountNotFound,
    /// The caller is not a signatory of the account.
    AccountNotSignatory,
    /// The caller is not an author of the account.
    AccountNotAuthor,
    /// No pending action carries the given identifier.
    CallNotFound,
    /// The action payload is larger than the configured maximum.
    CallSizeExceeded,
    /// The queue of pending actions is at capacity, or the account has
    /// exhausted its action-identifier space.
    PendingQueueFull,
}

/// Identifier of a pending action, unique within its owning account.
///
/// It is derived deterministically from the action payload, the account
/// address, and the account's insertion counter; the counter component is
/// what makes two identifiers of one account always distinct.
#[derive(Clone, Copy, Debug, PartialEq, Eq, Structural)]
pub struct CallId {
    /// The owning account's insertion counter at derivation time.
    pub nonce: u64,
    /// The address of the owning account.
    pub source: u64,
    /// A digest of the action payload bytes.
    pub payload: u64,
    /// The length of the action payload in bytes.
    pub length: u64,
}

/// A proposed action waiting for enough approvals.
#[derive(Debug)]
pub struct PendingCall {
    /// Identifier, unique within the owning account's queue.
    pub id: CallId,
    /// The opaque encoded action payload.
    pub call: Vec<u8>,
    /// The signatories that have approved this action; no duplicates.
    pub approvals: Vec<u64>,
}

/// One jointly controlled account record.
#[derive(Debug)]
pub struct MultiSigAccount {
    /// The accounts allowed to propose and approve actions; strictly
    /// sorted, so duplicate-free.
    pub signatories: Vec<u64>,
    /// The subset of signatories with administrative rights; strictly
    /// sorted.
    pub authors: Vec<u64>,
    /// How many distinct approvals execute a pending action; always within
    /// `[2, |signatories|]`.
    pub minimum_signatories: u32,
    /// The queue of proposed actions, in proposal order.
    pub pending_calls: Vec<PendingCall>,
    /// Counter feeding the next action identifier; larger than the counter
    /// component of every pending identifier.
    pub call_nonce: u64,
}

/// What an accepted approval did.
#[derive(Clone, Copy, Debug, PartialEq, Eq, Structural)]
pub enum ApprovalOutcome {
    /// The action stays in the queue, waiting for more approvals.
    Pending,
    /// The approval reached the threshold: the action left the queue and
    /// was handed to the execution boundary, which reported `succeeded`.
    Executed { succeeded: bool },
}

/// The execution boundary: the host capability that carries out an approved
/// action.  The registry invokes it at most once per pending action and
/// only observes success or failure; a failed execution is not retried and
/// the action is not re-queued.
pub trait CallExecutor {
    /// Carries out the approved action payload; `true` on success.
    fn execute(&mut self, call: &Vec<u8>) -> bool;
}

impl PendingCall {
    /// The approval set is duplicate-free and drawn from the owning
    /// account's signatories.
    pub open spec fn wf(self, signatories: Seq<u64>) -> bool {
        &&& self.approvals@.no_duplicates()
        &&& forall|x: u64| self.approvals@.contains(x) ==> signatories.contains(x)
    }
}

impl MultiSigAccount {
    pub open spec fn is_signatory(self, who: u64) -> bool {
        self.signatories@.contains(who)
    }

    pub open spec fn is_author(self, who: u64) -> bool {
        self.authors@.contains(who)
    }

    pub open spec fn has_call(self, id: CallId) -> bool {
        exists|i: int| 0 <= i < self.pending_calls@.len() && self.pending_calls@[i].id == id
    }

    /// The queue position of the pending action with identifier `id`;
    /// meaningful only when `has_call(id)`, and then unique because the
    /// identifiers in one queue are pairwise distinct.
    pub open spec fn call_index(self, id: CallId) -> int {
        choose|i: int| 0 <= i < self.pending_calls@.len() && self.pending_calls@[i].id == id
    }

    /// The account record's invariant.
    pub open spec fn wf(self) -> bool {
        &&& strictly_sorted(self.signatories@)
        &&& strictly_sorted(self.authors@)
        &&& forall|x: u64| self.authors@.contains(x) ==> self.signatories@.contains(x)
        &&& 2 <= self.minimum_signatories <= self.signatories@.len()
        &&& forall|i: int|
            0 <= i < self.pending_calls@.len() ==> (#[trigger] self.pending_calls@[i]).wf(
                self.signatories@,
            )
        &&& forall|i: int|
            0 <= i < self.pending_calls@.len() ==> (#[trigger] self.pending_calls@[i]).id.nonce
                < self.call_nonce
        &&& forall|i: int, j: int|
            0 <= i < j < self.pending_calls@.len() ==> (#[trigger] self.pending_calls@[i]).id.nonce
                < (#[trigger] self.pending_calls@[j]).id.nonce
    }
}

/// In a well-formed account the identifiers of the pending actions are
/// pairwise distinct: their counter components strictly grow along the
/// queue.
pub proof fn lemma_call_ids_distinct(m: MultiSigAccount)
    requires
        m.wf(),
    ensures
        forall|i: int, j: int|
            0 <= i < m.pending_calls@.len() && 0 <= j < m.pending_calls@.len() && i != j ==> (
            #[trigger] m.pending_calls@[i]).id != (#[trigger] m.pending_calls@[j]).id,
{
    assert forall|i: int, j: int|
        0 <= i < m.pending_calls@.len() && 0 <= j < m.pending_calls@.len() && i != j implies (
    #[trigger] m.pending_calls@[i]).id != (#[trigger] m.pending_calls@[j]).id by {
        if i < j {
            assert(m.pending_calls@[i].id.nonce < m.pending_calls@[j].id.nonce);
        } else {
            assert(m.pending_calls@[j].id.nonce < m.pending_calls@[i].id.nonce);
        }
    }
}

/// In a well-formed account `call_index` is the one position holding `id`.
pub proof fn lemma_call_index_unique(m: MultiSigAccount, id: CallId)
    requires
        m.wf(),
        m.has_call(id),
    ensures
        0 <= m.call_index(id) < m.pending_calls@.len(),
        m.pending_calls@[m.call_index(id)].id == id,
        forall|i: int|
            0 <= i < m.pending_calls@.len() && (#[trigger] m.pending_calls@[i]).id == id ==> i
                == m.call_index(id),
{
    lemma_call_ids_distinct(m);
}

} // verus!
