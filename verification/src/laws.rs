//! Laws of the registry operations, proved from the transition relations
//! that the operations' contracts state.
//!
//! Each operation's `ensures` names a relation between the registry before
//! and after the call (`add_approval_post` and its siblings); the proofs
//! here hold for any pair of states standing in those relations, so they
//! hold of every actual call.

use vstd::prelude::*;
use crate::canonical::canon_of;
use crate::registry::Registry;
use crate::registry::add_approval_post;
use crate::registry::adjust_min_approvals_post;
use crate::registry::author_call_post;
use crate::registry::create_post;
use crate::registry::lemma_account_wf;
use crate::registry::remove_approval_post;
use crate::registry::remove_call_post;
use crate::types::ApprovalOutcome;
use crate::types::CallId;
use crate::types::MultiSigError;
use crate::types::lemma_call_index_unique;

verus! {

/// A creation request whose signatory set has fewer than two members is
/// refused as `SignatoriesTooShort`, and no account is persisted: the
/// registry is exactly what it was.
pub proof fn lemma_too_few_signatories_rejected(
    s0: Registry,
    s1: Registry,
    signatories: Seq<u64>,
    authors: Option<Vec<u64>>,
    min_approvals: u32,
    r: Result<u64, MultiSigError>,
)
    requires
        create_post(s0, s1, signatories, authors, min_approvals, r),
        canon_of(signatories).len() < 2,
    ensures
        r == Err::<u64, MultiSigError>(MultiSigError::SignatoriesTooShort),
        s1 == s0,
{
}

/// A creation request whose threshold lies outside `[2, |signatories|]` is
/// refused as `MinApprovalOutOfRange`, and no account is persisted.  (A
/// signatory set that is itself too small or too large is named first by
/// its own error, so those requests are left out here.)
pub proof fn lemma_threshold_out_of_range_rejected(
    s0: Registry,
    s1: Registry,
    signatories: Seq<u64>,
    authors: Option<Vec<u64>>,
    min_approvals: u32,
    r: Result<u64, MultiSigError>,
)
    requires
        create_post(s0, s1, signatories, authors, min_approvals, r),
        2 <= canon_of(signatories).len() <= s0.max_signatories,
        min_approvals < 2 || min_approvals > canon_of(signatories).len(),
    ensures
        r == Err::<u64, MultiSigError>(MultiSigError::MinApprovalOutOfRange),
        s1 == s0,
{
}

/// A caller who is not a signatory of the account is always turned away
/// from proposing, approving and revoking, with `AccountNotSignatory` and
/// no change to the registry.
pub proof fn lemma_non_signatories_rejected(
    s: Registry,
    s_author: Registry,
    s_add: Registry,
    s_remove: Registry,
    caller: u64,
    address: u64,
    call: Seq<u8>,
    id: CallId,
    r_author: Result<CallId, MultiSigError>,
    r_add: Result<ApprovalOutcome, MultiSigError>,
    r_remove: Result<(), MultiSigError>,
)
    requires
        s.has_account(address),
        !s.account(address).is_signatory(caller),
        author_call_post(s, s_author, caller, address, call, r_author),
        add_approval_post(s, s_add, caller, address, id, r_add),
        remove_approval_post(s, s_remove, caller, address, id, r_remove),
    ensures
        r_author == Err::<CallId, MultiSigError>(MultiSigError::AccountNotSignatory),
        r_add == Err::<ApprovalOutcome, MultiSigError>(MultiSigError::AccountNotSignatory),
        r_remove == Err::<(), MultiSigError>(MultiSigError::AccountNotSignatory),
        s_author == s && s_add == s && s_remove == s,
{
}

/// A caller who is not an author of the account is always turned away from
/// the administrative operations, with `AccountNotAuthor` and no change to
/// the registry.
pub proof fn lemma_non_authors_rejected(
    s: Registry,
    s_adjust: Registry,
    s_remove: Registry,
    caller: u64,
    address: u64,
    new_min: u32,
    id: CallId,
    r_adjust: Result<(), MultiSigError>,
    r_remove: Result<(), MultiSigError>,
)
    requires
        s.has_account(address),
        !s.account(address).is_author(caller),
        adjust_min_approvals_post(s, s_adjust, caller, address, new_min, r_adjust),
        remove_call_post(s, s_remove, caller, address, id, r_remove),
    ensures
        r_adjust == Err::<(), MultiSigError>(MultiSigError::AccountNotAuthor),
        r_remove == Err::<(), MultiSigError>(MultiSigError::AccountNotAuthor),
        s_adjust == s && s_remove == s,
{
}

/// Approving is idempotent: a second `add_approval` with the same caller
/// and action identifier leaves the registry — in particular the action's
/// approval set — exactly as the first call left it, whether the first
/// call recorded the approval, executed the action, or failed.
pub proof fn lemma_add_approval_idempotent(
    s0: Registry,
    s1: Registry,
    s2: Registry,
    caller: u64,
    address: u64,
    id: CallId,
    r1: Result<ApprovalOutcome, MultiSigError>,
    r2: Result<ApprovalOutcome, MultiSigError>,
)
    requires
        s0.wf(),
        s1.wf(),
        add_approval_post(s0, s1, caller, address, id, r1),
        add_approval_post(s1, s2, caller, address, id, r2),
    ensures
        s2 == s1,
{
    if !s0.has_account(address) {
        // the first call changed nothing and the second fails the same way
    } else {
        let m0 = s0.account(address);
        if !m0.is_signatory(caller) {
        } else if !m0.has_call(id) {
        } else {
            lemma_account_wf(s0, address);
            lemma_call_index_unique(m0, id);
            let k = m0.call_index(id);
            let c0 = m0.pending_calls@[k];
            if c0.approvals@.contains(caller) {
                // the first call was already a no-op
            } else {
                lemma_account_wf(s1, address);
                let m1 = s1.account(address);
                if c0.approvals@.len() + 1 >= m0.minimum_signatories {
                    // the first call executed and removed the action, so the
                    // second finds no action under this identifier
                    m0.pending_calls@.remove_ensures(k);
                    assert(!m1.has_call(id)) by {
                        if m1.has_call(id) {
                            let t = choose|t: int|
                                0 <= t < m1.pending_calls@.len() && m1.pending_calls@[t].id == id;
                            let t0: int = if t < k {
                                t
                            } else {
                                t + 1
                            };
                            assert(m1.pending_calls@[t] == m0.pending_calls@[t0]);
                            assert(m0.pending_calls@[t0].id == id);
                            assert(t0 == k);
                        }
                    }
                } else {
                    // the first call recorded the approval, so the second
                    // finds the caller among the approvals and is a no-op
                    let c1 = m1.pending_calls@[k];
                    assert(c1.approvals@ == c0.approvals@.push(caller));
                    assert(c1.approvals@[c0.approvals@.len() as int] == caller);
                    assert(c1.approvals@.contains(caller));
                    assert(m1.has_call(id)) by {
                        assert(m1.pending_calls@[k].id == id);
                    }
                    lemma_call_index_unique(m1, id);
                    assert(m1.call_index(id) == k);
                }
            }
        }
    }
}

/// The threshold drives execution: `add_approval` hands the action to the
/// execution boundary exactly when a fresh approval brings the count of
/// distinct approvers to at least the account's threshold — never with
/// fewer — and the executed action leaves the queue.
pub proof fn lemma_threshold_drives_execution(
    s0: Registry,
    s1: Registry,
    caller: u64,
    address: u64,
    id: CallId,
    r: Result<ApprovalOutcome, MultiSigError>,
)
    requires
        s0.wf(),
        s1.wf(),
        add_approval_post(s0, s1, caller, address, id, r),
    ensures
        (r matches Ok(ApprovalOutcome::Executed { .. })) <==> ({
            let m = s0.account(address);
            let c = m.pending_calls@[m.call_index(id)];
            &&& s0.has_account(address)
            &&& m.is_signatory(caller)
            &&& m.has_call(id)
            &&& !c.approvals@.contains(caller)
            &&& c.approvals@.len() + 1 >= m.minimum_signatories
        }),
        (r matches Ok(ApprovalOutcome::Executed { .. })) ==> !s1.account(address).has_call(id),
{
    if s0.has_account(address) {
        let m0 = s0.account(address);
        if m0.is_signatory(caller) && m0.has_call(id) {
            lemma_account_wf(s0, address);
            lemma_call_index_unique(m0, id);
            let k = m0.call_index(id);
            let c0 = m0.pending_calls@[k];
            if !c0.approvals@.contains(caller) && c0.approvals@.len() + 1
                >= m0.minimum_signatories {
                let m1 = s1.account(address);
                m0.pending_calls@.remove_ensures(k);
                assert(!m1.has_call(id)) by {
                    if m1.has_call(id) {
                        let t = choose|t: int|
                            0 <= t < m1.pending_calls@.len() && m1.pending_calls@[t].id == id;
                        let t0: int = if t < k {
                            t
                        } else {
                            t + 1
                        };
                        assert(m1.pending_calls@[t] == m0.pending_calls@[t0]);
                        assert(m0.pending_calls@[t0].id == id);
                        assert(t0 == k);
                    }
                }
            }
        }
    }
}

} // verus!
