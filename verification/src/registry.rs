//! The multi-signatory account registry.
//!
//! The registry owns every account record, keyed by address, and offers the
//! six public operations.  Each operation runs to completion on its own:
//! either all of its changes commit, or a validation fails and the registry
//! is untouched.

use vstd::prelude::*;
use crate::canonical::canon_of;
use crate::canonical::canonicalize;
use crate::canonical::vec_contains;
use crate::canonical::vec_subset_of;
use crate::derivation::compute_address;
use crate::derivation::compute_call_id;
use crate::derivation::derived_address;
use crate::derivation::derived_call_id;
use crate::types::ApprovalOutcome;
use crate::types::CallExecutor;
use crate::types::CallId;
use crate::types::MultiSigAccount;
use crate::types::MultiSigError;
use crate::types::PendingCall;
use crate::types::lemma_call_index_unique;

verus! {

/// One registry slot: an account record under its address.
#[derive(Debug)]
pub struct MsaEntry {
    pub address: u64,
    pub msa: MultiSigAccount,
}

/// The registry.  The bounds are fixed at construction and never change.
#[derive(Debug)]
pub struct Registry {
    /// The account records; addresses are pairwise distinct.
    pub accounts: Vec<MsaEntry>,
    /// Discriminator for the next address derivation, stepped at each
    /// successful creation (wrapping around at the top of its range).
    pub next_seq: u64,
    /// Most distinct signatories an account may have.
    pub max_signatories: u32,
    /// Most pending actions an account may queue.
    pub max_pending_calls: u32,
    /// Most accounts any one signatory may take part in.
    pub max_multi_sigs_per_account_id: u32,
    /// Largest accepted action payload, in bytes.
    pub max_call_size: u32,
}

/// The map from address to account record that a sequence of slots holds.
pub open spec fn entries_map(s: Seq<MsaEntry>) -> Map<u64, MultiSigAccount>
    decreases s.len(),
{
    if s.len() == 0 {
        Map::empty()
    } else {
        entries_map(s.drop_last()).insert(s.last().address, s.last().msa)
    }
}

/// How many accounts of `entries` list `who` among their signatories.
pub open spec fn participation_count(entries: Seq<MsaEntry>, who: u64) -> nat
    decreases entries.len(),
{
    if entries.len() == 0 {
        0
    } else {
        participation_count(entries.drop_last(), who) + if entries.last().msa.signatories@.contains(
            who,
        ) {
            1nat
        } else {
            0nat
        }
    }
}

pub proof fn lemma_entries_map_domain(s: Seq<MsaEntry>)
    ensures
        forall|a: u64|
            entries_map(s).contains_key(a) <==> exists|i: int|
                0 <= i < s.len() && (#[trigger] s[i]).address == a,
    decreases s.len(),
{
    if s.len() == 0 {
    } else {
        let head = s.drop_last();
        lemma_entries_map_domain(head);
        assert forall|a: u64|
            entries_map(s).contains_key(a) <==> exists|i: int|
                0 <= i < s.len() && (#[trigger] s[i]).address == a by {
            if entries_map(s).contains_key(a) {
                if a == s.last().address {
                    assert(s[s.len() - 1].address == a);
                } else {
                    assert(entries_map(head).contains_key(a));
                    let i = choose|i: int| 0 <= i < head.len() && (#[trigger] head[i]).address == a;
                    assert(s[i].address == a);
                }
            }
            if exists|i: int| 0 <= i < s.len() && (#[trigger] s[i]).address == a {
                let i = choose|i: int| 0 <= i < s.len() && (#[trigger] s[i]).address == a;
                if i == s.len() - 1 {
                    assert(entries_map(s).contains_key(a));
                } else {
                    assert(head[i].address == a);
                    assert(entries_map(head).contains_key(a));
                }
            }
        }
    }
}

/// With pairwise distinct addresses, the map sends each slot's address to
/// that slot's record.
pub proof fn lemma_entries_map_index(s: Seq<MsaEntry>, i: int)
    requires
        forall|p: int, q: int|
            0 <= p < q < s.len() ==> (#[trigger] s[p]).address != (#[trigger] s[q]).address,
        0 <= i < s.len(),
    ensures
        entries_map(s).contains_key(s[i].address),
        entries_map(s)[s[i].address] == s[i].msa,
    decreases s.len(),
{
    if i == s.len() - 1 {
    } else {
        let head = s.drop_last();
        lemma_entries_map_index(head, i);
        assert(s[i].address != s[s.len() - 1].address);
    }
}

/// Replacing the record in slot `i` replaces exactly that address's entry
/// in the map.
pub proof fn lemma_entries_map_update(s: Seq<MsaEntry>, i: int, m: MultiSigAccount)
    requires
        forall|p: int, q: int|
            0 <= p < q < s.len() ==> (#[trigger] s[p]).address != (#[trigger] s[q]).address,
        0 <= i < s.len(),
    ensures
        entries_map(s.update(i, (MsaEntry { address: s[i].address, msa: m }))) == entries_map(
            s,
        ).insert(s[i].address, m),
    decreases s.len(),
{
    let t = s.update(i, (MsaEntry { address: s[i].address, msa: m }));
    if i == s.len() - 1 {
        assert(t.drop_last() =~= s.drop_last());
        assert(entries_map(t) =~= entries_map(s).insert(s[i].address, m));
    } else {
        let head = s.drop_last();
        lemma_entries_map_update(head, i, m);
        assert(t.drop_last() =~= head.update(i, (MsaEntry { address: s[i].address, msa: m })));
        assert(t.last() == s.last());
        assert(s[i].address != s.last().address);
        assert(entries_map(t) =~= entries_map(s).insert(s[i].address, m));
    }
}

/// The queue position of the pending action carrying `id`, if any.
fn find_call_index(pending: &Vec<PendingCall>, id: CallId) -> (r: Option<usize>)
    ensures
        match r {
            Some(k) => k < pending@.len() && pending@[k as int].id == id,
            None => forall|i: int| 0 <= i < pending@.len() ==> (#[trigger] pending@[i]).id != id,
        },
{
    let mut i: usize = 0;
    while i < pending.len()
        invariant
            i <= pending@.len(),
            forall|k: int| 0 <= k < i ==> (#[trigger] pending@[k]).id != id,
        decreases pending@.len() - i,
    {
        let c = &pending[i];
        if c.id == id {
            return Some(i);
        }
        i += 1;
    }
    None
}

/// The first position of `x` in `v`, if any.
fn find_value_index(v: &Vec<u64>, x: u64) -> (r: Option<usize>)
    ensures
        match r {
            Some(j) => j < v@.len() && v@[j as int] == x,
            None => !v@.contains(x),
        },
{
    let mut i: usize = 0;
    while i < v.len()
        invariant
            i <= v@.len(),
            forall|k: int| 0 <= k < i ==> v@[k] != x,
        decreases v@.len() - i,
    {
        if v[i] == x {
            return Some(i);
        }
        i += 1;
    }
    None
}

/// Every account a well-formed registry holds is itself well-formed.
pub proof fn lemma_account_wf(s: Registry, address: u64)
    requires
        s.wf(),
        s.has_account(address),
    ensures
        s.account(address).wf(),
{
    lemma_entries_map_domain(s.accounts@);
    let i = choose|i: int|
        0 <= i < s.accounts@.len() && (#[trigger] s.accounts@[i]).address == address;
    lemma_entries_map_index(s.accounts@, i);
}

/// The creation discriminator after a successful creation: stepped by one,
/// wrapping around at the top of its range (address uniqueness rests on the
/// collision check, not on this counter).
pub open spec fn next_discriminator(n: u64) -> u64 {
    if n == u64::MAX {
        0
    } else {
        (n + 1) as u64
    }
}

/// What `create_multi_sig_account` does: how the registry after the call
/// (`post`) and the result `r` relate to the registry before it (`pre`).
/// The validation steps run in the order written here; the first that fails
/// names the error, and any failure leaves the registry untouched.
pub open spec fn create_post(
    pre: Registry,
    post: Registry,
    signatories: Seq<u64>,
    authors: Option<Vec<u64>>,
    min_approvals: u32,
    r: Result<u64, MultiSigError>,
) -> bool {
    let canon = canon_of(signatories);
    let canon_authors = match authors {
        Option::Some(au) => canon_of(au@),
        Option::None => canon,
    };
    let addr = derived_address(canon, pre.next_seq);
    &&& pre.same_settings(post)
    &&& if canon.len() < 2 {
        post == pre && r == Err::<u64, MultiSigError>(MultiSigError::SignatoriesTooShort)
    } else if canon.len() > pre.max_signatories {
        post == pre && r == Err::<u64, MultiSigError>(
            MultiSigError::SignatoriesCardinalityExceeded,
        )
    } else if min_approvals < 2 || min_approvals > canon.len() {
        post == pre && r == Err::<u64, MultiSigError>(MultiSigError::MinApprovalOutOfRange)
    } else if exists|x: u64| canon_authors.contains(x) && !canon.contains(x) {
        post == pre && r == Err::<u64, MultiSigError>(MultiSigError::InvalidAuthorSet)
    } else if pre.accounts_map().contains_key(addr) {
        post == pre && r == Err::<u64, MultiSigError>(MultiSigError::AddressCollision)
    } else if exists|x: u64|
        canon.contains(x) && participation_count(pre.accounts@, x)
            >= pre.max_multi_sigs_per_account_id {
        post == pre && r == Err::<u64, MultiSigError>(MultiSigError::PerAccountMsaLimitExceeded)
    } else {
        &&& r == Ok::<u64, MultiSigError>(addr)
        &&& post.next_seq == next_discriminator(pre.next_seq)
        &&& post.has_account(addr)
        &&& post.accounts_map() == pre.accounts_map().insert(addr, post.account(addr))
        &&& post.account(addr).signatories@ == canon
        &&& post.account(addr).authors@ == canon_authors
        &&& post.account(addr).minimum_signatories == min_approvals
        &&& post.account(addr).pending_calls@.len() == 0
        &&& post.account(addr).call_nonce == 0
    }
}

/// What `author_a_call` does.  On success the new pending action stands at
/// the end of the queue with no approvals yet, under an identifier derived
/// from the account's insertion counter, its address, and the payload.
pub open spec fn author_call_post(
    pre: Registry,
    post: Registry,
    caller: u64,
    address: u64,
    call: Seq<u8>,
    r: Result<CallId, MultiSigError>,
) -> bool {
    &&& pre.same_settings(post)
    &&& post.next_seq == pre.next_seq
    &&& if !pre.has_account(address) {
        post == pre && r == Err::<CallId, MultiSigError>(MultiSigError::AccountNotFound)
    } else {
        let m = pre.account(address);
        if !m.is_signatory(caller) {
            post == pre && r == Err::<CallId, MultiSigError>(MultiSigError::AccountNotSignatory)
        } else if call.len() > pre.max_call_size {
            post == pre && r == Err::<CallId, MultiSigError>(MultiSigError::CallSizeExceeded)
        } else if m.pending_calls@.len() >= pre.max_pending_calls || m.call_nonce == u64::MAX {
            post == pre && r == Err::<CallId, MultiSigError>(MultiSigError::PendingQueueFull)
        } else {
            let id = derived_call_id(m.call_nonce, address, call);
            let pm = post.account(address);
            &&& r == Ok::<CallId, MultiSigError>(id)
            &&& post.has_account(address)
            &&& post.accounts_map() == pre.accounts_map().insert(address, pm)
            &&& pm.signatories@ == m.signatories@
            &&& pm.authors@ == m.authors@
            &&& pm.minimum_signatories == m.minimum_signatories
            &&& pm.call_nonce == m.call_nonce + 1
            &&& pm.pending_calls@.len() == m.pending_calls@.len() + 1
            &&& forall|k: int|
                0 <= k < m.pending_calls@.len() ==> #[trigger] pm.pending_calls@[k]
                    == m.pending_calls@[k]
            &&& pm.pending_calls@.last().id == id
            &&& pm.pending_calls@.last().call@ == call
            &&& pm.pending_calls@.last().approvals@ == Seq::<u64>::empty()
        }
    }
}

/// What `add_approval` does.  A caller already among the approvals is an
/// idempotent no-op success.  A fresh approval that brings the count of
/// distinct approvers to the threshold removes the action from the queue
/// and hands it to the execution boundary exactly once; the executor's own
/// success or failure is reported but rolls nothing back.  Below the
/// threshold the approval is simply recorded.
pub open spec fn add_approval_post(
    pre: Registry,
    post: Registry,
    caller: u64,
    address: u64,
    id: CallId,
    r: Result<ApprovalOutcome, MultiSigError>,
) -> bool {
    &&& pre.same_settings(post)
    &&& post.next_seq == pre.next_seq
    &&& if !pre.has_account(address) {
        post == pre && r == Err::<ApprovalOutcome, MultiSigError>(MultiSigError::AccountNotFound)
    } else {
        let m = pre.account(address);
        if !m.is_signatory(caller) {
            post == pre && r == Err::<ApprovalOutcome, MultiSigError>(
                MultiSigError::AccountNotSignatory,
            )
        } else if !m.has_call(id) {
            post == pre && r == Err::<ApprovalOutcome, MultiSigError>(MultiSigError::CallNotFound)
        } else {
            let k = m.call_index(id);
            let c = m.pending_calls@[k];
            if c.approvals@.contains(caller) {
                post == pre && r == Ok::<ApprovalOutcome, MultiSigError>(ApprovalOutcome::Pending)
            } else {
                let pm = post.account(address);
                &&& post.has_account(address)
                &&& post.accounts_map() == pre.accounts_map().insert(address, pm)
                &&& pm.signatories@ == m.signatories@
                &&& pm.authors@ == m.authors@
                &&& pm.minimum_signatories == m.minimum_signatories
                &&& pm.call_nonce == m.call_nonce
                &&& if c.approvals@.len() + 1 >= m.minimum_signatories {
                    &&& (r matches Ok(ApprovalOutcome::Executed { .. }))
                    &&& pm.pending_calls@ == m.pending_calls@.remove(k)
                } else {
                    &&& r == Ok::<ApprovalOutcome, MultiSigError>(ApprovalOutcome::Pending)
                    &&& pm.pending_calls@.len() == m.pending_calls@.len()
                    &&& forall|j: int|
                        0 <= j < m.pending_calls@.len() && j != k
                            ==> #[trigger] pm.pending_calls@[j] == m.pending_calls@[j]
                    &&& pm.pending_calls@[k].id == c.id
                    &&& pm.pending_calls@[k].call@ == c.call@
                    &&& pm.pending_calls@[k].approvals@ == c.approvals@.push(caller)
                }
            }
        }
    }
}

/// What `remove_approval` does.  Revoking an approval never triggers
/// execution; a caller who never approved the action is a no-op success.
pub open spec fn remove_approval_post(
    pre: Registry,
    post: Registry,
    caller: u64,
    address: u64,
    id: CallId,
    r: Result<(), MultiSigError>,
) -> bool {
    &&& pre.same_settings(post)
    &&& post.next_seq == pre.next_seq
    &&& if !pre.has_account(address) {
        post == pre && r == Err::<(), MultiSigError>(MultiSigError::AccountNotFound)
    } else {
        let m = pre.account(address);
        if !m.is_signatory(caller) {
            post == pre && r == Err::<(), MultiSigError>(MultiSigError::AccountNotSignatory)
        } else if !m.has_call(id) {
            post == pre && r == Err::<(), MultiSigError>(MultiSigError::CallNotFound)
        } else {
            let k = m.call_index(id);
            let c = m.pending_calls@[k];
            if !c.approvals@.contains(caller) {
                post == pre && r == Ok::<(), MultiSigError>(())
            } else {
                let pm = post.account(address);
                &&& r == Ok::<(), MultiSigError>(())
                &&& post.has_account(address)
                &&& post.accounts_map() == pre.accounts_map().insert(address, pm)
                &&& pm.signatories@ == m.signatories@
                &&& pm.authors@ == m.authors@
                &&& pm.minimum_signatories == m.minimum_signatories
                &&& pm.call_nonce == m.call_nonce
                &&& pm.pending_calls@.len() == m.pending_calls@.len()
                &&& forall|j: int|
                    0 <= j < m.pending_calls@.len() && j != k
                        ==> #[trigger] pm.pending_calls@[j] == m.pending_calls@[j]
                &&& pm.pending_calls@[k].id == c.id
                &&& pm.pending_calls@[k].call@ == c.call@
                &&& pm.pending_calls@[k].approvals@ == c.approvals@.remove(
                    c.approvals@.index_of(caller),
                )
            }
        }
    }
}

/// What `adjust_min_approvals` does.  A changed threshold is not applied
/// retroactively: the pending actions and their approvals stay exactly as
/// they are, and only the next approval on an action re-checks the current
/// threshold.
pub open spec fn adjust_min_approvals_post(
    pre: Registry,
    post: Registry,
    caller: u64,
    address: u64,
    new_min: u32,
    r: Result<(), MultiSigError>,
) -> bool {
    &&& pre.same_settings(post)
    &&& post.next_seq == pre.next_seq
    &&& if !pre.has_account(address) {
        post == pre && r == Err::<(), MultiSigError>(MultiSigError::AccountNotFound)
    } else {
        let m = pre.account(address);
        if !m.is_author(caller) {
            post == pre && r == Err::<(), MultiSigError>(MultiSigError::AccountNotAuthor)
        } else if new_min < 2 || new_min > m.signatories@.len() {
            post == pre && r == Err::<(), MultiSigError>(MultiSigError::MinApprovalOutOfRange)
        } else {
            let pm = post.account(address);
            &&& r == Ok::<(), MultiSigError>(())
            &&& post.has_account(address)
            &&& post.accounts_map() == pre.accounts_map().insert(address, pm)
            &&& pm.signatories@ == m.signatories@
            &&& pm.authors@ == m.authors@
            &&& pm.minimum_signatories == new_min
            &&& pm.call_nonce == m.call_nonce
            &&& pm.pending_calls@ == m.pending_calls@
        }
    }
}

/// What `remove_call` does: an author deletes a pending action outright,
/// whatever approvals it has gathered; later actions keep their order.
pub open spec fn remove_call_post(
    pre: Registry,
    post: Registry,
    caller: u64,
    address: u64,
    id: CallId,
    r: Result<(), MultiSigError>,
) -> bool {
    &&& pre.same_settings(post)
    &&& post.next_seq == pre.next_seq
    &&& if !pre.has_account(address) {
        post == pre && r == Err::<(), MultiSigError>(MultiSigError::AccountNotFound)
    } else {
        let m = pre.account(address);
        if !m.is_author(caller) {
            post == pre && r == Err::<(), MultiSigError>(MultiSigError::AccountNotAuthor)
        } else if !m.has_call(id) {
            post == pre && r == Err::<(), MultiSigError>(MultiSigError::CallNotFound)
        } else {
            let k = m.call_index(id);
            let pm = post.account(address);
            &&& r == Ok::<(), MultiSigError>(())
            &&& post.has_account(address)
            &&& post.accounts_map() == pre.accounts_map().insert(address, pm)
            &&& pm.signatories@ == m.signatories@
            &&& pm.authors@ == m.authors@
            &&& pm.minimum_signatories == m.minimum_signatories
            &&& pm.call_nonce == m.call_nonce
            &&& pm.pending_calls@ == m.pending_calls@.remove(k)
        }
    }
}

impl Registry {
    /// The account map this registry holds.
    pub open spec fn accounts_map(self) -> Map<u64, MultiSigAccount> {
        entries_map(self.accounts@)
    }

    pub open spec fn has_account(self, address: u64) -> bool {
        self.accounts_map().contains_key(address)
    }

    pub open spec fn account(self, address: u64) -> MultiSigAccount {
        self.accounts_map()[address]
    }

    /// The configured bounds, which no operation changes.
    pub open spec fn same_settings(self, other: Registry) -> bool {
        &&& self.max_signatories == other.max_signatories
        &&& self.max_pending_calls == other.max_pending_calls
        &&& self.max_multi_sigs_per_account_id == other.max_multi_sigs_per_account_id
        &&& self.max_call_size == other.max_call_size
    }

    /// One record's bounds against the configured maxima.
    pub open spec fn msa_bounded(self, m: MultiSigAccount) -> bool {
        &&& m.signatories@.len() <= self.max_signatories
        &&& m.pending_calls@.len() <= self.max_pending_calls
        &&& forall|k: int|
            0 <= k < m.pending_calls@.len() ==> (#[trigger] m.pending_calls@[k]).call@.len()
                <= self.max_call_size
    }

    /// The registry invariant: distinct addresses, and every record
    /// well-formed and within the configured bounds.
    pub open spec fn wf(self) -> bool {
        &&& forall|p: int, q: int|
            0 <= p < q < self.accounts@.len() ==> (#[trigger] self.accounts@[p]).address != (
            #[trigger] self.accounts@[q]).address
        &&& forall|i: int|
            0 <= i < self.accounts@.len() ==> (#[trigger] self.accounts@[i]).msa.wf()
        &&& forall|i: int|
            0 <= i < self.accounts@.len() ==> self.msa_bounded(
                (#[trigger] self.accounts@[i]).msa,
            )
    }

    /// A fresh registry with the given bounds and no accounts.
    pub fn new(
        max_signatories: u32,
        max_pending_calls: u32,
        max_multi_sigs_per_account_id: u32,
        max_call_size: u32,
    ) -> (r: Registry)
        ensures
            r.wf(),
            r.accounts@ == Seq::<MsaEntry>::empty(),
            r.accounts_map() == Map::<u64, MultiSigAccount>::empty(),
            r.next_seq == 0,
            r.max_signatories == max_signatories,
            r.max_pending_calls == max_pending_calls,
            r.max_multi_sigs_per_account_id == max_multi_sigs_per_account_id,
            r.max_call_size == max_call_size,
    {
        Registry {
            accounts: Vec::new(),
            next_seq: 0,
            max_signatories,
            max_pending_calls,
            max_multi_sigs_per_account_id,
            max_call_size,
        }
    }

    /// The slot holding `address`, when there is one.
    fn find_account_index(&self, address: u64) -> (r: Option<usize>)
        requires
            self.wf(),
        ensures
            match r {
                Some(i) => i < self.accounts@.len() && self.accounts@[i as int].address == address
                    && self.has_account(address) && self.account(address) == self.accounts@[
                    i as int].msa,
                None => !self.has_account(address),
            },
    {
        proof {
            lemma_entries_map_domain(self.accounts@);
        }
        let mut i: usize = 0;
        while i < self.accounts.len()
            invariant
                self.wf(),
                i <= self.accounts@.len(),
                forall|k: int| 0 <= k < i ==> (#[trigger] self.accounts@[k]).address != address,
            decreases self.accounts@.len() - i,
        {
            let entry = &self.accounts[i];
            if entry.address == address {
                proof {
                    lemma_entries_map_index(self.accounts@, i as int);
                }
                return Some(i);
            }
            i += 1;
        }
        None
    }

    /// Whether some record is stored under `address`.
    fn contains_address(&self, address: u64) -> (r: bool)
        requires
            self.wf(),
        ensures
            r == self.has_account(address),
    {
        match self.find_account_index(address) {
            Some(_) => true,
            None => false,
        }
    }

    /// How many accounts `who` takes part in as a signatory.
    fn count_participations(&self, who: u64) -> (r: usize)
        ensures
            r == participation_count(self.accounts@, who),
    {
        let mut count: usize = 0;
        let mut i: usize = 0;
        while i < self.accounts.len()
            invariant
                i <= self.accounts@.len(),
                count <= i,
                count == participation_count(self.accounts@.take(i as int), who),
            decreases self.accounts@.len() - i,
        {
            let ghost prefix = self.accounts@.take(i as int);
            let entry = &self.accounts[i];
            if vec_contains(&entry.msa.signatories, who) {
                count += 1;
            }
            proof {
                let longer = self.accounts@.take(i + 1);
                assert(longer.drop_last() =~= prefix);
                assert(longer.last() == self.accounts@[i as int]);
            }
            i += 1;
        }
        proof {
            assert(self.accounts@.take(self.accounts@.len() as int) =~= self.accounts@);
        }
        count
    }

    /// Whether some member of `sigs` already takes part in the maximum
    /// number of accounts.
    fn msa_limit_exceeded(&self, sigs: &Vec<u64>) -> (r: bool)
        ensures
            r == exists|x: u64|
                sigs@.contains(x) && participation_count(self.accounts@, x)
                    >= self.max_multi_sigs_per_account_id,
    {
        let mut i: usize = 0;
        while i < sigs.len()
            invariant
                i <= sigs@.len(),
                forall|k: int|
                    0 <= k < i ==> participation_count(self.accounts@, #[trigger] sigs@[k])
                        < self.max_multi_sigs_per_account_id,
            decreases sigs@.len() - i,
        {
            let c = self.count_participations(sigs[i]);
            if c >= self.max_multi_sigs_per_account_id as usize {
                assert(sigs@.contains(sigs@[i as int]));
                return true;
            }
            i += 1;
        }
        assert forall|x: u64|
            sigs@.contains(x) implies participation_count(self.accounts@, x)
            < self.max_multi_sigs_per_account_id by {
            let k = choose|k: int| 0 <= k < sigs@.len() && sigs@[k] == x;
            assert(participation_count(self.accounts@, sigs@[k])
                < self.max_multi_sigs_per_account_id);
        }
        false
    }

    /// Creates a multi-signatory account from the given signatory set and
    /// returns its deterministically derived address.
    ///
    /// The signatory and author lists are taken as sets: order and
    /// duplicates do not matter.  With no explicit author list, every
    /// signatory is an author.  The new account starts with an empty queue
    /// of pending actions.
    pub fn create_multi_sig_account(
        &mut self,
        signatories: Vec<u64>,
        authors: Option<Vec<u64>>,
        min_approvals: u32,
    ) -> (r: Result<u64, MultiSigError>)
        requires
            old(self).wf(),
        ensures
            final(self).wf(),
            create_post(*old(self), *final(self), signatories@, authors, min_approvals, r),
    {
        let canon = canonicalize(&signatories);
        if canon.len() < 2 {
            return Err(MultiSigError::SignatoriesTooShort);
        }
        if canon.len() > self.max_signatories as usize {
            return Err(MultiSigError::SignatoriesCardinalityExceeded);
        }
        if min_approvals < 2 || min_approvals as usize > canon.len() {
            return Err(MultiSigError::MinApprovalOutOfRange);
        }
        let canon_authors = match &authors {
            Option::Some(au) => canonicalize(au),
            Option::None => canonicalize(&signatories),
        };
        if !vec_subset_of(&canon_authors, &canon) {
            return Err(MultiSigError::InvalidAuthorSet);
        }
        let address = compute_address(&canon, self.next_seq);
        if self.contains_address(address) {
            return Err(MultiSigError::AddressCollision);
        }
        if self.msa_limit_exceeded(&canon) {
            return Err(MultiSigError::PerAccountMsaLimitExceeded);
        }
        let ghost pre = *self;
        let msa = MultiSigAccount {
            signatories: canon,
            authors: canon_authors,
            minimum_signatories: min_approvals,
            pending_calls: Vec::new(),
            call_nonce: 0,
        };
        let entry = MsaEntry { address, msa };
        self.accounts.push(entry);
        if self.next_seq == u64::MAX {
            self.next_seq = 0;
        } else {
            self.next_seq = self.next_seq + 1;
        }
        proof {
            lemma_entries_map_domain(pre.accounts@);
            assert(self.accounts@.drop_last() =~= pre.accounts@);
            assert(self.accounts@.last() == entry);
            assert(self.accounts_map() =~= pre.accounts_map().insert(
                address,
                self.accounts@.last().msa,
            ));
            assert forall|p: int, q: int|
                0 <= p < q < self.accounts@.len() implies (#[trigger] self.accounts@[p]).address
                != (#[trigger] self.accounts@[q]).address by {
                if q == self.accounts@.len() - 1 {
                    assert(self.accounts@[p] == pre.accounts@[p]);
                }
            }
            assert forall|i: int|
                0 <= i < self.accounts@.len() implies (#[trigger] self.accounts@[i]).msa.wf()
                && self.msa_bounded(self.accounts@[i].msa) by {
                if i < self.accounts@.len() - 1 {
                    assert(self.accounts@[i] == pre.accounts@[i]);
                    assert(pre.accounts@[i].msa.wf());
                    assert(pre.msa_bounded(pre.accounts@[i].msa));
                }
            }
            lemma_entries_map_index(self.accounts@, self.accounts@.len() - 1);
        }
        Ok(address)
    }

    /// Proposes an action on the account at `address`.  The caller must be
    /// one of its signatories; the payload must fit the configured size and
    /// the queue must have room.  Returns the new action's identifier.
    pub fn author_a_call(&mut self, caller: u64, address: u64, call: Vec<u8>) -> (r: Result<
        CallId,
        MultiSigError,
    >)
        requires
            old(self).wf(),
        ensures
            final(self).wf(),
            author_call_post(*old(self), *final(self), caller, address, call@, r),
    {
        let idx = match self.find_account_index(address) {
            Option::None => {
                return Err(MultiSigError::AccountNotFound);
            },
            Option::Some(i) => i,
        };
        let entry_ref = &self.accounts[idx];
        if !vec_contains(&entry_ref.msa.signatories, caller) {
            return Err(MultiSigError::AccountNotSignatory);
        }
        if call.len() > self.max_call_size as usize {
            return Err(MultiSigError::CallSizeExceeded);
        }
        if entry_ref.msa.pending_calls.len() >= self.max_pending_calls as usize
            || entry_ref.msa.call_nonce == u64::MAX {
            return Err(MultiSigError::PendingQueueFull);
        }
        let ghost pre = *self;
        let ghost m0 = pre.account(address);
        let mut entry = self.accounts.remove(idx);
        let id = compute_call_id(entry.msa.call_nonce, address, &call);
        entry.msa.pending_calls.push(PendingCall { id, call, approvals: Vec::new() });
        entry.msa.call_nonce = entry.msa.call_nonce + 1;
        let ghost entry_final = entry;
        self.accounts.insert(idx, entry);
        proof {
            let n = pre.accounts@.len();
            assert(self.accounts@ =~= pre.accounts@.update(idx as int, entry_final));
            assert(entry_final == (MsaEntry {
                address: pre.accounts@[idx as int].address,
                msa: entry_final.msa,
            }));
            lemma_entries_map_update(pre.accounts@, idx as int, entry_final.msa);
            let m1 = entry_final.msa;
            assert forall|k: int|
                0 <= k < m1.pending_calls@.len() implies (#[trigger] m1.pending_calls@[k]).wf(
                m1.signatories@,
            ) && m1.pending_calls@[k].id.nonce < m1.call_nonce by {
                if k < m0.pending_calls@.len() {
                    assert(m1.pending_calls@[k] == m0.pending_calls@[k]);
                    assert(m0.pending_calls@[k].wf(m0.signatories@));
                    assert(m0.pending_calls@[k].id.nonce < m0.call_nonce);
                } else {
                    assert(m1.pending_calls@[k] == m1.pending_calls@.last());
                }
            }
            assert forall|p: int, q: int|
                0 <= p < q < m1.pending_calls@.len() implies (
            #[trigger] m1.pending_calls@[p]).id.nonce < (
            #[trigger] m1.pending_calls@[q]).id.nonce by {
                assert(m1.pending_calls@[p] == m0.pending_calls@[p]);
                if q < m0.pending_calls@.len() {
                    assert(m1.pending_calls@[q] == m0.pending_calls@[q]);
                } else {
                    assert(m0.pending_calls@[p].id.nonce < m0.call_nonce);
                }
            }
            assert(m1.wf());
            assert(self.msa_bounded(m1));
            assert forall|p: int, q: int|
                0 <= p < q < self.accounts@.len() implies (#[trigger] self.accounts@[p]).address
                != (#[trigger] self.accounts@[q]).address by {
                assert(pre.accounts@[p].address != pre.accounts@[q].address);
            }
            assert forall|i: int|
                0 <= i < self.accounts@.len() implies (#[trigger] self.accounts@[i]).msa.wf()
                && self.msa_bounded(self.accounts@[i].msa) by {
                if i != idx as int {
                    assert(self.accounts@[i] == pre.accounts@[i]);
                    assert(pre.accounts@[i].msa.wf());
                    assert(pre.msa_bounded(pre.accounts@[i].msa));
                }
            }
            lemma_entries_map_index(self.accounts@, idx as int);
        }
        Ok(id)
    }

    /// Casts the caller's approval on the pending action `call_id` of the
    /// account at `address`.  A repeated approval by the same signatory is
    /// an idempotent no-op.  When the count of distinct approvers reaches
    /// the account's threshold, the action is removed from the queue and
    /// handed to `executor` — at most once, with no retry and no re-queue
    /// whatever the executor reports.
    pub fn add_approval<E: CallExecutor>(
        &mut self,
        caller: u64,
        address: u64,
        call_id: CallId,
        executor: &mut E,
    ) -> (r: Result<ApprovalOutcome, MultiSigError>)
        requires
            old(self).wf(),
        ensures
            final(self).wf(),
            add_approval_post(*old(self), *final(self), caller, address, call_id, r),
    {
        let idx = match self.find_account_index(address) {
            Option::None => {
                return Err(MultiSigError::AccountNotFound);
            },
            Option::Some(i) => i,
        };
        let entry_ref = &self.accounts[idx];
        if !vec_contains(&entry_ref.msa.signatories, caller) {
            return Err(MultiSigError::AccountNotSignatory);
        }
        let k = match find_call_index(&entry_ref.msa.pending_calls, call_id) {
            Option::None => {
                return Err(MultiSigError::CallNotFound);
            },
            Option::Some(k) => k,
        };
        proof {
            assert(self.account(address).has_call(call_id)) by {
                assert(self.account(address).pending_calls@[k as int].id == call_id);
            }
            lemma_call_index_unique(self.account(address), call_id);
        }
        let c_ref = &entry_ref.msa.pending_calls[k];
        if vec_contains(&c_ref.approvals, caller) {
            return Ok(ApprovalOutcome::Pending);
        }
        let ghost pre = *self;
        let ghost m0 = pre.account(address);
        let mut entry = self.accounts.remove(idx);
        let mut c = entry.msa.pending_calls.remove(k);
        c.approvals.push(caller);
        proof {
            assert(c.approvals@.no_duplicates()) by {
                let a0 = m0.pending_calls@[k as int].approvals@;
                assert forall|p: int, q: int|
                    0 <= p < q < c.approvals@.len() implies c.approvals@[p] != c.approvals@[q] by {
                    if q < a0.len() {
                        assert(a0[p] != a0[q]);
                    } else {
                        if a0[p] == caller {
                            assert(a0.contains(caller));
                        }
                    }
                }
            }
        }
        let threshold = entry.msa.minimum_signatories as usize;
        if c.approvals.len() >= threshold {
            let executed_ok = executor.execute(&c.call);
            let ghost entry_final = entry;
            self.accounts.insert(idx, entry);
            proof {
                let kk = k as int;
                let m1 = entry_final.msa;
                assert(self.accounts@ =~= pre.accounts@.update(idx as int, entry_final));
                assert(entry_final == (MsaEntry {
                    address: pre.accounts@[idx as int].address,
                    msa: m1,
                }));
                lemma_entries_map_update(pre.accounts@, idx as int, m1);
                m0.pending_calls@.remove_ensures(kk);
                assert(m1.pending_calls@ =~= m0.pending_calls@.remove(kk));
                assert forall|t: int|
                    0 <= t < m1.pending_calls@.len() implies (#[trigger] m1.pending_calls@[t]).wf(
                    m1.signatories@,
                ) && m1.pending_calls@[t].id.nonce < m1.call_nonce by {
                    if t < kk {
                        assert(m1.pending_calls@[t] == m0.pending_calls@[t]);
                        assert(m0.pending_calls@[t].wf(m0.signatories@));
                        assert(m0.pending_calls@[t].id.nonce < m0.call_nonce);
                    } else {
                        assert(m1.pending_calls@[t] == m0.pending_calls@[t + 1]);
                        assert(m0.pending_calls@[t + 1].wf(m0.signatories@));
                        assert(m0.pending_calls@[t + 1].id.nonce < m0.call_nonce);
                    }
                }
                assert forall|p: int, q: int|
                    0 <= p < q < m1.pending_calls@.len() implies (
                #[trigger] m1.pending_calls@[p]).id.nonce < (
                #[trigger] m1.pending_calls@[q]).id.nonce by {
                    let p0: int = if p < kk {
                        p
                    } else {
                        p + 1
                    };
                    let q0: int = if q < kk {
                        q
                    } else {
                        q + 1
                    };
                    assert(m1.pending_calls@[p] == m0.pending_calls@[p0]);
                    assert(m1.pending_calls@[q] == m0.pending_calls@[q0]);
                    assert(m0.pending_calls@[p0].id.nonce < m0.pending_calls@[q0].id.nonce);
                }
                assert(m1.wf());
                assert(self.msa_bounded(m1)) by {
                    assert forall|t: int|
                        0 <= t < m1.pending_calls@.len() implies (
                    #[trigger] m1.pending_calls@[t]).call@.len() <= self.max_call_size by {
                        if t < kk {
                            assert(m1.pending_calls@[t] == m0.pending_calls@[t]);
                        } else {
                            assert(m1.pending_calls@[t] == m0.pending_calls@[t + 1]);
                        }
                    }
                }
                assert forall|p: int, q: int|
                    0 <= p < q < self.accounts@.len() implies (
                #[trigger] self.accounts@[p]).address != (
                #[trigger] self.accounts@[q]).address by {
                    assert(pre.accounts@[p].address != pre.accounts@[q].address);
                }
                assert forall|i: int|
                    0 <= i < self.accounts@.len() implies (#[trigger] self.accounts@[i]).msa.wf()
                    && self.msa_bounded(self.accounts@[i].msa) by {
                    if i != idx as int {
                        assert(self.accounts@[i] == pre.accounts@[i]);
                        assert(pre.accounts@[i].msa.wf());
                        assert(pre.msa_bounded(pre.accounts@[i].msa));
                    }
                }
                lemma_entries_map_index(self.accounts@, idx as int);
            }
            Ok(ApprovalOutcome::Executed { succeeded: executed_ok })
        } else {
            entry.msa.pending_calls.insert(k, c);
            let ghost entry_final = entry;
            self.accounts.insert(idx, entry);
            proof {
                let kk = k as int;
                let m1 = entry_final.msa;
                let c0 = m0.pending_calls@[kk];
                let c1 = m1.pending_calls@[kk];
                assert(self.accounts@ =~= pre.accounts@.update(idx as int, entry_final));
                assert(entry_final == (MsaEntry {
                    address: pre.accounts@[idx as int].address,
                    msa: m1,
                }));
                lemma_entries_map_update(pre.accounts@, idx as int, m1);
                assert(m1.pending_calls@ =~= m0.pending_calls@.update(kk, c1));
                assert(c1.approvals@ == c0.approvals@.push(caller));
                assert forall|t: int|
                    0 <= t < m1.pending_calls@.len() implies (#[trigger] m1.pending_calls@[t]).wf(
                    m1.signatories@,
                ) && m1.pending_calls@[t].id.nonce < m1.call_nonce by {
                    if t != kk {
                        assert(m1.pending_calls@[t] == m0.pending_calls@[t]);
                        assert(m0.pending_calls@[t].wf(m0.signatories@));
                        assert(m0.pending_calls@[t].id.nonce < m0.call_nonce);
                    } else {
                        assert(c0.wf(m0.signatories@));
                        assert forall|x: u64| c1.approvals@.contains(x) implies
                            m1.signatories@.contains(x) by {
                            let w = choose|w: int|
                                0 <= w < c1.approvals@.len() && c1.approvals@[w] == x;
                            if w < c0.approvals@.len() {
                                assert(c0.approvals@[w] == x);
                                assert(c0.approvals@.contains(x));
                            } else {
                                assert(x == caller);
                            }
                        }
                        assert(m0.pending_calls@[kk].id.nonce < m0.call_nonce);
                    }
                }
                assert forall|p: int, q: int|
                    0 <= p < q < m1.pending_calls@.len() implies (
                #[trigger] m1.pending_calls@[p]).id.nonce < (
                #[trigger] m1.pending_calls@[q]).id.nonce by {
                    assert(m1.pending_calls@[p].id == m0.pending_calls@[p].id);
                    assert(m1.pending_calls@[q].id == m0.pending_calls@[q].id);
                    assert(m0.pending_calls@[p].id.nonce < m0.pending_calls@[q].id.nonce);
                }
                assert(m1.wf());
                assert(self.msa_bounded(m1)) by {
                    assert forall|t: int|
                        0 <= t < m1.pending_calls@.len() implies (
                    #[trigger] m1.pending_calls@[t]).call@.len() <= self.max_call_size by {
                        assert(m1.pending_calls@[t].call@ == m0.pending_calls@[t].call@);
                    }
                }
                assert forall|p: int, q: int|
                    0 <= p < q < self.accounts@.len() implies (
                #[trigger] self.accounts@[p]).address != (
                #[trigger] self.accounts@[q]).address by {
                    assert(pre.accounts@[p].address != pre.accounts@[q].address);
                }
                assert forall|i: int|
                    0 <= i < self.accounts@.len() implies (#[trigger] self.accounts@[i]).msa.wf()
                    && self.msa_bounded(self.accounts@[i].msa) by {
                    if i != idx as int {
                        assert(self.accounts@[i] == pre.accounts@[i]);
                        assert(pre.accounts@[i].msa.wf());
                        assert(pre.msa_bounded(pre.accounts@[i].msa));
                    }
                }
                lemma_entries_map_index(self.accounts@, idx as int);
            }
            Ok(ApprovalOutcome::Pending)
        }
    }

    /// Withdraws the caller's approval from the pending action `call_id`.
    /// A caller who never approved it is a no-op success; nothing is ever
    /// executed here.
    pub fn remove_approval(&mut self, caller: u64, address: u64, call_id: CallId) -> (r: Result<
        (),
        MultiSigError,
    >)
        requires
            old(self).wf(),
        ensures
            final(self).wf(),
            remove_approval_post(*old(self), *final(self), caller, address, call_id, r),
    {
        let idx = match self.find_account_index(address) {
            Option::None => {
                return Err(MultiSigError::AccountNotFound);
            },
            Option::Some(i) => i,
        };
        let entry_ref = &self.accounts[idx];
        if !vec_contains(&entry_ref.msa.signatories, caller) {
            return Err(MultiSigError::AccountNotSignatory);
        }
        let k = match find_call_index(&entry_ref.msa.pending_calls, call_id) {
            Option::None => {
                return Err(MultiSigError::CallNotFound);
            },
            Option::Some(k) => k,
        };
        proof {
            assert(self.account(address).has_call(call_id)) by {
                assert(self.account(address).pending_calls@[k as int].id == call_id);
            }
            lemma_call_index_unique(self.account(address), call_id);
        }
        let c_ref = &entry_ref.msa.pending_calls[k];
        let j = match find_value_index(&c_ref.approvals, caller) {
            Option::None => {
                return Ok(());
            },
            Option::Some(j) => j,
        };
        let ghost pre = *self;
        let ghost m0 = pre.account(address);
        let mut entry = self.accounts.remove(idx);
        let mut c = entry.msa.pending_calls.remove(k);
        c.approvals.remove(j);
        entry.msa.pending_calls.insert(k, c);
        let ghost entry_final = entry;
        self.accounts.insert(idx, entry);
        proof {
            let kk = k as int;
            let jj = j as int;
            let m1 = entry_final.msa;
            let c0 = m0.pending_calls@[kk];
            let c1 = m1.pending_calls@[kk];
            let a0 = c0.approvals@;
            assert(self.accounts@ =~= pre.accounts@.update(idx as int, entry_final));
            assert(entry_final == (MsaEntry {
                address: pre.accounts@[idx as int].address,
                msa: m1,
            }));
            lemma_entries_map_update(pre.accounts@, idx as int, m1);
            assert(m1.pending_calls@ =~= m0.pending_calls@.update(kk, c1));
            assert(a0.contains(caller)) by {
                assert(a0[jj] == caller);
            }
            assert(jj == a0.index_of(caller)) by {
                let io = a0.index_of(caller);
                assert(a0[io] == caller);
                assert(a0.no_duplicates());
            }
            assert(c1.approvals@ == a0.remove(jj));
            a0.remove_ensures(jj);
            assert forall|t: int|
                0 <= t < m1.pending_calls@.len() implies (#[trigger] m1.pending_calls@[t]).wf(
                m1.signatories@,
            ) && m1.pending_calls@[t].id.nonce < m1.call_nonce by {
                if t != kk {
                    assert(m1.pending_calls@[t] == m0.pending_calls@[t]);
                    assert(m0.pending_calls@[t].wf(m0.signatories@));
                    assert(m0.pending_calls@[t].id.nonce < m0.call_nonce);
                } else {
                    assert(c0.wf(m0.signatories@));
                    assert(c1.approvals@.no_duplicates()) by {
                        assert forall|p: int, q: int|
                            0 <= p < q < c1.approvals@.len() implies c1.approvals@[p]
                            != c1.approvals@[q] by {
                            let p0: int = if p < jj {
                                p
                            } else {
                                p + 1
                            };
                            let q0: int = if q < jj {
                                q
                            } else {
                                q + 1
                            };
                            assert(c1.approvals@[p] == a0[p0]);
                            assert(c1.approvals@[q] == a0[q0]);
                        }
                    }
                    assert forall|x: u64| c1.approvals@.contains(x) implies
                        m1.signatories@.contains(x) by {
                        let w = choose|w: int|
                            0 <= w < c1.approvals@.len() && c1.approvals@[w] == x;
                        let w0: int = if w < jj {
                            w
                        } else {
                            w + 1
                        };
                        assert(a0[w0] == x);
                        assert(a0.contains(x));
                    }
                    assert(m0.pending_calls@[kk].id.nonce < m0.call_nonce);
                }
            }
            assert forall|p: int, q: int|
                0 <= p < q < m1.pending_calls@.len() implies (
            #[trigger] m1.pending_calls@[p]).id.nonce < (
            #[trigger] m1.pending_calls@[q]).id.nonce by {
                assert(m1.pending_calls@[p].id == m0.pending_calls@[p].id);
                assert(m1.pending_calls@[q].id == m0.pending_calls@[q].id);
                assert(m0.pending_calls@[p].id.nonce < m0.pending_calls@[q].id.nonce);
            }
            assert(m1.wf());
            assert(self.msa_bounded(m1)) by {
                assert forall|t: int|
                    0 <= t < m1.pending_calls@.len() implies (
                #[trigger] m1.pending_calls@[t]).call@.len() <= self.max_call_size by {
                    assert(m1.pending_calls@[t].call@ == m0.pending_calls@[t].call@);
                }
            }
            assert forall|p: int, q: int|
                0 <= p < q < self.accounts@.len() implies (#[trigger] self.accounts@[p]).address
                != (#[trigger] self.accounts@[q]).address by {
                assert(pre.accounts@[p].address != pre.accounts@[q].address);
            }
            assert forall|i: int|
                0 <= i < self.accounts@.len() implies (#[trigger] self.accounts@[i]).msa.wf()
                && self.msa_bounded(self.accounts@[i].msa) by {
                if i != idx as int {
                    assert(self.accounts@[i] == pre.accounts@[i]);
                    assert(pre.accounts@[i].msa.wf());
                    assert(pre.msa_bounded(pre.accounts@[i].msa));
                }
            }
            lemma_entries_map_index(self.accounts@, idx as int);
        }
        Ok(())
    }

    /// Sets the account's approval threshold to `new_min`, which must lie
    /// within `[2, |signatories|]`.  Only an author may do this.  Pending
    /// actions and their approvals are left untouched: the new threshold is
    /// consulted by the next approval on each action, not retroactively.
    pub fn adjust_min_approvals(&mut self, caller: u64, address: u64, new_min: u32) -> (r: Result<
        (),
        MultiSigError,
    >)
        requires
            old(self).wf(),
        ensures
            final(self).wf(),
            adjust_min_approvals_post(*old(self), *final(self), caller, address, new_min, r),
    {
        let idx = match self.find_account_index(address) {
            Option::None => {
                return Err(MultiSigError::AccountNotFound);
            },
            Option::Some(i) => i,
        };
        let entry_ref = &self.accounts[idx];
        if !vec_contains(&entry_ref.msa.authors, caller) {
            return Err(MultiSigError::AccountNotAuthor);
        }
        if new_min < 2 || new_min as usize > entry_ref.msa.signatories.len() {
            return Err(MultiSigError::MinApprovalOutOfRange);
        }
        let ghost pre = *self;
        let ghost m0 = pre.account(address);
        let mut entry = self.accounts.remove(idx);
        entry.msa.minimum_signatories = new_min;
        let ghost entry_final = entry;
        self.accounts.insert(idx, entry);
        proof {
            let m1 = entry_final.msa;
            assert(self.accounts@ =~= pre.accounts@.update(idx as int, entry_final));
            assert(entry_final == (MsaEntry {
                address: pre.accounts@[idx as int].address,
                msa: m1,
            }));
            lemma_entries_map_update(pre.accounts@, idx as int, m1);
            assert(m1.wf()) by {
                assert forall|t: int|
                    0 <= t < m1.pending_calls@.len() implies (#[trigger] m1.pending_calls@[t]).wf(
                    m1.signatories@,
                ) && m1.pending_calls@[t].id.nonce < m1.call_nonce by {
                    assert(m0.pending_calls@[t].wf(m0.signatories@));
                    assert(m0.pending_calls@[t].id.nonce < m0.call_nonce);
                }
            }
            assert(self.msa_bounded(m1)) by {
                assert forall|t: int|
                    0 <= t < m1.pending_calls@.len() implies (
                #[trigger] m1.pending_calls@[t]).call@.len() <= self.max_call_size by {
                    assert(m1.pending_calls@[t] == m0.pending_calls@[t]);
                }
            }
            assert forall|p: int, q: int|
                0 <= p < q < self.accounts@.len() implies (#[trigger] self.accounts@[p]).address
                != (#[trigger] self.accounts@[q]).address by {
                assert(pre.accounts@[p].address != pre.accounts@[q].address);
            }
            assert forall|i: int|
                0 <= i < self.accounts@.len() implies (#[trigger] self.accounts@[i]).msa.wf()
                && self.msa_bounded(self.accounts@[i].msa) by {
                if i != idx as int {
                    assert(self.accounts@[i] == pre.accounts@[i]);
                    assert(pre.accounts@[i].msa.wf());
                    assert(pre.msa_bounded(pre.accounts@[i].msa));
                }
            }
            lemma_entries_map_index(self.accounts@, idx as int);
        }
        Ok(())
    }

    /// Deletes the pending action `call_id` outright, whatever approvals it
    /// has gathered.  Only an author may do this.
    pub fn remove_call(&mut self, caller: u64, address: u64, call_id: CallId) -> (r: Result<
        (),
        MultiSigError,
    >)
        requires
            old(self).wf(),
        ensures
            final(self).wf(),
            remove_call_post(*old(self), *final(self), caller, address, call_id, r),
    {
        let idx = match self.find_account_index(address) {
            Option::None => {
                return Err(MultiSigError::AccountNotFound);
            },
            Option::Some(i) => i,
        };
        let entry_ref = &self.accounts[idx];
        if !vec_contains(&entry_ref.msa.authors, caller) {
            return Err(MultiSigError::AccountNotAuthor);
        }
        let k = match find_call_index(&entry_ref.msa.pending_calls, call_id) {
            Option::None => {
                return Err(MultiSigError::CallNotFound);
            },
            Option::Some(k) => k,
        };
        proof {
            assert(self.account(address).has_call(call_id)) by {
                assert(self.account(address).pending_calls@[k as int].id == call_id);
            }
            lemma_call_index_unique(self.account(address), call_id);
        }
        let ghost pre = *self;
        let ghost m0 = pre.account(address);
        let mut entry = self.accounts.remove(idx);
        let _removed = entry.msa.pending_calls.remove(k);
        let ghost entry_final = entry;
        self.accounts.insert(idx, entry);
        proof {
            let kk = k as int;
            let m1 = entry_final.msa;
            assert(self.accounts@ =~= pre.accounts@.update(idx as int, entry_final));
            assert(entry_final == (MsaEntry {
                address: pre.accounts@[idx as int].address,
                msa: m1,
            }));
            lemma_entries_map_update(pre.accounts@, idx as int, m1);
            m0.pending_calls@.remove_ensures(kk);
            assert(m1.pending_calls@ =~= m0.pending_calls@.remove(kk));
            assert forall|t: int|
                0 <= t < m1.pending_calls@.len() implies (#[trigger] m1.pending_calls@[t]).wf(
                m1.signatories@,
            ) && m1.pending_calls@[t].id.nonce < m1.call_nonce by {
                if t < kk {
                    assert(m1.pending_calls@[t] == m0.pending_calls@[t]);
                    assert(m0.pending_calls@[t].wf(m0.signatories@));
                    assert(m0.pending_calls@[t].id.nonce < m0.call_nonce);
                } else {
                    assert(m1.pending_calls@[t] == m0.pending_calls@[t + 1]);
                    assert(m0.pending_calls@[t + 1].wf(m0.signatories@));
                    assert(m0.pending_calls@[t + 1].id.nonce < m0.call_nonce);
                }
            }
            assert forall|p: int, q: int|
                0 <= p < q < m1.pending_calls@.len() implies (
            #[trigger] m1.pending_calls@[p]).id.nonce < (
            #[trigger] m1.pending_calls@[q]).id.nonce by {
                let p0: int = if p < kk {
                    p
                } else {
                    p + 1
                };
                let q0: int = if q < kk {
                    q
                } else {
                    q + 1
                };
                assert(m1.pending_calls@[p] == m0.pending_calls@[p0]);
                assert(m1.pending_calls@[q] == m0.pending_calls@[q0]);
                assert(m0.pending_calls@[p0].id.nonce < m0.pending_calls@[q0].id.nonce);
            }
            assert(m1.wf());
            assert(self.msa_bounded(m1)) by {
                assert forall|t: int|
                    0 <= t < m1.pending_calls@.len() implies (
                #[trigger] m1.pending_calls@[t]).call@.len() <= self.max_call_size by {
                    if t < kk {
                        assert(m1.pending_calls@[t] == m0.pending_calls@[t]);
                    } else {
                        assert(m1.pending_calls@[t] == m0.pending_calls@[t + 1]);
                    }
                }
            }
            assert forall|p: int, q: int|
                0 <= p < q < self.accounts@.len() implies (#[trigger] self.accounts@[p]).address
                != (#[trigger] self.accounts@[q]).address by {
                assert(pre.accounts@[p].address != pre.accounts@[q].address);
            }
            assert forall|i: int|
                0 <= i < self.accounts@.len() implies (#[trigger] self.accounts@[i]).msa.wf()
                && self.msa_bounded(self.accounts@[i].msa) by {
                if i != idx as int {
                    assert(self.accounts@[i] == pre.accounts@[i]);
                    assert(pre.accounts@[i].msa.wf());
                    assert(pre.msa_bounded(pre.accounts@[i].msa));
                }
            }
            lemma_entries_map_index(self.accounts@, idx as int);
        }
        Ok(())
    }

    /// The record stored under `address`, for inspection.
    pub fn get_account(&self, address: u64) -> (r: Option<&MultiSigAccount>)
        requires
            self.wf(),
        ensures
            match r {
                Some(m) => self.has_account(address) && *m == self.account(address),
                None => !self.has_account(address),
            },
    {
        match self.find_account_index(address) {
            Some(i) => Some(&self.accounts[i].msa),
            None => None,
        }
    }
}

} // verus!
