use d9_multi_sig::registry::Registry;
use d9_multi_sig::types::ApprovalOutcome;
use d9_multi_sig::types::CallExecutor;
use d9_multi_sig::types::MultiSigError;

struct CountingExecutor {
    runs: usize,
}

impl CallExecutor for CountingExecutor {
    fn execute(&mut self, _call: &Vec<u8>) -> bool {
        self.runs += 1;
        true
    }
}

fn small_registry() -> Registry {
    Registry::new(5, 10, 3, 100)
}

#[test]
fn too_few_signatories_leaves_registry_empty() {
    let mut reg = small_registry();
    assert_eq!(
        reg.create_multi_sig_account(vec![], None, 2),
        Err(MultiSigError::SignatoriesTooShort)
    );
    assert_eq!(
        reg.create_multi_sig_account(vec![7], None, 2),
        Err(MultiSigError::SignatoriesTooShort)
    );
    // a list of duplicates is a set of one
    assert_eq!(
        reg.create_multi_sig_account(vec![7, 7, 7], None, 2),
        Err(MultiSigError::SignatoriesTooShort)
    );
    assert_eq!(reg.accounts.len(), 0);
}

#[test]
fn out_of_range_threshold_leaves_registry_empty() {
    let mut reg = small_registry();
    assert_eq!(
        reg.create_multi_sig_account(vec![1, 2, 3], None, 1),
        Err(MultiSigError::MinApprovalOutOfRange)
    );
    assert_eq!(
        reg.create_multi_sig_account(vec![1, 2, 3], None, 4),
        Err(MultiSigError::MinApprovalOutOfRange)
    );
    assert_eq!(reg.accounts.len(), 0);
}

#[test]
fn too_many_signatories_rejected() {
    let mut reg = small_registry();
    assert_eq!(
        reg.create_multi_sig_account(vec![1, 2, 3, 4, 5, 6], None, 2),
        Err(MultiSigError::SignatoriesCardinalityExceeded)
    );
    assert_eq!(reg.accounts.len(), 0);
}

#[test]
fn author_outside_signatories_rejected() {
    let mut reg = small_registry();
    assert_eq!(
        reg.create_multi_sig_account(vec![1, 2, 3], Some(vec![4]), 2),
        Err(MultiSigError::InvalidAuthorSet)
    );
    assert_eq!(reg.accounts.len(), 0);
}

#[test]
fn per_account_limit_enforced() {
    let mut reg = small_registry();
    // signatory 1 may take part in at most 3 accounts
    assert!(reg.create_multi_sig_account(vec![1, 2, 3], None, 2).is_ok());
    assert!(reg.create_multi_sig_account(vec![1, 2, 3], None, 2).is_ok());
    assert!(reg.create_multi_sig_account(vec![1, 4, 5], None, 2).is_ok());
    assert_eq!(
        reg.create_multi_sig_account(vec![1, 6, 7], None, 2),
        Err(MultiSigError::PerAccountMsaLimitExceeded)
    );
    assert_eq!(reg.accounts.len(), 3);
}

#[test]
fn replayed_discriminator_collides() {
    let mut reg = small_registry();
    let address = reg.create_multi_sig_account(vec![1, 2, 3], None, 2).unwrap();
    // winding the creation counter back replays the same derivation
    reg.next_seq = 0;
    assert_eq!(
        reg.create_multi_sig_account(vec![1, 2, 3], None, 2),
        Err(MultiSigError::AddressCollision)
    );
    assert!(reg.get_account(address).is_some());
}

#[test]
fn address_derivation_ignores_order_and_duplicates() {
    let mut reg_a = small_registry();
    let mut reg_b = small_registry();
    let addr_a = reg_a.create_multi_sig_account(vec![3, 1, 2, 2, 1], None, 2).unwrap();
    let addr_b = reg_b.create_multi_sig_account(vec![1, 2, 3], None, 2).unwrap();
    assert_eq!(addr_a, addr_b);
    assert_eq!(reg_a.get_account(addr_a).unwrap().signatories, vec![1, 2, 3]);
}

#[test]
fn unknown_address_not_found() {
    let mut reg = small_registry();
    let mut executor = CountingExecutor { runs: 0 };
    assert!(reg.get_account(123).is_none());
    assert_eq!(
        reg.author_a_call(1, 123, vec![1]),
        Err(MultiSigError::AccountNotFound)
    );
    let id = reg.create_multi_sig_account(vec![1, 2, 3], None, 2).unwrap();
    reg.author_a_call(1, id, vec![1]).unwrap();
    let call_id = reg.get_account(id).unwrap().pending_calls[0].id;
    assert_eq!(
        reg.add_approval(1, 123, call_id, &mut executor),
        Err(MultiSigError::AccountNotFound)
    );
    assert_eq!(reg.remove_approval(1, 123, call_id), Err(MultiSigError::AccountNotFound));
    assert_eq!(reg.adjust_min_approvals(1, 123, 2), Err(MultiSigError::AccountNotFound));
    assert_eq!(reg.remove_call(1, 123, call_id), Err(MultiSigError::AccountNotFound));
    assert_eq!(executor.runs, 0);
}

#[test]
fn oversized_call_rejected() {
    let mut reg = small_registry();
    let address = reg.create_multi_sig_account(vec![1, 2, 3], None, 2).unwrap();
    // the configured maximum is 100 bytes
    assert!(reg.author_a_call(1, address, vec![0u8; 100]).is_ok());
    assert_eq!(
        reg.author_a_call(1, address, vec![0u8; 101]),
        Err(MultiSigError::CallSizeExceeded)
    );
    assert_eq!(reg.get_account(address).unwrap().pending_calls.len(), 1);
}

#[test]
fn full_queue_rejected() {
    let mut reg = Registry::new(5, 2, 3, 100);
    let address = reg.create_multi_sig_account(vec![1, 2, 3], None, 2).unwrap();
    assert!(reg.author_a_call(1, address, vec![1]).is_ok());
    assert!(reg.author_a_call(1, address, vec![2]).is_ok());
    assert_eq!(
        reg.author_a_call(1, address, vec![3]),
        Err(MultiSigError::PendingQueueFull)
    );
    assert_eq!(reg.get_account(address).unwrap().pending_calls.len(), 2);
}

#[test]
fn repeated_approval_is_a_no_op() {
    let mut reg = small_registry();
    let address = reg.create_multi_sig_account(vec![1, 2, 3], None, 3).unwrap();
    reg.author_a_call(1, address, vec![9]).unwrap();
    let call_id = reg.get_account(address).unwrap().pending_calls[0].id;
    let mut executor = CountingExecutor { runs: 0 };

    assert_eq!(
        reg.add_approval(2, address, call_id, &mut executor),
        Ok(ApprovalOutcome::Pending)
    );
    let once = reg.get_account(address).unwrap().pending_calls[0].approvals.clone();
    assert_eq!(
        reg.add_approval(2, address, call_id, &mut executor),
        Ok(ApprovalOutcome::Pending)
    );
    let twice = reg.get_account(address).unwrap().pending_calls[0].approvals.clone();
    assert_eq!(once, twice);
    assert_eq!(once, vec![2]);
    assert_eq!(executor.runs, 0);
}

#[test]
fn execution_happens_exactly_at_the_threshold() {
    let mut reg = small_registry();
    let address = reg.create_multi_sig_account(vec![1, 2, 3], None, 3).unwrap();
    reg.author_a_call(1, address, vec![9]).unwrap();
    let call_id = reg.get_account(address).unwrap().pending_calls[0].id;
    let mut executor = CountingExecutor { runs: 0 };

    assert_eq!(
        reg.add_approval(1, address, call_id, &mut executor),
        Ok(ApprovalOutcome::Pending)
    );
    assert_eq!(
        reg.add_approval(2, address, call_id, &mut executor),
        Ok(ApprovalOutcome::Pending)
    );
    assert_eq!(executor.runs, 0);
    assert_eq!(reg.get_account(address).unwrap().pending_calls.len(), 1);
    // the third distinct approver reaches the threshold of 3
    assert_eq!(
        reg.add_approval(3, address, call_id, &mut executor),
        Ok(ApprovalOutcome::Executed { succeeded: true })
    );
    assert_eq!(executor.runs, 1);
    assert_eq!(reg.get_account(address).unwrap().pending_calls.len(), 0);
}

#[test]
fn outsiders_and_non_authors_always_rejected() {
    let mut reg = small_registry();
    let address = reg.create_multi_sig_account(vec![1, 2, 3], Some(vec![1]), 2).unwrap();
    reg.author_a_call(1, address, vec![5]).unwrap();
    let call_id = reg.get_account(address).unwrap().pending_calls[0].id;
    let mut executor = CountingExecutor { runs: 0 };

    // 9 is no signatory
    assert_eq!(
        reg.author_a_call(9, address, vec![5]),
        Err(MultiSigError::AccountNotSignatory)
    );
    assert_eq!(
        reg.add_approval(9, address, call_id, &mut executor),
        Err(MultiSigError::AccountNotSignatory)
    );
    assert_eq!(
        reg.remove_approval(9, address, call_id),
        Err(MultiSigError::AccountNotSignatory)
    );
    // 2 is a signatory but no author
    assert_eq!(reg.adjust_min_approvals(2, address, 2), Err(MultiSigError::AccountNotAuthor));
    assert_eq!(reg.remove_call(2, address, call_id), Err(MultiSigError::AccountNotAuthor));
    assert_eq!(reg.get_account(address).unwrap().pending_calls.len(), 1);
    assert_eq!(executor.runs, 0);
}

#[test]
fn default_authors_are_all_signatories() {
    let mut reg = small_registry();
    let address = reg.create_multi_sig_account(vec![1, 2, 3], None, 2).unwrap();
    let msa = reg.get_account(address).unwrap();
    assert_eq!(msa.authors, vec![1, 2, 3]);

    reg.author_a_call(1, address, vec![8]).unwrap();
    let msa = reg.get_account(address).unwrap();
    assert_eq!(msa.pending_calls.len(), 1);
    assert_eq!(msa.pending_calls[0].approvals.len(), 0);
    let call_id = msa.pending_calls[0].id;

    let mut executor = CountingExecutor { runs: 0 };
    assert_eq!(
        reg.add_approval(2, address, call_id, &mut executor),
        Ok(ApprovalOutcome::Pending)
    );
    assert_eq!(reg.get_account(address).unwrap().pending_calls[0].approvals, vec![2]);
    assert_eq!(
        reg.add_approval(1, address, call_id, &mut executor),
        Ok(ApprovalOutcome::Executed { succeeded: true })
    );
    assert_eq!(reg.get_account(address).unwrap().pending_calls.len(), 0);
}

#[test]
fn explicit_author_may_adjust_threshold() {
    let mut reg = small_registry();
    let address = reg.create_multi_sig_account(vec![1, 2, 3], Some(vec![1]), 2).unwrap();
    assert_eq!(reg.adjust_min_approvals(2, address, 2), Err(MultiSigError::AccountNotAuthor));
    assert_eq!(reg.adjust_min_approvals(1, address, 2), Ok(()));
    assert_eq!(reg.get_account(address).unwrap().minimum_signatories, 2);
}

#[test]
fn revoking_an_absent_approval_changes_nothing() {
    let mut reg = small_registry();
    let address = reg.create_multi_sig_account(vec![1, 2, 3], None, 2).unwrap();
    reg.author_a_call(1, address, vec![4]).unwrap();
    let call_id = reg.get_account(address).unwrap().pending_calls[0].id;

    let missing = d9_multi_sig::types::CallId { nonce: 77, source: 77, payload: 77, length: 77 };
    assert_eq!(reg.remove_approval(2, address, missing), Err(MultiSigError::CallNotFound));

    let mut executor = CountingExecutor { runs: 0 };
    reg.add_approval(3, address, call_id, &mut executor).unwrap();
    // account 2 never approved: revoking is a successful no-op
    assert_eq!(reg.remove_approval(2, address, call_id), Ok(()));
    assert_eq!(reg.get_account(address).unwrap().pending_calls[0].approvals, vec![3]);
}

#[test]
fn removing_the_first_call_keeps_the_second() {
    let mut reg = small_registry();
    let address = reg.create_multi_sig_account(vec![1, 2, 3], None, 2).unwrap();
    reg.author_a_call(1, address, vec![10]).unwrap();
    reg.author_a_call(2, address, vec![20]).unwrap();
    let msa = reg.get_account(address).unwrap();
    assert_eq!(msa.pending_calls.len(), 2);
    let first = msa.pending_calls[0].id;
    let second = msa.pending_calls[1].id;

    assert_eq!(reg.remove_call(1, address, first), Ok(()));
    let msa = reg.get_account(address).unwrap();
    assert_eq!(msa.pending_calls.len(), 1);
    assert_eq!(msa.pending_calls[0].id, second);
    assert_eq!(msa.pending_calls[0].call, vec![20]);
}

#[test]
fn call_ids_in_one_account_are_distinct() {
    let mut reg = small_registry();
    let address = reg.create_multi_sig_account(vec![1, 2, 3], None, 2).unwrap();
    // identical payloads still get distinct identifiers
    reg.author_a_call(1, address, vec![6]).unwrap();
    reg.author_a_call(1, address, vec![6]).unwrap();
    let msa = reg.get_account(address).unwrap();
    assert_ne!(msa.pending_calls[0].id, msa.pending_calls[1].id);
    assert_eq!(msa.pending_calls[0].id.source, address);
    assert_eq!(msa.pending_calls[1].id.source, address);
    assert_eq!(msa.pending_calls[0].id.length, 1);
}
