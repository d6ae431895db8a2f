use d9_multi_sig::registry::Registry;
use d9_multi_sig::types::ApprovalOutcome;
use d9_multi_sig::types::CallExecutor;
use d9_multi_sig::types::CallId;
use d9_multi_sig::types::MultiSigError;

struct Recorder {
    executed: Vec<Vec<u8>>,
    result: bool,
}

impl Recorder {
    fn new() -> Recorder {
        Recorder { executed: Vec::new(), result: true }
    }
}

impl CallExecutor for Recorder {
    fn execute(&mut self, call: &Vec<u8>) -> bool {
        self.executed.push(call.clone());
        self.result
    }
}

fn new_registry() -> Registry {
    // max signatories 5, max pending calls 10, max accounts per signatory 3,
    // max call size 100 bytes
    Registry::new(5, 10, 3, 100)
}

fn payload(now: u64) -> Vec<u8> {
    now.to_le_bytes().to_vec()
}

fn call_id_from_bytes(bytes: [u8; 32]) -> CallId {
    let word = |off: usize| {
        let mut w = [0u8; 8];
        w.copy_from_slice(&bytes[off..off + 8]);
        u64::from_le_bytes(w)
    };
    CallId { nonce: word(0), source: word(8), payload: word(16), length: word(24) }
}

#[test]
fn create_multi_sig_account_works() {
    let mut reg = new_registry();
    let signatories = vec![1, 2, 3];
    let authors = Some(vec![1]);
    let min_approvals = 2;

    let result = reg.create_multi_sig_account(signatories, authors, min_approvals);

    assert!(result.is_ok());
    let address = result.unwrap();
    assert!(reg.get_account(address).is_some(), "Expected at least one MSA stored");
}

#[test]
fn create_multi_sig_account_fails_for_too_few_signers() {
    let mut reg = new_registry();
    let signatories = vec![1];
    let min_approvals = 1;

    let result = reg.create_multi_sig_account(signatories, None, min_approvals);

    assert_eq!(result, Err(MultiSigError::SignatoriesTooShort));
}

#[test]
fn author_a_call_works() {
    let mut reg = new_registry();
    let address = reg.create_multi_sig_account(vec![1, 2, 3], None, 2).unwrap();

    let call = payload(9999);
    let result = reg.author_a_call(1, address, call);

    assert!(result.is_ok());
    let updated_msa = reg.get_account(address).unwrap();
    assert_eq!(updated_msa.pending_calls.len(), 1);
}

#[test]
fn add_approval_works_and_triggers_execute_call() {
    let mut reg = new_registry();
    let address = reg.create_multi_sig_account(vec![1, 2, 3], None, 2).unwrap();

    let call = payload(12345);
    reg.author_a_call(1, address, call).unwrap();

    let msa_data = reg.get_account(address).unwrap();
    assert_eq!(msa_data.pending_calls.len(), 1);
    let call_id = msa_data.pending_calls[0].id;

    // authoring records no approval of its own, so with a threshold of 2
    // the approvals of accounts 2 and 1 together trigger execution
    let mut executor = Recorder::new();
    let result = reg.add_approval(2, address, call_id, &mut executor);
    assert!(result.is_ok());
    let result = reg.add_approval(1, address, call_id, &mut executor);
    assert!(result.is_ok());

    let msa_data = reg.get_account(address).unwrap();
    assert_eq!(msa_data.pending_calls.len(), 0);
}

#[test]
fn remove_approval_works() {
    let mut reg = new_registry();
    let created = reg.create_multi_sig_account(vec![1, 2, 3], None, 2);
    assert!(created.is_ok());
    let address = created.unwrap();

    let call = payload(1000);
    assert!(reg.author_a_call(1, address, call).is_ok());

    let call_id = reg.get_account(address).unwrap().pending_calls[0].id;
    let mut executor = Recorder::new();
    assert!(reg.add_approval(2, address, call_id, &mut executor).is_ok());

    assert!(reg.remove_approval(2, address, call_id).is_ok());

    let updated_msa = reg.get_account(address).unwrap();
    assert_eq!(updated_msa.pending_calls.len(), 1, "Call should remain in pending_calls");
    assert_eq!(
        updated_msa.pending_calls[0].approvals.len(),
        0,
        "Account #2's approval should be removed"
    );
}

#[test]
fn remove_approval_fails_if_not_signatory() {
    let mut reg = new_registry();
    let created = reg.create_multi_sig_account(vec![1, 2, 3], None, 2);
    assert!(created.is_ok());
    let address = created.unwrap();

    let call = payload(1000);
    assert!(reg.author_a_call(1, address, call).is_ok());

    let call_id = reg.get_account(address).unwrap().pending_calls[0].id;
    let result = reg.remove_approval(4, address, call_id);
    assert_eq!(result, Err(MultiSigError::AccountNotSignatory));
}

#[test]
fn remove_approval_fails_if_call_not_found() {
    let mut reg = new_registry();
    let created = reg.create_multi_sig_account(vec![1, 2, 3], None, 2);
    assert!(created.is_ok());
    let address = created.unwrap();

    // this call id does not exist
    let result = reg.remove_approval(2, address, call_id_from_bytes([99u8; 32]));
    assert_eq!(result, Err(MultiSigError::CallNotFound));
}

#[test]
fn adjust_min_approvals_works() {
    let mut reg = new_registry();
    let created = reg.create_multi_sig_account(vec![1, 2, 3], None, 2);
    assert!(created.is_ok());
    let address = created.unwrap();

    assert!(reg.adjust_min_approvals(1, address, 3).is_ok());

    let msa_data = reg.get_account(address).unwrap();
    assert_eq!(msa_data.minimum_signatories, 3, "Minimum signatories should now be 3");
}

#[test]
fn adjust_min_approvals_fails_if_not_author() {
    let mut reg = new_registry();
    let created = reg.create_multi_sig_account(vec![1, 2, 3], Some(vec![1]), 2);
    assert!(created.is_ok());
    let address = created.unwrap();

    // account 2 is a signatory but not an author
    let result = reg.adjust_min_approvals(2, address, 2);
    assert_eq!(result, Err(MultiSigError::AccountNotAuthor));
}

#[test]
fn adjust_min_approvals_fails_for_invalid_range() {
    let mut reg = new_registry();
    let created = reg.create_multi_sig_account(vec![1, 2, 3], None, 2);
    assert!(created.is_ok());
    let address = created.unwrap();
    assert_eq!(reg.get_account(address).unwrap().signatories.len(), 3);

    let result_too_low = reg.adjust_min_approvals(1, address, 1);
    assert_eq!(result_too_low, Err(MultiSigError::MinApprovalOutOfRange));

    let result_too_high = reg.adjust_min_approvals(1, address, 4);
    assert_eq!(result_too_high, Err(MultiSigError::MinApprovalOutOfRange));
}

#[test]
fn remove_call_works() {
    let mut reg = new_registry();
    let created = reg.create_multi_sig_account(vec![1, 2, 3], None, 2);
    assert!(created.is_ok());
    let address = created.unwrap();

    let call1 = payload(1234);
    let call2 = payload(5678);
    assert!(reg.author_a_call(1, address, call1).is_ok());
    assert!(reg.author_a_call(1, address, call2).is_ok());

    let first_call_id = reg.get_account(address).unwrap().pending_calls[0].id;
    assert!(reg.remove_call(1, address, first_call_id).is_ok());

    let updated_msa = reg.get_account(address).unwrap();
    assert_eq!(updated_msa.pending_calls.len(), 1, "Should have 1 call left");
}

#[test]
fn remove_call_fails_if_not_author() {
    let mut reg = new_registry();
    let created = reg.create_multi_sig_account(vec![1, 2, 3], Some(vec![1]), 2);
    assert!(created.is_ok());
    let address = created.unwrap();

    let call = payload(1111);
    assert!(reg.author_a_call(1, address, call).is_ok());

    let call_id = reg.get_account(address).unwrap().pending_calls[0].id;
    let result = reg.remove_call(2, address, call_id);
    assert_eq!(result, Err(MultiSigError::AccountNotAuthor));
}

#[test]
fn remove_call_fails_if_not_found() {
    let mut reg = new_registry();
    let created = reg.create_multi_sig_account(vec![1, 2, 3], None, 2);
    assert!(created.is_ok());
    let address = created.unwrap();

    let fake_call_id = call_id_from_bytes([42u8; 32]);
    let result = reg.remove_call(1, address, fake_call_id);
    assert_eq!(result, Err(MultiSigError::CallNotFound));
}

#[test]
fn executed_call_reaches_the_executor() {
    let mut reg = new_registry();
    let address = reg.create_multi_sig_account(vec![1, 2, 3], None, 2).unwrap();
    let call = payload(12345);
    reg.author_a_call(1, address, call.clone()).unwrap();
    let call_id = reg.get_account(address).unwrap().pending_calls[0].id;

    let mut executor = Recorder::new();
    assert_eq!(
        reg.add_approval(1, address, call_id, &mut executor),
        Ok(ApprovalOutcome::Pending)
    );
    assert_eq!(
        reg.add_approval(2, address, call_id, &mut executor),
        Ok(ApprovalOutcome::Executed { succeeded: true })
    );
    // the executor saw exactly the authored payload, exactly once
    assert_eq!(executor.executed, vec![call]);
}

#[test]
fn failed_execution_still_removes_the_call() {
    let mut reg = new_registry();
    let address = reg.create_multi_sig_account(vec![1, 2, 3], None, 2).unwrap();
    reg.author_a_call(1, address, payload(7)).unwrap();
    let call_id = reg.get_account(address).unwrap().pending_calls[0].id;

    let mut executor = Recorder::new();
    executor.result = false;
    let mut ok = Recorder::new();
    assert_eq!(reg.add_approval(1, address, call_id, &mut ok), Ok(ApprovalOutcome::Pending));
    assert_eq!(
        reg.add_approval(2, address, call_id, &mut executor),
        Ok(ApprovalOutcome::Executed { succeeded: false })
    );
    // no retry, no re-queue: the action is gone for good
    assert_eq!(reg.get_account(address).unwrap().pending_calls.len(), 0);
    assert_eq!(
        reg.add_approval(3, address, call_id, &mut executor),
        Err(MultiSigError::CallNotFound)
    );
    assert_eq!(executor.executed.len(), 1);
}
