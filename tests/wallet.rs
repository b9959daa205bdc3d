use multisig::types::{Dispatch, MultiSigAction, MultiSigRequestInput, WalletError};
use multisig::wallet::MultisigWallet;

fn s(x: &str) -> String {
    x.to_string()
}

fn wallet(members: &[&str], t: u32) -> MultisigWallet {
    MultisigWallet::new(members.iter().map(|m| s(m)).collect(), t).unwrap()
}

fn input(actions: Vec<MultiSigAction>, description: &str) -> MultiSigRequestInput {
    MultiSigRequestInput { receiver_id: s("bob"), actions, description: s(description) }
}

#[test]
fn new_rejects_bad_input() {
    assert_eq!(MultisigWallet::new(vec![], 1).err(), Some(WalletError::NoMembers));
    assert_eq!(MultisigWallet::new(vec![s("a")], 0).err(), Some(WalletError::InvalidThreshold));
    assert_eq!(MultisigWallet::new(vec![s("a")], 2).err(), Some(WalletError::InvalidThreshold));
    assert_eq!(
        MultisigWallet::new(vec![s("a"), s("a")], 1).err(),
        Some(WalletError::DuplicateMember)
    );
}

#[test]
fn non_member_cannot_propose() {
    let mut w = wallet(&["a", "b"], 2);
    let r = w.add_request(&s("z"), input(vec![], "x"));
    assert_eq!(r.err(), Some(WalletError::Unauthorized));
    assert!(w.get_requests().is_empty());
    assert_eq!(w.get_request_nonce(), 0);
}

#[test]
fn threshold_one_executes_at_once() {
    let mut w = wallet(&["a"], 1);
    let (id, d) = w.add_request(&s("a"), input(vec![MultiSigAction::Transfer { amount: 5 }], "pay")).unwrap();
    assert_eq!(id, 0);
    assert_eq!(d, vec![Dispatch::Transfer { receiver_id: s("bob"), amount: 5 }]);
    assert!(w.get_requests().is_empty());
    assert!(w.get_request(0).is_none());
}

#[test]
fn double_confirm_and_revoke_round_trip() {
    let mut w = wallet(&["a", "b", "c"], 3);
    let (id, _) = w.add_request(&s("a"), input(vec![], "")).unwrap();
    assert_eq!(w.confirm(&s("a"), id).err(), Some(WalletError::AlreadyConfirmed));
    assert_eq!(w.get_request(id).unwrap().confirmations, vec![s("a")]);
    assert_eq!(w.revoke_confirmation(&s("b"), id).err(), Some(WalletError::NotConfirmed));
    w.confirm(&s("b"), id).unwrap();
    let before = w.get_request(id).unwrap().confirmations;
    w.revoke_confirmation(&s("b"), id).unwrap();
    assert_eq!(w.get_request(id).unwrap().confirmations, vec![s("a")]);
    w.confirm(&s("b"), id).unwrap();
    assert_eq!(w.get_request(id).unwrap().confirmations, before);
    assert_eq!(w.confirm(&s("b"), 9).err(), Some(WalletError::NotFound));
}

#[test]
fn only_requester_deletes() {
    let mut w = wallet(&["a", "b", "c"], 3);
    let (id, _) = w.add_request(&s("a"), input(vec![], "x")).unwrap();
    w.confirm(&s("b"), id).unwrap();
    assert_eq!(w.delete_request(&s("b"), id).err(), Some(WalletError::Forbidden));
    assert_eq!(w.delete_request(&s("z"), id).err(), Some(WalletError::Unauthorized));
    w.delete_request(&s("a"), id).unwrap();
    assert!(w.get_request(id).is_none());
    assert_eq!(w.delete_request(&s("a"), id).err(), Some(WalletError::NotFound));
    let (id2, _) = w.add_request(&s("a"), input(vec![], "y")).unwrap();
    assert_eq!(id2, 1);
}

#[test]
fn transfer_runs_after_second_confirmation() {
    let mut w = wallet(&["a", "b", "c"], 2);
    let (id, d) = w.add_request(&s("a"), input(vec![MultiSigAction::Transfer { amount: 7 }], "t")).unwrap();
    assert!(d.is_empty());
    assert_eq!(w.get_requests().len(), 1);
    let d = w.confirm(&s("b"), id).unwrap();
    assert_eq!(d, vec![Dispatch::Transfer { receiver_id: s("bob"), amount: 7 }]);
    assert!(w.get_requests().is_empty());
}

#[test]
fn remove_member_that_breaks_quorum_is_skipped() {
    let mut w = wallet(&["a", "b"], 2);
    let (id, _) = w.add_request(&s("a"), input(vec![MultiSigAction::RemoveMember { member: s("b") }], "r")).unwrap();
    w.confirm(&s("b"), id).unwrap();
    assert_eq!(w.get_members(), vec![s("a"), s("b")]);
    assert_eq!(w.get_num_confirmations(), 2);
    assert!(w.get_request(id).is_none());
}

#[test]
fn actions_apply_in_order() {
    let mut w = wallet(&["a", "b"], 1);
    let acts = vec![
        MultiSigAction::AddMember { member: s("c") },
        MultiSigAction::ChangeNumConfirmations { num_confirmations: 3 },
        MultiSigAction::ChangeNumConfirmations { num_confirmations: 4 },
        MultiSigAction::RemoveMember { member: s("a") },
        MultiSigAction::FunctionCall { method_name: s("m"), args: s("{}"), deposit: 1, gas: 2 },
    ];
    let (_, d) = w.add_request(&s("a"), input(acts, "")).unwrap();
    assert_eq!(w.get_members(), vec![s("a"), s("b"), s("c")]);
    assert_eq!(w.get_num_confirmations(), 3);
    assert_eq!(d.len(), 1);
    let info = w.get_wallet_info();
    assert_eq!(info.request_nonce, 1);
    assert_eq!(info.active_requests, 0);
}

#[test]
fn empty_request_is_accepted_and_viewed() {
    let mut w = wallet(&["a", "b"], 2);
    let (id, _) = w.add_request(&s("a"), input(vec![], "")).unwrap();
    let v = w.get_request(id).unwrap();
    assert_eq!(v.requester, s("a"));
    assert_eq!(v.receiver_id, s("bob"));
    assert_eq!(v.confirmations, vec![s("a")]);
    assert_eq!(v.required, 2);
    assert!(v.actions.is_empty());
}

#[test]
fn other_requests_are_untouched() {
    let mut w = wallet(&["a", "b", "c"], 3);
    let (first, _) = w.add_request(&s("a"), input(vec![], "one")).unwrap();
    let (second, _) = w.add_request(&s("b"), input(vec![], "two")).unwrap();
    w.confirm(&s("c"), first).unwrap();
    w.revoke_confirmation(&s("c"), first).unwrap();
    w.delete_request(&s("a"), first).unwrap();
    let v = w.get_request(second).unwrap();
    assert_eq!(v.description, s("two"));
    assert_eq!(v.confirmations, vec![s("b")]);
    assert_eq!(w.get_requests().len(), 1);
}
