use mev_bootee::ExecutionState;
use mev_bootee::Transaction;

fn txn(payload: &str) -> Transaction {
    Transaction::new(String::from(payload), payload.len() as u64)
}

fn payloads(txns: &Vec<Transaction>) -> Vec<String> {
    txns.iter().map(|t| t.payload.clone()).collect()
}

#[test]
fn checkpoint_roundtrip_restores_count_and_history() {
    let mut state = ExecutionState::new();
    assert!(state.apply(&vec![txn("T1")]));
    let before = state.checkpoint();
    let history_before = payloads(&state.applied_history());
    assert!(state.apply(&vec![txn("T2"), txn("T3")]));
    assert!(state.apply(&vec![txn("T4")]));
    assert_eq!(state.applied_count(), 4);
    state.revert(&before);
    assert_eq!(state.applied_count(), 1);
    assert_eq!(payloads(&state.applied_history()), history_before);
}

#[test]
fn revert_at_checkpoint_is_a_no_op() {
    let mut state = ExecutionState::new();
    assert!(state.apply(&vec![txn("T1")]));
    let c = state.checkpoint();
    state.revert(&c);
    assert_eq!(state.applied_count(), 1);
    assert_eq!(payloads(&state.applied_history()), vec!["T1"]);
}

#[test]
fn conflicting_application_fails_and_leaves_state_unchanged() {
    let mut state =
        ExecutionState::with_conflicts(vec![(String::from("T1"), String::from("T2"))]);
    assert!(state.apply(&vec![txn("T1")]));
    assert!(!state.apply(&vec![txn("T2")]));
    assert_eq!(state.applied_count(), 1);
    assert_eq!(payloads(&state.applied_history()), vec!["T1"]);
    // The conflict also fails inside a single application.
    let mut fresh =
        ExecutionState::with_conflicts(vec![(String::from("T1"), String::from("T2"))]);
    assert!(!fresh.apply(&vec![txn("T1"), txn("T2")]));
    assert_eq!(fresh.applied_count(), 0);
}

#[test]
fn conflict_relation_is_symmetric() {
    let mut state =
        ExecutionState::with_conflicts(vec![(String::from("T1"), String::from("T2"))]);
    assert!(state.apply(&vec![txn("T2")]));
    assert!(!state.apply(&vec![txn("T1")]));
}

#[test]
fn application_is_all_or_nothing() {
    let mut state =
        ExecutionState::with_conflicts(vec![(String::from("T2"), String::from("T3"))]);
    assert!(!state.apply(&vec![txn("T1"), txn("T2"), txn("T3")]));
    assert_eq!(state.applied_count(), 0);
    assert!(state.apply(&vec![txn("T1"), txn("T2")]));
    assert_eq!(payloads(&state.applied_history()), vec!["T1", "T2"]);
}
