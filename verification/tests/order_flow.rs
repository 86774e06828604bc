use mev_bootee::Bid;
use mev_bootee::BidKind;
use mev_bootee::Bundle;
use mev_bootee::ExecutionState;
use mev_bootee::GreedyOrderFlow;
use mev_bootee::OrderFlow;
use mev_bootee::Transaction;

fn txn(payload: &str) -> Transaction {
    Transaction::new(String::from(payload), payload.len() as u64)
}

fn bundle(value: u64, payloads: &[&str]) -> Bundle {
    Bundle {
        searcher: String::from("searcher"),
        bid: Bid { kind: BidKind::TopOfBlock, value },
        txns: payloads.iter().map(|p| txn(p)).collect(),
        estimated_tip: value,
        estimated_gas: payloads.len() as u64,
    }
}

fn payloads(txns: &Vec<Transaction>) -> Vec<String> {
    txns.iter().map(|t| t.payload.clone()).collect()
}

fn conflict(a: &str, b: &str) -> (String, String) {
    (String::from(a), String::from(b))
}

#[test]
fn test_add_bundle() {
    let order_flow = GreedyOrderFlow::new(ExecutionState::new());
    assert!(order_flow.ordered_bundle_ids.is_empty());
}

#[test]
fn ordering_stability_equal_values_keep_arrival_order() {
    let mut flow = GreedyOrderFlow::new(ExecutionState::new());
    flow.add_bundle(String::from("first50"), bundle(50, &["T1"]));
    flow.add_bundle(String::from("the100"), bundle(100, &["T2"]));
    flow.add_bundle(String::from("second50"), bundle(50, &["T3"]));
    assert_eq!(
        flow.ordered_bundle_ids,
        vec![
            String::from("the100"),
            String::from("first50"),
            String::from("second50"),
        ]
    );
}

#[test]
fn scenario_empty_ledger_keeps_whole_inclusion_list() {
    let mut flow = GreedyOrderFlow::new(ExecutionState::new());
    flow.add_inclusion_list(vec![txn("T1"), txn("T2")]);
    assert!(flow.block.is_empty());
    assert_eq!(payloads(&flow.inclusion_list), vec!["T1", "T2"]);
}

#[test]
fn scenario_two_bundles_accepted_in_value_order() {
    let mut flow = GreedyOrderFlow::new(ExecutionState::new());
    flow.add_bundle(String::from("B"), bundle(50, &["T2"]));
    flow.add_bundle(String::from("A"), bundle(100, &["T1"]));
    assert_eq!(
        flow.ordered_bundle_ids,
        vec![String::from("A"), String::from("B")]
    );
    assert_eq!(flow.block, vec![String::from("A"), String::from("B")]);
    let body = flow.get_block();
    assert_eq!(payloads(&body.transactions), vec!["T1", "T2"]);
}

#[test]
fn scenario_bundle_subsumes_inclusion_list_entry() {
    let mut flow = GreedyOrderFlow::new(ExecutionState::new());
    flow.add_bundle(String::from("A"), bundle(100, &["T1"]));
    flow.add_inclusion_list(vec![txn("T1"), txn("T3")]);
    assert_eq!(flow.block, vec![String::from("A")]);
    assert_eq!(payloads(&flow.inclusion_list), vec!["T3"]);
    let body = flow.get_block();
    assert_eq!(payloads(&body.transactions), vec!["T1", "T3"]);
}

#[test]
fn scenario_bundle_conflicting_with_inclusion_list_is_excluded() {
    let state = ExecutionState::with_conflicts(vec![conflict("T1", "T3")]);
    let mut flow = GreedyOrderFlow::new(state);
    flow.add_bundle(String::from("A"), bundle(100, &["T1"]));
    flow.add_inclusion_list(vec![txn("T1"), txn("T3")]);
    assert!(flow.block.is_empty());
    assert_eq!(payloads(&flow.inclusion_list), vec!["T1", "T3"]);
}

#[test]
fn exclusion_is_not_deletion_bundle_returns_after_cancel() {
    let state = ExecutionState::with_conflicts(vec![conflict("T1", "T2")]);
    let mut flow = GreedyOrderFlow::new(state);
    flow.add_bundle(String::from("A"), bundle(100, &["T1"]));
    flow.add_bundle(String::from("B"), bundle(50, &["T2"]));
    // The higher-value bundle wins; the conflicting one is excluded but
    // stays in the ledger.
    assert_eq!(flow.block, vec![String::from("A")]);
    assert!(flow.get_bundle(&String::from("B")).is_some());
    // Cancelling the winner brings the excluded bundle back as a
    // candidate at the next rebuild.
    assert!(flow.remove_bundle(&String::from("A")));
    flow.rebuild();
    assert_eq!(flow.block, vec![String::from("B")]);
}

#[test]
fn inclusion_residual_shares_nothing_with_accepted_bundles() {
    let mut flow = GreedyOrderFlow::new(ExecutionState::new());
    flow.add_bundle(String::from("A"), bundle(100, &["T1", "T2"]));
    flow.add_bundle(String::from("B"), bundle(70, &["T4"]));
    flow.add_inclusion_list(vec![txn("T2"), txn("T3"), txn("T4")]);
    assert_eq!(flow.block, vec![String::from("A"), String::from("B")]);
    assert_eq!(payloads(&flow.inclusion_list), vec!["T3"]);
    for id in &flow.block {
        let b = flow.get_bundle(id).expect("accepted id must resolve");
        for t in &flow.inclusion_list {
            assert!(!b.contains_transaction(t));
        }
    }
}

#[test]
fn rebuild_twice_settles_identical_draft() {
    let state = ExecutionState::with_conflicts(vec![conflict("T1", "T3")]);
    let mut flow = GreedyOrderFlow::new(state);
    flow.add_bundle(String::from("A"), bundle(100, &["T1"]));
    flow.add_bundle(String::from("B"), bundle(60, &["T3"]));
    flow.add_inclusion_list(vec![txn("T4")]);
    let block_before = flow.block.clone();
    let residual_before = payloads(&flow.inclusion_list);
    flow.rebuild();
    assert_eq!(flow.block, block_before);
    assert_eq!(payloads(&flow.inclusion_list), residual_before);
}

#[test]
fn create_bundle_rejects_conflict_with_frontier() {
    let state = ExecutionState::with_conflicts(vec![conflict("T1", "T2")]);
    let mut flow = GreedyOrderFlow::new(state);
    flow.add_bundle(String::from("A"), bundle(100, &["T1"]));
    let bid = Bid { kind: BidKind::TopOfBlock, value: 10 };
    let rejected = flow.create_bundle(vec![txn("T2")], bid, String::from("s"));
    assert!(rejected.is_err());
    let accepted = flow.create_bundle(vec![txn("T9")], bid, String::from("s"));
    let b = accepted.expect("non-conflicting bundle must be accepted");
    assert_eq!(payloads(&b.txns), vec!["T9"]);
    assert_eq!(b.estimated_tip, 10);
    assert_eq!(b.estimated_gas, 2);
}

#[test]
fn remove_common_txns_drops_exactly_the_contained_ones() {
    let b = bundle(10, &["T1", "T3"]);
    let mut incl = vec![txn("T1"), txn("T2"), txn("T3"), txn("T4")];
    mev_bootee::order_flow::remove_common_txns(&b, &mut incl);
    assert_eq!(payloads(&incl), vec!["T2", "T4"]);
}

#[test]
fn get_ordered_ids_reflects_the_ledger_order() {
    let mut flow = GreedyOrderFlow::new(ExecutionState::new());
    flow.add_bundle(String::from("low"), bundle(1, &["T1"]));
    flow.add_bundle(String::from("high"), bundle(9, &["T2"]));
    assert_eq!(
        flow.get_ordered_ids(),
        vec![String::from("high"), String::from("low")]
    );
}

#[test]
fn block_header_counts_body_and_gas() {
    let mut flow = GreedyOrderFlow::new(ExecutionState::new());
    flow.add_bundle(String::from("A"), bundle(100, &["T1", "T22"]));
    flow.add_inclusion_list(vec![txn("T333")]);
    let header = flow.get_block_header();
    assert_eq!(header.transaction_count, 3);
    // Gas estimates are the payload lengths here: 2 + 3 + 4.
    assert_eq!(header.gas_used, 9);
}

#[test]
fn block_header_gas_saturates() {
    let mut flow = GreedyOrderFlow::new(ExecutionState::new());
    let big = Bundle {
        searcher: String::from("s"),
        bid: Bid { kind: BidKind::TopOfBlock, value: 1 },
        txns: vec![
            Transaction::new(String::from("T1"), u64::MAX),
            Transaction::new(String::from("T2"), 5),
        ],
        estimated_tip: 1,
        estimated_gas: u64::MAX,
    };
    flow.add_bundle(String::from("big"), big);
    let header = flow.get_block_header();
    assert_eq!(header.gas_used, u64::MAX);
    assert_eq!(header.transaction_count, 2);
}
