use mev_bootee::OrderFlow;
use mev_bootee::round::bundle_id_from_random;
use mev_bootee::round::round_transition;
use mev_bootee::round::RoundCoordinator;
use mev_bootee::ExecutionState;
use mev_bootee::GetBidRequest;
use mev_bootee::MevBooTeeError;
use mev_bootee::MevBooTeeMode;
use mev_bootee::RoundEnv;
use mev_bootee::RoundEvent;
use mev_bootee::RoundPhase;
use mev_bootee::SignedHeader;
use mev_bootee::SubmitToBRequest;

fn env() -> RoundEnv {
    RoundEnv { base_fee: 7, proposer: String::from("the-proposer") }
}

fn coordinator(mode: MevBooTeeMode) -> RoundCoordinator {
    RoundCoordinator::new(env(), mode, ExecutionState::new())
}

fn submit_req(payloads: &[&str], bid: u32) -> SubmitToBRequest {
    SubmitToBRequest {
        txns: payloads.iter().map(|p| String::from(*p)).collect(),
        bid,
        block_number: 1,
    }
}

fn offer_req(payloads: &[&str]) -> GetBidRequest {
    GetBidRequest {
        txn_list: payloads.iter().map(|p| String::from(*p)).collect(),
        block_number: 1,
        signature: vec![1, 2, 3],
    }
}

fn random32() -> Vec<u8> {
    (0u8..32).collect()
}

#[test]
fn bundle_id_is_hex_of_the_randomness() {
    let id = bundle_id_from_random(&vec![0u8; 32]);
    assert_eq!(id, "0".repeat(64));
    let mut bytes = vec![0u8; 32];
    bytes[0] = 0xab;
    bytes[31] = 0x01;
    let id2 = bundle_id_from_random(&bytes);
    assert_eq!(id2.len(), 64);
    assert!(id2.starts_with("ab"));
    assert!(id2.ends_with("01"));
    let mut all_digits = vec![0u8; 32];
    for (i, b) in [0x01u8, 0x23, 0x45, 0x67, 0x89, 0xab, 0xcd, 0xef].iter().enumerate() {
        all_digits[i] = *b;
    }
    let id3 = bundle_id_from_random(&all_digits);
    assert_eq!(&id3[..16], "0123456789abcdef");
    assert_eq!(&id3[16..], "0".repeat(48));
}

#[test]
fn round_transition_table() {
    assert_eq!(
        round_transition(RoundPhase::Initializing, RoundEvent::EnvReady),
        RoundPhase::Accepting
    );
    assert_eq!(
        round_transition(RoundPhase::Accepting, RoundEvent::Deadline),
        RoundPhase::Finalizing
    );
    assert_eq!(
        round_transition(RoundPhase::Accepting, RoundEvent::Commit),
        RoundPhase::Finalizing
    );
    assert_eq!(
        round_transition(RoundPhase::Finalizing, RoundEvent::Handoff),
        RoundPhase::Closed
    );
    // Everything else stays put.
    assert_eq!(
        round_transition(RoundPhase::Accepting, RoundEvent::EnvReady),
        RoundPhase::Accepting
    );
    assert_eq!(
        round_transition(RoundPhase::Initializing, RoundEvent::Deadline),
        RoundPhase::Initializing
    );
    assert_eq!(round_transition(RoundPhase::Closed, RoundEvent::Commit), RoundPhase::Closed);
}

#[test]
fn submit_bundle_returns_the_rendered_id() {
    let mut c = coordinator(MevBooTeeMode::ProposerChooses);
    let id = c
        .handle_submit_bundle_request(&submit_req(&["T1"], 100), String::from("s"), &random32())
        .expect("valid submission is accepted");
    assert_eq!(id, bundle_id_from_random(&random32()));
    assert_eq!(c.order_flow.block, vec![id]);
}

#[test]
fn submit_bundle_rejects_malformed_requests() {
    let mut c = coordinator(MevBooTeeMode::ProposerChooses);
    let empty_list = submit_req(&[], 100);
    let r = c.handle_submit_bundle_request(&empty_list, String::from("s"), &random32());
    assert!(matches!(r, Err(MevBooTeeError::InvalidRequest)));
    let empty_payload = submit_req(&["T1", ""], 100);
    let r2 = c.handle_submit_bundle_request(&empty_payload, String::from("s"), &random32());
    assert!(matches!(r2, Err(MevBooTeeError::InvalidRequest)));
    assert!(c.order_flow.ordered_bundle_ids.is_empty());
}

#[test]
fn submit_bundle_rejects_a_bundle_that_cannot_execute() {
    let state = ExecutionState::with_conflicts(vec![(String::from("T1"), String::from("T2"))]);
    let mut c = RoundCoordinator::new(env(), MevBooTeeMode::ProposerChooses, state);
    c.handle_submit_bundle_request(&submit_req(&["T1"], 100), String::from("s"), &random32())
        .expect("first bundle executes");
    let mut other = random32();
    other[0] = 0xff;
    let r = c.handle_submit_bundle_request(&submit_req(&["T2"], 50), String::from("s"), &other);
    assert!(matches!(r, Err(MevBooTeeError::InvalidBundle)));
    assert_eq!(c.order_flow.ordered_bundle_ids.len(), 1);
}

#[test]
fn cancel_unknown_bundle_changes_nothing() {
    let mut c = coordinator(MevBooTeeMode::ProposerChooses);
    c.handle_submit_bundle_request(&submit_req(&["T1"], 100), String::from("s"), &random32())
        .expect("valid submission is accepted");
    let block_before = c.order_flow.block.clone();
    let removed = c.handle_cancel_bundle_request(&String::from("unknown-id"));
    assert!(!removed);
    assert_eq!(c.order_flow.block, block_before);
    assert_eq!(c.order_flow.ordered_bundle_ids.len(), 1);
}

#[test]
fn cancel_known_bundle_removes_and_rebuilds() {
    let mut c = coordinator(MevBooTeeMode::ProposerChooses);
    let id = c
        .handle_submit_bundle_request(&submit_req(&["T1"], 100), String::from("s"), &random32())
        .expect("valid submission is accepted");
    assert!(c.handle_cancel_bundle_request(&id));
    assert!(c.order_flow.block.is_empty());
    assert!(c.order_flow.ordered_bundle_ids.is_empty());
}

#[test]
fn block_offer_validates_the_sender() {
    let mut c = coordinator(MevBooTeeMode::ProposerChooses);
    let proposer = String::from("the-proposer");
    let stranger = String::from("somebody-else");
    let r = c.handle_get_block_offer(&offer_req(&["T1"]), Some(&stranger));
    assert!(matches!(r, Err(MevBooTeeError::BadSender)));
    let r2 = c.handle_get_block_offer(&offer_req(&["T1"]), None);
    assert!(matches!(r2, Err(MevBooTeeError::BadSender)));
    let r3 = c.handle_get_block_offer(&offer_req(&["T1"]), Some(&proposer));
    let header = r3.expect("proposer offer request is answered");
    assert_eq!(header.transaction_count, 1);
}

#[test]
fn block_offer_installs_the_inclusion_list() {
    let mut c = coordinator(MevBooTeeMode::ProposerChooses);
    let proposer = String::from("the-proposer");
    c.handle_submit_bundle_request(&submit_req(&["T1"], 100), String::from("s"), &random32())
        .expect("valid submission is accepted");
    let header = c
        .handle_get_block_offer(&offer_req(&["T1", "T3"]), Some(&proposer))
        .expect("offer is made");
    // The bundle subsumes the first mandated transaction.
    let residual: Vec<String> =
        c.order_flow.inclusion_list.iter().map(|t| t.payload.clone()).collect();
    assert_eq!(residual, vec![String::from("T3")]);
    assert_eq!(header.transaction_count, 2);
}

#[test]
fn signed_header_path_respects_the_mode() {
    let mut c = coordinator(MevBooTeeMode::ProposerProposes);
    let proposer = String::from("the-proposer");
    let offered = c.order_flow.get_block_header();
    let signed = SignedHeader { header: offered, signature: vec![9] };
    let r = c.handle_submit_signed_header(&signed, Some(&proposer));
    assert!(matches!(r, Err(MevBooTeeError::InvalidRequest)));
    assert_eq!(c.phase, RoundPhase::Accepting);
}

#[test]
fn partial_block_path_respects_the_mode() {
    let mut c = coordinator(MevBooTeeMode::BuilderProposes);
    let proposer = String::from("the-proposer");
    let offered = c.order_flow.get_block_header();
    let signed = SignedHeader { header: offered, signature: vec![9] };
    let r = c.handle_commit_partial_block(&signed, Some(&proposer));
    assert!(matches!(r, Err(MevBooTeeError::InvalidRequest)));
}

#[test]
fn unknown_header_is_rejected() {
    let mut c = coordinator(MevBooTeeMode::BuilderProposes);
    let proposer = String::from("the-proposer");
    let offered = c
        .handle_get_block_offer(&offer_req(&["T1"]), Some(&proposer))
        .expect("offer is made");
    let mut tampered = offered;
    tampered.transaction_count += 1;
    let signed = SignedHeader { header: tampered, signature: vec![9] };
    let r = c.handle_submit_signed_header(&signed, Some(&proposer));
    assert!(matches!(r, Err(MevBooTeeError::UnknownHeader)));
    assert_eq!(c.phase, RoundPhase::Accepting);
}

#[test]
fn valid_commitment_finalizes_the_round() {
    let mut c = coordinator(MevBooTeeMode::ProposerChooses);
    let proposer = String::from("the-proposer");
    c.handle_submit_bundle_request(&submit_req(&["T1"], 100), String::from("s"), &random32())
        .expect("valid submission is accepted");
    let offered = c
        .handle_get_block_offer(&offer_req(&["T1"]), Some(&proposer))
        .expect("offer is made");
    let signed = SignedHeader { header: offered, signature: vec![9] };
    let published = c
        .handle_submit_signed_header(&signed, Some(&proposer))
        .expect("offered header is accepted");
    assert!(published);
    assert_eq!(c.phase, RoundPhase::Finalizing);
    let (header, block) = c.finalize_round();
    assert_eq!(c.phase, RoundPhase::Closed);
    assert_eq!(header, signed.header);
    assert_eq!(block.transactions.len(), 1);
    assert_eq!(block.transactions[0].payload, "T1");
}

#[test]
fn partial_block_commitment_releases_the_body() {
    let mut c = coordinator(MevBooTeeMode::ProposerProposes);
    let proposer = String::from("the-proposer");
    c.handle_submit_bundle_request(&submit_req(&["T1", "T2"], 100), String::from("s"), &random32())
        .expect("valid submission is accepted");
    let offered = c
        .handle_get_block_offer(&offer_req(&["T1"]), Some(&proposer))
        .expect("offer is made");
    let signed = SignedHeader { header: offered, signature: vec![9] };
    let block = c
        .handle_commit_partial_block(&signed, Some(&proposer))
        .expect("offered header is accepted");
    let got: Vec<String> = block.transactions.iter().map(|t| t.payload.clone()).collect();
    assert_eq!(got, vec![String::from("T1"), String::from("T2")]);
    assert_eq!(c.phase, RoundPhase::Finalizing);
}

#[test]
fn an_offer_can_be_committed_after_later_mutations() {
    let mut c = coordinator(MevBooTeeMode::ProposerChooses);
    let proposer = String::from("the-proposer");
    c.handle_submit_bundle_request(&submit_req(&["T1"], 100), String::from("s"), &random32())
        .expect("valid submission is accepted");
    let first_offer = c
        .handle_get_block_offer(&offer_req(&["T1"]), Some(&proposer))
        .expect("offer is made");
    // A later submission changes the draft, but the earlier offer stays
    // committable and releases the body it stood for.
    let mut other = random32();
    other[0] = 0xcc;
    c.handle_submit_bundle_request(&submit_req(&["T2"], 40), String::from("s"), &other)
        .expect("second submission is accepted");
    let signed = SignedHeader { header: first_offer, signature: vec![9] };
    let block = c
        .handle_commit_partial_block(&signed, Some(&proposer))
        .expect("earlier offer is still committable");
    let got: Vec<String> = block.transactions.iter().map(|t| t.payload.clone()).collect();
    assert_eq!(got, vec![String::from("T1")]);
}

#[test]
fn deadline_ends_the_accepting_phase() {
    let mut c = coordinator(MevBooTeeMode::ProposerChooses);
    c.on_deadline();
    assert_eq!(c.phase, RoundPhase::Finalizing);
    let (header, block) = c.finalize_round();
    assert_eq!(header.transaction_count, 0);
    assert!(block.transactions.is_empty());
    assert_eq!(c.phase, RoundPhase::Closed);
}
