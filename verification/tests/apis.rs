use mev_bootee::GetBidRequest;
use mev_bootee::MevBooTeeError;
use mev_bootee::RoundEnv;
use mev_bootee::SignedHeader;
use mev_bootee::SubmitToBRequest;

fn env() -> RoundEnv {
    RoundEnv { base_fee: 7, proposer: String::from("the-proposer") }
}

#[test]
fn submit_request_verification() {
    let ok = SubmitToBRequest {
        txns: vec![String::from("T1"), String::from("T2")],
        bid: 5,
        block_number: 1,
    };
    assert!(ok.verify());
    let empty_list = SubmitToBRequest { txns: vec![], bid: 5, block_number: 1 };
    assert!(!empty_list.verify());
    let empty_payload =
        SubmitToBRequest { txns: vec![String::from("")], bid: 5, block_number: 1 };
    assert!(!empty_payload.verify());
}

#[test]
fn into_transactions_keeps_payloads_and_estimates_gas() {
    let req = SubmitToBRequest {
        txns: vec![String::from("T1"), String::from("longer")],
        bid: 5,
        block_number: 1,
    };
    let txns = req.into_transactions();
    assert_eq!(txns.len(), 2);
    assert_eq!(txns[0].payload, "T1");
    assert_eq!(txns[0].gas, 2);
    assert_eq!(txns[1].payload, "longer");
    assert_eq!(txns[1].gas, 6);
}

#[test]
fn sender_validation_accepts_only_the_proposer() {
    let req = GetBidRequest {
        txn_list: vec![String::from("T1")],
        block_number: 1,
        signature: vec![1],
    };
    let e = env();
    assert!(req.validate_sender(Some(&String::from("the-proposer")), &e));
    assert!(!req.validate_sender(Some(&String::from("an-impostor")), &e));
    assert!(!req.validate_sender(None, &e));
    let signed = SignedHeader {
        header: mev_bootee::BlockHeader { transaction_count: 0, gas_used: 0 },
        signature: vec![1],
    };
    assert!(signed.validate_sender(Some(&String::from("the-proposer")), &e));
    assert!(!signed.validate_sender(None, &e));
}

#[test]
fn error_messages_name_their_cause() {
    assert_eq!(MevBooTeeError::InvalidRequest.message(), "invalid request");
    assert_eq!(MevBooTeeError::InvalidBundle.message(), "invalid bundle");
    assert_eq!(MevBooTeeError::BadSender.message(), "bad sender");
    assert_eq!(MevBooTeeError::UnknownHeader.message(), "unknown header");
    assert_eq!(
        MevBooTeeError::BadSignedHeader(String::from("no signature")).message(),
        "bad signed header object: no signature"
    );
}
