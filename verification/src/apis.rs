//! Inbound request surface: the plain request payloads, their validation,
//! and their conversion into transactions. The wire transport and the
//! cryptographic recovery of a request's sender are external collaborators;
//! sender validation is therefore decided here from the recovered identity
//! and the round context.

use vstd::prelude::*;
use vstd::string::StrSliceExecFns;

use crate::types::BlockHeader;
use crate::types::RoundEnv;
use crate::types::Transaction;
use crate::types::TxnView;

verus! {

/// Whether a submitted list of encoded transactions is well formed: it
/// names at least one transaction and none of the payloads is empty.
pub open spec fn spec_txn_list_valid(txns: Seq<Seq<char>>) -> bool {
    &&& txns.len() > 0
    &&& forall|i: int| 0 <= i < txns.len() ==> txns[i].len() > 0
}

/// The transactions a submitted payload list stands for: each payload is
/// kept opaque, with a gas estimate proportional to its encoded size.
pub open spec fn spec_txns_of_payloads(txns: Seq<Seq<char>>) -> Seq<TxnView> {
    Seq::new(txns.len(), |i: int| TxnView { payload: txns[i], gas: txns[i].len() as u64 })
}

/// Whether a recovered sender identity is the round's proposer. A request
/// whose sender could not be recovered at all is never accepted.
pub open spec fn spec_sender_is_proposer(recovered: Option<&String>, env: &RoundEnv) -> bool {
    match recovered {
        Some(s) => s@ == env.proposer@,
        None => false,
    }
}

fn txn_list_valid(txns: &Vec<String>) -> (r: bool)
    ensures
        r == spec_txn_list_valid(txns.deep_view()),
{
    if txns.len() == 0 {
        return false;
    }
    let mut i: usize = 0;
    while i < txns.len()
        invariant
            i <= txns.len(),
            forall|k: int| 0 <= k < i ==> txns.deep_view()[k].len() > 0,
        decreases txns.len() - i,
    {
        if txns[i].as_str().is_empty() {
            proof {
                assert(txns.deep_view()[i as int].len() == 0);
            }
            return false;
        }
        i += 1;
    }
    true
}

fn txns_of_payloads(txns: &Vec<String>) -> (r: Vec<Transaction>)
    ensures
        r.deep_view() == spec_txns_of_payloads(txns.deep_view()),
{
    let mut r: Vec<Transaction> = Vec::new();
    let mut i: usize = 0;
    while i < txns.len()
        invariant
            i <= txns.len(),
            r@.len() == i,
            forall|k: int|
                0 <= k < i ==> (#[trigger] r@[k]@).payload == txns@[k]@ && r@[k]@.gas == txns@[k]@.len(),
        decreases txns.len() - i,
    {
        let payload = txns[i].clone();
        let gas = payload.as_str().unicode_len() as u64;
        r.push(Transaction { payload, gas });
        i += 1;
    }
    proof {
        crate::types::lemma_vec_deep_view(r);
        crate::types::lemma_vec_deep_view(*txns);
        assert(r.deep_view() =~= spec_txns_of_payloads(txns.deep_view()));
    }
    r
}

/// A request to submit a bundle: the encoded transactions, the bid value,
/// and the chain height the bundle was built for.
pub struct SubmitToBRequest {
    pub txns: Vec<String>,
    pub bid: u32,
    pub block_number: u32,
}

impl SubmitToBRequest {
    /// Whether the request is well formed: it names at least one
    /// transaction and none of the encoded payloads is empty.
    pub fn verify(&self) -> (r: bool)
        ensures
            r == spec_txn_list_valid(self.txns.deep_view()),
    {
        txn_list_valid(&self.txns)
    }

    /// The transactions the request stands for, in submission order.
    pub fn into_transactions(&self) -> (r: Vec<Transaction>)
        ensures
            r.deep_view() == spec_txns_of_payloads(self.txns.deep_view()),
    {
        txns_of_payloads(&self.txns)
    }
}

/// A proposer's request for a block offer: the mandated transaction list,
/// the chain height, and the signature its sender is recovered from.
pub struct GetBidRequest {
    pub txn_list: Vec<String>,
    pub block_number: u32,
    pub signature: Vec<u8>,
}

impl GetBidRequest {
    /// Whether the request's sender is the round's proposer. The identity
    /// is recovered from the request signature by the external signature
    /// verifier; the decision over that recovered identity is made here.
    pub fn validate_sender(&self, recovered: Option<&String>, env: &RoundEnv) -> (r: bool)
        ensures
            r == spec_sender_is_proposer(recovered, env),
    {
        match recovered {
            Some(s) => *s == env.proposer,
            None => false,
        }
    }

    /// Whether the mandated transaction list is well formed.
    pub fn verify(&self) -> (r: bool)
        ensures
            r == spec_txn_list_valid(self.txn_list.deep_view()),
    {
        txn_list_valid(&self.txn_list)
    }

    /// The mandated transactions, in the proposer's order.
    pub fn into_transactions(&self) -> (r: Vec<Transaction>)
        ensures
            r.deep_view() == spec_txns_of_payloads(self.txn_list.deep_view()),
    {
        txns_of_payloads(&self.txn_list)
    }
}

/// A header commitment: a block header and the signature over it.
pub struct SignedHeader {
    pub header: BlockHeader,
    pub signature: Vec<u8>,
}

impl SignedHeader {
    /// Whether the commitment's sender is the round's proposer; decided
    /// from the identity the external signature verifier recovered.
    pub fn validate_sender(&self, recovered: Option<&String>, env: &RoundEnv) -> (r: bool)
        ensures
            r == spec_sender_is_proposer(recovered, env),
    {
        match recovered {
            Some(s) => *s == env.proposer,
            None => false,
        }
    }
}

} // verus!
