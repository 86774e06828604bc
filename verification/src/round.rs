//! The round coordinator: the single-writer state machine that owns one
//! round's mutable state and serializes every mutation to it. Requests
//! arrive as messages; the decisions they trigger are made here, while the
//! queueing, the transport and the reply channels stay outside.

use vstd::prelude::*;

use crate::apis::spec_sender_is_proposer;
use crate::apis::spec_txn_list_valid;
use crate::apis::spec_txns_of_payloads;
use crate::apis::GetBidRequest;
use crate::apis::SignedHeader;
use crate::apis::SubmitToBRequest;
use crate::exec::compatible;
use crate::exec::ExecutionState;
use crate::order_flow::accepted_txns;
use crate::order_flow::has_key;
use crate::order_flow::spec_add_bundle;
use crate::order_flow::spec_rebuild;
use crate::order_flow::spec_rebuilt;
use crate::order_flow::FlowView;
use crate::order_flow::GreedyOrderFlow;
use crate::order_flow::OrderFlow;
use crate::types::clone_txns;
use crate::types::spec_gas_used;
use crate::types::Bid;
use crate::types::BidKind;
use crate::types::Block;
use crate::types::BlockHeader;
use crate::types::BundleView;
use crate::types::MevBooTeeError;
use crate::types::MevBooTeeMode;
use crate::types::RoundEnv;
use crate::types::Validator;

verus! {

/// The lifecycle of one block-building round.
#[derive(Clone, Copy, PartialEq, Eq, Structural, Debug)]
pub enum RoundPhase {
    /// Reading the chain head and constructing the round context.
    Initializing,
    /// Processing request messages until the deadline or an explicit commit.
    Accepting,
    /// Producing the header and body and handing them to the proposer flow.
    Finalizing,
    /// The round is over; a new round re-enters `Initializing`.
    Closed,
}

/// The events that drive a round from one phase to the next.
#[derive(Clone, Copy, PartialEq, Eq, Structural, Debug)]
pub enum RoundEvent {
    /// The round context is constructed.
    EnvReady,
    /// The round deadline fired.
    Deadline,
    /// A valid header-commit or partial-block-commit request arrived.
    Commit,
    /// The header and body were handed to the proposer-facing flow.
    Handoff,
}

/// The round transition table: which event moves which phase forward.
/// Any other combination leaves the phase unchanged.
pub open spec fn spec_round_transition(phase: RoundPhase, event: RoundEvent) -> RoundPhase {
    match (phase, event) {
        (RoundPhase::Initializing, RoundEvent::EnvReady) => RoundPhase::Accepting,
        (RoundPhase::Accepting, RoundEvent::Deadline) => RoundPhase::Finalizing,
        (RoundPhase::Accepting, RoundEvent::Commit) => RoundPhase::Finalizing,
        (RoundPhase::Finalizing, RoundEvent::Handoff) => RoundPhase::Closed,
        _ => phase,
    }
}

/// Advances a round phase by one event, per the transition table.
pub fn round_transition(phase: RoundPhase, event: RoundEvent) -> (r: RoundPhase)
    ensures
        r == spec_round_transition(phase, event),
{
    match (phase, event) {
        (RoundPhase::Initializing, RoundEvent::EnvReady) => RoundPhase::Accepting,
        (RoundPhase::Accepting, RoundEvent::Deadline) => RoundPhase::Finalizing,
        (RoundPhase::Accepting, RoundEvent::Commit) => RoundPhase::Finalizing,
        (RoundPhase::Finalizing, RoundEvent::Handoff) => RoundPhase::Closed,
        (p, _) => p,
    }
}

/// The lower-case hexadecimal digit for a value below sixteen.
pub open spec fn hex_char(d: u8) -> char {
    if d == 0 {
        '0'
    } else if d == 1 {
        '1'
    } else if d == 2 {
        '2'
    } else if d == 3 {
        '3'
    } else if d == 4 {
        '4'
    } else if d == 5 {
        '5'
    } else if d == 6 {
        '6'
    } else if d == 7 {
        '7'
    } else if d == 8 {
        '8'
    } else if d == 9 {
        '9'
    } else if d == 10 {
        'a'
    } else if d == 11 {
        'b'
    } else if d == 12 {
        'c'
    } else if d == 13 {
        'd'
    } else if d == 14 {
        'e'
    } else {
        'f'
    }
}

/// The lower-case hexadecimal rendering of a byte sequence: two digits
/// per byte, most significant first.
pub open spec fn spec_hex_string(bs: Seq<u8>) -> Seq<char>
    decreases bs.len(),
{
    if bs.len() == 0 {
        Seq::<char>::empty()
    } else {
        spec_hex_string(bs.drop_last()) + seq![
            hex_char(bs.last() / 16),
            hex_char(bs.last() % 16),
        ]
    }
}

/// A hexadecimal rendering is twice as long as its bytes.
pub proof fn lemma_hex_len(bs: Seq<u8>)
    ensures
        spec_hex_string(bs).len() == 2 * bs.len(),
    decreases bs.len(),
{
    if bs.len() > 0 {
        lemma_hex_len(bs.drop_last());
    }
}

/// Distinct digit values render as distinct digits.
pub proof fn lemma_hex_char_injective(a: u8, b: u8)
    requires
        a < 16,
        b < 16,
        hex_char(a) == hex_char(b),
    ensures
        a == b,
{
}

/// The hexadecimal rendering is injective on sequences of equal length:
/// two distinct identifiers never render as the same id string. This is
/// what makes the random bundle ids collision-free by construction.
pub proof fn lemma_hex_injective(a: Seq<u8>, b: Seq<u8>)
    requires
        a.len() == b.len(),
        spec_hex_string(a) == spec_hex_string(b),
    ensures
        a == b,
    decreases a.len(),
{
    if a.len() > 0 {
        let ha = spec_hex_string(a);
        let hb = spec_hex_string(b);
        lemma_hex_len(a.drop_last());
        lemma_hex_len(b.drop_last());
        let n = a.len() as int;
        assert(ha[2 * n - 2] == hex_char(a.last() / 16));
        assert(ha[2 * n - 1] == hex_char(a.last() % 16));
        assert(hb[2 * n - 2] == hex_char(b.last() / 16));
        assert(hb[2 * n - 1] == hex_char(b.last() % 16));
        lemma_hex_char_injective(a.last() / 16, b.last() / 16);
        lemma_hex_char_injective(a.last() % 16, b.last() % 16);
        assert(a.last() == b.last());
        assert forall|i: int| 0 <= i < 2 * n - 2 implies spec_hex_string(a.drop_last())[i]
            == spec_hex_string(b.drop_last())[i] by {
            assert(ha[i] == hb[i]);
        }
        assert(spec_hex_string(a.drop_last()) =~= spec_hex_string(b.drop_last()));
        lemma_hex_injective(a.drop_last(), b.drop_last());
        assert forall|i: int| 0 <= i < a.len() implies a[i] == b[i] by {
            if i < n - 1 {
                assert(a.drop_last()[i] == b.drop_last()[i]);
            }
        }
        assert(a =~= b);
    } else {
        assert(a =~= b);
    }
}

/// The digit character for a value below sixteen.
fn hex_digit(d: u8) -> (r: &'static str)
    requires
        d < 16,
    ensures
        r@ == seq![hex_char(d)],
{
    let r: &'static str = match d {
        0 => "0",
        1 => "1",
        2 => "2",
        3 => "3",
        4 => "4",
        5 => "5",
        6 => "6",
        7 => "7",
        8 => "8",
        9 => "9",
        10 => "a",
        11 => "b",
        12 => "c",
        13 => "d",
        14 => "e",
        _ => "f",
    };
    proof {
        reveal_strlit("0");
        reveal_strlit("1");
        reveal_strlit("2");
        reveal_strlit("3");
        reveal_strlit("4");
        reveal_strlit("5");
        reveal_strlit("6");
        reveal_strlit("7");
        reveal_strlit("8");
        reveal_strlit("9");
        reveal_strlit("a");
        reveal_strlit("b");
        reveal_strlit("c");
        reveal_strlit("d");
        reveal_strlit("e");
        reveal_strlit("f");
        assert(r@ =~= seq![hex_char(d)]);
    }
    r
}

/// Renders freshly drawn random bytes as a bundle id string: two
/// lower-case hexadecimal digits per byte.
pub fn bundle_id_from_random(random: &Vec<u8>) -> (r: String)
    requires
        random@.len() == 32,
    ensures
        r@ == spec_hex_string(random@),
        r@.len() == 64,
{
    let mut s = String::new();
    let n = random.len();
    let mut i: usize = 0;
    while i < n
        invariant
            random@.len() == 32,
            n == 32,
            i <= n,
            s@ == spec_hex_string(random@.take(i as int)),
            s@.len() == 2 * i,
        decreases n - i,
    {
        let b = random[i];
        s.append(hex_digit(b / 16));
        s.append(hex_digit(b % 16));
        proof {
            assert(random@.take(i + 1).drop_last() =~= random@.take(i as int));
            assert(random@.take(i + 1).last() == random@[i as int]);
            assert(s@ =~= spec_hex_string(random@.take(i + 1)));
        }
        i += 1;
    }
    proof {
        assert(random@.take(32) =~= random@);
        lemma_hex_len(random@);
    }
    s
}

/// Whether any offer so far carries the given header.
pub open spec fn offer_match(offers: Seq<(BlockHeader, Seq<crate::types::TxnView>)>, h: BlockHeader) -> bool {
    exists|k: int| 0 <= k < offers.len() && offers[k].0 == h
}

/// The bundle a submission request stands for, as stored in the ledger:
/// its transactions, a top-of-block bid of the request's value, the
/// submitting searcher, and the estimates the creation step settles.
pub open spec fn spec_submitted_bundle(req: &SubmitToBRequest, searcher: Seq<char>) -> BundleView {
    BundleView {
        searcher,
        bid: Bid { kind: BidKind::TopOfBlock, value: req.bid as u64 },
        txns: spec_txns_of_payloads(req.txns.deep_view()),
        estimated_tip: req.bid as u64,
        estimated_gas: spec_gas_used(spec_txns_of_payloads(req.txns.deep_view())),
    }
}

/// One round's mutable state, owned exclusively by the single consuming
/// loop that drains the request queue: the immutable round context, the
/// operating mode, the phase, and the order flow under construction.
pub struct RoundCoordinator {
    pub env: RoundEnv,
    pub mode: MevBooTeeMode,
    pub phase: RoundPhase,
    pub order_flow: GreedyOrderFlow,
    /// Every offer made this round: the header handed to the proposer and
    /// the block body it stood for at that moment. A commitment names one
    /// of these headers.
    pub offered: Vec<(BlockHeader, Block)>,
}

impl RoundCoordinator {
    /// Coordinator well-formedness: the flow's invariant holds and its
    /// draft reflects its ledger (every handler re-establishes this).
    pub open spec fn wf(&self) -> bool {
        &&& self.order_flow.wf()
        &&& self.order_flow.draft_settled()
    }

    /// Whether this round's context is unchanged against another state:
    /// handlers never touch the environment or the mode.
    pub open spec fn same_round(&self, other: &Self) -> bool {
        &&& self.env.base_fee == other.env.base_fee
        &&& self.env.proposer@ == other.env.proposer@
        &&& self.mode == other.mode
    }

    /// The offers made so far: each offered header with the model of the
    /// block body it stood for.
    pub open spec fn spec_offered(&self) -> Seq<(BlockHeader, Seq<crate::types::TxnView>)> {
        Seq::new(
            self.offered@.len(),
            |i: int| (self.offered@[i].0, self.offered@[i].1.transactions.deep_view()),
        )
    }

    /// Opens a round: constructs the coordinator around a fresh flow and
    /// enters the accepting phase, the round context being ready.
    pub fn new(env: RoundEnv, mode: MevBooTeeMode, starting_state: ExecutionState) -> (r: Self)
        requires
            compatible(starting_state@.conflicts, starting_state@.applied),
        ensures
            r.wf(),
            r.phase == RoundPhase::Accepting,
            r.mode == mode,
            r.env.base_fee == env.base_fee,
            r.env.proposer@ == env.proposer@,
            r.spec_offered() == Seq::<(BlockHeader, Seq<crate::types::TxnView>)>::empty(),
            GreedyOrderFlow::new_ens(&starting_state, &r.order_flow),
    {
        let phase = round_transition(RoundPhase::Initializing, RoundEvent::EnvReady);
        let r = RoundCoordinator {
            env,
            mode,
            phase,
            order_flow: GreedyOrderFlow::new(starting_state),
            offered: Vec::new(),
        };
        proof {
            assert(r.spec_offered() =~= Seq::<(BlockHeader, Seq<crate::types::TxnView>)>::empty());
        }
        r
    }

    /// Handles a bundle submission: a malformed request is rejected; a
    /// bundle that cannot execute against the draft frontier is rejected;
    /// otherwise the bundle is stored under a fresh id rendered from the
    /// supplied randomness, the draft is rebuilt, and the id is returned.
    /// A drawn id that collides with a stored one is refused outright
    /// (with ids drawn from fresh randomness this does not happen).
    pub fn handle_submit_bundle_request(
        &mut self,
        req: &SubmitToBRequest,
        searcher: Validator,
        random: &Vec<u8>,
    ) -> (r: Result<String, MevBooTeeError>)
        requires
            old(self).wf(),
            old(self).phase == RoundPhase::Accepting,
            random@.len() == 32,
        ensures
            final(self).wf(),
            final(self).same_round(old(self)),
            final(self).phase == RoundPhase::Accepting,
            final(self).spec_offered() == old(self).spec_offered(),
            ({
                let f0 = old(self).order_flow@;
                let txns = spec_txns_of_payloads(req.txns.deep_view());
                let id = spec_hex_string(random@);
                if !spec_txn_list_valid(req.txns.deep_view()) {
                    r == Err::<String, MevBooTeeError>(MevBooTeeError::InvalidRequest)
                        && final(self).order_flow@ == f0
                } else if !compatible(f0.base.conflicts, spec_rebuild(f0).frontier + txns) {
                    r == Err::<String, MevBooTeeError>(MevBooTeeError::InvalidBundle)
                        && final(self).order_flow@ == f0
                } else if has_key(f0.bundles, id) {
                    r == Err::<String, MevBooTeeError>(MevBooTeeError::InvalidRequest)
                        && final(self).order_flow@ == f0
                } else {
                    match r {
                        Ok(rid) => rid@ == id && final(self).order_flow@ == spec_rebuilt(
                            spec_add_bundle(f0, id, spec_submitted_bundle(req, searcher@)),
                        ),
                        Err(_) => false,
                    }
                }
            }),
    {
        if !req.verify() {
            return Err(MevBooTeeError::InvalidRequest);
        }
        let txns = req.into_transactions();
        let bid = Bid { kind: BidKind::TopOfBlock, value: req.bid as u64 };
        let bundle = match self.order_flow.create_bundle(txns, bid, searcher) {
            Ok(b) => b,
            Err(_) => {
                return Err(MevBooTeeError::InvalidBundle);
            },
        };
        let id = bundle_id_from_random(random);
        if self.order_flow.contains_id(&id) {
            return Err(MevBooTeeError::InvalidRequest);
        }
        let id_out = id.clone();
        proof {
            assert(bundle@ == spec_submitted_bundle(req, bundle@.searcher));
        }
        self.order_flow.add_bundle(id, bundle);
        Ok(id_out)
    }

    /// Handles a cancellation: removes the bundle if its id is known and
    /// rebuilds the draft; an unknown id changes nothing and reports
    /// `false`.
    pub fn handle_cancel_bundle_request(&mut self, bundle_id: &String) -> (removed: bool)
        requires
            old(self).wf(),
            old(self).phase == RoundPhase::Accepting,
        ensures
            final(self).wf(),
            final(self).same_round(old(self)),
            final(self).phase == RoundPhase::Accepting,
            final(self).spec_offered() == old(self).spec_offered(),
            removed == has_key(old(self).order_flow@.bundles, bundle_id@),
            !removed ==> final(self).order_flow@ == old(self).order_flow@,
            removed ==> exists|i: int, j: int|
                #![trigger old(self).order_flow@.bundles[i], old(self).order_flow@.ordered[j]]
                {
                    let f0 = old(self).order_flow@;
                    &&& 0 <= i < f0.bundles.len()
                    &&& f0.bundles[i].0 == bundle_id@
                    &&& 0 <= j < f0.ordered.len()
                    &&& f0.ordered[j] == bundle_id@
                    &&& final(self).order_flow@ == spec_rebuilt(
                        FlowView {
                            bundles: f0.bundles.remove(i),
                            ordered: f0.ordered.remove(j),
                            ..f0
                        },
                    )
                },
    {
        let removed = self.order_flow.remove_bundle(bundle_id);
        if removed {
            self.order_flow.rebuild();
        }
        removed
    }

    /// Handles a block-offer request from the proposer: validates the
    /// sender and the request, checks that the mandated transactions
    /// execute against the draft frontier, installs them as the new
    /// inclusion list, rebuilds, and returns the draft's header as the
    /// offer.
    pub fn handle_get_block_offer(
        &mut self,
        req: &GetBidRequest,
        recovered: Option<&String>,
    ) -> (r: Result<BlockHeader, MevBooTeeError>)
        requires
            old(self).wf(),
            old(self).phase == RoundPhase::Accepting,
        ensures
            final(self).wf(),
            final(self).same_round(old(self)),
            final(self).phase == RoundPhase::Accepting,
            ({
                let f0 = old(self).order_flow@;
                let txns = spec_txns_of_payloads(req.txn_list.deep_view());
                if !spec_sender_is_proposer(recovered, &old(self).env) {
                    r == Err::<BlockHeader, MevBooTeeError>(MevBooTeeError::BadSender) && final(self).order_flow@ == f0
                        && final(self).spec_offered() == old(self).spec_offered()
                } else if !spec_txn_list_valid(req.txn_list.deep_view()) {
                    r == Err::<BlockHeader, MevBooTeeError>(MevBooTeeError::InvalidRequest)
                        && final(self).order_flow@ == f0
                        && final(self).spec_offered() == old(self).spec_offered()
                } else if !compatible(f0.base.conflicts, spec_rebuild(f0).frontier + txns) {
                    r == Err::<BlockHeader, MevBooTeeError>(MevBooTeeError::InvalidBundle)
                        && final(self).order_flow@ == f0
                        && final(self).spec_offered() == old(self).spec_offered()
                } else {
                    let f1 = spec_rebuilt(FlowView { mandated: txns, ..f0 });
                    let body = accepted_txns(f1.bundles, f1.accepted) + f1.residual;
                    match r {
                        Ok(h) => {
                            &&& final(self).order_flow@ == f1
                            &&& h.transaction_count == body.len()
                            &&& h.gas_used == spec_gas_used(body)
                            &&& final(self).spec_offered() == old(self).spec_offered().push(
                                (h, body),
                            )
                        },
                        Err(_) => false,
                    }
                }
            }),
    {
        if !req.validate_sender(recovered, &self.env) {
            return Err(MevBooTeeError::BadSender);
        }
        if !req.verify() {
            return Err(MevBooTeeError::InvalidRequest);
        }
        let txns = req.into_transactions();
        let probe = clone_txns(&txns);
        let bid = Bid { kind: BidKind::RestOfBlock, value: 0 };
        match self.order_flow.create_bundle(probe, bid, String::new()) {
            Ok(_) => {},
            Err(_) => {
                return Err(MevBooTeeError::InvalidBundle);
            },
        }
        self.order_flow.add_inclusion_list(txns);
        let ghost osp0 = old(self).spec_offered();
        let header = self.order_flow.get_block_header();
        let body = self.order_flow.get_block();
        let ghost body_seq = body.transactions.deep_view();
        let ghost opre = self.offered@;
        let pair = (header, body);
        proof {
            assert(pair.1.transactions.deep_view() == body_seq);
        }
        self.offered.push(pair);
        proof {
            assert forall|i: int| 0 <= i < self.offered@.len() implies self.spec_offered()[i]
                == osp0.push((header, body_seq))[i] by {
                if i < opre.len() {
                    assert(self.offered@[i] == opre[i]);
                } else {
                    assert(self.offered@[i] == pair);
                }
            }
            assert(self.spec_offered() =~= osp0.push((header, body_seq)));
        }
        Ok(header)
    }

    /// Handles a signed-header commitment (the "builder proposes" path):
    /// checks that the operating mode enables the path, that the sender
    /// is the proposer, and that the header is the one this round
    /// offered; a valid commitment ends the accepting phase.
    pub fn handle_submit_signed_header(
        &mut self,
        signed: &SignedHeader,
        recovered: Option<&String>,
    ) -> (r: Result<bool, MevBooTeeError>)
        requires
            old(self).wf(),
            old(self).phase == RoundPhase::Accepting,
        ensures
            final(self).wf(),
            final(self).same_round(old(self)),
            final(self).order_flow@ == old(self).order_flow@,
            final(self).spec_offered() == old(self).spec_offered(),
            ({
                let offers = old(self).spec_offered();
                if old(self).mode == MevBooTeeMode::ProposerProposes {
                    r == Err::<bool, MevBooTeeError>(MevBooTeeError::InvalidRequest) && final(self).phase == RoundPhase::Accepting
                } else if !spec_sender_is_proposer(recovered, &old(self).env) {
                    r == Err::<bool, MevBooTeeError>(MevBooTeeError::BadSender) && final(self).phase
                        == RoundPhase::Accepting
                } else if !offer_match(offers, signed.header) {
                    r == Err::<bool, MevBooTeeError>(MevBooTeeError::UnknownHeader) && final(self).phase == RoundPhase::Accepting
                } else {
                    r == Ok::<bool, MevBooTeeError>(true) && final(self).phase
                        == RoundPhase::Finalizing
                }
            }),
    {
        match self.mode {
            MevBooTeeMode::ProposerProposes => {
                return Err(MevBooTeeError::InvalidRequest);
            },
            _ => {},
        }
        if !signed.validate_sender(recovered, &self.env) {
            return Err(MevBooTeeError::BadSender);
        }
        let ghost offers = self.spec_offered();
        let n = self.offered.len();
        let mut k: usize = 0;
        while k < n
            invariant
                *self == *old(self),
                self.wf(),
                self.mode != MevBooTeeMode::ProposerProposes,
                spec_sender_is_proposer(recovered, &self.env),
                offers == self.spec_offered(),
                self.phase == RoundPhase::Accepting,
                n == self.offered@.len(),
                k <= n,
                forall|j: int| 0 <= j < k ==> (#[trigger] offers[j]).0 != signed.header,
            decreases n - k,
        {
            if self.offered[k].0 == signed.header {
                proof {
                    assert(offers[k as int].0 == signed.header);
                    assert(offer_match(offers, signed.header));
                }
                self.phase = round_transition(self.phase, RoundEvent::Commit);
                return Ok(true);
            }
            k += 1;
        }
        Err(MevBooTeeError::UnknownHeader)
    }

    /// Handles a partial-block commitment (the "proposer proposes" path):
    /// the same checks against the offered header, and on success the
    /// full block body is released and the accepting phase ends.
    pub fn handle_commit_partial_block(
        &mut self,
        signed: &SignedHeader,
        recovered: Option<&String>,
    ) -> (r: Result<Block, MevBooTeeError>)
        requires
            old(self).wf(),
            old(self).phase == RoundPhase::Accepting,
        ensures
            final(self).wf(),
            final(self).same_round(old(self)),
            final(self).order_flow@ == old(self).order_flow@,
            final(self).spec_offered() == old(self).spec_offered(),
            ({
                let offers = old(self).spec_offered();
                if old(self).mode == MevBooTeeMode::BuilderProposes {
                    r matches Err(e) && e == MevBooTeeError::InvalidRequest && final(self).phase
                        == RoundPhase::Accepting
                } else if !spec_sender_is_proposer(recovered, &old(self).env) {
                    r matches Err(e) && e == MevBooTeeError::BadSender && final(self).phase
                        == RoundPhase::Accepting
                } else if !offer_match(offers, signed.header) {
                    r matches Err(e) && e == MevBooTeeError::UnknownHeader && final(self).phase
                        == RoundPhase::Accepting
                } else {
                    r matches Ok(b) && final(self).phase == RoundPhase::Finalizing && exists|k: int|
                        {
                            &&& 0 <= k < offers.len()
                            &&& (#[trigger] offers[k]).0 == signed.header
                            &&& (forall|j: int| 0 <= j < k ==> offers[j].0 != signed.header)
                            &&& b.transactions.deep_view() == offers[k].1
                        }
                }
            }),
    {
        match self.mode {
            MevBooTeeMode::BuilderProposes => {
                return Err(MevBooTeeError::InvalidRequest);
            },
            _ => {},
        }
        if !signed.validate_sender(recovered, &self.env) {
            return Err(MevBooTeeError::BadSender);
        }
        let ghost offers = self.spec_offered();
        let n = self.offered.len();
        let mut k: usize = 0;
        while k < n
            invariant
                *self == *old(self),
                self.wf(),
                self.mode != MevBooTeeMode::BuilderProposes,
                spec_sender_is_proposer(recovered, &self.env),
                offers == self.spec_offered(),
                self.phase == RoundPhase::Accepting,
                n == self.offered@.len(),
                k <= n,
                forall|j: int| 0 <= j < k ==> (#[trigger] offers[j]).0 != signed.header,
            decreases n - k,
        {
            if self.offered[k].0 == signed.header {
                proof {
                    assert(offers[k as int].0 == signed.header);
                    assert(offer_match(offers, signed.header));
                }
                let block = crate::types::Block {
                    transactions: clone_txns(&self.offered[k].1.transactions),
                };
                proof {
                    assert(block.transactions.deep_view() == offers[k as int].1);
                    assert((forall|j: int| 0 <= j < k as int ==> offers[j].0 != signed.header));
                }
                self.phase = round_transition(self.phase, RoundEvent::Commit);
                return Ok(block);
            }
            k += 1;
        }
        Err(MevBooTeeError::UnknownHeader)
    }

    /// The round deadline fired: stop accepting and move to finalizing,
    /// whatever requests are still queued.
    pub fn on_deadline(&mut self)
        requires
            old(self).phase == RoundPhase::Accepting,
        ensures
            final(self).phase == RoundPhase::Finalizing,
            final(self).same_round(old(self)),
            final(self).order_flow@ == old(self).order_flow@,
            final(self).wf() == old(self).wf(),
    {
        self.phase = round_transition(self.phase, RoundEvent::Deadline);
    }

    /// Produces the settled header and body and closes the round; a new
    /// round then starts from a fresh coordinator at the new chain head.
    pub fn finalize_round(&mut self) -> (r: (BlockHeader, Block))
        requires
            old(self).wf(),
            old(self).phase == RoundPhase::Finalizing,
        ensures
            final(self).phase == RoundPhase::Closed,
            final(self).same_round(old(self)),
            final(self).order_flow@ == old(self).order_flow@,
            ({
                let f0 = old(self).order_flow@;
                let body = accepted_txns(f0.bundles, f0.accepted) + f0.residual;
                &&& r.0.transaction_count == body.len()
                &&& r.0.gas_used == spec_gas_used(body)
                &&& r.1.transactions.deep_view() == body
            }),
    {
        let header = self.order_flow.get_block_header();
        let block = self.order_flow.get_block();
        self.phase = round_transition(self.phase, RoundEvent::Handoff);
        (header, block)
    }
}

} // verus!

