//! The bundle ledger and the greedy block assembler: a value-ordered
//! ledger of competing bundles, and the rebuild algorithm that walks it in
//! descending bid order, speculatively executes each bundle, reconciles it
//! with the proposer's inclusion list, and settles the block draft.

use vstd::prelude::*;

use crate::exec::apply_succeeds;
use crate::exec::compatible;
use crate::exec::spec_apply;
use crate::exec::ExecutionState;
use crate::exec::StateView;
use crate::types::bundle_contains;
use crate::types::clone_txns;
use crate::types::lemma_vec_deep_view;
use crate::types::spec_bid_value;
use crate::types::Bundle;
use crate::types::BundleView;
use crate::types::Transaction;
use crate::types::TxnView;

verus! {

/// The ledger's association list: bundle ids paired with their bundles.
pub type LedgerView = Seq<(Seq<char>, BundleView)>;

/// Whether the ledger holds a bundle under the given id.
pub open spec fn has_key(m: LedgerView, id: Seq<char>) -> bool {
    exists|k: int| 0 <= k < m.len() && m[k].0 == id
}

/// The bundle the ledger holds under `id` (meaningful when the ledger's
/// keys are distinct and `id` is present).
pub open spec fn bundle_of(m: LedgerView, id: Seq<char>) -> BundleView {
    m[choose|k: int| 0 <= k < m.len() && m[k].0 == id].1
}

/// The bid value of the bundle the ledger holds under `id`.
pub open spec fn val_at(m: LedgerView, id: Seq<char>) -> u64 {
    spec_bid_value(bundle_of(m, id).bid)
}

/// Well-formedness of the ledger: the ordered id sequence is a total
/// ordering of exactly the keys of the bundle map (no dangling ids, no
/// missing ids, no duplicates), sorted by descending bid value.
pub open spec fn ledger_wf(m: LedgerView, ordered: Seq<Seq<char>>) -> bool {
    &&& forall|i: int, j: int| 0 <= i < j < m.len() ==> m[i].0 != m[j].0
    &&& forall|i: int, j: int| 0 <= i < j < ordered.len() ==> ordered[i] != ordered[j]
    &&& forall|i: int| 0 <= i < ordered.len() ==> has_key(m, ordered[i])
    &&& forall|k: int| 0 <= k < m.len() ==> ordered.contains(m[k].0)
    &&& forall|i: int, j: int|
        0 <= i < j < ordered.len() ==> val_at(m, ordered[i]) >= val_at(m, ordered[j])
}

/// The position at which an id of value `v` is inserted into the ordered
/// sequence: immediately before the first entry with a strictly lower
/// value, so equal-valued entries keep arrival order.
pub open spec fn insert_pos(m: LedgerView, ordered: Seq<Seq<char>>, v: u64) -> int
    decreases ordered.len(),
{
    if ordered.len() == 0 {
        0
    } else if val_at(m, ordered[0]) < v {
        0
    } else {
        1 + insert_pos(m, ordered.drop_first(), v)
    }
}

/// What characterizes the insertion position: every entry before it has
/// value at least `v`, and the entry at it (if any) has a strictly lower
/// value.
pub proof fn lemma_insert_pos_props(m: LedgerView, ordered: Seq<Seq<char>>, v: u64)
    ensures
        0 <= insert_pos(m, ordered, v) <= ordered.len(),
        forall|k: int| 0 <= k < insert_pos(m, ordered, v) ==> val_at(m, ordered[k]) >= v,
        insert_pos(m, ordered, v) < ordered.len() ==> val_at(
            m,
            ordered[insert_pos(m, ordered, v)],
        ) < v,
    decreases ordered.len(),
{
    if ordered.len() == 0 {
    } else if val_at(m, ordered[0]) < v {
    } else {
        lemma_insert_pos_props(m, ordered.drop_first(), v);
        let p = insert_pos(m, ordered.drop_first(), v);
        assert forall|k: int| 0 <= k < p + 1 implies val_at(m, ordered[k]) >= v by {
            if k > 0 {
                assert(ordered.drop_first()[k - 1] == ordered[k]);
            }
        }
        if p + 1 < ordered.len() {
            assert(ordered.drop_first()[p] == ordered[p + 1]);
        }
    }
}

/// The characterization pins the position down: any index with the same
/// properties is the insertion position.
pub proof fn lemma_insert_pos_unique(m: LedgerView, ordered: Seq<Seq<char>>, v: u64, p: int)
    requires
        0 <= p <= ordered.len(),
        forall|k: int| 0 <= k < p ==> val_at(m, ordered[k]) >= v,
        p < ordered.len() ==> val_at(m, ordered[p]) < v,
    ensures
        p == insert_pos(m, ordered, v),
{
    lemma_insert_pos_props(m, ordered, v);
    let ip = insert_pos(m, ordered, v);
    if p < ip {
        assert(val_at(m, ordered[p]) >= v);
    } else if ip < p {
        assert(val_at(m, ordered[ip]) >= v);
    }
}

/// The mandated transactions that remain once those contained in an
/// applied bundle are removed (to avoid double execution), keeping order.
pub open spec fn spec_remove_common(b: BundleView, incl: Seq<TxnView>) -> Seq<TxnView>
    decreases incl.len(),
{
    if incl.len() == 0 {
        incl
    } else {
        let rest = spec_remove_common(b, incl.drop_first());
        if bundle_contains(b, incl[0]) {
            rest
        } else {
            seq![incl[0]] + rest
        }
    }
}

/// Removal from a single-transaction list: the transaction stays exactly
/// when the bundle does not contain it.
pub proof fn lemma_remove_common_single(b: BundleView, t: TxnView)
    ensures
        bundle_contains(b, t) ==> spec_remove_common(b, seq![t]) == Seq::<TxnView>::empty(),
        !bundle_contains(b, t) ==> spec_remove_common(b, seq![t]) == seq![t],
{
    assert(seq![t].drop_first() =~= Seq::<TxnView>::empty());
    assert(spec_remove_common(b, Seq::<TxnView>::empty()) == Seq::<TxnView>::empty());
    assert(seq![t][0] == t);
    if !bundle_contains(b, t) {
        assert(spec_remove_common(b, seq![t]) =~= seq![t]);
    }
}

/// Removing common transactions distributes over concatenation.
pub proof fn lemma_remove_common_concat(b: BundleView, x: Seq<TxnView>, y: Seq<TxnView>)
    ensures
        spec_remove_common(b, x + y) == spec_remove_common(b, x) + spec_remove_common(b, y),
    decreases x.len(),
{
    if x.len() == 0 {
        assert(x + y =~= y);
        assert(spec_remove_common(b, x) + spec_remove_common(b, y) =~= spec_remove_common(b, y));
    } else {
        assert((x + y).len() > 0);
        assert((x + y)[0] == x[0]);
        assert((x + y).drop_first() =~= x.drop_first() + y);
        lemma_remove_common_concat(b, x.drop_first(), y);
        if bundle_contains(b, x[0]) {
        } else {
            assert(seq![x[0]] + (spec_remove_common(b, x.drop_first()) + spec_remove_common(b, y))
                =~= (seq![x[0]] + spec_remove_common(b, x.drop_first())) + spec_remove_common(b, y));
        }
    }
}

/// What remains after removal: exactly the mandated transactions that the
/// bundle does not contain, each one already present in the original list.
pub proof fn lemma_remove_common_membership(b: BundleView, incl: Seq<TxnView>)
    ensures
        spec_remove_common(b, incl).len() <= incl.len(),
        forall|i: int|
            0 <= i < spec_remove_common(b, incl).len() ==> !bundle_contains(
                b,
                #[trigger] spec_remove_common(b, incl)[i],
            ) && incl.contains(spec_remove_common(b, incl)[i]),
    decreases incl.len(),
{
    if incl.len() == 0 {
    } else {
        lemma_remove_common_membership(b, incl.drop_first());
        let rest = spec_remove_common(b, incl.drop_first());
        assert forall|i: int|
            0 <= i < spec_remove_common(b, incl).len() implies !bundle_contains(
            b,
            #[trigger] spec_remove_common(b, incl)[i],
        ) && incl.contains(spec_remove_common(b, incl)[i]) by {
            if bundle_contains(b, incl[0]) {
                assert(spec_remove_common(b, incl)[i] == rest[i]);
                assert(incl.drop_first().contains(rest[i]));
                let w = choose|k: int|
                    0 <= k < incl.drop_first().len() && incl.drop_first()[k] == rest[i];
                assert(incl[w + 1] == rest[i]);
            } else {
                if i == 0 {
                    assert(spec_remove_common(b, incl)[0] == incl[0]);
                } else {
                    assert(spec_remove_common(b, incl)[i] == rest[i - 1]);
                    assert(incl.drop_first().contains(rest[i - 1]));
                    let w = choose|k: int|
                        0 <= k < incl.drop_first().len() && incl.drop_first()[k] == rest[i - 1];
                    assert(incl[w + 1] == rest[i - 1]);
                }
            }
        }
    }
}

/// Removes from the working inclusion list every transaction structurally
/// contained in the bundle just applied, keeping the remaining order.
pub fn remove_common_txns(bundle: &Bundle, inclusion_list: &mut Vec<Transaction>)
    ensures
        final(inclusion_list).deep_view() == spec_remove_common(
            bundle@,
            old(inclusion_list).deep_view(),
        ),
{
    let ghost incl0 = inclusion_list.deep_view();
    let mut kept: Vec<Transaction> = Vec::new();
    let mut i: usize = 0;
    while i < inclusion_list.len()
        invariant
            i <= inclusion_list.len(),
            inclusion_list.deep_view() == incl0,
            inclusion_list@.len() == incl0.len(),
            kept.deep_view() =~= spec_remove_common(bundle@, incl0.take(i as int)),
        decreases inclusion_list.len() - i,
    {
        let ghost kpre = kept;
        proof {
            lemma_vec_deep_view(*inclusion_list);
            assert(incl0.take(i + 1) =~= incl0.take(i as int) + seq![incl0[i as int]]);
            lemma_remove_common_concat(bundle@, incl0.take(i as int), seq![incl0[i as int]]);
            lemma_remove_common_single(bundle@, incl0[i as int]);
            assert((inclusion_list@[i as int])@ == incl0[i as int]);
        }
        if !bundle.contains_transaction(&inclusion_list[i]) {
            kept.push(inclusion_list[i].clone());
            proof {
                crate::types::lemma_deep_push(kpre, kept, incl0[i as int]);
                assert(kept.deep_view() =~= spec_remove_common(bundle@, incl0.take(i + 1)));
            }
        } else {
            proof {
                assert(kept.deep_view() =~= spec_remove_common(bundle@, incl0.take(i + 1)));
            }
        }
        i += 1;
    }
    proof {
        assert(incl0.take(incl0.len() as int) =~= incl0);
    }
    *inclusion_list = kept;
}

/// The outcome of one rebuild: the accepted bundle ids in acceptance
/// order, the residual inclusion list, and the frontier history the
/// accepted bundles produce.
#[verifier::ext_equal]
pub ghost struct RebuildResult {
    pub accepted: Seq<Seq<char>>,
    pub residual: Seq<TxnView>,
    pub frontier: Seq<TxnView>,
}

/// One pass of the greedy algorithm over the remaining ordered ids. For
/// each bundle, in descending bid order: speculatively apply it; if that
/// fails, exclude it (exclusion is not removal). If it succeeds and
/// mandated transactions are pending, remove the ones the bundle already
/// contains and check that the remainder still executes on top; accept
/// the bundle exactly when it does, keeping the inclusion list applied
/// only speculatively. With no pending mandated transactions the bundle
/// is accepted unconditionally.
pub open spec fn spec_rebuild_from(
    m: LedgerView,
    cs: Seq<(Seq<char>, Seq<char>)>,
    ids: Seq<Seq<char>>,
    applied: Seq<TxnView>,
    incl: Seq<TxnView>,
    acc: Seq<Seq<char>>,
) -> RebuildResult
    decreases ids.len(),
{
    if ids.len() == 0 {
        RebuildResult { accepted: acc, residual: incl, frontier: applied }
    } else {
        let b = bundle_of(m, ids[0]);
        let rest = ids.drop_first();
        if compatible(cs, applied + b.txns) {
            if incl.len() > 0 {
                let incl2 = spec_remove_common(b, incl);
                if compatible(cs, applied + b.txns + incl2) {
                    spec_rebuild_from(m, cs, rest, applied + b.txns, incl2, acc.push(ids[0]))
                } else {
                    spec_rebuild_from(m, cs, rest, applied, incl, acc)
                }
            } else {
                spec_rebuild_from(m, cs, rest, applied + b.txns, incl, acc.push(ids[0]))
            }
        } else {
            spec_rebuild_from(m, cs, rest, applied, incl, acc)
        }
    }
}

/// The greedy order flow: the bundle ledger, the proposer's mandated
/// transactions, and the block draft settled by the last rebuild.
pub struct GreedyOrderFlow {
    /// The round's starting world state; every rebuild re-evaluates from here.
    pub starting_state: ExecutionState,
    /// All known bundles, keyed by bundle id.
    pub all_bundles: Vec<(String, Bundle)>,
    /// The bundle ids ordered by descending bid value (stable for ties).
    pub ordered_bundle_ids: Vec<String>,
    /// The transactions the proposer wants included, replaced wholesale.
    pub proposer_requested_txns: Vec<Transaction>,
    /// The accepted bundle ids, in acceptance order: the block draft.
    pub block: Vec<String>,
    /// The residual inclusion list: the mandated transactions not subsumed
    /// by any accepted bundle; the last part of the candidate block body.
    pub inclusion_list: Vec<Transaction>,
}

/// Mathematical model of a [`GreedyOrderFlow`].
#[verifier::ext_equal]
pub ghost struct FlowView {
    pub base: StateView,
    pub bundles: LedgerView,
    pub ordered: Seq<Seq<char>>,
    pub mandated: Seq<TxnView>,
    pub accepted: Seq<Seq<char>>,
    pub residual: Seq<TxnView>,
}

impl View for GreedyOrderFlow {
    type V = FlowView;

    open spec fn view(&self) -> FlowView {
        FlowView {
            base: self.starting_state@,
            bundles: self.all_bundles.deep_view(),
            ordered: self.ordered_bundle_ids.deep_view(),
            mandated: self.proposer_requested_txns.deep_view(),
            accepted: self.block.deep_view(),
            residual: self.inclusion_list.deep_view(),
        }
    }
}

/// The full rebuild of a flow: the greedy pass over the whole ordered
/// sequence, starting from the round's base state and the full mandated
/// list, with nothing accepted yet.
pub open spec fn spec_rebuild(f: FlowView) -> RebuildResult {
    spec_rebuild_from(
        f.bundles,
        f.base.conflicts,
        f.ordered,
        f.base.applied,
        f.mandated,
        Seq::<Seq<char>>::empty(),
    )
}

/// The flow after a rebuild: only the block draft (accepted ids and
/// residual inclusion list) changes; the ledger, the ordering, the
/// mandated list and the base state are untouched.
pub open spec fn spec_rebuilt(f: FlowView) -> FlowView {
    FlowView { accepted: spec_rebuild(f).accepted, residual: spec_rebuild(f).residual, ..f }
}

/// The ledger after a bundle is stored and its id filed into the ordered
/// sequence at its value's position.
pub open spec fn spec_add_bundle(f: FlowView, id: Seq<char>, b: BundleView) -> FlowView {
    let m = f.bundles.push((id, b));
    FlowView {
        bundles: m,
        ordered: f.ordered.insert(insert_pos(m, f.ordered, spec_bid_value(b.bid)), id),
        ..f
    }
}

/// The intermediate shape of the ledger while an insertion is under way:
/// the bundle is stored, its id is not yet in the ordered sequence, and
/// everything else is well formed.
pub open spec fn ledger_wf_on_insert(m: LedgerView, ordered: Seq<Seq<char>>, id: Seq<char>) -> bool {
    &&& forall|i: int, j: int| 0 <= i < j < m.len() ==> m[i].0 != m[j].0
    &&& forall|i: int, j: int| 0 <= i < j < ordered.len() ==> ordered[i] != ordered[j]
    &&& forall|i: int| 0 <= i < ordered.len() ==> has_key(m, ordered[i])
    &&& forall|k: int| 0 <= k < m.len() ==> m[k].0 == id || ordered.contains(m[k].0)
    &&& forall|i: int, j: int|
        0 <= i < j < ordered.len() ==> val_at(m, ordered[i]) >= val_at(m, ordered[j])
    &&& has_key(m, id)
    &&& !ordered.contains(id)
}

impl GreedyOrderFlow {
    /// Well-formedness: the ledger invariant, over a starting state whose
    /// own history is executable. Every operation preserves it.
    pub open spec fn wf(&self) -> bool {
        &&& ledger_wf(self@.bundles, self@.ordered)
        &&& compatible(self@.base.conflicts, self@.base.applied)
    }

    /// Whether the block draft reflects the ledger as it stands: what a
    /// rebuild settles and every mutation re-establishes.
    pub open spec fn draft_settled(&self) -> bool {
        self@.accepted == spec_rebuild(self@).accepted && self@.residual == spec_rebuild(
            self@,
        ).residual
    }

    /// Looks a bundle up by id.
    pub fn get_bundle(&self, bundle_id: &String) -> (r: Option<&Bundle>)
        requires
            forall|i: int, j: int|
                0 <= i < j < self@.bundles.len() ==> self@.bundles[i].0 != self@.bundles[j].0,
        ensures
            match r {
                Some(b) => has_key(self@.bundles, bundle_id@) && b@ == bundle_of(
                    self@.bundles,
                    bundle_id@,
                ),
                None => !has_key(self@.bundles, bundle_id@),
            },
    {
        let ghost m = self@.bundles;
        let mut k: usize = 0;
        while k < self.all_bundles.len()
            invariant
                m == self@.bundles,
                k <= self.all_bundles.len(),
                forall|i: int, j: int| 0 <= i < j < m.len() ==> m[i].0 != m[j].0,
                forall|i: int| 0 <= i < k ==> m[i].0 != bundle_id@,
            decreases self.all_bundles.len() - k,
        {
            if self.all_bundles[k].0 == *bundle_id {
                proof {
                    lemma_vec_deep_view(self.all_bundles);
                    assert(m[k as int].0 == bundle_id@);
                    let w = choose|i: int| 0 <= i < m.len() && m[i].0 == bundle_id@;
                    assert(w == k as int);
                }
                return Some(&self.all_bundles[k].1);
            }
            proof {
                lemma_vec_deep_view(self.all_bundles);
            }
            k += 1;
        }
        None
    }

    /// Whether the ledger currently holds a bundle under the given id.
    pub fn contains_id(&self, bundle_id: &String) -> (r: bool)
        requires
            forall|i: int, j: int|
                0 <= i < j < self@.bundles.len() ==> self@.bundles[i].0 != self@.bundles[j].0,
        ensures
            r == has_key(self@.bundles, bundle_id@),
    {
        match self.get_bundle(bundle_id) {
            Some(_) => true,
            None => false,
        }
    }

    /// A read-only snapshot of the value-ordered bundle ids, exactly as
    /// the ledger orders them at call time.
    pub fn get_ordered_ids(&self) -> (r: Vec<String>)
        ensures
            r.deep_view() == self@.ordered,
    {
        let mut r: Vec<String> = Vec::new();
        let mut i: usize = 0;
        while i < self.ordered_bundle_ids.len()
            invariant
                i <= self.ordered_bundle_ids.len(),
                r@.len() == i,
                forall|k: int| 0 <= k < i ==> #[trigger] r@[k]@ == self.ordered_bundle_ids@[k]@,
            decreases self.ordered_bundle_ids.len() - i,
        {
            r.push(self.ordered_bundle_ids[i].clone());
            i += 1;
        }
        proof {
            lemma_vec_deep_view(r);
            lemma_vec_deep_view(self.ordered_bundle_ids);
            assert(r.deep_view() =~= self@.ordered);
        }
        r
    }

    /// Files a bundle id into the ordered sequence: immediately before the
    /// first entry with a strictly lower value, at the end when there is
    /// none, so equal-valued entries stay in arrival order.
    pub fn add_bundle_id(&mut self, bundle_id: &String, bundle_value: u64)
        requires
            ledger_wf_on_insert(old(self)@.bundles, old(self)@.ordered, bundle_id@),
            bundle_value == val_at(old(self)@.bundles, bundle_id@),
        ensures
            final(self)@ == (FlowView {
                ordered: old(self)@.ordered.insert(
                    insert_pos(old(self)@.bundles, old(self)@.ordered, bundle_value),
                    bundle_id@,
                ),
                ..old(self)@
            }),
            ledger_wf(final(self)@.bundles, final(self)@.ordered),
    {
        let ghost m = self@.bundles;
        let ghost ord0 = self@.ordered;
        let ghost f0 = self@;
        let n = self.ordered_bundle_ids.len();
        proof {
            lemma_vec_deep_view(self.ordered_bundle_ids);
        }
        let mut i: usize = 0;
        while i < n
            invariant
                f0 == self@,
                f0 == old(self)@,
                m == self@.bundles,
                ord0 == self@.ordered,
                n == self.ordered_bundle_ids@.len(),
                n == ord0.len(),
                ledger_wf_on_insert(m, ord0, bundle_id@),
                bundle_value == val_at(m, bundle_id@),
                i <= n,
                forall|k: int| 0 <= k < i ==> val_at(m, ord0[k]) >= bundle_value,
            decreases n - i,
        {
            proof {
                lemma_vec_deep_view(self.ordered_bundle_ids);
                assert(self.ordered_bundle_ids@[i as int]@ == ord0[i as int]);
                assert(has_key(m, ord0[i as int]));
            }
            let b = self.get_bundle(&self.ordered_bundle_ids[i]).unwrap();
            if b.value() < bundle_value {
                proof {
                    assert(val_at(m, ord0[i as int]) < bundle_value);
                    lemma_insert_pos_unique(m, ord0, bundle_value, i as int);
                }
                let ghost opre = self.ordered_bundle_ids;
                let idc = bundle_id.clone();
                let ghost idcv = idc;
                proof {
                    assert(idc.deep_view() == bundle_id@);
                }
                self.ordered_bundle_ids.insert(i, idc);
                proof {
                    opre@.insert_ensures(i as int, idcv);
                    crate::types::lemma_deep_insert(
                        opre,
                        self.ordered_bundle_ids,
                        i as int,
                        bundle_id@,
                    );
                    self.lemma_after_ordered_insert(f0, i as int, bundle_id@, bundle_value);
                }
                return ;
            }
            proof {
                assert(val_at(m, ord0[i as int]) >= bundle_value);
            }
            i += 1;
        }
        proof {
            lemma_insert_pos_unique(m, ord0, bundle_value, n as int);
        }
        let ghost opre = self.ordered_bundle_ids;
        let idc = bundle_id.clone();
        proof {
            assert(idc.deep_view() == bundle_id@);
        }
        self.ordered_bundle_ids.push(idc);
        proof {
            crate::types::lemma_deep_push(opre, self.ordered_bundle_ids, bundle_id@);
            assert(ord0.insert(n as int, bundle_id@) =~= ord0.push(bundle_id@));
            self.lemma_after_ordered_insert(f0, n as int, bundle_id@, bundle_value);
        }
    }

    /// After the ordered sequence gains `id` at the insertion position,
    /// the flow is the expected one and the full ledger invariant holds.
    #[verifier::rlimit(100)]
    proof fn lemma_after_ordered_insert(&self, f0: FlowView, p: int, id: Seq<char>, v: u64)
        requires
            ledger_wf_on_insert(f0.bundles, f0.ordered, id),
            v == val_at(f0.bundles, id),
            p == insert_pos(f0.bundles, f0.ordered, v),
            self@.base == f0.base,
            self@.bundles == f0.bundles,
            self@.mandated == f0.mandated,
            self@.accepted == f0.accepted,
            self@.residual == f0.residual,
            self@.ordered =~= f0.ordered.insert(p, id),
        ensures
            self@ == (FlowView { ordered: f0.ordered.insert(insert_pos(f0.bundles, f0.ordered, v), id), ..f0 }),
            ledger_wf(self@.bundles, self@.ordered),
    {
        let m = f0.bundles;
        let ord0 = f0.ordered;
        let ord1 = ord0.insert(p, id);
        lemma_insert_pos_props(m, ord0, v);
        ord0.insert_ensures(p, id);
        assert(self@ =~= (FlowView { ordered: ord1, ..f0 }));
        // Distinctness of the new ordered sequence.
        assert forall|i: int, j: int| 0 <= i < j < ord1.len() implies ord1[i] != ord1[j] by {
            if i < p && j < p {
            } else if i < p && j == p {
                assert(ord0.contains(ord1[i]));
            } else if i == p {
                assert(ord1[j] == ord0[j - 1]);
                assert(ord0.contains(ord0[j - 1]));
            } else if i < p {
                assert(ord1[j] == ord0[j - 1]);
            } else {
                assert(ord1[i] == ord0[i - 1]);
                assert(ord1[j] == ord0[j - 1]);
            }
        }
        // Every ordered id resolves in the ledger.
        assert forall|i: int| 0 <= i < ord1.len() implies has_key(m, ord1[i]) by {
            if i < p {
            } else if i == p {
            } else {
                assert(ord1[i] == ord0[i - 1]);
            }
        }
        // Every ledger key appears in the ordered sequence.
        assert forall|k: int| 0 <= k < m.len() implies ord1.contains(m[k].0) by {
            if m[k].0 == id {
                assert(ord1[p] == id);
            } else {
                assert(ord0.contains(m[k].0));
                let w = choose|w: int| 0 <= w < ord0.len() && ord0[w] == m[k].0;
                if w < p {
                    assert(ord1[w] == m[k].0);
                } else {
                    assert(ord1[w + 1] == m[k].0);
                }
            }
        }
        // Descending order is preserved around the insertion point.
        assert forall|i: int, j: int| 0 <= i < j < ord1.len() implies val_at(m, ord1[i]) >= val_at(
            m,
            ord1[j],
        ) by {
            if j < p {
            } else if i < p && j == p {
                assert(val_at(m, ord1[i]) >= v);
            } else if i < p && j > p {
                assert(ord1[j] == ord0[j - 1]);
                if p < ord0.len() {
                    assert(val_at(m, ord0[p]) < v);
                    if j - 1 > p {
                        assert(val_at(m, ord0[p]) >= val_at(m, ord0[j - 1]));
                    }
                }
            } else if i == p {
                assert(ord1[j] == ord0[j - 1]);
                assert(val_at(m, ord0[p]) < v);
                if j - 1 > p {
                    assert(val_at(m, ord0[p]) >= val_at(m, ord0[j - 1]));
                }
            } else {
                assert(ord1[i] == ord0[i - 1]);
                assert(ord1[j] == ord0[j - 1]);
            }
        }
    }

    /// Attempts to execute the given transactions against the supplied
    /// world state: the execution adapter's `apply` over the whole list,
    /// all or nothing.
    pub fn execute_bundle(&self, txns: &Vec<Transaction>, execution_state: &mut ExecutionState) -> (ok:
        bool)
        ensures
            ok == apply_succeeds(old(execution_state)@, txns.deep_view()),
            ok ==> final(execution_state)@ == spec_apply(old(execution_state)@, txns.deep_view()),
            !ok ==> final(execution_state)@ == old(execution_state)@,
    {
        execution_state.apply(txns)
    }

    /// Recomputes the block draft from scratch: resets to the round's
    /// starting state and walks the value-ordered bundles, accepting each
    /// one exactly when it executes and leaves the pending inclusion list
    /// executable on top.
    pub fn rebuild(&mut self)
        requires
            old(self).wf(),
        ensures
            final(self).wf(),
            final(self)@ == spec_rebuilt(old(self)@),
            final(self).draft_settled(),
    {
        let ghost f0 = self@;
        let ghost m = f0.bundles;
        let ghost cs = f0.base.conflicts;
        let ghost target = spec_rebuild(f0);
        self.block = Vec::new();
        let mut curr_state = self.starting_state.clone();
        let mut inclusion_list = clone_txns(&self.proposer_requested_txns);
        let n = self.ordered_bundle_ids.len();
        proof {
            lemma_vec_deep_view(self.ordered_bundle_ids);
            assert(self.block.deep_view() =~= Seq::<Seq<char>>::empty());
            assert(f0.ordered.skip(0) =~= f0.ordered);
        }
        let mut idx: usize = 0;
        while idx < n
            invariant
                self.starting_state@ == f0.base,
                self@.bundles == m,
                self@.ordered == f0.ordered,
                self@.mandated == f0.mandated,
                ledger_wf(m, f0.ordered),
                curr_state@.conflicts == cs,
                n == f0.ordered.len(),
                n == self.ordered_bundle_ids@.len(),
                idx <= n,
                target == spec_rebuild_from(
                    m,
                    cs,
                    f0.ordered.skip(idx as int),
                    curr_state@.applied,
                    inclusion_list.deep_view(),
                    self@.accepted,
                ),
            decreases n - idx,
        {
            let ghost cur_ids = f0.ordered.skip(idx as int);
            let ghost rest_ids = f0.ordered.skip(idx as int + 1);
            proof {
                assert(cur_ids.len() == n - idx);
                assert(cur_ids[0] == f0.ordered[idx as int]);
                assert(cur_ids.drop_first() =~= rest_ids);
                lemma_vec_deep_view(self.ordered_bundle_ids);
                assert(self.ordered_bundle_ids@[idx as int]@ == f0.ordered[idx as int]);
                assert(has_key(m, f0.ordered[idx as int]));
            }
            let bundle_id = self.ordered_bundle_ids[idx].clone();
            let bundle = self.get_bundle(&bundle_id).unwrap().clone();
            let ghost b = bundle@;
            proof {
                assert(bundle_id@ == cur_ids[0]);
                assert(b == bundle_of(m, cur_ids[0]));
            }
            let ghost applied0 = curr_state@.applied;
            let ghost incl0 = inclusion_list.deep_view();
            let ghost acc0 = self@.accepted;
            let before = curr_state.checkpoint();
            if self.execute_bundle(&bundle.txns, &mut curr_state) {
                if inclusion_list.len() > 0 {
                    proof {
                        lemma_vec_deep_view(inclusion_list);
                        assert(incl0.len() > 0);
                    }
                    let backup = clone_txns(&inclusion_list);
                    remove_common_txns(&bundle, &mut inclusion_list);
                    let after = curr_state.checkpoint();
                    if self.execute_bundle(&inclusion_list, &mut curr_state) {
                        let ghost blk0 = self.block;
                        self.block.push(bundle_id);
                        curr_state.revert(&after);
                        proof {
                            assert(curr_state@.applied =~= applied0 + b.txns);
                            crate::types::lemma_deep_push(blk0, self.block, cur_ids[0]);
                            assert(self@.accepted =~= acc0.push(cur_ids[0]));
                            assert(spec_rebuild_from(m, cs, cur_ids, applied0, incl0, acc0)
                                == spec_rebuild_from(
                                m,
                                cs,
                                rest_ids,
                                applied0 + b.txns,
                                spec_remove_common(b, incl0),
                                acc0.push(cur_ids[0]),
                            ));
                        }
                    } else {
                        curr_state.revert(&before);
                        inclusion_list = backup;
                        proof {
                            assert(curr_state@.applied =~= applied0);
                            assert(inclusion_list.deep_view() == incl0);
                            assert(spec_rebuild_from(m, cs, cur_ids, applied0, incl0, acc0)
                                == spec_rebuild_from(m, cs, rest_ids, applied0, incl0, acc0));
                        }
                    }
                } else {
                    let ghost blk0 = self.block;
                    self.block.push(bundle_id);
                    proof {
                        assert(incl0.len() == 0);
                        crate::types::lemma_deep_push(blk0, self.block, cur_ids[0]);
                        assert(self@.accepted =~= acc0.push(cur_ids[0]));
                        assert(spec_rebuild_from(m, cs, cur_ids, applied0, incl0, acc0)
                            == spec_rebuild_from(
                            m,
                            cs,
                            rest_ids,
                            applied0 + b.txns,
                            incl0,
                            acc0.push(cur_ids[0]),
                        ));
                    }
                }
            } else {
                curr_state.revert(&before);
                proof {
                    assert(curr_state@.applied =~= applied0);
                    assert(spec_rebuild_from(m, cs, cur_ids, applied0, incl0, acc0)
                        == spec_rebuild_from(m, cs, rest_ids, applied0, incl0, acc0));
                }
            }
            idx += 1;
        }
        proof {
            assert(f0.ordered.skip(n as int) =~= Seq::<Seq<char>>::empty());
            assert(target.accepted == self@.accepted);
            assert(target.residual == inclusion_list.deep_view());
        }
        self.inclusion_list = inclusion_list;
        proof {
            assert(self@ =~= spec_rebuilt(f0));
        }
    }

    /// After entry `i` leaves the map and entry `j` leaves the ordered
    /// sequence, the flow is the expected one and the invariant holds.
    #[verifier::rlimit(100)]
    proof fn lemma_after_removal(&self, f0: FlowView, i: int, j: int, id: Seq<char>)
        requires
            ledger_wf(f0.bundles, f0.ordered),
            0 <= i < f0.bundles.len(),
            f0.bundles[i].0 == id,
            0 <= j < f0.ordered.len(),
            f0.ordered[j] == id,
            self@.base == f0.base,
            self@.mandated == f0.mandated,
            self@.accepted == f0.accepted,
            self@.residual == f0.residual,
            self@.bundles =~= f0.bundles.remove(i),
            self@.ordered =~= f0.ordered.remove(j),
        ensures
            self@ == (FlowView {
                bundles: f0.bundles.remove(i),
                ordered: f0.ordered.remove(j),
                ..f0
            }),
            ledger_wf(self@.bundles, self@.ordered),
    {
        let m = f0.bundles;
        let ord0 = f0.ordered;
        let m1 = m.remove(i);
        let ord1 = ord0.remove(j);
        m.remove_ensures(i);
        ord0.remove_ensures(j);
        assert(self@ =~= (FlowView { bundles: m1, ordered: ord1, ..f0 }));
        // An index mapping for both removals.
        assert forall|k: int| 0 <= k < m1.len() implies m1[k] == (if k < i {
            m[k]
        } else {
            m[k + 1]
        }) by {}
        assert forall|k: int| 0 <= k < ord1.len() implies ord1[k] == (if k < j {
            ord0[k]
        } else {
            ord0[k + 1]
        }) by {}
        // Keys other than `id` keep their bundles after the removal.
        assert forall|x: Seq<char>| has_key(m, x) && x != id implies has_key(m1, x) && bundle_of(
            m1,
            x,
        ) == bundle_of(m, x) by {
            let w = choose|k: int| 0 <= k < m.len() && m[k].0 == x;
            assert(w != i);
            let w1: int = if w < i {
                w
            } else {
                w - 1
            };
            assert(m1[w1].0 == x);
            let wc = choose|k: int| 0 <= k < m1.len() && m1[k].0 == x;
            let worig: int = if wc < i {
                wc
            } else {
                wc + 1
            };
            assert(m[worig].0 == x);
            assert(worig == w);
        }
        // Distinctness survives removal on both sides.
        assert forall|a: int, b2: int| 0 <= a < b2 < m1.len() implies m1[a].0 != m1[b2].0 by {}
        assert forall|a: int, b2: int| 0 <= a < b2 < ord1.len() implies ord1[a] != ord1[b2] by {}
        // The removed id resolves nowhere any more.
        assert forall|k: int| 0 <= k < m1.len() implies m1[k].0 != id by {
            if k < i {
            } else {
                assert(m[k + 1].0 != m[i].0);
            }
        }
        assert forall|k: int| 0 <= k < ord1.len() implies ord1[k] != id by {
            if k < j {
            } else {
                assert(ord0[k + 1] != ord0[j]);
            }
        }
        // Every remaining ordered id resolves in the remaining map.
        assert forall|k: int| 0 <= k < ord1.len() implies has_key(m1, ord1[k]) by {
            assert(has_key(m, ord1[k]));
            assert(ord1[k] != id);
        }
        // Every remaining key is still ordered.
        assert forall|k: int| 0 <= k < m1.len() implies ord1.contains(m1[k].0) by {
            assert(ord0.contains(m1[k].0));
            let w = choose|w: int| 0 <= w < ord0.len() && ord0[w] == m1[k].0;
            assert(m1[k].0 != id);
            assert(w != j);
            if w < j {
                assert(ord1[w] == m1[k].0);
            } else {
                assert(ord1[w - 1] == m1[k].0);
            }
        }
        // Descending order is preserved, with unchanged values.
        assert forall|k: int| 0 <= k < ord1.len() implies val_at(m1, ord1[k]) == val_at(
            m,
            ord1[k],
        ) by {
            assert(has_key(m, ord1[k]));
            assert(ord1[k] != id);
        }
        assert forall|a: int, b2: int| 0 <= a < b2 < ord1.len() implies val_at(m1, ord1[a])
            >= val_at(m1, ord1[b2]) by {
            let ao: int = if a < j {
                a
            } else {
                a + 1
            };
            let bo: int = if b2 < j {
                b2
            } else {
                b2 + 1
            };
            assert(val_at(m, ord0[ao]) >= val_at(m, ord0[bo]));
        }
    }

    /// Collects the transactions of the accepted bundles, in acceptance
    /// order: the bundle part of the candidate block body.
    fn collect_accepted_txns(&self) -> (r: Vec<Transaction>)
        requires
            self.wf(),
            self.draft_settled(),
        ensures
            r.deep_view() == accepted_txns(self@.bundles, self@.accepted),
    {
        let ghost m = self@.bundles;
        let ghost acc = self@.accepted;
        proof {
            lemma_accepted_resolvable(self@);
            lemma_vec_deep_view(self.block);
        }
        let mut r: Vec<Transaction> = Vec::new();
        proof {
            assert(acc.take(0) =~= Seq::<Seq<char>>::empty());
            assert(r.deep_view() =~= accepted_txns(m, acc.take(0)));
        }
        let n = self.block.len();
        let mut i: usize = 0;
        while i < n
            invariant
                self.wf(),
                self.draft_settled(),
                m == self@.bundles,
                acc == self@.accepted,
                forall|k: int| 0 <= k < acc.len() ==> has_key(m, #[trigger] acc[k]),
                n == self.block@.len(),
                n == acc.len(),
                i <= n,
                r.deep_view() == accepted_txns(m, acc.take(i as int)),
            decreases n - i,
        {
            proof {
                lemma_vec_deep_view(self.block);
                assert(self.block@[i as int]@ == acc[i as int]);
                assert(has_key(m, acc[i as int]));
            }
            let b = self.get_bundle(&self.block[i]).unwrap();
            let mut part = clone_txns(&b.txns);
            let ghost rpre = r;
            let ghost partpre = part;
            r.append(&mut part);
            proof {
                crate::types::lemma_deep_concat(rpre, partpre, r);
                assert(acc.take(i + 1) =~= acc.take(i as int).push(acc[i as int]));
                lemma_accepted_txns_push(m, acc.take(i as int), acc[i as int]);
                assert(r.deep_view() =~= accepted_txns(m, acc.take(i + 1)));
            }
            i += 1;
        }
        proof {
            assert(acc.take(n as int) =~= acc);
        }
        r
    }

}


/// The order-flow interface: the operations a block-building strategy
/// offers the round coordinator. One strategy is implemented (the greedy
/// one); alternative selection policies can stand behind the same
/// contract, stated through the interface's own specification functions.
pub trait OrderFlow: Sized {
    /// The invariant the strategy maintains across every operation.
    spec fn inv(&self) -> bool;

    /// Whether the block draft reflects the ledger as it stands.
    spec fn settled(&self) -> bool;

    /// What a starting state must satisfy.
    spec fn new_req(starting_state: &ExecutionState) -> bool;

    /// What a freshly created flow is.
    spec fn new_ens(starting_state: &ExecutionState, r: &Self) -> bool;

    /// What a bundle submission requires of the chosen id.
    spec fn add_bundle_req(pre: &Self, bundle_id: Seq<char>, bundle: &Bundle) -> bool;

    /// How a flow changes when a bundle is added.
    spec fn add_bundle_ens(pre: &Self, post: &Self, bundle_id: Seq<char>, bundle: &Bundle) -> bool;

    /// How a flow changes when a bundle is cancelled.
    spec fn remove_bundle_ens(pre: &Self, post: &Self, bundle_id: Seq<char>, removed: bool) -> bool;

    /// How a flow changes when the inclusion list is replaced.
    spec fn add_inclusion_list_ens(pre: &Self, post: &Self, txns: Seq<TxnView>) -> bool;

    /// What the produced block body is.
    spec fn get_block_ens(&self, r: &crate::types::Block) -> bool;

    /// What the produced block header is.
    spec fn get_block_header_ens(&self, r: &crate::types::BlockHeader) -> bool;

    /// When bundle creation succeeds and what the bundle then is.
    spec fn create_bundle_ens(
        &self,
        txns: Seq<TxnView>,
        bid: crate::types::Bid,
        searcher: Seq<char>,
        r: &Result<Bundle, crate::types::MevBooTeeError>,
    ) -> bool;

    /// Creates a fresh flow for a round, rooted at the given state.
    fn new(starting_state: ExecutionState) -> (r: Self)
        requires
            Self::new_req(&starting_state),
        ensures
            r.inv(),
            r.settled(),
            Self::new_ens(&starting_state, &r),
    ;

    /// Stores a bundle under a fresh id and rebuilds the draft.
    fn add_bundle(&mut self, bundle_id: String, bundle: Bundle)
        requires
            old(self).inv(),
            Self::add_bundle_req(old(self), bundle_id@, &bundle),
        ensures
            final(self).inv(),
            final(self).settled(),
            Self::add_bundle_ens(old(self), final(self), bundle_id@, &bundle),
    ;

    /// Deletes a bundle and its ordered-sequence entry; returns whether
    /// it existed. The caller must trigger a rebuild afterward.
    fn remove_bundle(&mut self, bundle_id: &String) -> (removed: bool)
        requires
            old(self).inv(),
        ensures
            final(self).inv(),
            Self::remove_bundle_ens(old(self), final(self), bundle_id@, removed),
    ;

    /// Replaces the mandated inclusion list wholesale and rebuilds.
    fn add_inclusion_list(&mut self, inclusion_list: Vec<Transaction>)
        requires
            old(self).inv(),
        ensures
            final(self).inv(),
            final(self).settled(),
            Self::add_inclusion_list_ens(old(self), final(self), inclusion_list.deep_view()),
    ;

    /// The candidate block body for the current draft.
    fn get_block(&self) -> (r: crate::types::Block)
        requires
            self.inv(),
            self.settled(),
        ensures
            self.get_block_ens(&r),
    ;

    /// The header a proposer is offered for the current draft.
    fn get_block_header(&self) -> (r: crate::types::BlockHeader)
        requires
            self.inv(),
            self.settled(),
        ensures
            self.get_block_header_ens(&r),
    ;

    /// Creates and verifies a bundle against the draft frontier.
    fn create_bundle(
        &self,
        transactions: Vec<Transaction>,
        bid: crate::types::Bid,
        searcher: String,
    ) -> (r: Result<Bundle, crate::types::MevBooTeeError>)
        requires
            self.inv(),
            self.settled(),
        ensures
            self.create_bundle_ens(transactions.deep_view(), bid, searcher@, &r),
    ;
}

impl OrderFlow for GreedyOrderFlow {
    open spec fn inv(&self) -> bool {
        self.wf()
    }

    open spec fn settled(&self) -> bool {
        self.draft_settled()
    }

    open spec fn new_req(starting_state: &ExecutionState) -> bool {
        compatible(starting_state@.conflicts, starting_state@.applied)
    }

    open spec fn new_ens(starting_state: &ExecutionState, r: &Self) -> bool {
        r@ == (FlowView {
            base: starting_state@,
            bundles: Seq::<(Seq<char>, BundleView)>::empty(),
            ordered: Seq::<Seq<char>>::empty(),
            mandated: Seq::<TxnView>::empty(),
            accepted: Seq::<Seq<char>>::empty(),
            residual: Seq::<TxnView>::empty(),
        })
    }

    open spec fn add_bundle_req(pre: &Self, bundle_id: Seq<char>, bundle: &Bundle) -> bool {
        !has_key(pre@.bundles, bundle_id)
    }

    open spec fn add_bundle_ens(pre: &Self, post: &Self, bundle_id: Seq<char>, bundle: &Bundle) -> bool {
        post@ == spec_rebuilt(spec_add_bundle(pre@, bundle_id, bundle@))
    }

    open spec fn remove_bundle_ens(pre: &Self, post: &Self, bundle_id: Seq<char>, removed: bool) -> bool {
        &&& removed == has_key(pre@.bundles, bundle_id)
        &&& (!removed ==> post@ == pre@)
        &&& (removed ==> exists|i: int, j: int|
            {
                &&& 0 <= i < pre@.bundles.len()
                &&& pre@.bundles[i].0 == bundle_id
                &&& 0 <= j < pre@.ordered.len()
                &&& pre@.ordered[j] == bundle_id
                &&& post@ == (FlowView {
                    bundles: pre@.bundles.remove(i),
                    ordered: pre@.ordered.remove(j),
                    ..pre@
                })
            })
    }

    open spec fn add_inclusion_list_ens(pre: &Self, post: &Self, txns: Seq<TxnView>) -> bool {
        post@ == spec_rebuilt(FlowView { mandated: txns, ..pre@ })
    }

    open spec fn get_block_ens(&self, r: &crate::types::Block) -> bool {
        r.transactions.deep_view() == accepted_txns(self@.bundles, self@.accepted) + self@.residual
    }

    open spec fn get_block_header_ens(&self, r: &crate::types::BlockHeader) -> bool {
        &&& r.transaction_count == (accepted_txns(self@.bundles, self@.accepted)
            + self@.residual).len()
        &&& r.gas_used == crate::types::spec_gas_used(
            accepted_txns(self@.bundles, self@.accepted) + self@.residual,
        )
    }

    open spec fn create_bundle_ens(
        &self,
        txns: Seq<TxnView>,
        bid: crate::types::Bid,
        searcher: Seq<char>,
        r: &Result<Bundle, crate::types::MevBooTeeError>,
    ) -> bool {
        let frontier = spec_rebuild(self@).frontier;
        match r {
            Ok(b) => {
                &&& compatible(self@.base.conflicts, frontier + txns)
                &&& b@.txns == txns
                &&& b@.bid == bid
                &&& b@.searcher == searcher
                &&& b@.estimated_tip == spec_bid_value(bid)
                &&& b@.estimated_gas == crate::types::spec_gas_used(txns)
            },
            Err(e) => {
                &&& !compatible(self@.base.conflicts, frontier + txns)
                &&& e == &crate::types::MevBooTeeError::InvalidBundle
            },
        }
    }

    /// Creates a fresh flow for a round: an empty ledger, no mandated
    /// transactions, and an empty draft, rooted at the given state (whose
    /// own history must be executable, as a fresh round state's is).
    fn new(starting_state: ExecutionState) -> (r: GreedyOrderFlow)
    {
        let r = GreedyOrderFlow {
            starting_state,
            all_bundles: Vec::new(),
            ordered_bundle_ids: Vec::new(),
            proposer_requested_txns: Vec::new(),
            block: Vec::new(),
            inclusion_list: Vec::new(),
        };
        proof {
            assert(r@.bundles =~= Seq::<(Seq<char>, BundleView)>::empty());
            assert(r@.ordered =~= Seq::<Seq<char>>::empty());
            assert(r@.mandated =~= Seq::<TxnView>::empty());
            assert(r@.accepted =~= Seq::<Seq<char>>::empty());
            assert(r@.residual =~= Seq::<TxnView>::empty());
        }
        r
    }

    /// Stores a bundle under a fresh id, files the id by value, and
    /// rebuilds the draft.
    fn add_bundle(&mut self, bundle_id: String, bundle: Bundle)
    {
        let ghost f0 = self@;
        let ghost id = bundle_id@;
        let ghost b = bundle@;
        let v = bundle.value();
        let ghost m1 = f0.bundles.push((id, b));
        proof {
            // The fresh id is in no ordered entry: ordered ids all resolve
            // in the old ledger.
            assert forall|i: int| 0 <= i < f0.ordered.len() implies f0.ordered[i] != id by {
                assert(has_key(f0.bundles, f0.ordered[i]));
            }
        }
        let ghost blpre = self.all_bundles;
        let pair = (bundle_id.clone(), bundle);
        proof {
            assert(pair.deep_view() == (id, b));
        }
        self.all_bundles.push(pair);
        proof {
            crate::types::lemma_deep_push(blpre, self.all_bundles, (id, b));
            assert(self@.bundles =~= m1);
            // The new entry's bundle resolves to `b`, and old entries keep
            // their bundles.
            assert forall|x: Seq<char>| has_key(f0.bundles, x) implies has_key(m1, x) && bundle_of(
                m1,
                x,
            ) == bundle_of(f0.bundles, x) by {
                let w = choose|k: int| 0 <= k < f0.bundles.len() && f0.bundles[k].0 == x;
                assert(m1[w].0 == x);
                let w1 = choose|k: int| 0 <= k < m1.len() && m1[k].0 == x;
                if w1 < f0.bundles.len() {
                    assert(f0.bundles[w1].0 == x);
                    assert(w1 == w);
                } else {
                    assert(m1[w1].0 == id);
                    assert(!has_key(f0.bundles, id));
                    assert(f0.bundles[w].0 != id);
                }
            }
            assert(m1[m1.len() - 1].0 == id);
            let wid = choose|k: int| 0 <= k < m1.len() && m1[k].0 == id;
            if wid < f0.bundles.len() {
                assert(has_key(f0.bundles, id));
            }
            assert(bundle_of(m1, id) == b);
            assert(ledger_wf_on_insert(m1, f0.ordered, id));
            assert(v == val_at(m1, id));
            // Equal values under the extended map keep the ordering facts.
            assert forall|i: int| 0 <= i < f0.ordered.len() implies val_at(m1, f0.ordered[i])
                == val_at(f0.bundles, f0.ordered[i]) by {
                assert(has_key(f0.bundles, f0.ordered[i]));
            }
        }
        self.add_bundle_id(&bundle_id, v);
        proof {
            assert(self@ =~= spec_add_bundle(f0, id, b));
        }
        self.rebuild();
    }

    /// Deletes a bundle and its ordered-sequence entry; returns whether it
    /// existed. Removal alone does not recompute the draft: the caller
    /// must trigger a rebuild afterward.
    fn remove_bundle(&mut self, bundle_id: &String) -> (removed: bool)
    {
        let ghost f0 = self@;
        let ghost m = f0.bundles;
        let ghost ord0 = f0.ordered;
        let ghost id = bundle_id@;
        // Find the entry in the bundle map.
        let mut i: usize = 0;
        let n = self.all_bundles.len();
        proof {
            lemma_vec_deep_view(self.all_bundles);
        }
        while i < n
            invariant
                f0 == self@,
                f0 == old(self)@,
                m == self@.bundles,
                ord0 == self@.ordered,
                ledger_wf(m, ord0),
                compatible(f0.base.conflicts, f0.base.applied),
                id == bundle_id@,
                n == self.all_bundles@.len(),
                i <= n,
                forall|k: int| 0 <= k < i ==> m[k].0 != id,
            decreases n - i,
        {
            proof {
                lemma_vec_deep_view(self.all_bundles);
            }
            if self.all_bundles[i].0 == *bundle_id {
                // Find the id in the ordered sequence; under the invariant
                // it must be there.
                proof {
                    assert(self.all_bundles@[i as int].0@ == bundle_id@);
                    assert(m[i as int] == self.all_bundles@[i as int].deep_view());
                    assert(m[i as int].0 == id);
                    assert(ord0.contains(m[i as int].0));
                }
                let mut j: usize = 0;
                let nn = self.ordered_bundle_ids.len();
                proof {
                    lemma_vec_deep_view(self.ordered_bundle_ids);
                }
                while j < nn
                    invariant
                        f0 == self@,
                        f0 == old(self)@,
                        m == self@.bundles,
                        ord0 == self@.ordered,
                        ledger_wf(m, ord0),
                        compatible(f0.base.conflicts, f0.base.applied),
                        id == bundle_id@,
                        0 <= i < m.len(),
                        i < self.all_bundles@.len(),
                        m[i as int].0 == id,
                        nn == self.ordered_bundle_ids@.len(),
                        nn == ord0.len(),
                        ord0.contains(id),
                        j <= nn,
                        forall|k: int| 0 <= k < j ==> ord0[k] != id,
                    decreases nn - j,
                {
                    proof {
                        lemma_vec_deep_view(self.ordered_bundle_ids);
                    }
                    if self.ordered_bundle_ids[j] == *bundle_id {
                        proof {
                            assert(self.ordered_bundle_ids@[j as int]@ == bundle_id@);
                            assert(ord0[j as int] == id);
                        }
                        let ghost abpre = self.all_bundles;
                        let ghost obpre = self.ordered_bundle_ids;
                        self.all_bundles.remove(i);
                        self.ordered_bundle_ids.remove(j);
                        proof {
                            abpre@.remove_ensures(i as int);
                            obpre@.remove_ensures(j as int);
                            crate::types::lemma_deep_remove(abpre, self.all_bundles, i as int);
                            crate::types::lemma_deep_remove(
                                obpre,
                                self.ordered_bundle_ids,
                                j as int,
                            );
                            self.lemma_after_removal(f0, i as int, j as int, id);
                        }
                        return true;
                    }
                    j += 1;
                }
                proof {
                    // Unreachable: the invariant places the id in the
                    // ordered sequence, yet the scan found it nowhere.
                    let w = choose|k: int| 0 <= k < ord0.len() && ord0[k] == id;
                    assert(ord0[w] != id);
                }
                return true;
            }
            i += 1;
        }
        proof {
            assert(!has_key(m, id));
        }
        false
    }

    /// Replaces the mandated inclusion list wholesale and rebuilds the
    /// draft against it.
    fn add_inclusion_list(&mut self, inclusion_list: Vec<Transaction>)
    {
        let ghost f0 = self@;
        let ghost incl = inclusion_list.deep_view();
        self.proposer_requested_txns = inclusion_list;
        proof {
            assert(self@ =~= (FlowView { mandated: incl, ..f0 }));
        }
        self.rebuild();
    }

    /// The candidate block body: the transactions of every accepted
    /// bundle, in acceptance order, followed by the residual inclusion
    /// list.
    fn get_block(&self) -> (r: crate::types::Block)
    {
        let mut body = self.collect_accepted_txns();
        let mut tail = clone_txns(&self.inclusion_list);
        let ghost bpre = body;
        let ghost tpre = tail;
        body.append(&mut tail);
        proof {
            crate::types::lemma_deep_concat(bpre, tpre, body);
        }
        crate::types::Block { transactions: body }
    }

    /// The header a proposer is offered for the current draft: derived
    /// from the candidate body alone.
    fn get_block_header(&self) -> (r: crate::types::BlockHeader)
    {
        let body = self.get_block();
        let count = body.transactions.len();
        proof {
            lemma_vec_deep_view(body.transactions);
        }
        let gas_used = crate::types::gas_of_txns(&body.transactions);
        crate::types::BlockHeader { transaction_count: count as u64, gas_used }
    }

    /// Creates and verifies a bundle against the current draft's frontier
    /// state: the given transactions are executed on top of the accepted
    /// bundles, and a bundle that cannot execute there is rejected and
    /// never enters the ledger. The bundle's tip is its bid's effective
    /// value; its gas estimate is the (saturated) sum of its transactions'.
    fn create_bundle(
        &self,
        transactions: Vec<Transaction>,
        bid: crate::types::Bid,
        searcher: String,
    ) -> (r: Result<Bundle, crate::types::MevBooTeeError>)
    {
        proof {
            lemma_rebuild_frontier(
                self@.bundles,
                self@.base.conflicts,
                self@.ordered,
                self@.base.applied,
                self@.mandated,
                Seq::<Seq<char>>::empty(),
            );
            assert(spec_rebuild(self@).accepted.skip(0) =~= spec_rebuild(self@).accepted);
        }
        let mut state = self.starting_state.clone();
        let acc_txns = self.collect_accepted_txns();
        let replay_ok = state.apply(&acc_txns);
        proof {
            assert(replay_ok);
            assert(state@.applied == spec_rebuild(self@).frontier);
        }
        let ok = state.apply(&transactions);
        if ok {
            let estimated_gas = crate::types::gas_of_txns(&transactions);
            let estimated_tip = bid.effective_value();
            Ok(Bundle { searcher, bid, txns: transactions, estimated_tip, estimated_gas })
        } else {
            Err(crate::types::MevBooTeeError::InvalidBundle)
        }
    }
}

/// The transactions of the given bundles, concatenated in order: the body
/// prefix that a sequence of accepted bundles contributes.
pub open spec fn accepted_txns(m: LedgerView, ids: Seq<Seq<char>>) -> Seq<TxnView>
    decreases ids.len(),
{
    if ids.len() == 0 {
        Seq::<TxnView>::empty()
    } else {
        bundle_of(m, ids[0]).txns + accepted_txns(m, ids.drop_first())
    }
}

/// Concatenated bundle transactions unfold from the front.
pub proof fn lemma_accepted_txns_cons(m: LedgerView, x: Seq<char>, rest: Seq<Seq<char>>)
    ensures
        accepted_txns(m, seq![x] + rest) == bundle_of(m, x).txns + accepted_txns(m, rest),
{
    assert((seq![x] + rest)[0] == x);
    assert((seq![x] + rest).drop_first() =~= rest);
}

/// Concatenated bundle transactions unfold from the back.
pub proof fn lemma_accepted_txns_push(m: LedgerView, ids: Seq<Seq<char>>, x: Seq<char>)
    ensures
        accepted_txns(m, ids.push(x)) == accepted_txns(m, ids) + bundle_of(m, x).txns,
    decreases ids.len(),
{
    if ids.len() == 0 {
        assert(ids.push(x) =~= seq![x] + Seq::<Seq<char>>::empty());
        lemma_accepted_txns_cons(m, x, Seq::<Seq<char>>::empty());
        assert(accepted_txns(m, Seq::<Seq<char>>::empty()) == Seq::<TxnView>::empty());
        assert(bundle_of(m, x).txns + Seq::<TxnView>::empty() =~= bundle_of(m, x).txns);
        assert(Seq::<TxnView>::empty() + bundle_of(m, x).txns =~= bundle_of(m, x).txns);
    } else {
        assert(ids.push(x)[0] == ids[0]);
        assert(ids.push(x).drop_first() =~= ids.drop_first().push(x));
        lemma_accepted_txns_push(m, ids.drop_first(), x);
        assert(bundle_of(m, ids[0]).txns + (accepted_txns(m, ids.drop_first()) + bundle_of(
            m,
            x,
        ).txns) =~= (bundle_of(m, ids[0]).txns + accepted_txns(m, ids.drop_first())) + bundle_of(
            m,
            x,
        ).txns);
    }
}

/// What a rebuild's frontier is: the ids accepted beyond the starting
/// accumulator all come from the remaining ordered ids, their
/// transactions extend the incoming history in order, and the resulting
/// frontier is executable whenever the incoming history was.
pub proof fn lemma_rebuild_frontier(
    m: LedgerView,
    cs: Seq<(Seq<char>, Seq<char>)>,
    ids: Seq<Seq<char>>,
    applied: Seq<TxnView>,
    incl: Seq<TxnView>,
    acc: Seq<Seq<char>>,
)
    ensures
        ({
            let res = spec_rebuild_from(m, cs, ids, applied, incl, acc);
            &&& res.accepted.len() >= acc.len()
            &&& res.accepted.take(acc.len() as int) == acc
            &&& res.frontier == applied + accepted_txns(
                m,
                res.accepted.skip(acc.len() as int),
            )
            &&& forall|k: int|
                acc.len() <= k < res.accepted.len() ==> ids.contains(#[trigger] res.accepted[k])
            &&& (compatible(cs, applied) ==> compatible(cs, res.frontier))
        }),
    decreases ids.len(),
{
    let res = spec_rebuild_from(m, cs, ids, applied, incl, acc);
    if ids.len() == 0 {
        assert(res.accepted.take(acc.len() as int) =~= acc);
        assert(res.accepted.skip(acc.len() as int) =~= Seq::<Seq<char>>::empty());
        assert(applied + accepted_txns(m, Seq::<Seq<char>>::empty()) =~= applied);
    } else {
        let b = bundle_of(m, ids[0]);
        let rest = ids.drop_first();
        let accepts = compatible(cs, applied + b.txns) && (incl.len() == 0 || compatible(
            cs,
            applied + b.txns + spec_remove_common(b, incl),
        ));
        if accepts {
            let acc1 = acc.push(ids[0]);
            let applied1 = applied + b.txns;
            let incl1: Seq<TxnView> = if incl.len() > 0 {
                spec_remove_common(b, incl)
            } else {
                incl
            };
            lemma_rebuild_frontier(m, cs, rest, applied1, incl1, acc1);
            assert(res == spec_rebuild_from(m, cs, rest, applied1, incl1, acc1));
            assert(res.accepted.take(acc1.len() as int) == acc1);
            assert forall|i: int| 0 <= i < acc.len() implies res.accepted[i] == acc[i] by {
                assert(res.accepted.take(acc1.len() as int)[i] == acc1[i]);
            }
            assert(res.accepted.take(acc.len() as int) =~= acc);
            assert(res.accepted[acc.len() as int] == acc1[acc.len() as int]);
            assert(res.accepted[acc.len() as int] == ids[0]);
            // The frontier: peel the newly accepted bundle off the front.
            assert(res.accepted.skip(acc.len() as int) =~= seq![ids[0]] + res.accepted.skip(
                acc1.len() as int,
            ));
            lemma_accepted_txns_cons(m, ids[0], res.accepted.skip(acc1.len() as int));
            assert(applied + accepted_txns(m, res.accepted.skip(acc.len() as int)) =~= applied1
                + accepted_txns(m, res.accepted.skip(acc1.len() as int)));
            // Membership of every newly accepted id.
            assert forall|k: int| acc.len() <= k < res.accepted.len() implies ids.contains(
                #[trigger] res.accepted[k],
            ) by {
                if k == acc.len() {
                    assert(ids[0] == res.accepted[k]);
                } else {
                    assert(rest.contains(res.accepted[k]));
                    let w = choose|w: int| 0 <= w < rest.len() && rest[w] == res.accepted[k];
                    assert(ids[w + 1] == res.accepted[k]);
                }
            }
            // Executability: the accept branch checked the extended history.
            assert(compatible(cs, applied1));
        } else {
            lemma_rebuild_frontier(m, cs, rest, applied, incl, acc);
            assert(res == spec_rebuild_from(m, cs, rest, applied, incl, acc));
            assert forall|k: int| acc.len() <= k < res.accepted.len() implies ids.contains(
                #[trigger] res.accepted[k],
            ) by {
                assert(rest.contains(res.accepted[k]));
                let w = choose|w: int| 0 <= w < rest.len() && rest[w] == res.accepted[k];
                assert(ids[w + 1] == res.accepted[k]);
            }
        }
    }
}

/// Whether `a` is an order-preserving subsequence of `b`.
pub open spec fn is_subseq_of(a: Seq<Seq<char>>, b: Seq<Seq<char>>) -> bool
    decreases b.len(),
{
    if a.len() == 0 {
        true
    } else if b.len() == 0 {
        false
    } else if a[0] == b[0] {
        is_subseq_of(a.drop_first(), b.drop_first())
    } else {
        is_subseq_of(a, b.drop_first())
    }
}

/// A subsequence with its first element dropped is still a subsequence.
proof fn lemma_subseq_drop_first(a: Seq<Seq<char>>, b: Seq<Seq<char>>)
    requires
        a.len() > 0,
        is_subseq_of(a, b),
    ensures
        is_subseq_of(a.drop_first(), b),
    decreases b.len(), 0int,
{
    if b.len() == 0 {
    } else if a[0] == b[0] {
        lemma_subseq_cons(a.drop_first(), b.drop_first(), b[0]);
        assert(seq![b[0]] + b.drop_first() =~= b);
    } else {
        lemma_subseq_drop_first(a, b.drop_first());
        lemma_subseq_cons(a.drop_first(), b.drop_first(), b[0]);
        assert(seq![b[0]] + b.drop_first() =~= b);
    }
}

/// A subsequence of `b` is a subsequence of `b` with anything prepended.
proof fn lemma_subseq_cons(a: Seq<Seq<char>>, b: Seq<Seq<char>>, x: Seq<char>)
    requires
        is_subseq_of(a, b),
    ensures
        is_subseq_of(a, seq![x] + b),
    decreases b.len(), 1int,
{
    let c = seq![x] + b;
    assert(c.len() == b.len() + 1);
    if a.len() == 0 {
    } else {
        assert(c[0] == x);
        assert(c.drop_first() =~= b);
        if a[0] == x {
            lemma_subseq_drop_first(a, b);
        }
    }
}

/// The ids a greedy pass accepts beyond its accumulator form an
/// order-preserving subsequence of the ids it walked.
pub proof fn lemma_rebuild_subseq(
    m: LedgerView,
    cs: Seq<(Seq<char>, Seq<char>)>,
    ids: Seq<Seq<char>>,
    applied: Seq<TxnView>,
    incl: Seq<TxnView>,
    acc: Seq<Seq<char>>,
)
    ensures
        is_subseq_of(
            spec_rebuild_from(m, cs, ids, applied, incl, acc).accepted.skip(acc.len() as int),
            ids,
        ),
    decreases ids.len(),
{
    let res = spec_rebuild_from(m, cs, ids, applied, incl, acc);
    lemma_rebuild_frontier(m, cs, ids, applied, incl, acc);
    if ids.len() == 0 {
        assert(res.accepted.skip(acc.len() as int) =~= Seq::<Seq<char>>::empty());
    } else {
        let b = bundle_of(m, ids[0]);
        let rest = ids.drop_first();
        let accepts = compatible(cs, applied + b.txns) && (incl.len() == 0 || compatible(
            cs,
            applied + b.txns + spec_remove_common(b, incl),
        ));
        if accepts {
            let acc1 = acc.push(ids[0]);
            let applied1 = applied + b.txns;
            let incl1: Seq<TxnView> = if incl.len() > 0 {
                spec_remove_common(b, incl)
            } else {
                incl
            };
            lemma_rebuild_subseq(m, cs, rest, applied1, incl1, acc1);
            lemma_rebuild_frontier(m, cs, rest, applied1, incl1, acc1);
            assert(res == spec_rebuild_from(m, cs, rest, applied1, incl1, acc1));
            let tail = res.accepted.skip(acc.len() as int);
            assert(res.accepted.take(acc1.len() as int) == acc1);
            assert(res.accepted.len() >= acc1.len());
            assert(res.accepted.take(acc1.len() as int)[acc.len() as int] == res.accepted[acc.len() as int]);
            assert(acc1[acc.len() as int] == ids[0]);
            assert(res.accepted[acc.len() as int] == ids[0]);
            assert(tail.len() > 0);
            assert(tail[0] == ids[0]);
            assert(tail.drop_first() =~= res.accepted.skip(acc1.len() as int));
        } else {
            lemma_rebuild_subseq(m, cs, rest, applied, incl, acc);
            assert(res == spec_rebuild_from(m, cs, rest, applied, incl, acc));
            let tail = res.accepted.skip(acc.len() as int);
            lemma_subseq_cons(tail, rest, ids[0]);
            assert(seq![ids[0]] + rest =~= ids);
        }
    }
}

/// The block draft's bundle-id sequence is always an order-preserving
/// subsequence of the ledger's ordered id sequence.
pub proof fn lemma_draft_subsequence(f: FlowView)
    ensures
        is_subseq_of(spec_rebuild(f).accepted, f.ordered),
{
    lemma_rebuild_subseq(
        f.bundles,
        f.base.conflicts,
        f.ordered,
        f.base.applied,
        f.mandated,
        Seq::<Seq<char>>::empty(),
    );
    assert(spec_rebuild(f).accepted.skip(0) =~= spec_rebuild(f).accepted);
}

/// Whether no transaction of `incl` appears in any of the bundles that
/// `acc` names.
pub open spec fn draft_disjoint(m: LedgerView, acc: Seq<Seq<char>>, incl: Seq<TxnView>) -> bool {
    forall|k: int, j: int|
        0 <= k < acc.len() && 0 <= j < incl.len() ==> !bundle_contains(
            bundle_of(m, #[trigger] acc[k]),
            #[trigger] incl[j],
        )
}

/// Inclusion-list containment, over the greedy pass: if the incoming
/// residual shares no transaction with the bundles accepted so far, then
/// after the pass no residual transaction appears in any accepted bundle.
pub proof fn lemma_rebuild_containment(
    m: LedgerView,
    cs: Seq<(Seq<char>, Seq<char>)>,
    ids: Seq<Seq<char>>,
    applied: Seq<TxnView>,
    incl: Seq<TxnView>,
    acc: Seq<Seq<char>>,
)
    requires
        draft_disjoint(m, acc, incl),
    ensures
        draft_disjoint(
            m,
            spec_rebuild_from(m, cs, ids, applied, incl, acc).accepted,
            spec_rebuild_from(m, cs, ids, applied, incl, acc).residual,
        ),
    decreases ids.len(),
{
    let res = spec_rebuild_from(m, cs, ids, applied, incl, acc);
    if ids.len() == 0 {
    } else {
        let b = bundle_of(m, ids[0]);
        let rest = ids.drop_first();
        if compatible(cs, applied + b.txns) {
            if incl.len() > 0 {
                let incl2 = spec_remove_common(b, incl);
                if compatible(cs, applied + b.txns + incl2) {
                    let acc1 = acc.push(ids[0]);
                    lemma_remove_common_membership(b, incl);
                    assert forall|k: int, j: int|
                        0 <= k < acc1.len() && 0 <= j < incl2.len() implies !bundle_contains(
                        bundle_of(m, #[trigger] acc1[k]),
                        #[trigger] incl2[j],
                    ) by {
                        if k < acc.len() {
                            assert(incl.contains(incl2[j]));
                            let w = choose|w: int| 0 <= w < incl.len() && incl[w] == incl2[j];
                            assert(!bundle_contains(bundle_of(m, acc[k]), incl[w]));
                        } else {
                            assert(acc1[k] == ids[0]);
                            assert(!bundle_contains(b, incl2[j]));
                        }
                    }
                    lemma_rebuild_containment(m, cs, rest, applied + b.txns, incl2, acc1);
                } else {
                    lemma_rebuild_containment(m, cs, rest, applied, incl, acc);
                }
            } else {
                let acc1 = acc.push(ids[0]);
                assert(draft_disjoint(m, acc1, incl));
                lemma_rebuild_containment(m, cs, rest, applied + b.txns, incl, acc1);
            }
        } else {
            lemma_rebuild_containment(m, cs, rest, applied, incl, acc);
        }
    }
}

/// Inclusion-list containment for a whole rebuild: no transaction of the
/// final residual inclusion list appears in any accepted bundle.
pub proof fn lemma_inclusion_containment(f: FlowView)
    ensures
        draft_disjoint(f.bundles, spec_rebuild(f).accepted, spec_rebuild(f).residual),
{
    lemma_rebuild_containment(
        f.bundles,
        f.base.conflicts,
        f.ordered,
        f.base.applied,
        f.mandated,
        Seq::<Seq<char>>::empty(),
    );
}

/// Every id a rebuild accepts resolves in a well-formed ledger.
pub proof fn lemma_accepted_resolvable(f: FlowView)
    requires
        ledger_wf(f.bundles, f.ordered),
    ensures
        forall|k: int|
            0 <= k < spec_rebuild(f).accepted.len() ==> has_key(
                f.bundles,
                #[trigger] spec_rebuild(f).accepted[k],
            ),
{
    lemma_rebuild_frontier(
        f.bundles,
        f.base.conflicts,
        f.ordered,
        f.base.applied,
        f.mandated,
        Seq::<Seq<char>>::empty(),
    );
    assert forall|k: int| 0 <= k < spec_rebuild(f).accepted.len() implies has_key(
        f.bundles,
        #[trigger] spec_rebuild(f).accepted[k],
    ) by {
        assert(f.ordered.contains(spec_rebuild(f).accepted[k]));
        let w = choose|w: int| 0 <= w < f.ordered.len() && f.ordered[w] == spec_rebuild(f).accepted[k];
        assert(has_key(f.bundles, f.ordered[w]));
    }
}

/// Exclusion is not deletion: a rebuild never touches the ledger, its
/// ordering, the mandated list or the base state. A bundle excluded from
/// the draft stays retrievable under its id and stays a candidate for the
/// next rebuild.
pub proof fn lemma_exclusion_not_deletion(f: FlowView)
    ensures
        spec_rebuilt(f).bundles == f.bundles,
        spec_rebuilt(f).ordered == f.ordered,
        spec_rebuilt(f).mandated == f.mandated,
        spec_rebuilt(f).base == f.base,
        forall|id: Seq<char>| has_key(spec_rebuilt(f).bundles, id) == has_key(f.bundles, id),
{
}

/// Rebuild is idempotent: rebuilding an already rebuilt flow settles the
/// same draft, because a rebuild reads only the parts it does not change.
pub proof fn lemma_rebuild_idempotent(f: FlowView)
    ensures
        spec_rebuilt(spec_rebuilt(f)) == spec_rebuilt(f),
{
    let f1 = spec_rebuilt(f);
    assert(spec_rebuild(f1) == spec_rebuild(f));
    assert(spec_rebuilt(f1) =~= f1);
}

/// Ordering stability: an id inserted with value `v` lands after every
/// entry of value at least `v` (equal-valued entries keep arrival order)
/// and before every entry of strictly lower value.
pub proof fn lemma_ordering_stability(m: LedgerView, ordered: Seq<Seq<char>>, v: u64)
    ensures
        0 <= insert_pos(m, ordered, v) <= ordered.len(),
        forall|k: int| 0 <= k < insert_pos(m, ordered, v) ==> val_at(m, ordered[k]) >= v,
        insert_pos(m, ordered, v) < ordered.len() ==> val_at(
            m,
            ordered[insert_pos(m, ordered, v)],
        ) < v,
{
    lemma_insert_pos_props(m, ordered, v);
}

} // verus!
