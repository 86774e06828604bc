//! The execution adapter: a world-state lineage rooted at a round's
//! starting state, holding the history of applied transactions. It offers
//! the narrow contract the assembler depends on: `checkpoint`, `apply` and
//! `revert`.
//!
//! The world state of a round is determined by the round's base state and
//! the ordered history of applied transactions, so the state (and its
//! root) is modelled by that history. Which transactions can execute
//! together is fixed per round by the state lineage; it is modelled as a
//! symmetric conflict relation over transaction payloads, given when the
//! round's state is created: applying a sequence succeeds exactly when the
//! extended history contains no conflicting pair.

use vstd::prelude::*;

use crate::types::clone_txns;
use crate::types::lemma_vec_deep_view;
use crate::types::Transaction;
use crate::types::TxnView;

verus! {

/// Mathematical model of an [`ExecutionState`]: the conflict relation
/// fixed at round start and the history of applied transactions.
#[verifier::ext_equal]
pub ghost struct StateView {
    pub conflicts: Seq<(Seq<char>, Seq<char>)>,
    pub applied: Seq<TxnView>,
}

/// Whether the payloads `a` and `b` conflict under the relation `cs`
/// (in either orientation).
pub open spec fn pair_conflicts(cs: Seq<(Seq<char>, Seq<char>)>, a: Seq<char>, b: Seq<char>) -> bool {
    exists|k: int|
        0 <= k < cs.len() && ((cs[k].0 == a && cs[k].1 == b) || (cs[k].0 == b && cs[k].1 == a))
}

/// Whether a transaction history is executable: no two of its
/// transactions conflict.
pub open spec fn compatible(cs: Seq<(Seq<char>, Seq<char>)>, h: Seq<TxnView>) -> bool {
    forall|i: int, j: int|
        0 <= i < j < h.len() ==> !pair_conflicts(cs, h[i].payload, h[j].payload)
}

/// Whether applying `txns` on top of state `s` succeeds.
pub open spec fn apply_succeeds(s: StateView, txns: Seq<TxnView>) -> bool {
    compatible(s.conflicts, s.applied + txns)
}

/// The state after a successful application of `txns`.
pub open spec fn spec_apply(s: StateView, txns: Seq<TxnView>) -> StateView {
    StateView { conflicts: s.conflicts, applied: s.applied + txns }
}

/// The state after reverting to a checkpoint taken when `count`
/// transactions were applied.
pub open spec fn spec_revert(s: StateView, count: int) -> StateView {
    StateView { conflicts: s.conflicts, applied: s.applied.take(count) }
}

/// An opaque token identifying a point in applied-transaction history (and
/// thereby in world-state history); used to revert.
#[derive(Clone, Copy, PartialEq, Eq, Structural, Debug)]
pub struct Checkpoint {
    pub count: usize,
}

/// A round's world-state lineage: the applied-transaction history over a
/// fixed per-round conflict relation.
pub struct ExecutionState {
    /// The payload pairs that cannot execute in one history, fixed at
    /// round start by the state lineage.
    pub conflicts: Vec<(String, String)>,
    /// The applied-transaction history, oldest first.
    pub applied: Vec<Transaction>,
}

impl View for ExecutionState {
    type V = StateView;

    open spec fn view(&self) -> StateView {
        StateView { conflicts: self.conflicts.deep_view(), applied: self.applied.deep_view() }
    }
}

/// Whether two transactions conflict under the given relation.
fn txns_conflict(conflicts: &Vec<(String, String)>, a: &Transaction, b: &Transaction) -> (r: bool)
    ensures
        r == pair_conflicts(conflicts.deep_view(), a@.payload, b@.payload),
{
    let ghost cs = conflicts.deep_view();
    let mut k: usize = 0;
    while k < conflicts.len()
        invariant
            cs == conflicts.deep_view(),
            k <= conflicts.len(),
            forall|i: int|
                0 <= i < k ==> !((cs[i].0 == a@.payload && cs[i].1 == b@.payload) || (cs[i].0
                    == b@.payload && cs[i].1 == a@.payload)),
        decreases conflicts.len() - k,
    {
        let hit = (conflicts[k].0 == a.payload && conflicts[k].1 == b.payload) || (conflicts[k].0
            == b.payload && conflicts[k].1 == a.payload);
        if hit {
            proof {
                lemma_vec_deep_view(*conflicts);
                assert(cs[k as int].0 == conflicts@[k as int].0@ && cs[k as int].1 == conflicts@[
                    k as int].1@);
                assert((cs[k as int].0 == a@.payload && cs[k as int].1 == b@.payload) || (cs[
                    k as int].0 == b@.payload && cs[k as int].1 == a@.payload));
            }
            return true;
        }
        k += 1;
    }
    false
}

/// Whether the history `applied + txns` is executable: checks every pair
/// of it for a conflict.
fn check_compatible(
    conflicts: &Vec<(String, String)>,
    applied: &Vec<Transaction>,
    txns: &Vec<Transaction>,
) -> (r: bool)
    ensures
        r == compatible(conflicts.deep_view(), applied.deep_view() + txns.deep_view()),
{
    let ghost cs = conflicts.deep_view();
    let ghost all = applied.deep_view() + txns.deep_view();
    let n = applied.len();
    let m = txns.len();
    // Pairs within the already-applied history.
    let mut i: usize = 0;
    while i < n
        invariant
            cs == conflicts.deep_view(),
            all == applied.deep_view() + txns.deep_view(),
            n == applied.deep_view().len(),
            i <= n,
            forall|p: int, q: int|
                0 <= p < q < n && p < i ==> !pair_conflicts(cs, all[p].payload, all[q].payload),
        decreases n - i,
    {
        let mut j: usize = i + 1;
        while j < n
            invariant
                cs == conflicts.deep_view(),
                all == applied.deep_view() + txns.deep_view(),
                n == applied.deep_view().len(),
                i < j <= n,
                forall|q: int|
                    i < q < j ==> !pair_conflicts(cs, all[i as int].payload, all[q].payload),
            decreases n - j,
        {
            if txns_conflict(conflicts, &applied[i], &applied[j]) {
                proof {
                    assert(pair_conflicts(cs, all[i as int].payload, all[j as int].payload));
                }
                return false;
            }
            j += 1;
        }
        i += 1;
    }
    // Pairs of one applied transaction and one new transaction.
    let mut i2: usize = 0;
    while i2 < n
        invariant
            cs == conflicts.deep_view(),
            all == applied.deep_view() + txns.deep_view(),
            n == applied.deep_view().len(),
            m == txns.deep_view().len(),
            i2 <= n,
            forall|p: int, q: int|
                0 <= p < q < n ==> !pair_conflicts(cs, all[p].payload, all[q].payload),
            forall|p: int, q: int|
                0 <= p < i2 && n <= q < n + m ==> !pair_conflicts(cs, all[p].payload, all[q].payload),
        decreases n - i2,
    {
        let mut j: usize = 0;
        while j < m
            invariant
                cs == conflicts.deep_view(),
                all == applied.deep_view() + txns.deep_view(),
                n == applied.deep_view().len(),
                m == txns.deep_view().len(),
                i2 < n,
                j <= m,
                forall|q: int|
                    n <= q < n + j ==> !pair_conflicts(cs, all[i2 as int].payload, all[q].payload),
            decreases m - j,
        {
            if txns_conflict(conflicts, &applied[i2], &txns[j]) {
                proof {
                    assert(pair_conflicts(cs, all[i2 as int].payload, all[n + j].payload));
                }
                return false;
            }
            j += 1;
        }
        i2 += 1;
    }
    // Pairs within the new transactions.
    let mut i3: usize = 0;
    while i3 < m
        invariant
            cs == conflicts.deep_view(),
            all == applied.deep_view() + txns.deep_view(),
            n == applied.deep_view().len(),
            m == txns.deep_view().len(),
            i3 <= m,
            forall|p: int, q: int|
                0 <= p < q < n ==> !pair_conflicts(cs, all[p].payload, all[q].payload),
            forall|p: int, q: int|
                0 <= p < n && n <= q < n + m ==> !pair_conflicts(cs, all[p].payload, all[q].payload),
            forall|p: int, q: int|
                n <= p < q < n + m && p < n + i3 ==> !pair_conflicts(cs, all[p].payload, all[q].payload),
        decreases m - i3,
    {
        let mut j: usize = i3 + 1;
        while j < m
            invariant
                cs == conflicts.deep_view(),
                all == applied.deep_view() + txns.deep_view(),
                n == applied.deep_view().len(),
                m == txns.deep_view().len(),
                i3 < m,
                i3 < j <= m,
                forall|q: int|
                    n + i3 < q < n + j ==> !pair_conflicts(
                        cs,
                        all[n + i3].payload,
                        (#[trigger] all[q]).payload,
                    ),
            decreases m - j,
        {
            if txns_conflict(conflicts, &txns[i3], &txns[j]) {
                proof {
                    assert(pair_conflicts(cs, all[n + i3].payload, all[n + j].payload));
                }
                return false;
            }
            j += 1;
        }
        i3 += 1;
    }
    proof {
        assert forall|p: int, q: int| 0 <= p < q < all.len() implies !pair_conflicts(
            cs,
            all[p].payload,
            all[q].payload,
        ) by {
            if q < n {
            } else if p < n {
            } else {
            }
        }
    }
    true
}

impl ExecutionState {
    /// A fresh state lineage with no applied transactions and no conflicts:
    /// every application succeeds.
    pub fn new() -> (r: ExecutionState)
        ensures
            r@.applied =~= Seq::<TxnView>::empty(),
            r@.conflicts =~= Seq::<(Seq<char>, Seq<char>)>::empty(),
    {
        ExecutionState { conflicts: Vec::new(), applied: Vec::new() }
    }

    /// A fresh state lineage whose executability is governed by the given
    /// payload conflict pairs.
    pub fn with_conflicts(conflicts: Vec<(String, String)>) -> (r: ExecutionState)
        ensures
            r@.applied =~= Seq::<TxnView>::empty(),
            r@.conflicts == conflicts.deep_view(),
    {
        ExecutionState { conflicts, applied: Vec::new() }
    }

    /// Captures the current point in applied-transaction history; cheap, no
    /// re-execution.
    pub fn checkpoint(&self) -> (c: Checkpoint)
        ensures
            c.count == self@.applied.len(),
    {
        Checkpoint { count: self.applied.len() }
    }

    /// The number of transactions applied so far.
    pub fn applied_count(&self) -> (r: usize)
        ensures
            r == self@.applied.len(),
    {
        self.applied.len()
    }

    /// The applied-transaction history, oldest first.
    pub fn applied_history(&self) -> (r: Vec<Transaction>)
        ensures
            r.deep_view() == self@.applied,
    {
        clone_txns(&self.applied)
    }

    /// Attempts to execute `txns`, in order, on top of the current state.
    /// Success is an all-or-nothing outcome: on success the whole sequence
    /// is appended to the history; on failure the state is unchanged (a
    /// failed application leaves no partial effects to observe).
    pub fn apply(&mut self, txns: &Vec<Transaction>) -> (ok: bool)
        ensures
            ok == apply_succeeds(old(self)@, txns.deep_view()),
            ok ==> final(self)@ == spec_apply(old(self)@, txns.deep_view()),
            !ok ==> final(self)@ == old(self)@,
    {
        let ok = check_compatible(&self.conflicts, &self.applied, txns);
        if ok {
            let ghost applied0 = self.applied@;
            let ghost conflicts0 = self.conflicts;
            let m = txns.len();
            let mut k: usize = 0;
            while k < m
                invariant
                    m == txns@.len(),
                    k <= m,
                    self.conflicts == conflicts0,
                    self.applied@.len() == applied0.len() + k,
                    forall|i: int| 0 <= i < applied0.len() ==> self.applied@[i] == applied0[i],
                    forall|i: int|
                        0 <= i < k ==> (#[trigger] self.applied@[applied0.len() + i])@ == txns@[i]@,
                decreases m - k,
            {
                self.applied.push(txns[k].clone());
                k += 1;
            }
            proof {
                lemma_vec_deep_view(self.applied);
                lemma_vec_deep_view(old(self).applied);
                lemma_vec_deep_view(*txns);
                assert(old(self).applied@ == applied0);
                assert forall|i: int| 0 <= i < self@.applied.len() implies self@.applied[i] == (old(
                    self,
                )@.applied + txns.deep_view())[i] by {
                    if i < applied0.len() {
                        assert(self.applied@[i] == applied0[i]);
                    } else {
                        let j = i - applied0.len();
                        assert((self.applied@[applied0.len() + j])@ == txns@[j]@);
                    }
                }
                assert(self@.applied =~= old(self)@.applied + txns.deep_view());
                assert(self@ =~= spec_apply(old(self)@, txns.deep_view()));
            }
            true
        } else {
            false
        }
    }

    /// Truncates the applied-transaction history back to the checkpoint,
    /// restoring the world state as of that point. Safe to call when
    /// nothing was applied since the checkpoint (a no-op then).
    pub fn revert(&mut self, c: &Checkpoint)
        requires
            c.count <= old(self)@.applied.len(),
        ensures
            final(self)@ == spec_revert(old(self)@, c.count as int),
    {
        self.applied.truncate(c.count);
        proof {
            assert(self@ =~= spec_revert(old(self)@, c.count as int));
        }
    }
}

impl Clone for ExecutionState {
    fn clone(&self) -> (r: Self)
        ensures
            r@ == self@,
    {
        let mut conflicts: Vec<(String, String)> = Vec::new();
        let mut k: usize = 0;
        while k < self.conflicts.len()
            invariant
                k <= self.conflicts.len(),
                conflicts@.len() == k,
                forall|i: int|
                    0 <= i < k ==> (#[trigger] conflicts@[i]).0@ == self.conflicts@[i].0@
                        && conflicts@[i].1@ == self.conflicts@[i].1@,
            decreases self.conflicts.len() - k,
        {
            let pair = (self.conflicts[k].0.clone(), self.conflicts[k].1.clone());
            conflicts.push(pair);
            k += 1;
        }
        proof {
            lemma_vec_deep_view(conflicts);
            lemma_vec_deep_view(self.conflicts);
            assert(conflicts.deep_view() =~= self.conflicts.deep_view());
        }
        let r = ExecutionState { conflicts, applied: clone_txns(&self.applied) };
        proof {
            assert(r@ =~= self@);
        }
        r
    }
}

/// Checkpoint round-trip: reverting to a checkpoint undoes any sequence of
/// applications made after it. If `post` extends `pre`'s history (as every
/// sequence of `apply` outcomes does), reverting `post` to a checkpoint
/// taken at `pre` restores exactly `pre`: the same applied-transaction
/// count and the same history, hence the same world-state root.
pub proof fn lemma_checkpoint_roundtrip(pre: StateView, post: StateView)
    requires
        post.conflicts == pre.conflicts,
        pre.applied.len() <= post.applied.len(),
        post.applied.take(pre.applied.len() as int) == pre.applied,
    ensures
        spec_revert(post, pre.applied.len() as int) == pre,
{
    assert(spec_revert(post, pre.applied.len() as int) =~= pre);
}

/// A successful application extends the history, so a later revert to any
/// earlier checkpoint restores the earlier state; a failed application
/// leaves the history unchanged. This records that the prefix relation
/// needed by [`lemma_checkpoint_roundtrip`] is preserved by every `apply`
/// outcome.
pub proof fn lemma_apply_extends(pre: StateView, txns: Seq<TxnView>)
    ensures
        spec_apply(pre, txns).conflicts == pre.conflicts,
        pre.applied.len() <= spec_apply(pre, txns).applied.len(),
        spec_apply(pre, txns).applied.take(pre.applied.len() as int) == pre.applied,
{
    assert(spec_apply(pre, txns).applied.take(pre.applied.len() as int) =~= pre.applied);
}

/// The extension relation composes, so any sequence of `apply` outcomes
/// extends the state it started from, and one revert undoes them all.
pub proof fn lemma_extends_transitive(a: StateView, b: StateView, c: StateView)
    requires
        b.conflicts == a.conflicts,
        a.applied.len() <= b.applied.len(),
        b.applied.take(a.applied.len() as int) == a.applied,
        c.conflicts == b.conflicts,
        b.applied.len() <= c.applied.len(),
        c.applied.take(b.applied.len() as int) == b.applied,
    ensures
        c.conflicts == a.conflicts,
        a.applied.len() <= c.applied.len(),
        c.applied.take(a.applied.len() as int) == a.applied,
{
    assert forall|i: int| 0 <= i < a.applied.len() implies c.applied.take(
        a.applied.len() as int,
    )[i] == a.applied[i] by {
        assert(c.applied.take(b.applied.len() as int)[i] == b.applied[i]);
        assert(b.applied.take(a.applied.len() as int)[i] == a.applied[i]);
    }
    assert(c.applied.take(a.applied.len() as int) =~= a.applied);
}

} // verus!
