//! Core data model: transactions, bids, bundles, blocks, round context,
//! operating modes and the client-facing error taxonomy.

use vstd::prelude::*;

verus! {

/// A party identity (proposer or searcher), carried as an opaque string.
pub type Validator = String;

/// Mathematical model of a [`Transaction`]: its encoded payload and its
/// estimated gas cost. Transaction identity is structural equality of the
/// payload alone.
#[verifier::ext_equal]
pub ghost struct TxnView {
    pub payload: Seq<char>,
    pub gas: u64,
}

/// An opaque encoded transaction payload together with an estimated gas
/// cost. Immutable once submitted; identity is structural equality of the
/// encoded payload.
pub struct Transaction {
    pub payload: String,
    pub gas: u64,
}

impl View for Transaction {
    type V = TxnView;

    open spec fn view(&self) -> TxnView {
        TxnView { payload: self.payload@, gas: self.gas }
    }
}

impl DeepView for Transaction {
    type V = TxnView;

    open spec fn deep_view(&self) -> TxnView {
        self.view()
    }
}

/// Two transactions are the same transaction exactly when their encoded
/// payloads are equal; the gas estimate does not take part in identity.
pub open spec fn txn_same(a: TxnView, b: TxnView) -> bool {
    a.payload == b.payload
}

impl Transaction {
    pub fn new(payload: String, gas: u64) -> (r: Transaction)
        ensures
            r@.payload == payload@,
            r@.gas == gas,
    {
        Transaction { payload, gas }
    }

    /// Whether `self` and `other` are the same transaction (payload equality).
    pub fn same_txn(&self, other: &Transaction) -> (r: bool)
        ensures
            r == txn_same(self@, other@),
    {
        self.payload == other.payload
    }
}

impl Clone for Transaction {
    fn clone(&self) -> (r: Self)
        ensures
            r@ == self@,
    {
        Transaction { payload: self.payload.clone(), gas: self.gas }
    }
}

/// How the element-wise model of a vector relates to the models of its
/// elements: `deep_view` is the element-wise view.
pub proof fn lemma_vec_deep_view<T: DeepView>(v: Vec<T>)
    ensures
        v.deep_view().len() == v@.len(),
        forall|i: int| 0 <= i < v@.len() ==> v.deep_view()[i] == #[trigger] v@[i].deep_view(),
{
}

/// Pushing an element whose model is `x` pushes `x` onto the vector's
/// element-wise model.
pub proof fn lemma_deep_push<T: DeepView>(pre: Vec<T>, post: Vec<T>, x: T::V)
    requires
        post@.len() == pre@.len() + 1,
        forall|i: int| 0 <= i < pre@.len() ==> post@[i] == pre@[i],
        post@[pre@.len() as int].deep_view() == x,
    ensures
        post.deep_view() =~= pre.deep_view().push(x),
{
    lemma_vec_deep_view(pre);
    lemma_vec_deep_view(post);
    assert forall|i: int| 0 <= i < post@.len() implies post.deep_view()[i] == pre.deep_view().push(
        x,
    )[i] by {
        if i < pre@.len() {
            assert(post@[i] == pre@[i]);
        }
    }
}

/// Inserting an element whose model is `x` at `p` inserts `x` at `p` in
/// the vector's element-wise model.
pub proof fn lemma_deep_insert<T: DeepView>(pre: Vec<T>, post: Vec<T>, p: int, x: T::V)
    requires
        0 <= p <= pre@.len(),
        post@.len() == pre@.len() + 1,
        forall|i: int| 0 <= i < p ==> post@[i] == pre@[i],
        post@[p].deep_view() == x,
        forall|i: int| p <= i < pre@.len() ==> post@[i + 1] == pre@[i],
    ensures
        post.deep_view() =~= pre.deep_view().insert(p, x),
{
    lemma_vec_deep_view(pre);
    lemma_vec_deep_view(post);
    pre.deep_view().insert_ensures(p, x);
    assert forall|i: int| 0 <= i < post@.len() implies post.deep_view()[i]
        == pre.deep_view().insert(p, x)[i] by {
        if i < p {
            assert(post@[i] == pre@[i]);
        } else if i > p {
            assert(post@[(i - 1) + 1] == pre@[i - 1]);
            assert(pre.deep_view().insert(p, x)[(i - 1) + 1] == pre.deep_view()[i - 1]);
        }
    }
}

/// Removing the element at `p` removes position `p` from the vector's
/// element-wise model.
pub proof fn lemma_deep_remove<T: DeepView>(pre: Vec<T>, post: Vec<T>, p: int)
    requires
        0 <= p < pre@.len(),
        post@.len() == pre@.len() - 1,
        forall|i: int| 0 <= i < p ==> post@[i] == pre@[i],
        forall|i: int| p <= i < post@.len() ==> post@[i] == pre@[i + 1],
    ensures
        post.deep_view() =~= pre.deep_view().remove(p),
{
    lemma_vec_deep_view(pre);
    lemma_vec_deep_view(post);
    pre.deep_view().remove_ensures(p);
    assert forall|i: int| 0 <= i < post@.len() implies post.deep_view()[i]
        == pre.deep_view().remove(p)[i] by {
        if i < p {
            assert(post@[i] == pre@[i]);
        } else {
            assert(post@[i] == pre@[i + 1]);
            assert(pre.deep_view().remove(p)[i] == pre.deep_view()[i + 1]);
        }
    }
}

/// A vector equal to the concatenation of two others has the
/// concatenation of their element-wise models.
pub proof fn lemma_deep_concat<T: DeepView>(a: Vec<T>, b: Vec<T>, post: Vec<T>)
    requires
        post@ == a@ + b@,
    ensures
        post.deep_view() =~= a.deep_view() + b.deep_view(),
{
    lemma_vec_deep_view(a);
    lemma_vec_deep_view(b);
    lemma_vec_deep_view(post);
    assert forall|i: int| 0 <= i < post@.len() implies post.deep_view()[i] == (a.deep_view()
        + b.deep_view())[i] by {
        if i < a@.len() {
            assert(post@[i] == a@[i]);
        } else {
            assert(post@[i] == b@[i - a@.len()]);
        }
    }
}

/// Copies a transaction sequence; the copy has the same model.
pub fn clone_txns(v: &Vec<Transaction>) -> (r: Vec<Transaction>)
    ensures
        r.deep_view() == v.deep_view(),
{
    let mut r: Vec<Transaction> = Vec::new();
    let mut j: usize = 0;
    while j < v.len()
        invariant
            j <= v.len(),
            r@.len() == j,
            forall|i: int| 0 <= i < j ==> #[trigger] r@[i]@ == v@[i]@,
        decreases v.len() - j,
    {
        r.push(v[j].clone());
        j += 1;
    }
    proof {
        lemma_vec_deep_view(r);
        lemma_vec_deep_view(*v);
        assert(r.deep_view() =~= v.deep_view());
    }
    r
}

/// The kind of a bid. Ordering is purely by numeric value in the current
/// design; the kind is reserved for future differential ordering.
#[derive(Clone, Copy, PartialEq, Eq, Structural, Debug)]
pub enum BidKind {
    TopOfBlock,
    RestOfBlock,
}

/// A bid: a kind and a numeric value. Higher numeric value wins.
#[derive(Clone, Copy, PartialEq, Eq, Structural, Debug)]
pub struct Bid {
    pub kind: BidKind,
    pub value: u64,
}

/// The effective value of a bid, as used for ordering bundles. The kind is
/// currently a no-op multiplier: only the numeric value decides.
pub open spec fn spec_bid_value(bid: Bid) -> u64 {
    bid.value
}

impl Bid {
    /// The effective value of this bid.
    pub fn effective_value(&self) -> (r: u64)
        ensures
            r == spec_bid_value(*self),
    {
        self.value
    }
}

/// Mathematical model of a [`Bundle`].
#[verifier::ext_equal]
pub ghost struct BundleView {
    pub searcher: Seq<char>,
    pub bid: Bid,
    pub txns: Seq<TxnView>,
    pub estimated_tip: u64,
    pub estimated_gas: u64,
}

/// Whether a bundle contains a transaction with the given payload.
pub open spec fn bundle_contains(b: BundleView, t: TxnView) -> bool {
    exists|k: int| 0 <= k < b.txns.len() && txn_same(b.txns[k], t)
}

/// An atomic, ordered group of transactions submitted by a searcher with an
/// associated bid: either all its transactions apply in order or none do.
pub struct Bundle {
    pub searcher: Validator,
    pub bid: Bid,
    pub txns: Vec<Transaction>,
    pub estimated_tip: u64,
    pub estimated_gas: u64,
}

impl View for Bundle {
    type V = BundleView;

    open spec fn view(&self) -> BundleView {
        BundleView {
            searcher: self.searcher@,
            bid: self.bid,
            txns: self.txns.deep_view(),
            estimated_tip: self.estimated_tip,
            estimated_gas: self.estimated_gas,
        }
    }
}

impl DeepView for Bundle {
    type V = BundleView;

    open spec fn deep_view(&self) -> BundleView {
        self.view()
    }
}

impl Bundle {
    /// The bundle's value for ordering purposes: the effective value of its bid.
    pub fn value(&self) -> (r: u64)
        ensures
            r == spec_bid_value(self@.bid),
    {
        self.bid.effective_value()
    }

    /// Whether this bundle contains the given transaction (payload identity).
    pub fn contains_transaction(&self, txn: &Transaction) -> (r: bool)
        ensures
            r == bundle_contains(self@, txn@),
    {
        let mut k: usize = 0;
        while k < self.txns.len()
            invariant
                k <= self.txns.len(),
                forall|i: int| 0 <= i < k ==> !txn_same(self@.txns[i], txn@),
            decreases self.txns.len() - k,
        {
            if self.txns[k].same_txn(txn) {
                proof {
                    assert(txn_same(self@.txns[k as int], txn@));
                }
                return true;
            }
            k += 1;
        }
        false
    }
}

impl Clone for Bundle {
    fn clone(&self) -> (r: Self)
        ensures
            r@ == self@,
    {
        Bundle {
            searcher: self.searcher.clone(),
            bid: self.bid,
            txns: clone_txns(&self.txns),
            estimated_tip: self.estimated_tip,
            estimated_gas: self.estimated_gas,
        }
    }
}

/// The exact sum of the gas estimates of a transaction sequence.
pub open spec fn spec_sum_gas(s: Seq<TxnView>) -> int
    decreases s.len(),
{
    if s.len() == 0 {
        0
    } else {
        spec_sum_gas(s.drop_last()) + s.last().gas
    }
}

/// The gas estimate of a transaction sequence as carried in a header:
/// the exact sum, saturated at the largest representable value.
pub open spec fn spec_gas_used(s: Seq<TxnView>) -> u64 {
    if spec_sum_gas(s) <= u64::MAX {
        spec_sum_gas(s) as u64
    } else {
        u64::MAX
    }
}

/// Gas sums are never negative.
pub proof fn lemma_sum_gas_nonneg(s: Seq<TxnView>)
    ensures
        spec_sum_gas(s) >= 0,
    decreases s.len(),
{
    if s.len() > 0 {
        lemma_sum_gas_nonneg(s.drop_last());
    }
}

/// Sums the gas estimates of the given transactions, saturating at the
/// largest representable value.
pub fn gas_of_txns(txns: &Vec<Transaction>) -> (g: u64)
    ensures
        g == spec_gas_used(txns.deep_view()),
{
    let ghost s = txns.deep_view();
    let mut g: u64 = 0;
    let mut i: usize = 0;
    while i < txns.len()
        invariant
            s == txns.deep_view(),
            s.len() == txns@.len(),
            i <= txns@.len(),
            g == spec_gas_used(s.take(i as int)),
            spec_sum_gas(s.take(i as int)) >= 0,
        decreases txns.len() - i,
    {
        proof {
            lemma_vec_deep_view(*txns);
            assert(s.take(i + 1).drop_last() =~= s.take(i as int));
            assert(s.take(i + 1).last() == s[i as int]);
            assert(s[i as int].gas == txns@[i as int]@.gas);
            lemma_sum_gas_nonneg(s.take(i as int));
        }
        g = g.saturating_add(txns[i].gas);
        i += 1;
    }
    proof {
        assert(s.take(s.len() as int) =~= s);
    }
    g
}

/// Per-round immutable context: the base fee and the proposer that this
/// round builds for. A round is bound to one chain head for its lifetime.
pub struct RoundEnv {
    pub base_fee: u32,
    pub proposer: Validator,
}

/// The operating mode, selected at startup and fixed per deployment: which
/// of the two commitment paths is enabled.
#[derive(Clone, Copy, PartialEq, Eq, Structural, Debug)]
pub enum MevBooTeeMode {
    /// Only the signed-header submission path is enabled.
    BuilderProposes,
    /// Only the partial-block-commit path is enabled.
    ProposerProposes,
    /// Both paths are enabled.
    ProposerChooses,
}

/// Client-correctable rejections. Conflict outcomes inside a rebuild are
/// not errors and never surface here.
#[derive(Debug)]
pub enum MevBooTeeError {
    /// The request itself is malformed.
    InvalidRequest,
    /// The submitted bundle fails to execute against the current draft frontier.
    InvalidBundle,
    /// Sender-identity validation failed.
    BadSender,
    /// The committed header does not match any block this round offered.
    UnknownHeader,
    /// A signed header object that cannot be used, with a reason.
    BadSignedHeader(String),
}

/// The human-readable reason for each error, as a sequence of characters.
pub open spec fn spec_error_message(e: MevBooTeeError) -> Seq<char> {
    match e {
        MevBooTeeError::InvalidRequest => "invalid request"@,
        MevBooTeeError::InvalidBundle => "invalid bundle"@,
        MevBooTeeError::BadSender => "bad sender"@,
        MevBooTeeError::UnknownHeader => "unknown header"@,
        MevBooTeeError::BadSignedHeader(s) => "bad signed header object: "@ + s@,
    }
}

impl MevBooTeeError {
    /// The human-readable reason surfaced to the caller.
    pub fn message(&self) -> (r: String)
        ensures
            r@ == spec_error_message(*self),
    {
        match self {
            MevBooTeeError::InvalidRequest => String::from_str("invalid request"),
            MevBooTeeError::InvalidBundle => String::from_str("invalid bundle"),
            MevBooTeeError::BadSender => String::from_str("bad sender"),
            MevBooTeeError::UnknownHeader => String::from_str("unknown header"),
            MevBooTeeError::BadSignedHeader(s) => {
                String::from_str("bad signed header object: ").concat(s.as_str())
            },
        }
    }
}

/// A candidate block body: the ordered transactions of every accepted
/// bundle followed by the residual inclusion-list transactions.
pub struct Block {
    pub transactions: Vec<Transaction>,
}

/// A block header derived from the current draft: what a proposer is
/// offered to sign.
#[derive(Clone, Copy, PartialEq, Eq, Structural, Debug)]
pub struct BlockHeader {
    pub transaction_count: u64,
    pub gas_used: u64,
}

} // verus!
