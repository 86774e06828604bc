//! A block-building engine for a trusted block builder: it keeps a ledger of
//! priced transaction bundles, reconciles them with a proposer-mandated
//! inclusion list by speculative execution against a checkpointed world
//! state, and greedily assembles the most valuable block draft that keeps
//! the inclusion list executable.

pub mod types;
pub mod exec;
pub mod order_flow;
pub mod apis;
pub mod round;

pub use apis::GetBidRequest;
pub use apis::SignedHeader;
pub use apis::SubmitToBRequest;
pub use exec::Checkpoint;
pub use exec::ExecutionState;
pub use order_flow::GreedyOrderFlow;
pub use order_flow::OrderFlow;
pub use round::RoundCoordinator;
pub use round::RoundEvent;
pub use round::RoundPhase;
pub use types::Bid;
pub use types::BidKind;
pub use types::Block;
pub use types::BlockHeader;
pub use types::Bundle;
pub use types::MevBooTeeError;
pub use types::MevBooTeeMode;
pub use types::RoundEnv;
pub use types::Transaction;
