//! Deterministic, evidence-backed ranking of feed candidates under a lens.

pub mod fixed6;
pub mod contract;
pub mod text;
pub mod error;
pub mod external;
pub mod validation;
pub mod rank;
pub mod laws;

pub use contract::{
    AnalysisRecord, ClusterAssignment, Component, Context, Coverage, Diversity, Evidence,
    FeedCandidate, FeedSlate, FeedSlateItem, LensProfile, Policy, Provenance, RankRequest,
    RankingDecision, RankingReason, Signal, Source, Subject, Trigger, ALGORITHM_ID, SPEC_VERSION,
};
pub use error::RankError;
pub use fixed6::{parse_fixed6, Fixed6};
pub use rank::rank;
pub use validation::validate;
