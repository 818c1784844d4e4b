//! The request and slate objects exchanged with hosts, with their views.

use std::collections::BTreeMap;
use vstd::prelude::*;

use crate::fixed6::Fixed6;
use crate::text::texts;

verus! {

/// The contract version every object of a request must carry.
pub const SPEC_VERSION: &'static str = "v0.1";

/// The identity of the ranking algorithm, copied into every slate.
pub const ALGORITHM_ID: &'static str = "refetch.rank.baseline.v0.1";

/// A JSON value kept verbatim in an `extensions` area; ranking never reads it.
#[verifier::external_type_specification]
#[verifier::external_body]
pub struct ExJsonValue(serde_json::Value);

/// Application data carried alongside a contract object under explicit names.
pub type Extensions = BTreeMap<String, serde_json::Value>;

/// An adapter or analyzer identity.
#[derive(Debug, Clone, PartialEq)]
pub struct Component {
    pub name: String,
    pub version: String,
    pub extensions: Extensions,
}

/// A piece of evidence that signals and cluster assignments may reference.
#[derive(Debug, Clone, PartialEq)]
pub struct Evidence {
    pub id: String,
    pub kind: String,
    pub description: String,
    pub url: Option<String>,
    pub extensions: Extensions,
}

/// A named fixed-point signal backed by evidence references.
#[derive(Debug, Clone, PartialEq)]
pub struct Signal {
    pub name: String,
    pub value: Fixed6,
    pub evidence_refs: Vec<String>,
    pub extensions: Extensions,
}

/// Explicit membership of a candidate in the cluster `namespace:id`.
#[derive(Debug, Clone, PartialEq)]
pub struct ClusterAssignment {
    pub namespace: String,
    pub id: String,
    pub evidence_refs: Vec<String>,
    pub extensions: Extensions,
}

#[derive(Debug, Clone, PartialEq)]
pub struct Source {
    pub source_type: String,
    pub name: String,
    pub extensions: Extensions,
}

#[derive(Debug, Clone, PartialEq)]
pub struct Subject {
    pub id: String,
    pub subject_type: String,
    pub title: String,
    pub url: String,
    pub extensions: Extensions,
}

#[derive(Debug, Clone, PartialEq)]
pub struct Trigger {
    pub trigger_type: String,
    pub observed_at: String,
    pub extensions: Extensions,
}

#[derive(Debug, Clone, PartialEq)]
pub struct Provenance {
    pub retrieved_at: String,
    pub adapter: Component,
    pub author: Option<String>,
    pub extensions: Extensions,
}

/// A normalized item that may be ranked.
#[derive(Debug, Clone, PartialEq)]
pub struct FeedCandidate {
    pub spec_version: String,
    pub id: String,
    pub source: Source,
    pub subject: Subject,
    pub trigger: Trigger,
    pub provenance: Provenance,
    pub evidence: Vec<Evidence>,
    pub signals: Vec<Signal>,
    pub extensions: Extensions,
}

/// What an analyzer recorded about one candidate.
#[derive(Debug, Clone, PartialEq)]
pub struct AnalysisRecord {
    pub spec_version: String,
    pub id: String,
    pub candidate_id: String,
    pub analyzer: Component,
    pub created_at: String,
    pub evidence: Vec<Evidence>,
    pub signals: Vec<Signal>,
    pub cluster_assignment: Option<ClusterAssignment>,
    pub extensions: Extensions,
}

/// Selection limits of a lens.
#[derive(Debug, Clone, PartialEq)]
pub struct Policy {
    pub max_items: usize,
    pub max_per_cluster: usize,
    pub tie_breaker: String,
    pub extensions: Extensions,
}

/// A user-selected task view: which sources count and how signals weigh.
///
/// `weights` lists each weighted signal name with its weight, in the
/// ascending name order of a map; a name is looked up at its first entry.
#[derive(Debug, Clone, PartialEq)]
pub struct LensProfile {
    pub spec_version: String,
    pub id: String,
    pub title: String,
    pub allowed_source_types: Option<Vec<String>>,
    pub weights: Vec<(String, Fixed6)>,
    pub policy: Policy,
    pub extensions: Extensions,
}

#[derive(Debug, Clone, PartialEq)]
pub struct Context {
    pub generated_at: String,
    pub extensions: Extensions,
}

/// Everything one ranking consumes.
#[derive(Debug, Clone, PartialEq)]
pub struct RankRequest {
    pub spec_version: String,
    pub id: String,
    pub context: Context,
    pub candidates: Vec<FeedCandidate>,
    pub analysis: Vec<AnalysisRecord>,
    pub lens: LensProfile,
    pub extensions: Extensions,
}

/// One non-zero contribution to a candidate's score.
#[derive(Debug, Clone, PartialEq)]
pub struct RankingReason {
    pub signal: String,
    pub value: Fixed6,
    pub weight: Fixed6,
    pub contribution: Fixed6,
    pub evidence_refs: Vec<String>,
}

#[derive(Debug, Clone, PartialEq)]
pub struct RankingDecision {
    pub rank: usize,
    pub score: Fixed6,
    pub reasons: Vec<RankingReason>,
}

#[derive(Debug, Clone, PartialEq)]
pub struct FeedSlateItem {
    pub candidate_id: String,
    pub decision: RankingDecision,
}

/// Selected item counts by source type, in ascending source type order.
#[derive(Debug, Clone, PartialEq)]
pub struct Coverage {
    pub by_source_type: Vec<(String, usize)>,
    pub extensions: Extensions,
}

/// Selected item counts by cluster key (in ascending key order), selected
/// unclustered items, and candidates skipped by the per-cluster limit.
#[derive(Debug, Clone, PartialEq)]
pub struct Diversity {
    pub clusters_selected: Vec<(String, usize)>,
    pub unclustered_selected: usize,
    pub suppressed_by_cluster_limit: usize,
    pub extensions: Extensions,
}

/// The ranked, explained result of one request.
#[derive(Debug, Clone, PartialEq)]
pub struct FeedSlate {
    pub spec_version: String,
    pub request_id: String,
    pub lens_id: String,
    pub generated_at: String,
    pub algorithm_id: String,
    pub items: Vec<FeedSlateItem>,
    pub coverage: Coverage,
    pub diversity: Diversity,
    pub extensions: Extensions,
}

/// A count per text key, listed in strictly ascending key order.
pub open spec fn count_entries(v: Seq<(String, usize)>) -> Seq<(Seq<char>, nat)> {
    v.map_values(|e: (String, usize)| (e.0@, e.1 as nat))
}

/// A ranking reason taken by its texts and raw values.
pub struct ReasonView {
    pub signal: Seq<char>,
    pub value: i64,
    pub weight: i64,
    pub contribution: i64,
    pub evidence_refs: Seq<Seq<char>>,
}

impl View for RankingReason {
    type V = ReasonView;

    open spec fn view(&self) -> ReasonView {
        ReasonView {
            signal: self.signal@,
            value: self.value@,
            weight: self.weight@,
            contribution: self.contribution@,
            evidence_refs: texts(self.evidence_refs@),
        }
    }
}

/// The reasons taken by their views.
pub open spec fn reason_views(v: Seq<RankingReason>) -> Seq<ReasonView> {
    v.map_values(|r: RankingReason| r@)
}

/// A slate item taken by its texts and raw values.
pub struct ItemView {
    pub candidate_id: Seq<char>,
    pub rank: nat,
    pub score: int,
    pub reasons: Seq<ReasonView>,
}

impl View for FeedSlateItem {
    type V = ItemView;

    open spec fn view(&self) -> ItemView {
        ItemView {
            candidate_id: self.candidate_id@,
            rank: self.decision.rank as nat,
            score: self.decision.score@ as int,
            reasons: reason_views(self.decision.reasons@),
        }
    }
}

/// A slate taken by its texts, raw values and counts.
pub struct SlateView {
    pub spec_version: Seq<char>,
    pub request_id: Seq<char>,
    pub lens_id: Seq<char>,
    pub generated_at: Seq<char>,
    pub algorithm_id: Seq<char>,
    pub items: Seq<ItemView>,
    pub by_source_type: Seq<(Seq<char>, nat)>,
    pub clusters_selected: Seq<(Seq<char>, nat)>,
    pub unclustered_selected: nat,
    pub suppressed_by_cluster_limit: nat,
    /// Whether the slate, its coverage and its diversity carry no extensions.
    pub no_extensions: bool,
}

impl View for FeedSlate {
    type V = SlateView;

    open spec fn view(&self) -> SlateView {
        SlateView {
            spec_version: self.spec_version@,
            request_id: self.request_id@,
            lens_id: self.lens_id@,
            generated_at: self.generated_at@,
            algorithm_id: self.algorithm_id@,
            items: self.items@.map_values(|i: FeedSlateItem| i@),
            by_source_type: count_entries(self.coverage.by_source_type@),
            clusters_selected: count_entries(self.diversity.clusters_selected@),
            unclustered_selected: self.diversity.unclustered_selected as nat,
            suppressed_by_cluster_limit: self.diversity.suppressed_by_cluster_limit as nat,
            no_extensions: self.extensions@ == Map::<String, serde_json::Value>::empty()
                && self.coverage.extensions@ == Map::<String, serde_json::Value>::empty()
                && self.diversity.extensions@ == Map::<String, serde_json::Value>::empty(),
        }
    }
}

/// An empty extensions area.
pub fn no_extensions() -> (e: Extensions)
    ensures
        e@ == Map::<String, serde_json::Value>::empty(),
{
    BTreeMap::new()
}

} // verus!
