use std::collections::BTreeMap;

use refetch_core::{
    rank, validate, AnalysisRecord, ClusterAssignment, Component, Context, Evidence,
    FeedCandidate, FeedSlate, Fixed6, LensProfile, Policy, Provenance, RankError, RankRequest,
    Signal, Source, Subject, Trigger, ALGORITHM_ID,
};

fn fixed(text: &str) -> Fixed6 {
    refetch_core::parse_fixed6(text).unwrap()
}

fn signal(name: &str, value: &str, evidence_ref: &str) -> Signal {
    Signal {
        name: name.into(),
        value: fixed(value),
        evidence_refs: vec![evidence_ref.into()],
        extensions: BTreeMap::new(),
    }
}

fn evidence(id: &str) -> Evidence {
    Evidence {
        id: id.into(),
        kind: "observation".into(),
        description: "fixture evidence".into(),
        url: Some("https://example.com/evidence".into()),
        extensions: BTreeMap::new(),
    }
}

fn component(name: &str) -> Component {
    Component {
        name: name.into(),
        version: "0.1.0".into(),
        extensions: BTreeMap::new(),
    }
}

fn candidate(name: &str, source_type: &str, activity: &str) -> FeedCandidate {
    let id = format!("cand:{name}");
    let ev = format!("ev:{name}-source");
    FeedCandidate {
        spec_version: "v0.1".into(),
        id,
        source: Source {
            source_type: source_type.into(),
            name: "Fixture Source".into(),
            extensions: BTreeMap::new(),
        },
        subject: Subject {
            id: format!("subject:{name}"),
            subject_type: "repository".into(),
            title: format!("Subject {name}"),
            url: format!("https://example.com/{name}"),
            extensions: BTreeMap::new(),
        },
        trigger: Trigger {
            trigger_type: "release".into(),
            observed_at: "2026-01-14T12:00:00Z".into(),
            extensions: BTreeMap::new(),
        },
        provenance: Provenance {
            retrieved_at: "2026-01-14T12:30:00Z".into(),
            adapter: component("fixture-adapter"),
            author: None,
            extensions: BTreeMap::new(),
        },
        evidence: vec![evidence(&ev)],
        signals: vec![signal("source.activity", activity, &ev)],
        extensions: BTreeMap::new(),
    }
}

fn analysis(name: &str, relevance: &str, risk: &str, cluster: Option<&str>) -> AnalysisRecord {
    let ev = format!("ev:{name}-analysis");
    AnalysisRecord {
        spec_version: "v0.1".into(),
        id: format!("analysis:{name}"),
        candidate_id: format!("cand:{name}"),
        analyzer: component("fixture-analyzer"),
        created_at: "2026-01-14T13:00:00Z".into(),
        evidence: vec![evidence(&ev)],
        signals: vec![
            signal("analysis.relevance", relevance, &ev),
            signal("analysis.risk", risk, &ev),
        ],
        cluster_assignment: cluster.map(|id| ClusterAssignment {
            namespace: "topic".into(),
            id: id.into(),
            evidence_refs: vec![ev.clone()],
            extensions: BTreeMap::new(),
        }),
        extensions: BTreeMap::new(),
    }
}

fn lens(id: &str, allowed: Option<&[&str]>, weights: &[(&str, &str)], max_items: usize, max_per_cluster: usize) -> LensProfile {
    LensProfile {
        spec_version: "v0.1".into(),
        id: id.into(),
        title: "Fixture lens".into(),
        allowed_source_types: allowed.map(|types| types.iter().map(|t| t.to_string()).collect()),
        weights: weights.iter().map(|(n, w)| (n.to_string(), fixed(w))).collect(),
        policy: Policy {
            max_items,
            max_per_cluster,
            tie_breaker: "candidateIdAsc".into(),
            extensions: BTreeMap::new(),
        },
        extensions: BTreeMap::new(),
    }
}

/// One shared pool of eight candidates with their analysis records.
fn request_with(lens: LensProfile) -> RankRequest {
    let pool = [
        ("alpha", "github", "0.8", "0.9", "0.1", Some("rust")),
        ("bravo", "github", "0.6", "0.7", "0.2", Some("rust")),
        ("charlie", "rss", "0.5", "0.5", "0", Some("rust")),
        ("delta", "github", "0.9", "0.3", "0.5", Some("web")),
        ("echo", "rss", "0.4", "0.6", "0.1", Some("web")),
        ("foxtrot", "github", "0.2", "0.8", "0.3", None),
        ("golf", "rss", "0.7", "0.2", "0", None),
        ("hotel", "github", "0.1", "0.1", "0.9", None),
    ];
    RankRequest {
        spec_version: "v0.1".into(),
        id: "req:foundation-v012".into(),
        context: Context {
            generated_at: "2026-01-15T00:00:00Z".into(),
            extensions: BTreeMap::new(),
        },
        candidates: pool
            .iter()
            .map(|(name, source_type, activity, _, _, _)| candidate(name, source_type, activity))
            .collect(),
        analysis: pool
            .iter()
            .map(|(name, _, _, relevance, risk, cluster)| analysis(name, relevance, risk, *cluster))
            .collect(),
        lens,
        extensions: BTreeMap::new(),
    }
}

fn req(name: &str) -> RankRequest {
    match name {
        "production" => request_with(lens(
            "lens:production",
            None,
            &[("analysis.relevance", "2"), ("analysis.risk", "-1"), ("source.activity", "1.5")],
            4,
            1,
        )),
        "frontier" => request_with(lens(
            "lens:frontier",
            Some(&["github"]),
            &[("analysis.relevance", "3"), ("source.activity", "-0.5")],
            3,
            1,
        )),
        "maintenance" => request_with(lens(
            "lens:maintenance",
            Some(&["rss"]),
            &[("analysis.risk", "2"), ("source.activity", "1")],
            5,
            2,
        )),
        _ => panic!("unknown request {name}"),
    }
}

/// The slate summary: (candidate id, rank, score) per item, then
/// (signal, contribution) per reason.
fn items(slate: &FeedSlate) -> Vec<(String, usize, i64, Vec<(String, i64)>)> {
    slate
        .items
        .iter()
        .map(|item| {
            (
                item.candidate_id.clone(),
                item.decision.rank,
                item.decision.score.raw(),
                item.decision
                    .reasons
                    .iter()
                    .map(|r| (r.signal.clone(), r.contribution.raw()))
                    .collect(),
            )
        })
        .collect()
}

fn counts(entries: &[(&str, usize)]) -> Vec<(String, usize)> {
    entries.iter().map(|(k, v)| (k.to_string(), *v)).collect()
}

fn reasons(entries: &[(&str, i64)]) -> Vec<(String, i64)> {
    entries.iter().map(|(k, v)| (k.to_string(), *v)).collect()
}

fn set_weight(weights: &mut Vec<(String, Fixed6)>, name: &str, value: Fixed6) {
    match weights.iter().position(|(n, _)| n.as_str() >= name) {
        Some(i) if weights[i].0 == name => weights[i].1 = value,
        Some(i) => weights.insert(i, (name.to_string(), value)),
        None => weights.push((name.to_string(), value)),
    }
}

fn assert_schema_violation(request: &RankRequest, expected_path: &str) {
    match rank(request) {
        Err(RankError::SchemaViolation { path, message }) => {
            assert_eq!(path, expected_path, "schema message: {message}");
            assert!(!message.is_empty());
        }
        result => panic!("expected schema violation at {expected_path}, got {result:?}"),
    }
}

#[test]
fn full_expected_slates() {
    let production = rank(&req("production")).unwrap();
    assert_eq!(
        items(&production),
        vec![
            (
                "cand:alpha".to_string(),
                1,
                2_900_000,
                reasons(&[
                    ("source.activity", 1_200_000),
                    ("analysis.relevance", 1_800_000),
                    ("analysis.risk", -100_000)
                ])
            ),
            (
                "cand:echo".to_string(),
                2,
                1_700_000,
                reasons(&[
                    ("source.activity", 600_000),
                    ("analysis.relevance", 1_200_000),
                    ("analysis.risk", -100_000)
                ])
            ),
            (
                "cand:foxtrot".to_string(),
                3,
                1_600_000,
                reasons(&[
                    ("source.activity", 300_000),
                    ("analysis.relevance", 1_600_000),
                    ("analysis.risk", -300_000)
                ])
            ),
            (
                "cand:golf".to_string(),
                4,
                1_450_000,
                reasons(&[("source.activity", 1_050_000), ("analysis.relevance", 400_000)])
            ),
        ]
    );
    assert_eq!(production.coverage.by_source_type, counts(&[("github", 2), ("rss", 2)]));
    assert_eq!(production.diversity.clusters_selected, counts(&[("topic:rust", 1), ("topic:web", 1)]));
    assert_eq!(production.diversity.unclustered_selected, 2);
    assert_eq!(production.diversity.suppressed_by_cluster_limit, 3);

    let frontier = rank(&req("frontier")).unwrap();
    assert_eq!(
        items(&frontier),
        vec![
            (
                "cand:alpha".to_string(),
                1,
                2_300_000,
                reasons(&[("source.activity", -400_000), ("analysis.relevance", 2_700_000)])
            ),
            (
                "cand:foxtrot".to_string(),
                2,
                2_300_000,
                reasons(&[("source.activity", -100_000), ("analysis.relevance", 2_400_000)])
            ),
            (
                "cand:delta".to_string(),
                3,
                450_000,
                reasons(&[("source.activity", -450_000), ("analysis.relevance", 900_000)])
            ),
        ]
    );
    assert_eq!(frontier.coverage.by_source_type, counts(&[("github", 3)]));
    assert_eq!(frontier.diversity.clusters_selected, counts(&[("topic:rust", 1), ("topic:web", 1)]));
    assert_eq!(frontier.diversity.unclustered_selected, 1);
    assert_eq!(frontier.diversity.suppressed_by_cluster_limit, 1);

    let maintenance = rank(&req("maintenance")).unwrap();
    assert_eq!(
        items(&maintenance),
        vec![
            ("cand:golf".to_string(), 1, 700_000, reasons(&[("source.activity", 700_000)])),
            (
                "cand:echo".to_string(),
                2,
                600_000,
                reasons(&[("source.activity", 400_000), ("analysis.risk", 200_000)])
            ),
            ("cand:charlie".to_string(), 3, 500_000, reasons(&[("source.activity", 500_000)])),
        ]
    );
    assert_eq!(maintenance.coverage.by_source_type, counts(&[("rss", 3)]));
    assert_eq!(maintenance.diversity.clusters_selected, counts(&[("topic:rust", 1), ("topic:web", 1)]));
    assert_eq!(maintenance.diversity.unclustered_selected, 1);
    assert_eq!(maintenance.diversity.suppressed_by_cluster_limit, 0);
}

#[test]
fn repeatable() {
    let r = req("frontier");
    assert_eq!(rank(&r).unwrap(), rank(&r).unwrap());
}

#[test]
fn max_per_cluster_two_and_unclustered() {
    let mut r = req("production");
    r.lens.policy.max_per_cluster = 2;
    r.lens.policy.max_items = 6;
    let slate = rank(&r).unwrap();
    assert!(slate.diversity.clusters_selected.iter().any(|(_, v)| *v == 2));
    assert!(slate.diversity.unclustered_selected > 0);
}

#[test]
fn stable_tie_breaker() {
    let mut r = req("production");
    for (_, w) in r.lens.weights.iter_mut() {
        *w = Fixed6::zero();
    }
    r.lens.policy.max_items = 10;
    let slate = rank(&r).unwrap();
    let ids: Vec<_> = slate.items.iter().map(|i| i.candidate_id.clone()).collect();
    let mut sorted = ids.clone();
    sorted.sort();
    assert_eq!(ids, sorted);
}

#[test]
fn explicit_validation_errors() {
    let mut r = req("production");
    r.spec_version = "v9".into();
    assert!(matches!(rank(&r), Err(RankError::UnsupportedSpecVersion(_))));
    let mut r = req("production");
    r.candidates[1].id = r.candidates[0].id.clone();
    assert!(matches!(
        rank(&r),
        Err(RankError::DuplicateId { kind: "candidate", .. })
    ));
    let mut r = req("production");
    let sig = r.candidates[0].signals[0].clone();
    r.candidates[0].signals.push(sig);
    assert!(matches!(rank(&r), Err(RankError::DuplicateSignal { .. })));
    let mut r = req("production");
    let ev = r.candidates[0].evidence[0].clone();
    r.candidates[0].evidence.push(ev);
    assert!(matches!(
        rank(&r),
        Err(RankError::DuplicateId { kind: "evidence", .. })
    ));
    let mut r = req("production");
    r.candidates[0].signals[0].name = "analysis.bad".into();
    assert!(matches!(rank(&r), Err(RankError::InvalidSignalNamespace { .. })));
}

#[test]
fn slate_contract_fields_and_reasons() {
    let slate = rank(&req("production")).unwrap();
    assert_eq!(slate.request_id, "req:foundation-v012");
    assert_eq!(slate.lens_id, "lens:production");
    assert_eq!(slate.generated_at, "2026-01-15T00:00:00Z");
    assert_eq!(slate.algorithm_id, ALGORITHM_ID);
    assert!(slate
        .items
        .iter()
        .flat_map(|i| &i.decision.reasons)
        .any(|r| r.contribution.raw() < 0));
    assert!(slate
        .items
        .iter()
        .flat_map(|i| &i.decision.reasons)
        .any(|r| r.contribution.raw() > 0));
}

#[test]
fn empty_required_request_collections_are_rejected() {
    let mut value = req("production");
    value.candidates.clear();
    assert_schema_violation(&value, "request.candidates");

    let mut value = req("production");
    value.analysis.clear();
    assert_schema_violation(&value, "request.analysis");

    let mut value = req("production");
    value.candidates[0].evidence.clear();
    assert_schema_violation(&value, "request.candidates[0].evidence");

    let mut value = req("production");
    value.analysis[0].signals.clear();
    assert_schema_violation(&value, "request.analysis[0].signals");
}

#[test]
fn identifiers_tokens_versions_dates_and_uris_are_validated() {
    let mut value = req("production");
    value.id = "INVALID SPACE".into();
    assert_schema_violation(&value, "request.id");

    let mut value = req("production");
    value.context.generated_at = "not-a-date".into();
    assert_schema_violation(&value, "request.context.generatedAt");

    let mut value = req("production");
    value.candidates[0].source.source_type = "Git Hub".into();
    assert_schema_violation(&value, "request.candidates[0].source.type");

    let mut value = req("production");
    value.candidates[0].provenance.adapter.version = "version-one".into();
    assert_schema_violation(&value, "request.candidates[0].provenance.adapter.version");

    let mut value = req("production");
    value.candidates[0].subject.url = "not a uri".into();
    assert_schema_violation(&value, "request.candidates[0].subject.url");
}

#[test]
fn signal_and_weight_names_and_ranges_are_validated() {
    let mut value = req("production");
    value.candidates[0].signals[0].name = "source.".into();
    assert!(matches!(rank(&value), Err(RankError::InvalidSignalNamespace { .. })));

    let mut value = req("production");
    value.candidates[0].signals[0].value = fixed("1.000001");
    assert_schema_violation(&value, "request.candidates[0].signals[0].value");

    let mut value = req("production");
    set_weight(&mut value.lens.weights, "bad.weight", fixed("1"));
    assert_schema_violation(&value, "request.lens.weights.bad.weight");

    let mut value = req("production");
    set_weight(&mut value.lens.weights, "source.activity", fixed("10.000001"));
    assert_schema_violation(&value, "request.lens.weights.source.activity");
}

#[test]
fn schema_unique_and_nonempty_constraints_are_validated() {
    let mut value = req("production");
    value.lens.allowed_source_types = Some(Vec::new());
    assert_schema_violation(&value, "request.lens.allowedSourceTypes");

    let mut value = req("production");
    value.lens.allowed_source_types = Some(vec!["github".into(), "github".into()]);
    assert_schema_violation(&value, "request.lens.allowedSourceTypes[1]");

    let mut value = req("production");
    value.lens.weights.clear();
    assert_schema_violation(&value, "request.lens.weights");

    let mut value = req("production");
    let evidence_ref = value.candidates[0].signals[0].evidence_refs[0].clone();
    value.candidates[0].signals[0].evidence_refs.push(evidence_ref);
    assert_schema_violation(&value, "request.candidates[0].signals[0].evidenceRefs[1]");
}

#[test]
fn six_decimal_signal_values_rank_successfully() {
    let mut value = req("production");
    value.candidates[0].signals[0].value = fixed("0.000001");
    assert!(rank(&value).is_ok());
}

#[test]
fn validation_matches_rank_errors() {
    let valid = req("production");
    assert_eq!(validate(&valid), Ok(()));
    let mut broken = req("production");
    broken.lens.policy.max_items = 0;
    assert_eq!(
        validate(&broken),
        Err(RankError::InvalidPolicy("maxItems must be >= 1".into()))
    );
    assert_eq!(
        rank(&broken),
        Err(RankError::InvalidPolicy("maxItems must be >= 1".into()))
    );
}

#[test]
fn policy_errors_are_reported_in_order() {
    let mut value = req("production");
    value.lens.policy.max_per_cluster = 0;
    assert_eq!(
        rank(&value),
        Err(RankError::InvalidPolicy("maxPerCluster must be >= 1".into()))
    );
    let mut value = req("production");
    value.lens.policy.tie_breaker = "scoreDesc".into();
    assert_eq!(
        rank(&value),
        Err(RankError::InvalidPolicy("tieBreaker must be candidateIdAsc".into()))
    );
}

#[test]
fn analysis_reference_errors() {
    let mut value = req("production");
    value.analysis[1].candidate_id = "cand:zulu".into();
    assert_eq!(rank(&value), Err(RankError::UnknownCandidate("cand:zulu".into())));

    let mut value = req("production");
    value.analysis.pop();
    assert_eq!(rank(&value), Err(RankError::MissingAnalysis("cand:hotel".into())));

    let mut value = req("production");
    value.analysis[2].id = value.analysis[0].id.clone();
    assert_eq!(
        rank(&value),
        Err(RankError::DuplicateId { kind: "analysis", id: "analysis:alpha".into() })
    );

    let mut value = req("production");
    value.analysis[2].candidate_id = "cand:alpha".into();
    assert_eq!(
        rank(&value),
        Err(RankError::DuplicateId { kind: "analysisForCandidate", id: "cand:alpha".into() })
    );
}

#[test]
fn dangling_evidence_and_union_references() {
    let mut value = req("production");
    value.candidates[0].signals[0].evidence_refs = vec!["ev:nowhere".into()];
    assert_eq!(
        rank(&value),
        Err(RankError::DanglingEvidenceRef {
            record: "cand:alpha".into(),
            evidence_ref: "ev:nowhere".into()
        })
    );

    // An analysis signal may cite its candidate's evidence.
    let mut value = req("production");
    value.analysis[0].signals[0].evidence_refs = vec!["ev:alpha-source".into()];
    assert!(rank(&value).is_ok());

    // A candidate signal may not cite its analysis record's evidence.
    let mut value = req("production");
    value.candidates[0].signals[0].evidence_refs = vec!["ev:alpha-analysis".into()];
    assert!(matches!(rank(&value), Err(RankError::DanglingEvidenceRef { .. })));
}

#[test]
fn source_filtering_admits_only_allowed_types() {
    let mut value = req("production");
    value.lens.allowed_source_types = Some(vec!["gitlab".into()]);
    let slate = rank(&value).unwrap();
    assert!(slate.items.is_empty());
    assert!(slate.coverage.by_source_type.is_empty());

    let mut value = req("production");
    value.lens.allowed_source_types = Some(vec!["rss".into()]);
    let slate = rank(&value).unwrap();
    let ids: Vec<_> = slate.items.iter().map(|i| i.candidate_id.as_str()).collect();
    assert_eq!(ids, vec!["cand:charlie", "cand:echo", "cand:golf"]);
    assert_eq!(slate.coverage.by_source_type, counts(&[("rss", 3)]));
}

#[test]
fn error_messages_read_as_documented() {
    assert_eq!(RankError::ArithmeticOverflow.message(), "arithmetic overflow");
    assert_eq!(
        RankError::DuplicateId { kind: "candidate", id: "cand:a".into() }.message(),
        "duplicate id in candidate: cand:a"
    );
    assert_eq!(
        RankError::SchemaViolation { path: "request.id".into(), message: "must match".into() }.message(),
        "schema violation at request.id: must match"
    );
    assert_eq!(
        RankError::UnsupportedSpecVersion("v9".into()).message(),
        "unsupported spec version: v9"
    );
}

#[test]
fn evidence_ids_are_unique_across_the_request() {
    let mut value = req("production");
    value.candidates[1].evidence[0].id = "ev:alpha-source".into();
    value.candidates[1].signals[0].evidence_refs = vec!["ev:alpha-source".into()];
    assert_eq!(
        rank(&value),
        Err(RankError::DuplicateId { kind: "evidence", id: "ev:alpha-source".into() })
    );

    let mut value = req("production");
    value.analysis[3].evidence[0].id = "ev:alpha-source".into();
    assert_eq!(
        rank(&value),
        Err(RankError::DuplicateId { kind: "evidence", id: "ev:alpha-source".into() })
    );
}

#[test]
fn slate_counts_add_up() {
    for name in ["production", "frontier", "maintenance"] {
        let slate = rank(&req(name)).unwrap();
        let covered: usize = slate.coverage.by_source_type.iter().map(|(_, n)| n).sum();
        let clustered: usize = slate.diversity.clusters_selected.iter().map(|(_, n)| n).sum();
        assert_eq!(covered, slate.items.len());
        assert_eq!(clustered + slate.diversity.unclustered_selected, slate.items.len());
        for (i, item) in slate.items.iter().enumerate() {
            assert_eq!(item.decision.rank, i + 1);
            let total: i64 = item.decision.reasons.iter().map(|r| r.contribution.raw()).sum();
            assert_eq!(total, item.decision.score.raw());
        }
    }
}

#[test]
fn unclustered_candidates_never_suppress_each_other() {
    let mut r = req("production");
    r.lens.policy.max_items = 10;
    let slate = rank(&r).unwrap();
    let ids: Vec<_> = slate.items.iter().map(|i| i.candidate_id.as_str()).collect();
    assert_eq!(
        ids,
        vec!["cand:alpha", "cand:echo", "cand:foxtrot", "cand:golf", "cand:hotel"]
    );
    assert_eq!(slate.diversity.unclustered_selected, 3);
    assert_eq!(slate.diversity.suppressed_by_cluster_limit, 3);
    assert_eq!(slate.diversity.clusters_selected, counts(&[("topic:rust", 1), ("topic:web", 1)]));
}

#[test]
fn weight_names_are_unique_and_ascending() {
    let mut value = req("production");
    value.lens.weights.swap(0, 2);
    assert_eq!(
        rank(&value),
        Err(RankError::SchemaViolation {
            path: "request.lens.weights.analysis.risk".into(),
            message: "name must follow the previous weight name in ascending order".into()
        })
    );

    let mut value = req("production");
    let first = value.lens.weights[0].clone();
    value.lens.weights.insert(1, first);
    assert_eq!(
        rank(&value),
        Err(RankError::SchemaViolation {
            path: "request.lens.weights.analysis.relevance".into(),
            message: "name must follow the previous weight name in ascending order".into()
        })
    );
}

#[test]
fn cluster_references_resolve_against_candidate_and_record_evidence() {
    let mut value = req("production");
    if let Some(cluster) = value.analysis[0].cluster_assignment.as_mut() {
        cluster.evidence_refs = vec!["ev:alpha-source".into()];
    }
    assert!(rank(&value).is_ok());

    let mut value = req("production");
    if let Some(cluster) = value.analysis[0].cluster_assignment.as_mut() {
        cluster.evidence_refs = vec!["ev:bravo-source".into()];
    }
    assert_eq!(
        rank(&value),
        Err(RankError::DanglingEvidenceRef {
            record: "analysis:alpha".into(),
            evidence_ref: "ev:bravo-source".into()
        })
    );
}

#[test]
fn analysis_signals_may_not_cite_other_candidates() {
    let mut value = req("production");
    value.analysis[0].signals[0].evidence_refs = vec!["ev:bravo-source".into()];
    assert_eq!(
        rank(&value),
        Err(RankError::DanglingEvidenceRef {
            record: "analysis:alpha".into(),
            evidence_ref: "ev:bravo-source".into()
        })
    );
}
