//! Schema and reference checks of a rank request, with the first failing
//! check deciding the error.

use vstd::prelude::*;

use crate::contract::{
    AnalysisRecord, Component, Evidence, FeedCandidate, LensProfile, RankRequest, Signal,
    SPEC_VERSION,
};
use crate::error::{outcome, ErrorView, RankError};
use crate::external::{is_rfc3339, is_uri, rfc3339_accepts, uri_accepts};
use crate::fixed6::Fixed6;
use crate::text::{
    concat, contains_text, decimal, same_text, indexed, indexed_path, is_component_version, is_id, is_signal_name, is_token,
    is_weight_name, matches_component_version, texts, matches_id, matches_signal_name, matches_token,
    matches_weight_name, occurs_before, repeats_earlier, str_less, text_less,
    lemma_text_less_asymmetric, lemma_text_less_total, lemma_text_less_transitive,
};

verus! {

pub const MSG_ID: &'static str = "must match ^[a-z][a-z0-9:-]*$";
pub const MSG_TOKEN: &'static str = "must be a lowercase token";
pub const MSG_NOT_EMPTY: &'static str = "must not be empty";
pub const MSG_DATE_TIME: &'static str = "must be an RFC 3339 date-time";
pub const MSG_URI: &'static str = "must be an absolute URI";
pub const MSG_VERSION: &'static str = "must be a three-part component version";
pub const MSG_REFS_NOT_EMPTY: &'static str = "must contain at least one evidence reference";
pub const MSG_REF_UNIQUE: &'static str = "must not duplicate another evidence reference";
pub const MSG_EVIDENCE_NOT_EMPTY: &'static str = "must contain at least one evidence item";
pub const MSG_SIGNALS_NOT_EMPTY: &'static str = "must contain at least one signal";
pub const MSG_SIGNAL_RANGE: &'static str = "must be between -1 and 1";

/// The largest magnitude of a signal's raw value (1.0).
pub const SIGNAL_LIMIT: i64 = 1_000_000;
/// The largest magnitude of a weight's raw value (10.0).
pub const WEIGHT_LIMIT: i64 = 10_000_000;

/// Run `first`; when it passes, `rest` decides.
pub open spec fn followed_by(first: Result<(), ErrorView>, rest: Result<(), ErrorView>) -> Result<
    (),
    ErrorView,
> {
    match first {
        Err(e) => Err(e),
        Ok(_) => rest,
    }
}

/// Fails with `e` unless `condition` holds.
pub open spec fn check(condition: bool, e: ErrorView) -> Result<(), ErrorView> {
    if condition {
        Ok(())
    } else {
        Err(e)
    }
}

/// Fails with a schema violation at `path` unless `condition` holds.
pub open spec fn require(condition: bool, path: Seq<char>, message: Seq<char>) -> Result<
    (),
    ErrorView,
> {
    check(condition, ErrorView::SchemaViolation { path, message })
}

/// The error of the first of the checks `0..n` that fails, if any.
pub open spec fn first_error(n: nat, checks: spec_fn(nat) -> Result<(), ErrorView>) -> Result<
    (),
    ErrorView,
>
    decreases n,
{
    if n == 0 {
        Ok(())
    } else {
        followed_by(first_error((n - 1) as nat, checks), checks((n - 1) as nat))
    }
}

/// Once a check among the first `k` fails, it stays the first failure.
pub proof fn lemma_first_error_stays(k: nat, n: nat, checks: spec_fn(nat) -> Result<(), ErrorView>)
    requires
        k <= n,
        first_error(k, checks) is Err,
    ensures
        first_error(n, checks) == first_error(k, checks),
    decreases n - k,
{
    if k < n {
        lemma_first_error_stays(k, (n - 1) as nat, checks);
    }
}

/// All checks pass exactly when each one does.
pub proof fn lemma_first_error_ok(n: nat, checks: spec_fn(nat) -> Result<(), ErrorView>)
    ensures
        first_error(n, checks) is Ok <==> forall|k: nat| k < n ==> #[trigger] checks(k) is Ok,
    decreases n,
{
    if n > 0 {
        lemma_first_error_ok((n - 1) as nat, checks);
        if first_error(n, checks) is Ok {
            assert forall|k: nat| k < n implies #[trigger] checks(k) is Ok by {
                if k < n - 1 {
                } else {
                }
            }
        }
    }
}

/// Fails with a schema violation at `path` unless `condition` holds.
pub fn require_schema(condition: bool, path: &str, message: &str) -> (r: Result<(), RankError>)
    ensures
        outcome(r) == require(condition, path@, message@),
{
    if condition {
        Ok(())
    } else {
        Err(RankError::SchemaViolation { path: String::from_str(path), message: String::from_str(message) })
    }
}

/// The ids of the evidence items.
pub open spec fn evidence_ids(ev: Seq<Evidence>) -> Seq<Seq<char>> {
    ev.map_values(|e: Evidence| e.id@)
}

/// The checks of an adapter or analyzer identity at `path`.
pub open spec fn component_check(c: Component, path: Seq<char>) -> Result<(), ErrorView> {
    followed_by(
        require(matches_token(c.name@), path + ".name"@, MSG_TOKEN@),
        require(matches_component_version(c.version@), path + ".version"@, MSG_VERSION@),
    )
}

/// The checks of one evidence item at `path`.
pub open spec fn evidence_check(item: Evidence, path: Seq<char>) -> Result<(), ErrorView> {
    followed_by(
        require(matches_id(item.id@), path + ".id"@, MSG_ID@),
        followed_by(
            require(matches_token(item.kind@), path + ".kind"@, MSG_TOKEN@),
            followed_by(
                require(item.description@.len() > 0, path + ".description"@, MSG_NOT_EMPTY@),
                match item.url {
                    Some(url) => require(uri_accepts(url@), path + ".url"@, MSG_URI@),
                    None => Ok(()),
                },
            ),
        ),
    )
}

/// The check of the `k`-th evidence reference: a well-formed, unrepeated id
/// of one of the `allowed` evidence items.
pub open spec fn reference_checks(
    record: Seq<char>,
    allowed: Seq<Seq<char>>,
    refs: Seq<Seq<char>>,
    path: Seq<char>,
) -> spec_fn(nat) -> Result<(), ErrorView> {
    |k: nat|
        followed_by(
            require(matches_id(refs[k as int]), indexed_path(path, k), MSG_ID@),
            followed_by(
                require(!repeats_earlier(refs, k as int), indexed_path(path, k), MSG_REF_UNIQUE@),
                check(
                    allowed.contains(refs[k as int]),
                    ErrorView::DanglingEvidenceRef { record, evidence_ref: refs[k as int] },
                ),
            ),
        )
}

/// A non-empty list of references, each checked in turn.
pub open spec fn references_check(
    record: Seq<char>,
    allowed: Seq<Seq<char>>,
    refs: Seq<Seq<char>>,
    path: Seq<char>,
) -> Result<(), ErrorView> {
    followed_by(
        require(refs.len() > 0, path, MSG_REFS_NOT_EMPTY@),
        first_error(refs.len(), reference_checks(record, allowed, refs, path)),
    )
}

fn validate_component(component: &Component, path: &str) -> (r: Result<(), RankError>)
    ensures
        outcome(r) == component_check(*component, path@),
{
    require_schema(is_token(&component.name), &concat(path, ".name"), MSG_TOKEN)?;
    require_schema(is_component_version(&component.version), &concat(path, ".version"), MSG_VERSION)
}

fn validate_evidence(item: &Evidence, path: &str) -> (r: Result<(), RankError>)
    ensures
        outcome(r) == evidence_check(*item, path@),
{
    require_schema(is_id(&item.id), &concat(path, ".id"), MSG_ID)?;
    require_schema(is_token(&item.kind), &concat(path, ".kind"), MSG_TOKEN)?;
    require_schema(!item.description.as_str().is_empty(), &concat(path, ".description"), MSG_NOT_EMPTY)?;
    match &item.url {
        Some(url) => require_schema(is_uri(url), &concat(path, ".url"), MSG_URI),
        None => Ok(()),
    }
}

/// Whether one of `ev` has the id `x`.
fn has_evidence_id(ev: &Vec<Evidence>, x: &String) -> (r: bool)
    ensures
        r == evidence_ids(ev@).contains(x@),
{
    let mut j: usize = 0;
    while j < ev.len()
        invariant
            j <= ev.len(),
            forall|i: int| 0 <= i < j ==> evidence_ids(ev@)[i] != x@,
        decreases ev.len() - j,
    {
        if ev[j].id == *x {
            assert(evidence_ids(ev@)[j as int] == x@);
            return true;
        }
        j = j + 1;
    }
    false
}

fn validate_evidence_refs(
    record: &str,
    extra: &Vec<Evidence>,
    evidence: &Vec<Evidence>,
    evidence_refs: &Vec<String>,
    path: &str,
) -> (r: Result<(), RankError>)
    ensures
        outcome(r) == references_check(
            record@,
            evidence_ids(extra@) + evidence_ids(evidence@),
            texts(evidence_refs@),
            path@,
        ),
{
    let ghost allowed = evidence_ids(extra@) + evidence_ids(evidence@);
    let ghost refs = texts(evidence_refs@);
    let ghost checks = reference_checks(record@, allowed, refs, path@);
    require_schema(evidence_refs.len() > 0, path, MSG_REFS_NOT_EMPTY)?;
    let mut k: usize = 0;
    while k < evidence_refs.len()
        invariant
            k <= evidence_refs.len(),
            refs == texts(evidence_refs@),
            allowed == evidence_ids(extra@) + evidence_ids(evidence@),
            checks == reference_checks(record@, allowed, refs, path@),
            first_error(k as nat, checks) == Ok::<(), ErrorView>(()),
        decreases evidence_refs.len() - k,
    {
        let evidence_ref = &evidence_refs[k];
        let item_path = indexed(path, k);
        let step = check_reference(record, extra, evidence, evidence_refs, k, &item_path);
        assert(outcome(step) == checks(k as nat));
        if step.is_err() {
            proof {
                lemma_first_error_stays((k + 1) as nat, evidence_refs.len() as nat, checks);
            }
            return step;
        }
        k = k + 1;
    }
    Ok(())
}

fn check_reference(
    record: &str,
    extra: &Vec<Evidence>,
    evidence: &Vec<Evidence>,
    evidence_refs: &Vec<String>,
    k: usize,
    item_path: &String,
) -> (r: Result<(), RankError>)
    requires
        k < evidence_refs.len(),
    ensures
        outcome(r) == followed_by(
            require(matches_id(evidence_refs@[k as int]@), item_path@, MSG_ID@),
            followed_by(
                require(
                    !repeats_earlier(texts(evidence_refs@), k as int),
                    item_path@,
                    MSG_REF_UNIQUE@,
                ),
                check(
                    (evidence_ids(extra@) + evidence_ids(evidence@)).contains(
                        evidence_refs@[k as int]@,
                    ),
                    ErrorView::DanglingEvidenceRef {
                        record: record@,
                        evidence_ref: evidence_refs@[k as int]@,
                    },
                ),
            ),
        ),
{
    let evidence_ref = &evidence_refs[k];
    require_schema(is_id(evidence_ref), item_path, MSG_ID)?;
    require_schema(!occurs_before(evidence_refs, k), item_path, MSG_REF_UNIQUE)?;
    let known = has_evidence_id(extra, evidence_ref) || has_evidence_id(evidence, evidence_ref);
    proof {
        let x = evidence_refs@[k as int]@;
        let a = evidence_ids(extra@);
        let b = evidence_ids(evidence@);
        if a.contains(x) {
            let i = choose|i: int| 0 <= i < a.len() && a[i] == x;
            assert((a + b)[i] == x);
        }
        if b.contains(x) {
            let i = choose|i: int| 0 <= i < b.len() && b[i] == x;
            assert((a + b)[a.len() + i] == x);
        }
        if (a + b).contains(x) {
            let i = choose|i: int| 0 <= i < (a + b).len() && (a + b)[i] == x;
            if i < a.len() {
                assert(a[i] == x);
            } else {
                assert(b[i - a.len()] == x);
            }
        }
    }
    if known {
        Ok(())
    } else {
        Err(
            RankError::DanglingEvidenceRef {
                record: String::from_str(record),
                evidence_ref: evidence_ref.clone(),
            },
        )
    }
}


/// The names of the signals.
pub open spec fn signal_names(signals: Seq<Signal>) -> Seq<Seq<char>> {
    signals.map_values(|s: Signal| s.name@)
}

/// The check of the `k`-th evidence item: well-formed, with an id that no
/// earlier evidence item of the request (`seen`, then this record's) has.
pub open spec fn evidence_checks(evidence: Seq<Evidence>, seen: Seq<Seq<char>>, path: Seq<char>) -> spec_fn(nat) -> Result<(), ErrorView> {
    |k: nat|
        followed_by(
            evidence_check(evidence[k as int], indexed_path(path + ".evidence"@, k)),
            check(
                !(seen + evidence_ids(evidence).take(k as int)).contains(evidence[k as int].id@),
                ErrorView::DuplicateId { kind: "evidence"@, id: evidence[k as int].id@ },
            ),
        )
}

/// The check of the `k`-th signal: a name in `namespace`, a value within
/// [-1, 1], a name no earlier signal of the record has, and references to
/// `allowed` evidence.
pub open spec fn signal_checks(
    record: Seq<char>,
    signals: Seq<Signal>,
    namespace: Seq<char>,
    allowed: Seq<Seq<char>>,
    path: Seq<char>,
) -> spec_fn(nat) -> Result<(), ErrorView> {
    |k: nat|
        {
            let signal = signals[k as int];
            let signal_path = indexed_path(path + ".signals"@, k);
            followed_by(
                check(
                    matches_signal_name(signal.name@, namespace),
                    ErrorView::InvalidSignalNamespace { record, signal: signal.name@ },
                ),
                followed_by(
                    require(
                        -SIGNAL_LIMIT <= signal.value@ <= SIGNAL_LIMIT,
                        signal_path + ".value"@,
                        MSG_SIGNAL_RANGE@,
                    ),
                    followed_by(
                        check(
                            !repeats_earlier(signal_names(signals), k as int),
                            ErrorView::DuplicateSignal { record, signal: signal.name@ },
                        ),
                        references_check(
                            record,
                            allowed,
                            texts(signal.evidence_refs@),
                            signal_path + ".evidenceRefs"@,
                        ),
                    ),
                ),
            )
        }
}

/// The checks of a candidate's or an analysis record's evidence and signals.
/// Signals may reference the record's own evidence and the `extra` evidence.
pub open spec fn record_check(
    record: Seq<char>,
    extra: Seq<Evidence>,
    evidence: Seq<Evidence>,
    signals: Seq<Signal>,
    namespace: Seq<char>,
    path: Seq<char>,
    seen: Seq<Seq<char>>,
) -> Result<(), ErrorView> {
    followed_by(
        require(evidence.len() > 0, path + ".evidence"@, MSG_EVIDENCE_NOT_EMPTY@),
        followed_by(
            require(signals.len() > 0, path + ".signals"@, MSG_SIGNALS_NOT_EMPTY@),
            followed_by(
                first_error(evidence.len(), evidence_checks(evidence, seen, path)),
                first_error(
                    signals.len(),
                    signal_checks(
                        record,
                        signals,
                        namespace,
                        evidence_ids(extra) + evidence_ids(evidence),
                        path,
                    ),
                ),
            ),
        ),
    )
}

#[verifier::loop_isolation(false)]
fn validate_record(
    record: &str,
    extra: &Vec<Evidence>,
    evidence: &Vec<Evidence>,
    signals: &Vec<Signal>,
    namespace: &str,
    path: &str,
    seen: &mut Vec<String>,
) -> (r: Result<(), RankError>)
    ensures
        outcome(r) == record_check(
            record@,
            extra@,
            evidence@,
            signals@,
            namespace@,
            path@,
            texts(old(seen)@),
        ),
        r is Ok ==> texts(final(seen)@) == texts(old(seen)@) + evidence_ids(evidence@),
{
    let ghost seen0 = texts(seen@);
    let evidence_path = concat(path, ".evidence");
    require_schema(evidence.len() > 0, &evidence_path, MSG_EVIDENCE_NOT_EMPTY)?;
    require_schema(signals.len() > 0, &concat(path, ".signals"), MSG_SIGNALS_NOT_EMPTY)?;
    let ghost echecks = evidence_checks(evidence@, seen0, path@);
    let mut k: usize = 0;
    while k < evidence.len()
        invariant
            k <= evidence.len(),
            evidence.len() > 0,
            signals.len() > 0,
            evidence_path@ == path@ + ".evidence"@,
            echecks == evidence_checks(evidence@, seen0, path@),
            texts(seen@) == seen0 + evidence_ids(evidence@).take(k as int),
            first_error(k as nat, echecks) == Ok::<(), ErrorView>(()),
        decreases evidence.len() - k,
    {
        let item = &evidence[k];
        let item_path = indexed(&evidence_path, k);
        let step = validate_evidence(item, &item_path);
        if step.is_err() {
            proof {
                lemma_first_error_stays((k + 1) as nat, evidence.len() as nat, echecks);
            }
            return step;
        }
        if contains_text(seen, &item.id) {
            proof {
                lemma_first_error_stays((k + 1) as nat, evidence.len() as nat, echecks);
            }
            return Err(RankError::DuplicateId { kind: "evidence", id: item.id.clone() });
        }
        seen.push(item.id.clone());
        proof {
            assert(evidence_ids(evidence@).take(k + 1) =~= evidence_ids(evidence@).take(
                k as int,
            ).push(item.id@));
            assert(texts(seen@) =~= texts(old(seen)@) + evidence_ids(evidence@).take(k + 1)) by {
                assert(texts(seen@) =~= seen0 + evidence_ids(evidence@).take(k as int) + seq![item.id@]);
            }
        }
        k = k + 1;
    }
    assert(evidence_ids(evidence@).take(evidence.len() as int) =~= evidence_ids(evidence@));
    let ghost allowed = evidence_ids(extra@) + evidence_ids(evidence@);
    let ghost schecks = signal_checks(record@, signals@, namespace@, allowed, path@);
    let mut j: usize = 0;
    while j < signals.len()
        invariant
            j <= signals.len(),
            evidence.len() > 0,
            signals.len() > 0,
            first_error(evidence.len() as nat, evidence_checks(evidence@, seen0, path@)) == Ok::<(), ErrorView>(()),
            seen0 == texts(old(seen)@),
            allowed == evidence_ids(extra@) + evidence_ids(evidence@),
            schecks == signal_checks(record@, signals@, namespace@, allowed, path@),
            first_error(j as nat, schecks) == Ok::<(), ErrorView>(()),
        decreases signals.len() - j,
    {
        let step = validate_signal(record, extra, evidence, signals, j, namespace, path);
        if step.is_err() {
            proof {
                lemma_first_error_stays((j + 1) as nat, signals.len() as nat, schecks);
            }
            return step;
        }
        j = j + 1;
    }
    Ok(())
}

#[verifier::loop_isolation(false)]
fn validate_signal(
    record: &str,
    extra: &Vec<Evidence>,
    evidence: &Vec<Evidence>,
    signals: &Vec<Signal>,
    k: usize,
    namespace: &str,
    path: &str,
) -> (r: Result<(), RankError>)
    requires
        k < signals.len(),
    ensures
        outcome(r) == signal_checks(
            record@,
            signals@,
            namespace@,
            evidence_ids(extra@) + evidence_ids(evidence@),
            path@,
        )(k as nat),
{
    let signal = &signals[k];
    if !is_signal_name(&signal.name, namespace) {
        return Err(
            RankError::InvalidSignalNamespace {
                record: String::from_str(record),
                signal: signal.name.clone(),
            },
        );
    }
    let signal_path = indexed(&concat(path, ".signals"), k);
    let raw = signal.value.raw();
    require_schema(
        -SIGNAL_LIMIT <= raw && raw <= SIGNAL_LIMIT,
        &concat(&signal_path, ".value"),
        MSG_SIGNAL_RANGE,
    )?;
    let ghost names = signal_names(signals@);
    let mut j: usize = 0;
    while j < k
        invariant
            k < signals.len(),
            j <= k,
            names == signal_names(signals@),
            forall|i: int| 0 <= i < j ==> names[i] != names[k as int],
        decreases k - j,
    {
        if signals[j].name == signals[k].name {
            assert(names[j as int] == names[k as int]);
            return Err(
                RankError::DuplicateSignal {
                    record: String::from_str(record),
                    signal: signals[k].name.clone(),
                },
            );
        }
        j = j + 1;
    }
    validate_evidence_refs(
        record,
        extra,
        evidence,
        &signal.evidence_refs,
        &concat(&signal_path, ".evidenceRefs"),
    )
}


/// The checks of one candidate, at position `index` of the request, whose
/// evidence ids must not repeat any of `seen`.
pub open spec fn candidate_check(c: FeedCandidate, index: nat, seen: Seq<Seq<char>>) -> Result<
    (),
    ErrorView,
> {
    let path = indexed_path("request.candidates"@, index);
    followed_by(
        check(c.spec_version@ == SPEC_VERSION@, ErrorView::UnsupportedSpecVersion(c.spec_version@)),
        followed_by(
            require(matches_id(c.id@), path + ".id"@, MSG_ID@),
            followed_by(
                require(matches_token(c.source.source_type@), path + ".source.type"@, MSG_TOKEN@),
                followed_by(
                    require(c.source.name@.len() > 0, path + ".source.name"@, MSG_NOT_EMPTY@),
                    followed_by(
                        require(matches_id(c.subject.id@), path + ".subject.id"@, MSG_ID@),
                        followed_by(
                            require(
                                matches_token(c.subject.subject_type@),
                                path + ".subject.type"@,
                                MSG_TOKEN@,
                            ),
                            followed_by(
                                require(
                                    c.subject.title@.len() > 0,
                                    path + ".subject.title"@,
                                    MSG_NOT_EMPTY@,
                                ),
                                followed_by(
                                    require(
                                        uri_accepts(c.subject.url@),
                                        path + ".subject.url"@,
                                        MSG_URI@,
                                    ),
                                    candidate_tail_check(c, path, seen),
                                ),
                            ),
                        ),
                    ),
                ),
            ),
        ),
    )
}

/// The trigger, provenance, evidence and signal checks of a candidate.
pub open spec fn candidate_tail_check(c: FeedCandidate, path: Seq<char>, seen: Seq<Seq<char>>) -> Result<(), ErrorView> {
    followed_by(
        require(matches_token(c.trigger.trigger_type@), path + ".trigger.type"@, MSG_TOKEN@),
        followed_by(
            require(
                rfc3339_accepts(c.trigger.observed_at@),
                path + ".trigger.observedAt"@,
                MSG_DATE_TIME@,
            ),
            followed_by(
                component_check(c.provenance.adapter, path + ".provenance.adapter"@),
                followed_by(
                    require(
                        rfc3339_accepts(c.provenance.retrieved_at@),
                        path + ".provenance.retrievedAt"@,
                        MSG_DATE_TIME@,
                    ),
                    record_check(c.id@, seq![], c.evidence@, c.signals@, "source."@, path, seen),
                ),
            ),
        ),
    )
}

/// The checks of one analysis record, at position `index` of the request,
/// whose evidence ids must not repeat any of `seen`; its signals and cluster
/// references may also name the `extra` evidence of its candidate.
pub open spec fn analysis_check(
    a: AnalysisRecord,
    index: nat,
    seen: Seq<Seq<char>>,
    extra: Seq<Evidence>,
) -> Result<(), ErrorView> {
    let path = indexed_path("request.analysis"@, index);
    followed_by(
        check(a.spec_version@ == SPEC_VERSION@, ErrorView::UnsupportedSpecVersion(a.spec_version@)),
        followed_by(
            require(matches_id(a.id@), path + ".id"@, MSG_ID@),
            followed_by(
                require(matches_id(a.candidate_id@), path + ".candidateId"@, MSG_ID@),
                followed_by(
                    component_check(a.analyzer, path + ".analyzer"@),
                    followed_by(
                        require(rfc3339_accepts(a.created_at@), path + ".createdAt"@, MSG_DATE_TIME@),
                        followed_by(
                            record_check(
                                a.id@,
                                extra,
                                a.evidence@,
                                a.signals@,
                                "analysis."@,
                                path,
                                seen,
                            ),
                            cluster_check(a, extra, path),
                        ),
                    ),
                ),
            ),
        ),
    )
}

/// The checks of a record's cluster assignment, whose references may
/// name the record's or the `extra` evidence.
pub open spec fn cluster_check(a: AnalysisRecord, extra: Seq<Evidence>, path: Seq<char>) -> Result<
    (),
    ErrorView,
> {
    match a.cluster_assignment {
        Some(cluster) => {
            let cluster_path = path + ".clusterAssignment"@;
            followed_by(
                require(
                    matches_token(cluster.namespace@),
                    cluster_path + ".namespace"@,
                    MSG_TOKEN@,
                ),
                followed_by(
                    require(matches_id(cluster.id@), cluster_path + ".id"@, MSG_ID@),
                    references_check(
                        a.id@,
                        evidence_ids(extra) + evidence_ids(a.evidence@),
                        texts(cluster.evidence_refs@),
                        cluster_path + ".evidenceRefs"@,
                    ),
                ),
            )
        },
        None => Ok(()),
    }
}

fn validate_candidate(candidate: &FeedCandidate, index: usize, seen: &mut Vec<String>) -> (r: Result<
    (),
    RankError,
>)
    ensures
        outcome(r) == candidate_check(*candidate, index as nat, texts(old(seen)@)),
        r is Ok ==> texts(final(seen)@) == texts(old(seen)@) + evidence_ids(candidate.evidence@),
{
    let path = indexed("request.candidates", index);
    if !same_text(&candidate.spec_version, SPEC_VERSION) {
        return Err(RankError::UnsupportedSpecVersion(candidate.spec_version.clone()));
    }
    require_schema(is_id(&candidate.id), &concat(&path, ".id"), MSG_ID)?;
    require_schema(
        is_token(&candidate.source.source_type),
        &concat(&path, ".source.type"),
        MSG_TOKEN,
    )?;
    require_schema(
        !candidate.source.name.as_str().is_empty(),
        &concat(&path, ".source.name"),
        MSG_NOT_EMPTY,
    )?;
    require_schema(is_id(&candidate.subject.id), &concat(&path, ".subject.id"), MSG_ID)?;
    require_schema(
        is_token(&candidate.subject.subject_type),
        &concat(&path, ".subject.type"),
        MSG_TOKEN,
    )?;
    require_schema(
        !candidate.subject.title.as_str().is_empty(),
        &concat(&path, ".subject.title"),
        MSG_NOT_EMPTY,
    )?;
    require_schema(is_uri(&candidate.subject.url), &concat(&path, ".subject.url"), MSG_URI)?;
    require_schema(
        is_token(&candidate.trigger.trigger_type),
        &concat(&path, ".trigger.type"),
        MSG_TOKEN,
    )?;
    require_schema(
        is_rfc3339(&candidate.trigger.observed_at),
        &concat(&path, ".trigger.observedAt"),
        MSG_DATE_TIME,
    )?;
    validate_component(&candidate.provenance.adapter, &concat(&path, ".provenance.adapter"))?;
    require_schema(
        is_rfc3339(&candidate.provenance.retrieved_at),
        &concat(&path, ".provenance.retrievedAt"),
        MSG_DATE_TIME,
    )?;
    let none: Vec<Evidence> = Vec::new();
    proof {
        assert(none@ =~= Seq::<Evidence>::empty());
    }
    validate_record(
        &candidate.id,
        &none,
        &candidate.evidence,
        &candidate.signals,
        "source.",
        &path,
        seen,
    )
}

fn validate_analysis(
    analysis: &AnalysisRecord,
    index: usize,
    seen: &mut Vec<String>,
    extra: &Vec<Evidence>,
) -> (r: Result<(), RankError>)
    ensures
        outcome(r) == analysis_check(*analysis, index as nat, texts(old(seen)@), extra@),
        r is Ok ==> texts(final(seen)@) == texts(old(seen)@) + evidence_ids(analysis.evidence@),
{
    let path = indexed("request.analysis", index);
    if !same_text(&analysis.spec_version, SPEC_VERSION) {
        return Err(RankError::UnsupportedSpecVersion(analysis.spec_version.clone()));
    }
    require_schema(is_id(&analysis.id), &concat(&path, ".id"), MSG_ID)?;
    require_schema(is_id(&analysis.candidate_id), &concat(&path, ".candidateId"), MSG_ID)?;
    validate_component(&analysis.analyzer, &concat(&path, ".analyzer"))?;
    require_schema(
        is_rfc3339(&analysis.created_at),
        &concat(&path, ".createdAt"),
        MSG_DATE_TIME,
    )?;
    validate_record(
        &analysis.id,
        extra,
        &analysis.evidence,
        &analysis.signals,
        "analysis.",
        &path,
        seen,
    )?;
    match &analysis.cluster_assignment {
        Some(cluster) => {
            let cluster_path = concat(&path, ".clusterAssignment");
            require_schema(
                is_token(&cluster.namespace),
                &concat(&cluster_path, ".namespace"),
                MSG_TOKEN,
            )?;
            require_schema(is_id(&cluster.id), &concat(&cluster_path, ".id"), MSG_ID)?;
            validate_evidence_refs(
                &analysis.id,
                extra,
                &analysis.evidence,
                &cluster.evidence_refs,
                &concat(&cluster_path, ".evidenceRefs"),
            )
        },
        None => Ok(()),
    }
}


pub const MSG_TYPES_NOT_EMPTY: &'static str = "must contain at least one source type when present";
pub const MSG_TYPE_UNIQUE: &'static str = "must not duplicate another allowed source type";
pub const MSG_WEIGHTS_NOT_EMPTY: &'static str = "must contain at least one weight";
pub const MSG_WEIGHT_NAMESPACE: &'static str = "name must use the source.* or analysis.* namespace";
pub const MSG_WEIGHT_RANGE: &'static str = "value must be between -10 and 10";
/// The weights form a map: each name once, in ascending text order.
pub const MSG_WEIGHT_ORDER: &'static str = "name must follow the previous weight name in ascending order";
pub const MSG_MAX_ITEMS: &'static str = "maxItems must be >= 1";
pub const MSG_MAX_PER_CLUSTER: &'static str = "maxPerCluster must be >= 1";
pub const MSG_TIE_BREAKER: &'static str = "tieBreaker must be candidateIdAsc";
/// The one tie breaker a policy may name.
pub const TIE_BREAKER: &'static str = "candidateIdAsc";

/// The check of the `k`-th allowed source type: a token not listed before.
pub open spec fn source_type_checks(types: Seq<Seq<char>>) -> spec_fn(nat) -> Result<(), ErrorView> {
    |k: nat|
        followed_by(
            require(
                matches_token(types[k as int]),
                indexed_path("request.lens.allowedSourceTypes"@, k),
                MSG_TOKEN@,
            ),
            require(
                !repeats_earlier(types, k as int),
                indexed_path("request.lens.allowedSourceTypes"@, k),
                MSG_TYPE_UNIQUE@,
            ),
        )
}

/// The check of the `k`-th weight: a weight name with a value within
/// [-10, 10], coming after the previous weight's name in text order, so that
/// the weights list each name once, in ascending order.
pub open spec fn weight_checks(weights: Seq<(String, Fixed6)>) -> spec_fn(nat) -> Result<
    (),
    ErrorView,
> {
    |k: nat|
        {
            let path = "request.lens.weights."@ + weights[k as int].0@;
            followed_by(
                require(matches_weight_name(weights[k as int].0@), path, MSG_WEIGHT_NAMESPACE@),
                followed_by(
                    require(
                        -WEIGHT_LIMIT <= weights[k as int].1@ <= WEIGHT_LIMIT,
                        path,
                        MSG_WEIGHT_RANGE@,
                    ),
                    require(
                        k == 0 || text_less(weights[k - 1].0@, weights[k as int].0@),
                        path,
                        MSG_WEIGHT_ORDER@,
                    ),
                ),
            )
        }
}

/// The checks of the lens, in order: version, id, title, allowed source
/// types, weights, policy.
pub open spec fn lens_check(lens: LensProfile) -> Result<(), ErrorView> {
    followed_by(
        check(
            lens.spec_version@ == SPEC_VERSION@,
            ErrorView::UnsupportedSpecVersion(lens.spec_version@),
        ),
        followed_by(
            require(matches_id(lens.id@), "request.lens.id"@, MSG_ID@),
            followed_by(
                require(lens.title@.len() > 0, "request.lens.title"@, MSG_NOT_EMPTY@),
                followed_by(
                    match lens.allowed_source_types {
                        Some(types) => followed_by(
                            require(
                                types.len() > 0,
                                "request.lens.allowedSourceTypes"@,
                                MSG_TYPES_NOT_EMPTY@,
                            ),
                            first_error(types@.len(), source_type_checks(texts(types@))),
                        ),
                        None => Ok(()),
                    },
                    followed_by(
                        require(
                            lens.weights.len() > 0,
                            "request.lens.weights"@,
                            MSG_WEIGHTS_NOT_EMPTY@,
                        ),
                        followed_by(
                            first_error(lens.weights@.len(), weight_checks(lens.weights@)),
                            policy_check(lens),
                        ),
                    ),
                ),
            ),
        ),
    )
}

/// The checks of the selection policy.
pub open spec fn policy_check(lens: LensProfile) -> Result<(), ErrorView> {
    followed_by(
        check(lens.policy.max_items >= 1, ErrorView::InvalidPolicy(MSG_MAX_ITEMS@)),
        followed_by(
            check(lens.policy.max_per_cluster >= 1, ErrorView::InvalidPolicy(MSG_MAX_PER_CLUSTER@)),
            check(
                lens.policy.tie_breaker@ == TIE_BREAKER@,
                ErrorView::InvalidPolicy(MSG_TIE_BREAKER@),
            ),
        ),
    )
}

#[verifier::loop_isolation(false)]
fn validate_lens(lens: &LensProfile) -> (r: Result<(), RankError>)
    ensures
        outcome(r) == lens_check(*lens),
{
    if !same_text(&lens.spec_version, SPEC_VERSION) {
        return Err(RankError::UnsupportedSpecVersion(lens.spec_version.clone()));
    }
    require_schema(is_id(&lens.id), "request.lens.id", MSG_ID)?;
    require_schema(!lens.title.as_str().is_empty(), "request.lens.title", MSG_NOT_EMPTY)?;
    match &lens.allowed_source_types {
        Some(source_types) => {
            require_schema(
                source_types.len() > 0,
                "request.lens.allowedSourceTypes",
                MSG_TYPES_NOT_EMPTY,
            )?;
            let ghost checks = source_type_checks(texts(source_types@));
            let mut k: usize = 0;
            while k < source_types.len()
                invariant
                    k <= source_types.len(),
                    first_error(k as nat, checks) == Ok::<(), ErrorView>(()),
                decreases source_types.len() - k,
            {
                let path = indexed("request.lens.allowedSourceTypes", k);
                let step = require_schema(is_token(&source_types[k]), &path, MSG_TOKEN);
                let step = if step.is_ok() {
                    require_schema(!occurs_before(source_types, k), &path, MSG_TYPE_UNIQUE)
                } else {
                    step
                };
                if step.is_err() {
                    proof {
                        lemma_first_error_stays((k + 1) as nat, source_types.len() as nat, checks);
                    }
                    return step;
                }
                k = k + 1;
            }
        },
        None => {},
    }
    require_schema(lens.weights.len() > 0, "request.lens.weights", MSG_WEIGHTS_NOT_EMPTY)?;
    let ghost wchecks = weight_checks(lens.weights@);
    let mut j: usize = 0;
    while j < lens.weights.len()
        invariant
            j <= lens.weights.len(),
            first_error(j as nat, wchecks) == Ok::<(), ErrorView>(()),
        decreases lens.weights.len() - j,
    {
        let (name, weight) = &lens.weights[j];
        let path = concat("request.lens.weights.", name);
        let step = require_schema(is_weight_name(name), &path, MSG_WEIGHT_NAMESPACE);
        let raw = weight.raw();
        let step = if step.is_ok() {
            require_schema(-WEIGHT_LIMIT <= raw && raw <= WEIGHT_LIMIT, &path, MSG_WEIGHT_RANGE)
        } else {
            step
        };
        let step = if step.is_ok() {
            let ordered = j == 0 || str_less(&lens.weights[j - 1].0, name);
            require_schema(ordered, &path, MSG_WEIGHT_ORDER)
        } else {
            step
        };
        if step.is_err() {
            proof {
                lemma_first_error_stays((j + 1) as nat, lens.weights.len() as nat, wchecks);
            }
            return step;
        }
        j = j + 1;
    }
    if lens.policy.max_items < 1 {
        return Err(RankError::InvalidPolicy(String::from_str(MSG_MAX_ITEMS)));
    }
    if lens.policy.max_per_cluster < 1 {
        return Err(RankError::InvalidPolicy(String::from_str(MSG_MAX_PER_CLUSTER)));
    }
    if !same_text(&lens.policy.tie_breaker, TIE_BREAKER) {
        return Err(RankError::InvalidPolicy(String::from_str(MSG_TIE_BREAKER)));
    }
    Ok(())
}


pub const MSG_CANDIDATES_NOT_EMPTY: &'static str = "must contain at least one candidate";
pub const MSG_ANALYSIS_NOT_EMPTY: &'static str = "must contain at least one analysis record";

/// The ids of the candidates, in order.
pub open spec fn candidate_ids(r: RankRequest) -> Seq<Seq<char>> {
    r.candidates@.map_values(|c: FeedCandidate| c.id@)
}

/// The ids of the analysis records, in order.
pub open spec fn analysis_ids(r: RankRequest) -> Seq<Seq<char>> {
    r.analysis@.map_values(|a: AnalysisRecord| a.id@)
}

/// The candidate ids the analysis records name, in order.
pub open spec fn analyzed_candidate_ids(r: RankRequest) -> Seq<Seq<char>> {
    r.analysis@.map_values(|a: AnalysisRecord| a.candidate_id@)
}

/// The evidence ids of the first `k` candidates, in order.
pub open spec fn candidate_evidence_ids(cs: Seq<FeedCandidate>, k: nat) -> Seq<Seq<char>>
    decreases k,
{
    if k == 0 {
        seq![]
    } else {
        candidate_evidence_ids(cs, (k - 1) as nat) + evidence_ids(cs[k - 1].evidence@)
    }
}

/// The evidence ids of the first `k` analysis records, in order.
pub open spec fn analysis_evidence_ids(records: Seq<AnalysisRecord>, k: nat) -> Seq<Seq<char>>
    decreases k,
{
    if k == 0 {
        seq![]
    } else {
        analysis_evidence_ids(records, (k - 1) as nat) + evidence_ids(records[k - 1].evidence@)
    }
}

/// Whether `j` is the first candidate with the id `id`.
pub open spec fn is_first_with_id(cs: Seq<FeedCandidate>, id: Seq<char>, j: int) -> bool {
    &&& 0 <= j < cs.len()
    &&& cs[j].id@ == id
    &&& forall|i: int| 0 <= i < j ==> cs[i].id@ != id
}

/// The evidence of the first candidate with the id `id`; none if there is no
/// such candidate.
pub open spec fn evidence_of_candidate(cs: Seq<FeedCandidate>, id: Seq<char>) -> Seq<Evidence> {
    if exists|j: int| 0 <= j < cs.len() && cs[j].id@ == id {
        cs[choose|j: int| is_first_with_id(cs, id, j)].evidence@
    } else {
        seq![]
    }
}

/// The check of the `k`-th candidate, then that no earlier candidate has its id.
pub open spec fn candidate_checks(r: RankRequest) -> spec_fn(nat) -> Result<(), ErrorView> {
    |k: nat|
        followed_by(
            candidate_check(
                r.candidates@[k as int],
                k,
                candidate_evidence_ids(r.candidates@, k),
            ),
            check(
                !repeats_earlier(candidate_ids(r), k as int),
                ErrorView::DuplicateId { kind: "candidate"@, id: r.candidates@[k as int].id@ },
            ),
        )
}

/// The check of the `k`-th analysis record, then that its id is new, that its
/// candidate exists, and that no earlier record analyzes the same candidate.
pub open spec fn analysis_checks(r: RankRequest) -> spec_fn(nat) -> Result<(), ErrorView> {
    |k: nat|
        {
            let a = r.analysis@[k as int];
            followed_by(
                analysis_check(
                    a,
                    k,
                    candidate_evidence_ids(r.candidates@, r.candidates@.len())
                        + analysis_evidence_ids(r.analysis@, k),
                    evidence_of_candidate(r.candidates@, a.candidate_id@),
                ),
                followed_by(
                    check(
                        !repeats_earlier(analysis_ids(r), k as int),
                        ErrorView::DuplicateId { kind: "analysis"@, id: a.id@ },
                    ),
                    followed_by(
                        check(
                            candidate_ids(r).contains(a.candidate_id@),
                            ErrorView::UnknownCandidate(a.candidate_id@),
                        ),
                        check(
                            !repeats_earlier(analyzed_candidate_ids(r), k as int),
                            ErrorView::DuplicateId {
                                kind: "analysisForCandidate"@,
                                id: a.candidate_id@,
                            },
                        ),
                    ),
                ),
            )
        }
}

/// Whether no analysis record names the `i`-th candidate.
pub open spec fn lacks_analysis(r: RankRequest, i: int) -> bool {
    !analyzed_candidate_ids(r).contains(r.candidates@[i].id@)
}

/// Whether the `i`-th candidate lacks analysis and has the least id, in text
/// order, of all that do.
pub open spec fn is_least_unanalyzed(r: RankRequest, i: int) -> bool {
    &&& 0 <= i < r.candidates@.len()
    &&& lacks_analysis(r, i)
    &&& forall|j: int|
        0 <= j < r.candidates@.len() && lacks_analysis(r, j) ==> !text_less(
            r.candidates@[j].id@,
            r.candidates@[i].id@,
        )
}

/// A candidate without analysis is reported by the least such id.
pub open spec fn coverage_check(r: RankRequest) -> Result<(), ErrorView> {
    if exists|i: int| 0 <= i < r.candidates@.len() && lacks_analysis(r, i) {
        Err(
            ErrorView::MissingAnalysis(
                r.candidates@[choose|i: int| is_least_unanalyzed(r, i)].id@,
            ),
        )
    } else {
        Ok(())
    }
}

/// The outcome of validating a request: the first failing check, in the
/// order request header, lens, candidates, analysis records, coverage.
pub open spec fn request_check(r: RankRequest) -> Result<(), ErrorView> {
    followed_by(
        check(r.spec_version@ == SPEC_VERSION@, ErrorView::UnsupportedSpecVersion(r.spec_version@)),
        followed_by(
            require(matches_id(r.id@), "request.id"@, MSG_ID@),
            followed_by(
                require(
                    rfc3339_accepts(r.context.generated_at@),
                    "request.context.generatedAt"@,
                    MSG_DATE_TIME@,
                ),
                followed_by(
                    require(
                        r.candidates@.len() > 0,
                        "request.candidates"@,
                        MSG_CANDIDATES_NOT_EMPTY@,
                    ),
                    followed_by(
                        require(r.analysis@.len() > 0, "request.analysis"@, MSG_ANALYSIS_NOT_EMPTY@),
                        followed_by(
                            lens_check(r.lens),
                            followed_by(
                                first_error(r.candidates@.len(), candidate_checks(r)),
                                followed_by(
                                    first_error(r.analysis@.len(), analysis_checks(r)),
                                    coverage_check(r),
                                ),
                            ),
                        ),
                    ),
                ),
            ),
        ),
    )
}

/// The position of the first candidate with the id `id`, if any.
fn find_candidate(candidates: &Vec<FeedCandidate>, id: &String) -> (r: Option<usize>)
    ensures
        match r {
            Some(j) => is_first_with_id(candidates@, id@, j as int),
            None => forall|j: int| 0 <= j < candidates@.len() ==> candidates@[j].id@ != id@,
        },
{
    let mut j: usize = 0;
    while j < candidates.len()
        invariant
            j <= candidates.len(),
            forall|i: int| 0 <= i < j ==> candidates@[i].id@ != id@,
        decreases candidates.len() - j,
    {
        if candidates[j].id == *id {
            return Some(j);
        }
        j = j + 1;
    }
    None
}

/// Whether `j` is the only candidate that can be the first with its id.
proof fn lemma_first_with_id_unique(cs: Seq<FeedCandidate>, id: Seq<char>, j: int, k: int)
    requires
        is_first_with_id(cs, id, j),
        is_first_with_id(cs, id, k),
    ensures
        j == k,
{
}

#[verifier::loop_isolation(false)]
fn validate_candidates(request: &RankRequest, seen: &mut Vec<String>) -> (r: Result<(), RankError>)
    requires
        old(seen)@.len() == 0,
    ensures
        outcome(r) == first_error(request.candidates@.len(), candidate_checks(*request)),
        r is Ok ==> texts(final(seen)@) == candidate_evidence_ids(
            request.candidates@,
            request.candidates@.len(),
        ),
{
    let ghost checks = candidate_checks(*request);
    let candidates = &request.candidates;
    assert(texts(seen@) =~= candidate_evidence_ids(candidates@, 0));
    let mut k: usize = 0;
    while k < candidates.len()
        invariant
            k <= candidates.len(),
            texts(seen@) == candidate_evidence_ids(candidates@, k as nat),
            first_error(k as nat, checks) == Ok::<(), ErrorView>(()),
        decreases candidates.len() - k,
    {
        let step = validate_candidate(&candidates[k], k, seen);
        if step.is_err() {
            proof {
                lemma_first_error_stays((k + 1) as nat, candidates.len() as nat, checks);
            }
            return step;
        }
        let mut j: usize = 0;
        while j < k
            invariant
                j <= k,
                forall|i: int| 0 <= i < j ==> candidate_ids(*request)[i] != candidate_ids(
                    *request,
                )[k as int],
            decreases k - j,
        {
            if candidates[j].id == candidates[k].id {
                assert(candidate_ids(*request)[j as int] == candidate_ids(*request)[k as int]);
                proof {
                    lemma_first_error_stays((k + 1) as nat, candidates.len() as nat, checks);
                }
                return Err(RankError::DuplicateId { kind: "candidate", id: candidates[k].id.clone() });
            }
            j = j + 1;
        }
        k = k + 1;
    }
    Ok(())
}

/// The checks of the `k`-th analysis record.
#[verifier::loop_isolation(false)]
fn validate_analysis_step(request: &RankRequest, k: usize, seen: &mut Vec<String>) -> (r: Result<(), RankError>)
    requires
        k < request.analysis@.len(),
        texts(old(seen)@) == candidate_evidence_ids(request.candidates@, request.candidates@.len())
            + analysis_evidence_ids(request.analysis@, k as nat),
    ensures
        outcome(r) == analysis_checks(*request)(k as nat),
        r is Ok ==> texts(final(seen)@) == candidate_evidence_ids(
            request.candidates@,
            request.candidates@.len(),
        ) + analysis_evidence_ids(request.analysis@, (k + 1) as nat),
{
    let candidates = &request.candidates;
    let records = &request.analysis;
    let none: Vec<Evidence> = Vec::new();
    let record = &records[k];
    let owner = find_candidate(candidates, &record.candidate_id);
    let extra = match owner {
        Some(j) => &candidates[j].evidence,
        None => &none,
    };
    proof {
        let cid = record.candidate_id@;
        match owner {
            Some(j) => {
                let c = choose|i: int| is_first_with_id(candidates@, cid, i);
                lemma_first_with_id_unique(candidates@, cid, j as int, c);
            },
            None => {
                assert(none@ =~= Seq::<Evidence>::empty());
            },
        }
        assert(extra@ == evidence_of_candidate(candidates@, cid));
        assert(candidate_ids(*request).contains(cid) <==> owner is Some) by {
            if let Some(j) = owner {
                assert(candidate_ids(*request)[j as int] == cid);
            }
        }
    }
    validate_analysis(record, k, seen, extra)?;
    proof {
        assert(texts(seen@) =~= candidate_evidence_ids(candidates@, candidates@.len())
            + analysis_evidence_ids(records@, (k + 1) as nat));
    }
    let mut j: usize = 0;
    while j < k
        invariant
            j <= k,
            forall|i: int| 0 <= i < j ==> analysis_ids(*request)[i] != analysis_ids(
                *request,
            )[k as int],
        decreases k - j,
    {
        if records[j].id == records[k].id {
            assert(analysis_ids(*request)[j as int] == analysis_ids(*request)[k as int]);
            return Err(RankError::DuplicateId { kind: "analysis", id: records[k].id.clone() });
        }
        j = j + 1;
    }
    if owner.is_none() {
        return Err(RankError::UnknownCandidate(records[k].candidate_id.clone()));
    }
    let mut j: usize = 0;
    while j < k
        invariant
            j <= k,
            forall|i: int|
                0 <= i < j ==> analyzed_candidate_ids(*request)[i] != analyzed_candidate_ids(
                    *request,
                )[k as int],
        decreases k - j,
    {
        if records[j].candidate_id == records[k].candidate_id {
            assert(analyzed_candidate_ids(*request)[j as int] == analyzed_candidate_ids(
                *request,
            )[k as int]);
            return Err(
                RankError::DuplicateId {
                    kind: "analysisForCandidate",
                    id: records[k].candidate_id.clone(),
                },
            );
        }
        j = j + 1;
    }
    Ok(())
}

fn validate_analyses(request: &RankRequest, seen: &mut Vec<String>) -> (r: Result<(), RankError>)
    requires
        texts(old(seen)@) == candidate_evidence_ids(request.candidates@, request.candidates@.len()),
    ensures
        outcome(r) == first_error(request.analysis@.len(), analysis_checks(*request)),
{
    let ghost checks = analysis_checks(*request);
    let ghost seen0 = texts(seen@);
    assert(texts(seen@) =~= seen0 + analysis_evidence_ids(request.analysis@, 0));
    let mut k: usize = 0;
    while k < request.analysis.len()
        invariant
            k <= request.analysis.len(),
            checks == analysis_checks(*request),
            seen0 == candidate_evidence_ids(request.candidates@, request.candidates@.len()),
            texts(seen@) == seen0 + analysis_evidence_ids(request.analysis@, k as nat),
            first_error(k as nat, checks) == Ok::<(), ErrorView>(()),
        decreases request.analysis.len() - k,
    {
        let step = validate_analysis_step(request, k, seen);
        if step.is_err() {
            proof {
                lemma_first_error_stays((k + 1) as nat, request.analysis.len() as nat, checks);
            }
            return step;
        }
        k = k + 1;
    }
    Ok(())
}

/// Whether some analysis record names the candidate id `id`.
fn is_analyzed(records: &Vec<AnalysisRecord>, id: &String) -> (r: bool)
    ensures
        r == records@.map_values(|a: AnalysisRecord| a.candidate_id@).contains(id@),
{
    let ghost ids = records@.map_values(|a: AnalysisRecord| a.candidate_id@);
    let mut j: usize = 0;
    while j < records.len()
        invariant
            j <= records.len(),
            ids == records@.map_values(|a: AnalysisRecord| a.candidate_id@),
            forall|i: int| 0 <= i < j ==> ids[i] != id@,
        decreases records.len() - j,
    {
        if records[j].candidate_id == *id {
            assert(ids[j as int] == id@);
            return true;
        }
        j = j + 1;
    }
    false
}

#[verifier::loop_isolation(false)]
fn check_coverage(request: &RankRequest) -> (r: Result<(), RankError>)
    ensures
        outcome(r) == coverage_check(*request),
{
    let candidates = &request.candidates;
    let mut least: Option<usize> = None;
    let mut k: usize = 0;
    while k < candidates.len()
        invariant
            k <= candidates.len(),
            match least {
                Some(i) => i < k && lacks_analysis(*request, i as int) && forall|j: int|
                    0 <= j < k && lacks_analysis(*request, j) ==> !text_less(
                        candidates@[j].id@,
                        candidates@[i as int].id@,
                    ),
                None => forall|j: int| 0 <= j < k ==> !lacks_analysis(*request, j),
            },
        decreases candidates.len() - k,
    {
        if !is_analyzed(&request.analysis, &candidates[k].id) {
            match least {
                Some(i) => {
                    if str_less(&candidates[k].id, &candidates[i].id) {
                        proof {
                            assert forall|j: int|
                                0 <= j < k + 1 && lacks_analysis(*request, j) implies !text_less(
                                candidates@[j].id@,
                                candidates@[k as int].id@,
                            ) by {
                                if j < k {
                                    if text_less(candidates@[j].id@, candidates@[k as int].id@) {
                                        lemma_text_less_transitive(
                                            candidates@[j].id@,
                                            candidates@[k as int].id@,
                                            candidates@[i as int].id@,
                                        );
                                    }
                                } else {
                                    lemma_text_less_asymmetric(
                                        candidates@[j].id@,
                                        candidates@[j].id@,
                                    );
                                }
                            }
                        }
                        least = Some(k);
                    } else {
                        proof {
                            lemma_text_less_total(candidates@[k as int].id@, candidates@[i as int].id@);
                            lemma_text_less_asymmetric(candidates@[k as int].id@, candidates@[i as int].id@);
                        }
                    }
                },
                None => {
                    proof {
                        lemma_text_less_asymmetric(
                            candidates@[k as int].id@,
                            candidates@[k as int].id@,
                        );
                    }
                    least = Some(k);
                },
            }
        }
        k = k + 1;
    }
    match least {
        Some(i) => {
            proof {
                let c = choose|c: int| is_least_unanalyzed(*request, c);
                assert(is_least_unanalyzed(*request, i as int));
                lemma_text_less_total(candidates@[c].id@, candidates@[i as int].id@);
            }
            Err(RankError::MissingAnalysis(candidates[i].id.clone()))
        },
        None => Ok(()),
    }
}

/// Checks a request against the contract, reporting the first failing
/// check; see `request_check` for the order.
pub fn validate(request: &RankRequest) -> (r: Result<(), RankError>)
    ensures
        outcome(r) == request_check(*request),
{
    if !same_text(&request.spec_version, SPEC_VERSION) {
        return Err(RankError::UnsupportedSpecVersion(request.spec_version.clone()));
    }
    require_schema(is_id(&request.id), "request.id", MSG_ID)?;
    require_schema(
        is_rfc3339(&request.context.generated_at),
        "request.context.generatedAt",
        MSG_DATE_TIME,
    )?;
    require_schema(request.candidates.len() > 0, "request.candidates", MSG_CANDIDATES_NOT_EMPTY)?;
    require_schema(request.analysis.len() > 0, "request.analysis", MSG_ANALYSIS_NOT_EMPTY)?;
    validate_lens(&request.lens)?;
    let mut seen: Vec<String> = Vec::new();
    validate_candidates(request, &mut seen)?;
    validate_analyses(request, &mut seen)?;
    check_coverage(request)
}


/// A request that passes validation has candidates with distinct ids, and
/// its analysis records name those candidates one to one: each record a
/// candidate of the request, each candidate exactly one record.
pub proof fn lemma_valid_request(r: RankRequest)
    requires
        request_check(r) is Ok,
    ensures
        forall|k: int|
            0 <= k < r.candidates@.len() ==> !repeats_earlier(candidate_ids(r), k),
        forall|k: int|
            0 <= k < r.analysis@.len() ==> !repeats_earlier(analyzed_candidate_ids(r), k),
        forall|i: int|
            0 <= i < r.candidates@.len() ==> analyzed_candidate_ids(r).contains(
                #[trigger] r.candidates@[i].id@,
            ),
        forall|a: int|
            0 <= a < r.analysis@.len() ==> candidate_ids(r).contains(
                #[trigger] r.analysis@[a].candidate_id@,
            ),
        r.lens.policy.max_items >= 1,
        r.lens.policy.max_per_cluster >= 1,
{
    lemma_first_error_ok(r.candidates@.len(), candidate_checks(r));
    lemma_first_error_ok(r.analysis@.len(), analysis_checks(r));
    assert forall|k: int| 0 <= k < r.candidates@.len() implies !repeats_earlier(
        candidate_ids(r),
        k,
    ) by {
        assert(candidate_checks(r)(k as nat) is Ok);
    }
    assert forall|k: int| 0 <= k < r.analysis@.len() implies !repeats_earlier(
        analyzed_candidate_ids(r),
        k,
    ) by {
        assert(analysis_checks(r)(k as nat) is Ok);
    }
    assert forall|i: int| 0 <= i < r.candidates@.len() implies analyzed_candidate_ids(r).contains(
        #[trigger] r.candidates@[i].id@,
    ) by {
        if !analyzed_candidate_ids(r).contains(r.candidates@[i].id@) {
            assert(lacks_analysis(r, i));
        }
    }
    assert forall|a: int| 0 <= a < r.analysis@.len() implies candidate_ids(r).contains(
        #[trigger] r.analysis@[a].candidate_id@,
    ) by {
        assert(analysis_checks(r)(a as nat) is Ok);
    }
}

/// A lens that passes validation weighs each signal name once: its weight
/// names come in strictly ascending text order.
pub proof fn lemma_valid_weights(r: RankRequest)
    requires
        request_check(r) is Ok,
    ensures
        forall|i: int, j: int|
            0 <= i < j < r.lens.weights@.len() ==> text_less(
                #[trigger] r.lens.weights@[i].0@,
                #[trigger] r.lens.weights@[j].0@,
            ),
{
    let w = r.lens.weights@;
    lemma_first_error_ok(w.len(), weight_checks(w));
    assert forall|k: int| 0 < k < w.len() implies text_less(w[k - 1].0@, #[trigger] w[k].0@) by {
        assert(weight_checks(w)(k as nat) is Ok);
    }
    assert forall|i: int, j: int| 0 <= i < j < w.len() implies text_less(
        #[trigger] w[i].0@,
        #[trigger] w[j].0@,
    ) by {
        lemma_ascending_chain(w, i, j);
    }
}

proof fn lemma_ascending_chain(w: Seq<(String, Fixed6)>, i: int, j: int)
    requires
        0 <= i < j < w.len(),
        forall|k: int| 0 < k < w.len() ==> text_less(w[k - 1].0@, #[trigger] w[k].0@),
    ensures
        text_less(w[i].0@, w[j].0@),
    decreases j - i,
{
    if j - i > 1 {
        lemma_ascending_chain(w, i, j - 1);
        assert(text_less(w[j - 1].0@, w[j].0@));
        lemma_text_less_transitive(w[i].0@, w[j - 1].0@, w[j].0@);
    }
}


/// Whether a signal has a name in `namespace`, a value within [-1, 1], and
/// at least one evidence reference, each naming one of the `allowed`
/// evidence ids, none twice.
pub open spec fn signal_conforms(signal: Signal, namespace: Seq<char>, allowed: Seq<Seq<char>>) -> bool {
    &&& matches_signal_name(signal.name@, namespace)
    &&& -1_000_000 <= signal.value@ <= 1_000_000
    &&& signal.evidence_refs@.len() > 0
    &&& forall|j: int|
        0 <= j < signal.evidence_refs@.len() ==> allowed.contains(
            #[trigger] signal.evidence_refs@[j]@,
        )
    &&& forall|i: int, j: int|
        0 <= i < j < signal.evidence_refs@.len() ==> (#[trigger] signal.evidence_refs@[i])@
            != (#[trigger] signal.evidence_refs@[j])@
}

proof fn lemma_valid_record_signals(
    record: Seq<char>,
    extra: Seq<Evidence>,
    evidence: Seq<Evidence>,
    signals: Seq<Signal>,
    namespace: Seq<char>,
    path: Seq<char>,
    seen: Seq<Seq<char>>,
)
    requires
        record_check(record, extra, evidence, signals, namespace, path, seen) is Ok,
    ensures
        forall|k: int|
            0 <= k < signals.len() ==> signal_conforms(
                #[trigger] signals[k],
                namespace,
                evidence_ids(extra) + evidence_ids(evidence),
            ) && !repeats_earlier(signal_names(signals), k),
{
    let allowed = evidence_ids(extra) + evidence_ids(evidence);
    let checks = signal_checks(record, signals, namespace, allowed, path);
    lemma_first_error_ok(signals.len(), checks);
    assert forall|k: int| 0 <= k < signals.len() implies signal_conforms(
        #[trigger] signals[k],
        namespace,
        allowed,
    ) && !repeats_earlier(signal_names(signals), k) by {
        assert(checks(k as nat) is Ok);
        let signal = signals[k];
        let refs = texts(signal.evidence_refs@);
        let rchecks = reference_checks(
            record,
            allowed,
            refs,
            indexed_path(path + ".signals"@, k as nat) + ".evidenceRefs"@,
        );
        lemma_first_error_ok(refs.len(), rchecks);
        assert forall|j: int| 0 <= j < signal.evidence_refs@.len() implies allowed.contains(
            #[trigger] signal.evidence_refs@[j]@,
        ) by {
            assert(rchecks(j as nat) is Ok);
            assert(refs[j] == signal.evidence_refs@[j]@);
        }
        assert forall|i: int, j: int|
            0 <= i < j < signal.evidence_refs@.len() implies (#[trigger] signal.evidence_refs@[i])@
            != (#[trigger] signal.evidence_refs@[j])@ by {
            assert(rchecks(j as nat) is Ok);
            assert(refs[i] == signal.evidence_refs@[i]@ && refs[j] == signal.evidence_refs@[j]@);
        }
    }
}

/// What a request that passes validation guarantees of its signals: each
/// candidate signal has a `source.*` name, each analysis signal an
/// `analysis.*` name; every value lies within [-1, 1]; no record repeats a
/// signal name; and every signal cites at least one evidence item, a
/// candidate signal only its candidate's evidence, an analysis signal its
/// own record's or its candidate's.
pub proof fn lemma_valid_signals(r: RankRequest)
    requires
        request_check(r) is Ok,
    ensures
        forall|c: int, k: int|
            0 <= c < r.candidates@.len() && 0 <= k < r.candidates@[c].signals@.len()
                ==> signal_conforms(
                #[trigger] r.candidates@[c].signals@[k],
                "source."@,
                evidence_ids(r.candidates@[c].evidence@),
            ) && !repeats_earlier(signal_names(r.candidates@[c].signals@), k),
        forall|a: int, k: int|
            0 <= a < r.analysis@.len() && 0 <= k < r.analysis@[a].signals@.len()
                ==> signal_conforms(
                #[trigger] r.analysis@[a].signals@[k],
                "analysis."@,
                evidence_ids(evidence_of_candidate(r.candidates@, r.analysis@[a].candidate_id@))
                    + evidence_ids(r.analysis@[a].evidence@),
            ) && !repeats_earlier(signal_names(r.analysis@[a].signals@), k),
{
    lemma_first_error_ok(r.candidates@.len(), candidate_checks(r));
    lemma_first_error_ok(r.analysis@.len(), analysis_checks(r));
    assert forall|c: int, k: int|
        0 <= c < r.candidates@.len() && 0 <= k < r.candidates@[c].signals@.len()
            implies signal_conforms(
            #[trigger] r.candidates@[c].signals@[k],
            "source."@,
            evidence_ids(r.candidates@[c].evidence@),
        ) && !repeats_earlier(signal_names(r.candidates@[c].signals@), k) by {
        assert(candidate_checks(r)(c as nat) is Ok);
        let cand = r.candidates@[c];
        let path = indexed_path("request.candidates"@, c as nat);
        let seen = candidate_evidence_ids(r.candidates@, c as nat);
        assert(record_check(cand.id@, seq![], cand.evidence@, cand.signals@, "source."@, path, seen) is Ok);
        lemma_valid_record_signals(cand.id@, seq![], cand.evidence@, cand.signals@, "source."@, path, seen);
        assert(evidence_ids(seq![]) + evidence_ids(cand.evidence@) =~= evidence_ids(cand.evidence@));
    }
    assert forall|a: int, k: int|
        0 <= a < r.analysis@.len() && 0 <= k < r.analysis@[a].signals@.len()
            implies signal_conforms(
            #[trigger] r.analysis@[a].signals@[k],
            "analysis."@,
            evidence_ids(evidence_of_candidate(r.candidates@, r.analysis@[a].candidate_id@))
                + evidence_ids(r.analysis@[a].evidence@),
        ) && !repeats_earlier(signal_names(r.analysis@[a].signals@), k) by {
        assert(analysis_checks(r)(a as nat) is Ok);
        let rec = r.analysis@[a];
        let path = indexed_path("request.analysis"@, a as nat);
        let seen = candidate_evidence_ids(r.candidates@, r.candidates@.len())
            + analysis_evidence_ids(r.analysis@, a as nat);
        let extra = evidence_of_candidate(r.candidates@, rec.candidate_id@);
        assert(record_check(rec.id@, extra, rec.evidence@, rec.signals@, "analysis."@, path, seen) is Ok);
        lemma_valid_record_signals(rec.id@, extra, rec.evidence@, rec.signals@, "analysis."@, path, seen);
    }
}


proof fn lemma_append_new(seen: Seq<Seq<char>>, ids: Seq<Seq<char>>)
    requires
        seen.no_duplicates(),
        forall|j: int| 0 <= j < ids.len() ==> !(seen + ids.take(j)).contains(#[trigger] ids[j]),
    ensures
        (seen + ids).no_duplicates(),
{
    let all = seen + ids;
    assert forall|p: int, q: int| 0 <= p < all.len() && 0 <= q < all.len() && p != q implies all[p]
        != all[q] by {
        let lo = if p < q { p } else { q };
        let hi = if p < q { q } else { p };
        if hi >= seen.len() {
            let j = hi - seen.len();
            assert(all[hi] == ids[j]);
            assert(!(seen + ids.take(j)).contains(ids[j]));
            assert((seen + ids.take(j))[lo] == all[lo]);
        }
    }
}

proof fn lemma_record_evidence_new(
    record: Seq<char>,
    extra: Seq<Evidence>,
    evidence: Seq<Evidence>,
    signals: Seq<Signal>,
    namespace: Seq<char>,
    path: Seq<char>,
    seen: Seq<Seq<char>>,
)
    requires
        record_check(record, extra, evidence, signals, namespace, path, seen) is Ok,
        seen.no_duplicates(),
    ensures
        (seen + evidence_ids(evidence)).no_duplicates(),
{
    let checks = evidence_checks(evidence, seen, path);
    let ids = evidence_ids(evidence);
    lemma_first_error_ok(evidence.len(), checks);
    assert forall|j: int| 0 <= j < ids.len() implies !(seen + ids.take(j)).contains(#[trigger] ids[j]) by {
        assert(checks(j as nat) is Ok);
    }
    lemma_append_new(seen, ids);
}

proof fn lemma_candidate_evidence_distinct(r: RankRequest, k: nat)
    requires
        request_check(r) is Ok,
        k <= r.candidates@.len(),
    ensures
        candidate_evidence_ids(r.candidates@, k).no_duplicates(),
    decreases k,
{
    if k > 0 {
        let c = (k - 1) as nat;
        lemma_candidate_evidence_distinct(r, c);
        lemma_first_error_ok(r.candidates@.len(), candidate_checks(r));
        assert(candidate_checks(r)(c) is Ok);
        let cand = r.candidates@[c as int];
        let path = indexed_path("request.candidates"@, c);
        let seen = candidate_evidence_ids(r.candidates@, c);
        assert(record_check(cand.id@, seq![], cand.evidence@, cand.signals@, "source."@, path, seen) is Ok);
        lemma_record_evidence_new(cand.id@, seq![], cand.evidence@, cand.signals@, "source."@, path, seen);
    }
}

proof fn lemma_analysis_evidence_distinct(r: RankRequest, k: nat)
    requires
        request_check(r) is Ok,
        k <= r.analysis@.len(),
    ensures
        (candidate_evidence_ids(r.candidates@, r.candidates@.len()) + analysis_evidence_ids(
            r.analysis@,
            k,
        )).no_duplicates(),
    decreases k,
{
    let base = candidate_evidence_ids(r.candidates@, r.candidates@.len());
    if k == 0 {
        lemma_candidate_evidence_distinct(r, r.candidates@.len());
        assert(base + analysis_evidence_ids(r.analysis@, 0) =~= base);
    } else {
        let a = (k - 1) as nat;
        lemma_analysis_evidence_distinct(r, a);
        lemma_first_error_ok(r.analysis@.len(), analysis_checks(r));
        assert(analysis_checks(r)(a) is Ok);
        let rec = r.analysis@[a as int];
        let path = indexed_path("request.analysis"@, a);
        let seen = base + analysis_evidence_ids(r.analysis@, a);
        let extra = evidence_of_candidate(r.candidates@, rec.candidate_id@);
        assert(record_check(rec.id@, extra, rec.evidence@, rec.signals@, "analysis."@, path, seen) is Ok);
        lemma_record_evidence_new(rec.id@, extra, rec.evidence@, rec.signals@, "analysis."@, path, seen);
        assert(seen + evidence_ids(rec.evidence@) =~= base + analysis_evidence_ids(r.analysis@, k));
    }
}

/// Evidence ids are unique across a request that passes validation: no two
/// evidence items of its candidates and analysis records share an id.
pub proof fn lemma_valid_evidence_ids(r: RankRequest)
    requires
        request_check(r) is Ok,
    ensures
        (candidate_evidence_ids(r.candidates@, r.candidates@.len()) + analysis_evidence_ids(
            r.analysis@,
            r.analysis@.len(),
        )).no_duplicates(),
{
    lemma_analysis_evidence_distinct(r, r.analysis@.len());
}


/// When the checks before `j` pass and check `j` fails, check `j`'s error is
/// the first error.
pub proof fn lemma_first_error_at(n: nat, checks: spec_fn(nat) -> Result<(), ErrorView>, j: nat)
    requires
        j < n,
        forall|i: nat| i < j ==> #[trigger] checks(i) is Ok,
        checks(j) is Err,
    ensures
        first_error(n, checks) == checks(j),
{
    lemma_first_error_ok(j, checks);
    assert(first_error(j + 1, checks) == checks(j));
    lemma_first_error_stays(j + 1, n, checks);
}

/// Whether the request header and lens pass: version, id, generation time,
/// non-empty candidates and analysis records, and the lens checks.
pub open spec fn header_passes(r: RankRequest) -> bool {
    &&& r.spec_version@ == SPEC_VERSION@
    &&& matches_id(r.id@)
    &&& rfc3339_accepts(r.context.generated_at@)
    &&& r.candidates@.len() > 0
    &&& r.analysis@.len() > 0
    &&& lens_check(r.lens) is Ok
}

/// When the header, the lens and every candidate's own checks pass, the
/// first repeated candidate id, at `j`, is the error.
pub proof fn lemma_duplicate_candidate(r: RankRequest, j: nat)
    requires
        header_passes(r),
        forall|i: nat|
            i < r.candidates@.len() ==> #[trigger] candidate_check(
                r.candidates@[i as int],
                i,
                candidate_evidence_ids(r.candidates@, i),
            ) is Ok,
        j < r.candidates@.len(),
        repeats_earlier(candidate_ids(r), j as int),
        forall|i: int| 0 <= i < j ==> !#[trigger] repeats_earlier(candidate_ids(r), i),
    ensures
        request_check(r) == Err::<(), ErrorView>(
            ErrorView::DuplicateId { kind: "candidate"@, id: r.candidates@[j as int].id@ },
        ),
{
    let checks = candidate_checks(r);
    assert forall|i: nat| i < j implies #[trigger] checks(i) is Ok by {
        assert(candidate_check(r.candidates@[i as int], i, candidate_evidence_ids(r.candidates@, i)) is Ok);
        assert(!repeats_earlier(candidate_ids(r), i as int));
    }
    assert(candidate_check(r.candidates@[j as int], j, candidate_evidence_ids(r.candidates@, j)) is Ok);
    lemma_first_error_at(r.candidates@.len(), checks, j);
}

/// Whether every analysis record passes its own checks and no two share an
/// id.
pub open spec fn records_pass(r: RankRequest) -> bool {
    &&& forall|a: nat|
        a < r.analysis@.len() ==> #[trigger] analysis_check(
            r.analysis@[a as int],
            a,
            candidate_evidence_ids(r.candidates@, r.candidates@.len()) + analysis_evidence_ids(
                r.analysis@,
                a,
            ),
            evidence_of_candidate(r.candidates@, r.analysis@[a as int].candidate_id@),
        ) is Ok
    &&& forall|a: int| 0 <= a < r.analysis@.len() ==> !repeats_earlier(analysis_ids(r), a)
}

/// Whether the analysis record at `a` names a candidate of the request that
/// no earlier record names.
pub open spec fn links_new_candidate(r: RankRequest, a: int) -> bool {
    candidate_ids(r).contains(r.analysis@[a].candidate_id@) && !repeats_earlier(
        analyzed_candidate_ids(r),
        a,
    )
}

proof fn lemma_request_tail(r: RankRequest)
    requires
        header_passes(r),
        first_error(r.candidates@.len(), candidate_checks(r)) is Ok,
    ensures
        request_check(r) == followed_by(
            first_error(r.analysis@.len(), analysis_checks(r)),
            coverage_check(r),
        ),
{
}

proof fn lemma_analysis_check_is_link(r: RankRequest, a: nat)
    requires
        records_pass(r),
        a < r.analysis@.len(),
    ensures
        (analysis_checks(r)(a) is Ok) == links_new_candidate(r, a as int),
        !links_new_candidate(r, a as int) ==> analysis_checks(r)(a) == Err::<(), ErrorView>(
            if !candidate_ids(r).contains(r.analysis@[a as int].candidate_id@) {
                ErrorView::UnknownCandidate(r.analysis@[a as int].candidate_id@)
            } else {
                ErrorView::DuplicateId {
                    kind: "analysisForCandidate"@,
                    id: r.analysis@[a as int].candidate_id@,
                }
            },
        ),
{
    assert(analysis_check(
        r.analysis@[a as int],
        a,
        candidate_evidence_ids(r.candidates@, r.candidates@.len()) + analysis_evidence_ids(
            r.analysis@,
            a,
        ),
        evidence_of_candidate(r.candidates@, r.analysis@[a as int].candidate_id@),
    ) is Ok);
    assert(!repeats_earlier(analysis_ids(r), a as int));
}

/// When everything but the links between records and candidates passes,
/// the first record that names an unknown or an already analyzed candidate
/// gives the error; when every record names a new candidate of the request,
/// the candidate left without analysis with the least id does, if any.
pub proof fn lemma_analysis_links(r: RankRequest)
    requires
        header_passes(r),
        first_error(r.candidates@.len(), candidate_checks(r)) is Ok,
        records_pass(r),
    ensures
        forall|k: int|
            0 <= k < r.analysis@.len() && !links_new_candidate(r, k) && (forall|a: int|
                0 <= a < k ==> links_new_candidate(r, a)) ==> request_check(r) == Err::<
                (),
                ErrorView,
            >(
                if !candidate_ids(r).contains(r.analysis@[k].candidate_id@) {
                    ErrorView::UnknownCandidate(r.analysis@[k].candidate_id@)
                } else {
                    ErrorView::DuplicateId {
                        kind: "analysisForCandidate"@,
                        id: r.analysis@[k].candidate_id@,
                    }
                },
            ),
        (forall|a: int| 0 <= a < r.analysis@.len() ==> links_new_candidate(r, a)) ==> request_check(
            r,
        ) == coverage_check(r),
{
    let n = r.analysis@.len();
    let checks = analysis_checks(r);
    lemma_request_tail(r);
    assert forall|k: int|
        0 <= k < n && !links_new_candidate(r, k) && (forall|a: int|
            0 <= a < k ==> links_new_candidate(r, a)) implies request_check(r) == Err::<
            (),
            ErrorView,
        >(
            if !candidate_ids(r).contains(r.analysis@[k].candidate_id@) {
                ErrorView::UnknownCandidate(r.analysis@[k].candidate_id@)
            } else {
                ErrorView::DuplicateId {
                    kind: "analysisForCandidate"@,
                    id: r.analysis@[k].candidate_id@,
                }
            },
        ) by {
        assert forall|i: nat| i < k implies #[trigger] checks(i) is Ok by {
            lemma_analysis_check_is_link(r, i);
            assert(links_new_candidate(r, i as int));
        }
        lemma_analysis_check_is_link(r, k as nat);
        lemma_first_error_at(n, checks, k as nat);
    }
    if forall|a: int| 0 <= a < n ==> links_new_candidate(r, a) {
        assert forall|k: nat| k < n implies #[trigger] checks(k) is Ok by {
            lemma_analysis_check_is_link(r, k);
            assert(links_new_candidate(r, k as int));
        }
        lemma_first_error_ok(n, checks);
    }
}

/// Under the same conditions, the request is valid exactly when its
/// analysis records name its candidates one to one: each record a candidate
/// no earlier record names, and each candidate some record.
pub proof fn lemma_analysis_bijection(r: RankRequest)
    requires
        header_passes(r),
        first_error(r.candidates@.len(), candidate_checks(r)) is Ok,
        records_pass(r),
    ensures
        request_check(r) is Ok <==> (forall|a: int|
            0 <= a < r.analysis@.len() ==> links_new_candidate(r, a)) && (forall|c: int|
            0 <= c < r.candidates@.len() ==> analyzed_candidate_ids(r).contains(
                #[trigger] r.candidates@[c].id@,
            )),
{
    let n = r.analysis@.len();
    let checks = analysis_checks(r);
    lemma_request_tail(r);
    lemma_analysis_links(r);
    lemma_first_error_ok(n, checks);
    if !(forall|a: int| 0 <= a < n ==> links_new_candidate(r, a)) {
        let k = choose|k: int| 0 <= k < n && !links_new_candidate(r, k);
        lemma_analysis_check_is_link(r, k as nat);
    } else {
        if !(forall|c: int|
            0 <= c < r.candidates@.len() ==> analyzed_candidate_ids(r).contains(
                #[trigger] r.candidates@[c].id@,
            )) {
            let c = choose|c: int|
                0 <= c < r.candidates@.len() && !analyzed_candidate_ids(r).contains(
                    #[trigger] r.candidates@[c].id@,
                );
            assert(lacks_analysis(r, c));
        }
    }
}

/// What a request that passes validation holds besides its signals,
/// evidence and links: every object carries version `v0.1`, every weight
/// lies within [-10, 10], and the policy allows at least one item and one
/// item per cluster and breaks ties by ascending candidate id.
pub proof fn lemma_valid_fields(r: RankRequest)
    requires
        request_check(r) is Ok,
    ensures
        r.spec_version@ == SPEC_VERSION@,
        r.lens.spec_version@ == SPEC_VERSION@,
        forall|c: int|
            0 <= c < r.candidates@.len() ==> (#[trigger] r.candidates@[c]).spec_version@
                == SPEC_VERSION@,
        forall|a: int|
            0 <= a < r.analysis@.len() ==> (#[trigger] r.analysis@[a]).spec_version@
                == SPEC_VERSION@,
        forall|k: int|
            0 <= k < r.lens.weights@.len() ==> -10_000_000 <= (#[trigger] r.lens.weights@[k]).1@
                <= 10_000_000,
        r.lens.policy.max_items >= 1,
        r.lens.policy.max_per_cluster >= 1,
        r.lens.policy.tie_breaker@ == TIE_BREAKER@,
{
    lemma_first_error_ok(r.candidates@.len(), candidate_checks(r));
    lemma_first_error_ok(r.analysis@.len(), analysis_checks(r));
    lemma_first_error_ok(r.lens.weights@.len(), weight_checks(r.lens.weights@));
    assert forall|c: int| 0 <= c < r.candidates@.len() implies (#[trigger] r.candidates@[c]).spec_version@
        == SPEC_VERSION@ by {
        assert(candidate_checks(r)(c as nat) is Ok);
    }
    assert forall|a: int| 0 <= a < r.analysis@.len() implies (#[trigger] r.analysis@[a]).spec_version@
        == SPEC_VERSION@ by {
        assert(analysis_checks(r)(a as nat) is Ok);
    }
    assert forall|k: int| 0 <= k < r.lens.weights@.len() implies -10_000_000 <= (
    #[trigger] r.lens.weights@[k]).1@ <= 10_000_000 by {
        assert(weight_checks(r.lens.weights@)(k as nat) is Ok);
    }
}

/// The lens checks run in order: an empty list of allowed source types, then
/// an empty list of weights, fail at their paths; once everything before the
/// policy passes, the policy decides: at least one item, then at least one
/// per cluster, then the `candidateIdAsc` tie breaker.
pub proof fn lemma_lens_order(lens: LensProfile)
    requires
        lens.spec_version@ == SPEC_VERSION@,
        matches_id(lens.id@),
        lens.title@.len() > 0,
    ensures
        lens.allowed_source_types matches Some(types) && types@.len() == 0 ==> lens_check(lens)
            == Err::<(), ErrorView>(
            ErrorView::SchemaViolation {
                path: "request.lens.allowedSourceTypes"@,
                message: MSG_TYPES_NOT_EMPTY@,
            },
        ),
        types_pass(lens) && lens.weights@.len() == 0 ==> lens_check(lens) == Err::<(), ErrorView>(
            ErrorView::SchemaViolation { path: "request.lens.weights"@, message: MSG_WEIGHTS_NOT_EMPTY@ },
        ),
        types_pass(lens) && lens.weights@.len() > 0 && first_error(
            lens.weights@.len(),
            weight_checks(lens.weights@),
        ) is Ok ==> lens_check(lens) == if lens.policy.max_items < 1 {
            Err::<(), ErrorView>(ErrorView::InvalidPolicy(MSG_MAX_ITEMS@))
        } else if lens.policy.max_per_cluster < 1 {
            Err::<(), ErrorView>(ErrorView::InvalidPolicy(MSG_MAX_PER_CLUSTER@))
        } else if lens.policy.tie_breaker@ != TIE_BREAKER@ {
            Err::<(), ErrorView>(ErrorView::InvalidPolicy(MSG_TIE_BREAKER@))
        } else {
            Ok::<(), ErrorView>(())
        },
{
}

/// Whether the lens's allowed source types are absent, or present,
/// non-empty and each a token listed once.
pub open spec fn types_pass(lens: LensProfile) -> bool {
    match lens.allowed_source_types {
        Some(types) => types@.len() > 0 && first_error(
            types@.len(),
            source_type_checks(texts(types@)),
        ) is Ok,
        None => true,
    }
}


/// Whether `t` begins with `p`.
pub open spec fn starts_with(t: Seq<char>, p: Seq<char>) -> bool {
    p.len() <= t.len() && t.take(p.len() as int) == p
}

/// Whether a check outcome, if it fails, fails within a record: a schema
/// violation at a path beginning with `path`, a signal or reference error
/// of `record`, a repeated evidence id, or a version error.
pub open spec fn error_inside(r: Result<(), ErrorView>, path: Seq<char>, record: Seq<char>) -> bool {
    match r {
        Ok(_) => true,
        Err(e) => match e {
            ErrorView::SchemaViolation { path: q, .. } => starts_with(q, path),
            ErrorView::InvalidSignalNamespace { record: x, .. } => x == record,
            ErrorView::DuplicateSignal { record: x, .. } => x == record,
            ErrorView::DanglingEvidenceRef { record: x, .. } => x == record,
            ErrorView::DuplicateId { kind, .. } => kind == "evidence"@,
            ErrorView::UnsupportedSpecVersion(_) => true,
            _ => false,
        },
    }
}

proof fn lemma_starts_with_extend(p: Seq<char>, x: Seq<char>, q: Seq<char>)
    requires
        starts_with(q, p),
    ensures
        starts_with(q + x, p),
{
    assert((q + x).take(p.len() as int) =~= q.take(p.len() as int));
}

proof fn lemma_starts_with_self(p: Seq<char>)
    ensures
        starts_with(p, p),
{
    assert(p.take(p.len() as int) =~= p);
}

proof fn lemma_indexed_starts(p: Seq<char>, k: nat)
    ensures
        starts_with(indexed_path(p, k), p),
{
    lemma_starts_with_self(p);
    lemma_starts_with_extend(p, "["@, p);
    lemma_starts_with_extend(p, decimal(k), p + "["@);
    lemma_starts_with_extend(p, "]"@, p + "["@ + decimal(k));
}

proof fn lemma_starts_with_trans(t: Seq<char>, q: Seq<char>, p: Seq<char>)
    requires
        starts_with(t, q),
        starts_with(q, p),
    ensures
        starts_with(t, p),
{
    assert(t.take(p.len() as int) =~= t.take(q.len() as int).take(p.len() as int));
}

proof fn lemma_first_error_inside(
    n: nat,
    checks: spec_fn(nat) -> Result<(), ErrorView>,
    path: Seq<char>,
    record: Seq<char>,
)
    requires
        forall|k: nat| k < n ==> error_inside(#[trigger] checks(k), path, record),
    ensures
        error_inside(first_error(n, checks), path, record),
    decreases n,
{
    if n > 0 {
        lemma_first_error_inside((n - 1) as nat, checks, path, record);
        assert(error_inside(checks((n - 1) as nat), path, record));
    }
}

proof fn lemma_references_inside(
    record: Seq<char>,
    allowed: Seq<Seq<char>>,
    refs: Seq<Seq<char>>,
    p: Seq<char>,
    q: Seq<char>,
)
    requires
        starts_with(p, q),
    ensures
        error_inside(references_check(record, allowed, refs, p), q, record),
{
    let checks = reference_checks(record, allowed, refs, p);
    assert forall|k: nat| k < refs.len() implies error_inside(#[trigger] checks(k), q, record) by {
        lemma_indexed_starts(p, k);
        lemma_starts_with_trans(indexed_path(p, k), p, q);
    }
    lemma_first_error_inside(refs.len(), checks, q, record);
}

proof fn lemma_record_inside(
    record: Seq<char>,
    extra: Seq<Evidence>,
    evidence: Seq<Evidence>,
    signals: Seq<Signal>,
    namespace: Seq<char>,
    path: Seq<char>,
    seen: Seq<Seq<char>>,
)
    ensures
        error_inside(record_check(record, extra, evidence, signals, namespace, path, seen), path, record),
{
    lemma_starts_with_self(path);
    lemma_starts_with_extend(path, ".evidence"@, path);
    lemma_starts_with_extend(path, ".signals"@, path);
    let echecks = evidence_checks(evidence, seen, path);
    assert forall|k: nat| k < evidence.len() implies error_inside(#[trigger] echecks(k), path, record) by {
        let ep = indexed_path(path + ".evidence"@, k);
        lemma_indexed_starts(path + ".evidence"@, k);
        lemma_starts_with_trans(ep, path + ".evidence"@, path);
        lemma_starts_with_extend(path, ".id"@, ep);
        lemma_starts_with_extend(path, ".kind"@, ep);
        lemma_starts_with_extend(path, ".description"@, ep);
        lemma_starts_with_extend(path, ".url"@, ep);
    }
    lemma_first_error_inside(evidence.len(), echecks, path, record);
    let allowed = evidence_ids(extra) + evidence_ids(evidence);
    let schecks = signal_checks(record, signals, namespace, allowed, path);
    assert forall|k: nat| k < signals.len() implies error_inside(#[trigger] schecks(k), path, record) by {
        let sp = indexed_path(path + ".signals"@, k);
        lemma_indexed_starts(path + ".signals"@, k);
        lemma_starts_with_trans(sp, path + ".signals"@, path);
        lemma_starts_with_extend(path, ".value"@, sp);
        lemma_starts_with_extend(path, ".evidenceRefs"@, sp);
        lemma_references_inside(
            record,
            allowed,
            texts(signals[k as int].evidence_refs@),
            sp + ".evidenceRefs"@,
            path,
        );
    }
    lemma_first_error_inside(signals.len(), schecks, path, record);
}

/// A candidate's checks fail only within the candidate: a version error
/// when its version is not `v0.1`, otherwise a schema violation at a path
/// beginning with `request.candidates[i]`, a signal or evidence reference
/// error naming the candidate's id, or a repeated evidence id.
pub proof fn lemma_candidate_errors_inside(c: FeedCandidate, i: nat, seen: Seq<Seq<char>>)
    ensures
        c.spec_version@ != SPEC_VERSION@ ==> candidate_check(c, i, seen) == Err::<(), ErrorView>(
            ErrorView::UnsupportedSpecVersion(c.spec_version@),
        ),
        error_inside(candidate_check(c, i, seen), indexed_path("request.candidates"@, i), c.id@),
{
    let path = indexed_path("request.candidates"@, i);
    lemma_starts_with_self(path);
    lemma_starts_with_extend(path, ".id"@, path);
    lemma_starts_with_extend(path, ".source.type"@, path);
    lemma_starts_with_extend(path, ".source.name"@, path);
    lemma_starts_with_extend(path, ".subject.id"@, path);
    lemma_starts_with_extend(path, ".subject.type"@, path);
    lemma_starts_with_extend(path, ".subject.title"@, path);
    lemma_starts_with_extend(path, ".subject.url"@, path);
    lemma_starts_with_extend(path, ".trigger.type"@, path);
    lemma_starts_with_extend(path, ".trigger.observedAt"@, path);
    lemma_starts_with_extend(path, ".provenance.retrievedAt"@, path);
    let ap = path + ".provenance.adapter"@;
    lemma_starts_with_extend(path, ".provenance.adapter"@, path);
    lemma_starts_with_extend(path, ".name"@, ap);
    lemma_starts_with_extend(path, ".version"@, ap);
    lemma_record_inside(c.id@, seq![], c.evidence@, c.signals@, "source."@, path, seen);
}


/// A request in which two evidence items, of one record or of two, share an
/// id never passes validation.
pub proof fn lemma_repeated_evidence_refused(r: RankRequest, i: int, j: int)
    requires
        ({
            let ids = candidate_evidence_ids(r.candidates@, r.candidates@.len())
                + analysis_evidence_ids(r.analysis@, r.analysis@.len());
            0 <= i < j < ids.len() && ids[i] == ids[j]
        }),
    ensures
        request_check(r) is Err,
{
    if request_check(r) is Ok {
        lemma_valid_evidence_ids(r);
    }
}


/// The url of an evidence item is optional: an item without one passes
/// exactly when its id, kind and description do, and an item's checks fail
/// at its `.url` path only when it has a url that is not a URI.
pub proof fn lemma_evidence_url_optional(item: Evidence, path: Seq<char>)
    ensures
        item.url is None ==> (evidence_check(item, path) is Ok <==> (matches_id(item.id@)
            && matches_token(item.kind@) && item.description@.len() > 0)),
        forall|m: Seq<char>|
            evidence_check(item, path) == Err::<(), ErrorView>(
                ErrorView::SchemaViolation { path: path + ".url"@, message: m },
            ) ==> (item.url matches Some(u) && !uri_accepts(u@)),
{
    reveal_strlit(".url");
    reveal_strlit(".id");
    reveal_strlit(".kind");
    reveal_strlit(".description");
    assert forall|m: Seq<char>|
        evidence_check(item, path) == Err::<(), ErrorView>(
            ErrorView::SchemaViolation { path: path + ".url"@, message: m },
        ) implies (item.url matches Some(u) && !uri_accepts(u@)) by {
        assert((path + ".url"@).len() != (path + ".id"@).len());
        assert((path + ".url"@).len() != (path + ".kind"@).len());
        assert((path + ".url"@).len() != (path + ".description"@).len());
    }
}


/// The coverage check passes exactly when every candidate is named by some
/// analysis record; otherwise it reports a candidate that no record names,
/// and no such candidate has a smaller id in text order.
pub proof fn lemma_missing_analysis_least(r: RankRequest)
    ensures
        coverage_check(r) is Ok <==> forall|c: int|
            0 <= c < r.candidates@.len() ==> exists|a: int|
                0 <= a < r.analysis@.len() && r.analysis@[a].candidate_id@ == (
                #[trigger] r.candidates@[c]).id@,
        coverage_check(r) is Err ==> exists|c: int|
            0 <= c < r.candidates@.len() && coverage_check(r) == Err::<(), ErrorView>(
                ErrorView::MissingAnalysis((#[trigger] r.candidates@[c]).id@),
            ) && (forall|a: int|
                0 <= a < r.analysis@.len() ==> r.analysis@[a].candidate_id@ != r.candidates@[c].id@)
                && forall|d: int|
                0 <= d < r.candidates@.len() && (forall|a: int|
                    0 <= a < r.analysis@.len() ==> r.analysis@[a].candidate_id@
                        != r.candidates@[d].id@) ==> !text_less(
                    r.candidates@[d].id@,
                    r.candidates@[c].id@,
                ),
{
    let ids = analyzed_candidate_ids(r);
    assert forall|c: int| 0 <= c < r.candidates@.len() implies lacks_analysis(r, c) == (forall|a: int|
        0 <= a < r.analysis@.len() ==> r.analysis@[a].candidate_id@ != r.candidates@[c].id@) by {
        if !lacks_analysis(r, c) {
            let a = choose|a: int| 0 <= a < ids.len() && ids[a] == r.candidates@[c].id@;
            assert(r.analysis@[a].candidate_id@ == r.candidates@[c].id@);
        } else {
            assert forall|a: int| 0 <= a < r.analysis@.len() implies r.analysis@[a].candidate_id@
                != r.candidates@[c].id@ by {
                assert(ids[a] == r.analysis@[a].candidate_id@);
            }
        }
    }
    if exists|i: int| 0 <= i < r.candidates@.len() && lacks_analysis(r, i) {
        let i0 = choose|i: int| 0 <= i < r.candidates@.len() && lacks_analysis(r, i);
        lemma_least_unanalyzed_exists(r, i0);
        let c = choose|i: int| is_least_unanalyzed(r, i);
        assert(lacks_analysis(r, c));
        assert forall|a: int| 0 <= a < r.analysis@.len() implies r.analysis@[a].candidate_id@
            != r.candidates@[c].id@ by {
            assert(ids[a] == r.analysis@[a].candidate_id@);
        }
        assert forall|d: int|
            0 <= d < r.candidates@.len() && (forall|a: int|
                0 <= a < r.analysis@.len() ==> r.analysis@[a].candidate_id@ != r.candidates@[d].id@)
                implies !text_less(r.candidates@[d].id@, r.candidates@[c].id@) by {
            if !lacks_analysis(r, d) {
                let a = choose|a: int| 0 <= a < ids.len() && ids[a] == r.candidates@[d].id@;
                assert(r.analysis@[a].candidate_id@ == r.candidates@[d].id@);
            }
        }
        assert(coverage_check(r) == Err::<(), ErrorView>(
            ErrorView::MissingAnalysis(r.candidates@[c].id@),
        ));
    } else {
        assert forall|c: int| 0 <= c < r.candidates@.len() implies exists|a: int|
            0 <= a < r.analysis@.len() && r.analysis@[a].candidate_id@ == (
            #[trigger] r.candidates@[c]).id@ by {
            assert(!lacks_analysis(r, c));
        }
    }
}


proof fn lemma_least_in_prefix(r: RankRequest, n: int, i0: int) -> (m: int)
    requires
        0 <= i0 < n <= r.candidates@.len(),
        lacks_analysis(r, i0),
    ensures
        0 <= m < n,
        lacks_analysis(r, m),
        forall|j: int|
            0 <= j < n && lacks_analysis(r, j) ==> !text_less(
                r.candidates@[j].id@,
                r.candidates@[m].id@,
            ),
    decreases n,
{
    let last = n - 1;
    if i0 == last && !(exists|j: int| 0 <= j < last && lacks_analysis(r, j)) {
        lemma_text_less_asymmetric(r.candidates@[last].id@, r.candidates@[last].id@);
        last
    } else {
        let j0 = if i0 < last { i0 } else { choose|j: int| 0 <= j < last && lacks_analysis(r, j) };
        let m = lemma_least_in_prefix(r, last, j0);
        if lacks_analysis(r, last) && text_less(r.candidates@[last].id@, r.candidates@[m].id@) {
            assert forall|j: int| 0 <= j < n && lacks_analysis(r, j) implies !text_less(
                r.candidates@[j].id@,
                r.candidates@[last].id@,
            ) by {
                if j < last {
                    if text_less(r.candidates@[j].id@, r.candidates@[last].id@) {
                        lemma_text_less_transitive(
                            r.candidates@[j].id@,
                            r.candidates@[last].id@,
                            r.candidates@[m].id@,
                        );
                    }
                } else {
                    lemma_text_less_asymmetric(r.candidates@[j].id@, r.candidates@[j].id@);
                }
            }
            last
        } else {
            m
        }
    }
}

proof fn lemma_least_unanalyzed_exists(r: RankRequest, i0: int)
    requires
        0 <= i0 < r.candidates@.len(),
        lacks_analysis(r, i0),
    ensures
        exists|i: int| is_least_unanalyzed(r, i),
{
    let m = lemma_least_in_prefix(r, r.candidates@.len() as int, i0);
    assert(is_least_unanalyzed(r, m));
}

} // verus!
