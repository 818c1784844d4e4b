//! Why a request was refused.

use vstd::prelude::*;

verus! {

/// The reasons a rank request is refused.
#[derive(Debug, PartialEq, Eq)]
pub enum RankError {
    UnsupportedSpecVersion(String),
    DuplicateId { kind: &'static str, id: String },
    MissingAnalysis(String),
    UnknownCandidate(String),
    InvalidSignalNamespace { record: String, signal: String },
    DuplicateSignal { record: String, signal: String },
    DanglingEvidenceRef { record: String, evidence_ref: String },
    InvalidPolicy(String),
    SchemaViolation { path: String, message: String },
    ArithmeticOverflow,
}

/// A `RankError` with its texts.
pub enum ErrorView {
    UnsupportedSpecVersion(Seq<char>),
    DuplicateId { kind: Seq<char>, id: Seq<char> },
    MissingAnalysis(Seq<char>),
    UnknownCandidate(Seq<char>),
    InvalidSignalNamespace { record: Seq<char>, signal: Seq<char> },
    DuplicateSignal { record: Seq<char>, signal: Seq<char> },
    DanglingEvidenceRef { record: Seq<char>, evidence_ref: Seq<char> },
    InvalidPolicy(Seq<char>),
    SchemaViolation { path: Seq<char>, message: Seq<char> },
    ArithmeticOverflow,
}

impl View for RankError {
    type V = ErrorView;

    open spec fn view(&self) -> ErrorView {
        match self {
            RankError::UnsupportedSpecVersion(v) => ErrorView::UnsupportedSpecVersion(v@),
            RankError::DuplicateId { kind, id } => ErrorView::DuplicateId { kind: kind@, id: id@ },
            RankError::MissingAnalysis(id) => ErrorView::MissingAnalysis(id@),
            RankError::UnknownCandidate(id) => ErrorView::UnknownCandidate(id@),
            RankError::InvalidSignalNamespace { record, signal } => ErrorView::InvalidSignalNamespace {
                record: record@,
                signal: signal@,
            },
            RankError::DuplicateSignal { record, signal } => ErrorView::DuplicateSignal {
                record: record@,
                signal: signal@,
            },
            RankError::DanglingEvidenceRef { record, evidence_ref } =>
                ErrorView::DanglingEvidenceRef { record: record@, evidence_ref: evidence_ref@ },
            RankError::InvalidPolicy(m) => ErrorView::InvalidPolicy(m@),
            RankError::SchemaViolation { path, message } => ErrorView::SchemaViolation {
                path: path@,
                message: message@,
            },
            RankError::ArithmeticOverflow => ErrorView::ArithmeticOverflow,
        }
    }
}

/// The outcome of a check, with the error taken by its view.
pub open spec fn outcome<T>(r: Result<T, RankError>) -> Result<(), ErrorView> {
    match r {
        Ok(_) => Ok(()),
        Err(e) => Err(e@),
    }
}

/// The human-readable text of an error.
pub open spec fn error_message(e: ErrorView) -> Seq<char> {
    match e {
        ErrorView::UnsupportedSpecVersion(v) => "unsupported spec version: "@ + v,
        ErrorView::DuplicateId { kind, id } => "duplicate id in "@ + kind + ": "@ + id,
        ErrorView::MissingAnalysis(id) => "missing analysis for candidate: "@ + id,
        ErrorView::UnknownCandidate(id) => "analysis references unknown candidate: "@ + id,
        ErrorView::InvalidSignalNamespace { record, signal } => "invalid signal namespace in "@
            + record + ": "@ + signal,
        ErrorView::DuplicateSignal { record, signal } => "duplicate signal in "@ + record + ": "@
            + signal,
        ErrorView::DanglingEvidenceRef { record, evidence_ref } => "dangling evidence ref in "@
            + record + ": "@ + evidence_ref,
        ErrorView::InvalidPolicy(m) => "invalid policy: "@ + m,
        ErrorView::SchemaViolation { path, message } => "schema violation at "@ + path + ": "@
            + message,
        ErrorView::ArithmeticOverflow => "arithmetic overflow"@,
    }
}

fn joined2(a: &str, b: &str) -> (s: String)
    ensures
        s@ == a@ + b@,
{
    let mut s = String::from_str(a);
    s.append(b);
    s
}

fn joined(a: &str, b: &str, c: &str, d: &str) -> (s: String)
    ensures
        s@ == a@ + b@ + c@ + d@,
{
    let mut s = String::from_str(a);
    s.append(b);
    s.append(c);
    s.append(d);
    s
}

impl RankError {
    /// The human-readable text of this error.
    pub fn message(&self) -> (m: String)
        ensures
            m@ == error_message(self@),
    {
        match self {
            RankError::UnsupportedSpecVersion(v) => joined2("unsupported spec version: ", v),
            RankError::DuplicateId { kind, id } => joined("duplicate id in ", kind, ": ", id),
            RankError::MissingAnalysis(id) => joined2("missing analysis for candidate: ", id),
            RankError::UnknownCandidate(id) => joined2("analysis references unknown candidate: ", id),
            RankError::InvalidSignalNamespace { record, signal } => joined(
                "invalid signal namespace in ",
                record,
                ": ",
                signal,
            ),
            RankError::DuplicateSignal { record, signal } => joined(
                "duplicate signal in ",
                record,
                ": ",
                signal,
            ),
            RankError::DanglingEvidenceRef { record, evidence_ref } => joined(
                "dangling evidence ref in ",
                record,
                ": ",
                evidence_ref,
            ),
            RankError::InvalidPolicy(m) => joined2("invalid policy: ", m),
            RankError::SchemaViolation { path, message } => joined(
                "schema violation at ",
                path,
                ": ",
                message,
            ),
            RankError::ArithmeticOverflow => String::from_str("arithmetic overflow"),
        }
    }
}

} // verus!
