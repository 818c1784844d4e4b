//! Scoring, ordering and cluster-limited selection of validated candidates.

use vstd::prelude::*;

use crate::contract::{
    count_entries, no_extensions, reason_views, Coverage, Diversity, FeedSlate, FeedSlateItem,
    ItemView, RankingDecision, SlateView, ALGORITHM_ID, SPEC_VERSION, AnalysisRecord, FeedCandidate, LensProfile, RankRequest, RankingReason,
    ReasonView, Signal,
};
use crate::error::{ErrorView, RankError};
use crate::fixed6::{spec_mul, Fixed6};
use crate::text::{
    chars_less, concat, contains_text, lemma_text_less_asymmetric, lemma_text_less_total,
    lemma_text_less_transitive, str_less,
    repeats_earlier, text_less, texts,
};
use crate::validation::{analyzed_candidate_ids, lemma_valid_request, request_check, validate};

verus! {

/// The first entry of `weights` named `name`.
pub open spec fn is_first_weight(weights: Seq<(String, Fixed6)>, name: Seq<char>, k: int) -> bool {
    &&& 0 <= k < weights.len()
    &&& weights[k].0@ == name
    &&& forall|j: int| 0 <= j < k ==> weights[j].0@ != name
}

/// The weight a lens gives the signal name `name`, if any.
pub open spec fn weight_of(weights: Seq<(String, Fixed6)>, name: Seq<char>) -> Option<i64> {
    if exists|k: int| 0 <= k < weights.len() && weights[k].0@ == name {
        Some(weights[choose|k: int| is_first_weight(weights, name, k)].1@)
    } else {
        None
    }
}

/// The running score and reasons after one more signal; `None` on overflow.
/// A signal without weight, or whose contribution rounds to zero, adds nothing.
pub open spec fn signal_step(
    weights: Seq<(String, Fixed6)>,
    signal: Signal,
    acc: Option<(int, Seq<ReasonView>)>,
) -> Option<(int, Seq<ReasonView>)> {
    match acc {
        None => None,
        Some((score, reasons)) => match weight_of(weights, signal.name@) {
            None => Some((score, reasons)),
            Some(w) => match spec_mul(signal.value@, w) {
                None => None,
                Some(c) => if c == 0 {
                    Some((score, reasons))
                } else if i64::MIN <= score + c <= i64::MAX {
                    Some(
                        (
                            score + c,
                            reasons.push(
                                ReasonView {
                                    signal: signal.name@,
                                    value: signal.value@,
                                    weight: w,
                                    contribution: c,
                                    evidence_refs: texts(signal.evidence_refs@),
                                },
                            ),
                        ),
                    )
                } else {
                    None
                },
            },
        },
    }
}

/// The score and reasons of the first `n` signals.
pub open spec fn score_signals(weights: Seq<(String, Fixed6)>, signals: Seq<Signal>, n: nat) -> Option<
    (int, Seq<ReasonView>),
>
    decreases n,
{
    if n == 0 {
        Some((0, seq![]))
    } else {
        signal_step(weights, signals[n - 1], score_signals(weights, signals, (n - 1) as nat))
    }
}

fn weight_for(weights: &Vec<(String, Fixed6)>, name: &String) -> (r: Option<Fixed6>)
    ensures
        match r {
            Some(w) => weight_of(weights@, name@) == Some(w@),
            None => weight_of(weights@, name@) is None,
        },
{
    let mut k: usize = 0;
    while k < weights.len()
        invariant
            k <= weights.len(),
            forall|j: int| 0 <= j < k ==> weights@[j].0@ != name@,
        decreases weights.len() - k,
    {
        if weights[k].0 == *name {
            proof {
                let c = choose|c: int| is_first_weight(weights@, name@, c);
                assert(is_first_weight(weights@, name@, k as int));
                if c < k {
                } else if k < c {
                }
            }
            return Some(weights[k].1);
        }
        k = k + 1;
    }
    None
}

fn clone_strings(v: &Vec<String>) -> (c: Vec<String>)
    ensures
        texts(c@) == texts(v@),
{
    let c = v.clone();
    assert(c@ =~= v@);
    c
}

/// Adds one signal's contribution to the running `score` and `reasons`;
/// false on overflow.
fn apply_signal(
    weights: &Vec<(String, Fixed6)>,
    signal: &Signal,
    score: &mut Fixed6,
    reasons: &mut Vec<RankingReason>,
) -> (ok: bool)
    ensures
        signal_step(weights@, *signal, Some((old(score)@ as int, reason_views(old(reasons)@))))
            == (if ok {
            Some((final(score)@ as int, reason_views(final(reasons)@)))
        } else {
            None::<(int, Seq<ReasonView>)>
        }),
{
    let weight = match weight_for(weights, &signal.name) {
        Some(w) => w,
        None => {
            return true;
        },
    };
    let contribution = match signal.value.checked_mul(weight) {
        Some(c) => c,
        None => {
            return false;
        },
    };
    if contribution.is_zero() {
        return true;
    }
    match score.checked_add(contribution) {
        Some(s) => {
            *score = s;
        },
        None => {
            return false;
        },
    }
    let reason = RankingReason {
        signal: signal.name.clone(),
        value: signal.value,
        weight,
        contribution,
        evidence_refs: clone_strings(&signal.evidence_refs),
    };
    reasons.push(reason);
    proof {
        assert(reason_views(reasons@) =~= reason_views(old(reasons)@).push(reason@));
    }
    true
}


/// A candidate as ranking sees it: its position in the request, id, score,
/// reasons, cluster key and source type.
pub struct RowView {
    pub index: int,
    pub id: Seq<char>,
    pub score: int,
    pub reasons: Seq<ReasonView>,
    pub cluster: Option<Seq<char>>,
    pub source_type: Seq<char>,
}

/// The analysis record of the candidate with id `id`.
pub open spec fn analysis_of(r: RankRequest, id: Seq<char>) -> AnalysisRecord {
    r.analysis@[choose|j: int| 0 <= j < r.analysis@.len() && r.analysis@[j].candidate_id@ == id]
}

/// The cluster key `namespace:id` of a record's cluster assignment.
pub open spec fn cluster_key_of(a: AnalysisRecord) -> Option<Seq<char>> {
    match a.cluster_assignment {
        Some(c) => Some(c.namespace@ + ":"@ + c.id@),
        None => None,
    }
}

/// Whether the lens admits candidates of the source type.
pub open spec fn admits(lens: LensProfile, source_type: Seq<char>) -> bool {
    match lens.allowed_source_types {
        Some(types) => texts(types@).contains(source_type),
        None => true,
    }
}

/// The ranking row of the `i`-th candidate: its signals and then its
/// analysis record's signals are scored in order; `None` on overflow.
pub open spec fn row_of(r: RankRequest, i: int) -> Option<RowView> {
    let c = r.candidates@[i];
    let a = analysis_of(r, c.id@);
    let signals = c.signals@ + a.signals@;
    match score_signals(r.lens.weights@, signals, signals.len()) {
        None => None,
        Some(acc) => Some(
            RowView {
                index: i,
                id: c.id@,
                score: acc.0,
                reasons: acc.1,
                cluster: cluster_key_of(a),
                source_type: c.source.source_type@,
            },
        ),
    }
}

/// The rows of the admitted candidates among the first `n`, in request
/// order; `None` when a score overflows.
pub open spec fn scored_rows(r: RankRequest, n: nat) -> Option<Seq<RowView>>
    decreases n,
{
    if n == 0 {
        Some(seq![])
    } else {
        match scored_rows(r, (n - 1) as nat) {
            None => None,
            Some(rows) => if !admits(r.lens, r.candidates@[n - 1].source.source_type@) {
                Some(rows)
            } else {
                match row_of(r, n - 1) {
                    None => None,
                    Some(row) => Some(rows.push(row)),
                }
            },
        }
    }
}

struct Row {
    index: usize,
    id: String,
    id_chars: Vec<char>,
    score: Fixed6,
    reasons: Vec<RankingReason>,
    cluster: Option<String>,
    source_type: String,
}

impl View for Row {
    type V = RowView;

    closed spec fn view(&self) -> RowView {
        RowView {
            index: self.index as int,
            id: self.id@,
            score: self.score@ as int,
            reasons: reason_views(self.reasons@),
            cluster: match self.cluster {
                Some(k) => Some(k@),
                None => None,
            },
            source_type: self.source_type@,
        }
    }
}

spec fn rows_view(v: Seq<Row>) -> Seq<RowView> {
    v.map_values(|row: Row| row@)
}

spec fn rows_wf(v: Seq<Row>) -> bool {
    forall|i: int| 0 <= i < v.len() ==> (#[trigger] v[i]).id_chars@ == v[i].id@
}

fn admitted(lens: &LensProfile, source_type: &String) -> (r: bool)
    ensures
        r == admits(*lens, source_type@),
{
    match &lens.allowed_source_types {
        Some(types) => contains_text(types, source_type),
        None => true,
    }
}

fn cluster_key(record: &AnalysisRecord) -> (k: Option<String>)
    ensures
        match k {
            Some(s) => cluster_key_of(*record) == Some(s@),
            None => cluster_key_of(*record) is None,
        },
{
    match &record.cluster_assignment {
        Some(c) => Some(concat(&concat(&c.namespace, ":"), &c.id)),
        None => None,
    }
}

/// The position of the analysis record of the candidate with id `id`.
#[verifier::loop_isolation(false)]
fn analysis_index(request: &RankRequest, id: &String) -> (j: usize)
    requires
        request_check(*request) is Ok,
        analyzed_candidate_ids(*request).contains(id@),
    ensures
        j < request.analysis@.len(),
        request.analysis@[j as int] == analysis_of(*request, id@),
{
    proof {
        lemma_valid_request(*request);
    }
    let records = &request.analysis;
    let mut j: usize = 0;
    while j < records.len()
        invariant
            j <= records.len(),
            records == &request.analysis,
            analyzed_candidate_ids(*request).contains(id@),
            forall|i: int| 0 <= i < j ==> records@[i].candidate_id@ != id@,
        decreases records.len() - j,
    {
        if records[j].candidate_id == *id {
            proof {
                let c = choose|c: int|
                    0 <= c < request.analysis@.len() && request.analysis@[c].candidate_id@ == id@;
                if c < j {
                    assert(records@[c].candidate_id@ == id@);
                }
                if j < c {
                    assert(analyzed_candidate_ids(*request)[j as int] == analyzed_candidate_ids(*request)[c]);
                    assert(repeats_earlier(analyzed_candidate_ids(*request), c));
                }
            }
            return j;
        }
        j = j + 1;
    }
    proof {
        let i = choose|i: int| 0 <= i < analyzed_candidate_ids(*request).len() && analyzed_candidate_ids(*request)[i] == id@;
        assert(records@[i].candidate_id@ == id@);
    }
    0
}


proof fn lemma_overflow_stays(r: RankRequest, m: nat, n: nat)
    requires
        m <= n,
        scored_rows(r, m) is None,
    ensures
        scored_rows(r, n) is None,
    decreases n - m,
{
    if m < n {
        lemma_overflow_stays(r, m, (n - 1) as nat);
    }
}

proof fn lemma_signals_overflow_stays(
    weights: Seq<(String, Fixed6)>,
    signals: Seq<Signal>,
    m: nat,
    n: nat,
)
    requires
        m <= n,
        score_signals(weights, signals, m) is None,
    ensures
        score_signals(weights, signals, n) is None,
    decreases n - m,
{
    if m < n {
        lemma_signals_overflow_stays(weights, signals, m, (n - 1) as nat);
    }
}

/// Scores the candidate at `index`; `None` on overflow.
#[verifier::loop_isolation(false)]
fn score_candidate(request: &RankRequest, index: usize) -> (r: Option<Row>)
    requires
        request_check(*request) is Ok,
        index < request.candidates@.len(),
    ensures
        match r {
            Some(row) => row_of(*request, index as int) == Some(row@) && row.id_chars@ == row.id@,
            None => row_of(*request, index as int) is None,
        },
{
    proof {
        lemma_valid_request(*request);
    }
    let candidate = &request.candidates[index];
    let j = analysis_index(request, &candidate.id);
    let record = &request.analysis[j];
    let weights = &request.lens.weights;
    let ghost all = candidate.signals@ + record.signals@;
    let mut score = Fixed6::zero();
    let mut reasons: Vec<RankingReason> = Vec::new();
    assert(reason_views(reasons@) =~= Seq::<ReasonView>::empty());
    let mut k: usize = 0;
    while k < candidate.signals.len()
        invariant
            k <= candidate.signals.len(),
            score_signals(weights@, all, k as nat) == Some(
                (score@ as int, reason_views(reasons@)),
            ),
        decreases candidate.signals.len() - k,
    {
        assert(all[k as int] == candidate.signals@[k as int]);
        if !apply_signal(weights, &candidate.signals[k], &mut score, &mut reasons) {
            proof {
                lemma_signals_overflow_stays(weights@, all, (k + 1) as nat, all.len());
            }
            return None;
        }
        k = k + 1;
    }
    let n = candidate.signals.len();
    let mut k: usize = 0;
    while k < record.signals.len()
        invariant
            k <= record.signals.len(),
            n == candidate.signals@.len(),
            score_signals(weights@, all, (n + k) as nat) == Some(
                (score@ as int, reason_views(reasons@)),
            ),
        decreases record.signals.len() - k,
    {
        assert(all[n + k] == record.signals@[k as int]);
        if !apply_signal(weights, &record.signals[k], &mut score, &mut reasons) {
            proof {
                lemma_signals_overflow_stays(weights@, all, (n + k + 1) as nat, all.len());
            }
            return None;
        }
        k = k + 1;
    }
    let id_chars = crate::text::chars_of(&candidate.id);
    Some(
        Row {
            index,
            id: candidate.id.clone(),
            id_chars,
            score,
            reasons,
            cluster: cluster_key(record),
            source_type: candidate.source.source_type.clone(),
        },
    )
}

/// The rows of all admitted candidates, in request order; `None` on overflow.
#[verifier::loop_isolation(false)]
fn build_rows(request: &RankRequest) -> (r: Option<Vec<Row>>)
    requires
        request_check(*request) is Ok,
    ensures
        match r {
            Some(rows) => scored_rows(*request, request.candidates@.len()) == Some(
                rows_view(rows@),
            ) && rows_wf(rows@),
            None => scored_rows(*request, request.candidates@.len()) is None,
        },
{
    let mut rows: Vec<Row> = Vec::new();
    assert(rows_view(rows@) =~= Seq::<RowView>::empty());
    let mut i: usize = 0;
    while i < request.candidates.len()
        invariant
            i <= request.candidates.len(),
            scored_rows(*request, i as nat) == Some(rows_view(rows@)),
            rows_wf(rows@),
        decreases request.candidates.len() - i,
    {
        if admitted(&request.lens, &request.candidates[i].source.source_type) {
            match score_candidate(request, i) {
                Some(row) => {
                    let ghost before = rows@;
                    let ghost rv = row@;
                    rows.push(row);
                    proof {
                        assert(rows_view(rows@) =~= rows_view(before).push(rv));
                    }
                },
                None => {
                    proof {
                        lemma_overflow_stays(*request, (i + 1) as nat, request.candidates@.len());
                    }
                    return None;
                },
            }
        }
        i = i + 1;
    }
    Some(rows)
}


/// Whether row `a` comes before row `b`: a higher score, or an equal score
/// and a smaller candidate id.
pub open spec fn ranks_before(a: RowView, b: RowView) -> bool {
    a.score > b.score || (a.score == b.score && text_less(a.id, b.id))
}

/// Whether no row of `order` comes before an earlier one.
pub open spec fn in_ranking_order(order: Seq<RowView>) -> bool {
    forall|i: int, j: int| 0 <= i < j < order.len() ==> !ranks_before(order[j], order[i])
}

/// Whether `order` holds the `rows`, each as often, in ranking order.
pub open spec fn is_ranking_order(rows: Seq<RowView>, order: Seq<RowView>) -> bool {
    &&& order.to_multiset() == rows.to_multiset()
    &&& in_ranking_order(order)
}

/// Coming before in ranking order is transitive.
pub proof fn lemma_ranks_before_transitive(a: RowView, b: RowView, c: RowView)
    requires
        ranks_before(a, b),
        ranks_before(b, c),
    ensures
        ranks_before(a, c),
{
    if a.score == b.score && b.score == c.score {
        lemma_text_less_transitive(a.id, b.id, c.id);
    }
}

/// No two rows each come before the other.
pub proof fn lemma_ranks_before_asymmetric(a: RowView, b: RowView)
    ensures
        !(ranks_before(a, b) && ranks_before(b, a)),
{
    lemma_text_less_asymmetric(a.id, b.id);
}

fn row_before(a: &Row, b: &Row) -> (r: bool)
    requires
        a.id_chars@ == a@.id,
        b.id_chars@ == b@.id,
    ensures
        r == ranks_before(a@, b@),
{
    let sa = a.score.raw();
    let sb = b.score.raw();
    sa > sb || (sa == sb && chars_less(&a.id_chars, &b.id_chars))
}

/// The rows in ranking order.
fn sort_rows(rows: Vec<Row>) -> (ordered: Vec<Row>)
    requires
        rows_wf(rows@),
    ensures
        is_ranking_order(rows_view(rows@), rows_view(ordered@)),
        rows_wf(ordered@),
{
    broadcast use vstd::multiset::group_multiset_axioms;

    let ghost all = rows_view(rows@);
    let mut rest = rows;
    let mut ordered: Vec<Row> = Vec::new();
    assert(rows_view(ordered@) =~= Seq::<RowView>::empty());
    proof {
        vstd::seq_lib::to_multiset_len(rows_view(ordered@));
        vstd::multiset::lemma_multiset_empty_len(rows_view(ordered@).to_multiset());
    }
    assert(rows_view(ordered@).to_multiset().add(rows_view(rest@).to_multiset()) =~= all.to_multiset());
    while rest.len() > 0
        invariant
            rows_wf(rest@),
            rows_wf(ordered@),
            rows_view(ordered@).to_multiset().add(rows_view(rest@).to_multiset())
                == all.to_multiset(),
            in_ranking_order(rows_view(ordered@)),
        decreases rest.len(),
    {
        let ghost rest0 = rest@;
        let row = rest.pop().unwrap();
        proof {
            assert(rows_view(rest0) =~= rows_view(rest@).push(row@));
            assert(rest0[rest0.len() - 1] == row);
            vstd::seq_lib::to_multiset_build(rows_view(rest@), row@);
        }
        let mut p: usize = 0;
        while p < ordered.len() && !row_before(&row, &ordered[p])
            invariant
                p <= ordered.len(),
                rows_wf(ordered@),
                row.id_chars@ == row@.id,
                forall|q: int| 0 <= q < p ==> !ranks_before(row@, rows_view(ordered@)[q]),
            decreases ordered.len() - p,
        {
            p = p + 1;
        }
        let ghost o = rows_view(ordered@);
        let ghost x = row@;
        let ghost stopped = p < ordered.len();
        let ghost ord0 = ordered@;
        let ghost r0 = row;
        assert(stopped ==> ranks_before(x, o[p as int]));
        ordered.insert(p, row);
        proof {
            let n = rows_view(ordered@);
            assert(n =~= o.insert(p as int, x));
            vstd::seq_lib::to_multiset_insert(o, p as int, x);
            o.insert_ensures(p as int, x);
            assert forall|i: int, j: int| 0 <= i < j < n.len() implies !ranks_before(
                n[j],
                n[i],
            ) by {
                if j < p {
                    assert(n[i] == o[i] && n[j] == o[j]);
                } else if j == p {
                    assert(n[i] == o[i]);
                } else if i < p {
                    assert(n[i] == o[i] && n[j] == o[j - 1]);
                } else if i == p {
                    assert(n[j] == o[j - 1]);
                    if ranks_before(o[j - 1], x) {
                        if j - 1 == p {
                            lemma_ranks_before_asymmetric(x, o[p as int]);
                        } else {
                            lemma_ranks_before_transitive(o[j - 1], x, o[p as int]);
                        }
                    }
                } else {
                    assert(n[i] == o[i - 1] && n[j] == o[j - 1]);
                }
            }
            ord0.insert_ensures(p as int, r0);
            assert forall|i: int| 0 <= i < ordered@.len() implies (#[trigger] ordered@[i]).id_chars@
                == ordered@[i].id@ by {
                if i < p {
                    assert(ordered@[i] == ord0[i]);
                } else if i > p {
                    assert(ordered@[i] == ord0[i - 1]);
                }
            }
        }
    }
    assert(rows_view(rest@) =~= Seq::<RowView>::empty());
    proof {
        vstd::seq_lib::to_multiset_len(rows_view(rest@));
        vstd::multiset::lemma_multiset_empty_len(rows_view(rest@).to_multiset());
    }
    assert(rows_view(ordered@).to_multiset() =~= all.to_multiset());
    ordered
}


/// The count listed for `key`, or zero when `key` is not listed.
pub open spec fn listed_count(entries: Seq<(Seq<char>, nat)>, key: Seq<char>) -> nat
    decreases entries.len(),
{
    if entries.len() == 0 {
        0
    } else if entries.last().0 == key {
        entries.last().1
    } else {
        listed_count(entries.drop_last(), key)
    }
}

/// Positive counts listed in strictly ascending key order.
pub open spec fn is_listing(entries: Seq<(Seq<char>, nat)>) -> bool {
    &&& forall|i: int, j: int| 0 <= i < j < entries.len() ==> text_less(entries[i].0, entries[j].0)
    &&& forall|i: int| 0 <= i < entries.len() ==> entries[i].1 > 0
}

/// The count a listing gives a listed key is the one listed with it.
pub proof fn lemma_listed_at(entries: Seq<(Seq<char>, nat)>, at: int)
    requires
        is_listing(entries),
        0 <= at < entries.len(),
    ensures
        listed_count(entries, entries[at].0) == entries[at].1,
    decreases entries.len(),
{
    if at < entries.len() - 1 {
        let last = entries.len() - 1;
        assert(text_less(entries[at].0, entries[last].0));
        lemma_text_less_asymmetric(entries[at].0, entries[at].0);
        assert(entries.last().0 != entries[at].0);
        lemma_listed_at(entries.drop_last(), at);
    }
}

/// A key that a listing does not list counts zero.
pub proof fn lemma_listed_absent(entries: Seq<(Seq<char>, nat)>, key: Seq<char>)
    requires
        forall|i: int| 0 <= i < entries.len() ==> entries[i].0 != key,
    ensures
        listed_count(entries, key) == 0,
    decreases entries.len(),
{
    if entries.len() > 0 {
        assert(entries.last() == entries[entries.len() - 1]);
        lemma_listed_absent(entries.drop_last(), key);
    }
}

/// The number of rows in the cluster `key`.
pub open spec fn cluster_members(rows: Seq<RowView>, key: Seq<char>) -> nat
    decreases rows.len(),
{
    if rows.len() == 0 {
        0
    } else {
        cluster_members(rows.drop_last(), key) + if rows.last().cluster == Some(key) {
            1nat
        } else {
            0nat
        }
    }
}

/// The number of rows of the source type `source_type`.
pub open spec fn type_members(rows: Seq<RowView>, source_type: Seq<char>) -> nat
    decreases rows.len(),
{
    if rows.len() == 0 {
        0
    } else {
        type_members(rows.drop_last(), source_type) + if rows.last().source_type == source_type {
            1nat
        } else {
            0nat
        }
    }
}

/// The number of rows without a cluster.
pub open spec fn unclustered(rows: Seq<RowView>) -> nat
    decreases rows.len(),
{
    if rows.len() == 0 {
        0
    } else {
        unclustered(rows.drop_last()) + if rows.last().cluster is None {
            1nat
        } else {
            0nat
        }
    }
}

/// The rows selected so far and the rows skipped for a full cluster.
pub struct SelectionView {
    pub picked: Seq<RowView>,
    pub suppressed: nat,
}

/// Traversal of the first `n` rows of `order`: once `max_items` rows are
/// picked nothing changes; a row whose cluster already holds
/// `max_per_cluster` picked rows is skipped and counted; any other row is
/// picked.
pub open spec fn select(order: Seq<RowView>, n: nat, max_items: nat, max_per_cluster: nat) -> SelectionView
    decreases n,
{
    if n == 0 {
        SelectionView { picked: seq![], suppressed: 0 }
    } else {
        let s = select(order, (n - 1) as nat, max_items, max_per_cluster);
        let row = order[n - 1];
        if s.picked.len() >= max_items {
            s
        } else {
            match row.cluster {
                Some(key) => if cluster_members(s.picked, key) >= max_per_cluster {
                    SelectionView { picked: s.picked, suppressed: s.suppressed + 1 }
                } else {
                    SelectionView { picked: s.picked.push(row), suppressed: s.suppressed }
                },
                None => SelectionView { picked: s.picked.push(row), suppressed: s.suppressed },
            }
        }
    }
}

/// The slate item of a picked row at `rank`.
pub open spec fn item_of(row: RowView, rank: nat) -> ItemView {
    ItemView { candidate_id: row.id, rank, score: row.score, reasons: row.reasons }
}

/// The slate items of the picked rows, ranked from 1.
pub open spec fn items_of(picked: Seq<RowView>) -> Seq<ItemView> {
    Seq::new(picked.len(), |i: int| item_of(picked[i], (i + 1) as nat))
}

/// Whether `s` is the slate of request `r` when its rows are traversed in
/// `order`.
pub open spec fn slate_of(r: RankRequest, order: Seq<RowView>, s: SlateView) -> bool {
    let sel = select(
        order,
        order.len(),
        r.lens.policy.max_items as nat,
        r.lens.policy.max_per_cluster as nat,
    );
    &&& s.spec_version == SPEC_VERSION@
    &&& s.request_id == r.id@
    &&& s.lens_id == r.lens.id@
    &&& s.generated_at == r.context.generated_at@
    &&& s.algorithm_id == ALGORITHM_ID@
    &&& s.items == items_of(sel.picked)
    &&& is_listing(s.by_source_type)
    &&& forall|t: Seq<char>| listed_count(s.by_source_type, t) == type_members(sel.picked, t)
    &&& is_listing(s.clusters_selected)
    &&& forall|k: Seq<char>| listed_count(s.clusters_selected, k) == cluster_members(sel.picked, k)
    &&& s.unclustered_selected == unclustered(sel.picked)
    &&& s.suppressed_by_cluster_limit == sel.suppressed
    &&& s.no_extensions
}

/// Whether `s` is the slate of request `r` when its `rows` are traversed in
/// ranking order.
pub open spec fn slate_of_rows(r: RankRequest, rows: Seq<RowView>, s: SlateView) -> bool {
    exists|order: Seq<RowView>| #[trigger] is_ranking_order(rows, order) && slate_of(r, order, s)
}

/// The outcome of ranking `r`: the validation error if it fails; an
/// arithmetic overflow if a score leaves the fixed-point range; otherwise the
/// slate of the admitted candidates traversed in ranking order.
pub open spec fn rank_outcome(r: RankRequest, out: Result<SlateView, ErrorView>) -> bool {
    match request_check(r) {
        Err(e) => out == Err::<SlateView, ErrorView>(e),
        Ok(_) => match scored_rows(r, r.candidates@.len()) {
            None => out == Err::<SlateView, ErrorView>(ErrorView::ArithmeticOverflow),
            Some(rows) => match out {
                Ok(s) => slate_of_rows(r, rows, s),
                Err(_) => false,
            },
        },
    }
}

/// A ranking result taken by its views.
pub open spec fn slate_outcome(r: Result<FeedSlate, RankError>) -> Result<SlateView, ErrorView> {
    match r {
        Ok(s) => Ok(s@),
        Err(e) => Err(e@),
    }
}

fn count_in(entries: &Vec<(String, usize)>, key: &String) -> (c: usize)
    requires
        is_listing(count_entries(entries@)),
    ensures
        c == listed_count(count_entries(entries@), key@),
{
    let ghost e = count_entries(entries@);
    let mut i: usize = 0;
    while i < entries.len()
        invariant
            i <= entries.len(),
            e == count_entries(entries@),
            is_listing(e),
            forall|j: int| 0 <= j < i ==> e[j].0 != key@,
        decreases entries.len() - i,
    {
        if entries[i].0 == *key {
            proof {
                lemma_listed_at(e, i as int);
            }
            return entries[i].1;
        }
        i = i + 1;
    }
    proof {
        lemma_listed_absent(e, key@);
    }
    0
}

/// Counts one more `key`.
fn bump(entries: &mut Vec<(String, usize)>, key: &String)
    requires
        is_listing(count_entries(old(entries)@)),
        listed_count(count_entries(old(entries)@), key@) < usize::MAX,
    ensures
        is_listing(count_entries(final(entries)@)),
        forall|k: Seq<char>|
            #![trigger listed_count(count_entries(final(entries)@), k)]
            listed_count(count_entries(final(entries)@), k) == listed_count(
                count_entries(old(entries)@),
                k,
            ) + if k == key@ {
                1nat
            } else {
                0nat
            },
{
    let ghost e0 = count_entries(entries@);
    let mut p: usize = 0;
    while p < entries.len() && str_less(&entries[p].0, key)
        invariant
            p <= entries.len(),
            e0 == count_entries(entries@),
            forall|j: int| 0 <= j < p ==> text_less(e0[j].0, key@),
        decreases entries.len() - p,
    {
        p = p + 1;
    }
    if p < entries.len() && entries[p].0 == *key {
        let (k, c) = entries.remove(p);
        proof {
            lemma_listed_at(e0, p as int);
        }
        entries.insert(p, (k, c + 1));
        proof {
            let e1 = count_entries(entries@);
            assert(e1 =~= e0.update(p as int, (key@, (c + 1) as nat)));
            assert forall|i: int, j: int| 0 <= i < j < e1.len() implies text_less(
                e1[i].0,
                e1[j].0,
            ) by {
                assert(e1[i].0 == e0[i].0 && e1[j].0 == e0[j].0);
            }
            assert forall|k: Seq<char>|
                #![trigger listed_count(e1, k)]
                listed_count(e1, k) == listed_count(e0, k) + if k == key@ {
                    1nat
                } else {
                    0nat
                } by {
                if exists|i: int| 0 <= i < e0.len() && e0[i].0 == k {
                    let i = choose|i: int| 0 <= i < e0.len() && e0[i].0 == k;
                    lemma_listed_at(e0, i);
                    lemma_listed_at(e1, i);
                } else {
                    assert forall|i: int| 0 <= i < e1.len() implies e1[i].0 != k by {
                        assert(e1[i].0 == e0[i].0);
                    }
                    lemma_listed_absent(e0, k);
                    lemma_listed_absent(e1, k);
                }
            }
        }
    } else {
        proof {
            if p < entries.len() {
                lemma_text_less_total(e0[p as int].0, key@);
                assert forall|j: int| p <= j < e0.len() implies text_less(key@, e0[j].0) by {
                    if j > p {
                        lemma_text_less_transitive(key@, e0[p as int].0, e0[j].0);
                    }
                }
            }
        }
        entries.insert(p, (key.clone(), 1));
        proof {
            let e1 = count_entries(entries@);
            assert(e1 =~= e0.insert(p as int, (key@, 1nat)));
            e0.insert_ensures(p as int, (key@, 1nat));
            assert forall|i: int, j: int| 0 <= i < j < e1.len() implies text_less(
                e1[i].0,
                e1[j].0,
            ) by {
                if j < p {
                } else if j == p {
                } else if i < p {
                    assert(e1[j] == e0[j - 1]);
                    lemma_text_less_transitive(e0[i].0, key@, e0[j - 1].0);
                } else if i == p {
                    assert(e1[j] == e0[j - 1]);
                } else {
                    assert(e1[i] == e0[i - 1] && e1[j] == e0[j - 1]);
                }
            }
            assert forall|i: int| 0 <= i < e1.len() implies e1[i].1 > 0 by {
                if i > p {
                    assert(e1[i] == e0[i - 1]);
                }
            }
            assert forall|i: int| 0 <= i < e0.len() implies e0[i].0 != key@ by {
                lemma_text_less_asymmetric(key@, key@);
            }
            assert forall|k: Seq<char>|
                #![trigger listed_count(e1, k)]
                listed_count(e1, k) == listed_count(e0, k) + if k == key@ {
                    1nat
                } else {
                    0nat
                } by {
                if k == key@ {
                    lemma_listed_at(e1, p as int);
                    lemma_listed_absent(e0, k);
                } else if exists|i: int| 0 <= i < e0.len() && e0[i].0 == k {
                    let i = choose|i: int| 0 <= i < e0.len() && e0[i].0 == k;
                    lemma_listed_at(e0, i);
                    if i < p {
                        lemma_listed_at(e1, i);
                    } else {
                        assert(e1[i + 1] == e0[i]);
                        lemma_listed_at(e1, i + 1);
                    }
                } else {
                    assert forall|i: int| 0 <= i < e1.len() implies e1[i].0 != k by {
                        if i < p {
                            assert(e1[i] == e0[i]);
                        } else if i > p {
                            assert(e1[i] == e0[i - 1]);
                        }
                    }
                    lemma_listed_absent(e0, k);
                    lemma_listed_absent(e1, k);
                }
            }
        }
    }
}


proof fn lemma_members_bounded(rows: Seq<RowView>, key: Seq<char>)
    ensures
        cluster_members(rows, key) <= rows.len(),
        type_members(rows, key) <= rows.len(),
        unclustered(rows) <= rows.len(),
    decreases rows.len(),
{
    if rows.len() > 0 {
        lemma_members_bounded(rows.drop_last(), key);
    }
}

proof fn lemma_select_full(order: Seq<RowView>, k: nat, n: nat, max_items: nat, max_per_cluster: nat)
    requires
        k <= n,
        select(order, k, max_items, max_per_cluster).picked.len() >= max_items,
    ensures
        select(order, n, max_items, max_per_cluster) == select(order, k, max_items, max_per_cluster),
    decreases n - k,
{
    if k < n {
        lemma_select_full(order, k, (n - 1) as nat, max_items, max_per_cluster);
    }
}

spec fn items_view(items: Seq<FeedSlateItem>) -> Seq<ItemView> {
    items.map_values(|i: FeedSlateItem| i@)
}

/// Traverses the rows in order and reports the slate.
#[verifier::loop_isolation(false)]
fn select_rows(request: &RankRequest, ordered: Vec<Row>) -> (slate: FeedSlate)
    ensures
        slate_of(*request, rows_view(ordered@), slate@),
{
    let ghost order = rows_view(ordered@);
    let n = ordered.len();
    let max_items = request.lens.policy.max_items;
    let max_per_cluster = request.lens.policy.max_per_cluster;
    let ghost mi = max_items as nat;
    let ghost mp = max_per_cluster as nat;
    let mut rest = ordered;
    let mut items: Vec<FeedSlateItem> = Vec::new();
    let mut clusters: Vec<(String, usize)> = Vec::new();
    let mut types: Vec<(String, usize)> = Vec::new();
    let mut unclustered_count: usize = 0;
    let mut suppressed: usize = 0;
    proof {
        assert(rows_view(rest@) =~= order.subrange(0, n as int));
        assert(items_view(items@) =~= items_of(seq![]));
        assert(count_entries(clusters@) =~= Seq::<(Seq<char>, nat)>::empty());
        assert(count_entries(types@) =~= Seq::<(Seq<char>, nat)>::empty());
    }
    let mut k: usize = 0;
    while k < n && items.len() < max_items
        invariant
            k <= n,
            n == order.len(),
            rows_view(rest@) == order.subrange(k as int, n as int),
            items_view(items@) == items_of(select(order, k as nat, mi, mp).picked),
            items.len() == select(order, k as nat, mi, mp).picked.len(),
            is_listing(count_entries(clusters@)),
            forall|c: Seq<char>|
                listed_count(count_entries(clusters@), c) == cluster_members(
                    select(order, k as nat, mi, mp).picked,
                    c,
                ),
            is_listing(count_entries(types@)),
            forall|t: Seq<char>|
                listed_count(count_entries(types@), t) == type_members(
                    select(order, k as nat, mi, mp).picked,
                    t,
                ),
            unclustered_count == unclustered(select(order, k as nat, mi, mp).picked),
            suppressed == select(order, k as nat, mi, mp).suppressed,
            select(order, k as nat, mi, mp).picked.len() + select(order, k as nat, mi, mp).suppressed
                <= k,
        decreases n - k,
    {
        let ghost sel = select(order, k as nat, mi, mp);
        let ghost rest0 = rest@;
        let row = rest.remove(0);
        proof {
            assert(rows_view(rest0)[0] == order[k as int]);
            assert(rest0[0] == row);
            assert forall|j: int| 0 <= j < rest@.len() implies #[trigger] rows_view(rest@)[j]
                == order[k + 1 + j] by {
                assert(rest@[j] == rest0[j + 1]);
                assert(rows_view(rest0)[j + 1] == order.subrange(k as int, n as int)[j + 1]);
            }
            assert(rows_view(rest@) =~= order.subrange(k + 1, n as int));
            lemma_members_bounded(sel.picked, row@.source_type);
            match row@.cluster {
                Some(key) => lemma_members_bounded(sel.picked, key),
                None => {},
            }
        }
        let ghost rv = row@;
        let take = match &row.cluster {
            Some(key) => {
                if count_in(&clusters, key) >= max_per_cluster {
                    false
                } else {
                    bump(&mut clusters, key);
                    true
                }
            },
            None => {
                unclustered_count = unclustered_count + 1;
                true
            },
        };
        if take {
            bump(&mut types, &row.source_type);
            let rank = items.len() + 1;
            let item = FeedSlateItem {
                candidate_id: row.id,
                decision: RankingDecision { rank, score: row.score, reasons: row.reasons },
            };
            let ghost iv = item@;
            let ghost old_items = items@;
            items.push(item);
            proof {
                let picked = sel.picked.push(rv);
                assert(picked.drop_last() =~= sel.picked);
                assert(iv == item_of(rv, rank as nat));
                assert forall|i: int| 0 <= i < items@.len() implies #[trigger] items_view(items@)[i]
                    == items_of(picked)[i] by {
                    if i < items@.len() - 1 {
                        assert(items_view(items@)[i] == items_view(old_items)[i]);
                        assert(items_of(sel.picked)[i] == items_of(picked)[i]);
                    }
                }
                assert(items_view(items@) =~= items_of(picked));
            }
        } else {
            suppressed = suppressed + 1;
        }
        k = k + 1;
    }
    proof {
        if k < n {
            lemma_select_full(order, k as nat, n as nat, mi, mp);
        }
    }
    FeedSlate {
        spec_version: String::from_str(SPEC_VERSION),
        request_id: request.id.clone(),
        lens_id: request.lens.id.clone(),
        generated_at: request.context.generated_at.clone(),
        algorithm_id: String::from_str(ALGORITHM_ID),
        items,
        coverage: Coverage { by_source_type: types, extensions: no_extensions() },
        diversity: Diversity {
            clusters_selected: clusters,
            unclustered_selected: unclustered_count,
            suppressed_by_cluster_limit: suppressed,
            extensions: no_extensions(),
        },
        extensions: no_extensions(),
    }
}

/// Validates the request, scores every admitted candidate, orders them by
/// descending score and then ascending candidate id, and selects at most
/// `maxItems` of them with at most `maxPerCluster` per cluster.
pub fn rank(request: &RankRequest) -> (r: Result<FeedSlate, RankError>)
    ensures
        rank_outcome(*request, slate_outcome(r)),
{
    match validate(request) {
        Ok(()) => {},
        Err(e) => {
            return Err(e);
        },
    }
    assert(request_check(*request) is Ok);
    let rows = match build_rows(request) {
        Some(rows) => rows,
        None => {
            return Err(RankError::ArithmeticOverflow);
        },
    };
    let ghost unsorted = rows_view(rows@);
    let ordered = sort_rows(rows);
    let ghost order = rows_view(ordered@);
    let slate = select_rows(request, ordered);
    proof {
        assert(is_ranking_order(unsorted, order) && slate_of(*request, order, slate@));
        assert(slate_of_rows(*request, unsorted, slate@));
    }
    Ok(slate)
}

} // verus!
