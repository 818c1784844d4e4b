//! What every ranking outcome satisfies, and why a request has only one.

use vstd::prelude::*;

use crate::contract::{ItemView, RankRequest, ReasonView, Signal, SlateView};
use crate::error::ErrorView;
use crate::fixed6::{spec_mul, Fixed6};
use crate::rank::{
    admits, analysis_of, cluster_key_of, cluster_members, in_ranking_order, is_listing, is_ranking_order, item_of,
    lemma_listed_absent, lemma_listed_at, listed_count, rank_outcome, ranks_before, row_of,
    score_signals, scored_rows, select, slate_of, type_members, unclustered, weight_of, RowView,
};
use crate::text::{lemma_text_less_asymmetric, lemma_text_less_total, repeats_earlier, text_less, texts};
use crate::validation::{candidate_ids, lemma_valid_request, request_check};

verus! {

/// No two rows share a candidate id.
pub open spec fn distinct_ids(s: Seq<RowView>) -> bool {
    forall|i: int, j: int| 0 <= i < j < s.len() ==> s[i].id != s[j].id
}

/// The rows of the first `n` candidates come from those candidates, in
/// request order.
proof fn lemma_scored_rows_from_candidates(r: RankRequest, n: nat)
    requires
        n <= r.candidates@.len(),
        scored_rows(r, n) is Some,
    ensures
        forall|i: int|
            0 <= i < scored_rows(r, n)->0.len() ==> {
                let row = #[trigger] scored_rows(r, n)->0[i];
                &&& 0 <= row.index < n
                &&& row.id == r.candidates@[row.index].id@
            },
        forall|i: int, j: int|
            0 <= i < j < scored_rows(r, n)->0.len() ==> scored_rows(r, n)->0[i].index
                < scored_rows(r, n)->0[j].index,
        forall|i: int|
            0 <= i < scored_rows(r, n)->0.len() ==> {
                let row = #[trigger] scored_rows(r, n)->0[i];
                &&& row_of(r, row.index) == Some(row)
                &&& admits(r.lens, r.candidates@[row.index].source.source_type@)
            },
    decreases n,
{
    if n > 0 {
        lemma_scored_rows_from_candidates(r, (n - 1) as nat);
    }
}

proof fn lemma_rows_distinct(r: RankRequest)
    requires
        request_check(r) is Ok,
        scored_rows(r, r.candidates@.len()) is Some,
    ensures
        distinct_ids(scored_rows(r, r.candidates@.len())->0),
{
    let n = r.candidates@.len();
    let rows = scored_rows(r, n)->0;
    lemma_valid_request(r);
    lemma_scored_rows_from_candidates(r, n);
    assert forall|i: int, j: int| 0 <= i < j < rows.len() implies rows[i].id != rows[j].id by {
        let a = rows[i].index;
        let b = rows[j].index;
        assert(a < b);
        if rows[i].id == rows[j].id {
            assert(candidate_ids(r)[a] == candidate_ids(r)[b]);
            assert(repeats_earlier(candidate_ids(r), b));
        }
    }
}

/// Two arrangements of the same rows carry the same distinct ids.
proof fn lemma_distinct_ids_kept(rows: Seq<RowView>, order: Seq<RowView>)
    requires
        distinct_ids(rows),
        rows.to_multiset() == order.to_multiset(),
    ensures
        distinct_ids(order),
{
    broadcast use vstd::multiset::group_multiset_axioms;
    broadcast use vstd::seq_lib::to_multiset_contains;

    assert(rows.no_duplicates());
    rows.lemma_multiset_has_no_duplicates();
    order.lemma_multiset_has_no_duplicates_conv();
    assert forall|i: int, j: int| 0 <= i < j < order.len() implies order[i].id != order[j].id by {
        assert(order.contains(order[i]));
        assert(order.contains(order[j]));
        assert(order.to_multiset().count(order[i]) > 0);
        assert(order.to_multiset().count(order[j]) > 0);
        assert(rows.contains(order[i]));
        assert(rows.contains(order[j]));
        let p = choose|p: int| 0 <= p < rows.len() && rows[p] == order[i];
        let q = choose|q: int| 0 <= q < rows.len() && rows[q] == order[j];
        assert(order[i] != order[j]);
        assert(p != q);
    }
}

/// Rows with distinct ids have exactly one ranking order.
proof fn lemma_ranking_order_unique(o1: Seq<RowView>, o2: Seq<RowView>)
    requires
        o1.to_multiset() == o2.to_multiset(),
        in_ranking_order(o1),
        in_ranking_order(o2),
        distinct_ids(o1),
        distinct_ids(o2),
    ensures
        o1 == o2,
    decreases o1.len(),
{
    broadcast use vstd::multiset::group_multiset_axioms;
    broadcast use vstd::seq_lib::to_multiset_contains;
    broadcast use vstd::seq_lib::to_multiset_len;

    if o1.len() == 0 || o2.len() == 0 {
        assert(o1.len() == o1.to_multiset().len());
        assert(o2.len() == o2.to_multiset().len());
        assert(o1 =~= o2);
    } else {
        let x = o1[0];
        let y = o2[0];
        if x != y {
            assert(o1.to_multiset().count(y) > 0);
            assert(o2.to_multiset().count(x) > 0);
            let k = choose|k: int| 0 <= k < o1.len() && o1[k] == y;
            let m = choose|m: int| 0 <= m < o2.len() && o2[m] == x;
            assert(k != 0 && m != 0);
            assert(x.id != y.id);
            lemma_text_less_total(x.id, y.id);
            assert(!ranks_before(o1[k], o1[0]));
            assert(!ranks_before(o2[m], o2[0]));
            assert(false);
        }
        vstd::seq_lib::to_multiset_remove(o1, 0);
        vstd::seq_lib::to_multiset_remove(o2, 0);
        assert(o1.remove(0) =~= o1.drop_first());
        assert(o2.remove(0) =~= o2.drop_first());
        lemma_ranking_order_unique(o1.drop_first(), o2.drop_first());
        assert(o1 =~= seq![x] + o1.drop_first());
        assert(o2 =~= seq![y] + o2.drop_first());
    }
}

proof fn lemma_listed_present(entries: Seq<(Seq<char>, nat)>, key: Seq<char>)
    requires
        listed_count(entries, key) > 0,
    ensures
        exists|i: int| 0 <= i < entries.len() && entries[i].0 == key,
{
    if !(exists|i: int| 0 <= i < entries.len() && entries[i].0 == key) {
        lemma_listed_absent(entries, key);
    }
}

/// Two listings that give every key the same count are the same listing.
proof fn lemma_listing_unique(x: Seq<(Seq<char>, nat)>, y: Seq<(Seq<char>, nat)>)
    requires
        is_listing(x),
        is_listing(y),
        forall|k: Seq<char>| listed_count(x, k) == listed_count(y, k),
    ensures
        x == y,
    decreases x.len() + y.len(),
{
    if x.len() == 0 && y.len() == 0 {
        assert(x =~= y);
    } else if x.len() == 0 {
        lemma_listed_at(y, y.len() - 1);
        assert(listed_count(x, y[y.len() - 1].0) == 0);
    } else if y.len() == 0 {
        lemma_listed_at(x, x.len() - 1);
        assert(listed_count(y, x[x.len() - 1].0) == 0);
    } else {
        let lx = x.len() - 1;
        let ly = y.len() - 1;
        let kx = x[lx].0;
        let ky = y[ly].0;
        lemma_listed_at(x, lx);
        lemma_listed_at(y, ly);
        lemma_listed_present(y, kx);
        lemma_listed_present(x, ky);
        if kx != ky {
            let p = choose|p: int| 0 <= p < y.len() && y[p].0 == kx;
            let q = choose|q: int| 0 <= q < x.len() && x[q].0 == ky;
            assert(p != ly && q != lx);
            assert(text_less(kx, ky));
            assert(text_less(ky, kx));
            lemma_text_less_asymmetric(kx, ky);
            assert(false);
        }
        let dx = x.drop_last();
        let dy = y.drop_last();
        assert forall|k: Seq<char>| listed_count(dx, k) == listed_count(dy, k) by {
            if k == kx {
                assert forall|i: int| 0 <= i < dx.len() implies dx[i].0 != k by {
                    assert(text_less(x[i].0, kx));
                    lemma_text_less_asymmetric(kx, kx);
                }
                assert forall|i: int| 0 <= i < dy.len() implies dy[i].0 != k by {
                    assert(text_less(y[i].0, ky));
                    lemma_text_less_asymmetric(ky, ky);
                }
                lemma_listed_absent(dx, k);
                lemma_listed_absent(dy, k);
            } else {
                assert(listed_count(x, k) == listed_count(dx, k));
                assert(listed_count(y, k) == listed_count(dy, k));
            }
        }
        lemma_listing_unique(dx, dy);
        assert(x =~= dx.push(x[lx]));
        assert(y =~= dy.push(y[ly]));
    }
}

/// Ranking is repeatable: a request has one outcome, the same error or the
/// same slate, item for item and count for count.
pub proof fn lemma_rank_repeatable(
    r: RankRequest,
    a: Result<SlateView, ErrorView>,
    b: Result<SlateView, ErrorView>,
)
    requires
        rank_outcome(r, a),
        rank_outcome(r, b),
    ensures
        a == b,
{
    if request_check(r) is Ok && scored_rows(r, r.candidates@.len()) is Some {
        let rows = scored_rows(r, r.candidates@.len())->0;
        let s1 = a->Ok_0;
        let s2 = b->Ok_0;
        let o1 = choose|o: Seq<RowView>| #[trigger] is_ranking_order(rows, o) && slate_of(r, o, s1);
        let o2 = choose|o: Seq<RowView>| #[trigger] is_ranking_order(rows, o) && slate_of(r, o, s2);
        lemma_rows_distinct(r);
        lemma_distinct_ids_kept(rows, o1);
        lemma_distinct_ids_kept(rows, o2);
        lemma_ranking_order_unique(o1, o2);
        lemma_listing_unique(s1.by_source_type, s2.by_source_type);
        lemma_listing_unique(s1.clusters_selected, s2.clusters_selected);
        assert(s1 == s2);
    }
}


/// What traversal keeps of the first `n` rows of an order: at most
/// `max_items` picked rows, at most `max_per_cluster` of them per cluster,
/// each one of those `n` rows, in their order and without repeats.
proof fn lemma_select_shape(order: Seq<RowView>, n: nat, max_items: nat, max_per_cluster: nat)
    requires
        n <= order.len(),
        in_ranking_order(order),
        distinct_ids(order),
    ensures
        select(order, n, max_items, max_per_cluster).picked.len() <= max_items,
        forall|k: Seq<char>|
            cluster_members(#[trigger] select(order, n, max_items, max_per_cluster).picked, k)
                <= max_per_cluster,
        forall|i: int|
            0 <= i < select(order, n, max_items, max_per_cluster).picked.len() ==> exists|j: int|
                0 <= j < n && order[j] == #[trigger] select(order, n, max_items, max_per_cluster).picked[i],
        in_ranking_order(select(order, n, max_items, max_per_cluster).picked),
        distinct_ids(select(order, n, max_items, max_per_cluster).picked),
    decreases n,
{
    if n > 0 {
        lemma_select_shape(order, (n - 1) as nat, max_items, max_per_cluster);
        let s = select(order, (n - 1) as nat, max_items, max_per_cluster);
        let row = order[n - 1];
        let t = select(order, n, max_items, max_per_cluster);
        if t.picked != s.picked {
            assert(t.picked == s.picked.push(row));
            assert(t.picked.drop_last() =~= s.picked);
            assert forall|k: Seq<char>| cluster_members(t.picked, k) <= max_per_cluster by {
                assert(cluster_members(t.picked, k) == cluster_members(s.picked, k) + if row.cluster
                    == Some(k) {
                    1nat
                } else {
                    0nat
                });
            }
            assert forall|i: int| 0 <= i < t.picked.len() implies exists|j: int|
                0 <= j < n && order[j] == #[trigger] t.picked[i] by {
                if i < s.picked.len() {
                    assert(t.picked[i] == s.picked[i]);
                } else {
                    assert(order[n - 1] == t.picked[i]);
                }
            }
            assert forall|a: int, b: int| 0 <= a < b < t.picked.len() implies !ranks_before(
                t.picked[b],
                t.picked[a],
            ) && t.picked[a].id != t.picked[b].id by {
                if b < s.picked.len() {
                    assert(t.picked[a] == s.picked[a] && t.picked[b] == s.picked[b]);
                } else {
                    assert(t.picked[a] == s.picked[a]);
                    let j = choose|j: int| 0 <= j < n - 1 && order[j] == #[trigger] s.picked[a];
                    assert(t.picked[b] == order[n - 1]);
                }
            }
        }
    }
}

/// The slate of `r` when traversed in ranking `order`.
proof fn lemma_slate_order(r: RankRequest, s: SlateView) -> (order: Seq<RowView>)
    requires
        rank_outcome(r, Ok::<SlateView, ErrorView>(s)),
    ensures
        request_check(r) is Ok,
        scored_rows(r, r.candidates@.len()) is Some,
        is_ranking_order(scored_rows(r, r.candidates@.len())->0, order),
        slate_of(r, order, s),
        distinct_ids(order),
{
    let rows = scored_rows(r, r.candidates@.len())->0;
    let order = choose|o: Seq<RowView>| #[trigger] is_ranking_order(rows, o) && slate_of(r, o, s);
    lemma_rows_distinct(r);
    lemma_distinct_ids_kept(rows, order);
    order
}

/// A slate holds at most `maxItems` items, ranked 1, 2, 3, ... in order,
/// none of them twice, with at most `maxPerCluster` items from any cluster.
pub proof fn lemma_slate_bounds(r: RankRequest, s: SlateView)
    requires
        rank_outcome(r, Ok::<SlateView, ErrorView>(s)),
    ensures
        s.items.len() <= r.lens.policy.max_items,
        forall|i: int| 0 <= i < s.items.len() ==> (#[trigger] s.items[i]).rank == i + 1,
        forall|i: int, j: int|
            0 <= i < j < s.items.len() ==> s.items[i].candidate_id != s.items[j].candidate_id,
        forall|k: Seq<char>| listed_count(s.clusters_selected, k) <= r.lens.policy.max_per_cluster,
{
    let order = lemma_slate_order(r, s);
    let mi = r.lens.policy.max_items as nat;
    let mp = r.lens.policy.max_per_cluster as nat;
    lemma_select_shape(order, order.len(), mi, mp);
    let picked = select(order, order.len(), mi, mp).picked;
    assert forall|i: int, j: int| 0 <= i < j < s.items.len() implies s.items[i].candidate_id
        != s.items[j].candidate_id by {
        assert(s.items[i].candidate_id == picked[i].id);
        assert(s.items[j].candidate_id == picked[j].id);
    }
    assert forall|k: Seq<char>| listed_count(s.clusters_selected, k) <= r.lens.policy.max_per_cluster by {
        assert(cluster_members(picked, k) <= mp);
    }
}

/// Whether item `a` may come before item `b`: a higher score, or an equal
/// score and a smaller candidate id.
pub open spec fn item_before(a: ItemView, b: ItemView) -> bool {
    a.score > b.score || (a.score == b.score && text_less(a.candidate_id, b.candidate_id))
}

/// Slate items come in ranking order: scores never rise, and items with
/// equal scores come in ascending candidate id.
pub proof fn lemma_slate_ordered(r: RankRequest, s: SlateView)
    requires
        rank_outcome(r, Ok::<SlateView, ErrorView>(s)),
    ensures
        forall|i: int, j: int|
            0 <= i < j < s.items.len() ==> item_before(#[trigger] s.items[i], #[trigger] s.items[j]),
{
    let order = lemma_slate_order(r, s);
    let mi = r.lens.policy.max_items as nat;
    let mp = r.lens.policy.max_per_cluster as nat;
    lemma_select_shape(order, order.len(), mi, mp);
    let picked = select(order, order.len(), mi, mp).picked;
    assert forall|i: int, j: int| 0 <= i < j < s.items.len() implies item_before(
        #[trigger] s.items[i],
        #[trigger] s.items[j],
    ) by {
        assert(s.items[i].candidate_id == picked[i].id && s.items[i].score == picked[i].score);
        assert(s.items[j].candidate_id == picked[j].id && s.items[j].score == picked[j].score);
        assert(!ranks_before(picked[j], picked[i]));
        assert(picked[i].id != picked[j].id);
        lemma_text_less_total(picked[i].id, picked[j].id);
    }
}


/// The sum of the contributions of `reasons`.
pub open spec fn contribution_total(reasons: Seq<ReasonView>) -> int
    decreases reasons.len(),
{
    if reasons.len() == 0 {
        0
    } else {
        contribution_total(reasons.drop_last()) + reasons.last().contribution
    }
}

/// Whether `score` is the sum of the contributions of `reasons`, none of
/// which is zero.
pub open spec fn scored_by(score: int, reasons: Seq<ReasonView>) -> bool {
    &&& score == contribution_total(reasons)
    &&& forall|j: int| 0 <= j < reasons.len() ==> (#[trigger] reasons[j]).contribution != 0
}

/// Whether each reason names a weighted signal and carries the lens weight
/// and the rounded product of value and weight.
pub open spec fn weighed_by(weights: Seq<(String, Fixed6)>, reasons: Seq<ReasonView>) -> bool {
    forall|j: int|
        0 <= j < reasons.len() ==> {
            let reason = #[trigger] reasons[j];
            &&& weight_of(weights, reason.signal) == Some(reason.weight)
            &&& spec_mul(reason.value, reason.weight) == Some(reason.contribution)
        }
}

proof fn lemma_score_is_total(weights: Seq<(String, Fixed6)>, signals: Seq<Signal>, n: nat)
    ensures
        match score_signals(weights, signals, n) {
            Some((score, reasons)) => scored_by(score, reasons) && weighed_by(weights, reasons),
            None => true,
        },
    decreases n,
{
    if n > 0 {
        lemma_score_is_total(weights, signals, (n - 1) as nat);
        match (score_signals(weights, signals, (n - 1) as nat), score_signals(weights, signals, n)) {
            (Some((s0, r0)), Some((s1, r1))) => {
                if r1.len() != r0.len() {
                    assert(r1.drop_last() =~= r0);
                    assert forall|j: int| 0 <= j < r1.len() implies (#[trigger] r1[j]).contribution != 0 by {
                        if j < r0.len() {
                            assert(r1[j] == r0[j]);
                        }
                    }
                    assert forall|j: int| 0 <= j < r1.len() implies {
                        let reason = #[trigger] r1[j];
                        &&& weight_of(weights, reason.signal) == Some(reason.weight)
                        &&& spec_mul(reason.value, reason.weight) == Some(reason.contribution)
                    } by {
                        if j < r0.len() {
                            assert(r1[j] == r0[j]);
                        }
                    }
                }
            },
            _ => {},
        }
    }
}

/// The rows picked from an order are rows of the request.
proof fn lemma_picked_rows(r: RankRequest, order: Seq<RowView>, i: int)
    requires
        request_check(r) is Ok,
        scored_rows(r, r.candidates@.len()) is Some,
        is_ranking_order(scored_rows(r, r.candidates@.len())->0, order),
        distinct_ids(order),
        0 <= i < select(
            order,
            order.len(),
            r.lens.policy.max_items as nat,
            r.lens.policy.max_per_cluster as nat,
        ).picked.len(),
    ensures
        ({
            let row = select(
                order,
                order.len(),
                r.lens.policy.max_items as nat,
                r.lens.policy.max_per_cluster as nat,
            ).picked[i];
            &&& 0 <= row.index < r.candidates@.len()
            &&& row.id == r.candidates@[row.index].id@
            &&& row_of(r, row.index) == Some(row)
            &&& admits(r.lens, r.candidates@[row.index].source.source_type@)
        }),
{
    broadcast use vstd::seq_lib::to_multiset_contains;

    let n = r.candidates@.len();
    let rows = scored_rows(r, n)->0;
    let mi = r.lens.policy.max_items as nat;
    let mp = r.lens.policy.max_per_cluster as nat;
    lemma_select_shape(order, order.len(), mi, mp);
    lemma_scored_rows_from_candidates(r, n);
    let row = select(order, order.len(), mi, mp).picked[i];
    let j = choose|j: int| 0 <= j < order.len() && order[j] == row;
    assert(order.contains(row));
    assert(order.to_multiset().count(row) > 0);
    assert(rows.contains(row));
    let k = choose|k: int| 0 <= k < rows.len() && rows[k] == row;
    assert(rows[k] == row);
}

/// The score and reasons of the candidate at `c`: its own signals and then
/// its analysis record's, weighed by the lens; `None` on overflow.
pub open spec fn candidate_scoring(r: RankRequest, c: int) -> Option<(int, Seq<ReasonView>)> {
    let cand = r.candidates@[c];
    let signals = cand.signals@ + analysis_of(r, cand.id@).signals@;
    score_signals(r.lens.weights@, signals, signals.len())
}

/// Whether `item` is an admitted candidate of `r` with the score and reasons
/// that candidate's scoring gives.
pub open spec fn item_from_candidate(r: RankRequest, item: ItemView) -> bool {
    exists|c: int|
        #![trigger candidate_scoring(r, c)]
        0 <= c < r.candidates@.len() && r.candidates@[c].id@ == item.candidate_id && admits(
            r.lens,
            r.candidates@[c].source.source_type@,
        ) && candidate_scoring(r, c) == Some((item.score, item.reasons))
}

/// Every slate item is a candidate the lens admits, with the score and the
/// reasons that candidate's signals and then its analysis record's signals
/// give under the lens weights; its score is the sum of its reasons'
/// contributions, none of which is zero; and each reason names a signal the
/// lens weighs, with that weight and the rounded product of value and weight
/// as its contribution.
pub proof fn lemma_slate_items_scored(r: RankRequest, s: SlateView)
    requires
        rank_outcome(r, Ok::<SlateView, ErrorView>(s)),
    ensures
        forall|i: int|
            0 <= i < s.items.len() ==> item_from_candidate(r, #[trigger] s.items[i]),
        forall|i: int|
            0 <= i < s.items.len() ==> scored_by((#[trigger] s.items[i]).score, s.items[i].reasons),
        forall|i: int|
            0 <= i < s.items.len() ==> weighed_by(r.lens.weights@, (#[trigger] s.items[i]).reasons),
{
    let order = lemma_slate_order(r, s);
    let mi = r.lens.policy.max_items as nat;
    let mp = r.lens.policy.max_per_cluster as nat;
    let picked = select(order, order.len(), mi, mp).picked;
    assert forall|i: int| 0 <= i < s.items.len() implies {
        &&& item_from_candidate(r, #[trigger] s.items[i])
        &&& scored_by(s.items[i].score, s.items[i].reasons)
        &&& weighed_by(r.lens.weights@, s.items[i].reasons)
    } by {
        lemma_picked_rows(r, order, i);
        let row = picked[i];
        let c = row.index;
        let cand = r.candidates@[c];
        let a = analysis_of(r, cand.id@);
        let signals = cand.signals@ + a.signals@;
        lemma_score_is_total(r.lens.weights@, signals, signals.len());
        assert(s.items[i] == item_of(row, (i + 1) as nat));
        assert(candidate_scoring(r, c) == Some((row.score, row.reasons)));
        assert(item_from_candidate(r, s.items[i]));
    }
}

/// The sum of the counts of a listing.
pub open spec fn listing_total(entries: Seq<(Seq<char>, nat)>) -> nat
    decreases entries.len(),
{
    if entries.len() == 0 {
        0
    } else {
        listing_total(entries.drop_last()) + entries.last().1
    }
}

/// The key a row is counted under: its source type, or its cluster key.
spec fn row_key(row: RowView, by_type: bool) -> Option<Seq<char>> {
    if by_type {
        Some(row.source_type)
    } else {
        row.cluster
    }
}

/// The number of rows that its key files under `k`.
spec fn keyed_count(rows: Seq<RowView>, by_type: bool, k: Seq<char>) -> nat
    decreases rows.len(),
{
    if rows.len() == 0 {
        0
    } else {
        keyed_count(rows.drop_last(), by_type, k) + if row_key(rows.last(), by_type) == Some(k) {
            1nat
        } else {
            0nat
        }
    }
}

/// The number of rows that its key files under no key.
spec fn unkeyed_count(rows: Seq<RowView>, by_type: bool) -> nat
    decreases rows.len(),
{
    if rows.len() == 0 {
        0
    } else {
        unkeyed_count(rows.drop_last(), by_type) + if row_key(rows.last(), by_type) is None {
            1nat
        } else {
            0nat
        }
    }
}

/// The rows that its key does not file under `t`.
spec fn without_key(rows: Seq<RowView>, by_type: bool, t: Seq<char>) -> Seq<RowView>
    decreases rows.len(),
{
    if rows.len() == 0 {
        rows
    } else if row_key(rows.last(), by_type) == Some(t) {
        without_key(rows.drop_last(), by_type, t)
    } else {
        without_key(rows.drop_last(), by_type, t).push(rows.last())
    }
}

proof fn lemma_without_key(rows: Seq<RowView>, by_type: bool, t: Seq<char>)
    ensures
        forall|k: Seq<char>|
            #[trigger] keyed_count(without_key(rows, by_type, t), by_type, k) == if k == t {
                0
            } else {
                keyed_count(rows, by_type, k)
            },
        unkeyed_count(without_key(rows, by_type, t), by_type) == unkeyed_count(rows, by_type),
        without_key(rows, by_type, t).len() + keyed_count(rows, by_type, t) == rows.len(),
    decreases rows.len(),
{
    if rows.len() > 0 {
        let rest = rows.drop_last();
        lemma_without_key(rest, by_type, t);
        let w = without_key(rest, by_type, t);
        if row_key(rows.last(), by_type) != Some(t) {
            assert(w.push(rows.last()).drop_last() =~= w);
        }
        assert forall|k: Seq<char>|
            #[trigger] keyed_count(without_key(rows, by_type, t), by_type, k) == if k == t {
                0
            } else {
                keyed_count(rows, by_type, k)
            } by {
            assert(keyed_count(w, by_type, k) == if k == t {
                0
            } else {
                keyed_count(rest, by_type, k)
            });
        }
    }
}

proof fn lemma_all_unkeyed(rows: Seq<RowView>, by_type: bool)
    requires
        forall|k: Seq<char>| #[trigger] keyed_count(rows, by_type, k) == 0,
    ensures
        unkeyed_count(rows, by_type) == rows.len(),
    decreases rows.len(),
{
    if rows.len() > 0 {
        if let Some(k0) = row_key(rows.last(), by_type) {
            assert(keyed_count(rows, by_type, k0) > 0);
        }
        assert forall|k: Seq<char>| #[trigger] keyed_count(rows.drop_last(), by_type, k) == 0 by {
            assert(keyed_count(rows, by_type, k) == 0);
        }
        lemma_all_unkeyed(rows.drop_last(), by_type);
    }
}

/// A listing of the keyed counts of some rows sums, with the unkeyed rows,
/// to the number of rows.
proof fn lemma_listing_total(
    entries: Seq<(Seq<char>, nat)>,
    rows: Seq<RowView>,
    by_type: bool,
)
    requires
        is_listing(entries),
        forall|k: Seq<char>| listed_count(entries, k) == keyed_count(rows, by_type, k),
    ensures
        listing_total(entries) + unkeyed_count(rows, by_type) == rows.len(),
    decreases entries.len(),
{
    if entries.len() == 0 {
        assert forall|k: Seq<char>| #[trigger] keyed_count(rows, by_type, k) == 0 by {
            assert(listed_count(entries, k) == 0);
        }
        lemma_all_unkeyed(rows, by_type);
    } else {
        let last = entries.len() - 1;
        let t = entries[last].0;
        let rest = entries.drop_last();
        let fewer = without_key(rows, by_type, t);
        lemma_without_key(rows, by_type, t);
        lemma_listed_at(entries, last);
        assert forall|k: Seq<char>| listed_count(rest, k) == keyed_count(fewer, by_type, k) by {
            if k == t {
                assert forall|i: int| 0 <= i < rest.len() implies rest[i].0 != k by {
                    assert(text_less(entries[i].0, t));
                    lemma_text_less_asymmetric(t, t);
                }
                lemma_listed_absent(rest, k);
            } else {
                assert(listed_count(entries, k) == listed_count(rest, k));
            }
            assert(keyed_count(fewer, by_type, k) == if k == t {
                0
            } else {
                keyed_count(rows, by_type, k)
            });
        }
        lemma_listing_total(rest, fewer, by_type);
    }
}

proof fn lemma_member_counts(rows: Seq<RowView>)
    ensures
        forall|k: Seq<char>|
            #[trigger] type_members(rows, k) == keyed_count(rows, true, k),
        forall|k: Seq<char>|
            #[trigger] cluster_members(rows, k) == keyed_count(rows, false, k),
        unclustered(rows) == unkeyed_count(rows, false),
        unkeyed_count(rows, true) == 0,
    decreases rows.len(),
{
    if rows.len() > 0 {
        let rest = rows.drop_last();
        lemma_member_counts(rest);
        assert forall|k: Seq<char>| #[trigger] type_members(rows, k) == keyed_count(rows, true, k) by {
            assert(type_members(rest, k) == keyed_count(rest, true, k));
        }
        assert forall|k: Seq<char>| #[trigger] cluster_members(rows, k) == keyed_count(rows, false, k) by {
            assert(cluster_members(rest, k) == keyed_count(rest, false, k));
        }
    }
}

/// Coverage counts every slate item once, by its source type; diversity
/// counts every slate item once, in its cluster or as unclustered.
pub proof fn lemma_slate_totals(r: RankRequest, s: SlateView)
    requires
        rank_outcome(r, Ok::<SlateView, ErrorView>(s)),
    ensures
        listing_total(s.by_source_type) == s.items.len(),
        listing_total(s.clusters_selected) + s.unclustered_selected == s.items.len(),
{
    let order = lemma_slate_order(r, s);
    let mi = r.lens.policy.max_items as nat;
    let mp = r.lens.policy.max_per_cluster as nat;
    let picked = select(order, order.len(), mi, mp).picked;
    lemma_member_counts(picked);
    assert forall|k: Seq<char>| listed_count(s.by_source_type, k) == keyed_count(picked, true, k) by {
        assert(type_members(picked, k) == keyed_count(picked, true, k));
    }
    assert forall|k: Seq<char>| listed_count(s.clusters_selected, k) == keyed_count(picked, false, k) by {
        assert(cluster_members(picked, k) == keyed_count(picked, false, k));
    }
    lemma_listing_total(s.by_source_type, picked, true);
    lemma_listing_total(s.clusters_selected, picked, false);
}


/// Every admitted candidate among the first `n` has its row.
proof fn lemma_admitted_has_row(r: RankRequest, n: nat, c: int)
    requires
        n <= r.candidates@.len(),
        scored_rows(r, n) is Some,
        0 <= c < n,
        admits(r.lens, r.candidates@[c].source.source_type@),
    ensures
        exists|i: int|
            0 <= i < scored_rows(r, n)->0.len() && (#[trigger] scored_rows(r, n)->0[i]).index == c,
    decreases n,
{
    lemma_scored_rows_from_candidates(r, n);
    if c < n - 1 {
        lemma_admitted_has_row(r, (n - 1) as nat, c);
        let i = choose|i: int|
            0 <= i < scored_rows(r, (n - 1) as nat)->0.len() && (#[trigger] scored_rows(
                r,
                (n - 1) as nat,
            )->0[i]).index == c;
        assert(scored_rows(r, n)->0[i] == scored_rows(r, (n - 1) as nat)->0[i]);
    } else {
        let last = scored_rows(r, n)->0.len() - 1;
        assert(scored_rows(r, n)->0[last].index == c);
    }
}

/// While the slate has room, traversal picks every row without a cluster,
/// and leaves out a clustered row only when its cluster is full.
proof fn lemma_select_complete(order: Seq<RowView>, n: nat, max_items: nat, max_per_cluster: nat)
    requires
        n <= order.len(),
    ensures
        select(order, n, max_items, max_per_cluster).picked.len() < max_items ==> forall|j: int|
            0 <= j < n ==> {
                let picked = select(order, n, max_items, max_per_cluster).picked;
                match (#[trigger] order[j]).cluster {
                    None => picked.contains(order[j]),
                    Some(k) => picked.contains(order[j]) || cluster_members(picked, k)
                        >= max_per_cluster,
                }
            },
    decreases n,
{
    if n > 0 {
        lemma_select_complete(order, (n - 1) as nat, max_items, max_per_cluster);
        let s = select(order, (n - 1) as nat, max_items, max_per_cluster).picked;
        let t = select(order, n, max_items, max_per_cluster).picked;
        if t.len() < max_items {
            assert(t == s || t == s.push(order[n - 1]));
            assert forall|j: int| 0 <= j < n implies {
                match (#[trigger] order[j]).cluster {
                    None => t.contains(order[j]),
                    Some(k) => t.contains(order[j]) || cluster_members(t, k) >= max_per_cluster,
                }
            } by {
                if t != s {
                    assert(t.drop_last() =~= s);
                    if s.contains(order[j]) {
                        let p = choose|p: int| 0 <= p < s.len() && s[p] == order[j];
                        assert(t[p] == order[j]);
                    }
                    assert(t[t.len() - 1] == order[n - 1]);
                }
            }
        }
    }
}

/// While the slate has room, a clustered row left out finds its cluster
/// filled by rows that come before it.
proof fn lemma_select_full_before(order: Seq<RowView>, n: nat, max_items: nat, max_per_cluster: nat)
    requires
        n <= order.len(),
        in_ranking_order(order),
        distinct_ids(order),
    ensures
        select(order, n, max_items, max_per_cluster).picked.len() < max_items ==> forall|j: int, p: int|
            0 <= j < n && 0 <= p < select(order, n, max_items, max_per_cluster).picked.len()
                && !select(order, n, max_items, max_per_cluster).picked.contains(order[j])
                && (#[trigger] select(order, n, max_items, max_per_cluster).picked[p]).cluster
                == (#[trigger] order[j]).cluster ==> exists|q: int|
                0 <= q < j && order[q] == select(order, n, max_items, max_per_cluster).picked[p],
    decreases n,
{
    if n > 0 {
        let m = (n - 1) as nat;
        lemma_select_full_before(order, m, max_items, max_per_cluster);
        lemma_select_complete(order, m, max_items, max_per_cluster);
        lemma_select_shape(order, m, max_items, max_per_cluster);
        let s = select(order, m, max_items, max_per_cluster).picked;
        let t = select(order, n, max_items, max_per_cluster).picked;
        if t.len() < max_items {
            assert(t == s || t == s.push(order[n - 1]));
            assert forall|j: int, p: int|
                0 <= j < n && 0 <= p < t.len() && !t.contains(order[j]) && (#[trigger] t[p]).cluster
                    == (#[trigger] order[j]).cluster implies exists|q: int|
                0 <= q < j && order[q] == t[p] by {
                if t != s {
                    assert(t.drop_last() =~= s);
                    assert(t[t.len() - 1] == order[n - 1]);
                    assert(t.contains(order[n - 1]));
                    assert(j < n - 1);
                    if s.contains(order[j]) {
                        let x = choose|x: int| 0 <= x < s.len() && s[x] == order[j];
                        assert(t[x] == order[j]);
                    }
                    if p == t.len() - 1 {
                        // The row just picked would have been skipped had its
                        // cluster been full.
                        let k = order[j].cluster->0;
                        assert(cluster_members(s, k) >= max_per_cluster);
                        assert(false);
                    } else {
                        assert(t[p] == s[p]);
                    }
                } else {
                    if j == n - 1 {
                        let q = choose|q: int| 0 <= q < m && order[q] == #[trigger] s[p];
                        assert(order[q] == t[p]);
                    }
                }
            }
        }
    }
}

/// Whether `item` comes before the candidate at `c` in ranking order.
pub open spec fn ranks_ahead_of(r: RankRequest, item: ItemView, c: int) -> bool {
    match row_of(r, c) {
        Some(row) => item.score > row.score || (item.score == row.score && text_less(
            item.candidate_id,
            row.id,
        )),
        None => false,
    }
}

/// While a slate has room, it holds every admitted candidate except those
/// whose cluster already holds `maxPerCluster` items, all of which rank
/// ahead of it: candidates without a cluster never suppress each other.
pub proof fn lemma_slate_complete(r: RankRequest, s: SlateView)
    requires
        rank_outcome(r, Ok::<SlateView, ErrorView>(s)),
        s.items.len() < r.lens.policy.max_items,
    ensures
        forall|c: int|
            0 <= c < r.candidates@.len() && admits(
                r.lens,
                (#[trigger] r.candidates@[c]).source.source_type@,
            ) ==> {
                let in_slate = exists|i: int|
                    0 <= i < s.items.len() && s.items[i].candidate_id == r.candidates@[c].id@;
                match cluster_key_of(analysis_of(r, r.candidates@[c].id@)) {
                    None => in_slate,
                    Some(k) => in_slate || (listed_count(s.clusters_selected, k)
                        == r.lens.policy.max_per_cluster && forall|i: int|
                        0 <= i < s.items.len() && cluster_of_candidate(
                            r,
                            (#[trigger] s.items[i]).candidate_id,
                        ) == Some(k) ==> ranks_ahead_of(r, s.items[i], c)),
                }
            },
{
    broadcast use vstd::seq_lib::to_multiset_contains;

    let order = lemma_slate_order(r, s);
    let n = r.candidates@.len();
    let rows = scored_rows(r, n)->0;
    let mi = r.lens.policy.max_items as nat;
    let mp = r.lens.policy.max_per_cluster as nat;
    let picked = select(order, order.len(), mi, mp).picked;
    lemma_select_complete(order, order.len(), mi, mp);
    lemma_select_shape(order, order.len(), mi, mp);
    lemma_select_full_before(order, order.len(), mi, mp);
    lemma_scored_rows_from_candidates(r, n);
    assert forall|c: int|
        0 <= c < r.candidates@.len() && admits(
            r.lens,
            (#[trigger] r.candidates@[c]).source.source_type@,
        ) implies {
            let in_slate = exists|i: int|
                0 <= i < s.items.len() && s.items[i].candidate_id == r.candidates@[c].id@;
            match cluster_key_of(analysis_of(r, r.candidates@[c].id@)) {
                None => in_slate,
                Some(k) => in_slate || (listed_count(s.clusters_selected, k)
                    == r.lens.policy.max_per_cluster && forall|i: int|
                    0 <= i < s.items.len() && cluster_of_candidate(
                        r,
                        (#[trigger] s.items[i]).candidate_id,
                    ) == Some(k) ==> ranks_ahead_of(r, s.items[i], c)),
            }
        } by {
        lemma_admitted_has_row(r, n, c);
        let x = choose|x: int| 0 <= x < rows.len() && (#[trigger] rows[x]).index == c;
        let row = rows[x];
        assert(row_of(r, c) == Some(row));
        assert(rows.contains(row));
        assert(rows.to_multiset().count(row) > 0);
        assert(order.contains(row));
        let j = choose|j: int| 0 <= j < order.len() && order[j] == row;
        assert(row.cluster == cluster_key_of(analysis_of(r, r.candidates@[c].id@)));
        if picked.contains(row) {
            let p = choose|p: int| 0 <= p < picked.len() && picked[p] == row;
            assert(s.items[p].candidate_id == picked[p].id);
        } else if let Some(k) = row.cluster {
            assert(cluster_members(picked, k) == mp);
            assert forall|i: int|
                0 <= i < s.items.len() && cluster_of_candidate(
                    r,
                    (#[trigger] s.items[i]).candidate_id,
                ) == Some(k) implies ranks_ahead_of(r, s.items[i], c) by {
                lemma_picked_row_keys(r, order, i);
                assert(s.items[i] == item_of(picked[i], (i + 1) as nat));
                assert(picked[i].cluster == order[j].cluster);
                let q = choose|q: int| 0 <= q < j && order[q] == picked[i];
                assert(!ranks_before(order[j], order[q]));
                assert(order[q].id != order[j].id);
                lemma_text_less_total(order[q].id, order[j].id);
            }
        }
    }
}

/// The number of candidates among the first `n` that the lens admits.
pub open spec fn admitted_count(r: RankRequest, n: nat) -> nat
    decreases n,
{
    if n == 0 {
        0
    } else {
        admitted_count(r, (n - 1) as nat) + if admits(
            r.lens,
            r.candidates@[n - 1].source.source_type@,
        ) {
            1nat
        } else {
            0nat
        }
    }
}

proof fn lemma_rows_count(r: RankRequest, n: nat)
    requires
        n <= r.candidates@.len(),
        scored_rows(r, n) is Some,
    ensures
        scored_rows(r, n)->0.len() == admitted_count(r, n),
    decreases n,
{
    if n > 0 {
        lemma_rows_count(r, (n - 1) as nat);
    }
}

proof fn lemma_select_traversed(order: Seq<RowView>, n: nat, max_items: nat, max_per_cluster: nat)
    ensures
        select(order, n, max_items, max_per_cluster).picked.len() + select(
            order,
            n,
            max_items,
            max_per_cluster,
        ).suppressed <= n,
    decreases n,
{
    if n > 0 {
        lemma_select_traversed(order, (n - 1) as nat, max_items, max_per_cluster);
    }
}

/// Only admitted candidates are traversed: the items and the candidates
/// suppressed by the cluster limit together number at most the candidates
/// the lens admits.
pub proof fn lemma_slate_traversal(r: RankRequest, s: SlateView)
    requires
        rank_outcome(r, Ok::<SlateView, ErrorView>(s)),
    ensures
        s.items.len() + s.suppressed_by_cluster_limit <= admitted_count(r, r.candidates@.len()),
{
    broadcast use vstd::seq_lib::to_multiset_len;

    let order = lemma_slate_order(r, s);
    let rows = scored_rows(r, r.candidates@.len())->0;
    lemma_rows_count(r, r.candidates@.len());
    assert(order.len() == order.to_multiset().len());
    assert(rows.len() == rows.to_multiset().len());
    lemma_select_traversed(
        order,
        order.len(),
        r.lens.policy.max_items as nat,
        r.lens.policy.max_per_cluster as nat,
    );
}

/// A position of a candidate with the id `id`.
pub open spec fn candidate_index(r: RankRequest, id: Seq<char>) -> int {
    choose|c: int| 0 <= c < r.candidates@.len() && r.candidates@[c].id@ == id
}

/// The source type of the candidate with the id `id`.
pub open spec fn type_of_candidate(r: RankRequest, id: Seq<char>) -> Seq<char> {
    r.candidates@[candidate_index(r, id)].source.source_type@
}

/// The cluster key of the candidate with the id `id`, from its analysis
/// record.
pub open spec fn cluster_of_candidate(r: RankRequest, id: Seq<char>) -> Option<Seq<char>> {
    cluster_key_of(analysis_of(r, id))
}

/// The number of items whose candidate has the source type `t`.
pub open spec fn items_of_type(r: RankRequest, items: Seq<ItemView>, t: Seq<char>) -> nat
    decreases items.len(),
{
    if items.len() == 0 {
        0
    } else {
        items_of_type(r, items.drop_last(), t) + if type_of_candidate(r, items.last().candidate_id)
            == t {
            1nat
        } else {
            0nat
        }
    }
}

/// The number of items whose candidate is in the cluster `k`.
pub open spec fn items_in_cluster(r: RankRequest, items: Seq<ItemView>, k: Seq<char>) -> nat
    decreases items.len(),
{
    if items.len() == 0 {
        0
    } else {
        items_in_cluster(r, items.drop_last(), k) + if cluster_of_candidate(
            r,
            items.last().candidate_id,
        ) == Some(k) {
            1nat
        } else {
            0nat
        }
    }
}

/// The number of items whose candidate has no cluster.
pub open spec fn items_unclustered(r: RankRequest, items: Seq<ItemView>) -> nat
    decreases items.len(),
{
    if items.len() == 0 {
        0
    } else {
        items_unclustered(r, items.drop_last()) + if cluster_of_candidate(
            r,
            items.last().candidate_id,
        ) is None {
            1nat
        } else {
            0nat
        }
    }
}

/// Whether each item is the row beside it, whose source type and cluster
/// are those of its candidate.
spec fn items_match_rows(r: RankRequest, items: Seq<ItemView>, rows: Seq<RowView>) -> bool {
    &&& items.len() == rows.len()
    &&& forall|i: int|
        0 <= i < rows.len() ==> {
            &&& (#[trigger] items[i]).candidate_id == rows[i].id
            &&& rows[i].source_type == type_of_candidate(r, rows[i].id)
            &&& rows[i].cluster == cluster_of_candidate(r, rows[i].id)
        }
}

proof fn lemma_item_counts(r: RankRequest, items: Seq<ItemView>, rows: Seq<RowView>)
    requires
        items_match_rows(r, items, rows),
    ensures
        forall|t: Seq<char>| #[trigger] items_of_type(r, items, t) == type_members(rows, t),
        forall|k: Seq<char>| #[trigger] items_in_cluster(r, items, k) == cluster_members(rows, k),
        items_unclustered(r, items) == unclustered(rows),
    decreases rows.len(),
{
    if rows.len() > 0 {
        let di = items.drop_last();
        let dr = rows.drop_last();
        assert forall|i: int| 0 <= i < dr.len() implies {
            &&& (#[trigger] di[i]).candidate_id == dr[i].id
            &&& dr[i].source_type == type_of_candidate(r, dr[i].id)
            &&& dr[i].cluster == cluster_of_candidate(r, dr[i].id)
        } by {
            assert(di[i] == items[i] && dr[i] == rows[i]);
        }
        lemma_item_counts(r, di, dr);
        let last = rows.len() - 1;
        assert(items[last].candidate_id == rows[last].id);
        assert forall|t: Seq<char>| #[trigger] items_of_type(r, items, t) == type_members(rows, t) by {
            assert(items_of_type(r, di, t) == type_members(dr, t));
        }
        assert forall|k: Seq<char>| #[trigger] items_in_cluster(r, items, k) == cluster_members(
            rows,
            k,
        ) by {
            assert(items_in_cluster(r, di, k) == cluster_members(dr, k));
        }
    }
}

/// A picked row carries its candidate's source type and cluster key.
proof fn lemma_picked_row_keys(r: RankRequest, order: Seq<RowView>, i: int)
    requires
        request_check(r) is Ok,
        scored_rows(r, r.candidates@.len()) is Some,
        is_ranking_order(scored_rows(r, r.candidates@.len())->0, order),
        distinct_ids(order),
        0 <= i < select(
            order,
            order.len(),
            r.lens.policy.max_items as nat,
            r.lens.policy.max_per_cluster as nat,
        ).picked.len(),
    ensures
        ({
            let row = select(
                order,
                order.len(),
                r.lens.policy.max_items as nat,
                r.lens.policy.max_per_cluster as nat,
            ).picked[i];
            &&& row.source_type == type_of_candidate(r, row.id)
            &&& row.cluster == cluster_of_candidate(r, row.id)
        }),
{
    lemma_valid_request(r);
    lemma_picked_rows(r, order, i);
    let row = select(
        order,
        order.len(),
        r.lens.policy.max_items as nat,
        r.lens.policy.max_per_cluster as nat,
    ).picked[i];
    assert(0 <= row.index < r.candidates@.len() && r.candidates@[row.index].id@ == row.id);
    assert(row.cluster == cluster_key_of(analysis_of(r, r.candidates@[row.index].id@)));
    assert(row.source_type == r.candidates@[row.index].source.source_type@);
    let c = candidate_index(r, row.id);
    assert(0 <= c < r.candidates@.len() && r.candidates@[c].id@ == row.id);
    if c != row.index {
        let lo = if c < row.index { c } else { row.index };
        let hi = if c < row.index { row.index } else { c };
        assert(candidate_ids(r)[lo] == candidate_ids(r)[hi]);
        assert(repeats_earlier(candidate_ids(r), hi));
    }
}

/// Coverage counts the items by their candidates' source types, and
/// diversity counts them by their candidates' cluster keys and as
/// unclustered.
pub proof fn lemma_slate_counts_items(r: RankRequest, s: SlateView)
    requires
        rank_outcome(r, Ok::<SlateView, ErrorView>(s)),
    ensures
        forall|t: Seq<char>| listed_count(s.by_source_type, t) == items_of_type(r, s.items, t),
        forall|k: Seq<char>| listed_count(s.clusters_selected, k) == items_in_cluster(r, s.items, k),
        s.unclustered_selected == items_unclustered(r, s.items),
{
    let order = lemma_slate_order(r, s);
    let mi = r.lens.policy.max_items as nat;
    let mp = r.lens.policy.max_per_cluster as nat;
    let picked = select(order, order.len(), mi, mp).picked;
    assert forall|i: int| 0 <= i < picked.len() implies {
        &&& (#[trigger] s.items[i]).candidate_id == picked[i].id
        &&& picked[i].source_type == type_of_candidate(r, picked[i].id)
        &&& picked[i].cluster == cluster_of_candidate(r, picked[i].id)
    } by {
        lemma_picked_row_keys(r, order, i);
        assert(s.items[i] == item_of(picked[i], (i + 1) as nat));
    }
    lemma_item_counts(r, s.items, picked);
}


/// Whether the lens lists the weight `w` under the signal name `name`.
pub open spec fn lens_weighs(weights: Seq<(String, Fixed6)>, name: Seq<char>, w: i64) -> bool {
    exists|k: int| 0 <= k < weights.len() && weights[k].0@ == name && weights[k].1@ == w
}

/// Whether the rounded product of `value` and `w` exists and is not zero.
pub open spec fn nonzero_product(value: i64, w: i64) -> bool {
    match spec_mul(value, w) {
        Some(c) => c != 0,
        None => false,
    }
}

/// Whether signal `g` contributes under the lens: the lens weighs its name,
/// and the rounded product of its value and that weight is not zero.
pub open spec fn contributes(weights: Seq<(String, Fixed6)>, g: Signal) -> bool {
    exists|w: i64|
        #![trigger lens_weighs(weights, g.name@, w)]
        lens_weighs(weights, g.name@, w) && nonzero_product(g.value@, w)
}

/// Whether `reason` explains signal `g`: it copies the signal's name, value
/// and evidence references, carries the lens weight of that name, and its
/// contribution is the nonzero rounded product of value and weight.
pub open spec fn reason_for(weights: Seq<(String, Fixed6)>, g: Signal, reason: ReasonView) -> bool {
    &&& reason.signal == g.name@
    &&& reason.value == g.value@
    &&& lens_weighs(weights, g.name@, reason.weight)
    &&& spec_mul(g.value@, reason.weight) == Some(reason.contribution)
    &&& reason.contribution != 0
    &&& reason.evidence_refs == texts(g.evidence_refs@)
}

/// Whether `idx` lays `reasons` against `signals`: one reason for each
/// contributing signal, in signal order, and no other.
pub open spec fn explained_by(
    weights: Seq<(String, Fixed6)>,
    signals: Seq<Signal>,
    reasons: Seq<ReasonView>,
    idx: Seq<int>,
) -> bool {
    &&& idx.len() == reasons.len()
    &&& forall|j: int| 0 <= j < idx.len() ==> 0 <= #[trigger] idx[j] < signals.len()
    &&& forall|i: int, j: int| 0 <= i < j < idx.len() ==> #[trigger] idx[i] < #[trigger] idx[j]
    &&& forall|j: int|
        0 <= j < idx.len() ==> reason_for(weights, signals[#[trigger] idx[j]], reasons[j])
    &&& forall|k: int|
        0 <= k < signals.len() && contributes(weights, #[trigger] signals[k]) ==> exists|j: int|
            0 <= j < idx.len() && idx[j] == k
}

/// Whether no name is listed twice among the weights.
pub open spec fn names_distinct(weights: Seq<(String, Fixed6)>) -> bool {
    forall|i: int, j: int| 0 <= i < j < weights.len() ==> weights[i].0@ != weights[j].0@
}

proof fn lemma_weight_lookup(weights: Seq<(String, Fixed6)>, name: Seq<char>)
    requires
        names_distinct(weights),
    ensures
        match weight_of(weights, name) {
            Some(w) => lens_weighs(weights, name, w) && forall|v: i64|
                lens_weighs(weights, name, v) ==> v == w,
            None => forall|v: i64| !lens_weighs(weights, name, v),
        },
{
    if exists|k: int| 0 <= k < weights.len() && weights[k].0@ == name {
        let k0 = choose|k: int| 0 <= k < weights.len() && weights[k].0@ == name;
        assert(exists|k: int| crate::rank::is_first_weight(weights, name, k)) by {
            lemma_first_weight_exists(weights, name, k0);
        }
        let f = choose|k: int| crate::rank::is_first_weight(weights, name, k);
        assert forall|v: i64| lens_weighs(weights, name, v) implies v == weights[f].1@ by {
            let k = choose|k: int| 0 <= k < weights.len() && weights[k].0@ == name && weights[k].1@ == v;
            if k < f {
            } else if f < k {
            }
        }
    }
}

proof fn lemma_first_weight_exists(weights: Seq<(String, Fixed6)>, name: Seq<char>, k: int)
    requires
        0 <= k < weights.len(),
        weights[k].0@ == name,
    ensures
        exists|f: int| crate::rank::is_first_weight(weights, name, f),
    decreases k,
{
    if exists|j: int| 0 <= j < k && weights[j].0@ == name {
        let j = choose|j: int| 0 <= j < k && weights[j].0@ == name;
        lemma_first_weight_exists(weights, name, j);
    } else {
        assert(crate::rank::is_first_weight(weights, name, k));
    }
}

/// The reasons of the first `n` signals are explained by them.
proof fn lemma_reasons_explained(weights: Seq<(String, Fixed6)>, signals: Seq<Signal>, n: nat) -> (idx: Seq<int>)
    requires
        names_distinct(weights),
        n <= signals.len(),
        score_signals(weights, signals, n) is Some,
    ensures
        match score_signals(weights, signals, n) {
            Some((_, reasons)) => explained_by(weights, signals.take(n as int), reasons, idx),
            None => false,
        },
    decreases n,
{
    if n == 0 {
        Seq::empty()
    } else {
        let m = (n - 1) as nat;
        let prev = lemma_reasons_explained(weights, signals, m);
        let g = signals[m as int];
        lemma_weight_lookup(weights, g.name@);
        let before = signals.take(m as int);
        let after = signals.take(n as int);
        assert(forall|k: int| 0 <= k < m ==> after[k] == before[k]);
        assert(after[m as int] == g);
        match (score_signals(weights, signals, m), score_signals(weights, signals, n)) {
            (Some((_, r0)), Some((_, r1))) => {
                if r1.len() != r0.len() {
                    let idx = prev.push(m as int);
                    assert(r1.drop_last() =~= r0);
                    assert forall|j: int| 0 <= j < idx.len() implies reason_for(
                        weights,
                        after[#[trigger] idx[j]],
                        r1[j],
                    ) by {
                        if j < prev.len() {
                            assert(r1[j] == r0[j]);
                            assert(idx[j] == prev[j]);
                        }
                    }
                    assert forall|k: int|
                        0 <= k < after.len() && contributes(weights, #[trigger] after[k]) implies exists|j: int|
                        0 <= j < idx.len() && idx[j] == k by {
                        if k < m {
                            assert(contributes(weights, before[k]));
                            let j = choose|j: int| 0 <= j < prev.len() && prev[j] == k;
                            assert(idx[j] == k);
                        } else {
                            assert(idx[idx.len() - 1] == k);
                        }
                    }
                    idx
                } else {
                    assert(r1 == r0);
                    assert forall|k: int|
                        0 <= k < after.len() && contributes(weights, #[trigger] after[k]) implies exists|j: int|
                        0 <= j < prev.len() && prev[j] == k by {
                        if k < m {
                            assert(contributes(weights, before[k]));
                        } else {
                            let w = choose|w: i64|
                                #![trigger lens_weighs(weights, g.name@, w)]
                                lens_weighs(weights, g.name@, w) && nonzero_product(g.value@, w);
                            assert(lens_weighs(weights, g.name@, w));
                        }
                    }
                    prev
                }
            },
            _ => {
                prev
            },
        }
    }
}

/// Whether `item` is candidate `c`, analyzed by record `a`, with reasons
/// laid by `idx` against the candidate's and then the record's signals and
/// a score that sums their contributions.
pub open spec fn item_explained_at(r: RankRequest, item: ItemView, c: int, a: int, idx: Seq<int>) -> bool {
    &&& 0 <= c < r.candidates@.len()
    &&& 0 <= a < r.analysis@.len()
    &&& r.candidates@[c].id@ == item.candidate_id
    &&& r.analysis@[a].candidate_id@ == item.candidate_id
    &&& explained_by(
        r.lens.weights@,
        r.candidates@[c].signals@ + r.analysis@[a].signals@,
        item.reasons,
        idx,
    )
    &&& item.score == contribution_total(item.reasons)
}

/// Whether `item` is explained by some candidate, record and layout.
pub open spec fn item_explained(r: RankRequest, item: ItemView) -> bool {
    exists|c: int, a: int, idx: Seq<int>| #[trigger] item_explained_at(r, item, c, a, idx)
}

/// Every slate item explains its score: its reasons correspond, in order,
/// one to one to the signals of its candidate and then of the candidate's
/// analysis record that the lens weighs with a nonzero rounded product,
/// whatever their sign; each reason copies its signal's name, value and
/// evidence references and carries the lens weight and that product; and
/// the score is the sum of the contributions.
pub proof fn lemma_slate_reasons(r: RankRequest, s: SlateView)
    requires
        rank_outcome(r, Ok::<SlateView, ErrorView>(s)),
    ensures
        forall|i: int| 0 <= i < s.items.len() ==> item_explained(r, #[trigger] s.items[i]),
{
    let order = lemma_slate_order(r, s);
    let mi = r.lens.policy.max_items as nat;
    let mp = r.lens.policy.max_per_cluster as nat;
    let picked = select(order, order.len(), mi, mp).picked;
    crate::validation::lemma_valid_weights(r);
    assert forall|i: int, j: int| 0 <= i < j < r.lens.weights@.len() implies r.lens.weights@[i].0@
        != r.lens.weights@[j].0@ by {
        assert(text_less(r.lens.weights@[i].0@, r.lens.weights@[j].0@));
        lemma_text_less_asymmetric(r.lens.weights@[i].0@, r.lens.weights@[i].0@);
    }
    lemma_valid_request(r);
    assert forall|i: int| 0 <= i < s.items.len() implies item_explained(r, #[trigger] s.items[i]) by {
        lemma_picked_rows(r, order, i);
        let row = picked[i];
        let c = row.index;
        let cand = r.candidates@[c];
        assert(crate::validation::analyzed_candidate_ids(r).contains(cand.id@));
        let a = choose|a: int|
            0 <= a < crate::validation::analyzed_candidate_ids(r).len()
                && crate::validation::analyzed_candidate_ids(r)[a] == cand.id@;
        assert(r.analysis@[a].candidate_id@ == cand.id@);
        assert(analysis_of(r, cand.id@) == r.analysis@[a]) by {
            let b = choose|b: int| 0 <= b < r.analysis@.len() && r.analysis@[b].candidate_id@ == cand.id@;
            if a != b {
                let lo = if a < b { a } else { b };
                let hi = if a < b { b } else { a };
                assert(crate::validation::analyzed_candidate_ids(r)[lo]
                    == crate::validation::analyzed_candidate_ids(r)[hi]);
                assert(repeats_earlier(crate::validation::analyzed_candidate_ids(r), hi));
            }
        }
        let signals = cand.signals@ + r.analysis@[a].signals@;
        assert(score_signals(r.lens.weights@, signals, signals.len()) == Some((row.score, row.reasons)));
        lemma_score_is_total(r.lens.weights@, signals, signals.len());
        let idx = lemma_reasons_explained(r.lens.weights@, signals, signals.len());
        assert(signals.take(signals.len() as int) =~= signals);
        assert(s.items[i] == item_of(row, (i + 1) as nat));
        assert(item_explained_at(r, s.items[i], c, a, idx));
    }
}

/// Whether the lens lets candidates of source type `t` in: it lists no
/// allowed source types, or lists `t` at some position.
pub open spec fn type_listed(lens: crate::contract::LensProfile, t: Seq<char>) -> bool {
    match lens.allowed_source_types {
        None => true,
        Some(types) => exists|p: int| 0 <= p < types@.len() && types@[p]@ == t,
    }
}

proof fn lemma_admits_listed(lens: crate::contract::LensProfile, t: Seq<char>)
    ensures
        admits(lens, t) == type_listed(lens, t),
{
    if let Some(types) = lens.allowed_source_types {
        if type_listed(lens, t) {
            let p = choose|p: int| 0 <= p < types@.len() && types@[p]@ == t;
            assert(texts(types@)[p] == t);
        }
        if admits(lens, t) {
            let p = choose|p: int| 0 <= p < texts(types@).len() && texts(types@)[p] == t;
            assert(types@[p]@ == t);
        }
    }
}

/// The lens filters by source type, with every listed type counting: each
/// slate item's candidate has a listed type, and while the slate has room
/// it holds every candidate of a listed type that has no cluster.
pub proof fn lemma_slate_eligibility(r: RankRequest, s: SlateView)
    requires
        rank_outcome(r, Ok::<SlateView, ErrorView>(s)),
    ensures
        forall|i: int|
            0 <= i < s.items.len() ==> exists|c: int|
                0 <= c < r.candidates@.len() && r.candidates@[c].id@ == (#[trigger] s.items[i]).candidate_id
                    && type_listed(r.lens, r.candidates@[c].source.source_type@),
        s.items.len() < r.lens.policy.max_items ==> forall|c: int|
            0 <= c < r.candidates@.len() && type_listed(
                r.lens,
                (#[trigger] r.candidates@[c]).source.source_type@,
            ) && cluster_key_of(analysis_of(r, r.candidates@[c].id@)) is None ==> exists|i: int|
                0 <= i < s.items.len() && s.items[i].candidate_id == r.candidates@[c].id@,
{
    lemma_slate_items_scored(r, s);
    assert forall|i: int| 0 <= i < s.items.len() implies exists|c: int|
        0 <= c < r.candidates@.len() && r.candidates@[c].id@ == (#[trigger] s.items[i]).candidate_id
            && type_listed(r.lens, r.candidates@[c].source.source_type@) by {
        assert(item_from_candidate(r, s.items[i]));
        let c = choose|c: int|
            #![trigger candidate_scoring(r, c)]
            0 <= c < r.candidates@.len() && r.candidates@[c].id@ == s.items[i].candidate_id && admits(
                r.lens,
                r.candidates@[c].source.source_type@,
            ) && candidate_scoring(r, c) == Some((s.items[i].score, s.items[i].reasons));
        lemma_admits_listed(r.lens, r.candidates@[c].source.source_type@);
    }
    if s.items.len() < r.lens.policy.max_items {
        lemma_slate_complete(r, s);
        assert forall|c: int|
            0 <= c < r.candidates@.len() && type_listed(
                r.lens,
                (#[trigger] r.candidates@[c]).source.source_type@,
            ) && cluster_key_of(analysis_of(r, r.candidates@[c].id@)) is None implies exists|i: int|
            0 <= i < s.items.len() && s.items[i].candidate_id == r.candidates@[c].id@ by {
            lemma_admits_listed(r.lens, r.candidates@[c].source.source_type@);
        }
    }
}


/// The cluster key of an analysis record is its assignment's namespace, a
/// colon, and its assignment's id; a record without an assignment has none.
pub proof fn lemma_cluster_key_form(a: crate::contract::AnalysisRecord)
    ensures
        cluster_key_of(a) == match a.cluster_assignment {
            Some(ca) => Some(ca.namespace@ + seq![':'] + ca.id@),
            None => None::<Seq<char>>,
        },
{
    reveal_strlit(":");
    assert(":"@ =~= seq![':']);
}


proof fn lemma_select_all_traversed(order: Seq<RowView>, n: nat, max_items: nat, max_per_cluster: nat)
    ensures
        select(order, n, max_items, max_per_cluster).picked.len() < max_items ==> select(
            order,
            n,
            max_items,
            max_per_cluster,
        ).picked.len() + select(order, n, max_items, max_per_cluster).suppressed == n,
    decreases n,
{
    if n > 0 {
        lemma_select_all_traversed(order, (n - 1) as nat, max_items, max_per_cluster);
    }
}

/// While a slate has room, every admitted candidate was traversed: each one
/// is either an item or counted as suppressed by the cluster limit.
pub proof fn lemma_slate_suppressed_when_open(r: RankRequest, s: SlateView)
    requires
        rank_outcome(r, Ok::<SlateView, ErrorView>(s)),
        s.items.len() < r.lens.policy.max_items,
    ensures
        s.items.len() + s.suppressed_by_cluster_limit == admitted_count(r, r.candidates@.len()),
{
    broadcast use vstd::seq_lib::to_multiset_len;

    let order = lemma_slate_order(r, s);
    let rows = scored_rows(r, r.candidates@.len())->0;
    lemma_rows_count(r, r.candidates@.len());
    assert(order.len() == order.to_multiset().len());
    assert(rows.len() == rows.to_multiset().len());
    lemma_select_all_traversed(
        order,
        order.len(),
        r.lens.policy.max_items as nat,
        r.lens.policy.max_per_cluster as nat,
    );
}

} // verus!
