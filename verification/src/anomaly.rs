//! Selection of the records that stand out, by score.
//!
//! Scores and coverages are unsigned integers that are compared as such; a
//! caller that measures in another scale maps its values to integers in a
//! way that keeps their order.

use crate::ranking::{
    ascending, identity_order, in_range, lemma_ranked_distinct, lemma_ranked_unique, ranked,
    ranks_before, sort_by_rank,
};
use crate::scorer::RecordAnalysis;
use vstd::prelude::*;

verus! {

/// How many records `Top` keeps when no number is given.
pub const DEFAULT_TOP_N: usize = 10;

/// `Percentile` keeps one record in this many when no number is given: five
/// in a hundred.
pub const DEFAULT_SHARE: usize = 20;

/// The ways to select the records that stand out.
#[derive(Debug, Clone, Copy, PartialEq, Eq, Structural)]
pub enum DetectionMethod {
    /// Flag records whose score is at least the threshold.
    Score,
    /// Flag records whose coverage is at most the threshold.
    Coverage,
    /// Flag a share of the records, the highest scores first; at least one.
    Percentile,
    /// Flag a number of records, the highest scores first.
    Top,
}

/// Record `i` comes before record `j`: the higher score first, and the
/// earlier record first among equal scores.
pub open spec fn outranks(scores: Seq<u64>, i: int, j: int) -> bool {
    scores[i] > scores[j] || (scores[i] == scores[j] && i < j)
}

/// The indices are in order of score, highest first, equal scores in order
/// of index.
pub open spec fn by_score(scores: Seq<u64>, idx: Seq<usize>) -> bool {
    forall|a: int, b: int|
        0 <= a < b < idx.len() ==> outranks(scores, #[trigger] idx[a] as int, #[trigger] idx[b] as int)
}

/// Order by score is ranking with the score as both keys.
proof fn lemma_by_score_ranked(scores: Seq<u64>, idx: Seq<usize>)
    ensures
        by_score(scores, idx) <==> ranked(scores, scores, idx),
{
    if by_score(scores, idx) {
        assert forall|a: int, b: int| 0 <= a < b < idx.len() implies ranks_before(
            scores,
            scores,
            #[trigger] idx[a] as int,
            #[trigger] idx[b] as int,
        ) by {
            assert(outranks(scores, idx[a] as int, idx[b] as int));
        }
    }
    if ranked(scores, scores, idx) {
        assert forall|a: int, b: int| 0 <= a < b < idx.len() implies outranks(
            scores,
            #[trigger] idx[a] as int,
            #[trigger] idx[b] as int,
        ) by {
            assert(ranks_before(scores, scores, idx[a] as int, idx[b] as int));
        }
    }
}

/// All records in order of score, highest first.
pub fn rank_by_score(scores: &[u64]) -> (idx: Vec<usize>)
    ensures
        idx@.len() == scores@.len(),
        by_score(scores@, idx@),
        in_range(idx@, scores@.len() as int),
        forall|i: usize| i < scores@.len() ==> idx@.contains(i),
{
    let all = identity_order(scores.len());
    let idx = sort_by_rank(&all, scores, scores);
    proof {
        lemma_by_score_ranked(scores@, idx@);
        assert forall|i: usize| i < scores@.len() implies idx@.contains(i) by {
            assert(all@[i as int] == i);
            assert(all@.contains(i));
        }
    }
    idx
}

/// The `count` records with the highest scores, or all if there are fewer.
pub fn top_indices(scores: &[u64], count: usize) -> (idx: Vec<usize>)
    ensures
        is_top(scores@, count as int, idx@),
{
    let mut idx = rank_by_score(scores);
    let ghost all = idx@;
    if count < idx.len() {
        idx.truncate(count);
    }
    proof {
        assert forall|a: int, b: int| 0 <= a < b < idx@.len() implies outranks(
            scores@,
            #[trigger] idx@[a] as int,
            #[trigger] idx@[b] as int,
        ) by {
            assert(idx@[a] == all[a] && idx@[b] == all[b]);
        }
        assert forall|i: usize, j: usize|
            idx@.contains(i) && j < scores@.len() && !idx@.contains(j) implies outranks(
            scores@,
            i as int,
            j as int,
        ) by {
            let a = choose|a: int| 0 <= a < idx@.len() && idx@[a] == i;
            assert(all.contains(j));
            let b = choose|b: int| 0 <= b < all.len() && all[b] == j;
            if b < idx@.len() {
                assert(idx@[b] == j);
            }
            assert(all[a] == i);
        }
    }
    idx
}

/// `idx` holds the `count` highest-scoring records (all, if there are fewer),
/// in order of score.
pub open spec fn is_top(scores: Seq<u64>, count: int, idx: Seq<usize>) -> bool {
    &&& by_score(scores, idx)
    &&& in_range(idx, scores.len() as int)
    &&& idx.len() == if count <= scores.len() {
        count
    } else {
        scores.len() as int
    }
    &&& forall|i: usize, j: usize|
        idx.contains(i) && j < scores.len() && !idx.contains(j) ==> outranks(
            scores,
            i as int,
            j as int,
        )
}

/// `idx` holds the records whose value is on the chosen side of the
/// threshold (at least it, or at most it), in order of score.
pub open spec fn is_selection(
    scores: Seq<u64>,
    values: Seq<u64>,
    threshold: u64,
    at_least: bool,
    idx: Seq<usize>,
) -> bool {
    &&& by_score(scores, idx)
    &&& in_range(idx, scores.len() as int)
    &&& forall|i: usize|
        idx.contains(i) <==> i < values.len() && passes(values[i as int], threshold, at_least)
}

/// The value is at least the threshold, or at most it.
pub open spec fn passes(value: u64, threshold: u64, at_least: bool) -> bool {
    if at_least {
        value >= threshold
    } else {
        value <= threshold
    }
}

/// The records whose value passes the threshold, in order of score.
pub fn select_by_threshold(scores: &[u64], values: &[u64], threshold: u64, at_least: bool) -> (idx:
    Vec<usize>)
    requires
        values@.len() == scores@.len(),
    ensures
        is_selection(scores@, values@, threshold, at_least, idx@),
{
    let n: usize = values.len();
    let mut picked: Vec<usize> = Vec::new();
    let mut i: usize = 0;
    while i < n
        invariant
            n == values@.len(),
            i <= n,
            in_range(picked@, i as int),
            ascending(picked@),
            forall|k: usize|
                picked@.contains(k) <==> k < i && passes(values@[k as int], threshold, at_least),
        decreases n - i,
    {
        let v: u64 = values[i];
        let keep: bool = if at_least {
            v >= threshold
        } else {
            v <= threshold
        };
        let ghost before = picked@;
        if keep {
            picked.push(i);
        }
        proof {
            assert forall|k: usize|
                picked@.contains(k) <==> k < i + 1 && passes(
                    values@[k as int],
                    threshold,
                    at_least,
                ) by {
                if before.contains(k) {
                    let w = choose|w: int| 0 <= w < before.len() && before[w] == k;
                    assert(picked@[w] == k);
                }
                if picked@.contains(k) {
                    let w = choose|w: int| 0 <= w < picked@.len() && picked@[w] == k;
                    if w < before.len() {
                        assert(before[w] == k);
                        assert(before.contains(k));
                    }
                }
                if keep && k == i {
                    assert(picked@[before.len() as int] == i);
                }
            }
        }
        i += 1;
    }
    let idx = sort_by_rank(&picked, scores, scores);
    proof {
        lemma_by_score_ranked(scores@, idx@);
    }
    idx
}

/// The values that the `Coverage` method compares: the coverages, or the
/// scores where none are given.
pub open spec fn values_or(coverages: Option<Seq<u64>>, scores: Seq<u64>) -> Seq<u64> {
    match coverages {
        Some(c) => c,
        None => scores,
    }
}

/// How many of `n` records `Top` and `Percentile` keep: the number given.
/// Where none is given, `Top` keeps `DEFAULT_TOP_N` and `Percentile` one in
/// `DEFAULT_SHARE`, rounded up; `Percentile` keeps at least one.
pub open spec fn keep_count(method: DetectionMethod, top_n: Option<usize>, n: nat) -> int {
    match method {
        DetectionMethod::Percentile => {
            let k = match top_n {
                Some(k) => k as int,
                None => (n + DEFAULT_SHARE - 1) / (DEFAULT_SHARE as int),
            };
            if k == 0 {
                1
            } else {
                k
            }
        },
        _ => match top_n {
            Some(k) => k as int,
            None => DEFAULT_TOP_N as int,
        },
    }
}

/// `idx` is what the method selects, in order of score.
pub open spec fn is_detection(
    scores: Seq<u64>,
    coverages: Option<Seq<u64>>,
    method: DetectionMethod,
    threshold: u64,
    top_n: Option<usize>,
    idx: Seq<usize>,
) -> bool {
    match method {
        DetectionMethod::Score => is_selection(scores, scores, threshold, true, idx),
        DetectionMethod::Coverage => is_selection(
            scores,
            values_or(coverages, scores),
            threshold,
            false,
            idx,
        ),
        DetectionMethod::Percentile => is_top(scores, keep_count(method, top_n, scores.len()), idx),
        DetectionMethod::Top => is_top(scores, keep_count(method, top_n, scores.len()), idx),
    }
}

/// The coverages as a sequence.
pub open spec fn coverage_view(coverages: Option<&[u64]>) -> Option<Seq<u64>> {
    match coverages {
        Some(c) => Some(c@),
        None => None,
    }
}

/// Select the indices of the records that stand out, in order of score,
/// highest first.
///
/// `Score` selects the records whose score is at least `threshold`,
/// `Coverage` those whose coverage (their score, where no coverages are
/// given) is at most `threshold`. `Top` and `Percentile` select the `top_n`
/// highest scores; where `top_n` is not given, `Top` selects ten and
/// `Percentile` five in a hundred, rounded up. `Percentile` selects at least
/// one.
pub fn detect_indices(
    scores: &[u64],
    coverages: Option<&[u64]>,
    method: DetectionMethod,
    threshold: u64,
    top_n: Option<usize>,
) -> (idx: Vec<usize>)
    requires
        method == DetectionMethod::Coverage ==> values_or(coverage_view(coverages), scores@).len()
            == scores@.len(),
    ensures
        is_detection(scores@, coverage_view(coverages), method, threshold, top_n, idx@),
{
    match method {
        DetectionMethod::Score => select_by_threshold(scores, scores, threshold, true),
        DetectionMethod::Coverage => {
            match coverages {
                Some(c) => select_by_threshold(scores, c, threshold, false),
                None => select_by_threshold(scores, scores, threshold, false),
            }
        },
        DetectionMethod::Percentile => {
            let n: usize = scores.len();
            let given: usize = match top_n {
                Some(k) => k,
                None => n / DEFAULT_SHARE + if n % DEFAULT_SHARE != 0 {
                    1
                } else {
                    0
                },
            };
            let count: usize = if given == 0 {
                1
            } else {
                given
            };
            top_indices(scores, count)
        },
        DetectionMethod::Top => {
            let given: usize = match top_n {
                Some(k) => k,
                None => DEFAULT_TOP_N,
            };
            top_indices(scores, given)
        },
    }
}

/// What a detection run found, with the sizes of what it ran on.
#[derive(Debug, Clone)]
pub struct AnomalyReport {
    pub total_records: usize,
    pub total_bytes: usize,
    pub dict_entry_count: usize,
    pub anomaly_count: usize,
    /// Indices into the records, sorted by score descending.
    pub anomaly_indices: Vec<usize>,
}

/// The sum of the lengths of the records.
pub open spec fn total_bytes(records: Seq<RecordAnalysis>) -> int
    decreases records.len(),
{
    if records.len() == 0 {
        0
    } else {
        total_bytes(records.drop_last()) + records.last().length
    }
}

/// Detect the records that stand out and report them with the totals.
///
/// `scores` and `coverages` hold one value for each record.
pub fn detect_anomalies(
    records: &[RecordAnalysis],
    scores: &[u64],
    coverages: &[u64],
    dict_entry_count: usize,
    method: DetectionMethod,
    threshold: u64,
    top_n: Option<usize>,
) -> (report: AnomalyReport)
    requires
        scores@.len() == records@.len(),
        coverages@.len() == records@.len(),
        total_bytes(records@) <= usize::MAX,
    ensures
        report.total_records == records@.len(),
        report.total_bytes == total_bytes(records@),
        report.dict_entry_count == dict_entry_count,
        report.anomaly_count == report.anomaly_indices@.len(),
        is_detection(
            scores@,
            Some(coverages@),
            method,
            threshold,
            top_n,
            report.anomaly_indices@,
        ),
{
    let n: usize = records.len();
    let mut total: usize = 0;
    let mut i: usize = 0;
    while i < n
        invariant
            n == records@.len(),
            i <= n,
            total == total_bytes(records@.subrange(0, i as int)),
            total_bytes(records@) <= usize::MAX,
        decreases n - i,
    {
        proof {
            let next = records@.subrange(0, i + 1);
            assert(next.drop_last() =~= records@.subrange(0, i as int));
            assert(next.last() == records@[i as int]);
            lemma_total_bytes_prefix(records@, i + 1);
        }
        total = total + records[i].length;
        i += 1;
    }
    proof {
        assert(records@.subrange(0, n as int) =~= records@);
    }
    let anomaly_indices = detect_indices(scores, Some(coverages), method, threshold, top_n);
    AnomalyReport {
        total_records: n,
        total_bytes: total,
        dict_entry_count,
        anomaly_count: anomaly_indices.len(),
        anomaly_indices,
    }
}

/// A prefix of the records is no longer in total than all of them.
proof fn lemma_total_bytes_prefix(records: Seq<RecordAnalysis>, k: int)
    requires
        0 <= k <= records.len(),
    ensures
        0 <= total_bytes(records.subrange(0, k)) <= total_bytes(records),
    decreases records.len() - k,
{
    if k < records.len() {
        let next = records.subrange(0, k + 1);
        assert(next.drop_last() =~= records.subrange(0, k));
        lemma_total_bytes_prefix(records, k + 1);
        lemma_total_bytes_nonneg(records.subrange(0, k));
    } else {
        assert(records.subrange(0, k) =~= records);
        lemma_total_bytes_nonneg(records);
    }
}

/// The total length is not negative.
proof fn lemma_total_bytes_nonneg(records: Seq<RecordAnalysis>)
    ensures
        0 <= total_bytes(records),
    decreases records.len(),
{
    if records.len() > 0 {
        lemma_total_bytes_nonneg(records.drop_last());
    }
}

/// A threshold selection is determined by its inputs.
pub proof fn lemma_selection_unique(
    scores: Seq<u64>,
    values: Seq<u64>,
    threshold: u64,
    at_least: bool,
    s: Seq<usize>,
    t: Seq<usize>,
)
    requires
        is_selection(scores, values, threshold, at_least, s),
        is_selection(scores, values, threshold, at_least, t),
    ensures
        s == t,
{
    lemma_by_score_ranked(scores, s);
    lemma_by_score_ranked(scores, t);
    lemma_ranked_unique(scores, scores, s, t);
}

/// The highest-scoring records are determined by the scores and the count.
pub proof fn lemma_top_unique(scores: Seq<u64>, count: int, s: Seq<usize>, t: Seq<usize>)
    requires
        is_top(scores, count, s),
        is_top(scores, count, t),
    ensures
        s == t,
{
    lemma_by_score_ranked(scores, s);
    lemma_by_score_ranked(scores, t);
    lemma_ranked_distinct(scores, scores, s);
    lemma_ranked_distinct(scores, scores, t);
    s.unique_seq_to_set();
    t.unique_seq_to_set();
    let a = s.to_set();
    let b = t.to_set();
    assert forall|x: usize| a.contains(x) <==> s.contains(x) by {}
    assert forall|x: usize| b.contains(x) <==> t.contains(x) by {}
    if exists|x: usize| s.contains(x) && !t.contains(x) {
        let x = choose|x: usize| s.contains(x) && !t.contains(x);
        let kx = choose|k: int| 0 <= k < s.len() && s[k] == x;
        assert(x < scores.len());
        assert forall|y: usize| b.contains(y) implies a.contains(y) by {
            if !s.contains(y) {
                let ky = choose|k: int| 0 <= k < t.len() && t[k] == y;
                assert(y < scores.len());
                assert(outranks(scores, x as int, y as int));
                assert(outranks(scores, y as int, x as int));
            }
        }
        assert(b.subset_of(a));
        vstd::set_lib::lemma_subset_equality(b, a);
        assert(b.contains(x));
    }
    assert forall|x: usize| a.contains(x) implies b.contains(x) by {}
    assert(a.subset_of(b));
    vstd::set_lib::lemma_subset_equality(a, b);
    assert forall|x: usize| s.contains(x) <==> t.contains(x) by {
        assert(a.contains(x) <==> b.contains(x));
    }
    lemma_ranked_unique(scores, scores, s, t);
}

/// Detection is determined by its inputs: two results for the same scores,
/// coverages, method, threshold and count are the same.
pub proof fn lemma_detection_unique(
    scores: Seq<u64>,
    coverages: Option<Seq<u64>>,
    method: DetectionMethod,
    threshold: u64,
    top_n: Option<usize>,
    s: Seq<usize>,
    t: Seq<usize>,
)
    requires
        is_detection(scores, coverages, method, threshold, top_n, s),
        is_detection(scores, coverages, method, threshold, top_n, t),
    ensures
        s == t,
{
    match method {
        DetectionMethod::Score => lemma_selection_unique(scores, scores, threshold, true, s, t),
        DetectionMethod::Coverage => lemma_selection_unique(
            scores,
            values_or(coverages, scores),
            threshold,
            false,
            s,
            t,
        ),
        DetectionMethod::Percentile => lemma_top_unique(
            scores,
            keep_count(method, top_n, scores.len()),
            s,
            t,
        ),
        DetectionMethod::Top => lemma_top_unique(
            scores,
            keep_count(method, top_n, scores.len()),
            s,
            t,
        ),
    }
}

/// With `Top` and a count `k`, detection returns exactly `min(k, n)`
/// indices, the scores of which never increase.
pub proof fn lemma_top_count_and_order(
    scores: Seq<u64>,
    coverages: Option<Seq<u64>>,
    threshold: u64,
    k: usize,
    idx: Seq<usize>,
)
    requires
        is_detection(scores, coverages, DetectionMethod::Top, threshold, Some(k), idx),
    ensures
        idx.len() == if k <= scores.len() {
            k as int
        } else {
            scores.len() as int
        },
        forall|a: int, b: int|
            0 <= a < b < idx.len() ==> scores[#[trigger] idx[a] as int] >= scores[
                #[trigger] idx[b] as int],
{
    assert forall|a: int, b: int| 0 <= a < b < idx.len() implies scores[#[trigger] idx[a] as int]
        >= scores[#[trigger] idx[b] as int] by {
        assert(outranks(scores, idx[a] as int, idx[b] as int));
    }
}

} // verus!
