use bgtzip::anomaly::{
    detect_anomalies, detect_indices, rank_by_score, select_by_threshold, top_indices,
    AnomalyReport, DetectionMethod, DEFAULT_TOP_N,
};
use bgtzip::dictionary::build_dictionary;
use bgtzip::scanner::{scan, DEFAULT_WINDOW, MAX_MATCH, MIN_MATCH};
use bgtzip::scorer::{score_records, RecordAnalysis};

/// An integer that orders as the number does.
fn key(x: f64) -> u64 {
    let bits = (x + 0.0).to_bits();
    if bits >> 63 == 1 {
        !bits
    } else {
        bits | (1u64 << 63)
    }
}

fn keys(values: &[f64]) -> Vec<u64> {
    values.iter().map(|&v| key(v)).collect()
}

fn coverage(r: &RecordAnalysis) -> f64 {
    if r.length > 0 {
        r.backref_bytes as f64 / r.length as f64
    } else {
        0.0
    }
}

fn anomaly_score(r: &RecordAnalysis, dict_len: usize) -> f64 {
    let dict_size = dict_len.max(1);
    let coverage_score = 1.0 - coverage(r);
    let rarity_score = if r.ref_entries.is_empty() {
        1.0
    } else {
        r.ref_entries.iter().map(|&eid| eid as f64 / dict_size as f64).sum::<f64>()
            / r.ref_entries.len() as f64
    };
    0.7 * coverage_score + 0.3 * rarity_score
}

fn mean(vals: &[f64]) -> f64 {
    if vals.is_empty() {
        return 0.0;
    }
    vals.iter().sum::<f64>() / vals.len() as f64
}

fn sample_stdev(vals: &[f64], m: f64) -> f64 {
    if vals.len() < 2 {
        return 0.0;
    }
    let var: f64 = vals.iter().map(|&x| (x - m).powi(2)).sum::<f64>() / (vals.len() - 1) as f64;
    var.sqrt()
}

struct Run {
    recs: Vec<RecordAnalysis>,
    scores: Vec<f64>,
    report: AnomalyReport,
}

fn full_pipeline(data: &[u8], method: DetectionMethod, top_n: Option<usize>) -> Run {
    let ops = scan(data, DEFAULT_WINDOW, MIN_MATCH, MAX_MATCH);
    let dict = build_dictionary(data, &ops, 1);
    let recs = score_records(data, &ops, &dict, b'\n');
    let scores: Vec<f64> = recs.iter().map(|r| anomaly_score(r, dict.len())).collect();
    let coverages: Vec<f64> = recs.iter().map(coverage).collect();
    let threshold = match method {
        DetectionMethod::Coverage => {
            let m = mean(&coverages);
            (m - 1.5 * sample_stdev(&coverages, m)).max(0.0)
        }
        _ => {
            let m = mean(&scores);
            m + 1.5 * sample_stdev(&scores, m)
        }
    };
    let report = detect_anomalies(
        &recs,
        &keys(&scores),
        &keys(&coverages),
        dict.len(),
        method,
        key(threshold),
        top_n,
    );
    Run { recs, scores, report }
}

#[test]
fn empty() {
    let r = full_pipeline(b"", DetectionMethod::Score, None).report;
    assert_eq!(r.total_records, 0);
    assert_eq!(r.anomaly_count, 0);
}

#[test]
fn top_n_returns_n() {
    let data: Vec<u8> = b"line data content here\n".repeat(30);
    let r = full_pipeline(&data, DetectionMethod::Top, Some(5)).report;
    assert_eq!(r.anomaly_count, 5);
}

#[test]
fn injected_anomaly_detected() {
    let mut data: Vec<u8> = b"2026-02-16 app: normal operation completed\n".repeat(50);
    data.extend_from_slice(b"KERNEL PANIC: fatal error 0xDEADBEEF segfault\n");
    data.extend_from_slice(&b"2026-02-16 app: normal operation completed\n".repeat(50));

    let run = full_pipeline(&data, DetectionMethod::Top, Some(5));
    let recs = run.recs;
    let report = run.report;

    let anomaly_rec_indices: Vec<usize> =
        report.anomaly_indices.iter().map(|&i| recs[i].index).collect();
    assert!(
        anomaly_rec_indices.contains(&50),
        "expected line 50 in anomalies, got {anomaly_rec_indices:?}"
    );
}

#[test]
fn anomalies_sorted_by_score() {
    let mut data: Vec<u8> = b"aaa_repeated_data_content_here\n".repeat(40);
    data.extend_from_slice(b"first unique anomaly string!!\n");
    data.extend_from_slice(b"second completely different anomaly data here longer\n");
    let run = full_pipeline(&data, DetectionMethod::Top, Some(10));
    let scores: Vec<f64> = run.report.anomaly_indices.iter().map(|&i| run.scores[i]).collect();
    for w in scores.windows(2) {
        assert!(w[0] >= w[1]);
    }
}

#[test]
fn detect_indices_basic() {
    let scores = vec![0.1, 0.9, 0.2, 0.8, 0.15];
    let idx = detect_indices(&keys(&scores), None, DetectionMethod::Top, 0, Some(2));
    assert_eq!(idx.len(), 2);
    assert_eq!(idx[0], 1); // highest score
    assert_eq!(idx[1], 3); // second highest
}

#[test]
fn empty_scores_select_nothing_whatever_the_method() {
    for method in [
        DetectionMethod::Score,
        DetectionMethod::Coverage,
        DetectionMethod::Percentile,
        DetectionMethod::Top,
    ] {
        assert!(detect_indices(&[], None, method, 0, None).is_empty());
        assert!(detect_indices(&[], Some(&[]), method, 7, Some(3)).is_empty());
    }
}

#[test]
fn top_returns_min_of_count_and_len() {
    let scores = [5u64, 1, 9, 3];
    for k in 0..7 {
        let idx = detect_indices(&scores, None, DetectionMethod::Top, 0, Some(k));
        assert_eq!(idx.len(), k.min(4));
        assert_eq!(idx, vec![2, 0, 3, 1][..k.min(4)].to_vec());
    }
}

#[test]
fn top_defaults_to_ten() {
    let scores: Vec<u64> = (0..25).collect();
    let idx = detect_indices(&scores, None, DetectionMethod::Top, 0, None);
    assert_eq!(idx.len(), DEFAULT_TOP_N);
    assert_eq!(idx, (15..25).rev().collect::<Vec<usize>>());
}

#[test]
fn percentile_keeps_at_least_one() {
    let scores = [4u64, 8, 6];
    assert_eq!(detect_indices(&scores, None, DetectionMethod::Percentile, 0, Some(0)), vec![1]);
    assert_eq!(detect_indices(&scores, None, DetectionMethod::Percentile, 0, Some(2)), vec![1, 2]);
    assert!(detect_indices(&scores, None, DetectionMethod::Top, 0, Some(0)).is_empty());
}

#[test]
fn percentile_defaults_to_five_in_a_hundred() {
    for (n, kept) in [(1usize, 1usize), (19, 1), (20, 1), (21, 2), (100, 5), (101, 6), (400, 20)] {
        let scores: Vec<u64> = (0..n as u64).collect();
        let idx = detect_indices(&scores, None, DetectionMethod::Percentile, 0, None);
        assert_eq!(idx.len(), kept);
        assert_eq!(idx[0], n - 1);
        // the share as it is computed in floating point
        assert_eq!(kept, ((n as f64 * 0.05).ceil() as usize).max(1));
    }
}

#[test]
fn score_selects_at_least_threshold_in_score_order() {
    let scores = [3u64, 9, 5, 9, 1, 5];
    assert_eq!(
        detect_indices(&scores, None, DetectionMethod::Score, 5, None),
        vec![1, 3, 2, 5]
    );
    assert!(detect_indices(&scores, None, DetectionMethod::Score, 10, None).is_empty());
    assert_eq!(select_by_threshold(&scores, &scores, 9, true), vec![1, 3]);
}

#[test]
fn coverage_selects_at_most_threshold_in_score_order() {
    let scores = [3u64, 9, 5, 9, 1, 5];
    let coverages = [10u64, 20, 30, 5, 40, 30];
    assert_eq!(
        detect_indices(&scores, Some(&coverages), DetectionMethod::Coverage, 20, None),
        vec![1, 3, 0]
    );
    // without coverages the scores stand in
    assert_eq!(
        detect_indices(&scores, None, DetectionMethod::Coverage, 3, None),
        vec![0, 4]
    );
}

#[test]
fn ties_keep_index_order() {
    let scores = [7u64, 7, 7, 2, 7];
    assert_eq!(rank_by_score(&scores), vec![0, 1, 2, 4, 3]);
    assert_eq!(top_indices(&scores, 3), vec![0, 1, 2]);
}

#[test]
fn float_keys_keep_order() {
    let values = [0.0, 0.5, 0.25, 1.0, 0.75, 0.7000000000000001, 0.7];
    let idx = rank_by_score(&keys(&values));
    assert_eq!(idx, vec![3, 4, 5, 6, 1, 2, 0]);
}

#[test]
fn report_totals() {
    let data: Vec<u8> = b"alpha beta gamma\nalpha beta gamma\nsomething else\n".to_vec();
    let run = full_pipeline(&data, DetectionMethod::Top, Some(2));
    assert_eq!(run.report.total_records, 3);
    assert_eq!(run.report.total_bytes, data.len());
    assert_eq!(run.report.anomaly_count, 2);
    assert_eq!(run.report.anomaly_indices.len(), 2);
}

#[test]
fn pipeline_is_repeatable() {
    let mut data: Vec<u8> = b"2026-02-16 app: normal operation completed\n".repeat(30);
    data.extend_from_slice(b"unexpected: disk failure on /dev/sda1\n");
    data.extend_from_slice(&b"2026-02-16 app: request served in 12 ms\n".repeat(30));
    let a = full_pipeline(&data, DetectionMethod::Score, None);
    let b = full_pipeline(&data, DetectionMethod::Score, None);
    assert_eq!(a.report.anomaly_indices, b.report.anomaly_indices);
    assert_eq!(a.recs.len(), b.recs.len());
    for (x, y) in a.recs.iter().zip(b.recs.iter()) {
        assert_eq!(
            (x.index, x.offset, x.length, x.backref_bytes, x.literal_bytes, &x.ref_entries),
            (y.index, y.offset, y.length, y.backref_bytes, y.literal_bytes, &y.ref_entries)
        );
    }
    assert!(a.report.anomaly_indices.contains(&30));
}

#[test]
fn empty_buffer_pipeline() {
    let data: &[u8] = b"";
    let ops = scan(data, DEFAULT_WINDOW, MIN_MATCH, MAX_MATCH);
    assert!(ops.is_empty());
    let dict = build_dictionary(data, &ops, 2);
    assert!(dict.is_empty());
    let recs = score_records(data, &ops, &dict, b'\n');
    assert!(recs.is_empty());
    let report = detect_anomalies(&recs, &[], &[], dict.len(), DetectionMethod::Score, key(0.0), None);
    assert_eq!(report.total_records, 0);
    assert_eq!(report.total_bytes, 0);
    assert_eq!(report.dict_entry_count, 0);
    assert_eq!(report.anomaly_count, 0);
    assert!(report.anomaly_indices.is_empty());
}
