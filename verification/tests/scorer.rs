use bgtzip::dictionary::{build_dictionary, DictEntry};
use bgtzip::scanner::{scan, OpKind, ScanOp, DEFAULT_WINDOW, MAX_MATCH, MIN_MATCH};
use bgtzip::scorer::{backrefs_lie_within, score_records, split_records, RecordAnalysis};

fn pipeline(data: &[u8]) -> Vec<RecordAnalysis> {
    let ops = scan(data, DEFAULT_WINDOW, MIN_MATCH, MAX_MATCH);
    let dict = build_dictionary(data, &ops, 1);
    score_records(data, &ops, &dict, b'\n')
}

fn coverage(r: &RecordAnalysis) -> f64 {
    if r.length > 0 {
        r.backref_bytes as f64 / r.length as f64
    } else {
        0.0
    }
}

fn anomaly_score(r: &RecordAnalysis, dict_len: usize) -> f64 {
    let dict_size = dict_len.max(1);
    let coverage_score = 1.0 - coverage(r);
    let rarity_score = if r.ref_entries.is_empty() {
        1.0
    } else {
        r.ref_entries.iter().map(|&eid| eid as f64 / dict_size as f64).sum::<f64>()
            / r.ref_entries.len() as f64
    };
    0.7 * coverage_score + 0.3 * rarity_score
}

#[test]
fn scorer_empty_input() {
    assert!(pipeline(b"").is_empty());
}

#[test]
fn single_record() {
    let data = b"one line only\n";
    let recs = pipeline(data);
    assert_eq!(recs.len(), 1);
    assert_eq!(recs[0].length, data.len());
}

#[test]
fn record_count() {
    let recs = pipeline(b"line1\nline2\nline3\n");
    assert_eq!(recs.len(), 3);
}

#[test]
fn coverage_bounded() {
    let data: Vec<u8> = (0..20)
        .map(|i| format!("test record number {i} here\n"))
        .collect::<String>()
        .into_bytes();
    for r in pipeline(&data) {
        assert!((0.0..=1.0).contains(&coverage(&r)));
    }
}

#[test]
fn bytes_add_up() {
    let data: Vec<u8> = b"log entry with some repeated data in it\n".repeat(10);
    for r in pipeline(&data) {
        assert_eq!(r.backref_bytes + r.literal_bytes, r.length);
    }
}

#[test]
fn unique_line_scores_higher() {
    let mut data: Vec<u8> = b"normal log line pattern data\n".repeat(20);
    data.extend_from_slice(b"CRITICAL: unexpected kernel panic at 0xDEAD\n");
    let ops = scan(&data, DEFAULT_WINDOW, MIN_MATCH, MAX_MATCH);
    let dict = build_dictionary(&data, &ops, 1);
    let recs = score_records(&data, &ops, &dict, b'\n');
    let avg_normal: f64 =
        recs[..20].iter().map(|r| anomaly_score(r, dict.len())).sum::<f64>() / 20.0;
    let anomaly = anomaly_score(recs.last().unwrap(), dict.len());
    assert!(anomaly > avg_normal);
}

#[test]
fn offsets_contiguous() {
    let recs = pipeline(b"line 1\nline 2\nline 3\n");
    for i in 1..recs.len() {
        assert_eq!(recs[i].offset, recs[i - 1].offset + recs[i - 1].length);
    }
}

#[test]
fn content_matches_data() {
    let data = b"alpha\nbeta\ngamma\n";
    for r in pipeline(data) {
        assert_eq!(r.content(data), &data[r.offset..r.offset + r.length]);
    }
}

fn backref(position: usize, length: usize, ref_offset: usize) -> ScanOp {
    ScanOp { position, kind: OpKind::Backref, length, ref_offset }
}

fn literal(position: usize, length: usize) -> ScanOp {
    ScanOp { position, kind: OpKind::Literal, length, ref_offset: 0 }
}

fn entry(entry_id: usize, content: &[u8]) -> DictEntry {
    DictEntry { entry_id, content: content.to_vec(), count: 1, positions: Vec::new() }
}

#[test]
fn split_closes_records_at_delimiters() {
    assert_eq!(split_records(b"ab\ncd\n", b'\n'), vec![(0, 3), (3, 3)]);
    assert_eq!(split_records(b"ab\ncd", b'\n'), vec![(0, 3), (3, 2)]);
    assert_eq!(split_records(b"\n\nx", b'\n'), vec![(0, 1), (1, 1), (2, 1)]);
    assert_eq!(split_records(b"a;b", b';'), vec![(0, 2), (2, 1)]);
    assert_eq!(split_records(b"no delimiter", b'\n'), vec![(0, 12)]);
    assert!(split_records(b"", b'\n').is_empty());
}

#[test]
fn records_exact_counts_and_references() {
    //           0123 4567 8901 2345
    let data = b"abc\nabc\nxyz\nabc\n";
    let ops = vec![literal(0, 4), backref(4, 4, 4), literal(8, 4), backref(12, 4, 4)];
    let dict = vec![entry(0, b"abc\n")];
    let recs = score_records(data, &ops, &dict, b'\n');
    assert_eq!(recs.len(), 4);
    let rows: Vec<(usize, usize, usize, usize, usize, Vec<usize>)> = recs
        .iter()
        .map(|r| (r.index, r.offset, r.length, r.backref_bytes, r.literal_bytes, r.ref_entries.clone()))
        .collect();
    assert_eq!(
        rows,
        vec![
            (0, 0, 4, 0, 4, vec![]),
            (1, 4, 4, 4, 0, vec![0]),
            (2, 8, 4, 0, 4, vec![]),
            (3, 12, 4, 4, 0, vec![0]),
        ]
    );
    assert_eq!(coverage(&recs[0]), 0.0);
    assert_eq!(coverage(&recs[1]), 1.0);
    assert_eq!(anomaly_score(&recs[0], 1), 1.0);
    assert_eq!(anomaly_score(&recs[1], 1), 0.0);
}

#[test]
fn backref_across_records_counts_in_both() {
    //           0123456 7890123 456
    let data = b"abcdef\nabcdef\nab\n";
    // the back-reference 7..16 spans the second record and part of the third
    let ops = vec![literal(0, 7), backref(7, 9, 7), literal(16, 1)];
    let dict = vec![entry(3, b"abcdef\nab")];
    let recs = score_records(data, &ops, &dict, b'\n');
    assert_eq!(recs.len(), 3);
    assert_eq!((recs[0].backref_bytes, recs[0].literal_bytes), (0, 7));
    assert_eq!((recs[1].backref_bytes, recs[1].literal_bytes), (7, 0));
    assert_eq!((recs[2].backref_bytes, recs[2].literal_bytes), (2, 1));
    assert!(recs[0].ref_entries.is_empty());
    assert_eq!(recs[1].ref_entries, vec![3]);
    assert_eq!(recs[2].ref_entries, vec![3]);
}

#[test]
fn references_are_sorted_unique_and_skip_unknown_patterns() {
    //           0123456789012345678901234
    let data = b"wxyzabcdwxyzabcdqrstqrst\n";
    let ops = vec![
        literal(0, 8),
        backref(8, 4, 8),
        backref(12, 4, 8),
        literal(16, 4),
        backref(20, 4, 4),
        literal(24, 1),
    ];
    let dict = vec![entry(5, b"abcd"), entry(2, b"wxyz")];
    let recs = score_records(data, &ops, &dict, b'\n');
    assert_eq!(recs.len(), 1);
    assert_eq!(recs[0].ref_entries, vec![2, 5]);
    assert_eq!(recs[0].backref_bytes, 12);
    assert_eq!(recs[0].literal_bytes, 13);
}

#[test]
fn lookup_takes_the_last_entry_of_a_pattern() {
    let data = b"abcdabcd\n";
    let ops = vec![literal(0, 4), backref(4, 4, 4), literal(8, 1)];
    let dict = vec![entry(1, b"abcd"), entry(7, b"abcd")];
    let recs = score_records(data, &ops, &dict, b'\n');
    assert_eq!(recs[0].ref_entries, vec![7]);
}

#[test]
fn record_invariants_hold_on_scanned_input() {
    let data: Vec<u8> = (0..40)
        .map(|i| format!("host{} service started in {} ms\n", i % 3, i * 7))
        .collect::<String>()
        .into_bytes();
    let recs = pipeline(&data);
    assert_eq!(recs.len(), 40);
    let mut offset = 0;
    for (i, r) in recs.iter().enumerate() {
        assert_eq!(r.index, i);
        assert_eq!(r.offset, offset);
        assert_eq!(r.backref_bytes + r.literal_bytes, r.length);
        assert!(r.backref_bytes <= r.length);
        assert_eq!(*r.content(&data).last().unwrap(), b'\n');
        assert!(r.ref_entries.windows(2).all(|w| w[0] < w[1]));
        offset += r.length;
    }
    assert_eq!(offset, data.len());
}

#[test]
fn operations_in_any_order_are_accounted_for() {
    //           01234 56789 01234 56789
    let data = b"abcd\nabcd\nwxyz\nwxyz\n";
    let ops = vec![backref(15, 5, 5), backref(5, 5, 5)];
    let dict = vec![entry(0, b"abcd\n"), entry(1, b"wxyz\n")];
    let recs = score_records(data, &ops, &dict, b'\n');
    let rows: Vec<(usize, usize, usize, Vec<usize>)> = recs
        .iter()
        .map(|r| (r.offset, r.backref_bytes, r.literal_bytes, r.ref_entries.clone()))
        .collect();
    assert_eq!(
        rows,
        vec![(0, 0, 5, vec![]), (5, 5, 0, vec![0]), (10, 0, 5, vec![]), (15, 5, 0, vec![1])]
    );
}

#[test]
fn overlapping_back_references_count_each_byte_once() {
    //           0123456789
    let data = b"abcdabcdab\n";
    let ops = vec![backref(4, 4, 4), backref(6, 4, 4)];
    let dict = vec![entry(0, b"abcd"), entry(1, b"cdab")];
    let recs = score_records(data, &ops, &dict, b'\n');
    assert_eq!(recs.len(), 1);
    assert_eq!((recs[0].backref_bytes, recs[0].literal_bytes), (6, 5));
    assert_eq!(recs[0].ref_entries, vec![0, 1]);
}

#[test]
fn within_check_looks_at_back_references_only() {
    let data = b"abcdabcd";
    assert!(backrefs_lie_within(data, &[literal(0, 4), backref(4, 4, 4)]));
    assert!(backrefs_lie_within(data, &[literal(7, 100), backref(4, 4, 9)]));
    assert!(!backrefs_lie_within(data, &[backref(5, 4, 4)]));
    assert!(!backrefs_lie_within(data, &[backref(9, 0, 4)]));
    assert!(backrefs_lie_within(data, &[]));
}
