use bgtzip::dictionary::{backrefs_fit, build_dictionary};
use bgtzip::pipeline::{analyze, Settings};
use bgtzip::scanner::{is_tiling, scan, OpKind, ScanOp, DEFAULT_WINDOW, MAX_MATCH, MIN_MATCH};
use bgtzip::scorer::score_records;

fn settings() -> Settings {
    Settings {
        window_size: DEFAULT_WINDOW,
        min_match: MIN_MATCH,
        max_match: MAX_MATCH,
        min_count: 2,
        delimiter: b'\n',
    }
}

fn log_lines(n: u32) -> Vec<u8> {
    let mut data = Vec::new();
    let mut seed: u32 = 12345;
    for i in 0..n {
        seed = seed.wrapping_mul(1103515245).wrapping_add(12345);
        let host = (seed >> 16) % 7;
        let code = [200, 200, 200, 404, 500][((seed >> 8) % 5) as usize];
        let line = format!(
            "2026-02-16 08:{:02}:{:02} host{} GET /api/v1/items/{} status={} bytes={}\n",
            (i / 60) % 60,
            i % 60,
            host,
            (seed >> 4) % 1000,
            code,
            (seed >> 3) % 5000
        );
        data.extend_from_slice(line.as_bytes());
    }
    data
}

#[test]
fn analyze_runs_the_stages_in_turn() {
    let data = log_lines(200);
    let found = analyze(&data, settings());
    let ops = scan(&data, DEFAULT_WINDOW, MIN_MATCH, MAX_MATCH);
    let dict = build_dictionary(&data, &ops, 2);
    let recs = score_records(&data, &ops, &dict, b'\n');
    assert_eq!(found.ops.len(), ops.len());
    for (a, b) in found.ops.iter().zip(ops.iter()) {
        assert_eq!(
            (a.position, a.kind, a.length, a.ref_offset),
            (b.position, b.kind, b.length, b.ref_offset)
        );
    }
    assert_eq!(found.dictionary.len(), dict.len());
    for (a, b) in found.dictionary.iter().zip(dict.iter()) {
        assert_eq!(
            (a.entry_id, &a.content, a.count, &a.positions),
            (b.entry_id, &b.content, b.count, &b.positions)
        );
    }
    assert_eq!(found.records.len(), recs.len());
    assert_eq!(found.records.len(), 200);
    for (a, b) in found.records.iter().zip(recs.iter()) {
        assert_eq!(
            (a.index, a.offset, a.length, a.backref_bytes, a.literal_bytes, &a.ref_entries),
            (b.index, b.offset, b.length, b.backref_bytes, b.literal_bytes, &b.ref_entries)
        );
    }
}

#[test]
fn analysis_of_a_larger_log_keeps_its_invariants() {
    let data = log_lines(8000);
    let found = analyze(&data, settings());
    assert!(is_tiling(&found.ops, data.len()));
    assert!(backrefs_fit(&data, &found.ops));
    for op in &found.ops {
        if op.kind == OpKind::Backref {
            let src = op.position - op.ref_offset;
            assert_eq!(&data[src..src + op.length], op.content(&data));
            assert!(op.length >= MIN_MATCH && op.length <= MAX_MATCH);
            assert!(op.ref_offset <= DEFAULT_WINDOW);
        } else {
            assert_eq!(op.ref_offset, 0);
        }
    }
    assert!(!found.dictionary.is_empty());
    for (i, e) in found.dictionary.iter().enumerate() {
        assert_eq!(e.entry_id, i);
        assert!(e.count >= 2);
        assert!(e.is_well_formed());
    }
    for w in found.dictionary.windows(2) {
        assert!(
            w[0].count > w[1].count
                || (w[0].count == w[1].count && w[0].content.len() >= w[1].content.len())
        );
        assert_ne!(w[0].content, w[1].content);
    }
    assert_eq!(found.records.len(), 8000);
    let total: usize = found.records.iter().map(|r| r.length).sum();
    assert_eq!(total, data.len());
    for r in &found.records {
        assert_eq!(r.backref_bytes + r.literal_bytes, r.length);
        assert!(r.ref_entries.iter().all(|&e| e < found.dictionary.len()));
    }
}

#[test]
fn checks_refuse_broken_operations() {
    let lit = |position, length| ScanOp { position, kind: OpKind::Literal, length, ref_offset: 0 };
    let br = |position, length, ref_offset| ScanOp {
        position,
        kind: OpKind::Backref,
        length,
        ref_offset,
    };
    assert!(is_tiling(&[], 0));
    assert!(!is_tiling(&[], 1));
    assert!(is_tiling(&[lit(0, 4), br(4, 4, 4)], 8));
    assert!(!is_tiling(&[lit(0, 4), br(5, 3, 4)], 8));
    assert!(!is_tiling(&[lit(0, 4), br(4, 4, 4)], 9));
    assert!(!is_tiling(&[lit(0, 4), lit(4, 0), br(4, 4, 4)], 8));
    assert!(!is_tiling(&[lit(1, 7)], 8));
    assert!(!is_tiling(&[lit(0, 9)], 8));
    let data = b"abcdabcd";
    assert!(backrefs_fit(data, &[lit(0, 4), br(4, 4, 4)]));
    assert!(backrefs_fit(data, &[lit(0, 100)]));
    assert!(!backrefs_fit(data, &[br(4, 5, 4)]));
    assert!(!backrefs_fit(data, &[br(2, 2, 3)]));
    assert!(!backrefs_fit(data, &[br(9, 0, 0)]));
}
