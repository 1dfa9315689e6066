use bgtzip::scanner::{scan, OpKind, ScanOp, DEFAULT_WINDOW, MAX_MATCH, MIN_MATCH};

#[test]
fn scanner_empty_input() {
    assert!(scan(b"", DEFAULT_WINDOW, MIN_MATCH, MAX_MATCH).is_empty());
}

#[test]
fn all_literal() {
    let data = b"abcdefgh";
    let ops = scan(data, DEFAULT_WINDOW, MIN_MATCH, MAX_MATCH);
    assert_eq!(ops.len(), 1);
    assert_eq!(ops[0].kind, OpKind::Literal);
    assert_eq!(ops[0].length, data.len());
}

#[test]
fn full_coverage() {
    let data = b"hello world, hello world, hello world again!\n";
    let ops = scan(data, DEFAULT_WINDOW, MIN_MATCH, MAX_MATCH);
    let covered: usize = ops.iter().map(|o| o.length).sum();
    assert_eq!(covered, data.len());
}

#[test]
fn no_gaps() {
    let data = b"test line one\ntest line two\ntest line three\n";
    let ops = scan(data, DEFAULT_WINDOW, MIN_MATCH, MAX_MATCH);
    let mut pos = 0;
    for op in &ops {
        assert_eq!(op.position, pos, "gap at byte {pos}");
        pos += op.length;
    }
    assert_eq!(pos, data.len());
}

#[test]
fn repeated_string_produces_backref() {
    let chunk = b"the quick brown fox ";
    let mut data = Vec::new();
    data.extend_from_slice(chunk);
    data.extend_from_slice(chunk);
    let ops = scan(&data, DEFAULT_WINDOW, MIN_MATCH, MAX_MATCH);
    let br_bytes: usize = ops
        .iter()
        .filter(|o| o.kind == OpKind::Backref)
        .map(|o| o.length)
        .sum();
    assert!(br_bytes >= 10);
}

#[test]
fn backref_content_matches_source() {
    let data = b"pattern1234 pattern1234 pattern1234";
    let ops = scan(data, DEFAULT_WINDOW, MIN_MATCH, MAX_MATCH);
    for op in &ops {
        if op.kind == OpKind::Backref {
            let src = op.position - op.ref_offset;
            assert_eq!(&data[src..src + op.length], op.content(data),);
        }
    }
}

#[test]
fn large_repetition_high_coverage() {
    let line = b"2026-02-16 08:31:02 myapp[1423]: Connection established from 10.0.0.5\n";
    let data: Vec<u8> = line.repeat(100);
    let ops = scan(&data, DEFAULT_WINDOW, MIN_MATCH, MAX_MATCH);
    let br_bytes: usize = ops
        .iter()
        .filter(|o| o.kind == OpKind::Backref)
        .map(|o| o.length)
        .sum();
    let coverage = br_bytes as f64 / data.len() as f64;
    assert!(coverage > 0.8, "expected >80% coverage, got {coverage:.1}%");
}

fn fields(op: &ScanOp) -> (usize, OpKind, usize, usize) {
    (op.position, op.kind, op.length, op.ref_offset)
}

#[test]
fn scan_exact_operations() {
    let ops = scan(b"abcdabcdabcd", DEFAULT_WINDOW, MIN_MATCH, MAX_MATCH);
    assert_eq!(ops.len(), 2);
    assert_eq!(fields(&ops[0]), (0, OpKind::Literal, 4, 0));
    assert_eq!(fields(&ops[1]), (4, OpKind::Backref, 8, 4));
}

#[test]
fn scan_short_input_is_one_literal() {
    let ops = scan(b"abc", DEFAULT_WINDOW, MIN_MATCH, MAX_MATCH);
    assert_eq!(ops.len(), 1);
    assert_eq!(fields(&ops[0]), (0, OpKind::Literal, 3, 0));
}

#[test]
fn scan_prefers_most_recent_of_equal_matches() {
    // "abcd" occurs at 0 and at 5; the match at 10 is as long from either.
    let ops = scan(b"abcd1abcd2abcd3", DEFAULT_WINDOW, MIN_MATCH, MAX_MATCH);
    let refs: Vec<(usize, OpKind, usize, usize)> =
        ops.iter().filter(|o| o.kind == OpKind::Backref).map(fields).collect();
    assert_eq!(refs, vec![(5, OpKind::Backref, 4, 5), (10, OpKind::Backref, 4, 5)]);
}

#[test]
fn scan_takes_longer_match_over_more_recent() {
    // At 13 the older source (0) gives 6 bytes, the newer (7) only 4.
    let ops = scan(b"abcdef-abcdX_abcdef", DEFAULT_WINDOW, MIN_MATCH, MAX_MATCH);
    let refs: Vec<(usize, OpKind, usize, usize)> =
        ops.iter().filter(|o| o.kind == OpKind::Backref).map(fields).collect();
    assert_eq!(refs, vec![(7, OpKind::Backref, 4, 7), (13, OpKind::Backref, 6, 13)]);
}

#[test]
fn scan_min_match_turns_short_matches_into_literals() {
    let ops = scan(b"abcd1abcd2abcd3", DEFAULT_WINDOW, 5, MAX_MATCH);
    assert_eq!(ops.len(), 1);
    assert_eq!(fields(&ops[0]), (0, OpKind::Literal, 15, 0));
}

#[test]
fn scan_max_match_bounds_backrefs() {
    let data = vec![b'x'; 1000];
    let ops = scan(&data, DEFAULT_WINDOW, MIN_MATCH, MAX_MATCH);
    assert_eq!(fields(&ops[0]), (0, OpKind::Literal, 1, 0));
    assert_eq!(fields(&ops[1]), (1, OpKind::Backref, 258, 1));
    for op in &ops {
        assert!(op.length <= MAX_MATCH);
        assert!(op.length >= 1);
    }
    let total: usize = ops.iter().map(|o| o.length).sum();
    assert_eq!(total, 1000);
}

#[test]
fn scan_window_limits_offsets() {
    let mut data = Vec::new();
    data.extend_from_slice(b"unique-pattern-A");
    for i in 0..100u32 {
        data.extend_from_slice(format!("{:08x}", i.wrapping_mul(2654435761)).as_bytes());
    }
    data.extend_from_slice(b"unique-pattern-A");
    let near = scan(&data, 64, MIN_MATCH, MAX_MATCH);
    for op in &near {
        assert!(op.ref_offset <= 64);
    }
    let far = scan(&data, DEFAULT_WINDOW, MIN_MATCH, MAX_MATCH);
    let last = far.last().unwrap();
    assert_eq!(fields(last), (816, OpKind::Backref, 16, 816));
}

#[test]
fn scan_window_is_rounded_up_to_power_of_two() {
    // The source lies 6 bytes back: a window of 5 is rounded to 8 and reaches it.
    let data = b"abcd12abcd";
    let ops = scan(data, 5, MIN_MATCH, MAX_MATCH);
    assert_eq!(fields(ops.last().unwrap()), (6, OpKind::Backref, 4, 6));
    let none = scan(data, 4, MIN_MATCH, MAX_MATCH);
    assert_eq!(none.len(), 1);
    assert_eq!(none[0].kind, OpKind::Literal);
}

#[test]
fn scan_is_repeatable() {
    let data: Vec<u8> = b"GET /index.html 200\nGET /about.html 200\nPOST /login 302\n".repeat(7);
    let a = scan(&data, DEFAULT_WINDOW, MIN_MATCH, MAX_MATCH);
    let b = scan(&data, DEFAULT_WINDOW, MIN_MATCH, MAX_MATCH);
    assert_eq!(a.len(), b.len());
    for (x, y) in a.iter().zip(b.iter()) {
        assert_eq!(fields(x), fields(y));
    }
}

#[test]
fn summary_counts_operations_and_bytes() {
    let data = b"abcd1abcd2abcd3";
    let ops = scan(data, DEFAULT_WINDOW, MIN_MATCH, MAX_MATCH);
    let sum = bgtzip::scanner::summarize(&ops);
    assert_eq!((sum.literals, sum.backrefs), (3, 2));
    assert_eq!((sum.literal_bytes, sum.backref_bytes), (7, 8));
    let none = bgtzip::scanner::summarize(&[]);
    assert_eq!((none.literals, none.backrefs, none.literal_bytes, none.backref_bytes), (0, 0, 0, 0));
}
