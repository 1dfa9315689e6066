use bgtzip::dictionary::{build_dictionary, DictEntry};
use bgtzip::scanner::{scan, OpKind, ScanOp, DEFAULT_WINDOW, MAX_MATCH, MIN_MATCH};

#[test]
fn empty_ops() {
    assert!(build_dictionary(b"", &[], 1).is_empty());
}

#[test]
fn no_backrefs_no_entries() {
    let data = b"unique data here";
    let ops = scan(data, DEFAULT_WINDOW, MIN_MATCH, MAX_MATCH);
    assert!(build_dictionary(data, &ops, 1).is_empty());
}

#[test]
fn frequency_ordering() {
    let a = b"aaaa_pattern_alpha_";
    let b_pat = b"bbbb_pattern_beta__";
    let mut data = Vec::new();
    for _ in 0..10 {
        data.extend_from_slice(a);
    }
    for _ in 0..3 {
        data.extend_from_slice(b_pat);
    }
    let ops = scan(&data, DEFAULT_WINDOW, MIN_MATCH, MAX_MATCH);
    let dict = build_dictionary(&data, &ops, 1);
    if dict.len() >= 2 {
        assert!(dict[0].count >= dict[1].count);
    }
}

#[test]
fn entry_ids_sequential() {
    let data: Vec<u8> = b"log line template with data here\n".repeat(20);
    let ops = scan(&data, DEFAULT_WINDOW, MIN_MATCH, MAX_MATCH);
    let dict = build_dictionary(&data, &ops, 1);
    for (i, e) in dict.iter().enumerate() {
        assert_eq!(e.entry_id, i);
    }
}

#[test]
fn total_bytes_covered() {
    let data: Vec<u8> = b"bytes_covered_check_".repeat(20);
    let ops = scan(&data, DEFAULT_WINDOW, MIN_MATCH, MAX_MATCH);
    let dict = build_dictionary(&data, &ops, 1);
    for e in &dict {
        assert_eq!(e.total_bytes_covered(), e.count * e.content_length());
    }
}

fn backref(position: usize, length: usize, ref_offset: usize) -> ScanOp {
    ScanOp { position, kind: OpKind::Backref, length, ref_offset }
}

fn literal(position: usize, length: usize) -> ScanOp {
    ScanOp { position, kind: OpKind::Literal, length, ref_offset: 0 }
}

#[test]
fn dictionary_exact_entry() {
    let data = b"abcdabcdabcd";
    let ops = scan(data, DEFAULT_WINDOW, MIN_MATCH, MAX_MATCH);
    let dict = build_dictionary(data, &ops, 1);
    assert_eq!(dict.len(), 1);
    assert_eq!(dict[0].entry_id, 0);
    assert_eq!(dict[0].content, b"abcdabcd".to_vec());
    assert_eq!(dict[0].count, 1);
    assert_eq!(dict[0].positions, vec![0, 4]);
    assert_eq!(dict[0].total_bytes_covered(), 8);
}

#[test]
fn dictionary_groups_by_content_and_merges_positions() {
    //           0123456789012345678901
    let data = b"abcd-abcd-abcd-wxyz-wxyz";
    let ops = vec![
        literal(0, 5),
        backref(5, 4, 5),
        literal(9, 1),
        backref(10, 4, 5),
        literal(14, 6),
        backref(20, 4, 5),
    ];
    let dict = build_dictionary(data, &ops, 1);
    assert_eq!(dict.len(), 2);
    assert_eq!(dict[0].content, b"abcd".to_vec());
    assert_eq!(dict[0].count, 2);
    assert_eq!(dict[0].positions, vec![0, 5, 10]);
    assert_eq!(dict[1].content, b"wxyz".to_vec());
    assert_eq!(dict[1].count, 1);
    assert_eq!(dict[1].positions, vec![15, 20]);
    assert_eq!(dict[0].entry_id, 0);
    assert_eq!(dict[1].entry_id, 1);
}

#[test]
fn dictionary_min_count_filters() {
    let data = b"abcd-abcd-abcd-wxyz-wxyz";
    let ops = vec![
        literal(0, 5),
        backref(5, 4, 5),
        literal(9, 1),
        backref(10, 4, 5),
        literal(14, 6),
        backref(20, 4, 5),
    ];
    let dict = build_dictionary(data, &ops, 2);
    assert_eq!(dict.len(), 1);
    assert_eq!(dict[0].content, b"abcd".to_vec());
    assert_eq!(dict[0].entry_id, 0);
    assert!(build_dictionary(data, &ops, 3).is_empty());
}

#[test]
fn dictionary_ties_longer_first_then_first_seen() {
    //           0         1         2         3
    //           0123456789012345678901234567890123456789
    let data = b"abcd-abcd-efghij-efghij-mnop-mnop";
    let ops = vec![
        literal(0, 5),
        backref(5, 4, 5),
        literal(9, 8),
        backref(17, 6, 7),
        literal(23, 6),
        backref(29, 4, 5),
    ];
    let dict = build_dictionary(data, &ops, 1);
    let contents: Vec<Vec<u8>> = dict.iter().map(|e| e.content.clone()).collect();
    assert_eq!(contents, vec![b"efghij".to_vec(), b"abcd".to_vec(), b"mnop".to_vec()]);
    let ids: Vec<usize> = dict.iter().map(|e| e.entry_id).collect();
    assert_eq!(ids, vec![0, 1, 2]);
}

#[test]
fn dictionary_ranked_by_count_then_length() {
    let data: Vec<u8> = b"GET /index.html 200\nGET /about.html 200\nPOST /login 302\n".repeat(9);
    let ops = scan(&data, DEFAULT_WINDOW, MIN_MATCH, MAX_MATCH);
    let dict = build_dictionary(&data, &ops, 1);
    assert!(!dict.is_empty());
    for w in dict.windows(2) {
        assert!(
            w[0].count > w[1].count
                || (w[0].count == w[1].count && w[0].content.len() >= w[1].content.len())
        );
    }
    for (i, e) in dict.iter().enumerate() {
        assert_eq!(e.entry_id, i);
        assert!(e.is_well_formed());
        let uses = ops
            .iter()
            .filter(|o| o.kind == OpKind::Backref && o.content(&data) == e.content.as_slice())
            .count();
        assert_eq!(e.count, uses);
    }
}

#[test]
fn intervals_are_consecutive_differences() {
    let e = DictEntry { entry_id: 0, content: b"abcd".to_vec(), count: 3, positions: vec![2, 5, 11, 12] };
    assert_eq!(e.intervals(), vec![3, 6, 1]);
    assert_eq!(e.content_length(), 4);
    assert_eq!(e.total_bytes_covered(), 12);
    let single = DictEntry { entry_id: 0, content: Vec::new(), count: 1, positions: vec![7] };
    assert!(single.intervals().is_empty());
    let none = DictEntry { entry_id: 0, content: Vec::new(), count: 1, positions: Vec::new() };
    assert!(none.intervals().is_empty());
    let unsorted = DictEntry { entry_id: 0, content: Vec::new(), count: 1, positions: vec![3, 3] };
    assert!(!unsorted.is_well_formed());
}
