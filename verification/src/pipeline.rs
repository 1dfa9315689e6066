//! The stages run one after another on a buffer.

use crate::anomaly::{is_detection, lemma_detection_unique, DetectionMethod};
use crate::dictionary::{
    backrefs_in_bounds, build_dictionary, entries_agree, is_dictionary, lemma_dictionary_unique,
    DictEntry,
};
use crate::matcher::{addressable, repeats};
use crate::scanner::{scan, scan_spec, tiles, total_length, OpKind, ScanOp};
use crate::scorer::{
    analyzes, is_scoring, lemma_scoring_unique, lookup, records_agree, refers, score_records,
    RecordAnalysis,
};
use vstd::prelude::*;

verus! {

/// What the scan, the dictionary builder and the record scorer found in one
/// buffer.
pub struct Analysis {
    pub ops: Vec<ScanOp>,
    pub dictionary: Vec<DictEntry>,
    pub records: Vec<RecordAnalysis>,
}

/// How a buffer is analyzed.
#[derive(Debug, Clone, Copy)]
pub struct Settings {
    pub window_size: usize,
    pub min_match: usize,
    pub max_match: usize,
    pub min_count: usize,
    pub delimiter: u8,
}

/// `found` holds the operations of `data`, their dictionary, and the
/// analyses of the records with both.
pub open spec fn is_analysis(data: Seq<u8>, settings: Settings, found: Analysis) -> bool {
    &&& tiles(found.ops@, data.len() as int)
    &&& total_length(found.ops@) == data.len()
    &&& forall|i: int| 0 <= i < found.ops@.len() ==> (#[trigger] found.ops@[i]).sound(data)
    &&& addressable(data.len()) ==> found.ops@ == scan_spec(
        data,
        settings.window_size as int,
        settings.min_match as int,
        settings.max_match as int,
    )
    &&& is_dictionary(data, found.ops@, settings.min_count as int, found.dictionary@)
    &&& is_scoring(data, found.ops@, found.dictionary@, settings.delimiter, found.records@)
}

/// Sound operations keep their back-references and the sources of these
/// within the buffer.
pub proof fn lemma_sound_in_bounds(data: Seq<u8>, ops: Seq<ScanOp>)
    requires
        forall|i: int| 0 <= i < ops.len() ==> (#[trigger] ops[i]).sound(data),
    ensures
        backrefs_in_bounds(data, ops),
{
    assert forall|k: int|
        0 <= k < ops.len() && (#[trigger] ops[k]).kind == OpKind::Backref implies ops[k].position
        + ops[k].length <= data.len() && ops[k].ref_offset <= ops[k].position by {
        assert(ops[k].sound(data));
        assert(repeats(
            data,
            ops[k].position as int,
            ops[k].ref_offset as int,
            ops[k].length as int,
        ));
    }
}

/// Scan a buffer, build the dictionary of its back-references and analyze
/// its records.
pub fn analyze(data: &[u8], settings: Settings) -> (found: Analysis)
    ensures
        is_analysis(data@, settings, found),
{
    let ops = scan(data, settings.window_size, settings.min_match, settings.max_match);
    proof {
        lemma_sound_in_bounds(data@, ops@);
    }
    let dictionary = build_dictionary(data, ops.as_slice(), settings.min_count);
    let records = score_records(data, ops.as_slice(), dictionary.as_slice(), settings.delimiter);
    Analysis { ops, dictionary, records }
}

/// Dictionaries that agree entry by entry give the same id for a pattern.
proof fn lemma_lookup_agrees(d1: Seq<DictEntry>, d2: Seq<DictEntry>, content: Seq<u8>)
    requires
        d1.len() == d2.len(),
        forall|i: int| 0 <= i < d1.len() ==> entries_agree(#[trigger] d1[i], d2[i]),
    ensures
        lookup(d1, content) == lookup(d2, content),
    decreases d1.len(),
{
    if d1.len() > 0 {
        assert(entries_agree(d1[d1.len() - 1], d2[d1.len() - 1]));
        assert forall|i: int| 0 <= i < d1.drop_last().len() implies entries_agree(
            #[trigger] d1.drop_last()[i],
            d2.drop_last()[i],
        ) by {
            assert(entries_agree(d1[i], d2[i]));
        }
        lemma_lookup_agrees(d1.drop_last(), d2.drop_last(), content);
    }
}

/// Analyses with one dictionary are analyses with any dictionary that
/// agrees with it entry by entry.
proof fn lemma_scoring_transfers(
    data: Seq<u8>,
    ops: Seq<ScanOp>,
    d1: Seq<DictEntry>,
    d2: Seq<DictEntry>,
    delimiter: u8,
    recs: Seq<RecordAnalysis>,
)
    requires
        d1.len() == d2.len(),
        forall|i: int| 0 <= i < d1.len() ==> entries_agree(#[trigger] d1[i], d2[i]),
        is_scoring(data, ops, d1, delimiter, recs),
    ensures
        is_scoring(data, ops, d2, delimiter, recs),
{
    assert forall|i: int| 0 <= i < recs.len() implies analyzes(data, ops, d2, #[trigger] recs[i]) by {
        let rec = recs[i];
        assert(analyzes(data, ops, d1, rec));
        assert forall|e: usize|
            refers(data, ops, d1, rec.offset as int, rec.length as int, e) <==> refers(
                data,
                ops,
                d2,
                rec.offset as int,
                rec.length as int,
                e,
            ) by {
            assert forall|k: int| lookup(d1, ops[k].span(data)) == lookup(d2, ops[k].span(data)) by {
                lemma_lookup_agrees(d1, d2, ops[k].span(data));
            }
        }
    }
}

/// The whole analysis is determined by the buffer and the settings, and the
/// detection by the scores it is given: two runs on the same input agree in
/// their operations, dictionary entries, record analyses and selected
/// indices.
pub proof fn lemma_pipeline_deterministic(
    data: Seq<u8>,
    settings: Settings,
    first: Analysis,
    second: Analysis,
    scores: Seq<u64>,
    coverages: Option<Seq<u64>>,
    method: DetectionMethod,
    threshold: u64,
    top_n: Option<usize>,
    first_idx: Seq<usize>,
    second_idx: Seq<usize>,
)
    requires
        addressable(data.len()),
        is_analysis(data, settings, first),
        is_analysis(data, settings, second),
        is_detection(scores, coverages, method, threshold, top_n, first_idx),
        is_detection(scores, coverages, method, threshold, top_n, second_idx),
    ensures
        first.ops@ == second.ops@,
        first.dictionary@.len() == second.dictionary@.len(),
        forall|i: int|
            0 <= i < first.dictionary@.len() ==> entries_agree(
                #[trigger] first.dictionary@[i],
                second.dictionary@[i],
            ),
        first.records@.len() == second.records@.len(),
        forall|i: int|
            0 <= i < first.records@.len() ==> records_agree(
                #[trigger] first.records@[i],
                second.records@[i],
            ),
        first_idx == second_idx,
{
    lemma_dictionary_unique(
        data,
        first.ops@,
        settings.min_count as int,
        first.dictionary@,
        second.dictionary@,
    );
    lemma_scoring_transfers(
        data,
        first.ops@,
        first.dictionary@,
        second.dictionary@,
        settings.delimiter,
        first.records@,
    );
    lemma_scoring_unique(
        data,
        first.ops@,
        second.dictionary@,
        settings.delimiter,
        first.records@,
        second.records@,
    );
    lemma_detection_unique(scores, coverages, method, threshold, top_n, first_idx, second_idx);
}

} // verus!
