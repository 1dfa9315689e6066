//! Per-record accounting of what the scan found.
//!
//! The buffer is split into delimiter-terminated records; for each record the
//! bytes that back-references cover are counted, and the dictionary entries
//! that its back-references repeat are listed.

use crate::buckets::{
    bucket_at, bucket_count, bucket_of, lemma_prev_filed, mark, prev_filed, Buckets, NO_ITEM,
};
use crate::dictionary::{is_backref, is_dictionary, DictEntry};
use crate::ranking::{ascending, lemma_ascending_unique, sorted_unique};
use crate::scanner::{lemma_tiles_ordered, tiles, OpKind, ScanOp};
use vstd::prelude::*;

verus! {

/// What the scan found in one record.
#[derive(Debug, Clone)]
pub struct RecordAnalysis {
    pub index: usize,
    pub offset: usize,
    pub length: usize,
    pub backref_bytes: usize,
    pub literal_bytes: usize,
    /// Dictionary entry ids referenced by this record (sorted, deduplicated).
    pub ref_entries: Vec<usize>,
}

impl RecordAnalysis {
    /// The bytes of `data` that this record spans.
    pub open spec fn span(self, data: Seq<u8>) -> Seq<u8> {
        data.subrange(self.offset as int, self.offset + self.length)
    }

    /// Return the byte content of this record.
    pub fn content<'a>(&self, data: &'a [u8]) -> (out: &'a [u8])
        requires
            self.offset + self.length <= data@.len(),
        ensures
            out@ == self.span(data@),
    {
        let n: usize = data.len();
        assert(self.offset + self.length <= n);
        let end: usize = self.offset + self.length;
        vstd::slice::slice_subrange(data, self.offset, end)
    }
}

/// Span `i` ends where span `i + 1` begins, on a delimiter.
pub open spec fn closed(data: Seq<u8>, delimiter: u8, spans: Seq<(usize, usize)>, i: int) -> bool {
    &&& spans[i].0 + spans[i].1 == spans[i + 1].0
    &&& data[spans[i + 1].0 - 1] == delimiter
}

/// The (offset, length) spans are the records of `data`: they lie end to end
/// from 0 to the buffer's end, each ends on the first delimiter at or after
/// its start, and only the last may end without one.
pub open spec fn is_split(data: Seq<u8>, delimiter: u8, spans: Seq<(usize, usize)>) -> bool {
    &&& spans.len() == 0 ==> data.len() == 0
    &&& spans.len() > 0 ==> spans[0].0 == 0 && spans.last().0 + spans.last().1 == data.len()
    &&& forall|i: int| 0 <= i < spans.len() ==> (#[trigger] spans[i]).1 >= 1
    &&& forall|i: int| 0 <= i < spans.len() - 1 ==> #[trigger] closed(data, delimiter, spans, i)
    &&& forall|i: int, b: int|
        #[trigger] in_span(spans, i, b) && b < spans[i].0 + spans[i].1 - 1 ==> data[b] != delimiter
}

/// Byte `b` lies in span `i`.
pub open spec fn in_span(spans: Seq<(usize, usize)>, i: int, b: int) -> bool {
    0 <= i < spans.len() && spans[i].0 <= b < spans[i].0 + spans[i].1
}

/// Split a buffer into records: every delimiter closes a record, and bytes
/// after the last delimiter form a final record.
pub fn split_records(data: &[u8], delimiter: u8) -> (spans: Vec<(usize, usize)>)
    ensures
        is_split(data@, delimiter, spans@),
{
    let n: usize = data.len();
    let mut spans: Vec<(usize, usize)> = Vec::new();
    let mut start: usize = 0;
    let mut i: usize = 0;
    while i < n
        invariant
            n == data@.len(),
            start <= i <= n,
            spans@.len() == 0 ==> start == 0,
            spans@.len() > 0 ==> spans@[0].0 == 0 && spans@.last().0 + spans@.last().1 == start,
            start > 0 ==> spans@.len() > 0 && data@[start - 1] == delimiter,
            forall|k: int| 0 <= k < spans@.len() ==> (#[trigger] spans@[k]).1 >= 1,
            forall|k: int| 0 <= k < spans@.len() - 1 ==> #[trigger] closed(data@, delimiter, spans@, k),
            forall|k: int, b: int|
                #[trigger] in_span(spans@, k, b) && b < spans@[k].0 + spans@[k].1 - 1 ==> data@[b]
                    != delimiter,
            forall|b: int| start <= b < i ==> #[trigger] data@[b] != delimiter,
        decreases n - i,
    {
        if data[i] == delimiter {
            let ghost before = spans@;
            spans.push((start, i + 1 - start));
            proof {
                let m = before.len() as int;
                assert forall|k: int| 0 <= k < spans@.len() - 1 implies #[trigger] closed(
                    data@,
                    delimiter,
                    spans@,
                    k,
                ) by {
                    if k < m - 1 {
                        assert(closed(data@, delimiter, before, k));
                    }
                }
                assert forall|k: int, b: int|
                    #[trigger] in_span(spans@, k, b) && b < spans@[k].0 + spans@[k].1
                        - 1 implies data@[b] != delimiter by {
                    if k < m {
                        assert(in_span(before, k, b));
                    }
                }
            }
            start = i + 1;
        }
        i += 1;
    }
    if start < n {
        let ghost before = spans@;
        spans.push((start, n - start));
        proof {
            let m = before.len() as int;
            assert forall|k: int| 0 <= k < spans@.len() - 1 implies #[trigger] closed(
                data@,
                delimiter,
                spans@,
                k,
            ) by {
                if k < m - 1 {
                    assert(closed(data@, delimiter, before, k));
                }
            }
            assert forall|k: int, b: int|
                #[trigger] in_span(spans@, k, b) && b < spans@[k].0 + spans@[k].1 - 1 implies data@[b]
                != delimiter by {
                if k < m {
                    assert(in_span(before, k, b));
                }
            }
        }
    }
    spans
}

/// `op` is a back-reference that covers byte `b`.
pub open spec fn covers_byte(op: ScanOp, b: int) -> bool {
    op.kind == OpKind::Backref && op.position <= b < op.position + op.length
}

/// One of the first `k` operations covers byte `b`.
pub open spec fn covered_upto(ops: Seq<ScanOp>, b: int, k: int) -> bool {
    exists|j: int| 0 <= j < k && j < ops.len() && covers_byte(#[trigger] ops[j], b)
}

/// Some back-reference covers byte `b`.
pub open spec fn covered(ops: Seq<ScanOp>, b: int) -> bool {
    covered_upto(ops, b, ops.len() as int)
}

/// How many bytes of `lo..hi` back-references cover.
pub open spec fn covered_count(ops: Seq<ScanOp>, lo: int, hi: int) -> nat
    decreases hi - lo,
{
    if hi <= lo {
        0
    } else {
        covered_count(ops, lo, hi - 1) + if covered(ops, hi - 1) {
            1nat
        } else {
            0nat
        }
    }
}

/// The operation's span and the record's span share a byte.
pub open spec fn overlaps(op: ScanOp, offset: int, length: int) -> bool {
    op.position < offset + length && offset < op.position + op.length
}

/// The id under which the dictionary holds `content`: that of the last entry
/// with these bytes.
pub open spec fn lookup(dict: Seq<DictEntry>, content: Seq<u8>) -> Option<usize>
    decreases dict.len(),
{
    if dict.len() == 0 {
        None
    } else if dict.last().content@ == content {
        Some(dict.last().entry_id)
    } else {
        lookup(dict.drop_last(), content)
    }
}

/// Some back-reference that overlaps the record repeats the pattern of
/// dictionary entry `e`.
pub open spec fn refers(
    data: Seq<u8>,
    ops: Seq<ScanOp>,
    dict: Seq<DictEntry>,
    offset: int,
    length: int,
    e: usize,
) -> bool {
    exists|k: int|
        #[trigger] is_backref(ops, k) && overlaps(ops[k], offset, length) && lookup(
            dict,
            ops[k].span(data),
        ) == Some(e)
}

/// The record's counts and references are those of its span.
pub open spec fn analyzes(
    data: Seq<u8>,
    ops: Seq<ScanOp>,
    dict: Seq<DictEntry>,
    rec: RecordAnalysis,
) -> bool {
    &&& rec.backref_bytes == covered_count(ops, rec.offset as int, rec.offset + rec.length)
    &&& rec.backref_bytes + rec.literal_bytes == rec.length
    &&& ascending(rec.ref_entries@)
    &&& forall|e: usize|
        rec.ref_entries@.contains(e) <==> refers(
            data,
            ops,
            dict,
            rec.offset as int,
            rec.length as int,
            e,
        )
}

/// The (offset, length) spans of the records.
pub open spec fn record_spans(recs: Seq<RecordAnalysis>) -> Seq<(usize, usize)> {
    Seq::new(recs.len(), |i: int| (recs[i].offset, recs[i].length))
}

/// `recs` are the analyses of the records of `data`, in order.
pub open spec fn is_scoring(
    data: Seq<u8>,
    ops: Seq<ScanOp>,
    dict: Seq<DictEntry>,
    delimiter: u8,
    recs: Seq<RecordAnalysis>,
) -> bool {
    &&& is_split(data, delimiter, record_spans(recs))
    &&& forall|i: int|
        0 <= i < recs.len() ==> (#[trigger] recs[i]).index == i && analyzes(
            data,
            ops,
            dict,
            recs[i],
        )
}

/// Every back-reference lies within the buffer.
pub open spec fn backrefs_within(data: Seq<u8>, ops: Seq<ScanOp>) -> bool {
    forall|k: int|
        0 <= k < ops.len() && (#[trigger] ops[k]).kind == OpKind::Backref ==> ops[k].position
            + ops[k].length <= data.len()
}

/// Operations that tile the buffer keep their back-references within it.
pub proof fn lemma_tiles_within(data: Seq<u8>, ops: Seq<ScanOp>)
    requires
        tiles(ops, data.len() as int),
    ensures
        backrefs_within(data, ops),
{
    assert forall|k: int|
        0 <= k < ops.len() && (#[trigger] ops[k]).kind == OpKind::Backref implies ops[k].position
        + ops[k].length <= data.len() by {
        lemma_tiles_ordered(ops, data.len() as int, k, k);
    }
}

/// Whether every back-reference lies within the buffer.
pub fn backrefs_lie_within(data: &[u8], ops: &[ScanOp]) -> (ok: bool)
    ensures
        ok == backrefs_within(data@, ops@),
{
    let n: usize = data.len();
    let mut k: usize = 0;
    while k < ops.len()
        invariant
            n == data@.len(),
            k <= ops@.len(),
            forall|j: int|
                0 <= j < k && (#[trigger] ops@[j]).kind == OpKind::Backref ==> ops@[j].position
                    + ops@[j].length <= n,
        decreases ops@.len() - k,
    {
        let op: ScanOp = ops[k];
        match op.kind {
            OpKind::Backref => {
                if op.position > n || op.length > n - op.position {
                    proof {
                        assert(ops@[k as int].kind == OpKind::Backref);
                    }
                    return false;
                }
            },
            OpKind::Literal => {},
        }
        k += 1;
    }
    true
}

/// Mark the bytes that back-references cover.
fn coverage_mask(ops: &[ScanOp], n: usize, Ghost(data): Ghost<Seq<u8>>) -> (mask: Vec<bool>)
    requires
        n == data.len(),
        backrefs_within(data, ops@),
    ensures
        mask@.len() == n,
        forall|b: int| 0 <= b < n ==> #[trigger] mask@[b] == covered(ops@, b),
{
    let mut mask: Vec<bool> = vec![false; n];
    let mut k: usize = 0;
    while k < ops.len()
        invariant
            n == data.len(),
            backrefs_within(data, ops@),
            k <= ops@.len(),
            mask@.len() == n,
            forall|b: int| 0 <= b < n ==> #[trigger] mask@[b] == covered_upto(ops@, b, k as int),
        decreases ops@.len() - k,
    {
        let op: ScanOp = ops[k];
        match op.kind {
            OpKind::Literal => {
                proof {
                    assert forall|b: int| 0 <= b < n implies #[trigger] mask@[b] == covered_upto(
                        ops@,
                        b,
                        k + 1,
                    ) by {
                        if covered_upto(ops@, b, k + 1) {
                            let j = choose|j: int|
                                0 <= j < k + 1 && j < ops@.len() && covers_byte(
                                    #[trigger] ops@[j],
                                    b,
                                );
                            assert(j < k);
                        }
                        if covered_upto(ops@, b, k as int) {
                            let j = choose|j: int|
                                0 <= j < k && j < ops@.len() && covers_byte(#[trigger] ops@[j], b);
                            assert(0 <= j < k + 1 && covers_byte(ops@[j], b));
                        }
                    }
                }
            },
            OpKind::Backref => {
                proof {
                    assert(ops@[k as int].kind == OpKind::Backref);
                }
                let end: usize = op.position + op.length;
                let mut i: usize = op.position;
                while i < end
                    invariant
                        k < ops@.len(),
                        op == ops@[k as int],
                        op.kind == OpKind::Backref,
                        end == op.position + op.length,
                        end <= n,
                        op.position <= i <= end,
                        mask@.len() == n,
                        forall|b: int|
                            0 <= b < n ==> #[trigger] mask@[b] == (covered_upto(ops@, b, k as int)
                                || op.position <= b < i),
                    decreases end - i,
                {
                    mask.set(i, true);
                    i += 1;
                }
                proof {
                    assert forall|b: int| 0 <= b < n implies #[trigger] mask@[b] == covered_upto(
                        ops@,
                        b,
                        k + 1,
                    ) by {
                        if covered_upto(ops@, b, k + 1) {
                            let j = choose|j: int|
                                0 <= j < k + 1 && j < ops@.len() && covers_byte(
                                    #[trigger] ops@[j],
                                    b,
                                );
                            if j < k {
                                assert(covered_upto(ops@, b, k as int));
                            }
                        }
                        if covered_upto(ops@, b, k as int) {
                            let j = choose|j: int|
                                0 <= j < k && j < ops@.len() && covers_byte(#[trigger] ops@[j], b);
                            assert(0 <= j < k + 1 && covers_byte(ops@[j], b));
                        }
                        if op.position <= b < end {
                            assert(covers_byte(ops@[k as int], b));
                        }
                    }
                }
            },
        }
        k += 1;
    }
    mask
}

/// Whether the entry's pattern is the bytes that `op` spans.
fn holds_span(entry: &DictEntry, data: &[u8], op: &ScanOp) -> (eq: bool)
    requires
        op.within(data@.len()),
    ensures
        eq == (entry.content@ == op.span(data@)),
{
    let n: usize = data.len();
    if entry.content.len() != op.length {
        proof {
            assert(entry.content@.len() != op.span(data@).len());
        }
        return false;
    }
    let len: usize = op.length;
    let mut i: usize = 0;
    while i < len
        invariant
            n == data@.len(),
            len == op.length,
            len == entry.content@.len(),
            op.position + len <= n,
            i <= len,
            forall|k: int| 0 <= k < i ==> #[trigger] entry.content@[k] == op.span(data@)[k],
        decreases len - i,
    {
        if entry.content[i] != data[op.position + i] {
            proof {
                assert(entry.content@[i as int] != op.span(data@)[i as int]);
            }
            return false;
        }
        i += 1;
    }
    proof {
        assert(entry.content@ =~= op.span(data@));
    }
    true
}

/// Entry `i` is filed in the index under the bucket of its pattern.
spec fn entries_filed(index: Buckets, dict: Seq<DictEntry>) -> bool {
    &&& index.wf()
    &&& index.homes().len() == dict.len()
    &&& forall|i: int|
        0 <= i < dict.len() ==> #[trigger] index.homes()[i] == bucket_of(
            dict[i].content@,
            index.size(),
        )
}

/// File every entry of the dictionary under the bucket of its pattern.
fn index_entries(dictionary: &[DictEntry]) -> (index: Buckets)
    ensures
        entries_filed(index, dictionary@),
{
    let size: usize = bucket_count(dictionary.len());
    let mut index = Buckets::new(size);
    let mut i: usize = 0;
    while i < dictionary.len()
        invariant
            i <= dictionary@.len(),
            size > 0,
            entries_filed(index, dictionary@.subrange(0, i as int)),
            index.size() == size,
        decreases dictionary@.len() - i,
    {
        let entry: &DictEntry = &dictionary[i];
        let b: usize = bucket_at(entry.content.as_slice(), 0, entry.content.len(), size);
        proof {
            assert(entry.content@.subrange(0, entry.content@.len() as int) =~= entry.content@);
        }
        index.file(b);
        i += 1;
    }
    proof {
        assert(dictionary@.subrange(0, i as int) =~= dictionary@);
    }
    index
}

/// The id of a pattern is that of the last entry that holds it, and none
/// where no entry does.
proof fn lemma_lookup_last(dict: Seq<DictEntry>, content: Seq<u8>, i: int)
    requires
        -1 <= i < dict.len(),
        i >= 0 ==> dict[i].content@ == content,
        forall|x: int| i < x < dict.len() ==> (#[trigger] dict[x]).content@ != content,
    ensures
        lookup(dict, content) == if i >= 0 {
            Some(dict[i].entry_id)
        } else {
            None
        },
    decreases dict.len(),
{
    if dict.len() > 0 && i < dict.len() - 1 {
        assert(dict[dict.len() - 1].content@ != content);
        assert forall|x: int| i < x < dict.drop_last().len() implies (
        #[trigger] dict.drop_last()[x]).content@ != content by {
            assert(dict[x].content@ != content);
        }
        lemma_lookup_last(dict.drop_last(), content, i);
    }
}

/// The dictionary id of the pattern that `op` repeats.
fn find_entry(dictionary: &[DictEntry], index: &Buckets, data: &[u8], op: &ScanOp) -> (found: Option<
    usize,
>)
    requires
        op.within(data@.len()),
        entries_filed(*index, dictionary@),
    ensures
        found == lookup(dictionary@, op.span(data@)),
{
    let n: usize = data.len();
    let size: usize = index.buckets();
    let count: usize = index.count();
    let b: usize = bucket_at(data, op.position, op.length, size);
    let mut g: usize = index.latest(b);
    let ghost homes = index.homes();
    let ghost mut cand: int = prev_filed(homes, b, homes.len() as int);
    proof {
        lemma_prev_filed(homes, b, homes.len() as int);
        assert forall|x: int| cand < x < dictionary@.len() implies (
        #[trigger] dictionary@[x]).content@ != op.span(data@) by {
            assert(homes[x] != b);
        }
    }
    while g != NO_ITEM
        invariant
            op.within(data@.len()),
            entries_filed(*index, dictionary@),
            homes == index.homes(),
            count == homes.len(),
            b == bucket_of(op.span(data@), index.size()),
            g == mark(cand),
            -1 <= cand < homes.len(),
            cand >= 0 ==> homes[cand] == b,
            forall|x: int|
                cand < x < dictionary@.len() ==> (#[trigger] dictionary@[x]).content@ != op.span(
                    data@,
                ),
        decreases cand + 1,
    {
        if holds_span(&dictionary[g], data, op) {
            proof {
                lemma_lookup_last(dictionary@, op.span(data@), cand);
            }
            return Some(dictionary[g].entry_id);
        }
        let next: usize = index.earlier(g);
        proof {
            lemma_prev_filed(homes, b, cand);
            let lower = prev_filed(homes, b, cand);
            assert forall|x: int| lower < x < dictionary@.len() implies (
            #[trigger] dictionary@[x]).content@ != op.span(data@) by {
                if x < cand {
                    assert(homes[x] != b);
                }
            }
            cand = lower;
        }
        g = next;
    }
    proof {
        lemma_lookup_last(dictionary@, op.span(data@), -1);
    }
    None
}

/// Every span of a split lies within the buffer and ends where the next
/// begins.
pub proof fn lemma_split_bounds(data: Seq<u8>, delimiter: u8, spans: Seq<(usize, usize)>, i: int)
    requires
        is_split(data, delimiter, spans),
        0 <= i < spans.len(),
    ensures
        spans[i].0 + spans[i].1 <= data.len(),
        i + 1 < spans.len() ==> spans[i].0 + spans[i].1 == spans[i + 1].0,
    decreases spans.len() - i,
{
    if i + 1 < spans.len() {
        assert(closed(data, delimiter, spans, i));
        lemma_split_bounds(data, delimiter, spans, i + 1);
    }
}

/// Count the covered bytes of `lo..hi`.
fn count_covered(mask: &Vec<bool>, Ghost(ops): Ghost<Seq<ScanOp>>, lo: usize, hi: usize) -> (count:
    usize)
    requires
        lo <= hi <= mask@.len(),
        forall|b: int| 0 <= b < mask@.len() ==> #[trigger] mask@[b] == covered(ops, b),
    ensures
        count == covered_count(ops, lo as int, hi as int),
        count <= hi - lo,
{
    let mut count: usize = 0;
    let mut b: usize = lo;
    while b < hi
        invariant
            lo <= b <= hi,
            hi <= mask@.len(),
            forall|b: int| 0 <= b < mask@.len() ==> #[trigger] mask@[b] == covered(ops, b),
            count == covered_count(ops, lo as int, b as int),
            count <= b - lo,
        decreases hi - b,
    {
        if mask[b] {
            count += 1;
        }
        b += 1;
    }
    count
}

/// The indices of the back-references among the operations, in order.
fn list_backrefs(ops: &[ScanOp]) -> (brs: Vec<usize>)
    ensures
        ascending(brs@),
        forall|k: usize| brs@.contains(k) <==> is_backref(ops@, k as int),
        forall|t: int| 0 <= t < brs@.len() ==> is_backref(ops@, #[trigger] brs@[t] as int),
{
    let mut brs: Vec<usize> = Vec::new();
    let mut k: usize = 0;
    while k < ops.len()
        invariant
            k <= ops@.len(),
            ascending(brs@),
            forall|t: int| 0 <= t < brs@.len() ==> #[trigger] brs@[t] < k,
            forall|j: usize| brs@.contains(j) <==> j < k && is_backref(ops@, j as int),
            forall|t: int| 0 <= t < brs@.len() ==> is_backref(ops@, #[trigger] brs@[t] as int),
        decreases ops@.len() - k,
    {
        let ghost before = brs@;
        let mut here: bool = false;
        match ops[k].kind {
            OpKind::Backref => {
                brs.push(k);
                here = true;
            },
            OpKind::Literal => {},
        }
        proof {
            assert forall|j: usize| brs@.contains(j) <==> j < k + 1 && is_backref(
                ops@,
                j as int,
            ) by {
                if before.contains(j) {
                    let w = choose|w: int| 0 <= w < before.len() && before[w] == j;
                    assert(brs@[w] == j);
                }
                if brs@.contains(j) {
                    let w = choose|w: int| 0 <= w < brs@.len() && brs@[w] == j;
                    if w < before.len() {
                        assert(before[w] == j);
                        assert(before.contains(j));
                    }
                }
                if here && j == k {
                    assert(brs@[before.len() as int] == k);
                }
            }
        }
        k += 1;
    }
    brs
}

/// The back-references begin in non-decreasing order of position.
spec fn starts_in_order(ops: Seq<ScanOp>, brs: Seq<usize>) -> bool {
    forall|a: int, b: int|
        0 <= a <= b < brs.len() ==> ops[#[trigger] brs[a] as int].position <= ops[
            #[trigger] brs[b] as int].position
}

/// Whether the back-references begin in non-decreasing order of position.
fn starts_sorted(ops: &[ScanOp], brs: &Vec<usize>) -> (sorted: bool)
    requires
        forall|t: int| 0 <= t < brs@.len() ==> is_backref(ops@, #[trigger] brs@[t] as int),
    ensures
        sorted == starts_in_order(ops@, brs@),
{
    let mut t: usize = 1;
    while t < brs.len()
        invariant
            1 <= t,
            forall|t: int| 0 <= t < brs@.len() ==> is_backref(ops@, #[trigger] brs@[t] as int),
            forall|a: int, b: int|
                0 <= a <= b < t && b < brs@.len() ==> ops@[#[trigger] brs@[a] as int].position
                    <= ops@[#[trigger] brs@[b] as int].position,
        decreases brs@.len() - t,
    {
        proof {
            assert(is_backref(ops@, brs@[t - 1] as int));
            assert(is_backref(ops@, brs@[t as int] as int));
        }
        if ops[brs[t - 1]].position > ops[brs[t]].position {
            return false;
        }
        proof {
            assert forall|a: int, b: int| 0 <= a <= b < t + 1 && b < brs@.len() implies ops@[
                #[trigger] brs@[a] as int].position <= ops@[#[trigger] brs@[b] as int].position by {
                if b == t && a < t {
                    assert(ops@[brs@[a] as int].position <= ops@[brs@[t - 1] as int].position);
                }
            }
        }
        t += 1;
    }
    true
}

/// What the record loop knows of the back-references: where they are, which
/// dictionary entry each repeats, and whether they begin in order.
spec fn listed(
    data: Seq<u8>,
    ops: Seq<ScanOp>,
    dict: Seq<DictEntry>,
    brs: Seq<usize>,
    ids: Seq<Option<usize>>,
    sorted: bool,
) -> bool {
    &&& backrefs_within(data, ops)
    &&& forall|k: usize| brs.contains(k) <==> is_backref(ops, k as int)
    &&& forall|t: int| 0 <= t < brs.len() ==> is_backref(ops, #[trigger] brs[t] as int)
    &&& ids.len() == brs.len()
    &&& forall|t: int|
        0 <= t < brs.len() ==> #[trigger] ids[t] == lookup(dict, ops[brs[t] as int].span(data))
    &&& sorted ==> starts_in_order(ops, brs)
}

/// The dictionary ids of the back-references from `cursor` on that overlap
/// the record, in increasing order and without repeats.
fn collect_refs(
    ops: &[ScanOp],
    brs: &Vec<usize>,
    ids: &Vec<Option<usize>>,
    sorted: bool,
    cursor: usize,
    offset: usize,
    length: usize,
    n: usize,
    Ghost(data): Ghost<Seq<u8>>,
    Ghost(dict): Ghost<Seq<DictEntry>>,
) -> (refs: Vec<usize>)
    requires
        n == data.len(),
        listed(data, ops@, dict, brs@, ids@, sorted),
        cursor <= brs@.len(),
        offset + length <= n,
        forall|t: int|
            0 <= t < cursor ==> ops@[#[trigger] brs@[t] as int].position + ops@[brs@[t] as int].length
                <= offset,
    ensures
        ascending(refs@),
        forall|e: usize|
            refs@.contains(e) <==> refers(data, ops@, dict, offset as int, length as int, e),
{
    let end: usize = offset + length;
    let count: usize = ops.len();
    let mut raw: Vec<usize> = Vec::new();
    let mut j: usize = cursor;
    loop
        invariant_except_break
            n == data.len(),
            listed(data, ops@, dict, brs@, ids@, sorted),
            end == offset + length,
            end <= n,
            cursor <= j <= brs@.len(),
            forall|e: usize|
                raw@.contains(e) <==> exists|t: int|
                    cursor <= t < j && overlaps(
                        ops@[#[trigger] brs@[t] as int],
                        offset as int,
                        length as int,
                    ) && ids@[t] == Some(e),
        ensures
            cursor <= j <= brs@.len(),
            j < brs@.len() ==> sorted && ops@[brs@[j as int] as int].position >= end,
            forall|e: usize|
                raw@.contains(e) <==> exists|t: int|
                    cursor <= t < j && overlaps(
                        ops@[#[trigger] brs@[t] as int],
                        offset as int,
                        length as int,
                    ) && ids@[t] == Some(e),
        decreases brs@.len() - j,
    {
        if j >= brs.len() {
            break ;
        }
        proof {
            assert(is_backref(ops@, brs@[j as int] as int));
        }
        let op: ScanOp = ops[brs[j]];
        if sorted && op.position >= end {
            break ;
        }
        let ghost before = raw@;
        let mut pushed: Option<usize> = None;
        if op.position < end && op.position + op.length > offset {
            if let Some(e) = ids[j] {
                raw.push(e);
                pushed = Some(e);
            }
        }
        proof {
            assert forall|e: usize|
                raw@.contains(e) <==> exists|t: int|
                    cursor <= t < j + 1 && overlaps(
                        ops@[#[trigger] brs@[t] as int],
                        offset as int,
                        length as int,
                    ) && ids@[t] == Some(e) by {
                let here = overlaps(ops@[brs@[j as int] as int], offset as int, length as int)
                    && ids@[j as int] == Some(e);
                assert(here <==> pushed == Some(e));
                if before.contains(e) {
                    let w = choose|w: int| 0 <= w < before.len() && before[w] == e;
                    assert(raw@[w] == e);
                    let t = choose|t: int|
                        cursor <= t < j && overlaps(
                            ops@[#[trigger] brs@[t] as int],
                            offset as int,
                            length as int,
                        ) && ids@[t] == Some(e);
                    assert(cursor <= t < j + 1);
                }
                if pushed == Some(e) {
                    assert(raw@[before.len() as int] == e);
                    assert(overlaps(ops@[brs@[j as int] as int], offset as int, length as int));
                }
                if raw@.contains(e) {
                    let w = choose|w: int| 0 <= w < raw@.len() && raw@[w] == e;
                    if w < before.len() {
                        assert(before[w] == e);
                    }
                }
                if exists|t: int|
                    cursor <= t < j + 1 && overlaps(
                        ops@[#[trigger] brs@[t] as int],
                        offset as int,
                        length as int,
                    ) && ids@[t] == Some(e) {
                    let t = choose|t: int|
                        cursor <= t < j + 1 && overlaps(
                            ops@[#[trigger] brs@[t] as int],
                            offset as int,
                            length as int,
                        ) && ids@[t] == Some(e);
                    if t < j {
                        assert(before.contains(e));
                    }
                }
            }
        }
        j += 1;
    }
    let refs = sorted_unique(&raw);
    proof {
        assert forall|e: usize|
            refs@.contains(e) <==> refers(data, ops@, dict, offset as int, length as int, e) by {
            if refs@.contains(e) {
                let t = choose|t: int|
                    cursor <= t < j && overlaps(
                        ops@[#[trigger] brs@[t] as int],
                        offset as int,
                        length as int,
                    ) && ids@[t] == Some(e);
                let k = brs@[t] as int;
                assert(is_backref(ops@, k) && lookup(dict, ops@[k].span(data)) == Some(e));
            }
            if refers(data, ops@, dict, offset as int, length as int, e) {
                let k = choose|k: int|
                    #[trigger] is_backref(ops@, k) && overlaps(ops@[k], offset as int, length as int)
                        && lookup(dict, ops@[k].span(data)) == Some(e);
                assert(k < count);
                let ku = k as usize;
                assert(is_backref(ops@, ku as int));
                assert(brs@.contains(ku));
                let t = choose|t: int| 0 <= t < brs@.len() && brs@[t] == ku;
                if t < cursor {
                    assert(ops@[brs@[t] as int].position + ops@[brs@[t] as int].length <= offset);
                }
                if t >= j {
                    assert(ops@[brs@[j as int] as int].position <= ops@[brs@[t] as int].position);
                }
                assert(cursor <= t < j && overlaps(
                    ops@[brs@[t] as int],
                    offset as int,
                    length as int,
                ) && ids@[t] == Some(e));
                assert(raw@.contains(e));
            }
        }
    }
    refs
}

/// Analyze each record of `data` with the scan operations and the
/// dictionary.
///
/// Records end at `delimiter`; a last record may lack it. For each record
/// the result counts the bytes covered by back-references and lists the ids
/// of the dictionary entries whose pattern a back-reference overlapping the
/// record repeats.
pub fn score_records(data: &[u8], ops: &[ScanOp], dictionary: &[DictEntry], delimiter: u8) -> (recs:
    Vec<RecordAnalysis>)
    requires
        backrefs_within(data@, ops@),
    ensures
        is_scoring(data@, ops@, dictionary@, delimiter, recs@),
{
    let n: usize = data.len();
    let spans = split_records(data, delimiter);
    let mask = coverage_mask(ops, n, Ghost(data@));
    let index = index_entries(dictionary);
    let brs = list_backrefs(ops);
    let sorted: bool = starts_sorted(ops, &brs);
    let mut ids: Vec<Option<usize>> = Vec::new();
    let mut t: usize = 0;
    while t < brs.len()
        invariant
            n == data@.len(),
            backrefs_within(data@, ops@),
            entries_filed(index, dictionary@),
            forall|t: int| 0 <= t < brs@.len() ==> is_backref(ops@, #[trigger] brs@[t] as int),
            t <= brs@.len(),
            ids@.len() == t,
            forall|j: int|
                0 <= j < t ==> #[trigger] ids@[j] == lookup(
                    dictionary@,
                    ops@[brs@[j] as int].span(data@),
                ),
        decreases brs@.len() - t,
    {
        proof {
            assert(is_backref(ops@, brs@[t as int] as int));
        }
        let op: ScanOp = ops[brs[t]];
        let id: Option<usize> = find_entry(dictionary, &index, data, &op);
        ids.push(id);
        t += 1;
    }
    let mut recs: Vec<RecordAnalysis> = Vec::new();
    let mut cursor: usize = 0;
    let mut r: usize = 0;
    while r < spans.len()
        invariant
            n == data@.len(),
            is_split(data@, delimiter, spans@),
            mask@.len() == n,
            forall|b: int| 0 <= b < n ==> #[trigger] mask@[b] == covered(ops@, b),
            listed(data@, ops@, dictionary@, brs@, ids@, sorted),
            r <= spans@.len(),
            recs@.len() == r,
            cursor <= brs@.len(),
            r < spans@.len() ==> forall|j: int|
                0 <= j < cursor ==> ops@[#[trigger] brs@[j] as int].position + ops@[brs@[j] as int].length
                    <= spans@[r as int].0,
            forall|t: int|
                0 <= t < r ==> (#[trigger] recs@[t]).index == t && recs@[t].offset == spans@[t].0
                    && recs@[t].length == spans@[t].1 && analyzes(
                    data@,
                    ops@,
                    dictionary@,
                    recs@[t],
                ),
        decreases spans@.len() - r,
    {
        let offset: usize = spans[r].0;
        let length: usize = spans[r].1;
        proof {
            lemma_split_bounds(data@, delimiter, spans@, r as int);
        }
        let end: usize = offset + length;
        let backref_bytes: usize = count_covered(&mask, Ghost(ops@), offset, end);
        let literal_bytes: usize = length - backref_bytes;
        if sorted {
            loop
                invariant_except_break
                    n == data@.len(),
                    listed(data@, ops@, dictionary@, brs@, ids@, sorted),
                    cursor <= brs@.len(),
                    offset <= n,
                    forall|j: int|
                        0 <= j < cursor ==> ops@[#[trigger] brs@[j] as int].position + ops@[brs@[j] as int].length
                            <= offset,
                ensures
                    cursor <= brs@.len(),
                    forall|j: int|
                        0 <= j < cursor ==> ops@[#[trigger] brs@[j] as int].position + ops@[brs@[j] as int].length
                            <= offset,
                decreases brs@.len() - cursor,
            {
                if cursor >= brs.len() {
                    break ;
                }
                proof {
                    assert(is_backref(ops@, brs@[cursor as int] as int));
                }
                let op: ScanOp = ops[brs[cursor]];
                if op.position + op.length > offset {
                    break ;
                }
                cursor += 1;
            }
        }
        let ref_entries: Vec<usize> = collect_refs(
            ops,
            &brs,
            &ids,
            sorted,
            cursor,
            offset,
            length,
            n,
            Ghost(data@),
            Ghost(dictionary@),
        );
        recs.push(
            RecordAnalysis { index: r, offset, length, backref_bytes, literal_bytes, ref_entries },
        );
        r += 1;
    }
    proof {
        assert(record_spans(recs@) =~= spans@);
    }
    recs
}

/// The sum of the shares `id / size` of the ids.
pub open spec fn share_sum(ids: Seq<usize>, size: int) -> real
    decreases ids.len(),
{
    if ids.len() == 0 {
        0 as real
    } else {
        share_sum(ids.drop_last(), size) + ids.last() as real / size as real
    }
}

impl RecordAnalysis {
    /// The share of the record's bytes that back-references cover; 0 for an
    /// empty record.
    pub open spec fn coverage(self) -> real {
        if self.length == 0 {
            0 as real
        } else {
            self.backref_bytes as real / self.length as real
        }
    }

    /// How rare the referenced patterns are: the mean, over the referenced
    /// entries, of the entry's id divided by the dictionary's size (taken as
    /// 1 for an empty dictionary); 1 where the record references none.
    pub open spec fn rarity(self, dict_len: int) -> real {
        let size = if dict_len >= 1 {
            dict_len
        } else {
            1
        };
        if self.ref_entries@.len() == 0 {
            1 as real
        } else {
            share_sum(self.ref_entries@, size) / self.ref_entries@.len() as real
        }
    }

    /// The anomaly score of the record: seven tenths of the uncovered share
    /// plus three tenths of the rarity.
    pub open spec fn anomaly_score(self, dict_len: int) -> real {
        (7 as real / 10 as real) * (1 as real - self.coverage()) + (3 as real / 10 as real)
            * self.rarity(dict_len)
    }
}

/// Ids below the size give shares that sum to at most their number.
proof fn lemma_share_sum_bounds(ids: Seq<usize>, size: int)
    requires
        size >= 1,
        forall|k: int| 0 <= k < ids.len() ==> #[trigger] ids[k] < size,
    ensures
        0 as real <= share_sum(ids, size) <= ids.len() as real,
    decreases ids.len(),
{
    if ids.len() > 0 {
        lemma_share_sum_bounds(ids.drop_last(), size);
        let id = ids.last() as int;
        assert(0 as real <= id as real / size as real <= 1 as real) by (nonlinear_arith)
            requires
                0 <= id < size,
        ;
        assert(ids.drop_last().len() + 1 == ids.len());
    }
}

/// For every analyzed record, back-reference and literal bytes add up to
/// its length, and its coverage lies between 0 and 1.
pub proof fn lemma_record_bytes_and_coverage(
    data: Seq<u8>,
    ops: Seq<ScanOp>,
    dict: Seq<DictEntry>,
    rec: RecordAnalysis,
)
    requires
        analyzes(data, ops, dict, rec),
    ensures
        rec.backref_bytes + rec.literal_bytes == rec.length,
        0 as real <= rec.coverage() <= 1 as real,
{
    if rec.length != 0 {
        let part = rec.backref_bytes as int;
        let whole = rec.length as int;
        assert(0 as real <= part as real / whole as real <= 1 as real) by (nonlinear_arith)
            requires
                0 <= part <= whole,
                whole > 0,
        ;
    }
}

/// An id that the lookup gives is the id of some entry.
proof fn lemma_lookup_found(dict: Seq<DictEntry>, content: Seq<u8>, e: usize)
    requires
        lookup(dict, content) == Some(e),
    ensures
        exists|i: int| 0 <= i < dict.len() && (#[trigger] dict[i]).entry_id == e,
    decreases dict.len(),
{
    if dict.len() > 0 {
        if dict.last().content@ == content {
            assert(dict[dict.len() - 1].entry_id == e);
        } else {
            lemma_lookup_found(dict.drop_last(), content, e);
            let i = choose|i: int|
                0 <= i < dict.drop_last().len() && (#[trigger] dict.drop_last()[i]).entry_id == e;
            assert(dict[i].entry_id == e);
        }
    }
}

/// A record analyzed with the dictionary of the operations has an anomaly
/// score between 0 and 1.
pub proof fn lemma_score_in_unit_interval(
    data: Seq<u8>,
    ops: Seq<ScanOp>,
    min_count: int,
    dict: Seq<DictEntry>,
    rec: RecordAnalysis,
)
    requires
        is_dictionary(data, ops, min_count, dict),
        analyzes(data, ops, dict, rec),
    ensures
        0 as real <= rec.anomaly_score(dict.len() as int) <= 1 as real,
{
    lemma_record_bytes_and_coverage(data, ops, dict, rec);
    let ids = rec.ref_entries@;
    let size = if dict.len() >= 1 {
        dict.len() as int
    } else {
        1
    };
    let c = rec.coverage();
    let r = rec.rarity(dict.len() as int);
    if ids.len() > 0 {
        assert forall|k: int| 0 <= k < ids.len() implies #[trigger] ids[k] < size by {
            assert(ids.contains(ids[k]));
            let j = choose|j: int|
                #[trigger] is_backref(ops, j) && overlaps(
                    ops[j],
                    rec.offset as int,
                    rec.length as int,
                ) && lookup(dict, ops[j].span(data)) == Some(ids[k]);
            lemma_lookup_found(dict, ops[j].span(data), ids[k]);
        }
        lemma_share_sum_bounds(ids, size);
        let total = share_sum(ids, size);
        let n = ids.len() as real;
        assert(0 as real <= total / n <= 1 as real) by (nonlinear_arith)
            requires
                0 as real <= total <= n,
                n > 0 as real,
        ;
    }
    assert(0 as real <= (7 as real / 10 as real) * (1 as real - c) + (3 as real / 10 as real) * r
        <= 1 as real) by (nonlinear_arith)
        requires
            0 as real <= c <= 1 as real,
            0 as real <= r <= 1 as real,
    ;
}

/// The split of a buffer into records is determined by the buffer and the
/// delimiter.
pub proof fn lemma_split_unique(
    data: Seq<u8>,
    delimiter: u8,
    s1: Seq<(usize, usize)>,
    s2: Seq<(usize, usize)>,
)
    requires
        is_split(data, delimiter, s1),
        is_split(data, delimiter, s2),
    ensures
        s1 == s2,
{
    if s1.len() > 0 {
        lemma_split_agrees(data, delimiter, s1, s2, s1.len() - 1);
    }
    if s2.len() > 0 {
        lemma_split_agrees(data, delimiter, s2, s1, s2.len() - 1);
    }
    assert(s1.len() == s2.len());
    assert forall|i: int| 0 <= i < s1.len() implies s1[i] == s2[i] by {
        lemma_split_agrees(data, delimiter, s1, s2, i);
    }
    assert(s1 =~= s2);
}

/// Two splits of one buffer agree on span `i`.
proof fn lemma_split_agrees(
    data: Seq<u8>,
    delimiter: u8,
    s1: Seq<(usize, usize)>,
    s2: Seq<(usize, usize)>,
    i: int,
)
    requires
        is_split(data, delimiter, s1),
        is_split(data, delimiter, s2),
        0 <= i < s1.len(),
    ensures
        i < s2.len(),
        s1[i] == s2[i],
    decreases i,
{
    lemma_split_bounds(data, delimiter, s1, i);
    if i > 0 {
        lemma_split_agrees(data, delimiter, s1, s2, i - 1);
        lemma_split_bounds(data, delimiter, s1, i - 1);
        lemma_split_bounds(data, delimiter, s2, i - 1);
        assert(closed(data, delimiter, s1, i - 1));
    }
    assert(i < s2.len());
    lemma_split_bounds(data, delimiter, s2, i);
    assert(s1[i].0 == s2[i].0);
    let o = s1[i].0 as int;
    let l1 = s1[i].1 as int;
    let l2 = s2[i].1 as int;
    if l1 < l2 {
        assert(in_span(s2, i, o + l1 - 1));
        if i < s1.len() - 1 {
            assert(closed(data, delimiter, s1, i));
        }
    }
    if l2 < l1 {
        assert(in_span(s1, i, o + l2 - 1));
        if i < s2.len() - 1 {
            assert(closed(data, delimiter, s2, i));
        }
    }
}

/// The two analyses hold the same numbers and references.
pub open spec fn records_agree(a: RecordAnalysis, b: RecordAnalysis) -> bool {
    &&& a.index == b.index
    &&& a.offset == b.offset
    &&& a.length == b.length
    &&& a.backref_bytes == b.backref_bytes
    &&& a.literal_bytes == b.literal_bytes
    &&& a.ref_entries@ == b.ref_entries@
}

/// The analyses are determined by the buffer, the operations, the
/// dictionary and the delimiter: two results for the same input agree
/// record by record.
pub proof fn lemma_scoring_unique(
    data: Seq<u8>,
    ops: Seq<ScanOp>,
    dict: Seq<DictEntry>,
    delimiter: u8,
    r1: Seq<RecordAnalysis>,
    r2: Seq<RecordAnalysis>,
)
    requires
        is_scoring(data, ops, dict, delimiter, r1),
        is_scoring(data, ops, dict, delimiter, r2),
    ensures
        r1.len() == r2.len(),
        forall|i: int| 0 <= i < r1.len() ==> records_agree(#[trigger] r1[i], r2[i]),
{
    lemma_split_unique(data, delimiter, record_spans(r1), record_spans(r2));
    assert(record_spans(r1).len() == r1.len());
    assert(record_spans(r2).len() == r2.len());
    assert forall|i: int| 0 <= i < r1.len() implies records_agree(#[trigger] r1[i], r2[i]) by {
        assert(record_spans(r1)[i] == record_spans(r2)[i]);
        assert(analyzes(data, ops, dict, r1[i]));
        assert(analyzes(data, ops, dict, r2[i]));
        assert(r2[i].index == i);
        assert forall|e: usize| r1[i].ref_entries@.contains(e) <==> r2[i].ref_entries@.contains(
            e,
        ) by {}
        lemma_ascending_unique(r1[i].ref_entries@, r2[i].ref_entries@);
    }
}

} // verus!
