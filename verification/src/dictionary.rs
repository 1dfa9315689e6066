//! Frequency-ranked dictionary of the byte patterns that back-references
//! repeat.

use crate::ranking::{
    ascending, in_range, lemma_ascending_unique, ranked, ranks_before, same_items, sort_by_rank,
    sorted_unique,
};
use crate::buckets::{
    bucket_at, bucket_count, bucket_of, lemma_prev_filed, mark, prev_filed, Buckets, NO_ITEM,
};
use crate::scanner::{bytes_of, lemma_bytes_split, total_length, OpKind, ScanOp};
use vstd::prelude::*;

verus! {

/// One repeated byte pattern with its frequency rank.
#[derive(Debug, Clone)]
pub struct DictEntry {
    pub entry_id: usize,
    pub content: Vec<u8>,
    pub count: usize,
    /// All positions in the input where this pattern occurs.
    pub positions: Vec<usize>,
}

impl DictEntry {
    /// The positions are in strictly increasing order.
    pub open spec fn wf(&self) -> bool {
        ascending(self.positions@)
    }

    /// The length of the pattern in bytes.
    pub fn content_length(&self) -> (n: usize)
        ensures
            n == self.content@.len(),
    {
        self.content.len()
    }

    /// The number of input bytes that the occurrences of this pattern span.
    pub fn total_bytes_covered(&self) -> (n: usize)
        requires
            self.count * self.content@.len() <= usize::MAX,
        ensures
            n == self.count * self.content@.len(),
    {
        self.count * self.content.len()
    }

    /// The distances between consecutive positions.
    pub fn intervals(&self) -> (out: Vec<usize>)
        requires
            self.wf(),
        ensures
            out@.len() == if self.positions@.len() < 2 {
                0
            } else {
                self.positions@.len() - 1
            },
            forall|i: int|
                0 <= i < out@.len() ==> #[trigger] out@[i] == self.positions@[i + 1]
                    - self.positions@[i],
    {
        let mut out: Vec<usize> = Vec::new();
        let n: usize = self.positions.len();
        if n < 2 {
            return out;
        }
        let mut i: usize = 0;
        while i < n - 1
            invariant
                n == self.positions@.len(),
                n >= 2,
                i <= n - 1,
                self.wf(),
                out@.len() == i,
                forall|k: int|
                    0 <= k < i ==> #[trigger] out@[k] == self.positions@[k + 1]
                        - self.positions@[k],
            decreases n - i,
        {
            out.push(self.positions[i + 1] - self.positions[i]);
            i += 1;
        }
        out
    }

    /// Whether the positions are in strictly increasing order.
    pub fn is_well_formed(&self) -> (ok: bool)
        ensures
            ok == self.wf(),
    {
        let n: usize = self.positions.len();
        let mut i: usize = 1;
        while i < n
            invariant
                n == self.positions@.len(),
                1 <= i,
                forall|a: int, b: int| 0 <= a < b < i && b < n ==> self.positions@[a] < self.positions@[b],
            decreases n - i,
        {
            if self.positions[i - 1] >= self.positions[i] {
                return false;
            }
            i += 1;
        }
        true
    }
}

/// Every back-reference lies within the buffer and has its source in it.
pub open spec fn backrefs_in_bounds(data: Seq<u8>, ops: Seq<ScanOp>) -> bool {
    forall|k: int|
        0 <= k < ops.len() && (#[trigger] ops[k]).kind == OpKind::Backref ==> ops[k].position
            + ops[k].length <= data.len() && ops[k].ref_offset <= ops[k].position
}

/// Operation `k` is a back-reference.
pub open spec fn is_backref(ops: Seq<ScanOp>, k: int) -> bool {
    0 <= k < ops.len() && ops[k].kind == OpKind::Backref
}

/// Operation `k` is a back-reference whose bytes are `content`.
pub open spec fn uses(data: Seq<u8>, ops: Seq<ScanOp>, k: int, content: Seq<u8>) -> bool {
    0 <= k < ops.len() && ops[k].kind == OpKind::Backref && ops[k].span(data) == content
}

/// How many of the first `k` operations use `content`.
pub open spec fn uses_upto(data: Seq<u8>, ops: Seq<ScanOp>, content: Seq<u8>, k: int) -> nat
    decreases k,
{
    if k <= 0 {
        0
    } else {
        uses_upto(data, ops, content, k - 1) + if uses(data, ops, k - 1, content) {
            1nat
        } else {
            0nat
        }
    }
}

/// How many back-references repeat `content`.
pub open spec fn pattern_count(data: Seq<u8>, ops: Seq<ScanOp>, content: Seq<u8>) -> nat {
    uses_upto(data, ops, content, ops.len() as int)
}

/// Operation `j` uses `content` and has `p` as its position or as the
/// position of its source.
pub open spec fn mentions(data: Seq<u8>, ops: Seq<ScanOp>, j: int, content: Seq<u8>, p: int) -> bool {
    uses(data, ops, j, content) && (p == ops[j].position || p == ops[j].position
        - ops[j].ref_offset)
}

/// One of the first `k` operations mentions `p` for `content`.
pub open spec fn occurs_upto(
    data: Seq<u8>,
    ops: Seq<ScanOp>,
    content: Seq<u8>,
    p: int,
    k: int,
) -> bool {
    exists|j: int| 0 <= j < k && mentions(data, ops, j, content, p)
}

/// Pattern `a` is used by an operation before any operation uses `b`.
pub open spec fn seen_before(data: Seq<u8>, ops: Seq<ScanOp>, a: Seq<u8>, b: Seq<u8>) -> bool {
    exists|k: int| uses(data, ops, k, a) && forall|j: int| 0 <= j <= k ==> !uses(data, ops, j, b)
}

/// Entry `a` ranks before entry `b`: by count, then by length, then by first
/// use.
pub open spec fn entry_precedes(data: Seq<u8>, ops: Seq<ScanOp>, a: DictEntry, b: DictEntry) -> bool {
    ||| a.count > b.count
    ||| a.count == b.count && a.content@.len() > b.content@.len()
    ||| a.count == b.count && a.content@.len() == b.content@.len() && seen_before(
        data,
        ops,
        a.content@,
        b.content@,
    )
}

/// The entry describes a pattern of the operations: its count and its
/// positions are those of the back-references that repeat its content.
pub open spec fn describes(data: Seq<u8>, ops: Seq<ScanOp>, e: DictEntry) -> bool {
    &&& e.count >= 1
    &&& e.count == pattern_count(data, ops, e.content@)
    &&& ascending(e.positions@)
    &&& forall|p: usize|
        e.positions@.contains(p) <==> occurs_upto(
            data,
            ops,
            e.content@,
            p as int,
            ops.len() as int,
        )
}

/// `dict` is the dictionary of `ops`: one entry for each pattern that at
/// least `min_count` back-references repeat, ranked by count, then length,
/// then first use, and numbered by rank.
pub open spec fn is_dictionary(
    data: Seq<u8>,
    ops: Seq<ScanOp>,
    min_count: int,
    dict: Seq<DictEntry>,
) -> bool {
    &&& forall|i: int| 0 <= i < dict.len() ==> (#[trigger] dict[i]).entry_id == i
    &&& forall|i: int|
        0 <= i < dict.len() ==> describes(data, ops, #[trigger] dict[i]) && dict[i].count
            >= min_count
    &&& forall|i: int, j: int|
        0 <= i < j < dict.len() ==> entry_precedes(data, ops, #[trigger] dict[i], #[trigger] dict[j])
    &&& forall|k: int|
        0 <= k < ops.len() && (#[trigger] ops[k]).kind == OpKind::Backref && pattern_count(
            data,
            ops,
            ops[k].span(data),
        ) >= min_count ==> exists|i: int|
            0 <= i < dict.len() && (#[trigger] dict[i]).content@ == ops[k].span(data)
}

/// Whether two operations span equal bytes.
fn spans_equal(data: &[u8], a: &ScanOp, b: &ScanOp) -> (eq: bool)
    requires
        a.within(data@.len()),
        b.within(data@.len()),
    ensures
        eq == (a.span(data@) == b.span(data@)),
{
    let n: usize = data.len();
    if a.length != b.length {
        proof {
            assert(a.span(data@).len() != b.span(data@).len());
        }
        return false;
    }
    let len: usize = a.length;
    let mut i: usize = 0;
    while i < len
        invariant
            n == data@.len(),
            len == a.length,
            len == b.length,
            a.position + len <= n,
            b.position + len <= n,
            i <= len,
            forall|k: int| 0 <= k < i ==> #[trigger] a.span(data@)[k] == b.span(data@)[k],
        decreases len - i,
    {
        if data[a.position + i] != data[b.position + i] {
            proof {
                assert(a.span(data@)[i as int] != b.span(data@)[i as int]);
            }
            return false;
        }
        i += 1;
    }
    proof {
        assert(a.span(data@) =~= b.span(data@));
    }
    true
}

/// The patterns met so far, in order of first use: for each, the operation
/// that first uses it, the number of uses, and the positions mentioned.
struct Groups {
    reps: Vec<usize>,
    counts: Vec<usize>,
    places: Vec<Vec<usize>>,
}

impl Groups {
    /// The pattern of group `g`.
    spec fn pattern(&self, data: Seq<u8>, ops: Seq<ScanOp>, g: int) -> Seq<u8> {
        ops[self.reps@[g] as int].span(data)
    }

    /// The groups account for the first `k` operations.
    spec fn covers(&self, data: Seq<u8>, ops: Seq<ScanOp>, k: int) -> bool {
        &&& self.counts@.len() == self.reps@.len()
        &&& self.places@.len() == self.reps@.len()
        &&& forall|g: int|
            0 <= g < self.reps@.len() ==> (#[trigger] self.reps@[g]) < k && ops[self.reps@[g] as int].kind
                == OpKind::Backref
        &&& forall|g1: int, g2: int|
            0 <= g1 < g2 < self.reps@.len() ==> (#[trigger] self.reps@[g1]) < (
            #[trigger] self.reps@[g2])
        &&& forall|g: int, j: int|
            0 <= g < self.reps@.len() && 0 <= j < self.reps@[g] ==> !#[trigger] uses(
                data,
                ops,
                j,
                self.pattern(data, ops, g),
            )
        &&& forall|j: int|
            0 <= j < k && #[trigger] is_backref(ops, j) ==> exists|g: int|
                0 <= g < self.reps@.len() && #[trigger] self.pattern(data, ops, g) == ops[j].span(
                    data,
                )
        &&& forall|g: int|
            0 <= g < self.reps@.len() ==> (#[trigger] self.counts@[g]) == uses_upto(
                data,
                ops,
                self.pattern(data, ops, g),
                k,
            ) && self.counts@[g] >= 1
        &&& forall|g: int, p: usize|
            0 <= g < self.reps@.len() ==> (#[trigger] self.places@[g]@.contains(p) <==> occurs_upto(
                data,
                ops,
                self.pattern(data, ops, g),
                p as int,
                k,
            ))
    }
}

/// Among `k` operations at most `k` use a pattern.
proof fn lemma_uses_upto_bound(data: Seq<u8>, ops: Seq<ScanOp>, content: Seq<u8>, k: int)
    requires
        0 <= k,
    ensures
        uses_upto(data, ops, content, k) <= k,
    decreases k,
{
    if k > 0 {
        lemma_uses_upto_bound(data, ops, content, k - 1);
    }
}

/// A pattern that no operation uses is used zero times.
proof fn lemma_uses_upto_none(data: Seq<u8>, ops: Seq<ScanOp>, content: Seq<u8>, k: int)
    requires
        forall|j: int| 0 <= j < k ==> !uses(data, ops, j, content),
    ensures
        uses_upto(data, ops, content, k) == 0,
    decreases k,
{
    if k > 0 {
        lemma_uses_upto_none(data, ops, content, k - 1);
    }
}

/// Group `g` is filed in the index under the bucket of its pattern.
spec fn filed(index: Buckets, data: Seq<u8>, ops: Seq<ScanOp>, reps: Seq<usize>) -> bool {
    &&& index.wf()
    &&& index.homes().len() == reps.len()
    &&& forall|g: int|
        0 <= g < reps.len() ==> #[trigger] index.homes()[g] == bucket_of(
            ops[reps[g] as int].span(data),
            index.size(),
        )
}

/// The group whose pattern operation `k` repeats, if there is one.
fn find_group(data: &[u8], ops: &[ScanOp], reps: &Vec<usize>, index: &Buckets, k: usize) -> (found:
    Option<usize>)
    requires
        backrefs_in_bounds(data@, ops@),
        k < ops@.len(),
        ops@[k as int].kind == OpKind::Backref,
        forall|g: int|
            0 <= g < reps@.len() ==> (#[trigger] reps@[g]) < ops@.len() && ops@[reps@[g] as int].kind
                == OpKind::Backref,
        filed(*index, data@, ops@, reps@),
    ensures
        match found {
            Some(g) => g < reps@.len() && ops@[reps@[g as int] as int].span(data@) == ops@[k as int].span(
                data@,
            ),
            None => forall|g: int|
                0 <= g < reps@.len() ==> ops@[(#[trigger] reps@[g]) as int].span(data@)
                    != ops@[k as int].span(data@),
        },
{
    let op: ScanOp = ops[k];
    let size: usize = index.buckets();
    let count: usize = index.count();
    let b: usize = bucket_at(data, op.position, op.length, size);
    let mut g: usize = index.latest(b);
    let ghost homes = index.homes();
    let ghost mut cand: int = prev_filed(homes, b, homes.len() as int);
    proof {
        lemma_prev_filed(homes, b, homes.len() as int);
        assert forall|x: int| cand < x < reps@.len() implies ops@[(
        #[trigger] reps@[x]) as int].span(data@) != op.span(data@) by {
            assert(homes[x] != b);
        }
    }
    while g != NO_ITEM
        invariant
            backrefs_in_bounds(data@, ops@),
            k < ops@.len(),
            op == ops@[k as int],
            op.kind == OpKind::Backref,
            forall|g: int|
                0 <= g < reps@.len() ==> (#[trigger] reps@[g]) < ops@.len() && ops@[reps@[g] as int].kind
                    == OpKind::Backref,
            filed(*index, data@, ops@, reps@),
            homes == index.homes(),
            count == homes.len(),
            b == bucket_of(op.span(data@), index.size()),
            g == mark(cand),
            -1 <= cand < homes.len(),
            cand >= 0 ==> homes[cand] == b,
            forall|x: int|
                cand < x < reps@.len() ==> ops@[(#[trigger] reps@[x]) as int].span(data@)
                    != op.span(data@),
        decreases cand + 1,
    {
        let r: usize = reps[g];
        if spans_equal(data, &ops[r], &op) {
            return Some(g);
        }
        let next: usize = index.earlier(g);
        proof {
            lemma_prev_filed(homes, b, cand);
            let lower = prev_filed(homes, b, cand);
            assert forall|x: int| lower < x < reps@.len() implies ops@[(
            #[trigger] reps@[x]) as int].span(data@) != op.span(data@) by {
                if x < cand {
                    assert(homes[x] != b);
                }
            }
            cand = lower;
        }
        g = next;
    }
    None
}

/// Different groups hold different patterns.
proof fn lemma_patterns_distinct(gr: Groups, data: Seq<u8>, ops: Seq<ScanOp>, k: int, a: int, b: int)
    requires
        gr.covers(data, ops, k),
        k <= ops.len(),
        0 <= a < gr.reps@.len(),
        0 <= b < gr.reps@.len(),
        a != b,
    ensures
        gr.pattern(data, ops, a) != gr.pattern(data, ops, b),
{
    if gr.pattern(data, ops, a) == gr.pattern(data, ops, b) {
        if a < b {
            assert(gr.reps@[a] < gr.reps@[b]);
            assert(uses(data, ops, gr.reps@[a] as int, gr.pattern(data, ops, b)));
        } else {
            assert(gr.reps@[b] < gr.reps@[a]);
            assert(uses(data, ops, gr.reps@[b] as int, gr.pattern(data, ops, a)));
        }
    }
}

/// A literal changes nothing in the groups.
proof fn lemma_extend_skip(gr: Groups, data: Seq<u8>, ops: Seq<ScanOp>, k: int)
    requires
        gr.covers(data, ops, k),
        0 <= k < ops.len(),
        ops[k].kind != OpKind::Backref,
    ensures
        gr.covers(data, ops, k + 1),
{
    assert forall|g: int, p: usize| 0 <= g < gr.reps@.len() implies (
    #[trigger] gr.places@[g]@.contains(p) <==> occurs_upto(
        data,
        ops,
        gr.pattern(data, ops, g),
        p as int,
        k + 1,
    )) by {
        let c = gr.pattern(data, ops, g);
        assert(gr.places@[g]@.contains(p) <==> occurs_upto(data, ops, c, p as int, k));
        if occurs_upto(data, ops, c, p as int, k + 1) {
            let j = choose|j: int| 0 <= j < k + 1 && mentions(data, ops, j, c, p as int);
            assert(j < k);
        }
        if occurs_upto(data, ops, c, p as int, k) {
            let j = choose|j: int| 0 <= j < k && mentions(data, ops, j, c, p as int);
            assert(0 <= j < k + 1 && mentions(data, ops, j, c, p as int));
        }
    }
}

/// A back-reference that repeats the pattern of group `g0` adds one use and
/// two positions to that group.
proof fn lemma_extend_found(
    old: Groups,
    new: Groups,
    data: Seq<u8>,
    ops: Seq<ScanOp>,
    k: int,
    g0: int,
)
    requires
        old.covers(data, ops, k),
        0 <= k < ops.len(),
        k <= usize::MAX,
        ops[k].kind == OpKind::Backref,
        ops[k].ref_offset <= ops[k].position,
        0 <= g0 < old.reps@.len(),
        old.pattern(data, ops, g0) == ops[k].span(data),
        new.reps@ == old.reps@,
        new.counts@ == old.counts@.update(g0, (old.counts@[g0] + 1) as usize),
        old.counts@[g0] + 1 <= usize::MAX,
        new.places@.len() == old.places@.len(),
        forall|g: int| 0 <= g < old.places@.len() && g != g0 ==> new.places@[g] == old.places@[g],
        new.places@[g0]@ == old.places@[g0]@.push(ops[k].position).push(
            (ops[k].position - ops[k].ref_offset) as usize,
        ),
    ensures
        new.covers(data, ops, k + 1),
{
    let c0 = ops[k].span(data);
    assert forall|g: int| 0 <= g < new.reps@.len() implies new.pattern(data, ops, g)
        == old.pattern(data, ops, g) by {}
    assert forall|g: int, j: int|
        0 <= g < new.reps@.len() && 0 <= j < new.reps@[g] implies !#[trigger] uses(
        data,
        ops,
        j,
        new.pattern(data, ops, g),
    ) by {
        assert(!uses(data, ops, j, old.pattern(data, ops, g)));
    }
    assert forall|j: int| 0 <= j < k + 1 && #[trigger] is_backref(ops, j) implies exists|g: int|
        0 <= g < new.reps@.len() && #[trigger] new.pattern(data, ops, g) == ops[j].span(data) by {
        if j == k {
            assert(new.pattern(data, ops, g0) == ops[j].span(data));
        } else {
            let g = choose|g: int|
                0 <= g < old.reps@.len() && #[trigger] old.pattern(data, ops, g) == ops[j].span(
                    data,
                );
            assert(new.pattern(data, ops, g) == ops[j].span(data));
        }
    }
    assert forall|g: int| 0 <= g < new.reps@.len() implies (#[trigger] new.counts@[g])
        == uses_upto(data, ops, new.pattern(data, ops, g), k + 1) && new.counts@[g] >= 1 by {
        assert(old.counts@[g] == uses_upto(data, ops, old.pattern(data, ops, g), k));
        if g != g0 {
            lemma_patterns_distinct(old, data, ops, k, g, g0);
        }
    }
    assert forall|g: int, p: usize| 0 <= g < new.reps@.len() implies (
    #[trigger] new.places@[g]@.contains(p) <==> occurs_upto(
        data,
        ops,
        new.pattern(data, ops, g),
        p as int,
        k + 1,
    )) by {
        let c = old.pattern(data, ops, g);
        assert(old.places@[g]@.contains(p) <==> occurs_upto(data, ops, c, p as int, k));
        if occurs_upto(data, ops, c, p as int, k) {
            let j = choose|j: int| 0 <= j < k && mentions(data, ops, j, c, p as int);
            assert(0 <= j < k + 1 && mentions(data, ops, j, c, p as int));
        }
        if g != g0 {
            lemma_patterns_distinct(old, data, ops, k, g, g0);
            if occurs_upto(data, ops, c, p as int, k + 1) {
                let j = choose|j: int| 0 <= j < k + 1 && mentions(data, ops, j, c, p as int);
                assert(j < k);
            }
        } else {
            let before = old.places@[g]@;
            let mid = before.push(ops[k].position);
            let src = (ops[k].position - ops[k].ref_offset) as usize;
            let after = mid.push(src);
            assert(after[before.len() as int] == ops[k].position);
            assert(after[before.len() as int + 1] == src);
            if before.contains(p) {
                let w = choose|w: int| 0 <= w < before.len() && before[w] == p;
                assert(after[w] == p);
            }
            if after.contains(p) {
                let w = choose|w: int| 0 <= w < after.len() && after[w] == p;
                if w < before.len() {
                    assert(before[w] == p);
                } else {
                    assert(mentions(data, ops, k, c, p as int));
                }
            }
            if occurs_upto(data, ops, c, p as int, k + 1) {
                let j = choose|j: int| 0 <= j < k + 1 && mentions(data, ops, j, c, p as int);
                if j == k {
                    assert(after.contains(p));
                }
            }
        }
    }
}

/// A back-reference whose pattern no group holds starts a group.
proof fn lemma_extend_new(old: Groups, new: Groups, data: Seq<u8>, ops: Seq<ScanOp>, k: int)
    requires
        old.covers(data, ops, k),
        0 <= k < ops.len(),
        k <= usize::MAX,
        ops[k].kind == OpKind::Backref,
        ops[k].ref_offset <= ops[k].position,
        forall|g: int|
            0 <= g < old.reps@.len() ==> ops[(#[trigger] old.reps@[g]) as int].span(data)
                != ops[k].span(data),
        new.reps@ == old.reps@.push(k as usize),
        new.counts@ == old.counts@.push(1),
        new.places@.len() == old.places@.len() + 1,
        forall|g: int| 0 <= g < old.places@.len() ==> new.places@[g] == old.places@[g],
        new.places@[old.places@.len() as int]@ == seq![
            ops[k].position,
            (ops[k].position - ops[k].ref_offset) as usize,
        ],
    ensures
        new.covers(data, ops, k + 1),
{
    let c0 = ops[k].span(data);
    let n = old.reps@.len() as int;
    assert forall|g: int| 0 <= g < n implies new.pattern(data, ops, g) == old.pattern(
        data,
        ops,
        g,
    ) && old.pattern(data, ops, g) != c0 by {
        assert(ops[old.reps@[g] as int].span(data) != c0);
    }
    assert(new.pattern(data, ops, n) == c0);
    assert forall|j: int| 0 <= j < k implies !uses(data, ops, j, c0) by {
        if uses(data, ops, j, c0) {
            assert(is_backref(ops, j));
            let g = choose|g: int|
                0 <= g < old.reps@.len() && #[trigger] old.pattern(data, ops, g) == ops[j].span(
                    data,
                );
            assert(old.pattern(data, ops, g) != c0);
        }
    }
    lemma_uses_upto_none(data, ops, c0, k);
    assert forall|g1: int, g2: int| 0 <= g1 < g2 < new.reps@.len() implies (
    #[trigger] new.reps@[g1]) < (#[trigger] new.reps@[g2]) by {
        if g2 < n {
            assert(old.reps@[g1] < old.reps@[g2]);
        } else {
            assert(old.reps@[g1] < k);
        }
    }
    assert forall|g: int, j: int|
        0 <= g < new.reps@.len() && 0 <= j < new.reps@[g] implies !#[trigger] uses(
        data,
        ops,
        j,
        new.pattern(data, ops, g),
    ) by {
        if g < n {
            assert(!uses(data, ops, j, old.pattern(data, ops, g)));
        }
    }
    assert forall|j: int| 0 <= j < k + 1 && #[trigger] is_backref(ops, j) implies exists|g: int|
        0 <= g < new.reps@.len() && #[trigger] new.pattern(data, ops, g) == ops[j].span(data) by {
        if j == k {
            assert(new.pattern(data, ops, n) == ops[j].span(data));
        } else {
            let g = choose|g: int|
                0 <= g < old.reps@.len() && #[trigger] old.pattern(data, ops, g) == ops[j].span(
                    data,
                );
            assert(new.pattern(data, ops, g) == ops[j].span(data));
        }
    }
    assert forall|g: int| 0 <= g < new.reps@.len() implies (#[trigger] new.counts@[g])
        == uses_upto(data, ops, new.pattern(data, ops, g), k + 1) && new.counts@[g] >= 1 by {
        if g < n {
            assert(old.counts@[g] == uses_upto(data, ops, old.pattern(data, ops, g), k));
        }
    }
    assert forall|g: int, p: usize| 0 <= g < new.reps@.len() implies (
    #[trigger] new.places@[g]@.contains(p) <==> occurs_upto(
        data,
        ops,
        new.pattern(data, ops, g),
        p as int,
        k + 1,
    )) by {
        let c = new.pattern(data, ops, g);
        if g < n {
            assert(old.places@[g]@.contains(p) <==> occurs_upto(data, ops, c, p as int, k));
            if occurs_upto(data, ops, c, p as int, k) {
                let j = choose|j: int| 0 <= j < k && mentions(data, ops, j, c, p as int);
                assert(0 <= j < k + 1 && mentions(data, ops, j, c, p as int));
            }
            if occurs_upto(data, ops, c, p as int, k + 1) {
                let j = choose|j: int| 0 <= j < k + 1 && mentions(data, ops, j, c, p as int);
                assert(j < k);
            }
        } else {
            let src = (ops[k].position - ops[k].ref_offset) as usize;
            let fresh = new.places@[n]@;
            assert(fresh[0] == ops[k].position);
            assert(fresh[1] == src);
            if fresh.contains(p) {
                assert(mentions(data, ops, k, c, p as int));
            }
            if occurs_upto(data, ops, c, p as int, k + 1) {
                let j = choose|j: int| 0 <= j < k + 1 && mentions(data, ops, j, c, p as int);
                assert(j == k);
                assert(fresh.contains(p));
            }
        }
    }
}

/// Group the back-references by the bytes they repeat.
fn collect_groups(data: &[u8], ops: &[ScanOp]) -> (gr: Groups)
    requires
        backrefs_in_bounds(data@, ops@),
    ensures
        gr.covers(data@, ops@, ops@.len() as int),
{
    let mut gr = Groups { reps: Vec::new(), counts: Vec::new(), places: Vec::new() };
    let mut index = Buckets::new(bucket_count(ops.len()));
    let mut k: usize = 0;
    while k < ops.len()
        invariant
            backrefs_in_bounds(data@, ops@),
            k <= ops@.len(),
            gr.covers(data@, ops@, k as int),
            filed(index, data@, ops@, gr.reps@),
        decreases ops@.len() - k,
    {
        let op: ScanOp = ops[k];
        let ghost old = gr;
        match op.kind {
            OpKind::Literal => {
                proof {
                    lemma_extend_skip(gr, data@, ops@, k as int);
                }
            },
            OpKind::Backref => {
                let src: usize = op.position - op.ref_offset;
                match find_group(data, ops, &gr.reps, &index, k) {
                    Some(g) => {
                        proof {
                            lemma_uses_upto_bound(
                                data@,
                                ops@,
                                gr.pattern(data@, ops@, g as int),
                                k as int,
                            );
                        }
                        let c: usize = gr.counts[g];
                        gr.counts.set(g, c + 1);
                        gr.places[g].push(op.position);
                        gr.places[g].push(src);
                        proof {
                            lemma_extend_found(old, gr, data@, ops@, k as int, g as int);
                        }
                    },
                    None => {
                        let b: usize = bucket_at(data, op.position, op.length, index.buckets());
                        gr.reps.push(k);
                        gr.counts.push(1);
                        let mut fresh: Vec<usize> = Vec::new();
                        fresh.push(op.position);
                        fresh.push(src);
                        gr.places.push(fresh);
                        index.file(b);
                        proof {
                            assert(fresh@ =~= seq![op.position, src]);
                            lemma_extend_new(old, gr, data@, ops@, k as int);
                        }
                    },
                }
            },
        }
        k += 1;
    }
    gr
}

/// Entry `e` was built at rank `t` from group `g`.
spec fn built_from(gr: Groups, data: Seq<u8>, ops: Seq<ScanOp>, e: DictEntry, t: int, g: int) -> bool {
    &&& e.entry_id == t
    &&& e.content@ == gr.pattern(data, ops, g)
    &&& e.count == gr.counts@[g]
    &&& ascending(e.positions@)
    &&& same_items(e.positions@, gr.places@[g]@)
}

/// Entries built from the groups in rank order form the dictionary.
proof fn lemma_entries_form_dictionary(
    gr: Groups,
    data: Seq<u8>,
    ops: Seq<ScanOp>,
    min_count: int,
    primary: Seq<u64>,
    secondary: Seq<u64>,
    items: Seq<usize>,
    order: Seq<usize>,
    dict: Seq<DictEntry>,
)
    requires
        gr.covers(data, ops, ops.len() as int),
        primary.len() == gr.reps@.len(),
        secondary.len() == gr.reps@.len(),
        forall|g: int| 0 <= g < gr.reps@.len() ==> #[trigger] primary[g] == gr.counts@[g],
        forall|g: int|
            0 <= g < gr.reps@.len() ==> #[trigger] secondary[g] == ops[gr.reps@[g] as int].length,
        forall|g: usize|
            g < gr.reps@.len() ==> (items.contains(g) <==> (#[trigger] gr.counts@[g as int])
                >= min_count),
        in_range(order, gr.reps@.len() as int),
        backrefs_in_bounds(data, ops),
        gr.reps@.len() <= usize::MAX,
        same_items(order, items),
        ranked(primary, secondary, order),
        dict.len() == order.len(),
        forall|t: int|
            0 <= t < dict.len() ==> built_from(gr, data, ops, #[trigger] dict[t], t, order[t] as int),
    ensures
        is_dictionary(data, ops, min_count, dict),
{
    let n = ops.len() as int;
    assert forall|i: int| 0 <= i < dict.len() implies describes(data, ops, #[trigger] dict[i])
        && dict[i].count >= min_count by {
        let g = order[i] as int;
        assert(built_from(gr, data, ops, dict[i], i, g));
        assert(order.contains(order[i]));
        assert(items.contains(order[i]));
        assert(gr.counts@[order[i] as int] >= min_count);
        assert forall|p: usize|
            dict[i].positions@.contains(p) <==> occurs_upto(
                data,
                ops,
                dict[i].content@,
                p as int,
                n,
            ) by {
            assert(gr.places@[g]@.contains(p) <==> occurs_upto(
                data,
                ops,
                gr.pattern(data, ops, g),
                p as int,
                n,
            ));
        }
    }
    assert forall|i: int, j: int| 0 <= i < j < dict.len() implies entry_precedes(
        data,
        ops,
        #[trigger] dict[i],
        #[trigger] dict[j],
    ) by {
        let gi = order[i] as int;
        let gj = order[j] as int;
        assert(built_from(gr, data, ops, dict[i], i, gi));
        assert(built_from(gr, data, ops, dict[j], j, gj));
        assert(ranks_before(primary, secondary, gi, gj));
        assert(is_backref(ops, gr.reps@[gi] as int) && is_backref(ops, gr.reps@[gj] as int));
        assert(ops[gr.reps@[gi] as int].within(data.len()));
        assert(ops[gr.reps@[gj] as int].within(data.len()));
        assert(dict[i].content@.len() == secondary[gi]);
        assert(dict[j].content@.len() == secondary[gj]);
        if dict[i].count == dict[j].count && dict[i].content@.len() == dict[j].content@.len() {
            assert(gi < gj);
            assert(gr.reps@[gi] < gr.reps@[gj]);
            let k = gr.reps@[gi] as int;
            assert(uses(data, ops, k, dict[i].content@));
            assert forall|m: int| 0 <= m <= k implies !uses(data, ops, m, dict[j].content@) by {
                assert(!uses(data, ops, m, gr.pattern(data, ops, gj)));
            }
        }
    }
    assert forall|k: int|
        0 <= k < ops.len() && (#[trigger] ops[k]).kind == OpKind::Backref && pattern_count(
            data,
            ops,
            ops[k].span(data),
        ) >= min_count implies exists|i: int|
        0 <= i < dict.len() && (#[trigger] dict[i]).content@ == ops[k].span(data) by {
        assert(is_backref(ops, k));
        let g = choose|g: int|
            0 <= g < gr.reps@.len() && #[trigger] gr.pattern(data, ops, g) == ops[k].span(data);
        let gu = g as usize;
        assert(gr.counts@[gu as int] >= min_count);
        assert(items.contains(gu));
        assert(order.contains(gu));
        let t = choose|t: int| 0 <= t < order.len() && order[t] == gu;
        assert(built_from(gr, data, ops, dict[t], t, g));
    }
}

/// Build the dictionary of the patterns that back-references repeat.
///
/// Back-references are grouped by their exact bytes. Each pattern that at
/// least `min_count` of them repeat becomes an entry; entries are ranked by
/// count, longest first among equal counts, first used first among equal
/// lengths, and `entry_id` is the rank.
pub fn build_dictionary(data: &[u8], ops: &[ScanOp], min_count: usize) -> (dict: Vec<DictEntry>)
    requires
        backrefs_in_bounds(data@, ops@),
    ensures
        is_dictionary(data@, ops@, min_count as int, dict@),
{
    let gr = collect_groups(data, ops);
    let groups: usize = gr.reps.len();
    let mut primary: Vec<u64> = Vec::new();
    let mut secondary: Vec<u64> = Vec::new();
    let mut items: Vec<usize> = Vec::new();
    let mut g: usize = 0;
    while g < groups
        invariant
            gr.covers(data@, ops@, ops@.len() as int),
            groups == gr.reps@.len(),
            g <= groups,
            primary@.len() == g,
            secondary@.len() == g,
            forall|t: int| 0 <= t < g ==> #[trigger] primary@[t] == gr.counts@[t],
            forall|t: int|
                0 <= t < g ==> #[trigger] secondary@[t] == ops@[gr.reps@[t] as int].length,
            in_range(items@, g as int),
            ascending(items@),
            forall|t: usize|
                t < g ==> (items@.contains(t) <==> (#[trigger] gr.counts@[t as int])
                    >= min_count),
        decreases groups - g,
    {
        let count: usize = gr.counts[g];
        primary.push(count as u64);
        secondary.push(ops[gr.reps[g]].length as u64);
        let ghost before = items@;
        if count >= min_count {
            items.push(g);
        }
        proof {
            assert forall|t: usize| t < g + 1 implies (items@.contains(t) <==> (
            #[trigger] gr.counts@[t as int]) >= min_count) by {
                if before.contains(t) {
                    let w = choose|w: int| 0 <= w < before.len() && before[w] == t;
                    assert(items@[w] == t);
                }
                if items@.contains(t) {
                    let w = choose|w: int| 0 <= w < items@.len() && items@[w] == t;
                    if w < before.len() {
                        assert(before[w] == t);
                    }
                }
                if t == g && count >= min_count {
                    assert(items@[before.len() as int] == g);
                }
            }
        }
        g += 1;
    }
    let order = sort_by_rank(&items, primary.as_slice(), secondary.as_slice());
    let mut dict: Vec<DictEntry> = Vec::new();
    let mut i: usize = 0;
    while i < order.len()
        invariant
            backrefs_in_bounds(data@, ops@),
            gr.covers(data@, ops@, ops@.len() as int),
            groups == gr.reps@.len(),
            in_range(order@, groups as int),
            i <= order@.len(),
            dict@.len() == i,
            forall|t: int|
                0 <= t < i ==> built_from(
                    gr,
                    data@,
                    ops@,
                    #[trigger] dict@[t],
                    t,
                    order@[t] as int,
                ),
        decreases order@.len() - i,
    {
        let g: usize = order[i];
        let op: ScanOp = ops[gr.reps[g]];
        let content: Vec<u8> = vstd::slice::slice_to_vec(op.content(data));
        let positions: Vec<usize> = sorted_unique(&gr.places[g]);
        let entry = DictEntry { entry_id: i, content, count: gr.counts[g], positions };
        dict.push(entry);
        i += 1;
    }
    proof {
        lemma_entries_form_dictionary(
            gr,
            data@,
            ops@,
            min_count as int,
            primary@,
            secondary@,
            items@,
            order@,
            dict@,
        );
    }
    dict
}

/// Entry ids number the entries from 0 in their order, which is by count,
/// highest first, and by length, longest first, among equal counts; no two
/// entries hold the same pattern.
pub proof fn lemma_dictionary_ranked(
    data: Seq<u8>,
    ops: Seq<ScanOp>,
    min_count: int,
    dict: Seq<DictEntry>,
)
    requires
        is_dictionary(data, ops, min_count, dict),
    ensures
        forall|i: int| 0 <= i < dict.len() ==> (#[trigger] dict[i]).entry_id == i,
        forall|i: int, j: int|
            0 <= i < j < dict.len() ==> (#[trigger] dict[i]).count > (#[trigger] dict[j]).count || (
            dict[i].count == dict[j].count && dict[i].content@.len() >= dict[j].content@.len()),
        forall|i: int, j: int|
            0 <= i < j < dict.len() ==> (#[trigger] dict[i]).content@ != (
            #[trigger] dict[j]).content@,
{
    assert forall|i: int, j: int| 0 <= i < j < dict.len() implies (#[trigger] dict[i]).count > (
    #[trigger] dict[j]).count || (dict[i].count == dict[j].count && dict[i].content@.len()
        >= dict[j].content@.len()) by {
        assert(entry_precedes(data, ops, dict[i], dict[j]));
    }
    assert forall|i: int, j: int| 0 <= i < j < dict.len() implies (#[trigger] dict[i]).content@ != (
    #[trigger] dict[j]).content@ by {
        assert(entry_precedes(data, ops, dict[i], dict[j]));
        assert(describes(data, ops, dict[i]) && describes(data, ops, dict[j]));
        if dict[i].content@ == dict[j].content@ {
            lemma_entry_precedes_irreflexive(data, ops, dict[i], dict[j]);
        }
    }
}

/// Of two patterns at most one is seen before the other.
proof fn lemma_seen_before_asymmetric(data: Seq<u8>, ops: Seq<ScanOp>, a: Seq<u8>, b: Seq<u8>)
    ensures
        !(seen_before(data, ops, a, b) && seen_before(data, ops, b, a)),
{
    if seen_before(data, ops, a, b) && seen_before(data, ops, b, a) {
        let ka = choose|k: int|
            uses(data, ops, k, a) && forall|j: int| 0 <= j <= k ==> !uses(data, ops, j, b);
        let kb = choose|k: int|
            uses(data, ops, k, b) && forall|j: int| 0 <= j <= k ==> !uses(data, ops, j, a);
        if ka <= kb {
            assert(!uses(data, ops, ka, a));
        } else {
            assert(!uses(data, ops, kb, b));
        }
    }
}

/// No entry ranks before one with the same pattern.
proof fn lemma_entry_precedes_irreflexive(data: Seq<u8>, ops: Seq<ScanOp>, a: DictEntry, b: DictEntry)
    requires
        describes(data, ops, a),
        describes(data, ops, b),
        a.content@ == b.content@,
    ensures
        !entry_precedes(data, ops, a, b),
{
    lemma_seen_before_asymmetric(data, ops, a.content@, b.content@);
}

/// Of two patterns at most one ranks before the other, whichever entries
/// describe them.
proof fn lemma_entry_precedes_asymmetric(
    data: Seq<u8>,
    ops: Seq<ScanOp>,
    a: DictEntry,
    b: DictEntry,
    a2: DictEntry,
    b2: DictEntry,
)
    requires
        describes(data, ops, a),
        describes(data, ops, b),
        describes(data, ops, a2),
        describes(data, ops, b2),
        a.content@ == a2.content@,
        b.content@ == b2.content@,
    ensures
        !(entry_precedes(data, ops, a, b) && entry_precedes(data, ops, b2, a2)),
{
    lemma_seen_before_asymmetric(data, ops, a.content@, b.content@);
}

/// A pattern that is used at least once is used by some operation.
proof fn lemma_uses_exists(data: Seq<u8>, ops: Seq<ScanOp>, content: Seq<u8>, k: int)
    requires
        uses_upto(data, ops, content, k) > 0,
    ensures
        exists|j: int| 0 <= j < k && uses(data, ops, j, content),
    decreases k,
{
    if k > 0 {
        if !uses(data, ops, k - 1, content) {
            lemma_uses_exists(data, ops, content, k - 1);
            let j = choose|j: int| 0 <= j < k - 1 && uses(data, ops, j, content);
            assert(0 <= j < k && uses(data, ops, j, content));
        }
    }
}

/// Some entry of `d` holds the pattern `c`.
spec fn has_content(d: Seq<DictEntry>, c: Seq<u8>) -> bool {
    exists|i: int| 0 <= i < d.len() && (#[trigger] d[i]).content@ == c
}

/// The entries describe patterns of the operations and are in rank order.
spec fn ordered_entries(data: Seq<u8>, ops: Seq<ScanOp>, d: Seq<DictEntry>) -> bool {
    &&& forall|i: int| 0 <= i < d.len() ==> describes(data, ops, #[trigger] d[i])
    &&& forall|i: int, j: int|
        0 <= i < j < d.len() ==> entry_precedes(data, ops, #[trigger] d[i], #[trigger] d[j])
}

/// Entries in rank order that hold the same patterns hold them in the same
/// places.
proof fn lemma_ordered_entries_unique(
    data: Seq<u8>,
    ops: Seq<ScanOp>,
    d1: Seq<DictEntry>,
    d2: Seq<DictEntry>,
)
    requires
        ordered_entries(data, ops, d1),
        ordered_entries(data, ops, d2),
        forall|c: Seq<u8>| has_content(d1, c) <==> has_content(d2, c),
    ensures
        d1.len() == d2.len(),
        forall|i: int| 0 <= i < d1.len() ==> (#[trigger] d1[i]).content@ == d2[i].content@,
    decreases d1.len(),
{
    if d1.len() == 0 {
        if d2.len() > 0 {
            assert(has_content(d2, d2[0].content@));
            assert(has_content(d1, d2[0].content@));
        }
    } else {
        let c1 = d1[0].content@;
        assert(has_content(d1, c1));
        assert(has_content(d2, c1));
        let j = choose|j: int| 0 <= j < d2.len() && (#[trigger] d2[j]).content@ == c1;
        let c2 = d2[0].content@;
        assert(has_content(d2, c2));
        assert(has_content(d1, c2));
        let i = choose|i: int| 0 <= i < d1.len() && (#[trigger] d1[i]).content@ == c2;
        if j > 0 && i > 0 {
            assert(entry_precedes(data, ops, d2[0], d2[j]));
            assert(entry_precedes(data, ops, d1[0], d1[i]));
            lemma_entry_precedes_asymmetric(data, ops, d1[0], d1[i], d2[j], d2[0]);
        }
        assert(c1 == c2);
        let t1 = d1.subrange(1, d1.len() as int);
        let t2 = d2.subrange(1, d2.len() as int);
        assert forall|a: int, b: int| 0 <= a < b < t1.len() implies entry_precedes(
            data,
            ops,
            #[trigger] t1[a],
            #[trigger] t1[b],
        ) by {
            assert(t1[a] == d1[a + 1] && t1[b] == d1[b + 1]);
        }
        assert forall|a: int, b: int| 0 <= a < b < t2.len() implies entry_precedes(
            data,
            ops,
            #[trigger] t2[a],
            #[trigger] t2[b],
        ) by {
            assert(t2[a] == d2[a + 1] && t2[b] == d2[b + 1]);
        }
        assert forall|a: int| 0 <= a < t1.len() implies describes(data, ops, #[trigger] t1[a]) by {
            assert(t1[a] == d1[a + 1]);
        }
        assert forall|a: int| 0 <= a < t2.len() implies describes(data, ops, #[trigger] t2[a]) by {
            assert(t2[a] == d2[a + 1]);
        }
        assert forall|c: Seq<u8>| has_content(t1, c) <==> has_content(t2, c) by {
            if has_content(t1, c) {
                let k = choose|k: int| 0 <= k < t1.len() && (#[trigger] t1[k]).content@ == c;
                assert(d1[k + 1].content@ == c);
                assert(has_content(d1, c));
                assert(has_content(d2, c));
                let m = choose|m: int| 0 <= m < d2.len() && (#[trigger] d2[m]).content@ == c;
                if m == 0 {
                    assert(entry_precedes(data, ops, d1[0], d1[k + 1]));
                    lemma_entry_precedes_irreflexive(data, ops, d1[0], d1[k + 1]);
                }
                assert(t2[m - 1].content@ == c);
            }
            if has_content(t2, c) {
                let k = choose|k: int| 0 <= k < t2.len() && (#[trigger] t2[k]).content@ == c;
                assert(d2[k + 1].content@ == c);
                assert(has_content(d2, c));
                assert(has_content(d1, c));
                let m = choose|m: int| 0 <= m < d1.len() && (#[trigger] d1[m]).content@ == c;
                if m == 0 {
                    assert(entry_precedes(data, ops, d2[0], d2[k + 1]));
                    lemma_entry_precedes_irreflexive(data, ops, d2[0], d2[k + 1]);
                }
                assert(t1[m - 1].content@ == c);
            }
        }
        lemma_ordered_entries_unique(data, ops, t1, t2);
        assert forall|i: int| 0 <= i < d1.len() implies (#[trigger] d1[i]).content@
            == d2[i].content@ by {
            if i > 0 {
                assert(t1[i - 1].content@ == t2[i - 1].content@);
            }
        }
    }
}

/// The two entries hold the same id, pattern, count and positions.
pub open spec fn entries_agree(a: DictEntry, b: DictEntry) -> bool {
    &&& a.entry_id == b.entry_id
    &&& a.content@ == b.content@
    &&& a.count == b.count
    &&& a.positions@ == b.positions@
}

/// Two dictionaries of one input hold the same patterns.
proof fn lemma_dictionary_contents(
    data: Seq<u8>,
    ops: Seq<ScanOp>,
    min_count: int,
    d1: Seq<DictEntry>,
    d2: Seq<DictEntry>,
    c: Seq<u8>,
)
    requires
        is_dictionary(data, ops, min_count, d1),
        is_dictionary(data, ops, min_count, d2),
        has_content(d1, c),
    ensures
        has_content(d2, c),
{
    let i = choose|i: int| 0 <= i < d1.len() && (#[trigger] d1[i]).content@ == c;
    assert(describes(data, ops, d1[i]));
    lemma_uses_exists(data, ops, c, ops.len() as int);
    let k = choose|k: int| 0 <= k < ops.len() && uses(data, ops, k, c);
    assert(ops[k].kind == OpKind::Backref);
    let j = choose|j: int| 0 <= j < d2.len() && (#[trigger] d2[j]).content@ == ops[k].span(data);
    assert(d2[j].content@ == c);
}

/// The dictionary is determined by the buffer, the operations and the
/// minimum count: two dictionaries of the same input agree entry by entry.
pub proof fn lemma_dictionary_unique(
    data: Seq<u8>,
    ops: Seq<ScanOp>,
    min_count: int,
    d1: Seq<DictEntry>,
    d2: Seq<DictEntry>,
)
    requires
        is_dictionary(data, ops, min_count, d1),
        is_dictionary(data, ops, min_count, d2),
    ensures
        d1.len() == d2.len(),
        forall|i: int| 0 <= i < d1.len() ==> entries_agree(#[trigger] d1[i], d2[i]),
{
    assert forall|c: Seq<u8>| has_content(d1, c) <==> has_content(d2, c) by {
        if has_content(d1, c) {
            lemma_dictionary_contents(data, ops, min_count, d1, d2, c);
        }
        if has_content(d2, c) {
            lemma_dictionary_contents(data, ops, min_count, d2, d1, c);
        }
    }
    lemma_ordered_entries_unique(data, ops, d1, d2);
    assert forall|i: int| 0 <= i < d1.len() implies entries_agree(#[trigger] d1[i], d2[i]) by {
        assert(d1[i].content@ == d2[i].content@);
        assert(describes(data, ops, d1[i]));
        assert(describes(data, ops, d2[i]));
        assert(d2[i].entry_id == i);
        assert forall|p: usize| d1[i].positions@.contains(p) <==> d2[i].positions@.contains(p) by {}
        lemma_ascending_unique(d1[i].positions@, d2[i].positions@);
    }
}

/// Whether every back-reference lies within the buffer and has its source
/// in it.
pub fn backrefs_fit(data: &[u8], ops: &[ScanOp]) -> (ok: bool)
    ensures
        ok == backrefs_in_bounds(data@, ops@),
{
    let n: usize = data.len();
    let mut k: usize = 0;
    while k < ops.len()
        invariant
            n == data@.len(),
            k <= ops@.len(),
            forall|j: int|
                0 <= j < k && (#[trigger] ops@[j]).kind == OpKind::Backref ==> ops@[j].position
                    + ops@[j].length <= n && ops@[j].ref_offset <= ops@[j].position,
        decreases ops@.len() - k,
    {
        let op: ScanOp = ops[k];
        match op.kind {
            OpKind::Backref => {
                if op.position > n || op.length > n - op.position || op.ref_offset > op.position {
                    proof {
                        assert(ops@[k as int].kind == OpKind::Backref);
                    }
                    return false;
                }
            },
            OpKind::Literal => {},
        }
        k += 1;
    }
    true
}

/// The uses of a pattern among the first `k` operations span no more bytes
/// than the back-references among them.
proof fn lemma_uses_span_bytes(data: Seq<u8>, ops: Seq<ScanOp>, content: Seq<u8>, k: int)
    requires
        backrefs_in_bounds(data, ops),
        0 <= k <= ops.len(),
    ensures
        uses_upto(data, ops, content, k) * content.len() <= bytes_of(
            ops.subrange(0, k),
            OpKind::Backref,
        ),
    decreases k,
{
    if k > 0 {
        lemma_uses_span_bytes(data, ops, content, k - 1);
        let part = ops.subrange(0, k);
        assert(part.drop_last() =~= ops.subrange(0, k - 1));
        assert(part.last() == ops[k - 1]);
        let before = uses_upto(data, ops, content, k - 1) as int;
        let len = content.len() as int;
        if uses(data, ops, k - 1, content) {
            assert(ops[k - 1].span(data).len() == ops[k - 1].length);
            assert((before + 1) * len == before * len + len) by (nonlinear_arith);
        }
    } else {
        assert(uses_upto(data, ops, content, k) * content.len() == 0) by (nonlinear_arith)
            requires
                uses_upto(data, ops, content, k) == 0,
        ;
    }
}

/// The occurrences of an entry's pattern span no more bytes than the
/// operations do in total: the count times the length is at most the sum of
/// the lengths of the operations.
pub proof fn lemma_covered_bytes_fit(
    data: Seq<u8>,
    ops: Seq<ScanOp>,
    min_count: int,
    dict: Seq<DictEntry>,
    i: int,
)
    requires
        is_dictionary(data, ops, min_count, dict),
        backrefs_in_bounds(data, ops),
        0 <= i < dict.len(),
    ensures
        dict[i].count * dict[i].content@.len() <= total_length(ops),
{
    assert(describes(data, ops, dict[i]));
    lemma_uses_span_bytes(data, ops, dict[i].content@, ops.len() as int);
    assert(ops.subrange(0, ops.len() as int) =~= ops);
    lemma_bytes_split(ops);
}

} // verus!
