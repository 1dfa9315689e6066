//! LZ77 match finding over an in-memory buffer.
//!
//! The scanner walks the buffer once and describes it as a sequence of
//! operations: literal runs and back-references to earlier identical bytes.

use crate::matcher::{
    addressable, best_match, is_pow2_size, match_view, repeats, HashChain,
};
use vstd::prelude::*;

verus! {

/// The window size that is used where none is asked for.
pub const DEFAULT_WINDOW: usize = 32768;

/// The shortest match that the finder reports.
pub const MIN_MATCH: usize = 4;

/// The longest match that a scan asks for.
pub const MAX_MATCH: usize = 258;

/// The two kinds of operations.
#[derive(Debug, Clone, Copy, PartialEq, Eq, Structural)]
pub enum OpKind {
    Literal,
    Backref,
}

/// One span of the buffer: a run of literal bytes, or bytes that repeat
/// earlier ones.
#[derive(Debug, Clone, Copy)]
pub struct ScanOp {
    pub position: usize,
    pub kind: OpKind,
    pub length: usize,
    /// Distance back to the match source (0 for literals).
    pub ref_offset: usize,
}

impl ScanOp {
    /// The bytes of `data` that this operation spans.
    pub open spec fn span(self, data: Seq<u8>) -> Seq<u8> {
        data.subrange(self.position as int, self.position + self.length)
    }

    /// Whether the operation lies inside a buffer of `n` bytes.
    pub open spec fn within(self, n: nat) -> bool {
        self.position + self.length <= n
    }

    /// Return the byte content this operation covers.
    pub fn content<'a>(&self, data: &'a [u8]) -> (out: &'a [u8])
        requires
            self.within(data@.len()),
        ensures
            out@ == self.span(data@),
    {
        let n: usize = data.len();
        assert(self.position + self.length <= n);
        let end: usize = self.position + self.length;
        vstd::slice::slice_subrange(data, self.position, end)
    }
}

/// The first of `p`, `2p`, `4p`, ... that is at least `w`.
pub open spec fn pow2_from(p: int, w: int) -> int
    decreases
            (if p < w {
                w - p
            } else {
                0
            }),
{
    if p >= w || p <= 0 {
        p
    } else {
        pow2_from(2 * p, w)
    }
}

/// The window that a requested size stands for: the next power of two.
pub open spec fn window_of(window_size: int) -> int {
    pow2_from(1, window_size)
}

/// Doubling reaches `w` and never falls below its start.
proof fn lemma_pow2_from_reaches(p: int, w: int)
    requires
        p > 0,
    ensures
        pow2_from(p, w) >= w,
        pow2_from(p, w) >= p,
    decreases
            (if p < w {
                w - p
            } else {
                0
            }),
{
    if p < w {
        lemma_pow2_from_reaches(2 * p, w);
    }
}

/// A larger request is rounded to no smaller a window.
proof fn lemma_pow2_from_monotone(p: int, a: int, b: int)
    requires
        p > 0,
        a <= b,
    ensures
        pow2_from(p, a) <= pow2_from(p, b),
    decreases
            (if p < b {
                b - p
            } else {
                0
            }),
{
    if p < a {
        lemma_pow2_from_monotone(2 * p, a, b);
    } else if p < b {
        lemma_pow2_from_reaches(2 * p, b);
    }
}

/// Twice a power of two is a power of two.
proof fn lemma_double_pow2(p: usize, q: usize)
    by (bit_vector)
    requires
        p > 0,
        p & ((p - 1) as usize) == 0,
        q == p * 2,
    ensures
        q > 0,
        q & ((q - 1) as usize) == 0,
{
}

/// Round a window size up to a power of two, stopping at the largest that a
/// `usize` holds.
fn round_window(target: usize) -> (w: usize)
    ensures
        is_pow2_size(w),
        w == window_of(target as int) || (w < target && w > usize::MAX / 2),
{
    let half: usize = usize::MAX / 2;
    let mut p: usize = 1;
    assert(is_pow2_size(1usize)) by (bit_vector);
    while p < target && p <= half
        invariant
            is_pow2_size(p),
            half == usize::MAX / 2,
            pow2_from(p as int, target as int) == window_of(target as int),
        decreases usize::MAX - p,
    {
        proof {
            lemma_double_pow2(p, (p * 2) as usize);
        }
        p = p * 2;
    }
    p
}

/// The literal run of the bytes `start..end`.
pub open spec fn literal_op(start: int, end: int) -> ScanOp {
    ScanOp {
        position: start as usize,
        kind: OpKind::Literal,
        length: (end - start) as usize,
        ref_offset: 0,
    }
}

/// The back-reference at `pos` to the bytes `offset` earlier.
pub open spec fn backref_op(pos: int, length: int, offset: int) -> ScanOp {
    ScanOp {
        position: pos as usize,
        kind: OpKind::Backref,
        length: length as usize,
        ref_offset: offset as usize,
    }
}

/// The literal run that is pending since `pending`, closed at `end`.
pub open spec fn flush(pending: Option<int>, end: int) -> Seq<ScanOp> {
    match pending {
        Some(start) => seq![literal_op(start, end)],
        None => Seq::empty(),
    }
}

/// The operations that the scan emits from `pos` on, with a literal run
/// pending since `pending`: a match of at least `min_match` bytes closes the
/// pending run and becomes a back-reference; any other byte joins the run.
pub open spec fn scan_from(
    data: Seq<u8>,
    window: int,
    min_match: int,
    max_match: int,
    pos: int,
    pending: Option<int>,
) -> Seq<ScanOp>
    decreases
            (if pos < data.len() {
                data.len() - pos
            } else {
                0
            }),
{
    if pos >= data.len() {
        flush(pending, data.len() as int)
    } else {
        let found = best_match(data, pos, window, max_match);
        let m = found.unwrap();
        if found is Some && m.1 >= min_match && m.1 > 0 {
            flush(pending, pos).push(backref_op(pos, m.1, m.0)) + scan_from(
                data,
                window,
                min_match,
                max_match,
                pos + m.1,
                None,
            )
        } else {
            scan_from(
                data,
                window,
                min_match,
                max_match,
                pos + 1,
                Some(
                    if pending is Some {
                        pending.unwrap()
                    } else {
                        pos
                    },
                ),
            )
        }
    }
}

/// The operations of a whole buffer.
pub open spec fn scan_spec(data: Seq<u8>, window_size: int, min_match: int, max_match: int) -> Seq<
    ScanOp,
> {
    scan_from(data, window_of(window_size), min_match, max_match, 0, None)
}

/// The operations lie end to end from 0 to `n`, each at least one byte long.
pub open spec fn tiles(ops: Seq<ScanOp>, n: int) -> bool {
    &&& ops.len() == 0 ==> n == 0
    &&& ops.len() > 0 ==> ops[0].position == 0 && ops.last().position + ops.last().length == n
    &&& forall|i: int| 0 <= i < ops.len() ==> (#[trigger] ops[i]).length >= 1
    &&& forall|i: int| 0 <= i < ops.len() - 1 ==> #[trigger] joined(ops, i)
}

/// Operation `i` ends where operation `i + 1` begins.
pub open spec fn joined(ops: Seq<ScanOp>, i: int) -> bool {
    ops[i].position + ops[i].length == ops[i + 1].position
}

impl ScanOp {
    /// A back-reference repeats the bytes `ref_offset` earlier; a literal has
    /// no offset. Either lies within the buffer.
    pub open spec fn sound(self, data: Seq<u8>) -> bool {
        match self.kind {
            OpKind::Backref => repeats(
                data,
                self.position as int,
                self.ref_offset as int,
                self.length as int,
            ),
            OpKind::Literal => self.ref_offset == 0 && self.position + self.length <= data.len(),
        }
    }
}

/// An operation that begins where a tiling ends extends the tiling.
proof fn lemma_tiles_push(ops: Seq<ScanOp>, n: int, op: ScanOp)
    requires
        tiles(ops, n),
        op.position == n,
        op.length >= 1,
    ensures
        tiles(ops.push(op), n + op.length),
{
    let out = ops.push(op);
    assert forall|i: int| 0 <= i < out.len() - 1 implies #[trigger] joined(out, i) by {
        if i < ops.len() - 1 {
            assert(joined(ops, i));
        }
    }
}

/// No literal run follows another: runs of unmatched bytes are whole.
pub open spec fn literals_merged(ops: Seq<ScanOp>) -> bool {
    forall|i: int| 0 <= i < ops.len() - 1 ==> #[trigger] parted(ops, i)
}

/// Operations `i` and `i + 1` are not both literal runs.
pub open spec fn parted(ops: Seq<ScanOp>, i: int) -> bool {
    ops[i].kind == OpKind::Backref || ops[i + 1].kind == OpKind::Backref
}

/// An operation after a back-reference, or a back-reference after any
/// operation, keeps literal runs parted.
proof fn lemma_merged_push(ops: Seq<ScanOp>, op: ScanOp)
    requires
        literals_merged(ops),
        ops.len() > 0 ==> ops.last().kind == OpKind::Backref || op.kind == OpKind::Backref,
    ensures
        literals_merged(ops.push(op)),
{
    let out = ops.push(op);
    assert forall|i: int| 0 <= i < out.len() - 1 implies #[trigger] parted(out, i) by {
        if i < ops.len() - 1 {
            assert(parted(ops, i));
        }
    }
}

/// Run LZ77 match finding over `data` and describe it as operations.
///
/// Every byte is covered by exactly one operation, and consecutive unmatched
/// bytes are merged into a single literal.
pub fn scan(data: &[u8], window_size: usize, min_match: usize, max_match: usize) -> (ops: Vec<
    ScanOp,
>)
    ensures
        tiles(ops@, data@.len() as int),
        total_length(ops@) == data@.len(),
        forall|i: int| 0 <= i < ops@.len() ==> (#[trigger] ops@[i]).sound(data@),
        forall|i: int|
            0 <= i < ops@.len() && (#[trigger] ops@[i]).kind == OpKind::Backref ==> {
                &&& MIN_MATCH <= ops@[i].length <= max_match
                &&& min_match <= ops@[i].length
                &&& ops@[i].ref_offset <= window_of(window_size as int)
            },
        literals_merged(ops@),
        addressable(data@.len()) ==> ops@ == scan_spec(
            data@,
            window_size as int,
            min_match as int,
            max_match as int,
        ),
{
    let n: usize = data.len();
    let mut ops: Vec<ScanOp> = Vec::new();
    if n == 0 {
        proof {
            lemma_tiles_total_length(ops@, 0);
        }
        return ops;
    }
    let target: usize = if window_size <= n {
        window_size
    } else {
        n
    };
    let ws: usize = round_window(target);
    let ghost window = window_of(window_size as int);
    proof {
        lemma_pow2_from_reaches(1, window_size as int);
        lemma_pow2_from_reaches(1, target as int);
        lemma_pow2_from_monotone(1, target as int, window_size as int);
    }
    let mut chain = HashChain::new(ws);
    let mut pos: usize = 0;
    let mut lit_start: Option<usize> = None;
    let ghost goal = scan_spec(data@, window_size as int, min_match as int, max_match as int);
    while pos < n
        invariant
            n == data@.len(),
            pos <= n,
            chain.wf(),
            chain.window() == ws,
            window == window_of(window_size as int),
            ws <= window,
            addressable(data@.len()) ==> ws == window || (ws >= n && window >= n),
            goal == scan_spec(data@, window_size as int, min_match as int, max_match as int),
            match lit_start {
                Some(s) => s < pos && tiles(ops@, s as int),
                None => tiles(ops@, pos as int),
            },
            literals_merged(ops@),
            ops@.len() > 0 ==> ops@.last().kind == OpKind::Backref,
            forall|i: int| 0 <= i < ops@.len() ==> (#[trigger] ops@[i]).sound(data@),
            forall|i: int|
                0 <= i < ops@.len() && (#[trigger] ops@[i]).kind == OpKind::Backref ==> {
                    &&& MIN_MATCH <= ops@[i].length <= max_match
                    &&& min_match <= ops@[i].length
                    &&& ops@[i].ref_offset <= window
                },
            addressable(data@.len()) ==> {
                &&& chain.tracks(data@, pos as int)
                &&& ops@ + scan_from(
                    data@,
                    window,
                    min_match as int,
                    max_match as int,
                    pos as int,
                    pending_view(lit_start),
                ) == goal
            },
        decreases n - pos,
    {
        let ghost before = ops@;
        let ghost pending = pending_view(lit_start);
        let ghost exact = addressable(data@.len());
        let mut matched: bool = false;
        if n - pos >= 4 {
            let found = chain.longest_match(data, pos, max_match);
            proof {
                if exact {
                    assert(match_view(found) == best_match(
                        data@,
                        pos as int,
                        window,
                        max_match as int,
                    ));
                }
            }
            if let Some((off, len)) = found {
                if len >= min_match {
                    if let Some(s) = lit_start {
                        let lit = ScanOp {
                            position: s,
                            kind: OpKind::Literal,
                            length: pos - s,
                            ref_offset: 0,
                        };
                        proof {
                            lemma_tiles_push(ops@, s as int, lit);
                            lemma_merged_push(ops@, lit);
                        }
                        ops.push(lit);
                        lit_start = None;
                    }
                    let br = ScanOp {
                        position: pos,
                        kind: OpKind::Backref,
                        length: len,
                        ref_offset: off,
                    };
                    proof {
                        lemma_tiles_push(ops@, pos as int, br);
                        lemma_merged_push(ops@, br);
                    }
                    ops.push(br);
                    chain.insert_range(data, pos, pos + len);
                    proof {
                        if exact {
                            let rest = scan_from(
                                data@,
                                window,
                                min_match as int,
                                max_match as int,
                                pos + len,
                                None,
                            );
                            assert(ops@ =~= before + flush(pending, pos as int).push(br));
                            assert(before + (flush(pending, pos as int).push(br) + rest) =~= ops@
                                + rest);
                        }
                    }
                    pos += len;
                    matched = true;
                }
            }
        }
        if !matched {
            if lit_start.is_none() {
                lit_start = Some(pos);
            }
            chain.insert(data, pos);
            pos += 1;
        }
    }
    if let Some(s) = lit_start {
        let lit = ScanOp { position: s, kind: OpKind::Literal, length: n - s, ref_offset: 0 };
        proof {
            lemma_tiles_push(ops@, s as int, lit);
            lemma_merged_push(ops@, lit);
        }
        ops.push(lit);
    }
    proof {
        if addressable(data@.len()) {
            assert(ops@ =~= goal);
        }
        lemma_tiles_total_length(ops@, n as int);
    }
    ops
}

/// A pending literal start as a mathematical integer.
pub open spec fn pending_view(lit_start: Option<usize>) -> Option<int> {
    match lit_start {
        Some(s) => Some(s as int),
        None => None,
    }
}

/// The sum of the lengths of the operations.
pub open spec fn total_length(ops: Seq<ScanOp>) -> int
    decreases ops.len(),
{
    if ops.len() == 0 {
        0
    } else {
        total_length(ops.drop_last()) + ops.last().length
    }
}

/// A prefix of a tiling tiles the buffer up to where the next operation
/// begins.
pub proof fn lemma_tiles_prefix(ops: Seq<ScanOp>, n: int, k: int)
    requires
        tiles(ops, n),
        0 <= k < ops.len(),
    ensures
        tiles(ops.subrange(0, k), ops[k].position as int),
{
    let head = ops.subrange(0, k);
    if k > 0 {
        assert(joined(ops, k - 1));
        assert forall|i: int| 0 <= i < head.len() - 1 implies #[trigger] joined(head, i) by {
            assert(joined(ops, i));
        }
    }
}

/// Operations that tile a buffer have lengths that sum to its size.
pub proof fn lemma_tiles_total_length(ops: Seq<ScanOp>, n: int)
    requires
        tiles(ops, n),
    ensures
        total_length(ops) == n,
    decreases ops.len(),
{
    if ops.len() > 0 {
        let k = ops.len() - 1;
        lemma_tiles_prefix(ops, n, k);
        assert(ops.subrange(0, k) =~= ops.drop_last());
        lemma_tiles_total_length(ops.drop_last(), ops[k].position as int);
    }
}

/// In a tiling an earlier operation ends before a later one begins, and
/// every operation lies within the buffer.
pub proof fn lemma_tiles_ordered(ops: Seq<ScanOp>, n: int, i: int, j: int)
    requires
        tiles(ops, n),
        0 <= i <= j < ops.len(),
    ensures
        0 <= ops[i].position,
        i < j ==> ops[i].position + ops[i].length <= ops[j].position,
        ops[j].position + ops[j].length <= n,
    decreases ops.len() - i,
{
    if i < j {
        assert(joined(ops, i));
        lemma_tiles_ordered(ops, n, i + 1, j);
    } else if j < ops.len() - 1 {
        assert(joined(ops, j));
        lemma_tiles_ordered(ops, n, j + 1, j + 1);
    }
}

/// A tiling covers the buffer without gaps or overlaps: each byte lies in
/// exactly one operation.
pub proof fn lemma_tiles_partition(ops: Seq<ScanOp>, n: int, b: int)
    requires
        tiles(ops, n),
        0 <= b < n,
    ensures
        exists|k: int| 0 <= k < ops.len() && spans_byte(#[trigger] ops[k], b),
        forall|k: int, m: int|
            0 <= k < ops.len() && 0 <= m < ops.len() && spans_byte(#[trigger] ops[k], b)
                && spans_byte(#[trigger] ops[m], b) ==> k == m,
    decreases ops.len(),
{
    let last = ops.len() - 1;
    if b >= ops[last].position {
        assert(spans_byte(ops[last], b));
    } else {
        lemma_tiles_prefix(ops, n, last);
        let head = ops.subrange(0, last);
        lemma_tiles_partition(head, ops[last].position as int, b);
        let k = choose|k: int| 0 <= k < head.len() && spans_byte(#[trigger] head[k], b);
        assert(spans_byte(ops[k], b));
    }
    assert forall|k: int, m: int|
        0 <= k < ops.len() && 0 <= m < ops.len() && spans_byte(#[trigger] ops[k], b)
            && spans_byte(#[trigger] ops[m], b) implies k == m by {
        if k < m {
            lemma_tiles_ordered(ops, n, k, m);
        } else if m < k {
            lemma_tiles_ordered(ops, n, m, k);
        }
    }
}

/// Byte `b` lies in the span of `op`.
pub open spec fn spans_byte(op: ScanOp, b: int) -> bool {
    op.position <= b < op.position + op.length
}

/// How many of the operations are of `kind`.
pub open spec fn count_of(ops: Seq<ScanOp>, kind: OpKind) -> int
    decreases ops.len(),
{
    if ops.len() == 0 {
        0
    } else {
        count_of(ops.drop_last(), kind) + if ops.last().kind == kind {
            1int
        } else {
            0int
        }
    }
}

/// How many bytes the operations of `kind` span.
pub open spec fn bytes_of(ops: Seq<ScanOp>, kind: OpKind) -> int
    decreases ops.len(),
{
    if ops.len() == 0 {
        0
    } else {
        bytes_of(ops.drop_last(), kind) + if ops.last().kind == kind {
            ops.last().length as int
        } else {
            0int
        }
    }
}

/// The numbers of literal runs and back-references, and of the bytes in
/// each.
#[derive(Debug, Clone, Copy)]
pub struct ScanSummary {
    pub literals: usize,
    pub backrefs: usize,
    pub literal_bytes: usize,
    pub backref_bytes: usize,
}

/// Literal and back-reference bytes add up to the total length, and the two
/// counts to the number of operations.
pub proof fn lemma_bytes_split(ops: Seq<ScanOp>)
    ensures
        bytes_of(ops, OpKind::Literal) + bytes_of(ops, OpKind::Backref) == total_length(ops),
        0 <= bytes_of(ops, OpKind::Literal),
        0 <= bytes_of(ops, OpKind::Backref),
        0 <= count_of(ops, OpKind::Literal),
        0 <= count_of(ops, OpKind::Backref),
        count_of(ops, OpKind::Literal) + count_of(ops, OpKind::Backref) == ops.len(),
    decreases ops.len(),
{
    if ops.len() > 0 {
        lemma_bytes_split(ops.drop_last());
    }
}

/// A prefix of the operations is no longer in total than all of them.
proof fn lemma_total_length_prefix(ops: Seq<ScanOp>, k: int)
    requires
        0 <= k <= ops.len(),
    ensures
        0 <= total_length(ops.subrange(0, k)) <= total_length(ops),
    decreases ops.len() - k,
{
    lemma_bytes_split(ops.subrange(0, k));
    if k < ops.len() {
        assert(ops.subrange(0, k + 1).drop_last() =~= ops.subrange(0, k));
        lemma_total_length_prefix(ops, k + 1);
    } else {
        assert(ops.subrange(0, k) =~= ops);
    }
}

/// Count the operations and their bytes by kind.
pub fn summarize(ops: &[ScanOp]) -> (sum: ScanSummary)
    requires
        total_length(ops@) <= usize::MAX,
    ensures
        sum.literals == count_of(ops@, OpKind::Literal),
        sum.backrefs == count_of(ops@, OpKind::Backref),
        sum.literal_bytes == bytes_of(ops@, OpKind::Literal),
        sum.backref_bytes == bytes_of(ops@, OpKind::Backref),
        sum.literals + sum.backrefs == ops@.len(),
        sum.literal_bytes + sum.backref_bytes == total_length(ops@),
{
    let mut sum = ScanSummary { literals: 0, backrefs: 0, literal_bytes: 0, backref_bytes: 0 };
    let mut k: usize = 0;
    while k < ops.len()
        invariant
            k <= ops@.len(),
            total_length(ops@) <= usize::MAX,
            sum.literals == count_of(ops@.subrange(0, k as int), OpKind::Literal),
            sum.backrefs == count_of(ops@.subrange(0, k as int), OpKind::Backref),
            sum.literal_bytes == bytes_of(ops@.subrange(0, k as int), OpKind::Literal),
            sum.backref_bytes == bytes_of(ops@.subrange(0, k as int), OpKind::Backref),
        decreases ops@.len() - k,
    {
        proof {
            let next = ops@.subrange(0, k + 1);
            assert(next.drop_last() =~= ops@.subrange(0, k as int));
            assert(next.last() == ops@[k as int]);
            lemma_bytes_split(next);
            lemma_total_length_prefix(ops@, k + 1);
        }
        let op: ScanOp = ops[k];
        match op.kind {
            OpKind::Literal => {
                sum.literals = sum.literals + 1;
                sum.literal_bytes = sum.literal_bytes + op.length;
            },
            OpKind::Backref => {
                sum.backrefs = sum.backrefs + 1;
                sum.backref_bytes = sum.backref_bytes + op.length;
            },
        }
        k += 1;
    }
    proof {
        assert(ops@.subrange(0, k as int) =~= ops@);
        lemma_bytes_split(ops@);
    }
    sum
}

/// Whether the operations lie end to end from 0 to `n`, each at least one
/// byte long.
pub fn is_tiling(ops: &[ScanOp], n: usize) -> (ok: bool)
    ensures
        ok == tiles(ops@, n as int),
{
    let mut at: usize = 0;
    let mut k: usize = 0;
    while k < ops.len()
        invariant
            k <= ops@.len(),
            at <= n,
            tiles(ops@.subrange(0, k as int), at as int),
        decreases ops@.len() - k,
    {
        let op: ScanOp = ops[k];
        let ghost head = ops@.subrange(0, k as int);
        if op.position != at || op.length < 1 || op.length > n - at {
            proof {
                if tiles(ops@, n as int) {
                    lemma_tiles_prefix(ops@, n as int, k as int);
                    lemma_tiles_ordered(ops@, n as int, k as int, k as int);
                    if k > 0 {
                        assert(head.last() == ops@[k - 1]);
                        assert(joined(ops@, k - 1));
                    }
                }
            }
            return false;
        }
        proof {
            assert(ops@.subrange(0, k + 1) =~= head.push(op));
            lemma_tiles_push(head, at as int, op);
        }
        at = at + op.length;
        k += 1;
    }
    proof {
        assert(ops@.subrange(0, k as int) =~= ops@);
        if at != n && tiles(ops@, n as int) {
            if ops@.len() == 0 {
            } else {
                assert(ops@.last().position + ops@.last().length == at);
            }
        }
        if at == n {
            assert(tiles(ops@, n as int));
        }
    }
    at == n
}

} // verus!
