//! Hash-chain match finder.
//!
//! For a position of the buffer the finder reports the longest earlier
//! occurrence of the bytes that start there, within a window and within a
//! bounded number of candidates.

use crate::scanner::MIN_MATCH;
use vstd::prelude::*;

verus! {

/// The number of hash values: 2 to the power of 15.
pub const HASH_SIZE: usize = 32768;

/// The number of candidates that one search looks at, at most.
pub const MAX_CHAIN: usize = 64;

/// The link that marks the end of a chain.
pub const NO_POS: u32 = 0xffff_ffff;

/// The 4-byte little-endian word at `pos`, multiplied and folded to 15 bits.
pub open spec fn hash4(data: Seq<u8>, pos: int) -> usize {
    let w: u32 = (data[pos] as u32) | ((data[pos + 1] as u32) << 8) | ((data[pos + 2] as u32)
        << 16) | ((data[pos + 3] as u32) << 24);
    ((w.wrapping_mul(2654435761u32) >> 17) & 0x7fffu32) as usize
}

/// The hash of the four bytes at `pos`.
fn hash_at(data: &[u8], pos: usize) -> (h: usize)
    requires
        pos + 4 <= data@.len(),
    ensures
        h == hash4(data@, pos as int),
        h < HASH_SIZE,
{
    let w: u32 = (data[pos] as u32) | ((data[pos + 1] as u32) << 8) | ((data[pos + 2] as u32)
        << 16) | ((data[pos + 3] as u32) << 24);
    let m: u32 = w.wrapping_mul(2654435761u32);
    let k: u32 = (m >> 17) & 0x7fffu32;
    assert(k < 0x8000u32) by (bit_vector)
        requires
            k == (m >> 17) & 0x7fffu32,
    ;
    k as usize
}

/// Whether four bytes are available at `p`, so that it can be hashed.
pub open spec fn hashable(data: Seq<u8>, p: int) -> bool {
    0 <= p && p + 4 <= data.len()
}

/// The most recent hashable position before `before` whose hash is `h`,
/// or -1 when there is none.
pub open spec fn prev_occurrence(data: Seq<u8>, h: usize, before: int) -> int
    decreases before,
{
    if before <= 0 {
        -1
    } else if hashable(data, before - 1) && hash4(data, before - 1) == h {
        before - 1
    } else {
        prev_occurrence(data, h, before - 1)
    }
}

/// How a chain link stores a position: the sentinel stands for "none".
pub open spec fn encode(p: int) -> u32 {
    if p < 0 {
        NO_POS
    } else {
        p as u32
    }
}

/// Buffers whose positions fit the 32-bit links without reaching the sentinel.
pub open spec fn addressable(n: nat) -> bool {
    n < NO_POS && n <= isize::MAX
}

/// `w` is a power of two.
pub open spec fn is_pow2_size(w: usize) -> bool {
    w > 0 && w & ((w - 1) as usize) == 0
}

/// A position masked by a window's size less one is a slot of the window.
proof fn lemma_slot_bound(p: usize, w: usize)
    by (bit_vector)
    requires
        w > 0,
    ensures
        p & ((w - 1) as usize) < w,
{
}

/// Positions less than a window apart fall into different slots.
proof fn lemma_slots_distinct(p: usize, q: usize, w: usize)
    by (bit_vector)
    requires
        w > 0,
        w & ((w - 1) as usize) == 0,
        p < q,
        q - p < w,
    ensures
        p & ((w - 1) as usize) != q & ((w - 1) as usize),
{
}

/// What `prev_occurrence` finds lies below `before`, can be hashed, and
/// hashes to `h`.
proof fn lemma_prev_occurrence_bounds(data: Seq<u8>, h: usize, before: int)
    ensures
        -1 <= prev_occurrence(data, h, before),
        prev_occurrence(data, h, before) < before || before <= 0,
        prev_occurrence(data, h, before) >= 0 ==> hashable(data, prev_occurrence(data, h, before))
            && hash4(data, prev_occurrence(data, h, before)) == h,
    decreases before,
{
    if before > 0 {
        lemma_prev_occurrence_bounds(data, h, before - 1);
    }
}

/// Length of the longest common run of bytes at `a` and `b`, up to `limit`.
pub open spec fn common_prefix(data: Seq<u8>, a: int, b: int, limit: int) -> int
    decreases limit,
{
    if limit <= 0 || data[a] != data[b] {
        0
    } else {
        1 + common_prefix(data, a + 1, b + 1, limit - 1)
    }
}

/// The bytes at `pos` repeat those `offset` bytes earlier, for `length` bytes.
pub open spec fn repeats(data: Seq<u8>, pos: int, offset: int, length: int) -> bool {
    &&& 0 < offset <= pos
    &&& 0 <= length
    &&& pos + length <= data.len()
    &&& data.subrange(pos - offset, pos - offset + length) == data.subrange(pos, pos + length)
}

/// The longest run that a match at `pos` may have.
pub open spec fn match_limit(data: Seq<u8>, pos: int, max_len: int) -> int {
    if max_len <= data.len() - pos {
        max_len
    } else {
        data.len() - pos
    }
}

/// The search along the chain of `pos`'s hash value: from candidate `cand`,
/// after `steps` steps, with the best offset and length found so far. A
/// candidate replaces the best only when it is strictly longer; the search
/// ends below `floor`, after `MAX_CHAIN` steps, at the chain's end, or once
/// `max_len` is reached.
pub open spec fn search(
    data: Seq<u8>,
    pos: int,
    floor: int,
    max_len: int,
    cand: int,
    steps: int,
    best: (int, int),
) -> (int, int)
    decreases MAX_CHAIN - steps,
{
    if cand < 0 || cand < floor || steps >= MAX_CHAIN {
        best
    } else {
        let len = common_prefix(data, cand, pos, match_limit(data, pos, max_len));
        let next = prev_occurrence(data, hash4(data, pos), cand);
        if len > best.1 {
            if len >= max_len {
                (pos - cand, len)
            } else {
                search(data, pos, floor, max_len, next, steps + 1, (pos - cand, len))
            }
        } else {
            search(data, pos, floor, max_len, next, steps + 1, best)
        }
    }
}

/// The match that the finder reports at `pos`, as (offset, length), when every
/// hashable position before `pos` has been entered: the most recent of the
/// longest matches among the first `MAX_CHAIN` earlier positions with the hash
/// of `pos` that lie within `window` bytes.
pub open spec fn best_match(data: Seq<u8>, pos: int, window: int, max_len: int) -> Option<
    (int, int),
> {
    if !hashable(data, pos) {
        None
    } else {
        let floor = if pos >= window {
            pos - window
        } else {
            0
        };
        let first = prev_occurrence(data, hash4(data, pos), pos);
        let found = search(data, pos, floor, max_len, first, 0, (0, MIN_MATCH - 1));
        if found.1 >= MIN_MATCH && found.0 > 0 {
            Some(found)
        } else {
            None
        }
    }
}

/// The bytes from `a` equal those from `b`, for `len` bytes.
pub open spec fn same_run(data: Seq<u8>, a: int, b: int, len: int) -> bool {
    forall|k: int| a <= k < a + len ==> #[trigger] data[k] == data[k - a + b]
}

/// The common run is within the limit, holds equal bytes, and ends at the
/// limit or at a difference.
proof fn lemma_common_prefix(data: Seq<u8>, a: int, b: int, limit: int)
    requires
        0 <= a,
        0 <= b,
        a + limit <= data.len(),
        b + limit <= data.len(),
    ensures
        0 <= common_prefix(data, a, b, limit),
        common_prefix(data, a, b, limit) <= limit || limit < 0,
        same_run(data, a, b, common_prefix(data, a, b, limit)),
        common_prefix(data, a, b, limit) < limit ==> data[a + common_prefix(data, a, b, limit)]
            != data[b + common_prefix(data, a, b, limit)],
    decreases limit,
{
    if limit > 0 && data[a] == data[b] {
        lemma_common_prefix(data, a + 1, b + 1, limit - 1);
        let rest = common_prefix(data, a + 1, b + 1, limit - 1);
        assert forall|k: int| a <= k < a + 1 + rest implies #[trigger] data[k] == data[k - a
            + b] by {
            if k > a {
                assert(data[k] == data[k - (a + 1) + (b + 1)]);
            }
        }
    }
}

/// A run of `len` equal bytes that cannot be extended is the common prefix.
proof fn lemma_common_prefix_is(data: Seq<u8>, a: int, b: int, limit: int, len: int)
    requires
        0 <= a,
        0 <= b,
        a + limit <= data.len(),
        b + limit <= data.len(),
        0 <= len <= limit,
        same_run(data, a, b, len),
        len < limit ==> data[a + len] != data[b + len],
    ensures
        common_prefix(data, a, b, limit) == len,
    decreases limit,
{
    if limit > 0 && data[a] == data[b] {
        assert(len > 0) by {
            if len == 0 {
                assert(data[a + 0] != data[b + 0]);
            }
        }
        assert forall|k: int| a + 1 <= k < a + 1 + (len - 1) implies #[trigger] data[k]
            == data[k - (a + 1) + (b + 1)] by {
            assert(data[k] == data[k - a + b]);
        }
        lemma_common_prefix_is(data, a + 1, b + 1, limit - 1, len - 1);
    } else if limit > 0 {
        if len > 0 {
            assert(data[a] == data[a - a + b]);
        }
    }
}

/// Equal runs are equal slices.
proof fn lemma_same_run_repeats(data: Seq<u8>, pos: int, cand: int, len: int)
    requires
        0 <= cand < pos,
        0 <= len,
        pos + len <= data.len(),
        same_run(data, cand, pos, len),
    ensures
        repeats(data, pos, pos - cand, len),
{
    let x = data.subrange(cand, cand + len);
    let y = data.subrange(pos, pos + len);
    assert forall|i: int| 0 <= i < len implies x[i] == y[i] by {
        assert(data[cand + i] == data[cand + i - cand + pos]);
    }
    assert(x =~= y);
}

/// A reported match as mathematical integers.
pub open spec fn match_view(found: Option<(usize, usize)>) -> Option<(int, int)> {
    match found {
        Some((off, len)) => Some((off as int, len as int)),
        None => None,
    }
}

/// Hash table of chained positions: `head` holds the latest position of each
/// hash value, `prev` links a position to the one before it with that hash.
pub(crate) struct HashChain {
    window_size: usize,
    mask: usize,
    head: Vec<u32>,
    prev: Vec<u32>,
}

impl HashChain {
    /// The tables have their sizes, and the window is a power of two.
    pub(crate) closed spec fn wf(&self) -> bool {
        &&& is_pow2_size(self.window_size)
        &&& self.mask == self.window_size - 1
        &&& self.head@.len() == HASH_SIZE
        &&& self.prev@.len() == self.window_size
    }

    /// The size of the window.
    pub(crate) closed spec fn window(&self) -> usize {
        self.window_size
    }

    /// The table holds exactly the hashable positions below `upto`, entered
    /// in increasing order.
    pub(crate) closed spec fn tracks(&self, data: Seq<u8>, upto: int) -> bool {
        &&& addressable(data.len())
        &&& forall|h: usize|
            h < HASH_SIZE ==> #[trigger] self.head@[h as int] == encode(
                prev_occurrence(data, h, upto),
            )
        &&& forall|p: usize|
            upto - self.window_size <= p < upto && hashable(data, p as int)
                ==> self.prev@[(p & self.mask) as int] == encode(
                #[trigger] prev_occurrence(data, hash4(data, p as int), p as int),
            )
    }

    /// An empty table for a window of `window_size` positions.
    pub(crate) fn new(window_size: usize) -> (chain: HashChain)
        requires
            is_pow2_size(window_size),
        ensures
            chain.wf(),
            chain.window() == window_size,
            forall|data: Seq<u8>| addressable(data.len()) ==> chain.tracks(data, 0),
    {
        let chain = HashChain {
            window_size,
            mask: window_size - 1,
            head: vec![NO_POS; HASH_SIZE],
            prev: vec![NO_POS; window_size],
        };
        chain
    }

    /// The slot of `pos` in the window.
    fn slot(&self, pos: usize) -> (s: usize)
        requires
            self.wf(),
        ensures
            s == pos & self.mask,
            s < self.window_size,
    {
        proof {
            lemma_slot_bound(pos, self.window_size);
        }
        pos & self.mask
    }

    /// Enter `pos` at the front of the chain of its hash value.
    pub(crate) fn insert(&mut self, data: &[u8], pos: usize)
        requires
            old(self).wf(),
        ensures
            final(self).wf(),
            final(self).window() == old(self).window(),
            old(self).tracks(data@, pos as int) ==> final(self).tracks(data@, pos + 1),
    {
        let n: usize = data.len();
        if n < 4 || pos > n - 4 {
            return ;
        }
        let h: usize = hash_at(data, pos);
        let s: usize = self.slot(pos);
        let before: u32 = self.head[h];
        self.prev.set(s, before);
        self.head.set(h, #[verifier::truncate] (pos as u32));
        proof {
            if old(self).tracks(data@, pos as int) {
                let w = self.window_size;
                assert forall|p: usize|
                    pos + 1 - w <= p < pos + 1 && hashable(data@, p as int) implies self.prev@[(p
                    & self.mask) as int] == encode(
                    #[trigger] prev_occurrence(data@, hash4(data@, p as int), p as int),
                ) by {
                    lemma_slot_bound(p, w);
                    if p < pos {
                        lemma_slots_distinct(p, pos, w);
                        assert(p & self.mask != s);
                        assert(old(self).prev@[(p & self.mask) as int] == encode(
                            prev_occurrence(data@, hash4(data@, p as int), p as int),
                        ));
                    } else {
                        assert(p == pos);
                        assert(before == encode(prev_occurrence(data@, h, pos as int)));
                    }
                }
                assert forall|g: usize| g < HASH_SIZE implies #[trigger] self.head@[g as int]
                    == encode(prev_occurrence(data@, g, pos + 1)) by {
                    assert(old(self).head@[g as int] == encode(
                        prev_occurrence(data@, g, pos as int),
                    ));
                }
            }
        }
    }

    /// Find the longest earlier match for the bytes at `pos`, as
    /// (offset, length).
    pub(crate) fn longest_match(&self, data: &[u8], pos: usize, max_len: usize) -> (found: Option<
        (usize, usize),
    >)
        requires
            self.wf(),
        ensures
            match found {
                Some((off, len)) => {
                    &&& repeats(data@, pos as int, off as int, len as int)
                    &&& MIN_MATCH <= len <= max_len
                    &&& off <= self.window()
                },
                None => true,
            },
            self.tracks(data@, pos as int) ==> match_view(found) == best_match(
                data@,
                pos as int,
                self.window() as int,
                max_len as int,
            ),
    {
        let n: usize = data.len();
        if n < MIN_MATCH || pos > n - MIN_MATCH {
            return None;
        }
        let h: usize = hash_at(data, pos);
        let min_pos: usize = if pos >= self.window_size {
            pos - self.window_size
        } else {
            0
        };
        let room: usize = n - pos;
        let limit: usize = if max_len <= room {
            max_len
        } else {
            room
        };
        let mut cp: u32 = self.head[h];
        let mut best_off: usize = 0;
        let mut best_len: usize = MIN_MATCH - 1;
        let mut steps: usize = 0;
        let mut done: bool = false;
        let ghost first = prev_occurrence(data@, h, pos as int);
        let ghost mut cand: int = first;
        let ghost goal = search(
            data@,
            pos as int,
            min_pos as int,
            max_len as int,
            first,
            0,
            (0, MIN_MATCH - 1),
        );
        proof {
            lemma_prev_occurrence_bounds(data@, h, pos as int);
        }
        while !done && cp != NO_POS && (cp as usize) >= min_pos && steps < MAX_CHAIN
            invariant
                self.wf(),
                n == data@.len(),
                pos + MIN_MATCH <= n,
                h == hash4(data@, pos as int),
                limit == match_limit(data@, pos as int, max_len as int),
                min_pos == if pos >= self.window_size {
                    pos - self.window_size
                } else {
                    0
                },
                steps <= MAX_CHAIN,
                MIN_MATCH - 1 <= best_len,
                best_len >= MIN_MATCH ==> best_len <= limit && best_off <= self.window_size
                    && repeats(data@, pos as int, best_off as int, best_len as int),
                self.tracks(data@, pos as int) ==> {
                    &&& cp == encode(cand)
                    &&& -1 <= cand < pos
                    &&& cand >= 0 ==> hashable(data@, cand) && hash4(data@, cand) == h
                    &&& !done ==> search(
                        data@,
                        pos as int,
                        min_pos as int,
                        max_len as int,
                        cand,
                        steps as int,
                        (best_off as int, best_len as int),
                    ) == goal
                    &&& done ==> (best_off as int, best_len as int) == goal
                },
            decreases MAX_CHAIN - steps + (if done { 0int } else { 1int }),
        {
            let c: usize = cp as usize;
            let ghost exact = self.tracks(data@, pos as int);
            let ghost run = common_prefix(data@, c as int, pos as int, limit as int);
            proof {
                if exact {
                    assert(cand == c);
                }
                if c < pos {
                    lemma_common_prefix(data@, c as int, pos as int, limit as int);
                }
            }
            if c < pos {
                if limit > best_len && data[c + best_len] == data[pos + best_len] {
                    let mut len: usize = 0;
                    while len < limit && data[c + len] == data[pos + len]
                        invariant
                            n == data@.len(),
                            c < pos,
                            pos + limit <= n,
                            len <= limit,
                            same_run(data@, c as int, pos as int, len as int),
                        decreases limit - len,
                    {
                        len += 1;
                    }
                    proof {
                        lemma_common_prefix_is(
                            data@,
                            c as int,
                            pos as int,
                            limit as int,
                            len as int,
                        );
                    }
                    if len > best_len {
                        best_len = len;
                        best_off = pos - c;
                        proof {
                            lemma_same_run_repeats(data@, pos as int, c as int, len as int);
                        }
                        if best_len >= max_len {
                            done = true;
                        }
                    }
                } else {
                    proof {
                        if run > best_len {
                            assert(data@[c + best_len] == data@[c + best_len - c + pos]);
                        }
                    }
                }
            }
            if !done {
                let s: usize = self.slot(c);
                cp = self.prev[s];
                steps += 1;
                proof {
                    if exact {
                        lemma_prev_occurrence_bounds(data@, h, cand);
                        assert(self.prev@[(c & self.mask) as int] == encode(
                            prev_occurrence(data@, hash4(data@, c as int), c as int),
                        ));
                        cand = prev_occurrence(data@, h, cand);
                    }
                }
            }
        }
        if best_len >= MIN_MATCH && best_off > 0 {
            Some((best_off, best_len))
        } else {
            None
        }
    }

    /// Enter every hashable position of `start..end`.
    pub(crate) fn insert_range(&mut self, data: &[u8], start: usize, end: usize)
        requires
            old(self).wf(),
        ensures
            final(self).wf(),
            final(self).window() == old(self).window(),
            start <= end && old(self).tracks(data@, start as int) ==> final(self).tracks(
                data@,
                end as int,
            ),
    {
        let n: usize = data.len();
        let cap: usize = if n >= 3 {
            n - 3
        } else {
            0
        };
        let limit: usize = if end <= cap {
            end
        } else {
            cap
        };
        let mut p: usize = start;
        while p < limit
            invariant
                self.wf(),
                self.window() == old(self).window(),
                start <= p,
                p <= limit || p == start,
                old(self).tracks(data@, start as int) ==> self.tracks(data@, p as int),
            decreases limit - p,
        {
            self.insert(data, p);
            p += 1;
        }
        proof {
            if start <= end && old(self).tracks(data@, start as int) {
                lemma_tracks_tail(*self, data@, p as int, end as int);
            }
        }
    }
}

/// Positions that cannot be hashed change nothing in what was last seen.
proof fn lemma_prev_occurrence_skip(data: Seq<u8>, h: usize, a: int, b: int)
    requires
        a <= b,
        forall|p: int| a <= p < b ==> !hashable(data, p),
    ensures
        prev_occurrence(data, h, b) == prev_occurrence(data, h, a),
    decreases b - a,
{
    if a < b {
        lemma_prev_occurrence_skip(data, h, a, b - 1);
    }
}

/// A table that holds the positions below `a` holds those below `b`, where
/// none of `a..b` can be hashed.
proof fn lemma_tracks_tail(chain: HashChain, data: Seq<u8>, a: int, b: int)
    requires
        chain.tracks(data, a),
        a <= b,
        forall|p: int| a <= p < b ==> !hashable(data, p),
    ensures
        chain.tracks(data, b),
{
    assert forall|h: usize| h < HASH_SIZE implies #[trigger] chain.head@[h as int] == encode(
        prev_occurrence(data, h, b),
    ) by {
        lemma_prev_occurrence_skip(data, h, a, b);
    }
}

} // verus!
