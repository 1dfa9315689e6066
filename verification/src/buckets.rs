//! Chained buckets for finding byte patterns again.
//!
//! Items are numbered 0, 1, 2, ... as they are filed, each under the bucket
//! of its pattern's hash. The items of one bucket are chained from the
//! latest back to the first, so a search for a pattern looks only at the
//! items that share its bucket.

use vstd::prelude::*;

verus! {

/// The link that marks the end of a chain.
pub const NO_ITEM: usize = usize::MAX;

/// The hash of the empty pattern.
pub const HASH_START: u64 = 0xcbf2_9ce4_8422_2325;

/// The factor by which the hash is multiplied after each byte.
pub const HASH_FACTOR: u64 = 0x0000_0100_0000_01b3;

/// The hash of a byte pattern: each byte in turn is folded in and the
/// result multiplied, in 64 bits.
pub open spec fn content_hash(s: Seq<u8>) -> u64
    decreases s.len(),
{
    if s.len() == 0 {
        HASH_START
    } else {
        (content_hash(s.drop_last()) ^ (s.last() as u64)).wrapping_mul(HASH_FACTOR)
    }
}

/// The bucket of a pattern among `size` buckets.
pub open spec fn bucket_of(s: Seq<u8>, size: nat) -> usize {
    (content_hash(s) as nat % size) as usize
}

/// The latest item before `before` that is filed under bucket `b`, or -1.
pub open spec fn prev_filed(homes: Seq<usize>, b: usize, before: int) -> int
    decreases before,
{
    if before <= 0 {
        -1
    } else if before - 1 < homes.len() && homes[before - 1] == b {
        before - 1
    } else {
        prev_filed(homes, b, before - 1)
    }
}

/// How a link stores an item: the end mark stands for "none".
pub open spec fn mark(i: int) -> usize {
    if i < 0 {
        NO_ITEM
    } else {
        i as usize
    }
}

/// What `prev_filed` finds lies below `before` and in bucket `b`, and no
/// item between it and `before` is in that bucket.
pub proof fn lemma_prev_filed(homes: Seq<usize>, b: usize, before: int)
    requires
        before <= homes.len(),
    ensures
        -1 <= prev_filed(homes, b, before),
        prev_filed(homes, b, before) < before || before <= 0,
        prev_filed(homes, b, before) >= 0 ==> homes[prev_filed(homes, b, before)] == b,
        forall|x: int| prev_filed(homes, b, before) < x < before ==> #[trigger] homes[x] != b,
    decreases before,
{
    if before > 0 && homes[before - 1] != b {
        lemma_prev_filed(homes, b, before - 1);
    }
}

/// Filing one more item changes nothing below it.
proof fn lemma_prev_filed_push(homes: Seq<usize>, b: usize, c: usize, before: int)
    requires
        before <= homes.len(),
    ensures
        prev_filed(homes.push(c), b, before) == prev_filed(homes, b, before),
    decreases before,
{
    if before > 0 {
        assert(homes.push(c)[before - 1] == homes[before - 1]);
        lemma_prev_filed_push(homes, b, c, before - 1);
    }
}

/// The hash of the bytes `pos..pos + len` of `data`.
pub fn hash_span(data: &[u8], pos: usize, len: usize) -> (h: u64)
    requires
        pos + len <= data@.len(),
    ensures
        h == content_hash(data@.subrange(pos as int, pos + len)),
{
    let n: usize = data.len();
    let mut h: u64 = HASH_START;
    let mut i: usize = 0;
    proof {
        assert(data@.subrange(pos as int, pos as int).len() == 0);
    }
    while i < len
        invariant
            n == data@.len(),
            pos + len <= n,
            i <= len,
            h == content_hash(data@.subrange(pos as int, pos + i)),
        decreases len - i,
    {
        proof {
            let next = data@.subrange(pos as int, pos + i + 1);
            assert(next.drop_last() =~= data@.subrange(pos as int, pos + i));
            assert(next.last() == data@[pos + i]);
        }
        h = (h ^ (data[pos + i] as u64)).wrapping_mul(HASH_FACTOR);
        i += 1;
    }
    h
}

/// The bucket of the bytes `pos..pos + len` of `data` among `size` buckets.
pub fn bucket_at(data: &[u8], pos: usize, len: usize, size: usize) -> (b: usize)
    requires
        pos + len <= data@.len(),
        size > 0,
    ensures
        b == bucket_of(data@.subrange(pos as int, pos + len), size as nat),
        b < size,
{
    let h: u64 = hash_span(data, pos, len);
    let b: u64 = h % (size as u64);
    b as usize
}

/// The number of buckets to take for `n` items: one for each, but no fewer
/// than `MIN_BUCKETS` and no more than `MAX_BUCKETS`.
pub fn bucket_count(n: usize) -> (size: usize)
    ensures
        size == buckets_for(n),
        size > 0,
{
    if n < MIN_BUCKETS {
        MIN_BUCKETS
    } else if n > MAX_BUCKETS {
        MAX_BUCKETS
    } else {
        n
    }
}

/// The fewest buckets that a table gets.
pub const MIN_BUCKETS: usize = 16;

/// The most buckets that a table gets.
pub const MAX_BUCKETS: usize = 1048576;

/// The number of buckets for `n` items: `n`, held between `MIN_BUCKETS` and
/// `MAX_BUCKETS`.
pub open spec fn buckets_for(n: usize) -> usize {
    if n < MIN_BUCKETS {
        MIN_BUCKETS
    } else if n > MAX_BUCKETS {
        MAX_BUCKETS
    } else {
        n
    }
}

/// The table of chains.
pub struct Buckets {
    table: Vec<usize>,
    link: Vec<usize>,
    homes: Vec<usize>,
}

impl Buckets {
    /// Each bucket leads to its latest item, and each item to the one before
    /// it in its bucket.
    pub closed spec fn wf(&self) -> bool {
        &&& self.table@.len() > 0
        &&& self.link@.len() == self.homes@.len()
        &&& forall|g: int| 0 <= g < self.homes@.len() ==> #[trigger] self.homes@[g] < self.table@.len()
        &&& forall|b: usize|
            b < self.table@.len() ==> #[trigger] self.table@[b as int] == mark(
                prev_filed(self.homes@, b, self.homes@.len() as int),
            )
        &&& forall|g: int|
            0 <= g < self.homes@.len() ==> #[trigger] self.link@[g] == mark(
                prev_filed(self.homes@, self.homes@[g], g),
            )
    }

    /// The bucket of each item filed so far.
    pub closed spec fn homes(&self) -> Seq<usize> {
        self.homes@
    }

    /// The number of buckets.
    pub closed spec fn size(&self) -> nat {
        self.table@.len()
    }

    /// An empty table of `size` buckets.
    pub fn new(size: usize) -> (made: Buckets)
        requires
            size > 0,
        ensures
            made.wf(),
            made.size() == size,
            made.homes() == Seq::<usize>::empty(),
    {
        Buckets { table: vec![NO_ITEM; size], link: Vec::new(), homes: Vec::new() }
    }

    /// File the next item under bucket `b`.
    pub fn file(&mut self, b: usize)
        requires
            old(self).wf(),
            b < old(self).size(),
        ensures
            final(self).wf(),
            final(self).size() == old(self).size(),
            final(self).homes() == old(self).homes().push(b),
    {
        let item: usize = self.homes.len();
        let before: usize = self.table[b];
        self.link.push(before);
        self.homes.push(b);
        let count: usize = self.homes.len();
        self.table.set(b, item);
        proof {
            let was = old(self).homes@;
            let now = self.homes@;
            assert(now == was.push(b));
            assert forall|c: usize| c < self.table@.len() implies #[trigger] self.table@[c as int]
                == mark(prev_filed(now, c, now.len() as int)) by {
                lemma_prev_filed_push(was, c, b, was.len() as int);
                assert(old(self).table@[c as int] == mark(
                    prev_filed(was, c, was.len() as int),
                ));
            }
            assert forall|g: int| 0 <= g < now.len() implies #[trigger] self.link@[g] == mark(
                prev_filed(now, now[g], g),
            ) by {
                lemma_prev_filed_push(was, now[g], b, g);
            }
        }
    }

    /// The latest item filed under bucket `b`, or `NO_ITEM`.
    pub fn latest(&self, b: usize) -> (item: usize)
        requires
            self.wf(),
            b < self.size(),
        ensures
            item == mark(prev_filed(self.homes(), b, self.homes().len() as int)),
    {
        self.table[b]
    }

    /// The latest item before `item` filed under the same bucket, or
    /// `NO_ITEM`.
    pub fn earlier(&self, item: usize) -> (prev: usize)
        requires
            self.wf(),
            item < self.homes().len(),
        ensures
            prev == mark(prev_filed(self.homes(), self.homes()[item as int], item as int)),
    {
        self.link[item]
    }

    /// The number of buckets.
    pub fn buckets(&self) -> (n: usize)
        requires
            self.wf(),
        ensures
            n == self.size(),
            n > 0,
    {
        self.table.len()
    }

    /// The number of items filed.
    pub fn count(&self) -> (n: usize)
        requires
            self.wf(),
        ensures
            n == self.homes().len(),
    {
        self.homes.len()
    }
}

} // verus!
