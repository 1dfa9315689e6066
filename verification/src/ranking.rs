//! Ordering of indices by integer keys, largest key first.

use vstd::prelude::*;

verus! {

/// Index `i` ranks before index `j`: the larger primary key comes first, then
/// the larger secondary key, then the smaller index.
pub open spec fn ranks_before(primary: Seq<u64>, secondary: Seq<u64>, i: int, j: int) -> bool {
    ||| primary[i] > primary[j]
    ||| primary[i] == primary[j] && secondary[i] > secondary[j]
    ||| primary[i] == primary[j] && secondary[i] == secondary[j] && i < j
}

/// Every item ranks before each item that follows it.
pub open spec fn ranked(primary: Seq<u64>, secondary: Seq<u64>, items: Seq<usize>) -> bool {
    forall|a: int, b: int|
        0 <= a < b < items.len() ==> ranks_before(
            primary,
            secondary,
            #[trigger] items[a] as int,
            #[trigger] items[b] as int,
        )
}

/// Every item is an index below `n`.
pub open spec fn in_range(items: Seq<usize>, n: int) -> bool {
    forall|k: int| 0 <= k < items.len() ==> #[trigger] items[k] < n
}

/// The two sequences hold the same items.
pub open spec fn same_items(s: Seq<usize>, t: Seq<usize>) -> bool {
    forall|x: usize| s.contains(x) <==> t.contains(x)
}

/// Whether index `i` ranks before index `j`.
fn precedes(primary: &[u64], secondary: &[u64], i: usize, j: usize) -> (b: bool)
    requires
        primary@.len() == secondary@.len(),
        i < primary@.len(),
        j < primary@.len(),
    ensures
        b == ranks_before(primary@, secondary@, i as int, j as int),
{
    let pi: u64 = primary[i];
    let pj: u64 = primary[j];
    if pi != pj {
        pi > pj
    } else {
        let si: u64 = secondary[i];
        let sj: u64 = secondary[j];
        if si != sj {
            si > sj
        } else {
            i < j
        }
    }
}

/// Merge two ranked lists without common items into one.
fn merge(a: &Vec<usize>, b: &Vec<usize>, primary: &[u64], secondary: &[u64]) -> (out: Vec<usize>)
    requires
        primary@.len() == secondary@.len(),
        in_range(a@, primary@.len() as int),
        in_range(b@, primary@.len() as int),
        ranked(primary@, secondary@, a@),
        ranked(primary@, secondary@, b@),
        forall|i: int, j: int| 0 <= i < a@.len() && 0 <= j < b@.len() ==> a@[i] != b@[j],
    ensures
        out@.len() == a@.len() + b@.len(),
        forall|x: usize| out@.contains(x) <==> a@.contains(x) || b@.contains(x),
        ranked(primary@, secondary@, out@),
        in_range(out@, primary@.len() as int),
{
    let mut out: Vec<usize> = Vec::new();
    let mut i: usize = 0;
    let mut j: usize = 0;
    while i < a.len() || j < b.len()
        invariant
            primary@.len() == secondary@.len(),
            in_range(a@, primary@.len() as int),
            in_range(b@, primary@.len() as int),
            ranked(primary@, secondary@, a@),
            ranked(primary@, secondary@, b@),
            forall|i: int, j: int| 0 <= i < a@.len() && 0 <= j < b@.len() ==> a@[i] != b@[j],
            i <= a@.len(),
            j <= b@.len(),
            out@.len() == i + j,
            in_range(out@, primary@.len() as int),
            ranked(primary@, secondary@, out@),
            forall|k: int| 0 <= k < i ==> out@.contains(#[trigger] a@[k]),
            forall|k: int| 0 <= k < j ==> out@.contains(#[trigger] b@[k]),
            forall|k: int|
                0 <= k < out@.len() ==> a@.contains(#[trigger] out@[k]) || b@.contains(out@[k]),
            forall|k: int, m: int|
                0 <= k < out@.len() && i <= m < a@.len() ==> ranks_before(
                    primary@,
                    secondary@,
                    #[trigger] out@[k] as int,
                    #[trigger] a@[m] as int,
                ),
            forall|k: int, m: int|
                0 <= k < out@.len() && j <= m < b@.len() ==> ranks_before(
                    primary@,
                    secondary@,
                    #[trigger] out@[k] as int,
                    #[trigger] b@[m] as int,
                ),
        decreases (a@.len() - i) + (b@.len() - j),
    {
        let take_a: bool = if i < a.len() {
            if j < b.len() {
                precedes(primary, secondary, a[i], b[j])
            } else {
                true
            }
        } else {
            false
        };
        let ghost before = out@;
        let v: usize = if take_a {
            a[i]
        } else {
            b[j]
        };
        out.push(v);
        proof {
            assert(out@[before.len() as int] == v);
            assert forall|k: int| 0 <= k < before.len() implies out@.contains(
                #[trigger] before[k],
            ) by {
                assert(out@[k] == before[k]);
            }
            assert(out@.contains(v));
            assert forall|k: int| 0 <= k < i implies out@.contains(#[trigger] a@[k]) by {
                let w = choose|w: int| 0 <= w < before.len() && before[w] == a@[k];
                assert(out@[w] == a@[k]);
            }
            assert forall|k: int| 0 <= k < j implies out@.contains(#[trigger] b@[k]) by {
                let w = choose|w: int| 0 <= w < before.len() && before[w] == b@[k];
                assert(out@[w] == b@[k]);
            }
            if !take_a && i < a@.len() {
                assert(a@[i as int] != b@[j as int]);
                assert(ranks_before(primary@, secondary@, b@[j as int] as int, a@[i as int] as int));
            }
        }
        if take_a {
            i += 1;
        } else {
            j += 1;
        }
    }
    proof {
        assert forall|x: usize| out@.contains(x) implies a@.contains(x) || b@.contains(x) by {
            let w = choose|w: int| 0 <= w < out@.len() && out@[w] == x;
            assert(a@.contains(out@[w]) || b@.contains(out@[w]));
        }
        assert forall|x: usize| a@.contains(x) || b@.contains(x) implies out@.contains(x) by {
            if a@.contains(x) {
                let w = choose|w: int| 0 <= w < a@.len() && a@[w] == x;
                assert(out@.contains(a@[w]));
            } else {
                let w = choose|w: int| 0 <= w < b@.len() && b@[w] == x;
                assert(out@.contains(b@[w]));
            }
        }
    }
    out
}

/// The items `lo..hi` in rank order.
fn sort_range(items: &Vec<usize>, lo: usize, hi: usize, primary: &[u64], secondary: &[u64]) -> (out:
    Vec<usize>)
    requires
        primary@.len() == secondary@.len(),
        in_range(items@, primary@.len() as int),
        items@.no_duplicates(),
        lo <= hi <= items@.len(),
    ensures
        out@.len() == hi - lo,
        forall|x: usize| out@.contains(x) <==> items@.subrange(lo as int, hi as int).contains(x),
        ranked(primary@, secondary@, out@),
        in_range(out@, primary@.len() as int),
    decreases hi - lo,
{
    let ghost part = items@.subrange(lo as int, hi as int);
    if hi - lo <= 1 {
        let mut out: Vec<usize> = Vec::new();
        if hi > lo {
            out.push(items[lo]);
            proof {
                assert(out@ =~= part);
            }
        } else {
            proof {
                assert(out@ =~= part);
            }
        }
        out
    } else {
        let mid: usize = lo + (hi - lo) / 2;
        let a = sort_range(items, lo, mid, primary, secondary);
        let b = sort_range(items, mid, hi, primary, secondary);
        let ghost left = items@.subrange(lo as int, mid as int);
        let ghost right = items@.subrange(mid as int, hi as int);
        proof {
            assert forall|i: int, j: int| 0 <= i < a@.len() && 0 <= j < b@.len() implies a@[i]
                != b@[j] by {
                assert(a@.contains(a@[i]));
                assert(b@.contains(b@[j]));
                let u = choose|u: int| 0 <= u < left.len() && left[u] == a@[i];
                let w = choose|w: int| 0 <= w < right.len() && right[w] == b@[j];
                assert(items@[lo + u] == a@[i]);
                assert(items@[mid + w] == b@[j]);
            }
        }
        let out = merge(&a, &b, primary, secondary);
        proof {
            assert forall|x: usize| out@.contains(x) <==> part.contains(x) by {
                if left.contains(x) {
                    let u = choose|u: int| 0 <= u < left.len() && left[u] == x;
                    assert(part[u] == x);
                }
                if right.contains(x) {
                    let w = choose|w: int| 0 <= w < right.len() && right[w] == x;
                    assert(part[mid - lo + w] == x);
                }
                if part.contains(x) {
                    let u = choose|u: int| 0 <= u < part.len() && part[u] == x;
                    if u < mid - lo {
                        assert(left[u] == x);
                    } else {
                        assert(right[u - (mid - lo)] == x);
                    }
                }
            }
        }
        out
    }
}

/// Order distinct indices by rank: each item of the result ranks before all
/// that follow it.
pub fn sort_by_rank(items: &Vec<usize>, primary: &[u64], secondary: &[u64]) -> (out: Vec<usize>)
    requires
        primary@.len() == secondary@.len(),
        in_range(items@, primary@.len() as int),
        items@.no_duplicates(),
    ensures
        out@.len() == items@.len(),
        same_items(out@, items@),
        ranked(primary@, secondary@, out@),
        in_range(out@, primary@.len() as int),
{
    let out = sort_range(items, 0, items.len(), primary, secondary);
    proof {
        assert(items@.subrange(0, items@.len() as int) =~= items@);
    }
    out
}

/// The indices `0..n` in increasing order.
pub fn identity_order(n: usize) -> (out: Vec<usize>)
    ensures
        out@.len() == n,
        forall|k: int| 0 <= k < n ==> #[trigger] out@[k] == k,
{
    let mut out: Vec<usize> = Vec::new();
    let mut k: usize = 0;
    while k < n
        invariant
            k <= n,
            out@.len() == k,
            forall|m: int| 0 <= m < k ==> #[trigger] out@[m] == m,
        decreases n - k,
    {
        out.push(k);
        k += 1;
    }
    out
}

/// Strictly ranked sequences never repeat an item.
pub proof fn lemma_ranked_distinct(primary: Seq<u64>, secondary: Seq<u64>, items: Seq<usize>)
    requires
        ranked(primary, secondary, items),
    ensures
        items.no_duplicates(),
{
    assert forall|a: int, b: int| 0 <= a < items.len() && 0 <= b < items.len() && a != b implies items[a]
        != items[b] by {
        if a < b {
            assert(ranks_before(primary, secondary, items[a] as int, items[b] as int));
        } else {
            assert(ranks_before(primary, secondary, items[b] as int, items[a] as int));
        }
    }
}

/// Ranking is determined by its items: two ranked sequences that hold the
/// same items are the same sequence.
pub proof fn lemma_ranked_unique(
    primary: Seq<u64>,
    secondary: Seq<u64>,
    s: Seq<usize>,
    t: Seq<usize>,
)
    requires
        ranked(primary, secondary, s),
        ranked(primary, secondary, t),
        same_items(s, t),
    ensures
        s == t,
    decreases s.len(),
{
    if s.len() == 0 {
        if t.len() > 0 {
            assert(t.contains(t[0]));
            assert(s.contains(t[0]));
        }
        assert(s =~= t);
    } else {
        assert(s.contains(s[0]));
        assert(t.contains(s[0]));
        let u = choose|u: int| 0 <= u < t.len() && t[u] == s[0];
        assert(t.contains(t[0]));
        assert(s.contains(t[0]));
        let w = choose|w: int| 0 <= w < s.len() && s[w] == t[0];
        if u > 0 {
            assert(ranks_before(primary, secondary, t[0] as int, t[u] as int));
            if w > 0 {
                assert(ranks_before(primary, secondary, s[0] as int, s[w] as int));
            }
            assert(false);
        }
        assert(s[0] == t[0]);
        let s1 = s.subrange(1, s.len() as int);
        let t1 = t.subrange(1, t.len() as int);
        lemma_ranked_distinct(primary, secondary, s);
        lemma_ranked_distinct(primary, secondary, t);
        assert forall|a: int, b: int| 0 <= a < b < s1.len() implies ranks_before(
            primary,
            secondary,
            #[trigger] s1[a] as int,
            #[trigger] s1[b] as int,
        ) by {
            assert(s1[a] == s[a + 1] && s1[b] == s[b + 1]);
        }
        assert forall|a: int, b: int| 0 <= a < b < t1.len() implies ranks_before(
            primary,
            secondary,
            #[trigger] t1[a] as int,
            #[trigger] t1[b] as int,
        ) by {
            assert(t1[a] == t[a + 1] && t1[b] == t[b + 1]);
        }
        assert forall|x: usize| s1.contains(x) <==> t1.contains(x) by {
            if s1.contains(x) {
                let k = choose|k: int| 0 <= k < s1.len() && s1[k] == x;
                assert(s[k + 1] == x);
                assert(s.contains(x));
                let m = choose|m: int| 0 <= m < t.len() && t[m] == x;
                assert(m != 0);
                assert(t1[m - 1] == x);
            }
            if t1.contains(x) {
                let k = choose|k: int| 0 <= k < t1.len() && t1[k] == x;
                assert(t[k + 1] == x);
                assert(t.contains(x));
                let m = choose|m: int| 0 <= m < s.len() && s[m] == x;
                assert(m != 0);
                assert(s1[m - 1] == x);
            }
        }
        lemma_ranked_unique(primary, secondary, s1, t1);
        assert(s =~= seq![s[0]] + s1);
        assert(t =~= seq![t[0]] + t1);
    }
}

/// Strictly increasing.
pub open spec fn ascending(s: Seq<usize>) -> bool {
    forall|a: int, b: int| 0 <= a < b < s.len() ==> s[a] < s[b]
}

/// The distinct values of a list, in increasing order.
pub fn sorted_unique(values: &Vec<usize>) -> (out: Vec<usize>)
    ensures
        ascending(out@),
        same_items(out@, values@),
{
    let m: usize = values.len();
    let mut keys: Vec<u64> = Vec::new();
    let mut k: usize = 0;
    while k < m
        invariant
            m == values@.len(),
            k <= m,
            keys@.len() == k,
            forall|t: int| 0 <= t < k ==> #[trigger] keys@[t] == values@[t],
        decreases m - k,
    {
        keys.push(values[k] as u64);
        k += 1;
    }
    let idx = identity_order(m);
    let order = sort_by_rank(&idx, keys.as_slice(), keys.as_slice());
    let mut out: Vec<usize> = Vec::new();
    let mut k: usize = m;
    while k > 0
        invariant
            m == values@.len(),
            k <= m,
            keys@.len() == m,
            forall|t: int| 0 <= t < m ==> #[trigger] keys@[t] == values@[t],
            order@.len() == m,
            in_range(order@, m as int),
            ranked(keys@, keys@, order@),
            ascending(out@),
            forall|t: int| k <= t < m ==> out@.contains(values@[#[trigger] order@[t] as int]),
            forall|e: int| 0 <= e < out@.len() ==> values@.contains(#[trigger] out@[e]),
            out@.len() > 0 ==> k < m && out@.last() == values@[order@[k as int] as int],
        decreases k,
    {
        k -= 1;
        let v: usize = values[order[k]];
        let ghost before = out@;
        proof {
            if k + 1 < m {
                assert(ranks_before(
                    keys@,
                    keys@,
                    order@[k as int] as int,
                    order@[k + 1] as int,
                ));
            }
        }
        if out.len() == 0 || out[out.len() - 1] != v {
            out.push(v);
            proof {
                assert(out@[before.len() as int] == v);
                assert(values@.contains(v));
            }
        }
        proof {
            assert forall|t: int| k <= t < m implies out@.contains(
                values@[#[trigger] order@[t] as int],
            ) by {
                if t == k {
                    assert(out@[out@.len() - 1] == v);
                } else {
                    let w = choose|w: int|
                        0 <= w < before.len() && before[w] == values@[order@[t] as int];
                    assert(out@[w] == before[w]);
                }
            }
        }
    }
    proof {
        assert forall|x: usize| values@.contains(x) implies out@.contains(x) by {
            let i = choose|i: int| 0 <= i < values@.len() && values@[i] == x;
            assert(idx@[i] == i);
            assert(idx@.contains(i as usize));
            assert(order@.contains(i as usize));
            let t = choose|t: int| 0 <= t < order@.len() && order@[t] == i as usize;
            assert(out@.contains(values@[order@[t] as int]));
        }
        assert forall|x: usize| out@.contains(x) implies values@.contains(x) by {
            let e = choose|e: int| 0 <= e < out@.len() && out@[e] == x;
            assert(values@.contains(out@[e]));
        }
    }
    out
}

/// An increasing sequence is determined by its items: two increasing
/// sequences that hold the same items are the same sequence.
pub proof fn lemma_ascending_unique(s: Seq<usize>, t: Seq<usize>)
    requires
        ascending(s),
        ascending(t),
        same_items(s, t),
    ensures
        s == t,
    decreases s.len(),
{
    if s.len() == 0 {
        if t.len() > 0 {
            assert(t.contains(t[0]));
            assert(s.contains(t[0]));
        }
        assert(s =~= t);
    } else {
        assert(s.contains(s[0]));
        assert(t.contains(s[0]));
        let u = choose|u: int| 0 <= u < t.len() && t[u] == s[0];
        assert(t.contains(t[0]));
        assert(s.contains(t[0]));
        let w = choose|w: int| 0 <= w < s.len() && s[w] == t[0];
        assert(s[0] == t[0]);
        let s1 = s.subrange(1, s.len() as int);
        let t1 = t.subrange(1, t.len() as int);
        assert forall|x: usize| s1.contains(x) <==> t1.contains(x) by {
            if s1.contains(x) {
                let k = choose|k: int| 0 <= k < s1.len() && s1[k] == x;
                assert(s[k + 1] == x);
                assert(s.contains(x));
                let m = choose|m: int| 0 <= m < t.len() && t[m] == x;
                assert(m != 0);
                assert(t1[m - 1] == x);
            }
            if t1.contains(x) {
                let k = choose|k: int| 0 <= k < t1.len() && t1[k] == x;
                assert(t[k + 1] == x);
                assert(t.contains(x));
                let m = choose|m: int| 0 <= m < s.len() && s[m] == x;
                assert(m != 0);
                assert(s1[m - 1] == x);
            }
        }
        lemma_ascending_unique(s1, t1);
        assert(s =~= seq![s[0]] + s1);
        assert(t =~= seq![t[0]] + t1);
    }
}

} // verus!
