//! Detects a fixed record or row length by autocorrelation: the distance at
//! which a byte is most often the same.

use crate::cm::transform::least;
use vstd::prelude::*;
use vstd::relations::{sorted_by, total_ordering};
use vstd::seq_lib::lemma_sorted_unique;

verus! {

pub const MAX_STRIDE: usize = 4096;

/// Of the first `n` samples, which lie 37 bytes apart, how many have the same
/// byte at distance `s`.
pub open spec fn same_count(data: Seq<u8>, s: int, n: int) -> int
    decreases n,
{
    if n <= 0 {
        0
    } else {
        let i = 4096 + 37 * (n - 1);
        same_count(data, s, n - 1) + if data[i] == data[i - s] {
            1int
        } else {
            0
        }
    }
}

/// The number of samples: those in the first two mebibytes.
pub open spec fn samples(len: int) -> int {
    (least(len, 0x20_0000) - 4096 + 36) / 37
}

pub open spec fn count_of(data: Seq<u8>, s: int) -> int {
    same_count(data, s, samples(data.len() as int))
}

/// The distance up to `s` with the highest count; the last one of equals.
pub open spec fn best_upto(data: Seq<u8>, s: int) -> int
    decreases s,
{
    if s <= 2 {
        2
    } else {
        let b = best_upto(data, s - 1);
        if count_of(data, s) >= count_of(data, b) {
            s
        } else {
            b
        }
    }
}

/// The counts of all distances, from 2 on.
pub open spec fn all_counts(data: Seq<u8>) -> Seq<u32> {
    Seq::new(4095, |k: int| count_of(data, k + 2) as u32)
}

pub open spec fn leq() -> spec_fn(u32, u32) -> bool {
    |a: u32, b: u32| a <= b
}

/// The middle of the counts in ascending order, and at least one.
pub open spec fn median_count(data: Seq<u8>) -> int {
    let m = all_counts(data).sort_by(leq())[2047];
    if m < 1 {
        1
    } else {
        m as int
    }
}

/// The record length, or 0 where none stands out: it takes the same byte in 18
/// samples of a hundred, and one and a half times the median.
pub open spec fn stride_of(data: Seq<u8>) -> int {
    let total = samples(data.len() as int);
    let s = best_upto(data, 4096);
    let c = count_of(data, s);
    if data.len() < 16384 || total < 1000 {
        0
    } else if c * 100 / total >= 18 && c >= median_count(data) * 3 / 2 {
        s
    } else {
        0
    }
}

proof fn lemma_count_range(data: Seq<u8>, s: int, n: int)
    requires
        0 <= n,
    ensures
        0 <= same_count(data, s, n) <= n,
    decreases n,
{
    if n > 0 {
        lemma_count_range(data, s, n - 1);
    }
}

/// A stride that is detected is no longer than the longest that is looked for.
pub proof fn lemma_stride_range(data: Seq<u8>)
    ensures
        0 <= stride_of(data) <= 4096,
{
    lemma_best_range(data, 4096);
}

proof fn lemma_best_range(data: Seq<u8>, s: int)
    requires
        2 <= s,
    ensures
        2 <= best_upto(data, s) <= s,
    decreases s,
{
    if s > 2 {
        lemma_best_range(data, s - 1);
    }
}

/// The numbers in ascending order.
fn ascending(v: &Vec<u32>) -> (out: Vec<u32>)
    ensures
        out@ == v@.sort_by(leq()),
        out@.len() == v@.len(),
{
    let mut out: Vec<u32> = Vec::new();
    let mut i: usize = 0;
    proof {
        v@.take(0).to_multiset_ensures();
        assert(v@.take(0) =~= Seq::<u32>::empty());
        assert(out@ =~= Seq::<u32>::empty());
    }
    while i < v.len()
        invariant
            i <= v@.len(),
            out@.len() == i,
            sorted_by(out@, leq()),
            out@.to_multiset() == v@.take(i as int).to_multiset(),
        decreases v.len() - i,
    {
        let x: u32 = v[i];
        let mut j: usize = out.len();
        while j > 0 && out[j - 1] > x
            invariant
                j <= out@.len(),
                forall|k: int| j <= k < out@.len() ==> #[trigger] out@[k] > x,
            decreases j,
        {
            j -= 1;
        }
        let ghost before = out@;
        out.insert(j, x);
        proof {
            broadcast use vstd::seq_lib::group_to_multiset_ensures;

            assert(v@.take(i + 1) =~= v@.take(i as int).push(x));
            assert(out@ == before.insert(j as int, x));
            assert(out@.to_multiset() == before.to_multiset().insert(x));
            assert forall|a: int, b: int| 0 <= a < b < out@.len() implies (leq())(
                #[trigger] out@[a],
                #[trigger] out@[b],
            ) by {
                let a0 = if a < j {
                    a
                } else {
                    a - 1
                };
                let b0 = if b < j {
                    b
                } else {
                    b - 1
                };
                if a != j && b != j {
                    assert((leq())(before[a0], before[b0]));
                } else if b == j && a < j - 1 {
                    assert((leq())(before[a], before[j - 1]));
                }
            }
        }
        i += 1;
    }
    proof {
        assert(v@.take(v@.len() as int) =~= v@);
        assert(total_ordering(leq()));
        v@.lemma_sort_by_ensures(leq());
        lemma_sorted_unique(out@, v@.sort_by(leq()), leq());
    }
    out
}

fn add_sample(data: &[u8], i: usize, counts: &mut Vec<u32>, Ghost(k): Ghost<int>)
    requires
        0 <= k < 60000,
        i == 4096 + 37 * k,
        i < data@.len(),
        old(counts)@.len() == 4097,
        forall|s: int| 2 <= s <= 4096 ==> #[trigger] old(counts)@[s] == same_count(data@, s, k),
    ensures
        final(counts)@.len() == 4097,
        forall|s: int|
            2 <= s <= 4096 ==> #[trigger] final(counts)@[s] == same_count(data@, s, k + 1),
{
    let b: u8 = data[i];
    let mut s: usize = 2;
    while s <= 4096
        invariant
            2 <= s <= 4097,
            0 <= k < 60000,
            i == 4096 + 37 * k,
            i < data@.len(),
            b == data@[i as int],
            counts@.len() == 4097,
            forall|q: int| 2 <= q < s ==> #[trigger] counts@[q] == same_count(data@, q, k + 1),
            forall|q: int| s <= q <= 4096 ==> #[trigger] counts@[q] == same_count(data@, q, k),
        decreases 4097 - s,
    {
        proof {
            lemma_count_range(data@, s as int, k);
            assert(counts@[s as int] == same_count(data@, s as int, k));
        }
        if data[i - s] == b {
            let c: u32 = counts[s] + 1;
            counts[s] = c;
        }
        s += 1;
    }
}

/// The counts of all distances, at their own index.
fn count_all(data: &[u8], total: usize) -> (counts: Vec<u32>)
    requires
        16384 <= data@.len(),
        total == samples(data@.len() as int),
    ensures
        counts@.len() == 4097,
        forall|s: int| 2 <= s <= 4096 ==> #[trigger] counts@[s] == count_of(data@, s),
{
    let mut counts: Vec<u32> = vec![0u32; 4097];
    let mut k: usize = 0;
    while k < total
        invariant
            16384 <= data@.len(),
            total == samples(data@.len() as int),
            k <= total,
            counts@.len() == 4097,
            forall|s: int| 2 <= s <= 4096 ==> #[trigger] counts@[s] == same_count(data@, s, k as int),
        decreases total - k,
    {
        add_sample(data, 4096 + 37 * k, &mut counts, Ghost(k as int));
        k += 1;
    }
    counts
}

pub fn detect_stride(data: &[u8]) -> (r: u32)
    ensures
        r == stride_of(data@),
        r <= 4096,
{
    if data.len() < 16384 {
        return 0;
    }
    let window: usize = if data.len() < 0x20_0000 {
        data.len()
    } else {
        0x20_0000
    };
    let total: usize = (window - 4096 + 36) / 37;
    if total < 1000 {
        return 0;
    }
    let counts: Vec<u32> = count_all(data, total);
    let mut best: usize = 2;
    let mut rest: Vec<u32> = Vec::new();
    let mut s: usize = 2;
    while s <= 4096
        invariant
            2 <= s <= 4097,
            s == 2 ==> best == 2,
            s > 2 ==> best == best_upto(data@, s - 1),
            2 <= best <= 4096,
            best < s || s == 2,
            counts@.len() == 4097,
            forall|q: int| 2 <= q <= 4096 ==> #[trigger] counts@[q] == count_of(data@, q),
            rest@.len() == s - 2,
            forall|q: int| 0 <= q < s - 2 ==> #[trigger] rest@[q] == count_of(data@, q + 2),
        decreases 4097 - s,
    {
        if counts[s] >= counts[best] {
            best = s;
        }
        rest.push(counts[s]);
        s += 1;
    }
    proof {
        assert(rest@ =~= all_counts(data@));
        lemma_count_range(data@, best as int, total as int);
    }
    let order: Vec<u32> = ascending(&rest);
    let mid: u32 = order[2047];
    let median: u64 = if mid < 1 {
        1
    } else {
        mid as u64
    };
    let c: u64 = counts[best] as u64;
    assert(counts@[best as int] == count_of(data@, best as int));
    if c * 100 / (total as u64) >= 18 && c >= median * 3 / 2 {
        best as u32
    } else {
        0
    }
}

} // verus!
