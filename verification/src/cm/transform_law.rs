//! What the x86 transform does, and what record lengths are found.

use crate::cm::stride::{
    best_upto, count_of, median_count, same_count, samples, stride_of,
};
use crate::cm::transform::{
    be_at, e8e9, e8e9_from, is_branch, is_x86, le_at, lemma_e8e9_prefix, retargeted, sites,
};
use vstd::prelude::*;

verus! {

/// How far it is to `i`.
pub open spec fn left_to(from: int, i: int) -> int {
    if from < i {
        i - from
    } else {
        0
    }
}

/// Whether a walk over the bytes from `from` on, which passes five bytes at each
/// call or jump and one at all else, comes to `i`.
pub open spec fn meets(s: Seq<u8>, from: int, i: int) -> bool
    decreases left_to(from, i),
{
    if from >= i {
        from == i
    } else {
        meets(
            s,
            from + if s[from] == 0xe8 || s[from] == 0xe9 {
                5int
            } else {
                1
            },
            i,
        )
    }
}

proof fn lemma_same_walk(s: Seq<u8>, t: Seq<u8>, from: int, i: int)
    requires
        s.len() == t.len(),
        forall|k: int| from <= k < s.len() ==> s[k] == t[k],
        0 <= from,
        i < s.len(),
    ensures
        meets(s, from, i) == meets(t, from, i),
    decreases left_to(from, i),
{
    if from < i {
        let step = if s[from] == 0xe8 || s[from] == 0xe9 {
            5int
        } else {
            1
        };
        lemma_same_walk(s, t, from + step, i);
    }
}

proof fn lemma_retargeted(s: Seq<u8>, i: int)
    requires
        0 <= i,
        i + 5 <= s.len(),
    ensures
        ({
            let t = retargeted(s, i, true);
            &&& t.len() == s.len()
            &&& t[i] == s[i]
            &&& be_at(t, i + 1) == (le_at(s, i + 1) + i + 5) % 0x1_0000_0000
            &&& forall|k: int| i + 5 <= k < s.len() ==> t[k] == s[k]
        }),
{
    let x = (le_at(s, i + 1) + i + 5) % 0x1_0000_0000;
    let t = retargeted(s, i, true);
    assert(t[i + 4] == (x % 256) as u8);
    assert(t[i + 3] == ((x / 256) % 256) as u8);
    assert(t[i + 2] == ((x / 0x1_0000) % 256) as u8);
    assert(t[i + 1] == ((x / 0x100_0000) % 256) as u8);
}

proof fn lemma_branches_from(s: Seq<u8>, from: int, i: int)
    requires
        0 <= from <= i,
        i + 5 <= s.len(),
        meets(s, from, i),
    ensures
        ({
            let out = e8e9_from(s, from, true);
            &&& out.len() == s.len()
            &&& out[i] == s[i]
            &&& is_branch(s[i]) ==> be_at(out, i + 1) == (le_at(s, i + 1) + i + 5) % 0x1_0000_0000
        }),
    decreases i - from,
{
    lemma_e8e9_prefix(s, from, true);
    if from == i {
        if is_branch(s[i]) {
            let t = retargeted(s, i, true);
            lemma_retargeted(s, i);
            lemma_e8e9_prefix(t, i + 5, true);
            let out = e8e9_from(s, i, true);
            assert(out[i + 1] == t[i + 1] && out[i + 2] == t[i + 2] && out[i + 3] == t[i + 3] && out[i
                + 4] == t[i + 4]);
        } else {
            lemma_e8e9_prefix(s, i + 1, true);
        }
    } else if is_branch(s[from]) {
        let t = retargeted(s, from, true);
        lemma_retargeted(s, from);
        lemma_walk_on(s, from + 5, i);
        lemma_same_walk(s, t, from + 5, i);
        lemma_branches_from(t, from + 5, i);
    } else {
        lemma_branches_from(s, from + 1, i);
    }
}

proof fn lemma_walk_on(s: Seq<u8>, from: int, i: int)
    requires
        meets(s, from, i),
    ensures
        from <= i,
{
}

/// Where the walk comes to a call or jump whose four bytes are all there, they
/// become its target, counted from the start and with the highest byte first; all
/// else that the walk comes to stays.
pub proof fn lemma_branches_absolute(s: Seq<u8>, i: int)
    requires
        0 <= i,
        i + 5 <= s.len(),
        meets(s, 0, i),
    ensures
        e8e9(s, true).len() == s.len(),
        e8e9(s, true)[i] == s[i],
        s[i] == 0xe8 || s[i] == 0xe9 ==> be_at(e8e9(s, true), i + 1) == (le_at(s, i + 1) + i + 5)
            % 0x1_0000_0000,
{
    lemma_branches_from(s, 0, i);
}

/// Whether a call or jump with a near target stands at `i`: its highest byte is
/// all zeros or all ones.
pub open spec fn is_near(s: Seq<u8>, i: int) -> bool {
    (s[i] == 0xe8 || s[i] == 0xe9) && (s[i + 4] == 0 || s[i + 4] == 0xff)
}

/// Whether one lies in the `gap` bytes from `i` on.
pub open spec fn has_near(s: Seq<u8>, i: int, gap: int) -> bool {
    exists|k: int| i <= k < i + gap - 4 && #[trigger] is_near(s, k)
}

proof fn lemma_sites_dense(s: Seq<u8>, from: int, window: int, gap: int)
    requires
        0 <= from,
        window <= s.len(),
        gap >= 5,
        forall|i: int| from <= i && i + gap <= window ==> #[trigger] has_near(s, i, gap),
    ensures
        sites(s, from, window) * gap >= window - from - gap + 1,
    decreases window - from,
{
    if from + gap <= window {
        assert(has_near(s, from, gap));
        let k = choose|k: int| from <= k < from + gap - 4 && #[trigger] is_near(s, k);
        lemma_sites_skip(s, from, k, window);
        let j = lemma_first_site(s, from, k, window);
        lemma_sites_dense(s, j + 5, window, gap);
        assert(sites(s, from, window) == 1 + sites(s, j + 5, window));
        assert(sites(s, from, window) * gap == gap + sites(s, j + 5, window) * gap)
            by (nonlinear_arith)
            requires
                sites(s, from, window) == 1 + sites(s, j + 5, window),
        ;
    } else {
        lemma_sites_some(s, from, window);
        assert(sites(s, from, window) * gap >= 0) by (nonlinear_arith)
            requires
                sites(s, from, window) >= 0,
                gap >= 5,
        ;
    }
}

proof fn lemma_sites_some(s: Seq<u8>, from: int, window: int)
    ensures
        sites(s, from, window) >= 0,
    decreases window - from,
{
    if from + 5 <= window {
        lemma_sites_some(s, from + 5, window);
        lemma_sites_some(s, from + 1, window);
    }
}

proof fn lemma_sites_skip(s: Seq<u8>, from: int, k: int, window: int)
    requires
        from <= k,
        k + 5 <= window,
        is_near(s, k),
    ensures
        sites(s, from, window) >= 1,
    decreases k - from,
{
    if crate::cm::transform::is_site(s, from) {
        lemma_sites_some(s, from + 5, window);
    } else {
        lemma_sites_skip(s, from + 1, k, window);
    }
}

/// The first site from `from` on.
proof fn lemma_first_site(s: Seq<u8>, from: int, k: int, window: int) -> (j: int)
    requires
        from <= k,
        k + 5 <= window,
        is_near(s, k),
    ensures
        from <= j <= k,
        sites(s, from, window) == 1 + sites(s, j + 5, window),
    decreases k - from,
{
    if crate::cm::transform::is_site(s, from) {
        from
    } else {
        lemma_first_site(s, from + 1, k, window)
    }
}

/// Data looks like x86 code where it has at least 64 KiB, and near calls or jumps
/// are never more than a kibibyte apart in its first four mebibytes.
pub proof fn lemma_code_seen(s: Seq<u8>)
    requires
        s.len() >= 0x1_0000,
        forall|i: int|
            0 <= i && i + 1024 <= s.len() && i + 1024 <= 0x40_0000 ==> #[trigger] has_near(s, i, 1024),
    ensures
        is_x86(s),
{
    let window = if s.len() < 0x40_0000 {
        s.len() as int
    } else {
        0x40_0000
    };
    lemma_sites_dense(s, 0, window, 1024);
}

proof fn lemma_no_sites(s: Seq<u8>, from: int, window: int)
    requires
        0 <= from,
        window <= s.len(),
        forall|i: int| 0 <= i < s.len() ==> s[i] != 0xe8 && s[i] != 0xe9,
    ensures
        sites(s, from, window) == 0,
    decreases window - from,
{
    if from + 5 <= window {
        lemma_no_sites(s, from + 1, window);
    }
}

/// Data without calls and jumps does not look like code, nor does less than 64
/// KiB.
pub proof fn lemma_no_code_seen(s: Seq<u8>)
    requires
        s.len() < 0x1_0000 || forall|i: int| 0 <= i < s.len() ==> s[i] != 0xe8 && s[i] != 0xe9,
    ensures
        !is_x86(s),
{
    if s.len() >= 0x1_0000 {
        let window = if s.len() < 0x40_0000 {
            s.len() as int
        } else {
            0x40_0000
        };
        lemma_no_sites(s, 0, window);
    }
}

proof fn lemma_best(data: Seq<u8>, s: int, t: int)
    requires
        2 <= t <= s,
    ensures
        2 <= best_upto(data, s) <= s,
        count_of(data, t) <= count_of(data, best_upto(data, s)),
        t > best_upto(data, s) ==> count_of(data, t) < count_of(data, best_upto(data, s)),
    decreases s,
{
    if s > 2 {
        if t < s {
            lemma_best(data, s - 1, t);
        } else {
            lemma_best(data, s - 1, 2);
        }
    }
}

/// A record length that is found lies between 2 and 4096, and no other distance
/// there has the same byte in more of the samples, nor a longer one in as many.
pub proof fn lemma_stride_best(data: Seq<u8>, t: int)
    requires
        stride_of(data) != 0,
        2 <= t <= 4096,
    ensures
        2 <= stride_of(data) <= 4096,
        count_of(data, t) <= count_of(data, stride_of(data)),
        t > stride_of(data) ==> count_of(data, t) < count_of(data, stride_of(data)),
        100 * count_of(data, stride_of(data)) >= 18 * samples(data.len() as int),
        data.len() >= 16384,
{
    lemma_best(data, 4096, t);
    let n = samples(data.len() as int);
    let c = count_of(data, best_upto(data, 4096));
    assert(c * 100 >= 18 * n) by (nonlinear_arith)
        requires
            c * 100 / n >= 18,
            n >= 1,
    ;
}

proof fn lemma_all_same(data: Seq<u8>, s: int, n: int)
    requires
        0 <= n,
        forall|i: int| 4096 <= i < data.len() ==> data[i] == #[trigger] data[i - s],
        4096 + 37 * (n - 1) < data.len(),
    ensures
        same_count(data, s, n) == n,
    decreases n,
{
    if n > 0 {
        lemma_all_same(data, s, n - 1);
        let i = 4096 + 37 * (n - 1);
        assert(data[i] == data[i - s]);
    }
}

proof fn lemma_count_most(data: Seq<u8>, s: int, n: int)
    requires
        0 <= n,
    ensures
        0 <= same_count(data, s, n) <= n,
    decreases n,
{
    if n > 0 {
        lemma_count_most(data, s, n - 1);
    }
}

/// Records that repeat are found where other distances do not do nearly as well:
/// data of which every byte is the one `s` back has a record length at which
/// every sample has the same byte.
pub proof fn lemma_stride_found(data: Seq<u8>, s: int)
    requires
        2 <= s <= 4096,
        data.len() >= 0x1_0000,
        forall|i: int| 4096 <= i < data.len() ==> data[i] == #[trigger] data[i - s],
        median_count(data) * 3 <= 2 * samples(data.len() as int),
    ensures
        2 <= stride_of(data) <= 4096,
        count_of(data, stride_of(data)) == samples(data.len() as int),
{
    let n = samples(data.len() as int);
    lemma_all_same(data, s, n);
    lemma_best(data, 4096, s);
    let b = best_upto(data, 4096);
    lemma_count_most(data, b, n);
    assert(count_of(data, b) == n);
    assert(n * 100 / n >= 18) by (nonlinear_arith)
        requires
            n >= 1,
    ;
}

} // verus!
