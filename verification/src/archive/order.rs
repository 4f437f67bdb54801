//! The order of the entries: by path, each path once.

use crate::error::Error;
use crate::util::bytes::same;
use vstd::prelude::*;
use vstd::utf8::encode_utf8;

verus! {

/// Whether `a` stands before `b` where both are the same up to `k`.
pub open spec fn precedes_from(a: Seq<u8>, b: Seq<u8>, k: int) -> bool
    decreases a.len() - k,
{
    if k >= b.len() {
        false
    } else if k >= a.len() {
        true
    } else if a[k] != b[k] {
        a[k] < b[k]
    } else {
        precedes_from(a, b, k + 1)
    }
}

/// Lexicographic order on bytes.
pub open spec fn precedes(a: Seq<u8>, b: Seq<u8>) -> bool {
    precedes_from(a, b, 0)
}

proof fn lemma_trans_from(a: Seq<u8>, b: Seq<u8>, c: Seq<u8>, k: int)
    requires
        0 <= k,
        precedes_from(a, b, k),
        precedes_from(b, c, k),
    ensures
        precedes_from(a, c, k),
    decreases a.len() - k,
{
    if k < a.len() && a[k] == b[k] && b[k] == c[k] {
        lemma_trans_from(a, b, c, k + 1);
    }
}

proof fn lemma_irreflexive_from(a: Seq<u8>, k: int)
    ensures
        !precedes_from(a, a, k),
    decreases a.len() - k,
{
    if k < a.len() {
        lemma_irreflexive_from(a, k + 1);
    }
}

proof fn lemma_total_from(a: Seq<u8>, b: Seq<u8>, k: int)
    requires
        0 <= k,
        k <= a.len(),
        k <= b.len(),
        forall|i: int| 0 <= i < k ==> a[i] == b[i],
        !precedes_from(a, b, k),
        !precedes_from(b, a, k),
    ensures
        a == b,
    decreases a.len() - k,
{
    if k < a.len() && k < b.len() {
        lemma_total_from(a, b, k + 1);
    } else {
        assert(a =~= b);
    }
}

/// The order is a strict total order.
pub proof fn lemma_order_total(a: Seq<u8>, b: Seq<u8>, c: Seq<u8>)
    ensures
        !precedes(a, a),
        precedes(a, b) && precedes(b, c) ==> precedes(a, c),
        precedes(a, b) || precedes(b, a) || a == b,
{
    lemma_irreflexive_from(a, 0);
    if precedes(a, b) && precedes(b, c) {
        lemma_trans_from(a, b, c, 0);
    }
    if !precedes(a, b) && !precedes(b, a) {
        lemma_total_from(a, b, 0);
    }
}

fn before(a: &[u8], b: &[u8]) -> (r: bool)
    ensures
        r == precedes(a@, b@),
{
    let mut k: usize = 0;
    let n: usize = a.len();
    let m: usize = b.len();
    while k < n && k < m
        invariant
            k <= n,
            k <= m,
            n == a@.len(),
            m == b@.len(),
            precedes(a@, b@) == precedes_from(a@, b@, k as int),
        decreases n - k,
    {
        if a[k] != b[k] {
            return a[k] < b[k];
        }
        k += 1;
    }
    k < m
}

pub open spec fn keys_of(paths: Seq<String>) -> Seq<Seq<u8>> {
    Seq::new(paths.len(), |i: int| encode_utf8(paths[i]@))
}

/// Whether one of `r` has the key.
pub open spec fn holds(keys: Seq<Seq<u8>>, r: Seq<usize>, key: Seq<u8>) -> bool {
    exists|x: int| 0 <= x < r.len() && keys[#[trigger] r[x] as int] == key
}

pub open spec fn ascending(keys: Seq<Seq<u8>>, r: Seq<usize>) -> bool {
    forall|x: int, y: int|
        0 <= x < y < r.len() ==> precedes(
            keys[#[trigger] r[x] as int],
            keys[#[trigger] r[y] as int],
        )
}

/// Whether `i` is the first from `lo` on with its key.
pub open spec fn is_first(keys: Seq<Seq<u8>>, lo: int, i: int) -> bool {
    forall|k: int| lo <= k < i ==> #[trigger] keys[k] != keys[i]
}

/// Whether `r` puts the keys from `lo` to `hi` in order, and of equal ones
/// keeps the first.
pub open spec fn is_order(keys: Seq<Seq<u8>>, r: Seq<usize>, lo: int, hi: int) -> bool {
    &&& forall|x: int|
        0 <= x < r.len() ==> lo <= #[trigger] r[x] < hi && is_first(keys, lo, r[x] as int)
    &&& ascending(keys, r)
    &&& forall|k: int| lo <= k < hi ==> holds(keys, r, #[trigger] keys[k])
}

/// In two orders of the same keys that agree up to `n`, the key that stands at
/// `n` in one stands no earlier in the other.
proof fn lemma_no_earlier(
    keys: Seq<Seq<u8>>,
    a: Seq<usize>,
    b: Seq<usize>,
    lo: int,
    hi: int,
    n: int,
) -> (y: int)
    requires
        is_order(keys, a, lo, hi),
        is_order(keys, b, lo, hi),
        0 <= n < a.len(),
        n <= b.len(),
        forall|x: int| 0 <= x < n ==> #[trigger] a[x] == b[x],
    ensures
        n <= y < b.len(),
        keys[b[y] as int] == keys[a[n] as int],
{
    let k = keys[a[n] as int];
    assert(lo <= a[n] < hi);
    assert(holds(keys, b, keys[a[n] as int]));
    let y = choose|y: int| 0 <= y < b.len() && keys[#[trigger] b[y] as int] == k;
    if y < n {
        assert(a[y] == b[y]);
        assert(precedes(keys[a[y] as int], keys[a[n] as int]));
        lemma_order_total(k, k, k);
    }
    y
}

proof fn lemma_orders_agree(
    keys: Seq<Seq<u8>>,
    a: Seq<usize>,
    b: Seq<usize>,
    lo: int,
    hi: int,
    n: int,
)
    requires
        is_order(keys, a, lo, hi),
        is_order(keys, b, lo, hi),
        0 <= n <= a.len(),
    ensures
        n <= b.len(),
        forall|x: int| 0 <= x < n ==> #[trigger] a[x] == b[x],
    decreases n,
{
    if n > 0 {
        let m = n - 1;
        lemma_orders_agree(keys, a, b, lo, hi, m);
        let y = lemma_no_earlier(keys, a, b, lo, hi, m);
        let z = lemma_no_earlier(keys, b, a, lo, hi, m);
        let ka = keys[a[m] as int];
        let kb = keys[b[m] as int];
        lemma_order_total(ka, kb, ka);
        if y > m {
            assert(precedes(keys[b[m] as int], keys[b[y] as int]));
            if z > m {
                assert(precedes(keys[a[m] as int], keys[a[z] as int]));
            }
            lemma_order_total(kb, ka, kb);
        }
        assert(ka == kb);
        assert(is_first(keys, lo, a[m] as int) && is_first(keys, lo, b[m] as int));
        if a[m] < b[m] {
            assert(keys[a[m] as int] != keys[b[m] as int]);
        } else if b[m] < a[m] {
            assert(keys[b[m] as int] != keys[a[m] as int]);
        }
    }
}

/// There is one order of the keys, and no other.
pub proof fn lemma_order_unique(
    keys: Seq<Seq<u8>>,
    a: Seq<usize>,
    b: Seq<usize>,
    lo: int,
    hi: int,
)
    requires
        is_order(keys, a, lo, hi),
        is_order(keys, b, lo, hi),
    ensures
        a == b,
{
    lemma_orders_agree(keys, a, b, lo, hi, a.len() as int);
    lemma_orders_agree(keys, b, a, lo, hi, b.len() as int);
    assert(a =~= b);
}

fn key<'a>(paths: &'a Vec<String>, i: usize) -> (b: &'a [u8])
    requires
        i < paths@.len(),
    ensures
        b@ == keys_of(paths@)[i as int],
{
    paths[i].as_str().as_bytes()
}

proof fn lemma_push(keys: Seq<Seq<u8>>, out: Seq<usize>, e: usize)
    requires
        ascending(keys, out),
        forall|x: int| 0 <= x < out.len() ==> precedes(keys[#[trigger] out[x] as int], keys[e as int]),
    ensures
        ascending(keys, out.push(e)),
        holds(keys, out.push(e), keys[e as int]),
        forall|k: Seq<u8>| holds(keys, out, k) ==> #[trigger] holds(keys, out.push(e), k),
{
    let p = out.push(e);
    assert forall|x: int, y: int| 0 <= x < y < p.len() implies precedes(
        keys[#[trigger] p[x] as int],
        keys[#[trigger] p[y] as int],
    ) by {
        assert(p[x] == out[x]);
        if y < out.len() {
            assert(p[y] == out[y]);
        }
    }
    assert(p[out.len() as int] == e);
    assert forall|k: Seq<u8>| holds(keys, out, k) implies #[trigger] holds(keys, p, k) by {
        let x = choose|x: int| 0 <= x < out.len() && keys[#[trigger] out[x] as int] == k;
        assert(p[x] == out[x]);
    }
}

/// What a merge has kept so far: all that comes before what is left of both.
spec fn merged(
    keys: Seq<Seq<u8>>,
    l: Seq<usize>,
    i: int,
    r: Seq<usize>,
    j: int,
    lo: int,
    hi: int,
    out: Seq<usize>,
) -> bool {
    &&& ascending(keys, out)
    &&& forall|x: int|
        0 <= x < out.len() ==> lo <= #[trigger] out[x] < hi && is_first(keys, lo, out[x] as int)
    &&& forall|x: int, y: int|
        0 <= x < out.len() && i <= y < l.len() ==> precedes(
            keys[#[trigger] out[x] as int],
            keys[#[trigger] l[y] as int],
        )
    &&& forall|x: int, y: int|
        0 <= x < out.len() && j <= y < r.len() ==> precedes(
            keys[#[trigger] out[x] as int],
            keys[#[trigger] r[y] as int],
        )
    &&& forall|y: int| 0 <= y < i ==> holds(keys, out, keys[#[trigger] l[y] as int])
    &&& forall|y: int| 0 <= y < j ==> holds(keys, out, keys[#[trigger] r[y] as int])
}

/// The left one is kept, with what stands on the right under the same key
/// dropped.
proof fn lemma_keep_left(
    keys: Seq<Seq<u8>>,
    l: Seq<usize>,
    i: int,
    r: Seq<usize>,
    j: int,
    j1: int,
    lo: int,
    mid: int,
    hi: int,
    out: Seq<usize>,
)
    requires
        lo <= mid <= hi,
        is_order(keys, l, lo, mid),
        is_order(keys, r, mid, hi),
        merged(keys, l, i, r, j, lo, hi, out),
        0 <= i < l.len(),
        0 <= j <= j1 <= r.len(),
        j1 == j || (j1 == j + 1 && keys[r[j] as int] == keys[l[i] as int]),
        j1 == j && j < r.len() ==> precedes(keys[l[i] as int], keys[r[j] as int]),
    ensures
        merged(keys, l, i + 1, r, j1, lo, hi, out.push(l[i])),
{
    let p = out.push(l[i]);
    lemma_push(keys, out, l[i]);
    assert forall|x: int, y: int| 0 <= x < p.len() && i + 1 <= y < l.len() implies precedes(
        keys[#[trigger] p[x] as int],
        keys[#[trigger] l[y] as int],
    ) by {
        if x < out.len() {
            assert(p[x] == out[x]);
        }
    }
    assert forall|x: int, y: int| 0 <= x < p.len() && j1 <= y < r.len() implies precedes(
        keys[#[trigger] p[x] as int],
        keys[#[trigger] r[y] as int],
    ) by {
        if x < out.len() {
            assert(p[x] == out[x]);
        } else if y > j {
            assert(precedes(keys[r[j] as int], keys[r[y] as int]));
            lemma_order_total(keys[l[i] as int], keys[r[j] as int], keys[r[y] as int]);
        }
    }
}

/// The right one is kept, which comes before all that is left on the left.
proof fn lemma_keep_right(
    keys: Seq<Seq<u8>>,
    l: Seq<usize>,
    i: int,
    r: Seq<usize>,
    j: int,
    lo: int,
    mid: int,
    hi: int,
    out: Seq<usize>,
)
    requires
        lo <= mid <= hi,
        is_order(keys, l, lo, mid),
        is_order(keys, r, mid, hi),
        merged(keys, l, i, r, j, lo, hi, out),
        0 <= i <= l.len(),
        0 <= j < r.len(),
        i < l.len() ==> precedes(keys[r[j] as int], keys[l[i] as int]),
    ensures
        merged(keys, l, i, r, j + 1, lo, hi, out.push(r[j])),
{
    let e = r[j] as int;
    let p = out.push(r[j]);
    lemma_push(keys, out, r[j]);
    assert forall|y: int| i <= y < l.len() implies precedes(
        keys[e],
        keys[#[trigger] l[y] as int],
    ) by {
        if y > i {
            assert(precedes(keys[l[i] as int], keys[l[y] as int]));
            lemma_order_total(keys[e], keys[l[i] as int], keys[l[y] as int]);
        }
    }
    assert forall|x: int, y: int| 0 <= x < p.len() && i <= y < l.len() implies precedes(
        keys[#[trigger] p[x] as int],
        keys[#[trigger] l[y] as int],
    ) by {
        if x < out.len() {
            assert(p[x] == out[x]);
        }
    }
    assert forall|x: int, y: int| 0 <= x < p.len() && j + 1 <= y < r.len() implies precedes(
        keys[#[trigger] p[x] as int],
        keys[#[trigger] r[y] as int],
    ) by {
        if x < out.len() {
            assert(p[x] == out[x]);
        }
    }
    assert forall|k: int| lo <= k < e implies #[trigger] keys[k] != keys[e] by {
        if k < mid {
            assert(holds(keys, l, keys[k]));
            let y = choose|y: int| 0 <= y < l.len() && keys[#[trigger] l[y] as int] == keys[k];
            if y < i {
                assert(holds(keys, out, keys[l[y] as int]));
                let x = choose|x: int|
                    0 <= x < out.len() && keys[#[trigger] out[x] as int] == keys[l[y] as int];
                assert(precedes(keys[out[x] as int], keys[r[j] as int]));
                lemma_order_total(keys[e], keys[e], keys[e]);
            } else {
                assert(precedes(keys[e], keys[l[y] as int]));
                lemma_order_total(keys[e], keys[e], keys[e]);
            }
        } else {
            assert(is_first(keys, mid, r[j] as int));
        }
    }
}

fn merge(
    paths: &Vec<String>,
    l: &Vec<usize>,
    r: &Vec<usize>,
    Ghost(lo): Ghost<int>,
    Ghost(mid): Ghost<int>,
    Ghost(hi): Ghost<int>,
) -> (out: Vec<usize>)
    requires
        0 <= lo <= mid <= hi <= paths@.len(),
        is_order(keys_of(paths@), l@, lo, mid),
        is_order(keys_of(paths@), r@, mid, hi),
    ensures
        is_order(keys_of(paths@), out@, lo, hi),
{
    let ghost keys = keys_of(paths@);
    let mut out: Vec<usize> = Vec::new();
    let mut i: usize = 0;
    let mut j: usize = 0;
    while i < l.len() || j < r.len()
        invariant
            keys == keys_of(paths@),
            0 <= lo <= mid <= hi <= paths@.len(),
            is_order(keys, l@, lo, mid),
            is_order(keys, r@, mid, hi),
            i <= l@.len(),
            j <= r@.len(),
            merged(keys, l@, i as int, r@, j as int, lo, hi, out@),
        decreases l.len() - i + r.len() - j,
    {
        if i < l.len() {
            assert(lo <= l@[i as int] < mid);
        }
        if j < r.len() {
            assert(mid <= r@[j as int] < hi);
        }
        if j >= r.len() {
            proof {
                lemma_keep_left(
                    keys,
                    l@,
                    i as int,
                    r@,
                    j as int,
                    j as int,
                    lo,
                    mid,
                    hi,
                    out@,
                );
            }
            out.push(l[i]);
            i += 1;
        } else if i >= l.len() || before(key(paths, r[j]), key(paths, l[i])) {
            proof {
                lemma_keep_right(keys, l@, i as int, r@, j as int, lo, mid, hi, out@);
            }
            out.push(r[j]);
            j += 1;
        } else if before(key(paths, l[i]), key(paths, r[j])) {
            proof {
                lemma_keep_left(
                    keys,
                    l@,
                    i as int,
                    r@,
                    j as int,
                    j as int,
                    lo,
                    mid,
                    hi,
                    out@,
                );
            }
            out.push(l[i]);
            i += 1;
        } else {
            proof {
                let a = keys[l@[i as int] as int];
                let b = keys[r@[j as int] as int];
                lemma_order_total(a, b, a);
                lemma_keep_left(keys, l@, i as int, r@, j as int, j + 1, lo, mid, hi, out@);
            }
            out.push(l[i]);
            i += 1;
            j += 1;
        }
    }
    proof {
        assert forall|k: int| lo <= k < hi implies holds(keys, out@, #[trigger] keys[k]) by {
            if k < mid {
                assert(holds(keys, l@, keys[k]));
                let y = choose|y: int| 0 <= y < l@.len() && keys[#[trigger] l@[y] as int] == keys[k];
                assert(holds(keys, out@, keys[l@[y] as int]));
            } else {
                assert(holds(keys, r@, keys[k]));
                let y = choose|y: int| 0 <= y < r@.len() && keys[#[trigger] r@[y] as int] == keys[k];
                assert(holds(keys, out@, keys[r@[y] as int]));
            }
        }
    }
    out
}

fn order_range(paths: &Vec<String>, lo: usize, hi: usize) -> (r: Vec<usize>)
    requires
        lo <= hi <= paths@.len(),
    ensures
        is_order(keys_of(paths@), r@, lo as int, hi as int),
    decreases hi - lo,
{
    let mut r: Vec<usize> = Vec::new();
    if lo == hi {
        return r;
    }
    if hi - lo == 1 {
        r.push(lo);
        proof {
            let keys = keys_of(paths@);
            assert(r@[0] == lo);
            assert(holds(keys, r@, keys[lo as int]));
        }
        return r;
    }
    let mid: usize = lo + (hi - lo) / 2;
    let left: Vec<usize> = order_range(paths, lo, mid);
    let right: Vec<usize> = order_range(paths, mid, hi);
    merge(paths, &left, &right, Ghost(lo as int), Ghost(mid as int), Ghost(hi as int))
}

/// The numbers of the paths in their order, with the first of equal ones.
pub fn order(paths: &Vec<String>) -> (r: Vec<usize>)
    ensures
        is_order(keys_of(paths@), r@, 0, paths@.len() as int),
{
    order_range(paths, 0, paths.len())
}

/// Where in the order the path of number `i` stands.
pub fn find(paths: &Vec<String>, r: &Vec<usize>, i: usize) -> (x: usize)
    requires
        i < paths@.len(),
        is_order(keys_of(paths@), r@, 0, paths@.len() as int),
    ensures
        x < r@.len(),
        r@[x as int] < paths@.len(),
        keys_of(paths@)[r@[x as int] as int] == keys_of(paths@)[i as int],
{
    let ghost keys = keys_of(paths@);
    let ghost k = keys[i as int];
    let ghost at = choose|x: int| 0 <= x < r@.len() && keys[#[trigger] r@[x] as int] == k;
    let mut lo: usize = 0;
    let mut hi: usize = r.len();
    proof {
        assert(holds(keys, r@, keys[i as int]));
        lemma_order_total(k, k, k);
    }
    while hi - lo > 1
        invariant
            keys == keys_of(paths@),
            i < paths@.len(),
            k == keys[i as int],
            is_order(keys, r@, 0, paths@.len() as int),
            lo <= at < hi <= r@.len(),
            keys[r@[at] as int] == k,
            !precedes(k, k),
        decreases hi - lo,
    {
        let mid: usize = lo + (hi - lo) / 2;
        assert(0 <= r@[mid as int] < paths@.len());
        if before(key(paths, i), key(paths, r[mid])) {
            proof {
                if at >= mid {
                    if at > mid {
                        assert(precedes(keys[r@[mid as int] as int], keys[r@[at] as int]));
                    }
                    lemma_order_total(k, keys[r@[mid as int] as int], k);
                }
            }
            hi = mid;
        } else {
            proof {
                if at < mid {
                    assert(precedes(keys[r@[at] as int], keys[r@[mid as int] as int]));
                }
            }
            lo = mid;
        }
    }
    assert(lo == at);
    assert(0 <= r@[lo as int] < paths@.len());
    lo
}

/// Whether two inputs have one path, and are not the same input.
pub open spec fn clash(keys: Seq<Seq<u8>>, origins: Seq<Vec<u8>>, i: int, j: int) -> bool {
    keys[i] == keys[j] && origins[i]@ != origins[j]@
}

/// The numbers of inputs in the order of their paths. An input that is named
/// more than once, with one path and one origin, is kept once; an error where
/// two inputs of different origins have one path.
pub fn order_inputs(paths: &Vec<String>, origins: &Vec<Vec<u8>>) -> (r: Result<Vec<usize>, Error>)
    requires
        origins@.len() == paths@.len(),
    ensures
        match r {
            Ok(v) => {
                &&& is_order(keys_of(paths@), v@, 0, paths@.len() as int)
                &&& forall|i: int, j: int|
                    0 <= i < paths@.len() && 0 <= j < paths@.len() ==> !#[trigger] clash(
                        keys_of(paths@),
                        origins@,
                        i,
                        j,
                    )
            },
            Err(e) => e == Error::DuplicatePath && exists|i: int, j: int|
                0 <= i < paths@.len() && 0 <= j < paths@.len() && #[trigger] clash(
                    keys_of(paths@),
                    origins@,
                    i,
                    j,
                ),
        },
{
    let ghost keys = keys_of(paths@);
    let n: usize = paths.len();
    let r: Vec<usize> = order(paths);
    let mut i: usize = 0;
    let ghost mut reps: Seq<int> = Seq::empty();
    while i < n
        invariant
            i <= n,
            n == paths@.len(),
            origins@.len() == n,
            keys == keys_of(paths@),
            is_order(keys, r@, 0, n as int),
            reps.len() == i,
            forall|k: int|
                0 <= k < i ==> 0 <= #[trigger] reps[k] < r@.len() && keys[r@[reps[k]] as int]
                    == keys[k] && origins@[r@[reps[k]] as int]@ == origins@[k]@,
        decreases n - i,
    {
        let x: usize = find(paths, &r, i);
        if !same(origins[r[x]].as_slice(), origins[i].as_slice()) {
            assert(clash(keys, origins@, r@[x as int] as int, i as int));
            return Err(Error::DuplicatePath);
        }
        proof {
            reps = reps.push(x as int);
        }
        i += 1;
    }
    proof {
        assert forall|a: int, b: int| 0 <= a < n && 0 <= b < n implies !#[trigger] clash(
            keys,
            origins@,
            a,
            b,
        ) by {
            if keys[a] == keys[b] {
                let x = reps[a];
                let y = reps[b];
                let kx = keys[r@[x] as int];
                let ky = keys[r@[y] as int];
                lemma_order_total(kx, ky, kx);
                if x < y {
                    assert(precedes(keys[r@[x] as int], keys[r@[y] as int]));
                } else if y < x {
                    assert(precedes(keys[r@[y] as int], keys[r@[x] as int]));
                }
            }
        }
    }
    Ok(r)
}

} // verus!
