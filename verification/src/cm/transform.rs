//! The reversible transform of x86 branch targets, and what is detected in the
//! data before it is compressed.

use vstd::prelude::*;

verus! {

/// The number that four bytes from `i` on stand for, the lowest first.
pub open spec fn le_at(s: Seq<u8>, i: int) -> int {
    s[i] + 256 * s[i + 1] + 0x1_0000 * s[i + 2] + 0x100_0000 * s[i + 3]
}

/// The same with the highest first.
pub open spec fn be_at(s: Seq<u8>, i: int) -> int {
    s[i + 3] + 256 * s[i + 2] + 0x1_0000 * s[i + 1] + 0x100_0000 * s[i]
}

/// The `k`-th byte of a number, from the lowest.
pub open spec fn byte_of(x: int, k: int) -> u8 {
    (if k == 0 {
        x % 256
    } else if k == 1 {
        (x / 256) % 256
    } else if k == 2 {
        (x / 0x1_0000) % 256
    } else {
        (x / 0x100_0000) % 256
    }) as u8
}

/// `s` with the bytes of `x` from `i` on, the lowest first.
pub open spec fn put_le(s: Seq<u8>, i: int, x: int) -> Seq<u8> {
    s.update(i, byte_of(x, 0)).update(i + 1, byte_of(x, 1)).update(i + 2, byte_of(x, 2)).update(
        i + 3,
        byte_of(x, 3),
    )
}

/// The same with the highest first.
pub open spec fn put_be(s: Seq<u8>, i: int, x: int) -> Seq<u8> {
    s.update(i, byte_of(x, 3)).update(i + 1, byte_of(x, 2)).update(i + 2, byte_of(x, 1)).update(
        i + 3,
        byte_of(x, 0),
    )
}

pub open spec fn is_branch(b: u8) -> bool {
    b == 0xE8 || b == 0xE9
}

/// The branch at `i` with its relative target made absolute, or back.
pub open spec fn retargeted(s: Seq<u8>, i: int, forward: bool) -> Seq<u8> {
    if forward {
        put_be(s, i + 1, (le_at(s, i + 1) + i + 5) % 0x1_0000_0000)
    } else {
        put_le(s, i + 1, (be_at(s, i + 1) - i - 5) % 0x1_0000_0000)
    }
}

/// Retargets every branch from `i` on; five bytes are passed at each.
pub open spec fn e8e9_from(s: Seq<u8>, i: int, forward: bool) -> Seq<u8>
    decreases s.len() - i,
{
    if i < 0 || i + 5 > s.len() {
        s
    } else if is_branch(s[i]) {
        e8e9_from(retargeted(s, i, forward), i + 5, forward)
    } else {
        e8e9_from(s, i + 1, forward)
    }
}

pub open spec fn e8e9(s: Seq<u8>, forward: bool) -> Seq<u8> {
    e8e9_from(s, 0, forward)
}

/// What comes before the start stays.
pub proof fn lemma_e8e9_prefix(s: Seq<u8>, i: int, forward: bool)
    requires
        0 <= i,
    ensures
        e8e9_from(s, i, forward).len() == s.len(),
        forall|k: int| 0 <= k < i && k < s.len() ==> #[trigger] e8e9_from(s, i, forward)[k] == s[k],
    decreases s.len() - i,
{
    if i + 5 > s.len() {
    } else if is_branch(s[i]) {
        lemma_e8e9_prefix(retargeted(s, i, forward), i + 5, forward);
    } else {
        lemma_e8e9_prefix(s, i + 1, forward);
    }
}

/// What comes before the start plays no part.
proof fn lemma_e8e9_update(s: Seq<u8>, i: int, forward: bool, k: int, b: u8)
    requires
        0 <= k < i,
        k < s.len(),
    ensures
        e8e9_from(s.update(k, b), i, forward) == e8e9_from(s, i, forward).update(k, b),
    decreases s.len() - i,
{
    let t = s.update(k, b);
    if i + 5 > s.len() {
    } else if is_branch(s[i]) {
        assert(retargeted(t, i, forward) =~= retargeted(s, i, forward).update(k, b));
        lemma_e8e9_update(retargeted(s, i, forward), i + 5, forward, k, b);
    } else {
        lemma_e8e9_update(s, i + 1, forward, k, b);
    }
}

/// Reading four bytes gives the number that was written.
proof fn lemma_put(s: Seq<u8>, i: int, x: int)
    requires
        0 <= i,
        i + 4 <= s.len(),
        0 <= x < 0x1_0000_0000,
    ensures
        be_at(put_be(s, i, x), i) == x,
        le_at(put_le(s, i, x), i) == x,
{
}

/// The bytes of a number made of bytes are those bytes.
proof fn lemma_bytes(a: u8, b: u8, c: u8, d: u8)
    ensures
        byte_of(a + 256 * b + 0x1_0000 * c + 0x100_0000 * d, 0) == a,
        byte_of(a + 256 * b + 0x1_0000 * c + 0x100_0000 * d, 1) == b,
        byte_of(a + 256 * b + 0x1_0000 * c + 0x100_0000 * d, 2) == c,
        byte_of(a + 256 * b + 0x1_0000 * c + 0x100_0000 * d, 3) == d,
{
    let x: int = a + 256 * b + 0x1_0000 * c + 0x100_0000 * d;
    assert(x / 256 == b + 256 * c + 0x1_0000 * d);
    assert(x / 0x1_0000 == c + 256 * d);
    assert(x / 0x100_0000 == d);
}

/// Writing the number that was there changes nothing.
proof fn lemma_put_same(s: Seq<u8>, i: int)
    requires
        0 <= i,
        i + 4 <= s.len(),
    ensures
        put_le(s, i, le_at(s, i)) == s,
        put_be(s, i, be_at(s, i)) == s,
        0 <= le_at(s, i) < 0x1_0000_0000,
        0 <= be_at(s, i) < 0x1_0000_0000,
{
    lemma_bytes(s[i], s[i + 1], s[i + 2], s[i + 3]);
    lemma_bytes(s[i + 3], s[i + 2], s[i + 1], s[i]);
    assert(put_le(s, i, le_at(s, i)) =~= s);
    assert(put_be(s, i, be_at(s, i)) =~= s);
}

proof fn lemma_shift_back(x: int, d: int)
    requires
        0 <= x < 0x1_0000_0000,
    ensures
        ((x + d) % 0x1_0000_0000 - d) % 0x1_0000_0000 == x,
{
}

proof fn lemma_e8e9_back(s: Seq<u8>, i: int)
    requires
        0 <= i,
    ensures
        e8e9_from(e8e9_from(s, i, true), i, false) == s,
    decreases s.len() - i,
{
    let f = e8e9_from(s, i, true);
    lemma_e8e9_prefix(s, i, true);
    if i + 5 > s.len() {
    } else if is_branch(s[i]) {
        let rel = le_at(s, i + 1);
        let abs = (rel + i + 5) % 0x1_0000_0000;
        let t = retargeted(s, i, true);
        let g = e8e9_from(s, i + 5, true);
        lemma_e8e9_prefix(t, i + 5, true);
        lemma_e8e9_prefix(s, i + 5, true);
        lemma_put(s, i + 1, abs);
        lemma_put_same(s, i + 1);
        assert(f[i] == s[i]);
        assert(be_at(f, i + 1) == abs);
        lemma_shift_back(rel, i + 5);
        let s1 = s.update(i + 1, byte_of(abs, 3));
        let s2 = s1.update(i + 2, byte_of(abs, 2));
        let s3 = s2.update(i + 3, byte_of(abs, 1));
        lemma_e8e9_update(s, i + 5, true, i + 1, byte_of(abs, 3));
        lemma_e8e9_update(s1, i + 5, true, i + 2, byte_of(abs, 2));
        lemma_e8e9_update(s2, i + 5, true, i + 3, byte_of(abs, 1));
        lemma_e8e9_update(s3, i + 5, true, i + 4, byte_of(abs, 0));
        assert(f =~= put_be(g, i + 1, abs));
        assert(retargeted(f, i, false) == put_le(f, i + 1, rel));
        assert(put_le(f, i + 1, rel) =~= put_le(g, i + 1, rel));
        assert(le_at(g, i + 1) == rel);
        lemma_put_same(g, i + 1);
        lemma_e8e9_back(s, i + 5);
    } else {
        lemma_e8e9_prefix(s, i + 1, true);
        lemma_e8e9_back(s, i + 1);
    }
}

proof fn lemma_e8e9_forth(s: Seq<u8>, i: int)
    requires
        0 <= i,
    ensures
        e8e9_from(e8e9_from(s, i, false), i, true) == s,
    decreases s.len() - i,
{
    let f = e8e9_from(s, i, false);
    lemma_e8e9_prefix(s, i, false);
    if i + 5 > s.len() {
    } else if is_branch(s[i]) {
        let abs = be_at(s, i + 1);
        let rel = (abs - i - 5) % 0x1_0000_0000;
        let t = retargeted(s, i, false);
        let g = e8e9_from(s, i + 5, false);
        lemma_e8e9_prefix(t, i + 5, false);
        lemma_e8e9_prefix(s, i + 5, false);
        lemma_put(s, i + 1, rel);
        lemma_put_same(s, i + 1);
        assert(f[i] == s[i]);
        assert(le_at(f, i + 1) == rel);
        lemma_shift_back(abs, -(i + 5));
        let s1 = s.update(i + 1, byte_of(rel, 0));
        let s2 = s1.update(i + 2, byte_of(rel, 1));
        let s3 = s2.update(i + 3, byte_of(rel, 2));
        lemma_e8e9_update(s, i + 5, false, i + 1, byte_of(rel, 0));
        lemma_e8e9_update(s1, i + 5, false, i + 2, byte_of(rel, 1));
        lemma_e8e9_update(s2, i + 5, false, i + 3, byte_of(rel, 2));
        lemma_e8e9_update(s3, i + 5, false, i + 4, byte_of(rel, 3));
        assert(f =~= put_le(g, i + 1, rel));
        assert(retargeted(f, i, true) == put_be(f, i + 1, abs));
        assert(put_be(f, i + 1, abs) =~= put_be(g, i + 1, abs));
        assert(be_at(g, i + 1) == abs);
        lemma_put_same(g, i + 1);
        lemma_e8e9_forth(s, i + 5);
    } else {
        lemma_e8e9_prefix(s, i + 1, false);
        lemma_e8e9_forth(s, i + 1);
    }
}

/// The transform and its reverse undo each other, and keep the length.
pub proof fn lemma_e8e9_inverse(s: Seq<u8>)
    ensures
        e8e9(e8e9(s, true), false) == s,
        e8e9(e8e9(s, false), true) == s,
        e8e9(s, true).len() == s.len(),
        e8e9(s, false).len() == s.len(),
{
    lemma_e8e9_prefix(s, 0, true);
    lemma_e8e9_prefix(s, 0, false);
    lemma_e8e9_back(s, 0);
    lemma_e8e9_forth(s, 0);
}

/// The target that a branch at `i` has, `forward` or back.
fn new_target(x: u32, i: usize, forward: bool) -> (y: u32)
    ensures
        forward ==> y == (x + i + 5) % 0x1_0000_0000,
        !forward ==> y == (x - i - 5) % 0x1_0000_0000,
{
    let base: u32 = (i as u64 % 0x1_0000_0000) as u32;
    let base: u32 = base.wrapping_add(5);
    assert(base == (i + 5) % 0x1_0000_0000);
    if forward {
        x.wrapping_add(base)
    } else {
        x.wrapping_sub(base)
    }
}

fn byte_at(x: u32, k: u32) -> (b: u8)
    requires
        k < 4,
    ensures
        b == byte_of(x as int, k as int),
{
    let y: u32 = if k == 0 {
        x
    } else if k == 1 {
        x / 256
    } else if k == 2 {
        x / 0x1_0000
    } else {
        x / 0x100_0000
    };
    (y % 256) as u8
}

fn retarget(data: &mut Vec<u8>, i: usize, forward: bool)
    requires
        i + 5 <= old(data)@.len(),
    ensures
        final(data)@ == retargeted(old(data)@, i as int, forward),
{
    let ghost s = data@;
    let n: usize = data.len();
    assert(i + 5 <= n);
    let b0: u32 = data[i + 1] as u32;
    let b1: u32 = data[i + 2] as u32;
    let b2: u32 = data[i + 3] as u32;
    let b3: u32 = data[i + 4] as u32;
    if forward {
        let y: u32 = new_target(b0 + 256 * b1 + 0x1_0000 * b2 + 0x100_0000 * b3, i, true);
        assert(y == (le_at(s, i + 1) + i + 5) % 0x1_0000_0000);
        data[i + 1] = byte_at(y, 3);
        data[i + 2] = byte_at(y, 2);
        data[i + 3] = byte_at(y, 1);
        data[i + 4] = byte_at(y, 0);
    } else {
        let y: u32 = new_target(b3 + 256 * b2 + 0x1_0000 * b1 + 0x100_0000 * b0, i, false);
        assert(y == (be_at(s, i + 1) - i - 5) % 0x1_0000_0000);
        data[i + 1] = byte_at(y, 0);
        data[i + 2] = byte_at(y, 1);
        data[i + 3] = byte_at(y, 2);
        data[i + 4] = byte_at(y, 3);
    }
    assert(data@ =~= retargeted(s, i as int, forward));
}

/// Makes the relative targets of x86 calls and jumps absolute, or back. Both
/// directions scan alike and pass five bytes at each branch. Absolute targets
/// have their highest byte first, so that high bytes cluster.
pub fn e8e9_apply(data: &mut Vec<u8>, forward: bool)
    ensures
        final(data)@ == e8e9(old(data)@, forward),
{
    let ghost d0 = data@;
    let n: usize = data.len();
    let mut i: usize = 0;
    while n >= 5 && i <= n - 5
        invariant
            n == data@.len(),
            i <= n,
            e8e9_from(data@, i as int, forward) == e8e9(d0, forward),
        decreases n - i,
    {
        let b: u8 = data[i];
        if b == 0xE8 || b == 0xE9 {
            retarget(data, i, forward);
            i += 5;
        } else {
            i += 1;
        }
    }
}

/// A branch with a plausible target: its highest byte only extends a sign.
pub open spec fn is_site(s: Seq<u8>, i: int) -> bool {
    is_branch(s[i]) && (s[i + 4] == 0x00 || s[i + 4] == 0xFF)
}

/// The sites from `i` up to `window`; five bytes are passed at each.
pub open spec fn sites(s: Seq<u8>, i: int, window: int) -> int
    decreases window - i,
{
    if i + 5 > window {
        0
    } else if is_site(s, i) {
        1 + sites(s, i + 5, window)
    } else {
        sites(s, i + 1, window)
    }
}

pub open spec fn least(a: int, b: int) -> int {
    if a < b {
        a
    } else {
        b
    }
}

/// Whether the data looks like x86 code: at least 64 KiB, with more than one
/// site in 1500 bytes.
pub open spec fn is_x86(s: Seq<u8>) -> bool {
    let window = least(s.len() as int, 0x40_0000);
    s.len() >= 0x1_0000 && sites(s, 0, window) * 1500 > window
}

pub fn looks_like_x86(data: &[u8]) -> (r: bool)
    ensures
        r == is_x86(data@),
{
    if data.len() < 0x1_0000 {
        return false;
    }
    let window: usize = if data.len() < 0x40_0000 {
        data.len()
    } else {
        0x40_0000
    };
    let mut hits: u64 = 0;
    let mut i: usize = 0;
    while i <= window - 5
        invariant
            5 <= window <= 0x40_0000,
            window <= data@.len(),
            i <= window,
            hits <= i,
            hits + sites(data@, i as int, window as int) == sites(data@, 0, window as int),
        decreases window - i,
    {
        let b: u8 = data[i];
        if (b == 0xE8 || b == 0xE9) && (data[i + 4] == 0x00 || data[i + 4] == 0xFF) {
            hits += 1;
            i += 5;
        } else {
            i += 1;
        }
    }
    hits * 1500 > window as u64
}

} // verus!
