//! What decorrelated pixels are.

use crate::channels::{green, green_from, lemma_green_keeps, pixel_shifted};
use vstd::prelude::*;

verus! {

/// The pixels that lie `bpp` bytes apart from `i` on, with the two bytes beside
/// the middle one of each less the middle one.
proof fn lemma_green_from(s: Seq<u8>, bpp: int, i: int, k: int)
    requires
        bpp >= 3,
        0 <= i,
        i <= k < s.len(),
    ensures
        green_from(s, bpp, i, true).len() == s.len(),
        ({
            let out = green_from(s, bpp, i, true);
            let at = (k - i) % bpp;
            let p = k - at;
            if p + 2 < s.len() && at == 0 {
                out[k] == (s[k] - s[k + 1]) % 256
            } else if p + 2 < s.len() && at == 2 {
                out[k] == (s[k] - s[k - 1]) % 256
            } else {
                out[k] == s[k]
            }
        }),
    decreases s.len() - i,
{
    lemma_green_keeps(s, bpp, i, true);
    if i + 2 < s.len() {
        let t = pixel_shifted(s, i, true);
        lemma_green_keeps(t, bpp, i + bpp, true);
        if k >= i + bpp {
            lemma_green_from(t, bpp, i + bpp, k);
            lemma_step(k - i, bpp);
            let at = (k - i) % bpp;
            assert((k - (i + bpp)) % bpp == at);
            assert(t[k] == s[k]);
            if k + 1 < s.len() {
                assert(t[k + 1] == s[k + 1]);
            }
            if at == 2 {
                assert(k - 1 >= i + bpp) by {
                    if k - 1 < i + bpp {
                        assert(k - i == bpp);
                        vstd::arithmetic::div_mod::lemma_mod_self_0(bpp);
                    }
                }
                assert(t[k - 1] == s[k - 1]);
            }
        } else {
            vstd::arithmetic::div_mod::lemma_small_mod((k - i) as nat, bpp as nat);
        }
    } else {
        lemma_rest(k - i, bpp);
    }
}

proof fn lemma_step(x: int, m: int)
    requires
        m > 0,
        x >= m,
    ensures
        (x - m) % m == x % m,
        0 <= x % m < m,
{
    vstd::arithmetic::div_mod::lemma_mod_sub_multiples_vanish(x, m);
    vstd::arithmetic::div_mod::lemma_mod_bound(x, m);
}

proof fn lemma_rest(x: int, m: int)
    requires
        m >= 3,
        0 <= x <= 1,
    ensures
        x % m == x,
{
    vstd::arithmetic::div_mod::lemma_small_mod(x as nat, m as nat);
}

/// The decorrelated form of pixels of `bpp` bytes: of each whole pixel, the first
/// and the third byte less the second, around the byte's range; every other byte
/// as it is.
pub proof fn lemma_green_means(s: Seq<u8>, bpp: int, k: int)
    requires
        bpp >= 3,
        0 <= k < s.len(),
    ensures
        green(s, bpp, true).len() == s.len(),
        ({
            let at = k % bpp;
            let whole = k - at + 2 < s.len();
            let out = green(s, bpp, true);
            &&& whole && at == 0 ==> out[k] == (s[k] - s[k + 1]) % 256
            &&& whole && at == 2 ==> out[k] == (s[k] - s[k - 1]) % 256
            &&& !whole || (at != 0 && at != 2) ==> out[k] == s[k]
        }),
{
    lemma_green_from(s, bpp, 0, k);
}

/// Pixels of less than three bytes have no colours to decorrelate.
pub proof fn lemma_grey_kept(s: Seq<u8>, bpp: int, forward: bool)
    requires
        bpp < 3,
    ensures
        green(s, bpp, forward) == s,
{
}

} // verus!
