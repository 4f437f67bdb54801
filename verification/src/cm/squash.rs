//! `squash` and `stretch`: the logistic map between the mixer's domain and
//! 12-bit probabilities, and its inverse.

use crate::cm::tables;
use vstd::prelude::*;

verus! {

/// `x` brought into `lo..=hi`.
pub open spec fn clamp(x: int, lo: int, hi: int) -> int {
    if x < lo {
        lo
    } else if x > hi {
        hi
    } else {
        x
    }
}

/// Row `r` of the logistic curve.
pub open spec fn squash_row(r: int) -> Seq<u16> {
    if r == 0 {
        tables::SQUASH_0@
    } else if r == 1 {
        tables::SQUASH_1@
    } else if r == 2 {
        tables::SQUASH_2@
    } else if r == 3 {
        tables::SQUASH_3@
    } else if r == 4 {
        tables::SQUASH_4@
    } else if r == 5 {
        tables::SQUASH_5@
    } else if r == 6 {
        tables::SQUASH_6@
    } else if r == 7 {
        tables::SQUASH_7@
    } else if r == 8 {
        tables::SQUASH_8@
    } else if r == 9 {
        tables::SQUASH_9@
    } else if r == 10 {
        tables::SQUASH_A@
    } else if r == 11 {
        tables::SQUASH_B@
    } else if r == 12 {
        tables::SQUASH_C@
    } else if r == 13 {
        tables::SQUASH_D@
    } else if r == 14 {
        tables::SQUASH_E@
    } else {
        tables::SQUASH_F@
    }
}

/// The curve at `x`, which is first brought into `-2047..=2047`.
#[verifier::opaque]
pub open spec fn squash_at(x: int) -> u16 {
    let i = clamp(x, -2047, 2047) + 2048;
    squash_row(i / 256)[i % 256]
}

pub fn squash(x: i32) -> (r: i32)
    ensures
        r == squash_at(x as int),
        0 <= r <= 65535,
{
    let y: i32 = if x < -2047 {
        -2047
    } else if x > 2047 {
        2047
    } else {
        x
    };
    let i: usize = (y + 2048) as usize;
    let c: usize = i % 256;
    proof {
        reveal(squash_at);
    }
    let v: u16 = match i / 256 {
        0 => tables::SQUASH_0[c],
        1 => tables::SQUASH_1[c],
        2 => tables::SQUASH_2[c],
        3 => tables::SQUASH_3[c],
        4 => tables::SQUASH_4[c],
        5 => tables::SQUASH_5[c],
        6 => tables::SQUASH_6[c],
        7 => tables::SQUASH_7[c],
        8 => tables::SQUASH_8[c],
        9 => tables::SQUASH_9[c],
        10 => tables::SQUASH_A[c],
        11 => tables::SQUASH_B[c],
        12 => tables::SQUASH_C[c],
        13 => tables::SQUASH_D[c],
        14 => tables::SQUASH_E[c],
        _ => tables::SQUASH_F[c],
    };
    v as i32
}

/// The least `y` in `x..=2047` at which the curve reaches `p`, or 2047.
pub open spec fn first_reaching(p: int, x: int) -> int
    decreases 2047 - x,
{
    if x >= 2047 || squash_at(x) >= p {
        x
    } else {
        first_reaching(p, x + 1)
    }
}

/// The inverse of the curve: the least `x` of `-2047..=2047` whose squashed
/// value is at least `p`, or 2047 where none is.
#[verifier::opaque]
pub open spec fn stretch_at(p: int) -> int {
    first_reaching(p, -2047)
}

pub proof fn lemma_first_reaching_range(p: int, x: int)
    requires
        x <= 2047,
    ensures
        x <= first_reaching(p, x) <= 2047,
    decreases 2047 - x,
{
    if !(x >= 2047 || squash_at(x) >= p) {
        lemma_first_reaching_range(p, x + 1);
    }
}

/// Stretched values stay within `-2047..=2047`.
pub proof fn lemma_stretch_range(p: int)
    ensures
        -2047 <= stretch_at(p) <= 2047,
{
    reveal(stretch_at);
    lemma_first_reaching_range(p, -2047);
}

proof fn lemma_first_reaching_skip(p: int, x: int, y: int)
    requires
        x <= y <= 2047,
        forall|z: int| x <= z < y ==> squash_at(z) < p,
    ensures
        first_reaching(p, x) == first_reaching(p, y),
    decreases y - x,
{
    if x < y {
        lemma_first_reaching_skip(p, x + 1, y);
    }
}

/// The stretch table: entry `p` is `stretch_at(p)`.
pub open spec fn is_stretch(st: Seq<i16>) -> bool {
    &&& st.len() == 4096
    &&& forall|p: int| 0 <= p < 4096 ==> #[trigger] st[p] == stretch_at(p)
}

pub fn build_stretch() -> (st: Vec<i16>)
    ensures
        is_stretch(st@),
{
    let mut st: Vec<i16> = vec![0i16; 4096];
    let mut j: usize = 0;
    let mut x: i32 = -2047;
    while x <= 2047
        invariant
            -2047 <= x <= 2048,
            st.len() == 4096,
            j <= 4096,
            forall|p: int| 0 <= p < j ==> #[trigger] st@[p] == stretch_at(p),
            j == 4096 || forall|z: int| -2047 <= z < x ==> squash_at(z) < j,
        decreases 2048 - x,
    {
        let p: usize = squash(x) as usize;
        while j <= p && j < 4096
            invariant
                -2047 <= x <= 2047,
                st.len() == 4096,
                j <= 4096,
                p == squash_at(x as int),
                forall|q: int| 0 <= q < j ==> #[trigger] st@[q] == stretch_at(q),
                j == 4096 || forall|z: int| -2047 <= z < x ==> squash_at(z) < j,
            decreases 4096 - j,
        {
            proof {
                lemma_first_reaching_skip(j as int, -2047, x as int);
                reveal(stretch_at);
            }
            st[j] = x as i16;
            j += 1;
        }
        x += 1;
    }
    while j < 4096
        invariant
            st.len() == 4096,
            j <= 4096,
            forall|p: int| 0 <= p < j ==> #[trigger] st@[p] == stretch_at(p),
            j == 4096 || forall|z: int| -2047 <= z <= 2047 ==> squash_at(z) < j,
        decreases 4096 - j,
    {
        proof {
            lemma_first_reaching_skip(j as int, -2047, 2047);
            reveal(stretch_at);
        }
        st[j] = 2047;
        j += 1;
    }
    st
}

} // verus!
