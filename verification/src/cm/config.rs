//! The sizes of a model.

use vstd::arithmetic::power2::{lemma2_to64, lemma_pow2_strictly_increases, pow2};
use vstd::bits::lemma_u64_shl_is_mul;
use vstd::prelude::*;

verus! {

pub struct CmConfig {
    pub table_bits: u32,
    pub match_bits: u32,
    /// Record or row length for the record contexts (0 for none).
    pub stride: u32,
    /// Bytes per pixel for image data (0 for other data).
    pub bpp: u32,
}

/// The memory of a model: twelve tables of four-byte slots, the match table of
/// as wide entries, and a mebibyte for the rest.
pub open spec fn mem_of(table_bits: nat, match_bits: nat) -> nat {
    48 * pow2(table_bits) + 4 * pow2(match_bits) + 0x10_0000
}

pub fn model_mem_bytes(table_bits: u32, match_bits: u32) -> (m: u64)
    requires
        table_bits < 64,
        match_bits < 64,
        mem_of(table_bits as nat, match_bits as nat) <= u64::MAX,
    ensures
        m == mem_of(table_bits as nat, match_bits as nat),
{
    proof {
        lemma_fits(table_bits);
        lemma_fits(match_bits);
        lemma_u64_shl_is_mul(1, table_bits as u64);
        lemma_u64_shl_is_mul(1, match_bits as u64);
    }
    48 * (1u64 << (table_bits as u64)) + 4 * (1u64 << (match_bits as u64)) + 0x10_0000
}

proof fn lemma_fits(bits: u32)
    requires
        bits < 64,
    ensures
        0 < pow2(bits as nat) < 0x1_0000_0000_0000_0000,
{
    lemma2_to64();
    vstd::arithmetic::power2::lemma_pow2_pos(bits as nat);
    lemma_pow2_strictly_increases(bits as nat, 64);
}

/// The number of bits whose power of two first reaches `n`.
pub open spec fn ceil_log2(n: nat) -> nat
    decreases n,
{
    if n <= 1 {
        0
    } else {
        1 + ceil_log2((n + 1) / 2)
    }
}

/// `ceil_log2` is the least exponent whose power of two is no less than `n`.
pub proof fn lemma_ceil_log2(n: nat)
    ensures
        n <= pow2(ceil_log2(n)),
        n > 1 ==> pow2((ceil_log2(n) - 1) as nat) < n,
    decreases n,
{
    lemma2_to64();
    if n > 1 {
        let h: nat = (n + 1) / 2;
        lemma_ceil_log2(h);
        vstd::arithmetic::power2::lemma_pow2_unfold(ceil_log2(n));
        if h > 1 {
            vstd::arithmetic::power2::lemma_pow2_unfold(ceil_log2(h));
        }
    }
}

/// `x` brought into `lo..=hi`.
pub open spec fn within(x: nat, lo: nat, hi: nat) -> nat {
    if x < lo {
        lo
    } else if x > hi {
        hi
    } else {
        x
    }
}

/// The table sizes for `len` bytes: eight slots for each byte, and an entry of
/// the match table for each, within bounds.
pub open spec fn wanted_bits(len: nat) -> (nat, nat) {
    let lg = ceil_log2(len);
    (within(lg + 3, 16, 26), within(lg, 16, 24))
}

/// Halves the tables until they fit, or are at the smallest size.
pub open spec fn capped_bits(table_bits: nat, match_bits: nat, cap: nat) -> (nat, nat)
    decreases table_bits,
{
    if table_bits > 16 && mem_of(table_bits, match_bits) > cap {
        let t = (table_bits - 1) as nat;
        capped_bits(
            t,
            if match_bits < t {
                match_bits
            } else {
                t
            },
            cap,
        )
    } else {
        (table_bits, match_bits)
    }
}

pub open spec fn bits_for(len: nat, cap: nat) -> (nat, nat) {
    let w = wanted_bits(len);
    capped_bits(w.0, w.1, cap)
}

proof fn lemma_capped(table_bits: nat, match_bits: nat, cap: nat)
    requires
        16 <= table_bits,
        16 <= match_bits,
    ensures
        16 <= capped_bits(table_bits, match_bits, cap).0 <= table_bits,
        16 <= capped_bits(table_bits, match_bits, cap).1 <= match_bits,
        mem_of(
            capped_bits(table_bits, match_bits, cap).0,
            capped_bits(table_bits, match_bits, cap).1,
        ) <= cap || capped_bits(table_bits, match_bits, cap).0 == 16,
    decreases table_bits,
{
    if table_bits > 16 && mem_of(table_bits, match_bits) > cap {
        let t = (table_bits - 1) as nat;
        lemma_capped(
            t,
            if match_bits < t {
                match_bits
            } else {
                t
            },
            cap,
        );
    }
}

/// A model stays within the cap on its memory, or has tables of the smallest
/// size; and its sizes are ones that a stream can declare.
pub proof fn lemma_mem_cap(len: nat, cap: nat)
    ensures
        mem_of(bits_for(len, cap).0, bits_for(len, cap).1) <= cap || bits_for(len, cap).0 == 16,
        16 <= bits_for(len, cap).0 <= 26,
        16 <= bits_for(len, cap).1 <= 24,
{
    lemma_capped(wanted_bits(len).0, wanted_bits(len).1, cap);
}

/// The least exponent whose power of two reaches `len`.
pub fn log2_up(len: usize) -> (lg: u32)
    ensures
        lg == ceil_log2(len as nat),
        lg <= 64,
{
    let mut n: u64 = len as u64;
    let mut lg: u32 = 0;
    let ghost mut left: int = 64;
    proof {
        lemma2_to64();
    }
    while n > 1
        invariant
            lg + ceil_log2(n as nat) == ceil_log2(len as nat),
            lg + left == 64,
            0 <= left <= 64,
            n <= pow2(left as nat),
        decreases n,
    {
        proof {
            lemma2_to64();
            vstd::arithmetic::power2::lemma_pow2_unfold(left as nat);
            left = left - 1;
        }
        n = n / 2 + n % 2;
        lg += 1;
    }
    lg
}

impl CmConfig {
    pub fn for_len(len: usize) -> (c: Self)
        ensures
            (c.table_bits as nat, c.match_bits as nat) == bits_for(len as nat, u64::MAX as nat),
            c.stride == 0,
            c.bpp == 0,
    {
        Self::for_len_capped(len, u64::MAX)
    }

    /// Sizes the model for `len` bytes, with no more than `mem_cap` bytes of
    /// memory unless the smallest tables need more.
    pub fn for_len_capped(len: usize, mem_cap: u64) -> (c: Self)
        ensures
            (c.table_bits as nat, c.match_bits as nat) == bits_for(len as nat, mem_cap as nat),
            c.stride == 0,
            c.bpp == 0,
    {
        let lg: u32 = log2_up(len);
        let mut table_bits: u32 = if lg + 3 < 16 {
            16
        } else if lg + 3 > 26 {
            26
        } else {
            lg + 3
        };
        let mut match_bits: u32 = if lg < 16 {
            16
        } else if lg > 24 {
            24
        } else {
            lg
        };
        proof {
            lemma_small_mem(table_bits, match_bits);
        }
        while table_bits > 16 && model_mem_bytes(table_bits, match_bits) > mem_cap
            invariant
                16 <= table_bits <= 26,
                16 <= match_bits <= 24,
                mem_of(table_bits as nat, match_bits as nat) <= u64::MAX,
                capped_bits(table_bits as nat, match_bits as nat, mem_cap as nat) == bits_for(
                    len as nat,
                    mem_cap as nat,
                ),
            decreases table_bits,
        {
            table_bits -= 1;
            if match_bits > table_bits {
                match_bits = table_bits;
            }
            proof {
                lemma_small_mem(table_bits, match_bits);
            }
        }
        CmConfig { table_bits, match_bits, stride: 0, bpp: 0 }
    }
}

proof fn lemma_small_mem(table_bits: u32, match_bits: u32)
    requires
        table_bits <= 26,
        match_bits <= 24,
    ensures
        mem_of(table_bits as nat, match_bits as nat) <= u64::MAX,
{
    lemma2_to64();
    if table_bits < 26 {
        lemma_pow2_strictly_increases(table_bits as nat, 26);
    }
    if match_bits < 26 {
        lemma_pow2_strictly_increases(match_bits as nat, 26);
    }
}

} // verus!
