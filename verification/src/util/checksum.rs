//! Checksums.

use crate::outside::{xxh3_64, xxh3_of};
use vstd::prelude::*;

verus! {

/// The two sums of an Adler-32: of the bytes, from one on, and of those sums.
pub open spec fn adler_sums(s: Seq<u8>) -> (int, int)
    decreases s.len(),
{
    if s.len() == 0 {
        (1, 0)
    } else {
        let (a, b) = adler_sums(s.drop_last());
        let a2 = (a + s.last()) % 65521;
        (a2, (b + a2) % 65521)
    }
}

/// The Adler-32 checksum, as zlib has it.
pub open spec fn adler32_of(s: Seq<u8>) -> u32 {
    let (a, b) = adler_sums(s);
    (b * 65536 + a) as u32
}

proof fn lemma_adler_range(s: Seq<u8>)
    ensures
        0 <= adler_sums(s).0 < 65521,
        0 <= adler_sums(s).1 < 65521,
    decreases s.len(),
{
}

/// Adler-32 checksum. The sums are reduced once in 5552 bytes.
pub fn adler32(data: &[u8]) -> (r: u32)
    ensures
        r == adler32_of(data@),
{
    let mut a: u64 = 1;
    let mut b: u64 = 0;
    let mut since: u64 = 0;
    let mut i: usize = 0;
    assert(data@.take(0) =~= Seq::<u8>::empty());
    while i < data.len()
        invariant
            i <= data@.len(),
            since < 5552,
            a <= 65521 + 255 * since,
            b <= 65521 + 2_000_000 * since,
            a % 65521 == adler_sums(data@.take(i as int)).0,
            b % 65521 == adler_sums(data@.take(i as int)).1,
        decreases data.len() - i,
    {
        let ghost s = data@.take(i + 1);
        assert(s.drop_last() =~= data@.take(i as int));
        assert(s.last() == data@[i as int]);
        let ghost a0 = a as int;
        let ghost b0 = b as int;
        a = a + data[i] as u64;
        b = b + a;
        assert((a0 % 65521 + data@[i as int]) % 65521 == a as int % 65521);
        assert((b0 % 65521 + a as int % 65521) % 65521 == b as int % 65521);
        since += 1;
        if since == 5552 {
            a = a % 65521;
            b = b % 65521;
            since = 0;
        }
        i += 1;
    }
    proof {
        assert(data@.take(i as int) =~= data@);
        lemma_adler_range(data@);
    }
    ((b % 65521) * 65536 + a % 65521) as u32
}

/// The 64-bit XXH3 hash.
pub fn xxh3(data: &[u8]) -> (r: u64)
    ensures
        r == xxh3_of(data@),
{
    xxh3_64(data)
}

} // verus!
