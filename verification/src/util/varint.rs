//! Variable-length numbers: seven bits in each byte, the lowest first, with
//! the high bit set on every byte but the last.

use crate::error::Error;
use vstd::prelude::*;

verus! {

pub open spec fn varint_bytes(v: nat) -> Seq<u8>
    decreases v,
{
    if v < 128 {
        seq![v as u8]
    } else {
        seq![(v % 128 + 128) as u8] + varint_bytes(v / 128)
    }
}

/// The number whose bytes start at `pos`, of which `k` bytes were read before,
/// and the position after it.
pub open spec fn varint_rest(s: Seq<u8>, pos: int, k: int) -> Result<(int, int), Error>
    decreases 10 - k,
{
    if pos >= s.len() {
        Err(Error::TruncatedVarint)
    } else if k >= 10 {
        Err(Error::VarintOverflow)
    } else if s[pos] < 128 {
        Ok((s[pos] as int, pos + 1))
    } else {
        match varint_rest(s, pos + 1, k + 1) {
            Ok((v, p)) => Ok((s[pos] - 128 + 128 * v, p)),
            Err(e) => Err(e),
        }
    }
}

/// The 64-bit number at `pos` and the position after it; bits above the 64th
/// are dropped.
pub open spec fn varint_at(s: Seq<u8>, pos: int) -> Result<(u64, int), Error> {
    match varint_rest(s, pos, 0) {
        Ok((v, p)) => Ok(((v % 0x1_0000_0000_0000_0000) as u64, p)),
        Err(e) => Err(e),
    }
}

pub open spec fn limit(k: int) -> int
    decreases 10 - k,
{
    if k >= 10 {
        1
    } else {
        128 * limit(k + 1)
    }
}

proof fn lemma_limit()
    ensures
        limit(0) == 0x40_0000_0000_0000_0000,
{
    reveal_with_fuel(limit, 11);
}

proof fn lemma_read_rest(s: Seq<u8>, pos: int, v: nat, k: int)
    requires
        0 <= pos,
        0 <= k < 10,
        v < limit(k),
        pos + varint_bytes(v).len() <= s.len(),
        s.subrange(pos, pos + varint_bytes(v).len()) == varint_bytes(v),
    ensures
        varint_rest(s, pos, k) == Ok::<(int, int), Error>((v as int, pos + varint_bytes(v).len())),
    decreases v,
{
    let w = varint_bytes(v);
    let t = s.subrange(pos, pos + w.len());
    assert(s[pos] == t[0]);
    if v >= 128 {
        if k == 9 {
            assert(limit(10) == 1);
            assert(limit(9) == 128);
        }
        let w1 = varint_bytes(v / 128);
        assert(s.subrange(pos + 1, pos + 1 + w1.len()) =~= t.subrange(1, w.len() as int));
        assert(t.subrange(1, w.len() as int) =~= w1);
        lemma_read_rest(s, pos + 1, v / 128, k + 1);
    }
}

/// Reading gives back the number that was written, wherever it stands.
pub proof fn lemma_varint_read(s: Seq<u8>, pos: int, v: u64)
    requires
        0 <= pos,
        pos + varint_bytes(v as nat).len() <= s.len(),
        s.subrange(pos, pos + varint_bytes(v as nat).len()) == varint_bytes(v as nat),
    ensures
        varint_at(s, pos) == Ok::<(u64, int), Error>((v, pos + varint_bytes(v as nat).len())),
{
    lemma_limit();
    lemma_read_rest(s, pos, v as nat, 0);
}

/// A number that was read ends inside the bytes, after its start.
pub proof fn lemma_varint_end(s: Seq<u8>, pos: int)
    requires
        0 <= pos,
    ensures
        varint_at(s, pos) matches Ok((v, p)) ==> pos < p <= s.len(),
{
    lemma_rest_end(s, pos, 0);
}

proof fn lemma_rest_end(s: Seq<u8>, pos: int, k: int)
    requires
        0 <= pos,
        0 <= k <= 10,
    ensures
        varint_rest(s, pos, k) matches Ok((v, p)) ==> pos < p <= s.len() && v >= 0,
    decreases 10 - k,
{
    if pos < s.len() && k < 10 && s[pos] >= 128 {
        lemma_rest_end(s, pos + 1, k + 1);
    }
}

pub fn write_varint(out: &mut Vec<u8>, v: u64)
    ensures
        final(out)@ == old(out)@ + varint_bytes(v as nat),
{
    let mut rest: u64 = v;
    let ghost start = out@;
    while rest >= 128
        invariant
            out@ + varint_bytes(rest as nat) == start + varint_bytes(v as nat),
        decreases rest,
    {
        let ghost before = out@;
        let ghost r0 = rest as nat;
        out.push((rest % 128 + 128) as u8);
        rest = rest / 128;
        assert(out@ + varint_bytes(rest as nat) =~= before + varint_bytes(r0));
    }
    let ghost before = out@;
    out.push(rest as u8);
    assert(out@ =~= before + varint_bytes(rest as nat));
}

} // verus!
