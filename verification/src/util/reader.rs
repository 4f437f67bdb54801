//! A position in a run of bytes.

use crate::error::Error;
use crate::util::varint::{varint_at, varint_rest};
use vstd::prelude::*;

verus! {

pub struct Reader<'a> {
    pub data: &'a [u8],
    pub pos: usize,
}

/// The byte at `pos` and the position after it.
pub open spec fn byte_at(s: Seq<u8>, pos: int) -> Result<(u8, int), Error> {
    if pos >= s.len() {
        Err(Error::TruncatedByte)
    } else {
        Ok((s[pos], pos + 1))
    }
}

/// The `n` bytes from `pos` on and the position after them.
pub open spec fn bytes_at(s: Seq<u8>, pos: int, n: int) -> Result<(Seq<u8>, int), Error> {
    if pos + n > s.len() {
        Err(
            Error::TruncatedBytes {
                want: n as u64,
                have: (if pos < s.len() {
                    s.len() - pos
                } else {
                    0
                }) as u64,
            },
        )
    } else {
        Ok((s.subrange(pos, pos + n), pos + n))
    }
}

/// The rest of a number that starts with `v` and goes on `m` times higher.
spec fn joined(v: int, m: int, rest: Result<(int, int), Error>) -> Result<(int, int), Error> {
    match rest {
        Ok((x, p)) => Ok((v + m * x, p)),
        Err(e) => Err(e),
    }
}

impl<'a> Reader<'a> {
    pub fn new(data: &'a [u8]) -> (r: Self)
        ensures
            r.data@ == data@,
            r.pos == 0,
    {
        Reader { data, pos: 0 }
    }

    pub fn varint(&mut self) -> (r: Result<u64, Error>)
        ensures
            final(self).data@ == old(self).data@,
            match varint_at(old(self).data@, old(self).pos as int) {
                Ok((v, p)) => r == Ok::<u64, Error>(v) && final(self).pos == p,
                Err(e) => r == Err::<u64, Error>(e),
            },
    {
        let ghost s = self.data@;
        let ghost p0 = self.pos as int;
        let mut v: u64 = 0;
        let mut scale: u64 = 1;
        let mut k: u32 = 0;
        let ghost mut full: int = 0;
        let ghost mut m: int = 1;
        proof {
            crate::util::varint::lemma_varint_end(s, p0);
        }
        loop
            invariant
                self.data@ == s,
                s == old(self).data@,
                p0 == old(self).pos,
                k <= 10,
                k < 10 ==> scale == m,
                m >= 1,
                full >= 0,
                v == full % 0x1_0000_0000_0000_0000,
                scale_at(k) == m,
                varint_rest(s, p0, 0) == joined(full, m, varint_rest(s, self.pos as int, k as int)),
            decreases 10 - k,
        {
            if self.pos >= self.data.len() {
                return Err(Error::TruncatedVarint);
            }
            let b: u8 = self.data[self.pos];
            self.pos += 1;
            if k >= 10 {
                return Err(Error::VarintOverflow);
            }
            let x: u64 = (b % 128) as u64;
            let ghost before = full;
            proof {
                lemma_scale(k);
                assert(x * m >= 0) by (nonlinear_arith)
                    requires
                        x >= 0,
                        m >= 1,
                ;
                full = full + m * x;
            }
            v = v.wrapping_add(x.wrapping_mul(scale));
            assert(m * x == x * m) by (nonlinear_arith);
            assert(v == full % 0x1_0000_0000_0000_0000);
            if b < 128 {
                return Ok(v);
            }
            proof {
                let rest = varint_rest(s, self.pos as int, k + 1);
                if let Ok((y, p)) = rest {
                    assert(before + m * (x + 128 * y) == full + (128 * m) * y) by (nonlinear_arith)
                        requires
                            full == before + m * x,
                    ;
                }
                m = 128 * m;
            }
            scale = scale.wrapping_mul(128);
            k += 1;
        }
    }

    pub fn byte(&mut self) -> (r: Result<u8, Error>)
        ensures
            final(self).data@ == old(self).data@,
            match byte_at(old(self).data@, old(self).pos as int) {
                Ok((b, p)) => r == Ok::<u8, Error>(b) && final(self).pos == p,
                Err(e) => r == Err::<u8, Error>(e) && final(self).pos == old(self).pos,
            },
    {
        if self.pos >= self.data.len() {
            return Err(Error::TruncatedByte);
        }
        let b: u8 = self.data[self.pos];
        self.pos += 1;
        Ok(b)
    }

    pub fn bytes(&mut self, n: usize) -> (r: Result<&'a [u8], Error>)
        ensures
            final(self).data@ == old(self).data@,
            match bytes_at(old(self).data@, old(self).pos as int, n as int) {
                Ok((b, p)) => r matches Ok(x) && x@ == b && final(self).pos == p,
                Err(e) => r == Err::<&'a [u8], Error>(e) && final(self).pos == old(self).pos,
            },
    {
        let len: usize = self.data.len();
        let have: usize = if self.pos < len {
            len - self.pos
        } else {
            0
        };
        if self.pos > len || n > have {
            return Err(Error::TruncatedBytes { want: n as u64, have: have as u64 });
        }
        let data: &'a [u8] = self.data;
        let s: &'a [u8] = vstd::slice::slice_subrange(data, self.pos, self.pos + n);
        self.pos += n;
        Ok(s)
    }

    /// The same, where the number of bytes may be more than a `usize` holds.
    pub fn bytes_long(&mut self, n: u64) -> (r: Result<&'a [u8], Error>)
        ensures
            final(self).data@ == old(self).data@,
            match bytes_at(old(self).data@, old(self).pos as int, n as int) {
                Ok((b, p)) => r matches Ok(x) && x@ == b && final(self).pos == p,
                Err(e) => r == Err::<&'a [u8], Error>(e) && final(self).pos == old(self).pos,
            },
    {
        if n > usize::MAX as u64 {
            let len: usize = self.data.len();
            let have: usize = if self.pos < len {
                len - self.pos
            } else {
                0
            };
            return Err(Error::TruncatedBytes { want: n, have: have as u64 });
        }
        self.bytes(n as usize)
    }
}

/// 128 to the power `k`.
spec fn scale_at(k: u32) -> int
    decreases k,
{
    if k == 0 {
        1
    } else {
        128 * scale_at((k - 1) as u32)
    }
}

proof fn lemma_scale(k: u32)
    requires
        k < 10,
    ensures
        scale_at((k + 1) as u32) == 128 * scale_at(k),
        1 <= scale_at(k) <= 0x8000_0000_0000_0000,
        k < 9 ==> 128 * scale_at(k) <= 0x8000_0000_0000_0000,
{
    reveal_with_fuel(scale_at, 11);
}

} // verus!
