//! The binary arithmetic coder: an interval `x1..=x2` of 32-bit codes is split
//! at each bit in proportion to the bit's 12-bit probability, and a leading
//! byte on which both ends agree is shifted out.

use vstd::prelude::*;

verus! {

/// 2 to the 24th.
pub const TOP: u32 = 0x100_0000;

/// An interval of codes, both ends included.
pub struct Interval {
    pub lo: int,
    pub hi: int,
}

pub open spec fn is_interval(r: Interval) -> bool {
    0 <= r.lo <= r.hi <= 0xffff_ffff
}

/// An interval whose ends differ in their leading byte.
pub open spec fn is_open(r: Interval) -> bool {
    is_interval(r) && r.lo / 0x100_0000 != r.hi / 0x100_0000
}

/// Where the part for a one bit ends, given the bit's probability of 4096.
pub open spec fn split_at(r: Interval, p: int) -> int {
    r.lo + ((r.hi - r.lo) * p) / 4096
}

/// The part of the interval that stands for `bit`.
pub open spec fn part(r: Interval, bit: bool, p: int) -> Interval {
    if bit {
        Interval { lo: r.lo, hi: split_at(r, p) }
    } else {
        Interval { lo: split_at(r, p) + 1, hi: r.hi }
    }
}

/// The interval after its leading byte was shifted out.
pub open spec fn shifted(r: Interval) -> Interval {
    Interval { lo: (r.lo % 0x100_0000) * 256, hi: (r.hi % 0x100_0000) * 256 + 255 }
}

/// The leading bytes that both ends share, which the encoder writes.
pub open spec fn common(r: Interval) -> Seq<u8>
    decreases 0x1_0000_0000 - (r.hi - r.lo),
{
    if is_interval(r) && r.lo / 0x100_0000 == r.hi / 0x100_0000 {
        seq![(r.hi / 0x100_0000) as u8] + common(shifted(r))
    } else {
        Seq::empty()
    }
}

/// What is left of the interval once the shared leading bytes are out.
pub open spec fn normal(r: Interval) -> Interval
    decreases 0x1_0000_0000 - (r.hi - r.lo),
{
    if is_interval(r) && r.lo / 0x100_0000 == r.hi / 0x100_0000 {
        normal(shifted(r))
    } else {
        r
    }
}

/// The four bytes of `x`, most significant first.
pub open spec fn four_bytes(x: int) -> Seq<u8> {
    seq![
        (x / 0x100_0000) as u8,
        ((x / 0x1_0000) % 256) as u8,
        ((x / 256) % 256) as u8,
        (x % 256) as u8,
    ]
}

/// Byte `i` of `s`, or zero past its end.
pub open spec fn byte_or_zero(s: Seq<u8>, i: int) -> u8 {
    if 0 <= i < s.len() {
        s[i]
    } else {
        0
    }
}

/// The code that the decoder holds at position `i`: four bytes of `s`.
pub open spec fn code_at(s: Seq<u8>, i: int) -> int {
    byte_or_zero(s, i) * 0x100_0000 + byte_or_zero(s, i + 1) * 0x1_0000 + byte_or_zero(s, i + 2)
        * 256 + byte_or_zero(s, i + 3)
}

/// Shifting out a byte widens the interval.
proof fn lemma_shifted(r: Interval)
    requires
        is_interval(r),
        r.lo / 0x100_0000 == r.hi / 0x100_0000,
    ensures
        is_interval(shifted(r)),
        shifted(r).hi - shifted(r).lo > r.hi - r.lo,
{
}

proof fn lemma_normal(r: Interval)
    requires
        is_interval(r),
    ensures
        is_open(normal(r)),
    decreases 0x1_0000_0000 - (r.hi - r.lo),
{
    if r.lo / 0x100_0000 == r.hi / 0x100_0000 {
        lemma_shifted(r);
        lemma_normal(shifted(r));
    }
}

pub proof fn lemma_split(r: Interval, p: int)
    requires
        is_open(r),
        0 <= p < 4096,
    ensures
        r.lo <= split_at(r, p) < r.hi,
{
    let w = r.hi - r.lo;
    assert(0 <= (w * p) / 4096 < w) by (nonlinear_arith)
        requires
            w > 0,
            0 <= p < 4096,
    ;
}

/// Both parts of an open interval are intervals.
pub proof fn lemma_part(r: Interval, bit: bool, p: int)
    requires
        is_open(r),
        0 <= p < 4096,
    ensures
        is_interval(part(r, bit, p)),
        is_open(normal(part(r, bit, p))),
{
    lemma_split(r, p);
    lemma_normal(part(r, bit, p));
}

/// The first code of `s + rest` is in `r` if the first code of `rest` is in
/// what normalisation leaves of `r` and `s` is what it shifts out.
pub proof fn lemma_common_code(r: Interval, rest: Seq<u8>)
    requires
        is_interval(r),
        rest.len() >= 4,
        normal(r).lo <= code_at(rest, 0) <= normal(r).hi,
    ensures
        r.lo <= code_at(common(r) + rest, 0) <= r.hi,
    decreases 0x1_0000_0000 - (r.hi - r.lo),
{
    if r.lo / 0x100_0000 == r.hi / 0x100_0000 {
        lemma_shifted(r);
        lemma_common_code(shifted(r), rest);
        let t = (r.hi / 0x100_0000) as u8;
        let inner = common(shifted(r)) + rest;
        let all = common(r) + rest;
        assert(all =~= seq![t] + inner);
        assert(all[0] == t && all[1] == inner[0] && all[2] == inner[1] && all[3] == inner[2]);
        assert(code_at(all, 0) == t * 0x100_0000 + code_at(inner, 0) / 256);
    } else {
        assert(common(r) + rest =~= rest);
    }
}

/// What is written for a bit, and behind it, starts with a code in the part of
/// the interval that stands for the bit.
pub proof fn lemma_bit_code(r: Interval, bit: bool, p: int, rest: Seq<u8>)
    requires
        is_open(r),
        0 <= p < 4096,
        rest.len() >= 4,
        normal(part(r, bit, p)).lo <= code_at(rest, 0) <= normal(part(r, bit, p)).hi,
    ensures
        ({
            let q = part(r, bit, p);
            let c = code_at(common(q) + rest, 0);
            &&& q.lo <= c <= q.hi
            &&& r.lo <= c <= r.hi
            &&& bit_of_code(r, p, c) == bit
        }),
{
    lemma_part(r, bit, p);
    lemma_split(r, p);
    lemma_common_code(part(r, bit, p), rest);
}

/// The first code of four bytes is the number they are of.
pub proof fn lemma_four_bytes(x: int)
    requires
        0 <= x <= 0xffff_ffff,
    ensures
        code_at(four_bytes(x), 0) == x,
        four_bytes(x).len() == 4,
{
}

proof fn lemma_code_step(s: Seq<u8>, i: int)
    requires
        0 <= i,
    ensures
        code_at(s, i + 1) == (code_at(s, i) % 0x100_0000) * 256 + byte_or_zero(s, i + 4),
        0 <= code_at(s, i) <= 0xffff_ffff,
{
}

proof fn lemma_bits(x1: u32, x2: u32)
    ensures
        ((x1 ^ x2) & 0xff00_0000 == 0) == (x1 / TOP == x2 / TOP),
        x1 << 8 == (x1 % TOP) * 256,
        (x2 << 8) | 0xff == (x2 % TOP) * 256 + 255,
        x2 >> 24 == x2 / TOP,
        x1 >> 24 == x1 / TOP,
{
    assert(((x1 ^ x2) & 0xff00_0000 == 0) == (x1 / 0x100_0000 == x2 / 0x100_0000)) by (bit_vector);
    assert(x1 << 8 == (x1 % 0x100_0000) * 256) by (bit_vector);
    assert((x2 << 8) | 0xff == (x2 % 0x100_0000) * 256 + 255) by (bit_vector);
    assert(x2 >> 24 == x2 / 0x100_0000) by (bit_vector);
    assert(x1 >> 24 == x1 / 0x100_0000) by (bit_vector);
}

proof fn lemma_or_byte(x: u32, b: u8)
    ensures
        (x << 8) | (b as u32) == (x % TOP) * 256 + b,
{
    assert((x << 8) | (b as u32) == (x % 0x100_0000) * 256 + b) by (bit_vector);
}

/// The split point, computed in 64 bits.
fn midpoint(x1: u32, x2: u32, p12: i32) -> (xmid: u32)
    requires
        is_open(Interval { lo: x1 as int, hi: x2 as int }),
        0 <= p12 < 4096,
    ensures
        xmid == split_at(Interval { lo: x1 as int, hi: x2 as int }, p12 as int),
        x1 <= xmid < x2,
{
    let range: u64 = (x2 - x1) as u64;
    proof {
        lemma_split(Interval { lo: x1 as int, hi: x2 as int }, p12 as int);
        assert(range * (p12 as u64) <= 0xffff_ffff * 4095) by (nonlinear_arith)
            requires
                range <= 0xffff_ffff,
                0 <= p12 < 4096,
                p12 as u64 == p12,
        ;
    }
    let prod: u64 = range * (p12 as u64);
    assert(prod >> 12 == prod / 4096) by (bit_vector);
    x1 + (prod >> 12) as u32
}

pub struct Encoder {
    pub x1: u32,
    pub x2: u32,
    pub out: Vec<u8>,
}

impl Encoder {
    pub open spec fn range(&self) -> Interval {
        Interval { lo: self.x1 as int, hi: self.x2 as int }
    }

    pub fn new() -> (e: Self)
        ensures
            e.range() == (Interval { lo: 0, hi: 0xffff_ffff }),
            e.out@ == Seq::<u8>::empty(),
    {
        Encoder { x1: 0, x2: 0xffff_ffff, out: Vec::new() }
    }

    /// Narrows the interval to the part for `bit` and writes the bytes that
    /// are settled by it.
    pub fn encode(&mut self, bit: i32, p12: i32)
        requires
            is_open(old(self).range()),
            0 <= p12 < 4096,
        ensures
            final(self).range() == normal(part(old(self).range(), bit == 1, p12 as int)),
            final(self).out@ == old(self).out@ + common(
                part(old(self).range(), bit == 1, p12 as int),
            ),
            is_open(final(self).range()),
    {
        let ghost r0 = part(self.range(), bit == 1, p12 as int);
        let ghost out0 = self.out@;
        proof {
            lemma_part(self.range(), bit == 1, p12 as int);
        }
        let xmid: u32 = midpoint(self.x1, self.x2, p12);
        if bit == 1 {
            self.x2 = xmid;
        } else {
            self.x1 = xmid + 1;
        }
        while (self.x1 ^ self.x2) & 0xff00_0000 == 0
            invariant
                is_interval(self.range()),
                normal(self.range()) == normal(r0),
                self.out@ + common(self.range()) == out0 + common(r0),
            decreases 0x1_0000_0000 - (self.x2 - self.x1),
        {
            let ghost r = self.range();
            let ghost out1 = self.out@;
            proof {
                lemma_bits(self.x1, self.x2);
                lemma_shifted(r);
            }
            self.out.push((self.x2 >> 24) as u8);
            self.x1 = self.x1 << 8;
            self.x2 = (self.x2 << 8) | 0xff;
            assert(self.range() == shifted(r));
            assert(self.out@ + common(shifted(r)) =~= out1 + common(r));
        }
        proof {
            lemma_bits(self.x1, self.x2);
            assert(self.out@ + common(self.range()) =~= self.out@);
        }
    }

    /// Ends the stream with the four bytes of the lower end.
    pub fn flush(self) -> (out: Vec<u8>)
        ensures
            out@ == self.out@ + four_bytes(self.x1 as int),
    {
        let mut out: Vec<u8> = self.out;
        let x: u32 = self.x1;
        proof {
            assert(x >> 24 == x / 0x100_0000) by (bit_vector);
            assert((x << 8) >> 24 == (x / 0x1_0000) % 256) by (bit_vector);
            assert((x << 16) >> 24 == (x / 256) % 256) by (bit_vector);
            assert((x << 24) >> 24 == x % 256) by (bit_vector);
        }
        out.push((x >> 24) as u8);
        out.push(((x << 8) >> 24) as u8);
        out.push(((x << 16) >> 24) as u8);
        out.push(((x << 24) >> 24) as u8);
        assert(out@ =~= self.out@ + four_bytes(self.x1 as int));
        out
    }
}

pub struct Decoder<'a> {
    pub x1: u32,
    pub x2: u32,
    pub x: u32,
    pub input: &'a [u8],
    /// The next byte to read; stays at the input's end once it is there.
    pub pos: usize,
    /// How many bytes were read, counting the zeros past the input's end.
    pub read: Ghost<int>,
}

/// The bit that a code stands for.
pub open spec fn bit_of_code(r: Interval, p: int, code: int) -> bool {
    code <= split_at(r, p)
}

impl<'a> Decoder<'a> {
    pub open spec fn range(&self) -> Interval {
        Interval { lo: self.x1 as int, hi: self.x2 as int }
    }

    /// How many bytes lie before the code that is held.
    pub open spec fn at(&self) -> int {
        self.read@ - 4
    }

    pub open spec fn reading(&self) -> bool {
        &&& 0 <= self.read@
        &&& self.pos <= self.input@.len()
        &&& self.pos == self.read@ || (self.pos == self.input@.len() && self.read@ > self.pos)
    }

    pub open spec fn wf(&self) -> bool {
        &&& is_open(self.range())
        &&& self.reading()
        &&& self.at() >= 0
        &&& self.x == code_at(self.input@, self.at())
    }

    pub fn new(input: &'a [u8]) -> (d: Self)
        ensures
            d.wf(),
            d.input@ == input@,
            d.range() == (Interval { lo: 0, hi: 0xffff_ffff }),
            d.at() == 0,
    {
        let mut d = Decoder { x1: 0, x2: 0xffff_ffff, x: 0, input, pos: 0, read: Ghost(0) };
        let b0: u8 = d.next_byte();
        let b1: u8 = d.next_byte();
        let b2: u8 = d.next_byte();
        let b3: u8 = d.next_byte();
        proof {
            lemma_or_byte(0, b0);
            lemma_or_byte(b0 as u32, b1);
            lemma_or_byte((b0 * 256 + b1) as u32, b2);
            lemma_or_byte(((b0 * 256 + b1) * 256 + b2) as u32, b3);
        }
        let x: u32 = (0u32 << 8) | b0 as u32;
        let x: u32 = (x << 8) | b1 as u32;
        let x: u32 = (x << 8) | b2 as u32;
        d.x = (x << 8) | b3 as u32;
        d
    }

    /// The next byte of the input; zero past its end.
    pub fn next_byte(&mut self) -> (b: u8)
        requires
            old(self).reading(),
        ensures
            b == byte_or_zero(old(self).input@, old(self).read@),
            final(self).reading(),
            final(self).read@ == old(self).read@ + 1,
            final(self).range() == old(self).range(),
            final(self).x == old(self).x,
            final(self).input@ == old(self).input@,
    {
        let ghost n = self.read@;
        self.read = Ghost(n + 1);
        if self.pos < self.input.len() {
            let b: u8 = self.input[self.pos];
            self.pos += 1;
            b
        } else {
            0
        }
    }

    /// Reads the bit that the held code stands for, and follows the encoder's
    /// step for that bit.
    pub fn decode(&mut self, p12: i32) -> (bit: i32)
        requires
            old(self).wf(),
            0 <= p12 < 4096,
        ensures
            bit == 0 || bit == 1,
            (bit == 1) == bit_of_code(old(self).range(), p12 as int, old(self).x as int),
            final(self).wf(),
            final(self).input@ == old(self).input@,
            final(self).range() == normal(part(old(self).range(), bit == 1, p12 as int)),
            final(self).at() == old(self).at() + common(
                part(old(self).range(), bit == 1, p12 as int),
            ).len(),
    {
        let xmid: u32 = midpoint(self.x1, self.x2, p12);
        let bit: i32 = if self.x <= xmid {
            1
        } else {
            0
        };
        let ghost r0 = part(self.range(), bit == 1, p12 as int);
        let ghost at0 = self.at();
        let ghost input0 = self.input@;
        proof {
            lemma_part(self.range(), bit == 1, p12 as int);
        }
        if bit == 1 {
            self.x2 = xmid;
        } else {
            self.x1 = xmid + 1;
        }
        while (self.x1 ^ self.x2) & 0xff00_0000 == 0
            invariant
                self.input@ == input0,
                is_interval(self.range()),
                normal(self.range()) == normal(r0),
                self.reading(),
                self.at() >= 0,
                self.x == code_at(self.input@, self.at()),
                self.at() + common(self.range()).len() == at0 + common(r0).len(),
            decreases 0x1_0000_0000 - (self.x2 - self.x1),
        {
            let ghost r = self.range();
            proof {
                lemma_bits(self.x1, self.x2);
                lemma_shifted(r);
                lemma_code_step(self.input@, self.at());
            }
            self.x1 = self.x1 << 8;
            self.x2 = (self.x2 << 8) | 0xff;
            assert(self.range() == shifted(r));
            assert(common(r).len() == 1 + common(shifted(r)).len());
            let x: u32 = self.x;
            let b: u8 = self.next_byte();
            proof {
                lemma_or_byte(x, b);
            }
            self.x = (x << 8) | b as u32;
        }
        proof {
            lemma_bits(self.x1, self.x2);
        }
        bit
    }
}

} // verus!
