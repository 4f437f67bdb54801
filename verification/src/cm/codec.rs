//! Streams: the bits of the data, each coded under the model's prediction of
//! it, behind a header that names the model's sizes.

use crate::cm::coder::{
    bit_of_code, byte_or_zero, code_at, common, four_bytes, is_open, lemma_bit_code,
    lemma_four_bytes, lemma_part, normal, part, Decoder, Encoder, Interval,
};
use crate::cm::config::{bits_for, lemma_mem_cap, CmConfig};
use crate::cm::history::HistoryState;
use crate::cm::model::{Model, ModelState};
use crate::cm::stride::{detect_stride, stride_of};
use crate::cm::transform::{e8e9, e8e9_apply, is_x86, lemma_e8e9_inverse, looks_like_x86};
use crate::error::{same_bytes, Error};
use crate::util::reader::{byte_at, Reader};
use crate::util::varint::{
    lemma_varint_end, lemma_varint_read, varint_at, varint_bytes, write_varint,
};
use vstd::prelude::*;

verus! {

pub const VERSION: u8 = 3;

/// The flag of a stream whose x86 branch targets were made absolute.
pub const FLAG_E8E9: u8 = 1;

/// The weight of the `j`-th bit of a byte, from the highest.
pub open spec fn weight(j: int) -> int {
    if j == 0 {
        128
    } else if j == 1 {
        64
    } else if j == 2 {
        32
    } else if j == 3 {
        16
    } else if j == 4 {
        8
    } else if j == 5 {
        4
    } else if j == 6 {
        2
    } else {
        1
    }
}

pub open spec fn bit_of(b: u8, j: int) -> bool {
    (b as int / weight(j)) % 2 == 1
}

/// The bits of the data, the highest of each byte first.
pub open spec fn bits_of(s: Seq<u8>) -> Seq<bool> {
    Seq::new(8 * s.len(), |i: int| bit_of(s[i / 8], i % 8))
}

pub open spec fn whole() -> Interval {
    Interval { lo: 0, hi: 0xffff_ffff }
}

/// The code of `bits`, from a state of the model and an interval.
pub open spec fn encoded(m: ModelState, r: Interval, bits: Seq<bool>) -> Seq<u8>
    decreases bits.len(),
{
    if bits.len() == 0 {
        four_bytes(r.lo)
    } else {
        let q = part(r, bits[0], m.prob());
        common(q) + encoded(m.step(bits[0]), normal(q), bits.skip(1))
    }
}

/// The model after it has seen `bits`.
pub open spec fn after_bits(m: ModelState, bits: Seq<bool>) -> ModelState
    decreases bits.len(),
{
    if bits.len() == 0 {
        m
    } else {
        after_bits(m.step(bits[0]), bits.skip(1))
    }
}

/// The model after it has decoded `n` bits of `code` from `at` on.
pub open spec fn decoded(m: ModelState, r: Interval, code: Seq<u8>, at: int, n: int) -> ModelState
    decreases n,
{
    if n <= 0 {
        m
    } else {
        let one = bit_of_code(r, m.prob(), code_at(code, at));
        let q = part(r, one, m.prob());
        decoded(m.step(one), normal(q), code, at + common(q).len(), n - 1)
    }
}

proof fn lemma_prob(m: ModelState)
    ensures
        1 <= m.prob() <= 4095,
{
}

proof fn lemma_code_shift(a: Seq<u8>, b: Seq<u8>)
    ensures
        code_at(a + b, a.len() as int) == code_at(b, 0),
{
    let s = a + b;
    let n = a.len() as int;
    assert(byte_or_zero(s, n) == byte_or_zero(b, 0));
    assert(byte_or_zero(s, n + 1) == byte_or_zero(b, 1));
    assert(byte_or_zero(s, n + 2) == byte_or_zero(b, 2));
    assert(byte_or_zero(s, n + 3) == byte_or_zero(b, 3));
}

/// The first code of what is encoded lies in the interval.
proof fn lemma_encoded_code(m: ModelState, r: Interval, bits: Seq<bool>)
    requires
        is_open(r),
    ensures
        encoded(m, r, bits).len() >= 4,
        r.lo <= code_at(encoded(m, r, bits), 0) <= r.hi,
        bits.len() > 0 ==> bit_of_code(r, m.prob(), code_at(encoded(m, r, bits), 0)) == bits[0],
    decreases bits.len(),
{
    if bits.len() == 0 {
        lemma_four_bytes(r.lo);
    } else {
        lemma_prob(m);
        let q = part(r, bits[0], m.prob());
        lemma_part(r, bits[0], m.prob());
        let rest = encoded(m.step(bits[0]), normal(q), bits.skip(1));
        lemma_encoded_code(m.step(bits[0]), normal(q), bits.skip(1));
        lemma_bit_code(r, bits[0], m.prob(), rest);
    }
}

/// Decoding follows what was encoded, bit by bit.
proof fn lemma_decoded(m: ModelState, r: Interval, bits: Seq<bool>, before: Seq<u8>)
    requires
        is_open(r),
    ensures
        decoded(m, r, before + encoded(m, r, bits), before.len() as int, bits.len() as int)
            == after_bits(m, bits),
    decreases bits.len(),
{
    if bits.len() > 0 {
        let e = encoded(m, r, bits);
        let code = before + e;
        lemma_prob(m);
        lemma_encoded_code(m, r, bits);
        lemma_code_shift(before, e);
        lemma_part(r, bits[0], m.prob());
        let q = part(r, bits[0], m.prob());
        let one = bit_of_code(r, m.prob(), code_at(code, before.len() as int));
        assert(one == bits[0]);
        let rest = encoded(m.step(one), normal(q), bits.skip(1));
        assert((before + common(q)) + rest =~= code);
        lemma_decoded(m.step(one), normal(q), bits.skip(1), before + common(q));
    }
}

proof fn lemma_step_hist(m: ModelState, one: bool)
    ensures
        m.step(one).hist == m.hist.with_bit(one),
{
    reveal(ModelState::step);
}

/// The eight bits of a byte add it to the history.
proof fn lemma_byte_hist(h: HistoryState, b: u8)
    requires
        h.bitpos == 0,
        h.c0 == 1,
    ensures
        h.with_bit(bit_of(b, 0)).with_bit(bit_of(b, 1)).with_bit(bit_of(b, 2)).with_bit(
            bit_of(b, 3),
        ).with_bit(bit_of(b, 4)).with_bit(bit_of(b, 5)).with_bit(bit_of(b, 6)).with_bit(
            bit_of(b, 7),
        ) == h.with_byte(b),
{
    let h1 = h.with_bit(bit_of(b, 0));
    assert(h1.c0 == 2 + b as int / 128 && h1.bitpos == 1);
    let h2 = h1.with_bit(bit_of(b, 1));
    assert(h2.c0 == 4 + b as int / 64 && h2.bitpos == 2);
    let h3 = h2.with_bit(bit_of(b, 2));
    assert(h3.c0 == 8 + b as int / 32 && h3.bitpos == 3);
    let h4 = h3.with_bit(bit_of(b, 3));
    assert(h4.c0 == 16 + b as int / 16 && h4.bitpos == 4);
    let h5 = h4.with_bit(bit_of(b, 4));
    assert(h5.c0 == 32 + b as int / 8 && h5.bitpos == 5);
    let h6 = h5.with_bit(bit_of(b, 5));
    assert(h6.c0 == 64 + b as int / 4 && h6.bitpos == 6);
    let h7 = h6.with_bit(bit_of(b, 6));
    assert(h7.c0 == 128 + b as int / 2 && h7.bitpos == 7);
    assert(h7.c0_after(bit_of(b, 7)) == 256 + b);
}

/// One bit more is seen.
proof fn lemma_one_bit(m: ModelState, bits: Seq<bool>, k: int)
    requires
        0 <= k < bits.len(),
    ensures
        after_bits(m, bits.skip(k)) == after_bits(m.step(bits[k]), bits.skip(k + 1)),
{
    assert(bits.skip(k)[0] == bits[k]);
    assert(bits.skip(k).skip(1) =~= bits.skip(k + 1));
}

/// The model after the eight bits of a byte.
pub open spec fn after_byte(m: ModelState, b: u8) -> ModelState {
    m.step(bit_of(b, 0)).step(bit_of(b, 1)).step(bit_of(b, 2)).step(bit_of(b, 3)).step(
        bit_of(b, 4),
    ).step(bit_of(b, 5)).step(bit_of(b, 6)).step(bit_of(b, 7))
}

pub proof fn lemma_after_byte_hist(m: ModelState, b: u8)
    requires
        m.hist.bitpos == 0,
        m.hist.c0 == 1,
    ensures
        after_byte(m, b).hist == m.hist.with_byte(b),
{
    let m1 = m.step(bit_of(b, 0));
    let m2 = m1.step(bit_of(b, 1));
    let m3 = m2.step(bit_of(b, 2));
    let m4 = m3.step(bit_of(b, 3));
    let m5 = m4.step(bit_of(b, 4));
    let m6 = m5.step(bit_of(b, 5));
    let m7 = m6.step(bit_of(b, 6));
    lemma_step_hist(m, bit_of(b, 0));
    lemma_step_hist(m1, bit_of(b, 1));
    lemma_step_hist(m2, bit_of(b, 2));
    lemma_step_hist(m3, bit_of(b, 3));
    lemma_step_hist(m4, bit_of(b, 4));
    lemma_step_hist(m5, bit_of(b, 5));
    lemma_step_hist(m6, bit_of(b, 6));
    lemma_step_hist(m7, bit_of(b, 7));
    lemma_byte_hist(m.hist, b);
}

/// One byte more is seen.
pub proof fn lemma_one_byte(m: ModelState, bits: Seq<bool>, k: int, b: u8)
    requires
        0 <= k,
        k + 8 <= bits.len(),
        forall|j: int| 0 <= j < 8 ==> bits[k + j] == #[trigger] bit_of(b, j),
    ensures
        after_bits(m, bits.skip(k)) == after_bits(after_byte(m, b), bits.skip(k + 8)),
{
    let m1 = m.step(bit_of(b, 0));
    let m2 = m1.step(bit_of(b, 1));
    let m3 = m2.step(bit_of(b, 2));
    let m4 = m3.step(bit_of(b, 3));
    let m5 = m4.step(bit_of(b, 4));
    let m6 = m5.step(bit_of(b, 5));
    let m7 = m6.step(bit_of(b, 6));
    lemma_one_bit(m, bits, k);
    lemma_one_bit(m1, bits, k + 1);
    lemma_one_bit(m2, bits, k + 2);
    lemma_one_bit(m3, bits, k + 3);
    lemma_one_bit(m4, bits, k + 4);
    lemma_one_bit(m5, bits, k + 5);
    lemma_one_bit(m6, bits, k + 6);
    lemma_one_bit(m7, bits, k + 7);
}

/// The model's history holds the bytes whose bits it has seen.
proof fn lemma_bytes_seen(m: ModelState, s: Seq<u8>, i: int)
    requires
        0 <= i <= s.len(),
        m.hist.bitpos == 0,
        m.hist.c0 == 1,
        m.hist.buf == s.take(i),
    ensures
        after_bits(m, bits_of(s).skip(8 * i)).hist.buf == s,
    decreases s.len() - i,
{
    let bits = bits_of(s);
    if i == s.len() {
        assert(s.take(i) =~= s);
        assert(bits.skip(8 * i).len() == 0);
    } else {
        let b = s[i];
        assert forall|j: int| 0 <= j < 8 implies bits[8 * i + j] == #[trigger] bit_of(b, j) by {}
        lemma_one_byte(m, bits, 8 * i, b);
        lemma_after_byte_hist(m, b);
        assert(s.take(i).push(b) =~= s.take(i + 1));
        lemma_bytes_seen(after_byte(m, b), s, i + 1);
    }
}

/// The most bytes that a stream can hold.
pub open spec fn max_stream() -> int {
    0xffff_ffff - 17
}

/// What a stream's header says.
pub struct Header {
    pub table_bits: u8,
    pub match_bits: u8,
    pub flags: u8,
    pub stride: u32,
    pub bpp: u32,
    pub len: u64,
}

pub open spec fn header_bytes(h: Header) -> Seq<u8> {
    seq![VERSION, h.table_bits, h.match_bits, h.flags] + varint_bytes(h.stride as nat)
        + varint_bytes(h.bpp as nat) + varint_bytes(h.len as nat)
}

pub open spec fn header_model(h: Header) -> ModelState {
    ModelState::init(h.table_bits as u32, h.match_bits as u32, h.stride as nat, h.bpp as nat)
}

/// Whether the branch targets of the data are made absolute first: a given
/// stride says that the data is no code.
pub open spec fn is_branchy(data: Seq<u8>, stride_hint: u32) -> bool {
    stride_hint == 0 && is_x86(data)
}

/// What is coded: the data, with absolute branch targets where it has any.
pub open spec fn coded_input(data: Seq<u8>, stride_hint: u32) -> Seq<u8> {
    if is_branchy(data, stride_hint) {
        e8e9(data, true)
    } else {
        data
    }
}

pub open spec fn header_of(data: Seq<u8>, stride_hint: u32, bpp: u32, cap: u64) -> Header {
    let bits = bits_for(data.len(), cap as nat);
    Header {
        table_bits: bits.0 as u8,
        match_bits: bits.1 as u8,
        flags: if is_branchy(data, stride_hint) {
            FLAG_E8E9
        } else {
            0
        },
        stride: if stride_hint > 0 {
            stride_hint
        } else {
            stride_of(coded_input(data, stride_hint)) as u32
        },
        bpp: if stride_hint > 0 {
            bpp
        } else {
            0
        },
        len: data.len() as u64,
    }
}

/// The stream of the data; that of no data is a header alone.
pub open spec fn stream_of(data: Seq<u8>, stride_hint: u32, bpp: u32, cap: u64) -> Seq<u8> {
    let h = header_of(data, stride_hint, bpp, cap);
    header_bytes(h) + if data.len() == 0 {
        Seq::<u8>::empty()
    } else {
        encoded(header_model(h), whole(), bits_of(coded_input(data, stride_hint)))
    }
}

/// What compressing gives: the stream, unless the data is too long for one.
pub open spec fn compressed(data: Seq<u8>, stride_hint: u32, bpp: u32, cap: u64) -> Result<
    Seq<u8>,
    Error,
> {
    if data.len() > max_stream() {
        Err(Error::StreamTooLong)
    } else {
        Ok(stream_of(data, stride_hint, bpp, cap))
    }
}

/// The header of a stream and the position after it, for a reader that expects
/// `raw_len` bytes.
pub open spec fn header_at(s: Seq<u8>, raw_len: u64) -> Result<(Header, int), Error> {
    match byte_at(s, 0) {
        Err(e) => Err(e),
        Ok((v, p0)) => if v != VERSION {
            Err(Error::VersionMismatch(v))
        } else {
            match byte_at(s, p0) {
                Err(e) => Err(e),
                Ok((t, p1)) => match byte_at(s, p1) {
                    Err(e) => Err(e),
                    Ok((m, p2)) => match byte_at(s, p2) {
                        Err(e) => Err(e),
                        Ok((f, p3)) => match varint_at(s, p3) {
                            Err(e) => Err(e),
                            Ok((st, p4)) => match varint_at(s, p4) {
                                Err(e) => Err(e),
                                Ok((bp, p5)) => if !(16 <= t <= 30) {
                                    Err(Error::BadTableBits)
                                } else if !(16 <= m <= 30) {
                                    Err(Error::BadMatchBits)
                                } else if st as u32 > 0x10_0000 || bp as u32 > 16 {
                                    Err(Error::BadStride)
                                } else {
                                    match varint_at(s, p5) {
                                        Err(e) => Err(e),
                                        Ok((len, p6)) => if len != raw_len {
                                            Err(
                                                Error::StreamLengthMismatch {
                                                    stored: len,
                                                    expected: raw_len,
                                                },
                                            )
                                        } else {
                                            Ok(
                                                (
                                                    Header {
                                                        table_bits: t,
                                                        match_bits: m,
                                                        flags: f,
                                                        stride: st as u32,
                                                        bpp: bp as u32,
                                                        len,
                                                    },
                                                    p6,
                                                ),
                                            )
                                        },
                                    }
                                },
                            },
                        },
                    },
                },
            }
        },
    }
}

/// The bytes that a stream stands for.
pub open spec fn plain_of(s: Seq<u8>, raw_len: u64) -> Result<Seq<u8>, Error> {
    match header_at(s, raw_len) {
        Err(e) => Err(e),
        Ok((h, p)) => if raw_len == 0 {
            Ok(Seq::empty())
        } else {
            let m = decoded(header_model(h), whole(), s.skip(p), 0, 8 * raw_len);
            Ok(
                if h.flags % 2 == 1 {
                    e8e9(m.hist.buf, false)
                } else {
                    m.hist.buf
                },
            )
        },
    }
}

/// A header reads back as it was written.
pub proof fn lemma_header(h: Header, tail: Seq<u8>)
    requires
        16 <= h.table_bits <= 30,
        16 <= h.match_bits <= 30,
        h.stride <= 0x10_0000,
        h.bpp <= 16,
    ensures
        header_at(header_bytes(h) + tail, h.len) == Ok::<(Header, int), Error>(
            (h, header_bytes(h).len() as int),
        ),
{
    let s = header_bytes(h) + tail;
    let a = varint_bytes(h.stride as nat);
    let b = varint_bytes(h.bpp as nat);
    let c = varint_bytes(h.len as nat);
    assert(s[0] == VERSION && s[1] == h.table_bits && s[2] == h.match_bits && s[3] == h.flags);
    let p5: int = 4 + a.len() as int;
    let p6: int = p5 + b.len();
    assert(s.subrange(4, p5) =~= a);
    assert(s.subrange(p5, p6) =~= b);
    assert(s.subrange(p6, p6 + c.len()) =~= c);
    lemma_varint_read(s, 4, h.stride as u64);
    lemma_varint_read(s, p5, h.bpp as u64);
    lemma_varint_read(s, p6, h.len);
}

/// A stream gives back the data it was made of. A stride or a pixel size that
/// is given has to be one that a reader takes.
pub proof fn lemma_stream_roundtrip(data: Seq<u8>, stride_hint: u32, bpp: u32, cap: u64)
    requires
        data.len() <= max_stream(),
        stride_hint > 0 ==> stride_hint <= 0x10_0000 && bpp <= 16,
    ensures
        plain_of(stream_of(data, stride_hint, bpp, cap), data.len() as u64) == Ok::<
            Seq<u8>,
            Error,
        >(data),
{
    let h = header_of(data, stride_hint, bpp, cap);
    let input = coded_input(data, stride_hint);
    lemma_mem_cap(data.len(), cap as nat);
    lemma_e8e9_inverse(data);
    crate::cm::stride::lemma_stride_range(input);
    let s = stream_of(data, stride_hint, bpp, cap);
    if data.len() == 0 {
        lemma_header(h, Seq::empty());
        assert(data =~= Seq::<u8>::empty());
    } else {
        let m = header_model(h);
        let code = encoded(m, whole(), bits_of(input));
        lemma_header(h, code);
        assert(s.skip(header_bytes(h).len() as int) =~= code);
        lemma_decoded(m, whole(), bits_of(input), Seq::empty());
        assert(Seq::<u8>::empty() + code =~= code);
        assert(input.take(0) =~= Seq::<u8>::empty());
        lemma_bytes_seen(m, input, 0);
        assert(bits_of(input).skip(0) =~= bits_of(input));
    }
}

fn bit_in(b: u8, j: usize) -> (bit: i32)
    requires
        j < 8,
    ensures
        (bit == 1) == bit_of(b, j as int),
        bit == 0 || bit == 1,
{
    let w: u8 = if j == 0 {
        128
    } else if j == 1 {
        64
    } else if j == 2 {
        32
    } else if j == 3 {
        16
    } else if j == 4 {
        8
    } else if j == 5 {
        4
    } else if j == 6 {
        2
    } else {
        1
    };
    (b / w % 2) as i32
}

/// How many bytes are coded between two ticks.
const TICK: usize = 4096;

/// Codes the bits of `input`, which is not empty.
fn encode_all<F: Fn(u64)>(cfg: &CmConfig, input: &[u8], tick: &F) -> (code: Vec<u8>)
    requires
        forall|n: u64| call_requires(tick, (n,)),
        16 <= cfg.table_bits <= 30,
        16 <= cfg.match_bits <= 30,
    ensures
        code@ == encoded(
            ModelState::init(cfg.table_bits, cfg.match_bits, cfg.stride as nat, cfg.bpp as nat),
            whole(),
            bits_of(input@),
        ),
{
    let mut model = Model::new(cfg);
    let mut enc = Encoder::new();
    let ghost bits = bits_of(input@);
    let ghost goal = encoded(model@, whole(), bits);
    let mut i: usize = 0;
    assert(bits.skip(0) =~= bits);
    assert(enc.out@ + goal =~= goal);
    while i < input.len()
        invariant
            i <= input@.len(),
            forall|n: u64| call_requires(tick, (n,)),
            model.wf(),
            is_open(enc.range()),
            bits == bits_of(input@),
            enc.out@ + encoded(model@, enc.range(), bits.skip(8 * i)) == goal,
        decreases input.len() - i,
    {
        let b: u8 = input[i];
        let mut j: usize = 0;
        while j < 8
            invariant
                j <= 8,
                i < input@.len(),
                b == input@[i as int],
                model.wf(),
                is_open(enc.range()),
                bits == bits_of(input@),
                enc.out@ + encoded(model@, enc.range(), bits.skip(8 * i + j)) == goal,
            decreases 8 - j,
        {
            let ghost m0 = model@;
            let ghost r0 = enc.range();
            let ghost out0 = enc.out@;
            let ghost k = 8 * i + j;
            let bit: i32 = bit_in(b, j);
            let p: i32 = model.predict();
            enc.encode(bit, p);
            model.update(bit);
            proof {
                assert(bits[k] == (bit == 1)) by {
                    assert(k / 8 == i && k % 8 == j);
                }
                assert(bits.skip(k)[0] == bits[k]);
                assert(bits.skip(k).skip(1) =~= bits.skip(k + 1));
                reveal(ModelState::step);
                assert(model@ == m0.step(bit == 1));
                let q = part(r0, bit == 1, m0.prob());
                assert(encoded(m0, r0, bits.skip(k)) == common(q) + encoded(
                    model@,
                    enc.range(),
                    bits.skip(k + 1),
                ));
                assert(out0 + (common(q) + encoded(model@, enc.range(), bits.skip(k + 1))) =~= (out0
                    + common(q)) + encoded(model@, enc.range(), bits.skip(k + 1)));
            }
            j += 1;
        }
        i += 1;
        if i % TICK == 0 {
            tick(TICK as u64);
        }
    }
    tick((i % TICK) as u64);
    proof {
        assert(bits.skip(8 * i as int).len() == 0);
    }
    enc.flush()
}

/// Decodes `n` bytes of a code, into the bytes that the model has seen.
fn decode_all<F: Fn(u64)>(cfg: &CmConfig, code: &[u8], n: usize, tick: &F) -> (out: Vec<u8>)
    requires
        forall|n: u64| call_requires(tick, (n,)),
        16 <= cfg.table_bits <= 30,
        16 <= cfg.match_bits <= 30,
    ensures
        out@ == decoded(
            ModelState::init(cfg.table_bits, cfg.match_bits, cfg.stride as nat, cfg.bpp as nat),
            whole(),
            code@,
            0,
            8 * n,
        ).hist.buf,
{
    let mut model = Model::new(cfg);
    let mut dec = Decoder::new(code);
    let ghost goal = decoded(model@, whole(), code@, 0, 8 * n);
    let mut i: usize = 0;
    while i < n
        invariant
            i <= n,
            forall|n: u64| call_requires(tick, (n,)),
            model.wf(),
            dec.wf(),
            dec.input@ == code@,
            decoded(model@, dec.range(), code@, dec.at(), 8 * n - 8 * i) == goal,
        decreases n - i,
    {
        let mut j: usize = 0;
        while j < 8
            invariant
                j <= 8,
                i < n,
                model.wf(),
                dec.wf(),
                dec.input@ == code@,
                decoded(model@, dec.range(), code@, dec.at(), 8 * n - 8 * i - j) == goal,
            decreases 8 - j,
        {
            let ghost m0 = model@;
            let p: i32 = model.predict();
            let bit: i32 = dec.decode(p);
            model.update(bit);
            proof {
                reveal(ModelState::step);
                assert(model@ == m0.step(bit == 1));
            }
            j += 1;
        }
        i += 1;
        if i % TICK == 0 {
            tick(TICK as u64);
        }
    }
    tick((i % TICK) as u64);
    model.hist.buf
}

/// Compresses with a model sized for the data, detecting what it can use.
pub fn compress(data: &[u8]) -> (r: Result<Vec<u8>, Error>)
    ensures
        same_bytes(r, compressed(data@, 0, 0, u64::MAX)),
{
    compress_with_stride(data, 0, 0, u64::MAX)
}

/// Compresses with a known record or row length and pixel size, or detects
/// what it can use where `stride_hint` is 0. `mem_cap` bounds the memory of the
/// model; a reader needs as much.
pub fn compress_with_stride(data: &[u8], stride_hint: u32, bpp: u32, mem_cap: u64) -> (r: Result<
    Vec<u8>,
    Error,
>)
    ensures
        same_bytes(r, compressed(data@, stride_hint, bpp, mem_cap)),
{
    compress_ticking(data, stride_hint, bpp, mem_cap, &|_bytes: u64| {})
}

/// The same, and calls `tick` as it goes, with the bytes that were coded since.
pub fn compress_ticking<F: Fn(u64)>(
    data: &[u8],
    stride_hint: u32,
    bpp: u32,
    mem_cap: u64,
    tick: &F,
) -> (r: Result<Vec<u8>, Error>)
    requires
        forall|n: u64| call_requires(tick, (n,)),
    ensures
        same_bytes(r, compressed(data@, stride_hint, bpp, mem_cap)),
{
    if data.len() as u64 > 0xffff_ffff - 17 {
        return Err(Error::StreamTooLong);
    }
    let mut cfg = CmConfig::for_len_capped(data.len(), mem_cap);
    proof {
        lemma_mem_cap(data@.len(), mem_cap as nat);
    }
    let branchy: bool = stride_hint == 0 && looks_like_x86(data);
    let mut input: Vec<u8> = vstd::slice::slice_to_vec(data);
    if branchy {
        e8e9_apply(&mut input, true);
    }
    if stride_hint > 0 {
        cfg.stride = stride_hint;
        cfg.bpp = bpp;
    } else {
        cfg.stride = detect_stride(input.as_slice());
        cfg.bpp = 0;
    }
    let ghost h = header_of(data@, stride_hint, bpp, mem_cap);
    let mut out: Vec<u8> = Vec::new();
    out.push(VERSION);
    out.push(cfg.table_bits as u8);
    out.push(cfg.match_bits as u8);
    out.push(
        if branchy {
            FLAG_E8E9
        } else {
            0
        },
    );
    write_varint(&mut out, cfg.stride as u64);
    write_varint(&mut out, cfg.bpp as u64);
    write_varint(&mut out, data.len() as u64);
    assert(out@ =~= header_bytes(h));
    if data.len() == 0 {
        assert(out@ =~= stream_of(data@, stride_hint, bpp, mem_cap));
        return Ok(out);
    }
    let mut code: Vec<u8> = encode_all(&cfg, input.as_slice(), tick);
    out.append(&mut code);
    assert(out@ =~= stream_of(data@, stride_hint, bpp, mem_cap));
    Ok(out)
}

/// Reads a stream that is to hold `raw_len` bytes.
pub fn decompress(comp: &[u8], raw_len: usize) -> (r: Result<Vec<u8>, Error>)
    ensures
        same_bytes(r, plain_of(comp@, raw_len as u64)),
{
    decompress_ticking(comp, raw_len, &|_bytes: u64| {})
}

/// The same, and calls `tick` as it goes, with the bytes that were decoded since.
pub fn decompress_ticking<F: Fn(u64)>(comp: &[u8], raw_len: usize, tick: &F) -> (r: Result<
    Vec<u8>,
    Error,
>)
    requires
        forall|n: u64| call_requires(tick, (n,)),
    ensures
        same_bytes(r, plain_of(comp@, raw_len as u64)),
{
    let mut rd = Reader::new(comp);
    let ver: u8 = match rd.byte() {
        Ok(b) => b,
        Err(e) => return Err(e),
    };
    if ver != VERSION {
        return Err(Error::VersionMismatch(ver));
    }
    let table_bits: u8 = match rd.byte() {
        Ok(b) => b,
        Err(e) => return Err(e),
    };
    let match_bits: u8 = match rd.byte() {
        Ok(b) => b,
        Err(e) => return Err(e),
    };
    let flags: u8 = match rd.byte() {
        Ok(b) => b,
        Err(e) => return Err(e),
    };
    let stride: u32 = match rd.varint() {
        Ok(v) => v as u32,
        Err(e) => return Err(e),
    };
    proof {
        lemma_varint_end(comp@, 4);
    }
    let ghost p5 = rd.pos as int;
    let bpp: u32 = match rd.varint() {
        Ok(v) => v as u32,
        Err(e) => return Err(e),
    };
    proof {
        lemma_varint_end(comp@, p5);
        lemma_varint_end(comp@, rd.pos as int);
    }
    if table_bits < 16 || table_bits > 30 {
        return Err(Error::BadTableBits);
    }
    if match_bits < 16 || match_bits > 30 {
        return Err(Error::BadMatchBits);
    }
    if stride > 0x10_0000 || bpp > 16 {
        return Err(Error::BadStride);
    }
    let len: u64 = match rd.varint() {
        Ok(v) => v,
        Err(e) => return Err(e),
    };
    if len != raw_len as u64 {
        return Err(Error::StreamLengthMismatch { stored: len, expected: raw_len as u64 });
    }
    if raw_len == 0 {
        return Ok(Vec::new());
    }
    let cfg = CmConfig {
        table_bits: table_bits as u32,
        match_bits: match_bits as u32,
        stride,
        bpp,
    };
    let code: &[u8] = vstd::slice::slice_subrange(comp, rd.pos, comp.len());
    assert(code@ =~= comp@.skip(rd.pos as int));
    let mut out: Vec<u8> = decode_all(&cfg, code, raw_len, tick);
    if flags % 2 == 1 {
        e8e9_apply(&mut out, false);
    }
    Ok(out)
}

} // verus!
