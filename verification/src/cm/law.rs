//! What holds of the coder under any predictions, and of the match model.

use crate::cm::codec::{after_bits, whole};
use crate::cm::coder::{
    bit_of_code, byte_or_zero, code_at, common, four_bytes, is_open, lemma_bit_code, lemma_four_bytes,
    lemma_part, normal, part, Interval,
};
use crate::cm::history::{partial_ok, HistoryState};
use crate::cm::matcher::MatchState;
use crate::cm::model::ModelState;
use vstd::prelude::*;

verus! {

/// What an encoder that starts with an interval writes for `bits`, each coded
/// under its own probability, once it is flushed.
pub open spec fn written(r: Interval, bits: Seq<bool>, probs: Seq<int>) -> Seq<u8>
    decreases bits.len(),
{
    if bits.len() == 0 {
        four_bytes(r.lo)
    } else {
        let q = part(r, bits[0], probs[0]);
        common(q) + written(normal(q), bits.skip(1), probs.skip(1))
    }
}

/// The bits that a decoder reads of `code` from `at` on, under these
/// probabilities.
pub open spec fn bits_read(r: Interval, code: Seq<u8>, at: int, probs: Seq<int>) -> Seq<bool>
    decreases probs.len(),
{
    if probs.len() == 0 {
        Seq::empty()
    } else {
        let one = bit_of_code(r, probs[0], code_at(code, at));
        let q = part(r, one, probs[0]);
        seq![one] + bits_read(normal(q), code, at + common(q).len(), probs.skip(1))
    }
}

/// Whether these are probabilities that a bit can be coded under.
pub open spec fn are_probs(probs: Seq<int>) -> bool {
    forall|i: int| 0 <= i < probs.len() ==> 0 <= #[trigger] probs[i] < 4096
}

proof fn lemma_written_code(r: Interval, bits: Seq<bool>, probs: Seq<int>)
    requires
        is_open(r),
        bits.len() == probs.len(),
        are_probs(probs),
    ensures
        written(r, bits, probs).len() >= 4,
        r.lo <= code_at(written(r, bits, probs), 0) <= r.hi,
        bits.len() > 0 ==> bit_of_code(r, probs[0], code_at(written(r, bits, probs), 0)) == bits[0],
    decreases bits.len(),
{
    if bits.len() == 0 {
        lemma_four_bytes(r.lo);
    } else {
        let q = part(r, bits[0], probs[0]);
        lemma_part(r, bits[0], probs[0]);
        let rest = written(normal(q), bits.skip(1), probs.skip(1));
        lemma_written_code(normal(q), bits.skip(1), probs.skip(1));
        lemma_bit_code(r, bits[0], probs[0], rest);
    }
}

proof fn lemma_bits_read(r: Interval, bits: Seq<bool>, probs: Seq<int>, before: Seq<u8>)
    requires
        is_open(r),
        bits.len() == probs.len(),
        are_probs(probs),
    ensures
        bits_read(r, before + written(r, bits, probs), before.len() as int, probs) == bits,
    decreases bits.len(),
{
    if bits.len() == 0 {
        assert(bits =~= Seq::<bool>::empty());
    } else {
        let e = written(r, bits, probs);
        let code = before + e;
        let n = before.len() as int;
        lemma_written_code(r, bits, probs);
        assert(byte_or_zero(code, n) == byte_or_zero(e, 0));
        assert(byte_or_zero(code, n + 1) == byte_or_zero(e, 1));
        assert(byte_or_zero(code, n + 2) == byte_or_zero(e, 2));
        assert(byte_or_zero(code, n + 3) == byte_or_zero(e, 3));
        lemma_part(r, bits[0], probs[0]);
        let q = part(r, bits[0], probs[0]);
        let rest = written(normal(q), bits.skip(1), probs.skip(1));
        assert((before + common(q)) + rest =~= code);
        lemma_bits_read(normal(q), bits.skip(1), probs.skip(1), before + common(q));
        assert(seq![bits[0]] + bits.skip(1) =~= bits);
    }
}

/// A decoder reads the bits that an encoder wrote, where both go by the same
/// probabilities, whatever those are.
pub proof fn lemma_coder_roundtrip(bits: Seq<bool>, probs: Seq<int>)
    requires
        bits.len() == probs.len(),
        are_probs(probs),
    ensures
        bits_read(whole(), written(whole(), bits, probs), 0, probs) == bits,
{
    lemma_bits_read(whole(), bits, probs, Seq::empty());
    assert(Seq::<u8>::empty() + written(whole(), bits, probs) =~= written(whole(), bits, probs));
}

/// What `c0` holds once the first `bitpos` bits of `b` were seen.
pub open spec fn begun(b: u8, bitpos: u32) -> int {
    if bitpos == 0 {
        1
    } else if bitpos == 1 {
        2 + b as int / 128
    } else if bitpos == 2 {
        4 + b as int / 64
    } else if bitpos == 3 {
        8 + b as int / 32
    } else if bitpos == 4 {
        16 + b as int / 16
    } else if bitpos == 5 {
        32 + b as int / 8
    } else if bitpos == 6 {
        64 + b as int / 4
    } else {
        128 + b as int / 2
    }
}

/// Whether a match that is active is a true repeat: the last bytes, as many as
/// its length, stand before its position too, and the byte there starts with the
/// bits seen so far.
pub open spec fn is_repeat(m: MatchState, h: HistoryState) -> bool {
    m.len > 0 ==> {
        let n = h.buf.len() as int;
        &&& 8 <= m.len <= m.pos < n
        &&& h.buf.subrange(m.pos - m.len, m.pos) == h.buf.subrange(n - m.len, n)
        &&& h.c0 == begun(h.buf[m.pos], h.bitpos)
    }
}

proof fn lemma_next_bit(b: u32, k: u32)
    requires
        b < 256,
        k < 8,
    ensures
        (b >> k) & 1 <= 1,
        k == 0 ==> (b >> k) & 1 == b % 2,
        k == 1 ==> (b >> k) & 1 == (b / 2) % 2,
        k == 2 ==> (b >> k) & 1 == (b / 4) % 2,
        k == 3 ==> (b >> k) & 1 == (b / 8) % 2,
        k == 4 ==> (b >> k) & 1 == (b / 16) % 2,
        k == 5 ==> (b >> k) & 1 == (b / 32) % 2,
        k == 6 ==> (b >> k) & 1 == (b / 64) % 2,
        k == 7 ==> (b >> k) & 1 == (b / 128) % 2,
{
    assert((b >> k) & 1 <= 1 && (k == 0 ==> (b >> k) & 1 == b % 2) && (k == 1 ==> (b >> k) & 1 == (b
        / 2) % 2) && (k == 2 ==> (b >> k) & 1 == (b / 4) % 2) && (k == 3 ==> (b >> k) & 1 == (b / 8)
        % 2) && (k == 4 ==> (b >> k) & 1 == (b / 16) % 2) && (k == 5 ==> (b >> k) & 1 == (b / 32)
        % 2) && (k == 6 ==> (b >> k) & 1 == (b / 64) % 2) && (k == 7 ==> (b >> k) & 1 == (b / 128)
        % 2)) by (bit_vector)
        requires
            b < 256,
            k < 8,
    ;
}

/// A match goes on only while the bits are those of the byte it stands at.
proof fn lemma_bit_kept(m: MatchState, h: HistoryState, one: bool)
    requires
        h.wf(),
        is_repeat(m, h),
        m.after_read(h).updated(one).len > 0,
    ensures
        m.len > 0,
        m.after_read(h).updated(one).len == m.len,
        m.after_read(h).updated(one).pos == m.pos,
        h.bitpos < 7 ==> h.c0_after(one) == begun(h.buf[m.pos], (h.bitpos + 1) as u32),
        h.bitpos == 7 ==> h.c0_after(one) - 256 == h.buf[m.pos],
{
    let b = h.buf[m.pos];
    lemma_next_bit(b as u32, (7 - h.bitpos) as u32);
    assert(m.expects(h));
    assert(one == (m.expected_bit(h) == 1));
}

/// A match that is followed by a byte more is a repeat of one byte more.
proof fn lemma_byte_kept(m: MatchState, h: HistoryState, b: u8)
    requires
        m.len > 0 ==> {
            let n = h.buf.len() as int;
            &&& 8 <= m.len <= m.pos < n
            &&& h.buf.subrange(m.pos - m.len, m.pos) == h.buf.subrange(n - m.len, n)
            &&& b == h.buf[m.pos]
        },
    ensures
        is_repeat(m.after_byte(h.with_byte(b)), h.with_byte(b)),
{
    let g = h.with_byte(b);
    let e = m.extended();
    let n = h.buf.len() as int;
    if e.len > 0 {
        assert(e.len == m.len + 1);
        let old_a = h.buf.subrange(m.pos - m.len, m.pos);
        let old_b = h.buf.subrange(n - m.len, n);
        let a = g.buf.subrange(e.pos - e.len, e.pos);
        let c = g.buf.subrange(n + 1 - e.len, n + 1);
        assert forall|i: int| 0 <= i < e.len implies a[i] == c[i] by {
            if i < m.len {
                assert(old_a[i] == old_b[i]);
            }
        }
        assert(a =~= c);
    }
}

proof fn lemma_step_repeat(m: ModelState, one: bool)
    requires
        m.hist.wf(),
        is_repeat(m.matcher, m.hist),
    ensures
        m.step(one).hist.wf(),
        is_repeat(m.step(one).matcher, m.step(one).hist),
{
    reveal(ModelState::step);
    let h = m.hist;
    let u = m.matcher.after_read(h).updated(one);
    if u.len > 0 {
        lemma_bit_kept(m.matcher, h, one);
    }
    if h.bitpos == 7 {
        lemma_byte_kept(u, h, (h.c0_after(one) - 256) as u8);
    }
}

proof fn lemma_bits_repeat(m: ModelState, bits: Seq<bool>)
    requires
        m.hist.wf(),
        is_repeat(m.matcher, m.hist),
    ensures
        is_repeat(after_bits(m, bits).matcher, after_bits(m, bits).hist),
    decreases bits.len(),
{
    if bits.len() > 0 {
        lemma_step_repeat(m, bits[0]);
        lemma_bits_repeat(m.step(bits[0]), bits.skip(1));
    }
}

/// Whatever bits a model has seen, an active match is a true repeat.
pub proof fn lemma_match_repeats(
    table_bits: u32,
    match_bits: u32,
    stride: nat,
    bpp: nat,
    bits: Seq<bool>,
)
    ensures
        ({
            let m = after_bits(ModelState::init(table_bits, match_bits, stride, bpp), bits);
            is_repeat(m.matcher, m.hist)
        }),
{
    let m = ModelState::init(table_bits, match_bits, stride, bpp);
    assert(partial_ok(m.hist.c0, m.hist.bitpos));
    lemma_bits_repeat(m, bits);
}

} // verus!
