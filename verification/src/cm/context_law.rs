//! What the contexts of the model depend on, said of the bytes that were seen.

use crate::cm::codec::{
    after_bits, after_byte, bit_of, bits_of, lemma_after_byte_hist, lemma_one_byte,
};
use crate::cm::history::{
    back, gradient, has_records, order_salt, record_hashes, splitmix_of, word_after, HistoryState,
    GOLD,
};
use crate::cm::model::ModelState;
use vstd::arithmetic::div_mod::{lemma_mod_multiples_vanish, lemma_mul_mod_noop_left, lemma_small_mod};
use vstd::prelude::*;

verus! {

/// The history once these bytes were seen.
pub open spec fn seen(bytes: Seq<u8>, stride: nat, bpp: nat) -> HistoryState
    decreases bytes.len(),
{
    if bytes.len() == 0 {
        HistoryState::init(stride, bpp)
    } else {
        seen(bytes.drop_last(), stride, bpp).with_byte(bytes.last())
    }
}

proof fn lemma_seen_from(m: ModelState, bytes: Seq<u8>, i: int, stride: nat, bpp: nat)
    requires
        0 <= i <= bytes.len(),
        m.hist == seen(bytes.take(i), stride, bpp),
        m.hist.bitpos == 0,
        m.hist.c0 == 1,
    ensures
        after_bits(m, bits_of(bytes).skip(8 * i)).hist == seen(bytes, stride, bpp),
    decreases bytes.len() - i,
{
    let bits = bits_of(bytes);
    if i == bytes.len() {
        assert(bytes.take(i) =~= bytes);
        assert(bits.skip(8 * i).len() == 0);
    } else {
        let b = bytes[i];
        assert forall|j: int| 0 <= j < 8 implies bits[8 * i + j] == #[trigger] bit_of(b, j) by {}
        lemma_one_byte(m, bits, 8 * i, b);
        lemma_after_byte_hist(m, b);
        assert(bytes.take(i + 1).drop_last() =~= bytes.take(i));
        assert(bytes.take(i + 1).last() == b);
        lemma_seen_from(after_byte(m, b), bytes, i + 1, stride, bpp);
    }
}

/// A model whose bits were those of the bytes, the highest of each first, has
/// seen the bytes.
pub proof fn lemma_model_sees(table_bits: u32, match_bits: u32, stride: nat, bpp: nat, bytes: Seq<u8>)
    ensures
        after_bits(
            ModelState::init(table_bits, match_bits, stride, bpp),
            bits_of(bytes),
        ).hist == seen(bytes, stride, bpp),
{
    let m = ModelState::init(table_bits, match_bits, stride, bpp);
    assert(bytes.take(0) =~= Seq::<u8>::empty());
    lemma_seen_from(m, bytes, 0, stride, bpp);
    assert(bits_of(bytes).skip(0) =~= bits_of(bytes));
}

/// The byte `d` back from the end; zero before the start.
pub open spec fn byte_back(bytes: Seq<u8>, d: int) -> u8 {
    if 1 <= d <= bytes.len() {
        bytes[bytes.len() - d]
    } else {
        0
    }
}

/// Whether the last `k` bytes are the same.
pub open spec fn same_tail(a: Seq<u8>, b: Seq<u8>, k: int) -> bool {
    forall|d: int| 1 <= d <= k ==> #[trigger] byte_back(a, d) == byte_back(b, d)
}

pub proof fn lemma_mul_injective(x: u64, y: u64, c: u64, inv: u64, q: int)
    requires
        c * inv == q * 0x1_0000_0000_0000_0000 + 1,
        x.wrapping_mul(c) == y.wrapping_mul(c),
    ensures
        x == y,
{
    lemma_mul_back(x, c, inv, q);
    lemma_mul_back(y, c, inv, q);
}

proof fn lemma_mul_back(x: u64, c: u64, inv: u64, q: int)
    requires
        c * inv == q * 0x1_0000_0000_0000_0000 + 1,
    ensures
        (x.wrapping_mul(c) as int * inv as int) % 0x1_0000_0000_0000_0000 == x,
{
    let m: int = 0x1_0000_0000_0000_0000;
    let p = x as int * c as int;
    assert(x.wrapping_mul(c) as int == p % m);
    lemma_mul_mod_noop_left(p, inv as int, m);
    assert(p * inv as int == m * (x as int * q) + x as int) by (nonlinear_arith)
        requires
            p == x as int * c as int,
            c * inv == q * m + 1,
    ;
    lemma_mod_multiples_vanish(x as int * q, x as int, m);
    lemma_small_mod(x as nat, m as nat);
}

proof fn lemma_fold_injective(a: u64, b: u64)
    ensures
        a ^ (a >> 30) == b ^ (b >> 30) ==> a == b,
        a ^ (a >> 27) == b ^ (b >> 27) ==> a == b,
        a ^ (a >> 31) == b ^ (b >> 31) ==> a == b,
{
    assert((a ^ (a >> 30) == b ^ (b >> 30) ==> a == b) && (a ^ (a >> 27) == b ^ (b >> 27) ==> a == b)
        && (a ^ (a >> 31) == b ^ (b >> 31) ==> a == b)) by (bit_vector);
}

/// The hash of contexts loses nothing: no two values have one hash.
pub proof fn lemma_hash_injective(x: u64, y: u64)
    ensures
        (splitmix_of(x) == splitmix_of(y)) == (x == y),
{
    reveal(splitmix_of);
    let a = x.wrapping_add(GOLD);
    let b = y.wrapping_add(GOLD);
    let a2 = (a ^ (a >> 30)).wrapping_mul(0xBF58_476D_1CE4_E5B9);
    let b2 = (b ^ (b >> 30)).wrapping_mul(0xBF58_476D_1CE4_E5B9);
    let a3 = (a2 ^ (a2 >> 27)).wrapping_mul(0x94D0_49BB_1331_11EB);
    let b3 = (b2 ^ (b2 >> 27)).wrapping_mul(0x94D0_49BB_1331_11EB);
    if splitmix_of(x) == splitmix_of(y) {
        lemma_fold_injective(a3, b3);
        assert(a3 == b3);
        lemma_mul_injective(
            a2 ^ (a2 >> 27),
            b2 ^ (b2 >> 27),
            0x94D0_49BB_1331_11EB,
            0x3196_42B2_D24D_8EC3,
            0x1CD3_36ED_A85F_1453,
        );
        lemma_fold_injective(a2, b2);
        assert(a2 == b2);
        lemma_mul_injective(
            a ^ (a >> 30),
            b ^ (b >> 30),
            0xBF58_476D_1CE4_E5B9,
            0x96DE_1B17_3F11_9089,
            0x70C3_BCA7_8F27_F46C,
        );
        lemma_fold_injective(a, b);
        assert(a == b);
    }
}

/// The eight bytes of a window, the latest lowest.
spec fn is_window(w: u64, bytes: Seq<u8>) -> bool {
    &&& w & 0xff == byte_back(bytes, 1) as u64
    &&& (w >> 8) & 0xff == byte_back(bytes, 2) as u64
    &&& (w >> 16) & 0xff == byte_back(bytes, 3) as u64
    &&& (w >> 24) & 0xff == byte_back(bytes, 4) as u64
    &&& (w >> 32) & 0xff == byte_back(bytes, 5) as u64
    &&& (w >> 40) & 0xff == byte_back(bytes, 6) as u64
    &&& (w >> 48) & 0xff == byte_back(bytes, 7) as u64
    &&& (w >> 56) & 0xff == byte_back(bytes, 8) as u64
}

proof fn lemma_window(bytes: Seq<u8>, stride: nat, bpp: nat)
    ensures
        is_window(seen(bytes, stride, bpp).window, bytes),
        seen(bytes, stride, bpp).buf == bytes,
        seen(bytes, stride, bpp).stride == stride,
        seen(bytes, stride, bpp).bpp == bpp,
    decreases bytes.len(),
{
    if bytes.len() == 0 {
        assert(0u64 & 0xff == 0 && (0u64 >> 8) & 0xff == 0 && (0u64 >> 16) & 0xff == 0 && (0u64
            >> 24) & 0xff == 0 && (0u64 >> 32) & 0xff == 0 && (0u64 >> 40) & 0xff == 0 && (0u64
            >> 48) & 0xff == 0 && (0u64 >> 56) & 0xff == 0) by (bit_vector);
        assert(seen(bytes, stride, bpp).buf =~= bytes);
    } else {
        let a = bytes.drop_last();
        let b = bytes.last() as u64;
        lemma_window(a, stride, bpp);
        let w = seen(a, stride, bpp).window;
        let v = (w << 8) | b;
        assert(v & 0xff == b && (v >> 8) & 0xff == w & 0xff && (v >> 16) & 0xff == (w >> 8) & 0xff
            && (v >> 24) & 0xff == (w >> 16) & 0xff && (v >> 32) & 0xff == (w >> 24) & 0xff && (v
            >> 40) & 0xff == (w >> 32) & 0xff && (v >> 48) & 0xff == (w >> 40) & 0xff && (v >> 56)
            & 0xff == (w >> 48) & 0xff) by (bit_vector)
            requires
                v == (w << 8) | b,
                b < 256,
        ;
        assert(byte_back(bytes, 2) == byte_back(a, 1));
        assert(byte_back(bytes, 3) == byte_back(a, 2));
        assert(byte_back(bytes, 4) == byte_back(a, 3));
        assert(byte_back(bytes, 5) == byte_back(a, 4));
        assert(byte_back(bytes, 6) == byte_back(a, 5));
        assert(byte_back(bytes, 7) == byte_back(a, 6));
        assert(byte_back(bytes, 8) == byte_back(a, 7));
        assert(a.push(bytes.last()) =~= bytes);
    }
}

proof fn lemma_masks(w: u64, v: u64)
    ensures
        (w & 0xffff == v & 0xffff) == (w & 0xff == v & 0xff && (w >> 8) & 0xff == (v >> 8) & 0xff),
        (w & 0xff_ffff == v & 0xff_ffff) == (w & 0xffff == v & 0xffff && (w >> 16) & 0xff == (v
            >> 16) & 0xff),
        (w & 0xffff_ffff == v & 0xffff_ffff) == (w & 0xff_ffff == v & 0xff_ffff && (w >> 24) & 0xff
            == (v >> 24) & 0xff),
        (w & 0xff_ffff_ffff == v & 0xff_ffff_ffff) == (w & 0xffff_ffff == v & 0xffff_ffff && (w
            >> 32) & 0xff == (v >> 32) & 0xff),
        (w & 0xffff_ffff_ffff == v & 0xffff_ffff_ffff) == (w & 0xff_ffff_ffff == v & 0xff_ffff_ffff
            && (w >> 40) & 0xff == (v >> 40) & 0xff),
        (w == v) == (w & 0xffff_ffff_ffff == v & 0xffff_ffff_ffff && (w >> 48) & 0xff == (v >> 48)
            & 0xff && (w >> 56) & 0xff == (v >> 56) & 0xff),
        ((w >> 8) & 0xffff == (v >> 8) & 0xffff) == ((w >> 8) & 0xff == (v >> 8) & 0xff && (w >> 16)
            & 0xff == (v >> 16) & 0xff),
{
    assert(((w & 0xffff == v & 0xffff) == (w & 0xff == v & 0xff && (w >> 8) & 0xff == (v >> 8)
        & 0xff)) && ((w & 0xff_ffff == v & 0xff_ffff) == (w & 0xffff == v & 0xffff && (w >> 16)
        & 0xff == (v >> 16) & 0xff)) && ((w & 0xffff_ffff == v & 0xffff_ffff) == (w & 0xff_ffff == v
        & 0xff_ffff && (w >> 24) & 0xff == (v >> 24) & 0xff)) && ((w & 0xff_ffff_ffff == v
        & 0xff_ffff_ffff) == (w & 0xffff_ffff == v & 0xffff_ffff && (w >> 32) & 0xff == (v >> 32)
        & 0xff)) && ((w & 0xffff_ffff_ffff == v & 0xffff_ffff_ffff) == (w & 0xff_ffff_ffff == v
        & 0xff_ffff_ffff && (w >> 40) & 0xff == (v >> 40) & 0xff)) && ((w == v) == (w
        & 0xffff_ffff_ffff == v & 0xffff_ffff_ffff && (w >> 48) & 0xff == (v >> 48) & 0xff && (w
        >> 56) & 0xff == (v >> 56) & 0xff)) && (((w >> 8) & 0xffff == (v >> 8) & 0xffff) == ((w
        >> 8) & 0xff == (v >> 8) & 0xff && (w >> 16) & 0xff == (v >> 16) & 0xff))) by (bit_vector);
}

/// Histories whose last eight bytes are the same have the same window.
pub proof fn lemma_same_window(a: Seq<u8>, b: Seq<u8>, stride: nat, bpp: nat)
    requires
        same_tail(a, b, 8),
    ensures
        seen(a, stride, bpp).window == seen(b, stride, bpp).window,
        seen(a, stride, bpp).buf == a,
        seen(b, stride, bpp).buf == b,
{
    lemma_window(a, stride, bpp);
    lemma_window(b, stride, bpp);
    lemma_masks(seen(a, stride, bpp).window, seen(b, stride, bpp).window);
    lemma_tails(a, b);
}

pub proof fn lemma_salt(x: u64, y: u64, salt: u64)
    ensures
        (x ^ salt == y ^ salt) == (x == y),
{
    assert((x ^ salt == y ^ salt) == (x == y)) by (bit_vector);
}

/// A salted hash tells values apart as they are.
proof fn lemma_salted(x: u64, y: u64, salt: u64)
    ensures
        (splitmix_of(x ^ salt) == splitmix_of(y ^ salt)) == (x == y),
{
    lemma_hash_injective(x ^ salt, y ^ salt);
    lemma_salt(x, y, salt);
}

proof fn lemma_tails(a: Seq<u8>, b: Seq<u8>)
    ensures
        same_tail(a, b, 1) == (byte_back(a, 1) == byte_back(b, 1)),
        same_tail(a, b, 2) == (same_tail(a, b, 1) && byte_back(a, 2) == byte_back(b, 2)),
        same_tail(a, b, 3) == (same_tail(a, b, 2) && byte_back(a, 3) == byte_back(b, 3)),
        same_tail(a, b, 4) == (same_tail(a, b, 3) && byte_back(a, 4) == byte_back(b, 4)),
        same_tail(a, b, 5) == (same_tail(a, b, 4) && byte_back(a, 5) == byte_back(b, 5)),
        same_tail(a, b, 6) == (same_tail(a, b, 5) && byte_back(a, 6) == byte_back(b, 6)),
        same_tail(a, b, 7) == (same_tail(a, b, 6) && byte_back(a, 7) == byte_back(b, 7)),
        same_tail(a, b, 8) == (same_tail(a, b, 7) && byte_back(a, 8) == byte_back(b, 8)),
{
}

/// The hashed contexts of orders 2, 3, 4, 5, 6 and 8 are the last bytes, as many
/// as the order says: two histories have one context where those are the same,
/// and only there. The sparse context is the second and the third byte back.
pub proof fn lemma_order_contexts(a: Seq<u8>, b: Seq<u8>, stride: nat, bpp: nat)
    requires
        a.len() > 0,
        b.len() > 0,
    ensures
        ({
            let x = seen(a, stride, bpp).hashes;
            let y = seen(b, stride, bpp).hashes;
            &&& (x[0] == y[0]) == same_tail(a, b, 2)
            &&& (x[1] == y[1]) == same_tail(a, b, 3)
            &&& (x[2] == y[2]) == same_tail(a, b, 4)
            &&& (x[3] == y[3]) == same_tail(a, b, 5)
            &&& (x[4] == y[4]) == same_tail(a, b, 6)
            &&& (x[5] == y[5]) == same_tail(a, b, 8)
            &&& (x[7] == y[7]) == (byte_back(a, 2) == byte_back(b, 2) && byte_back(a, 3)
                == byte_back(b, 3))
        }),
{
    let w = seen(a, stride, bpp).window;
    let v = seen(b, stride, bpp).window;
    lemma_window(a, stride, bpp);
    lemma_window(b, stride, bpp);
    lemma_masks(w, v);
    lemma_tails(a, b);
    lemma_salted(w & 0xffff, v & 0xffff, order_salt(2));
    lemma_salted(w & 0xff_ffff, v & 0xff_ffff, order_salt(3));
    lemma_salted(w & 0xffff_ffff, v & 0xffff_ffff, order_salt(4));
    lemma_salted(w & 0xff_ffff_ffff, v & 0xff_ffff_ffff, order_salt(5));
    lemma_salted(w & 0xffff_ffff_ffff, v & 0xffff_ffff_ffff, order_salt(6));
    lemma_salted(w, v, 0x8888_8888_8888_8888);
    lemma_salted((w >> 8) & 0xffff, (v >> 8) & 0xffff, 0x3333_0000_0000_3333);
}

/// What is left of a byte without its low four bits.
pub open spec fn high_half(b: u8) -> int {
    b as int / 16
}

proof fn lemma_halves(w: u64, v: u64)
    ensures
        (w & 0xf0f0_f0f0 == v & 0xf0f0_f0f0) == ((w & 0xff) / 16 == (v & 0xff) / 16 && ((w >> 8)
            & 0xff) / 16 == ((v >> 8) & 0xff) / 16 && ((w >> 16) & 0xff) / 16 == ((v >> 16) & 0xff)
            / 16 && ((w >> 24) & 0xff) / 16 == ((v >> 24) & 0xff) / 16),
{
    assert((w & 0xf0f0_f0f0 == v & 0xf0f0_f0f0) == ((w & 0xff) / 16 == (v & 0xff) / 16 && ((w >> 8)
        & 0xff) / 16 == ((v >> 8) & 0xff) / 16 && ((w >> 16) & 0xff) / 16 == ((v >> 16) & 0xff) / 16
        && ((w >> 24) & 0xff) / 16 == ((v >> 24) & 0xff) / 16)) by (bit_vector);
}

/// The second sparse context is the high halves of the last four bytes.
pub proof fn lemma_halves_context(a: Seq<u8>, b: Seq<u8>, stride: nat, bpp: nat)
    requires
        a.len() > 0,
        b.len() > 0,
    ensures
        (seen(a, stride, bpp).hashes[8] == seen(b, stride, bpp).hashes[8]) == (forall|d: int|
            1 <= d <= 4 ==> high_half(#[trigger] byte_back(a, d)) == high_half(byte_back(b, d))),
{
    let w = seen(a, stride, bpp).window;
    let v = seen(b, stride, bpp).window;
    lemma_window(a, stride, bpp);
    lemma_window(b, stride, bpp);
    lemma_halves(w, v);
    lemma_salted(w & 0xf0f0_f0f0, v & 0xf0f0_f0f0, 0x5555_0000_5555_0000);
    let same = seen(a, stride, bpp).hashes[8] == seen(b, stride, bpp).hashes[8];
    let halves = high_half(byte_back(a, 1)) == high_half(byte_back(b, 1)) && high_half(
        byte_back(a, 2),
    ) == high_half(byte_back(b, 2)) && high_half(byte_back(a, 3)) == high_half(byte_back(b, 3))
        && high_half(byte_back(a, 4)) == high_half(byte_back(b, 4));
    assert(same == halves);
    if halves {
        assert forall|d: int| 1 <= d <= 4 implies high_half(#[trigger] byte_back(a, d))
            == high_half(byte_back(b, d)) by {
            assert(d == 1 || d == 2 || d == 3 || d == 4);
        }
    }
}

/// Whether a byte belongs to a word: a letter, or a byte above ASCII.
pub open spec fn is_letter(b: u8) -> bool {
    0x41 <= b <= 0x5a || 0x61 <= b <= 0x7a || b >= 0x80
}

/// A letter of ASCII without its case; and bytes above it as they are told apart.
pub open spec fn folded(b: u8) -> u8 {
    b | 0x20
}

proof fn lemma_letter(b: u8)
    ensures
        is_letter(b) == ((0x61 <= folded(b) && folded(b) <= 0x7a) || b >= 0x80),
        0x41 <= b <= 0x5a ==> folded(b) == b + 32,
        0x61 <= b <= 0x7a ==> folded(b) == b,
{
    assert(((0x41 <= b && b <= 0x5a) || (0x61 <= b && b <= 0x7a) || b >= 0x80) == ((0x61 <= b | 0x20
        && b | 0x20 <= 0x7a) || b >= 0x80) && (0x41 <= b && b <= 0x5a ==> b | 0x20 == b + 32) && (
    0x61 <= b && b <= 0x7a ==> b | 0x20 == b)) by (bit_vector);
}

/// The word that the bytes end in, without case: its letters since the last byte
/// that is none.
pub open spec fn current_word(bytes: Seq<u8>) -> Seq<u8>
    decreases bytes.len(),
{
    if bytes.len() == 0 || !is_letter(bytes.last()) {
        Seq::empty()
    } else {
        current_word(bytes.drop_last()).push(folded(bytes.last()))
    }
}

/// The hash of a word that was folded.
spec fn hash_of_word(word: Seq<u8>) -> u64
    decreases word.len(),
{
    if word.len() == 0 {
        0
    } else {
        hash_of_word(word.drop_last()).wrapping_mul(GOLD) ^ splitmix_of((word.last() + 1) as u64)
    }
}

proof fn lemma_word(bytes: Seq<u8>, stride: nat, bpp: nat)
    ensures
        seen(bytes, stride, bpp).word_hash == hash_of_word(current_word(bytes)),
    decreases bytes.len(),
{
    if bytes.len() > 0 {
        lemma_word(bytes.drop_last(), stride, bpp);
        lemma_letter(bytes.last());
        if is_letter(bytes.last()) {
            let w = current_word(bytes.drop_last());
            assert(w.push(folded(bytes.last())).drop_last() =~= w);
        }
    }
}

/// The word context follows from the current word without its case, and from
/// nothing else.
pub proof fn lemma_word_context(a: Seq<u8>, b: Seq<u8>, stride: nat, bpp: nat)
    requires
        a.len() > 0,
        b.len() > 0,
        current_word(a) == current_word(b),
    ensures
        seen(a, stride, bpp).hashes[6] == seen(b, stride, bpp).hashes[6],
{
    lemma_word(a, stride, bpp);
    lemma_word(b, stride, bpp);
}

/// Words that go on with one letter are told apart where they were before, and
/// a word that goes on with different letters is told apart: the whole word
/// counts.
pub proof fn lemma_word_told_apart(a: Seq<u8>, b: Seq<u8>, x: u8, y: u8, stride: nat, bpp: nat)
    requires
        a.len() > 0,
        b.len() > 0,
        is_letter(x),
        is_letter(y),
    ensures
        (seen(a.push(x), stride, bpp).hashes[6] == seen(b.push(x), stride, bpp).hashes[6]) == (seen(
            a,
            stride,
            bpp,
        ).hashes[6] == seen(b, stride, bpp).hashes[6]),
        (seen(a.push(x), stride, bpp).hashes[6] == seen(a.push(y), stride, bpp).hashes[6]) == (
        folded(x) == folded(y)),
{
    let salt = 0x0F0F_0F0F_0F0F_0F0Fu64;
    assert(a.push(x).drop_last() =~= a);
    assert(a.push(y).drop_last() =~= a);
    assert(b.push(x).drop_last() =~= b);
    lemma_letter(x);
    lemma_letter(y);
    let ha = seen(a, stride, bpp).word_hash;
    let hb = seen(b, stride, bpp).word_hash;
    let hax = word_after(ha, x);
    let hbx = word_after(hb, x);
    let hay = word_after(ha, y);
    lemma_salted(ha, hb, salt);
    lemma_salted(hax, hbx, salt);
    lemma_salted(hax, hay, salt);
    let sx = splitmix_of((folded(x) + 1) as u64);
    let sy = splitmix_of((folded(y) + 1) as u64);
    lemma_salt(ha.wrapping_mul(GOLD), hb.wrapping_mul(GOLD), sx);
    if ha.wrapping_mul(GOLD) == hb.wrapping_mul(GOLD) {
        lemma_mul_injective(ha, hb, GOLD, 0xF1DE_83E1_9937_733D, 0x957B_BF35_006E_D677);
    }
    lemma_hash_injective((folded(x) + 1) as u64, (folded(y) + 1) as u64);
    lemma_flip(ha.wrapping_mul(GOLD), sx, sy);
}

proof fn lemma_flip(m: u64, x: u64, y: u64)
    ensures
        (m ^ x == m ^ y) == (x == y),
{
    assert((m ^ x == m ^ y) == (x == y)) by (bit_vector);
}

proof fn lemma_pixel_keys(a: u64, l: u64, c: u64, a2: u64, l2: u64, c2: u64)
    requires
        a < 256,
        l < 256,
        c < 256,
        a2 < 256,
        l2 < 256,
        c2 < 256,
    ensures
        (a | (l << 8) | 0xAAAA_0000_0000_0000 == a2 | (l2 << 8) | 0xAAAA_0000_0000_0000) == (a == a2
            && l == l2),
        (a | (l << 8) | (c << 16) | 0xBBBB_0000_0000_0000 == a2 | (l2 << 8) | (c2 << 16)
            | 0xBBBB_0000_0000_0000) == (a == a2 && l == l2 && c == c2),
        (a | (l << 8) | 0xBBBB_0000_0000_0000 == a2 | (l2 << 8) | 0xBBBB_0000_0000_0000) == (a == a2
            && l == l2),
{
    assert(((a | (l << 8) | 0xAAAA_0000_0000_0000 == a2 | (l2 << 8) | 0xAAAA_0000_0000_0000) == (a
        == a2 && l == l2)) && ((a | (l << 8) | (c << 16) | 0xBBBB_0000_0000_0000 == a2 | (l2 << 8)
        | (c2 << 16) | 0xBBBB_0000_0000_0000) == (a == a2 && l == l2 && c == c2)) && ((a | (l << 8)
        | 0xBBBB_0000_0000_0000 == a2 | (l2 << 8) | 0xBBBB_0000_0000_0000) == (a == a2 && l == l2)))
        by (bit_vector)
        requires
            a < 256,
            l < 256,
            c < 256,
            a2 < 256,
            l2 < 256,
            c2 < 256,
    ;
}

proof fn lemma_column_keys(a: u64, n: u64, a2: u64, n2: u64)
    requires
        a < 256,
        a2 < 256,
        n < 0x1_0000_0000_0000,
        n2 < 0x1_0000_0000_0000,
    ensures
        (a ^ (n << 8) ^ 0xAAAA_0000_0000_AAAA == a2 ^ (n2 << 8) ^ 0xAAAA_0000_0000_AAAA) == (a == a2
            && n == n2),
        ((n << 8) ^ a ^ 0xCCCC_0000_0000_CCCC == (n2 << 8) ^ a2 ^ 0xCCCC_0000_0000_CCCC) == (a == a2
            && n == n2),
{
    assert(((a ^ (n << 8) ^ 0xAAAA_0000_0000_AAAA == a2 ^ (n2 << 8) ^ 0xAAAA_0000_0000_AAAA) == (a
        == a2 && n == n2)) && (((n << 8) ^ a ^ 0xCCCC_0000_0000_CCCC == (n2 << 8) ^ a2
        ^ 0xCCCC_0000_0000_CCCC) == (a == a2 && n == n2))) by (bit_vector)
        requires
            a < 256,
            a2 < 256,
            n < 0x1_0000_0000_0000,
            n2 < 0x1_0000_0000_0000,
    ;
}

proof fn lemma_slope_keys(g: i64, r: u64, g2: i64, r2: u64)
    requires
        -255 <= g <= 510,
        -255 <= g2 <= 510,
        r < 256,
        r2 < 256,
    ensures
        (((g as u64) & 0x3ff) | (r << 10) | 0xCCCC_0000_0000_0000 == ((g2 as u64) & 0x3ff) | (r2
            << 10) | 0xCCCC_0000_0000_0000) == (g == g2 && r == r2),
{
    assert((((g as u64) & 0x3ff) | (r << 10) | 0xCCCC_0000_0000_0000 == ((g2 as u64) & 0x3ff) | (r2
        << 10) | 0xCCCC_0000_0000_0000) == (g == g2 && r == r2)) by (bit_vector)
        requires
            -255 <= g <= 510,
            -255 <= g2 <= 510,
            r < 256,
            r2 < 256,
    ;
}

/// The bytes of an image around the one that comes next: the one above, the one
/// to the left, the one above that, and the one above and to the right. Where a
/// row is no longer than a pixel, there is none to the right.
pub open spec fn around(bytes: Seq<u8>, stride: nat, bpp: nat) -> (u8, u8, u8, u8) {
    (
        byte_back(bytes, stride as int),
        byte_back(bytes, bpp as int),
        byte_back(bytes, (stride + bpp) as int),
        if stride > bpp {
            byte_back(bytes, stride - bpp)
        } else {
            byte_back(bytes, stride as int)
        },
    )
}

proof fn lemma_image_hashes(a: Seq<u8>, stride: nat, bpp: nat)
    requires
        bpp > 0,
        stride > 0,
        a.len() >= 2 * stride,
    ensures
        ({
            let x = seen(a, stride, bpp).hashes;
            let p = around(a, stride, bpp);
            let g = (p.0 + p.1 - p.2) as i64;
            &&& x[9] == splitmix_of((p.0 as u64) | ((p.1 as u64) << 8) | 0xAAAA_0000_0000_0000)
            &&& x[10] == splitmix_of(
                (p.0 as u64) | ((p.1 as u64) << 8) | ((p.2 as u64) << 16) | 0xBBBB_0000_0000_0000,
            )
            &&& x[11] == splitmix_of(
                ((g as u64) & 0x3ff) | ((p.3 as u64) << 10) | 0xCCCC_0000_0000_0000,
            )
        }),
{
    let p = around(a, stride, bpp);
    lemma_window(a, stride, bpp);
    lemma_window(a.drop_last(), stride, bpp);
    assert(a.drop_last().push(a.last()) =~= a);
    let x = seen(a, stride, bpp).hashes;
    let r = record_hashes(a, stride, bpp, a.last());
    assert(has_records(a.len() as int, stride));
    assert(x[9] == r.0 && x[10] == r.1 && x[11] == r.2);
    assert(back(a, stride as int) == p.0 as u64);
    let g = (p.0 + p.1 - p.2) as i64;
    assert(gradient(p.0 as u64, p.1 as u64, p.2 as u64) == (g as u64) & 0x3ff);
}

/// The record contexts of image data: the bytes above and to the left; those and
/// the one between them; and the slope that the three make, with the byte above
/// and to the right.
pub proof fn lemma_image_contexts(a: Seq<u8>, b: Seq<u8>, stride: nat, bpp: nat)
    requires
        bpp > 0,
        stride > 0,
        a.len() >= 2 * stride,
        b.len() >= 2 * stride,
    ensures
        ({
            let x = seen(a, stride, bpp).hashes;
            let y = seen(b, stride, bpp).hashes;
            let p = around(a, stride, bpp);
            let q = around(b, stride, bpp);
            &&& (x[9] == y[9]) == (p.0 == q.0 && p.1 == q.1)
            &&& (x[10] == y[10]) == (p.0 == q.0 && p.1 == q.1 && p.2 == q.2)
            &&& (x[11] == y[11]) == (p.0 + p.1 - p.2 == q.0 + q.1 - q.2 && p.3 == q.3)
        }),
{
    let p = around(a, stride, bpp);
    let q = around(b, stride, bpp);
    lemma_image_hashes(a, stride, bpp);
    lemma_image_hashes(b, stride, bpp);
    let (p0, p1, p2, p3) = (p.0 as u64, p.1 as u64, p.2 as u64, p.3 as u64);
    let (q0, q1, q2, q3) = (q.0 as u64, q.1 as u64, q.2 as u64, q.3 as u64);
    lemma_pixel_keys(p0, p1, p2, q0, q1, q2);
    let g = (p0 + p1 - p2) as i64;
    let h = (q0 + q1 - q2) as i64;
    lemma_slope_keys(g, p3, h, q3);
    lemma_hash_injective(
        p0 | (p1 << 8) | 0xAAAA_0000_0000_0000,
        q0 | (q1 << 8) | 0xAAAA_0000_0000_0000,
    );
    lemma_hash_injective(
        p0 | (p1 << 8) | (p2 << 16) | 0xBBBB_0000_0000_0000,
        q0 | (q1 << 8) | (q2 << 16) | 0xBBBB_0000_0000_0000,
    );
    lemma_hash_injective(
        ((g as u64) & 0x3ff) | (p3 << 10) | 0xCCCC_0000_0000_0000,
        ((h as u64) & 0x3ff) | (q3 << 10) | 0xCCCC_0000_0000_0000,
    );
}

/// The record contexts of other data: the byte one record back and the column;
/// the bytes one and two records back; and the column and the last byte.
pub proof fn lemma_record_contexts(a: Seq<u8>, b: Seq<u8>, stride: nat)
    requires
        0 < stride < 0x1_0000_0000_0000,
        a.len() >= 2 * stride,
        b.len() >= 2 * stride,
    ensures
        ({
            let x = seen(a, stride, 0).hashes;
            let y = seen(b, stride, 0).hashes;
            let one = byte_back(a, stride as int) == byte_back(b, stride as int);
            let two = byte_back(a, (2 * stride) as int) == byte_back(b, (2 * stride) as int);
            let column = a.len() % stride == b.len() % stride;
            &&& (x[9] == y[9]) == (one && column)
            &&& (x[10] == y[10]) == (one && two)
            &&& (x[11] == y[11]) == (column && byte_back(a, 1) == byte_back(b, 1))
        }),
{
    lemma_window(a, stride, 0);
    lemma_window(b, stride, 0);
    lemma_window(a.drop_last(), stride, 0);
    lemma_window(b.drop_last(), stride, 0);
    assert(a.drop_last().push(a.last()) =~= a);
    assert(b.drop_last().push(b.last()) =~= b);
    let a1 = byte_back(a, stride as int) as u64;
    let b1 = byte_back(b, stride as int) as u64;
    let a2 = byte_back(a, (2 * stride) as int) as u64;
    let b2 = byte_back(b, (2 * stride) as int) as u64;
    let n = (a.len() as int % stride as int) as u64;
    let m = (b.len() as int % stride as int) as u64;
    let ea = byte_back(a, 1) as u64;
    let eb = byte_back(b, 1) as u64;
    lemma_column_keys(a1, n, b1, m);
    lemma_column_keys(ea, n, eb, m);
    lemma_pixel_keys(a1, a2, 0, b1, b2, 0);
    lemma_hash_injective(
        a1 ^ (n << 8) ^ 0xAAAA_0000_0000_AAAA,
        b1 ^ (m << 8) ^ 0xAAAA_0000_0000_AAAA,
    );
    lemma_hash_injective(
        a1 | (a2 << 8) | 0xBBBB_0000_0000_0000,
        b1 | (b2 << 8) | 0xBBBB_0000_0000_0000,
    );
    lemma_hash_injective(
        (n << 8) ^ ea ^ 0xCCCC_0000_0000_CCCC,
        (m << 8) ^ eb ^ 0xCCCC_0000_0000_CCCC,
    );
}

} // verus!
