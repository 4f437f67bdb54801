//! What the model remembers of a context, what it tells the mixer, and what a bit
//! costs.

use crate::cm::apm::ApmState;
use crate::cm::coder::{
    common, is_interval, is_open, lemma_split, normal, part, shifted, split_at, Interval,
};
use crate::cm::counter::{
    lemma_fresh_slot, slot_check, slot_next, slot_ok, slot_prob, slot_state, sm_count, sm_ok,
    sm_prob,
};
use crate::cm::context_law::{lemma_mul_injective, lemma_salt};
use crate::cm::history::{splitmix_of, HistoryState, GOLD};
use crate::cm::isse::{error_of, isse_step, stepped, IsseState, Stage};
use crate::cm::learning_law::{lemma_map_learns, lemma_match_learns, lemma_slot_learns, shares};
use crate::cm::matcher::{lemma_table, table_index, MatchState};
use crate::cm::model::ModelState;
use crate::cm::slots::{
    bit_hash, check_of, found_row, hashed_in_use, learned_row, refreshed, row_ok, smap_ok,
    SlotsState,
};
use crate::cm::squash::{clamp, squash_at, stretch_at};
use crate::cm::states::{state_pairs, states_ok};
use vstd::arithmetic::power::{lemma_pow0, pow};
use vstd::prelude::*;

verus! {

proof fn lemma_check(x: u64)
    ensures
        check_of(x) <= 255,
        check_of(x) == (x >> 20) & 0xff,
{
    assert((x >> 20) & 0xff <= 255) by (bit_vector);
}

proof fn lemma_half(check: u32)
    requires
        check <= 255,
    ensures
        slot_prob(check << 24) == 32768,
{
    assert((check << 24) & 0xffff == 0) by (bit_vector);
}

proof fn lemma_found_slot(row: Seq<u32>, bits: u32, x: u64)
    requires
        states_ok(),
        16 <= bits <= 30,
        row_ok(row, bits),
    ensures
        ({
            let i = table_index(x, bits) as int;
            let f = found_row(row, bits, x)[i];
            &&& 0 <= i < row.len()
            &&& slot_ok(f)
            &&& slot_check(f) == check_of(x)
            &&& slot_check(row[i]) == check_of(x) ==> f == row[i]
            &&& slot_check(row[i]) != check_of(x) ==> slot_prob(f) == 32768 && slot_state(f) == 0
        }),
{
    lemma_table(x, bits);
    lemma_check(x);
    lemma_fresh_slot(check_of(x));
    lemma_half(check_of(x));
    let i = table_index(x, bits) as int;
    assert(slot_ok(row[i]));
}

/// What table `j` knows, once it has seen a bit, when the same context comes again:
/// an even share of what it has seen, up to 95 bits. In a table of hashes a context
/// finds what another has left only where both have the same eight check bits, and
/// else starts from one half.
pub proof fn lemma_context_remembers(s: SlotsState, h: HistoryState, one: bool, j: int)
    requires
        s.wf(),
        h.wf(),
        h.last() <= 255,
        1 <= h.c0 < 256,
        0 <= j < 2 + hashed_in_use(h),
    ensures
        ({
            let f = s.after_lookup(h);
            let g = f.updated(one).after_lookup(h);
            let c = state_pairs()[slot_state(f.slot(j)) as int];
            let seen = if c.0 + c.1 < 95 {
                c.0 + c.1
            } else {
                95
            };
            &&& shares(slot_prob(f.slot(j)), seen, one, slot_prob(g.slot(j)))
            &&& j >= 2 ==> slot_check(f.slot(j)) == (bit_hash(h, j - 2) >> 20) & 0xff
            &&& j >= 2 && slot_check(s.hashed[j - 2][f.idx[j]]) != (bit_hash(h, j - 2) >> 20) & 0xff
                ==> slot_prob(f.slot(j)) == 32768
            &&& j >= 2 && slot_check(s.hashed[j - 2][f.idx[j]]) == (bit_hash(h, j - 2) >> 20) & 0xff
                ==> f.slot(j) == s.hashed[j - 2][f.idx[j]]
        }),
{
    let f = s.after_lookup(h);
    let u = f.updated(one);
    let g = u.after_lookup(h);
    if j == 0 {
        let i = h.c0 as int;
        assert(slot_ok(s.o0[i]));
        lemma_slot_learns(s.o0[i], one);
        assert(f.slot(0) == s.o0[i]);
        assert(u.o0[i] == slot_next(s.o0[i], one));
        assert(g.slot(0) == u.o0[i]);
    } else if j == 1 {
        let i = h.last() * 256 + h.c0;
        assert(slot_ok(s.o1[i]));
        lemma_slot_learns(s.o1[i], one);
        assert(f.slot(1) == s.o1[i]);
        assert(u.o1[i] == slot_next(s.o1[i], one));
        assert(g.slot(1) == u.o1[i]);
    } else {
        let k = j - 2;
        let x = bit_hash(h, k);
        let i = table_index(x, s.bits) as int;
        assert(row_ok(s.hashed[k], s.bits));
        lemma_found_slot(s.hashed[k], s.bits, x);
        lemma_check(x);
        let row = found_row(s.hashed[k], s.bits, x);
        assert(f.hashed[k] == row);
        assert(f.idx[j] == i);
        assert(f.slot(j) == row[i]);
        lemma_slot_learns(row[i], one);
        assert(u.hashed[k] == learned_row(row, i, one));
        assert(u.hashed[k][i] == slot_next(row[i], one));
        assert(g.hashed[k] == found_row(u.hashed[k], s.bits, x));
        assert(g.idx[j] == i);
        assert(refreshed(u.hashed[k][i], check_of(x)) == u.hashed[k][i]);
        assert(g.slot(j) == slot_next(row[i], one));
    }
}

proof fn lemma_xor_turned(x: u64, y: u64, s: u64, t: u64)
    ensures
        x == y ==> (x ^ s == y ^ t) == (s == t),
{
    assert(x == y ==> (x ^ s == y ^ t) == (s == t)) by (bit_vector);
}

/// Each bit of a byte has a slot of its own: order 0 tells the starts of a byte
/// apart, order 1 also the last byte; and the hashes of a context are the same only
/// for the same start of the byte, as two contexts at one start are.
pub proof fn lemma_slots_told_apart(s: SlotsState, g: HistoryState, h: HistoryState, k: int)
    requires
        s.wf(),
        1 <= g.c0 < 256,
        1 <= h.c0 < 256,
        0 <= g.last() <= 255,
        0 <= h.last() <= 255,
        0 <= k < 12,
    ensures
        ({
            let a = s.after_lookup(g).idx;
            let b = s.after_lookup(h).idx;
            &&& (a[0] == b[0]) == (g.c0 == h.c0)
            &&& (a[1] == b[1]) == (g.c0 == h.c0 && g.last() == h.last())
        }),
        g.hashes[k] == h.hashes[k] ==> (bit_hash(g, k) == bit_hash(h, k)) == (g.c0 == h.c0),
        g.c0 == h.c0 ==> (bit_hash(g, k) == bit_hash(h, k)) == (g.hashes[k] == h.hashes[k]),
{
    let x = (g.c0 as u64).wrapping_mul(GOLD);
    let y = (h.c0 as u64).wrapping_mul(GOLD);
    if x == y {
        lemma_mul_injective(
            g.c0 as u64,
            h.c0 as u64,
            GOLD,
            0xF1DE_83E1_9937_733D,
            0x957B_BF35_006E_D677,
        );
    }
    lemma_xor_turned(g.hashes[k], h.hashes[k], x, y);
    if g.c0 == h.c0 {
        lemma_salt(g.hashes[k], h.hashes[k], x);
    }
}

/// The map of the history that a context has learns the bit too: an even share of
/// what came after that history, in any context of the table. The maps of other
/// histories stay.
pub proof fn lemma_history_remembers(f: SlotsState, one: bool, j: int, other: int)
    requires
        f.wf(),
        f.looked_up(),
        0 <= j < f.active,
        slot_ok(f.slot(j)),
        0 <= other < state_pairs().len(),
        1 <= sm_prob(f.smaps[j][slot_state(f.slot(j)) as int]),
        sm_count(f.smaps[j][slot_state(f.slot(j)) as int]) <= 510,
    ensures
        ({
            let i = slot_state(f.slot(j)) as int;
            let e = f.smaps[j][i];
            let u = f.updated(one).smaps[j];
            &&& shares(sm_prob(e) as int, sm_count(e) as int, one, sm_prob(u[i]) as int)
            &&& sm_count(u[i]) == sm_count(e) + 1
            &&& other != i ==> u[other] == f.smaps[j][other]
        }),
{
    let i = slot_state(f.slot(j)) as int;
    assert(smap_ok(f.smaps[j]));
    assert(sm_ok(f.smaps[j][i]));
    lemma_map_learns(f.smaps[j][i], one);
}

/// Every part of the model learns each bit, from what it said of it.
pub proof fn lemma_all_learn(m: ModelState, one: bool)
    ensures
        ({
            let u = m.step(one);
            &&& u.hist == m.hist.with_bit(one)
            &&& u.slots == m.slots.after_lookup(m.hist).updated(one)
            &&& u.isse == m.isse.after_read(m.slots.after_lookup(m.hist)).updated(one)
            &&& u.mixer == m.mixed().updated(one)
            &&& u.apm1 == m.apm1.after_read(m.mixed().pr, m.hist.c0 as int).updated(one)
            &&& u.apm2 == m.apm2.after_read(m.once_refined(), m.byte_context()).updated(one)
            &&& u.apm3 == m.apm3.after_read(m.twice_refined(), m.word_context()).updated(one)
            &&& m.hist.bitpos < 7 ==> u.matcher == m.matcher.after_read(m.hist).updated(one)
            &&& m.hist.bitpos == 7 ==> u.matcher == m.matcher.after_read(m.hist).updated(
                one,
            ).after_byte(u.hist)
        }),
{
    reveal(ModelState::step);
}

/// Learning a bit in one context leaves the slots of all others as they were.
pub proof fn lemma_others_kept(s: SlotsState, h: HistoryState, one: bool, k: int, i: int)
    requires
        s.wf(),
        0 <= k < 12,
        0 <= i < s.hashed[k].len(),
        k >= hashed_in_use(h) || i != table_index(bit_hash(h, k), s.bits),
    ensures
        s.after_lookup(h).updated(one).hashed[k][i] == s.hashed[k][i],
{
    assert(row_ok(s.hashed[k], s.bits));
    lemma_table(bit_hash(h, k), s.bits);
}

/// What the mixer is told: of each table in use the stretched probability of the
/// context's slot and that of its history's map, of the others nothing; what the
/// chain and the match come to; and a constant.
pub proof fn lemma_inputs_told(m: ModelState, j: int)
    requires
        m.wf(),
        0 <= j < 14,
    ensures
        ({
            let f = m.slots.after_lookup(m.hist);
            let slot = f.slot(j);
            let used = j < 2 + hashed_in_use(m.hist);
            &&& used ==> m.inputs()[2 * j] == stretch_at(slot_prob(slot) / 16) as i32
            &&& used ==> m.inputs()[2 * j + 1] == stretch_at(
                sm_prob(f.smaps[j][slot_state(slot) as int]) as int / 16,
            ) as i32
            &&& !used ==> m.inputs()[2 * j] == 0 && m.inputs()[2 * j + 1] == 0
            &&& m.inputs()[28] == m.isse.chained(f, 6) as i32
            &&& m.inputs()[29] == m.matcher.input(m.hist) as i32
            &&& m.inputs()[30] == 256
            &&& m.inputs().len() == 31
        }),
{
    let a = 2 * j;
    let b = 2 * j + 1;
    assert(a / 2 == j && b / 2 == j && a % 2 == 0 && b % 2 == 1);
    assert(m.mixer.inputs.len() == 31);
}

/// A match says that the bit comes which stands behind the earlier occurrence, as
/// surely as it was right before: with the same sign for a one as its confidence
/// has, and the opposite for a zero. Without a match it says nothing.
pub proof fn lemma_match_says(m: MatchState, h: HistoryState)
    requires
        h.bitpos < 8,
    ensures
        m.len > 0 && m.pos < h.buf.len() ==> ({
            let bit = (h.buf[m.pos] as u32 >> ((7 - h.bitpos) as u32)) & 1;
            let row: int = if m.len < 31 {
                m.len as int
            } else {
                31
            };
            let sure = stretch_at(slot_prob(m.ctr[2 * row + bit]) / 16);
            m.input(h) == if bit == 1 {
                sure
            } else {
                -sure
            }
        }),
        m.len == 0 ==> m.input(h) == 0,
{
}

/// The match ends with the first bit that it got wrong, and goes on with every one
/// that it got right. Either way it learns how sure it may be.
pub proof fn lemma_match_ends(m: MatchState, h: HistoryState, one: bool)
    requires
        h.bitpos < 8,
        m.len > 0,
        m.pos < h.buf.len(),
        m.ctr.len() == 64,
        forall|i: int| 0 <= i < 64 ==> slot_state(#[trigger] m.ctr[i]) <= 90,
    ensures
        ({
            let bit = (h.buf[m.pos] as u32 >> ((7 - h.bitpos) as u32)) & 1;
            let after = m.after_read(h).updated(one);
            let row: int = if m.len < 31 {
                m.len as int
            } else {
                31
            };
            let e = m.ctr[2 * row + bit];
            &&& shares(
                slot_prob(e),
                slot_state(e) as int,
                (bit == 1) == one,
                slot_prob(after.ctr[2 * row + bit]),
            )
            &&& (bit == 1) == one ==> after.len == m.len && after.pos == m.pos
            &&& (bit == 1) != one ==> after.len == 0
        }),
{
    let b = h.buf[m.pos] as u32;
    let k = (7 - h.bitpos) as u32;
    assert((b >> k) & 1 == 0 || (b >> k) & 1 == 1) by (bit_vector);
    let row: int = if m.len < 31 {
        m.len as int
    } else {
        31
    };
    let e = m.ctr[2 * row + ((b >> k) & 1)];
    assert(slot_state(e) <= 90);
    lemma_match_learns(e, (((b >> k) & 1) == 1) == one);
}

/// The first bank of the mixer has weights of its own for each start of a byte, with
/// a match and without; the second for each last byte and each of four lengths of
/// match: none, below 16, below 64, and longer. So have the refinements: the first
/// for each start of a byte, the second for each with each last byte.
pub proof fn lemma_weights_told_apart(a: ModelState, b: ModelState)
    requires
        a.wf(),
        b.wf(),
        1 <= a.hist.c0 < 256,
        1 <= b.hist.c0 < 256,
        a.hist.last() <= 255,
        b.hist.last() <= 255,
    ensures
        (a.mixed().ctx == b.mixed().ctx) == (a.hist.c0 == b.hist.c0 && (a.matcher.len > 0) == (
        b.matcher.len > 0)),
        (a.mixed().ctx2 == b.mixed().ctx2) == (a.hist.last() == b.hist.last() && (a.matcher.len > 0)
            == (b.matcher.len > 0) && (a.matcher.len >= 16) == (b.matcher.len >= 16) && (
        a.matcher.len >= 64) == (b.matcher.len >= 64)),
        a.mixed().ctx < 512,
        a.mixed().ctx2 >= 512,
        (a.byte_context() == b.byte_context()) == (a.hist.c0 == b.hist.c0 && a.hist.last()
            == b.hist.last()),
{
}

/// The third refinement has a context for the current word and the start of the
/// byte: the highest fourteen bits of their hash.
pub proof fn lemma_word_refined(m: ModelState)
    ensures
        m.word_context() == splitmix_of(m.hist.word_hash ^ (m.hist.c0 as u64)) as int
            / 0x4_0000_0000_0000,
{
    let x = splitmix_of(m.hist.word_hash ^ (m.hist.c0 as u64));
    assert((x >> 50) & 0x3fff == x / 0x4_0000_0000_0000) by (bit_vector);
}

/// Where the refinements agree with the mixer they change nothing; and each moves
/// the prediction by three quarters of what it differs by, the last by a half.
pub proof fn lemma_refinements_weighed(m: ModelState)
    ensures
        ({
            let p0 = m.mixed().pr;
            let p1 = m.once_refined();
            let p2 = m.twice_refined();
            let a1 = m.apm1.refined(p0, m.hist.c0 as int);
            let a2 = m.apm2.refined(p1, m.byte_context());
            let a3 = m.apm3.refined(p2, m.word_context());
            &&& 4 * p1 <= p0 + 3 * a1 < 4 * p1 + 4
            &&& 4 * p2 <= p1 + 3 * a2 < 4 * p2 + 4
            &&& 1 <= m.prob() <= 4095
            &&& 2 <= p2 + a3 < 8192 ==> 2 * m.prob() <= p2 + a3 < 2 * m.prob() + 2
            &&& a1 == p0 && a2 == p0 && a3 == p0 && 1 <= p0 <= 4095 ==> m.prob() == p0
        }),
{
}

/// The chain starts from order 1, and each stage weighs what the one before it says
/// against the next order's own prediction, with the weights of that order's
/// history, in 65536ths and within the range of stretched probabilities.
pub proof fn lemma_chain_refines(m: IsseState, s: SlotsState, k: int)
    requires
        0 <= k < 6,
    ensures
        m.chained(s, 0) == stretch_at(slot_prob(s.slot(1)) / 16),
        ({
            let i = 256 * k + slot_state(s.slot(2 + k));
            let sum = m.w0[i] * m.chained(s, k) + m.w1[i] * stretch_at(
                slot_prob(s.slot(2 + k)) / 16,
            );
            let v = m.chained(s, k + 1);
            &&& -2047 <= v <= 2047
            &&& v < 2047 ==> sum < 65536 * (v + 1)
            &&& v > -2047 ==> 65536 * v <= sum
        }),
{
    let i = 256 * k + slot_state(s.slot(2 + k));
    assert(IsseState::weight_at(s, k) == i);
    let sum = m.w0[i] * m.chained(s, k) + m.w1[i] * stretch_at(slot_prob(s.slot(2 + k)) / 16);
    assert(s.slot_input(1 + (k + 1)) == stretch_at(slot_prob(s.slot(2 + k)) / 16));
    assert(m.chained(s, k + 1) == clamp(sum / 65536, -2047, 2047));
}

/// A refinement lies between the two steps of its context that are nearest to the
/// stretched prediction, nearer to the nearer: steps are 128 apart.
pub proof fn lemma_refinement_lies(a: ApmState, p: int, cxt: int)
    requires
        0 <= p <= 4095,
    ensures
        ({
            let x = stretch_at(p) + 2048;
            let j = if x / 128 < 31 {
                x / 128
            } else {
                31
            };
            let lo = a.t[33 * cxt + j] as int;
            let hi = a.t[33 * cxt + j + 1] as int;
            let far = x % 128;
            let r = a.refined(p, cxt);
            &&& 1 <= r <= 4095
            &&& r < 4095 ==> lo * (128 - far) + hi * far < 2048 * (r + 1)
            &&& r > 1 ==> 2048 * r <= lo * (128 - far) + hi * far
            &&& a.after_read(p, cxt).index == 33 * cxt + j
        }),
{
    let x = stretch_at(p) + 2048;
    let y = x * 32;
    assert(y / 4096 == x / 128 && y % 4096 == 32 * (x % 128));
    let j = if x / 128 < 31 {
        x / 128
    } else {
        31
    };
    let i = cxt * 33 + j;
    let lo = a.t[i] as int;
    let hi = a.t[i + 1] as int;
    let far = x % 128;
    let sum = lo * (4096 - 32 * far) + hi * (32 * far);
    assert(sum == 32 * (lo * (128 - far) + hi * far)) by (nonlinear_arith)
        requires
            sum == lo * (4096 - 32 * far) + hi * (32 * far),
    ;
    assert(a.refined(p, cxt) == clamp(sum / 65536, 1, 4095));
}

/// What a model starts from: no weights in the mixer, three quarters and one quarter
/// in the chain, refinements that change nothing, and no match.
pub proof fn lemma_model_starts(table_bits: u32, match_bits: u32, stride: nat, bpp: nat, i: int)
    requires
        0 <= i < 1536,
    ensures
        ({
            let m = ModelState::init(table_bits, match_bits, stride, bpp);
            &&& m.mixer.wx[31 * i] == 0
            &&& m.isse.w0[i] + m.isse.w1[i] == 65536
            &&& m.isse.w0[i] == 3 * m.isse.w1[i]
            &&& m.apm1.t[i] == (16 * squash_at(128 * (i % 33 - 16))) as u16
            &&& m.apm2.t[i] == m.apm1.t[i]
            &&& m.apm3.t[i] == m.apm1.t[i]
            &&& m.matcher.len == 0
            &&& m.hist.buf.len() == 0
        }),
{
}

proof fn lemma_stage_untouched(w: Seq<i32>, cache: Seq<Stage>, one: bool, icm: bool, n: nat, i: int)
    requires
        n <= cache.len(),
        forall|k: int| 0 <= k < n ==> (#[trigger] cache[k]).wi != i,
        forall|k: int| 0 <= k < n ==> 0 <= (#[trigger] cache[k]).wi < w.len(),
        0 <= i < w.len(),
    ensures
        stepped(w, cache, one, icm, n)[i] == w[i],
        stepped(w, cache, one, icm, n).len() == w.len(),
    decreases n,
{
    if n > 0 {
        lemma_stage_untouched(w, cache, one, icm, (n - 1) as nat, i);
        assert(cache[n - 1].wi != i);
    }
}

proof fn lemma_stage_stepped(
    w: Seq<i32>,
    cache: Seq<Stage>,
    one: bool,
    icm: bool,
    n: nat,
    k: int,
)
    requires
        n <= cache.len(),
        0 <= k < n,
        forall|a: int| 0 <= a < cache.len() ==> 0 <= (#[trigger] cache[a]).wi < w.len(),
        forall|a: int| 0 <= a < cache.len() && a != k ==> (#[trigger] cache[a]).wi != cache[k].wi,
    ensures
        stepped(w, cache, one, icm, n)[cache[k].wi as int] == isse_step(
            w[cache[k].wi as int],
            if icm {
                cache[k].st_icm
            } else {
                cache[k].st_in
            },
            error_of(one, cache[k].p_out as int),
        ),
        stepped(w, cache, one, icm, n).len() == w.len(),
    decreases n,
{
    if n - 1 == k {
        lemma_stage_untouched(w, cache, one, icm, k as nat, cache[k].wi as int);
    } else {
        lemma_stage_stepped(w, cache, one, icm, (n - 1) as nat, k);
        assert(cache[n - 1].wi != cache[k].wi);
    }
}

proof fn lemma_pull(w: i32, st: i32, err: int)
    requires
        -2047 <= st <= 2047,
        -4096 <= err <= 4096,
        i32::MIN <= w + (st * err) / 4096 <= i32::MAX,
    ensures
        err >= 0 ==> st * isse_step(w, st, err) >= st * w,
        err <= 0 ==> st * isse_step(w, st, err) <= st * w,
{
    let d = (st * err) / 4096;
    assert(-8388608 <= st * err <= 8388608) by (nonlinear_arith)
        requires
            -2047 <= st <= 2047,
            -4096 <= err <= 4096,
    ;
    assert(isse_step(w, st, err) == w + d);
    assert(st * (w + d) == st * w + st * d) by (nonlinear_arith);
    assert(err >= 0 ==> st * d >= 0) by (nonlinear_arith)
        requires
            d == (st * err) / 4096,
    {
        if err >= 0 {
            if st >= 0 {
                assert(st * err >= 0);
                assert(d >= 0);
            } else {
                assert(st * err <= 0);
                assert(d <= 0);
            }
        }
    }
    assert(err <= 0 ==> st * d <= 0) by (nonlinear_arith)
        requires
            d == (st * err) / 4096,
    {
        if err <= 0 {
            if st >= 0 {
                assert(st * err <= 0);
                assert(d <= 0);
            } else {
                assert(st * err >= 0);
                assert(d >= 0);
            }
        }
    }
}

/// Each stage of the chain learns: for the same inputs in the same history its sum
/// goes up after a one and down after a zero, wherever no weight overflows.
pub proof fn lemma_chain_learns(m: IsseState, one: bool, k: int)
    requires
        m.wf(),
        0 <= k < 6,
        m.cache[k].p_out <= 4095,
        forall|a: int| 0 <= a < 6 ==> 256 * a <= (#[trigger] m.cache[a]).wi < 256 * a + 256,
        ({
            let c = m.cache[k];
            let err = error_of(one, c.p_out as int);
            &&& i32::MIN <= m.w0[c.wi as int] + (c.st_in * err) / 4096 <= i32::MAX
            &&& i32::MIN <= m.w1[c.wi as int] + (c.st_icm * err) / 4096 <= i32::MAX
        }),
    ensures
        ({
            let c = m.cache[k];
            let u = m.updated(one);
            let before = c.st_in * m.w0[c.wi as int] + c.st_icm * m.w1[c.wi as int];
            let after = c.st_in * u.w0[c.wi as int] + c.st_icm * u.w1[c.wi as int];
            &&& one ==> after >= before
            &&& !one ==> after <= before
        }),
{
    let c = m.cache[k];
    let err = error_of(one, c.p_out as int);
    lemma_stage_stepped(m.w0, m.cache, one, false, 6, k);
    lemma_stage_stepped(m.w1, m.cache, one, true, 6, k);
    lemma_pull(m.w0[c.wi as int], c.st_in, err);
    lemma_pull(m.w1[c.wi as int], c.st_icm, err);
}

/// How many codes an interval has.
pub open spec fn codes(r: Interval) -> int {
    r.hi - r.lo + 1
}

/// A bit is given the share of the codes that its probability says, but for one
/// code, and both bits together have them all.
pub proof fn lemma_codes_shared(r: Interval, p: int)
    requires
        is_open(r),
        0 <= p < 4096,
    ensures
        codes(part(r, true, p)) + codes(part(r, false, p)) == codes(r),
        4096 * (codes(part(r, true, p)) - 1) <= (codes(r) - 1) * p < 4096 * codes(part(r, true, p)),
        codes(part(r, true, p)) >= 1,
        codes(part(r, false, p)) >= 1,
{
    lemma_split(r, p);
    let x = (r.hi - r.lo) * p;
    assert(split_at(r, p) - r.lo == x / 4096);
}

/// A byte is written only for a factor of 256: what is left of an interval once its
/// bytes are out has as many times more codes.
pub proof fn lemma_bytes_earned(r: Interval)
    requires
        is_interval(r),
    ensures
        codes(normal(r)) == pow(256, common(r).len()) * codes(r),
    decreases 0x1_0000_0000 - (r.hi - r.lo),
{
    lemma_pow0(256);
    if r.lo / 0x100_0000 == r.hi / 0x100_0000 {
        let q = shifted(r);
        assert(codes(q) == 256 * codes(r));
        lemma_bytes_earned(q);
        let k = common(q).len();
        assert(common(r).len() == k + 1);
        assert(pow(256, k + 1) == 256 * pow(256, k)) by {
            reveal(pow);
        }
        assert(pow(256, k) * (256 * codes(r)) == (256 * pow(256, k)) * codes(r)) by (nonlinear_arith);
    } else {
        assert(1 * codes(r) == codes(r));
    }
}

} // verus!
