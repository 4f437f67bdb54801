//! What learning does: counters move towards the bits they see, by less the more
//! they have seen; the mixer's weights move so that its sum goes towards the bit;
//! and bytes that come again are found.

use crate::cm::apm::ApmState;
use crate::cm::config::{bits_for, capped_bits, ceil_log2, lemma_ceil_log2, mem_of, wanted_bits};
use crate::cm::context_law::{byte_back, lemma_same_window, same_tail, seen};
use crate::cm::counter::{
    adapted, conf_next, lemma_slot, lemma_sm, rate_at, slot_check, slot_next, slot_ok, slot_prob, slot_rate,
    slot_state, sm_count, sm_next, sm_ok, sm_prob,
};
use crate::cm::history::splitmix_of;
use crate::cm::isse::error_of;
use crate::cm::matcher::{lemma_table, table_index, table_len, MatchState};
use crate::cm::mixer::{bank_after, dot, mix_step, MixerState};
use crate::cm::model::ModelState;
use crate::cm::slots::implied_prob;
use crate::cm::squash::{first_reaching, squash_at, stretch_at};
use crate::cm::states::{
    discounted, find_pair, next_pair, next_state, shrink, state_pairs, states_ok, valid_pair,
};
use vstd::arithmetic::power2::{lemma2_to64, lemma_pow2_adds, lemma_pow2_strictly_increases, pow2};
use vstd::prelude::*;

verus! {

/// Whether a probability of 65536 that was `p`, and had seen `n` bits, is `q` once
/// it has seen one more: an even share of all of them, up to rounding.
pub open spec fn shares(p: int, n: int, one: bool, q: int) -> bool {
    &&& 1 <= q <= 65535
    &&& one ==> p <= q && (q - p) * (n + 2) <= 65535 - p <= (q - p + 2) * (n + 2)
    &&& !one ==> q <= p && (p - q - 1) * (n + 2) <= p - 1 <= (p - q + 1) * (n + 2)
}

proof fn lemma_rate_share(d: int, n: int)
    requires
        0 <= d <= 65534,
        0 <= n,
    ensures
        ({
            let up = (d * (65536int / (n + 2))) / 65536;
            &&& 0 <= up <= d
            &&& up * (n + 2) <= d <= (up + 2) * (n + 2)
        }),
        ({
            let down = (-d * (65536int / (n + 2))) / 65536;
            &&& -d <= down <= 0
            &&& (-down - 1) * (n + 2) <= d <= (-down + 1) * (n + 2)
        }),
{
    let m = n + 2;
    let r = 65536int / m;
    assert(r * m <= 65536 < (r + 1) * m && r >= 0) by (nonlinear_arith)
        requires
            m >= 2,
            r == 65536int / m,
    ;
    let x = d * r;
    let up = x / 65536;
    let down = (-d * r) / 65536;
    assert(-d * r == -x) by (nonlinear_arith)
        requires
            x == d * r,
    ;
    assert(65536 * up <= x < 65536 * up + 65536);
    assert(65536 * down <= -x < 65536 * down + 65536);
    assert(x * m <= 65536 * d) by (nonlinear_arith)
        requires
            x == d * r,
            r * m <= 65536,
            d >= 0,
    ;
    assert(x * m + d * m >= 65536 * d) by (nonlinear_arith)
        requires
            x == d * r,
            65536 < (r + 1) * m,
            d >= 0,
    ;
    assert(x >= 0) by (nonlinear_arith)
        requires
            x == d * r,
            d >= 0,
            r >= 0,
    ;
    assert(d * m <= 65536 * m) by (nonlinear_arith)
        requires
            d <= 65534,
            m >= 2,
    ;
    assert(up * m <= d) by (nonlinear_arith)
        requires
            65536 * up <= x,
            x * m <= 65536 * d,
            m >= 2,
    ;
    assert(d <= (up + 2) * m) by (nonlinear_arith)
        requires
            x < 65536 * up + 65536,
            x * m + d * m >= 65536 * d,
            d * m <= 65536 * m,
            m >= 2,
    ;
    assert(up <= d) by (nonlinear_arith)
        requires
            up * m <= d,
            m >= 2,
            up >= 0,
    ;
    assert((-down - 1) * m <= d) by (nonlinear_arith)
        requires
            -x < 65536 * down + 65536,
            x * m <= 65536 * d,
            m >= 2,
    ;
    assert(d <= (-down + 1) * m) by (nonlinear_arith)
        requires
            65536 * down <= -x,
            x * m + d * m >= 65536 * d,
            d * m <= 65536 * m,
            m >= 2,
    ;
    assert(-d <= down) by (nonlinear_arith)
        requires
            (-down - 1) * m <= d,
            -x < 65536 * down + 65536,
            x * m <= 65536 * d,
            m >= 2,
            d >= 0,
            x >= 0,
            65536 * down <= -x,
    ;
}

/// A probability that has seen `n` bits moves by an even share of what is left.
pub proof fn lemma_adapts(p: int, n: int, one: bool)
    requires
        1 <= p <= 65535,
        0 <= n,
    ensures
        shares(p, n, one, adapted(p, one, 65536int / (n + 2))),
{
    if one {
        lemma_rate_share(65535 - p, n);
    } else {
        lemma_rate_share(p - 1, n);
        assert(1 - p == -(p - 1));
    }
}

proof fn lemma_slot_parts(slot: u32, state: u32, p: u32)
    requires
        state <= 255,
        1 <= p <= 65535,
    ensures
        ({
            let x = (slot & 0xff00_0000) | (state << 16) | p;
            &&& x & 0xffff == p
            &&& (x >> 16) & 0xff == state
            &&& x >> 24 == slot >> 24
        }),
{
    assert(((slot & 0xff00_0000) | (state << 16) | p) & 0xffff == p && (((slot & 0xff00_0000) | (state
        << 16) | p) >> 16) & 0xff == state && ((slot & 0xff00_0000) | (state << 16) | p) >> 24 == slot
        >> 24) by (bit_vector)
        requires
            state <= 255,
            1 <= p <= 65535,
    ;
}

/// The slot of a context, once it has seen a bit: it is still that context's; its
/// probability is an even share of what it has seen, of which it remembers at most
/// 95; and its history of bits has gone on with the bit.
pub proof fn lemma_slot_learns(slot: u32, one: bool)
    requires
        slot_ok(slot),
        states_ok(),
    ensures
        ({
            let c = state_pairs()[slot_state(slot) as int];
            let seen = if c.0 + c.1 < 95 {
                c.0 + c.1
            } else {
                95
            };
            &&& slot_check(slot_next(slot, one)) == slot_check(slot)
            &&& shares(slot_prob(slot), seen, one, slot_prob(slot_next(slot, one)))
            &&& slot_state(slot_next(slot, one)) == next_state(
                slot_state(slot) as int,
                if one {
                    1
                } else {
                    0
                },
            )
        }),
{
    let s = slot_state(slot) as int;
    let c = state_pairs()[s];
    let n: int = if c.0 + c.1 < 95 {
        c.0 + c.1
    } else {
        95
    };
    let bit: int = if one {
        1
    } else {
        0
    };
    lemma_slot(slot);
    let p = slot_prob(slot);
    lemma_adapts(p, n, one);
    assert(rate_at(n, 0) == 65536int / (n + 2)) by {
        assert(65536int / (n + 2) >= 0) by (nonlinear_arith)
            requires
                n >= 0,
        ;
    }
    let q = adapted(p, one, slot_rate(c.0 + c.1));
    assert(next_state(s, bit) < state_pairs().len());
    lemma_slot_parts(slot, next_state(s, bit) as u32, q as u32);
}

/// A history of bits: a one is one more one, and shortens a long run of zeros; and
/// the other way round. Where no bound is reached, nothing else changes.
pub proof fn lemma_history_counts(n0: nat, n1: nat)
    requires
        n0 <= 2,
        n1 <= 2,
    ensures
        next_pair(n0, n1, 1) == (n0, n1 + 1),
        next_pair(n0, n1, 0) == (n0 + 1, n1),
{
}

proof fn lemma_pair_found(pairs: Seq<(u8, u8)>, a: nat, b: nat, from: nat)
    ensures
        find_pair(pairs, a, b, from) < pairs.len() ==> ({
            let p = pairs[find_pair(pairs, a, b, from) as int];
            p.0 == a && p.1 == b
        }),
    decreases pairs.len() - from,
{
    if from < pairs.len() && !(pairs[from as int].0 == a && pairs[from as int].1 == b) {
        lemma_pair_found(pairs, a, b, from + 1);
    }
}

proof fn lemma_shrink_least(a: nat, b: nat)
    ensures
        ({
            let (x, y) = shrink(a, b);
            &&& x <= a
            &&& y <= b
            &&& valid_pair(x as int, y as int)
        }),
        valid_pair(a as int, b as int) ==> shrink(a, b) == (a, b),
    decreases a + b,
{
    if valid_pair(a as int, b as int) {
    } else if a > b {
        lemma_shrink_least((a - 1) as nat, b);
    } else if b > 0 {
        lemma_shrink_least(a, (b - 1) as nat);
    }
}

/// The history that follows on a bit: one more of that bit; of the other, where
/// there were more than two, half as many and one. Where that is more than can be
/// told apart (forty of one bit alone, ten beside one of the other, six beside two,
/// five beside three, four beside four), the counts are lowered.
pub proof fn lemma_history_follows(s: int, one: bool)
    requires
        states_ok(),
        0 <= s < state_pairs().len(),
    ensures
        ({
            let now = state_pairs()[s];
            let bit: int = if one {
                1
            } else {
                0
            };
            let then = state_pairs()[next_state(s, bit) as int];
            let (same, other) = if one {
                (now.1 as int, now.0 as int)
            } else {
                (now.0 as int, now.1 as int)
            };
            let (same1, other1) = if one {
                (then.1 as int, then.0 as int)
            } else {
                (then.0 as int, then.1 as int)
            };
            let fewer = if other > 2 {
                other / 2 + 1
            } else {
                other
            };
            let lo = if same + 1 < fewer {
                same + 1
            } else {
                fewer
            };
            let hi = if same + 1 < fewer {
                fewer
            } else {
                same + 1
            };
            let room = lo == 0 && hi <= 40 || lo == 1 && hi <= 10 || lo == 2 && hi <= 6 || lo == 3
                && hi <= 5 || lo == 4 && hi <= 4;
            &&& same1 <= same + 1
            &&& other1 <= fewer
            &&& room ==> same1 == same + 1 && other1 == fewer
        }),
{
    let bit: int = if one {
        1
    } else {
        0
    };
    let now = state_pairs()[s];
    let p = next_pair(now.0 as nat, now.1 as nat, bit);
    assert(next_state(s, bit) < state_pairs().len());
    lemma_pair_found(state_pairs(), p.0, p.1, 0);
    if one {
        lemma_shrink_least(discounted(now.0 as nat), (now.1 + 1) as nat);
    } else {
        lemma_shrink_least((now.0 + 1) as nat, discounted(now.1 as nat));
    }
}

/// The entry of a history's own map, once it has seen a bit: an even share of what
/// it has seen, of which it remembers no more than a 512th lets it forget.
pub proof fn lemma_map_learns(e: u32, one: bool)
    requires
        sm_ok(e),
        1 <= sm_prob(e),
        sm_count(e) <= 510,
    ensures
        shares(sm_prob(e) as int, sm_count(e) as int, one, sm_prob(sm_next(e, one)) as int),
        sm_count(sm_next(e, one)) == sm_count(e) + 1,
{
    let n = sm_count(e) as int;
    let p = sm_prob(e) as int;
    lemma_sm(0, 0, e);
    lemma_adapts(p, n, one);
    assert(65536int / (n + 2) >= 128) by (nonlinear_arith)
        requires
            0 <= n <= 510,
    ;
    lemma_sm(adapted(p, one, rate_at(n, 128)) as u32, (n + 1) as u32, e);
}

/// An entry that has seen more goes on forgetting: it moves by a 512th of what is
/// left, and counts up to 1023.
pub proof fn lemma_map_forgets(e: u32, one: bool)
    requires
        sm_ok(e),
        1 <= sm_prob(e),
        sm_count(e) > 510,
    ensures
        ({
            let p = sm_prob(e) as int;
            let q = sm_prob(sm_next(e, one)) as int;
            &&& one ==> 512 * (q - p) <= 65535 - p < 512 * (q - p) + 512
            &&& !one ==> 512 * (p - q) >= p - 1 > 512 * (p - q) - 512
            &&& sm_count(sm_next(e, one)) == if sm_count(e) < 1023 {
                sm_count(e) + 1
            } else {
                1023
            }
        }),
{
    let n = sm_count(e) as int;
    let p = sm_prob(e) as int;
    lemma_sm(0, 0, e);
    assert(65536int / (n + 2) <= 128) by (nonlinear_arith)
        requires
            n > 510,
    ;
    assert(rate_at(n, 128) == 128);
    let q = adapted(p, one, 128);
    let m = if n < 1023 {
        n + 1
    } else {
        n
    };
    lemma_sm(q as u32, m as u32, e);
}

/// How sure a match is: an even share of how often it was right, of which a
/// counter remembers 90.
pub proof fn lemma_match_learns(e: u32, right: bool)
    requires
        slot_state(e) <= 90,
    ensures
        shares(slot_prob(e), slot_state(e) as int, right, slot_prob(conf_next(e, right))),
        slot_state(conf_next(e, right)) == if slot_state(e) < 89 {
            slot_state(e) + 1
        } else {
            90
        },
{
    let n = slot_state(e) as int;
    lemma_slot(e);
    lemma_adapts(slot_prob(e), n, right);
    assert(rate_at(n, 0) == 65536int / (n + 2)) by {
        assert(65536int / (n + 2) >= 0) by (nonlinear_arith)
            requires
                n >= 0,
        ;
    }
    let q = adapted(slot_prob(e), right, slot_rate(n)) as u32;
    let m: u32 = (if n + 1 < 90 {
        n + 1
    } else {
        90
    }) as u32;
    assert(((m << 16) | q) & 0xffff == q && (((m << 16) | q) >> 16) & 0xff == m) by (bit_vector)
        requires
            m <= 90,
            q <= 65535,
    ;
}

/// What a history implies before its map has seen anything: its share of ones, with
/// half a one and half a zero more.
pub proof fn lemma_map_starts(s: int)
    requires
        0 <= s < state_pairs().len(),
    ensures
        ({
            let c = state_pairs()[s];
            let n = 2 * (c.0 + c.1) + 2;
            implied_prob(s) * n <= (2 * c.1 + 1) * 65536 < (implied_prob(s) + 1) * n
        }),
{
    let c = state_pairs()[s];
    let n = 2 * (c.0 + c.1) + 2;
    let x = (2 * c.1 + 1) * 65536;
    let p = x / n;
    assert(p * n <= x < (p + 1) * n && 1 <= p <= 65535) by (nonlinear_arith)
        requires
            n == 2 * (c.0 + c.1) + 2,
            x == (2 * c.1 + 1) * 65536,
            p == x / n,
            0 <= c.0 <= 255,
            0 <= c.1 <= 255,
    ;
}

/// A weight of the mixer moves by its input times the error, in 16384ths; those of
/// other contexts stay.
pub proof fn lemma_weight_steps(m: MixerState, one: bool, i: int)
    requires
        m.wf(),
        m.pr <= 4095,
        0 <= i < m.wx.len(),
    ensures
        ({
            let err: int = if one {
                4096 - m.pr
            } else {
                -m.pr
            };
            let w = m.wx[i] as int;
            let v = m.updated(one).wx[i] as int;
            let k = i % 31;
            let move_by = (m.inputs[k] * err) / 16384;
            let used = i / 31 == m.ctx || i / 31 == m.ctx2;
            &&& !used ==> v == w
            &&& used && i32::MIN <= w + move_by <= i32::MAX ==> 16384 * (v - w) <= m.inputs[k] * err
                < 16384 * (v - w) + 16384
        }),
{
    let err = error_of(one, m.pr);
    let k = i % 31;
    let c = i / 31;
    assert(i == c * 31 + k);
    assert(-2047 <= m.inputs[k] <= 2047);
    assert(-134150145 <= m.inputs[k] * err <= 134150145) by (nonlinear_arith)
        requires
            -2047 <= m.inputs[k] <= 2047,
            -65535 <= err <= 65535,
    ;
    if c != m.ctx {
        assert(!(m.ctx * 31 <= i < m.ctx * 31 + 31));
    }
    if c != m.ctx2 {
        assert(!(m.ctx2 * 31 <= i < m.ctx2 * 31 + 31));
    }
}

/// A refinement moves the two steps that it read from towards the bit, by a 128th
/// of what is left, and no others.
pub proof fn lemma_refinement_learns(a: ApmState, n: nat, one: bool, k: int)
    requires
        a.wf(n),
        0 <= k < a.t.len(),
    ensures
        ({
            let t = a.t[k] as int;
            let u = a.updated(one).t[k] as int;
            let read = k == a.index || k == a.index + 1;
            &&& !read ==> u == t
            &&& read && one ==> 128 * (u - t) <= 65535 - t < 128 * (u - t) + 128
            &&& read && !one ==> 128 * (t - u) >= t > 128 * (t - u) - 128
        }),
{
}

proof fn lemma_step_sign(w: i32, x: i32, err: int)
    requires
        -2047 <= x <= 2047,
        -65535 <= err <= 65535,
        i32::MIN <= w + (x * err) / 16384 <= i32::MAX,
    ensures
        err >= 0 ==> x * mix_step(w, x, err) >= x * w,
        err <= 0 ==> x * mix_step(w, x, err) <= x * w,
{
    let d = (x * err) / 16384;
    assert(-134150145 <= x * err <= 134150145) by (nonlinear_arith)
        requires
            -2047 <= x <= 2047,
            -65535 <= err <= 65535,
    ;
    assert(mix_step(w, x, err) == w + d);
    assert(x * (w + d) == x * w + x * d) by (nonlinear_arith);
    if err >= 0 {
        if x >= 0 {
            assert(x * err >= 0) by (nonlinear_arith)
                requires
                    x >= 0,
                    err >= 0,
            ;
            assert(x * d >= 0) by (nonlinear_arith)
                requires
                    x >= 0,
                    d >= 0,
            ;
        } else {
            assert(x * err <= 0) by (nonlinear_arith)
                requires
                    x <= 0,
                    err >= 0,
            ;
            assert(x * d >= 0) by (nonlinear_arith)
                requires
                    x <= 0,
                    d <= 0,
            ;
        }
    }
    if err <= 0 {
        if x >= 0 {
            assert(x * err <= 0) by (nonlinear_arith)
                requires
                    x >= 0,
                    err <= 0,
            ;
            assert(x * d <= 0) by (nonlinear_arith)
                requires
                    x >= 0,
                    d <= 0,
            ;
        } else {
            assert(x * err >= 0) by (nonlinear_arith)
                requires
                    x <= 0,
                    err <= 0,
            ;
            assert(x * d <= 0) by (nonlinear_arith)
                requires
                    x <= 0,
                    d >= 0,
            ;
        }
    }
}

/// Whether no weight of a context overflows on the next step.
pub open spec fn has_room(wx: Seq<i32>, inputs: Seq<i32>, ctx: int, err: int) -> bool {
    forall|k: int|
        0 <= k < 31 ==> i32::MIN <= #[trigger] wx[ctx * 31 + k] + (inputs[k] * err) / 16384
            <= i32::MAX
}

proof fn lemma_dot_moves(wx: Seq<i32>, inputs: Seq<i32>, ctx: int, err: int, n: nat)
    requires
        n <= 31,
        0 <= ctx,
        ctx * 31 + 31 <= wx.len(),
        forall|i: int| 0 <= i < 31 ==> -2047 <= #[trigger] inputs[i] <= 2047,
        -65535 <= err <= 65535,
        has_room(wx, inputs, ctx, err),
    ensures
        err >= 0 ==> dot(inputs, bank_after(wx, inputs, ctx, err, 31), ctx * 31, n) >= dot(
            inputs,
            wx,
            ctx * 31,
            n,
        ),
        err <= 0 ==> dot(inputs, bank_after(wx, inputs, ctx, err, 31), ctx * 31, n) <= dot(
            inputs,
            wx,
            ctx * 31,
            n,
        ),
    decreases n,
{
    if n > 0 {
        let k = n - 1;
        let i = ctx * 31 + k;
        lemma_dot_moves(wx, inputs, ctx, err, k as nat);
        assert(i32::MIN <= wx[ctx * 31 + k] + (inputs[k] * err) / 16384 <= i32::MAX);
        assert(-2047 <= inputs[k] <= 2047);
        lemma_step_sign(wx[i], inputs[k], err);
        let after = bank_after(wx, inputs, ctx, err, 31);
        assert(after[i] == mix_step(wx[i], inputs[k], err));
        assert(ctx * 31 + n - 1 == i);
    }
}

proof fn lemma_other_bank(wx: Seq<i32>, inputs: Seq<i32>, ctx: int, other: int, err: int, n: nat)
    requires
        n <= 31,
        0 <= ctx,
        0 <= other,
        ctx != other,
        ctx * 31 + 31 <= wx.len(),
        other * 31 + 31 <= wx.len(),
    ensures
        dot(inputs, bank_after(wx, inputs, other, err, 31), ctx * 31, n) == dot(
            inputs,
            wx,
            ctx * 31,
            n,
        ),
    decreases n,
{
    if n > 0 {
        lemma_other_bank(wx, inputs, ctx, other, err, (n - 1) as nat);
    }
}

/// The mixer's sum for the same inputs in the same contexts goes towards the bit
/// that came: up for a one, down for a zero, wherever no weight overflows.
pub proof fn lemma_mixer_learns(m: MixerState, one: bool)
    requires
        m.wf(),
        m.pr <= 4095,
        has_room(m.wx, m.inputs, m.ctx, error_of(one, m.pr)),
        has_room(m.wx, m.inputs, m.ctx2, error_of(one, m.pr)),
    ensures
        ({
            let u = m.updated(one);
            let before = dot(m.inputs, m.wx, m.ctx * 31, 31) + dot(m.inputs, m.wx, m.ctx2 * 31, 31);
            let after = dot(m.inputs, u.wx, m.ctx * 31, 31) + dot(m.inputs, u.wx, m.ctx2 * 31, 31);
            &&& one ==> after >= before
            &&& !one ==> after <= before
        }),
{
    let err = error_of(one, m.pr);
    let w1 = bank_after(m.wx, m.inputs, m.ctx, err, 31);
    let w2 = bank_after(w1, m.inputs, m.ctx2, err, 31);
    lemma_dot_moves(m.wx, m.inputs, m.ctx, err, 31);
    lemma_other_bank(m.wx, m.inputs, m.ctx2, m.ctx, err, 31);
    lemma_other_bank(w1, m.inputs, m.ctx, m.ctx2, err, 31);
    assert forall|k: int| 0 <= k < 31 implies i32::MIN <= #[trigger] w1[m.ctx2 * 31 + k] + (
    m.inputs[k] * err) / 16384 <= i32::MAX by {
        assert(w1[m.ctx2 * 31 + k] == m.wx[m.ctx2 * 31 + k]);
    }
    lemma_dot_moves(w1, m.inputs, m.ctx2, err, 31);
}

proof fn lemma_reaching(p: int, x: int)
    requires
        -2047 <= x <= 2047,
    ensures
        ({
            let y = first_reaching(p, x);
            &&& x <= y <= 2047
            &&& y < 2047 ==> squash_at(y) >= p
            &&& y > x ==> squash_at(y - 1) < p
        }),
    decreases 2047 - x,
{
    if x < 2047 && squash_at(x) < p {
        lemma_reaching(p, x + 1);
    }
}

/// Stretching undoes squashing: the stretched form of a probability is the first
/// value whose squashed form reaches it.
pub proof fn lemma_stretch_inverts(p: int)
    ensures
        ({
            let x = stretch_at(p);
            &&& -2047 <= x <= 2047
            &&& x < 2047 ==> squash_at(x) >= p
            &&& x > -2047 ==> squash_at(x - 1) < p
        }),
{
    reveal(stretch_at);
    lemma_reaching(p, -2047);
}

/// What is predicted is a probability that a bit can be coded under.
pub proof fn lemma_predicts_some(m: ModelState)
    ensures
        1 <= m.prob() <= 4095,
{
}

/// Bytes that come again are found: where the last eight bytes stood before, the
/// table still says where, and no match is followed, a match starts behind them.
pub proof fn lemma_repeat_found(
    a: Seq<u8>,
    b: Seq<u8>,
    stride: nat,
    bpp: nat,
    before: MatchState,
    now: MatchState,
)
    requires
        16 <= now.bits <= 30,
        before.bits == now.bits,
        before.tbl.len() == now.tbl.len(),
        now.tbl.len() == table_len(now.bits),
        8 <= a.len() < b.len() <= u32::MAX,
        a == b.take(a.len() as int),
        same_tail(a, b, 8),
        now.len == 0,
        ({
            let i = table_index(splitmix_of(seen(a, stride, bpp).window), now.bits) as int;
            now.tbl[i] == before.after_byte(seen(a, stride, bpp)).tbl[i]
        }),
    ensures
        now.after_byte(seen(b, stride, bpp)).len == 8,
        now.after_byte(seen(b, stride, bpp)).pos == a.len(),
{
    lemma_same_window(a, b, stride, bpp);
    let n = a.len() as int;
    let i = table_index(splitmix_of(seen(a, stride, bpp).window), now.bits);
    lemma_table(splitmix_of(seen(a, stride, bpp).window), now.bits);
    assert(before.after_byte(seen(a, stride, bpp)).tbl[i as int] == n);
    let x = b.subrange(n - 8, n);
    let y = b.subrange(b.len() - 8, b.len() as int);
    assert(x =~= y) by {
        assert forall|k: int| 0 <= k < 8 implies #[trigger] x[k] == y[k] by {
            assert(byte_back(a, 8 - k) == byte_back(b, 8 - k));
            assert(a[n - 8 + k] == b[n - 8 + k]);
        }
    }
}

proof fn lemma_capped_full(table_bits: nat, match_bits: nat, cap: nat)
    requires
        mem_of(table_bits, match_bits) <= cap,
    ensures
        capped_bits(table_bits, match_bits, cap) == (table_bits, match_bits),
{
}

proof fn lemma_capped_least(table_bits: nat, match_bits: nat, cap: nat)
    requires
        16 <= match_bits <= table_bits,
    ensures
        ({
            let (t, m) = capped_bits(table_bits, match_bits, cap);
            &&& t <= table_bits
            &&& m == if match_bits < t {
                match_bits
            } else {
                t
            }
            &&& t < table_bits ==> mem_of(
                t + 1,
                if match_bits < t + 1 {
                    match_bits
                } else {
                    t + 1
                },
            ) > cap
        }),
    decreases table_bits,
{
    if table_bits > 16 && mem_of(table_bits, match_bits) > cap {
        let t = (table_bits - 1) as nat;
        lemma_capped_least(
            t,
            if match_bits < t {
                match_bits
            } else {
                t
            },
            cap,
        );
    }
}

/// A model whose memory is short has the largest tables that fit: tables of twice
/// the size would not.
pub proof fn lemma_memory_used(len: nat, cap: nat)
    ensures
        ({
            let want = wanted_bits(len);
            let (t, m) = bits_for(len, cap);
            &&& t < want.0 ==> mem_of(
                t + 1,
                if want.1 < t + 1 {
                    want.1
                } else {
                    t + 1
                },
            ) > cap
            &&& m == if want.1 < t {
                want.1
            } else {
                t
            }
        }),
{
    lemma_capped_least(wanted_bits(len).0, wanted_bits(len).1, cap);
}

/// A model whose memory is not short has a slot for each bit of the data in every
/// table, up to 64 Mi of them, and an entry for each byte in the table of matches,
/// up to 16 Mi.
pub proof fn lemma_model_large(len: nat, cap: nat)
    requires
        mem_of(26, 24) <= cap,
    ensures
        pow2(bits_for(len, cap).0) >= 8 * len || bits_for(len, cap).0 == 26,
        pow2(bits_for(len, cap).1) >= len || bits_for(len, cap).1 == 24,
{
    let w = wanted_bits(len);
    lemma2_to64();
    if w.0 < 26 {
        lemma_pow2_strictly_increases(w.0, 26);
    }
    if w.1 < 24 {
        lemma_pow2_strictly_increases(w.1, 24);
    }
    lemma_capped_full(w.0, w.1, cap);
    let lg = ceil_log2(len);
    lemma_ceil_log2(len);
    lemma_pow2_adds(lg, 3);
    assert(pow2(lg) * 8 == pow2(lg + 3));
    if lg + 3 < 16 {
        lemma_pow2_strictly_increases(lg + 3, 16);
    }
    if lg < 16 {
        lemma_pow2_strictly_increases(lg, 16);
    }
}

} // verus!
