//! Adaptive probabilities: the packed slots of the context tables and the
//! entries of the state maps.

use crate::cm::squash::clamp;
use crate::cm::states::{next_state, state_pairs, states_ok, StateTable};
use vstd::prelude::*;

verus! {

/// An arithmetic shift right by 16 is division, rounded down.
pub proof fn lemma_shr16(x: i32)
    ensures
        x >> 16 == x as int / 65536,
{
    let q = x >> 16;
    assert(q * 65536 <= x && x < q * 65536 + 65536) by (bit_vector)
        requires
            q == x >> 16,
    ;
}

/// `p` (of 65536) moved towards a one or a zero by `rate` parts of 65536.
pub open spec fn adapted(p: int, one: bool, rate: int) -> int {
    let target: int = if one {
        65535
    } else {
        1
    };
    clamp(p + ((target - p) * rate) / 65536, 1, 65535)
}

pub fn adapt(p: i32, one: bool, rate: u32) -> (np: u32)
    requires
        0 <= p <= 65535,
        rate <= 32768,
    ensures
        np == adapted(p as int, one, rate as int),
        1 <= np <= 65535,
{
    let target: i32 = if one {
        65535
    } else {
        1
    };
    proof {
        let d: int = target - p;
        assert(-2147483648 <= d * rate <= 2147483647) by (nonlinear_arith)
            requires
                -65534 <= d <= 65535,
                0 <= rate <= 32768,
        ;
        lemma_shr16((d * rate) as i32);
    }
    let q: i32 = p + (((target - p) * (rate as i32)) >> 16);
    if q < 1 {
        1
    } else if q > 65535 {
        65535
    } else {
        q as u32
    }
}

/// A slot holds `check (8 bits) | state (8 bits) | probability (16 bits)`.
pub open spec fn slot_state(slot: u32) -> u32 {
    (slot >> 16) & 0xff
}

pub open spec fn slot_check(slot: u32) -> u32 {
    slot >> 24
}

/// The probability that a one follows, of 65536; zero stands for one half.
pub open spec fn slot_prob(slot: u32) -> int {
    if slot & 0xffff == 0 {
        32768
    } else {
        (slot & 0xffff) as int
    }
}

/// The slot made of its three parts.
pub open spec fn slot_of(check_bits: u32, state: u32, p: u32) -> u32 {
    check_bits | (state << 16) | p
}

pub proof fn lemma_slot(slot: u32)
    ensures
        slot_state(slot) <= 255,
        slot & 0xffff <= 65535,
        slot_check(slot) <= 255,
{
    assert((slot >> 16) & 0xff <= 255 && slot & 0xffff <= 65535 && slot >> 24 <= 255)
        by (bit_vector);
}

pub proof fn lemma_slot_of(slot: u32, state: u32, p: u32)
    requires
        state <= 255,
        p <= 65535,
    ensures
        slot_state(slot_of(slot & 0xff00_0000, state, p)) == state,
{
    assert((((slot & 0xff00_0000) | (state << 16) | p) >> 16) & 0xff == state) by (bit_vector)
        requires
            state <= 255,
            p <= 65535,
    ;
}

/// A fresh slot under `check` is in the first state.
pub proof fn lemma_fresh_slot(check: u32)
    requires
        check <= 255,
    ensures
        slot_state(check << 24) == 0,
        slot_check(check << 24) == check,
        slot_state(0) == 0,
{
    assert(((check << 24) >> 16) & 0xff == 0 && (check << 24) >> 24 == check && (0u32 >> 16) & 0xff
        == 0) by (bit_vector)
        requires
            check <= 255,
    ;
}

pub fn slot_p(slot: u32) -> (p: i32)
    ensures
        p == slot_prob(slot),
        1 <= p <= 65535,
{
    proof {
        lemma_slot(slot);
    }
    let p: u32 = slot & 0xffff;
    if p == 0 {
        32768
    } else {
        p as i32
    }
}

/// A state-map entry holds `probability (16 bits) | count (16 bits)`.
pub open spec fn sm_prob(e: u32) -> u32 {
    e >> 16
}

pub open spec fn sm_count(e: u32) -> u32 {
    e & 0xffff
}

pub open spec fn sm_of(p: u32, n: u32) -> u32 {
    (p << 16) | n
}

pub proof fn lemma_sm(p: u32, n: u32, e: u32)
    requires
        p <= 65535,
        n <= 65535,
    ensures
        sm_prob(sm_of(p, n)) == p,
        sm_count(sm_of(p, n)) == n,
        sm_prob(e) <= 65535,
        sm_count(e) <= 65535,
        sm_of(p, 0) == p << 16,
{
    assert(((p << 16) | n) >> 16 == p && ((p << 16) | n) & 0xffff == n && e >> 16 <= 65535 && e
        & 0xffff <= 65535 && (p << 16) | 0 == p << 16) by (bit_vector)
        requires
            p <= 65535,
            n <= 65535,
    ;
}

pub fn sm_p(e: u32) -> (p: i32)
    ensures
        p == sm_prob(e),
        0 <= p <= 65535,
{
    proof {
        lemma_sm(0, 0, e);
    }
    (e >> 16) as i32
}

/// Rates: entry `n` is `65536 / (n + 2)`, but at least `floor`.
pub open spec fn rate_at(n: int, floor: int) -> int {
    let r: int = 65536int / (n + 2);
    if r < floor {
        floor
    } else {
        r
    }
}

pub open spec fn is_rates(r: Seq<u32>, len: int, floor: int) -> bool {
    &&& r.len() == len
    &&& forall|n: int| 0 <= n < len ==> #[trigger] r[n] == rate_at(n, floor)
}

pub proof fn lemma_rate(n: int, floor: int)
    requires
        0 <= n,
        0 <= floor <= 32768,
    ensures
        0 <= rate_at(n, floor) <= 32768,
{
    assert(0 <= 65536int / (n + 2) <= 32768) by (nonlinear_arith)
        requires
            0 <= n,
    ;
}

pub fn build_rates(len: usize, floor: u32) -> (r: Vec<u32>)
    requires
        len <= 65536,
        floor <= 32768,
    ensures
        is_rates(r@, len as int, floor as int),
{
    let mut r: Vec<u32> = Vec::new();
    let mut n: usize = 0;
    while n < len
        invariant
            n <= len <= 65536,
            floor <= 32768,
            is_rates(r@, n as int, floor as int),
        decreases len - n,
    {
        let q: u32 = 65536 / (n as u32 + 2);
        r.push(if q < floor {
            floor
        } else {
            q
        });
        n += 1;
    }
    r
}

/// The rates of the slots' own probabilities.
pub open spec fn slot_rate(n: int) -> int {
    rate_at(if n < 95 { n } else { 95 }, 0)
}

/// The state-map entry after `bit`: the probability moves at the rate of its
/// count, and the count grows up to 1023.
pub open spec fn sm_next(e: u32, one: bool) -> u32 {
    let n = sm_count(e) as int;
    sm_of(
        adapted(sm_prob(e) as int, one, rate_at(n, 128)) as u32,
        (if n < 1023 {
            n + 1
        } else {
            n
        }) as u32,
    )
}

pub open spec fn sm_ok(e: u32) -> bool {
    sm_count(e) < 1024
}

pub fn sm_update(e: u32, one: bool, recip: &Vec<u32>) -> (r: u32)
    requires
        sm_ok(e),
        is_rates(recip@, 1024, 128),
    ensures
        r == sm_next(e, one),
        sm_ok(r),
{
    let p: i32 = sm_p(e);
    let n: usize = (e & 0xffff) as usize;
    proof {
        lemma_rate(n as int, 128);
        assert(recip@[n as int] == rate_at(n as int, 128));
    }
    let np: u32 = adapt(p, one, recip[n]);
    let nn: usize = if n < recip.len() - 1 {
        n + 1
    } else {
        n
    };
    proof {
        lemma_sm(np, nn as u32, 0);
    }
    (np << 16) | nn as u32
}

/// A slot after `bit`: its probability moves at a rate given by how often its
/// context was seen, and its state follows the bit.
pub open spec fn slot_next(slot: u32, one: bool) -> u32 {
    let s = slot_state(slot) as int;
    let c = state_pairs()[s];
    slot_of(
        slot & 0xff00_0000,
        next_state(s, if one { 1 } else { 0 }) as u32,
        adapted(slot_prob(slot), one, slot_rate(c.0 + c.1)) as u32,
    )
}

/// The slot's state is one of the table's.
pub open spec fn slot_ok(slot: u32) -> bool {
    slot_state(slot) < state_pairs().len()
}

pub fn slot_step(slot: u32, one: bool, states: &StateTable, recip: &Vec<u32>) -> (r: u32)
    requires
        slot_ok(slot),
        states_ok(),
        states.wf(),
        is_rates(recip@, 96, 0),
    ensures
        r == slot_next(slot, one),
        slot_ok(r),
{
    proof {
        lemma_slot(slot);
    }
    let state: usize = ((slot >> 16) & 0xff) as usize;
    let c: (u8, u8) = states.counts[state];
    let total: usize = c.0 as usize + c.1 as usize;
    let n: usize = if total < recip.len() - 1 {
        total
    } else {
        recip.len() - 1
    };
    proof {
        lemma_rate(n as int, 0);
        assert(recip@[n as int] == rate_at(n as int, 0));
    }
    let np: u32 = adapt(slot_p(slot), one, recip[n]);
    let nx: [u8; 2] = states.next[state];
    let b: usize = if one {
        1
    } else {
        0
    };
    assert(states.next@[state as int]@[b as int] == next_state(state as int, b as int));
    let ns: u32 = nx[b] as u32;
    proof {
        lemma_slot_of(slot, ns, np);
    }
    (slot & 0xff00_0000) | (ns << 16) | np
}

/// A confidence counter holds `count (8 bits) | probability (16 bits)`; its
/// count grows up to 90.
pub open spec fn conf_next(e: u32, right: bool) -> u32 {
    let n = slot_state(e) as int;
    sm_of(
        (if n + 1 < 90 {
            n + 1
        } else {
            90
        }) as u32,
        adapted(slot_prob(e), right, slot_rate(n)) as u32,
    )
}

pub fn conf_step(e: u32, right: bool, recip: &Vec<u32>) -> (r: u32)
    requires
        is_rates(recip@, 96, 0),
    ensures
        r == conf_next(e, right),
{
    proof {
        lemma_slot(e);
    }
    let n: usize = ((e >> 16) & 0xff) as usize;
    let k: usize = if n < recip.len() - 1 {
        n
    } else {
        recip.len() - 1
    };
    proof {
        lemma_rate(k as int, 0);
        assert(recip@[k as int] == rate_at(k as int, 0));
    }
    let np: u32 = adapt(slot_p(e), right, recip[k]);
    let nn: u32 = if n + 1 < 90 {
        n as u32 + 1
    } else {
        90
    };
    (nn << 16) | np
}

} // verus!
