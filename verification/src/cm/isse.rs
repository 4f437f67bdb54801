//! The chain of two-weight mixers: from order 1 up through orders 2 to 6 and
//! 8, each stage refines the prediction of the stage before it with the next
//! order's, under weights that the next order's bit history selects.

use crate::cm::counter::{lemma_slot, slot_ok, slot_p, slot_prob, slot_state};
use crate::cm::matcher::{st16, stretched};
use crate::cm::slots::{row_ok, Slots, SlotsState};
use crate::cm::squash::{clamp, is_stretch, squash, squash_at};
use vstd::prelude::*;

verus! {

/// What a stage saw: the weights it used, its two inputs and its prediction.
#[derive(Clone, Copy)]
pub struct Stage {
    pub wi: usize,
    pub st_in: i32,
    pub st_icm: i32,
    pub p_out: i32,
}

pub struct IsseState {
    /// The weights of the chain's input and of the order's own prediction, 256
    /// of each for every stage.
    pub w0: Seq<i32>,
    pub w1: Seq<i32>,
    pub cache: Seq<Stage>,
}

/// An arithmetic shift right of a 64-bit number is division, rounded down.
pub proof fn lemma_shr64(x: i64)
    ensures
        x >> 12 == x as int / 4096,
        x >> 14 == x as int / 16384,
        x >> 16 == x as int / 65536,
{
    let a = x >> 12;
    let b = x >> 14;
    let c = x >> 16;
    assert(a * 4096 <= x && x < a * 4096 + 4096 && b * 16384 <= x && x < b * 16384 + 16384 && c
        * 65536 <= x && x < c * 65536 + 65536) by (bit_vector)
        requires
            a == x >> 12,
            b == x >> 14,
            c == x >> 16,
    ;
}

/// A weight after a step against the error `err` of an input `st`.
pub open spec fn isse_step(w: i32, st: i32, err: int) -> i32 {
    w.wrapping_add(((st * err) / 4096) as i32)
}

/// How far a prediction of 4096 was from the bit.
pub open spec fn error_of(one: bool, p: int) -> int {
    (if one {
        4096int
    } else {
        0
    }) - p
}

impl IsseState {
    pub open spec fn init() -> IsseState {
        IsseState {
            w0: Seq::new(1536, |i: int| 49152i32),
            w1: Seq::new(1536, |i: int| 16384i32),
            cache: Seq::new(6, |i: int| Stage { wi: 0, st_in: 0, st_icm: 0, p_out: 0 }),
        }
    }

    pub open spec fn wf(self) -> bool {
        &&& self.w0.len() == 1536
        &&& self.w1.len() == 1536
        &&& self.cache.len() == 6
        &&& forall|k: int|
            0 <= k < 6 ==> {
                let c = #[trigger] self.cache[k];
                &&& c.wi < 1536
                &&& -2047 <= c.st_in <= 2047
                &&& -2047 <= c.st_icm <= 2047
                &&& 0 <= c.p_out <= 65535
            }
    }

    /// The weights that stage `k` uses.
    pub open spec fn weight_at(s: SlotsState, k: int) -> int {
        k * 256 + slot_state(s.slot(2 + k))
    }

    /// What stage `k` takes from the stage before it, or from order 1.
    pub open spec fn chained(self, s: SlotsState, k: int) -> int
        decreases k,
    {
        if k <= 0 {
            stretched(slot_prob(s.slot(1)))
        } else {
            let i = Self::weight_at(s, k - 1);
            clamp(
                (self.w0[i] * self.chained(s, k - 1) + self.w1[i] * s.slot_input(1 + k)) / 65536,
                -2047,
                2047,
            )
        }
    }

    pub open spec fn stage(self, s: SlotsState, k: int) -> Stage {
        Stage {
            wi: Self::weight_at(s, k) as usize,
            st_in: self.chained(s, k) as i32,
            st_icm: s.slot_input(2 + k) as i32,
            p_out: squash_at(self.chained(s, k + 1)) as i32,
        }
    }

    /// The chain's input to the mixer.
    pub open spec fn input(self, s: SlotsState) -> int {
        self.chained(s, 6)
    }

    pub open spec fn after_read(self, s: SlotsState) -> IsseState {
        IsseState { cache: Seq::new(6, |k: int| self.stage(s, k)), ..self }
    }

    /// Every stage learns from its own error.
    pub open spec fn updated(self, one: bool) -> IsseState {
        IsseState {
            w0: stepped(self.w0, self.cache, one, false, 6),
            w1: stepped(self.w1, self.cache, one, true, 6),
            ..self
        }
    }
}

/// One column of weights after the first `n` stages have learned.
pub open spec fn stepped(w: Seq<i32>, cache: Seq<Stage>, one: bool, icm: bool, n: nat) -> Seq<i32>
    decreases n,
{
    if n == 0 {
        w
    } else {
        let before = stepped(w, cache, one, icm, (n - 1) as nat);
        let c = cache[n - 1];
        let st = if icm {
            c.st_icm
        } else {
            c.st_in
        };
        before.update(
            c.wi as int,
            isse_step(before[c.wi as int], st, error_of(one, c.p_out as int)),
        )
    }
}

pub struct Isse {
    pub w0: Vec<i32>,
    pub w1: Vec<i32>,
    pub cache: [Stage; 6],
}

impl View for Isse {
    type V = IsseState;

    open spec fn view(&self) -> IsseState {
        IsseState { w0: self.w0@, w1: self.w1@, cache: self.cache@ }
    }
}

/// A weight's step: its input times the error, in 4096ths.
fn learned(w: i32, st: i32, err: i32) -> (r: i32)
    requires
        -2047 <= st <= 2047,
        -65535 <= err <= 4096,
    ensures
        r == isse_step(w, st, err as int),
{
    proof {
        assert(-134217728 <= st * err <= 134217728) by (nonlinear_arith)
            requires
                -2047 <= st <= 2047,
                -65535 <= err <= 4096,
        ;
        lemma_shr64((st * err) as i64);
    }
    let d: i64 = (st as i64 * err as i64) >> 12;
    w.wrapping_add(d as i32)
}

fn weighed(w0: i32, a: i32, w1: i32, b: i32) -> (r: i32)
    requires
        -2047 <= a <= 2047,
        -2047 <= b <= 2047,
    ensures
        r == clamp((w0 * a + w1 * b) / 65536, -2047, 2047),
{
    proof {
        assert(-4398046511104 <= w0 * a <= 4398046511104 && -4398046511104 <= w1 * b
            <= 4398046511104) by (nonlinear_arith)
            requires
                -2147483648 <= w0 <= 2147483647,
                -2147483648 <= w1 <= 2147483647,
                -2047 <= a <= 2047,
                -2047 <= b <= 2047,
        ;
        lemma_shr64((w0 * a + w1 * b) as i64);
    }
    let t: i64 = (w0 as i64 * a as i64 + w1 as i64 * b as i64) >> 16;
    if t < -2047 {
        -2047
    } else if t > 2047 {
        2047
    } else {
        t as i32
    }
}

impl Isse {
    pub fn new() -> (c: Self)
        ensures
            c@ == IsseState::init(),
            c@.wf(),
    {
        let c = Isse {
            w0: vec![49152i32; 1536],
            w1: vec![16384i32; 1536],
            cache: [Stage { wi: 0, st_in: 0, st_icm: 0, p_out: 0 };6],
        };
        assert(c@.w0 =~= IsseState::init().w0);
        assert(c@.w1 =~= IsseState::init().w1);
        assert(c@.cache =~= IsseState::init().cache);
        c
    }

    /// Runs the chain for the next bit.
    pub fn predict(&mut self, s: &Slots, stretch: &Vec<i16>) -> (input: i32)
        requires
            old(self)@.wf(),
            s@.wf(),
            s@.looked_up(),
            is_stretch(stretch@),
        ensures
            input == old(self)@.input(s@),
            final(self)@ == old(self)@.after_read(s@),
            final(self)@.wf(),
            -2047 <= input <= 2047,
    {
        let ghost c0 = self@;
        let i1: usize = s.idx[1];
        assert(i1 == s@.idx[1]);
        let mut chain: i32 = st16(slot_p(s.o1[i1]), stretch);
        let mut k: usize = 0;
        while k < 6
            invariant
                k <= 6,
                s@.wf(),
                s@.looked_up(),
                is_stretch(stretch@),
                c0.wf(),
                self@.w0 == c0.w0,
                self@.w1 == c0.w1,
                self@.cache.len() == 6,
                self@.wf(),
                chain == c0.chained(s@, k as int),
                -2047 <= chain <= 2047,
                forall|q: int| 0 <= q < k ==> #[trigger] self@.cache[q] == c0.stage(s@, q),
            decreases 6 - k,
        {
            let i: usize = s.idx[k + 2];
            proof {
                assert(i == s@.idx[k + 2]);
                assert(row_ok(s@.hashed[k as int], s@.bits));
            }
            let slot: u32 = s.hashed[k][i];
            proof {
                assert(slot == s@.slot(2 + k));
                assert(slot_ok(s@.hashed[k as int][i as int]));
                lemma_slot(slot);
            }
            let state: usize = ((slot >> 16) & 0xff) as usize;
            let icm: i32 = st16(slot_p(slot), stretch);
            let wi: usize = k * 256 + state;
            let out: i32 = weighed(self.w0[wi], chain, self.w1[wi], icm);
            self.cache[k] = Stage { wi, st_in: chain, st_icm: icm, p_out: squash(out) };
            proof {
                assert(c0.chained(s@, k + 1) == out);
                assert(self@.cache[k as int] == c0.stage(s@, k as int));
            }
            chain = out;
            k += 1;
        }
        assert(self@.cache =~= c0.after_read(s@).cache);
        chain
    }

    pub fn update(&mut self, one: bool)
        requires
            old(self)@.wf(),
        ensures
            final(self)@ == old(self)@.updated(one),
            final(self)@.wf(),
    {
        let ghost c0 = self@;
        let mut k: usize = 0;
        while k < 6
            invariant
                k <= 6,
                c0.wf(),
                self@.wf(),
                self@.cache == c0.cache,
                self@.w0 == stepped(c0.w0, c0.cache, one, false, k as nat),
                self@.w1 == stepped(c0.w1, c0.cache, one, true, k as nat),
            decreases 6 - k,
        {
            let c: Stage = self.cache[k];
            assert(c == self@.cache[k as int]);
            let bit: i32 = if one {
                4096
            } else {
                0
            };
            let err: i32 = bit - c.p_out;
            let a: i32 = learned(self.w0[c.wi], c.st_in, err);
            let b: i32 = learned(self.w1[c.wi], c.st_icm, err);
            self.w0[c.wi] = a;
            self.w1[c.wi] = b;
            k += 1;
        }
    }
}

} // verus!
