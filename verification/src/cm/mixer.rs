//! The mixer: a weighted sum of all the stretched predictions, with the
//! weights of two banks added up, each bank under a context of its own.

use crate::cm::isse::{error_of, lemma_shr64};
use crate::cm::squash::{squash, squash_at};
use vstd::prelude::*;

verus! {

/// The mixer's inputs: two for each of the fourteen tables, the chain, the
/// match model and a constant.
pub const NIN: usize = 31;

/// The contexts of the first bank; the second bank follows.
pub const MIXER_CTXS: usize = 512;

pub struct MixerState {
    /// The weights, 31 for every context.
    pub wx: Seq<i32>,
    pub inputs: Seq<i32>,
    /// The contexts that the last prediction used.
    pub ctx: int,
    pub ctx2: int,
    /// The last prediction, of 4096.
    pub pr: int,
}

/// The sum of the first `n` inputs, weighted from `base` on.
pub open spec fn dot(inputs: Seq<i32>, wx: Seq<i32>, base: int, n: nat) -> int
    decreases n,
{
    if n == 0 {
        0
    } else {
        dot(inputs, wx, base, (n - 1) as nat) + inputs[n - 1] * wx[base + n - 1]
    }
}

/// A weight after a step against the error.
pub open spec fn mix_step(w: i32, input: i32, err: int) -> i32 {
    w.wrapping_add(((input * err) / 16384) as i32)
}

/// The weights with the first `n` of context `ctx` stepped.
pub open spec fn bank_after(wx: Seq<i32>, inputs: Seq<i32>, ctx: int, err: int, n: int) -> Seq<i32> {
    Seq::new(
        wx.len(),
        |i: int|
            if ctx * 31 <= i < ctx * 31 + n {
                mix_step(wx[i], inputs[i - ctx * 31], err)
            } else {
                wx[i]
            },
    )
}

impl MixerState {
    pub open spec fn init() -> MixerState {
        MixerState {
            wx: Seq::new(47616, |i: int| 0i32),
            inputs: Seq::new(31, |i: int| 0i32),
            ctx: 0,
            ctx2: 512,
            pr: 2048,
        }
    }

    pub open spec fn wf(self) -> bool {
        &&& self.wx.len() == 47616
        &&& self.inputs.len() == 31
        &&& forall|i: int| 0 <= i < 31 ==> -2047 <= #[trigger] self.inputs[i] <= 2047
        &&& 0 <= self.ctx < 512
        &&& 512 <= self.ctx2 < 1536
        &&& 0 <= self.pr <= 65535
    }

    /// The prediction under two contexts.
    pub open spec fn mixed(self, ctx: int, ctx2: int) -> int {
        let sum = dot(self.inputs, self.wx, ctx * 31, 31) + dot(self.inputs, self.wx, ctx2 * 31, 31);
        squash_at(((sum / 65536) as i32) as int) as int
    }

    pub open spec fn after_mix(self, ctx: int, ctx2: int) -> MixerState {
        MixerState { ctx, ctx2, pr: self.mixed(ctx, ctx2), ..self }
    }

    /// Both banks learn from the same error.
    pub open spec fn updated(self, one: bool) -> MixerState {
        let err = error_of(one, self.pr);
        MixerState {
            wx: bank_after(
                bank_after(self.wx, self.inputs, self.ctx, err, 31),
                self.inputs,
                self.ctx2,
                err,
                31,
            ),
            ..self
        }
    }
}

pub struct Mixer {
    pub wx: Vec<i32>,
    pub inputs: Vec<i32>,
    pub ctx: usize,
    pub ctx2: usize,
    pub pr: i32,
}

impl View for Mixer {
    type V = MixerState;

    open spec fn view(&self) -> MixerState {
        MixerState {
            wx: self.wx@,
            inputs: self.inputs@,
            ctx: self.ctx as int,
            ctx2: self.ctx2 as int,
            pr: self.pr as int,
        }
    }
}

fn stepped_weight(w: i32, input: i32, err: i32) -> (r: i32)
    requires
        -2047 <= input <= 2047,
        -65535 <= err <= 4096,
    ensures
        r == mix_step(w, input, err as int),
{
    proof {
        assert(-134217728 <= input * err <= 134217728) by (nonlinear_arith)
            requires
                -2047 <= input <= 2047,
                -65535 <= err <= 4096,
        ;
        lemma_shr64((input * err) as i64);
    }
    let d: i64 = (input as i64 * err as i64) >> 14;
    w.wrapping_add(d as i32)
}

impl Mixer {
    pub fn new() -> (m: Self)
        ensures
            m@ == MixerState::init(),
            m@.wf(),
    {
        let m = Mixer {
            wx: vec![0i32; 47616],
            inputs: vec![0i32; 31],
            ctx: 0,
            ctx2: 512,
            pr: 2048,
        };
        assert(m@.wx =~= MixerState::init().wx);
        assert(m@.inputs =~= MixerState::init().inputs);
        m
    }

    fn dot_at(&self, ctx: usize) -> (d: i64)
        requires
            self@.wf(),
            ctx < 1536,
        ensures
            d == dot(self@.inputs, self@.wx, ctx * 31, 31),
            -136339441844224 <= d <= 136339441844224,
    {
        let base: usize = ctx * 31;
        let mut d: i64 = 0;
        let mut i: usize = 0;
        while i < 31
            invariant
                i <= 31,
                self@.wf(),
                ctx < 1536,
                base == ctx * 31,
                d == dot(self@.inputs, self@.wx, base as int, i as nat),
                -4398046511104 * i <= d <= 4398046511104 * i,
            decreases 31 - i,
        {
            let x: i32 = self.inputs[i];
            let w: i32 = self.wx[base + i];
            assert(x == self@.inputs[i as int]);
            assert(-4398046511104 <= x * w <= 4398046511104) by (nonlinear_arith)
                requires
                    -2047 <= x <= 2047,
                    -2147483648 <= w <= 2147483647,
            ;
            d = d + x as i64 * w as i64;
            i += 1;
        }
        d
    }

    /// Mixes the inputs under two contexts.
    pub fn mix(&mut self, ctx: usize, ctx2: usize)
        requires
            old(self)@.wf(),
            ctx < 512,
            512 <= ctx2 < 1536,
        ensures
            final(self)@ == old(self)@.after_mix(ctx as int, ctx2 as int),
            final(self)@.wf(),
    {
        let a: i64 = self.dot_at(ctx);
        let b: i64 = self.dot_at(ctx2);
        proof {
            lemma_shr64((a + b) as i64);
        }
        self.ctx = ctx;
        self.ctx2 = ctx2;
        self.pr = squash(((a + b) >> 16) as i32);
    }

    fn learn_bank(&mut self, ctx: usize, err: i32)
        requires
            old(self)@.wf(),
            ctx < 1536,
            -65535 <= err <= 4096,
        ensures
            final(self)@ == (MixerState {
                wx: bank_after(old(self)@.wx, old(self)@.inputs, ctx as int, err as int, 31),
                ..old(self)@
            }),
            final(self)@.wf(),
    {
        let ghost m0 = self@;
        let base: usize = ctx * 31;
        let mut i: usize = 0;
        assert(self@.wx =~= bank_after(m0.wx, m0.inputs, ctx as int, err as int, 0));
        while i < 31
            invariant
                i <= 31,
                m0.wf(),
                self@.wf(),
                ctx < 1536,
                base == ctx * 31,
                -65535 <= err <= 4096,
                self@ == (MixerState { wx: self@.wx, ..m0 }),
                self@.wx == bank_after(m0.wx, m0.inputs, ctx as int, err as int, i as int),
            decreases 31 - i,
        {
            let x: i32 = self.inputs[i];
            assert(x == self@.inputs[i as int]);
            let w: i32 = stepped_weight(self.wx[base + i], x, err);
            self.wx[base + i] = w;
            i += 1;
            assert(self@.wx =~= bank_after(m0.wx, m0.inputs, ctx as int, err as int, i as int));
        }
    }

    pub fn update(&mut self, one: bool)
        requires
            old(self)@.wf(),
        ensures
            final(self)@ == old(self)@.updated(one),
            final(self)@.wf(),
    {
        let bit: i32 = if one {
            4096
        } else {
            0
        };
        let err: i32 = bit - self.pr;
        let ctx: usize = self.ctx;
        let ctx2: usize = self.ctx2;
        self.learn_bank(ctx, err);
        self.learn_bank(ctx2, err);
    }
}

} // verus!
