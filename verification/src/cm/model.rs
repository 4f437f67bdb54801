//! The model: predicts each bit from the bits before it, and learns it.

use crate::cm::apm::{Apm, ApmState};
use crate::cm::config::CmConfig;
use crate::cm::counter::{build_rates, is_rates};
use crate::cm::history::{lemma_last, splitmix, splitmix_of, History, HistoryState};
use crate::cm::isse::{Isse, IsseState};
use crate::cm::matcher::{MatchState, Matcher};
use crate::cm::mixer::{Mixer, MixerState};
use crate::cm::slots::{Slots, SlotsState};
use crate::cm::squash::{build_stretch, clamp, is_stretch};
use crate::cm::states::{build_states, StateTable};
use vstd::prelude::*;

verus! {

pub struct ModelState {
    pub hist: HistoryState,
    pub slots: SlotsState,
    pub matcher: MatchState,
    pub isse: IsseState,
    pub mixer: MixerState,
    pub apm1: ApmState,
    pub apm2: ApmState,
    pub apm3: ApmState,
}

/// What the match's length says to the second bank of the mixer.
pub open spec fn length_class(len: u32) -> int {
    if len == 0 {
        0
    } else if len < 16 {
        1
    } else if len < 64 {
        2
    } else {
        3
    }
}

/// A blend of a quarter and three quarters.
pub open spec fn blended(a: int, b: int) -> int {
    (a + b * 3) / 4
}

impl ModelState {
    pub open spec fn init(table_bits: u32, match_bits: u32, stride: nat, bpp: nat) -> ModelState {
        ModelState {
            hist: HistoryState::init(stride, bpp),
            slots: SlotsState::init(table_bits),
            matcher: MatchState::init(match_bits),
            isse: IsseState::init(),
            mixer: MixerState::init(),
            apm1: ApmState::init(256),
            apm2: ApmState::init(65536),
            apm3: ApmState::init(16384),
        }
    }

    pub open spec fn wf(self) -> bool {
        &&& self.hist.wf()
        &&& self.slots.wf()
        &&& self.matcher.wf(self.hist)
        &&& self.isse.wf()
        &&& self.mixer.wf()
        &&& self.apm1.wf(256)
        &&& self.apm2.wf(65536)
        &&& self.apm3.wf(16384)
    }

    /// The tables once the slots for the next bit are found.
    pub open spec fn found(self) -> SlotsState {
        self.slots.after_lookup(self.hist)
    }

    /// All the mixer's inputs.
    pub open spec fn inputs(self) -> Seq<i32> {
        self.found().inputs_after(self.mixer.inputs).update(
            28,
            self.isse.input(self.found()) as i32,
        ).update(29, self.matcher.input(self.hist) as i32).update(30, 256)
    }

    /// The mixer once it has mixed.
    pub open spec fn mixed(self) -> MixerState {
        (MixerState { inputs: self.inputs(), ..self.mixer }).after_mix(
            self.hist.c0 + if self.matcher.len > 0 {
                256int
            } else {
                0
            },
            512 + self.hist.last() + 256 * length_class(self.matcher.len),
        )
    }

    /// The contexts of the second and third refinements: the last byte, and a
    /// hash of the current word.
    pub open spec fn byte_context(self) -> int {
        self.hist.last() * 256 + self.hist.c0
    }

    pub open spec fn word_context(self) -> int {
        ((splitmix_of(self.hist.word_hash ^ (self.hist.c0 as u64)) >> 50) & 0x3fff) as int
    }

    /// The prediction after the first and after the second refinement.
    pub open spec fn once_refined(self) -> int {
        let pr = self.mixed().pr;
        blended(pr, self.apm1.refined(pr, self.hist.c0 as int))
    }

    pub open spec fn twice_refined(self) -> int {
        let b = self.once_refined();
        blended(b, self.apm2.refined(b, self.byte_context()))
    }

    /// The probability that the next bit is a one, of 4096.
    pub open spec fn prob(self) -> int {
        let b = self.twice_refined();
        clamp((b + self.apm3.refined(b, self.word_context())) / 2, 1, 4095)
    }

    pub open spec fn after_predict(self) -> ModelState {
        ModelState {
            slots: self.found(),
            matcher: self.matcher.after_read(self.hist),
            isse: self.isse.after_read(self.found()),
            mixer: self.mixed(),
            apm1: self.apm1.after_read(self.mixed().pr, self.hist.c0 as int),
            apm2: self.apm2.after_read(self.once_refined(), self.byte_context()),
            apm3: self.apm3.after_read(self.twice_refined(), self.word_context()),
            ..self
        }
    }

    /// Every part learns the bit; a whole byte moves the match on.
    pub open spec fn updated(self, one: bool) -> ModelState {
        let hist = self.hist.with_bit(one);
        let matcher = self.matcher.updated(one);
        ModelState {
            hist,
            slots: self.slots.updated(one),
            matcher: if self.hist.bitpos == 7 {
                matcher.after_byte(hist)
            } else {
                matcher
            },
            isse: self.isse.updated(one),
            mixer: self.mixer.updated(one),
            apm1: self.apm1.updated(one),
            apm2: self.apm2.updated(one),
            apm3: self.apm3.updated(one),
        }
    }

    /// The state after a bit: predicted, then learned.
    #[verifier::opaque]
    pub open spec fn step(self, one: bool) -> ModelState {
        self.after_predict().updated(one)
    }
}

pub struct Model {
    pub hist: History,
    pub slots: Slots,
    pub matcher: Matcher,
    pub isse: Isse,
    pub mixer: Mixer,
    pub apm1: Apm,
    pub apm2: Apm,
    pub apm3: Apm,
    pub states: StateTable,
    pub stretch: Vec<i16>,
    /// Rates for the slots, by how much they have seen.
    pub recip_slot: Vec<u32>,
    /// Rates for the state maps, which never fall below a floor.
    pub recip_sm: Vec<u32>,
}

impl View for Model {
    type V = ModelState;

    open spec fn view(&self) -> ModelState {
        ModelState {
            hist: self.hist@,
            slots: self.slots@,
            matcher: self.matcher@,
            isse: self.isse@,
            mixer: self.mixer@,
            apm1: self.apm1@,
            apm2: self.apm2@,
            apm3: self.apm3@,
        }
    }
}

impl Model {
    /// The fixed tables are what they should be, and so is the state.
    pub open spec fn wf(&self) -> bool {
        &&& self@.wf()
        &&& self.states.wf()
        &&& is_stretch(self.stretch@)
        &&& is_rates(self.recip_slot@, 96, 0)
        &&& is_rates(self.recip_sm@, 1024, 128)
    }

    pub fn new(cfg: &CmConfig) -> (m: Self)
        requires
            16 <= cfg.table_bits <= 30,
            16 <= cfg.match_bits <= 30,
        ensures
            m.wf(),
            m@ == ModelState::init(
                cfg.table_bits,
                cfg.match_bits,
                cfg.stride as nat,
                cfg.bpp as nat,
            ),
    {
        let states = build_states();
        let slots = Slots::new(cfg.table_bits, &states);
        Model {
            hist: History::new(cfg.stride as usize, cfg.bpp as usize),
            slots,
            matcher: Matcher::new(cfg.match_bits),
            isse: Isse::new(),
            mixer: Mixer::new(),
            apm1: Apm::new(256),
            apm2: Apm::new(65536),
            apm3: Apm::new(16384),
            states,
            stretch: build_stretch(),
            recip_slot: build_rates(96, 0),
            recip_sm: build_rates(1024, 128),
        }
    }

    /// Finds the slots, runs the chain and the match model, and mixes.
    fn mix_all(&mut self)
        requires
            old(self).wf(),
        ensures
            final(self).wf(),
            final(self)@ == (ModelState {
                slots: old(self)@.found(),
                matcher: old(self)@.matcher.after_read(old(self)@.hist),
                isse: old(self)@.isse.after_read(old(self)@.found()),
                mixer: old(self)@.mixed(),
                ..old(self)@
            }),
            final(self)@.slots.looked_up(),
    {
        let ghost m0 = self@;
        self.slots.lookup(&self.hist, &self.stretch, &mut self.mixer.inputs);
        let chain: i32 = self.isse.predict(&self.slots, &self.stretch);
        let expected: i32 = self.matcher.predict(&self.hist, &self.stretch);
        self.mixer.inputs[28] = chain;
        self.mixer.inputs[29] = expected;
        self.mixer.inputs[30] = 256;
        assert(self.mixer@.inputs =~= m0.inputs());
        let b1: usize = (self.hist.window & 0xff) as usize;
        assert(self.hist.window & 0xff <= 255) by {
            lemma_last(self.hist.window);
        }
        let len: u32 = self.matcher.len;
        let class: usize = if len == 0 {
            0
        } else if len < 16 {
            1
        } else if len < 64 {
            2
        } else {
            3
        };
        let matching: usize = if len > 0 {
            256
        } else {
            0
        };
        assert(self.hist.c0 < 256);
        self.mixer.mix(self.hist.c0 as usize + matching, 512 + b1 + 256 * class);
    }

    /// The probability that the next bit is a one, of 4096.
    pub fn predict(&mut self) -> (p: i32)
        requires
            old(self).wf(),
        ensures
            final(self).wf(),
            p == old(self)@.prob(),
            final(self)@ == old(self)@.after_predict(),
            final(self)@.slots.looked_up(),
            1 <= p <= 4095,
    {
        self.mix_all();
        let c0: u64 = self.hist.c0 as u64;
        let b1: usize = (self.hist.window & 0xff) as usize;
        let word: u64 = splitmix(self.hist.word_hash ^ c0);
        proof {
            lemma_last(self.hist.window);
            lemma_word_context(word);
        }
        let wctx: usize = ((word >> 50) & 0x3fff) as usize;
        let pr: i32 = self.mixer.pr;
        let pr1: i32 = self.apm1.pp(pr, c0 as usize, &self.stretch);
        let blend1: i32 = blend(pr, pr1);
        let pr2: i32 = self.apm2.pp(blend1, b1 * 256 + c0 as usize, &self.stretch);
        let blend2: i32 = blend(blend1, pr2);
        let pr3: i32 = self.apm3.pp(blend2, wctx, &self.stretch);
        let p: i32 = (blend2 + pr3) / 2;
        if p < 1 {
            1
        } else if p > 4095 {
            4095
        } else {
            p
        }
    }

    /// Learns the bit that was predicted.
    pub fn update(&mut self, bit: i32)
        requires
            old(self).wf(),
            old(self)@.slots.looked_up(),
        ensures
            final(self).wf(),
            final(self)@ == old(self)@.updated(bit == 1),
    {
        let one: bool = bit == 1;
        let ghost h0 = self.hist@;
        self.isse.update(one);
        self.slots.update(one, &self.states, &self.recip_slot, &self.recip_sm);
        self.matcher.update(one, &self.recip_slot, Ghost(h0));
        self.mixer.update(one);
        self.apm1.update(one);
        self.apm2.update(one);
        self.apm3.update(one);
        let whole: bool = self.hist.push_bit(one);
        if whole {
            self.matcher.on_byte(&self.hist, Ghost(h0));
        }
    }
}

fn blend(a: i32, b: i32) -> (r: i32)
    requires
        0 <= a <= 65535,
        0 <= b <= 4095,
    ensures
        r == blended(a as int, b as int),
        0 <= r <= 65535,
{
    (a + b * 3) / 4
}

proof fn lemma_word_context(x: u64)
    ensures
        (x >> 50) & 0x3fff < 16384,
{
    assert((x >> 50) & 0x3fff < 16384) by (bit_vector);
}

} // verus!
