//! The context tables: two direct ones for orders 0 and 1, twelve hashed ones,
//! and for each of the fourteen a map from bit-history state to probability.

use crate::cm::counter::{
    is_rates, lemma_fresh_slot, lemma_sm, lemma_slot, slot_check, slot_next, slot_ok, slot_p,
    slot_prob, slot_state, slot_step, sm_next, sm_of, sm_ok, sm_p, sm_prob, sm_update,
};
use crate::cm::history::{lemma_last, History, HistoryState, GOLD};
use crate::cm::matcher::{lemma_table, st16, stretched, table_index, table_len};
use crate::cm::squash::is_stretch;
use crate::cm::states::{state_pairs, states_ok, StateTable};
use vstd::prelude::*;

verus! {

/// The rows of a table of tables.
pub open spec fn rows(v: Seq<Vec<u32>>) -> Seq<Seq<u32>> {
    Seq::new(v.len(), |k: int| v[k]@)
}

/// The hash of context `k` together with the bits of the current byte.
pub open spec fn bit_hash(h: HistoryState, k: int) -> u64 {
    h.hashes[k] ^ (h.c0 as u64).wrapping_mul(GOLD)
}

/// The check that tells apart contexts that share a slot.
pub open spec fn check_of(x: u64) -> u32 {
    ((x >> 20) & 0xff) as u32
}

/// A slot as the context with `check` finds it: fresh if it was another's.
pub open spec fn refreshed(slot: u32, check: u32) -> u32 {
    if slot_check(slot) != check {
        check << 24
    } else {
        slot
    }
}

/// How many of the hashed tables are in use.
pub open spec fn hashed_in_use(h: HistoryState) -> int {
    if h.rec_active() {
        12
    } else {
        9
    }
}

/// The probability that a state's counts imply, of 65536.
pub open spec fn implied_prob(s: int) -> int {
    let c = state_pairs()[s];
    let p = ((2 * c.1 + 1) * 65536) / (2 * (c.0 + c.1) + 2);
    if p < 1 {
        1
    } else if p > 65535 {
        65535
    } else {
        p
    }
}

pub struct SlotsState {
    pub bits: u32,
    pub o0: Seq<u32>,
    pub o1: Seq<u32>,
    pub hashed: Seq<Seq<u32>>,
    pub smaps: Seq<Seq<u32>>,
    /// The slot of each table that the last lookup found.
    pub idx: Seq<int>,
    /// How many tables the last lookup used.
    pub active: int,
}

impl SlotsState {
    pub open spec fn init(bits: u32) -> SlotsState {
        SlotsState {
            bits,
            o0: Seq::new(256, |i: int| 0u32),
            o1: Seq::new(65536, |i: int| 0u32),
            hashed: Seq::new(12, |k: int| Seq::new(table_len(bits) as nat, |i: int| 0u32)),
            smaps: Seq::new(
                14,
                |j: int| Seq::new(state_pairs().len(), |s: int| sm_of(implied_prob(s) as u32, 0)),
            ),
            idx: Seq::new(14, |j: int| 0int),
            active: 0,
        }
    }

    pub open spec fn wf(self) -> bool {
        &&& states_ok()
        &&& 16 <= self.bits <= 30
        &&& self.o0.len() == 256
        &&& self.o1.len() == 65536
        &&& self.hashed.len() == 12
        &&& self.smaps.len() == 14
        &&& self.idx.len() == 14
        &&& forall|i: int| 0 <= i < 256 ==> slot_ok(#[trigger] self.o0[i])
        &&& forall|i: int| 0 <= i < 65536 ==> slot_ok(#[trigger] self.o1[i])
        &&& forall|k: int| 0 <= k < 12 ==> row_ok(#[trigger] self.hashed[k], self.bits)
        &&& forall|j: int| 0 <= j < 14 ==> smap_ok(#[trigger] self.smaps[j])
    }

    /// Whether a lookup has found a slot of every table in use.
    pub open spec fn looked_up(self) -> bool {
        &&& self.active == 11 || self.active == 14
        &&& 0 <= self.idx[0] < 256
        &&& 0 <= self.idx[1] < 65536
        &&& forall|j: int|
            2 <= j < self.active ==> 0 <= #[trigger] self.idx[j] < table_len(self.bits)
    }

    /// The slot of table `j` that was found.
    pub open spec fn slot(self, j: int) -> u32 {
        if j == 0 {
            self.o0[self.idx[0]]
        } else if j == 1 {
            self.o1[self.idx[1]]
        } else {
            self.hashed[j - 2][self.idx[j]]
        }
    }

    /// Finds the slot of every table for the next bit.
    pub open spec fn after_lookup(self, h: HistoryState) -> SlotsState {
        let n = hashed_in_use(h);
        SlotsState {
            hashed: Seq::new(
                12,
                |k: int|
                    if k < n {
                        found_row(self.hashed[k], self.bits, bit_hash(h, k))
                    } else {
                        self.hashed[k]
                    },
            ),
            idx: Seq::new(
                14,
                |j: int|
                    if j == 0 {
                        h.c0 as int
                    } else if j == 1 {
                        h.last() * 256 + h.c0
                    } else if j < 2 + n {
                        table_index(bit_hash(h, j - 2), self.bits) as int
                    } else {
                        self.idx[j]
                    },
            ),
            active: 2 + n,
            ..self
        }
    }

    /// The two inputs that table `j` gives the mixer: the slot's own
    /// probability and that of its state, stretched.
    pub open spec fn slot_input(self, j: int) -> int {
        stretched(slot_prob(self.slot(j)))
    }

    pub open spec fn map_input(self, j: int) -> int {
        stretched(sm_prob(self.smaps[j][slot_state(self.slot(j)) as int]) as int)
    }

    /// The mixer's inputs after a lookup; tables not in use give zeros.
    pub open spec fn inputs_after(self, inputs: Seq<i32>) -> Seq<i32> {
        Seq::new(
            31,
            |i: int|
                if i >= 28 {
                    inputs[i]
                } else if i / 2 >= self.active {
                    0
                } else if i % 2 == 0 {
                    self.slot_input(i / 2) as i32
                } else {
                    self.map_input(i / 2) as i32
                },
        )
    }

    /// Learns `bit` in every slot that was found and in the map of its state.
    pub open spec fn updated(self, one: bool) -> SlotsState {
        SlotsState {
            o0: self.o0.update(self.idx[0], slot_next(self.o0[self.idx[0]], one)),
            o1: self.o1.update(self.idx[1], slot_next(self.o1[self.idx[1]], one)),
            hashed: Seq::new(
                12,
                |k: int|
                    if k + 2 < self.active {
                        learned_row(self.hashed[k], self.idx[k + 2], one)
                    } else {
                        self.hashed[k]
                    },
            ),
            smaps: Seq::new(
                14,
                |j: int|
                    if j < self.active {
                        learned_map(self.smaps[j], self.slot(j), one)
                    } else {
                        self.smaps[j]
                    },
            ),
            ..self
        }
    }
}

pub open spec fn row_ok(row: Seq<u32>, bits: u32) -> bool {
    &&& row.len() == table_len(bits)
    &&& forall|i: int| 0 <= i < row.len() ==> slot_ok(#[trigger] row[i])
}

pub open spec fn smap_ok(m: Seq<u32>) -> bool {
    &&& m.len() == state_pairs().len()
    &&& forall|s: int| 0 <= s < m.len() ==> sm_ok(#[trigger] m[s])
}

/// A row with the slot for hash `x` refreshed.
pub open spec fn found_row(row: Seq<u32>, bits: u32, x: u64) -> Seq<u32> {
    let i = table_index(x, bits) as int;
    row.update(i, refreshed(row[i], check_of(x)))
}

pub open spec fn learned_row(row: Seq<u32>, i: int, one: bool) -> Seq<u32> {
    row.update(i, slot_next(row[i], one))
}

pub open spec fn learned_map(m: Seq<u32>, slot: u32, one: bool) -> Seq<u32> {
    let s = slot_state(slot) as int;
    m.update(s, sm_next(m[s], one))
}

pub struct Slots {
    pub bits: u32,
    pub o0: Vec<u32>,
    pub o1: Vec<u32>,
    pub hashed: Vec<Vec<u32>>,
    pub smaps: Vec<Vec<u32>>,
    pub idx: Vec<usize>,
    pub active: usize,
}

impl View for Slots {
    type V = SlotsState;

    open spec fn view(&self) -> SlotsState {
        SlotsState {
            bits: self.bits,
            o0: self.o0@,
            o1: self.o1@,
            hashed: rows(self.hashed@),
            smaps: rows(self.smaps@),
            idx: self.idx@.map_values(|x: usize| x as int),
            active: self.active as int,
        }
    }
}

fn implied_entry(c: (u8, u8), Ghost(s): Ghost<int>) -> (e: u32)
    requires
        0 <= s < state_pairs().len(),
        c == state_pairs()[s],
    ensures
        e == sm_of(implied_prob(s) as u32, 0),
        sm_ok(e),
{
    let num: u64 = (2 * c.1 as u64 + 1) * 65536;
    let den: u64 = 2 * (c.0 as u64 + c.1 as u64) + 2;
    let p: u64 = num / den;
    let q: u32 = if p < 1 {
        1
    } else if p > 65535 {
        65535
    } else {
        p as u32
    };
    proof {
        lemma_sm(q, 0, 0);
    }
    q << 16
}

fn initial_map(states: &StateTable) -> (m: Vec<u32>)
    requires
        states.wf(),
        states_ok(),
    ensures
        m@ == Seq::new(state_pairs().len(), |s: int| sm_of(implied_prob(s) as u32, 0)),
        smap_ok(m@),
{
    let mut m: Vec<u32> = Vec::new();
    let mut s: usize = 0;
    while s < states.counts.len()
        invariant
            states.wf(),
            s <= states.counts@.len(),
            m@.len() == s,
            forall|k: int|
                0 <= k < s ==> #[trigger] m@[k] == sm_of(implied_prob(k) as u32, 0) && sm_ok(m@[k]),
        decreases states.counts.len() - s,
    {
        m.push(implied_entry(states.counts[s], Ghost(s as int)));
        s += 1;
    }
    assert(m@ =~= Seq::new(state_pairs().len(), |s: int| sm_of(implied_prob(s) as u32, 0)));
    m
}

impl Slots {
    pub fn new(bits: u32, states: &StateTable) -> (t: Self)
        requires
            16 <= bits <= 30,
            states.wf(),
            states_ok(),
        ensures
            t@ == SlotsState::init(bits),
            t@.wf(),
    {
        proof {
            lemma_table(0, bits);
            lemma_fresh_slot(0);
        }
        let n: usize = (1u64 << bits) as usize;
        let mut hashed: Vec<Vec<u32>> = Vec::new();
        let mut k: usize = 0;
        while k < 12
            invariant
                k <= 12,
                n == table_len(bits),
                hashed@.len() == k,
                forall|q: int| 0 <= q < k ==> #[trigger] hashed@[q]@ == Seq::new(n as nat, |i: int| 0u32),
            decreases 12 - k,
        {
            let row: Vec<u32> = vec![0u32; n];
            assert(row@ =~= Seq::new(n as nat, |i: int| 0u32));
            hashed.push(row);
            k += 1;
        }
        let mut smaps: Vec<Vec<u32>> = Vec::new();
        let ghost m0 = Seq::new(state_pairs().len(), |s: int| sm_of(implied_prob(s) as u32, 0));
        let mut j: usize = 0;
        while j < 14
            invariant
                j <= 14,
                states.wf(),
                states_ok(),
                m0 == Seq::new(state_pairs().len(), |s: int| sm_of(implied_prob(s) as u32, 0)),
                j > 0 ==> smap_ok(m0),
                smaps@.len() == j,
                forall|q: int| 0 <= q < j ==> #[trigger] smaps@[q]@ == m0,
            decreases 14 - j,
        {
            smaps.push(initial_map(states));
            j += 1;
        }
        let t = Slots {
            bits,
            o0: vec![0u32; 256],
            o1: vec![0u32; 65536],
            hashed,
            smaps,
            idx: vec![0usize; 14],
            active: 0,
        };
        let ghost i0 = SlotsState::init(bits);
        assert(t@.o0 =~= i0.o0);
        assert(t@.o1 =~= i0.o1);
        assert(t@.hashed =~= i0.hashed);
        assert(t@.smaps =~= i0.smaps);
        assert(t@.idx =~= i0.idx);
        t
    }
}

/// Writes one table's two inputs.
fn feed(j: usize, slot: u32, smap: &Vec<u32>, stretch: &Vec<i16>, inputs: &mut Vec<i32>)
    requires
        j < 14,
        slot_ok(slot),
        smap_ok(smap@),
        is_stretch(stretch@),
        old(inputs)@.len() == 31,
    ensures
        final(inputs)@ == old(inputs)@.update(2 * j, stretched(slot_prob(slot)) as i32).update(
            2 * j + 1,
            stretched(sm_prob(smap@[slot_state(slot) as int]) as int) as i32,
        ),
        -2047 <= final(inputs)@[2 * j] <= 2047,
        -2047 <= final(inputs)@[2 * j + 1] <= 2047,
{
    proof {
        lemma_slot(slot);
    }
    let state: usize = ((slot >> 16) & 0xff) as usize;
    let a: i32 = st16(slot_p(slot), stretch);
    let b: i32 = st16(sm_p(smap[state]), stretch);
    inputs[2 * j] = a;
    inputs[2 * j + 1] = b;
}

proof fn lemma_check(x: u64)
    ensures
        check_of(x) <= 255,
{
    assert(((x >> 20) & 0xff) as u32 <= 255) by (bit_vector);
}

/// A refreshed row is a row.
proof fn lemma_found_row(row: Seq<u32>, bits: u32, x: u64)
    requires
        row_ok(row, bits),
        16 <= bits <= 30,
        states_ok(),
    ensures
        row_ok(found_row(row, bits, x), bits),
{
    lemma_table(x, bits);
    lemma_check(x);
    lemma_fresh_slot(check_of(x));
}

/// What the inputs hold once the first `j` tables were read.
spec fn inputs_upto(t: SlotsState, h: HistoryState, inputs: Seq<i32>, old_inputs: Seq<i32>, j: int) -> bool {
    let a = t.after_lookup(h);
    &&& inputs.len() == 31
    &&& forall|i: int|
        0 <= i < j ==> #[trigger] inputs[2 * i] == a.slot_input(i) as i32 && inputs[2 * i + 1]
            == a.map_input(i) as i32 && -2047 <= inputs[2 * i] <= 2047 && -2047 <= inputs[2 * i + 1]
            <= 2047
    &&& forall|i: int| 28 <= i < 31 ==> #[trigger] inputs[i] == old_inputs[i]
}

impl Slots {
    /// Finds the slot of hashed table `k`, refreshed if it was another context's.
    fn find(&mut self, k: usize, h: &History) -> (slot: u32)
        requires
            k < 12,
            old(self)@.wf(),
            h@.wf(),
        ensures
            final(self)@ == (SlotsState {
                hashed: old(self)@.hashed.update(
                    k as int,
                    found_row(old(self)@.hashed[k as int], old(self)@.bits, bit_hash(h@, k as int)),
                ),
                idx: old(self)@.idx.update(
                    k + 2,
                    table_index(bit_hash(h@, k as int), old(self)@.bits) as int,
                ),
                ..old(self)@
            }),
            slot == final(self)@.hashed[k as int][final(self)@.idx[k + 2]],
            final(self)@.wf(),
    {
        let ghost before = self@;
        let x: u64 = h.hashes[k] ^ (h.c0 as u64).wrapping_mul(GOLD);
        proof {
            lemma_table(x, self.bits);
            lemma_check(x);
            lemma_fresh_slot(check_of(x));
            assert(row_ok(before.hashed[k as int], before.bits));
            lemma_found_row(before.hashed[k as int], before.bits, x);
        }
        let i: usize = (x >> (64 - self.bits)) as usize;
        let check: u32 = ((x >> 20) & 0xff) as u32;
        let old_slot: u32 = self.hashed[k][i];
        let slot: u32 = if (old_slot >> 24) != check {
            check << 24
        } else {
            old_slot
        };
        self.hashed[k][i] = slot;
        self.idx[k + 2] = i;
        proof {
            assert(self@.hashed =~= before.hashed.update(
                k as int,
                found_row(before.hashed[k as int], before.bits, x),
            ));
            assert(self@.idx =~= before.idx.update(k + 2, i as int));
            assert(self@.smaps =~= before.smaps);
        }
        slot
    }

    /// Finds the slots for the next bit and feeds their predictions to the mixer.
    pub fn lookup(&mut self, h: &History, stretch: &Vec<i16>, inputs: &mut Vec<i32>)
        requires
            old(self)@.wf(),
            h@.wf(),
            is_stretch(stretch@),
            old(inputs)@.len() == 31,
        ensures
            final(self)@ == old(self)@.after_lookup(h@),
            final(self)@.wf(),
            final(self)@.looked_up(),
            final(inputs)@ == final(self)@.inputs_after(old(inputs)@),
            forall|i: int| 0 <= i < 28 ==> -2047 <= #[trigger] final(inputs)@[i] <= 2047,
    {
        let ghost t0 = self@;
        let ghost in0 = inputs@;
        let ghost goal = t0.after_lookup(h@);
        proof {
            lemma_last(h.window);
        }
        let c0: usize = h.c0 as usize;
        let b1: usize = (h.window & 0xff) as usize;
        let i1: usize = b1 * 256 + c0;
        self.idx[0] = c0;
        self.idx[1] = i1;
        let s0: u32 = self.o0[c0];
        let s1: u32 = self.o1[i1];
        proof {
            assert(slot_ok(t0.o0[c0 as int]));
            assert(slot_ok(t0.o1[i1 as int]));
            assert(smap_ok(t0.smaps[0]));
            assert(smap_ok(t0.smaps[1]));
        }
        feed(0, s0, &self.smaps[0], stretch, inputs);
        feed(1, s1, &self.smaps[1], stretch, inputs);
        let n: usize = if h.rec_active() {
            12
        } else {
            9
        };
        assert(self@.hashed =~= t0.hashed);
        assert(self@.smaps =~= t0.smaps);
        assert(self@.wf());
        assert(inputs_upto(t0, h@, inputs@, in0, 2)) by {
            assert(goal.slot(0) == s0);
            assert(goal.slot(1) == s1);
        }
        let mut k: usize = 0;
        while k < n
            invariant
                k <= n,
                n == hashed_in_use(h@),
                t0.wf(),
                h@.wf(),
                is_stretch(stretch@),
                self@.wf(),
                goal == t0.after_lookup(h@),
                self@.bits == t0.bits,
                self@.o0 == t0.o0,
                self@.o1 == t0.o1,
                self@.smaps == t0.smaps,
                self@.idx.len() == 14,
                forall|j: int| 0 <= j < k + 2 ==> #[trigger] self@.idx[j] == goal.idx[j],
                forall|j: int| k + 2 <= j < 14 ==> #[trigger] self@.idx[j] == t0.idx[j],
                forall|q: int| 0 <= q < k ==> #[trigger] self@.hashed[q] == goal.hashed[q],
                forall|q: int| k <= q < 12 ==> #[trigger] self@.hashed[q] == t0.hashed[q],
                inputs_upto(t0, h@, inputs@, in0, k + 2),
            decreases n - k,
        {
            let slot: u32 = self.find(k, h);
            let ghost in1 = inputs@;
            proof {
                assert(self@.hashed[k as int] == goal.hashed[k as int]);
                assert(goal.idx[k + 2] == table_index(bit_hash(h@, k as int), t0.bits));
                assert(goal.slot(k + 2) == slot);
                assert(smap_ok(t0.smaps[k + 2]));
                assert(row_ok(self@.hashed[k as int], t0.bits));
                lemma_table(bit_hash(h@, k as int), t0.bits);
            }
            feed(k + 2, slot, &self.smaps[k + 2], stretch, inputs);
            assert(inputs_upto(t0, h@, inputs@, in0, k + 3)) by {
                assert forall|i: int| 0 <= i < k + 3 implies #[trigger] inputs@[2 * i]
                    == goal.slot_input(i) as i32 && inputs@[2 * i + 1] == goal.map_input(i) as i32
                    && -2047 <= inputs@[2 * i] <= 2047 && -2047 <= inputs@[2 * i + 1] <= 2047 by {
                    if i < k + 2 {
                        assert(inputs@[2 * i] == in1[2 * i]);
                        assert(inputs@[2 * i + 1] == in1[2 * i + 1]);
                    }
                }
                assert forall|i: int| 28 <= i < 31 implies #[trigger] inputs@[i] == in0[i] by {
                    assert(inputs@[i] == in1[i]);
                }
            }
            k += 1;
        }
        self.active = n + 2;
        proof {
            assert(self@.hashed =~= goal.hashed);
            assert(self@.idx =~= goal.idx);
            assert(self@ == goal);
            assert forall|j: int| 2 <= j < goal.active implies 0 <= #[trigger] goal.idx[j]
                < table_len(goal.bits) by {
                lemma_table(bit_hash(h@, j - 2), t0.bits);
            }
        }
        let mut j: usize = n + 2;
        while j < 14
            invariant
                n + 2 <= j <= 14,
                goal == t0.after_lookup(h@),
                goal.active == n + 2,
                inputs_upto(t0, h@, inputs@, in0, n + 2),
                forall|i: int| 2 * (n + 2) <= i < 2 * j ==> #[trigger] inputs@[i] == 0,
            decreases 14 - j,
        {
            let ghost in1 = inputs@;
            inputs[2 * j] = 0;
            inputs[2 * j + 1] = 0;
            assert(inputs_upto(t0, h@, inputs@, in0, n + 2)) by {
                assert forall|i: int| 0 <= i < n + 2 implies #[trigger] inputs@[2 * i]
                    == goal.slot_input(i) as i32 && inputs@[2 * i + 1] == goal.map_input(i) as i32
                    && -2047 <= inputs@[2 * i] <= 2047 && -2047 <= inputs@[2 * i + 1] <= 2047 by {
                    assert(inputs@[2 * i] == in1[2 * i]);
                    assert(inputs@[2 * i + 1] == in1[2 * i + 1]);
                }
                assert forall|i: int| 28 <= i < 31 implies #[trigger] inputs@[i] == in0[i] by {
                    assert(inputs@[i] == in1[i]);
                }
            }
            j += 1;
        }
        proof {
            let want = goal.inputs_after(in0);
            assert forall|i: int| 0 <= i < 31 implies #[trigger] inputs@[i] == want[i] && (i < 28 ==>
                -2047 <= inputs@[i] <= 2047) by {
                if i < 2 * (n + 2) {
                    let m = i / 2;
                    assert(inputs@[2 * m] == goal.slot_input(m) as i32);
                    if i % 2 == 0 {
                        assert(i == 2 * m);
                    } else {
                        assert(i == 2 * m + 1);
                    }
                }
            }
            assert(inputs@ =~= want);
        }
    }

    /// Learns `bit` in the slot of hashed table `k`, which it gives back as it was.
    fn learn_row(&mut self, k: usize, one: bool, states: &StateTable, recip: &Vec<u32>) -> (slot: u32)
        requires
            k < 12,
            old(self)@.wf(),
            0 <= old(self)@.idx[k + 2] < table_len(old(self)@.bits),
            states.wf(),
            is_rates(recip@, 96, 0),
        ensures
            slot == old(self)@.slot(k + 2),
            final(self)@ == (SlotsState {
                hashed: old(self)@.hashed.update(
                    k as int,
                    learned_row(old(self)@.hashed[k as int], old(self)@.idx[k + 2], one),
                ),
                ..old(self)@
            }),
            final(self)@.wf(),
    {
        let ghost before = self@;
        assert(row_ok(before.hashed[k as int], before.bits));
        let i: usize = self.idx[k + 2];
        let slot: u32 = self.hashed[k][i];
        assert(slot == before.hashed[k as int][i as int]);
        let next: u32 = slot_step(slot, one, states, recip);
        self.hashed[k][i] = next;
        proof {
            assert(self@.hashed =~= before.hashed.update(
                k as int,
                learned_row(before.hashed[k as int], i as int, one),
            ));
            assert(self@.smaps =~= before.smaps);
        }
        slot
    }

    /// Learns `bit` in table `j`'s map, at the state of `slot`.
    fn learn_map(&mut self, j: usize, slot: u32, one: bool, recip: &Vec<u32>)
        requires
            j < 14,
            slot_ok(slot),
            old(self)@.wf(),
            is_rates(recip@, 1024, 128),
        ensures
            final(self)@ == (SlotsState {
                smaps: old(self)@.smaps.update(
                    j as int,
                    learned_map(old(self)@.smaps[j as int], slot, one),
                ),
                ..old(self)@
            }),
            final(self)@.wf(),
    {
        let ghost before = self@;
        proof {
            lemma_slot(slot);
            assert(smap_ok(before.smaps[j as int]));
        }
        let state: usize = ((slot >> 16) & 0xff) as usize;
        let e0: u32 = self.smaps[j][state];
        assert(e0 == before.smaps[j as int][state as int]);
        let e: u32 = sm_update(e0, one, recip);
        self.smaps[j][state] = e;
        proof {
            assert(self@.smaps =~= before.smaps.update(
                j as int,
                learned_map(before.smaps[j as int], slot, one),
            ));
            assert(self@.hashed =~= before.hashed);
        }
    }

    /// Learns `bit` in every slot that the lookup found.
    pub fn update(&mut self, one: bool, states: &StateTable, recip_slot: &Vec<u32>, recip_sm: &Vec<u32>)
        requires
            old(self)@.wf(),
            old(self)@.looked_up(),
            states.wf(),
            is_rates(recip_slot@, 96, 0),
            is_rates(recip_sm@, 1024, 128),
        ensures
            final(self)@ == old(self)@.updated(one),
            final(self)@.wf(),
    {
        let ghost t0 = self@;
        let ghost goal = t0.updated(one);
        let i0: usize = self.idx[0];
        let i1: usize = self.idx[1];
        assert(i0 == t0.idx[0] && i1 == t0.idx[1]);
        let s0: u32 = self.o0[i0];
        let s1: u32 = self.o1[i1];
        assert(slot_ok(t0.o0[i0 as int]));
        assert(slot_ok(t0.o1[i1 as int]));
        let n0: u32 = slot_step(s0, one, states, recip_slot);
        let n1: u32 = slot_step(s1, one, states, recip_slot);
        self.o0[i0] = n0;
        self.o1[i1] = n1;
        assert(self@.hashed =~= t0.hashed);
        assert(self@.smaps =~= t0.smaps);
        assert(self@.wf());
        self.learn_map(0, s0, one, recip_sm);
        self.learn_map(1, s1, one, recip_sm);
        let n: usize = self.active - 2;
        let mut k: usize = 0;
        while k < n
            invariant
                k <= n <= 12,
                n == t0.active - 2,
                t0.wf(),
                t0.looked_up(),
                goal == t0.updated(one),
                states.wf(),
                is_rates(recip_slot@, 96, 0),
                is_rates(recip_sm@, 1024, 128),
                self@.wf(),
                self@.bits == t0.bits,
                self@.o0 == goal.o0,
                self@.o1 == goal.o1,
                self@.idx == t0.idx,
                self@.active == t0.active,
                forall|q: int| 0 <= q < k ==> #[trigger] self@.hashed[q] == goal.hashed[q],
                forall|q: int| k <= q < 12 ==> #[trigger] self@.hashed[q] == t0.hashed[q],
                forall|j: int| 0 <= j < k + 2 ==> #[trigger] self@.smaps[j] == goal.smaps[j],
                forall|j: int| k + 2 <= j < 14 ==> #[trigger] self@.smaps[j] == t0.smaps[j],
            decreases n - k,
        {
            proof {
                assert(0 <= t0.idx[k + 2] < table_len(t0.bits));
                assert(row_ok(t0.hashed[k as int], t0.bits));
                assert(self@.hashed[k as int] == t0.hashed[k as int]);
                assert(self@.smaps[k + 2] == t0.smaps[k + 2]);
            }
            let slot: u32 = self.learn_row(k, one, states, recip_slot);
            assert(slot == t0.slot(k + 2));
            assert(slot_ok(t0.hashed[k as int][t0.idx[k + 2]]));
            self.learn_map(k + 2, slot, one, recip_sm);
            k += 1;
        }
        proof {
            assert(self@.hashed =~= goal.hashed);
            assert(self@.smaps =~= goal.smaps);
        }
    }
}

} // verus!
