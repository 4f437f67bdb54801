//! The match model: finds where the last eight bytes occurred before and
//! predicts the bit that followed there, with a confidence learned for each
//! length of match and expected bit.

use crate::cm::counter::{conf_next, conf_step, is_rates, slot_p, slot_prob};
use crate::cm::history::{splitmix, splitmix_of, History, HistoryState};
use crate::cm::squash::{is_stretch, lemma_stretch_range, stretch_at};
use vstd::prelude::*;

verus! {

/// The shortest match that is looked up.
pub const MATCH_MIN: usize = 8;

/// The number of slots of a table of `bits` address bits.
pub open spec fn table_len(bits: u32) -> u64 {
    1u64 << bits
}

/// The slot that a hash falls in: its high bits.
pub open spec fn table_index(h: u64, bits: u32) -> u64 {
    h >> ((64 - bits) as u32)
}

pub proof fn lemma_table(h: u64, bits: u32)
    requires
        16 <= bits <= 30,
    ensures
        65536 <= table_len(bits) <= 0x4000_0000,
        table_index(h, bits) < table_len(bits),
{
    let k: u32 = (64 - bits) as u32;
    assert(65536 <= 1u64 << bits && 1u64 << bits <= 0x4000_0000 && h >> k < 1u64 << bits)
        by (bit_vector)
        requires
            16 <= bits <= 30,
            k == 64 - bits,
    ;
}

/// The stretched form of a probability of 65536.
pub open spec fn stretched(p16: int) -> int {
    stretch_at(p16 / 16)
}

pub fn st16(p16: i32, stretch: &Vec<i16>) -> (r: i32)
    requires
        0 <= p16 <= 65535,
        is_stretch(stretch@),
    ensures
        r == stretched(p16 as int),
        -2047 <= r <= 2047,
{
    assert(p16 >> 4 == p16 / 16) by (bit_vector)
        requires
            0 <= p16,
    ;
    let i: usize = (p16 >> 4) as usize;
    proof {
        lemma_stretch_range(i as int);
        assert(stretch@[i as int] == stretch_at(i as int));
    }
    stretch[i] as i32
}

pub struct MatchState {
    /// Where each hash of eight bytes was last seen.
    pub tbl: Seq<u32>,
    pub bits: u32,
    /// The confidences, by length and expected bit.
    pub ctr: Seq<u32>,
    /// The position that the match predicts from, while `len` is above zero.
    pub pos: int,
    pub len: u32,
    /// The expected bit, or -1 for none.
    pub expected: int,
    pub bucket: int,
}

impl MatchState {
    pub open spec fn init(bits: u32) -> MatchState {
        MatchState {
            tbl: Seq::new(table_len(bits) as nat, |i: int| 0u32),
            bits,
            ctr: Seq::new(64, |i: int| 0u32),
            pos: 0,
            len: 0,
            expected: -1,
            bucket: 0,
        }
    }

    pub open spec fn wf(self, h: HistoryState) -> bool {
        &&& 16 <= self.bits <= 30
        &&& self.tbl.len() == table_len(self.bits)
        &&& self.ctr.len() == 64
        &&& self.len > 0 ==> 0 <= self.pos < h.buf.len()
        &&& -1 <= self.expected <= 1
        &&& 0 <= self.bucket < 64
    }

    pub open spec fn expects(self, h: HistoryState) -> bool {
        self.len > 0 && self.pos < h.buf.len()
    }

    /// The bit of the predicted byte that comes next.
    pub open spec fn expected_bit(self, h: HistoryState) -> u32 {
        ((h.buf[self.pos] as u32) >> ((7 - h.bitpos) as u32)) & 1
    }

    pub open spec fn bucket_of(self, e: u32) -> int {
        (if self.len < 31 {
            self.len
        } else {
            31
        }) * 2 + e
    }

    pub open spec fn after_read(self, h: HistoryState) -> MatchState {
        if self.expects(h) {
            let e = self.expected_bit(h);
            MatchState { expected: e as int, bucket: self.bucket_of(e), ..self }
        } else {
            MatchState { expected: -1, ..self }
        }
    }

    /// The model's input to the mixer: how sure it is of the expected bit.
    pub open spec fn input(self, h: HistoryState) -> int {
        if self.expects(h) {
            let e = self.expected_bit(h);
            let s = stretched(slot_prob(self.ctr[self.bucket_of(e)]));
            if e == 1 {
                s
            } else {
                -s
            }
        } else {
            0
        }
    }

    /// Learns whether the expected bit came; a wrong one ends the match.
    pub open spec fn updated(self, one: bool) -> MatchState {
        if self.expected >= 0 {
            let right = one == (self.expected == 1);
            MatchState {
                ctr: self.ctr.update(self.bucket, conf_next(self.ctr[self.bucket], right)),
                len: if right {
                    self.len
                } else {
                    0
                },
                ..self
            }
        } else {
            self
        }
    }

    /// Follows a running match by one byte.
    pub open spec fn extended(self) -> MatchState {
        if self.len > 0 {
            MatchState { pos: self.pos + 1, len: self.len.wrapping_add(1), ..self }
        } else {
            self
        }
    }

    /// Whether the eight bytes before `cand` are the last eight bytes.
    pub open spec fn is_match(buf: Seq<u8>, cand: int) -> bool {
        &&& 8 <= cand < buf.len()
        &&& buf.subrange(cand - 8, cand) == buf.subrange(buf.len() - 8, buf.len() as int)
    }

    /// After the byte that ends `h`: follow the match, or look for one.
    pub open spec fn after_byte(self, h: HistoryState) -> MatchState {
        let m = self.extended();
        if h.buf.len() >= 8 {
            let i = table_index(splitmix_of(h.window), m.bits) as int;
            let cand = m.tbl[i] as int;
            let found = m.len == 0 && Self::is_match(h.buf, cand);
            MatchState {
                tbl: m.tbl.update(i, h.buf.len() as u32),
                pos: if found {
                    cand
                } else {
                    m.pos
                },
                len: if found {
                    8
                } else {
                    m.len
                },
                ..m
            }
        } else {
            m
        }
    }
}

pub struct Matcher {
    pub tbl: Vec<u32>,
    pub bits: u32,
    pub ctr: Vec<u32>,
    pub pos: usize,
    pub len: u32,
    pub expected: i32,
    pub bucket: usize,
}

impl View for Matcher {
    type V = MatchState;

    open spec fn view(&self) -> MatchState {
        MatchState {
            tbl: self.tbl@,
            bits: self.bits,
            ctr: self.ctr@,
            pos: self.pos as int,
            len: self.len,
            expected: self.expected as int,
            bucket: self.bucket as int,
        }
    }
}

fn same_eight(buf: &Vec<u8>, a: usize, b: usize) -> (r: bool)
    requires
        8 <= a <= buf@.len(),
        8 <= b <= buf@.len(),
    ensures
        r == (buf@.subrange(a - 8, a as int) == buf@.subrange(b - 8, b as int)),
{
    let ghost sa = buf@.subrange(a - 8, a as int);
    let ghost sb = buf@.subrange(b - 8, b as int);
    let mut i: usize = 0;
    while i < 8
        invariant
            i <= 8,
            8 <= a <= buf@.len(),
            8 <= b <= buf@.len(),
            sa == buf@.subrange(a - 8, a as int),
            sb == buf@.subrange(b - 8, b as int),
            forall|k: int| 0 <= k < i ==> #[trigger] sa[k] == sb[k],
        decreases 8 - i,
    {
        if buf[a - 8 + i] != buf[b - 8 + i] {
            assert(sa[i as int] != sb[i as int]);
            return false;
        }
        i += 1;
    }
    assert(sa =~= sb);
    true
}

impl Matcher {
    pub fn new(bits: u32) -> (m: Self)
        requires
            16 <= bits <= 30,
        ensures
            m@ == MatchState::init(bits),
            forall|h: HistoryState| m@.wf(h),
    {
        proof {
            lemma_table(0, bits);
        }
        let n: usize = (1u64 << bits) as usize;
        let m = Matcher {
            tbl: vec![0u32; n],
            bits,
            ctr: vec![0u32; 64],
            pos: 0,
            len: 0,
            expected: -1,
            bucket: 0,
        };
        assert(m@.tbl =~= MatchState::init(bits).tbl);
        assert(m@.ctr =~= MatchState::init(bits).ctr);
        m
    }

    pub fn predict(&mut self, h: &History, stretch: &Vec<i16>) -> (input: i32)
        requires
            old(self)@.wf(h@),
            h@.wf(),
            is_stretch(stretch@),
        ensures
            input == old(self)@.input(h@),
            final(self)@ == old(self)@.after_read(h@),
            final(self)@.wf(h@),
            -2047 <= input <= 2047,
    {
        self.expected = -1;
        if self.len > 0 && self.pos < h.buf.len() {
            let pb: u32 = h.buf[self.pos] as u32;
            let k: u32 = 7 - h.bitpos;
            assert((pb >> k) & 1 <= 1) by (bit_vector);
            let e: u32 = (pb >> k) & 1;
            let l: u32 = if self.len < 31 {
                self.len
            } else {
                31
            };
            let bucket: usize = l as usize * 2 + e as usize;
            self.bucket = bucket;
            self.expected = e as i32;
            let s: i32 = st16(slot_p(self.ctr[bucket]), stretch);
            if e == 1 {
                s
            } else {
                -s
            }
        } else {
            0
        }
    }

    pub fn update(&mut self, one: bool, recip: &Vec<u32>, Ghost(h): Ghost<HistoryState>)
        requires
            old(self)@.wf(h),
            is_rates(recip@, 96, 0),
        ensures
            final(self)@ == old(self)@.updated(one),
            final(self)@.wf(h),
    {
        if self.expected >= 0 {
            let right: bool = one == (self.expected == 1);
            let b: usize = self.bucket;
            let e: u32 = conf_step(self.ctr[b], right, recip);
            self.ctr[b] = e;
            if !right {
                self.len = 0;
            }
        }
    }

    pub fn on_byte(&mut self, h: &History, Ghost(before): Ghost<HistoryState>)
        requires
            old(self)@.wf(before),
            h@.buf.len() == before.buf.len() + 1,
        ensures
            final(self)@ == old(self)@.after_byte(h@),
            final(self)@.wf(h@),
    {
        let n: usize = h.buf.len();
        if self.len > 0 {
            self.pos = self.pos + 1;
            self.len = self.len.wrapping_add(1);
        }
        if n >= MATCH_MIN {
            let x: u64 = splitmix(h.window);
            proof {
                lemma_table(x, self.bits);
            }
            let i: usize = (x >> (64 - self.bits)) as usize;
            if self.len == 0 {
                let cand: usize = self.tbl[i] as usize;
                if cand >= MATCH_MIN && cand < n && same_eight(&h.buf, cand, n) {
                    self.pos = cand;
                    self.len = 8;
                }
            }
            self.tbl[i] = n as u32;
        }
    }
}

} // verus!
