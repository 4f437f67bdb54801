//! APM / SSE: refines a probability under a context, interpolating between 33
//! buckets of the stretched probability.

use crate::cm::squash::{clamp, is_stretch, lemma_stretch_range, squash, squash_at, stretch_at};
use vstd::prelude::*;

verus! {

/// The state of an APM: 33 buckets for each context, and the bucket that the
/// last refinement read.
pub struct ApmState {
    pub t: Seq<u16>,
    pub index: int,
}

/// Where a stretched probability falls, in 4096ths of a bucket.
pub open spec fn bucket_pos(pr12: int) -> int {
    (stretch_at(clamp(pr12, 0, 4095)) + 2048) * 32
}

pub open spec fn bucket(pr12: int) -> int {
    let j = bucket_pos(pr12) / 4096;
    if j < 31 {
        j
    } else {
        31
    }
}

impl ApmState {
    /// `n` contexts, each of them the identity.
    pub open spec fn init(n: nat) -> ApmState {
        ApmState {
            t: Seq::new(n * 33, |i: int| (squash_at((i % 33 - 16) * 128) * 16) as u16),
            index: 0,
        }
    }

    /// The refined probability, of 4096.
    pub open spec fn refined(self, pr12: int, cxt: int) -> int {
        let i = cxt * 33 + bucket(pr12);
        let w = bucket_pos(pr12) % 4096;
        clamp((self.t[i] * (4096 - w) + self.t[i + 1] * w) / 65536, 1, 4095)
    }

    pub open spec fn after_read(self, pr12: int, cxt: int) -> ApmState {
        ApmState { index: cxt * 33 + bucket(pr12), ..self }
    }

    /// The two buckets that were read move towards `bit`.
    pub open spec fn updated(self, one: bool) -> ApmState {
        ApmState {
            t: self.t.update(self.index, moved(self.t[self.index], one)).update(
                self.index + 1,
                moved(self.t[self.index + 1], one),
            ),
            ..self
        }
    }

    /// `n` contexts, with the bucket that was read among them.
    pub open spec fn wf(self, n: nat) -> bool {
        &&& self.t.len() == n * 33
        &&& n <= 65536
        &&& 0 <= self.index < self.t.len() - 1
    }

    /// The number of contexts.
    pub open spec fn contexts(self) -> nat {
        self.t.len() / 33
    }
}

/// A bucket moved a 128th of the way towards `bit`.
pub open spec fn moved(t: u16, one: bool) -> u16 {
    let g: int = if one {
        65535
    } else {
        0
    };
    (t + (g - t) / 128) as u16
}

pub struct Apm {
    pub t: Vec<u16>,
    pub index: usize,
}

impl View for Apm {
    type V = ApmState;

    open spec fn view(&self) -> ApmState {
        ApmState { t: self.t@, index: self.index as int }
    }
}

fn move_bucket(t: u16, one: bool) -> (r: u16)
    ensures
        r == moved(t, one),
{
    let g: i32 = if one {
        65535
    } else {
        0
    };
    let d: i32 = g - t as i32;
    let q: i32 = d >> 7;
    assert(q * 128 <= d && d < q * 128 + 128) by (bit_vector)
        requires
            q == d >> 7,
    ;
    (t as i32 + q) as u16
}

impl Apm {
    pub fn new(n: usize) -> (a: Self)
        requires
            0 < n <= 65536,
        ensures
            a@ == ApmState::init(n as nat),
            a@.wf(n as nat),
    {
        let mut t: Vec<u16> = Vec::new();
        let mut i: usize = 0;
        while i < n
            invariant
                n <= 65536,
                i <= n,
                t@.len() == i * 33,
                forall|k: int|
                    0 <= k < t@.len() ==> #[trigger] t@[k] == (squash_at((k % 33 - 16) * 128)
                        * 16) as u16,
            decreases n - i,
        {
            let mut j: i32 = 0;
            while j < 33
                invariant
                    0 <= j <= 33,
                    t@.len() == i * 33 + j,
                    forall|k: int|
                        0 <= k < t@.len() ==> #[trigger] t@[k] == (squash_at((k % 33 - 16) * 128)
                            * 16) as u16,
                decreases 33 - j,
            {
                assert((i * 33 + j) % 33 == j);
                t.push((squash((j - 16) * 128) * 16) as u16);
                j += 1;
            }
            i += 1;
        }
        let a = Apm { t, index: 0 };
        assert(a@.t =~= ApmState::init(n as nat).t);
        a
    }

    pub fn pp(&mut self, pr12: i32, cxt: usize, stretch: &Vec<i16>) -> (r: i32)
        requires
            old(self)@.wf(old(self)@.contexts()),
            cxt < old(self)@.contexts(),
            is_stretch(stretch@),
        ensures
            r == old(self)@.refined(pr12 as int, cxt as int),
            final(self)@ == old(self)@.after_read(pr12 as int, cxt as int),
            final(self)@.wf(old(self)@.contexts()),
            1 <= r <= 4095,
    {
        let k: i32 = if pr12 < 0 {
            0
        } else if pr12 > 4095 {
            4095
        } else {
            pr12
        };
        proof {
            lemma_stretch_range(k as int);
            assert(stretch@[k as int] == stretch_at(k as int));
        }
        let s: i32 = stretch[k as usize] as i32;
        let v: i32 = (s + 2048) * 32;
        assert(v >> 12 == v / 4096 && v & 4095 == v % 4096) by (bit_vector)
            requires
                0 <= v,
        ;
        let j: i32 = if (v >> 12) < 31 {
            v >> 12
        } else {
            31
        };
        let w: i32 = v & 4095;
        let i: usize = cxt * 33 + j as usize;
        self.index = i;
        let a: i32 = self.t[i] as i32;
        let b: i32 = self.t[i + 1] as i32;
        proof {
            assert(0 <= a * (4096 - w) <= 65535 * 4096 && 0 <= b * w <= 65535 * 4096)
                by (nonlinear_arith)
                requires
                    0 <= a <= 65535,
                    0 <= b <= 65535,
                    0 <= w < 4096,
            ;
        }
        let sum: i32 = a * (4096 - w) + b * w;
        assert(sum >> 16 == sum / 65536) by (bit_vector)
            requires
                0 <= sum,
        ;
        let q: i32 = sum >> 16;
        if q < 1 {
            1
        } else if q > 4095 {
            4095
        } else {
            q
        }
    }

    pub fn update(&mut self, one: bool)
        requires
            old(self)@.wf(old(self)@.contexts()),
        ensures
            final(self)@ == old(self)@.updated(one),
            final(self)@.wf(old(self)@.contexts()),
    {
        let i: usize = self.index;
        let a: u16 = move_bucket(self.t[i], one);
        self.t[i] = a;
        let b: u16 = move_bucket(self.t[i + 1], one);
        self.t[i + 1] = b;
    }
}

} // verus!
