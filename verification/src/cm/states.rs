//! Bit-history states: bounded pairs of counts `(n0, n1)` of the zero and one
//! bits seen in a context, with the opposite count discounted on surprise.

use vstd::prelude::*;

verus! {

/// The larger count that is allowed beside the smaller count `lo`.
pub open spec fn state_cap(lo: int) -> int {
    if lo == 0 {
        40
    } else if lo == 1 {
        10
    } else if lo == 2 {
        6
    } else if lo == 3 {
        5
    } else {
        4
    }
}

/// Whether `(n0, n1)` is a state.
pub open spec fn valid_pair(n0: int, n1: int) -> bool {
    let lo = if n0 <= n1 {
        n0
    } else {
        n1
    };
    let hi = if n0 <= n1 {
        n1
    } else {
        n0
    };
    0 <= lo < 5 && hi <= state_cap(lo)
}

pub fn state_valid(n0: u32, n1: u32) -> (r: bool)
    ensures
        r == valid_pair(n0 as int, n1 as int),
{
    let lo: u32 = if n0 <= n1 {
        n0
    } else {
        n1
    };
    let hi: u32 = if n0 <= n1 {
        n1
    } else {
        n0
    };
    let cap: u32 = match lo {
        0 => 40,
        1 => 10,
        2 => 6,
        3 => 5,
        _ => 4,
    };
    lo < 5 && hi <= cap
}

/// The states of total count `t` whose second count is below `k`, by second count.
pub open spec fn pairs_of_total(t: nat, k: nat) -> Seq<(u8, u8)>
    decreases k,
{
    if k == 0 {
        Seq::empty()
    } else {
        let n1 = (k - 1) as nat;
        let rest = pairs_of_total(t, n1);
        if n1 <= t && valid_pair(t - n1, n1 as int) {
            rest.push(((t - n1) as u8, n1 as u8))
        } else {
            rest
        }
    }
}

/// The states of total count below `t`, by total count and then second count.
pub open spec fn pairs_below(t: nat) -> Seq<(u8, u8)>
    decreases t,
{
    if t == 0 {
        Seq::empty()
    } else {
        pairs_below((t - 1) as nat) + pairs_of_total((t - 1) as nat, t)
    }
}

/// All states, ordered by total count and then by the number of ones.
#[verifier::opaque]
pub open spec fn state_pairs() -> Seq<(u8, u8)> {
    pairs_below(81)
}

/// `(a, b)` with its larger count lowered until the pair is a state.
pub open spec fn shrink(a: nat, b: nat) -> (nat, nat)
    decreases a + b,
{
    if valid_pair(a as int, b as int) {
        (a, b)
    } else if a > b {
        shrink((a - 1) as nat, b)
    } else if b > 0 {
        shrink(a, (b - 1) as nat)
    } else {
        (a, b)
    }
}

/// A count after the other bit was seen: counts above two are halved, plus one.
pub open spec fn discounted(n: nat) -> nat {
    if n > 2 {
        n / 2 + 1
    } else {
        n
    }
}

/// The counts after seeing `bit` in state `(n0, n1)`.
pub open spec fn next_pair(n0: nat, n1: nat, bit: int) -> (nat, nat) {
    if bit == 1 {
        shrink(discounted(n0), n1 + 1)
    } else {
        shrink(n0 + 1, discounted(n1))
    }
}

/// The first position at or after `from` of the pair `(a, b)`.
pub open spec fn find_pair(pairs: Seq<(u8, u8)>, a: nat, b: nat, from: nat) -> nat
    decreases pairs.len() - from,
{
    if from >= pairs.len() {
        from
    } else if pairs[from as int].0 == a && pairs[from as int].1 == b {
        from
    } else {
        find_pair(pairs, a, b, from + 1)
    }
}

/// The number of the state that follows state `s` on `bit`.
pub open spec fn next_state(s: int, bit: int) -> nat {
    let p = next_pair(state_pairs()[s].0 as nat, state_pairs()[s].1 as nat, bit);
    find_pair(state_pairs(), p.0, p.1, 0)
}

/// What the state table rests on: there are at most 256 states, every pair in
/// bounds is among them, and each follows into another.
pub open spec fn states_ok() -> bool {
    &&& 0 < state_pairs().len() <= 256
    &&& state_pairs()[0] == (0u8, 0u8)
    &&& forall|s: int, b: int|
        0 <= s < state_pairs().len() ==> #[trigger] next_state(s, b) < state_pairs().len()
}

proof fn lemma_pairs_of_total(t: nat, k: nat)
    requires
        t <= 80,
    ensures
        t < 12 ==> pairs_of_total(t, k).len() <= k,
        t >= 12 && k <= t ==> pairs_of_total(t, k).len() <= 1,
        t >= 12 ==> pairs_of_total(t, k).len() <= 2,
        forall|i: int|
            0 <= i < pairs_of_total(t, k).len() ==> {
                let p = #[trigger] pairs_of_total(t, k)[i];
                p.0 + p.1 == t && valid_pair(p.0 as int, p.1 as int)
            },
        forall|a: u8, b: u8|
            a + b == t && b < k && valid_pair(a as int, b as int)
                ==> #[trigger] pairs_of_total(t, k).contains((a, b)),
    decreases k,
{
    if k > 0 {
        let n1 = (k - 1) as nat;
        lemma_pairs_of_total(t, n1);
        let rest = pairs_of_total(t, n1);
        let full = pairs_of_total(t, k);
        assert forall|a: u8, b: u8|
            a + b == t && b < k && valid_pair(a as int, b as int) implies #[trigger] full.contains(
            (a, b),
        ) by {
            if b < n1 {
                assert(rest.contains((a, b)));
                let i = choose|i: int| 0 <= i < rest.len() && rest[i] == (a, b);
                assert(full[i] == (a, b));
            } else {
                assert(full[full.len() - 1] == (a, b));
            }
        }
        if t >= 12 && n1 == 0 {
            assert(pairs_of_total(t, 0).len() == 0);
        }
    }
}

proof fn lemma_pairs_below(t: nat)
    requires
        t <= 81,
    ensures
        t <= 12 ==> pairs_below(t).len() * 2 <= t * (t + 1),
        t > 12 ==> pairs_below(t).len() <= 78 + 2 * (t - 12),
        forall|i: int|
            0 <= i < pairs_below(t).len() ==> {
                let p = #[trigger] pairs_below(t)[i];
                p.0 + p.1 < t && valid_pair(p.0 as int, p.1 as int)
            },
        forall|a: u8, b: u8|
            a + b < t && valid_pair(a as int, b as int) ==> #[trigger] pairs_below(t).contains((a, b)),
        t > 0 ==> pairs_below(t).len() > 0 && pairs_below(t)[0] == (0u8, 0u8),
    decreases t,
{
    if t > 0 {
        let u = (t - 1) as nat;
        lemma_pairs_below(u);
        lemma_pairs_of_total(u, t);
        let lo = pairs_below(u);
        let row = pairs_of_total(u, t);
        let full = pairs_below(t);
        assert forall|a: u8, b: u8|
            a + b < t && valid_pair(a as int, b as int) implies #[trigger] full.contains((a, b)) by {
            if a + b < u {
                assert(lo.contains((a, b)));
                let i = choose|i: int| 0 <= i < lo.len() && lo[i] == (a, b);
                assert(full[i] == (a, b));
            } else {
                assert(row.contains((a, b)));
                let i = choose|i: int| 0 <= i < row.len() && row[i] == (a, b);
                assert(full[lo.len() + i] == (a, b));
            }
        }
        if t == 1 {
            reveal_with_fuel(pairs_of_total, 2);
            assert(full[0] == row[0]);
        } else {
            assert(full[0] == lo[0]);
        }
        assert(t <= 12 ==> u * (u + 1) + 2 * t == t * (t + 1)) by (nonlinear_arith)
            requires
                u == t - 1,
        ;
        if t == 13 {
            assert(u * (u + 1) == 156) by (nonlinear_arith)
                requires
                    u == 12,
            ;
        }
    }
}

proof fn lemma_shrink(a: nat, b: nat)
    ensures
        valid_pair(shrink(a, b).0 as int, shrink(a, b).1 as int),
    decreases a + b,
{
    if valid_pair(a as int, b as int) {
    } else if a > b {
        lemma_shrink((a - 1) as nat, b);
    } else if b > 0 {
        lemma_shrink(a, (b - 1) as nat);
    }
}

proof fn lemma_find_pair(pairs: Seq<(u8, u8)>, a: nat, b: nat, from: nat, at: nat)
    requires
        from <= at < pairs.len(),
        pairs[at as int].0 == a,
        pairs[at as int].1 == b,
    ensures
        from <= find_pair(pairs, a, b, from) <= at,
        pairs[find_pair(pairs, a, b, from) as int].0 == a,
        pairs[find_pair(pairs, a, b, from) as int].1 == b,
    decreases at - from,
{
    if !(pairs[from as int].0 == a && pairs[from as int].1 == b) {
        lemma_find_pair(pairs, a, b, from + 1, at);
    }
}

/// A pair that is a state has a number.
proof fn lemma_state_number(a: nat, b: nat)
    requires
        valid_pair(a as int, b as int),
    ensures
        find_pair(state_pairs(), a, b, 0) < state_pairs().len(),
        state_pairs()[find_pair(state_pairs(), a, b, 0) as int] == (a as u8, b as u8),
{
    reveal(state_pairs);
    lemma_pairs_below(81);
    let pairs = state_pairs();
    assert(pairs.contains((a as u8, b as u8)));
    let at = choose|i: int| 0 <= i < pairs.len() && pairs[i] == (a as u8, b as u8);
    lemma_find_pair(pairs, a, b, 0, at as nat);
}

/// The facts of `states_ok`.
pub proof fn lemma_states_ok()
    ensures
        states_ok(),
        forall|s: int|
            0 <= s < state_pairs().len() ==> {
                let p = #[trigger] state_pairs()[s];
                valid_pair(p.0 as int, p.1 as int)
            },
{
    reveal(state_pairs);
    lemma_pairs_below(81);
    assert forall|s: int, b: int| 0 <= s < state_pairs().len() implies #[trigger] next_state(s, b)
        < state_pairs().len() by {
        let n0 = state_pairs()[s].0 as nat;
        let n1 = state_pairs()[s].1 as nat;
        let p = next_pair(n0, n1, b);
        if b == 1 {
            lemma_shrink(discounted(n0), n1 + 1);
        } else {
            lemma_shrink(n0 + 1, discounted(n1));
        }
        lemma_state_number(p.0, p.1);
    }
}

/// The state machine as tables.
pub struct StateTable {
    /// `next[state][bit]` is the number of the following state.
    pub next: Vec<[u8; 2]>,
    /// `counts[state]` is `(n0, n1)`.
    pub counts: Vec<(u8, u8)>,
}

impl StateTable {
    pub open spec fn wf(&self) -> bool {
        &&& self.counts@ == state_pairs()
        &&& self.next@.len() == state_pairs().len()
        &&& forall|s: int, b: int|
            0 <= s < self.next@.len() && 0 <= b < 2 ==> #[trigger] self.next@[s]@[b] == next_state(
                s,
                b,
            )
    }
}

fn position(pairs: &Vec<(u8, u8)>, a: u32, b: u32) -> (r: usize)
    ensures
        r == find_pair(pairs@, a as nat, b as nat, 0),
{
    let mut i: usize = 0;
    while i < pairs.len()
        invariant
            i <= pairs.len(),
            find_pair(pairs@, a as nat, b as nat, 0) == find_pair(
                pairs@,
                a as nat,
                b as nat,
                i as nat,
            ),
        decreases pairs.len() - i,
    {
        if pairs[i].0 as u32 == a && pairs[i].1 as u32 == b {
            return i;
        }
        i += 1;
    }
    i
}

fn build_pairs() -> (pairs: Vec<(u8, u8)>)
    ensures
        pairs@ == state_pairs(),
{
    let mut pairs: Vec<(u8, u8)> = Vec::new();
    let mut t: u32 = 0;
    while t < 81
        invariant
            t <= 81,
            pairs@ == pairs_below(t as nat),
        decreases 81 - t,
    {
        let mut n1: u32 = 0;
        while n1 <= t
            invariant
                n1 <= t + 1,
                t < 81,
                pairs@ == pairs_below(t as nat) + pairs_of_total(t as nat, n1 as nat),
            decreases t + 1 - n1,
        {
            if state_valid(t - n1, n1) {
                pairs.push(((t - n1) as u8, n1 as u8));
            }
            n1 += 1;
            assert(pairs@ =~= pairs_below(t as nat) + pairs_of_total(t as nat, n1 as nat));
        }
        t += 1;
    }
    proof {
        reveal(state_pairs);
    }
    pairs
}

fn shrunk(a0: u32, b0: u32) -> (r: (u32, u32))
    ensures
        (r.0 as nat, r.1 as nat) == shrink(a0 as nat, b0 as nat),
{
    let mut a: u32 = a0;
    let mut b: u32 = b0;
    while !state_valid(a, b)
        invariant
            shrink(a as nat, b as nat) == shrink(a0 as nat, b0 as nat),
        decreases a + b,
    {
        if a > b {
            a -= 1;
        } else {
            b -= 1;
        }
    }
    (a, b)
}

/// Builds the tables: the states in order, and for each the one that follows
/// it on either bit.
pub fn build_states() -> (st: StateTable)
    ensures
        st.wf(),
        states_ok(),
{
    let counts: Vec<(u8, u8)> = build_pairs();
    let mut next: Vec<[u8; 2]> = Vec::new();
    let mut s: usize = 0;
    proof {
        lemma_states_ok();
    }
    while s < counts.len()
        invariant
            states_ok(),
            forall|s: int|
                0 <= s < state_pairs().len() ==> {
                    let p = #[trigger] state_pairs()[s];
                    valid_pair(p.0 as int, p.1 as int)
                },
            counts@ == state_pairs(),
            next@.len() == s,
            s <= counts.len(),
            forall|k: int, b: int|
                0 <= k < s && 0 <= b < 2 ==> #[trigger] next@[k]@[b] == next_state(k, b),
        decreases counts.len() - s,
    {
        let n0: u32 = counts[s].0 as u32;
        let n1: u32 = counts[s].1 as u32;
        assert(valid_pair(n0 as int, n1 as int));
        let d0: u32 = if n0 > 2 {
            n0 / 2 + 1
        } else {
            n0
        };
        let d1: u32 = if n1 > 2 {
            n1 / 2 + 1
        } else {
            n1
        };
        let z = shrunk(n0 + 1, d1);
        let o = shrunk(d0, n1 + 1);
        let iz: usize = position(&counts, z.0, z.1);
        let io: usize = position(&counts, o.0, o.1);
        assert(iz == next_state(s as int, 0));
        assert(io == next_state(s as int, 1));
        next.push([iz as u8, io as u8]);
        s += 1;
    }
    StateTable { next, counts }
}

} // verus!
