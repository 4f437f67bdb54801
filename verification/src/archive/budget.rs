//! How the memory is shared out among the jobs that compress.

use crate::channels::{Blob, Channels, Payload};
use vstd::prelude::*;

verus! {

/// Where nothing is said, three quarters of the memory that is available: the
/// rest is for the system and other processes.
pub fn auto_budget(available: u64) -> (r: u64)
    ensures
        r == available as int * 3 / 4,
{
    (available as u128 * 3 / 4) as u64
}

/// The length of the first `n` blobs.
pub open spec fn blobs_len(v: Seq<Blob>, n: nat) -> int
    decreases n,
{
    if n == 0 {
        0
    } else {
        blobs_len(v, (n - 1) as nat) + v[n - 1].data.len()
    }
}

/// What all the channels hold together.
pub open spec fn held_len(ch: Payload) -> int {
    ch.plain.len() + ch.corrections.len() + ch.filters.len() + ch.lepton.len() + blobs_len(
        ch.blobs,
        ch.blobs.len(),
    )
}

/// A number, or the highest there is where it is higher.
pub open spec fn capped(n: int) -> u64 {
    if n < u64::MAX {
        n as u64
    } else {
        u64::MAX
    }
}

proof fn lemma_blobs_len(v: Seq<Blob>, n: nat)
    ensures
        blobs_len(v, n) >= 0,
    decreases n,
{
    if n > 0 {
        lemma_blobs_len(v, (n - 1) as nat);
    }
}

pub proof fn lemma_held(ch: Payload)
    ensures
        held_len(ch) >= 0,
{
    lemma_blobs_len(ch.blobs, ch.blobs.len());
}

pub fn held(ch: &Channels) -> (r: u64)
    ensures
        r == capped(held_len(ch@)),
{
    let mut sum: u64 = 0;
    let n: usize = ch.pixel_blobs.len();
    let mut i: usize = 0;
    while i < n
        invariant
            i <= n,
            n == ch.pixel_blobs@.len(),
            sum == capped(blobs_len(ch@.blobs, i as nat)),
        decreases n - i,
    {
        assert(ch@.blobs[i as int].data == ch.pixel_blobs@[i as int].data@);
        proof {
            lemma_blobs_len(ch@.blobs, i as nat);
        }
        let len: usize = ch.pixel_blobs[i].data.len();
        sum = sum.saturating_add(len as u64);
        i += 1;
    }
    proof {
        lemma_blobs_len(ch@.blobs, n as nat);
    }
    let a: usize = ch.plain.len();
    let b: usize = ch.corrections.len();
    let c: usize = ch.filters.len();
    let d: usize = ch.lepton.len();
    sum.saturating_add(a as u64).saturating_add(b as u64).saturating_add(
        c as u64,
    ).saturating_add(d as u64)
}

/// What is left for the compressors beside the channels, which are held twice:
/// at least a quarter of the budget.
pub open spec fn usable_of(budget: u64, held: int) -> int {
    let left: int = if budget > 2 * held {
        budget - 2 * held
    } else {
        0
    };
    if left < budget / 4 {
        budget as int / 4
    } else {
        left
    }
}

/// One job for every four gibibytes, but at least one and no more than there
/// are jobs.
pub open spec fn concurrent_of(usable: int, jobs: int) -> int {
    let n: int = if usable / 0x1_0000_0000 < 1 {
        1
    } else {
        usable / 0x1_0000_0000
    };
    if jobs < n {
        jobs
    } else {
        n
    }
}

pub open spec fn per_job_of(budget: u64, ch: Payload) -> int {
    let usable = usable_of(budget, held_len(ch));
    usable / concurrent_of(usable, ch.blobs.len() as int + 4)
}

/// How many jobs run at once, and the memory of each.
#[derive(Debug, Clone, Copy)]
pub struct Split {
    pub concurrent: usize,
    pub per_job: u64,
}

/// Shares the budget out among the channels.
pub fn split_budget(budget: u64, ch: &Channels) -> (r: Split)
    ensures
        r.concurrent == concurrent_of(
            usable_of(budget, held_len(ch@)),
            ch@.blobs.len() as int + 4,
        ),
        r.concurrent >= 1,
        r.per_job == per_job_of(budget, ch@),
{
    let h: u64 = held(ch);
    let ghost all = held_len(ch@);
    proof {
        lemma_held(ch@);
    }
    let left: u64 = budget.saturating_sub(h.saturating_add(h));
    let usable: u64 = if left < budget / 4 {
        budget / 4
    } else {
        left
    };
    assert(usable == usable_of(budget, all));
    let m: usize = ch.pixel_blobs.len();
    let jobs: u128 = m as u128 + 4;
    let n: u64 = if usable / 0x1_0000_0000 < 1 {
        1
    } else {
        usable / 0x1_0000_0000
    };
    let concurrent: usize = if jobs < n as u128 {
        jobs as usize
    } else {
        n as usize
    };
    assert(concurrent == concurrent_of(usable as int, m + 4));
    Split { concurrent, per_job: usable / concurrent as u64 }
}

} // verus!
