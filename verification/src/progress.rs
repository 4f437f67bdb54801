//! A progress bar with the time that is left.
//!
//! Work is counted in units of about the same wall time everywhere: bytes,
//! weighted by what a byte costs. The context mixer dominates and has the
//! reference weight.

use crate::backends::{racers, BROTLI, CM, LZMA, ZSTD};
use crate::util::text::{
    decimal, decimal_of, digit, left_of, push_left, push_right, repeat, repeated, right_of,
};
use vstd::prelude::*;
use vstd::string::StringExecFns;

verus! {

/// The context mixer, compressing or decompressing.
pub const W_CM: u64 = 1024;

/// One of three passes of LZMA.
pub const W_LZMA: u64 = 128;

pub const W_BROTLI: u64 = 96;

pub const W_ZSTD: u64 = 48;

/// Decompressing with any backend but the context mixer.
pub const W_FAST_D: u64 = 8;

/// Planning a file: scanning, the codecs of streams, and rendering it to check.
pub const W_PLAN: u64 = 64;

/// How far the work has come.
#[derive(Debug, Clone, Copy)]
pub struct Progress {
    pub done: u64,
    pub total: u64,
    pub active: bool,
    pub phase: &'static str,
}

impl Progress {
    pub fn new() -> (p: Progress)
        ensures
            p.done == 0,
            p.total == 0,
            !p.active,
            p.phase@ == ""@,
    {
        Progress { done: 0, total: 0, active: false, phase: "" }
    }
}

/// Units that were done. The count wraps around.
pub fn add(p: &mut Progress, units: u64)
    ensures
        *final(p) == (Progress {
            done: ((old(p).done + units) % 0x1_0000_0000_0000_0000) as u64,
            ..*old(p)
        }),
{
    p.done = p.done.wrapping_add(units);
}

/// Units that are still to do.
pub fn add_total(p: &mut Progress, units: u64)
    ensures
        *final(p) == (Progress {
            total: ((old(p).total + units) % 0x1_0000_0000_0000_0000) as u64,
            ..*old(p)
        }),
{
    p.total = p.total.wrapping_add(units);
}

pub fn set_phase(p: &mut Progress, phase: &'static str)
    ensures
        *final(p) == (Progress { phase, ..*old(p) }),
{
    p.phase = phase;
}

/// Starts the bar from nothing, and says whether it did: a bar that runs goes
/// on.
pub fn start(p: &mut Progress) -> (started: bool)
    ensures
        started == !old(p).active,
        *final(p) == if old(p).active {
            *old(p)
        } else {
            Progress { done: 0, total: 0, active: true, phase: old(p).phase }
        },
{
    if p.active {
        return false;
    }
    p.active = true;
    p.done = 0;
    p.total = 0;
    true
}

/// Stops the bar, and says whether it ran. To stop it again does nothing.
pub fn finish(p: &mut Progress) -> (stopped: bool)
    ensures
        stopped == old(p).active,
        *final(p) == (Progress { active: false, ..*old(p) }),
{
    let ran: bool = p.active;
    p.active = false;
    ran
}

/// What a byte costs to race.
pub open spec fn race_cost(use_cm: bool) -> int {
    W_ZSTD + W_BROTLI + 3 * W_LZMA + 3 * W_FAST_D + if use_cm {
        2 * W_CM
    } else {
        0
    }
}

/// The cost of racing all the backends over a stream: compressing, and
/// decompressing again to compare.
pub fn race_units(len: u64, use_cm: bool) -> (r: u64)
    requires
        len * race_cost(use_cm) <= u64::MAX,
    ensures
        r == len * race_cost(use_cm),
{
    let per_byte: u64 = if use_cm {
        2600
    } else {
        552
    };
    assert(per_byte == race_cost(use_cm));
    len * per_byte
}

pub open spec fn decompress_cost(is_cm: bool) -> int {
    if is_cm {
        W_CM as int
    } else {
        W_FAST_D as int
    }
}

/// The cost of decompressing a stream.
pub fn decompress_units(is_cm: bool, raw_len: u64) -> (r: u64)
    requires
        raw_len * decompress_cost(is_cm) <= u64::MAX,
    ensures
        r == raw_len * decompress_cost(is_cm),
{
    raw_len * if is_cm {
        W_CM
    } else {
        W_FAST_D
    }
}

/// What a byte costs to compress. LZMA makes three passes.
pub open spec fn compress_cost(id: u8) -> int {
    if id == ZSTD {
        W_ZSTD as int
    } else if id == BROTLI {
        W_BROTLI as int
    } else if id == LZMA {
        3 * W_LZMA
    } else if id == CM {
        W_CM as int
    } else {
        0
    }
}

/// What a byte costs the first `n` of these backends, to compress it and to
/// decompress it again.
pub open spec fn costs(ids: Seq<u8>, n: nat) -> int
    decreases n,
{
    if n == 0 {
        0
    } else {
        costs(ids, (n - 1) as nat) + compress_cost(ids[n - 1]) + decompress_cost(ids[n - 1] == CM)
    }
}

/// The cost of a race is that of its backends.
pub proof fn lemma_race_cost(use_cm: bool)
    ensures
        race_cost(use_cm) == costs(racers(use_cm), racers(use_cm).len()),
{
    reveal_with_fuel(costs, 5);
}

pub open spec fn two_digits(n: nat) -> Seq<char> {
    if n < 10 {
        "0"@ + decimal_of(n)
    } else {
        decimal_of(n)
    }
}

/// A duration in hours, minutes and seconds, or in minutes and seconds where
/// it is shorter than an hour.
pub open spec fn duration_of(s: nat) -> Seq<char> {
    if s >= 3600 {
        decimal_of(s / 3600) + ":"@ + two_digits(s % 3600 / 60) + ":"@ + two_digits(s % 60)
    } else {
        decimal_of(s / 60) + ":"@ + two_digits(s % 60)
    }
}

/// Hours, minutes and seconds are written with colons between them, the hours only
/// where there are any, and what stands behind a colon with two digits.
pub proof fn lemma_duration(h: nat, m: nat, s: nat)
    requires
        m < 60,
        s < 60,
    ensures
        h > 0 ==> duration_of(3600 * h + 60 * m + s) == decimal_of(h) + ":"@ + two_digits(m) + ":"@
            + two_digits(s),
        h == 0 ==> duration_of(60 * m + s) == decimal_of(m) + ":"@ + two_digits(s),
        two_digits(m).len() == 2,
        two_digits(m) == seq![digit(m / 10), digit(m % 10)],
{
    reveal_strlit("0");
    let n = 3600 * h + 60 * m + s;
    assert(n / 3600 == h && n % 3600 == 60 * m + s && n % 60 == s) by (nonlinear_arith)
        requires
            n == 3600 * h + 60 * m + s,
            m < 60,
            s < 60,
    ;
    reveal_with_fuel(decimal_of, 2);
    assert(two_digits(m) =~= seq![digit(m / 10), digit(m % 10)]);
}

fn push_two(out: &mut String, n: u64)
    ensures
        final(out)@ == old(out)@ + two_digits(n as nat),
{
    let ghost start = out@;
    if n < 10 {
        out.append("0");
    }
    out.append(decimal(n).as_str());
    assert(out@ =~= start + two_digits(n as nat));
}

/// A duration in seconds, as people read it.
pub fn fmt_dur(s: u64) -> (r: String)
    ensures
        r@ == duration_of(s as nat),
{
    if s >= 3600 {
        let mut r: String = decimal(s / 3600);
        r.append(":");
        push_two(&mut r, s % 3600 / 60);
        r.append(":");
        push_two(&mut r, s % 60);
        r
    } else {
        let mut r: String = decimal(s / 60);
        r.append(":");
        push_two(&mut r, s % 60);
        r
    }
}

/// How many characters the bar has.
pub const WIDTH: usize = 28;

/// The line of the bar: the phase, a bar with `filled` of its characters
/// filled, the per cent, the time that has gone and the time that is left.
pub open spec fn line_of(
    phase: Seq<char>,
    filled: nat,
    percent: Seq<char>,
    elapsed: nat,
    eta: Option<u64>,
) -> Seq<char> {
    left_of(phase, 12) + " ["@ + repeated('#', filled) + repeated('-', (WIDTH - filled) as nat)
        + "] "@ + right_of(percent, 5) + "%  elapsed "@ + duration_of(elapsed) + "  ETA "@
        + match eta {
        Some(s) => duration_of(s as nat),
        None => "--:--"@,
    }
}

pub fn render(phase: &str, filled: usize, percent: &str, elapsed: u64, eta: Option<u64>) -> (r:
    String)
    requires
        filled <= WIDTH,
    ensures
        r@ == line_of(phase@, filled as nat, percent@, elapsed as nat, eta),
{
    proof {
        reveal_strlit("#");
        reveal_strlit("-");
    }
    let mut r: String = String::new();
    push_left(&mut r, phase, 12);
    r.append(" [");
    repeat(&mut r, "#", filled);
    repeat(&mut r, "-", WIDTH - filled);
    r.append("] ");
    push_right(&mut r, percent, 5);
    r.append("%  elapsed ");
    r.append(fmt_dur(elapsed).as_str());
    r.append("  ETA ");
    match eta {
        Some(s) => r.append(fmt_dur(s).as_str()),
        None => r.append("--:--"),
    }
    assert(r@ =~= line_of(phase@, filled as nat, percent@, elapsed as nat, eta));
    r
}

/// What draws a line over the one before it.
pub open spec fn drawn(line: Seq<char>) -> Seq<char> {
    "\r"@ + left_of(line, 90)
}

pub fn draw(line: &str) -> (r: String)
    ensures
        r@ == drawn(line@),
{
    let mut r: String = String::from_str("\r");
    push_left(&mut r, line, 90);
    r
}

/// What takes the bar away, and goes back to the start of the line.
pub open spec fn erased() -> Seq<char> {
    drawn(""@) + "\r"@
}

pub fn erase() -> (r: String)
    ensures
        r@ == erased(),
{
    let mut r: String = draw("");
    r.append("\r");
    r
}

/// What prints a line above the bar, which is taken away first where it runs.
pub fn println_above(p: &Progress, msg: &str) -> (r: String)
    ensures
        r@ == (if p.active {
            erased()
        } else {
            Seq::empty()
        }) + msg@ + "\n"@,
{
    let mut r: String = if p.active {
        erase()
    } else {
        String::new()
    };
    r.append(msg);
    r.append("\n");
    r
}

} // verus!
