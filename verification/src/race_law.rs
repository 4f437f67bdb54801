//! What the race between the backends is for: the shortest output that any of
//! them makes, with settings that reach far.

use crate::backends::{
    coded_by, dict_of, may_win, plain_by, racers, round_trips, run_refused, MemBudget, BROTLI, CM,
    LZMA, STORE, ZSTD,
};
use crate::cm::codec::stream_of;
use crate::cm::config::{ceil_log2, lemma_ceil_log2};
use crate::error::Error;
use crate::outside::{
    brotli_of, brotli_plain_of, lzma_of, lzma_plain_of, zstd_plain_of, zstd_stream_of,
};
use crate::refusal::{lzma_refused, plain_refused, stream_refused};
use vstd::arithmetic::power2::{lemma2_to64, lemma_pow2_strictly_increases, lemma_pow2_unfold};
use vstd::prelude::*;

verus! {

/// Whether a backend takes part: zstd, brotli and LZMA always, the context mixer
/// where it is asked for.
pub open spec fn takes_part(k: u8, use_cm: bool) -> bool {
    k == ZSTD || k == BROTLI || k == LZMA || k == CM && use_cm
}

/// Whether a codec of the backend was asked about the data, or about what it had
/// made of it, and returned an error.
pub open spec fn gave_up(k: u8, data: Seq<u8>, made: Seq<u8>) -> bool {
    ||| k == ZSTD && (stream_refused(data, 22, true, 27) || plain_refused(made, 31))
    ||| k == LZMA && lzma_refused(made, u32::MAX)
}

/// What wins gives the data back, is no longer than it, and no longer than what
/// any backend makes that takes part and gives the data back, unless its codec
/// was asked and returned an error.
pub proof fn lemma_none_better(
    data: Seq<u8>,
    use_cm: bool,
    stride: u32,
    bpp: u32,
    mem: MemBudget,
    id: u8,
    comp: Seq<u8>,
    k: u8,
    made: Seq<u8>,
)
    requires
        data.len() <= u64::MAX,
        may_win(data, use_cm, stride, bpp, mem, id, comp),
        takes_part(k, use_cm),
        coded_by(k, data, stride, bpp, mem) == Ok::<Seq<u8>, Error>(made),
        plain_by(k, made, data.len() as u64) == Ok::<Seq<u8>, Error>(data),
        !gave_up(k, data, made),
    ensures
        comp.len() <= made.len(),
        comp.len() <= data.len(),
        plain_by(id, comp, data.len() as u64) == Ok::<Seq<u8>, Error>(data),
{
    assert(racers(use_cm).contains(k)) by {
        assert(racers(use_cm)[k - 1] == k);
    }
    assert(round_trips(k, data, stride, bpp, mem));
    assert(!run_refused(k, data, stride, bpp, mem));
}

/// The mixer takes part with all data below four gibibytes, whatever the other
/// codecs do: what wins is no longer than its stream.
pub proof fn lemma_mixer_counts(
    data: Seq<u8>,
    stride: u32,
    bpp: u32,
    mem: MemBudget,
    id: u8,
    comp: Seq<u8>,
)
    requires
        data.len() <= 0xffff_ffff - 17,
        stride == 0 || stride <= 0x10_0000 && bpp <= 16,
        may_win(data, true, stride, bpp, mem, id, comp),
    ensures
        comp.len() <= stream_of(data, stride, bpp, mem.cm_cap_of()).len(),
        coded_by(CM, data, stride, bpp, mem) == Ok::<Seq<u8>, Error>(
            stream_of(data, stride, bpp, mem.cm_cap_of()),
        ),
{
}

/// What the backends other than the mixer make: zstd at its highest level with
/// windows of 128 MiB, brotli at its highest quality with windows of 16 MiB.
pub proof fn lemma_settings(data: Seq<u8>, stride: u32, bpp: u32, mem: MemBudget, v: Seq<u8>)
    ensures
        coded_by(STORE, data, stride, bpp, mem) == Ok::<Seq<u8>, Error>(data),
        (coded_by(ZSTD, data, stride, bpp, mem) == Ok::<Seq<u8>, Error>(v)) == (zstd_stream_of(
            data,
            22,
            true,
            27,
        ) == Some(v)),
        (coded_by(BROTLI, data, stride, bpp, mem) == Ok::<Seq<u8>, Error>(v)) == (brotli_of(
            data,
            11,
            24,
        ) == Some(v)),
{
}

/// What they read: each its own format, with windows and memory as large as there
/// are, and nothing but what has the length that is expected.
pub proof fn lemma_readers(comp: Seq<u8>, raw_len: u64, v: Seq<u8>)
    ensures
        (plain_by(STORE, comp, raw_len) == Ok::<Seq<u8>, Error>(v)) == (comp == v && v.len()
            == raw_len),
        (plain_by(ZSTD, comp, raw_len) == Ok::<Seq<u8>, Error>(v)) == (zstd_plain_of(comp, 31)
            == Some(v) && v.len() == raw_len),
        (plain_by(BROTLI, comp, raw_len) == Ok::<Seq<u8>, Error>(v)) == (brotli_plain_of(comp)
            == Some(v) && v.len() == raw_len),
        (plain_by(LZMA, comp, raw_len) == Ok::<Seq<u8>, Error>(v)) == (lzma_plain_of(comp, u32::MAX)
            == Some(v) && v.len() == raw_len),
{
}

/// LZMA tries literal and position bits of three and two, of three and none, and
/// of none, and comes to the shortest of what they make.
pub proof fn lemma_lzma_shortest(
    data: Seq<u8>,
    stride: u32,
    bpp: u32,
    mem: MemBudget,
    a: Seq<u8>,
    b: Seq<u8>,
    c: Seq<u8>,
)
    requires
        data.len() < 0x8000_0000,
        ({
            let dict = dict_of(data.len(), mem.dict_cap_of());
            &&& lzma_of(data, 9, dict, 273, 3, 0, 2) == Some(a)
            &&& lzma_of(data, 9, dict, 273, 3, 0, 0) == Some(b)
            &&& lzma_of(data, 9, dict, 273, 0, 0, 0) == Some(c)
        }),
    ensures
        coded_by(LZMA, data, stride, bpp, mem) matches Ok(v) && {
            &&& v == a || v == b || v == c
            &&& v.len() <= a.len()
            &&& v.len() <= b.len()
            &&& v.len() <= c.len()
        },
{
}

/// The dictionary holds all the data where the limit lets it, up to a gibibyte,
/// and less than twice the data.
pub proof fn lemma_dictionary_reaches(len: nat, cap: u64)
    requires
        cap >= 0x10_0000,
    ensures
        dict_of(len, cap) <= cap,
        dict_of(len, cap) <= 0x4000_0000,
        dict_of(len, cap) >= len || dict_of(len, cap) == cap || dict_of(len, cap) == 0x4000_0000,
        dict_of(len, cap) < 2 * len || dict_of(len, cap) <= 0x1_0000,
{
    let n: nat = if len < 0x1_0000 {
        0x1_0000
    } else {
        len
    };
    lemma2_to64();
    lemma_ceil_log2(n);
    let lg = ceil_log2(n);
    if lg < 30 {
        lemma_pow2_strictly_increases(lg, 30);
        if lg > 0 {
            lemma_pow2_unfold(lg);
        }
        if len < 0x1_0000 && lg > 16 {
            if lg > 17 {
                lemma_pow2_strictly_increases(16, (lg - 1) as nat);
            }
        }
    } else if lg > 30 {
        lemma_pow2_strictly_increases(29, (lg - 1) as nat);
        lemma_pow2_unfold(lg);
    } else {
        lemma_pow2_unfold(30);
    }
}

/// Half of a job's memory is for the mixer, and a twenty-fourth is the most that
/// LZMA's dictionary takes, but for a mebibyte; without a limit neither has one
/// below what they use.
pub proof fn lemma_memory_shared(mem: MemBudget)
    ensures
        mem.bytes < u64::MAX ==> {
            &&& 2 * mem.cm_cap_of() <= mem.bytes <= 2 * mem.cm_cap_of() + 1
            &&& 24 * mem.dict_cap_of() <= mem.bytes || mem.dict_cap_of() == 0x10_0000
            &&& mem.bytes < 24 * mem.dict_cap_of() + 24
        },
        mem.bytes == u64::MAX ==> mem.cm_cap_of() == u64::MAX && mem.dict_cap_of() == 0x4000_0000,
{
}

} // verus!
