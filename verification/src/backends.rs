//! Backends: every channel is compressed by each of them, and the smallest
//! output that decompresses to the channel is kept.

use crate::cm;
use crate::cm::codec::{
    compressed, lemma_stream_roundtrip, max_stream, plain_of, stream_of,
};
use crate::cm::config::{ceil_log2, log2_up};
use crate::error::{same_bytes, Error};
use crate::outside::{
    brotli, brotli_of, brotli_plain, brotli_plain_of, lzma, lzma_of, lzma_plain_of, zstd_plain_of,
    zstd_stream_of, LzmaSettings,
};
use crate::progress::{W_BROTLI, W_CM, W_FAST_D, W_LZMA, W_ZSTD};
use crate::refusal::{
    ask_lzma, ask_plain, ask_stream, lzma_refused, plain_refused, stream_refused,
};
use crate::util::bytes::same;
use vstd::arithmetic::power2::{lemma2_to64, lemma_pow2_strictly_increases, pow2};
use vstd::bits::lemma_u64_shl_is_mul;
use vstd::prelude::*;
use vstd::string::StringExecFns;

verus! {

pub const STORE: u8 = 0;

pub const ZSTD: u8 = 1;

pub const BROTLI: u8 = 2;

pub const LZMA: u8 = 3;

pub const CM: u8 = 4;

pub open spec fn name_of(id: u8) -> Seq<char> {
    if id == STORE {
        "store"@
    } else if id == ZSTD {
        "zstd"@
    } else if id == BROTLI {
        "brotli"@
    } else if id == LZMA {
        "lzma"@
    } else if id == CM {
        "dzcm"@
    } else {
        "?"@
    }
}

pub fn name(id: u8) -> (r: &'static str)
    ensures
        r@ == name_of(id),
{
    match id {
        STORE => "store",
        ZSTD => "zstd",
        BROTLI => "brotli",
        LZMA => "lzma",
        CM => "dzcm",
        _ => "?",
    }
}

/// The backend that a name asks for. The context mixer is "cm".
pub open spec fn asked_for(s: Seq<char>) -> Option<u8> {
    if s == "store"@ {
        Some(STORE)
    } else if s == "zstd"@ {
        Some(ZSTD)
    } else if s == "brotli"@ {
        Some(BROTLI)
    } else if s == "lzma"@ {
        Some(LZMA)
    } else if s == "cm"@ {
        Some(CM)
    } else {
        None
    }
}

pub fn by_name(s: &String) -> (r: Option<u8>)
    ensures
        r == asked_for(s@),
{
    if *s == String::from_str("store") {
        Some(STORE)
    } else if *s == String::from_str("zstd") {
        Some(ZSTD)
    } else if *s == String::from_str("brotli") {
        Some(BROTLI)
    } else if *s == String::from_str("lzma") {
        Some(LZMA)
    } else if *s == String::from_str("cm") {
        Some(CM)
    } else {
        None
    }
}

/// The memory that one job may use. Half of it is for the context-mixing model;
/// an LZMA encoder uses about twelve times its dictionary.
#[derive(Debug, Clone, Copy)]
pub struct MemBudget {
    pub bytes: u64,
}

impl MemBudget {
    /// No limit: every model and dictionary at its full size.
    pub fn unlimited() -> (r: MemBudget)
        ensures
            r == (MemBudget { bytes: u64::MAX }),
    {
        MemBudget { bytes: u64::MAX }
    }

    pub open spec fn cm_cap_of(self) -> u64 {
        if self.bytes == u64::MAX {
            u64::MAX
        } else {
            self.bytes / 2
        }
    }

    pub fn cm_cap(&self) -> (r: u64)
        ensures
            r == self.cm_cap_of(),
    {
        if self.bytes == u64::MAX {
            u64::MAX
        } else {
            self.bytes / 2
        }
    }

    pub open spec fn dict_cap_of(self) -> u64 {
        if self.bytes == u64::MAX {
            0x4000_0000
        } else if self.bytes / 24 < 0x10_0000 {
            0x10_0000
        } else {
            self.bytes / 24
        }
    }

    pub fn lzma_dict_cap(&self) -> (r: u64)
        ensures
            r == self.dict_cap_of(),
    {
        if self.bytes == u64::MAX {
            0x4000_0000
        } else if self.bytes / 24 < 0x10_0000 {
            0x10_0000
        } else {
            self.bytes / 24
        }
    }
}

/// The dictionary for `len` bytes: a power of two that holds them, from 64 KiB
/// to a gibibyte, and no more than `cap`.
pub open spec fn dict_of(len: nat, cap: u64) -> u32 {
    let n = if len < 0x1_0000 {
        0x1_0000
    } else {
        len
    };
    let d: int = if ceil_log2(n) >= 30 {
        0x4000_0000
    } else {
        pow2(ceil_log2(n)) as int
    };
    (if d < cap {
        d
    } else {
        cap as int
    }) as u32
}

fn dict_size(len: usize, cap: u64) -> (d: u32)
    requires
        cap >= 0x1_0000,
    ensures
        d == dict_of(len as nat, cap),
        0x1_0000 <= d <= 0x4000_0000,
{
    let n: usize = if len < 0x1_0000 {
        0x1_0000
    } else {
        len
    };
    let lg: u32 = log2_up(n);
    proof {
        lemma2_to64();
        crate::cm::config::lemma_ceil_log2(n as nat);
        if lg < 30 {
            lemma_pow2_strictly_increases(lg as nat, 30);
            lemma_u64_shl_is_mul(1, lg as u64);
        }
    }
    let d: u64 = if lg >= 30 {
        0x4000_0000
    } else {
        1u64 << (lg as u64)
    };
    if d < cap {
        d as u32
    } else {
        cap as u32
    }
}

/// What one set of LZMA parameters makes of the data.
pub open spec fn lzma_try(data: Seq<u8>, dict: u32, lc: u32, pb: u32) -> Option<Seq<u8>> {
    lzma_of(data, 9, dict, 273, lc, 0, pb)
}

/// The shorter of two; the first where they are as long.
pub open spec fn shorter_of(a: Seq<u8>, b: Seq<u8>) -> Seq<u8> {
    if b.len() < a.len() {
        b
    } else {
        a
    }
}

pub fn shorter(a: Vec<u8>, b: Vec<u8>) -> (r: Vec<u8>)
    ensures
        r@ == shorter_of(a@, b@),
{
    if b.len() < a.len() {
        b
    } else {
        a
    }
}

/// The most that LZMA is given: a length in 31 bits.
pub const LZMA_MAX: usize = 0x7fff_ffff;

/// The shortest that three sets of parameters make; all of them have to do.
/// Longer data is left to the others.
pub open spec fn lzma_best(data: Seq<u8>, dict: u32) -> Option<Seq<u8>> {
    if data.len() > LZMA_MAX {
        None
    } else {
        match (lzma_try(data, dict, 3, 2), lzma_try(data, dict, 3, 0), lzma_try(data, dict, 0, 0)) {
            (Some(a), Some(b), Some(c)) => Some(shorter_of(shorter_of(a, b), c)),
            _ => None,
        }
    }
}

fn lzma_pass(data: &[u8], dict: u32, lc: u32, pb: u32) -> (r: Option<Vec<u8>>)
    requires
        data@.len() <= LZMA_MAX,
        0x1_0000 <= dict <= 0x4000_0000,
        lc <= 8,
        pb <= 4,
    ensures
        match r {
            Some(v) => lzma_try(data@, dict, lc, pb) == Some(v@),
            None => lzma_try(data@, dict, lc, pb) is None,
        },
{
    let s = LzmaSettings { preset: 9, dict_size: dict, nice_len: 273, lc, lp: 0, pb };
    match lzma(data, &s) {
        Ok(v) => Some(v),
        Err(_) => None,
    }
}

/// Compresses with three sets of parameters and keeps the shortest: streams say
/// their parameters. Position bits of none often win on text, literal bits of
/// none on some records.
fn lzma_compress<F: Fn(u64, u64)>(data: &[u8], dict_cap: u64, tick: &F) -> (r: Option<Vec<u8>>)
    requires
        forall|n: u64, w: u64| call_requires(tick, (n, w)),
        dict_cap >= 0x1_0000,
    ensures
        match r {
            Some(v) => lzma_best(data@, dict_of(data@.len(), dict_cap)) == Some(v@),
            None => lzma_best(data@, dict_of(data@.len(), dict_cap)) is None,
        },
{
    if data.len() > LZMA_MAX {
        return None;
    }
    let dict: u32 = dict_size(data.len(), dict_cap);
    let a: Vec<u8> = match lzma_pass(data, dict, 3, 2) {
        Some(v) => v,
        None => return None,
    };
    tick(data.len() as u64, W_LZMA);
    let b: Vec<u8> = match lzma_pass(data, dict, 3, 0) {
        Some(v) => v,
        None => return None,
    };
    tick(data.len() as u64, W_LZMA);
    let ab: Vec<u8> = shorter(a, b);
    match lzma_pass(data, dict, 0, 0) {
        Some(c) => {
            tick(data.len() as u64, W_LZMA);
            Some(shorter(ab, c))
        },
        None => None,
    }
}

/// The outcome of a codec, under the error of its backend.
pub open spec fn or_failed(x: Option<Seq<u8>>, id: u8) -> Result<Seq<u8>, Error> {
    match x {
        Some(v) => Ok(v),
        None => Err(Error::BackendFailed(id)),
    }
}

/// What a backend makes of the data.
pub open spec fn coded_by(id: u8, data: Seq<u8>, stride: u32, bpp: u32, mem: MemBudget) -> Result<
    Seq<u8>,
    Error,
> {
    if id == STORE {
        Ok(data)
    } else if id == ZSTD {
        or_failed(zstd_stream_of(data, 22, true, 27), id)
    } else if id == BROTLI {
        or_failed(brotli_of(data, 11, 24), id)
    } else if id == LZMA {
        or_failed(lzma_best(data, dict_of(data.len(), mem.dict_cap_of())), id)
    } else if id == CM {
        compressed(data, stride, bpp, mem.cm_cap_of())
    } else {
        Err(Error::UnknownBackend(id))
    }
}

/// What a backend reads.
pub open spec fn read_by(id: u8, comp: Seq<u8>, raw_len: u64) -> Result<Seq<u8>, Error> {
    if id == STORE {
        Ok(comp)
    } else if id == ZSTD {
        or_failed(zstd_plain_of(comp, 31), id)
    } else if id == BROTLI {
        or_failed(brotli_plain_of(comp), id)
    } else if id == LZMA {
        or_failed(lzma_plain_of(comp, u32::MAX), id)
    } else if id == CM {
        plain_of(comp, raw_len)
    } else {
        Err(Error::UnknownBackend(id))
    }
}

/// What a backend reads, if it has the length that is expected.
pub open spec fn checked_len(id: u8, s: Seq<u8>, raw_len: u64) -> Result<Seq<u8>, Error> {
    if s.len() != raw_len {
        Err(Error::BackendLength { id, got: s.len() as u64, want: raw_len })
    } else {
        Ok(s)
    }
}

pub open spec fn plain_by(id: u8, comp: Seq<u8>, raw_len: u64) -> Result<Seq<u8>, Error> {
    match read_by(id, comp, raw_len) {
        Err(e) => Err(e),
        Ok(s) => checked_len(id, s, raw_len),
    }
}

/// What a call of a codec comes to: all it should, or an error that the input
/// has, or that the codec failed, where it was asked and `refused`.
pub open spec fn comes_to(
    id: u8,
    r: Result<Vec<u8>, Error>,
    want: Result<Seq<u8>, Error>,
    refused: bool,
) -> bool {
    match r {
        Ok(v) => want == Ok::<Seq<u8>, Error>(v@),
        Err(e) => refused && e == Error::BackendFailed(id) || want == Err::<Seq<u8>, Error>(e),
    }
}

/// Whether the codec of a backend was asked to compress the data and returned an
/// error, though it may have lacked memory alone.
pub open spec fn pack_refused(id: u8, data: Seq<u8>) -> bool {
    id == ZSTD && stream_refused(data, 22, true, 27)
}

/// The same of decompressing.
pub open spec fn read_refused(id: u8, comp: Seq<u8>) -> bool {
    ||| id == ZSTD && plain_refused(comp, 31)
    ||| id == LZMA && lzma_refused(comp, u32::MAX)
}

/// Whether a codec of the backend was asked, to compress the data or to
/// decompress what it had made of it, and returned an error.
pub open spec fn run_refused(id: u8, data: Seq<u8>, stride: u32, bpp: u32, mem: MemBudget) -> bool {
    ||| pack_refused(id, data)
    ||| coded_by(id, data, stride, bpp, mem) matches Ok(v) && read_refused(id, v)
}

/// Compresses with one backend.
pub fn compress_one_hint(id: u8, data: &[u8], stride: u32, bpp: u32, mem: MemBudget) -> (r: Result<
    Vec<u8>,
    Error,
>)
    ensures
        comes_to(id, r, coded_by(id, data@, stride, bpp, mem), pack_refused(id, data@)),
        id == ZSTD && r is Err ==> pack_refused(id, data@),
        id != ZSTD ==> same_bytes(r, coded_by(id, data@, stride, bpp, mem)),
{
    compress_one_ticking(id, data, stride, bpp, mem, &|_bytes: u64, _weight: u64| {})
}

/// The same, and calls `tick` as it goes, with the bytes that were compressed
/// since and what each of them costs.
pub fn compress_one_ticking<F: Fn(u64, u64)>(
    id: u8,
    data: &[u8],
    stride: u32,
    bpp: u32,
    mem: MemBudget,
    tick: &F,
) -> (r: Result<Vec<u8>, Error>)
    requires
        forall|n: u64, w: u64| call_requires(tick, (n, w)),
    ensures
        comes_to(id, r, coded_by(id, data@, stride, bpp, mem), pack_refused(id, data@)),
        id == ZSTD && r is Err ==> pack_refused(id, data@),
        id != ZSTD ==> same_bytes(r, coded_by(id, data@, stride, bpp, mem)),
{
    match id {
        STORE => Ok(vstd::slice::slice_to_vec(data)),
        ZSTD => match ask_stream(data, 22, true, 27) {
            Ok(v) => {
                tick(data.len() as u64, W_ZSTD);
                Ok(v)
            },
            Err(_) => Err(Error::BackendFailed(id)),
        },
        BROTLI => match brotli(data, 11, 24) {
            Ok(v) => {
                tick(data.len() as u64, W_BROTLI);
                Ok(v)
            },
            Err(_) => Err(Error::BackendFailed(id)),
        },
        LZMA => match lzma_compress(data, mem.lzma_dict_cap(), tick) {
            Some(v) => Ok(v),
            None => Err(Error::BackendFailed(id)),
        },
        CM => {
            let each = |n: u64| tick(n, W_CM);
            cm::compress_ticking(data, stride, bpp, mem.cm_cap(), &each)
        },
        _ => Err(Error::UnknownBackend(id)),
    }
}

/// Compresses with one backend and no limit on memory.
pub fn compress_one_public_hint(id: u8, data: &[u8], stride: u32, bpp: u32) -> (r: Result<
    Vec<u8>,
    Error,
>)
    ensures
        comes_to(
            id,
            r,
            coded_by(id, data@, stride, bpp, MemBudget { bytes: u64::MAX }),
            pack_refused(id, data@),
        ),
        id != ZSTD ==> same_bytes(
            r,
            coded_by(id, data@, stride, bpp, MemBudget { bytes: u64::MAX }),
        ),
{
    compress_one_hint(id, data, stride, bpp, MemBudget::unlimited())
}

/// What was read, if it has the length that is expected.
pub fn check_len(id: u8, out: Vec<u8>, raw_len: usize) -> (r: Result<Vec<u8>, Error>)
    ensures
        same_bytes(r, checked_len(id, out@, raw_len as u64)),
{
    if out.len() != raw_len {
        return Err(
            Error::BackendLength { id, got: out.len() as u64, want: raw_len as u64 },
        );
    }
    Ok(out)
}

/// Decompresses with one backend, to `raw_len` bytes.
pub fn decompress(id: u8, comp: &[u8], raw_len: usize) -> (r: Result<Vec<u8>, Error>)
    ensures
        comes_to(id, r, plain_by(id, comp@, raw_len as u64), read_refused(id, comp@)),
        r matches Err(e) ==> (e is BackendFailed && (id == ZSTD || id == LZMA) ==> read_refused(
            id,
            comp@,
        )),
        id != ZSTD && id != LZMA ==> same_bytes(r, plain_by(id, comp@, raw_len as u64)),
{
    decompress_ticking(id, comp, raw_len, &|_bytes: u64, _weight: u64| {})
}

/// The same, and calls `tick` as it goes, with the bytes that were decompressed
/// since and what each of them costs.
pub fn decompress_ticking<F: Fn(u64, u64)>(id: u8, comp: &[u8], raw_len: usize, tick: &F) -> (r:
    Result<Vec<u8>, Error>)
    requires
        forall|n: u64, w: u64| call_requires(tick, (n, w)),
    ensures
        comes_to(id, r, plain_by(id, comp@, raw_len as u64), read_refused(id, comp@)),
        r matches Err(e) ==> (e is BackendFailed && (id == ZSTD || id == LZMA) ==> read_refused(
            id,
            comp@,
        )),
        id != ZSTD && id != LZMA ==> same_bytes(r, plain_by(id, comp@, raw_len as u64)),
{
    let out: Vec<u8> = match id {
        STORE => vstd::slice::slice_to_vec(comp),
        ZSTD => match ask_plain(comp, 31) {
            Ok(v) => v,
            Err(_) => return Err(Error::BackendFailed(id)),
        },
        BROTLI => match brotli_plain(comp) {
            Ok(v) => v,
            Err(_) => return Err(Error::BackendFailed(id)),
        },
        LZMA => match ask_lzma(comp, u32::MAX) {
            Ok(v) => v,
            Err(_) => return Err(Error::BackendFailed(id)),
        },
        CM => {
            let each = |n: u64| tick(n, W_CM);
            match cm::decompress_ticking(comp, raw_len, &each) {
                Ok(v) => v,
                Err(e) => return Err(e),
            }
        },
        _ => return Err(Error::UnknownBackend(id)),
    };
    if id != CM {
        tick(raw_len as u64, W_FAST_D);
    }
    check_len(id, out, raw_len)
}

/// Whether a stream with these hints can be read again.
pub open spec fn cm_takes(data: Seq<u8>, stride: u32, bpp: u32) -> bool {
    data.len() <= max_stream() && (stride > 0 ==> stride <= 0x10_0000 && bpp <= 16)
}

/// Whether a backend gives the data back.
pub open spec fn round_trips(id: u8, data: Seq<u8>, stride: u32, bpp: u32, mem: MemBudget) -> bool {
    coded_by(id, data, stride, bpp, mem) matches Ok(v) && plain_by(id, v, data.len() as u64)
        == Ok::<Seq<u8>, Error>(data)
}

/// Compresses with one backend; none where that fails, or decompressing does
/// not give the data.
pub fn try_backend(id: u8, data: &[u8], stride: u32, bpp: u32, mem: MemBudget) -> (r: Option<
    Vec<u8>,
>)
    ensures
        r matches Some(v) ==> coded_by(id, data@, stride, bpp, mem) == Ok::<Seq<u8>, Error>(v@)
            && plain_by(id, v@, data@.len() as u64) == Ok::<Seq<u8>, Error>(data@),
        id != ZSTD && id != LZMA ==> (r is Some) == round_trips(id, data@, stride, bpp, mem),
        r is None ==> !round_trips(id, data@, stride, bpp, mem) || run_refused(
            id,
            data@,
            stride,
            bpp,
            mem,
        ),
        id == CM && cm_takes(data@, stride, bpp) ==> r is Some,
{
    run_backend(id, data, stride, bpp, mem).0
}

/// The same, and whether the codec failed, which those of zstd and LZMA may do
/// for want of memory. Where it did not, the backend has done all it can.
pub fn run_backend(id: u8, data: &[u8], stride: u32, bpp: u32, mem: MemBudget) -> (r: (
    Option<Vec<u8>>,
    bool,
))
    ensures
        r.0 matches Some(v) ==> coded_by(id, data@, stride, bpp, mem) == Ok::<Seq<u8>, Error>(v@)
            && plain_by(id, v@, data@.len() as u64) == Ok::<Seq<u8>, Error>(data@),
        !r.1 ==> (r.0 is Some) == round_trips(id, data@, stride, bpp, mem),
        r.1 ==> id == ZSTD || id == LZMA,
        r.1 ==> r.0 is None && run_refused(id, data@, stride, bpp, mem),
        id == CM && cm_takes(data@, stride, bpp) ==> r.0 is Some,
{
    run_ticking(id, data, stride, bpp, mem, &|_bytes: u64, _weight: u64| {})
}

/// The same, and calls `tick` as it goes, with the bytes that were done since and
/// what each of them costs.
pub fn run_ticking<F: Fn(u64, u64)>(
    id: u8,
    data: &[u8],
    stride: u32,
    bpp: u32,
    mem: MemBudget,
    tick: &F,
) -> (r: (Option<Vec<u8>>, bool))
    requires
        forall|n: u64, w: u64| call_requires(tick, (n, w)),
    ensures
        r.0 matches Some(v) ==> coded_by(id, data@, stride, bpp, mem) == Ok::<Seq<u8>, Error>(v@)
            && plain_by(id, v@, data@.len() as u64) == Ok::<Seq<u8>, Error>(data@),
        !r.1 ==> (r.0 is Some) == round_trips(id, data@, stride, bpp, mem),
        r.1 ==> id == ZSTD || id == LZMA,
        r.1 ==> r.0 is None && run_refused(id, data@, stride, bpp, mem),
        id == CM && cm_takes(data@, stride, bpp) ==> r.0 is Some,
{
    let comp: Vec<u8> = match compress_one_ticking(id, data, stride, bpp, mem, tick) {
        Ok(v) => v,
        Err(_) => return (None, id == ZSTD),
    };
    proof {
        if id == CM && cm_takes(data@, stride, bpp) {
            lemma_stream_roundtrip(data@, stride, bpp, mem.cm_cap_of());
        }
    }
    match decompress_ticking(id, comp.as_slice(), data.len(), tick) {
        Ok(back) => if same(back.as_slice(), data) {
            (Some(comp), false)
        } else {
            (None, false)
        },
        Err(e) => (None, (id == ZSTD || id == LZMA) && matches!(e, Error::BackendFailed(_))),
    }
}

/// A backend that was tried, and what it came to.
pub struct Attempt {
    pub id: u8,
    pub comp: Option<Vec<u8>>,
}

/// The number of the first of the shortest outputs among the first `n`
/// attempts.
pub open spec fn best_attempt(v: Seq<Attempt>, n: nat) -> Option<int>
    decreases n,
{
    if n == 0 {
        None
    } else {
        let b = best_attempt(v, (n - 1) as nat);
        match v[n - 1].comp {
            None => b,
            Some(c) => match b {
                Some(i) if v[i].comp->Some_0@.len() <= c@.len() => b,
                _ => Some(n - 1),
            },
        }
    }
}

/// The shortest output, or the data itself where none is shorter.
pub open spec fn best_of(data: Seq<u8>, v: Seq<Attempt>) -> (u8, Seq<u8>) {
    match best_attempt(v, v.len()) {
        Some(i) if v[i].comp->Some_0@.len() < data.len() => (v[i].id, v[i].comp->Some_0@),
        _ => (STORE, data),
    }
}

proof fn lemma_best(v: Seq<Attempt>, n: nat)
    requires
        n <= v.len(),
    ensures
        match best_attempt(v, n) {
            Some(i) => {
                &&& 0 <= i < n
                &&& v[i].comp is Some
                &&& forall|j: int|
                    0 <= j < n && (#[trigger] v[j]).comp is Some ==> v[i].comp->Some_0@.len()
                        <= v[j].comp->Some_0@.len()
            },
            None => forall|j: int| 0 <= j < n ==> (#[trigger] v[j]).comp is None,
        },
    decreases n,
{
    if n > 0 {
        lemma_best(v, (n - 1) as nat);
    }
}

/// Picks the shortest of the outputs, the first of them where several are as
/// short; the data itself where none is shorter than it.
pub fn pick_best(data: &[u8], tried: Vec<Attempt>) -> (r: (u8, Vec<u8>))
    ensures
        (r.0, r.1@) == best_of(data@, tried@),
{
    let mut tried = tried;
    let ghost v = tried@;
    let n: usize = tried.len();
    let mut best: Option<usize> = None;
    let mut i: usize = 0;
    while i < n
        invariant
            i <= n,
            n == v.len(),
            tried@ == v,
            match best_attempt(v, i as nat) {
                Some(b) => best == Some(b as usize) && 0 <= b < i && v[b].comp is Some,
                None => best is None,
            },
        decreases n - i,
    {
        match &tried[i].comp {
            Some(c) => {
                let keep: bool = match best {
                    Some(b) => match &tried[b].comp {
                        Some(d) => d.len() <= c.len(),
                        None => false,
                    },
                    None => false,
                };
                if !keep {
                    best = Some(i);
                }
            },
            None => {},
        }
        i += 1;
    }
    match best {
        Some(b) => {
            let Attempt { id, comp } = tried.swap_remove(b);
            match comp {
                Some(c) => if c.len() < data.len() {
                    return (id, c);
                },
                None => {},
            }
        },
        None => {},
    }
    (STORE, vstd::slice::slice_to_vec(data))
}

/// The backends that race.
pub open spec fn racers(use_cm: bool) -> Seq<u8> {
    if use_cm {
        seq![ZSTD, BROTLI, LZMA, CM]
    } else {
        seq![ZSTD, BROTLI, LZMA]
    }
}

/// Lists the backends that race.
pub fn racer_ids(use_cm: bool) -> (r: Vec<u8>)
    ensures
        r@ == racers(use_cm),
{
    let mut v: Vec<u8> = Vec::new();
    v.push(ZSTD);
    v.push(BROTLI);
    v.push(LZMA);
    if use_cm {
        v.push(CM);
    }
    v
}

/// Whether `id` and `comp` are an output that may win: a backend's own that is
/// shorter than the data and decompresses to it, or the data itself. No backend
/// does better that gives the data back, unless its codec was asked and returned
/// an error.
pub open spec fn may_win(
    data: Seq<u8>,
    use_cm: bool,
    stride: u32,
    bpp: u32,
    mem: MemBudget,
    id: u8,
    comp: Seq<u8>,
) -> bool {
    &&& plain_by(id, comp, data.len() as u64) == Ok::<Seq<u8>, Error>(data)
    &&& id == STORE ==> comp == data
    &&& id != STORE ==> {
        &&& racers(use_cm).contains(id)
        &&& comp.len() < data.len()
        &&& coded_by(id, data, stride, bpp, mem) == Ok::<Seq<u8>, Error>(comp)
    }
    &&& forall|k: u8| #[trigger]
        racers(use_cm).contains(k) && round_trips(k, data, stride, bpp, mem) && !run_refused(
            k,
            data,
            stride,
            bpp,
            mem,
        ) ==> comp.len() <= coded_by(k, data, stride, bpp, mem)->Ok_0.len()
    &&& round_trips(BROTLI, data, stride, bpp, mem) ==> comp.len() <= coded_by(
        BROTLI,
        data,
        stride,
        bpp,
        mem,
    )->Ok_0.len()
    &&& use_cm && round_trips(CM, data, stride, bpp, mem) ==> comp.len() <= coded_by(
        CM,
        data,
        stride,
        bpp,
        mem,
    )->Ok_0.len()
    &&& use_cm && cm_takes(data, stride, bpp) ==> comp.len() <= stream_of(
        data,
        stride,
        bpp,
        mem.cm_cap_of(),
    ).len()
}

/// Whether the codec of one of the racers was asked and returned an error.
pub open spec fn any_refused(data: Seq<u8>, use_cm: bool, stride: u32, bpp: u32, mem: MemBudget) -> bool {
    exists|k: u8| #[trigger]
        racers(use_cm).contains(k) && run_refused(k, data, stride, bpp, mem)
}

/// Whether no racer that gives the data back is shorter than what won, and the
/// data itself won just where none is shorter than it.
pub open spec fn is_best(
    data: Seq<u8>,
    use_cm: bool,
    stride: u32,
    bpp: u32,
    mem: MemBudget,
    id: u8,
    comp: Seq<u8>,
) -> bool {
    &&& forall|k: u8| #[trigger]
        racers(use_cm).contains(k) && round_trips(k, data, stride, bpp, mem) ==> comp.len()
            <= coded_by(k, data, stride, bpp, mem)->Ok_0.len()
    &&& (id == STORE) == forall|k: u8| #[trigger]
        racers(use_cm).contains(k) && round_trips(k, data, stride, bpp, mem) ==> data.len()
            <= coded_by(k, data, stride, bpp, mem)->Ok_0.len()
}

/// Races all the backends, without hints or limits.
pub fn compress_best(data: &[u8], use_cm: bool) -> (r: (u8, Vec<u8>))
    ensures
        may_win(data@, use_cm, 0, 0, MemBudget { bytes: u64::MAX }, r.0, r.1@),
{
    compress_best_hint(data, use_cm, 0, 0, MemBudget::unlimited())
}

/// Races the backends: the smallest output wins that decompresses to the data,
/// and the data itself is the most that comes out.
pub fn compress_best_hint(data: &[u8], use_cm: bool, stride: u32, bpp: u32, mem: MemBudget) -> (r: (
    u8,
    Vec<u8>,
))
    ensures
        may_win(data@, use_cm, stride, bpp, mem, r.0, r.1@),
{
    race(data, use_cm, stride, bpp, mem).0
}

/// Whether these are the outcomes of the racers, and none of their codecs
/// `failed` if that is not said.
pub open spec fn are_runs(
    v: Seq<Attempt>,
    n: int,
    data: Seq<u8>,
    stride: u32,
    bpp: u32,
    mem: MemBudget,
    failed: bool,
) -> bool {
    &&& v.len() == n
    &&& forall|k: int| 0 <= k < n ==> is_run(#[trigger] v[k], k, data, stride, bpp, mem, failed)
}

/// The outcome of one.
pub open spec fn is_run(
    a: Attempt,
    k: int,
    data: Seq<u8>,
    stride: u32,
    bpp: u32,
    mem: MemBudget,
    failed: bool,
) -> bool {
    &&& a.id == k + 1
    &&& a.comp matches Some(v) ==> coded_by(a.id, data, stride, bpp, mem) == Ok::<Seq<u8>, Error>(v@)
        && plain_by(a.id, v@, data.len() as u64) == Ok::<Seq<u8>, Error>(data)
    &&& !failed || a.id == BROTLI || a.id == CM ==> (a.comp is Some) == round_trips(
        a.id,
        data,
        stride,
        bpp,
        mem,
    )
    &&& a.comp is None ==> !round_trips(a.id, data, stride, bpp, mem) || run_refused(
        a.id,
        data,
        stride,
        bpp,
        mem,
    )
    &&& a.id == CM && cm_takes(data, stride, bpp) ==> a.comp is Some
}

proof fn lemma_race_shortest(
    v: Seq<Attempt>,
    data: Seq<u8>,
    use_cm: bool,
    stride: u32,
    bpp: u32,
    mem: MemBudget,
    failed: bool,
    k: u8,
)
    requires
        are_runs(v, racers(use_cm).len() as int, data, stride, bpp, mem, failed),
        racers(use_cm).contains(k),
        round_trips(k, data, stride, bpp, mem),
        !run_refused(k, data, stride, bpp, mem) || k == BROTLI || k == CM,
    ensures
        best_of(data, v).1.len() <= coded_by(k, data, stride, bpp, mem)->Ok_0.len(),
{
    lemma_best(v, v.len());
    let i = choose|i: int| 0 <= i < racers(use_cm).len() && racers(use_cm)[i] == k;
    assert(k == i + 1);
    assert(is_run(v[i], i, data, stride, bpp, mem, failed));
    assert(v[i].comp is Some);
}

proof fn lemma_race_own(
    v: Seq<Attempt>,
    data: Seq<u8>,
    use_cm: bool,
    stride: u32,
    bpp: u32,
    mem: MemBudget,
    failed: bool,
)
    requires
        are_runs(v, racers(use_cm).len() as int, data, stride, bpp, mem, failed),
        data.len() <= u64::MAX,
    ensures
        ({
            let w = best_of(data, v);
            &&& plain_by(w.0, w.1, data.len() as u64) == Ok::<Seq<u8>, Error>(data)
            &&& w.0 == STORE ==> w.1 == data
            &&& w.0 != STORE ==> {
                &&& racers(use_cm).contains(w.0)
                &&& w.1.len() < data.len()
                &&& coded_by(w.0, data, stride, bpp, mem) == Ok::<Seq<u8>, Error>(w.1)
            }
        }),
{
    lemma_best(v, v.len());
    if let Some(i) = best_attempt(v, v.len()) {
        assert(is_run(v[i], i, data, stride, bpp, mem, failed));
        assert(racers(use_cm)[i] == v[i].id);
    }
}

/// The shortest of what the racers came to may win, in whatever order they ran.
#[verifier::rlimit(40)]
pub proof fn lemma_race(
    v: Seq<Attempt>,
    data: Seq<u8>,
    use_cm: bool,
    stride: u32,
    bpp: u32,
    mem: MemBudget,
    failed: bool,
)
    requires
        are_runs(v, racers(use_cm).len() as int, data, stride, bpp, mem, failed),
        data.len() <= u64::MAX,
    ensures
        ({
            let w = best_of(data, v);
            may_win(data, use_cm, stride, bpp, mem, w.0, w.1)
        }),
{
    lemma_race_own(v, data, use_cm, stride, bpp, mem, failed);
    let w = best_of(data, v);
    assert forall|k: u8| #[trigger]
        racers(use_cm).contains(k) && round_trips(k, data, stride, bpp, mem) && !run_refused(
            k,
            data,
            stride,
            bpp,
            mem,
        ) implies w.1.len() <= coded_by(k, data, stride, bpp, mem)->Ok_0.len() by {
        lemma_race_shortest(v, data, use_cm, stride, bpp, mem, failed, k);
    }
    assert(racers(use_cm)[1] == BROTLI);
    if round_trips(BROTLI, data, stride, bpp, mem) {
        lemma_race_shortest(v, data, use_cm, stride, bpp, mem, failed, BROTLI);
    }
    if use_cm {
        assert(racers(use_cm)[3] == CM);
        assert(is_run(v[3], 3, data, stride, bpp, mem, failed));
        if round_trips(CM, data, stride, bpp, mem) {
            lemma_race_shortest(v, data, use_cm, stride, bpp, mem, failed, CM);
        }
    }
}

/// Where no codec failed, it is the best.
pub proof fn lemma_race_best(
    v: Seq<Attempt>,
    data: Seq<u8>,
    use_cm: bool,
    stride: u32,
    bpp: u32,
    mem: MemBudget,
)
    requires
        are_runs(v, racers(use_cm).len() as int, data, stride, bpp, mem, false),
    ensures
        ({
            let w = best_of(data, v);
            is_best(data, use_cm, stride, bpp, mem, w.0, w.1)
        }),
{
    lemma_best(v, v.len());
    let w = best_of(data, v);
    assert forall|k: u8| #[trigger]
        racers(use_cm).contains(k) && round_trips(k, data, stride, bpp, mem) implies w.1.len()
        <= coded_by(k, data, stride, bpp, mem)->Ok_0.len() by {
        assert(is_run(v[k - 1], k - 1, data, stride, bpp, mem, false));
    }
    if w.0 != STORE {
        let i = best_attempt(v, v.len())->Some_0;
        assert(is_run(v[i], i, data, stride, bpp, mem, false));
        assert(racers(use_cm)[i] == v[i].id);
        assert(racers(use_cm).contains(v[i].id));
    } else if let Some(i) = best_attempt(v, v.len()) {
        assert(is_run(v[i], i, data, stride, bpp, mem, false));
        assert(racers(use_cm)[i] == v[i].id);
    }
}

/// The same, and whether a codec failed. Where none did, no backend does better
/// than what won.
pub fn race(data: &[u8], use_cm: bool, stride: u32, bpp: u32, mem: MemBudget) -> (r: (
    (u8, Vec<u8>),
    bool,
))
    ensures
        may_win(data@, use_cm, stride, bpp, mem, r.0.0, r.0.1@),
        !r.1 ==> is_best(data@, use_cm, stride, bpp, mem, r.0.0, r.0.1@),
        r.1 ==> any_refused(data@, use_cm, stride, bpp, mem),
{
    if data.len() == 0 {
        assert(data@ =~= Seq::<u8>::empty());
        return ((STORE, Vec::new()), false);
    }
    let mut failed: bool = false;
    let mut tried: Vec<Attempt> = Vec::new();
    let ids: Vec<u8> = racer_ids(use_cm);
    let n: usize = ids.len();
    let mut i: usize = 0;
    while i < n
        invariant
            i <= n,
            n == ids@.len(),
            ids@ == racers(use_cm),
            are_runs(tried@, i as int, data@, stride, bpp, mem, failed),
            failed ==> any_refused(data@, use_cm, stride, bpp, mem),
        decreases n - i,
    {
        let id: u8 = ids[i];
        let (comp, fails): (Option<Vec<u8>>, bool) = run_backend(id, data, stride, bpp, mem);
        let ghost before = tried@;
        let ghost was = failed;
        failed = failed || fails;
        tried.push(Attempt { id, comp });
        assert(racers(use_cm).contains(id));
        assert forall|k: int| 0 <= k <= i implies is_run(
            #[trigger] tried@[k],
            k,
            data@,
            stride,
            bpp,
            mem,
            failed,
        ) by {
            if k < i {
                assert(is_run(before[k], k, data@, stride, bpp, mem, was));
            }
        }
        i += 1;
    }
    let size: usize = data.len();
    proof {
        assert(size == data@.len());
        lemma_race(tried@, data@, use_cm, stride, bpp, mem, failed);
        if !failed {
            lemma_race_best(tried@, data@, use_cm, stride, bpp, mem);
        }
    }
    (pick_best(data, tried), failed)
}

} // verus!
