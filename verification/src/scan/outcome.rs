//! What an attempt at a candidate, and planning, can come to. Whether there is
//! anything to take apart follows from the data. But a codec may run short of
//! memory on any candidate, and the bytes then stay as they are; so of plans
//! these say which are possible.

use crate::channels::{Blob, Payload};
use crate::outside::{deflate_of, jpeg_of, lepton_of, split_of, zstd_block_of};
use crate::outside::crc32_of;
use crate::plan::{Image, Piece, PixelEnc, Stream};
use crate::rebuild::filter::unfiltered;
use crate::rebuild::render::{be_bytes, le_bytes};
use crate::refusal::{block_refused, lepton_refused, split_refused};
use crate::scan::candidate::{le16, leads, Info, Lead};
use crate::util::checksum::adler32_of;
use vstd::prelude::*;

verus! {

/// How deep streams inside streams are taken apart.
pub const MAX_DEPTH: u32 = 3;

/// Texts shorter than this are not worth their corrections.
pub const MIN_PLAIN: usize = 64;

/// Nor are streams shorter than this.
pub const MIN_STREAM: usize = 16;

pub const MIN_JPEG: usize = 1024;

/// The settings under which streams are taken apart: the longest search that
/// recreating may need, and the longest text.
pub const MAX_CHAIN: u32 = 0x1_0000;

pub const PLAIN_LIMIT: usize = 0x4000_0000;

/// The level at which rows and pixels are compared.
pub const ESTIMATE_LEVEL: i32 = 12;

/// How the stream at the start of `s` is taken apart.
pub open spec fn split(s: Seq<u8>) -> Option<(Seq<u8>, Seq<u8>, int)> {
    split_of(s, MAX_CHAIN, PLAIN_LIMIT, true)
}

/// The first zero byte from `p` on.
pub open spec fn zero_from(g: Seq<u8>, p: int) -> Option<int>
    decreases g.len() - p,
{
    if p < 0 || p >= g.len() {
        None
    } else if g[p] == 0 {
        Some(p)
    } else {
        zero_from(g, p + 1)
    }
}

/// The position behind a text that ends in a zero, if a flag says there is one.
pub open spec fn after_text(g: Seq<u8>, p: int, flag: bool) -> Option<int> {
    if !flag {
        Some(p)
    } else {
        match zero_from(g, p) {
            Some(z) => Some(z + 1),
            None => None,
        }
    }
}

/// The position behind the extra field, if a flag says there is one.
pub open spec fn after_extra(g: Seq<u8>, p: int, flag: bool) -> Option<int> {
    if !flag {
        Some(p)
    } else if p + 2 > g.len() {
        None
    } else {
        Some(p + 2 + le16(g, p))
    }
}

/// The length of the gzip header that `g` starts with; something has to follow
/// it.
pub open spec fn gzip_len(g: Seq<u8>) -> Option<int> {
    if g.len() < 10 {
        None
    } else {
        let flags = g[3] as int;
        match after_extra(g, 10, flags / 4 % 2 == 1) {
            None => None,
            Some(p1) => match after_text(g, p1, flags / 8 % 2 == 1) {
                None => None,
                Some(p2) => match after_text(g, p2, flags / 16 % 2 == 1) {
                    None => None,
                    Some(p3) => {
                        let p4 = if flags / 2 % 2 == 1 {
                            p3 + 2
                        } else {
                            p3
                        };
                        if p4 >= g.len() {
                            None
                        } else {
                            Some(p4)
                        }
                    },
                },
            },
        }
    }
}

/// The same, where a segment can say it.
pub open spec fn gzip_head(g: Seq<u8>) -> Option<int> {
    match gzip_len(g) {
        Some(h) if h <= u32::MAX => Some(h),
        _ => None,
    }
}

/// The bytes that the first `n` chunks of a run take.
pub open spec fn run_upto(lens: Seq<u32>, n: nat) -> int
    decreases n,
{
    if n == 0 {
        0
    } else {
        run_upto(lens, (n - 1) as nat) + lens[n - 1] + 12
    }
}

/// What the first `n` chunks of the run at `pos` hold.
pub open spec fn payload_upto(data: Seq<u8>, pos: int, lens: Seq<u32>, n: nat) -> Seq<u8>
    decreases n,
{
    if n == 0 {
        Seq::empty()
    } else {
        let at = pos + run_upto(lens, (n - 1) as nat) + 8;
        payload_upto(data, pos, lens, (n - 1) as nat) + data.subrange(at, at + lens[n - 1])
    }
}

/// Whether `z` starts as a zlib stream without a preset dictionary does.
pub open spec fn is_zlib(z: Seq<u8>) -> bool {
    &&& (256 * z[0] + z[1]) % 31 == 0
    &&& z[0] % 16 == 8
    &&& (z[1] / 32) % 2 == 0
}

/// The image of a run whose payload is `z`, with its rows as they are.
pub open spec fn image_of(info: Info, z: Seq<u8>, plain: Seq<u8>, corrections: Seq<u8>, size: int) -> Image {
    Image {
        chunk_lens: info.chunk_lens,
        zlib_header: z.take(2),
        tail: z.skip(2 + size + 4),
        corrections_len: corrections.len() as u64,
        plain_len: plain.len() as u64,
        width: info.head.width,
        height: info.head.height,
        bit_depth: info.head.bit_depth,
        color_type: info.head.color_type,
        pixels: PixelEnc::Filtered,
    }
}

/// Whether `n` estimates how small `s` gets: what it was compressed to or,
/// where it was not `had` because the codec returned an error, the most there is.
pub open spec fn is_estimate(s: Seq<u8>, n: usize, had: bool) -> bool {
    if had {
        zstd_block_of(s, ESTIMATE_LEVEL) matches Some(v) && v.len() == n
    } else {
        n == usize::MAX && block_refused(s, ESTIMATE_LEVEL)
    }
}

/// Whether rows may be kept as they are or, with `unfilter`, as pixels: those
/// that are estimated to get smaller, by estimates that were both had unless the
/// codec ran `short`.
pub open spec fn may_choose(plain: Seq<u8>, pixels: Seq<u8>, unfilter: bool, short: bool) -> bool {
    exists|a: usize, b: usize, had_a: bool, had_b: bool| #[trigger]
        is_estimate(plain, a, had_a) && #[trigger] is_estimate(pixels, b, had_b) && unfilter == (b
            < a) && (short || had_a && had_b)
}

/// The image and the channels it leads to, with its rows as they are or, with
/// `unfilter`, as pixels.
pub open spec fn stored_image(i: Image, plain: Seq<u8>, ch: Payload, unfilter: bool) -> (Image, Payload) {
    match unfiltered(i, plain) {
        Some((f, x)) if unfilter => (
            Image { pixels: PixelEnc::Unfiltered { blob: ch.blobs.len() as u32 }, ..i },
            ch.plus_filters(f).plus_blob(
                Blob { data: x, stride: i.row_len() as u32, bpp: i.pixel_len() as u32 },
            ),
        ),
        _ => (i, ch.plus_plain(plain)),
    }
}

/// Whether rows can be kept as pixels at all, and that choice may be made.
pub open spec fn may_store(info: Info, i: Image, plain: Seq<u8>, unfilter: bool, short: bool) -> bool {
    match unfiltered(i, plain) {
        Some((f, x)) if info.head.interlace == 0 => may_choose(plain, x, unfilter, short),
        _ => !unfilter,
    }
}

/// A run of image chunks taken apart.
pub open spec fn built_png(
    info: Info,
    data: Seq<u8>,
    pos: int,
    ch: Payload,
    seg: Piece,
    used: int,
    ch1: Payload,
    short: bool,
) -> bool {
    let n = info.chunk_lens.len();
    let z = payload_upto(data, pos, info.chunk_lens, n);
    &&& used == run_upto(info.chunk_lens, n)
    &&& pos + used <= data.len()
    &&& z.len() >= 6
    &&& is_zlib(z)
    &&& split(z.skip(2)) matches Some((plain, corrections, size))
    &&& MIN_PLAIN <= plain.len() <= u64::MAX
    &&& corrections.len() <= u64::MAX
    &&& 0 <= size
    &&& 2 + size + 4 <= z.len()
    &&& deflate_of(plain, corrections) == Some(z.subrange(2, 2 + size))
    &&& z.subrange(2 + size, 2 + size + 4) == be_bytes(adler32_of(plain))
    &&& exists|unfilter: bool| #[trigger]
        may_store(info, image_of(info, z, plain, corrections, size), plain, unfilter, short) && {
            let s = stored_image(
                image_of(info, z, plain, corrections, size),
                plain,
                ch.plus_corrections(corrections),
                unfilter,
            );
            seg == Piece::PngIdat(s.0) && ch1 == s.1
        }
}

/// The first end-of-image mark from `from` on.
pub open spec fn eoi_from(hay: Seq<u8>, from: int) -> Option<int>
    decreases hay.len() - from,
{
    if from < 0 || from + 2 > hay.len() {
        None
    } else if hay[from] == 0xff && hay[from + 1] == 0xd9 {
        Some(from)
    } else {
        eoi_from(hay, from + 1)
    }
}

/// Whether `end` is among the next `left` ends that are tried from `from` on:
/// those behind a mark, and not too near the start.
pub open spec fn is_try(hay: Seq<u8>, from: int, left: int, end: int) -> bool
    decreases hay.len() - from,
{
    if left <= 0 || from < 0 || from >= hay.len() {
        false
    } else {
        match eoi_from(hay, from) {
            None => false,
            Some(i) => {
                let e = i + 2;
                if e <= from || e > hay.len() {
                    false
                } else if e >= MIN_JPEG {
                    e == end || is_try(hay, e, left - 1, end)
                } else {
                    is_try(hay, e, left, end)
                }
            },
        }
    }
}

/// A JPEG taken apart: with the first end that pays, but for those on which the
/// codec ran `short` of memory.
pub open spec fn built_jpeg(
    data: Seq<u8>,
    pos: int,
    ch: Payload,
    seg: Piece,
    used: int,
    ch1: Payload,
    short: bool,
) -> bool {
    let hay = data.skip(pos);
    &&& hay.len() >= MIN_JPEG
    &&& is_try(hay, 2, 3, used)
    &&& lepton_of(hay.take(used)) matches Some(blob)
    &&& jpeg_of(blob) == Some(hay.take(used))
    &&& blob.len() < used
    &&& forall|e: int| #[trigger]
        is_try(hay, 2, 3, e) && jpeg_pays(hay, e) && !(short && lepton_refused(hay.take(e)))
            ==> used <= e
    &&& seg == (Piece::Jpeg { lepton_len: blob.len() as u64, orig_len: used as u64 })
    &&& ch1 == ch.plus_lepton(blob)
}

/// How many levels of streams are left.
pub open spec fn levels(depth: int) -> int {
    if depth < MAX_DEPTH {
        MAX_DEPTH - depth
    } else {
        0
    }
}

/// The deflate stream at `pos` taken apart, and its text planned in turn.
pub open spec fn built_stream(
    data: Seq<u8>,
    pos: int,
    depth: int,
    ch: Payload,
    d: Stream,
    ch1: Payload,
    short: bool,
) -> bool
    decreases levels(depth), 0nat, 0nat,
{
    &&& 0 <= pos < data.len()
    &&& split(data.skip(pos)) matches Some((plain, corrections, size))
    &&& plain.len() >= MIN_PLAIN
    &&& size >= MIN_STREAM
    &&& size <= data.len() - pos
    &&& deflate_of(plain, corrections) == Some(data.subrange(pos, pos + size))
    &&& d.corrections_len == corrections.len()
    &&& d.plain_len == plain.len()
    &&& if depth < MAX_DEPTH {
        is_plan(plain, depth + 1, ch.plus_corrections(corrections), d.inner, ch1, short)
    } else {
        &&& d.inner == seq![Piece::Raw { len: plain.len() as u64 }]
        &&& ch1 == ch.plus_corrections(corrections).plus_plain(plain)
    }
}

/// The text and the length of the stream at `pos`.
pub open spec fn stream_text(data: Seq<u8>, pos: int) -> Seq<u8> {
    split(data.skip(pos))->Some_0.0
}

pub open spec fn stream_size(data: Seq<u8>, pos: int) -> int {
    split(data.skip(pos))->Some_0.2
}

/// Whether a candidate can come to `seg`, over `used` bytes, with the channels
/// going from `ch` to `ch1`. Where no codec ran `short` of memory on the way,
/// the data decides.
pub open spec fn built(
    m: Lead,
    data: Seq<u8>,
    pos: int,
    depth: int,
    ch: Payload,
    seg: Piece,
    used: int,
    ch1: Payload,
    short: bool,
) -> bool
    decreases levels(depth), 0nat, 1nat,
{
    match m {
        Lead::RawDeflate => {
            &&& seg matches Piece::Deflate(d)
            &&& built_stream(data, pos, depth, ch, d, ch1, short)
            &&& used == stream_size(data, pos)
        },
        Lead::Zlib => {
            let at = pos + 2 + stream_size(data, pos + 2);
            &&& seg matches Piece::Zlib { header, body }
            &&& built_stream(data, pos + 2, depth, ch, body, ch1, short)
            &&& header == data.subrange(pos, pos + 2)
            &&& at + 4 <= data.len()
            &&& data.subrange(at, at + 4) == be_bytes(adler32_of(stream_text(data, pos + 2)))
            &&& used == at + 4 - pos
        },
        Lead::Gzip => {
            &&& gzip_head(data.skip(pos)) matches Some(h)
            &&& seg matches Piece::Gzip { header_len, body }
            &&& built_stream(
                data,
                pos + h,
                depth,
                ch.plus_plain(data.subrange(pos, pos + h)),
                body,
                ch1,
                short,
            )
            &&& header_len == h as u32
            &&& {
                let at = pos + h + stream_size(data, pos + h);
                let plain = stream_text(data, pos + h);
                &&& at + 8 <= data.len()
                &&& data.subrange(at, at + 4) == le_bytes(crc32_of(plain))
                &&& data.subrange(at + 4, at + 8) == le_bytes(
                    (plain.len() % 0x1_0000_0000) as u32,
                )
                &&& used == at + 8 - pos
            }
        },
        Lead::Png(info) => built_png(info, data, pos, ch, seg, used, ch1, short),
        Lead::Jpeg => built_jpeg(data, pos, ch, seg, used, ch1, short),
    }
}

/// Whether a stream that is worth its corrections starts at `pos`.
pub open spec fn stream_there(data: Seq<u8>, pos: int) -> bool {
    &&& 0 <= pos < data.len()
    &&& split(data.skip(pos)) matches Some((plain, corrections, size))
    &&& plain.len() >= MIN_PLAIN
    &&& size >= MIN_STREAM
}

/// Whether the run of image chunks at `pos` lies in the data and holds what
/// starts as a zlib stream does.
pub open spec fn png_asks(info: Info, data: Seq<u8>, pos: int) -> bool {
    let n = info.chunk_lens.len();
    let z = payload_upto(data, pos, info.chunk_lens, n);
    &&& pos + run_upto(info.chunk_lens, n) <= data.len()
    &&& z.len() >= 6
    &&& is_zlib(z)
}

/// Whether the run holds a zlib stream, to its checksum, whose text is worth
/// its corrections.
pub open spec fn png_there(info: Info, data: Seq<u8>, pos: int) -> bool {
    let z = payload_upto(data, pos, info.chunk_lens, info.chunk_lens.len());
    &&& png_asks(info, data, pos)
    &&& split(z.skip(2)) matches Some((plain, corrections, size))
    &&& plain.len() >= MIN_PLAIN
    &&& 2 + size + 4 <= z.len()
    &&& z.subrange(2 + size, 2 + size + 4) == be_bytes(adler32_of(plain))
}

/// Whether the first `end` bytes are a JPEG that gets smaller.
pub open spec fn jpeg_pays(hay: Seq<u8>, end: int) -> bool {
    lepton_of(hay.take(end)) matches Some(blob) && blob.len() < end
}

/// Whether any end of a JPEG at `pos` is tried.
pub open spec fn jpeg_asks(data: Seq<u8>, pos: int) -> bool {
    let hay = data.skip(pos);
    hay.len() >= MIN_JPEG && exists|e: int| is_try(hay, 2, 3, e)
}

/// Whether a JPEG at `pos` gets smaller with one of the ends that are tried.
pub open spec fn jpeg_there(data: Seq<u8>, pos: int) -> bool {
    let hay = data.skip(pos);
    hay.len() >= MIN_JPEG && exists|e: int| #[trigger] is_try(hay, 2, 3, e) && jpeg_pays(hay, e)
}

/// Whether a codec is asked about a candidate at all.
pub open spec fn lead_asks(m: Lead, data: Seq<u8>, pos: int) -> bool {
    match m {
        Lead::RawDeflate => pos < data.len(),
        Lead::Zlib => pos + 2 < data.len(),
        Lead::Gzip => gzip_head(data.skip(pos)) is Some,
        Lead::Png(info) => png_asks(info, data, pos),
        Lead::Jpeg => jpeg_asks(data, pos),
    }
}

/// Whether a candidate is what it looks like, and worth taking apart.
pub open spec fn lead_there(m: Lead, data: Seq<u8>, pos: int) -> bool {
    match m {
        Lead::RawDeflate => stream_there(data, pos),
        Lead::Zlib => {
            let at = pos + 2 + stream_size(data, pos + 2);
            &&& stream_there(data, pos + 2)
            &&& at + 4 <= data.len()
            &&& data.subrange(at, at + 4) == be_bytes(adler32_of(stream_text(data, pos + 2)))
        },
        Lead::Gzip => {
            &&& gzip_head(data.skip(pos)) matches Some(h)
            &&& stream_there(data, pos + h)
            &&& {
                let at = pos + h + stream_size(data, pos + h);
                let plain = stream_text(data, pos + h);
                &&& at + 8 <= data.len()
                &&& data.subrange(at, at + 4) == le_bytes(crc32_of(plain))
                &&& data.subrange(at + 4, at + 8) == le_bytes(
                    (plain.len() % 0x1_0000_0000) as u32,
                )
            }
        },
        Lead::Png(info) => png_there(info, data, pos),
        Lead::Jpeg => jpeg_there(data, pos),
    }
}

/// Whether taking apart the stream at the start of `s` ended in want of memory.
pub open spec fn split_starved(s: Seq<u8>) -> bool {
    split_refused(s, MAX_CHAIN, PLAIN_LIMIT, true)
}

/// Whether a codec was asked about a candidate and ran out of memory on it.
#[verifier::opaque]
pub open spec fn lead_refused(m: Lead, data: Seq<u8>, pos: int) -> bool {
    match m {
        Lead::RawDeflate => split_starved(data.skip(pos)),
        Lead::Zlib => split_starved(data.skip(pos + 2)),
        Lead::Gzip => gzip_head(data.skip(pos)) matches Some(h) && split_starved(
            data.skip(pos + h),
        ),
        Lead::Png(info) => split_starved(
            payload_upto(data, pos, info.chunk_lens, info.chunk_lens.len()).skip(2),
        ),
        Lead::Jpeg => exists|e: int| #[trigger]
            is_try(data.skip(pos), 2, 3, e) && lepton_refused(data.skip(pos).take(e)),
    }
}

/// What the stream at `pos` leaves in the channels where its wrapping does not
/// fit, or where the codec `failed` on it for want of memory.
pub open spec fn stream_left(
    data: Seq<u8>,
    pos: int,
    depth: int,
    ch: Payload,
    failed: bool,
    ch1: Payload,
) -> bool {
    if !failed && stream_there(data, pos) {
        exists|d: Stream, short: bool| built_stream(data, pos, depth, ch, d, ch1, short)
    } else {
        ch1 == ch
    }
}

/// What a candidate that was not taken apart leaves in the channels: its stream,
/// where that was, and a gzip header.
pub open spec fn lead_left(
    m: Lead,
    data: Seq<u8>,
    pos: int,
    depth: int,
    ch: Payload,
    failed: bool,
    ch1: Payload,
) -> bool {
    match m {
        Lead::Zlib => stream_left(data, pos + 2, depth, ch, failed, ch1),
        Lead::Gzip => match gzip_head(data.skip(pos)) {
            Some(h) => stream_left(
                data,
                pos + h,
                depth,
                ch.plus_plain(data.subrange(pos, pos + h)),
                failed,
                ch1,
            ),
            None => ch1 == ch,
        },
        _ => ch1 == ch,
    }
}

/// How far planning has come: the segments, the channels, and the position
/// behind what the segments describe.
pub struct Progress {
    pub segs: Seq<Piece>,
    pub ch: Payload,
    pub at: int,
}

impl Progress {
    /// Marks a point of the planning that is spoken of.
    pub open spec fn reached(self) -> bool {
        true
    }

    /// With the bytes up to `pos` kept as they are.
    pub open spec fn literal(self, data: Seq<u8>, pos: int) -> Progress {
        if pos > self.at {
            Progress {
                segs: self.segs.push(Piece::Raw { len: (pos - self.at) as u64 }),
                ch: self.ch.plus_plain(data.subrange(self.at, pos)),
                at: pos,
            }
        } else {
            self
        }
    }
}

/// One candidate: inside what is described already, left, or taken. One behind
/// what is described is left only where it is not what it looks like or not
/// worth it, or where a codec ran `short` of memory on it.
pub open spec fn stepped(
    data: Seq<u8>,
    depth: int,
    cand: (int, Lead),
    before: Progress,
    after: Progress,
    short: bool,
) -> bool
    decreases levels(depth), 0nat, 2nat,
{
    ||| after == before && (cand.0 < before.at || !lead_there(cand.1, data, cand.0) || short
        && lead_refused(cand.1, data, cand.0))
    ||| {
        let lit = before.literal(data, cand.0);
        &&& cand.0 >= before.at
        &&& after.segs.len() == lit.segs.len() + 1
        &&& after.segs.drop_last() == lit.segs
        &&& after.at >= cand.0
        &&& built(
            cand.1,
            data,
            cand.0,
            depth,
            lit.ch,
            after.segs.last(),
            after.at - cand.0,
            after.ch,
            short,
        )
    }
}

/// Whether the first `k` candidates can come to `p`.
pub open spec fn planned(data: Seq<u8>, depth: int, ch: Payload, k: nat, p: Progress, short: bool) -> bool
    decreases levels(depth), 1nat, k,
{
    if k == 0 {
        p == (Progress { segs: Seq::empty(), ch, at: 0 })
    } else {
        exists|q: Progress| #[trigger]
            q.reached() && planned(data, depth, ch, (k - 1) as nat, q, short) && stepped(
                data,
                depth,
                leads(data)[k - 1],
                q,
                p,
                short,
            )
    }
}

/// Whether planning `data` can come to `segs`, with the channels going from
/// `ch` to `ch1`. Where no codec ran `short` of memory, every candidate that is
/// there and not inside another is taken, in the texts inside it too.
pub open spec fn is_plan(
    data: Seq<u8>,
    depth: int,
    ch: Payload,
    segs: Seq<Piece>,
    ch1: Payload,
    short: bool,
) -> bool
    decreases levels(depth), 2nat, 0nat,
{
    exists|p: Progress| #[trigger]
        p.reached() && planned(data, depth, ch, leads(data).len(), p, short) && segs == p.literal(
            data,
            data.len() as int,
        ).segs && ch1 == p.literal(data, data.len() as int).ch
}

/// One candidate more.
pub proof fn lemma_planned(
    data: Seq<u8>,
    depth: int,
    ch: Payload,
    k: nat,
    q: Progress,
    p: Progress,
    short: bool,
)
    requires
        planned(data, depth, ch, k, q, short),
        stepped(data, depth, leads(data)[k as int], q, p, short),
    ensures
        planned(data, depth, ch, k + 1, p, short),
{
    assert(q.reached());
}

/// The candidates before the last, and what the last came to.
pub proof fn lemma_planned_before(
    data: Seq<u8>,
    depth: int,
    ch: Payload,
    k: nat,
    p: Progress,
    short: bool,
) -> (q: Progress)
    requires
        k > 0,
        planned(data, depth, ch, k, p, short),
    ensures
        planned(data, depth, ch, (k - 1) as nat, q, short),
        stepped(data, depth, leads(data)[k - 1], q, p, short),
{
    choose|q: Progress| #[trigger]
        q.reached() && planned(data, depth, ch, (k - 1) as nat, q, short) && stepped(
            data,
            depth,
            leads(data)[k - 1],
            q,
            p,
            short,
        )
}

pub proof fn lemma_is_plan(data: Seq<u8>, depth: int, ch: Payload, p: Progress, short: bool)
    requires
        planned(data, depth, ch, leads(data).len(), p, short),
    ensures
        is_plan(
            data,
            depth,
            ch,
            p.literal(data, data.len() as int).segs,
            p.literal(data, data.len() as int).ch,
            short,
        ),
{
    assert(p.reached());
}

proof fn lemma_stream_loosen(
    data: Seq<u8>,
    pos: int,
    depth: int,
    ch: Payload,
    d: Stream,
    ch1: Payload,
    short: bool,
)
    requires
        built_stream(data, pos, depth, ch, d, ch1, short),
    ensures
        built_stream(data, pos, depth, ch, d, ch1, true),
    decreases levels(depth), 0nat, 0nat,
{
    let (plain, corrections, size) = split(data.skip(pos))->Some_0;
    if depth < MAX_DEPTH {
        lemma_plan_loosen(plain, depth + 1, ch.plus_corrections(corrections), d.inner, ch1, short);
    }
}

/// What a candidate can come to with enough memory, it can come to without.
pub proof fn lemma_built_loosen(
    m: Lead,
    data: Seq<u8>,
    pos: int,
    depth: int,
    ch: Payload,
    seg: Piece,
    used: int,
    ch1: Payload,
    short: bool,
)
    requires
        built(m, data, pos, depth, ch, seg, used, ch1, short),
    ensures
        built(m, data, pos, depth, ch, seg, used, ch1, true),
    decreases levels(depth), 0nat, 1nat,
{
    match m {
        Lead::RawDeflate => {
            lemma_stream_loosen(data, pos, depth, ch, seg->Deflate_0, ch1, short);
        },
        Lead::Zlib => {
            lemma_stream_loosen(data, pos + 2, depth, ch, seg->Zlib_body, ch1, short);
        },
        Lead::Gzip => {
            let h = gzip_head(data.skip(pos))->Some_0;
            let head = data.subrange(pos, pos + h);
            lemma_stream_loosen(
                data,
                pos + h,
                depth,
                ch.plus_plain(head),
                seg->Gzip_body,
                ch1,
                short,
            );
        },
        Lead::Png(info) => {
            let z = payload_upto(data, pos, info.chunk_lens, info.chunk_lens.len());
            let (plain, corrections, size) = split(z.skip(2))->Some_0;
            let i = image_of(info, z, plain, corrections, size);
            let unfilter = choose|unfilter: bool| #[trigger]
                may_store(info, i, plain, unfilter, short) && {
                    let s = stored_image(i, plain, ch.plus_corrections(corrections), unfilter);
                    seg == Piece::PngIdat(s.0) && ch1 == s.1
                };
            assert(may_store(info, i, plain, unfilter, true));
        },
        Lead::Jpeg => {},
    }
}

/// The same of the candidates up to one.
pub proof fn lemma_planned_loosen(
    data: Seq<u8>,
    depth: int,
    ch: Payload,
    k: nat,
    p: Progress,
    short: bool,
)
    requires
        planned(data, depth, ch, k, p, short),
    ensures
        planned(data, depth, ch, k, p, true),
    decreases levels(depth), 1nat, k,
{
    if k > 0 {
        let q = lemma_planned_before(data, depth, ch, k, p, short);
        let cand = leads(data)[k - 1];
        lemma_planned_loosen(data, depth, ch, (k - 1) as nat, q, short);
        if p != q {
            let lit = q.literal(data, cand.0);
            lemma_built_loosen(
                cand.1,
                data,
                cand.0,
                depth,
                lit.ch,
                p.segs.last(),
                p.at - cand.0,
                p.ch,
                short,
            );
        }
        assert(stepped(data, depth, cand, q, p, true));
        assert(q.reached());
    }
}

/// What planning can come to with enough memory, it can come to without.
pub proof fn lemma_plan_loosen(
    data: Seq<u8>,
    depth: int,
    ch: Payload,
    segs: Seq<Piece>,
    ch1: Payload,
    short: bool,
)
    requires
        is_plan(data, depth, ch, segs, ch1, short),
    ensures
        is_plan(data, depth, ch, segs, ch1, true),
    decreases levels(depth), 2nat, 0nat,
{
    let p = choose|p: Progress| #[trigger]
        p.reached() && planned(data, depth, ch, leads(data).len(), p, short) && segs == p.literal(
            data,
            data.len() as int,
        ).segs && ch1 == p.literal(data, data.len() as int).ch;
    lemma_planned_loosen(data, depth, ch, leads(data).len(), p, short);
    assert(p.reached());
}

/// Whether no part that is kept as it is is empty, and no two of them follow
/// each other.
pub open spec fn is_lean(v: Seq<Piece>) -> bool {
    &&& forall|i: int| 0 <= i < v.len() ==> (#[trigger] v[i] matches Piece::Raw { len } ==> len > 0)
    &&& forall|i: int|
        0 < i < v.len() ==> !(v[i - 1] is Raw && #[trigger] v[i] is Raw)
}

proof fn lemma_planned_lean(
    data: Seq<u8>,
    depth: int,
    ch: Payload,
    k: nat,
    p: Progress,
    short: bool,
)
    requires
        data.len() <= u64::MAX,
        k <= leads(data).len(),
        planned(data, depth, ch, k, p, short),
    ensures
        is_lean(p.segs),
        p.at >= 0,
        p.segs.len() > 0 ==> !(p.segs.last() is Raw),
    decreases k,
{
    if k > 0 {
        let q = lemma_planned_before(data, depth, ch, k, p, short);
        let cand = leads(data)[k - 1];
        lemma_planned_lean(data, depth, ch, (k - 1) as nat, q, short);
        crate::scan::candidate::lemma_leads_inside(data);
        if p != q {
            let lit = q.literal(data, cand.0);
            assert(p.segs =~= lit.segs.push(p.segs.last()));
        }
    }
}

/// A plan keeps no empty part as it is, and no two parts next to each other.
pub proof fn lemma_plan_lean(
    data: Seq<u8>,
    depth: int,
    ch: Payload,
    segs: Seq<Piece>,
    ch1: Payload,
    short: bool,
)
    requires
        data.len() <= u64::MAX,
        is_plan(data, depth, ch, segs, ch1, short),
    ensures
        is_lean(segs),
{
    let p = choose|p: Progress| #[trigger]
        p.reached() && planned(data, depth, ch, leads(data).len(), p, short) && segs == p.literal(
            data,
            data.len() as int,
        ).segs && ch1 == p.literal(data, data.len() as int).ch;
    lemma_planned_lean(data, depth, ch, leads(data).len(), p, short);
}

} // verus!
