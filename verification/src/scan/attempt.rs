//! Takes candidates apart, and plans.

use crate::channels::{lemma_rollback, Blob, Channels, Mark, Payload, PixelBlob};
use crate::outside::{crc32, crc32_of, Inflated};
use crate::plan::{
    lemma_pieces_push, lemma_pieces_upto, piece, pieces, stream, DeflateSeg, Image, Piece, PixelEnc,
    PngIdatSeg, Seg,
};
use crate::rebuild::filter::{unfilter, unfiltered};
use crate::rebuild::render::{be_bytes, le_bytes};
use crate::refusal::{
    ask_block, ask_inflate, ask_lepton, lepton_refused, scan_starved,
};
use crate::scan::candidate::{
    cands_of, collect_candidates, leads, lemma_leads_inside, Cand, Lead, PngInfo,
};
use crate::scan::outcome::{
    after_text, built, built_jpeg, built_png, built_stream, eoi_from, gzip_len, image_of,
    is_estimate, is_lean, is_plan, is_try, is_zlib, jpeg_asks, jpeg_pays, jpeg_there, lead_asks,
    lead_left, lead_refused, lead_there, lemma_built_loosen, lemma_is_plan, lemma_plan_lean, lemma_plan_loosen,
    lemma_planned, lemma_planned_loosen, levels, may_choose, may_store, payload_upto, planned,
    png_asks, png_there, run_upto, split_starved, stepped, stored_image, stream_left, stream_size, stream_text,
    stream_there, zero_from, Progress, ESTIMATE_LEVEL, MAX_CHAIN, MAX_DEPTH, MIN_JPEG, MIN_PLAIN,
    MIN_STREAM, PLAIN_LIMIT,
};
use crate::util::checksum::{adler32, adler32_of};
use vstd::prelude::*;

verus! {

/// Whether four bytes at `at` are those of `x`, the highest first or last.
fn has_number(data: &[u8], at: usize, x: u32, highest_first: bool) -> (r: bool)
    requires
        at + 4 <= data@.len(),
    ensures
        r == (data@.subrange(at as int, at + 4) == if highest_first {
            be_bytes(x)
        } else {
            le_bytes(x)
        }),
{
    let n: usize = data.len();
    assert(at + 4 <= n);
    let b3: u8 = (x / 0x100_0000 % 256) as u8;
    let b2: u8 = (x / 0x1_0000 % 256) as u8;
    let b1: u8 = (x / 256 % 256) as u8;
    let b0: u8 = (x % 256) as u8;
    let ghost s = data@.subrange(at as int, at + 4);
    let ghost t = if highest_first {
        be_bytes(x)
    } else {
        le_bytes(x)
    };
    let (c0, c1, c2, c3): (u8, u8, u8, u8) = if highest_first {
        (b3, b2, b1, b0)
    } else {
        (b0, b1, b2, b3)
    };
    assert(t[0] == c0 && t[1] == c1 && t[2] == c2 && t[3] == c3);
    let r: bool = data[at] == c0 && data[at + 1] == c1 && data[at + 2] == c2 && data[at + 3] == c3;
    assert(s[0] == data@[at as int] && s[1] == data@[at + 1] && s[2] == data@[at + 2] && s[3]
        == data@[at + 3]);
    if r {
        assert(s =~= t);
    }
    r
}

fn find_zero(g: &[u8], p: usize) -> (r: Option<usize>)
    ensures
        match zero_from(g@, p as int) {
            Some(z) => r == Some(z as usize) && p <= z < g@.len(),
            None => r is None,
        },
{
    let n: usize = g.len();
    let mut i: usize = p;
    while i < n
        invariant
            n == g@.len(),
            p <= i,
            zero_from(g@, p as int) == zero_from(g@, i as int),
        decreases n - i,
    {
        if g[i] == 0 {
            return Some(i);
        }
        i += 1;
    }
    None
}

fn skip_text(g: &[u8], p: usize, flag: bool) -> (r: Option<usize>)
    ensures
        match after_text(g@, p as int, flag) {
            Some(z) => r == Some(z as usize) && p <= z && (flag ==> z <= g@.len()),
            None => r is None,
        },
{
    if !flag {
        return Some(p);
    }
    let n: usize = g.len();
    match find_zero(g, p) {
        Some(z) => Some(z + 1),
        None => None,
    }
}

/// The length of the gzip header that `g` starts with.
pub fn gzip_header_len(g: &[u8]) -> (r: Option<usize>)
    ensures
        match gzip_len(g@) {
            Some(p) => r == Some(p as usize) && 10 <= p < g@.len(),
            None => r is None,
        },
{
    let n: usize = g.len();
    if n < 10 {
        return None;
    }
    let flags: u8 = g[3];
    let mut p: usize = 10;
    if flags / 4 % 2 == 1 {
        if n - p < 2 {
            return None;
        }
        let extra: usize = g[p] as usize + 256 * g[p + 1] as usize;
        if extra > n - p - 2 {
            proof {
                lemma_beyond(g@, p + 2 + extra, flags as int);
            }
            return None;
        }
        p = p + 2 + extra;
    }
    p = match skip_text(g, p, flags / 8 % 2 == 1) {
        Some(z) => z,
        None => return None,
    };
    p = match skip_text(g, p, flags / 16 % 2 == 1) {
        Some(z) => z,
        None => return None,
    };
    if flags / 2 % 2 == 1 {
        if n - p < 2 {
            return None;
        }
        p = p + 2;
    }
    if p >= n {
        return None;
    }
    Some(p)
}

/// A header that already ends behind the data is none.
proof fn lemma_beyond(g: Seq<u8>, p: int, flags: int)
    requires
        p > g.len(),
    ensures
        match after_text(g, p, flags / 8 % 2 == 1) {
            None => true,
            Some(p2) => match after_text(g, p2, flags / 16 % 2 == 1) {
                None => true,
                Some(p3) => p3 > g.len(),
            },
        },
{
}

/// A stream that was taken apart, with what its wrapping is checked against.
pub struct DeflateHit {
    pub seg: DeflateSeg,
    pub deflate_len: usize,
    pub plain_adler: u32,
    pub plain_crc: u32,
    pub plain_isize: u32,
}

proof fn lemma_grows_trans(a: Payload, b: Payload, c: Payload)
    requires
        a.grows_to(b),
        b.grows_to(c),
    ensures
        a.grows_to(c),
{
    assert(a.plain =~= c.plain.take(a.plain.len() as int));
}

/// Whether a stream that was taken apart is worth its corrections.
pub fn is_worth(x: &Inflated) -> (r: bool)
    ensures
        r == (x.plain@.len() >= MIN_PLAIN && x.size >= MIN_STREAM),
{
    x.plain.len() >= MIN_PLAIN && x.size >= MIN_STREAM
}

/// Whether the stream that ends at `at` is followed by the checksum that zlib
/// has.
pub fn closes_zlib(data: &[u8], at: usize, adler: u32) -> (r: bool)
    ensures
        r == (at + 4 <= data@.len() && data@.subrange(at as int, at + 4) == be_bytes(adler)),
{
    let n: usize = data.len();
    at <= n && n - at >= 4 && has_number(data, at, adler, true)
}

/// Whether the stream that ends at `at` is followed by the checksum and the
/// length that gzip has.
pub fn closes_gzip(data: &[u8], at: usize, crc: u32, size: u32) -> (r: bool)
    ensures
        r == (at + 8 <= data@.len() && data@.subrange(at as int, at + 4) == le_bytes(crc)
            && data@.subrange(at + 4, at + 8) == le_bytes(size)),
{
    let n: usize = data.len();
    at <= n && n - at >= 8 && has_number(data, at, crc, false) && has_number(
        data,
        at + 4,
        size,
        false,
    )
}

/// Whether the checksum that zlib has follows the stream behind the header at
/// `pos`.
pub open spec fn zlib_fits(data: Seq<u8>, pos: int, hit: DeflateHit) -> bool {
    let at = pos + 2 + hit.deflate_len;
    at + 4 <= data.len() && data.subrange(at, at + 4) == be_bytes(hit.plain_adler)
}

/// The segment of the zlib stream at `pos`, out of the deflate stream that was
/// taken apart behind its header, and its length; none where the checksum does
/// not follow.
pub fn zlib_seg(data: &[u8], pos: usize, hit: DeflateHit) -> (r: Option<(Seg, usize)>)
    requires
        pos + 2 + hit.deflate_len <= data@.len(),
    ensures
        match r {
            Some((seg, used)) => {
                &&& zlib_fits(data@, pos as int, hit)
                &&& piece(seg) == (Piece::Zlib {
                    header: data@.subrange(pos as int, pos + 2),
                    body: stream(hit.seg),
                })
                &&& used == 2 + hit.deflate_len + 4
            },
            None => !zlib_fits(data@, pos as int, hit),
        },
{
    let n: usize = data.len();
    assert(pos + 2 + hit.deflate_len <= n);
    let at: usize = pos + 2 + hit.deflate_len;
    if !closes_zlib(data, at, hit.plain_adler) {
        return None;
    }
    let header: [u8; 2] = [data[pos], data[pos + 1]];
    assert(header@ =~= data@.subrange(pos as int, pos + 2));
    Some((Seg::Zlib { header, body: hit.seg }, at + 4 - pos))
}

/// Whether the checksum and the length that gzip has follow the stream behind
/// the `h` bytes of header at `pos`.
pub open spec fn gzip_fits(data: Seq<u8>, pos: int, h: int, hit: DeflateHit) -> bool {
    let at = pos + h + hit.deflate_len;
    &&& at + 8 <= data.len()
    &&& data.subrange(at, at + 4) == le_bytes(hit.plain_crc)
    &&& data.subrange(at + 4, at + 8) == le_bytes(hit.plain_isize)
}

/// The segment of the gzip member at `pos`, out of the deflate stream that was
/// taken apart behind its `h` bytes of header, and its length; none where the
/// checksum and the length do not follow.
pub fn gzip_seg(data: &[u8], pos: usize, h: usize, hit: DeflateHit) -> (r: Option<(Seg, usize)>)
    requires
        pos + h + hit.deflate_len <= data@.len(),
    ensures
        match r {
            Some((seg, used)) => {
                &&& gzip_fits(data@, pos as int, h as int, hit)
                &&& piece(seg) == (Piece::Gzip { header_len: h as u32, body: stream(hit.seg) })
                &&& used == h + hit.deflate_len + 8
            },
            None => !gzip_fits(data@, pos as int, h as int, hit),
        },
{
    let n: usize = data.len();
    assert(pos + h + hit.deflate_len <= n);
    let at: usize = pos + h + hit.deflate_len;
    if !closes_gzip(data, at, hit.plain_crc, hit.plain_isize) {
        return None;
    }
    Some((Seg::Gzip { header_len: h as u32, body: hit.seg }, at + 8 - pos))
}

/// Takes apart the deflate stream at `pos`, and plans its text; with what was
/// found comes whether a codec ran short of memory on the text. None where there
/// is no stream that is worth it; an error where the codec ran short of memory.
fn try_deflate(data: &[u8], pos: usize, depth: u32, ch: &mut Channels) -> (r: Result<
    Option<(DeflateHit, bool)>,
    preflate_rs::PreflateError,
>)
    ensures
        old(ch)@.grows_to(final(ch)@),
        match r {
            Ok(Some((h, short))) => {
                &&& stream_there(data@, pos as int)
                &&& short ==> scan_starved()
                &&& built_stream(
                    data@,
                    pos as int,
                    depth as int,
                    old(ch)@,
                    stream(h.seg),
                    final(ch)@,
                    short,
                )
                &&& h.deflate_len == stream_size(data@, pos as int)
                &&& h.plain_adler == adler32_of(stream_text(data@, pos as int))
                &&& h.plain_crc == crc32_of(stream_text(data@, pos as int))
                &&& h.plain_isize == (stream_text(data@, pos as int).len() % 0x1_0000_0000) as u32
            },
            Ok(None) => !stream_there(data@, pos as int) && final(ch)@ == old(ch)@,
            Err(_) => pos < data@.len() && final(ch)@ == old(ch)@ && split_starved(
                data@.skip(pos as int),
            ),
        },
    decreases levels(depth as int), 0nat,
{
    let ghost ch0 = ch@;
    let n: usize = data.len();
    if pos >= n {
        return Ok(None);
    }
    let rest: &[u8] = vstd::slice::slice_subrange(data, pos, n);
    assert(rest@ =~= data@.skip(pos as int));
    let x: Inflated = match ask_inflate(rest, MAX_CHAIN, PLAIN_LIMIT, true) {
        Ok(Some(x)) => x,
        Ok(None) => return Ok(None),
        Err(e) => return Err(e),
    };
    if !is_worth(&x) {
        return Ok(None);
    }
    let plain_adler: u32 = adler32(x.plain.as_slice());
    let plain_crc: u32 = crc32(x.plain.as_slice());
    let plain_isize: u32 = (x.plain.len() as u64 % 0x1_0000_0000) as u32;
    ch.corrections.extend_from_slice(x.corrections.as_slice());
    let ghost ch1 = ch0.plus_corrections(x.corrections@);
    proof {
        assert(ch@ =~= ch1);
        assert(ch0.grows_to(ch1));
        assert(rest@.take(x.size as int) =~= data@.subrange(pos as int, pos + x.size));
    }
    let (inner, short): (Vec<Seg>, bool) = if depth < MAX_DEPTH {
        let v: (Vec<Seg>, bool) = scan_bytes(x.plain.as_slice(), depth + 1, ch);
        proof {
            lemma_grows_trans(ch0, ch1, ch@);
        }
        v
    } else {
        ch.plain.extend_from_slice(x.plain.as_slice());
        let mut v: Vec<Seg> = Vec::new();
        let raw = Seg::Raw { len: x.plain.len() as u64 };
        proof {
            lemma_pieces_push(v@, raw);
            assert(pieces(v@) =~= Seq::<Piece>::empty());
            assert(ch@ =~= ch1.plus_plain(x.plain@));
            assert(ch0.grows_to(ch@));
        }
        v.push(raw);
        assert(pieces(v@) =~= seq![Piece::Raw { len: x.plain@.len() as u64 }]);
        (v, false)
    };
    proof {
        lemma_pieces_upto(inner@, inner@.len());
    }
    let hit = DeflateHit {
        seg: DeflateSeg {
            corrections_len: x.corrections.len() as u64,
            plain_len: x.plain.len() as u64,
            inner,
        },
        deflate_len: x.size,
        plain_adler,
        plain_crc,
        plain_isize,
    };
    Ok(Some((hit, short)))
}

/// How small the data gets, at a glance, and whether that was to be had.
fn quick_estimate(data: &[u8]) -> (r: (usize, bool))
    ensures
        is_estimate(data@, r.0, r.1),
{
    match ask_block(data, ESTIMATE_LEVEL) {
        Ok(v) => (v.len(), true),
        Err(_) => (usize::MAX, false),
    }
}

/// Whether pixels are estimated to get smaller than the rows they are from.
pub fn prefers_pixels(est_f: usize, est_u: usize) -> (r: bool)
    ensures
        r == (est_u < est_f),
{
    est_u < est_f
}

/// The bytes that a run of chunks takes, if the data has them from `pos` on.
fn run_len(lens: &Vec<u32>, room: usize) -> (r: Option<usize>)
    ensures
        match r {
            Some(n) => n == run_upto(lens@, lens@.len()) && n <= room,
            None => run_upto(lens@, lens@.len()) > room,
        },
{
    let mut sum: usize = 0;
    let mut i: usize = 0;
    while i < lens.len()
        invariant
            i <= lens@.len(),
            sum == run_upto(lens@, i as nat),
            sum <= room,
        decreases lens.len() - i,
    {
        let l: u64 = lens[i] as u64 + 12;
        if l > (room - sum) as u64 {
            proof {
                lemma_run_grows(lens@, (i + 1) as nat, lens@.len());
            }
            return None;
        }
        sum = sum + l as usize;
        i += 1;
    }
    Some(sum)
}

pub proof fn lemma_run_grows(lens: Seq<u32>, k: nat, n: nat)
    requires
        k <= n,
    ensures
        0 <= run_upto(lens, k) <= run_upto(lens, n),
    decreases n,
{
    if k < n {
        lemma_run_grows(lens, k, (n - 1) as nat);
    } else if n > 0 {
        lemma_run_grows(lens, (n - 1) as nat, (n - 1) as nat);
    }
}

/// What the chunks of the run at `pos` hold, all together.
fn run_payload(data: &[u8], pos: usize, lens: &Vec<u32>) -> (z: Vec<u8>)
    requires
        pos + run_upto(lens@, lens@.len()) <= data@.len(),
    ensures
        z@ == payload_upto(data@, pos as int, lens@, lens@.len()),
{
    let n: usize = data.len();
    let mut z: Vec<u8> = Vec::new();
    let mut at: usize = pos;
    let mut i: usize = 0;
    assert(z@ =~= payload_upto(data@, pos as int, lens@, 0));
    while i < lens.len()
        invariant
            i <= lens@.len(),
            n == data@.len(),
            pos + run_upto(lens@, lens@.len()) <= n,
            at == pos + run_upto(lens@, i as nat),
            z@ == payload_upto(data@, pos as int, lens@, i as nat),
        decreases lens.len() - i,
    {
        proof {
            lemma_run_grows(lens@, (i + 1) as nat, lens@.len());
            lemma_run_grows(lens@, i as nat, i as nat);
        }
        let end: usize = at + 8 + lens[i] as usize;
        z.extend_from_slice(vstd::slice::slice_subrange(data, at + 8, end));
        at = end + 4;
        i += 1;
        assert(z@ =~= payload_upto(data@, pos as int, lens@, i as nat));
    }
    z
}

/// Whether `z` starts as a zlib stream without a preset dictionary does.
fn starts_zlib(z: &Vec<u8>) -> (r: bool)
    requires
        z@.len() >= 2,
    ensures
        r == is_zlib(z@),
{
    (256 * z[0] as u32 + z[1] as u32) % 31 == 0 && z[0] % 16 == 8 && (z[1] / 32) % 2 == 0
}

/// The image of a run whose payload is `zlib`, out of the stream that was taken
/// apart behind its header; none where the text is not worth it, or the
/// checksum does not follow.
pub fn png_seg(info: &PngInfo, zlib: &Vec<u8>, x: &Inflated) -> (r: Option<PngIdatSeg>)
    requires
        2 + x.size <= zlib@.len(),
    ensures
        match r {
            Some(p) => x.plain@.len() >= MIN_PLAIN && has_trailer(zlib@, x) && p@ == image_of(
                info@,
                zlib@,
                x.plain@,
                x.corrections@,
                x.size as int,
            ),
            None => x.plain@.len() < MIN_PLAIN || !has_trailer(zlib@, x),
        },
{
    let n: usize = zlib.len();
    assert(2 + x.size <= n);
    let body_end: usize = 2 + x.size;
    if x.plain.len() < MIN_PLAIN || !closes_zlib(
        zlib.as_slice(),
        body_end,
        adler32(x.plain.as_slice()),
    ) {
        return None;
    }
    let tail: Vec<u8> = vstd::slice::slice_to_vec(
        vstd::slice::slice_subrange(zlib.as_slice(), body_end + 4, n),
    );
    let mut chunk_lens: Vec<u32> = Vec::new();
    chunk_lens.extend_from_slice(info.chunk_lens.as_slice());
    let seg = PngIdatSeg {
        chunk_lens,
        zlib_header: [zlib[0], zlib[1]],
        tail,
        corrections_len: x.corrections.len() as u64,
        plain_len: x.plain.len() as u64,
        width: info.width,
        height: info.height,
        bit_depth: info.bit_depth,
        color_type: info.color_type,
        pixels: PixelEnc::Filtered,
    };
    proof {
        let i0 = image_of(info@, zlib@, x.plain@, x.corrections@, x.size as int);
        assert(seg@.zlib_header =~= i0.zlib_header);
        assert(seg@.tail =~= i0.tail);
        assert(seg@.chunk_lens =~= i0.chunk_lens);
        assert(seg@ =~= i0);
    }
    Some(seg)
}

/// Whether the checksum of the text follows the stream.
pub open spec fn has_trailer(zlib: Seq<u8>, x: &Inflated) -> bool {
    &&& 2 + x.size + 4 <= zlib.len()
    &&& zlib.subrange(2 + x.size, 2 + x.size + 4) == be_bytes(adler32_of(x.plain@))
}

/// Puts an image into channels, as the pixels it has without its filters.
pub fn store_pixels(seg: PngIdatSeg, filters: Vec<u8>, pixels: Vec<u8>, ch: &mut Channels) -> (r:
    PngIdatSeg)
    ensures
        r@ == (Image {
            pixels: PixelEnc::Unfiltered { blob: old(ch)@.blobs.len() as u32 },
            ..seg@
        }),
        final(ch)@ == old(ch)@.plus_filters(filters@).plus_blob(
            Blob {
                data: pixels@,
                stride: seg@.row_len() as u32,
                bpp: seg@.pixel_len() as u32,
            },
        ),
{
    let ghost ch0 = ch@;
    let ghost f = filters@;
    let mut seg = seg;
    let mut filters = filters;
    let stride: u32 = seg.row_bytes() as u32;
    let bpp: u32 = seg.filter_bpp() as u32;
    let ghost want = ch0.plus_filters(f).plus_blob(Blob { data: pixels@, stride, bpp });
    seg.pixels = PixelEnc::Unfiltered { blob: ch.pixel_blobs.len() as u32 };
    ch.filters.append(&mut filters);
    ch.pixel_blobs.push(PixelBlob { data: pixels, stride, bpp });
    proof {
        assert(ch@.blobs =~= want.blobs);
        assert(ch@ =~= want);
    }
    seg
}

/// Puts the rows of an image into channels: as pixels where those get smaller.
/// With it comes whether an estimate of that was not to be had.
fn store_rows(seg: PngIdatSeg, interlace: u8, plain: &Vec<u8>, ch: &mut Channels) -> (r: (
    PngIdatSeg,
    bool,
))
    requires
        seg.pixels is Filtered,
    ensures
        old(ch)@.grows_to(final(ch)@),
        r.1 ==> scan_starved(),
        exists|unfilter: bool|
            (match unfiltered(seg@, plain@) {
                Some((f, x)) if interlace == 0 => may_choose(plain@, x, unfilter, r.1),
                _ => !unfilter,
            }) && (r.0@, final(ch)@) == #[trigger] stored_image(seg@, plain@, old(ch)@, unfilter),
{
    let ghost ch0 = ch@;
    let ghost i0 = seg@;
    let mut short: bool = false;
    if interlace == 0 {
        match unfilter(&seg, plain.as_slice()) {
            Some((filters, pixels)) => {
                let ghost x = pixels@;
                let (est_f, had_f): (usize, bool) = quick_estimate(plain.as_slice());
                let (est_u, had_u): (usize, bool) = quick_estimate(pixels.as_slice());
                short = !had_f || !had_u;
                assert(may_choose(plain@, x, est_u < est_f, short)) by {
                    assert(is_estimate(plain@, est_f, had_f) && is_estimate(x, est_u, had_u));
                }
                if prefers_pixels(est_f, est_u) {
                    let stored: PngIdatSeg = store_pixels(seg, filters, pixels, ch);
                    proof {
                        let want = stored_image(i0, plain@, ch0, true);
                        assert(ch@ == want.1);
                        assert(stored@ == want.0);
                        assert(ch0.grows_to(ch@));
                    }
                    return (stored, short);
                }
            },
            None => {},
        }
    }
    ch.plain.extend_from_slice(plain.as_slice());
    proof {
        let want = stored_image(i0, plain@, ch0, false);
        assert(ch@ =~= want.1);
        assert(ch0.grows_to(ch@));
    }
    (seg, short)
}

/// What was found: the segment, the bytes it is for, and whether a codec ran
/// short of memory on the way.
pub struct Find {
    pub seg: Seg,
    pub used: usize,
    pub short: bool,
}

/// Takes apart the run of image chunks at `pos`. None where it holds no zlib
/// stream that is worth it; an error where the codec ran short of memory.
fn try_png(info: &PngInfo, data: &[u8], pos: usize, ch: &mut Channels) -> (r: Result<
    Option<Find>,
    preflate_rs::PreflateError,
>)
    requires
        pos <= data@.len(),
    ensures
        old(ch)@.grows_to(final(ch)@),
        match r {
            Ok(Some(f)) => {
                &&& png_there(info@, data@, pos as int)
                &&& f.short ==> scan_starved()
                &&& pos + f.used <= data@.len()
                &&& built_png(
                    info@,
                    data@,
                    pos as int,
                    old(ch)@,
                    piece(f.seg),
                    f.used as int,
                    final(ch)@,
                    f.short,
                )
            },
            Ok(None) => !png_there(info@, data@, pos as int) && final(ch)@ == old(ch)@,
            Err(_) => png_asks(info@, data@, pos as int) && final(ch)@ == old(ch)@ && lead_refused(
                Lead::Png(info@),
                data@,
                pos as int,
            ),
        },
{
    reveal(lead_refused);
    let ghost ch0 = ch@;
    let n: usize = data.len();
    let used: usize = match run_len(&info.chunk_lens, n - pos) {
        Some(l) => l,
        None => return Ok(None),
    };
    let zlib: Vec<u8> = run_payload(data, pos, &info.chunk_lens);
    if zlib.len() < 6 || !starts_zlib(&zlib) {
        return Ok(None);
    }
    let rest: &[u8] = vstd::slice::slice_subrange(zlib.as_slice(), 2, zlib.len());
    assert(rest@ =~= zlib@.skip(2));
    let x: Inflated = match ask_inflate(rest, MAX_CHAIN, PLAIN_LIMIT, true) {
        Ok(Some(x)) => x,
        Ok(None) => return Ok(None),
        Err(e) => return Err(e),
    };
    assert(rest@.take(x.size as int) =~= zlib@.subrange(2, 2 + x.size));
    let seg: PngIdatSeg = match png_seg(info, &zlib, &x) {
        Some(p) => p,
        None => return Ok(None),
    };
    ch.corrections.extend_from_slice(x.corrections.as_slice());
    let plain_len: usize = x.plain.len();
    let corrections_len: usize = x.corrections.len();
    let ghost ch1 = ch@;
    let ghost i0 = image_of(info@, zlib@, x.plain@, x.corrections@, x.size as int);
    proof {
        assert(ch1 =~= ch0.plus_corrections(x.corrections@));
        assert(ch0.grows_to(ch1));
    }
    let (stored, short): (PngIdatSeg, bool) = store_rows(seg, info.interlace, &x.plain, ch);
    proof {
        lemma_grows_trans(ch0, ch1, ch@);
        let unfilter = choose|unfilter: bool|
            (match unfiltered(i0, x.plain@) {
                Some((f, y)) if info.interlace == 0 => may_choose(x.plain@, y, unfilter, short),
                _ => !unfilter,
            }) && (stored@, ch@) == #[trigger] stored_image(i0, x.plain@, ch1, unfilter);
        assert(may_store(info@, i0, x.plain@, unfilter, short));
    }
    Ok(Some(Find { seg: Seg::PngIdat(stored), used, short }))
}

fn find_marker(hay: &[u8], from: usize) -> (r: Option<usize>)
    ensures
        match eoi_from(hay@, from as int) {
            Some(i) => r == Some(i as usize) && from <= i && i + 2 <= hay@.len(),
            None => r is None,
        },
{
    let n: usize = hay.len();
    if n < 2 {
        return None;
    }
    let mut i: usize = from;
    while i <= n - 2
        invariant
            n == hay@.len(),
            2 <= n,
            from <= i,
            eoi_from(hay@, from as int) == eoi_from(hay@, i as int),
        decreases n - i,
    {
        if hay[i] == 0xff && hay[i + 1] == 0xd9 {
            return Some(i);
        }
        i += 1;
    }
    None
}

/// The segment of a JPEG of `len` bytes that was encoded, if that made it
/// smaller.
pub fn jpeg_seg(blob: &Vec<u8>, len: usize) -> (r: Option<Seg>)
    ensures
        match r {
            Some(s) => blob@.len() < len && piece(s) == (Piece::Jpeg {
                lepton_len: blob@.len() as u64,
                orig_len: len as u64,
            }),
            None => blob@.len() >= len,
        },
{
    if blob.len() < len {
        Some(Seg::Jpeg { lepton_len: blob.len() as u64, orig_len: len as u64 })
    } else {
        None
    }
}

/// An end that is tried lies behind where the tries start.
proof fn lemma_try_from(hay: Seq<u8>, from: int, left: int, end: int)
    ensures
        is_try(hay, from, left, end) ==> from < end,
    decreases hay.len() - from,
{
    if left > 0 && 0 <= from < hay.len() {
        if let Some(i) = eoi_from(hay, from) {
            let e = i + 2;
            if from < e <= hay.len() {
                lemma_try_from(hay, e, left - 1, end);
                lemma_try_from(hay, e, left, end);
            }
        }
    }
}

/// What comes of tries that all failed: the codec's error, if there was one.
fn nothing_found(short: Option<lepton_jpeg::LeptonError>) -> (r: Result<
    Option<Find>,
    lepton_jpeg::LeptonError,
>)
    ensures
        match short {
            Some(e) => r == Err::<Option<Find>, lepton_jpeg::LeptonError>(e),
            None => r == Ok::<Option<Find>, lepton_jpeg::LeptonError>(None),
        },
{
    match short {
        Some(e) => Err(e),
        None => Ok(None),
    }
}

/// Takes apart the JPEG at `pos`. It most likely ends at the first
/// end-of-image mark; two more are tried. None where it gets smaller with none
/// of these ends; an error where none was found and the codec ran short of
/// memory on one.
fn try_jpeg(data: &[u8], pos: usize, ch: &mut Channels) -> (r: Result<
    Option<Find>,
    lepton_jpeg::LeptonError,
>)
    requires
        pos <= data@.len(),
    ensures
        old(ch)@.grows_to(final(ch)@),
        match r {
            Ok(Some(f)) => {
                &&& jpeg_there(data@, pos as int)
                &&& f.short ==> scan_starved()
                &&& pos + f.used <= data@.len()
                &&& built_jpeg(
                    data@,
                    pos as int,
                    old(ch)@,
                    piece(f.seg),
                    f.used as int,
                    final(ch)@,
                    f.short,
                )
            },
            Ok(None) => !jpeg_there(data@, pos as int) && final(ch)@ == old(ch)@,
            Err(_) => jpeg_asks(data@, pos as int) && final(ch)@ == old(ch)@ && lead_refused(
                Lead::Jpeg,
                data@,
                pos as int,
            ),
        },
{
    let ghost ch0 = ch@;
    let hay: &[u8] = vstd::slice::slice_subrange(data, pos, data.len());
    assert(hay@ =~= data@.skip(pos as int));
    let n: usize = hay.len();
    if n < MIN_JPEG {
        return Ok(None);
    }
    let mut tries: u32 = 0;
    let mut from: usize = 2;
    let mut short: Option<lepton_jpeg::LeptonError> = None;
    while tries < 3
        invariant
            tries <= 3,
            n == hay@.len(),
            hay@ == data@.skip(pos as int),
            pos <= data@.len(),
            MIN_JPEG <= n,
            2 <= from < n,
            ch@ == ch0,
            ch0 == old(ch)@,
            forall|e: int|
                is_try(hay@, from as int, 3 - tries, e) ==> #[trigger] is_try(hay@, 2, 3, e),
            forall|e: int| #[trigger]
                is_try(hay@, 2, 3, e) && jpeg_pays(hay@, e) && !(short is Some && lepton_refused(
                    hay@.take(e),
                )) ==> is_try(hay@, from as int, 3 - tries, e),
            short is Some ==> jpeg_asks(data@, pos as int) && lead_refused(
                Lead::Jpeg,
                data@,
                pos as int,
            ) && scan_starved(),
        decreases n - from,
    {
        let ghost left = 3 - tries;
        let end: usize = match find_marker(hay, from) {
            Some(i) => i + 2,
            None => return nothing_found(short),
        };
        if end >= MIN_JPEG {
            let slice: &[u8] = vstd::slice::slice_subrange(hay, 0, end);
            assert(slice@ =~= hay@.take(end as int));
            assert(is_try(hay@, from as int, 3 - tries, end as int));
            assert(is_try(hay@, 2, 3, end as int));
            match ask_lepton(slice) {
                Ok(Some(blob)) => match jpeg_seg(&blob, end) {
                    Some(seg) => {
                        ch.lepton.extend_from_slice(blob.as_slice());
                        proof {
                            assert(jpeg_pays(hay@, end as int));
                            assert(ch@ =~= ch0.plus_lepton(blob@));
                            assert forall|e: int| #[trigger]
                                is_try(hay@, 2, 3, e) && jpeg_pays(hay@, e) && !(short is Some
                                    && lepton_refused(hay@.take(e))) implies end <= e by {
                                assert(is_try(hay@, from as int, left, e));
                                lemma_try_from(hay@, end as int, left - 1, e);
                            }
                        }
                        return Ok(Some(Find { seg, used: end, short: short.is_some() }));
                    },
                    None => {},
                },
                Ok(None) => {},
                Err(e) => {
                    assert(lead_refused(Lead::Jpeg, data@, pos as int)) by {
                        reveal(lead_refused);
                    }
                    short = Some(e);
                },
            }
            tries += 1;
        }
        proof {
            assert forall|e: int| #[trigger]
                is_try(hay@, 2, 3, e) && jpeg_pays(hay@, e) && !(short is Some && lepton_refused(
                    hay@.take(e),
                )) implies is_try(hay@, end as int, 3 - tries, e) by {
                assert(is_try(hay@, from as int, left, e));
            }
        }
        from = end;
        if from >= n {
            return nothing_found(short);
        }
    }
    nothing_found(short)
}

/// What ran short of memory.
pub enum Shortage {
    Deflate(preflate_rs::PreflateError),
    Jpeg(lepton_jpeg::LeptonError),
}

/// Takes a candidate apart. None where it is not what it looks like, or not
/// worth it; an error where a codec ran short of memory. Either way the channels
/// may have grown.
fn try_build(cand: &Cand, data: &[u8], pos: usize, depth: u32, ch: &mut Channels) -> (r: Result<
    Option<Find>,
    Shortage,
>)
    requires
        pos <= data@.len(),
    ensures
        old(ch)@.grows_to(final(ch)@),
        match r {
            Ok(Some(f)) => {
                &&& lead_there(cand@, data@, pos as int)
                &&& f.short ==> scan_starved()
                &&& pos + f.used <= data@.len()
                &&& built(
                    cand@,
                    data@,
                    pos as int,
                    depth as int,
                    old(ch)@,
                    piece(f.seg),
                    f.used as int,
                    final(ch)@,
                    f.short,
                )
            },
            Ok(None) => {
                &&& !lead_there(cand@, data@, pos as int)
                &&& lead_left(
                    cand@,
                    data@,
                    pos as int,
                    depth as int,
                    old(ch)@,
                    false,
                    final(ch)@,
                )
            },
            Err(_) => {
                &&& lead_asks(cand@, data@, pos as int)
                &&& lead_refused(cand@, data@, pos as int)
                &&& scan_starved()
                &&& lead_left(cand@, data@, pos as int, depth as int, old(ch)@, true, final(ch)@)
            },
        },
    decreases levels(depth as int), 1nat,
{
    reveal(lead_refused);
    let ghost ch0 = ch@;
    let n: usize = data.len();
    match cand {
        Cand::RawDeflate => {
            match try_deflate(data, pos, depth, ch) {
                Ok(Some((hit, short))) => {
                    let used: usize = hit.deflate_len;
                    Ok(Some(Find { seg: Seg::Deflate(hit.seg), used, short }))
                },
                Ok(None) => Ok(None),
                Err(e) => Err(Shortage::Deflate(e)),
            }
        },
        Cand::Zlib => {
            if n - pos < 2 {
                return Ok(None);
            }
            match try_deflate(data, pos + 2, depth, ch) {
                Ok(Some((hit, short))) => {
                    assert(stream_left(data@, pos + 2, depth as int, ch0, false, ch@));
                    match zlib_seg(data, pos, hit) {
                        Some((seg, used)) => Ok(Some(Find { seg, used, short })),
                        None => Ok(None),
                    }
                },
                Ok(None) => Ok(None),
                Err(e) => Err(Shortage::Deflate(e)),
            }
        },
        Cand::Gzip => {
            let rest: &[u8] = vstd::slice::slice_subrange(data, pos, n);
            assert(rest@ =~= data@.skip(pos as int));
            let h: usize = match gzip_header_len(rest) {
                Some(h) => h,
                None => return Ok(None),
            };
            if h as u64 > u32::MAX as u64 {
                return Ok(None);
            }
            ch.plain.extend_from_slice(vstd::slice::slice_subrange(data, pos, pos + h));
            let ghost ch1 = ch@;
            proof {
                assert(ch1 =~= ch0.plus_plain(data@.subrange(pos as int, pos + h)));
                assert(ch0.grows_to(ch1));
            }
            let hit: Result<Option<(DeflateHit, bool)>, preflate_rs::PreflateError> = try_deflate(
                data,
                pos + h,
                depth,
                ch,
            );
            proof {
                lemma_grows_trans(ch0, ch1, ch@);
                assert(stream_left(data@, pos + h, depth as int, ch1, hit is Err, ch@));
            }
            match hit {
                Ok(Some((hit, short))) => match gzip_seg(data, pos, h, hit) {
                    Some((seg, used)) => Ok(Some(Find { seg, used, short })),
                    None => Ok(None),
                },
                Ok(None) => Ok(None),
                Err(e) => Err(Shortage::Deflate(e)),
            }
        },
        Cand::Png(info) => match try_png(info, data, pos, ch) {
            Ok(found) => Ok(found),
            Err(e) => Err(Shortage::Deflate(e)),
        },
        Cand::Jpeg => match try_jpeg(data, pos, ch) {
            Ok(found) => Ok(found),
            Err(e) => Err(Shortage::Jpeg(e)),
        },
    }
}

/// Keeps the bytes from `from` up to `to` as they are.
fn keep(data: &[u8], from: usize, to: usize, segs: &mut Vec<Seg>, ch: &mut Channels)
    requires
        to <= data@.len(),
    ensures
        ({
            let p = (Progress {
                segs: pieces(old(segs)@),
                ch: old(ch)@,
                at: from as int,
            }).literal(data@, to as int);
            &&& pieces(final(segs)@) == p.segs
            &&& final(ch)@ == p.ch
        }),
        old(segs)@.is_prefix_of(final(segs)@),
        old(ch)@.grows_to(final(ch)@),
{
    let ghost s0 = segs@;
    let ghost ch0 = ch@;
    if to > from {
        ch.plain.extend_from_slice(vstd::slice::slice_subrange(data, from, to));
        let raw = Seg::Raw { len: (to - from) as u64 };
        proof {
            lemma_pieces_push(segs@, raw);
            assert(ch@ =~= ch0.plus_plain(data@.subrange(from as int, to as int)));
            assert(ch0.grows_to(ch@));
        }
        segs.push(raw);
    }
}

/// What follows an attempt at `pos`: a segment that was found is kept and the
/// position goes behind it; where none was, the segments and the channels go
/// back to the mark and the position stays.
pub fn take_or_leave(
    segs: &mut Vec<Seg>,
    ch: &mut Channels,
    mark: Mark,
    at: usize,
    pos: usize,
    found: Option<(Seg, usize)>,
) -> (next: usize)
    requires
        found matches Some((seg, used)) ==> pos + used <= usize::MAX,
        mark.segs <= old(segs)@.len(),
    ensures
        match found {
            Some((seg, used)) => {
                &&& final(segs)@ == old(segs)@.push(seg)
                &&& final(ch)@ == old(ch)@
                &&& next == pos + used
            },
            None => {
                &&& final(segs)@ == old(segs)@.take(mark.segs as int)
                &&& final(ch)@ == old(ch)@.cut(mark)
                &&& next == at
            },
        },
{
    match found {
        Some((seg, used)) => {
            segs.push(seg);
            pos + used
        },
        None => {
            let ghost s0 = segs@;
            ch.rollback(mark);
            segs.truncate(mark.segs);
            assert(segs@ =~= s0.take(mark.segs as int));
            at
        },
    }
}

/// Describes the data in segments, with its payload added to the channels, and
/// says whether a codec ran short of memory on the way: only then may what is
/// there be left as it is.
pub fn scan_bytes(data: &[u8], depth: u32, ch: &mut Channels) -> (r: (Vec<Seg>, bool))
    ensures
        is_plan(data@, depth as int, old(ch)@, pieces(r.0@), final(ch)@, r.1),
        r.1 ==> scan_starved(),
        is_lean(pieces(r.0@)),
        old(ch)@.grows_to(final(ch)@),
    decreases levels(depth as int), 2nat,
{
    let ghost ch0 = ch@;
    let mut short: bool = false;
    let mut segs: Vec<Seg> = Vec::new();
    let mut at: usize = 0;
    let n: usize = data.len();
    let cands: Vec<(usize, Cand)> = collect_candidates(data);
    let mut k: usize = 0;
    proof {
        assert(pieces(segs@) =~= Seq::<Piece>::empty());
        lemma_leads_inside(data@);
    }
    while k < cands.len()
        invariant
            k <= cands@.len(),
            n == data@.len(),
            cands_of(cands@) == leads(data@),
            forall|i: int| 0 <= i < leads(data@).len() ==> 0 <= (#[trigger] leads(data@)[i]).0 < n,
            at <= n,
            ch0 == old(ch)@,
            ch0.grows_to(ch@),
            short ==> scan_starved(),
            planned(
                data@,
                depth as int,
                ch0,
                k as nat,
                Progress { segs: pieces(segs@), ch: ch@, at: at as int },
                short,
            ),
        decreases cands.len() - k,
    {
        let pos: usize = cands[k].0;
        let ghost q = Progress { segs: pieces(segs@), ch: ch@, at: at as int };
        let ghost s0 = segs@;
        let ghost lead = leads(data@)[k as int];
        assert(lead == cands_of(cands@)[k as int]);
        if pos >= at {
            let mark = ch.mark(segs.len());
            keep(data, at, pos, &mut segs, ch);
            let ghost lit = q.literal(data@, pos as int);
            let ghost ch1 = ch@;
            let built: Result<Option<Find>, Shortage> = try_build(
                &cands[k].1,
                data,
                pos,
                depth,
                ch,
            );
            let (found, now_short): (Option<(Seg, usize)>, bool) = match built {
                Ok(Some(f)) => (Some((f.seg, f.used)), f.short),
                Ok(None) => (None, false),
                Err(_) => (None, true),
            };
            let ghost before = short;
            short = short || now_short;
            proof {
                lemma_grows_trans(q.ch, ch1, ch@);
                if found is Some {
                    let seg = found->Some_0.0;
                    lemma_pieces_push(segs@, seg);
                    lemma_grows_trans(ch0, q.ch, ch@);
                    let p = Progress {
                        segs: pieces(segs@.push(seg)),
                        ch: ch@,
                        at: pos + found->Some_0.1,
                    };
                    assert(p.segs.drop_last() =~= lit.segs);
                    if short != now_short {
                        lemma_built_loosen(
                            lead.1,
                            data@,
                            pos as int,
                            depth as int,
                            lit.ch,
                            piece(seg),
                            found->Some_0.1 as int,
                            ch@,
                            now_short,
                        );
                    }
                    assert(stepped(data@, depth as int, lead, q, p, short));
                } else {
                    lemma_rollback(q.ch, ch@, mark);
                    assert(segs@.take(mark.segs as int) =~= s0);
                }
                if short != before {
                    lemma_planned_loosen(data@, depth as int, ch0, k as nat, q, before);
                }
            }
            at = take_or_leave(&mut segs, ch, mark, at, pos, found);
        }
        proof {
            let p = Progress { segs: pieces(segs@), ch: ch@, at: at as int };
            lemma_planned(data@, depth as int, ch0, k as nat, q, p, short);
        }
        k += 1;
    }
    let ghost p = Progress { segs: pieces(segs@), ch: ch@, at: at as int };
    keep(data, at, n, &mut segs, ch);
    proof {
        lemma_is_plan(data@, depth as int, ch0, p, short);
        lemma_plan_lean(data@, depth as int, ch0, pieces(segs@), ch@, short);
        lemma_grows_trans(ch0, p.ch, ch@);
    }
    (segs, short)
}

/// Describes the data in segments, with its payload added to the channels.
pub fn plan_bytes(data: &[u8], depth: u32, ch: &mut Channels) -> (segs: Vec<Seg>)
    ensures
        is_plan(data@, depth as int, old(ch)@, pieces(segs@), final(ch)@, true),
        is_plan(data@, depth as int, old(ch)@, pieces(segs@), final(ch)@, false) || scan_starved(),
        is_lean(pieces(segs@)),
        old(ch)@.grows_to(final(ch)@),
{
    let ghost ch0 = ch@;
    let (segs, short): (Vec<Seg>, bool) = scan_bytes(data, depth, ch);
    proof {
        lemma_plan_loosen(data@, depth as int, ch0, pieces(segs@), ch@, short);
    }
    segs
}

} // verus!
