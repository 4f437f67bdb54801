//! Segments to bytes.

use crate::channels::{in_reach, take, Channels, Cursors, Payload, Places};
use crate::cm::transform::byte_of;
use crate::error::{out_of_memory, same_bytes, Error};
use crate::outside::{crc32, crc32_of, deflate_of, jpeg_of};
use crate::plan::{
    lemma_pieces_upto, piece, pieces, stream, DeflateSeg, Image, Piece, PixelEnc, PngIdatSeg, Seg,
    Stream,
};
use crate::refusal::{ask_deflate, ask_jpeg};
use crate::rebuild::filter::{refilter, refiltered};
use crate::util::checksum::{adler32, adler32_of};
use vstd::prelude::*;

verus! {

/// The four bytes of a number, the highest first.
pub open spec fn be_bytes(x: u32) -> Seq<u8> {
    seq![byte_of(x as int, 3), byte_of(x as int, 2), byte_of(x as int, 1), byte_of(x as int, 0)]
}

/// The same with the lowest first.
pub open spec fn le_bytes(x: u32) -> Seq<u8> {
    seq![byte_of(x as int, 0), byte_of(x as int, 1), byte_of(x as int, 2), byte_of(x as int, 3)]
}

pub fn push_be(out: &mut Vec<u8>, x: u32)
    ensures
        final(out)@ == old(out)@ + be_bytes(x),
{
    let ghost start = out@;
    out.push((x / 0x100_0000 % 256) as u8);
    out.push((x / 0x1_0000 % 256) as u8);
    out.push((x / 256 % 256) as u8);
    out.push((x % 256) as u8);
    assert(out@ =~= start + be_bytes(x));
}

pub fn push_le(out: &mut Vec<u8>, x: u32)
    ensures
        final(out)@ == old(out)@ + le_bytes(x),
{
    let ghost start = out@;
    out.push((x % 256) as u8);
    out.push((x / 256 % 256) as u8);
    out.push((x / 0x1_0000 % 256) as u8);
    out.push((x / 0x100_0000 % 256) as u8);
    assert(out@ =~= start + le_bytes(x));
}

/// The name of the chunks that hold the image.
pub open spec fn idat() -> Seq<u8> {
    seq![0x49u8, 0x44, 0x41, 0x54]
}

/// A chunk: its length, its name, its data, and the checksum of the last two.
pub open spec fn chunk_bytes(data: Seq<u8>) -> Seq<u8> {
    be_bytes(data.len() as u32) + (idat() + data) + be_bytes(crc32_of(idat() + data))
}

/// The sum of the first `n` lengths.
pub open spec fn sum_upto(lens: Seq<u32>, n: nat) -> int
    decreases n,
{
    if n == 0 {
        0
    } else {
        sum_upto(lens, (n - 1) as nat) + lens[n - 1]
    }
}

/// The first `n` chunks that data is split into.
pub open spec fn chunks_upto(lens: Seq<u32>, data: Seq<u8>, n: nat) -> Seq<u8>
    decreases n,
{
    if n == 0 {
        Seq::empty()
    } else {
        chunks_upto(lens, data, (n - 1) as nat) + chunk_bytes(
            data.subrange(sum_upto(lens, (n - 1) as nat), sum_upto(lens, n)),
        )
    }
}

pub open spec fn chunked(lens: Seq<u32>, data: Seq<u8>) -> Seq<u8> {
    chunks_upto(lens, data, lens.len())
}

/// The zlib stream inside the chunks, with what follows it.
pub open spec fn zlib_bytes(p: Image, deflate: Seq<u8>, plain: Seq<u8>) -> Seq<u8> {
    p.zlib_header + deflate + be_bytes(adler32_of(plain)) + p.tail
}

/// The filtered rows of an image, and the places after them.
pub open spec fn image_plain(p: Image, ch: Payload, c: Places) -> Result<(Seq<u8>, Places), Error> {
    match p.pixels {
        PixelEnc::Filtered => if in_reach(ch.plain, c.plain, p.plain_len as int) {
            Ok(
                (
                    ch.plain.subrange(c.plain, c.plain + p.plain_len),
                    Places { plain: c.plain + p.plain_len, ..c },
                ),
            )
        } else {
            Err(Error::PlainUnderrun)
        },
        PixelEnc::Unfiltered { blob } => if !in_reach(ch.filters, c.filters, p.height as int) {
            Err(Error::FiltersUnderrun)
        } else if blob >= ch.blobs.len() {
            Err(Error::MissingBlob(blob))
        } else {
            match refiltered(
                p,
                ch.filters.subrange(c.filters, c.filters + p.height),
                ch.blobs[blob as int].data,
            ) {
                Err(e) => Err(e),
                Ok(s) => Ok((s, Places { filters: c.filters + p.height, ..c })),
            }
        },
    }
}

pub open spec fn rendered_image(p: Image, ch: Payload, c: Places) -> Result<
    (Seq<u8>, Places),
    Error,
> {
    match image_plain(p, ch, c) {
        Err(e) => Err(e),
        Ok((plain, c1)) => if plain.len() != p.plain_len {
            Err(Error::ImagePlainMismatch)
        } else if !in_reach(ch.corrections, c1.corrections, p.corrections_len as int) {
            Err(Error::CorrectionsUnderrun)
        } else {
            let end = c1.corrections + p.corrections_len;
            match deflate_of(plain, ch.corrections.subrange(c1.corrections, end)) {
                None => Err(Error::PreflateFailed),
                Some(body) => match framed_png(p, plain, body) {
                    Err(e) => Err(e),
                    Ok(s) => Ok((s, Places { corrections: end, ..c1 })),
                },
            }
        },
    }
}

pub open spec fn rendered_jpeg(lepton_len: u64, orig_len: u64, ch: Payload, c: Places) -> Result<
    (Seq<u8>, Places),
    Error,
> {
    if !in_reach(ch.lepton, c.lepton, lepton_len as int) {
        Err(Error::LeptonUnderrun)
    } else {
        match jpeg_of(ch.lepton.subrange(c.lepton, c.lepton + lepton_len)) {
            None => Err(Error::LeptonFailed),
            Some(jpeg) => if jpeg.len() != orig_len {
                Err(Error::LeptonLengthMismatch)
            } else {
                Ok((jpeg, Places { lepton: c.lepton + lepton_len, ..c }))
            },
        }
    }
}

/// The deflate stream and the text of a stream, and the places after it.
pub open spec fn rendered_stream(d: Stream, ch: Payload, c: Places) -> Result<
    (Seq<u8>, Seq<u8>, Places),
    Error,
>
    decreases d, 0nat,
{
    if !in_reach(ch.corrections, c.corrections, d.corrections_len as int) {
        Err(Error::CorrectionsUnderrun)
    } else {
        let end = c.corrections + d.corrections_len;
        let corrections = ch.corrections.subrange(c.corrections, end);
        match rendered_upto(d.inner, d.inner.len(), ch, Places { corrections: end, ..c }) {
            Err(e) => Err(e),
            Ok((plain, c1)) => if plain.len() != d.plain_len {
                Err(Error::StreamPlainMismatch { got: plain.len() as u64, want: d.plain_len })
            } else {
                match deflate_of(plain, corrections) {
                    None => Err(Error::PreflateFailed),
                    Some(body) => Ok((body, plain, c1)),
                }
            },
        }
    }
}

/// The bytes of a segment, and the places after it.
pub open spec fn rendered_piece(p: Piece, ch: Payload, c: Places) -> Result<(Seq<u8>, Places), Error>
    decreases p, 0nat,
{
    match p {
        Piece::Raw { len } => if in_reach(ch.plain, c.plain, len as int) {
            Ok((ch.plain.subrange(c.plain, c.plain + len), Places { plain: c.plain + len, ..c }))
        } else {
            Err(Error::PlainUnderrun)
        },
        Piece::Deflate(d) => match rendered_stream(d, ch, c) {
            Err(e) => Err(e),
            Ok((body, plain, c1)) => Ok((body, c1)),
        },
        Piece::Zlib { header, body } => match rendered_stream(body, ch, c) {
            Err(e) => Err(e),
            Ok((bytes, plain, c1)) => Ok((framed_zlib(header, plain, bytes), c1)),
        },
        Piece::Gzip { header_len, body } => if !in_reach(ch.plain, c.plain, header_len as int) {
            Err(Error::PlainUnderrun)
        } else {
            let end = c.plain + header_len;
            match rendered_stream(body, ch, Places { plain: end, ..c }) {
                Err(e) => Err(e),
                Ok((bytes, plain, c1)) => Ok(
                    (framed_gzip(ch.plain.subrange(c.plain, end), plain, bytes), c1),
                ),
            }
        },
        Piece::PngIdat(i) => rendered_image(i, ch, c),
        Piece::Jpeg { lepton_len, orig_len } => rendered_jpeg(lepton_len, orig_len, ch, c),
    }
}

/// The bytes of the first `n` segments, and the places after them.
pub open spec fn rendered_upto(v: Seq<Piece>, n: nat, ch: Payload, c: Places) -> Result<
    (Seq<u8>, Places),
    Error,
>
    decreases v, n,
{
    if n == 0 || n > v.len() {
        Ok((Seq::empty(), c))
    } else {
        match rendered_upto(v, (n - 1) as nat, ch, c) {
            Err(e) => Err(e),
            Ok((s, c1)) => match rendered_piece(v[n - 1], ch, c1) {
                Err(e) => Err(e),
                Ok((t, c2)) => Ok((s + t, c2)),
            },
        }
    }
}

/// The bytes of segments, and the places after them.
pub open spec fn rendered(v: Seq<Piece>, ch: Payload, c: Places) -> Result<(Seq<u8>, Places), Error> {
    rendered_upto(v, v.len(), ch, c)
}

/// What rendering a segment does to its output and its places: all of it, or
/// an error that the segment and the channels have and no output, or, where a
/// codec is asked, want of memory and no output.
pub open spec fn renders(
    r: Result<(), Error>,
    want: Result<(Seq<u8>, Places), Error>,
    asks: bool,
    before: Seq<u8>,
    after: Seq<u8>,
    places: Places,
) -> bool {
    match r {
        Ok(()) => want matches Ok((s, c)) && after == before + s && places == c,
        Err(e) => {
            &&& after == before
            &&& asks && out_of_memory(e) || want == Err::<(Seq<u8>, Places), Error>(e)
        },
    }
}

/// Whether a codec has to be asked for any of the segments.
pub open spec fn asks_codec(v: Seq<Piece>) -> bool {
    exists|i: int| 0 <= i < v.len() && !(#[trigger] v[i] is Raw)
}

/// Whether rendering stopped at segment `k` with the error, and gave the bytes
/// of the segments before it.
pub open spec fn stopped_at(v: Seq<Piece>, k: int, ch: Payload, c: Places, e: Error, s: Seq<u8>) -> bool {
    &&& 0 <= k < v.len()
    &&& rendered_upto(v, k as nat, ch, c) matches Ok((t, c1))
    &&& s == t
    &&& {
        ||| out_of_memory(e) && !(v[k] is Raw)
        ||| rendered_piece(v[k], ch, c1) == Err::<(Seq<u8>, Places), Error>(e)
    }
}

/// What rendering segments does to its output and its places: all of it, or an
/// error that the segments and channels have, or, where a codec is asked, want
/// of memory; either way behind the bytes of the segments before it.
pub open spec fn renders_all(
    r: Result<(), Error>,
    v: Seq<Piece>,
    ch: Payload,
    c: Places,
    before: Seq<u8>,
    after: Seq<u8>,
    places: Places,
) -> bool {
    match r {
        Ok(()) => rendered(v, ch, c) matches Ok((s, c1)) && after == before + s && places == c1,
        Err(e) => {
            &&& asks_codec(v) && out_of_memory(e) || rendered(v, ch, c) == Err::<
                (Seq<u8>, Places),
                Error,
            >(e)
            &&& exists|k: int, s: Seq<u8>| #[trigger]
                stopped_at(v, k, ch, c, e, s) && after == before + s
        },
    }
}

pub proof fn lemma_rendered_err(v: Seq<Piece>, k: nat, n: nat, ch: Payload, c: Places)
    requires
        k <= n <= v.len(),
        rendered_upto(v, k, ch, c) is Err,
    ensures
        rendered_upto(v, n, ch, c) == rendered_upto(v, k, ch, c),
    decreases n,
{
    if k < n {
        lemma_rendered_err(v, k, (n - 1) as nat, ch, c);
    }
}

proof fn lemma_parts_upto(a: Seq<Piece>, b: Seq<Piece>, n: nat, ch: Payload, c: Places)
    requires
        n <= b.len(),
    ensures
        rendered_upto(a + b, a.len() + n, ch, c) == (match rendered(a, ch, c) {
            Err(e) => Err(e),
            Ok((s, c1)) => match rendered_upto(b, n, ch, c1) {
                Err(e) => Err(e),
                Ok((t, c2)) => Ok((s + t, c2)),
            },
        }),
    decreases n,
{
    if n == 0 {
        lemma_part_same(a, b, a.len(), ch, c);
        if let Ok((s, c1)) = rendered(a, ch, c) {
            assert(s + Seq::<u8>::empty() =~= s);
        }
    } else {
        lemma_parts_upto(a, b, (n - 1) as nat, ch, c);
        assert((a + b)[a.len() + n - 1] == b[n - 1]);
        if let Ok((s, c1)) = rendered(a, ch, c) {
            if let Ok((t, c2)) = rendered_upto(b, (n - 1) as nat, ch, c1) {
                if let Ok((u, c3)) = rendered_piece(b[n - 1], ch, c2) {
                    assert((s + t) + u =~= s + (t + u));
                }
            }
        }
    }
}

proof fn lemma_part_same(a: Seq<Piece>, b: Seq<Piece>, n: nat, ch: Payload, c: Places)
    requires
        n <= a.len(),
    ensures
        rendered_upto(a + b, n, ch, c) == rendered_upto(a, n, ch, c),
    decreases n,
{
    if n > 0 {
        lemma_part_same(a, b, (n - 1) as nat, ch, c);
        assert((a + b)[n - 1] == a[n - 1]);
    }
}

/// Segments render as their parts do, one behind the other, and fail where the
/// first part that fails does.
pub proof fn lemma_rendered_parts(a: Seq<Piece>, b: Seq<Piece>, ch: Payload, c: Places)
    ensures
        rendered(a + b, ch, c) == (match rendered(a, ch, c) {
            Err(e) => Err(e),
            Ok((s, c1)) => match rendered(b, ch, c1) {
                Err(e) => Err(e),
                Ok((t, c2)) => Ok((s + t, c2)),
            },
        }),
{
    lemma_parts_upto(a, b, b.len(), ch, c);
}

/// A zlib stream: its header, the deflate stream and the checksum of the text.
pub open spec fn framed_zlib(header: Seq<u8>, plain: Seq<u8>, body: Seq<u8>) -> Seq<u8> {
    header + body + be_bytes(adler32_of(plain))
}

pub fn frame_zlib(header: &[u8; 2], plain: &[u8], body: &[u8]) -> (out: Vec<u8>)
    ensures
        out@ == framed_zlib(header@, plain@, body@),
{
    let mut out: Vec<u8> = Vec::new();
    out.push(header[0]);
    out.push(header[1]);
    out.extend_from_slice(body);
    push_be(&mut out, adler32(plain));
    assert(out@ =~= framed_zlib(header@, plain@, body@));
    out
}

/// A gzip member: its header, the deflate stream, the checksum of the text and
/// its length.
pub open spec fn framed_gzip(header: Seq<u8>, plain: Seq<u8>, body: Seq<u8>) -> Seq<u8> {
    header + body + le_bytes(crc32_of(plain)) + le_bytes((plain.len() % 0x1_0000_0000) as u32)
}

pub fn frame_gzip(header: &[u8], plain: &[u8], body: &[u8]) -> (out: Vec<u8>)
    ensures
        out@ == framed_gzip(header@, plain@, body@),
{
    let size: u32 = (plain.len() as u64 % 0x1_0000_0000) as u32;
    let mut out: Vec<u8> = Vec::new();
    out.extend_from_slice(header);
    out.extend_from_slice(body);
    push_le(&mut out, crc32(plain));
    push_le(&mut out, size);
    assert(out@ =~= framed_gzip(header@, plain@, body@));
    out
}

/// The sum of the lengths, where a `u64` can hold it.
fn sum_lens(lens: &Vec<u32>) -> (r: Option<u64>)
    ensures
        match r {
            Some(n) => n == sum_upto(lens@, lens@.len()),
            None => sum_upto(lens@, lens@.len()) > u64::MAX,
        },
{
    let mut sum: u64 = 0;
    let mut i: usize = 0;
    while i < lens.len()
        invariant
            i <= lens@.len(),
            sum == sum_upto(lens@, i as nat),
        decreases lens.len() - i,
    {
        if sum > u64::MAX - lens[i] as u64 {
            proof {
                lemma_sum_grows(lens@, (i + 1) as nat, lens@.len());
            }
            return None;
        }
        sum = sum + lens[i] as u64;
        i += 1;
    }
    Some(sum)
}

pub proof fn lemma_sum_grows(lens: Seq<u32>, k: nat, n: nat)
    requires
        k <= n,
    ensures
        0 <= sum_upto(lens, k) <= sum_upto(lens, n),
    decreases n,
{
    if k < n {
        lemma_sum_grows(lens, k, (n - 1) as nat);
    } else if n > 0 {
        lemma_sum_grows(lens, (n - 1) as nat, (n - 1) as nat);
    }
}

fn push_chunk(out: &mut Vec<u8>, data: &[u8])
    requires
        data@.len() <= u32::MAX,
    ensures
        final(out)@ == old(out)@ + chunk_bytes(data@),
{
    let ghost start = out@;
    push_be(out, data.len() as u32);
    let mut named: Vec<u8> = Vec::new();
    named.push(0x49);
    named.push(0x44);
    named.push(0x41);
    named.push(0x54);
    named.extend_from_slice(data);
    assert(named@ =~= idat() + data@);
    let crc: u32 = crc32(named.as_slice());
    out.append(&mut named);
    push_be(out, crc);
    assert(out@ =~= start + chunk_bytes(data@));
}

fn push_chunks(out: &mut Vec<u8>, lens: &Vec<u32>, data: &[u8])
    requires
        sum_upto(lens@, lens@.len()) == data@.len(),
    ensures
        final(out)@ == old(out)@ + chunked(lens@, data@),
{
    let ghost start = out@;
    let len: usize = data.len();
    let mut off: usize = 0;
    let mut i: usize = 0;
    assert(out@ =~= start + chunks_upto(lens@, data@, 0));
    while i < lens.len()
        invariant
            i <= lens@.len(),
            len == data@.len(),
            sum_upto(lens@, lens@.len()) == len,
            off == sum_upto(lens@, i as nat),
            out@ == start + chunks_upto(lens@, data@, i as nat),
        decreases lens.len() - i,
    {
        proof {
            lemma_sum_grows(lens@, (i + 1) as nat, lens@.len());
            lemma_sum_grows(lens@, i as nat, i as nat);
        }
        let end: usize = off + lens[i] as usize;
        push_chunk(out, vstd::slice::slice_subrange(data, off, end));
        off = end;
        i += 1;
        assert(out@ =~= start + chunks_upto(lens@, data@, i as nat));
    }
}

impl PngIdatSeg {
    /// The pixels of the image, if it has a blob and the blob is there.
    fn ch_blob<'a>(&self, ch: &'a Channels) -> (r: Option<&'a [u8]>)
        ensures
            match self.pixels {
                PixelEnc::Unfiltered { blob } => if blob < ch@.blobs.len() {
                    r matches Some(s) && s@ == ch@.blobs[blob as int].data
                } else {
                    r is None
                },
                PixelEnc::Filtered => r is None,
            },
    {
        match self.pixels {
            PixelEnc::Unfiltered { blob } => {
                if (blob as u64) < ch.pixel_blobs.len() as u64 {
                    Some(ch.pixel_blobs[blob as usize].data.as_slice())
                } else {
                    None
                }
            },
            PixelEnc::Filtered => None,
        }
    }
}

/// The filtered rows of an image.
fn render_plain(p: &PngIdatSeg, cur: &mut Cursors) -> (r: Result<Vec<u8>, Error>)
    ensures
        *final(cur).ch == *old(cur).ch,
        match image_plain(p@, old(cur).ch@, old(cur)@) {
            Ok((s, c)) => r matches Ok(v) && v@ == s && final(cur)@ == c,
            Err(e) => r == Err::<Vec<u8>, Error>(e),
        },
{
    let ch = cur.ch;
    match p.pixels {
        PixelEnc::Filtered => {
            match take(ch.plain.as_slice(), &mut cur.plain, p.plain_len, Error::PlainUnderrun) {
                Ok(s) => Ok(vstd::slice::slice_to_vec(s)),
                Err(e) => Err(e),
            }
        },
        PixelEnc::Unfiltered { blob } => {
            let filters: &[u8] = match take(
                ch.filters.as_slice(),
                &mut cur.filters,
                p.height as u64,
                Error::FiltersUnderrun,
            ) {
                Ok(s) => s,
                Err(e) => return Err(e),
            };
            match p.ch_blob(ch) {
                Some(pixels) => refilter(p, filters, pixels),
                None => Err(Error::MissingBlob(blob)),
            }
        },
    }
}

/// The chunks of an image, out of its rows and the deflate stream that was
/// recreated from them.
pub open spec fn framed_png(p: Image, plain: Seq<u8>, body: Seq<u8>) -> Result<Seq<u8>, Error> {
    let zlib = zlib_bytes(p, body, plain);
    if sum_upto(p.chunk_lens, p.chunk_lens.len()) != zlib.len() {
        Err(Error::ChunkLengthsMismatch)
    } else {
        Ok(chunked(p.chunk_lens, zlib))
    }
}

pub fn frame_png(p: &PngIdatSeg, plain: &[u8], body: &[u8]) -> (r: Result<Vec<u8>, Error>)
    ensures
        same_bytes(r, framed_png(p@, plain@, body@)),
{
    let mut zlib: Vec<u8> = frame_zlib(&p.zlib_header, plain, body);
    zlib.extend_from_slice(p.tail.as_slice());
    assert(zlib@ =~= zlib_bytes(p@, body@, plain@));
    let zlib_len: u64 = zlib.len() as u64;
    let whole: bool = match sum_lens(&p.chunk_lens) {
        Some(total) => total == zlib_len,
        None => false,
    };
    if !whole {
        return Err(Error::ChunkLengthsMismatch);
    }
    let mut out: Vec<u8> = Vec::new();
    push_chunks(&mut out, &p.chunk_lens, zlib.as_slice());
    assert(out@ =~= chunked(p.chunk_lens@, zlib@));
    Ok(out)
}

fn render_png(p: &PngIdatSeg, cur: &mut Cursors, out: &mut Vec<u8>) -> (r: Result<(), Error>)
    ensures
        *final(cur).ch == *old(cur).ch,
        renders(
            r,
            rendered_image(p@, old(cur).ch@, old(cur)@),
            true,
            old(out)@,
            final(out)@,
            final(cur)@,
        ),
{
    let plain: Vec<u8> = match render_plain(p, cur) {
        Ok(v) => v,
        Err(e) => return Err(e),
    };
    if plain.len() as u64 != p.plain_len {
        return Err(Error::ImagePlainMismatch);
    }
    let ch = cur.ch;
    let corrections: &[u8] = match take(
        ch.corrections.as_slice(),
        &mut cur.corrections,
        p.corrections_len,
        Error::CorrectionsUnderrun,
    ) {
        Ok(s) => s,
        Err(e) => return Err(e),
    };
    let body: Vec<u8> = match ask_deflate(plain.as_slice(), corrections) {
        Ok(Some(v)) => v,
        Ok(None) => return Err(Error::PreflateFailed),
        Err(_) => return Err(Error::OutOfMemory),
    };
    match frame_png(p, plain.as_slice(), body.as_slice()) {
        Ok(mut chunks) => {
            out.append(&mut chunks);
            Ok(())
        },
        Err(e) => Err(e),
    }
}

pub fn render_segs(segs: &[Seg], cur: &mut Cursors, out: &mut Vec<u8>) -> (r: Result<(), Error>)
    ensures
        *final(cur).ch == *old(cur).ch,
        renders_all(
            r,
            pieces(segs@),
            old(cur).ch@,
            old(cur)@,
            old(out)@,
            final(out)@,
            final(cur)@,
        ),
    decreases segs@, 1nat,
{
    let ghost v = pieces(segs@);
    let ghost ch = cur.ch@;
    let ghost c0 = cur@;
    let ghost start = out@;
    proof {
        lemma_pieces_upto(segs@, segs@.len());
    }
    let mut i: usize = 0;
    assert(out@ =~= start + Seq::<u8>::empty());
    while i < segs.len()
        invariant
            i <= segs@.len(),
            v == pieces(segs@),
            v.len() == segs@.len(),
            forall|k: int| 0 <= k < v.len() ==> #[trigger] v[k] == piece(segs@[k]),
            *cur.ch == *old(cur).ch,
            ch == old(cur).ch@,
            c0 == old(cur)@,
            start == old(out)@,
            rendered_upto(v, i as nat, ch, c0) matches Ok((s, c)) && out@ == start + s && cur@ == c,
        decreases segs.len() - i,
    {
        let ghost before = out@;
        assert(v[i as int] == piece(segs@[i as int]));
        match render_seg(&segs[i], cur, out) {
            Ok(()) => {
                proof {
                    let s = rendered_upto(v, i as nat, ch, c0)->Ok_0.0;
                    let t = rendered_upto(v, (i + 1) as nat, ch, c0)->Ok_0.0;
                    assert(out@ =~= start + t);
                }
            },
            Err(e) => {
                proof {
                    let (s, c) = rendered_upto(v, i as nat, ch, c0)->Ok_0;
                    if rendered_piece(v[i as int], ch, c) is Err {
                        lemma_rendered_err(v, (i + 1) as nat, v.len(), ch, c0);
                    }
                    assert(stopped_at(v, i as int, ch, c0, e, s));
                }
                return Err(e);
            },
        }
        i += 1;
    }
    Ok(())
}

/// The deflate stream and the text of a stream.
fn render_deflate(d: &DeflateSeg, cur: &mut Cursors) -> (r: Result<(Vec<u8>, Vec<u8>), Error>)
    ensures
        *final(cur).ch == *old(cur).ch,
        match r {
            Ok((body, plain)) => rendered_stream(stream(*d), old(cur).ch@, old(cur)@) == Ok::<
                (Seq<u8>, Seq<u8>, Places),
                Error,
            >((body@, plain@, final(cur)@)),
            Err(e) => out_of_memory(e) || rendered_stream(stream(*d), old(cur).ch@, old(cur)@)
                == Err::<(Seq<u8>, Seq<u8>, Places), Error>(e),
        },
    decreases *d, 2nat,
{
    proof {
        lemma_pieces_upto(d.inner@, d.inner@.len());
    }
    let ch = cur.ch;
    let corrections: &[u8] = match take(
        ch.corrections.as_slice(),
        &mut cur.corrections,
        d.corrections_len,
        Error::CorrectionsUnderrun,
    ) {
        Ok(s) => s,
        Err(e) => return Err(e),
    };
    let mut plain: Vec<u8> = Vec::new();
    match render_segs(d.inner.as_slice(), cur, &mut plain) {
        Ok(()) => {},
        Err(e) => return Err(e),
    }
    proof {
        let want = rendered(stream(*d).inner, ch@, Places {
            corrections: old(cur).corrections + d.corrections_len,
            ..old(cur)@
        });
        assert(plain@ =~= want->Ok_0.0);
    }
    if plain.len() as u64 != d.plain_len {
        return Err(Error::StreamPlainMismatch { got: plain.len() as u64, want: d.plain_len });
    }
    match ask_deflate(plain.as_slice(), corrections) {
        Ok(Some(body)) => Ok((body, plain)),
        Ok(None) => Err(Error::PreflateFailed),
        Err(_) => Err(Error::OutOfMemory),
    }
}

fn render_jpeg(lepton_len: u64, orig_len: u64, cur: &mut Cursors, out: &mut Vec<u8>) -> (r: Result<
    (),
    Error,
>)
    ensures
        *final(cur).ch == *old(cur).ch,
        renders(
            r,
            rendered_jpeg(lepton_len, orig_len, old(cur).ch@, old(cur)@),
            true,
            old(out)@,
            final(out)@,
            final(cur)@,
        ),
{
    let ch = cur.ch;
    let blob: &[u8] = match take(
        ch.lepton.as_slice(),
        &mut cur.lepton,
        lepton_len,
        Error::LeptonUnderrun,
    ) {
        Ok(s) => s,
        Err(e) => return Err(e),
    };
    let mut jpeg: Vec<u8> = match ask_jpeg(blob) {
        Ok(Some(v)) => v,
        Ok(None) => return Err(Error::LeptonFailed),
        Err(_) => return Err(Error::OutOfMemory),
    };
    if jpeg.len() as u64 != orig_len {
        return Err(Error::LeptonLengthMismatch);
    }
    out.append(&mut jpeg);
    Ok(())
}

fn render_seg(seg: &Seg, cur: &mut Cursors, out: &mut Vec<u8>) -> (r: Result<(), Error>)
    ensures
        *final(cur).ch == *old(cur).ch,
        renders(
            r,
            rendered_piece(piece(*seg), old(cur).ch@, old(cur)@),
            !(piece(*seg) is Raw),
            old(out)@,
            final(out)@,
            final(cur)@,
        ),
    decreases *seg, 0nat,
{
    let ghost start = out@;
    let ghost want = rendered_piece(piece(*seg), cur.ch@, cur@);
    match seg {
        Seg::Raw { len } => {
            let ch = cur.ch;
            match take(ch.plain.as_slice(), &mut cur.plain, *len, Error::PlainUnderrun) {
                Ok(s) => {
                    out.extend_from_slice(s);
                    assert(out@ =~= start + s@);
                },
                Err(e) => return Err(e),
            }
        },
        Seg::Deflate(d) => {
            match render_deflate(d, cur) {
                Ok((body, _plain)) => {
                    out.extend_from_slice(body.as_slice());
                    assert(out@ =~= start + body@);
                },
                Err(e) => return Err(e),
            }
        },
        Seg::Zlib { header, body } => {
            match render_deflate(body, cur) {
                Ok((bytes, plain)) => {
                    let mut zlib: Vec<u8> = frame_zlib(
                        header,
                        plain.as_slice(),
                        bytes.as_slice(),
                    );
                    out.append(&mut zlib);
                },
                Err(e) => return Err(e),
            }
        },
        Seg::Gzip { header_len, body } => {
            let ch = cur.ch;
            let header: &[u8] = match take(
                ch.plain.as_slice(),
                &mut cur.plain,
                *header_len as u64,
                Error::PlainUnderrun,
            ) {
                Ok(s) => s,
                Err(e) => return Err(e),
            };
            match render_deflate(body, cur) {
                Ok((bytes, plain)) => {
                    let mut gzip: Vec<u8> = frame_gzip(
                        header,
                        plain.as_slice(),
                        bytes.as_slice(),
                    );
                    out.append(&mut gzip);
                },
                Err(e) => return Err(e),
            }
        },
        Seg::PngIdat(p) => return render_png(p, cur, out),
        Seg::Jpeg { lepton_len, orig_len } => return render_jpeg(
            *lepton_len,
            *orig_len,
            cur,
            out,
        ),
    }
    Ok(())
}

} // verus!
