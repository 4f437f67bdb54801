//! How segments are written.

use crate::plan::{
    lemma_pieces_upto, piece, pieces, stream, DeflateSeg, Image, Piece, PixelEnc, PngIdatSeg, Seg,
    Stream,
};
use crate::util::varint::{varint_bytes, write_varint};
use vstd::prelude::*;

verus! {

pub const TAG_RAW: u8 = 0;

pub const TAG_DEFLATE: u8 = 1;

pub const TAG_ZLIB: u8 = 2;

pub const TAG_GZIP: u8 = 3;

pub const TAG_PNG: u8 = 4;

pub const TAG_JPEG: u8 = 5;

/// The numbers of the first `n` chunks.
pub open spec fn lens_bytes(v: Seq<u32>, n: nat) -> Seq<u8>
    decreases n,
{
    if n == 0 {
        Seq::empty()
    } else {
        lens_bytes(v, (n - 1) as nat) + varint_bytes(v[n - 1] as nat)
    }
}

pub open spec fn pixels_bytes(p: PixelEnc) -> Seq<u8> {
    match p {
        PixelEnc::Filtered => seq![0u8],
        PixelEnc::Unfiltered { blob } => seq![1u8] + varint_bytes(blob as nat),
    }
}

/// The chunks of an image, its zlib header and its tail.
pub open spec fn frame_bytes(p: Image) -> Seq<u8> {
    varint_bytes(p.chunk_lens.len()) + lens_bytes(p.chunk_lens, p.chunk_lens.len()) + p.zlib_header
        + varint_bytes(p.tail.len()) + p.tail
}

/// The lengths and the shape of an image.
pub open spec fn shape_bytes(p: Image) -> Seq<u8> {
    varint_bytes(p.corrections_len as nat) + varint_bytes(p.plain_len as nat) + varint_bytes(
        p.width as nat,
    ) + varint_bytes(p.height as nat) + seq![p.bit_depth, p.color_type] + pixels_bytes(p.pixels)
}

pub open spec fn image_bytes(p: Image) -> Seq<u8> {
    frame_bytes(p) + shape_bytes(p)
}

pub open spec fn piece_bytes(s: Piece) -> Seq<u8>
    decreases s, 0nat,
{
    match s {
        Piece::Raw { len } => seq![TAG_RAW] + varint_bytes(len as nat),
        Piece::Deflate(d) => seq![TAG_DEFLATE] + stream_bytes(d),
        Piece::Zlib { header, body } => seq![TAG_ZLIB] + header + stream_bytes(body),
        Piece::Gzip { header_len, body } => seq![TAG_GZIP] + varint_bytes(header_len as nat)
            + stream_bytes(body),
        Piece::PngIdat(p) => seq![TAG_PNG] + image_bytes(p),
        Piece::Jpeg { lepton_len, orig_len } => seq![TAG_JPEG] + varint_bytes(lepton_len as nat)
            + varint_bytes(orig_len as nat),
    }
}

pub open spec fn stream_bytes(d: Stream) -> Seq<u8>
    decreases d, 0nat,
{
    varint_bytes(d.corrections_len as nat) + varint_bytes(d.plain_len as nat) + (varint_bytes(
        d.inner.len(),
    ) + list_bytes(d.inner, d.inner.len()))
}

/// The bytes of the first `n` pieces.
pub open spec fn list_bytes(v: Seq<Piece>, n: nat) -> Seq<u8>
    decreases v, n,
{
    if n == 0 || n > v.len() {
        Seq::empty()
    } else {
        list_bytes(v, (n - 1) as nat) + piece_bytes(v[n - 1])
    }
}

/// How a list of pieces is written: its length, then each.
pub open spec fn pieces_bytes(v: Seq<Piece>) -> Seq<u8> {
    varint_bytes(v.len()) + list_bytes(v, v.len())
}

fn write_lens(out: &mut Vec<u8>, v: &Vec<u32>)
    ensures
        final(out)@ == old(out)@ + lens_bytes(v@, v@.len()),
{
    let ghost start = out@;
    let mut i: usize = 0;
    assert(out@ =~= start + lens_bytes(v@, 0));
    while i < v.len()
        invariant
            i <= v@.len(),
            out@ == start + lens_bytes(v@, i as nat),
        decreases v.len() - i,
    {
        write_varint(out, v[i] as u64);
        i += 1;
        assert(out@ =~= start + lens_bytes(v@, i as nat));
    }
}

fn write_frame(out: &mut Vec<u8>, p: &PngIdatSeg)
    ensures
        final(out)@ == old(out)@ + frame_bytes(p@),
{
    let ghost start = out@;
    write_varint(out, p.chunk_lens.len() as u64);
    write_lens(out, &p.chunk_lens);
    out.push(p.zlib_header[0]);
    out.push(p.zlib_header[1]);
    write_varint(out, p.tail.len() as u64);
    out.extend_from_slice(p.tail.as_slice());
    assert(out@ =~= start + frame_bytes(p@));
}

fn write_pixels(out: &mut Vec<u8>, p: PixelEnc)
    ensures
        final(out)@ == old(out)@ + pixels_bytes(p),
{
    let ghost start = out@;
    match p {
        PixelEnc::Filtered => out.push(0),
        PixelEnc::Unfiltered { blob } => {
            out.push(1);
            write_varint(out, blob as u64);
        },
    }
    assert(out@ =~= start + pixels_bytes(p));
}

fn write_image(out: &mut Vec<u8>, p: &PngIdatSeg)
    ensures
        final(out)@ == old(out)@ + image_bytes(p@),
{
    let ghost start = out@;
    write_frame(out, p);
    write_varint(out, p.corrections_len);
    write_varint(out, p.plain_len);
    write_varint(out, p.width as u64);
    write_varint(out, p.height as u64);
    out.push(p.bit_depth);
    out.push(p.color_type);
    write_pixels(out, p.pixels);
    assert(out@ =~= start + image_bytes(p@));
}

pub fn write_segs(out: &mut Vec<u8>, segs: &[Seg])
    ensures
        final(out)@ == old(out)@ + pieces_bytes(pieces(segs@)),
    decreases segs@, 1nat,
{
    let ghost start = out@;
    let ghost v = pieces(segs@);
    proof {
        lemma_pieces_upto(segs@, segs@.len());
    }
    write_varint(out, segs.len() as u64);
    let mut i: usize = 0;
    assert(out@ =~= start + varint_bytes(v.len()) + list_bytes(v, 0));
    while i < segs.len()
        invariant
            i <= segs@.len(),
            v == pieces(segs@),
            v.len() == segs@.len(),
            out@ == start + varint_bytes(v.len()) + list_bytes(v, i as nat),
        decreases segs.len() - i,
    {
        let ghost before = out@;
        assert(segs@[i as int] == segs@[i as int]);
        write_seg(out, &segs[i]);
        proof {
            lemma_pieces_upto(segs@, segs@.len());
            assert(v[i as int] == piece(segs@[i as int]));
        }
        i += 1;
        assert(out@ =~= start + varint_bytes(v.len()) + list_bytes(v, i as nat));
    }
    assert(out@ =~= start + pieces_bytes(v));
}

fn write_deflate_body(out: &mut Vec<u8>, d: &DeflateSeg)
    ensures
        final(out)@ == old(out)@ + stream_bytes(stream(*d)),
    decreases *d, 2nat,
{
    let ghost start = out@;
    proof {
        lemma_pieces_upto(d.inner@, d.inner@.len());
    }
    write_varint(out, d.corrections_len);
    write_varint(out, d.plain_len);
    write_segs(out, d.inner.as_slice());
    assert(out@ =~= start + stream_bytes(stream(*d)));
}

fn write_seg(out: &mut Vec<u8>, seg: &Seg)
    ensures
        final(out)@ == old(out)@ + piece_bytes(piece(*seg)),
    decreases *seg, 0nat,
{
    let ghost start = out@;
    match seg {
        Seg::Raw { len } => {
            out.push(TAG_RAW);
            write_varint(out, *len);
        },
        Seg::Deflate(d) => {
            out.push(TAG_DEFLATE);
            write_deflate_body(out, d);
        },
        Seg::Zlib { header, body } => {
            out.push(TAG_ZLIB);
            out.push(header[0]);
            out.push(header[1]);
            write_deflate_body(out, body);
        },
        Seg::Gzip { header_len, body } => {
            out.push(TAG_GZIP);
            write_varint(out, *header_len as u64);
            write_deflate_body(out, body);
        },
        Seg::PngIdat(p) => {
            out.push(TAG_PNG);
            write_image(out, p);
        },
        Seg::Jpeg { lepton_len, orig_len } => {
            out.push(TAG_JPEG);
            write_varint(out, *lepton_len);
            write_varint(out, *orig_len);
        },
    }
    assert(out@ =~= start + piece_bytes(piece(*seg)));
}

} // verus!
