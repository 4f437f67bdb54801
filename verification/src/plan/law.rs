//! Reading segments gives back what was written.

use crate::error::Error;
use crate::plan::read::{
    image_at, lens_at, list_at, piece_at, pieces_at, pixels_at, shape_at, stream_at, MAX_CHUNKS,
    MAX_SEGS,
};
use crate::plan::write::{
    image_bytes, lens_bytes, list_bytes, piece_bytes, pieces_bytes, pixels_bytes, shape_bytes,
    stream_bytes,
};
use crate::plan::{Image, Piece, PixelEnc, Stream};
use crate::util::reader::bytes_at;
use crate::util::varint::{lemma_varint_read, varint_at, varint_bytes};
use vstd::prelude::*;

verus! {

/// Whether a reader takes a segment: its headers have two bytes, and its lists
/// are no longer than a reader allows.
pub open spec fn readable(p: Piece) -> bool
    decreases p, 0nat,
{
    match p {
        Piece::Raw { len } => true,
        Piece::Deflate(d) => readable_stream(d),
        Piece::Zlib { header, body } => header.len() == 2 && readable_stream(body),
        Piece::Gzip { header_len, body } => readable_stream(body),
        Piece::PngIdat(i) => i.zlib_header.len() == 2 && i.chunk_lens.len() <= MAX_CHUNKS
            && i.tail.len() <= u64::MAX,
        Piece::Jpeg { lepton_len, orig_len } => true,
    }
}

pub open spec fn readable_stream(d: Stream) -> bool
    decreases d, 0nat,
{
    d.inner.len() <= MAX_SEGS && readable_upto(d.inner, d.inner.len())
}

pub open spec fn readable_upto(v: Seq<Piece>, n: nat) -> bool
    decreases v, n,
{
    if n == 0 || n > v.len() {
        true
    } else {
        readable_upto(v, (n - 1) as nat) && readable(v[n - 1])
    }
}

pub open spec fn readable_list(v: Seq<Piece>) -> bool {
    v.len() <= MAX_SEGS && readable_upto(v, v.len())
}

/// Whether `t` stands in `s` from `pos` on.
pub open spec fn stands(s: Seq<u8>, pos: int, t: Seq<u8>) -> bool {
    &&& 0 <= pos
    &&& pos + t.len() <= s.len()
    &&& s.subrange(pos, pos + t.len()) == t
}

pub proof fn lemma_stands(s: Seq<u8>, pos: int, a: Seq<u8>, b: Seq<u8>)
    requires
        stands(s, pos, a + b),
    ensures
        stands(s, pos, a),
        stands(s, pos + a.len(), b),
{
    let t = s.subrange(pos, pos + a.len() + b.len());
    assert(s.subrange(pos, pos + a.len()) =~= t.subrange(0, a.len() as int));
    assert(t.subrange(0, a.len() as int) =~= a);
    assert(s.subrange(pos + a.len(), pos + a.len() + b.len()) =~= t.subrange(
        a.len() as int,
        (a.len() + b.len()) as int,
    ));
    assert(t.subrange(a.len() as int, (a.len() + b.len()) as int) =~= b);
}

pub proof fn lemma_number(s: Seq<u8>, pos: int, v: u64, rest: Seq<u8>)
    requires
        stands(s, pos, varint_bytes(v as nat) + rest),
    ensures
        varint_at(s, pos) == Ok::<(u64, int), Error>((v, pos + varint_bytes(v as nat).len())),
        stands(s, pos + varint_bytes(v as nat).len(), rest),
{
    lemma_stands(s, pos, varint_bytes(v as nat), rest);
    lemma_varint_read(s, pos, v);
}

pub proof fn lemma_first_byte(s: Seq<u8>, pos: int, b: u8, rest: Seq<u8>)
    requires
        stands(s, pos, seq![b] + rest),
    ensures
        pos < s.len(),
        s[pos] == b,
        stands(s, pos + 1, rest),
{
    lemma_stands(s, pos, seq![b], rest);
    assert(s.subrange(pos, pos + 1)[0] == b);
}

pub proof fn lemma_two(s: Seq<u8>, pos: int, h: Seq<u8>, rest: Seq<u8>)
    requires
        stands(s, pos, h + rest),
    ensures
        bytes_at(s, pos, h.len() as int) == Ok::<(Seq<u8>, int), Error>((h, pos + h.len())),
        stands(s, pos + h.len(), rest),
{
    lemma_stands(s, pos, h, rest);
}

proof fn lemma_lens_read(v: Seq<u32>, n: nat, s: Seq<u8>, pos: int)
    requires
        n <= v.len(),
        stands(s, pos, lens_bytes(v, n)),
    ensures
        lens_at(s, pos, n) == Ok::<(Seq<u32>, int), Error>((v.take(n as int), pos + lens_bytes(v, n).len())),
    decreases n,
{
    if n == 0 {
        assert(v.take(0) =~= Seq::<u32>::empty());
    } else {
        let a = lens_bytes(v, (n - 1) as nat);
        let b = varint_bytes(v[n - 1] as nat);
        lemma_stands(s, pos, a, b);
        lemma_lens_read(v, (n - 1) as nat, s, pos);
        lemma_varint_read(s, pos + a.len(), v[n - 1] as u64);
        assert(v.take(n - 1).push(v[n - 1]) =~= v.take(n as int));
    }
}

proof fn lemma_pixels_read(p: PixelEnc, s: Seq<u8>, pos: int)
    requires
        stands(s, pos, pixels_bytes(p)),
    ensures
        pixels_at(s, pos) == Ok::<(PixelEnc, int), Error>((p, pos + pixels_bytes(p).len())),
{
    match p {
        PixelEnc::Filtered => {
            assert(seq![0u8] =~= seq![0u8] + Seq::<u8>::empty());
            lemma_first_byte(s, pos, 0, Seq::empty());
        },
        PixelEnc::Unfiltered { blob } => {
            lemma_first_byte(s, pos, 1, varint_bytes(blob as nat));
            lemma_varint_read(s, pos + 1, blob as u64);
        },
    }
}

proof fn lemma_shape_read(i: Image, s: Seq<u8>, pos: int)
    requires
        stands(s, pos, shape_bytes(i)),
    ensures
        shape_at(s, pos, i.chunk_lens, i.zlib_header, i.tail) == Ok::<(Image, int), Error>(
            (i, pos + shape_bytes(i).len()),
        ),
{
    let a = varint_bytes(i.corrections_len as nat);
    let b = varint_bytes(i.plain_len as nat);
    let c = varint_bytes(i.width as nat);
    let d = varint_bytes(i.height as nat);
    let e = pixels_bytes(i.pixels);
    let r6 = seq![i.color_type] + e;
    let r5 = seq![i.bit_depth] + r6;
    let r4 = d + r5;
    let r3 = c + r4;
    let r2 = b + r3;
    assert(shape_bytes(i) =~= a + r2);
    lemma_number(s, pos, i.corrections_len, r2);
    let p1 = pos + a.len();
    lemma_number(s, p1, i.plain_len, r3);
    let p2 = p1 + b.len();
    lemma_number(s, p2, i.width as u64, r4);
    let p3 = p2 + c.len();
    lemma_number(s, p3, i.height as u64, r5);
    let p4 = p3 + d.len();
    lemma_first_byte(s, p4, i.bit_depth, r6);
    lemma_first_byte(s, p4 + 1, i.color_type, e);
    lemma_pixels_read(i.pixels, s, p4 + 2);
}

proof fn lemma_image_read(i: Image, s: Seq<u8>, pos: int)
    requires
        readable(Piece::PngIdat(i)),
        stands(s, pos, image_bytes(i)),
    ensures
        image_at(s, pos) == Ok::<(Image, int), Error>((i, pos + image_bytes(i).len())),
{
    let n = varint_bytes(i.chunk_lens.len());
    let l = lens_bytes(i.chunk_lens, i.chunk_lens.len());
    let t = varint_bytes(i.tail.len());
    let r5 = shape_bytes(i);
    let r4 = i.tail + r5;
    let r3 = t + r4;
    let r2 = i.zlib_header + r3;
    let r1 = l + r2;
    assert(image_bytes(i) =~= n + r1);
    lemma_number(s, pos, i.chunk_lens.len() as u64, r1);
    let p1 = pos + n.len();
    lemma_stands(s, p1, l, r2);
    lemma_lens_read(i.chunk_lens, i.chunk_lens.len(), s, p1);
    assert(i.chunk_lens.take(i.chunk_lens.len() as int) =~= i.chunk_lens);
    let p2 = p1 + l.len();
    lemma_two(s, p2, i.zlib_header, r3);
    let p3 = p2 + 2;
    lemma_number(s, p3, i.tail.len() as u64, r4);
    let p4 = p3 + t.len();
    lemma_two(s, p4, i.tail, r5);
    lemma_shape_read(i, s, p4 + i.tail.len());
}

#[verifier::rlimit(60)]
#[verifier::spinoff_prover]
proof fn lemma_piece_read(p: Piece, s: Seq<u8>, pos: int)
    requires
        readable(p),
        stands(s, pos, piece_bytes(p)),
    ensures
        piece_at(s, pos) == Ok::<(Piece, int), Error>((p, pos + piece_bytes(p).len())),
    decreases p, 0nat,
{
    match p {
        Piece::Raw { len } => {
            lemma_first_byte(s, pos, 0, varint_bytes(len as nat));
            lemma_varint_read(s, pos + 1, len);
        },
        Piece::Deflate(d) => {
            lemma_first_byte(s, pos, 1, stream_bytes(d));
            lemma_stream_read(d, s, pos + 1);
        },
        Piece::Zlib { header, body } => {
            assert(piece_bytes(p) =~= seq![2u8] + (header + stream_bytes(body)));
            lemma_first_byte(s, pos, 2, header + stream_bytes(body));
            lemma_two(s, pos + 1, header, stream_bytes(body));
            lemma_stream_read(body, s, pos + 3);
        },
        Piece::Gzip { header_len, body } => {
            let h = varint_bytes(header_len as nat);
            assert(piece_bytes(p) =~= seq![3u8] + (h + stream_bytes(body)));
            lemma_first_byte(s, pos, 3, h + stream_bytes(body));
            lemma_number(s, pos + 1, header_len as u64, stream_bytes(body));
            lemma_stream_read(body, s, pos + 1 + h.len());
        },
        Piece::PngIdat(i) => {
            lemma_first_byte(s, pos, 4, image_bytes(i));
            lemma_image_read(i, s, pos + 1);
        },
        Piece::Jpeg { lepton_len, orig_len } => {
            let a = varint_bytes(lepton_len as nat);
            let b = varint_bytes(orig_len as nat);
            assert(piece_bytes(p) =~= seq![5u8] + (a + b));
            lemma_first_byte(s, pos, 5, a + b);
            lemma_number(s, pos + 1, lepton_len, b);
            lemma_varint_read(s, pos + 1 + a.len(), orig_len);
        },
    }
}

proof fn lemma_stream_read(d: Stream, s: Seq<u8>, pos: int)
    requires
        readable_stream(d),
        stands(s, pos, stream_bytes(d)),
    ensures
        stream_at(s, pos) == Ok::<(Stream, int), Error>((d, pos + stream_bytes(d).len())),
    decreases d, 0nat,
{
    let a = varint_bytes(d.corrections_len as nat);
    let b = varint_bytes(d.plain_len as nat);
    let n = varint_bytes(d.inner.len());
    let l = list_bytes(d.inner, d.inner.len());
    assert(stream_bytes(d) =~= a + (b + (n + l)));
    lemma_number(s, pos, d.corrections_len, b + (n + l));
    lemma_number(s, pos + a.len(), d.plain_len, n + l);
    let p2 = pos + a.len() + b.len();
    lemma_number(s, p2, d.inner.len() as u64, l);
    lemma_list_read(d.inner, d.inner.len(), s, p2 + n.len());
    assert(d.inner.take(d.inner.len() as int) =~= d.inner);
}

pub proof fn lemma_list_read(v: Seq<Piece>, n: nat, s: Seq<u8>, pos: int)
    requires
        n <= v.len(),
        readable_upto(v, n),
        stands(s, pos, list_bytes(v, n)),
    ensures
        list_at(s, pos, n) == Ok::<(Seq<Piece>, int), Error>(
            (v.take(n as int), pos + list_bytes(v, n).len()),
        ),
    decreases v, n,
{
    if n == 0 {
        assert(v.take(0) =~= Seq::<Piece>::empty());
    } else {
        let a = list_bytes(v, (n - 1) as nat);
        let b = piece_bytes(v[n - 1]);
        lemma_stands(s, pos, a, b);
        lemma_list_read(v, (n - 1) as nat, s, pos);
        lemma_piece_read(v[n - 1], s, pos + a.len());
        assert(v.take(n - 1).push(v[n - 1]) =~= v.take(n as int));
    }
}

/// Segments read back as they were written, wherever they stand.
pub proof fn lemma_segs_roundtrip(v: Seq<Piece>, s: Seq<u8>, pos: int)
    requires
        readable_list(v),
        stands(s, pos, pieces_bytes(v)),
    ensures
        pieces_at(s, pos) == Ok::<(Seq<Piece>, int), Error>((v, pos + pieces_bytes(v).len())),
{
    let n = varint_bytes(v.len());
    let l = list_bytes(v, v.len());
    lemma_number(s, pos, v.len() as u64, l);
    lemma_list_read(v, v.len(), s, pos + n.len());
    assert(v.take(v.len() as int) =~= v);
}

} // verus!
