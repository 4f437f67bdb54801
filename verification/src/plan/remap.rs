//! Moves the blob numbers of segments, for when the blobs of a file go behind
//! those of other files.

use crate::plan::{
    lemma_pieces_upto, piece, pieces, stream, DeflateSeg, Image, Piece, PixelEnc, Seg, Stream,
};
use vstd::prelude::*;

verus! {

pub open spec fn moved_pixels(p: PixelEnc, offset: int) -> PixelEnc {
    match p {
        PixelEnc::Filtered => p,
        PixelEnc::Unfiltered { blob } => PixelEnc::Unfiltered { blob: (blob + offset) as u32 },
    }
}

/// A segment with every blob number `offset` higher.
pub open spec fn moved(p: Piece, offset: int) -> Piece
    decreases p, 0nat,
{
    match p {
        Piece::Deflate(d) => Piece::Deflate(moved_stream(d, offset)),
        Piece::Zlib { header, body } => Piece::Zlib { header, body: moved_stream(body, offset) },
        Piece::Gzip { header_len, body } => Piece::Gzip {
            header_len,
            body: moved_stream(body, offset),
        },
        Piece::PngIdat(i) => Piece::PngIdat(
            Image { pixels: moved_pixels(i.pixels, offset), ..i },
        ),
        _ => p,
    }
}

pub open spec fn moved_stream(d: Stream, offset: int) -> Stream
    decreases d, 0nat,
{
    Stream { inner: moved_upto(d.inner, d.inner.len(), offset), ..d }
}

pub open spec fn moved_upto(v: Seq<Piece>, n: nat, offset: int) -> Seq<Piece>
    decreases v, n,
{
    if n == 0 || n > v.len() {
        Seq::empty()
    } else {
        moved_upto(v, (n - 1) as nat, offset).push(moved(v[n - 1], offset))
    }
}

pub open spec fn moved_list(v: Seq<Piece>, offset: int) -> Seq<Piece> {
    moved_upto(v, v.len(), offset)
}

/// Whether every blob number is below `n`.
pub open spec fn blobs_below(p: Piece, n: int) -> bool
    decreases p, 0nat,
{
    match p {
        Piece::Deflate(d) => blobs_below_upto(d.inner, d.inner.len(), n),
        Piece::Zlib { header, body } => blobs_below_upto(body.inner, body.inner.len(), n),
        Piece::Gzip { header_len, body } => blobs_below_upto(body.inner, body.inner.len(), n),
        Piece::PngIdat(i) => match i.pixels {
            PixelEnc::Filtered => true,
            PixelEnc::Unfiltered { blob } => blob < n,
        },
        _ => true,
    }
}

pub open spec fn blobs_below_upto(v: Seq<Piece>, k: nat, n: int) -> bool
    decreases v, k,
{
    if k == 0 || k > v.len() {
        true
    } else {
        blobs_below_upto(v, (k - 1) as nat, n) && blobs_below(v[k - 1], n)
    }
}

pub open spec fn all_blobs_below(v: Seq<Piece>, n: int) -> bool {
    blobs_below_upto(v, v.len(), n)
}

proof fn lemma_below(v: Seq<Piece>, k: nat, n: int, i: int)
    requires
        k <= v.len(),
        blobs_below_upto(v, k, n),
        0 <= i < k,
    ensures
        blobs_below(v[i], n),
    decreases k,
{
    if i < k - 1 {
        lemma_below(v, (k - 1) as nat, n, i);
    }
}

pub proof fn lemma_moved_upto(v: Seq<Piece>, n: nat, offset: int)
    requires
        n <= v.len(),
    ensures
        moved_upto(v, n, offset).len() == n,
        forall|i: int| 0 <= i < n ==> #[trigger] moved_upto(v, n, offset)[i] == moved(v[i], offset),
    decreases n,
{
    if n > 0 {
        lemma_moved_upto(v, (n - 1) as nat, offset);
    }
}

proof fn lemma_piece_loosen(p: Piece, a: int, b: int)
    requires
        a <= b,
        blobs_below(p, a),
    ensures
        blobs_below(p, b),
    decreases p, 0nat,
{
    match p {
        Piece::Deflate(d) => {
            lemma_upto_loosen(d.inner, d.inner.len(), a, b);
        },
        Piece::Zlib { header, body } => {
            lemma_upto_loosen(body.inner, body.inner.len(), a, b);
        },
        Piece::Gzip { header_len, body } => {
            lemma_upto_loosen(body.inner, body.inner.len(), a, b);
        },
        _ => {},
    }
}

proof fn lemma_upto_loosen(v: Seq<Piece>, n: nat, a: int, b: int)
    requires
        n <= v.len(),
        a <= b,
        blobs_below_upto(v, n, a),
    ensures
        blobs_below_upto(v, n, b),
    decreases v, n,
{
    if n > 0 {
        lemma_upto_loosen(v, (n - 1) as nat, a, b);
        lemma_piece_loosen(v[n - 1], a, b);
    }
}

/// Blob numbers that are below one bound are below a higher one.
pub proof fn lemma_below_loosen(v: Seq<Piece>, a: int, b: int)
    requires
        a <= b,
        all_blobs_below(v, a),
    ensures
        all_blobs_below(v, b),
{
    lemma_upto_loosen(v, v.len(), a, b);
}

proof fn lemma_no_blobs(p: Piece, offset: int)
    requires
        blobs_below(p, 0),
    ensures
        moved(p, offset) == p,
    decreases p, 0nat,
{
    match p {
        Piece::Deflate(d) => {
            lemma_no_blobs_stream(d, offset);
        },
        Piece::Zlib { header, body } => {
            lemma_no_blobs_stream(body, offset);
        },
        Piece::Gzip { header_len, body } => {
            lemma_no_blobs_stream(body, offset);
        },
        Piece::PngIdat(i) => {
            assert(moved_pixels(i.pixels, offset) == i.pixels);
        },
        _ => {},
    }
}

proof fn lemma_no_blobs_stream(d: Stream, offset: int)
    requires
        blobs_below_upto(d.inner, d.inner.len(), 0),
    ensures
        moved_stream(d, offset) == d,
    decreases d, 0nat,
{
    lemma_no_blobs_upto(d.inner, d.inner.len(), offset);
    assert(d.inner.take(d.inner.len() as int) =~= d.inner);
}

proof fn lemma_no_blobs_upto(v: Seq<Piece>, n: nat, offset: int)
    requires
        n <= v.len(),
        blobs_below_upto(v, n, 0),
    ensures
        moved_upto(v, n, offset) == v.take(n as int),
    decreases v, n,
{
    if n > 0 {
        lemma_no_blobs_upto(v, (n - 1) as nat, offset);
        lemma_no_blobs(v[n - 1], offset);
        assert(v.take(n - 1).push(v[n - 1]) =~= v.take(n as int));
    } else {
        assert(v.take(0) =~= Seq::<Piece>::empty());
    }
}

/// Segments without blobs stay as they are.
pub proof fn lemma_unmoved(v: Seq<Piece>, offset: int)
    requires
        all_blobs_below(v, 0),
    ensures
        moved_list(v, offset) == v,
{
    lemma_no_blobs_upto(v, v.len(), offset);
    assert(v.take(v.len() as int) =~= v);
}

/// Raises every blob number by `offset`.
pub fn remap_blobs(segs: &mut Vec<Seg>, offset: u32)
    requires
        all_blobs_below(pieces(old(segs)@), 0x1_0000_0000 - offset),
    ensures
        pieces(final(segs)@) == moved_list(pieces(old(segs)@), offset as int),
    decreases old(segs)@, 1nat,
{
    let ghost v0 = segs@;
    let ghost p0 = pieces(segs@);
    let n: usize = segs.len();
    let mut i: usize = 0;
    proof {
        lemma_pieces_upto(v0, v0.len());
    }
    while i < n
        invariant
            i <= n,
            n == v0.len(),
            segs@.len() == n,
            p0 == pieces(v0),
            v0 == old(segs)@,
            p0.len() == n,
            forall|k: int| 0 <= k < n ==> #[trigger] p0[k] == piece(v0[k]),
            all_blobs_below(p0, 0x1_0000_0000 - offset),
            forall|k: int| 0 <= k < i ==> piece(#[trigger] segs@[k]) == moved(p0[k], offset as int),
            forall|k: int| i <= k < n ==> #[trigger] segs@[k] == v0[k],
        decreases n - i,
    {
        proof {
            lemma_below(p0, p0.len(), 0x1_0000_0000 - offset, i as int);
            assert(segs@[i as int] == v0[i as int]);
            assert(p0[i as int] == piece(v0[i as int]));
        }
        remap_seg(&mut segs[i], offset);
        i += 1;
    }
    proof {
        lemma_pieces_upto(segs@, segs@.len());
        lemma_moved_upto(p0, p0.len(), offset as int);
        assert(pieces(segs@) =~= moved_list(p0, offset as int));
    }
}

fn remap_body(d: &mut DeflateSeg, offset: u32)
    requires
        all_blobs_below(stream(*old(d)).inner, 0x1_0000_0000 - offset),
    ensures
        stream(*final(d)) == moved_stream(stream(*old(d)), offset as int),
    decreases *old(d), 2nat,
{
    proof {
        lemma_pieces_upto(d.inner@, d.inner@.len());
    }
    remap_blobs(&mut d.inner, offset);
}

fn remap_seg(s: &mut Seg, offset: u32)
    requires
        blobs_below(piece(*old(s)), 0x1_0000_0000 - offset),
    ensures
        piece(*final(s)) == moved(piece(*old(s)), offset as int),
    decreases *old(s), 0nat,
{
    match s {
        Seg::PngIdat(p) => {
            match p.pixels {
                PixelEnc::Unfiltered { blob } => {
                    p.pixels = PixelEnc::Unfiltered { blob: blob + offset };
                },
                PixelEnc::Filtered => {},
            }
        },
        Seg::Deflate(d) => remap_body(d, offset),
        Seg::Zlib { header, body } => remap_body(body, offset),
        Seg::Gzip { header_len, body } => remap_body(body, offset),
        _ => {},
    }
}

} // verus!
