//! A reader takes no segments but those within its limits.

use crate::plan::law::{
    lemma_first_byte, lemma_list_read, lemma_number, lemma_stands, lemma_two, readable,
    readable_list, readable_stream, readable_upto, stands,
};
use crate::plan::read::{image_at, list_at, piece_at, pieces_at, stream_at};
use crate::plan::write::{
    image_bytes, lens_bytes, list_bytes, piece_bytes, pieces_bytes, shape_bytes, stream_bytes,
};
use crate::plan::{
    lemma_pieces_upto, piece, pieces, pieces_upto, stream, DeflateSeg, Image, Piece, Seg, Stream,
};
use crate::util::varint::varint_bytes;
use vstd::prelude::*;

verus! {

/// Whether the lengths of a segment are numbers that can be written, and its
/// headers have two bytes. Every segment of the machine is so.
pub open spec fn countable(p: Piece) -> bool
    decreases p, 0nat,
{
    match p {
        Piece::Deflate(d) => countable_stream(d),
        Piece::Zlib { header, body } => header.len() == 2 && countable_stream(body),
        Piece::Gzip { header_len, body } => countable_stream(body),
        Piece::PngIdat(i) => i.zlib_header.len() == 2 && i.chunk_lens.len() <= u64::MAX
            && i.tail.len() <= u64::MAX,
        _ => true,
    }
}

pub open spec fn countable_stream(d: Stream) -> bool
    decreases d, 0nat,
{
    d.inner.len() <= u64::MAX && countable_upto(d.inner, d.inner.len())
}

pub open spec fn countable_upto(v: Seq<Piece>, n: nat) -> bool
    decreases v, n,
{
    if n == 0 || n > v.len() {
        true
    } else {
        countable_upto(v, (n - 1) as nat) && countable(v[n - 1])
    }
}

pub open spec fn countable_list(v: Seq<Piece>) -> bool {
    v.len() <= u64::MAX && countable_upto(v, v.len())
}

proof fn lemma_seg_countable(s: Seg)
    ensures
        countable(piece(s)),
    decreases s, 0nat,
{
    match s {
        Seg::Deflate(d) => {
            lemma_body_countable(d);
        },
        Seg::Zlib { header, body } => {
            lemma_body_countable(body);
        },
        Seg::Gzip { header_len, body } => {
            lemma_body_countable(body);
        },
        Seg::PngIdat(p) => {
            assert(p.chunk_lens.len() == p.chunk_lens@.len());
            assert(p.tail.len() == p.tail@.len());
        },
        _ => {},
    }
}

proof fn lemma_body_countable(d: DeflateSeg)
    ensures
        countable_stream(stream(d)),
    decreases d, 0nat,
{
    assert(d.inner.len() == d.inner@.len());
    lemma_pieces_upto(d.inner@, d.inner@.len());
    lemma_upto_countable(d.inner@, d.inner@.len());
}

proof fn lemma_upto_countable(v: Seq<Seg>, n: nat)
    requires
        n <= v.len(),
    ensures
        countable_upto(pieces_upto(v, v.len()), n),
    decreases v, n,
{
    if n > 0 {
        lemma_upto_countable(v, (n - 1) as nat);
        lemma_seg_countable(v[n - 1]);
        lemma_pieces_upto(v, v.len());
    }
}

/// The segments of a vector are countable.
pub proof fn lemma_countable(v: Vec<Seg>)
    ensures
        countable_list(pieces(v@)),
{
    assert(v.len() == v@.len());
    lemma_pieces_upto(v@, v@.len());
    lemma_upto_countable(v@, v@.len());
}

proof fn lemma_image_limits(i: Image, s: Seq<u8>, pos: int)
    requires
        countable(Piece::PngIdat(i)),
        stands(s, pos, image_bytes(i)),
        image_at(s, pos) is Ok,
    ensures
        readable(Piece::PngIdat(i)),
{
    let n = varint_bytes(i.chunk_lens.len());
    let l = lens_bytes(i.chunk_lens, i.chunk_lens.len());
    let t = varint_bytes(i.tail.len());
    let r1 = l + (i.zlib_header + (t + (i.tail + shape_bytes(i))));
    assert(image_bytes(i) =~= n + r1);
    lemma_number(s, pos, i.chunk_lens.len() as u64, r1);
}

#[verifier::rlimit(30)]
#[verifier::spinoff_prover]
proof fn lemma_piece_limits(p: Piece, s: Seq<u8>, pos: int)
    requires
        countable(p),
        stands(s, pos, piece_bytes(p)),
        piece_at(s, pos) is Ok,
    ensures
        readable(p),
    decreases p, 0nat,
{
    match p {
        Piece::Deflate(d) => {
            lemma_first_byte(s, pos, 1, stream_bytes(d));
            lemma_stream_limits(d, s, pos + 1);
        },
        Piece::Zlib { header, body } => {
            assert(piece_bytes(p) =~= seq![2u8] + (header + stream_bytes(body)));
            lemma_first_byte(s, pos, 2, header + stream_bytes(body));
            lemma_two(s, pos + 1, header, stream_bytes(body));
            lemma_stream_limits(body, s, pos + 3);
        },
        Piece::Gzip { header_len, body } => {
            let h = varint_bytes(header_len as nat);
            assert(piece_bytes(p) =~= seq![3u8] + (h + stream_bytes(body)));
            lemma_first_byte(s, pos, 3, h + stream_bytes(body));
            lemma_number(s, pos + 1, header_len as u64, stream_bytes(body));
            lemma_stream_limits(body, s, pos + 1 + h.len());
        },
        Piece::PngIdat(i) => {
            lemma_first_byte(s, pos, 4, image_bytes(i));
            lemma_image_limits(i, s, pos + 1);
        },
        _ => {},
    }
}

proof fn lemma_stream_limits(d: Stream, s: Seq<u8>, pos: int)
    requires
        countable_stream(d),
        stands(s, pos, stream_bytes(d)),
        stream_at(s, pos) is Ok,
    ensures
        readable_stream(d),
    decreases d, 0nat,
{
    let a = varint_bytes(d.corrections_len as nat);
    let b = varint_bytes(d.plain_len as nat);
    let n = varint_bytes(d.inner.len());
    let l = list_bytes(d.inner, d.inner.len());
    assert(stream_bytes(d) =~= a + (b + (n + l)));
    lemma_number(s, pos, d.corrections_len, b + (n + l));
    lemma_number(s, pos + a.len(), d.plain_len, n + l);
    let p2 = pos + a.len() + b.len();
    lemma_number(s, p2, d.inner.len() as u64, l);
    lemma_list_limits(d.inner, d.inner.len(), s, p2 + n.len());
}

proof fn lemma_list_limits(v: Seq<Piece>, n: nat, s: Seq<u8>, pos: int)
    requires
        n <= v.len(),
        countable_upto(v, n),
        stands(s, pos, list_bytes(v, n)),
        list_at(s, pos, n) is Ok,
    ensures
        readable_upto(v, n),
    decreases v, n,
{
    if n > 0 {
        let a = list_bytes(v, (n - 1) as nat);
        lemma_stands(s, pos, a, piece_bytes(v[n - 1]));
        lemma_list_limits(v, (n - 1) as nat, s, pos);
        lemma_list_read(v, (n - 1) as nat, s, pos);
        lemma_piece_limits(v[n - 1], s, pos + a.len());
    }
}

/// Segments that a reader takes at all are within its limits, and so read
/// back as they were written.
pub proof fn lemma_limits(v: Seq<Piece>, s: Seq<u8>, pos: int)
    requires
        countable_list(v),
        stands(s, pos, pieces_bytes(v)),
        pieces_at(s, pos) is Ok,
    ensures
        readable_list(v),
{
    let n = varint_bytes(v.len());
    let l = list_bytes(v, v.len());
    lemma_number(s, pos, v.len() as u64, l);
    lemma_list_limits(v, v.len(), s, pos + n.len());
}

} // verus!
