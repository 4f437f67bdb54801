//! Rendering does not depend on what else is in the channels: segments render
//! to the same bytes where their payload lies among that of others.

use crate::channels::{in_reach, Payload, Places};
use crate::error::Error;
use crate::plan::remap::{
    lemma_moved_upto, moved, moved_list, moved_pixels, moved_stream, moved_upto,
};
use crate::plan::{Image, Piece, PixelEnc, Stream};
use crate::rebuild::filter::refiltered;
use crate::rebuild::render::{
    image_plain, rendered, rendered_image, rendered_jpeg, rendered_piece, rendered_stream,
    rendered_upto,
};
use vstd::prelude::*;

verus! {

impl Places {
    /// These places, counted from `o` on.
    pub open spec fn from(self, o: Places) -> Places {
        Places {
            plain: o.plain + self.plain,
            corrections: o.corrections + self.corrections,
            filters: o.filters + self.filters,
            lepton: o.lepton + self.lepton,
        }
    }

    pub open spec fn are_places(self) -> bool {
        &&& 0 <= self.plain
        &&& 0 <= self.corrections
        &&& 0 <= self.filters
        &&& 0 <= self.lepton
    }
}

/// Whether `d` lies in `g` from `o` on.
pub open spec fn lies_in<A>(d: Seq<A>, g: Seq<A>, o: int) -> bool {
    &&& 0 <= o
    &&& o + d.len() <= g.len()
    &&& forall|i: int| 0 <= i < d.len() ==> #[trigger] d[i] == g[o + i]
}

/// Whether the channels `d` lie in `g`, from the places `o` and the blob `off`
/// on.
pub open spec fn embedded(d: Payload, g: Payload, o: Places, off: int) -> bool {
    &&& lies_in(d.plain, g.plain, o.plain)
    &&& lies_in(d.corrections, g.corrections, o.corrections)
    &&& lies_in(d.filters, g.filters, o.filters)
    &&& lies_in(d.lepton, g.lepton, o.lepton)
    &&& lies_in(d.blobs, g.blobs, off)
    &&& off + d.blobs.len() <= 0x1_0000_0000
}

proof fn lemma_sub(d: Seq<u8>, g: Seq<u8>, o: int, a: int, n: int)
    requires
        lies_in(d, g, o),
        0 <= a,
        0 <= n,
        a + n <= d.len(),
    ensures
        g.subrange(o + a, o + a + n) == d.subrange(a, a + n),
        in_reach(g, o + a, n),
{
    let x = g.subrange(o + a, o + a + n);
    let y = d.subrange(a, a + n);
    assert forall|i: int| 0 <= i < n implies x[i] == y[i] by {
        assert(d[a + i] == g[o + (a + i)]);
    }
    assert(x =~= y);
}

/// The image with its blob moved.
pub open spec fn moved_image(p: Image, off: int) -> Image {
    Image { pixels: moved_pixels(p.pixels, off), ..p }
}

proof fn lemma_image_shift(p: Image, d: Payload, g: Payload, o: Places, off: int, c: Places)
    requires
        embedded(d, g, o, off),
        c.are_places(),
        rendered_image(p, d, c) is Ok,
    ensures
        rendered_image(p, d, c) matches Ok((s, c1)) ==> c1.are_places() && rendered_image(
            moved_image(p, off),
            g,
            c.from(o),
        ) == Ok::<(Seq<u8>, Places), Error>((s, c1.from(o))),
{
    let q = moved_image(p, off);
    match p.pixels {
        PixelEnc::Filtered => {
            lemma_sub(d.plain, g.plain, o.plain, c.plain, p.plain_len as int);
        },
        PixelEnc::Unfiltered { blob } => {
            lemma_sub(d.filters, g.filters, o.filters, c.filters, p.height as int);
            assert(d.blobs[blob as int] == g.blobs[off + blob]);
            let f = d.filters.subrange(c.filters, c.filters + p.height);
            let x = d.blobs[blob as int].data;
            lemma_refiltered_same(p, q, f, x);
        },
    }
    let (plain, c1) = image_plain(p, d, c)->Ok_0;
    assert(image_plain(q, g, c.from(o)) == Ok::<(Seq<u8>, Places), Error>((plain, c1.from(o))));
    lemma_sub(
        d.corrections,
        g.corrections,
        o.corrections,
        c1.corrections,
        p.corrections_len as int,
    );
}

/// Which blob an image has plays no part in filtering it.
proof fn lemma_refiltered_same(p: Image, q: Image, f: Seq<u8>, x: Seq<u8>)
    requires
        q == (Image { pixels: q.pixels, ..p }),
    ensures
        refiltered(p, f, x) == refiltered(q, f, x),
{
}

proof fn lemma_stream_shift(t: Stream, d: Payload, g: Payload, o: Places, off: int, c: Places)
    requires
        embedded(d, g, o, off),
        c.are_places(),
        rendered_stream(t, d, c) is Ok,
    ensures
        rendered_stream(t, d, c) matches Ok((b, s, c1)) ==> c1.are_places() && rendered_stream(
            moved_stream(t, off),
            g,
            c.from(o),
        ) == Ok::<(Seq<u8>, Seq<u8>, Places), Error>((b, s, c1.from(o))),
    decreases t, 0nat,
{
    let end = c.corrections + t.corrections_len;
    let c0 = Places { corrections: end, ..c };
    lemma_sub(d.corrections, g.corrections, o.corrections, c.corrections, t.corrections_len as int);
    lemma_moved_upto(t.inner, t.inner.len(), off);
    lemma_upto_shift(t.inner, t.inner.len(), d, g, o, off, c0);
    assert((Places { corrections: c.from(o).corrections + t.corrections_len, ..c.from(o) })
        == c0.from(o));
}

proof fn lemma_gzip_shift(
    header_len: u32,
    body: Stream,
    d: Payload,
    g: Payload,
    o: Places,
    off: int,
    c: Places,
)
    requires
        embedded(d, g, o, off),
        c.are_places(),
        rendered_piece(Piece::Gzip { header_len, body }, d, c) is Ok,
    ensures
        rendered_piece(Piece::Gzip { header_len, body }, d, c) matches Ok((s, c1)) ==> c1.are_places()
            && rendered_piece(
            Piece::Gzip { header_len, body: moved_stream(body, off) },
            g,
            c.from(o),
        ) == Ok::<(Seq<u8>, Places), Error>((s, c1.from(o))),
    decreases body, 1nat,
{
    lemma_sub(d.plain, g.plain, o.plain, c.plain, header_len as int);
    let c0 = Places { plain: c.plain + header_len, ..c };
    lemma_stream_shift(body, d, g, o, off, c0);
    assert((Places { plain: c.from(o).plain + header_len, ..c.from(o) }) == c0.from(o));
}

proof fn lemma_jpeg_shift(
    lepton_len: u64,
    orig_len: u64,
    d: Payload,
    g: Payload,
    o: Places,
    off: int,
    c: Places,
)
    requires
        embedded(d, g, o, off),
        c.are_places(),
        rendered_jpeg(lepton_len, orig_len, d, c) is Ok,
    ensures
        rendered_jpeg(lepton_len, orig_len, d, c) matches Ok((s, c1)) ==> c1.are_places()
            && rendered_jpeg(lepton_len, orig_len, g, c.from(o)) == Ok::<(Seq<u8>, Places), Error>(
            (s, c1.from(o)),
        ),
{
    lemma_sub(d.lepton, g.lepton, o.lepton, c.lepton, lepton_len as int);
}

proof fn lemma_piece_shift(p: Piece, d: Payload, g: Payload, o: Places, off: int, c: Places)
    requires
        embedded(d, g, o, off),
        c.are_places(),
        rendered_piece(p, d, c) is Ok,
    ensures
        rendered_piece(p, d, c) matches Ok((s, c1)) ==> c1.are_places() && rendered_piece(
            moved(p, off),
            g,
            c.from(o),
        ) == Ok::<(Seq<u8>, Places), Error>((s, c1.from(o))),
    decreases p, 0nat,
{
    match p {
        Piece::Raw { len } => {
            lemma_sub(d.plain, g.plain, o.plain, c.plain, len as int);
        },
        Piece::Deflate(t) => {
            lemma_stream_shift(t, d, g, o, off, c);
        },
        Piece::Zlib { header, body } => {
            lemma_stream_shift(body, d, g, o, off, c);
        },
        Piece::Gzip { header_len, body } => {
            lemma_gzip_shift(header_len, body, d, g, o, off, c);
        },
        Piece::PngIdat(i) => {
            lemma_image_shift(i, d, g, o, off, c);
        },
        Piece::Jpeg { lepton_len, orig_len } => {
            lemma_jpeg_shift(lepton_len, orig_len, d, g, o, off, c);
        },
    }
}

proof fn lemma_upto_shift(
    v: Seq<Piece>,
    n: nat,
    d: Payload,
    g: Payload,
    o: Places,
    off: int,
    c: Places,
)
    requires
        n <= v.len(),
        embedded(d, g, o, off),
        c.are_places(),
        rendered_upto(v, n, d, c) is Ok,
    ensures
        rendered_upto(v, n, d, c) matches Ok((s, c1)) ==> c1.are_places() && rendered_upto(
            moved_list(v, off),
            n,
            g,
            c.from(o),
        ) == Ok::<(Seq<u8>, Places), Error>((s, c1.from(o))),
    decreases v, n,
{
    lemma_moved_upto(v, v.len(), off);
    if n > 0 {
        lemma_upto_shift(v, (n - 1) as nat, d, g, o, off, c);
        let (s, c1) = rendered_upto(v, (n - 1) as nat, d, c)->Ok_0;
        lemma_piece_shift(v[n - 1], d, g, o, off, c1);
        assert(moved_list(v, off)[n - 1] == moved(v[n - 1], off));
    }
}

/// Segments render to the same bytes from channels that hold their payload
/// among others', once their places and blobs are counted from where it lies.
pub proof fn lemma_shift(v: Seq<Piece>, d: Payload, g: Payload, o: Places, off: int, c: Places)
    requires
        embedded(d, g, o, off),
        c.are_places(),
        rendered(v, d, c) is Ok,
    ensures
        rendered(v, d, c) matches Ok((s, c1)) ==> c1.are_places() && rendered(
            moved_list(v, off),
            g,
            c.from(o),
        ) == Ok::<(Seq<u8>, Places), Error>((s, c1.from(o))),
{
    lemma_moved_upto(v, v.len(), off);
    lemma_upto_shift(v, v.len(), d, g, o, off, c);
}

proof fn lemma_moved_zero(p: Piece)
    ensures
        moved(p, 0) == p,
    decreases p, 0nat,
{
    match p {
        Piece::Deflate(t) => {
            lemma_stream_zero(t);
        },
        Piece::Zlib { header, body } => {
            lemma_stream_zero(body);
        },
        Piece::Gzip { header_len, body } => {
            lemma_stream_zero(body);
        },
        Piece::PngIdat(i) => {},
        _ => {},
    }
}

proof fn lemma_stream_zero(t: Stream)
    ensures
        moved_stream(t, 0) == t,
    decreases t, 0nat,
{
    lemma_list_zero(t.inner, t.inner.len());
    assert(t.inner.take(t.inner.len() as int) =~= t.inner);
}

proof fn lemma_list_zero(v: Seq<Piece>, n: nat)
    requires
        n <= v.len(),
    ensures
        moved_upto(v, n, 0) == v.take(n as int),
    decreases v, n,
{
    if n > 0 {
        lemma_list_zero(v, (n - 1) as nat);
        lemma_moved_zero(v[n - 1]);
        assert(v.take(n - 1).push(v[n - 1]) =~= v.take(n as int));
    } else {
        assert(v.take(0) =~= Seq::<Piece>::empty());
    }
}

/// Segments render to the same bytes once more is behind their payload.
pub proof fn lemma_grown(v: Seq<Piece>, d: Payload, g: Payload, c: Places)
    requires
        d.grows_to(g),
        d.blobs.len() <= 0x1_0000_0000,
        c.are_places(),
        rendered(v, d, c) is Ok,
    ensures
        rendered(v, g, c) == rendered(v, d, c),
        rendered(v, d, c) matches Ok((s, c1)) ==> c1.are_places(),
{
    let o = Places::start();
    assert(embedded(d, g, o, 0));
    lemma_shift(v, d, g, o, 0, c);
    lemma_list_zero(v, v.len());
    assert(v.take(v.len() as int) =~= v);
    assert(c.from(o) == c);
    let (s, c1) = rendered(v, d, c)->Ok_0;
    assert(c1.from(o) == c1);
}

} // verus!
