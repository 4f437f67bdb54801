//! Segments: a reversible description of a file's bytes. Rendering them in
//! order gives the file. Their payload lies in channels.

use vstd::prelude::*;

pub mod law;
pub mod limits;
pub mod read;
pub mod remap;
pub mod write;

pub use read::read_segs;
pub use remap::remap_blobs;
pub use write::write_segs;

verus! {

#[derive(Debug)]
pub enum Seg {
    /// `len` bytes of the plain channel, as they are.
    Raw { len: u64 },
    /// A bare deflate stream.
    Deflate(DeflateSeg),
    /// A zlib stream: two header bytes, the deflate stream and its checksum.
    Zlib { header: [u8; 2], body: DeflateSeg },
    /// A gzip member: a header from the plain channel, the deflate stream, its
    /// checksum and length.
    Gzip { header_len: u32, body: DeflateSeg },
    /// The run of IDAT chunks of a PNG.
    PngIdat(PngIdatSeg),
    /// A JPEG, from the lepton channel.
    Jpeg { lepton_len: u64, orig_len: u64 },
}

#[derive(Debug)]
pub struct DeflateSeg {
    /// The bytes of the corrections channel that recreate the stream.
    pub corrections_len: u64,
    /// The length of the text that was compressed.
    pub plain_len: u64,
    /// The text itself, in segments.
    pub inner: Vec<Seg>,
}

#[derive(Debug, Clone, Copy, PartialEq, Eq)]
pub enum PixelEnc {
    /// Filtered rows, in the plain channel.
    Filtered,
    /// A filter for each row in the filters channel, and the pixels in a blob.
    Unfiltered { blob: u32 },
}

#[derive(Debug, Clone)]
pub struct PngIdatSeg {
    /// The sizes of the chunks.
    pub chunk_lens: Vec<u32>,
    pub zlib_header: [u8; 2],
    /// What follows the zlib stream inside the chunks.
    pub tail: Vec<u8>,
    pub corrections_len: u64,
    /// The length of the filtered rows.
    pub plain_len: u64,
    pub width: u32,
    pub height: u32,
    pub bit_depth: u8,
    pub color_type: u8,
    pub pixels: PixelEnc,
}

/// What a segment says.
#[verifier::ext_equal]
pub enum Piece {
    Raw { len: u64 },
    Deflate(Stream),
    Zlib { header: Seq<u8>, body: Stream },
    Gzip { header_len: u32, body: Stream },
    PngIdat(Image),
    Jpeg { lepton_len: u64, orig_len: u64 },
}

#[verifier::ext_equal]
pub struct Stream {
    pub corrections_len: u64,
    pub plain_len: u64,
    pub inner: Seq<Piece>,
}

#[verifier::ext_equal]
pub struct Image {
    pub chunk_lens: Seq<u32>,
    pub zlib_header: Seq<u8>,
    pub tail: Seq<u8>,
    pub corrections_len: u64,
    pub plain_len: u64,
    pub width: u32,
    pub height: u32,
    pub bit_depth: u8,
    pub color_type: u8,
    pub pixels: PixelEnc,
}

pub open spec fn piece(s: Seg) -> Piece
    decreases s, 0nat,
{
    match s {
        Seg::Raw { len } => Piece::Raw { len },
        Seg::Deflate(d) => Piece::Deflate(stream(d)),
        Seg::Zlib { header, body } => Piece::Zlib { header: header@, body: stream(body) },
        Seg::Gzip { header_len, body } => Piece::Gzip { header_len, body: stream(body) },
        Seg::PngIdat(p) => Piece::PngIdat(p@),
        Seg::Jpeg { lepton_len, orig_len } => Piece::Jpeg { lepton_len, orig_len },
    }
}

pub open spec fn stream(d: DeflateSeg) -> Stream
    decreases d, 0nat,
{
    Stream {
        corrections_len: d.corrections_len,
        plain_len: d.plain_len,
        inner: pieces_upto(d.inner@, d.inner@.len()),
    }
}

/// The first `n` segments.
pub open spec fn pieces_upto(v: Seq<Seg>, n: nat) -> Seq<Piece>
    decreases v, n,
{
    if n == 0 || n > v.len() {
        Seq::empty()
    } else {
        pieces_upto(v, (n - 1) as nat).push(piece(v[n - 1]))
    }
}

pub open spec fn pieces(v: Seq<Seg>) -> Seq<Piece> {
    pieces_upto(v, v.len())
}

impl View for PngIdatSeg {
    type V = Image;

    open spec fn view(&self) -> Image {
        Image {
            chunk_lens: self.chunk_lens@,
            zlib_header: self.zlib_header@,
            tail: self.tail@,
            corrections_len: self.corrections_len,
            plain_len: self.plain_len,
            width: self.width,
            height: self.height,
            bit_depth: self.bit_depth,
            color_type: self.color_type,
            pixels: self.pixels,
        }
    }
}

pub proof fn lemma_pieces_upto(v: Seq<Seg>, n: nat)
    requires
        n <= v.len(),
    ensures
        pieces_upto(v, n).len() == n,
        forall|i: int| 0 <= i < n ==> #[trigger] pieces_upto(v, n)[i] == piece(v[i]),
    decreases n,
{
    if n > 0 {
        lemma_pieces_upto(v, (n - 1) as nat);
    }
}

/// One segment more is one piece more.
pub proof fn lemma_pieces_push(v: Seq<Seg>, s: Seg)
    ensures
        pieces(v.push(s)) == pieces(v).push(piece(s)),
{
    lemma_pieces_upto(v, v.len());
    lemma_pieces_upto(v.push(s), v.push(s).len());
    assert(pieces(v.push(s)) =~= pieces(v).push(piece(s)));
}

/// The samples of a pixel, by the colour type.
pub open spec fn samples_of(color_type: u8) -> int {
    if color_type == 2 {
        3
    } else if color_type == 4 {
        2
    } else if color_type == 6 {
        4
    } else {
        1
    }
}

impl Image {
    /// The bytes of a pixel, as filters count them: at least one.
    pub open spec fn pixel_len(self) -> int {
        let n = (self.bit_depth * samples_of(self.color_type) + 7) / 8;
        if n < 1 {
            1
        } else {
            n
        }
    }

    /// The bytes of a row, without its filter.
    pub open spec fn row_len(self) -> int {
        (self.width * self.bit_depth * samples_of(self.color_type) + 7) / 8
    }
}

impl PngIdatSeg {
    fn samples(&self) -> (n: u64)
        ensures
            n == samples_of(self.color_type),
            1 <= n <= 4,
    {
        match self.color_type {
            2 => 3,
            4 => 2,
            6 => 4,
            _ => 1,
        }
    }

    /// The bytes of a pixel, as filters count them: at least one.
    pub fn filter_bpp(&self) -> (n: usize)
        ensures
            n == self@.pixel_len(),
            1 <= n <= 128,
    {
        let c: u64 = self.samples();
        assert(0 <= self.bit_depth * c <= 1020) by (nonlinear_arith)
            requires
                self.bit_depth <= 255,
                c <= 4,
        ;
        let n: u64 = (self.bit_depth as u64 * c + 7) / 8;
        if n < 1 {
            1
        } else {
            n as usize
        }
    }

    /// The bytes of a row, without its filter, where a `usize` may be too small.
    pub fn row_bytes(&self) -> (n: u64)
        ensures
            n == self@.row_len(),
            n <= 0x80_0000_0000,
    {
        let c: u64 = self.samples();
        proof {
            let x = self.width * self.bit_depth;
            assert(0 <= x <= 1095216660225) by (nonlinear_arith)
                requires
                    x == self.width * self.bit_depth,
                    self.width <= 4294967295,
                    self.bit_depth <= 255,
            ;
            assert(0 <= x * c <= 4380866640900) by (nonlinear_arith)
                requires
                    0 <= x <= 1095216660225,
                    c <= 4,
            ;
        }
        (self.width as u64 * self.bit_depth as u64 * c + 7) / 8
    }

    /// The bytes of a row, without its filter.
    pub fn stride(&self) -> (n: usize)
        requires
            self@.row_len() <= usize::MAX,
        ensures
            n == self@.row_len(),
    {
        self.row_bytes() as usize
    }
}

} // verus!
