//! How segments are read.

use crate::error::Error;
use crate::plan::write::{TAG_DEFLATE, TAG_GZIP, TAG_JPEG, TAG_PNG, TAG_RAW, TAG_ZLIB};
use crate::plan::{
    lemma_pieces_push, piece, pieces, stream, DeflateSeg, Image, Piece, PixelEnc, PngIdatSeg, Seg,
    Stream,
};
use crate::util::reader::{byte_at, bytes_at, Reader};
use crate::util::varint::{lemma_varint_end, varint_at};
use vstd::prelude::*;

verus! {

/// The bytes from `pos` on.
pub open spec fn room(s: Seq<u8>, pos: int) -> int {
    if pos < s.len() {
        s.len() - pos
    } else {
        0
    }
}

/// The most segments of a list, and the most chunks of an image.
pub const MAX_SEGS: u64 = 0x100_0000;

pub const MAX_CHUNKS: u64 = 0x40_0000;

/// `n` chunk sizes from `pos` on.
pub open spec fn lens_at(s: Seq<u8>, pos: int, n: nat) -> Result<(Seq<u32>, int), Error>
    decreases n,
{
    if n == 0 {
        Ok((Seq::empty(), pos))
    } else {
        match lens_at(s, pos, (n - 1) as nat) {
            Err(e) => Err(e),
            Ok((v, p)) => match varint_at(s, p) {
                Err(e) => Err(e),
                Ok((x, q)) => Ok((v.push(x as u32), q)),
            },
        }
    }
}

pub open spec fn pixels_at(s: Seq<u8>, pos: int) -> Result<(PixelEnc, int), Error> {
    match byte_at(s, pos) {
        Err(e) => Err(e),
        Ok((m, p)) => if m == 0 {
            Ok((PixelEnc::Filtered, p))
        } else if m == 1 {
            match varint_at(s, p) {
                Err(e) => Err(e),
                Ok((b, q)) => Ok((PixelEnc::Unfiltered { blob: b as u32 }, q)),
            }
        } else {
            Err(Error::BadPixelMode(m))
        },
    }
}

/// The numbers of an image after its tail.
pub open spec fn shape_at(s: Seq<u8>, pos: int, lens: Seq<u32>, header: Seq<u8>, tail: Seq<u8>) -> Result<
    (Image, int),
    Error,
> {
    match varint_at(s, pos) {
        Err(e) => Err(e),
        Ok((corrections_len, p1)) => match varint_at(s, p1) {
            Err(e) => Err(e),
            Ok((plain_len, p2)) => match varint_at(s, p2) {
                Err(e) => Err(e),
                Ok((width, p3)) => match varint_at(s, p3) {
                    Err(e) => Err(e),
                    Ok((height, p4)) => match byte_at(s, p4) {
                        Err(e) => Err(e),
                        Ok((bit_depth, p5)) => match byte_at(s, p5) {
                            Err(e) => Err(e),
                            Ok((color_type, p6)) => match pixels_at(s, p6) {
                                Err(e) => Err(e),
                                Ok((pixels, p7)) => Ok(
                                    (
                                        Image {
                                            chunk_lens: lens,
                                            zlib_header: header,
                                            tail,
                                            corrections_len,
                                            plain_len,
                                            width: width as u32,
                                            height: height as u32,
                                            bit_depth,
                                            color_type,
                                            pixels,
                                        },
                                        p7,
                                    ),
                                ),
                            },
                        },
                    },
                },
            },
        },
    }
}

pub open spec fn image_at(s: Seq<u8>, pos: int) -> Result<(Image, int), Error> {
    match varint_at(s, pos) {
        Err(e) => Err(e),
        Ok((n, p1)) => if n > MAX_CHUNKS {
            Err(Error::ImplausibleChunks)
        } else {
            match lens_at(s, p1, n as nat) {
                Err(e) => Err(e),
                Ok((lens, p2)) => match bytes_at(s, p2, 2) {
                    Err(e) => Err(e),
                    Ok((header, p3)) => match varint_at(s, p3) {
                        Err(e) => Err(e),
                        Ok((tail_len, p4)) => match bytes_at(s, p4, tail_len as int) {
                            Err(e) => Err(e),
                            Ok((tail, p5)) => shape_at(s, p5, lens, header, tail),
                        },
                    },
                },
            }
        },
    }
}

/// The segment at `pos` and the position after it.
pub open spec fn piece_at(s: Seq<u8>, pos: int) -> Result<(Piece, int), Error>
    decreases room(s, pos), 0nat,
{
    if pos < 0 {
        Err(Error::TruncatedByte)
    } else {
        match byte_at(s, pos) {
            Err(e) => Err(e),
            Ok((tag, p)) => if tag == TAG_RAW {
                match varint_at(s, p) {
                    Err(e) => Err(e),
                    Ok((len, q)) => Ok((Piece::Raw { len }, q)),
                }
            } else if tag == TAG_DEFLATE {
                match stream_at(s, p) {
                    Err(e) => Err(e),
                    Ok((d, q)) => Ok((Piece::Deflate(d), q)),
                }
            } else if tag == TAG_ZLIB {
                match bytes_at(s, p, 2) {
                    Err(e) => Err(e),
                    Ok((header, p1)) => match stream_at(s, p1) {
                        Err(e) => Err(e),
                        Ok((body, q)) => Ok((Piece::Zlib { header, body }, q)),
                    },
                }
            } else if tag == TAG_GZIP {
                proof {
                    lemma_varint_end(s, p);
                }
                match varint_at(s, p) {
                    Err(e) => Err(e),
                    Ok((header_len, p1)) => match stream_at(s, p1) {
                        Err(e) => Err(e),
                        Ok((body, q)) => Ok(
                            (Piece::Gzip { header_len: header_len as u32, body }, q),
                        ),
                    },
                }
            } else if tag == TAG_PNG {
                match image_at(s, p) {
                    Err(e) => Err(e),
                    Ok((i, q)) => Ok((Piece::PngIdat(i), q)),
                }
            } else if tag == TAG_JPEG {
                match varint_at(s, p) {
                    Err(e) => Err(e),
                    Ok((lepton_len, p1)) => match varint_at(s, p1) {
                        Err(e) => Err(e),
                        Ok((orig_len, q)) => Ok((Piece::Jpeg { lepton_len, orig_len }, q)),
                    },
                }
            } else {
                Err(Error::BadSegmentTag(tag))
            },
        }
    }
}

pub open spec fn stream_at(s: Seq<u8>, pos: int) -> Result<(Stream, int), Error>
    decreases room(s, pos), 1nat,
{
    if pos < 0 {
        Err(Error::TruncatedVarint)
    } else {
        proof {
            lemma_varint_end(s, pos);
        }
        match varint_at(s, pos) {
            Err(e) => Err(e),
            Ok((corrections_len, p1)) => {
                proof {
                    lemma_varint_end(s, p1);
                }
                match varint_at(s, p1) {
                    Err(e) => Err(e),
                    Ok((plain_len, p2)) => match pieces_at(s, p2) {
                        Err(e) => Err(e),
                        Ok((inner, p3)) => Ok((Stream { corrections_len, plain_len, inner }, p3)),
                    },
                }
            },
        }
    }
}

/// The list of segments at `pos` and the position after it.
pub open spec fn pieces_at(s: Seq<u8>, pos: int) -> Result<(Seq<Piece>, int), Error>
    decreases room(s, pos), 2nat,
{
    if pos < 0 {
        Err(Error::TruncatedVarint)
    } else {
        proof {
            lemma_varint_end(s, pos);
        }
        match varint_at(s, pos) {
            Err(e) => Err(e),
            Ok((n, p)) => if n > MAX_SEGS {
                Err(Error::ImplausibleSegments(n))
            } else {
                list_at(s, p, n as nat)
            },
        }
    }
}

/// `n` segments from `pos` on. What was read never ends before its start, so
/// the check on the position always passes.
pub open spec fn list_at(s: Seq<u8>, pos: int, n: nat) -> Result<(Seq<Piece>, int), Error>
    decreases room(s, pos), n,
{
    if n == 0 {
        Ok((Seq::empty(), pos))
    } else {
        match list_at(s, pos, (n - 1) as nat) {
            Err(e) => Err(e),
            Ok((v, p)) => if p < pos {
                Err(Error::TruncatedByte)
            } else {
                match piece_at(s, p) {
                    Err(e) => Err(e),
                    Ok((x, q)) => Ok((v.push(x), q)),
                }
            },
        }
    }
}

/// A list of chunk sizes starts where it should and ends no earlier.
proof fn lemma_lens_end(s: Seq<u8>, pos: int, n: nat)
    requires
        0 <= pos <= s.len(),
    ensures
        lens_at(s, pos, n) matches Ok((v, p)) ==> pos <= p <= s.len() && v.len() == n,
    decreases n,
{
    if n > 0 {
        lemma_lens_end(s, pos, (n - 1) as nat);
        if let Ok((v, p)) = lens_at(s, pos, (n - 1) as nat) {
            lemma_varint_end(s, p);
        }
    }
}

/// An error in a list is an error of every longer list.
proof fn lemma_lens_err(s: Seq<u8>, pos: int, k: nat, n: nat)
    requires
        k <= n,
        lens_at(s, pos, k) is Err,
    ensures
        lens_at(s, pos, n) == lens_at(s, pos, k),
    decreases n,
{
    if k < n {
        lemma_lens_err(s, pos, k, (n - 1) as nat);
    }
}

proof fn lemma_shape_end(s: Seq<u8>, pos: int, lens: Seq<u32>, header: Seq<u8>, tail: Seq<u8>)
    requires
        0 <= pos <= s.len(),
    ensures
        shape_at(s, pos, lens, header, tail) matches Ok((i, p)) ==> pos < p <= s.len(),
{
    lemma_varint_end(s, pos);
    if let Ok((a, p1)) = varint_at(s, pos) {
        lemma_varint_end(s, p1);
        if let Ok((b, p2)) = varint_at(s, p1) {
            lemma_varint_end(s, p2);
            if let Ok((c, p3)) = varint_at(s, p2) {
                lemma_varint_end(s, p3);
                if let Ok((d, p4)) = varint_at(s, p3) {
                    lemma_varint_end(s, p4 + 3);
                }
            }
        }
    }
}

proof fn lemma_image_end(s: Seq<u8>, pos: int)
    requires
        0 <= pos <= s.len(),
    ensures
        image_at(s, pos) matches Ok((i, p)) ==> pos < p <= s.len(),
{
    lemma_varint_end(s, pos);
    if let Ok((n, p1)) = varint_at(s, pos) {
        lemma_lens_end(s, p1, n as nat);
        if let Ok((lens, p2)) = lens_at(s, p1, n as nat) {
            if let Ok((header, p3)) = bytes_at(s, p2, 2) {
                lemma_varint_end(s, p3);
                if let Ok((len, p4)) = varint_at(s, p3) {
                    if let Ok((tail, p5)) = bytes_at(s, p4, len as int) {
                        lemma_shape_end(s, p5, lens, header, tail);
                    }
                }
            }
        }
    }
}

/// What was read ends after its start, and inside the bytes.
pub proof fn lemma_piece_end(s: Seq<u8>, pos: int)
    requires
        0 <= pos <= s.len(),
    ensures
        piece_at(s, pos) matches Ok((x, p)) ==> pos < p <= s.len(),
    decreases room(s, pos), 0nat,
{
    if pos < s.len() {
        lemma_varint_end(s, pos + 1);
        lemma_image_end(s, pos + 1);
        lemma_stream_end(s, pos + 1);
        if pos + 3 <= s.len() {
            lemma_stream_end(s, pos + 3);
        }
        if let Ok((v, p)) = varint_at(s, pos + 1) {
            lemma_varint_end(s, p);
            lemma_stream_end(s, p);
        }
    }
}

proof fn lemma_stream_end(s: Seq<u8>, pos: int)
    requires
        0 <= pos <= s.len(),
    ensures
        stream_at(s, pos) matches Ok((x, p)) ==> pos < p <= s.len(),
    decreases room(s, pos), 1nat,
{
    lemma_varint_end(s, pos);
    if let Ok((a, p1)) = varint_at(s, pos) {
        lemma_varint_end(s, p1);
        if let Ok((b, p2)) = varint_at(s, p1) {
            lemma_pieces_end(s, p2);
        }
    }
}

pub proof fn lemma_pieces_end(s: Seq<u8>, pos: int)
    requires
        0 <= pos <= s.len(),
    ensures
        pieces_at(s, pos) matches Ok((x, p)) ==> pos < p <= s.len(),
    decreases room(s, pos), 2nat,
{
    lemma_varint_end(s, pos);
    if let Ok((n, p)) = varint_at(s, pos) {
        lemma_list_end(s, p, n as nat);
    }
}

proof fn lemma_list_end(s: Seq<u8>, pos: int, n: nat)
    requires
        0 <= pos <= s.len(),
    ensures
        list_at(s, pos, n) matches Ok((x, p)) ==> pos <= p <= s.len() && x.len() == n,
    decreases room(s, pos), n,
{
    if n > 0 {
        lemma_list_end(s, pos, (n - 1) as nat);
        if let Ok((v, p)) = list_at(s, pos, (n - 1) as nat) {
            lemma_piece_end(s, p);
        }
    }
}

proof fn lemma_list_err(s: Seq<u8>, pos: int, k: nat, n: nat)
    requires
        k <= n,
        list_at(s, pos, k) is Err,
    ensures
        list_at(s, pos, n) == list_at(s, pos, k),
    decreases n,
{
    if k < n {
        lemma_list_err(s, pos, k, (n - 1) as nat);
    }
}

fn read_lens(r: &mut Reader, n: u64) -> (res: Result<Vec<u32>, Error>)
    requires
        old(r).pos <= old(r).data@.len(),
    ensures
        final(r).data@ == old(r).data@,
        match lens_at(old(r).data@, old(r).pos as int, n as nat) {
            Ok((v, p)) => res matches Ok(x) && x@ == v && final(r).pos == p,
            Err(e) => res == Err::<Vec<u32>, Error>(e),
        },
{
    let ghost s = r.data@;
    let ghost p0 = r.pos as int;
    let mut v: Vec<u32> = Vec::new();
    let mut i: u64 = 0;
    assert(v@ =~= Seq::<u32>::empty());
    while i < n
        invariant
            i <= n,
            s == old(r).data@,
            p0 == old(r).pos,
            p0 <= s.len(),
            r.data@ == s,
            lens_at(s, p0, i as nat) == Ok::<(Seq<u32>, int), Error>((v@, r.pos as int)),
        decreases n - i,
    {
        match r.varint() {
            Ok(x) => {
                v.push(x as u32);
            },
            Err(e) => {
                proof {
                    lemma_lens_err(s, p0, (i + 1) as nat, n as nat);
                }
                return Err(e);
            },
        }
        i += 1;
    }
    Ok(v)
}

fn read_pixels(r: &mut Reader) -> (res: Result<PixelEnc, Error>)
    ensures
        final(r).data@ == old(r).data@,
        match pixels_at(old(r).data@, old(r).pos as int) {
            Ok((v, p)) => res == Ok::<PixelEnc, Error>(v) && final(r).pos == p,
            Err(e) => res == Err::<PixelEnc, Error>(e),
        },
{
    match r.byte() {
        Err(e) => Err(e),
        Ok(m) => if m == 0 {
            Ok(PixelEnc::Filtered)
        } else if m == 1 {
            match r.varint() {
                Err(e) => Err(e),
                Ok(b) => Ok(PixelEnc::Unfiltered { blob: b as u32 }),
            }
        } else {
            Err(Error::BadPixelMode(m))
        },
    }
}

fn read_image(r: &mut Reader) -> (res: Result<PngIdatSeg, Error>)
    requires
        old(r).pos <= old(r).data@.len(),
    ensures
        final(r).data@ == old(r).data@,
        match image_at(old(r).data@, old(r).pos as int) {
            Ok((v, p)) => res matches Ok(x) && x@ == v && final(r).pos == p,
            Err(e) => res matches Err(x) && x == e,
        },
{
    let ghost s = r.data@;
    proof {
        lemma_varint_end(s, r.pos as int);
    }
    let n: u64 = match r.varint() {
        Ok(v) => v,
        Err(e) => return Err(e),
    };
    if n > MAX_CHUNKS {
        return Err(Error::ImplausibleChunks);
    }
    proof {
        lemma_lens_end(s, r.pos as int, n as nat);
    }
    let chunk_lens: Vec<u32> = match read_lens(r, n) {
        Ok(v) => v,
        Err(e) => return Err(e),
    };
    let h: &[u8] = match r.bytes(2) {
        Ok(v) => v,
        Err(e) => return Err(e),
    };
    let zlib_header: [u8; 2] = [h[0], h[1]];
    assert(zlib_header@ =~= h@);
    let tail_len: u64 = match r.varint() {
        Ok(v) => v,
        Err(e) => return Err(e),
    };
    let tail: Vec<u8> = match r.bytes_long(tail_len) {
        Ok(v) => vstd::slice::slice_to_vec(v),
        Err(e) => return Err(e),
    };
    let corrections_len: u64 = match r.varint() {
        Ok(v) => v,
        Err(e) => return Err(e),
    };
    let plain_len: u64 = match r.varint() {
        Ok(v) => v,
        Err(e) => return Err(e),
    };
    let width: u32 = match r.varint() {
        Ok(v) => v as u32,
        Err(e) => return Err(e),
    };
    let height: u32 = match r.varint() {
        Ok(v) => v as u32,
        Err(e) => return Err(e),
    };
    let bit_depth: u8 = match r.byte() {
        Ok(v) => v,
        Err(e) => return Err(e),
    };
    let color_type: u8 = match r.byte() {
        Ok(v) => v,
        Err(e) => return Err(e),
    };
    let pixels: PixelEnc = match read_pixels(r) {
        Ok(v) => v,
        Err(e) => return Err(e),
    };
    Ok(
        PngIdatSeg {
            chunk_lens,
            zlib_header,
            tail,
            corrections_len,
            plain_len,
            width,
            height,
            bit_depth,
            color_type,
            pixels,
        },
    )
}

/// Reads a list of segments.
pub fn read_segs(r: &mut Reader) -> (res: Result<Vec<Seg>, Error>)
    ensures
        final(r).data@ == old(r).data@,
        match pieces_at(old(r).data@, old(r).pos as int) {
            Ok((v, p)) => res matches Ok(x) && pieces(x@) == v && final(r).pos == p,
            Err(e) => res matches Err(x) && x == e,
        },
    decreases room(old(r).data@, old(r).pos as int),
{
    let ghost s = r.data@;
    let ghost start = r.pos as int;
    proof {
        lemma_varint_end(s, start);
    }
    let n: u64 = match r.varint() {
        Ok(v) => v,
        Err(e) => return Err(e),
    };
    if n > MAX_SEGS {
        return Err(Error::ImplausibleSegments(n));
    }
    let ghost p0 = r.pos as int;
    let mut v: Vec<Seg> = Vec::new();
    let mut i: u64 = 0;
    assert(pieces(v@) =~= Seq::<Piece>::empty());
    while i < n
        invariant
            i <= n,
            s == old(r).data@,
            start == old(r).pos,
            start < p0 <= s.len(),
            r.data@ == s,
            list_at(s, p0, i as nat) == Ok::<(Seq<Piece>, int), Error>((pieces(v@), r.pos as int)),
            pieces_at(s, start) == list_at(s, p0, n as nat),
        decreases n - i,
    {
        proof {
            lemma_list_end(s, p0, i as nat);
        }
        let ghost before = r.pos as int;
        match read_seg(r) {
            Ok(x) => {
                proof {
                    lemma_pieces_push(v@, x);
                }
                v.push(x);
            },
            Err(e) => {
                proof {
                    lemma_list_err(s, p0, (i + 1) as nat, n as nat);
                }
                return Err(e);
            },
        }
        i += 1;
    }
    Ok(v)
}

fn read_deflate_body(r: &mut Reader) -> (res: Result<DeflateSeg, Error>)
    ensures
        final(r).data@ == old(r).data@,
        match stream_at(old(r).data@, old(r).pos as int) {
            Ok((v, p)) => res matches Ok(x) && stream(x) == v && final(r).pos == p,
            Err(e) => res matches Err(x) && x == e,
        },
    decreases room(old(r).data@, old(r).pos as int),
{
    let ghost s = r.data@;
    proof {
        lemma_varint_end(s, r.pos as int);
    }
    let corrections_len: u64 = match r.varint() {
        Ok(v) => v,
        Err(e) => return Err(e),
    };
    proof {
        lemma_varint_end(s, r.pos as int);
    }
    let plain_len: u64 = match r.varint() {
        Ok(v) => v,
        Err(e) => return Err(e),
    };
    match read_segs(r) {
        Ok(inner) => Ok(DeflateSeg { corrections_len, plain_len, inner }),
        Err(e) => Err(e),
    }
}

fn read_seg(r: &mut Reader) -> (res: Result<Seg, Error>)
    requires
        old(r).pos <= old(r).data@.len(),
    ensures
        final(r).data@ == old(r).data@,
        match piece_at(old(r).data@, old(r).pos as int) {
            Ok((v, p)) => res matches Ok(x) && piece(x) == v && final(r).pos == p,
            Err(e) => res matches Err(x) && x == e,
        },
    decreases room(old(r).data@, old(r).pos as int),
{
    let ghost s = r.data@;
    let tag: u8 = match r.byte() {
        Ok(b) => b,
        Err(e) => return Err(e),
    };
    proof {
        lemma_varint_end(s, r.pos as int);
    }
    match tag {
        TAG_RAW => match r.varint() {
            Ok(len) => Ok(Seg::Raw { len }),
            Err(e) => Err(e),
        },
        TAG_DEFLATE => match read_deflate_body(r) {
            Ok(d) => Ok(Seg::Deflate(d)),
            Err(e) => Err(e),
        },
        TAG_ZLIB => match r.bytes(2) {
            Ok(h) => {
                let header: [u8; 2] = [h[0], h[1]];
                assert(header@ =~= h@);
                match read_deflate_body(r) {
                    Ok(body) => Ok(Seg::Zlib { header, body }),
                    Err(e) => Err(e),
                }
            },
            Err(e) => Err(e),
        },
        TAG_GZIP => match r.varint() {
            Ok(v) => {
                let header_len: u32 = v as u32;
                match read_deflate_body(r) {
                    Ok(body) => Ok(Seg::Gzip { header_len, body }),
                    Err(e) => Err(e),
                }
            },
            Err(e) => Err(e),
        },
        TAG_PNG => match read_image(r) {
            Ok(p) => Ok(Seg::PngIdat(p)),
            Err(e) => Err(e),
        },
        TAG_JPEG => match r.varint() {
            Ok(lepton_len) => match r.varint() {
                Ok(orig_len) => Ok(Seg::Jpeg { lepton_len, orig_len }),
                Err(e) => Err(e),
            },
            Err(e) => Err(e),
        },
        _ => Err(Error::BadSegmentTag(tag)),
    }
}

} // verus!
