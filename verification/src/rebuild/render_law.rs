//! What segments render to, in the formats that they were taken from.

use crate::channels::{Payload, Places};
use crate::error::Error;
use crate::outside::{crc32_of, deflate_of, jpeg_of};
use crate::plan::{Image, Piece, Stream};
use crate::rebuild::render::{
    be_bytes, chunk_bytes, chunks_upto, framed_png, le_bytes, rendered, rendered_piece,
    rendered_upto, sum_upto,
};
use crate::scan::format_law::{chunk, chunks, data_chunks, four, idat, lens_of};
use crate::scan::taken_law::{joined, lemma_chunks_push};
use crate::util::checksum::adler32_of;
use vstd::prelude::*;

verus! {

/// The four bytes of a number say it, the highest first or the lowest first.
pub proof fn lemma_bytes_ordered(x: u32)
    ensures
        be_bytes(x) == four(x as int),
        be_bytes(x).len() == 4,
        0x100_0000 * be_bytes(x)[0] + 0x1_0000 * be_bytes(x)[1] + 0x100 * be_bytes(x)[2]
            + be_bytes(x)[3] == x,
        le_bytes(x) == be_bytes(x).reverse(),
{
    assert(be_bytes(x) =~= four(x as int));
    assert(le_bytes(x) =~= be_bytes(x).reverse());
}

/// Literal bytes are the next of their channel, where it holds as many.
pub proof fn lemma_literal_rendered(len: u64, ch: Payload, c: Places)
    requires
        0 <= c.plain,
    ensures
        c.plain + len <= ch.plain.len() ==> rendered_piece(Piece::Raw { len }, ch, c) == Ok::<
            (Seq<u8>, Places),
            Error,
        >((ch.plain.subrange(c.plain, c.plain + len), Places { plain: c.plain + len, ..c })),
        c.plain + len > ch.plain.len() ==> rendered_piece(Piece::Raw { len }, ch, c) == Err::<
            (Seq<u8>, Places),
            Error,
        >(Error::PlainUnderrun),
{
}

/// A stream is what its text and the next corrections recreate: bare; behind two
/// bytes and before the Adler-32 of the text, the highest byte first; or behind a
/// header and before the CRC-32 of the text and its length, the lowest byte first.
pub proof fn lemma_stream_rendered(
    d: Stream,
    ch: Payload,
    c: Places,
    header: Seq<u8>,
    header_len: u32,
    text: Seq<u8>,
    c1: Places,
    body: Seq<u8>,
)
    requires
        0 <= c.corrections,
        0 <= c.plain,
        c.corrections + d.corrections_len <= ch.corrections.len(),
        rendered(
            d.inner,
            ch,
            Places { corrections: c.corrections + d.corrections_len, ..c },
        ) == Ok::<(Seq<u8>, Places), Error>((text, c1)),
        text.len() == d.plain_len,
        deflate_of(
            text,
            ch.corrections.subrange(c.corrections, c.corrections + d.corrections_len),
        ) == Some(body),
    ensures
        rendered_piece(Piece::Deflate(d), ch, c) == Ok::<(Seq<u8>, Places), Error>((body, c1)),
        rendered_piece(Piece::Zlib { header, body: d }, ch, c) == Ok::<(Seq<u8>, Places), Error>(
            (header + body + four(adler32_of(text) as int), c1),
        ),
        c.plain >= header_len && c.plain <= ch.plain.len() ==> rendered_piece(
            Piece::Gzip { header_len, body: d },
            ch,
            Places { plain: c.plain - header_len, ..c },
        ) == Ok::<(Seq<u8>, Places), Error>(
            (
                ch.plain.subrange(c.plain - header_len, c.plain) + body + four(
                    crc32_of(text) as int,
                ).reverse() + four(text.len() as int % 0x1_0000_0000).reverse(),
                c1,
            ),
        ),
{
    lemma_bytes_ordered(adler32_of(text));
    lemma_bytes_ordered(crc32_of(text));
    lemma_bytes_ordered((text.len() % 0x1_0000_0000) as u32);
    if c.plain >= header_len && c.plain <= ch.plain.len() {
        let c0 = Places { plain: c.plain - header_len, ..c };
        assert(Places { plain: c0.plain + header_len, ..c0 } == c);
    }
}

/// A picture is what the decoder makes of the next bytes of its channel, where it
/// has the length that is expected.
pub proof fn lemma_picture_rendered(n: u64, len: u64, ch: Payload, c: Places, jpeg: Seq<u8>)
    requires
        0 <= c.lepton,
        c.lepton + n <= ch.lepton.len(),
        jpeg_of(ch.lepton.subrange(c.lepton, c.lepton + n)) == Some(jpeg),
    ensures
        rendered_piece(Piece::Jpeg { lepton_len: n, orig_len: len }, ch, c) == if jpeg.len() == len {
            Ok::<(Seq<u8>, Places), Error>((jpeg, Places { lepton: c.lepton + n, ..c }))
        } else {
            Err(Error::LeptonLengthMismatch)
        },
{
}

/// Segments render one behind the other, each from where the one before it ended.
pub proof fn lemma_rendered_in_turn(v: Seq<Piece>, p: Piece, ch: Payload, c: Places)
    ensures
        rendered(Seq::empty(), ch, c) == Ok::<(Seq<u8>, Places), Error>((Seq::empty(), c)),
        rendered(v.push(p), ch, c) == match rendered(v, ch, c) {
            Err(e) => Err(e),
            Ok((s, c1)) => match rendered_piece(p, ch, c1) {
                Err(e) => Err(e),
                Ok((t, c2)) => Ok::<(Seq<u8>, Places), Error>((s + t, c2)),
            },
        },
{
    lemma_upto_prefix(v, v.push(p), v.len(), ch, c);
}

proof fn lemma_upto_prefix(v: Seq<Piece>, w: Seq<Piece>, n: nat, ch: Payload, c: Places)
    requires
        n <= v.len(),
        n <= w.len(),
        forall|i: int| 0 <= i < n ==> v[i] == w[i],
    ensures
        rendered_upto(v, n, ch, c) == rendered_upto(w, n, ch, c),
    decreases n,
{
    if n > 0 {
        lemma_upto_prefix(v, w, (n - 1) as nat, ch, c);
    }
}

proof fn lemma_chunk_same(body: Seq<u8>)
    requires
        body.len() <= u32::MAX,
    ensures
        chunk_bytes(body) == chunk(idat(), body),
{
    lemma_bytes_ordered(body.len() as u32);
    lemma_bytes_ordered(crc32_of(idat() + body));
    assert(crate::rebuild::render::idat() =~= idat());
    assert(chunk_bytes(body) =~= chunk(idat(), body));
}

proof fn lemma_chunks_made(parts: Seq<Seq<u8>>, whole: Seq<u8>, lens: Seq<u32>, n: nat)
    requires
        n <= parts.len(),
        lens == lens_of(parts),
        forall|i: int| 0 <= i < parts.len() ==> (#[trigger] parts[i]).len() <= u32::MAX,
        joined(parts.take(n as int)).is_prefix_of(whole),
    ensures
        sum_upto(lens, n) == joined(parts.take(n as int)).len(),
        chunks_upto(lens, whole, n) == chunks(data_chunks(parts.take(n as int))),
    decreases n,
{
    let now = parts.take(n as int);
    if n == 0 {
        assert(now =~= Seq::<Seq<u8>>::empty());
        assert(chunks_upto(lens, whole, 0) =~= chunks(data_chunks(now)));
    } else {
        let k = (n - 1) as nat;
        let less = parts.take(k as int);
        let part = parts[n - 1];
        assert(now.drop_last() =~= less);
        assert(now.last() == part);
        let a = joined(less);
        assert(joined(now) == a + part);
        assert(a.is_prefix_of(whole)) by {
            assert(whole.subrange(0, a.len() as int) =~= joined(now).subrange(0, a.len() as int));
            assert(joined(now).subrange(0, a.len() as int) =~= a);
        }
        lemma_chunks_made(parts, whole, lens, k);
        assert(part.len() <= u32::MAX);
        assert(lens[n - 1] == part.len());
        let at = a.len() as int;
        assert(whole.subrange(at, at + part.len()) =~= part) by {
            assert(joined(now).subrange(at, at + part.len() as int) =~= part);
            assert(whole.subrange(0, at + part.len() as int) =~= joined(now));
        }
        lemma_chunk_same(part);
        assert(data_chunks(now) =~= data_chunks(less).push((idat(), part)));
        lemma_chunks_push(data_chunks(less), (idat(), part));
    }
}

/// The chunks of an image: its zlib stream, and what was behind it, cut into parts
/// of the lengths that it says, each behind its length and the name "IDAT" and
/// before a checksum of both.
pub proof fn lemma_image_framed(p: Image, text: Seq<u8>, body: Seq<u8>, parts: Seq<Seq<u8>>)
    requires
        forall|i: int| 0 <= i < parts.len() ==> (#[trigger] parts[i]).len() <= u32::MAX,
        p.chunk_lens == lens_of(parts),
        joined(parts) == p.zlib_header + body + four(adler32_of(text) as int) + p.tail,
    ensures
        framed_png(p, text, body) == Ok::<Seq<u8>, Error>(chunks(data_chunks(parts))),
{
    lemma_bytes_ordered(adler32_of(text));
    let whole = joined(parts);
    assert(parts.take(parts.len() as int) =~= parts);
    assert(whole.is_prefix_of(whole)) by {
        assert(whole.subrange(0, whole.len() as int) =~= whole);
    }
    lemma_chunks_made(parts, whole, p.chunk_lens, parts.len());
}

} // verus!
