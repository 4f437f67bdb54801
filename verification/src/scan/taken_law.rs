//! What is taken apart: everything that is a stream or a picture and worth it.

use crate::channels::Payload;
use crate::outside::{crc32_of, lepton_of, split_of, zstd_block_of};
use crate::plan::law::{lemma_stands, stands};
use crate::plan::{Piece, PixelEnc, Stream};
use crate::rebuild::filter::unfiltered;
use crate::rebuild::render::{be_bytes, le_bytes};
use crate::refusal::{block_refused, lepton_refused, split_refused};
use crate::scan::candidate::{leads, lemma_leads_inside, Info, Lead};
use crate::scan::format_law::{chunk, chunks, data_chunks, idat, lens_of};
use crate::scan::outcome::{
    built_jpeg, built_png, built_stream, eoi_from, gzip_head, gzip_len, image_of, is_plan, is_try,
    jpeg_pays, lead_refused, lead_there, lemma_planned_before, may_choose, may_store, payload_upto,
    planned, run_upto, stored_image, Progress,
};
use crate::util::checksum::adler32_of;
use vstd::prelude::*;

verus! {

/// Whether a deflate stream of at least 16 bytes starts at `pos`, which a text of
/// at least 64 bytes and corrections recreate.
pub open spec fn is_worthy(data: Seq<u8>, pos: int, plain: Seq<u8>, corrections: Seq<u8>, size: int) -> bool {
    &&& 0 <= pos < data.len()
    &&& split_of(data.skip(pos), 0x1_0000, 0x4000_0000, true) == Some((plain, corrections, size))
    &&& plain.len() >= 64
    &&& size >= 16
}

/// The body of a zip entry that is such a stream is there to take.
pub proof fn lemma_deflate_there(
    data: Seq<u8>,
    pos: int,
    plain: Seq<u8>,
    corrections: Seq<u8>,
    size: int,
)
    requires
        is_worthy(data, pos, plain, corrections, size),
    ensures
        lead_there(Lead::RawDeflate, data, pos),
{
}

/// So is a zlib stream, if the Adler-32 of its text follows.
pub proof fn lemma_zlib_there(
    data: Seq<u8>,
    pos: int,
    plain: Seq<u8>,
    corrections: Seq<u8>,
    size: int,
)
    requires
        is_worthy(data, pos + 2, plain, corrections, size),
        stands(data, pos + 2 + size, be_bytes(adler32_of(plain))),
    ensures
        lead_there(Lead::Zlib, data, pos),
{
    assert(be_bytes(adler32_of(plain)).len() == 4);
}

/// So is a gzip member, if the CRC-32 and the length of its text follow.
pub proof fn lemma_gzip_there(
    data: Seq<u8>,
    pos: int,
    h: int,
    plain: Seq<u8>,
    corrections: Seq<u8>,
    size: int,
)
    requires
        0 <= pos <= data.len(),
        gzip_len(data.skip(pos)) == Some(h),
        h <= u32::MAX,
        is_worthy(data, pos + h, plain, corrections, size),
        stands(
            data,
            pos + h + size,
            le_bytes(crc32_of(plain)) + le_bytes((plain.len() % 0x1_0000_0000) as u32),
        ),
    ensures
        lead_there(Lead::Gzip, data, pos),
{
    lemma_stands(
        data,
        pos + h + size,
        le_bytes(crc32_of(plain)),
        le_bytes((plain.len() % 0x1_0000_0000) as u32),
    );
    assert(le_bytes(crc32_of(plain)).len() == 4);
}

/// Parts one behind the other.
pub open spec fn joined(parts: Seq<Seq<u8>>) -> Seq<u8>
    decreases parts.len(),
{
    if parts.len() == 0 {
        Seq::empty()
    } else {
        joined(parts.drop_last()) + parts.last()
    }
}

pub proof fn lemma_chunks_push(v: Seq<(Seq<u8>, Seq<u8>)>, x: (Seq<u8>, Seq<u8>))
    ensures
        chunks(v.push(x)) == chunks(v) + chunk(x.0, x.1),
    decreases v.len(),
{
    let w = v.push(x);
    if v.len() == 0 {
        assert(w.skip(1) =~= Seq::<(Seq<u8>, Seq<u8>)>::empty());
        assert(w[0] == x);
        assert(chunks(w.skip(1)) =~= Seq::<u8>::empty());
        assert(chunks(w) == chunk(x.0, x.1) + chunks(w.skip(1)));
        assert(chunks(v) =~= Seq::<u8>::empty());
        assert(chunk(x.0, x.1) + Seq::<u8>::empty() =~= Seq::<u8>::empty() + chunk(x.0, x.1));
    } else {
        assert(w.skip(1) =~= v.skip(1).push(x));
        lemma_chunks_push(v.skip(1), x);
        assert(w[0] == v[0]);
        assert(chunks(w) =~= chunks(v) + chunk(x.0, x.1));
    }
}

/// The payload of a run of image chunks is what their bodies hold, one behind the
/// other, and the run is as long as the chunks.
pub proof fn lemma_run_payload(data: Seq<u8>, pos: int, parts: Seq<Seq<u8>>)
    requires
        stands(data, pos, chunks(data_chunks(parts))),
        forall|i: int| 0 <= i < parts.len() ==> (#[trigger] parts[i]).len() <= u32::MAX,
    ensures
        payload_upto(data, pos, lens_of(parts), parts.len()) == joined(parts),
        run_upto(lens_of(parts), parts.len()) == chunks(data_chunks(parts)).len(),
    decreases parts.len(),
{
    let lens = lens_of(parts);
    let n = parts.len();
    if n == 0 {
        assert(payload_upto(data, pos, lens, 0) =~= Seq::<u8>::empty());
    } else {
        let less = parts.drop_last();
        let body = parts.last();
        let k = (n - 1) as nat;
        assert(data_chunks(parts) =~= data_chunks(less).push((idat(), body)));
        lemma_chunks_push(data_chunks(less), (idat(), body));
        lemma_stands(data, pos, chunks(data_chunks(less)), chunk(idat(), body));
        assert forall|i: int| 0 <= i < less.len() implies (#[trigger] less[i]).len()
            <= u32::MAX by {
            assert(less[i] == parts[i]);
        }
        lemma_run_payload(data, pos, less);
        assert(parts[n - 1].len() <= u32::MAX);
        assert(lens[n - 1] == body.len());
        lemma_lens_prefix(data, pos, lens_of(less), lens, k);
        let at = pos + run_upto(lens, k);
        lemma_body(data, at, body);
        assert(chunk(idat(), body).len() == 12 + body.len());
    }
}

proof fn lemma_body(data: Seq<u8>, at: int, body: Seq<u8>)
    requires
        stands(data, at, chunk(idat(), body)),
    ensures
        data.subrange(at + 8, at + 8 + body.len()) == body,
{
    let c = chunk(idat(), body);
    let d = data.subrange(at, at + c.len());
    assert(d == c);
    assert(c.subrange(8, 8 + body.len() as int) =~= body);
    assert(data.subrange(at + 8, at + 8 + body.len()) =~= d.subrange(8, 8 + body.len() as int));
}

proof fn lemma_lens_prefix(data: Seq<u8>, pos: int, a: Seq<u32>, b: Seq<u32>, n: nat)
    requires
        n <= a.len(),
        n <= b.len(),
        forall|i: int| 0 <= i < n ==> a[i] == b[i],
    ensures
        run_upto(a, n) == run_upto(b, n),
        payload_upto(data, pos, a, n) == payload_upto(data, pos, b, n),
    decreases n,
{
    if n > 0 {
        lemma_lens_prefix(data, pos, a, b, (n - 1) as nat);
    }
}

/// The image data of a PNG is there to take where its chunks hold, together, a
/// zlib stream without a preset dictionary whose text has at least 64 bytes, to
/// its Adler-32.
pub proof fn lemma_png_there(
    data: Seq<u8>,
    pos: int,
    info: Info,
    parts: Seq<Seq<u8>>,
    plain: Seq<u8>,
    corrections: Seq<u8>,
    size: int,
)
    requires
        0 <= pos,
        info.chunk_lens == lens_of(parts),
        stands(data, pos, chunks(data_chunks(parts))),
        forall|i: int| 0 <= i < parts.len() ==> (#[trigger] parts[i]).len() <= u32::MAX,
        joined(parts).len() >= 6,
        joined(parts)[0] % 16 == 8,
        (256 * joined(parts)[0] + joined(parts)[1]) % 31 == 0,
        joined(parts)[1] / 32 % 2 == 0,
        split_of(joined(parts).skip(2), 0x1_0000, 0x4000_0000, true) == Some(
            (plain, corrections, size),
        ),
        plain.len() >= 64,
        stands(joined(parts), 2 + size, be_bytes(adler32_of(plain))),
    ensures
        lead_there(Lead::Png(info), data, pos),
{
    lemma_run_payload(data, pos, parts);
    assert(be_bytes(adler32_of(plain)).len() == 4);
}

/// Whether the mark that ends a JPEG stands at `i`.
pub open spec fn is_end(hay: Seq<u8>, i: int) -> bool {
    0 <= i && i + 2 <= hay.len() && hay[i] == 0xff && hay[i + 1] == 0xd9
}

/// How many such marks from `from` on, before `to`, end at least 1024 bytes in.
pub open spec fn ends_between(hay: Seq<u8>, from: int, to: int) -> int
    decreases to - from,
{
    if from >= to {
        0
    } else {
        ends_between(hay, from + 1, to) + if is_end(hay, from) && from + 2 >= 1024 {
            1int
        } else {
            0
        }
    }
}

proof fn lemma_ends_some(hay: Seq<u8>, from: int, to: int)
    ensures
        ends_between(hay, from, to) >= 0,
    decreases to - from,
{
    if from < to {
        lemma_ends_some(hay, from + 1, to);
    }
}

proof fn lemma_ends_skip(hay: Seq<u8>, from: int, i: int, to: int)
    requires
        from <= i <= to,
        forall|k: int| from <= k < i ==> !is_end(hay, k),
    ensures
        ends_between(hay, from, to) == ends_between(hay, i, to),
    decreases i - from,
{
    if from < i {
        lemma_ends_skip(hay, from + 1, i, to);
    }
}

proof fn lemma_eoi(hay: Seq<u8>, from: int, e: int)
    requires
        0 <= from <= e,
        is_end(hay, e),
    ensures
        eoi_from(hay, from) matches Some(i) && from <= i <= e && is_end(hay, i) && forall|k: int|
            from <= k < i ==> !is_end(hay, k),
    decreases e - from,
{
    if !is_end(hay, from) {
        lemma_eoi(hay, from + 1, e);
    }
}

proof fn lemma_tried(hay: Seq<u8>, from: int, left: int, e: int)
    requires
        0 <= from <= e,
        is_end(hay, e),
        e + 2 >= 1024,
        ends_between(hay, from, e) < left,
    ensures
        is_try(hay, from, left, e + 2),
    decreases e - from,
{
    lemma_eoi(hay, from, e);
    lemma_ends_some(hay, from, e);
    let i = eoi_from(hay, from)->Some_0;
    if i < e {
        lemma_ends_skip(hay, from, i, e);
        assert(i + 1 < e) by {
            assert(hay[i + 1] == 0xd9 && hay[e] == 0xff);
        }
        assert(!is_end(hay, i + 1));
        assert(ends_between(hay, i + 1, e) == ends_between(hay, i + 2, e));
        lemma_tried(
            hay,
            i + 2,
            if i + 2 >= 1024 {
                left - 1
            } else {
                left
            },
            e,
        );
    }
}

/// A JPEG is there to take where it gets smaller up to one of the first three
/// marks that end it at least 1024 bytes in.
pub proof fn lemma_jpeg_there(data: Seq<u8>, pos: int, end: int, lepton: Seq<u8>)
    requires
        0 <= pos <= data.len(),
        2 <= end,
        is_end(data.skip(pos), end),
        end + 2 >= 1024,
        ends_between(data.skip(pos), 2, end) < 3,
        lepton_of(data.skip(pos).take(end + 2)) == Some(lepton),
        lepton.len() < end + 2,
    ensures
        lead_there(Lead::Jpeg, data, pos),
{
    let hay = data.skip(pos);
    lemma_tried(hay, 2, 3, end);
    assert(jpeg_pays(hay, end + 2));
}

/// A JPEG is kept up to the first of those ends with which it gets smaller, unless
/// the codec was asked about an earlier one and ran out of memory.
pub proof fn lemma_jpeg_first(
    data: Seq<u8>,
    pos: int,
    ch: Payload,
    seg: Piece,
    used: int,
    ch1: Payload,
    end: int,
    lepton: Seq<u8>,
)
    requires
        built_jpeg(data, pos, ch, seg, used, ch1, true),
        2 <= end,
        is_end(data.skip(pos), end),
        end + 2 >= 1024,
        ends_between(data.skip(pos), 2, end) < 3,
        lepton_of(data.skip(pos).take(end + 2)) == Some(lepton),
        lepton.len() < end + 2,
        !lepton_refused(data.skip(pos).take(end + 2)),
    ensures
        used <= end + 2,
{
    let hay = data.skip(pos);
    lemma_tried(hay, 2, 3, end);
    assert(jpeg_pays(hay, end + 2));
}

/// Whether a codec was asked about a candidate, at the bytes where its stream
/// starts, and ran out of memory.
pub open spec fn was_refused(m: Lead, data: Seq<u8>, pos: int) -> bool {
    match m {
        Lead::RawDeflate => split_refused(data.skip(pos), 0x1_0000, 0x4000_0000, true),
        Lead::Zlib => split_refused(data.skip(pos + 2), 0x1_0000, 0x4000_0000, true),
        Lead::Gzip => exists|h: int|
            #![trigger data.skip(pos + h)]
            split_refused(data.skip(pos + h), 0x1_0000, 0x4000_0000, true),
        Lead::Png(info) => split_refused(
            payload_upto(data, pos, info.chunk_lens, info.chunk_lens.len()).skip(2),
            0x1_0000,
            0x4000_0000,
            true,
        ),
        Lead::Jpeg => exists|e: int|
            #![trigger data.skip(pos).take(e)]
            lepton_refused(data.skip(pos).take(e)),
    }
}

proof fn lemma_refused(m: Lead, data: Seq<u8>, pos: int)
    requires
        lead_refused(m, data, pos),
    ensures
        was_refused(m, data, pos),
{
    reveal(lead_refused);
    if m is Gzip {
        let h = gzip_head(data.skip(pos))->Some_0;
        assert(split_refused(data.skip(pos + h), 0x1_0000, 0x4000_0000, true));
    }
    if m is Jpeg {
        let e = choose|e: int| #[trigger]
            is_try(data.skip(pos), 2, 3, e) && lepton_refused(data.skip(pos).take(e));
        assert(lepton_refused(data.skip(pos).take(e)));
    }
}

proof fn lemma_nothing_yet(data: Seq<u8>, depth: int, ch: Payload, k: nat, p: Progress, short: bool)
    requires
        k <= leads(data).len(),
        planned(data, depth, ch, k, p, short),
    ensures
        p.segs.len() > 0 ==> !(p.segs.last() is Raw),
        p.segs.len() == 0 ==> p.at == 0 && forall|i: int|
            0 <= i < k ==> {
                let lead = #[trigger] leads(data)[i];
                lead_there(lead.1, data, lead.0) ==> short && was_refused(lead.1, data, lead.0)
            },
    decreases k,
{
    if k > 0 {
        let q = lemma_planned_before(data, depth, ch, k, p, short);
        lemma_nothing_yet(data, depth, ch, (k - 1) as nat, q, short);
        lemma_leads_inside(data);
        let lead = leads(data)[k - 1];
        if p == q {
            if p.segs.len() == 0 && lead_there(lead.1, data, lead.0) {
                lemma_refused(lead.1, data, lead.0);
            }
        } else {
            let lit = q.literal(data, lead.0);
            assert(p.segs.len() == lit.segs.len() + 1);
        }
    }
}

/// A plan keeps all the data as it is only where nothing is there to take: for
/// each candidate that is there, a codec was asked about it and ran out of memory.
pub proof fn lemma_all_taken(
    data: Seq<u8>,
    depth: int,
    ch: Payload,
    segs: Seq<Piece>,
    ch1: Payload,
    short: bool,
)
    requires
        is_plan(data, depth, ch, segs, ch1, short),
        forall|i: int| 0 <= i < segs.len() ==> #[trigger] segs[i] is Raw,
    ensures
        forall|i: int|
            0 <= i < leads(data).len() ==> {
                let lead = #[trigger] leads(data)[i];
                lead_there(lead.1, data, lead.0) ==> short && was_refused(lead.1, data, lead.0)
            },
{
    let p = choose|p: Progress| #[trigger]
        p.reached() && planned(data, depth, ch, leads(data).len(), p, short) && segs == p.literal(
            data,
            data.len() as int,
        ).segs && ch1 == p.literal(data, data.len() as int).ch;
    lemma_nothing_yet(data, depth, ch, leads(data).len(), p, short);
    if p.segs.len() > 0 {
        let k = p.segs.len() - 1;
        assert(segs[k] == p.segs[k]);
        assert(segs[k] is Raw);
    }
}

/// Every candidate that is there is taken, or lies in one that was: once it was
/// looked at, the plan so far, which the whole plan starts with, ends in a piece
/// that is no literal, behind where the candidate starts. The only others are those
/// on which a codec was asked and ran out of memory.
pub proof fn lemma_each_taken(
    data: Seq<u8>,
    depth: int,
    ch: Payload,
    k: nat,
    p: Progress,
    short: bool,
    i: int,
) -> (q: Progress)
    requires
        0 <= i < k <= leads(data).len(),
        planned(data, depth, ch, k, p, short),
        lead_there(leads(data)[i].1, data, leads(data)[i].0),
        !short || !was_refused(leads(data)[i].1, data, leads(data)[i].0),
    ensures
        planned(data, depth, ch, (i + 1) as nat, q, short),
        q.segs.is_prefix_of(p.segs),
        q.segs.len() > 0,
        !(q.segs.last() is Raw),
        q.at >= leads(data)[i].0,
    decreases k,
{
    lemma_nothing_yet(data, depth, ch, k, p, short);
    let before = lemma_planned_before(data, depth, ch, k, p, short);
    let lead = leads(data)[k - 1];
    lemma_leads_inside(data);
    if i == k - 1 {
        if p == before && lead.0 >= p.at {
            lemma_refused(lead.1, data, lead.0);
        }
        assert(p.segs.is_prefix_of(p.segs)) by {
            assert(p.segs.subrange(0, p.segs.len() as int) =~= p.segs);
        }
        p
    } else {
        let q = lemma_each_taken(data, depth, ch, (k - 1) as nat, before, short, i);
        if p != before {
            let lit = before.literal(data, lead.0);
            assert(p.segs.subrange(0, q.segs.len() as int) =~= before.segs.subrange(
                0,
                q.segs.len() as int,
            )) by {
                assert forall|j: int| 0 <= j < q.segs.len() implies p.segs[j] == before.segs[j] by {
                    assert(p.segs.drop_last()[j] == p.segs[j]);
                    assert(lit.segs[j] == before.segs[j]);
                }
            }
        }
        q
    }
}

/// A stream that was taken apart says the lengths of its text and corrections,
/// and the corrections go to their channel. Down to three levels its text is
/// planned in turn; below it is kept as it is.
pub proof fn lemma_stream_planned(
    data: Seq<u8>,
    pos: int,
    depth: int,
    ch: Payload,
    d: Stream,
    ch1: Payload,
    short: bool,
)
    requires
        built_stream(data, pos, depth, ch, d, ch1, short),
    ensures
        split_of(data.skip(pos), 0x1_0000, 0x4000_0000, true) matches Some(
            (plain, corrections, size),
        ) && {
            &&& d.plain_len == plain.len()
            &&& d.corrections_len == corrections.len()
            &&& depth < 3 ==> is_plan(
                plain,
                depth + 1,
                ch.plus_corrections(corrections),
                d.inner,
                ch1,
                short,
            )
            &&& depth >= 3 ==> ch1 == ch.plus_corrections(corrections).plus_plain(plain)
        },
{
}

/// The rows of an image are kept as pixels where those get smaller at zstd's
/// level 12, and only there, unless zstd was asked and returned an error.
pub proof fn lemma_rows_or_pixels(
    rows: Seq<u8>,
    pixels: Seq<u8>,
    unfilter: bool,
    short: bool,
    a: Seq<u8>,
    b: Seq<u8>,
)
    requires
        may_choose(rows, pixels, unfilter, short),
        zstd_block_of(rows, 12) == Some(a),
        zstd_block_of(pixels, 12) == Some(b),
        !block_refused(rows, 12),
        !block_refused(pixels, 12),
    ensures
        unfilter == (b.len() < a.len()),
{
}

/// What becomes of the rows of an image that is not interlaced, where zstd makes `a`
/// of them and `b` of their pixels: the pixels are kept where `b` is shorter, with
/// the filters beside them and the width and depth of a row, and the rows where it
/// is not. Either way the image says its chunks, what its stream starts and ends
/// with, and its shape.
pub proof fn lemma_image_kept(
    info: Info,
    data: Seq<u8>,
    pos: int,
    ch: Payload,
    seg: Piece,
    used: int,
    ch1: Payload,
    short: bool,
    a: Seq<u8>,
    b: Seq<u8>,
)
    requires
        built_png(info, data, pos, ch, seg, used, ch1, short),
        info.head.interlace == 0,
        ({
            let z = payload_upto(data, pos, info.chunk_lens, info.chunk_lens.len());
            let (plain, corrections, size) = split_of(
                z.skip(2),
                0x1_0000,
                0x4000_0000,
                true,
            )->Some_0;
            let i = image_of(info, z, plain, corrections, size);
            &&& unfiltered(i, plain) matches Some((f, x))
            &&& zstd_block_of(plain, 12) == Some(a)
            &&& zstd_block_of(x, 12) == Some(b)
            &&& !block_refused(plain, 12)
            &&& !block_refused(x, 12)
        }),
    ensures
        ({
            let z = payload_upto(data, pos, info.chunk_lens, info.chunk_lens.len());
            let (plain, corrections, size) = split_of(
                z.skip(2),
                0x1_0000,
                0x4000_0000,
                true,
            )->Some_0;
            let i = image_of(info, z, plain, corrections, size);
            let (f, x) = unfiltered(i, plain)->Some_0;
            &&& seg matches Piece::PngIdat(j) && {
                &&& j.chunk_lens == info.chunk_lens
                &&& z.take(2) == j.zlib_header
                &&& z.skip(size + 6) == j.tail
                &&& j.width == info.head.width
                &&& j.height == info.head.height
                &&& j.bit_depth == info.head.bit_depth
                &&& j.color_type == info.head.color_type
                &&& j.plain_len == plain.len()
                &&& j.corrections_len == corrections.len()
                &&& b.len() < a.len() ==> j.pixels == (PixelEnc::Unfiltered {
                    blob: ch.blobs.len() as u32,
                })
                &&& b.len() >= a.len() ==> j.pixels is Filtered
            }
            &&& b.len() < a.len() ==> {
                &&& ch1.corrections == ch.corrections + corrections
                &&& ch1.filters == ch.filters + f
                &&& ch1.plain == ch.plain
                &&& ch1.blobs.len() == ch.blobs.len() + 1
                &&& ch1.blobs.last().data == x
                &&& ch1.blobs.last().stride == i.row_len() as u32
                &&& ch1.blobs.last().bpp == i.pixel_len() as u32
            }
            &&& b.len() >= a.len() ==> {
                &&& ch1.corrections == ch.corrections + corrections
                &&& ch1.plain == ch.plain + plain
                &&& ch1.filters == ch.filters
                &&& ch1.blobs == ch.blobs
            }
        }),
{
    let z = payload_upto(data, pos, info.chunk_lens, info.chunk_lens.len());
    let (plain, corrections, size) = split_of(z.skip(2), 0x1_0000, 0x4000_0000, true)->Some_0;
    let i = image_of(info, z, plain, corrections, size);
    let (f, x) = unfiltered(i, plain)->Some_0;
    let unfilter = choose|unfilter: bool| #[trigger]
        may_store(info, i, plain, unfilter, short) && {
            let s = stored_image(i, plain, ch.plus_corrections(corrections), unfilter);
            seg == Piece::PngIdat(s.0) && ch1 == s.1
        };
    lemma_rows_or_pixels(plain, x, unfilter, short, a, b);
}

} // verus!
