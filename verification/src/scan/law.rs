//! A plan is a description of the data: rendering it gives the data.

use crate::channels::{in_reach, Payload, Places};
use crate::cm::transform::be_at;
use crate::error::Error;
use crate::plan::{Image, Piece, Stream};
use crate::rebuild::filter::{lemma_refilter_unfilter, refiltered, unfiltered};
use crate::rebuild::render::{
    be_bytes, chunk_bytes, chunks_upto, idat, image_plain, rendered, rendered_image, rendered_piece,
    rendered_stream, rendered_upto, sum_upto, zlib_bytes,
};
use crate::rebuild::shift::lemma_grown;
use crate::scan::attempt::lemma_run_grows;
use crate::scan::candidate::{
    is_chunk, is_idat, is_run, leads, lemma_leads_inside, lemma_leads_runs, Info, Lead,
};
use crate::scan::outcome::{
    built, built_jpeg, built_png, built_stream, eoi_from, gzip_head, gzip_len, image_of, is_plan,
    is_try, lemma_planned_before, levels, may_store, payload_upto, planned, run_upto, split, stored_image,
    stream_size, stream_text, Progress, MAX_DEPTH,
};
use crate::util::checksum::adler32_of;
use vstd::prelude::*;

verus! {

/// The last of the segments that are rendered.
proof fn lemma_rendered_push(v: Seq<Piece>, x: Piece, ch: Payload, c: Places)
    ensures
        rendered(v.push(x), ch, c) == (match rendered(v, ch, c) {
            Err(e) => Err(e),
            Ok((s, c1)) => match rendered_piece(x, ch, c1) {
                Err(e) => Err(e),
                Ok((t, c2)) => Ok((s + t, c2)),
            },
        }),
{
    let w = v.push(x);
    lemma_upto_same(v, x, v.len(), ch, c);
    assert(w[w.len() - 1] == x);
}

proof fn lemma_upto_same(v: Seq<Piece>, x: Piece, n: nat, ch: Payload, c: Places)
    requires
        n <= v.len(),
    ensures
        rendered_upto(v.push(x), n, ch, c) == rendered_upto(v, n, ch, c),
    decreases n,
{
    if n > 0 {
        lemma_upto_same(v, x, (n - 1) as nat, ch, c);
        assert(v.push(x)[n - 1] == v[n - 1]);
    }
}

proof fn lemma_grows_trans(a: Payload, b: Payload, c: Payload)
    requires
        a.grows_to(b),
        b.grows_to(c),
    ensures
        a.grows_to(c),
{
}

/// What was added to a channel is found behind its end.
proof fn lemma_added(a: Seq<u8>, s: Seq<u8>, b: Seq<u8>)
    requires
        (a + s).is_prefix_of(b),
    ensures
        in_reach(b, a.len() as int, s.len() as int),
        b.subrange(a.len() as int, (a.len() + s.len()) as int) == s,
{
    let t = b.subrange(a.len() as int, (a.len() + s.len()) as int);
    assert forall|i: int| 0 <= i < s.len() implies t[i] == s[i] by {
        assert((a + s)[a.len() + i] == b.subrange(0, (a + s).len() as int)[a.len() + i]);
    }
    assert(t =~= s);
}

/// A part of the data kept as it is.
proof fn lemma_literal(data: Seq<u8>, start: Places, p: Progress, pos: int)
    requires
        data.len() <= u64::MAX,
        0 <= p.at <= pos <= data.len(),
        start.are_places(),
        p.ch.blobs.len() <= 0x1_0000_0000,
        rendered(p.segs, p.ch, start) == Ok::<(Seq<u8>, Places), Error>(
            (data.take(p.at), p.ch.ends()),
        ),
    ensures
        p.ch.grows_to(p.literal(data, pos).ch),
        rendered(p.literal(data, pos).segs, p.literal(data, pos).ch, start) == Ok::<
            (Seq<u8>, Places),
            Error,
        >((data.take(pos), p.literal(data, pos).ch.ends())),
{
    if pos > p.at {
        let s = data.subrange(p.at, pos);
        let q = p.literal(data, pos);
        let raw = Piece::Raw { len: (pos - p.at) as u64 };
        lemma_grown(p.segs, p.ch, q.ch, start);
        lemma_rendered_push(p.segs, raw, q.ch, start);
        lemma_added(p.ch.plain, s, q.ch.plain);
        assert(data.take(p.at) + s =~= data.take(pos));
        assert(rendered_piece(raw, q.ch, p.ch.ends()) == Ok::<(Seq<u8>, Places), Error>(
            (s, q.ch.ends()),
        ));
    }
}

proof fn lemma_try_end(hay: Seq<u8>, from: int, left: int, end: int)
    requires
        is_try(hay, from, left, end),
    ensures
        from < end <= hay.len(),
    decreases hay.len() - from,
{
    if let Some(i) = eoi_from(hay, from) {
        let e = i + 2;
        if is_try(hay, e, left - 1, end) {
            lemma_try_end(hay, e, left - 1, end);
        }
        if is_try(hay, e, left, end) {
            lemma_try_end(hay, e, left, end);
        }
    }
}

proof fn lemma_jpeg(
    data: Seq<u8>,
    pos: int,
    ch: Payload,
    seg: Piece,
    used: int,
    ch1: Payload,
    short: bool,
)
    requires
        0 <= pos <= data.len() <= u64::MAX,
        built_jpeg(data, pos, ch, seg, used, ch1, short),
    ensures
        ch.grows_to(ch1),
        0 <= used <= data.len() - pos,
        rendered_piece(seg, ch1, ch.ends()) == Ok::<(Seq<u8>, Places), Error>(
            (data.subrange(pos, pos + used), ch1.ends()),
        ),
{
    let hay = data.skip(pos);
    lemma_try_end(hay, 2, 3, used);
    let blob = crate::outside::lepton_of(hay.take(used))->Some_0;
    lemma_added(ch.lepton, blob, ch1.lepton);
    assert(hay.take(used) =~= data.subrange(pos, pos + used));
}

/// The bytes of a number that was read are the bytes it was read from.
proof fn lemma_be(data: Seq<u8>, at: int)
    requires
        0 <= at,
        at + 4 <= data.len(),
    ensures
        0 <= be_at(data, at) <= u32::MAX,
        be_bytes(be_at(data, at) as u32) == data.subrange(at, at + 4),
{
    let x = be_at(data, at);
    let d = data[at] as int;
    let c = data[at + 1] as int;
    let b = data[at + 2] as int;
    let a = data[at + 3] as int;
    assert(x / 256 == b + 256 * c + 0x1_0000 * d);
    assert(x / 0x1_0000 == c + 256 * d);
    assert(x / 0x100_0000 == d);
    assert(be_bytes(x as u32) =~= data.subrange(at, at + 4));
}

/// A whole IDAT chunk is the chunk that its data makes.
proof fn lemma_chunk(data: Seq<u8>, at: int, len: u32)
    requires
        0 <= at,
        at + 12 + len <= data.len(),
        is_idat(data, at),
        is_chunk(data, at),
        be_at(data, at) == len,
    ensures
        chunk_bytes(data.subrange(at + 8, at + 8 + len)) == data.subrange(at, at + 12 + len),
{
    let d = data.subrange(at + 8, at + 8 + len);
    lemma_be(data, at);
    lemma_be(data, at + 8 + len);
    assert(idat() + d =~= data.subrange(at + 4, at + 8 + len));
    assert(chunk_bytes(d) =~= data.subrange(at, at + 12 + len));
}

proof fn lemma_payload_len(data: Seq<u8>, pos: int, lens: Seq<u32>, n: nat)
    requires
        0 <= pos,
        n <= lens.len(),
        pos + run_upto(lens, lens.len()) <= data.len(),
    ensures
        payload_upto(data, pos, lens, n).len() == sum_upto(lens, n),
    decreases n,
{
    if n > 0 {
        lemma_payload_len(data, pos, lens, (n - 1) as nat);
        lemma_run_grows(lens, n, lens.len());
        lemma_run_grows(lens, (n - 1) as nat, n);
    }
}

/// The payload of more chunks starts with that of fewer.
proof fn lemma_payload_part(data: Seq<u8>, pos: int, lens: Seq<u32>, k: nat, n: nat)
    requires
        0 <= pos,
        k < n <= lens.len(),
        pos + run_upto(lens, lens.len()) <= data.len(),
    ensures
        payload_upto(data, pos, lens, n).subrange(sum_upto(lens, k), sum_upto(lens, k + 1))
            == data.subrange(
            pos + run_upto(lens, k) + 8,
            pos + run_upto(lens, k) + 8 + lens[k as int],
        ),
        0 <= sum_upto(lens, k) <= sum_upto(lens, k + 1) <= sum_upto(lens, n),
    decreases n,
{
    let m = (n - 1) as nat;
    crate::rebuild::render::lemma_sum_grows(lens, k, n);
    crate::rebuild::render::lemma_sum_grows(lens, k + 1, n);
    crate::rebuild::render::lemma_sum_grows(lens, k, k + 1);
    lemma_payload_len(data, pos, lens, n);
    lemma_payload_len(data, pos, lens, m);
    let z = payload_upto(data, pos, lens, n);
    let y = payload_upto(data, pos, lens, m);
    let a = sum_upto(lens, k);
    let b = sum_upto(lens, k + 1);
    if k == m {
        assert(z.subrange(a, b) =~= data.subrange(
            pos + run_upto(lens, k) + 8,
            pos + run_upto(lens, k) + 8 + lens[k as int],
        ));
    } else {
        lemma_payload_part(data, pos, lens, k, m);
        assert(z.subrange(a, b) =~= y.subrange(a, b));
    }
}

/// The chunks that the payload of a run makes are the run.
proof fn lemma_run(data: Seq<u8>, pos: int, lens: Seq<u32>, n: nat)
    requires
        0 <= pos,
        n <= lens.len(),
        pos + run_upto(lens, lens.len()) <= data.len(),
        is_run(data, pos, lens),
    ensures
        chunks_upto(lens, payload_upto(data, pos, lens, lens.len()), n) == data.subrange(
            pos,
            pos + run_upto(lens, n),
        ),
    decreases n,
{
    if n == 0 {
        lemma_run_grows(lens, 0, lens.len());
        assert(data.subrange(pos, pos) =~= Seq::<u8>::empty());
    } else {
        let k = (n - 1) as nat;
        lemma_run(data, pos, lens, k);
        lemma_run_grows(lens, k, n);
        lemma_run_grows(lens, n, lens.len());
        lemma_run_grows(lens, 0, k);
        lemma_payload_part(data, pos, lens, k, lens.len());
        let at = pos + run_upto(lens, k);
        lemma_chunk(data, at, lens[k as int]);
        assert(data.subrange(pos, at) + data.subrange(at, at + 12 + lens[k as int])
            =~= data.subrange(pos, pos + run_upto(lens, n)));
    }
}

/// The rows of an image are found again.
proof fn lemma_rows(i: Image, plain: Seq<u8>, ch: Payload, unfilter: bool)
    requires
        i.pixels is Filtered,
        i.plain_len == plain.len(),
        stored_image(i, plain, ch, unfilter).1.blobs.len() <= 0x1_0000_0000,
    ensures
        ({
            let (j, ch1) = stored_image(i, plain, ch, unfilter);
            &&& ch.grows_to(ch1)
            &&& j == (Image { pixels: j.pixels, ..i })
            &&& image_plain(j, ch1, ch.ends()) == Ok::<(Seq<u8>, Places), Error>(
                (plain, ch1.ends()),
            )
        }),
{
    let (j, ch1) = stored_image(i, plain, ch, unfilter);
    match unfiltered(i, plain) {
        Some((f, x)) if unfilter => {
            lemma_refilter_unfilter(i, plain);
            lemma_added(ch.filters, f, ch1.filters);
            assert(f.len() == i.height);
            assert(ch1.blobs[ch.blobs.len() as int].data == x);
            assert(refiltered(j, f, x) == refiltered(i, f, x));
        },
        _ => {
            lemma_added(ch.plain, plain, ch1.plain);
        },
    }
}

proof fn lemma_png(
    info: Info,
    data: Seq<u8>,
    pos: int,
    ch: Payload,
    seg: Piece,
    used: int,
    ch1: Payload,
    short: bool,
)
    requires
        0 <= pos <= data.len(),
        built_png(info, data, pos, ch, seg, used, ch1, short),
        is_run(data, pos, info.chunk_lens),
        ch1.blobs.len() <= 0x1_0000_0000,
    ensures
        ch.grows_to(ch1),
        0 <= used <= data.len() - pos,
        rendered_piece(seg, ch1, ch.ends()) == Ok::<(Seq<u8>, Places), Error>(
            (data.subrange(pos, pos + used), ch1.ends()),
        ),
{
    let lens = info.chunk_lens;
    let z = payload_upto(data, pos, lens, lens.len());
    let (plain, corrections, size) = split(z.skip(2))->Some_0;
    let i = image_of(info, z, plain, corrections, size);
    let ch0 = ch.plus_corrections(corrections);
    let unfilter = choose|unfilter: bool| #[trigger]
        may_store(info, i, plain, unfilter, short) && seg == Piece::PngIdat(
            stored_image(i, plain, ch0, unfilter).0,
        ) && ch1 == stored_image(i, plain, ch0, unfilter).1;
    let j = stored_image(i, plain, ch0, unfilter).0;
    lemma_rows(i, plain, ch0, unfilter);
    lemma_grows_trans(ch, ch0, ch1);
    lemma_run_grows(lens, 0, lens.len());
    lemma_payload_len(data, pos, lens, lens.len());
    lemma_run(data, pos, lens, lens.len());
    lemma_added(ch.corrections, corrections, ch1.corrections);
    // The places differ only in the corrections, which the rows do not touch.
    let c1 = Places { corrections: ch.corrections.len() as int, ..ch1.ends() };
    assert(image_plain(j, ch1, ch.ends()) == Ok::<(Seq<u8>, Places), Error>((plain, c1)));
    let body = z.subrange(2, 2 + size);
    let zlib = zlib_bytes(j, body, plain);
    assert(zlib =~= z) by {
        assert(z.subrange(2 + size, 2 + size + 4) == be_bytes(adler32_of(plain)));
        assert(j.zlib_header == z.take(2));
        assert(j.tail == z.skip(2 + size + 4));
        assert(be_bytes(adler32_of(plain)).len() == 4);
        assert(z =~= z.take(2) + z.subrange(2, 2 + size) + z.subrange(2 + size, 2 + size + 4)
            + z.skip(2 + size + 4));
    }
    assert(rendered_image(j, ch1, ch.ends()) == Ok::<(Seq<u8>, Places), Error>(
        (data.subrange(pos, pos + used), ch1.ends()),
    ));
}

proof fn lemma_stream(
    data: Seq<u8>,
    pos: int,
    depth: int,
    ch: Payload,
    d: Stream,
    ch1: Payload,
    short: bool,
)
    requires
        data.len() <= u64::MAX,
        built_stream(data, pos, depth, ch, d, ch1, short),
        ch1.blobs.len() <= 0x1_0000_0000,
    ensures
        ch.grows_to(ch1),
        0 <= stream_size(data, pos) <= data.len() - pos,
        rendered_stream(d, ch1, ch.ends()) == Ok::<(Seq<u8>, Seq<u8>, Places), Error>(
            (
                data.subrange(pos, pos + stream_size(data, pos)),
                stream_text(data, pos),
                ch1.ends(),
            ),
        ),
    decreases levels(depth), 0nat, 0nat,
{
    let (plain, corrections, size) = split(data.skip(pos))->Some_0;
    let ch0 = ch.plus_corrections(corrections);
    if depth < MAX_DEPTH {
        lemma_plan_renders(plain, depth + 1, ch0, d.inner, ch1, short);
    } else {
        let raw = Piece::Raw { len: plain.len() as u64 };
        lemma_added(ch0.plain, plain, ch1.plain);
        lemma_rendered_push(Seq::empty(), raw, ch1, ch0.ends());
        assert(Seq::<Piece>::empty().push(raw) =~= d.inner);
        assert(Seq::<u8>::empty() + plain =~= plain);
        assert(ch0.grows_to(ch1));
    }
    lemma_grows_trans(ch, ch0, ch1);
    lemma_added(ch.corrections, corrections, ch1.corrections);
}

proof fn lemma_zlib(
    data: Seq<u8>,
    pos: int,
    depth: int,
    ch: Payload,
    seg: Piece,
    used: int,
    ch1: Payload,
    short: bool,
)
    requires
        0 <= pos <= data.len() <= u64::MAX,
        built(Lead::Zlib, data, pos, depth, ch, seg, used, ch1, short),
        ch1.blobs.len() <= 0x1_0000_0000,
    ensures
        ch.grows_to(ch1),
        0 <= used <= data.len() - pos,
        rendered_piece(seg, ch1, ch.ends()) == Ok::<(Seq<u8>, Places), Error>(
            (data.subrange(pos, pos + used), ch1.ends()),
        ),
    decreases levels(depth), 0nat, 1nat,
{
    let d = seg->Zlib_body;
    lemma_stream(data, pos + 2, depth, ch, d, ch1, short);
    let at = pos + 2 + stream_size(data, pos + 2);
    assert(data.subrange(pos, pos + 2) + data.subrange(pos + 2, at) + data.subrange(at, at + 4)
        =~= data.subrange(pos, pos + used));
}

proof fn lemma_gzip(
    data: Seq<u8>,
    pos: int,
    depth: int,
    ch: Payload,
    seg: Piece,
    used: int,
    ch1: Payload,
    short: bool,
)
    requires
        0 <= pos <= data.len() <= u64::MAX,
        built(Lead::Gzip, data, pos, depth, ch, seg, used, ch1, short),
        ch1.blobs.len() <= 0x1_0000_0000,
    ensures
        ch.grows_to(ch1),
        0 <= used <= data.len() - pos,
        rendered_piece(seg, ch1, ch.ends()) == Ok::<(Seq<u8>, Places), Error>(
            (data.subrange(pos, pos + used), ch1.ends()),
        ),
    decreases levels(depth), 0nat, 1nat,
{
    let h = gzip_head(data.skip(pos))->Some_0;
    let d = seg->Gzip_body;
    let head = data.subrange(pos, pos + h);
    let ch0 = ch.plus_plain(head);
    lemma_gzip_start(data.skip(pos));
    lemma_stream(data, pos + h, depth, ch0, d, ch1, short);
    lemma_grows_trans(ch, ch0, ch1);
    lemma_added(ch.plain, head, ch1.plain);
    let at = pos + h + stream_size(data, pos + h);
    assert(head + data.subrange(pos + h, at) + data.subrange(at, at + 4) + data.subrange(
        at + 4,
        at + 8,
    ) =~= data.subrange(pos, pos + used));
    assert((Places { plain: ch.ends().plain + h, ..ch.ends() }) == ch0.ends());
}

proof fn lemma_built(
    m: Lead,
    data: Seq<u8>,
    pos: int,
    depth: int,
    ch: Payload,
    seg: Piece,
    used: int,
    ch1: Payload,
    short: bool,
)
    requires
        0 <= pos <= data.len() <= u64::MAX,
        built(m, data, pos, depth, ch, seg, used, ch1, short),
        m matches Lead::Png(info) ==> is_run(data, pos, info.chunk_lens),
        ch1.blobs.len() <= 0x1_0000_0000,
    ensures
        ch.grows_to(ch1),
        0 <= used <= data.len() - pos,
        rendered_piece(seg, ch1, ch.ends()) == Ok::<(Seq<u8>, Places), Error>(
            (data.subrange(pos, pos + used), ch1.ends()),
        ),
    decreases levels(depth), 0nat, 2nat,
{
    match m {
        Lead::RawDeflate => {
            lemma_stream(data, pos, depth, ch, seg->Deflate_0, ch1, short);
        },
        Lead::Zlib => {
            lemma_zlib(data, pos, depth, ch, seg, used, ch1, short);
        },
        Lead::Gzip => {
            lemma_gzip(data, pos, depth, ch, seg, used, ch1, short);
        },
        Lead::Png(info) => {
            lemma_png(info, data, pos, ch, seg, used, ch1, short);
        },
        Lead::Jpeg => {
            lemma_jpeg(data, pos, ch, seg, used, ch1, short);
        },
    }
}

proof fn lemma_gzip_start(g: Seq<u8>)
    ensures
        gzip_len(g) matches Some(h) ==> 0 <= h < g.len(),
{
    lemma_zero(g, 10);
    if let Some(p1) = crate::scan::outcome::after_extra(g, 10, (g[3] as int) / 4 % 2 == 1) {
        lemma_zero(g, p1);
        if let Some(p2) = crate::scan::outcome::after_text(g, p1, (g[3] as int) / 8 % 2 == 1) {
            lemma_zero(g, p2);
        }
    }
}

proof fn lemma_zero(g: Seq<u8>, p: int)
    ensures
        crate::scan::outcome::zero_from(g, p) matches Some(z) ==> p <= z < g.len(),
    decreases g.len() - p,
{
    if 0 <= p < g.len() && g[p] != 0 {
        lemma_zero(g, p + 1);
    }
}

#[verifier::rlimit(60)]
#[verifier::spinoff_prover]
proof fn lemma_planned_renders(
    data: Seq<u8>,
    depth: int,
    ch: Payload,
    k: nat,
    p: Progress,
    short: bool,
)
    requires
        data.len() <= u64::MAX,
        k <= leads(data).len(),
        planned(data, depth, ch, k, p, short),
        p.ch.blobs.len() <= 0x1_0000_0000,
    ensures
        ch.grows_to(p.ch),
        0 <= p.at <= data.len(),
        rendered(p.segs, p.ch, ch.ends()) == Ok::<(Seq<u8>, Places), Error>(
            (data.take(p.at), p.ch.ends()),
        ),
    decreases levels(depth), 1nat, k,
{
    if k == 0 {
        assert(data.take(0) =~= Seq::<u8>::empty());
    } else {
        let q = lemma_planned_before(data, depth, ch, k, p, short);
        let lead = leads(data)[k - 1];
        lemma_leads_inside(data);
        lemma_leads_runs(data);
        if p == q {
            lemma_planned_renders(data, depth, ch, (k - 1) as nat, q, short);
        } else {
            let pos = lead.0;
            let lit = q.literal(data, pos);
            let seg = p.segs.last();
            let used = p.at - pos;
            lemma_built(lead.1, data, pos, depth, lit.ch, seg, used, p.ch, short);
            assert(q.ch.grows_to(lit.ch));
            lemma_planned_renders(data, depth, ch, (k - 1) as nat, q, short);
            lemma_literal(data, ch.ends(), q, pos);
            lemma_grows_trans(q.ch, lit.ch, p.ch);
            lemma_grows_trans(ch, q.ch, p.ch);
            lemma_grown(lit.segs, lit.ch, p.ch, ch.ends());
            lemma_rendered_push(lit.segs, seg, p.ch, ch.ends());
            assert(lit.segs.push(seg) =~= p.segs);
            assert(data.take(pos) + data.subrange(pos, p.at) =~= data.take(p.at));
        }
    }
}

/// Whatever planning comes to describes the data: rendering the segments from
/// where the channels ended before gives the data, and leads to where they end
/// now.
pub proof fn lemma_plan_renders(
    data: Seq<u8>,
    depth: int,
    ch: Payload,
    segs: Seq<Piece>,
    ch1: Payload,
    short: bool,
)
    requires
        data.len() <= u64::MAX,
        is_plan(data, depth, ch, segs, ch1, short),
        ch1.blobs.len() <= 0x1_0000_0000,
    ensures
        ch.grows_to(ch1),
        rendered(segs, ch1, ch.ends()) == Ok::<(Seq<u8>, Places), Error>((data, ch1.ends())),
    decreases levels(depth), 2nat, 0nat,
{
    let p = choose|p: Progress| #[trigger]
        p.reached() && planned(data, depth, ch, leads(data).len(), p, short) && segs == p.literal(
            data,
            data.len() as int,
        ).segs && ch1 == p.literal(data, data.len() as int).ch;
    lemma_planned_renders(data, depth, ch, leads(data).len(), p, short);
    lemma_literal(data, ch.ends(), p, data.len() as int);
    lemma_grows_trans(ch, p.ch, ch1);
    assert(data.take(data.len() as int) =~= data);
}

} // verus!
